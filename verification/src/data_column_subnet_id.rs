//! Identifies each data column subnet by an integer identifier.
use crate::eth_spec::EthSpec;
use crate::hash256::{spec_u64_from_le_prefix, u64_from_le_prefix};
use crate::uint256::Uint256;
use itertools::Itertools;
use safe_arith::{ArithError, SafeArith};
use smallvec::SmallVec;
use vstd::prelude::*;

verus! {

/// The number of data-column subnets that have a name.
pub const DATA_COLUMN_SUBNET_COUNT: u64 = 32;

/// The index of a data column.
pub type ColumnIndex = u64;

/// The identifier of a data-column subnet.
#[derive(Clone, Copy, Debug, PartialEq, Eq, Structural, Hash)]
pub struct DataColumnSubnetId(pub u64);

/// The character of a decimal digit, and of the greatest digit for a greater
/// number.
pub open spec fn digit_char(d: nat) -> char {
    if d == 0 {
        '0'
    } else if d == 1 {
        '1'
    } else if d == 2 {
        '2'
    } else if d == 3 {
        '3'
    } else if d == 4 {
        '4'
    } else if d == 5 {
        '5'
    } else if d == 6 {
        '6'
    } else if d == 7 {
        '7'
    } else if d == 8 {
        '8'
    } else {
        '9'
    }
}

/// A number in decimal digits, without leading zeros.
pub open spec fn decimal(n: nat) -> Seq<char>
    decreases n,
{
    if n < 10 {
        seq![digit_char(n)]
    } else {
        decimal(n / 10).push(digit_char(n % 10))
    }
}

/// The name of the subnet with identifier `i`: the number in decimal digits
/// for one of the `DATA_COLUMN_SUBNET_COUNT` subnets, else a text that says
/// that the identifier is out of range.
pub fn data_column_subnet_id_to_string(i: u64) -> (name: &'static str)
    ensures
        i < DATA_COLUMN_SUBNET_COUNT ==> name@ == decimal(i as nat),
        i >= DATA_COLUMN_SUBNET_COUNT ==> name@ == "data column subnet id out of range"@,
{
    proof {
        reveal_with_fuel(decimal, 3);
        reveal_strlit("0");
        reveal_strlit("1");
        reveal_strlit("2");
        reveal_strlit("3");
        reveal_strlit("4");
        reveal_strlit("5");
        reveal_strlit("6");
        reveal_strlit("7");
        reveal_strlit("8");
        reveal_strlit("9");
        reveal_strlit("10");
        reveal_strlit("11");
        reveal_strlit("12");
        reveal_strlit("13");
        reveal_strlit("14");
        reveal_strlit("15");
        reveal_strlit("16");
        reveal_strlit("17");
        reveal_strlit("18");
        reveal_strlit("19");
        reveal_strlit("20");
        reveal_strlit("21");
        reveal_strlit("22");
        reveal_strlit("23");
        reveal_strlit("24");
        reveal_strlit("25");
        reveal_strlit("26");
        reveal_strlit("27");
        reveal_strlit("28");
        reveal_strlit("29");
        reveal_strlit("30");
        reveal_strlit("31");
    }
    match i {
        0 => "0",
        1 => "1",
        2 => "2",
        3 => "3",
        4 => "4",
        5 => "5",
        6 => "6",
        7 => "7",
        8 => "8",
        9 => "9",
        10 => "10",
        11 => "11",
        12 => "12",
        13 => "13",
        14 => "14",
        15 => "15",
        16 => "16",
        17 => "17",
        18 => "18",
        19 => "19",
        20 => "20",
        21 => "21",
        22 => "22",
        23 => "23",
        24 => "24",
        25 => "25",
        26 => "26",
        27 => "27",
        28 => "28",
        29 => "29",
        30 => "30",
        31 => "31",
        _ => "data column subnet id out of range",
    }
}

/// The error of `safe_arith`'s checked operations, carried as it is.
#[verifier::external_type_specification]
#[verifier::external_body]
pub struct ExArithError(ArithError);

/// What can go wrong with the arithmetic on subnet identifiers.
#[derive(Debug)]
pub enum Error {
    ArithError(ArithError),
}

impl From<ArithError> for Error {
    fn from(e: ArithError) -> (error: Error) {
        Error::ArithError(e)
    }
}

impl vstd::std_specs::convert::FromSpecImpl<ArithError> for Error {
    open spec fn obeys_from_spec() -> bool {
        true
    }

    open spec fn from_spec(e: ArithError) -> Error {
        Error::ArithError(e)
    }
}

/// The list of subnets that `compute_custody_subnets` fills: a
/// `SmallVec<[u64; 32]>`, which keeps up to 32 items without allocating.
#[verifier::external_body]
pub struct SubnetList {
    items: SmallVec<[u64; 32]>,
}

/// The items that a list of subnets holds, in order.
pub uninterp spec fn subnet_list_items(list: SubnetList) -> Seq<u64>;

impl SubnetList {
    /// Calls `SmallVec::new`: a list without items.
    #[verifier::external_body]
    fn new() -> (list: SubnetList)
        ensures
            subnet_list_items(list) == Seq::<u64>::empty(),
    {
        SubnetList { items: SmallVec::new() }
    }

    /// Calls `SmallVec::len`: the number of items.
    #[verifier::external_body]
    fn len(&self) -> (len: usize)
        ensures
            len == subnet_list_items(*self).len(),
    {
        self.items.len()
    }

    /// Calls `contains` on the `SmallVec` as a slice: whether some item equals
    /// `subnet`.
    #[verifier::external_body]
    fn contains(&self, subnet: u64) -> (found: bool)
        ensures
            found == subnet_list_items(*self).contains(subnet),
    {
        self.items.contains(&subnet)
    }

    /// Calls `SmallVec::push`: the item is appended.
    #[verifier::external_body]
    fn push(&mut self, subnet: u64)
        ensures
            subnet_list_items(*final(self)) == subnet_list_items(*old(self)).push(subnet),
    {
        self.items.push(subnet)
    }

    /// Calls `SmallVec::into_vec`: the same items, in the same order, in a `Vec`.
    #[verifier::external_body]
    fn into_vec(self) -> (items: Vec<u64>)
        ensures
            items@ == subnet_list_items(self),
    {
        self.items.into_vec()
    }
}

/// The character of the decimal digit `d`, and of the greatest digit for a
/// greater number.
pub fn digit(d: u64) -> (c: char)
    ensures
        c == digit_char(d as nat),
{
    match d {
        0 => '0',
        1 => '1',
        2 => '2',
        3 => '3',
        4 => '4',
        5 => '5',
        6 => '6',
        7 => '7',
        8 => '8',
        _ => '9',
    }
}

/// The decimal digits of `n`, without leading zeros.
pub fn decimal_digits(n: u64) -> (digits: Vec<char>)
    ensures
        digits@ == decimal(n as nat),
    decreases n,
{
    if n < 10 {
        let mut digits: Vec<char> = Vec::new();
        digits.push(digit(n));
        digits
    } else {
        let mut digits = decimal_digits(n / 10);
        digits.push(digit(n % 10));
        digits
    }
}

/// Collects the characters into a `String` with `String::from_iter`: the
/// string that holds them in order.
#[verifier::external_body]
fn string_from_chars(chars: &Vec<char>) -> (s: String)
    ensures
        s@ == chars@,
{
    chars.iter().collect()
}

/// Calls `SafeArith::safe_rem` on `usize`, which is `checked_rem` with an error
/// in place of `None`: the remainder, or an error where the divisor is zero.
#[verifier::external_body]
fn safe_rem(dividend: usize, divisor: usize) -> (remainder: Result<usize, ArithError>)
    ensures
        match remainder {
            Ok(r) => divisor != 0 && r == dividend % divisor,
            Err(_) => divisor == 0,
        },
{
    dividend.safe_rem(divisor)
}

impl DataColumnSubnetId {
    /// The subnet with the given identifier.
    pub fn new(id: u64) -> (subnet: Self)
        ensures
            subnet == DataColumnSubnetId(id),
    {
        DataColumnSubnetId(id)
    }

    /// The identifier in decimal digits.
    pub fn to_string(&self) -> (s: String)
        ensures
            s@ == decimal(self.0 as nat),
    {
        string_from_chars(&decimal_digits(self.0))
    }

    /// The subnet that carries the column with the given index.
    pub fn from_column_index<E: EthSpec>(column_index: usize) -> (subnet: Self)
        ensures
            subnet.0 == column_index % E::spec_data_column_subnet_count(),
    {
        match safe_rem(column_index, E::data_column_subnet_count()) {
            Ok(remainder) => DataColumnSubnetId(remainder as u64),
            Err(_) => vstd::pervasive::unreached(),
        }
    }

    /// The columns that the subnet carries: each successive column index is
    /// offset by the number of subnets.
    pub open spec fn spec_columns<E: EthSpec>(&self) -> Seq<ColumnIndex> {
        Seq::new(
            E::spec_data_columns_per_subnet() as nat,
            |i: int| (E::spec_data_column_subnet_count() * i + self.0) as u64,
        )
    }

    /// The columns that the subnet carries, in ascending order. The greatest of
    /// them must fit in 64 bits.
    pub fn columns<E: EthSpec>(&self) -> (columns: Vec<ColumnIndex>)
        requires
            E::spec_data_columns_per_subnet() > 0 ==> E::spec_data_column_subnet_count() * (
            E::spec_data_columns_per_subnet() - 1) + self.0 <= u64::MAX,
        ensures
            columns@ == self.spec_columns::<E>(),
    {
        let subnet = self.0;
        let data_column_subnet_count = E::data_column_subnet_count() as u64;
        let columns_per_subnet = E::data_columns_per_subnet() as u64;
        let mut columns: Vec<ColumnIndex> = Vec::new();
        let mut i: u64 = 0;
        while i < columns_per_subnet
            invariant
                i <= columns_per_subnet,
                subnet == self.0,
                data_column_subnet_count == E::spec_data_column_subnet_count(),
                columns_per_subnet == E::spec_data_columns_per_subnet(),
                data_column_subnet_count * (columns_per_subnet - 1) + subnet <= u64::MAX,
                columns@ == Seq::new(
                    i as nat,
                    |k: int| (E::spec_data_column_subnet_count() * k + self.0) as u64,
                ),
            decreases columns_per_subnet - i,
        {
            assert(data_column_subnet_count * i <= data_column_subnet_count * (columns_per_subnet - 1))
                by (nonlinear_arith)
                requires
                    i <= columns_per_subnet - 1,
            ;
            columns.push(data_column_subnet_count * i + subnet);
            i += 1;
            assert(columns@ =~= Seq::new(
                i as nat,
                |k: int| (E::spec_data_column_subnet_count() * k + self.0) as u64,
            ));
        }
        columns
    }
}

/// The SHA-256 digest of `input`.
pub uninterp spec fn sha256(input: Seq<u8>) -> [u8; 32];

/// Calls `ethereum_hashing::hash_fixed`: the SHA-256 digest of the input.
#[verifier::external_body]
fn hash_fixed(input: &[u8; 32]) -> (digest: [u8; 32])
    ensures
        digest == sha256(input@),
{
    ethereum_hashing::hash_fixed(&input[..])
}

/// Calls `Itertools::sorted`, which collects the items, sorts them with
/// `slice::sort` and hands them out again: the same items in ascending order.
#[verifier::external_body]
fn sorted(items: Vec<u64>) -> (sorted: Vec<u64>)
    ensures
        sorted@.to_multiset() == items@.to_multiset(),
        is_ascending(sorted@),
{
    items.into_iter().sorted().collect()
}

/// Whether the items stand in ascending order.
pub open spec fn is_ascending(items: Seq<u64>) -> bool {
    forall|i: int, j: int| 0 <= i < j < items.len() ==> items[i] <= items[j]
}

/// The node identifier that is tried after `id`: the next number, and after
/// the greatest number the number one.
pub open spec fn next_node_id(id: Uint256) -> Uint256 {
    if id.spec_is_max() {
        (Uint256 { limb0: 0, limb1: 0, limb2: 0, limb3: 0 }).spec_add_one()
    } else {
        id.spec_add_one()
    }
}

/// The node identifier that is tried after `n` others, starting from `node_id`.
pub open spec fn nth_node_id(node_id: Uint256, n: nat) -> Uint256
    decreases n,
{
    if n == 0 {
        node_id
    } else {
        next_node_id(nth_node_id(node_id, (n - 1) as nat))
    }
}

/// The subnet that a digest points to: its first eight bytes as a number,
/// modulo the number of subnets.
pub open spec fn spec_subnet_of_digest<E: EthSpec>(digest: Seq<u8>) -> u64 {
    (spec_u64_from_le_prefix(digest) % E::spec_data_column_subnet_count() as u64) as u64
}

/// The subnet that a digest points to.
pub fn subnet_of_digest<E: EthSpec>(digest: &[u8; 32]) -> (subnet: u64)
    ensures
        subnet == spec_subnet_of_digest::<E>(digest@),
        subnet < E::spec_data_column_subnet_count(),
{
    let hash_prefix_u64 = u64_from_le_prefix(digest);
    hash_prefix_u64 % (E::data_column_subnet_count() as u64)
}

/// The subnet that the identifier `id` points to: the one that the SHA-256
/// digest of its 32 bytes points to.
pub open spec fn subnet_of<E: EthSpec>(id: Uint256) -> u64 {
    spec_subnet_of_digest::<E>(sha256(id.spec_to_little_endian())@)
}

/// The subnets that the first `attempts` identifiers from `node_id` on point
/// to, each once, in the order in which they first come up.
pub open spec fn collected_subnets<E: EthSpec>(node_id: Uint256, attempts: nat) -> Seq<u64>
    decreases attempts,
{
    if attempts == 0 {
        Seq::empty()
    } else {
        let before = collected_subnets::<E>(node_id, (attempts - 1) as nat);
        let subnet = subnet_of::<E>(nth_node_id(node_id, (attempts - 1) as nat));
        if before.contains(subnet) {
            before
        } else {
            before.push(subnet)
        }
    }
}

/// Whether `subnets` is what the search for `custody_subnet_count` subnets
/// yields after `attempts` identifiers: the subnets collected from them, where
/// that made the count full for the first time, or where the search gave up
/// after as many identifiers as 64 bits count.
pub open spec fn is_custody_search<E: EthSpec>(
    node_id: Uint256,
    custody_subnet_count: u64,
    attempts: nat,
    subnets: Seq<u64>,
) -> bool {
    &&& subnets == collected_subnets::<E>(node_id, attempts)
    &&& attempts <= u64::MAX
    &&& subnets.len() == custody_subnet_count || attempts == u64::MAX
    &&& subnets.len() <= custody_subnet_count
    &&& attempts > 0 ==> collected_subnets::<E>(node_id, (attempts - 1) as nat).len()
        < custody_subnet_count
}

/// The identifiers of the subnets, as plain numbers.
pub open spec fn subnet_numbers(subnets: Seq<DataColumnSubnetId>) -> Seq<u64> {
    subnets.map_values(|subnet: DataColumnSubnetId| subnet.0)
}

/// The columns of the subnets, subnet after subnet.
pub open spec fn all_columns<E: EthSpec>(subnets: Seq<DataColumnSubnetId>) -> Seq<ColumnIndex>
    decreases subnets.len(),
{
    if subnets.len() == 0 {
        Seq::empty()
    } else {
        all_columns::<E>(subnets.drop_last()) + subnets.last().spec_columns::<E>()
    }
}

impl DataColumnSubnetId {
    /// Compute required subnets to subscribe to given the node id.
    ///
    /// One identifier after another is hashed, from `node_id` on, and the
    /// subnet that it points to is taken unless it was taken before, until
    /// `custody_subnet_count` subnets are there. The search gives up after as
    /// many identifiers as 64 bits count.
    pub fn compute_custody_subnets<E: EthSpec>(node_id: Uint256, custody_subnet_count: u64) -> (subnets:
        Vec<DataColumnSubnetId>)
        ensures
            exists|attempts: nat|
                is_custody_search::<E>(
                    node_id,
                    custody_subnet_count,
                    attempts,
                    #[trigger] collected_subnets::<E>(node_id, attempts),
                ) && subnet_numbers(subnets@) == collected_subnets::<E>(node_id, attempts),
            subnet_numbers(subnets@).no_duplicates(),
            forall|i: int|
                0 <= i < subnets@.len() ==> (#[trigger] subnets@[i]).0
                    < E::spec_data_column_subnet_count(),
    {
        let mut subnets = SubnetList::new();
        let mut current_id = node_id;
        let mut attempts: u64 = 0;
        while (subnets.len() as u64) < custody_subnet_count && attempts < u64::MAX
            invariant
                subnet_list_items(subnets) == collected_subnets::<E>(node_id, attempts as nat),
                current_id == nth_node_id(node_id, attempts as nat),
                subnet_list_items(subnets).len() <= custody_subnet_count,
                subnet_list_items(subnets).no_duplicates(),
                forall|i: int|
                    0 <= i < subnet_list_items(subnets).len() ==> subnet_list_items(subnets)[i]
                        < E::spec_data_column_subnet_count(),
                attempts > 0 ==> collected_subnets::<E>(node_id, (attempts - 1) as nat).len()
                    < custody_subnet_count,
            decreases u64::MAX - attempts,
        {
            let node_id_bytes = current_id.to_little_endian();
            let hash = hash_fixed(&node_id_bytes);
            let subnet = subnet_of_digest::<E>(&hash);

            if !subnets.contains(subnet) {
                subnets.push(subnet);
            }
            if current_id.is_max() {
                current_id = Uint256::zero();
            }
            current_id = current_id.add_one();
            attempts += 1;
        }
        let numbers = subnets.into_vec();
        let mut ids: Vec<DataColumnSubnetId> = Vec::with_capacity(numbers.len());
        let mut i: usize = 0;
        while i < numbers.len()
            invariant
                i <= numbers.len(),
                subnet_numbers(ids@) == numbers@.take(i as int),
            decreases numbers.len() - i,
        {
            let ghost before = ids@;
            ids.push(DataColumnSubnetId::new(numbers[i]));
            assert(subnet_numbers(ids@) =~= subnet_numbers(before).push(numbers@[i as int]));
            assert(numbers@.take(i as int + 1) =~= numbers@.take(i as int).push(numbers@[i as int]));
            i += 1;
        }
        assert(numbers@.take(i as int) =~= numbers@);
        assert(is_custody_search::<E>(
            node_id,
            custody_subnet_count,
            attempts as nat,
            collected_subnets::<E>(node_id, attempts as nat),
        ));
        assert forall|i: int| 0 <= i < ids@.len() implies (#[trigger] ids@[i]).0
            < E::spec_data_column_subnet_count() by {
            assert(subnet_numbers(ids@)[i] == ids@[i].0);
        }
        ids
    }

    /// The columns of the subnets that `compute_custody_subnets` yields for the
    /// node, in ascending order.
    pub fn compute_custody_columns<E: EthSpec>(node_id: Uint256, custody_subnet_count: u64) -> (columns:
        Vec<ColumnIndex>)
        ensures
            is_ascending(columns@),
            exists|attempts: nat|
                is_custody_search::<E>(
                    node_id,
                    custody_subnet_count,
                    attempts,
                    #[trigger] collected_subnets::<E>(node_id, attempts),
                ) && columns@.to_multiset() == all_columns::<E>(
                    collected_subnets::<E>(node_id, attempts).map_values(
                        |subnet: u64| DataColumnSubnetId(subnet),
                    ),
                ).to_multiset(),
    {
        let subnets = Self::compute_custody_subnets::<E>(node_id, custody_subnet_count);
        let per_subnet = E::data_columns_per_subnet();
        let mut columns: Vec<ColumnIndex> = Vec::new();
        let mut i: usize = 0;
        while i < subnets.len()
            invariant
                i <= subnets.len(),
                per_subnet == E::spec_data_columns_per_subnet(),
                per_subnet * E::spec_data_column_subnet_count() <= u64::MAX,
                forall|k: int|
                    0 <= k < subnets@.len() ==> (#[trigger] subnets@[k]).0
                        < E::spec_data_column_subnet_count(),
                columns@ == all_columns::<E>(subnets@.take(i as int)),
            decreases subnets.len() - i,
        {
            assert(E::spec_data_columns_per_subnet() > 0 ==> E::spec_data_column_subnet_count() * (
            E::spec_data_columns_per_subnet() - 1) + subnets@[i as int].0 <= u64::MAX) by (nonlinear_arith)
                requires
                    subnets@[i as int].0 < E::spec_data_column_subnet_count(),
                    E::spec_data_columns_per_subnet() * E::spec_data_column_subnet_count() <= u64::MAX,
            ;
            let mut subnet_columns = subnets[i].columns::<E>();
            assert(subnets@.take(i as int + 1).drop_last() =~= subnets@.take(i as int));
            columns.append(&mut subnet_columns);
            i += 1;
        }
        assert(subnets@.take(i as int) =~= subnets@);
        proof {
            let attempts = choose|attempts: nat|
                is_custody_search::<E>(
                    node_id,
                    custody_subnet_count,
                    attempts,
                    #[trigger] collected_subnets::<E>(node_id, attempts),
                ) && subnet_numbers(subnets@) == collected_subnets::<E>(node_id, attempts);
            assert(subnets@ =~= collected_subnets::<E>(node_id, attempts).map_values(
                |subnet: u64| DataColumnSubnetId(subnet),
            )) by {
                assert forall|k: int| 0 <= k < subnets@.len() implies subnets@[k]
                    == DataColumnSubnetId(collected_subnets::<E>(node_id, attempts)[k]) by {
                    assert(subnet_numbers(subnets@)[k] == subnets@[k].0);
                }
            }
        }
        sorted(columns)
    }
}

impl From<u64> for DataColumnSubnetId {
    fn from(x: u64) -> (subnet: Self) {
        DataColumnSubnetId(x)
    }
}

impl vstd::std_specs::convert::FromSpecImpl<u64> for DataColumnSubnetId {
    open spec fn obeys_from_spec() -> bool {
        true
    }

    open spec fn from_spec(x: u64) -> Self {
        DataColumnSubnetId(x)
    }
}

impl std::ops::Deref for DataColumnSubnetId {
    type Target = u64;

    fn deref(&self) -> (id: &u64)
        ensures
            *id == self.0,
    {
        &self.0
    }
}

impl std::ops::DerefMut for DataColumnSubnetId {
    fn deref_mut(&mut self) -> (id: &mut u64)
        ensures
            *id == old(self).0,
            final(self).0 == *final(id),
    {
        &mut self.0
    }
}

impl From<DataColumnSubnetId> for u64 {
    fn from(subnet: DataColumnSubnetId) -> (id: u64) {
        subnet.0
    }
}

impl vstd::std_specs::convert::FromSpecImpl<DataColumnSubnetId> for u64 {
    open spec fn obeys_from_spec() -> bool {
        true
    }

    open spec fn from_spec(subnet: DataColumnSubnetId) -> u64 {
        subnet.0
    }
}

impl AsRef<str> for DataColumnSubnetId {
    fn as_ref(&self) -> (name: &str)
        ensures
            self.0 < DATA_COLUMN_SUBNET_COUNT ==> name@ == decimal(self.0 as nat),
            self.0 >= DATA_COLUMN_SUBNET_COUNT ==> name@ == "data column subnet id out of range"@,
    {
        data_column_subnet_id_to_string(self.0)
    }
}

} // verus!
