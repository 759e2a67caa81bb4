//! The constants of a chain's preset, bound to a type.
use vstd::prelude::*;

verus! {

/// The constants of a preset that this library reads.
pub trait EthSpec: 'static {
    /// The number of slots in an epoch, as a value for contracts.
    spec fn spec_slots_per_epoch() -> u64;

    /// The number of members of the sync committee, as a value for contracts.
    spec fn spec_sync_committee_size() -> usize;

    /// The number of members of one sync subcommittee, as a value for contracts.
    spec fn spec_sync_subcommittee_size() -> usize;

    /// The greatest number of validators that attest in one slot, as a value for
    /// contracts.
    spec fn spec_max_validators_per_slot() -> usize;

    /// The number of data-column subnets, as a value for contracts.
    spec fn spec_data_column_subnet_count() -> usize;

    /// The number of data columns that one subnet carries, as a value for
    /// contracts.
    spec fn spec_data_columns_per_subnet() -> usize;

    /// What every preset keeps to: twice the slots of an epoch and two more fit
    /// the machine word, there is at least one data-column subnet, and the
    /// columns of all subnets together can be counted in 64 bits.
    proof fn lemma_preset_fits()
        ensures
            2 * Self::spec_slots_per_epoch() + 2 <= usize::MAX,
            0 < Self::spec_data_column_subnet_count() <= u64::MAX,
            Self::spec_data_columns_per_subnet() * Self::spec_data_column_subnet_count() <= u64::MAX,
    ;

    /// Returns the `SLOTS_PER_EPOCH` constant for this specification. Twice the
    /// number and two more fit the machine word.
    fn slots_per_epoch() -> (n: u64)
        ensures
            n == Self::spec_slots_per_epoch(),
            2 * n + 2 <= usize::MAX,
    ;

    /// Returns the `SYNC_COMMITTEE_SIZE` constant for this specification.
    fn sync_committee_size() -> (n: usize)
        ensures
            n == Self::spec_sync_committee_size(),
    ;

    /// Returns the size of one sync subcommittee for this specification.
    fn sync_subcommittee_size() -> (n: usize)
        ensures
            n == Self::spec_sync_subcommittee_size(),
    ;

    /// Returns the greatest number of validators that attest in one slot.
    fn max_validators_per_slot() -> (n: usize)
        ensures
            n == Self::spec_max_validators_per_slot(),
    ;

    /// Returns the number of data-column subnets, which is never zero.
    fn data_column_subnet_count() -> (n: usize)
        ensures
            n == Self::spec_data_column_subnet_count(),
            0 < n <= u64::MAX,
    ;

    /// Returns the number of data columns that one subnet carries. The columns
    /// of all subnets together can be counted in 64 bits.
    fn data_columns_per_subnet() -> (n: usize)
        ensures
            n == Self::spec_data_columns_per_subnet(),
            n * Self::spec_data_column_subnet_count() <= u64::MAX,
    ;
}

/// Ethereum Foundation specifications.
#[derive(Clone, Copy, Debug, PartialEq, Eq, Structural)]
pub struct MainnetEthSpec;

impl EthSpec for MainnetEthSpec {
    proof fn lemma_preset_fits() {
    }

    open spec fn spec_slots_per_epoch() -> u64 {
        32
    }

    open spec fn spec_sync_committee_size() -> usize {
        512
    }

    open spec fn spec_sync_subcommittee_size() -> usize {
        128
    }

    open spec fn spec_max_validators_per_slot() -> usize {
        131072
    }

    open spec fn spec_data_column_subnet_count() -> usize {
        32
    }

    open spec fn spec_data_columns_per_subnet() -> usize {
        4
    }

    fn slots_per_epoch() -> u64 {
        32
    }

    fn sync_committee_size() -> usize {
        512
    }

    fn sync_subcommittee_size() -> usize {
        128
    }

    fn max_validators_per_slot() -> usize {
        131072
    }

    fn data_column_subnet_count() -> usize {
        32
    }

    fn data_columns_per_subnet() -> usize {
        4
    }
}

/// Ethereum Foundation minimal spec, as defined in the eth2.0-specs repo.
#[derive(Clone, Copy, Debug, PartialEq, Eq, Structural)]
pub struct MinimalEthSpec;

impl EthSpec for MinimalEthSpec {
    proof fn lemma_preset_fits() {
    }

    open spec fn spec_slots_per_epoch() -> u64 {
        8
    }

    open spec fn spec_sync_committee_size() -> usize {
        32
    }

    open spec fn spec_sync_subcommittee_size() -> usize {
        8
    }

    open spec fn spec_max_validators_per_slot() -> usize {
        8192
    }

    open spec fn spec_data_column_subnet_count() -> usize {
        32
    }

    open spec fn spec_data_columns_per_subnet() -> usize {
        4
    }

    fn slots_per_epoch() -> u64 {
        8
    }

    fn sync_committee_size() -> usize {
        32
    }

    fn sync_subcommittee_size() -> usize {
        8
    }

    fn max_validators_per_slot() -> usize {
        8192
    }

    fn data_column_subnet_count() -> usize {
        32
    }

    fn data_columns_per_subnet() -> usize {
        4
    }
}

/// Gnosis Beacon Chain specifications.
#[derive(Clone, Copy, Debug, PartialEq, Eq, Structural)]
pub struct GnosisEthSpec;

impl EthSpec for GnosisEthSpec {
    proof fn lemma_preset_fits() {
    }

    open spec fn spec_slots_per_epoch() -> u64 {
        16
    }

    open spec fn spec_sync_committee_size() -> usize {
        512
    }

    open spec fn spec_sync_subcommittee_size() -> usize {
        128
    }

    open spec fn spec_max_validators_per_slot() -> usize {
        131072
    }

    open spec fn spec_data_column_subnet_count() -> usize {
        32
    }

    open spec fn spec_data_columns_per_subnet() -> usize {
        4
    }

    fn slots_per_epoch() -> u64 {
        16
    }

    fn sync_committee_size() -> usize {
        512
    }

    fn sync_subcommittee_size() -> usize {
        128
    }

    fn max_validators_per_slot() -> usize {
        131072
    }

    fn data_column_subnet_count() -> usize {
        32
    }

    fn data_columns_per_subnet() -> usize {
        4
    }
}

} // verus!
