//! A cache of the aggregate attestations and sync-committee contributions seen
//! on the gossip network, which tells fresh aggregates from those that an
//! earlier one already covers, and the identifiers of data-column subnets.
pub mod attestation;
pub mod bitfield;
pub mod data_column_subnet_id;
pub mod eth_spec;
pub mod hash256;
pub mod laws;
pub mod merkle;
pub mod observed_aggregates;
pub mod slot;
pub mod sync_committee_contribution;
pub mod uint256;

pub use crate::attestation::{
    Attestation, AttestationBase, AttestationData, AttestationElectra, AttestationRef, Checkpoint,
};
pub use crate::bitfield::Bitfield;
pub use crate::data_column_subnet_id::{ColumnIndex, DataColumnSubnetId};
pub use crate::eth_spec::{EthSpec, GnosisEthSpec, MainnetEthSpec, MinimalEthSpec};
pub use crate::hash256::Hash256;
pub use crate::observed_aggregates::{
    ObserveOutcome, ObservedAggregateAttestations, ObservedAggregates, ObservedSyncContributions,
};
pub use crate::slot::Slot;
pub use crate::sync_committee_contribution::SyncCommitteeContribution;
pub use crate::uint256::Uint256;
