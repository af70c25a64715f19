//! Elder-quorum membership and a bearer-certificate ledger: the decision logic
//! of a permissioned peer network, as state machines driven one message at a
//! time.

pub mod fair_run;
pub mod handover;
pub mod id_set;
pub mod laws;
pub mod ledger;
pub mod membership;
pub mod node;
pub mod outbound;
pub mod props;
pub mod quorum;
pub mod stable_set;
pub mod transaction;
pub mod wallet;
pub mod world;
pub mod world_admission;
pub mod world_ledger;
