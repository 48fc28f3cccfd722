//! Domain of a secrets vault: identities and names of stored objects, the table that
//! resolves their sorts, the raw delta from the transport and its classification into
//! events, and the two phases of unfolding (the delta laid onto the graph, then the graph
//! validated and its violations resolved), from which alone full paths are derived.
pub mod text;
pub mod ident;
pub mod meta;
pub mod sorted_map;
pub mod table;
pub mod delta;
pub mod validate;
pub mod interfaces;

pub use delta::{apply_delta, metas_to_open, AppliedGraph, DataError, Event, OpenedMeta, RawDelta, RawStatus};
pub use ident::{BodyName, NodeId, ObjectName, Revision, SyncMark};
pub use meta::{
    CipherBytes, DerivedPath, Meta, NodeBody, NodeName, ParentRef, Place, PlainHash, Plaintext,
    SchemaVersion, CURRENT_SCHEMA_NUMBER,
};
pub use interfaces::{
    HistoryPort, LocalChange, PackerPort, Passphrase, PortError, PullOutcome, TablePersistence,
    WorkTreePort,
};
pub use sorted_map::{MapKey, SortedMap};
pub use table::{NodeEntry, Sort, Table};
pub use validate::{
    concurrent_edits, missing_parents, validate, GraphViolation, Resolution, ValidatedState,
};
pub mod laws;
pub mod replay;
pub mod full_pass;
pub mod conflict;
pub mod repository;
pub mod guarantees;
pub use conflict::{conflict_copies, LosingVersion};
