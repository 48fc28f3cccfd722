//! Interfaces to the outside: history and transport, packer, working tree, persistence of
//! the table. Adapters implement them; fakes implement them for the core and for tests.
use vstd::prelude::*;

use crate::delta::RawDelta;
use crate::ident::{NodeId, ObjectName, Revision, SyncMark};
use crate::meta::{CipherBytes, Meta, Place, Plaintext};
use crate::table::Table;
use crate::validate::ValidatedState;

verus! {

/// History and transport (the git adapter). A parallel change of one object is
/// presented in `PullOutcome`, never resolved silently.
pub trait HistoryPort {
    fn pull(&mut self) -> Result<PullOutcome, PortError>;

    /// After a purge the mark may vanish from history; that is normal: the error
    /// `PortError::MarkVanished` is returned and the caller recomputes the delta from the
    /// nearest common ancestor or with a full pass.
    fn delta_since(&self, mark: &SyncMark) -> Result<RawDelta, PortError>;

    fn read(&self, name: &ObjectName) -> Result<CipherBytes, PortError>;

    /// Old bytes for resurrections, diffs and rollbacks, as they were.
    fn read_at(&self, rev: &Revision, name: &ObjectName) -> Result<CipherBytes, PortError>;

    /// One object, one commit; the caller orders the commits (body, then meta).
    fn commit(&mut self, name: &ObjectName, content: Option<&CipherBytes>) -> Result<(), PortError>;

    /// Removes an object from the whole history (passphrase change, purge of bodies).
    fn purge_from_history(&mut self, name: &ObjectName) -> Result<(), PortError>;

    /// Publication is atomic for observers.
    fn publish(&mut self) -> Result<SyncMark, PortError>;

    fn head(&self) -> Result<SyncMark, PortError>;
}

#[derive(Debug)]
pub enum PullOutcome {
    Clean { head: SyncMark },
    /// Conflicts of the transport; the domain turns them into concurrent edits.
    Conflicted { objects: Vec<ObjectName> },
}

/// The packer (the gpg adapter). Keys and slots live inside the adapter.
pub trait PackerPort {
    fn unlock(&mut self, passphrase: &Passphrase) -> Result<(), PortError>;

    fn seal_meta(&self, meta: &Meta) -> Result<CipherBytes, PortError>;

    fn open_meta(&self, cipher: &CipherBytes) -> Result<Meta, PortError>;

    fn seal_body(&self, plain: &Plaintext) -> Result<CipherBytes, PortError>;

    fn open_body(&self, cipher: &CipherBytes) -> Result<Plaintext, PortError>;

    fn change_passphrase(&mut self, old: &Passphrase, new: &Passphrase) -> Result<(), PortError>;

    /// Regression counter of the cost model: scenarios must show O(1) unpackings.
    fn open_count(&self) -> u64;
}

pub struct Passphrase(pub String);

/// The working tree (materialisation and scan).
pub trait WorkTreePort {
    fn materialize(&mut self, state: &ValidatedState, packer: &dyn PackerPort) -> Result<
        (),
        PortError,
    >;

    /// Scan when folding: edits and moves by `PlainHash`, unknown files by an explicit rule.
    fn scan(&self, table: &Table) -> Result<Vec<LocalChange>, PortError>;

    /// Removes the whole directory, editor backups included.
    fn cleanup(&mut self) -> Result<(), PortError>;
}

/// Without Debug: it holds plaintext.
pub enum LocalChange {
    Created { place: Place, plain: Plaintext },
    Edited { id: NodeId, plain: Plaintext },
    Moved { id: NodeId, new_place: Place },
    Deleted { id: NodeId },
}

/// Persistence of the table: the table lives as long as the unfolded tree.
pub trait TablePersistence {
    fn load(&self, packer: &dyn PackerPort) -> Result<Option<Table>, PortError>;

    fn store(&mut self, table: &Table, packer: &dyn PackerPort) -> Result<(), PortError>;
}

#[derive(Debug)]
pub enum PortError {
    Transport(String),
    Crypto(String),
    Io(String),
    /// The sync mark vanished from history (a purge happened): normal, not a failure.
    MarkVanished(SyncMark),
}

} // verus!
