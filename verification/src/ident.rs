//! Identities and names of the objects of the vault, and the place of a node.
use vstd::prelude::*;
use vstd::string::*;

use crate::text::{compare_text, Rel, rel_of};

verus! {

/// Opaque name of an object among the stored objects, as the transport sees it.
/// Whether it names a meta or a body is never read from the name itself: only the
/// table knows.
#[derive(Debug, Clone, PartialEq, Eq, PartialOrd, Ord, Hash)]
pub struct ObjectName(String);

impl View for ObjectName {
    type V = Seq<char>;

    open spec fn view(&self) -> Seq<char> {
        self.text()
    }
}

impl ObjectName {
    pub closed spec fn text(&self) -> Seq<char> {
        self.0@
    }

    /// Wraps the name an adapter read from the store.
    pub fn new(raw: String) -> (r: ObjectName)
        ensures
            r@ == raw@,
    {
        ObjectName(raw)
    }

    pub fn as_str(&self) -> (r: &str)
        ensures
            r@ == self@,
    {
        self.0.as_str()
    }

    /// A copy with the same text.
    pub fn dup(&self) -> (r: ObjectName)
        ensures
            r@ == self@,
    {
        ObjectName(self.0.clone())
    }

    pub fn same(&self, other: &ObjectName) -> (r: bool)
        ensures
            r == (self@ == other@),
    {
        match compare_text(self.0.as_str(), other.0.as_str()) {
            Rel::Equal => true,
            _ => false,
        }
    }

    pub fn compare(&self, other: &ObjectName) -> (r: Rel)
        ensures
            r == rel_of(self@, other@),
    {
        compare_text(self.0.as_str(), other.0.as_str())
    }
}

/// Identity of a node: the name of its meta. Born once, never changes.
#[derive(Debug, Clone, PartialEq, Eq, PartialOrd, Ord, Hash)]
pub struct NodeId(ObjectName);

impl View for NodeId {
    type V = Seq<char>;

    open spec fn view(&self) -> Seq<char> {
        self.text()
    }
}

impl NodeId {
    pub closed spec fn text(&self) -> Seq<char> {
        self.0@
    }

    /// The identity of a node that is born with the meta object `meta`.
    pub fn born(meta: ObjectName) -> (r: NodeId)
        ensures
            r@ == meta@,
    {
        NodeId(meta)
    }

    /// The name of the node's meta object.
    pub fn object(&self) -> (r: ObjectName)
        ensures
            r@ == self@,
    {
        self.0.dup()
    }

    pub fn as_str(&self) -> (r: &str)
        ensures
            r@ == self@,
    {
        self.0.as_str()
    }

    pub fn dup(&self) -> (r: NodeId)
        ensures
            r@ == self@,
    {
        NodeId(self.0.dup())
    }

    pub fn same(&self, other: &NodeId) -> (r: bool)
        ensures
            r == (self@ == other@),
    {
        self.0.same(&other.0)
    }

    pub fn compare(&self, other: &NodeId) -> (r: Rel)
        ensures
            r == rel_of(self@, other@),
    {
        self.0.compare(&other.0)
    }
}

/// Name of a body object. Random, born with its node, never changes.
#[derive(Debug, Clone, PartialEq, Eq, PartialOrd, Ord, Hash)]
pub struct BodyName(ObjectName);

impl View for BodyName {
    type V = Seq<char>;

    open spec fn view(&self) -> Seq<char> {
        self.text()
    }
}

impl BodyName {
    pub closed spec fn text(&self) -> Seq<char> {
        self.0@
    }

    /// The body stored under the object `object`.
    pub fn new(object: ObjectName) -> (r: BodyName)
        ensures
            r@ == object@,
    {
        BodyName(object)
    }

    pub fn object(&self) -> (r: ObjectName)
        ensures
            r@ == self@,
    {
        self.0.dup()
    }

    pub fn as_str(&self) -> (r: &str)
        ensures
            r@ == self@,
    {
        self.0.as_str()
    }

    pub fn dup(&self) -> (r: BodyName)
        ensures
            r@ == self@,
    {
        BodyName(self.0.dup())
    }

    pub fn same(&self, other: &BodyName) -> (r: bool)
        ensures
            r == (self@ == other@),
    {
        self.0.same(&other.0)
    }

    /// The body is stored under `object`.
    pub fn is_object(&self, object: &ObjectName) -> (r: bool)
        ensures
            r == (self@ == object@),
    {
        self.0.same(object)
    }
}

/// Mark of the last synchronisation (a commit hash in the git adapter).
#[derive(Debug, Clone, PartialEq, Eq)]
pub struct SyncMark(String);

impl View for SyncMark {
    type V = Seq<char>;

    open spec fn view(&self) -> Seq<char> {
        self.text()
    }
}

impl SyncMark {
    pub closed spec fn text(&self) -> Seq<char> {
        self.0@
    }

    pub fn new(raw: String) -> (r: SyncMark)
        ensures
            r@ == raw@,
    {
        SyncMark(raw)
    }

    pub fn as_str(&self) -> (r: &str)
        ensures
            r@ == self@,
    {
        self.0.as_str()
    }

    /// The revision of history that this mark addresses.
    pub fn revision(&self) -> (r: Revision)
        ensures
            r@ == self@,
    {
        Revision(self.0.clone())
    }

    pub fn dup(&self) -> (r: SyncMark)
        ensures
            r@ == self@,
    {
        SyncMark(self.0.clone())
    }
}

/// Address of a past state in history.
#[derive(Debug, Clone, PartialEq, Eq)]
pub struct Revision(String);

impl View for Revision {
    type V = Seq<char>;

    open spec fn view(&self) -> Seq<char> {
        self.text()
    }
}

impl Revision {
    pub closed spec fn text(&self) -> Seq<char> {
        self.0@
    }

    pub fn new(raw: String) -> (r: Revision)
        ensures
            r@ == raw@,
    {
        Revision(raw)
    }

    pub fn as_str(&self) -> (r: &str)
        ensures
            r@ == self@,
    {
        self.0.as_str()
    }
}

} // verus!
