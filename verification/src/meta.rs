//! The place of a node, its meta and its body.
use vstd::prelude::*;
use vstd::string::*;

use crate::delta::DataError;
use crate::ident::{BodyName, NodeId};

verus! {

/// Rust's `char::is_control`: the code points of the Unicode category Cc.
pub open spec fn is_control(c: char) -> bool {
    (c as u32) < 0x20 || (0x7f <= (c as u32) && (c as u32) <= 0x9f)
}

/// A character that a node name may hold.
pub open spec fn is_name_char(c: char) -> bool {
    c != '/' && c != '\\' && !is_control(c)
}

/// A visible node name that cannot escape its directory when the tree is written out:
/// not empty, not `.` or `..`, and without `/`, `\` or control characters.
pub open spec fn is_legal_name(s: Seq<char>) -> bool {
    &&& s.len() > 0
    &&& s != seq!['.']
    &&& s != seq!['.', '.']
    &&& forall|i: int| 0 <= i < s.len() ==> is_name_char(#[trigger] s[i])
}

fn name_char(c: char) -> (r: bool)
    ensures
        r == is_name_char(c),
{
    let v: u32 = c as u32;
    c != '/' && c != '\\' && !(v < 0x20 || (0x7f <= v && v <= 0x9f))
}

/// The visible name of a node inside its parent. Its only constructor checks it.
#[derive(Debug, PartialEq, Eq, Hash)]
pub struct NodeName(String);

impl Clone for NodeName {
    fn clone(&self) -> (r: NodeName)
        ensures
            r@ == self@,
    {
        self.dup()
    }
}

impl View for NodeName {
    type V = Seq<char>;

    open spec fn view(&self) -> Seq<char> {
        self.text()
    }
}

impl NodeName {
    pub closed spec fn text(&self) -> Seq<char> {
        self.0@
    }

    #[verifier::type_invariant]
    pub(crate) open spec fn legal(self) -> bool {
        is_legal_name(self@)
    }

    /// Checks the name `raw` found in the meta of node `id`.
    pub fn parse(id: &NodeId, raw: &str) -> (r: Result<NodeName, DataError>)
        ensures
            is_legal_name(raw@) ==> (r matches Ok(n) && n@ == raw@),
            !is_legal_name(raw@) ==> (r matches Err(DataError::IllegalName { id: e, raw: s })
                && e@ == id@ && s@ == raw@),
    {
        let n = raw.unicode_len();
        let mut i: usize = 0;
        let mut ok = true;
        while i < n
            invariant
                n == raw@.len(),
                i <= n,
                ok == (forall|j: int| 0 <= j < i ==> is_name_char(#[trigger] raw@[j])),
            decreases n - i,
        {
            let c = raw.get_char(i);
            if !name_char(c) {
                ok = false;
            }
            i = i + 1;
        }
        let dot = n == 1 && raw.get_char(0) == '.';
        let dots = n == 2 && raw.get_char(0) == '.' && raw.get_char(1) == '.';
        proof {
            if dot {
                assert(raw@ =~= seq!['.']);
            }
            if dots {
                assert(raw@ =~= seq!['.', '.']);
            }
            if raw@ == seq!['.'] {
                assert(raw@[0] == '.');
            }
            if raw@ == seq!['.', '.'] {
                assert(raw@[0] == '.' && raw@[1] == '.');
            }
            if n != 1 {
                assert(raw@ != seq!['.']);
            }
            if n != 2 {
                assert(raw@ != seq!['.', '.']);
            }
        }
        if ok && n > 0 && !dot && !dots {
            Ok(NodeName(raw.to_string()))
        } else {
            Err(DataError::IllegalName { id: id.dup(), raw: raw.to_string() })
        }
    }

    pub fn as_str(&self) -> (r: &str)
        ensures
            r@ == self@,
    {
        self.0.as_str()
    }

    pub fn dup(&self) -> (r: NodeName)
        ensures
            r@ == self@,
    {
        proof {
            use_type_invariant(self);
        }
        NodeName(self.0.clone())
    }

    /// The name with `tag` appended. `tag` must itself end in something other than a dot
    /// and hold only name characters, so the result is legal again.
    pub fn tagged(&self, tag: &str) -> (r: NodeName)
        requires
            tag@.len() > 0,
            tag@.last() != '.',
            forall|i: int| 0 <= i < tag@.len() ==> is_name_char(#[trigger] tag@[i]),
        ensures
            r@ == self@ + tag@,
    {
        proof {
            use_type_invariant(self);
        }
        let mut s = self.0.clone();
        s.append(tag);
        proof {
            let t = self@ + tag@;
            assert(t.last() == tag@.last());
            assert(t != seq!['.']) by {
                if t == seq!['.'] {
                    assert(t.last() == '.');
                }
            }
            assert(t != seq!['.', '.']) by {
                if t == seq!['.', '.'] {
                    assert(t.last() == '.');
                }
            }
            assert forall|i: int| 0 <= i < t.len() implies is_name_char(#[trigger] t[i]) by {
                if i < self@.len() {
                    assert(t[i] == self@[i]);
                } else {
                    assert(t[i] == tag@[i - self@.len()]);
                }
            }
        }
        NodeName(s)
    }

    pub fn same(&self, other: &NodeName) -> (r: bool)
        ensures
            r == (self@ == other@),
    {
        crate::text::compare_text(self.0.as_str(), other.0.as_str()) == crate::text::Rel::Equal
    }
}

/// Reference to the parent of a node. The root is a sentinel, not an object.
#[derive(Debug, Clone, PartialEq, Eq, Hash)]
pub enum ParentRef {
    Root,
    Node(NodeId),
}

impl View for ParentRef {
    type V = Option<Seq<char>>;

    /// `None` for the root, the parent's identity otherwise.
    open spec fn view(&self) -> Option<Seq<char>> {
        match self {
            ParentRef::Root => None,
            ParentRef::Node(id) => Some(id@),
        }
    }
}

impl ParentRef {
    pub fn dup(&self) -> (r: ParentRef)
        ensures
            r@ == self@,
    {
        match self {
            ParentRef::Root => ParentRef::Root,
            ParentRef::Node(id) => ParentRef::Node(id.dup()),
        }
    }

    pub fn same(&self, other: &ParentRef) -> (r: bool)
        ensures
            r == (self@ == other@),
    {
        match (self, other) {
            (ParentRef::Root, ParentRef::Root) => true,
            (ParentRef::Node(a), ParentRef::Node(b)) => a.same(b),
            _ => false,
        }
    }
}

/// The place of a node: its parent and its name there.
pub struct PlaceV {
    pub parent: Option<Seq<char>>,
    pub name: Seq<char>,
}

/// Place of a node, a mutable attribute: the unit compared for moves, renames and
/// duplicate places. There is no full path in the domain.
#[derive(Debug, Clone, PartialEq, Eq, Hash)]
pub struct Place {
    pub parent: ParentRef,
    pub name: NodeName,
}

impl View for Place {
    type V = PlaceV;

    open spec fn view(&self) -> PlaceV {
        PlaceV { parent: self.parent@, name: self.name@ }
    }
}

impl Place {
    pub fn dup(&self) -> (r: Place)
        ensures
            r@ == self@,
    {
        Place { parent: self.parent.dup(), name: self.name.dup() }
    }

    pub fn same(&self, other: &Place) -> (r: bool)
        ensures
            r == (self@ == other@),
    {
        self.parent.same(&other.parent) && self.name.same(&other.name)
    }
}

/// A full path exists only as a projection of a validated state, see
/// `ValidatedState::derive_path`.
#[derive(Debug, Clone, PartialEq, Eq)]
pub struct DerivedPath(Vec<NodeName>);

impl View for DerivedPath {
    type V = Seq<Seq<char>>;

    open spec fn view(&self) -> Seq<Seq<char>> {
        self.names()
    }
}

impl DerivedPath {
    pub closed spec fn names(&self) -> Seq<Seq<char>> {
        self.0@.map_values(|n: NodeName| n@)
    }

    pub(crate) fn from_names(names: Vec<NodeName>) -> (r: DerivedPath)
        ensures
            r@ == names@.map_values(|n: NodeName| n@),
    {
        DerivedPath(names)
    }

    /// The components, from the outermost directory down to the node itself.
    pub fn components(&self) -> (r: &[NodeName])
        ensures
            r@.map_values(|n: NodeName| n@) == self@,
    {
        self.0.as_slice()
    }
}

/// Version of the meta schema: every version up to the current one is read, the
/// current one is written.
#[derive(Debug, Clone, Copy, PartialEq, Eq, PartialOrd, Ord, Structural)]
pub struct SchemaVersion(pub u16);

/// Number of the schema version that is written now.
pub const CURRENT_SCHEMA_NUMBER: u16 = 1;

impl SchemaVersion {
    /// The version written now: every meta with a version up to it can be read.
    pub fn current() -> (r: SchemaVersion)
        ensures
            r.0 == CURRENT_SCHEMA_NUMBER,
    {
        SchemaVersion(CURRENT_SCHEMA_NUMBER)
    }
}

/// The body of a node: a secret has one, a directory has none.
#[derive(Debug, Clone, PartialEq, Eq)]
pub enum NodeBody {
    Secret(BodyName),
    Directory,
}

impl View for NodeBody {
    type V = Option<Seq<char>>;

    /// The body's name for a secret, `None` for a directory.
    open spec fn view(&self) -> Option<Seq<char>> {
        match self {
            NodeBody::Secret(b) => Some(b@),
            NodeBody::Directory => None,
        }
    }
}

impl NodeBody {
    pub fn dup(&self) -> (r: NodeBody)
        ensures
            r@ == self@,
    {
        match self {
            NodeBody::Secret(b) => NodeBody::Secret(b.dup()),
            NodeBody::Directory => NodeBody::Directory,
        }
    }

    pub fn same(&self, other: &NodeBody) -> (r: bool)
        ensures
            r == (self@ == other@),
    {
        match (self, other) {
            (NodeBody::Secret(a), NodeBody::Secret(b)) => a.same(b),
            (NodeBody::Directory, NodeBody::Directory) => true,
            _ => false,
        }
    }
}

pub struct MetaV {
    pub schema: u16,
    pub place: PlaceV,
    pub body: Option<Seq<char>>,
}

/// Decrypted content of a meta. The link to the body is written at birth and never
/// changes; validation checks that rather than assuming it.
#[derive(Debug, Clone, PartialEq, Eq)]
pub struct Meta {
    pub schema: SchemaVersion,
    pub place: Place,
    pub body: NodeBody,
}

impl View for Meta {
    type V = MetaV;

    open spec fn view(&self) -> MetaV {
        MetaV { schema: self.schema.0, place: self.place@, body: self.body@ }
    }
}

impl Meta {
    pub fn dup(&self) -> (r: Meta)
        ensures
            r@ == self@,
    {
        Meta { schema: self.schema, place: self.place.dup(), body: self.body.dup() }
    }
}

/// Plaintext of a body, byte for byte the file it came from. Deliberately without Debug
/// or Clone.
pub struct Plaintext(pub Vec<u8>);

/// Ciphertext of any object, as it lies in the store.
pub struct CipherBytes(pub Vec<u8>);

/// Hash of a plaintext (SHA-256), an attribute of a node in the table, not a key.
#[derive(Debug, Clone, PartialEq, Eq, Hash)]
pub struct PlainHash([u8; 32]);

impl View for PlainHash {
    type V = Seq<u8>;

    open spec fn view(&self) -> Seq<u8> {
        self.digest()
    }
}

impl PlainHash {
    pub closed spec fn digest(&self) -> Seq<u8> {
        self.0@
    }

    pub fn new(bytes: [u8; 32]) -> (r: PlainHash)
        ensures
            r@ == bytes@,
    {
        PlainHash(bytes)
    }

    pub fn bytes(&self) -> (r: [u8; 32])
        ensures
            r@ == self@,
    {
        self.0
    }

    pub fn dup(&self) -> (r: PlainHash)
        ensures
            r@ == self@,
    {
        PlainHash(self.0)
    }
}

} // verus!
