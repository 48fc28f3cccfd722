//! The table: a cache of the sorts of the stored objects and of the graph of nodes.
use vstd::prelude::*;

use crate::ident::{BodyName, NodeId, ObjectName, SyncMark};
use crate::meta::{Meta, MetaV, ParentRef, PlainHash};
use crate::sorted_map::{MapKey, SortedMap};
use crate::text::Rel;

verus! {

impl MapKey for ObjectName {
    open spec fn key(&self) -> Seq<char> {
        self@
    }

    fn key_compare(&self, other: &ObjectName) -> (r: Rel) {
        self.compare(other)
    }
}

impl MapKey for NodeId {
    open spec fn key(&self) -> Seq<char> {
        self@
    }

    fn key_compare(&self, other: &NodeId) -> (r: Rel) {
        self.compare(other)
    }
}

/// The text by which parents are ordered: the root first, then nodes by identity.
pub open spec fn parent_key(p: Option<Seq<char>>) -> Seq<char> {
    match p {
        None => Seq::empty(),
        Some(id) => seq!['/'] + id,
    }
}

impl MapKey for ParentRef {
    open spec fn key(&self) -> Seq<char> {
        parent_key(self@)
    }

    fn key_compare(&self, other: &ParentRef) -> (r: Rel) {
        match (self, other) {
            (ParentRef::Root, ParentRef::Root) => {
                assert(parent_key(self@) =~= parent_key(other@));
                Rel::Equal
            },
            (ParentRef::Root, ParentRef::Node(_)) => {
                assert(parent_key(other@).len() > 0);
                Rel::Less
            },
            (ParentRef::Node(_), ParentRef::Root) => {
                assert(parent_key(self@).len() > 0);
                proof {
                    crate::text::lemma_seq_lt_total(parent_key(self@), parent_key(other@));
                }
                Rel::Greater
            },
            (ParentRef::Node(a), ParentRef::Node(b)) => {
                let r = a.compare(b);
                proof {
                    let ka = parent_key(self@);
                    let kb = parent_key(other@);
                    assert(ka.drop_first() =~= a@);
                    assert(kb.drop_first() =~= b@);
                    if a@ == b@ {
                        assert(ka =~= kb);
                    } else {
                        assert(ka != kb) by {
                            if ka == kb {
                                assert(ka.drop_first() == kb.drop_first());
                            }
                        }
                    }
                }
                r
            },
        }
    }
}

pub enum SortV {
    Meta(Seq<char>),
    Body(Seq<char>),
    Chaff,
}

/// What kind of object a stored name holds. Only the table resolves it.
#[derive(Debug, Clone, PartialEq, Eq)]
pub enum Sort {
    Meta(NodeId),
    Body(BodyName),
    /// Reserved for decoy objects; how to recognise them is not decided yet.
    Chaff,
}

impl View for Sort {
    type V = SortV;

    open spec fn view(&self) -> SortV {
        match self {
            Sort::Meta(id) => SortV::Meta(id@),
            Sort::Body(b) => SortV::Body(b@),
            Sort::Chaff => SortV::Chaff,
        }
    }
}

impl Sort {
    pub fn dup(&self) -> (r: Sort)
        ensures
            r@ == self@,
    {
        match self {
            Sort::Meta(id) => Sort::Meta(id.dup()),
            Sort::Body(b) => Sort::Body(b.dup()),
            Sort::Chaff => Sort::Chaff,
        }
    }
}

pub struct EntryV {
    pub meta: MetaV,
    pub hash: Option<Seq<u8>>,
}

/// The row of the table for one node.
#[derive(Debug, Clone)]
pub struct NodeEntry {
    pub meta: Meta,
    /// `None`: the body has not been unfolded with this table yet.
    pub plain_hash: Option<PlainHash>,
}

impl View for NodeEntry {
    type V = EntryV;

    open spec fn view(&self) -> EntryV {
        EntryV {
            meta: self.meta@,
            hash: match self.plain_hash {
                Some(h) => Some(h@),
                None => None,
            },
        }
    }
}

impl NodeEntry {
    pub fn dup(&self) -> (r: NodeEntry)
        ensures
            r@ == self@,
    {
        NodeEntry {
            meta: self.meta.dup(),
            plain_hash: match &self.plain_hash {
                Some(h) => Some(h.dup()),
                None => None,
            },
        }
    }
}

pub struct TableV {
    /// Sort of each stored object, by its name.
    pub sorts: Map<Seq<char>, SortV>,
    /// Entry of each node, by its identity.
    pub nodes: Map<Seq<char>, EntryV>,
    /// Children of each parent, by `parent_key`, in order of identity.
    pub children: Map<Seq<char>, Seq<Seq<char>>>,
    pub mark: Option<Seq<char>>,
}

/// Graph of nodes with its reverse index, and the sorts of the objects. A cache, not
/// the truth: all of it can be rebuilt from the metas and the list of object names.
#[derive(Debug)]
pub struct Table {
    pub sorts: SortedMap<ObjectName, Sort>,
    pub nodes: SortedMap<NodeId, NodeEntry>,
    pub children: SortedMap<ParentRef, Vec<NodeId>>,
    pub mark: Option<SyncMark>,
}

pub open spec fn ids_view(v: Vec<NodeId>) -> Seq<Seq<char>> {
    v@.map_values(|x: NodeId| x@)
}

impl Table {
    /// An empty table, with no sync mark yet.
    pub fn new() -> (t: Table)
        ensures
            t@.sorts == Map::<Seq<char>, SortV>::empty(),
            t@.nodes == Map::<Seq<char>, EntryV>::empty(),
            t@.children == Map::<Seq<char>, Seq<Seq<char>>>::empty(),
            t@.mark is None,
            t.nodes.keys() == Seq::<Seq<char>>::empty(),
    {
        let t = Table {
            sorts: SortedMap::new(),
            nodes: SortedMap::new(),
            children: SortedMap::new(),
            mark: None,
        };
        assert(t@.sorts =~= Map::<Seq<char>, SortV>::empty());
        assert(t@.nodes =~= Map::<Seq<char>, EntryV>::empty());
        assert(t@.children =~= Map::<Seq<char>, Seq<Seq<char>>>::empty());
        t
    }
}

impl Default for Table {
    fn default() -> (t: Table)
        ensures
            t@.sorts == Map::<Seq<char>, SortV>::empty(),
            t@.nodes == Map::<Seq<char>, EntryV>::empty(),
            t@.children == Map::<Seq<char>, Seq<Seq<char>>>::empty(),
            t@.mark is None,
    {
        Table::new()
    }
}

impl View for Table {
    type V = TableV;

    open spec fn view(&self) -> TableV {
        TableV {
            sorts: self.sorts@.map_values(|s: Sort| s@),
            nodes: self.nodes@.map_values(|e: NodeEntry| e@),
            children: self.children@.map_values(|v: Vec<NodeId>| ids_view(v)),
            mark: match self.mark {
                Some(m) => Some(m@),
                None => None,
            },
        }
    }
}

/// The reverse index of `nodes`, built in the order `keys`: each parent maps to its
/// children in that order.
pub open spec fn index_children(keys: Seq<Seq<char>>, nodes: Map<Seq<char>, EntryV>) -> Map<
    Seq<char>,
    Seq<Seq<char>>,
>
    decreases keys.len(),
{
    if keys.len() == 0 {
        Map::empty()
    } else {
        let prev = index_children(keys.drop_last(), nodes);
        let k = keys.last();
        let p = parent_key(nodes[k].meta.place.parent);
        prev.insert(
            p,
            if prev.contains_key(p) {
                prev[p].push(k)
            } else {
                seq![k]
            },
        )
    }
}

pub fn dup_ids(v: &Vec<NodeId>) -> (r: Vec<NodeId>)
    ensures
        ids_view(r) == ids_view(*v),
{
    let mut r: Vec<NodeId> = Vec::new();
    let n = v.len();
    let mut i: usize = 0;
    while i < n
        invariant
            n == v.len(),
            i <= n,
            ids_view(r) == ids_view(*v).take(i as int),
        decreases n - i,
    {
        let x = v[i].dup();
        let ghost before = r@;
        assert(ids_view(r).len() == r@.len());
        assert(before.len() == i);
        r.push(x);
        assert(r@ == before.push(x));
        assert(x@ == v@[i as int]@);
        assert forall|j: int| 0 <= j < i implies ids_view(r)[j] == ids_view(*v)[j] by {
            assert(ids_view(r)[j] == r@[j]@);
            assert(r@[j] == before[j]);
            assert(ids_view(*v).take(i as int)[j] == ids_view(*v)[j]);
        }
        assert(ids_view(r) =~= ids_view(*v).take(i + 1));
        i = i + 1;
    }
    assert(ids_view(*v).take(n as int) =~= ids_view(*v));
    r
}

/// The reverse index of `nodes`: each parent with the identities of its children, in
/// increasing order.
pub fn reindex(nodes: &SortedMap<NodeId, NodeEntry>) -> (r: SortedMap<ParentRef, Vec<NodeId>>)
    ensures
        r@.map_values(|v: Vec<NodeId>| ids_view(v)) == index_children(
            nodes.keys(),
            nodes@.map_values(|e: NodeEntry| e@),
        ),
{
    let ghost nv = nodes@.map_values(|e: NodeEntry| e@);
    let ghost keys = nodes.keys();
    let n = nodes.len();
    proof {
        nodes.lemma_view_dom();
    }
    let mut r: SortedMap<ParentRef, Vec<NodeId>> = SortedMap::new();
    let mut i: usize = 0;
    assert(keys.take(0) =~= Seq::<Seq<char>>::empty());
    assert(r@.map_values(|v: Vec<NodeId>| ids_view(v)) =~= Map::<Seq<char>, Seq<Seq<char>>>::empty());
    while i < n
        invariant
            n == keys.len(),
            keys == nodes.keys(),
            nv == nodes@.map_values(|e: NodeEntry| e@),
            nodes.is_sorted(),
            i <= n,
            r@.map_values(|v: Vec<NodeId>| ids_view(v)) == index_children(keys.take(i as int), nv),
        decreases n - i,
    {
        let id = nodes.key_at(i).dup();
        let parent = nodes.value_at(i).meta.place.parent.dup();
        proof {
            nodes.lemma_view_at(i as int);
            assert(keys.take(i + 1).drop_last() =~= keys.take(i as int));
            assert(keys.take(i + 1).last() == keys[i as int]);
        }
        let ghost prev = r@.map_values(|v: Vec<NodeId>| ids_view(v));
        let ghost pk = parent.key();
        let list = match r.get(&parent) {
            Some(v) => {
                let mut l = dup_ids(v);
                l.push(id);
                assert(ids_view(l) =~= prev[pk].push(keys[i as int]));
                l
            },
            None => {
                let mut l: Vec<NodeId> = Vec::new();
                l.push(id);
                assert(ids_view(l) =~= seq![keys[i as int]]);
                l
            },
        };
        r.insert(parent, list);
        assert(r@.map_values(|v: Vec<NodeId>| ids_view(v)) =~= index_children(
            keys.take(i + 1),
            nv,
        ));
        i = i + 1;
    }
    assert(keys.take(n as int) =~= keys);
    r
}

} // verus!
