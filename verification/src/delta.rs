//! The raw delta from the transport, its classification into events, and the first
//! phase of unfolding: the whole delta laid onto the graph.
use vstd::prelude::*;

use crate::ident::{BodyName, NodeId, ObjectName};
use crate::meta::{
    is_legal_name, Meta, MetaV, NodeBody, NodeName, ParentRef, Place, PlaceV, SchemaVersion,
    CURRENT_SCHEMA_NUMBER,
};
use crate::sorted_map::SortedMap;
use crate::table::{index_children, reindex, EntryV, NodeEntry, Sort, SortV, Table, TableV};

verus! {

/// Raw status from the provider of the delta. There is no rename.
#[derive(Debug, Clone, Copy, PartialEq, Eq, Structural)]
pub enum RawStatus {
    Appeared,
    Modified,
    Disappeared,
}

/// Raw delta: opaque names, no meaning.
#[derive(Debug, Clone)]
pub struct RawDelta(pub Vec<(ObjectName, RawStatus)>);

pub open spec fn delta_view(d: Seq<(ObjectName, RawStatus)>) -> Seq<(Seq<char>, RawStatus)> {
    d.map_values(|e: (ObjectName, RawStatus)| (e.0@, e.1))
}

impl View for RawDelta {
    type V = Seq<(Seq<char>, RawStatus)>;

    open spec fn view(&self) -> Seq<(Seq<char>, RawStatus)> {
        delta_view(self.0@)
    }
}

pub struct OpenedMetaV {
    pub object: Seq<char>,
    pub schema: u16,
    pub parent: Option<Seq<char>>,
    pub name: Seq<char>,
    pub body: Option<Seq<char>>,
}

/// A meta object of the delta as the packer decrypted it, before its fields are
/// checked: `parent` is `None` for the root, `body` is `None` for a directory.
#[derive(Debug, Clone)]
pub struct OpenedMeta {
    pub object: ObjectName,
    pub schema: u16,
    pub parent: Option<ObjectName>,
    pub name: String,
    pub body: Option<ObjectName>,
}

impl View for OpenedMeta {
    type V = OpenedMetaV;

    open spec fn view(&self) -> OpenedMetaV {
        OpenedMetaV {
            object: self.object@,
            schema: self.schema,
            parent: match self.parent {
                Some(p) => Some(p@),
                None => None,
            },
            name: self.name@,
            body: match self.body {
                Some(b) => Some(b@),
                None => None,
            },
        }
    }
}

pub open spec fn opened_view(v: Seq<OpenedMeta>) -> Seq<OpenedMetaV> {
    v.map_values(|m: OpenedMeta| m@)
}

pub enum EventV {
    NodeBorn { id: Seq<char>, meta: MetaV },
    MetaChanged { id: Seq<char>, new_meta: MetaV },
    ContentChanged { body: Seq<char> },
    NodeDied { id: Seq<char> },
    BodyArrived { body: Seq<char> },
    BodyGone { body: Seq<char> },
}

/// A classified event: the sort names the event; metas are unpacked only when needed,
/// bodies never at this stage.
#[derive(Debug, Clone)]
pub enum Event {
    /// A of a meta (and A of the body for a secret): a node is born.
    NodeBorn { id: NodeId, meta: Meta },
    /// M of a meta: a move, a rename or nothing; the body is not touched.
    MetaChanged { id: NodeId, new_meta: Meta },
    /// M of a body: its content was edited; the meta is untouched.
    ContentChanged { body: BodyName },
    /// D of a meta (and D of the body): a node dies.
    NodeDied { id: NodeId },
    /// A of a body: what a NodeBorn depends on; not an event by itself.
    BodyArrived { body: BodyName },
    /// D of a body: the pair of a NodeDied.
    BodyGone { body: BodyName },
}

impl View for Event {
    type V = EventV;

    open spec fn view(&self) -> EventV {
        match self {
            Event::NodeBorn { id, meta } => EventV::NodeBorn { id: id@, meta: meta@ },
            Event::MetaChanged { id, new_meta } => EventV::MetaChanged {
                id: id@,
                new_meta: new_meta@,
            },
            Event::ContentChanged { body } => EventV::ContentChanged { body: body@ },
            Event::NodeDied { id } => EventV::NodeDied { id: id@ },
            Event::BodyArrived { body } => EventV::BodyArrived { body: body@ },
            Event::BodyGone { body } => EventV::BodyGone { body: body@ },
        }
    }
}

pub open spec fn events_view(v: Seq<Event>) -> Seq<EventV> {
    v.map_values(|e: Event| e@)
}

pub enum ErrV {
    UnknownObject(Seq<char>),
    IllegalName { id: Seq<char>, raw: Seq<char> },
    MalformedMeta(Seq<char>),
    InconsistentDelta(Seq<char>),
}

/// Other combinations are data errors and are caught.
#[derive(Debug, Clone)]
pub enum DataError {
    UnknownObject(ObjectName),
    IllegalName { id: NodeId, raw: String },
    MalformedMeta(NodeId),
    /// A body modified without a live meta, and the like.
    InconsistentDelta(ObjectName),
}

impl View for DataError {
    type V = ErrV;

    open spec fn view(&self) -> ErrV {
        match self {
            DataError::UnknownObject(n) => ErrV::UnknownObject(n@),
            DataError::IllegalName { id, raw } => ErrV::IllegalName { id: id@, raw: raw@ },
            DataError::MalformedMeta(id) => ErrV::MalformedMeta(id@),
            DataError::InconsistentDelta(n) => ErrV::InconsistentDelta(n@),
        }
    }
}

/// State of the graph while the delta is laid onto it.
pub struct ApplyState {
    pub sorts: Map<Seq<char>, SortV>,
    pub nodes: Map<Seq<char>, EntryV>,
    pub events: Seq<EventV>,
}

/// The meta of node `id` that `om` holds, once its fields are checked: a schema newer
/// than the current one cannot be read, and the name must be legal.
pub open spec fn check_meta(id: Seq<char>, om: OpenedMetaV) -> Result<MetaV, ErrV> {
    if om.schema > CURRENT_SCHEMA_NUMBER {
        Err(ErrV::MalformedMeta(id))
    } else if !is_legal_name(om.name) {
        Err(ErrV::IllegalName { id, raw: om.name })
    } else {
        Ok(MetaV { schema: om.schema, place: PlaceV { parent: om.parent, name: om.name }, body: om.body })
    }
}

/// The first opened meta that came from the object `name`.
pub open spec fn find_opened(opened: Seq<OpenedMetaV>, name: Seq<char>) -> Option<OpenedMetaV>
    decreases opened.len(),
{
    if opened.len() == 0 {
        None
    } else if opened[0].object == name {
        Some(opened[0])
    } else {
        find_opened(opened.drop_first(), name)
    }
}

/// The entry of `id` after its meta changed to `m`: place and schema follow `m`, the link
/// to the body stays as it was born (validation compares the two).
pub open spec fn changed_entry(nodes: Map<Seq<char>, EntryV>, id: Seq<char>, m: MetaV) -> EntryV {
    if nodes.contains_key(id) {
        EntryV {
            meta: MetaV { schema: m.schema, place: m.place, body: nodes[id].meta.body },
            hash: nodes[id].hash,
        }
    } else {
        EntryV { meta: m, hash: None }
    }
}

/// Some node of `nodes` has the body `b`.
pub open spec fn references(nodes: Map<Seq<char>, EntryV>, b: Seq<char>) -> bool {
    exists|id: Seq<char>| #[trigger] nodes.contains_key(id) && nodes[id].meta.body == Some(b)
}

/// The first pass handles the entries of the delta that are metas: those the table
/// knows as metas, and new objects that opened as metas.
pub open spec fn is_meta_entry(
    base_sorts: Map<Seq<char>, SortV>,
    opened: Seq<OpenedMetaV>,
    name: Seq<char>,
    status: RawStatus,
) -> bool {
    if base_sorts.contains_key(name) {
        base_sorts[name] is Meta
    } else {
        status == RawStatus::Appeared && find_opened(opened, name) is Some
    }
}

pub open spec fn meta_step(
    st: ApplyState,
    base_sorts: Map<Seq<char>, SortV>,
    opened: Seq<OpenedMetaV>,
    name: Seq<char>,
    status: RawStatus,
) -> Result<ApplyState, ErrV> {
    if base_sorts.contains_key(name) {
        match base_sorts[name] {
            SortV::Meta(id) => if status == RawStatus::Disappeared {
                Ok(
                    ApplyState {
                        sorts: st.sorts.remove(name),
                        nodes: st.nodes.remove(id),
                        events: st.events.push(EventV::NodeDied { id }),
                    },
                )
            } else if status == RawStatus::Appeared {
                Ok(st)
            } else {
                match find_opened(opened, name) {
                    None => Err(ErrV::MalformedMeta(id)),
                    Some(om) => match check_meta(id, om) {
                        Err(e) => Err(e),
                        Ok(m) => Ok(
                            ApplyState {
                                sorts: st.sorts,
                                nodes: st.nodes.insert(id, changed_entry(st.nodes, id, m)),
                                events: st.events.push(EventV::MetaChanged { id, new_meta: m }),
                            },
                        ),
                    },
                }
            },
            _ => Ok(st),
        }
    } else if status == RawStatus::Appeared {
        match find_opened(opened, name) {
            None => Ok(st),
            Some(om) => match check_meta(name, om) {
                Err(e) => Err(e),
                Ok(m) => Ok(
                    ApplyState {
                        sorts: st.sorts.insert(name, SortV::Meta(name)),
                        nodes: st.nodes.insert(name, EntryV { meta: m, hash: None }),
                        events: st.events.push(EventV::NodeBorn { id: name, meta: m }),
                    },
                ),
            },
        }
    } else {
        Ok(st)
    }
}

pub open spec fn body_step(
    st: ApplyState,
    base_sorts: Map<Seq<char>, SortV>,
    opened: Seq<OpenedMetaV>,
    name: Seq<char>,
    status: RawStatus,
) -> Result<ApplyState, ErrV> {
    if is_meta_entry(base_sorts, opened, name, status) {
        Ok(st)
    } else if base_sorts.contains_key(name) {
        match base_sorts[name] {
            SortV::Body(b) => match status {
                RawStatus::Modified => if references(st.nodes, b) {
                    Ok(ApplyState { events: st.events.push(EventV::ContentChanged { body: b }), ..st })
                } else {
                    Err(ErrV::InconsistentDelta(name))
                },
                RawStatus::Disappeared => if references(st.nodes, b) {
                    Err(ErrV::InconsistentDelta(name))
                } else {
                    Ok(
                        ApplyState {
                            sorts: st.sorts.remove(name),
                            nodes: st.nodes,
                            events: st.events.push(EventV::BodyGone { body: b }),
                        },
                    )
                },
                RawStatus::Appeared => if references(st.nodes, b) {
                    Ok(st)
                } else {
                    Err(ErrV::InconsistentDelta(name))
                },
            },
            _ => if status == RawStatus::Disappeared {
                Ok(ApplyState { sorts: st.sorts.remove(name), ..st })
            } else {
                Ok(st)
            },
        }
    } else if status == RawStatus::Appeared && references(st.nodes, name) {
        Ok(
            ApplyState {
                sorts: st.sorts.insert(name, SortV::Body(name)),
                nodes: st.nodes,
                events: st.events.push(EventV::BodyArrived { body: name }),
            },
        )
    } else if status == RawStatus::Disappeared {
        Ok(st)
    } else {
        Err(ErrV::UnknownObject(name))
    }
}

pub open spec fn meta_pass(
    st: ApplyState,
    base_sorts: Map<Seq<char>, SortV>,
    opened: Seq<OpenedMetaV>,
    delta: Seq<(Seq<char>, RawStatus)>,
) -> Result<ApplyState, ErrV>
    decreases delta.len(),
{
    if delta.len() == 0 {
        Ok(st)
    } else {
        match meta_pass(st, base_sorts, opened, delta.drop_last()) {
            Err(e) => Err(e),
            Ok(s) => meta_step(s, base_sorts, opened, delta.last().0, delta.last().1),
        }
    }
}

pub open spec fn body_pass(
    st: ApplyState,
    base_sorts: Map<Seq<char>, SortV>,
    opened: Seq<OpenedMetaV>,
    delta: Seq<(Seq<char>, RawStatus)>,
) -> Result<ApplyState, ErrV>
    decreases delta.len(),
{
    if delta.len() == 0 {
        Ok(st)
    } else {
        match body_pass(st, base_sorts, opened, delta.drop_last()) {
            Err(e) => Err(e),
            Ok(s) => body_step(s, base_sorts, opened, delta.last().0, delta.last().1),
        }
    }
}

/// The entry `i` of `d` names an object that an earlier entry named already.
pub open spec fn repeated_at(d: Seq<(Seq<char>, RawStatus)>, i: int) -> bool {
    exists|j: int| 0 <= j < i && #[trigger] d[j].0 == d[i].0
}

/// The first object, in the order of the delta, that the delta names a second time.
pub open spec fn first_repeated(d: Seq<(Seq<char>, RawStatus)>) -> Option<Seq<char>>
    decreases d.len(),
{
    if d.len() == 0 {
        None
    } else {
        match first_repeated(d.drop_last()) {
            Some(x) => Some(x),
            None => if repeated_at(d, d.len() - 1) {
                Some(d.last().0)
            } else {
                None
            },
        }
    }
}

/// The entry `(name, status)` of `delta` is a secret born or dying without its body: the
/// body of a secret appears with its meta, as a body, and disappears with it.
pub open spec fn unpaired(
    base: TableV,
    opened: Seq<OpenedMetaV>,
    delta: Seq<(Seq<char>, RawStatus)>,
    name: Seq<char>,
    status: RawStatus,
) -> bool {
    if base.sorts.contains_key(name) {
        &&& base.sorts[name] matches SortV::Meta(id)
        &&& status == RawStatus::Disappeared
        &&& base.nodes.contains_key(id)
        &&& base.nodes[id].meta.body matches Some(b)
        &&& !delta.contains((b, RawStatus::Disappeared))
    } else {
        &&& status == RawStatus::Appeared
        &&& find_opened(opened, name) matches Some(om)
        &&& om.body matches Some(b)
        &&& (!delta.contains((b, RawStatus::Appeared)) || !is_body_object(base, opened, b))
    }
}

/// The object `b` is a body: the table knows it as one, or does not know it and it does
/// not open as a meta.
pub open spec fn is_body_object(base: TableV, opened: Seq<OpenedMetaV>, b: Seq<char>) -> bool {
    if base.sorts.contains_key(b) {
        base.sorts[b] is Body
    } else {
        find_opened(opened, b) is None
    }
}

/// The first object of `d`, in its order, that is a secret born or dying without its
/// body in `delta`.
pub open spec fn first_unpaired(
    base: TableV,
    opened: Seq<OpenedMetaV>,
    delta: Seq<(Seq<char>, RawStatus)>,
    d: Seq<(Seq<char>, RawStatus)>,
) -> Option<Seq<char>>
    decreases d.len(),
{
    if d.len() == 0 {
        None
    } else {
        match first_unpaired(base, opened, delta, d.drop_last()) {
            Some(x) => Some(x),
            None => if unpaired(base, opened, delta, d.last().0, d.last().1) {
                Some(d.last().0)
            } else {
                None
            },
        }
    }
}

/// The whole delta laid onto the graph of `base`. A delta that names one object twice,
/// or in which a secret is born or dies without its body, is a data error. Otherwise it
/// is laid in two passes: first the metas, in the order of the delta, then the bodies
/// and the other objects.
///
/// Every combination that a delta laid once already can hold is accepted again and
/// changes nothing the second time: a meta that appears and is known is born already
/// (no event), a body that appears and is known must have its meta, and an object that
/// disappears and is not known is gone already. So every event is named by an entry of
/// its own kind: a birth by an appeared meta, a meta change by a modified one, a death
/// by a disappeared one, and likewise for bodies.
pub open spec fn apply_spec(
    base: TableV,
    opened: Seq<OpenedMetaV>,
    delta: Seq<(Seq<char>, RawStatus)>,
) -> Result<ApplyState, ErrV> {
    match first_repeated(delta) {
        Some(name) => Err(ErrV::InconsistentDelta(name)),
        None => match first_unpaired(base, opened, delta, delta) {
            Some(name) => Err(ErrV::InconsistentDelta(name)),
            None => {
                let st0 = ApplyState { sorts: base.sorts, nodes: base.nodes, events: Seq::empty() };
                match meta_pass(st0, base.sorts, opened, delta) {
                    Err(e) => Err(e),
                    Ok(s1) => body_pass(s1, base.sorts, opened, delta),
                }
            },
        },
    }
}

proof fn lemma_first_unpaired_stops(
    base: TableV,
    opened: Seq<OpenedMetaV>,
    d: Seq<(Seq<char>, RawStatus)>,
    i: int,
)
    requires
        0 <= i <= d.len(),
        first_unpaired(base, opened, d, d.take(i)) is Some,
    ensures
        first_unpaired(base, opened, d, d) == first_unpaired(base, opened, d, d.take(i)),
    decreases d.len() - i,
{
    if i < d.len() {
        assert(d.take(i + 1).drop_last() =~= d.take(i));
        lemma_first_unpaired_stops(base, opened, d, i + 1);
    } else {
        assert(d.take(i) =~= d);
    }
}

/// Whether `delta` holds the entry `(name, status)`.
fn in_delta(delta: &RawDelta, name: &ObjectName, status: RawStatus) -> (r: bool)
    ensures
        r == delta@.contains((name@, status)),
{
    let ghost dv = delta@;
    let n = delta.0.len();
    let mut j: usize = 0;
    while j < n
        invariant
            n == delta.0@.len(),
            dv == delta@,
            j <= n,
            forall|t: int| 0 <= t < j ==> dv[t] != (name@, status),
        decreases n - j,
    {
        assert(dv[j as int] == (delta.0@[j as int].0@, delta.0@[j as int].1));
        if delta.0[j].0.same(name) && delta.0[j].1 == status {
            assert(dv[j as int] == (name@, status));
            return true;
        }
        j = j + 1;
    }
    false
}

proof fn lemma_first_repeated_stops(d: Seq<(Seq<char>, RawStatus)>, i: int)
    requires
        0 <= i <= d.len(),
        first_repeated(d.take(i)) is Some,
    ensures
        first_repeated(d) == first_repeated(d.take(i)),
    decreases d.len() - i,
{
    if i < d.len() {
        assert(d.take(i + 1).drop_last() =~= d.take(i));
        lemma_first_repeated_stops(d, i + 1);
    } else {
        assert(d.take(i) =~= d);
    }
}

/// A delta with no repeated object names each object once.
pub proof fn lemma_no_repeat_distinct(d: Seq<(Seq<char>, RawStatus)>)
    requires
        first_repeated(d) is None,
    ensures
        forall|i: int, j: int| 0 <= i < d.len() && 0 <= j < d.len() && i != j ==> d[i].0 != d[j].0,
    decreases d.len(),
{
    if d.len() > 0 {
        let e = d.drop_last();
        lemma_no_repeat_distinct(e);
        assert forall|i: int, j: int| 0 <= i < d.len() && 0 <= j < d.len() && i != j implies d[i].0
            != d[j].0 by {
            if j == d.len() - 1 {
                if d[i].0 == d[j].0 {
                    assert(repeated_at(d, d.len() - 1));
                }
            } else if i == d.len() - 1 {
                if d[i].0 == d[j].0 {
                    assert(repeated_at(d, d.len() - 1));
                }
            } else {
                assert(e[i] == d[i] && e[j] == d[j]);
            }
        }
    }
}

pub proof fn lemma_map_values_insert<K, V, W>(m: Map<K, V>, k: K, v: V, f: spec_fn(V) -> W)
    ensures
        m.insert(k, v).map_values(f) == m.map_values(f).insert(k, f(v)),
{
    assert(m.insert(k, v).map_values(f) =~= m.map_values(f).insert(k, f(v)));
}

proof fn lemma_find_opened_skip(s: Seq<OpenedMetaV>, name: Seq<char>, i: int)
    requires
        0 <= i < s.len(),
    ensures
        find_opened(s.skip(i), name) == if s[i].object == name {
            Some(s[i])
        } else {
            find_opened(s.skip(i + 1), name)
        },
{
    assert(s.skip(i)[0] == s[i]);
    assert(s.skip(i).drop_first() =~= s.skip(i + 1));
}

/// The position of the first opened meta that came from `name`.
fn opened_index(opened: &Vec<OpenedMeta>, name: &ObjectName) -> (r: Option<usize>)
    ensures
        match r {
            Some(j) => j < opened@.len() && find_opened(opened_view(opened@), name@) == Some(
                opened@[j as int]@,
            ),
            None => find_opened(opened_view(opened@), name@) is None,
        },
{
    let ghost ov = opened_view(opened@);
    let n = opened.len();
    let mut i: usize = 0;
    assert(ov.skip(0) =~= ov);
    while i < n
        invariant
            n == opened@.len(),
            ov == opened_view(opened@),
            i <= n,
            find_opened(ov, name@) == find_opened(ov.skip(i as int), name@),
        decreases n - i,
    {
        proof {
            lemma_find_opened_skip(ov, name@, i as int);
        }
        if opened[i].object.same(name) {
            return Some(i);
        }
        i = i + 1;
    }
    assert(ov.skip(n as int).len() == 0);
    None
}

/// The meta that an opened meta of node `id` holds, once checked.
pub(crate) fn check_opened(id: &NodeId, om: &OpenedMeta) -> (r: Result<Meta, DataError>)
    ensures
        match check_meta(id@, om@) {
            Ok(m) => r matches Ok(x) && x@ == m,
            Err(e) => r matches Err(x) && x@ == e,
        },
{
    if om.schema > CURRENT_SCHEMA_NUMBER {
        return Err(DataError::MalformedMeta(id.dup()));
    }
    let name = match NodeName::parse(id, om.name.as_str()) {
        Ok(n) => n,
        Err(e) => {
            return Err(e);
        },
    };
    let parent = match &om.parent {
        None => ParentRef::Root,
        Some(p) => ParentRef::Node(NodeId::born(p.dup())),
    };
    let body = match &om.body {
        None => NodeBody::Directory,
        Some(b) => NodeBody::Secret(BodyName::new(b.dup())),
    };
    Ok(Meta { schema: SchemaVersion(om.schema), place: Place { parent, name }, body })
}

pub open spec fn nodes_view(m: Map<Seq<char>, NodeEntry>) -> Map<Seq<char>, EntryV> {
    m.map_values(|e: NodeEntry| e@)
}

pub open spec fn sorts_view(m: Map<Seq<char>, Sort>) -> Map<Seq<char>, SortV> {
    m.map_values(|s: Sort| s@)
}

/// Whether some node has the body stored under `object`.
fn references_object(nodes: &SortedMap<NodeId, NodeEntry>, object: &ObjectName) -> (r: bool)
    ensures
        r == references(nodes_view(nodes@), object@),
{
    let n = nodes.len();
    proof {
        nodes.lemma_view_dom();
    }
    let ghost nv = nodes_view(nodes@);
    let mut i: usize = 0;
    while i < n
        invariant
            n == nodes.keys().len(),
            nodes.is_sorted(),
            nv == nodes_view(nodes@),
            forall|k: Seq<char>| nodes@.contains_key(k) <==> nodes.keys().contains(k),
            forall|j: int|
                0 <= j < nodes.keys().len() ==> #[trigger] nodes@[nodes.keys()[j]]
                    == nodes.values()[j],
            i <= n,
            forall|j: int| 0 <= j < i ==> nv[nodes.keys()[j]].meta.body != Some(object@),
        decreases n - i,
    {
        let hit = match &nodes.value_at(i).meta.body {
            NodeBody::Secret(b) => b.is_object(object),
            NodeBody::Directory => false,
        };
        if hit {
            assert(nv.contains_key(nodes.keys()[i as int]));
            return true;
        }
        i = i + 1;
    }
    assert forall|id: Seq<char>| #[trigger] nv.contains_key(id) implies nv[id].meta.body != Some(
        object@,
    ) by {
        let j = nodes.keys().index_of(id);
    }
    false
}

/// The entry of `id` once its meta changed to `m`.
fn changed(nodes: &SortedMap<NodeId, NodeEntry>, id: &NodeId, m: Meta) -> (r: NodeEntry)
    ensures
        r@ == changed_entry(nodes_view(nodes@), id@, m@),
{
    match nodes.get(id) {
        Some(old) => NodeEntry {
            meta: Meta { schema: m.schema, place: m.place, body: old.meta.body.dup() },
            plain_hash: match &old.plain_hash {
                Some(h) => Some(h.dup()),
                None => None,
            },
        },
        None => NodeEntry { meta: m, plain_hash: None },
    }
}

pub open spec fn sort_of(sorts: Map<Seq<char>, SortV>, name: Seq<char>) -> Option<SortV> {
    if sorts.contains_key(name) {
        Some(sorts[name])
    } else {
        None
    }
}

pub open spec fn opt_sort_view(s: Option<Sort>) -> Option<SortV> {
    match s {
        Some(x) => Some(x@),
        None => None,
    }
}

pub open spec fn state_view(
    sorts: SortedMap<ObjectName, Sort>,
    nodes: SortedMap<NodeId, NodeEntry>,
    events: Seq<Event>,
) -> ApplyState {
    ApplyState { sorts: sorts_view(sorts@), nodes: nodes_view(nodes@), events: events_view(events) }
}

proof fn lemma_meta_pass_stops(
    st: ApplyState,
    bs: Map<Seq<char>, SortV>,
    ov: Seq<OpenedMetaV>,
    d: Seq<(Seq<char>, RawStatus)>,
    i: int,
)
    requires
        0 <= i <= d.len(),
        meta_pass(st, bs, ov, d.take(i)) is Err,
    ensures
        meta_pass(st, bs, ov, d) == meta_pass(st, bs, ov, d.take(i)),
    decreases d.len() - i,
{
    if i < d.len() {
        assert(d.take(i + 1).drop_last() =~= d.take(i));
        lemma_meta_pass_stops(st, bs, ov, d, i + 1);
    } else {
        assert(d.take(i) =~= d);
    }
}

proof fn lemma_body_pass_stops(
    st: ApplyState,
    bs: Map<Seq<char>, SortV>,
    ov: Seq<OpenedMetaV>,
    d: Seq<(Seq<char>, RawStatus)>,
    i: int,
)
    requires
        0 <= i <= d.len(),
        body_pass(st, bs, ov, d.take(i)) is Err,
    ensures
        body_pass(st, bs, ov, d) == body_pass(st, bs, ov, d.take(i)),
    decreases d.len() - i,
{
    if i < d.len() {
        assert(d.take(i + 1).drop_last() =~= d.take(i));
        lemma_body_pass_stops(st, bs, ov, d, i + 1);
    } else {
        assert(d.take(i) =~= d);
    }
}

/// Phase one of unfolding: the whole delta is laid onto the graph, its invariants are
/// not checked and no path is computed. Nothing can be written out from this state;
/// the only way on is `validate`.
#[derive(Debug)]
pub struct AppliedGraph {
    pub table: Table,
    pub events: Vec<Event>,
}

/// The objects of `delta` that must be unpacked as metas before `apply_delta`: new
/// objects the table does not know, and modified metas. Bodies are never unpacked here.
pub open spec fn to_open(sorts: Map<Seq<char>, SortV>, delta: Seq<(Seq<char>, RawStatus)>) -> Seq<
    Seq<char>,
>
    decreases delta.len(),
{
    if delta.len() == 0 {
        Seq::empty()
    } else {
        let prev = to_open(sorts, delta.drop_last());
        let (name, status) = delta.last();
        if (!sorts.contains_key(name) && status == RawStatus::Appeared) || (sorts.contains_key(name)
            && sorts[name] is Meta && status == RawStatus::Modified) {
            prev.push(name)
        } else {
            prev
        }
    }
}

/// The objects of `delta` that the packer must open as metas, in the order of the
/// delta, before `apply_delta` can classify it.
pub fn metas_to_open(base: &Table, delta: &RawDelta) -> (r: Vec<ObjectName>)
    ensures
        r@.map_values(|o: ObjectName| o@) == to_open(base@.sorts, delta@),
{
    let ghost dv = delta@;
    let ghost bs = base@.sorts;
    let n = delta.0.len();
    let mut r: Vec<ObjectName> = Vec::new();
    let mut i: usize = 0;
    assert(dv.take(0) =~= Seq::<(Seq<char>, RawStatus)>::empty());
    assert(r@.map_values(|o: ObjectName| o@) =~= Seq::<Seq<char>>::empty());
    while i < n
        invariant
            n == delta.0@.len(),
            dv == delta@,
            bs == base@.sorts,
            i <= n,
            r@.map_values(|o: ObjectName| o@) == to_open(bs, dv.take(i as int)),
        decreases n - i,
    {
        let name = &delta.0[i].0;
        let status = delta.0[i].1;
        proof {
            assert(dv.take(i + 1).drop_last() =~= dv.take(i as int));
            assert(dv.take(i + 1).last() == dv[i as int]);
            assert(dv[i as int] == (name@, status));
        }
        let wanted = match base.sorts.get(name) {
            None => status == RawStatus::Appeared,
            Some(Sort::Meta(_)) => status == RawStatus::Modified,
            Some(_) => false,
        };
        let ghost before = r@;
        if wanted {
            r.push(name.dup());
            assert(r@.map_values(|o: ObjectName| o@) =~= before.map_values(|o: ObjectName| o@).push(
                name@,
            ));
        }
        i = i + 1;
    }
    assert(dv.take(n as int) =~= dv);
    r
}

/// Phase one of unfolding: lays the whole `delta` onto `base` (see `apply_spec`).
/// `opened` holds the metas of the delta that the packer opened (see `metas_to_open`); an
/// object it does not hold did not open as a meta.
///
/// Applying a delta is a function of its inputs, and it is idempotent: with the mark not
/// moved, laying the same delta again on the table it produced changes nothing (see
/// `replay::law_apply_is_idempotent`).
pub fn apply_delta(base: Table, delta: RawDelta, opened: &Vec<OpenedMeta>) -> (r: Result<
    AppliedGraph,
    DataError,
>)
    ensures
        match apply_spec(base@, opened_view(opened@), delta@) {
            Ok(s) => r matches Ok(g) && {
                &&& g.table@.sorts == s.sorts
                &&& g.table@.nodes == s.nodes
                &&& events_view(g.events@) == s.events
                &&& g.table@.children == index_children(g.table.nodes.keys(), s.nodes)
                &&& g.table@.mark == base@.mark
            },
            Err(e) => r matches Err(x) && x@ == e,
        },
{
    let ghost dv = delta@;
    let ghost bs = base@.sorts;
    let ghost ov = opened_view(opened@);
    let ghost base_view = base@;
    let Table { sorts, nodes, children: _, mark } = base;
    let mut sorts = sorts;
    let mut nodes = nodes;
    let n = delta.0.len();
    // An object that the delta names twice.
    let mut a: usize = 0;
    assert(dv.take(0) =~= Seq::<(Seq<char>, RawStatus)>::empty());
    while a < n
        invariant
            n == delta.0@.len(),
            dv == delta@,
            a <= n,
            first_repeated(dv.take(a as int)) is None,
        decreases n - a,
    {
        let mut b: usize = 0;
        while b < a
            invariant
                n == delta.0@.len(),
                dv == delta@,
                a < n,
                b <= a,
                first_repeated(dv.take(a as int)) is None,
                forall|t: int| 0 <= t < b ==> dv[t].0 != dv[a as int].0,
            decreases a - b,
        {
            assert(dv[b as int].0 == delta.0@[b as int].0@);
            assert(dv[a as int].0 == delta.0@[a as int].0@);
            if delta.0[b].0.same(&delta.0[a].0) {
                proof {
                    let d1 = dv.take(a + 1);
                    assert(d1.drop_last() =~= dv.take(a as int));
                    assert(d1[b as int].0 == d1[a as int].0);
                    assert(repeated_at(d1, a as int));
                    assert(d1.last() == dv[a as int]);
                    assert(first_repeated(d1) == Some(dv[a as int].0));
                    lemma_first_repeated_stops(dv, a + 1);
                }
                return Err(DataError::InconsistentDelta(delta.0[a].0.dup()));
            }
            b = b + 1;
        }
        proof {
            let d1 = dv.take(a + 1);
            assert(d1.drop_last() =~= dv.take(a as int));
            assert forall|t: int| 0 <= t < a implies #[trigger] d1[t].0 != d1[a as int].0 by {
                assert(d1[t] == dv[t]);
            }
        }
        a = a + 1;
    }
    assert(dv.take(n as int) =~= dv);
    // A secret born or dying without its body.
    let mut a: usize = 0;
    assert(dv.take(0) =~= Seq::<(Seq<char>, RawStatus)>::empty());
    while a < n
        invariant
            n == delta.0@.len(),
            dv == delta@,
            ov == opened_view(opened@),
            base_view == (TableV { sorts: sorts_view(sorts@), nodes: nodes_view(nodes@), children: base_view.children, mark: base_view.mark }),
            base_view == base@,
            first_repeated(dv) is None,
            a <= n,
            first_unpaired(base_view, ov, dv, dv.take(a as int)) is None,
        decreases n - a,
    {
        let name = &delta.0[a].0;
        let status = delta.0[a].1;
        proof {
            assert(dv.take(a + 1).drop_last() =~= dv.take(a as int));
            assert(dv.take(a + 1).last() == dv[a as int]);
            assert(dv[a as int] == (name@, status));
        }
        let bad = match sorts.get(name) {
            Some(Sort::Meta(id)) => status == RawStatus::Disappeared && match nodes.get(id) {
                Some(e) => match &e.meta.body {
                    NodeBody::Secret(b) => !in_delta(&delta, &b.object(), RawStatus::Disappeared),
                    NodeBody::Directory => false,
                },
                None => false,
            },
            Some(_) => false,
            None => status == RawStatus::Appeared && match opened_index(opened, name) {
                Some(j) => {
                    assert(opened@[j as int]@ == ov[j as int]);
                    match &opened[j].body {
                        Some(b) => {
                            let body_known = match sorts.get(b) {
                                Some(Sort::Body(_)) => true,
                                Some(_) => false,
                                None => opened_index(opened, b).is_none(),
                            };
                            !in_delta(&delta, b, RawStatus::Appeared) || !body_known
                        },
                        None => false,
                    }
                },
                None => false,
            },
        };
        assert(bad == unpaired(base_view, ov, dv, name@, status));
        if bad {
            proof {
                lemma_first_unpaired_stops(base_view, ov, dv, a + 1);
            }
            return Err(DataError::InconsistentDelta(name.dup()));
        }
        a = a + 1;
    }
    assert(dv.take(n as int) =~= dv);
    // The sort of each entry of the delta, as the table knew it before.
    let mut classes: Vec<Option<Sort>> = Vec::new();
    let mut i: usize = 0;
    while i < n
        invariant
            n == delta.0@.len(),
            dv == delta@,
            bs == sorts_view(sorts@),
            base_view == base@,
            first_repeated(dv) is None,
            first_unpaired(base_view, ov, dv, dv) is None,
            ov == opened_view(opened@),
            i <= n,
            classes@.len() == i,
            forall|j: int| 0 <= j < i ==> opt_sort_view(#[trigger] classes@[j]) == sort_of(bs, dv[j].0),
        decreases n - i,
    {
        let c = match sorts.get(&delta.0[i].0) {
            Some(s) => Some(s.dup()),
            None => None,
        };
        assert(dv[i as int].0 == delta.0@[i as int].0@);
        classes.push(c);
        i = i + 1;
    }
    let ghost st0 = ApplyState { sorts: bs, nodes: nodes_view(nodes@), events: Seq::empty() };
    assert(st0 == ApplyState { sorts: base_view.sorts, nodes: base_view.nodes, events: Seq::<EventV>::empty() });
    let mut events: Vec<Event> = Vec::new();
    assert(dv.take(0) =~= Seq::<(Seq<char>, RawStatus)>::empty());
    assert(events_view(events@) =~= Seq::<EventV>::empty());
    i = 0;
    while i < n
        invariant
            n == delta.0@.len(),
            dv == delta@,
            ov == opened_view(opened@),
            classes@.len() == n,
            forall|j: int| 0 <= j < n ==> opt_sort_view(#[trigger] classes@[j]) == sort_of(bs, dv[j].0),
            i <= n,
            meta_pass(st0, bs, ov, dv.take(i as int)) == Ok::<ApplyState, ErrV>(
                state_view(sorts, nodes, events@),
            ),
            st0 == (ApplyState { sorts: base_view.sorts, nodes: base_view.nodes, events: Seq::<EventV>::empty() }),
            bs == base_view.sorts,
            base_view == base@,
            ov == opened_view(opened@),
            dv == delta@,
            first_repeated(dv) is None,
            first_unpaired(base_view, ov, dv, dv) is None,
        decreases n - i,
    {
        let name = &delta.0[i].0;
        let status = delta.0[i].1;
        let ghost st = state_view(sorts, nodes, events@);
        proof {
            assert(dv.take(i + 1).drop_last() =~= dv.take(i as int));
            assert(dv.take(i + 1).last() == dv[i as int]);
            assert(dv[i as int] == (name@, status));
            assert(opt_sort_view(classes@[i as int]) == sort_of(bs, name@));
        }
        match &classes[i] {
            Some(Sort::Meta(id0)) => {
                let id = id0.dup();
                match status {
                    RawStatus::Appeared => {},
                    RawStatus::Modified => {
                        match opened_index(opened, name) {
                            None => {
                                proof {
                                    lemma_meta_pass_stops(st0, bs, ov, dv, i + 1);
                                }
                                return Err(DataError::MalformedMeta(id));
                            },
                            Some(j) => {
                                assert(opened@[j as int]@ == ov[j as int]);
                                match check_opened(&id, &opened[j]) {
                                    Err(e) => {
                                        proof {
                                            lemma_meta_pass_stops(st0, bs, ov, dv, i + 1);
                                        }
                                        return Err(e);
                                    },
                                    Ok(m) => {
                                        let entry = changed(&nodes, &id, m.dup());
                                        nodes.insert(id.dup(), entry);
                                        events.push(Event::MetaChanged { id, new_meta: m });
                                        proof {
                                            lemma_map_values_insert(
                                                st.nodes,
                                                id@,
                                                entry@,
                                                |e: EntryV| e,
                                            );
                                        }
                                        assert(nodes_view(nodes@) =~= st.nodes.insert(id@, entry@));
                                        assert(events_view(events@) =~= st.events.push(
                                            EventV::MetaChanged { id: id@, new_meta: m@ },
                                        ));
                                    },
                                }
                            },
                        }
                    },
                    RawStatus::Disappeared => {
                        sorts.remove(name);
                        nodes.remove(&id);
                        events.push(Event::NodeDied { id });
                        assert(sorts_view(sorts@) =~= st.sorts.remove(name@));
                        assert(nodes_view(nodes@) =~= st.nodes.remove(id@));
                        assert(events_view(events@) =~= st.events.push(EventV::NodeDied { id: id@ }));
                    },
                }
            },
            Some(_) => {},
            None => {
                if status == RawStatus::Appeared {
                    match opened_index(opened, name) {
                        None => {},
                        Some(j) => {
                            assert(opened@[j as int]@ == ov[j as int]);
                            let id = NodeId::born(name.dup());
                            match check_opened(&id, &opened[j]) {
                                Err(e) => {
                                    proof {
                                        lemma_meta_pass_stops(st0, bs, ov, dv, i + 1);
                                    }
                                    return Err(e);
                                },
                                Ok(m) => {
                                    sorts.insert(name.dup(), Sort::Meta(id.dup()));
                                    let entry = NodeEntry { meta: m.dup(), plain_hash: None };
                                    nodes.insert(id.dup(), entry);
                                    events.push(Event::NodeBorn { id, meta: m });
                                    assert(sorts_view(sorts@) =~= st.sorts.insert(
                                        name@,
                                        SortV::Meta(name@),
                                    ));
                                    assert(nodes_view(nodes@) =~= st.nodes.insert(
                                        name@,
                                        EntryV { meta: m@, hash: None },
                                    ));
                                    assert(events_view(events@) =~= st.events.push(
                                        EventV::NodeBorn { id: name@, meta: m@ },
                                    ));
                                },
                            }
                        },
                    }
                }
            },
        }
        i = i + 1;
    }
    assert(dv.take(n as int) =~= dv);
    let ghost st1 = state_view(sorts, nodes, events@);
    assert(dv.take(0) =~= Seq::<(Seq<char>, RawStatus)>::empty());
    i = 0;
    while i < n
        invariant
            n == delta.0@.len(),
            dv == delta@,
            ov == opened_view(opened@),
            classes@.len() == n,
            forall|j: int| 0 <= j < n ==> opt_sort_view(#[trigger] classes@[j]) == sort_of(bs, dv[j].0),
            meta_pass(st0, bs, ov, dv) == Ok::<ApplyState, ErrV>(st1),
            i <= n,
            body_pass(st1, bs, ov, dv.take(i as int)) == Ok::<ApplyState, ErrV>(
                state_view(sorts, nodes, events@),
            ),
            st0 == (ApplyState { sorts: base_view.sorts, nodes: base_view.nodes, events: Seq::<EventV>::empty() }),
            bs == base_view.sorts,
            base_view == base@,
            first_repeated(dv) is None,
            first_unpaired(base_view, ov, dv, dv) is None,
        decreases n - i,
    {
        let name = &delta.0[i].0;
        let status = delta.0[i].1;
        let ghost st = state_view(sorts, nodes, events@);
        proof {
            assert(dv.take(i + 1).drop_last() =~= dv.take(i as int));
            assert(dv.take(i + 1).last() == dv[i as int]);
            assert(dv[i as int] == (name@, status));
            assert(opt_sort_view(classes@[i as int]) == sort_of(bs, name@));
        }
        let is_meta = match &classes[i] {
            Some(Sort::Meta(_)) => true,
            Some(_) => false,
            None => status == RawStatus::Appeared && match opened_index(opened, name) {
                Some(_) => true,
                None => false,
            },
        };
        if !is_meta {
            match &classes[i] {
                Some(Sort::Body(b0)) => {
                    let b = b0.dup();
                    let owned = references_object(&nodes, &b.object());
                    match status {
                        RawStatus::Modified => {
                            if owned {
                                events.push(Event::ContentChanged { body: b });
                                assert(events_view(events@) =~= st.events.push(
                                    EventV::ContentChanged { body: b@ },
                                ));
                            } else {
                                proof {
                                    lemma_body_pass_stops(st1, bs, ov, dv, i + 1);
                                }
                                return Err(DataError::InconsistentDelta(name.dup()));
                            }
                        },
                        RawStatus::Disappeared => {
                            if owned {
                                proof {
                                    lemma_body_pass_stops(st1, bs, ov, dv, i + 1);
                                }
                                return Err(DataError::InconsistentDelta(name.dup()));
                            } else {
                                sorts.remove(name);
                                events.push(Event::BodyGone { body: b });
                                assert(sorts_view(sorts@) =~= st.sorts.remove(name@));
                                assert(events_view(events@) =~= st.events.push(
                                    EventV::BodyGone { body: b@ },
                                ));
                            }
                        },
                        RawStatus::Appeared => {
                            if !owned {
                                proof {
                                    lemma_body_pass_stops(st1, bs, ov, dv, i + 1);
                                }
                                return Err(DataError::InconsistentDelta(name.dup()));
                            }
                        },
                    }
                },
                Some(_) => {
                    if status == RawStatus::Disappeared {
                        sorts.remove(name);
                        assert(sorts_view(sorts@) =~= st.sorts.remove(name@));
                    }
                },
                None => {
                    if status == RawStatus::Appeared && references_object(&nodes, name) {
                        sorts.insert(name.dup(), Sort::Body(BodyName::new(name.dup())));
                        events.push(Event::BodyArrived { body: BodyName::new(name.dup()) });
                        assert(sorts_view(sorts@) =~= st.sorts.insert(name@, SortV::Body(name@)));
                        assert(events_view(events@) =~= st.events.push(
                            EventV::BodyArrived { body: name@ },
                        ));
                    } else if status == RawStatus::Disappeared {
                    } else {
                        proof {
                            lemma_body_pass_stops(st1, bs, ov, dv, i + 1);
                        }
                        return Err(DataError::UnknownObject(name.dup()));
                    }
                },
            }
        }
        i = i + 1;
    }
    assert(dv.take(n as int) =~= dv);
    let children = reindex(&nodes);
    Ok(AppliedGraph { table: Table { sorts, nodes, children, mark }, events })
}

} // verus!
