//! The second phase of unfolding: the invariants of the graph are checked after the
//! delta was laid onto it, and the violations found are resolved deterministically.
use vstd::prelude::*;

use crate::delta::{
    check_meta, check_opened, events_view, lemma_map_values_insert, opened_view, AppliedGraph,
    DataError, ErrV, Event, EventV, OpenedMeta, OpenedMetaV,
};
use crate::sorted_map::{increasing, law_key_order_is_canonical};
use crate::ident::{NodeId, ObjectName, Revision, SyncMark};
use crate::meta::{is_legal_name, DerivedPath, Meta, MetaV, NodeName, ParentRef, Place, PlaceV};
use crate::sorted_map::SortedMap;
use crate::interfaces::PullOutcome;
use crate::table::{index_children, reindex, EntryV, NodeEntry, Sort, SortV, Table, TableV};

verus! {

/// Violations that only a merge of parallel histories can produce.
#[derive(Debug, Clone)]
pub enum GraphViolation {
    /// A child refers to a parent that does not exist.
    Orphan { child: NodeId, missing_parent: NodeId },
    /// Mutual nesting; members in a deterministic order.
    Cycle { members: Vec<NodeId> },
    /// Two nodes in one place.
    PlaceCollision { place: Place, claimants: Vec<NodeId> },
    /// A parallel edit of one object, presented by the transport.
    ConcurrentEdit { object: ObjectName },
    /// The link from a meta to its body changed against the last known state.
    BodyLinkChanged { id: NodeId, was: crate::ident::BodyName, now: crate::ident::BodyName },
}

/// The parallel edits that the transport presented on a pull: each object it reports in
/// conflict, in its order, is a concurrent edit; a clean pull presents none.
pub fn concurrent_edits(outcome: &PullOutcome) -> (r: Vec<GraphViolation>)
    ensures
        match outcome {
            PullOutcome::Clean { .. } => r@.len() == 0,
            PullOutcome::Conflicted { objects } => {
                &&& r@.len() == objects@.len()
                &&& forall|i: int| 0 <= i < r@.len() ==> (#[trigger] r@[i] matches GraphViolation::ConcurrentEdit { object } && object@ == objects@[i]@)
            },
        },
{
    let mut r: Vec<GraphViolation> = Vec::new();
    match outcome {
        PullOutcome::Clean { .. } => {},
        PullOutcome::Conflicted { objects } => {
            let n = objects.len();
            let mut i: usize = 0;
            while i < n
                invariant
                    n == objects@.len(),
                    i <= n,
                    r@.len() == i,
                    forall|j: int| 0 <= j < i ==> (#[trigger] r@[j] matches GraphViolation::ConcurrentEdit { object } && object@ == objects@[j]@),
                decreases n - i,
            {
                r.push(GraphViolation::ConcurrentEdit { object: objects[i].dup() });
                i = i + 1;
            }
        },
    }
    r
}

pub enum ResolutionV {
    ResurrectParent { parent: Seq<char>, from: Seq<char> },
    BreakCycle { loser: Seq<char>, relocated_to: PlaceV },
    RenameLoser { loser: Seq<char>, new_name: Seq<char> },
    ConflictCopy { original: Seq<char>, copy: Seq<char>, copy_place: PlaceV },
}

/// Deterministic resolutions: the same input gives the same result on every device.
#[derive(Debug, Clone)]
pub enum Resolution {
    /// Orphan: the child wins, the parent is brought back from history.
    ResurrectParent { parent: NodeId, from: Revision },
    /// Cycle: the loser (chosen deterministically) moves to the root, marked.
    BreakCycle { loser: NodeId, relocated_to: Place },
    /// Duplicate place: the loser gets a deterministic suffix.
    RenameLoser { loser: NodeId, new_name: NodeName },
    /// Parallel edit: the losing version becomes a copy under a new identity.
    ConflictCopy { original: NodeId, copy: NodeId, copy_place: Place },
}

impl View for Resolution {
    type V = ResolutionV;

    open spec fn view(&self) -> ResolutionV {
        match self {
            Resolution::ResurrectParent { parent, from } => ResolutionV::ResurrectParent {
                parent: parent@,
                from: from@,
            },
            Resolution::BreakCycle { loser, relocated_to } => ResolutionV::BreakCycle {
                loser: loser@,
                relocated_to: relocated_to@,
            },
            Resolution::RenameLoser { loser, new_name } => ResolutionV::RenameLoser {
                loser: loser@,
                new_name: new_name@,
            },
            Resolution::ConflictCopy { original, copy, copy_place } => ResolutionV::ConflictCopy {
                original: original@,
                copy: copy@,
                copy_place: copy_place@,
            },
        }
    }
}

pub open spec fn resolutions_view(v: Seq<Resolution>) -> Seq<ResolutionV> {
    v.map_values(|r: Resolution| r@)
}

/// Phase two is done: the invariants hold and the violations found were resolved. Paths
/// exist only from this state.
#[derive(Debug)]
pub struct ValidatedState {
    pub table: Table,
    /// What was violated and how it was resolved, to be shown to the user.
    pub resolutions: Vec<Resolution>,
}

// ---------------------------------------------------------------------------------
// Links of metas to bodies.

/// A meta change in `e` that moves the link of a live node to another body.
pub open spec fn breaks_body_link(nodes: Map<Seq<char>, EntryV>, e: EventV) -> bool {
    match e {
        EventV::MetaChanged { id, new_meta } => nodes.contains_key(id) && nodes[id].meta.body
            != new_meta.body,
        _ => false,
    }
}

/// The first node, in the order of the events, whose meta changed its body link.
pub open spec fn first_broken_link(nodes: Map<Seq<char>, EntryV>, events: Seq<EventV>) -> Option<
    Seq<char>,
>
    decreases events.len(),
{
    if events.len() == 0 {
        None
    } else if breaks_body_link(nodes, events[0]) {
        Some(events[0]->MetaChanged_id)
    } else {
        first_broken_link(nodes, events.drop_first())
    }
}

// ---------------------------------------------------------------------------------
// Orphans.

/// The parent of `x`, when `x` is a node with a node for parent.
pub open spec fn up(nodes: Map<Seq<char>, EntryV>, x: Seq<char>) -> Option<Seq<char>> {
    if nodes.contains_key(x) {
        nodes[x].meta.place.parent
    } else {
        None
    }
}

/// The parent that `x` refers to and that does not exist.
pub open spec fn missing_parent(nodes: Map<Seq<char>, EntryV>, x: Seq<char>) -> Option<Seq<char>> {
    match up(nodes, x) {
        Some(p) => if nodes.contains_key(p) {
            None
        } else {
            Some(p)
        },
        None => None,
    }
}

/// The missing parents of the nodes `keys`, each once, in the order of their first child.
pub open spec fn orphan_parents(nodes: Map<Seq<char>, EntryV>, keys: Seq<Seq<char>>) -> Seq<
    Seq<char>,
>
    decreases keys.len(),
{
    if keys.len() == 0 {
        Seq::empty()
    } else {
        let prev = orphan_parents(nodes, keys.drop_last());
        match missing_parent(nodes, keys.last()) {
            Some(p) => if prev.contains(p) {
                prev
            } else {
                prev.push(p)
            },
            None => prev,
        }
    }
}

// ---------------------------------------------------------------------------------
// Cycles.

/// Walking up from `x` at most `fuel` steps reaches `start`.
pub open spec fn returns_to(
    nodes: Map<Seq<char>, EntryV>,
    start: Seq<char>,
    x: Seq<char>,
    fuel: nat,
) -> bool
    decreases fuel,
{
    if fuel == 0 {
        false
    } else {
        match up(nodes, x) {
            None => false,
            Some(p) => p == start || returns_to(nodes, start, p, (fuel - 1) as nat),
        }
    }
}

/// `x` lies on a cycle of parents of at most `n` nodes.
pub open spec fn on_cycle(nodes: Map<Seq<char>, EntryV>, x: Seq<char>, n: nat) -> bool {
    returns_to(nodes, x, x, n)
}

/// The mark a node gets in its name when it leaves a cycle for the root.
pub open spec fn cycle_tag() -> Seq<char> {
    seq!['~', 'c', 'y', 'c', 'l', 'e']
}

/// The entry `e` moved to the root under the name `name`.
pub open spec fn relocated(e: EntryV, name: Seq<char>) -> EntryV {
    EntryV {
        meta: MetaV { schema: e.meta.schema, place: PlaceV { parent: None, name }, body: e.meta.body },
        hash: e.hash,
    }
}

/// The root place for the loser of a cycle whose entry is `e`: its name, marked, with the
/// suffix `~` until no place of `taken` holds it.
pub open spec fn relocation(taken: Seq<PlaceV>, e: EntryV) -> PlaceV {
    PlaceV { parent: None, name: settled_name(taken, PlaceV { parent: None, name: e.meta.place.name + cycle_tag() }) }
}

pub struct Resolved {
    pub nodes: Map<Seq<char>, EntryV>,
    pub resolutions: Seq<ResolutionV>,
    pub taken: Seq<PlaceV>,
}

/// Cycles broken in the order `keys`, whose original places are `origin`: a node that
/// lies on a cycle when its turn comes is the loser of that cycle. In increasing order of
/// identity that is the least member. It moves to the root under a name that none of the
/// places taken holds: the original places and those given to losers before.
pub open spec fn break_cycles(nodes: Map<Seq<char>, EntryV>, origin: Seq<PlaceV>, keys: Seq<Seq<char>>, n: nat) -> Resolved
    decreases keys.len(),
{
    if keys.len() == 0 {
        Resolved { nodes, resolutions: Seq::empty(), taken: origin }
    } else {
        let prev = break_cycles(nodes, origin, keys.drop_last(), n);
        let k = keys.last();
        if prev.nodes.contains_key(k) && on_cycle(prev.nodes, k, n) {
            let pl = relocation(prev.taken, prev.nodes[k]);
            Resolved {
                nodes: prev.nodes.insert(k, relocated(prev.nodes[k], pl.name)),
                resolutions: prev.resolutions.push(ResolutionV::BreakCycle { loser: k, relocated_to: pl }),
                taken: prev.taken.push(pl),
            }
        } else {
            prev
        }
    }
}

// ---------------------------------------------------------------------------------
// Duplicate places.

pub open spec fn max_name_len(taken: Seq<PlaceV>) -> nat
    decreases taken.len(),
{
    if taken.len() == 0 {
        0
    } else {
        let m = max_name_len(taken.drop_last());
        if taken.last().name.len() > m {
            taken.last().name.len()
        } else {
            m
        }
    }
}

/// `name` with `~` appended until no place of `taken` under `parent` holds it.
pub open spec fn free_name(
    taken: Seq<PlaceV>,
    parent: Option<Seq<char>>,
    name: Seq<char>,
    bound: int,
) -> Seq<char>
    decreases bound - name.len(),
{
    if name.len() < bound && taken.contains(PlaceV { parent, name }) {
        free_name(taken, parent, name.push('~'), bound)
    } else {
        name
    }
}

/// The name that `p` keeps, or gets, once the places `taken` are settled.
pub open spec fn settled_name(taken: Seq<PlaceV>, p: PlaceV) -> Seq<char> {
    free_name(taken, p.parent, p.name, (max_name_len(taken) + 1) as int)
}

pub open spec fn renamed(e: EntryV, name: Seq<char>) -> EntryV {
    EntryV {
        meta: MetaV {
            schema: e.meta.schema,
            place: PlaceV { parent: e.meta.place.parent, name },
            body: e.meta.body,
        },
        hash: e.hash,
    }
}

pub struct Settled {
    pub nodes: Map<Seq<char>, EntryV>,
    pub resolutions: Seq<ResolutionV>,
    pub taken: Seq<PlaceV>,
}

/// The original places of the nodes `keys`, in that order.
pub open spec fn key_places(nodes: Map<Seq<char>, EntryV>, keys: Seq<Seq<char>>) -> Seq<PlaceV> {
    keys.map_values(|k: Seq<char>| nodes[k].meta.place)
}

/// The `i`-th of the places `origin` is held already by one before it.
pub open spec fn contested(origin: Seq<PlaceV>, i: int) -> bool {
    origin.take(i).contains(origin[i])
}

/// Places settled in the order `keys`, whose original places are `origin`: the first node
/// at a place keeps it; a node whose place a node before it held loses, and its name gets
/// the suffix `~` until no place taken holds it. Taken are all original places and the
/// places given to losers before.
pub open spec fn settle_places(nodes: Map<Seq<char>, EntryV>, origin: Seq<PlaceV>, keys: Seq<Seq<char>>) -> Settled
    decreases keys.len(),
{
    if keys.len() == 0 {
        Settled { nodes, resolutions: Seq::empty(), taken: origin }
    } else {
        let prev = settle_places(nodes, origin, keys.drop_last());
        let k = keys.last();
        if prev.nodes.contains_key(k) && contested(origin, keys.len() - 1) {
            let e = prev.nodes[k];
            let name = settled_name(prev.taken, e.meta.place);
            Settled {
                nodes: prev.nodes.insert(k, renamed(e, name)),
                resolutions: prev.resolutions.push(ResolutionV::RenameLoser { loser: k, new_name: name }),
                taken: prev.taken.push(PlaceV { parent: e.meta.place.parent, name }),
            }
        } else {
            prev
        }
    }
}

// ---------------------------------------------------------------------------------
// Parents brought back from history.

/// `p` is no node, and a node of `nodes` has it for parent.
pub open spec fn is_missing(nodes: Map<Seq<char>, EntryV>, p: Seq<char>) -> bool {
    &&& !nodes.contains_key(p)
    &&& exists|x: Seq<char>| #[trigger] nodes.contains_key(x) && nodes[x].meta.place.parent == Some(p)
}

pub struct Brought {
    pub sorts: Map<Seq<char>, SortV>,
    pub nodes: Map<Seq<char>, EntryV>,
    pub resolutions: Seq<ResolutionV>,
}

/// The metas `metas`, read from the revision `from` and opened, brought back in their
/// order: each one whose node is missing as a parent when its turn comes enters the graph
/// (a meta that does not check is an error), the others are left out.
pub open spec fn bring_back(
    sorts: Map<Seq<char>, SortV>,
    nodes: Map<Seq<char>, EntryV>,
    from: Seq<char>,
    metas: Seq<OpenedMetaV>,
) -> Result<Brought, ErrV>
    decreases metas.len(),
{
    if metas.len() == 0 {
        Ok(Brought { sorts, nodes, resolutions: Seq::empty() })
    } else {
        match bring_back(sorts, nodes, from, metas.drop_last()) {
            Err(e) => Err(e),
            Ok(b) => {
                let p = metas.last().object;
                if is_missing(b.nodes, p) {
                    match check_meta(p, metas.last()) {
                        Err(e) => Err(e),
                        Ok(m) => Ok(
                            Brought {
                                sorts: b.sorts.insert(p, SortV::Meta(p)),
                                nodes: b.nodes.insert(p, EntryV { meta: m, hash: None }),
                                resolutions: b.resolutions.push(
                                    ResolutionV::ResurrectParent { parent: p, from },
                                ),
                            },
                        ),
                    }
                } else {
                    Ok(b)
                }
            },
        }
    }
}

/// The graph of `t` with the parents of orphans brought back from the revision of its
/// sync mark; with no mark there is no history to bring them from.
pub open spec fn brought(t: TableV, metas: Seq<OpenedMetaV>) -> Result<Brought, ErrV> {
    match t.mark {
        None => Ok(Brought { sorts: t.sorts, nodes: t.nodes, resolutions: Seq::empty() }),
        Some(mark) => bring_back(t.sorts, t.nodes, mark, metas),
    }
}

/// The nodes of the graph, in increasing order of identity, as a table holds them.
pub open spec fn ordered_nodes(nodes: Map<Seq<char>, EntryV>, keys: Seq<Seq<char>>) -> bool {
    &&& increasing(keys)
    &&& forall|k: Seq<char>| nodes.contains_key(k) <==> keys.contains(k)
}

/// The identities of `nodes` in increasing order.
pub open spec fn key_order(nodes: Map<Seq<char>, EntryV>) -> Seq<Seq<char>> {
    choose|keys: Seq<Seq<char>>| ordered_nodes(nodes, keys)
}

// ---------------------------------------------------------------------------------
// The whole validation.

pub struct Outcome {
    pub sorts: Map<Seq<char>, SortV>,
    pub nodes: Map<Seq<char>, EntryV>,
    pub resolutions: Seq<ResolutionV>,
}

/// The graph `b`, its parents brought back, resolved: a parent still missing is an
/// error; then cycles are broken and duplicate places settled, in increasing order of
/// identity.
pub open spec fn resolve(b: Brought) -> Result<Outcome, ErrV> {
    let keys = key_order(b.nodes);
    let orphans = orphan_parents(b.nodes, keys);
    if orphans.len() > 0 {
        Err(ErrV::UnknownObject(orphans[0]))
    } else {
        let c = break_cycles(b.nodes, key_places(b.nodes, keys), keys, keys.len());
        let s = settle_places(c.nodes, key_places(c.nodes, keys), keys);
        Ok(
            Outcome {
                sorts: b.sorts,
                nodes: s.nodes,
                resolutions: b.resolutions + c.resolutions + s.resolutions,
            },
        )
    }
}

/// Validation of the graph `t` after `events`, given the metas `metas` of the parents of
/// its orphans as the history held them at the sync mark: a meta that changed its body
/// link is an error; orphans get their parents back (see `brought`); then the graph is
/// resolved (see `resolve`).
pub open spec fn validate_spec(t: TableV, events: Seq<EventV>, metas: Seq<OpenedMetaV>) -> Result<Outcome, ErrV> {
    match first_broken_link(t.nodes, events) {
        Some(id) => Err(ErrV::MalformedMeta(id)),
        None => match brought(t, metas) {
            Err(e) => Err(e),
            Ok(b) => resolve(b),
        },
    }
}

// ---------------------------------------------------------------------------------
// Executable parts.

pub open spec fn nv(nodes: SortedMap<NodeId, NodeEntry>) -> Map<Seq<char>, EntryV> {
    nv_of(nodes@)
}

pub open spec fn nv_of(m: Map<Seq<char>, NodeEntry>) -> Map<Seq<char>, EntryV> {
    m.map_values(|e: NodeEntry| e@)
}

proof fn lemma_first_broken_skip(nodes: Map<Seq<char>, EntryV>, s: Seq<EventV>, i: int)
    requires
        0 <= i < s.len(),
    ensures
        first_broken_link(nodes, s.skip(i)) == if breaks_body_link(nodes, s[i]) {
            Some(s[i]->MetaChanged_id)
        } else {
            first_broken_link(nodes, s.skip(i + 1))
        },
{
    assert(s.skip(i)[0] == s[i]);
    assert(s.skip(i).drop_first() =~= s.skip(i + 1));
}

fn first_broken(nodes: &SortedMap<NodeId, NodeEntry>, events: &Vec<Event>) -> (r: Option<NodeId>)
    ensures
        match first_broken_link(nv(*nodes), events_view(events@)) {
            Some(id) => r matches Some(x) && x@ == id,
            None => r is None,
        },
{
    let ghost ev = events_view(events@);
    let n = events.len();
    let mut i: usize = 0;
    assert(ev.skip(0) =~= ev);
    while i < n
        invariant
            n == events@.len(),
            ev == events_view(events@),
            i <= n,
            first_broken_link(nv(*nodes), ev) == first_broken_link(nv(*nodes), ev.skip(i as int)),
        decreases n - i,
    {
        proof {
            lemma_first_broken_skip(nv(*nodes), ev, i as int);
        }
        assert(ev[i as int] == events@[i as int]@);
        match &events[i] {
            Event::MetaChanged { id, new_meta } => {
                match nodes.get(id) {
                    Some(e) => {
                        if !e.meta.body.same(&new_meta.body) {
                            return Some(id.dup());
                        }
                    },
                    None => {},
                }
            },
            _ => {},
        }
        i = i + 1;
    }
    assert(ev.skip(n as int).len() == 0);
    None
}

/// The parent that the `i`-th node refers to, when no such node exists.
fn missing_parent_at(nodes: &SortedMap<NodeId, NodeEntry>, i: usize) -> (r: Option<NodeId>)
    requires
        i < nodes.keys().len(),
    ensures
        match missing_parent(nv(*nodes), nodes.keys()[i as int]) {
            Some(p) => r matches Some(x) && x@ == p,
            None => r is None,
        },
{
    proof {
        use_type_invariant(nodes);
        nodes.lemma_view_at(i as int);
    }
    match &nodes.value_at(i).meta.place.parent {
        ParentRef::Root => None,
        ParentRef::Node(p) => {
            if nodes.contains(p) {
                None
            } else {
                Some(p.dup())
            }
        },
    }
}

pub open spec fn ids(v: Seq<NodeId>) -> Seq<Seq<char>> {
    v.map_values(|x: NodeId| x@)
}

fn contains_id(v: &Vec<NodeId>, id: &NodeId) -> (r: bool)
    ensures
        r == ids(v@).contains(id@),
{
    let n = v.len();
    let mut i: usize = 0;
    while i < n
        invariant
            n == v@.len(),
            i <= n,
            forall|j: int| 0 <= j < i ==> v@[j]@ != id@,
        decreases n - i,
    {
        if v[i].same(id) {
            assert(ids(v@)[i as int] == id@);
            return true;
        }
        i = i + 1;
    }
    assert forall|j: int| 0 <= j < ids(v@).len() implies ids(v@)[j] != id@ by {
        assert(ids(v@)[j] == v@[j]@);
    }
    false
}

fn orphans(nodes: &SortedMap<NodeId, NodeEntry>) -> (r: Vec<NodeId>)
    ensures
        ids(r@) == orphan_parents(nv(*nodes), nodes.keys()),
{
    let ghost keys = nodes.keys();
    let n = nodes.len();
    let mut r: Vec<NodeId> = Vec::new();
    let mut i: usize = 0;
    assert(keys.take(0) =~= Seq::<Seq<char>>::empty());
    assert(ids(r@) =~= Seq::<Seq<char>>::empty());
    while i < n
        invariant
            n == keys.len(),
            keys == nodes.keys(),
            i <= n,
            ids(r@) == orphan_parents(nv(*nodes), keys.take(i as int)),
        decreases n - i,
    {
        proof {
            assert(keys.take(i + 1).drop_last() =~= keys.take(i as int));
            assert(keys.take(i + 1).last() == keys[i as int]);
        }
        match missing_parent_at(nodes, i) {
            Some(p) => {
                if !contains_id(&r, &p) {
                    let ghost before = r@;
                    r.push(p);
                    assert(ids(r@) =~= ids(before).push(p@));
                }
            },
            None => {},
        }
        i = i + 1;
    }
    assert(keys.take(n as int) =~= keys);
    r
}

proof fn lemma_returns_to_step(
    nodes: Map<Seq<char>, EntryV>,
    start: Seq<char>,
    x: Seq<char>,
    fuel: nat,
)
    requires
        fuel > 0,
    ensures
        returns_to(nodes, start, x, fuel) == match up(nodes, x) {
            None => false,
            Some(p) => p == start || returns_to(nodes, start, p, (fuel - 1) as nat),
        },
{
}

/// Whether `start` lies on a cycle of at most `n` nodes.
fn on_cycle_exec(nodes: &SortedMap<NodeId, NodeEntry>, start: &NodeId, n: usize) -> (r: bool)
    ensures
        r == on_cycle(nv(*nodes), start@, n as nat),
{
    let mut cur = start.dup();
    let mut fuel: usize = n;
    while fuel > 0
        invariant
            fuel <= n,
            on_cycle(nv(*nodes), start@, n as nat) == returns_to(nv(*nodes), start@, cur@, fuel as nat),
        decreases fuel,
    {
        proof {
            lemma_returns_to_step(nv(*nodes), start@, cur@, fuel as nat);
        }
        let next = match nodes.get(&cur) {
            None => {
                return false;
            },
            Some(e) => match &e.meta.place.parent {
                ParentRef::Root => {
                    return false;
                },
                ParentRef::Node(p) => p.dup(),
            },
        };
        if next.same(start) {
            return true;
        }
        cur = next;
        fuel = fuel - 1;
    }
    false
}

pub open spec fn places(v: Seq<Place>) -> Seq<PlaceV> {
    v.map_values(|p: Place| p@)
}

/// Whether some place of `taken` is `parent`/`name`.
pub(crate) fn is_taken(taken: &Vec<Place>, parent: &ParentRef, name: &NodeName) -> (r: bool)
    ensures
        r == places(taken@).contains(PlaceV { parent: parent@, name: name@ }),
{
    let ghost target = PlaceV { parent: parent@, name: name@ };
    let n = taken.len();
    let mut i: usize = 0;
    while i < n
        invariant
            n == taken@.len(),
            i <= n,
            target == (PlaceV { parent: parent@, name: name@ }),
            forall|j: int| 0 <= j < i ==> taken@[j]@ != target,
        decreases n - i,
    {
        if taken[i].parent.same(parent) && taken[i].name.same(name) {
            assert(places(taken@)[i as int] == target);
            return true;
        }
        i = i + 1;
    }
    assert forall|j: int| 0 <= j < places(taken@).len() implies places(taken@)[j] != target by {
        assert(places(taken@)[j] == taken@[j]@);
    }
    false
}

/// A taken place's name is no longer than the longest taken name.
pub proof fn lemma_max_name_len(taken: Seq<PlaceV>, p: PlaceV)
    requires
        taken.contains(p),
    ensures
        p.name.len() <= max_name_len(taken),
    decreases taken.len(),
{
    if taken.last() != p {
        let j = taken.index_of(p);
        assert(taken.drop_last()[j] == p);
        lemma_max_name_len(taken.drop_last(), p);
    }
}

/// Whether some node has `p` for parent.
fn has_child(nodes: &SortedMap<NodeId, NodeEntry>, p: &NodeId) -> (r: bool)
    ensures
        r == exists|x: Seq<char>| #[trigger] nv(*nodes).contains_key(x) && nv(*nodes)[x].meta.place.parent == Some(p@),
{
    let n = nodes.len();
    proof {
        use_type_invariant(nodes);
        nodes.lemma_view_dom();
    }
    let ghost m = nv(*nodes);
    let mut i: usize = 0;
    while i < n
        invariant
            n == nodes.keys().len(),
            nodes.is_sorted(),
            m == nv(*nodes),
            forall|k: Seq<char>| nodes@.contains_key(k) <==> nodes.keys().contains(k),
            i <= n,
            forall|j: int| 0 <= j < i ==> m[nodes.keys()[j]].meta.place.parent != Some(p@),
        decreases n - i,
    {
        proof {
            nodes.lemma_view_at(i as int);
        }
        let hit = match &nodes.value_at(i).meta.place.parent {
            ParentRef::Node(q) => q.same(p),
            ParentRef::Root => false,
        };
        if hit {
            assert(m.contains_key(nodes.keys()[i as int]));
            return true;
        }
        i = i + 1;
    }
    assert forall|x: Seq<char>| #[trigger] m.contains_key(x) implies m[x].meta.place.parent != Some(p@) by {
        let j = nodes.keys().index_of(x);
    }
    false
}

proof fn lemma_bring_back_stops(
    sorts: Map<Seq<char>, SortV>,
    nodes: Map<Seq<char>, EntryV>,
    from: Seq<char>,
    metas: Seq<OpenedMetaV>,
    i: int,
)
    requires
        0 <= i <= metas.len(),
        bring_back(sorts, nodes, from, metas.take(i)) is Err,
    ensures
        bring_back(sorts, nodes, from, metas) == bring_back(sorts, nodes, from, metas.take(i)),
    decreases metas.len() - i,
{
    if i < metas.len() {
        assert(metas.take(i + 1).drop_last() =~= metas.take(i));
        lemma_bring_back_stops(sorts, nodes, from, metas, i + 1);
    } else {
        assert(metas.take(i) =~= metas);
    }
}

/// Whether one of the first `i` places of `origin` is `place`.
fn held_before(origin: &Vec<Place>, i: usize, place: &Place) -> (r: bool)
    requires
        i <= origin@.len(),
    ensures
        r == places(origin@).take(i as int).contains(place@),
{
    let ghost target = place@;
    let mut j: usize = 0;
    while j < i
        invariant
            i <= origin@.len(),
            j <= i,
            target == place@,
            forall|t: int| 0 <= t < j ==> origin@[t]@ != target,
        decreases i - j,
    {
        if origin[j].parent.same(&place.parent) && origin[j].name.same(&place.name) {
            assert(places(origin@).take(i as int)[j as int] == target);
            return true;
        }
        j = j + 1;
    }
    assert forall|t: int| 0 <= t < i implies places(origin@).take(i as int)[t] != target by {
        assert(places(origin@).take(i as int)[t] == origin@[t]@);
    }
    false
}

/// The metas `resurrected`, read from history at the mark `mark`, brought back into the
/// graph of `sorts` and `nodes` (see `bring_back`).
fn bring_back_exec(
    sorts0: SortedMap<ObjectName, Sort>,
    nodes0: SortedMap<NodeId, NodeEntry>,
    mark: &SyncMark,
    resurrected: &Vec<OpenedMeta>,
) -> (r: Result<(SortedMap<ObjectName, Sort>, SortedMap<NodeId, NodeEntry>, Vec<Resolution>), DataError>)
    ensures
        match bring_back(crate::delta::sorts_view(sorts0@), nv(nodes0), mark@, opened_view(resurrected@)) {
            Ok(b) => r matches Ok(x) && {
                &&& crate::delta::sorts_view(x.0@) == b.sorts
                &&& nv(x.1) == b.nodes
                &&& resolutions_view(x.2@) == b.resolutions
            },
            Err(e) => r matches Err(x) && x@ == e,
        },
{
    let ghost s0 = crate::delta::sorts_view(sorts0@);
    let ghost n0 = nv(nodes0);
    let ghost mv = opened_view(resurrected@);
    let mut sorts = sorts0;
    let mut nodes = nodes0;
    let mut resolutions: Vec<Resolution> = Vec::new();
    let k = resurrected.len();
    let mut j: usize = 0;
    assert(mv.take(0) =~= Seq::<OpenedMetaV>::empty());
    assert(resolutions_view(resolutions@) =~= Seq::<ResolutionV>::empty());
    while j < k
        invariant
            k == resurrected@.len(),
            j <= k,
            mv == opened_view(resurrected@),
            s0 == crate::delta::sorts_view(sorts0@),
            n0 == nv(nodes0),
            bring_back(s0, n0, mark@, mv.take(j as int)) == Ok::<Brought, ErrV>(
                Brought {
                    sorts: crate::delta::sorts_view(sorts@),
                    nodes: nv(nodes),
                    resolutions: resolutions_view(resolutions@),
                },
            ),
        decreases k - j,
    {
        proof {
            assert(mv.take(j + 1).drop_last() =~= mv.take(j as int));
            assert(mv.take(j + 1).last() == mv[j as int]);
            assert(mv[j as int] == resurrected@[j as int]@);
        }
        let om = &resurrected[j];
        let p = NodeId::born(om.object.dup());
        if !nodes.contains(&p) && has_child(&nodes, &p) {
            match check_opened(&p, om) {
                Err(e) => {
                    proof {
                        assert(is_missing(nv(nodes), p@));
                        assert(mv.take(j + 1).last().object == p@);
                        assert(check_meta(p@, mv.take(j + 1).last()) == Err::<MetaV, ErrV>(e@));
                        assert(bring_back(s0, n0, mark@, mv.take(j + 1)) == Err::<Brought, ErrV>(e@));
                        lemma_bring_back_stops(s0, n0, mark@, mv, j + 1);
                    }
                    return Err(e);
                },
                Ok(meta) => {
                    let ghost old_nodes = nodes@;
                    let ghost old_sorts = sorts@;
                    let ghost before = resolutions@;
                    let entry = NodeEntry { meta, plain_hash: None };
                    nodes.insert(p.dup(), entry);
                    let sp = Sort::Meta(p.dup());
                    let ghost sg = sp;
                    sorts.insert(om.object.dup(), sp);
                    let x = Resolution::ResurrectParent { parent: p, from: mark.revision() };
                    resolutions.push(x);
                    proof {
                        lemma_map_values_insert(old_nodes, om.object@, entry, |y: NodeEntry| y@);
                        lemma_map_values_insert(old_sorts, om.object@, sg, |y: Sort| y@);
                    }
                    assert(nv(nodes) =~= nv_of(old_nodes).insert(om.object@, entry@));
                    assert(resolutions_view(resolutions@) =~= resolutions_view(before).push(x@));
                },
            }
        }
        j = j + 1;
    }
    assert(mv.take(k as int) =~= mv);
    Ok((sorts, nodes, resolutions))
}

/// A copy of the nodes `m`.
fn copy_nodes(m: &SortedMap<NodeId, NodeEntry>) -> (r: SortedMap<NodeId, NodeEntry>)
    ensures
        nv(r) == nv(*m),
{
    let n = m.len();
    proof {
        use_type_invariant(m);
        m.lemma_view_dom();
    }
    let ghost keys = m.keys();
    let mut r: SortedMap<NodeId, NodeEntry> = SortedMap::new();
    let mut i: usize = 0;
    assert(keys.take(0) =~= Seq::<Seq<char>>::empty());
    while i < n
        invariant
            n == keys.len(),
            keys == m.keys(),
            m.is_sorted(),
            i <= n,
            forall|k: Seq<char>| m@.contains_key(k) <==> keys.contains(k),
            forall|k: Seq<char>| #[trigger] r@.contains_key(k) <==> keys.take(i as int).contains(k),
            forall|k: Seq<char>| #[trigger] r@.contains_key(k) ==> r@[k]@ == m@[k]@,
        decreases n - i,
    {
        proof {
            m.lemma_view_at(i as int);
        }
        let k = m.key_at(i).dup();
        let v = m.value_at(i).dup();
        r.insert(k, v);
        assert forall|kk: Seq<char>| #[trigger] r@.contains_key(kk) <==> keys.take(i + 1).contains(kk) by {
            if keys.take(i as int).contains(kk) {
                let q = keys.take(i as int).index_of(kk);
                assert(keys.take(i + 1)[q] == kk);
            }
            if kk == keys[i as int] {
                assert(keys.take(i + 1)[i as int] == kk);
            }
            if keys.take(i + 1).contains(kk) {
                let q = keys.take(i + 1).index_of(kk);
                if q < i {
                    assert(keys.take(i as int)[q] == kk);
                }
            }
        }
        i = i + 1;
    }
    assert(keys.take(n as int) =~= keys);
    assert(nv(r) =~= nv(*m));
    r
}

/// A copy of the sorts `m`.
fn copy_sorts(m: &SortedMap<ObjectName, Sort>) -> (r: SortedMap<ObjectName, Sort>)
    ensures
        crate::delta::sorts_view(r@) == crate::delta::sorts_view(m@),
{
    let n = m.len();
    proof {
        use_type_invariant(m);
        m.lemma_view_dom();
    }
    let ghost keys = m.keys();
    let mut r: SortedMap<ObjectName, Sort> = SortedMap::new();
    let mut i: usize = 0;
    assert(keys.take(0) =~= Seq::<Seq<char>>::empty());
    while i < n
        invariant
            n == keys.len(),
            keys == m.keys(),
            m.is_sorted(),
            i <= n,
            forall|k: Seq<char>| m@.contains_key(k) <==> keys.contains(k),
            forall|k: Seq<char>| #[trigger] r@.contains_key(k) <==> keys.take(i as int).contains(k),
            forall|k: Seq<char>| #[trigger] r@.contains_key(k) ==> r@[k]@ == m@[k]@,
        decreases n - i,
    {
        proof {
            m.lemma_view_at(i as int);
        }
        let k = m.key_at(i).dup();
        let v = m.value_at(i).dup();
        r.insert(k, v);
        assert forall|kk: Seq<char>| #[trigger] r@.contains_key(kk) <==> keys.take(i + 1).contains(kk) by {
            if keys.take(i as int).contains(kk) {
                let q = keys.take(i as int).index_of(kk);
                assert(keys.take(i + 1)[q] == kk);
            }
            if kk == keys[i as int] {
                assert(keys.take(i + 1)[i as int] == kk);
            }
            if keys.take(i + 1).contains(kk) {
                let q = keys.take(i + 1).index_of(kk);
                if q < i {
                    assert(keys.take(i as int)[q] == kk);
                }
            }
        }
        i = i + 1;
    }
    assert(keys.take(n as int) =~= keys);
    assert(crate::delta::sorts_view(r@) =~= crate::delta::sorts_view(m@));
    r
}

/// The parents still to read from history before `validate`: those that the nodes of
/// `graph` refer to and that are neither in it nor brought back by the metas `read` so far
/// (read at the sync mark and opened), each once, in the order of their first child, the
/// graph's nodes and the parents brought back taken in increasing order of identity. A
/// meta read that way may refer to a parent missing too, which the next call names. When
/// none is left, `validate` with the metas read brings every parent back. A meta read
/// that does not check is the error `validate` would give.
pub fn missing_parents(graph: &AppliedGraph, read: &Vec<OpenedMeta>) -> (r: Result<Vec<NodeId>, DataError>)
    ensures
        match brought(graph.table@, opened_view(read@)) {
            Ok(b) => r matches Ok(v) && ids(v@) == orphan_parents(b.nodes, key_order(b.nodes)),
            Err(e) => r matches Err(x) && x@ == e,
        },
{
    let ghost gv = graph.table@;
    let sorts = copy_sorts(&graph.table.sorts);
    let nodes = copy_nodes(&graph.table.nodes);
    let nodes = match &graph.table.mark {
        None => nodes,
        Some(m) => match bring_back_exec(sorts, nodes, m, read) {
            Err(e) => {
                return Err(e);
            },
            Ok(x) => x.1,
        },
    };
    let ghost bn = nv(nodes);
    assert(bn == brought(gv, opened_view(read@))->Ok_0.nodes);
    proof {
        use_type_invariant(&nodes);
        nodes.lemma_view_dom();
        let kk = key_order(bn);
        assert(ordered_nodes(bn, nodes.keys()));
        assert(ordered_nodes(bn, kk));
        law_key_order_is_canonical(kk, nodes.keys());
    }
    Ok(orphans(&nodes))
}

/// Phase two of unfolding: checks the invariants of the graph after the delta and
/// resolves what a merge violated, deterministically. `resurrected` holds the metas of
/// the missing parents (see `missing_parents`) as the history held them at the sync mark,
/// opened by the packer; those that are still missing when their turn comes enter the
/// graph. See `validate_spec`: the result depends on the graph, the events and those
/// metas alone, so every device that validates the same input gets the same state and the
/// same resolutions. Parallel edits of one object are presented by the transport, not by
/// the graph, and are resolved by whoever holds that report.
pub fn validate(graph: AppliedGraph, resurrected: &Vec<OpenedMeta>) -> (r: Result<ValidatedState, DataError>)
    ensures
        match validate_spec(graph.table@, events_view(graph.events@), opened_view(resurrected@)) {
            Ok(res) => r matches Ok(v) && {
                &&& v.table@.nodes == res.nodes
                &&& v.table@.sorts == res.sorts
                &&& ordered_nodes(res.nodes, v.table.nodes.keys())
                &&& v.table@.mark == graph.table@.mark
                &&& v.table@.children == index_children(v.table.nodes.keys(), res.nodes)
                &&& resolutions_view(v.resolutions@) == res.resolutions
            },
            Err(e) => r matches Err(x) && x@ == e,
        },
{
    let ghost gv = graph.table@;
    let ghost ev = events_view(graph.events@);
    let ghost mv = opened_view(resurrected@);
    match first_broken(&graph.table.nodes, &graph.events) {
        Some(id) => {
            return Err(DataError::MalformedMeta(id));
        },
        None => {},
    }
    assert(first_broken_link(gv.nodes, ev) is None);
    let AppliedGraph { table, events: _ } = graph;
    let Table { sorts, nodes, children: _, mark } = table;
    let mut sorts = sorts;
    let mut nodes = nodes;
    let mut resolutions: Vec<Resolution> = Vec::new();
    assert(nv(nodes) == gv.nodes);
    assert(crate::delta::sorts_view(sorts@) == gv.sorts);
    assert(resolutions_view(resolutions@) =~= Seq::<ResolutionV>::empty());
    // Parents brought back.
    let (sorts, nodes, resolutions) = match &mark {
        None => (sorts, nodes, resolutions),
        Some(m) => match bring_back_exec(sorts, nodes, m, resurrected) {
            Err(e) => {
                assert(brought(gv, mv) == Err::<Brought, ErrV>(e@));
                return Err(e);
            },
            Ok(x) => x,
        },
    };
    let mut sorts = sorts;
    let mut nodes = nodes;
    let mut resolutions = resolutions;
    let ghost b = Brought {
        sorts: crate::delta::sorts_view(sorts@),
        nodes: nv(nodes),
        resolutions: resolutions_view(resolutions@),
    };
    assert(brought(gv, mv) == Ok::<Brought, ErrV>(b));
    proof {
        use_type_invariant(&nodes);
        nodes.lemma_view_dom();
    }
    let ghost keys = nodes.keys();
    assert(ordered_nodes(b.nodes, keys));
    proof {
        let kk = key_order(b.nodes);
        assert(ordered_nodes(b.nodes, kk));
        law_key_order_is_canonical(kk, keys);
    }
    assert(key_order(b.nodes) == keys);
    let orph = orphans(&nodes);
    if orph.len() > 0 {
        assert(ids(orph@)[0] == orph@[0]@);
        return Err(DataError::UnknownObject(orph[0].object()));
    }
    assert(orphan_parents(b.nodes, keys) =~= Seq::<Seq<char>>::empty());
    let ghost n0 = nv(nodes);
    let ghost pre = resolutions_view(resolutions@);
    let n = nodes.len();
    let ghost nn = n as nat;
    let mut i: usize = 0;
    // The places taken before cycles are broken.
    let mut taken: Vec<Place> = Vec::new();
    assert(keys.take(0) =~= Seq::<Seq<char>>::empty());
    assert(places(taken@) =~= key_places(n0, keys.take(0)));
    while i < n
        invariant
            n == keys.len(),
            nodes.keys() == keys,
            nodes.is_sorted(),
            n0 == nv(nodes),
            i <= n,
            places(taken@) == key_places(n0, keys.take(i as int)),
            forall|k: Seq<char>| nodes@.contains_key(k) <==> keys.contains(k),
        decreases n - i,
    {
        proof {
            nodes.lemma_view_at(i as int);
        }
        let ghost t0 = taken@;
        taken.push(nodes.value_at(i).meta.place.dup());
        assert(places(taken@) =~= places(t0).push(n0[keys[i as int]].meta.place));
        assert(key_places(n0, keys.take(i + 1)) =~= key_places(n0, keys.take(i as int)).push(
            n0[keys[i as int]].meta.place,
        ));
        i = i + 1;
    }
    assert(keys.take(n as int) =~= keys);
    let ghost o0 = places(taken@);
    assert(o0 == key_places(n0, keys));
    // Cycles.
    i = 0;
    assert(keys.take(0) =~= Seq::<Seq<char>>::empty());
    assert(resolutions_view(resolutions@) =~= pre + Seq::<ResolutionV>::empty());
    while i < n
        invariant
            n == keys.len(),
            nn == n as nat,
            nodes.keys() == keys,
            nodes.is_sorted(),
            i <= n,
            nv(nodes) == break_cycles(n0, o0, keys.take(i as int), nn).nodes,
            places(taken@) == break_cycles(n0, o0, keys.take(i as int), nn).taken,
            resolutions_view(resolutions@) == pre + break_cycles(n0, o0, keys.take(i as int), nn).resolutions,
            forall|k: Seq<char>| nodes@.contains_key(k) <==> keys.contains(k),
        decreases n - i,
    {
        let ghost prev = break_cycles(n0, o0, keys.take(i as int), nn);
        proof {
            assert(keys.take(i + 1).drop_last() =~= keys.take(i as int));
            assert(keys.take(i + 1).last() == keys[i as int]);
            nodes.lemma_view_at(i as int);
        }
        let k = nodes.key_at(i).dup();
        if on_cycle_exec(&nodes, &k, n) {
            let e = nodes.value_at(i);
            let tag = "~cycle";
            let tilde = "~";
            proof {
                reveal_strlit("~cycle");
                reveal_strlit("~");
                assert(tag@ =~= cycle_tag());
            }
            let start = e.meta.place.name.tagged(tag);
            let mut name = start.dup();
            let ghost tv = places(taken@);
            let ghost bound = (max_name_len(tv) + 1) as int;
            let root = ParentRef::Root;
            while is_taken(&taken, &root, &name)
                invariant
                    tv == places(taken@),
                    bound == (max_name_len(tv) + 1) as int,
                    tilde@ == seq!['~'],
                    root@ == None::<Seq<char>>,
                    free_name(tv, None, name@, bound) == free_name(tv, None, start@, bound),
                decreases bound - name@.len(),
            {
                proof {
                    lemma_max_name_len(tv, PlaceV { parent: None, name: name@ });
                }
                assert(name@.push('~') =~= name@ + tilde@);
                name = name.tagged(tilde);
            }
            let new_place = Place { parent: ParentRef::Root, name };
            assert(new_place@ == relocation(tv, prev.nodes[k@]));
            let entry = NodeEntry {
                meta: Meta { schema: e.meta.schema, place: new_place.dup(), body: e.meta.body.dup() },
                plain_hash: match &e.plain_hash {
                    Some(h) => Some(h.dup()),
                    None => None,
                },
            };
            assert(entry@ == relocated(prev.nodes[k@], new_place@.name));
            let ghost before = resolutions@;
            let ghost old_map = nodes@;
            nodes.set_value_at(i, entry);
            proof {
                lemma_map_values_insert(old_map, k@, entry, |x: NodeEntry| x@);
            }
            let ghost tb = taken@;
            taken.push(new_place.dup());
            assert(places(taken@) =~= places(tb).push(new_place@));
            resolutions.push(Resolution::BreakCycle { loser: k, relocated_to: new_place });
            assert(resolutions_view(resolutions@) =~= resolutions_view(before).push(
                ResolutionV::BreakCycle { loser: keys[i as int], relocated_to: entry@.meta.place },
            ));
        }
        proof {
            nodes.lemma_view_dom();
        }
        i = i + 1;
    }
    assert(keys.take(n as int) =~= keys);
    let ghost c = break_cycles(n0, o0, keys, nn);
    let ghost n1 = nv(nodes);
    // The original places, which every node holds now.
    let mut origin: Vec<Place> = Vec::new();
    taken = Vec::new();
    i = 0;
    while i < n
        invariant
            n == keys.len(),
            nodes.keys() == keys,
            nodes.is_sorted(),
            n1 == nv(nodes),
            i <= n,
            places(origin@) == key_places(n1, keys.take(i as int)),
            places(taken@) == places(origin@),
            forall|k: Seq<char>| nodes@.contains_key(k) <==> keys.contains(k),
        decreases n - i,
    {
        proof {
            nodes.lemma_view_at(i as int);
        }
        let place = nodes.value_at(i).meta.place.dup();
        let ghost o0 = origin@;
        let ghost t0 = taken@;
        taken.push(place.dup());
        origin.push(place);
        assert(places(origin@) =~= places(o0).push(n1[keys[i as int]].meta.place));
        assert(key_places(n1, keys.take(i + 1)) =~= key_places(n1, keys.take(i as int)).push(
            n1[keys[i as int]].meta.place,
        ));
        assert(places(taken@) =~= places(t0).push(n1[keys[i as int]].meta.place));
        i = i + 1;
    }
    assert(keys.take(n as int) =~= keys);
    let ghost ov = places(origin@);
    assert(ov == key_places(n1, keys));
    // Duplicate places.
    i = 0;
    assert(resolutions_view(resolutions@) =~= pre + c.resolutions + Seq::<ResolutionV>::empty());
    assert(keys.take(0) =~= Seq::<Seq<char>>::empty());
    while i < n
        invariant
            n == keys.len(),
            nodes.keys() == keys,
            nodes.is_sorted(),
            i <= n,
            n1 == c.nodes,
            ov == places(origin@),
            ov.len() == n,
            nv(nodes) == settle_places(n1, ov, keys.take(i as int)).nodes,
            places(taken@) == settle_places(n1, ov, keys.take(i as int)).taken,
            resolutions_view(resolutions@) == pre + c.resolutions + settle_places(
                n1,
                ov,
                keys.take(i as int),
            ).resolutions,
            forall|k: Seq<char>| nodes@.contains_key(k) <==> keys.contains(k),
        decreases n - i,
    {
        let ghost prev = settle_places(n1, ov, keys.take(i as int));
        proof {
            assert(keys.take(i + 1).drop_last() =~= keys.take(i as int));
            assert(keys.take(i + 1).last() == keys[i as int]);
            assert(keys.take(i + 1).len() - 1 == i);
            nodes.lemma_view_at(i as int);
        }
        if held_before(&origin, i, &origin[i]) {
            let k = nodes.key_at(i).dup();
            let e = nodes.value_at(i);
            let parent = e.meta.place.parent.dup();
            let orig = e.meta.place.name.dup();
            let mut name = orig.dup();
            let ghost tv = places(taken@);
            let ghost bound = (max_name_len(tv) + 1) as int;
            let tilde = "~";
            proof {
                reveal_strlit("~");
            }
            while is_taken(&taken, &parent, &name)
                invariant
                    tv == places(taken@),
                    bound == (max_name_len(tv) + 1) as int,
                    tilde@ == seq!['~'],
                    free_name(tv, parent@, name@, bound) == free_name(tv, parent@, orig@, bound),
                decreases bound - name@.len(),
            {
                proof {
                    lemma_max_name_len(tv, PlaceV { parent: parent@, name: name@ });
                }
                assert(name@.push('~') =~= name@ + tilde@);
                name = name.tagged(tilde);
            }
            assert(name@ == settled_name(tv, e@.meta.place));
            let ghost before = resolutions@;
            let entry = NodeEntry {
                meta: Meta {
                    schema: e.meta.schema,
                    place: Place { parent: parent.dup(), name: name.dup() },
                    body: e.meta.body.dup(),
                },
                plain_hash: match &e.plain_hash {
                    Some(h) => Some(h.dup()),
                    None => None,
                },
            };
            assert(entry@ == renamed(prev.nodes[k@], name@));
            let ghost old_map = nodes@;
            nodes.set_value_at(i, entry);
            proof {
                lemma_map_values_insert(old_map, k@, entry, |x: NodeEntry| x@);
            }
            resolutions.push(Resolution::RenameLoser { loser: k, new_name: name.dup() });
            assert(resolutions_view(resolutions@) =~= resolutions_view(before).push(
                ResolutionV::RenameLoser { loser: keys[i as int], new_name: name@ },
            ));
            let ghost tb = taken@;
            taken.push(Place { parent, name });
            assert(places(taken@) =~= places(tb).push(PlaceV { parent: parent@, name: name@ }));
        }
        proof {
            nodes.lemma_view_dom();
        }
        i = i + 1;
    }
    assert(keys.take(n as int) =~= keys);
    let children = reindex(&nodes);
    Ok(ValidatedState { table: Table { sorts, nodes, children, mark }, resolutions })
}

// ---------------------------------------------------------------------------------
// Paths.

/// The names met walking up from `x` for at most `fuel` nodes, the name of `x` first. The
/// walk stops at the root and at a parent that is not in the graph.
pub open spec fn chain(nodes: Map<Seq<char>, EntryV>, x: Seq<char>, fuel: nat) -> Seq<Seq<char>>
    decreases fuel,
{
    if fuel == 0 || !nodes.contains_key(x) {
        Seq::empty()
    } else {
        seq![nodes[x].meta.place.name] + match nodes[x].meta.place.parent {
            None => Seq::empty(),
            Some(p) => chain(nodes, p, (fuel - 1) as nat),
        }
    }
}

/// The path of `x`: the names from the outermost ancestor down to `x` itself.
pub open spec fn path_of(nodes: Map<Seq<char>, EntryV>, x: Seq<char>, n: nat) -> Seq<Seq<char>> {
    chain(nodes, x, n).reverse()
}

pub open spec fn names(v: Seq<NodeName>) -> Seq<Seq<char>> {
    v.map_values(|n: NodeName| n@)
}

impl ValidatedState {
    /// The only source of derived paths: the names from the outermost ancestor of `id`
    /// down to `id` itself (empty when `id` is no node of the table).
    pub fn derive_path(&self, id: &NodeId) -> (r: DerivedPath)
        ensures
            r@ == path_of(self.table@.nodes, id@, self.table.nodes.keys().len()),
            forall|i: int| 0 <= i < r@.len() ==> is_legal_name(#[trigger] r@[i]),
    {
        let nodes = &self.table.nodes;
        let ghost nvw = self.table@.nodes;
        let n = nodes.len();
        let ghost full = chain(nvw, id@, n as nat);
        let mut up_names: Vec<NodeName> = Vec::new();
        let mut cur = id.dup();
        let mut fuel: usize = n;
        assert(names(up_names@) + chain(nvw, cur@, fuel as nat) =~= full);
        while fuel > 0
            invariant
                nvw == nv(*nodes),
                fuel <= n,
                names(up_names@) + chain(nvw, cur@, fuel as nat) == full,
                forall|i: int| 0 <= i < up_names@.len() ==> is_legal_name(#[trigger] up_names@[i]@),
            decreases fuel,
        {
            let ghost before = up_names@;
            match nodes.get(&cur) {
                None => {
                    assert(chain(nvw, cur@, fuel as nat) =~= Seq::<Seq<char>>::empty());
                    fuel = 0;
                },
                Some(e) => {
                    let name = e.meta.place.name.dup();
                    proof {
                        use_type_invariant(&name);
                    }
                    up_names.push(name);
                    assert(names(up_names@) =~= names(before).push(e@.meta.place.name));
                    match &e.meta.place.parent {
                        ParentRef::Root => {
                            assert(chain(nvw, cur@, fuel as nat) =~= seq![e@.meta.place.name]);
                            fuel = 0;
                        },
                        ParentRef::Node(p) => {
                            let next = p.dup();
                            assert(chain(nvw, cur@, fuel as nat) =~= seq![e@.meta.place.name] + chain(
                                nvw,
                                next@,
                                (fuel - 1) as nat,
                            ));
                            cur = next;
                            fuel = fuel - 1;
                        },
                    }
                },
            }
        }
        assert(names(up_names@) =~= full);
        let mut out: Vec<NodeName> = Vec::new();
        let k = up_names.len();
        let mut j: usize = k;
        assert(names(out@) =~= full.reverse().take(0));
        while j > 0
            invariant
                k == up_names@.len(),
                j <= k,
                names(up_names@) == full,
                names(out@) == full.reverse().take((k - j) as int),
                forall|i: int| 0 <= i < up_names@.len() ==> is_legal_name(#[trigger] up_names@[i]@),
                forall|i: int| 0 <= i < out@.len() ==> is_legal_name(#[trigger] out@[i]@),
            decreases j,
        {
            j = j - 1;
            let ghost before = out@;
            let x = up_names[j].dup();
            assert(names(up_names@)[j as int] == up_names@[j as int]@);
            assert(x@ == full[j as int]);
            assert(full.reverse()[(k - 1 - j) as int] == full[j as int]);
            assert(names(before).len() == before.len());
            out.push(x);
            assert(out@ == before.push(x));
            assert(names(out@) =~= names(before).push(x@));
            assert(full.reverse().take((k - j) as int) =~= full.reverse().take((k - j - 1) as int).push(
                full.reverse()[(k - 1 - j) as int],
            ));
        }
        assert(full.reverse().take(k as int) =~= full.reverse());
        let r = DerivedPath::from_names(out);
        assert forall|i: int| 0 <= i < r@.len() implies is_legal_name(#[trigger] r@[i]) by {
            assert(r@[i] == out@[i]@);
        }
        r
    }
}

} // verus!
