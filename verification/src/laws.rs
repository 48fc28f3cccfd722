//! Properties of the library as a whole: what validation guarantees of the graph it
//! returns, and how the phases of unfolding relate.
use vstd::prelude::*;

use crate::meta::PlaceV;
use crate::sorted_map::{increasing, law_key_order_is_canonical};
use crate::text::{lemma_seq_lt_asymmetric, lemma_seq_lt_irreflexive, seq_lt};
use crate::delta::{
    apply_spec, body_pass, body_step, is_meta_entry, lemma_no_repeat_distinct, meta_pass, meta_step,
    sort_of, ApplyState, EventV, OpenedMetaV, RawStatus,
};
use crate::table::{index_children, parent_key, EntryV, SortV, TableV};
use crate::validate::{
    bring_back, break_cycles, breaks_body_link, brought, chain, contested, first_broken_link,
    free_name, is_missing, key_order, key_places, lemma_max_name_len, max_name_len,
    missing_parent, on_cycle, ordered_nodes, orphan_parents, path_of, relocated, relocation, resolve,
    returns_to, settle_places, settled_name, up, validate_spec, Brought, Outcome, ResolutionV,
};
use crate::delta::check_meta;

verus! {

/// The parents of `a` and `b` agree on every node, and the nodes are the same.
pub open spec fn same_parents(a: Map<Seq<char>, EntryV>, b: Map<Seq<char>, EntryV>) -> bool {
    &&& forall|k: Seq<char>| a.contains_key(k) <==> b.contains_key(k)
    &&& forall|k: Seq<char>| #[trigger] a.contains_key(k) ==> a[k].meta.place.parent
        == b[k].meta.place.parent
}

proof fn lemma_same_parents_walk(
    a: Map<Seq<char>, EntryV>,
    b: Map<Seq<char>, EntryV>,
    start: Seq<char>,
    x: Seq<char>,
    fuel: nat,
)
    requires
        same_parents(a, b),
    ensures
        returns_to(a, start, x, fuel) == returns_to(b, start, x, fuel),
    decreases fuel,
{
    if fuel > 0 {
        assert(up(a, x) == up(b, x));
        match up(a, x) {
            Some(p) => lemma_same_parents_walk(a, b, start, p, (fuel - 1) as nat),
            None => {},
        }
    }
}

/// Moving a node to the root creates no walk back to a start that did not exist before.
proof fn lemma_root_move_walk(
    m: Map<Seq<char>, EntryV>,
    k: Seq<char>,
    e: EntryV,
    start: Seq<char>,
    x: Seq<char>,
    fuel: nat,
)
    requires
        e.meta.place.parent is None,
        returns_to(m.insert(k, e), start, x, fuel),
    ensures
        returns_to(m, start, x, fuel),
    decreases fuel,
{
    let m2 = m.insert(k, e);
    if x != k {
        assert(up(m2, x) == up(m, x));
        match up(m, x) {
            Some(p) => {
                if p != start {
                    lemma_root_move_walk(m, k, e, start, p, (fuel - 1) as nat);
                }
            },
            None => {},
        }
    }
}

/// What cycle breaking keeps, after the first `keys.take(i)` were handled.
proof fn lemma_break_cycles(
    nodes: Map<Seq<char>, EntryV>,
    origin: Seq<PlaceV>,
    keys: Seq<Seq<char>>,
    n: nat,
)
    ensures
        forall|k: Seq<char>| #[trigger] break_cycles(nodes, origin, keys, n).nodes.contains_key(k)
            <==> nodes.contains_key(k),
        forall|j: int|
            0 <= j < keys.len() && nodes.contains_key(keys[j]) ==> !on_cycle(
                break_cycles(nodes, origin, keys, n).nodes,
                #[trigger] keys[j],
                n,
            ),
    decreases keys.len(),
{
    if keys.len() > 0 {
        let prev = break_cycles(nodes, origin, keys.drop_last(), n);
        lemma_break_cycles(nodes, origin, keys.drop_last(), n);
        let k = keys.last();
        let cur = break_cycles(nodes, origin, keys, n);
        if prev.nodes.contains_key(k) && on_cycle(prev.nodes, k, n) {
            let e = relocated(prev.nodes[k], relocation(prev.taken, prev.nodes[k]).name);
            assert(cur.nodes == prev.nodes.insert(k, e));
            assert forall|j: int|
                0 <= j < keys.len() && nodes.contains_key(keys[j]) implies !on_cycle(
                cur.nodes,
                #[trigger] keys[j],
                n,
            ) by {
                if keys[j] == k {
                    if n > 0 {
                        assert(up(cur.nodes, k) is None);
                    }
                } else {
                    assert(keys.drop_last()[j] == keys[j]);
                    if on_cycle(cur.nodes, keys[j], n) {
                        lemma_root_move_walk(prev.nodes, k, e, keys[j], keys[j], n);
                    }
                }
            }
        } else {
            assert forall|j: int|
                0 <= j < keys.len() && nodes.contains_key(keys[j]) implies !on_cycle(
                cur.nodes,
                #[trigger] keys[j],
                n,
            ) by {
                if keys[j] != k {
                    assert(keys.drop_last()[j] == keys[j]);
                }
            }
        }
    }
}

/// Settling places changes names only: nodes and parents stay.
proof fn lemma_settle_keeps_parents(nodes: Map<Seq<char>, EntryV>, origin: Seq<PlaceV>, keys: Seq<Seq<char>>)
    ensures
        same_parents(settle_places(nodes, origin, keys).nodes, nodes),
        forall|k: Seq<char>| #[trigger] settle_places(nodes, origin, keys).nodes.contains_key(k) ==> {
            let e = settle_places(nodes, origin, keys).nodes[k];
            &&& e.meta.body == nodes[k].meta.body
            &&& e.meta.schema == nodes[k].meta.schema
            &&& e.hash == nodes[k].hash
        },
    decreases keys.len(),
{
    if keys.len() > 0 {
        lemma_settle_keeps_parents(nodes, origin, keys.drop_last());
    }
}

pub(crate) proof fn lemma_free_name_is_free(
    taken: Seq<PlaceV>,
    parent: Option<Seq<char>>,
    name: Seq<char>,
    bound: int,
)
    requires
        bound > max_name_len(taken),
    ensures
        !taken.contains(PlaceV { parent, name: free_name(taken, parent, name, bound) }),
    decreases bound - name.len(),
{
    if name.len() < bound && taken.contains(PlaceV { parent, name }) {
        lemma_free_name_is_free(taken, parent, name.push('~'), bound);
    } else if taken.contains(PlaceV { parent, name }) {
        lemma_max_name_len(taken, PlaceV { parent, name });
    }
}

/// The `q`-th place of `taken` is held by none before it.
pub open spec fn fresh(taken: Seq<PlaceV>, q: int) -> bool {
    !taken.take(q).contains(taken[q])
}

/// After settling the first keys: the places taken start with the original ones; each
/// settled node holds a place taken that none taken before it holds, at a position of its
/// own (its own index when it keeps its original place); nodes not contested keep their
/// entry, and the nodes not yet settled are untouched.
proof fn lemma_settle(nodes: Map<Seq<char>, EntryV>, origin: Seq<PlaceV>, keys: Seq<Seq<char>>) -> (idx: Seq<int>)
    requires
        keys.no_duplicates(),
        forall|j: int| 0 <= j < keys.len() ==> nodes.contains_key(#[trigger] keys[j]),
        keys.len() <= origin.len(),
        forall|j: int| 0 <= j < keys.len() ==> origin[j] == nodes[#[trigger] keys[j]].meta.place,
    ensures
        ({
            let s = settle_places(nodes, origin, keys);
            &&& s.taken.len() >= origin.len()
            &&& forall|q: int| 0 <= q < origin.len() ==> #[trigger] s.taken[q] == origin[q]
            &&& idx.len() == keys.len()
            &&& forall|j: int| 0 <= j < keys.len() ==> {
                &&& 0 <= #[trigger] idx[j] < s.taken.len()
                &&& fresh(s.taken, idx[j])
                &&& s.nodes[keys[j]].meta.place == s.taken[idx[j]]
                &&& (idx[j] < origin.len() ==> idx[j] == j)
            }
            &&& forall|i: int, j: int| 0 <= i < keys.len() && 0 <= j < keys.len() && i != j ==> #[trigger] idx[i] != #[trigger] idx[j]
            &&& forall|j: int| 0 <= j < keys.len() && !contested(origin, j) ==> s.nodes[#[trigger] keys[j]] == nodes[keys[j]]
            &&& forall|k: Seq<char>| !keys.contains(k) && nodes.contains_key(k) ==> #[trigger] s.nodes[k] == nodes[k]
        }),
    decreases keys.len(),
{
    if keys.len() == 0 {
        Seq::empty()
    } else {
        let d = keys.drop_last();
        let i = keys.len() - 1;
        assert(d.no_duplicates());
        assert forall|j: int| 0 <= j < d.len() implies origin[j] == nodes[#[trigger] d[j]].meta.place by {
            assert(d[j] == keys[j]);
        }
        let idx0 = lemma_settle(nodes, origin, d);
        let prev = settle_places(nodes, origin, d);
        let k = keys.last();
        assert(!d.contains(k));
        assert(prev.nodes.contains_key(k)) by {
            lemma_settle_keeps_parents(nodes, origin, d);
        }
        assert(prev.nodes[k] == nodes[k]);
        let s = settle_places(nodes, origin, keys);
        assert forall|kk: Seq<char>| !keys.contains(kk) && nodes.contains_key(kk) implies prev.nodes[kk]
            == nodes[kk] && kk != k by {
            assert(!d.contains(kk)) by {
                if d.contains(kk) {
                    let j = d.index_of(kk);
                    assert(keys[j] == kk);
                }
            }
            assert(keys[i] == k);
        }
        if contested(origin, i) {
            let e = prev.nodes[k];
            let name = settled_name(prev.taken, e.meta.place);
            let pl = PlaceV { parent: e.meta.place.parent, name };
            lemma_free_name_is_free(prev.taken, e.meta.place.parent, e.meta.place.name, (max_name_len(prev.taken) + 1) as int);
            assert(s.taken == prev.taken.push(pl));
            let idx = idx0.push(prev.taken.len() as int);
            assert(s.taken.take(prev.taken.len() as int) =~= prev.taken);
            assert forall|j: int| 0 <= j < keys.len() implies {
                &&& 0 <= #[trigger] idx[j] < s.taken.len()
                &&& fresh(s.taken, idx[j])
                &&& s.nodes[keys[j]].meta.place == s.taken[idx[j]]
                &&& (idx[j] < origin.len() ==> idx[j] == j)
            } by {
                if j < i {
                    assert(d[j] == keys[j]);
                    assert(keys[j] != k);
                    assert(idx[j] == idx0[j]);
                    assert(s.taken.take(idx[j]) =~= prev.taken.take(idx[j]));
                }
            }
            assert forall|a: int, b: int| 0 <= a < keys.len() && 0 <= b < keys.len() && a != b implies #[trigger] idx[a] != #[trigger] idx[b] by {
                if a < i && b < i {
                    assert(idx[a] == idx0[a] && idx[b] == idx0[b]);
                }
            }
            assert forall|j: int| 0 <= j < keys.len() && !contested(origin, j) implies s.nodes[#[trigger] keys[j]] == nodes[keys[j]] by {
                if j < i {
                    assert(d[j] == keys[j]);
                    assert(keys[j] != k);
                }
            }
            idx
        } else {
            assert(s == prev);
            let idx = idx0.push(i);
            assert(s.taken.take(i) =~= origin.take(i));
            assert forall|j: int| 0 <= j < keys.len() implies {
                &&& 0 <= #[trigger] idx[j] < s.taken.len()
                &&& fresh(s.taken, idx[j])
                &&& s.nodes[keys[j]].meta.place == s.taken[idx[j]]
                &&& (idx[j] < origin.len() ==> idx[j] == j)
            } by {
                if j < i {
                    assert(d[j] == keys[j]);
                    assert(idx[j] == idx0[j]);
                }
            }
            assert forall|a: int, b: int| 0 <= a < keys.len() && 0 <= b < keys.len() && a != b implies #[trigger] idx[a] != #[trigger] idx[b] by {
                if a < i && b < i {
                    assert(idx[a] == idx0[a] && idx[b] == idx0[b]);
                }
            }
            assert forall|j: int| 0 <= j < keys.len() && !contested(origin, j) implies s.nodes[#[trigger] keys[j]] == nodes[keys[j]] by {
                if j < i {
                    assert(d[j] == keys[j]);
                }
            }
            idx
        }
    }
}

proof fn lemma_increasing_no_duplicates(keys: Seq<Seq<char>>)
    requires
        increasing(keys),
    ensures
        keys.no_duplicates(),
{
    assert forall|i: int, j: int| 0 <= i < keys.len() && 0 <= j < keys.len() && i != j implies keys[i]
        != keys[j] by {
        if keys[i] == keys[j] {
            lemma_seq_lt_irreflexive(keys[i]);
        }
    }
}

/// What a resolved graph is made of, with its identities in increasing order `keys`.
proof fn lemma_resolve(b: Brought, keys: Seq<Seq<char>>)
    requires
        resolve(b) is Ok,
        ordered_nodes(resolve(b)->Ok_0.nodes, keys),
    ensures
        ordered_nodes(b.nodes, keys),
        key_order(b.nodes) == keys,
        orphan_parents(b.nodes, keys).len() == 0,
        ({
            let c = break_cycles(b.nodes, key_places(b.nodes, keys), keys, keys.len());
            let s = settle_places(c.nodes, key_places(c.nodes, keys), keys);
            resolve(b)->Ok_0 == Outcome {
                sorts: b.sorts,
                nodes: s.nodes,
                resolutions: b.resolutions + c.resolutions + s.resolutions,
            }
        }),
{
    let kk = key_order(b.nodes);
    let c = break_cycles(b.nodes, key_places(b.nodes, kk), kk, kk.len());
    lemma_break_cycles(b.nodes, key_places(b.nodes, kk), kk, kk.len());
    lemma_settle_keeps_parents(c.nodes, key_places(c.nodes, kk), kk);
    let r = resolve(b)->Ok_0;
    assert(ordered_nodes(b.nodes, keys));
    assert(ordered_nodes(b.nodes, kk));
    law_key_order_is_canonical(kk, keys);
}

/// What a validated graph is made of, with its identities in increasing order `keys`.
proof fn lemma_validated(t: TableV, events: Seq<EventV>, metas: Seq<OpenedMetaV>, keys: Seq<Seq<char>>)
    requires
        validate_spec(t, events, metas) is Ok,
        ordered_nodes(validate_spec(t, events, metas)->Ok_0.nodes, keys),
    ensures
        first_broken_link(t.nodes, events) is None,
        brought(t, metas) is Ok,
        resolve(brought(t, metas)->Ok_0) == validate_spec(t, events, metas),
        ordered_nodes(brought(t, metas)->Ok_0.nodes, keys),
        key_order(brought(t, metas)->Ok_0.nodes) == keys,
        orphan_parents(brought(t, metas)->Ok_0.nodes, keys).len() == 0,
        ({
            let b = brought(t, metas)->Ok_0;
            let c = break_cycles(b.nodes, key_places(b.nodes, keys), keys, keys.len());
            let s = settle_places(c.nodes, key_places(c.nodes, keys), keys);
            validate_spec(t, events, metas)->Ok_0 == Outcome {
                sorts: b.sorts,
                nodes: s.nodes,
                resolutions: b.resolutions + c.resolutions + s.resolutions,
            }
        }),
{
    lemma_resolve(brought(t, metas)->Ok_0, keys);
}

/// A validated graph has no cycle of parents: walking up from any node never comes back
/// to it.
pub proof fn law_validated_graph_is_acyclic(
    t: TableV,
    events: Seq<EventV>,
    metas: Seq<OpenedMetaV>,
    keys: Seq<Seq<char>>,
)
    requires
        validate_spec(t, events, metas) is Ok,
        ordered_nodes(validate_spec(t, events, metas)->Ok_0.nodes, keys),
    ensures
        ({
            let nodes = validate_spec(t, events, metas)->Ok_0.nodes;
            forall|k: Seq<char>| #[trigger] nodes.contains_key(k) ==> !on_cycle(nodes, k, keys.len())
        }),
{
    lemma_validated(t, events, metas, keys);
    let b = brought(t, metas)->Ok_0;
    let n = keys.len();
    let c = break_cycles(b.nodes, key_places(b.nodes, keys), keys, n);
    lemma_break_cycles(b.nodes, key_places(b.nodes, keys), keys, n);
    lemma_settle_keeps_parents(c.nodes, key_places(c.nodes, keys), keys);
    let s = settle_places(c.nodes, key_places(c.nodes, keys), keys);
    assert forall|k: Seq<char>| #[trigger] s.nodes.contains_key(k) implies !on_cycle(s.nodes, k, n) by {
        assert(c.nodes.contains_key(k));
        assert(keys.contains(k));
        let j = keys.index_of(k);
        assert(!on_cycle(c.nodes, keys[j], n));
        lemma_same_parents_walk(s.nodes, c.nodes, k, k, n);
    }
}

/// In a validated graph no two nodes share a place: the same parent and the same name.
pub proof fn law_validated_places_are_unique(
    t: TableV,
    events: Seq<EventV>,
    metas: Seq<OpenedMetaV>,
    keys: Seq<Seq<char>>,
)
    requires
        validate_spec(t, events, metas) is Ok,
        ordered_nodes(validate_spec(t, events, metas)->Ok_0.nodes, keys),
    ensures
        ({
            let nodes = validate_spec(t, events, metas)->Ok_0.nodes;
            forall|a: Seq<char>, b: Seq<char>|
                #[trigger] nodes.contains_key(a) && #[trigger] nodes.contains_key(b) && a != b
                    ==> nodes[a].meta.place != nodes[b].meta.place
        }),
{
    lemma_validated(t, events, metas, keys);
    let bb = brought(t, metas)->Ok_0;
    let n = keys.len();
    let c = break_cycles(bb.nodes, key_places(bb.nodes, keys), keys, n);
    lemma_break_cycles(bb.nodes, key_places(bb.nodes, keys), keys, n);
    lemma_increasing_no_duplicates(keys);
    assert forall|j: int| 0 <= j < keys.len() implies c.nodes.contains_key(#[trigger] keys[j]) by {
        assert(keys.contains(keys[j]));
    }
    let origin = key_places(c.nodes, keys);
    let idx = lemma_settle(c.nodes, origin, keys);
    lemma_settle_keeps_parents(c.nodes, origin, keys);
    let s = settle_places(c.nodes, origin, keys);
    assert forall|a: Seq<char>, b: Seq<char>|
        #[trigger] s.nodes.contains_key(a) && #[trigger] s.nodes.contains_key(b) && a != b implies s.nodes[a].meta.place
        != s.nodes[b].meta.place by {
        assert(keys.contains(a));
        assert(keys.contains(b));
        let i = keys.index_of(a);
        let j = keys.index_of(b);
        assert(idx[i] != idx[j]);
        if idx[i] < idx[j] {
            assert(s.taken.take(idx[j])[idx[i]] == s.taken[idx[i]]);
        } else {
            assert(s.taken.take(idx[i])[idx[j]] == s.taken[idx[j]]);
        }
    }
}

/// Settling keeps the place of every node that no node before it, in increasing order of
/// identity, held: only a node that collided with another is renamed.
pub proof fn law_only_contested_places_change(nodes: Map<Seq<char>, EntryV>, keys: Seq<Seq<char>>, j: int)
    requires
        ordered_nodes(nodes, keys),
        0 <= j < keys.len(),
        !contested(key_places(nodes, keys), j),
    ensures
        settle_places(nodes, key_places(nodes, keys), keys).nodes[keys[j]] == nodes[keys[j]],
{
    lemma_increasing_no_duplicates(keys);
    assert forall|i: int| 0 <= i < keys.len() implies nodes.contains_key(#[trigger] keys[i]) by {
        assert(keys.contains(keys[i]));
    }
    let _ = lemma_settle(nodes, key_places(nodes, keys), keys);
}

/// Walking up from `x` for at most `fuel` nodes, all of them in the graph, ends at the
/// root or at a parent that is not in the graph.
pub open spec fn reaches_top(nodes: Map<Seq<char>, EntryV>, x: Seq<char>, fuel: nat) -> bool
    decreases fuel,
{
    &&& fuel > 0
    &&& nodes.contains_key(x)
    &&& match nodes[x].meta.place.parent {
        None => true,
        Some(p) => !nodes.contains_key(p) || reaches_top(nodes, p, (fuel - 1) as nat),
    }
}

/// The `i`-th ancestor of `x` (the walk stays at the last node it reached).
pub open spec fn ancestor(nodes: Map<Seq<char>, EntryV>, x: Seq<char>, i: nat) -> Seq<char>
    decreases i,
{
    if i == 0 {
        x
    } else {
        match up(nodes, x) {
            Some(p) => ancestor(nodes, p, (i - 1) as nat),
            None => x,
        }
    }
}

proof fn lemma_ancestor_add(nodes: Map<Seq<char>, EntryV>, x: Seq<char>, a: nat, b: nat)
    ensures
        ancestor(nodes, x, a + b) == ancestor(nodes, ancestor(nodes, x, a), b),
    decreases a,
{
    if a > 0 {
        match up(nodes, x) {
            Some(p) => {
                lemma_ancestor_add(nodes, p, (a - 1) as nat, b);
                assert((a + b - 1) as nat == (a - 1) as nat + b);
            },
            None => {
                lemma_ancestor_fixed(nodes, x, b);
                lemma_ancestor_fixed(nodes, x, a + b);
            },
        }
    }
}

proof fn lemma_ancestor_fixed(nodes: Map<Seq<char>, EntryV>, x: Seq<char>, b: nat)
    requires
        up(nodes, x) is None,
    ensures
        ancestor(nodes, x, b) == x,
{
}

/// A walk that never reaches the top passes through `fuel + 1` nodes of the graph, each
/// the parent of the one before.
proof fn lemma_stuck_walk(nodes: Map<Seq<char>, EntryV>, x: Seq<char>, fuel: nat)
    requires
        nodes.contains_key(x),
        !reaches_top(nodes, x, fuel),
    ensures
        forall|i: nat| i <= fuel ==> nodes.contains_key(#[trigger] ancestor(nodes, x, i)),
        forall|i: nat|
            i < fuel ==> up(nodes, #[trigger] ancestor(nodes, x, i)) == Some(
                ancestor(nodes, x, i + 1),
            ),
    decreases fuel,
{
    if fuel > 0 {
        let p = nodes[x].meta.place.parent->0;
        assert(up(nodes, x) == Some(p));
        lemma_stuck_walk(nodes, p, (fuel - 1) as nat);
        assert forall|i: nat| i <= fuel implies nodes.contains_key(#[trigger] ancestor(nodes, x, i)) by {
            if i > 0 {
                assert(ancestor(nodes, x, i) == ancestor(nodes, p, (i - 1) as nat));
            }
        }
        assert forall|i: nat| i < fuel implies up(nodes, #[trigger] ancestor(nodes, x, i)) == Some(
            ancestor(nodes, x, i + 1),
        ) by {
            assert(ancestor(nodes, x, i + 1) == ancestor(nodes, p, i));
            if i > 0 {
                assert(ancestor(nodes, x, i) == ancestor(nodes, p, (i - 1) as nat));
                assert((i - 1) as nat + 1 == i);
            }
        }
    }
}

/// Following the parents from `x` for `k` steps and arriving at `s` is walking back to `s`.
proof fn lemma_walk_returns(nodes: Map<Seq<char>, EntryV>, s: Seq<char>, x: Seq<char>, k: nat)
    requires
        k >= 1,
        forall|a: nat| a < k ==> up(nodes, #[trigger] ancestor(nodes, x, a)) == Some(
            ancestor(nodes, x, a + 1),
        ),
        ancestor(nodes, x, k) == s,
    ensures
        returns_to(nodes, s, x, k),
    decreases k,
{
    assert(up(nodes, ancestor(nodes, x, 0)) == Some(ancestor(nodes, x, 1)));
    let p = ancestor(nodes, x, 1);
    assert(up(nodes, x) == Some(p));
    if p != s {
        assert forall|a: nat| a < (k - 1) as nat implies up(nodes, #[trigger] ancestor(nodes, p, a))
            == Some(ancestor(nodes, p, a + 1)) by {
            lemma_ancestor_add(nodes, x, 1, a);
            lemma_ancestor_add(nodes, x, 1, a + 1);
            assert(up(nodes, ancestor(nodes, x, 1 + a)) == Some(ancestor(nodes, x, 1 + a + 1)));
        }
        lemma_ancestor_add(nodes, x, 1, (k - 1) as nat);
        lemma_walk_returns(nodes, s, p, (k - 1) as nat);
    }
}

proof fn lemma_returns_to_more_fuel(
    nodes: Map<Seq<char>, EntryV>,
    s: Seq<char>,
    x: Seq<char>,
    f: nat,
    g: nat,
)
    requires
        returns_to(nodes, s, x, f),
        f <= g,
    ensures
        returns_to(nodes, s, x, g),
    decreases f,
{
    match up(nodes, x) {
        Some(p) => {
            if p != s {
                lemma_returns_to_more_fuel(nodes, s, p, (f - 1) as nat, (g - 1) as nat);
            }
        },
        None => {},
    }
}

/// In a graph of the nodes `keys` where no node lies on a cycle, walking up from any node
/// reaches the top within as many steps as there are nodes.
proof fn lemma_acyclic_reaches_top(nodes: Map<Seq<char>, EntryV>, keys: Seq<Seq<char>>, x: Seq<char>)
    requires
        keys.no_duplicates(),
        forall|k: Seq<char>| nodes.contains_key(k) <==> keys.contains(k),
        forall|k: Seq<char>| #[trigger] nodes.contains_key(k) ==> !on_cycle(nodes, k, keys.len()),
        nodes.contains_key(x),
    ensures
        reaches_top(nodes, x, keys.len()),
{
    let n = keys.len();
    if !reaches_top(nodes, x, n) {
        lemma_stuck_walk(nodes, x, n);
        let w = Seq::new(n + 1, |i: int| ancestor(nodes, x, i as nat));
        assert forall|v: Seq<char>| #[trigger] w.to_set().contains(v) implies keys.to_set().contains(v) by {
            assert(w.contains(v));
            let i = w.index_of(v);
            assert(nodes.contains_key(ancestor(nodes, x, i as nat)));
            assert(keys.contains(v));
        }
        keys.unique_seq_to_set();
        vstd::seq_lib::seq_to_set_is_finite(keys);
        vstd::set_lib::lemma_len_subset(w.to_set(), keys.to_set());
        w.lemma_cardinality_of_set();
        if w.no_duplicates() {
            w.unique_seq_to_set();
        }
        assert(!w.no_duplicates());
        let (i, j) = choose|i: int, j: int| 0 <= i < w.len() && 0 <= j < w.len() && i != j && w[i] == w[j];
        let (a, b) = if i < j {
            (i, j)
        } else {
            (j, i)
        };
        let y = ancestor(nodes, x, a as nat);
        let k = (b - a) as nat;
        assert forall|c: nat| c < k implies up(nodes, #[trigger] ancestor(nodes, y, c)) == Some(
            ancestor(nodes, y, c + 1),
        ) by {
            lemma_ancestor_add(nodes, x, a as nat, c);
            lemma_ancestor_add(nodes, x, a as nat, c + 1);
            assert(up(nodes, ancestor(nodes, x, (a + c) as nat)) == Some(
                ancestor(nodes, x, (a + c) as nat + 1),
            ));
        }
        lemma_ancestor_add(nodes, x, a as nat, k);
        assert(ancestor(nodes, y, k) == w[b]);
        lemma_walk_returns(nodes, y, y, k);
        lemma_returns_to_more_fuel(nodes, y, y, k, n);
        assert(nodes.contains_key(y));
    }
}

proof fn lemma_break_cycles_parents(nodes: Map<Seq<char>, EntryV>, origin: Seq<PlaceV>, keys: Seq<Seq<char>>, n: nat)
    ensures
        forall|k: Seq<char>| #[trigger] break_cycles(nodes, origin, keys, n).nodes.contains_key(k) ==> {
            let c = break_cycles(nodes, origin, keys, n).nodes[k].meta.place.parent;
            c is None || c == nodes[k].meta.place.parent
        },
    decreases keys.len(),
{
    if keys.len() > 0 {
        lemma_break_cycles_parents(nodes, origin, keys.drop_last(), n);
    }
}

proof fn lemma_orphan_parents_hold(nodes: Map<Seq<char>, EntryV>, keys: Seq<Seq<char>>, j: int)
    requires
        0 <= j < keys.len(),
        missing_parent(nodes, keys[j]) is Some,
    ensures
        orphan_parents(nodes, keys).contains(missing_parent(nodes, keys[j])->0),
    decreases keys.len(),
{
    let prev = orphan_parents(nodes, keys.drop_last());
    let p = missing_parent(nodes, keys[j])->0;
    if j < keys.len() - 1 {
        assert(keys.drop_last()[j] == keys[j]);
        lemma_orphan_parents_hold(nodes, keys.drop_last(), j);
        let cur = orphan_parents(nodes, keys);
        let q = prev.index_of(p);
        match missing_parent(nodes, keys.last()) {
            Some(r) => if !prev.contains(r) {
                assert(cur[q] == p);
            },
            None => {},
        }
    } else {
        let cur = orphan_parents(nodes, keys);
        if !prev.contains(p) {
            assert(cur[cur.len() - 1] == p);
        }
    }
}

/// In a validated graph every parent is a node of the graph: orphans got their parents
/// back. So the walk up from every node ends at the root, within as many steps as there
/// are nodes: every node has a full path.
pub proof fn law_validated_paths_reach_the_top(
    t: TableV,
    events: Seq<EventV>,
    metas: Seq<OpenedMetaV>,
    keys: Seq<Seq<char>>,
)
    requires
        validate_spec(t, events, metas) is Ok,
        ordered_nodes(validate_spec(t, events, metas)->Ok_0.nodes, keys),
    ensures
        ({
            let nodes = validate_spec(t, events, metas)->Ok_0.nodes;
            &&& forall|k: Seq<char>| #[trigger] nodes.contains_key(k) ==> reaches_top(nodes, k, keys.len())
            &&& forall|k: Seq<char>|
                #[trigger] nodes.contains_key(k) && nodes[k].meta.place.parent is Some ==> nodes.contains_key(
                    nodes[k].meta.place.parent->0,
                )
        }),
{
    lemma_validated(t, events, metas, keys);
    let b = brought(t, metas)->Ok_0;
    let n = keys.len();
    let c = break_cycles(b.nodes, key_places(b.nodes, keys), keys, n);
    lemma_break_cycles(b.nodes, key_places(b.nodes, keys), keys, n);
    lemma_break_cycles_parents(b.nodes, key_places(b.nodes, keys), keys, n);
    let origin = key_places(c.nodes, keys);
    lemma_settle_keeps_parents(c.nodes, origin, keys);
    lemma_increasing_no_duplicates(keys);
    law_validated_graph_is_acyclic(t, events, metas, keys);
    let s = settle_places(c.nodes, origin, keys);
    assert forall|k: Seq<char>| #[trigger] s.nodes.contains_key(k) implies reaches_top(s.nodes, k, n) by {
        lemma_acyclic_reaches_top(s.nodes, keys, k);
    }
    assert forall|k: Seq<char>|
        #[trigger] s.nodes.contains_key(k) && s.nodes[k].meta.place.parent is Some implies s.nodes.contains_key(
        s.nodes[k].meta.place.parent->0,
    ) by {
        let p = s.nodes[k].meta.place.parent->0;
        assert(c.nodes.contains_key(k));
        assert(b.nodes[k].meta.place.parent == Some(p));
        assert(keys.contains(k));
        let j = keys.index_of(k);
        if missing_parent(b.nodes, keys[j]) is Some {
            lemma_orphan_parents_hold(b.nodes, keys, j);
        }
        assert(b.nodes.contains_key(p));
    }
}

/// `r` moved `k` to the root to break a cycle.
pub open spec fn cycle_loser(r: ResolutionV, k: Seq<char>) -> bool {
    r matches ResolutionV::BreakCycle { loser, .. } && loser == k
}

/// `r` renamed `k`, which lost a duplicate place.
pub open spec fn rename_loser(r: ResolutionV, k: Seq<char>) -> bool {
    r matches ResolutionV::RenameLoser { loser, .. } && loser == k
}

pub(crate) proof fn lemma_no_broken_link(nodes: Map<Seq<char>, EntryV>, events: Seq<EventV>)
    requires
        first_broken_link(nodes, events) is None,
    ensures
        forall|i: int| 0 <= i < events.len() ==> !breaks_body_link(nodes, #[trigger] events[i]),
    decreases events.len(),
{
    if events.len() > 0 {
        lemma_no_broken_link(nodes, events.drop_first());
        assert forall|i: int| 0 <= i < events.len() implies !breaks_body_link(nodes, #[trigger] events[i]) by {
            if i > 0 {
                assert(events.drop_first()[i - 1] == events[i]);
            }
        }
    }
}

proof fn lemma_break_cycles_marks_losers(nodes: Map<Seq<char>, EntryV>, origin: Seq<PlaceV>, keys: Seq<Seq<char>>, n: nat)
    ensures
        forall|k: Seq<char>| #[trigger] break_cycles(nodes, origin, keys, n).nodes.contains_key(k) ==> {
            let e = break_cycles(nodes, origin, keys, n).nodes[k];
            &&& e.meta.body == nodes[k].meta.body
            &&& e.meta.schema == nodes[k].meta.schema
            &&& e.hash == nodes[k].hash
            &&& (e.meta.place != nodes[k].meta.place ==> exists|i: int|
                0 <= i < break_cycles(nodes, origin, keys, n).resolutions.len()
                    && cycle_loser(#[trigger] break_cycles(nodes, origin, keys, n).resolutions[i], k))
        },
    decreases keys.len(),
{
    if keys.len() > 0 {
        lemma_break_cycles_marks_losers(nodes, origin, keys.drop_last(), n);
        let prev = break_cycles(nodes, origin, keys.drop_last(), n);
        let cur = break_cycles(nodes, origin, keys, n);
        let k = keys.last();
        if prev.nodes.contains_key(k) && on_cycle(prev.nodes, k, n) {
            assert forall|x: Seq<char>| #[trigger] cur.nodes.contains_key(x) && cur.nodes[x].meta.place
                != nodes[x].meta.place implies exists|i: int|
                0 <= i < cur.resolutions.len() && cycle_loser(#[trigger] cur.resolutions[i], x) by {
                if x == k {
                    assert(cycle_loser(cur.resolutions[cur.resolutions.len() - 1], x));
                } else {
                    let i = choose|i: int|
                        0 <= i < prev.resolutions.len() && cycle_loser(#[trigger] prev.resolutions[i], x);
                    assert(cur.resolutions[i] == prev.resolutions[i]);
                }
            }
        }
    }
}

proof fn lemma_settle_marks_losers(nodes: Map<Seq<char>, EntryV>, origin: Seq<PlaceV>, keys: Seq<Seq<char>>)
    ensures
        forall|k: Seq<char>| #[trigger] settle_places(nodes, origin, keys).nodes.contains_key(k) ==> {
            let e = settle_places(nodes, origin, keys).nodes[k];
            e.meta.place != nodes[k].meta.place ==> exists|i: int|
                0 <= i < settle_places(nodes, origin, keys).resolutions.len()
                    && rename_loser(#[trigger] settle_places(nodes, origin, keys).resolutions[i], k)
        },
        forall|i: int| 0 <= i < settle_places(nodes, origin, keys).resolutions.len() ==> #[trigger] settle_places(nodes, origin, keys).resolutions[i] is RenameLoser,
    decreases keys.len(),
{
    if keys.len() > 0 {
        lemma_settle_marks_losers(nodes, origin, keys.drop_last());
        let prev = settle_places(nodes, origin, keys.drop_last());
        let cur = settle_places(nodes, origin, keys);
        let k = keys.last();
        if prev.nodes.contains_key(k) && contested(origin, keys.len() - 1) {
            assert forall|x: Seq<char>| #[trigger] cur.nodes.contains_key(x) && cur.nodes[x].meta.place
                != nodes[x].meta.place implies exists|i: int|
                0 <= i < cur.resolutions.len() && rename_loser(#[trigger] cur.resolutions[i], x) by {
                if x == k {
                    assert(rename_loser(cur.resolutions[cur.resolutions.len() - 1], x));
                } else {
                    let i = choose|i: int|
                        0 <= i < prev.resolutions.len() && rename_loser(#[trigger] prev.resolutions[i], x);
                    assert(cur.resolutions[i] == prev.resolutions[i]);
                }
            }
            assert forall|i: int| 0 <= i < cur.resolutions.len() implies #[trigger] cur.resolutions[i] is RenameLoser by {
                if i < prev.resolutions.len() {
                    assert(cur.resolutions[i] == prev.resolutions[i]);
                }
            }
        }
    }
}

proof fn lemma_break_cycles_kinds(nodes: Map<Seq<char>, EntryV>, origin: Seq<PlaceV>, keys: Seq<Seq<char>>, n: nat)
    ensures
        forall|i: int| 0 <= i < break_cycles(nodes, origin, keys, n).resolutions.len() ==> #[trigger] break_cycles(nodes, origin, keys, n).resolutions[i] is BreakCycle,
    decreases keys.len(),
{
    if keys.len() > 0 {
        lemma_break_cycles_kinds(nodes, origin, keys.drop_last(), n);
        let prev = break_cycles(nodes, origin, keys.drop_last(), n);
        let cur = break_cycles(nodes, origin, keys, n);
        assert forall|i: int| 0 <= i < cur.resolutions.len() implies #[trigger] cur.resolutions[i] is BreakCycle by {
            if i < prev.resolutions.len() {
                assert(cur.resolutions[i] == prev.resolutions[i]);
            }
        }
    }
}

/// What bringing parents back keeps and adds: the nodes there were stay as they were, and
/// each node added is a parent that was missing, known as a meta under its own name and
/// named by a resurrection record, which names no other node.
proof fn lemma_bring_back(
    sorts: Map<Seq<char>, SortV>,
    nodes: Map<Seq<char>, EntryV>,
    from: Seq<char>,
    metas: Seq<OpenedMetaV>,
)
    requires
        bring_back(sorts, nodes, from, metas) is Ok,
    ensures
        ({
            let b = bring_back(sorts, nodes, from, metas)->Ok_0;
            &&& forall|k: Seq<char>| #[trigger] nodes.contains_key(k) ==> b.nodes.contains_key(k) && b.nodes[k] == nodes[k]
            &&& forall|k: Seq<char>| #[trigger] b.nodes.contains_key(k) && !nodes.contains_key(k) ==> {
                &&& b.sorts.contains_key(k) && b.sorts[k] == SortV::Meta(k)
                &&& exists|i: int| 0 <= i < b.resolutions.len() && #[trigger] b.resolutions[i] == (ResolutionV::ResurrectParent { parent: k, from })
            }
            &&& forall|k: Seq<char>| #[trigger] b.nodes.contains_key(k) && !nodes.contains_key(k) ==> exists|j: int|
                0 <= j < metas.len() && #[trigger] metas[j].object == k && check_meta(k, metas[j]) is Ok
                    && b.nodes[k] == (EntryV { meta: check_meta(k, metas[j])->Ok_0, hash: None })
            &&& forall|k: Seq<char>| #[trigger] sorts.contains_key(k) ==> b.sorts.contains_key(k)
            &&& forall|k: Seq<char>| #[trigger] b.sorts.contains_key(k) && !(b.nodes.contains_key(k) && !nodes.contains_key(k)) ==> sorts.contains_key(k) && b.sorts[k] == sorts[k]
            &&& forall|i: int| 0 <= i < b.resolutions.len() ==> (#[trigger] b.resolutions[i] matches ResolutionV::ResurrectParent { parent, from: f } && f == from && b.nodes.contains_key(parent) && !nodes.contains_key(parent))
        }),
    decreases metas.len(),
{
    if metas.len() > 0 {
        lemma_bring_back(sorts, nodes, from, metas.drop_last());
        let b0 = bring_back(sorts, nodes, from, metas.drop_last())->Ok_0;
        let b = bring_back(sorts, nodes, from, metas)->Ok_0;
        let p = metas.last().object;
        if is_missing(b0.nodes, p) {
            let r = ResolutionV::ResurrectParent { parent: p, from };
            assert(b.resolutions == b0.resolutions.push(r));
            assert(!nodes.contains_key(p));
            assert forall|k: Seq<char>| #[trigger] b.nodes.contains_key(k) && !nodes.contains_key(k) implies {
                &&& b.sorts.contains_key(k) && b.sorts[k] == SortV::Meta(k)
                &&& exists|i: int| 0 <= i < b.resolutions.len() && #[trigger] b.resolutions[i] == (ResolutionV::ResurrectParent { parent: k, from })
            } by {
                if k == p {
                    assert(b.resolutions[b.resolutions.len() - 1] == r);
                } else {
                    let i = choose|i: int| 0 <= i < b0.resolutions.len() && #[trigger] b0.resolutions[i] == (ResolutionV::ResurrectParent { parent: k, from });
                    assert(b.resolutions[i] == b0.resolutions[i]);
                }
            }
            assert forall|k: Seq<char>| #[trigger] b.nodes.contains_key(k) && !nodes.contains_key(k) implies exists|j: int|
                0 <= j < metas.len() && #[trigger] metas[j].object == k && check_meta(k, metas[j]) is Ok
                    && b.nodes[k] == (EntryV { meta: check_meta(k, metas[j])->Ok_0, hash: None }) by {
                if k == p {
                    assert(metas[metas.len() - 1].object == k);
                } else {
                    let j = choose|j: int| 0 <= j < metas.drop_last().len() && #[trigger] metas.drop_last()[j].object == k && check_meta(k, metas.drop_last()[j]) is Ok
                        && b0.nodes[k] == (EntryV { meta: check_meta(k, metas.drop_last()[j])->Ok_0, hash: None });
                    assert(metas.drop_last()[j] == metas[j]);
                }
            }
            assert forall|i: int| 0 <= i < b.resolutions.len() implies (#[trigger] b.resolutions[i] matches ResolutionV::ResurrectParent { parent, from: f } && f == from && b.nodes.contains_key(parent) && !nodes.contains_key(parent)) by {
                if i < b0.resolutions.len() {
                    assert(b.resolutions[i] == b0.resolutions[i]);
                }
            }
        }
    }
}

/// Validation never moves the link of a meta to its body: a validated graph has no meta
/// change that moved a live node to another body, and validation itself keeps every
/// node's body, schema and plaintext hash. It drops no node; it moves a node only to
/// resolve a violation, so a node whose place changed is named as the loser of a broken
/// cycle or of a duplicate place; and every node it adds is a parent brought back from
/// the revision of the mark, named by a resurrection record, whose every record names
/// such a node.
pub proof fn law_validation_changes_only_places_of_losers(
    t: TableV,
    events: Seq<EventV>,
    metas: Seq<OpenedMetaV>,
    keys: Seq<Seq<char>>,
)
    requires
        validate_spec(t, events, metas) is Ok,
        ordered_nodes(validate_spec(t, events, metas)->Ok_0.nodes, keys),
    ensures
        forall|i: int| 0 <= i < events.len() ==> !breaks_body_link(t.nodes, #[trigger] events[i]),
        ({
            let o = validate_spec(t, events, metas)->Ok_0;
            let (nodes, res) = (o.nodes, o.resolutions);
            &&& forall|k: Seq<char>| #[trigger] t.nodes.contains_key(k) ==> nodes.contains_key(k)
            &&& forall|k: Seq<char>| #[trigger] nodes.contains_key(k) && t.nodes.contains_key(k) ==> {
                &&& nodes[k].meta.body == t.nodes[k].meta.body
                &&& nodes[k].meta.schema == t.nodes[k].meta.schema
                &&& nodes[k].hash == t.nodes[k].hash
                &&& (nodes[k].meta.place != t.nodes[k].meta.place ==> exists|i: int|
                    0 <= i < res.len() && (cycle_loser(#[trigger] res[i], k) || rename_loser(res[i], k)))
            }
            &&& forall|k: Seq<char>| #[trigger] nodes.contains_key(k) && !t.nodes.contains_key(k) ==> exists|i: int|
                0 <= i < res.len() && #[trigger] res[i] == (ResolutionV::ResurrectParent { parent: k, from: t.mark->0 })
            &&& forall|i: int| 0 <= i < res.len() ==> (#[trigger] res[i] matches ResolutionV::ResurrectParent { parent, .. }
                ==> nodes.contains_key(parent) && !t.nodes.contains_key(parent))
        }),
{
    lemma_validated(t, events, metas, keys);
    lemma_no_broken_link(t.nodes, events);
    let b = brought(t, metas)->Ok_0;
    if t.mark is Some {
        lemma_bring_back(t.sorts, t.nodes, t.mark->0, metas);
    }
    let n = keys.len();
    let c = break_cycles(b.nodes, key_places(b.nodes, keys), keys, n);
    lemma_break_cycles(b.nodes, key_places(b.nodes, keys), keys, n);
    lemma_break_cycles_marks_losers(b.nodes, key_places(b.nodes, keys), keys, n);
    lemma_break_cycles_kinds(b.nodes, key_places(b.nodes, keys), keys, n);
    let origin = key_places(c.nodes, keys);
    lemma_settle_keeps_parents(c.nodes, origin, keys);
    lemma_settle_marks_losers(c.nodes, origin, keys);
    let s = settle_places(c.nodes, origin, keys);
    let o = validate_spec(t, events, metas)->Ok_0;
    let (nodes, res) = (o.nodes, o.resolutions);
    assert(nodes == s.nodes);
    assert(res == b.resolutions + c.resolutions + s.resolutions);
    assert forall|k: Seq<char>| #[trigger] nodes.contains_key(k) && t.nodes.contains_key(k) implies (nodes[k].meta.place
        != t.nodes[k].meta.place ==> exists|i: int|
        0 <= i < res.len() && (cycle_loser(#[trigger] res[i], k) || rename_loser(res[i], k))) by {
        assert(b.nodes[k] == t.nodes[k]);
        if nodes[k].meta.place != t.nodes[k].meta.place {
            if c.nodes[k].meta.place != b.nodes[k].meta.place {
                let i = choose|i: int|
                    0 <= i < c.resolutions.len() && cycle_loser(#[trigger] c.resolutions[i], k);
                assert(res[b.resolutions.len() + i] == c.resolutions[i]);
            } else {
                let i = choose|i: int|
                    0 <= i < s.resolutions.len() && rename_loser(#[trigger] s.resolutions[i], k);
                assert(res[b.resolutions.len() + c.resolutions.len() + i] == s.resolutions[i]);
            }
        }
    }
    assert forall|k: Seq<char>| #[trigger] nodes.contains_key(k) && !t.nodes.contains_key(k) implies exists|i: int|
        0 <= i < res.len() && #[trigger] res[i] == (ResolutionV::ResurrectParent { parent: k, from: t.mark->0 }) by {
        assert(b.nodes.contains_key(k));
        let i = choose|i: int| 0 <= i < b.resolutions.len() && #[trigger] b.resolutions[i] == (ResolutionV::ResurrectParent { parent: k, from: t.mark->0 });
        assert(res[i] == b.resolutions[i]);
    }
    assert forall|i: int| 0 <= i < res.len() implies (#[trigger] res[i] matches ResolutionV::ResurrectParent { parent, .. }
        ==> nodes.contains_key(parent) && !t.nodes.contains_key(parent)) by {
        if i < b.resolutions.len() {
            assert(res[i] == b.resolutions[i]);
        } else if i < b.resolutions.len() + c.resolutions.len() {
            assert(res[i] == c.resolutions[i - b.resolutions.len()]);
        } else {
            assert(res[i] == s.resolutions[i - b.resolutions.len() - c.resolutions.len()]);
        }
    }
}

/// After breaking the cycles of the first keys: the places taken start with the original
/// ones; a node keeps its original place, at its own index, unless it lost a cycle; then
/// it holds a place taken that none taken before it holds, at a position of its own, and a
/// record names it with that place.
proof fn lemma_break_cycles_places(nodes: Map<Seq<char>, EntryV>, origin: Seq<PlaceV>, keys: Seq<Seq<char>>, n: nat) -> (idx: Seq<int>)
    requires
        keys.no_duplicates(),
        forall|j: int| 0 <= j < keys.len() ==> nodes.contains_key(#[trigger] keys[j]),
        keys.len() <= origin.len(),
        forall|j: int| 0 <= j < keys.len() ==> origin[j] == nodes[#[trigger] keys[j]].meta.place,
    ensures
        ({
            let c = break_cycles(nodes, origin, keys, n);
            &&& c.taken.len() >= origin.len()
            &&& forall|q: int| 0 <= q < origin.len() ==> #[trigger] c.taken[q] == origin[q]
            &&& idx.len() == keys.len()
            &&& forall|j: int| 0 <= j < keys.len() ==> {
                &&& 0 <= #[trigger] idx[j] < c.taken.len()
                &&& c.nodes[keys[j]].meta.place == c.taken[idx[j]]
                &&& (idx[j] < origin.len() ==> idx[j] == j)
                &&& (idx[j] >= origin.len() ==> fresh(c.taken, idx[j]) && c.taken[idx[j]].parent is None)
            }
            &&& forall|i: int, j: int| 0 <= i < keys.len() && 0 <= j < keys.len() && i != j ==> #[trigger] idx[i] != #[trigger] idx[j]
            &&& forall|r: int| 0 <= r < c.resolutions.len() ==> exists|j: int| 0 <= j < keys.len() && #[trigger] c.resolutions[r] == (ResolutionV::BreakCycle { loser: keys[j], relocated_to: c.taken[idx[j]] }) && idx[j] >= origin.len()
            &&& forall|k: Seq<char>| !keys.contains(k) && nodes.contains_key(k) ==> #[trigger] c.nodes[k] == nodes[k]
        }),
    decreases keys.len(),
{
    if keys.len() == 0 {
        Seq::empty()
    } else {
        let d = keys.drop_last();
        let i = keys.len() - 1;
        assert(d.no_duplicates());
        assert forall|j: int| 0 <= j < d.len() implies origin[j] == nodes[#[trigger] d[j]].meta.place by {
            assert(d[j] == keys[j]);
        }
        let idx0 = lemma_break_cycles_places(nodes, origin, d, n);
        let prev = break_cycles(nodes, origin, d, n);
        let k = keys.last();
        assert(!d.contains(k));
        lemma_break_cycles(nodes, origin, d, n);
        assert(prev.nodes.contains_key(k));
        assert(prev.nodes[k] == nodes[k]);
        let c = break_cycles(nodes, origin, keys, n);
        assert forall|kk: Seq<char>| !keys.contains(kk) && nodes.contains_key(kk) implies prev.nodes[kk]
            == nodes[kk] && kk != k by {
            assert(!d.contains(kk)) by {
                if d.contains(kk) {
                    let j = d.index_of(kk);
                    assert(keys[j] == kk);
                }
            }
            assert(keys[i] == k);
        }
        if on_cycle(prev.nodes, k, n) {
            let pl = relocation(prev.taken, prev.nodes[k]);
            lemma_free_name_is_free(prev.taken, None, prev.nodes[k].meta.place.name + crate::validate::cycle_tag(), (max_name_len(prev.taken) + 1) as int);
            assert(c.taken == prev.taken.push(pl));
            let idx = idx0.push(prev.taken.len() as int);
            assert(c.taken.take(prev.taken.len() as int) =~= prev.taken);
            assert forall|j: int| 0 <= j < keys.len() implies {
                &&& 0 <= #[trigger] idx[j] < c.taken.len()
                &&& c.nodes[keys[j]].meta.place == c.taken[idx[j]]
                &&& (idx[j] < origin.len() ==> idx[j] == j)
                &&& (idx[j] >= origin.len() ==> fresh(c.taken, idx[j]) && c.taken[idx[j]].parent is None)
            } by {
                if j < i {
                    assert(d[j] == keys[j]);
                    assert(keys[j] != k);
                    assert(idx[j] == idx0[j]);
                    assert(c.taken.take(idx[j]) =~= prev.taken.take(idx[j]));
                }
            }
            assert forall|a: int, b: int| 0 <= a < keys.len() && 0 <= b < keys.len() && a != b implies #[trigger] idx[a] != #[trigger] idx[b] by {
                if a < i && b < i {
                    assert(idx[a] == idx0[a] && idx[b] == idx0[b]);
                }
            }
            assert forall|r: int| 0 <= r < c.resolutions.len() implies exists|j: int| 0 <= j < keys.len() && #[trigger] c.resolutions[r] == (ResolutionV::BreakCycle { loser: keys[j], relocated_to: c.taken[idx[j]] }) && idx[j] >= origin.len() by {
                if r < prev.resolutions.len() {
                    assert(c.resolutions[r] == prev.resolutions[r]);
                    let j = choose|j: int| 0 <= j < d.len() && #[trigger] prev.resolutions[r] == (ResolutionV::BreakCycle { loser: d[j], relocated_to: prev.taken[idx0[j]] }) && idx0[j] >= origin.len();
                    assert(d[j] == keys[j] && idx[j] == idx0[j]);
                    assert(c.taken[idx[j]] == prev.taken[idx0[j]]);
                } else {
                    assert(c.resolutions[r] == (ResolutionV::BreakCycle { loser: keys[i], relocated_to: c.taken[idx[i]] }));
                }
            }
            idx
        } else {
            assert(c == prev);
            let idx = idx0.push(i);
            assert forall|j: int| 0 <= j < keys.len() implies {
                &&& 0 <= #[trigger] idx[j] < c.taken.len()
                &&& c.nodes[keys[j]].meta.place == c.taken[idx[j]]
                &&& (idx[j] < origin.len() ==> idx[j] == j)
                &&& (idx[j] >= origin.len() ==> fresh(c.taken, idx[j]) && c.taken[idx[j]].parent is None)
            } by {
                if j < i {
                    assert(d[j] == keys[j]);
                    assert(idx[j] == idx0[j]);
                }
            }
            assert forall|a: int, b: int| 0 <= a < keys.len() && 0 <= b < keys.len() && a != b implies #[trigger] idx[a] != #[trigger] idx[b] by {
                if a < i && b < i {
                    assert(idx[a] == idx0[a] && idx[b] == idx0[b]);
                }
            }
            assert forall|r: int| 0 <= r < c.resolutions.len() implies exists|j: int| 0 <= j < keys.len() && #[trigger] c.resolutions[r] == (ResolutionV::BreakCycle { loser: keys[j], relocated_to: c.taken[idx[j]] }) && idx[j] >= origin.len() by {
                let j = choose|j: int| 0 <= j < d.len() && #[trigger] prev.resolutions[r] == (ResolutionV::BreakCycle { loser: d[j], relocated_to: prev.taken[idx0[j]] }) && idx0[j] >= origin.len();
                assert(d[j] == keys[j] && idx[j] == idx0[j]);
            }
            idx
        }
    }
}

/// Every rename record of settling names a key settled and the name that node holds.
proof fn lemma_settle_records(nodes: Map<Seq<char>, EntryV>, origin: Seq<PlaceV>, keys: Seq<Seq<char>>)
    requires
        keys.no_duplicates(),
    ensures
        forall|r: int| 0 <= r < settle_places(nodes, origin, keys).resolutions.len() ==> (#[trigger] settle_places(nodes, origin, keys).resolutions[r] matches ResolutionV::RenameLoser { loser, new_name }
            && keys.contains(loser) && settle_places(nodes, origin, keys).nodes.contains_key(loser)
            && settle_places(nodes, origin, keys).nodes[loser].meta.place.name == new_name),
    decreases keys.len(),
{
    if keys.len() > 0 {
        let d = keys.drop_last();
        assert(d.no_duplicates());
        lemma_settle_records(nodes, origin, d);
        let prev = settle_places(nodes, origin, d);
        let cur = settle_places(nodes, origin, keys);
        let k = keys.last();
        assert(!d.contains(k));
        assert forall|r: int| 0 <= r < cur.resolutions.len() implies (#[trigger] cur.resolutions[r] matches ResolutionV::RenameLoser { loser, new_name }
            && keys.contains(loser) && cur.nodes.contains_key(loser)
            && cur.nodes[loser].meta.place.name == new_name) by {
            if r < prev.resolutions.len() {
                assert(cur.resolutions[r] == prev.resolutions[r]);
                let loser = prev.resolutions[r]->RenameLoser_loser;
                assert(d.contains(loser));
                assert(loser != k);
                let j = d.index_of(loser);
                assert(keys[j] == loser);
            } else {
                assert(keys[keys.len() - 1] == k);
            }
        }
    }
}

/// Every resolution of a validated graph says what the table holds: a parent brought back
/// is a node that the graph did not hold, brought from the revision of the mark; the loser
/// of a cycle sits at the root place recorded for it; the loser of a duplicate place holds
/// the name recorded for it. Validation makes no conflict copy: parallel edits are
/// presented by the transport, and `conflict::conflict_copies` makes their copies.
pub proof fn law_resolutions_match_the_table(
    t: TableV,
    events: Seq<EventV>,
    metas: Seq<OpenedMetaV>,
    keys: Seq<Seq<char>>,
)
    requires
        validate_spec(t, events, metas) is Ok,
        ordered_nodes(validate_spec(t, events, metas)->Ok_0.nodes, keys),
    ensures
        ({
            let o = validate_spec(t, events, metas)->Ok_0;
            forall|i: int| 0 <= i < o.resolutions.len() ==> match #[trigger] o.resolutions[i] {
                ResolutionV::ResurrectParent { parent, from } => o.nodes.contains_key(parent) && !t.nodes.contains_key(parent) && t.mark == Some(from),
                ResolutionV::BreakCycle { loser, relocated_to } => o.nodes.contains_key(loser) && relocated_to.parent is None && o.nodes[loser].meta.place == relocated_to,
                ResolutionV::RenameLoser { loser, new_name } => o.nodes.contains_key(loser) && o.nodes[loser].meta.place.name == new_name,
                ResolutionV::ConflictCopy { .. } => false,
            }
        }),
{
    lemma_validated(t, events, metas, keys);
    let b = brought(t, metas)->Ok_0;
    if t.mark is Some {
        lemma_bring_back(t.sorts, t.nodes, t.mark->0, metas);
    }
    let n = keys.len();
    let o0 = key_places(b.nodes, keys);
    lemma_increasing_no_duplicates(keys);
    assert forall|j: int| 0 <= j < keys.len() implies b.nodes.contains_key(#[trigger] keys[j]) by {
        assert(keys.contains(keys[j]));
    }
    let cidx = lemma_break_cycles_places(b.nodes, o0, keys, n);
    lemma_break_cycles(b.nodes, o0, keys, n);
    let c = break_cycles(b.nodes, o0, keys, n);
    assert forall|j: int| 0 <= j < keys.len() implies c.nodes.contains_key(#[trigger] keys[j]) by {}
    let origin = key_places(c.nodes, keys);
    let sidx = lemma_settle(c.nodes, origin, keys);
    lemma_settle_keeps_parents(c.nodes, origin, keys);
    lemma_settle_records(c.nodes, origin, keys);
    let s = settle_places(c.nodes, origin, keys);
    let o = validate_spec(t, events, metas)->Ok_0;
    assert(o.resolutions == b.resolutions + c.resolutions + s.resolutions);
    assert forall|i: int| 0 <= i < o.resolutions.len() implies match #[trigger] o.resolutions[i] {
        ResolutionV::ResurrectParent { parent, from } => o.nodes.contains_key(parent) && !t.nodes.contains_key(parent) && t.mark == Some(from),
        ResolutionV::BreakCycle { loser, relocated_to } => o.nodes.contains_key(loser) && relocated_to.parent is None && o.nodes[loser].meta.place == relocated_to,
        ResolutionV::RenameLoser { loser, new_name } => o.nodes.contains_key(loser) && o.nodes[loser].meta.place.name == new_name,
        ResolutionV::ConflictCopy { .. } => false,
    } by {
        if i < b.resolutions.len() {
            assert(o.resolutions[i] == b.resolutions[i]);
            assert(t.mark is Some);
        } else if i < b.resolutions.len() + c.resolutions.len() {
            let r = i - b.resolutions.len();
            assert(o.resolutions[i] == c.resolutions[r]);
            let j = choose|j: int| 0 <= j < keys.len() && #[trigger] c.resolutions[r] == (ResolutionV::BreakCycle { loser: keys[j], relocated_to: c.taken[cidx[j]] }) && cidx[j] >= o0.len();
            let q = cidx[j];
            // The place of the loser is held by no other node after cycles are broken.
            assert(!contested(origin, j)) by {
                if contested(origin, j) {
                    let a = origin.take(j).index_of(origin[j]);
                    assert(origin[a] == c.nodes[keys[a]].meta.place);
                    assert(origin[j] == c.nodes[keys[j]].meta.place);
                    assert(cidx[a] != q);
                    if cidx[a] < q {
                        assert(c.taken.take(q)[cidx[a]] == c.taken[cidx[a]]);
                    } else {
                        assert(cidx[a] >= o0.len());
                        assert(c.taken.take(cidx[a])[q] == c.taken[q]);
                    }
                }
            }
            assert(s.nodes[keys[j]] == c.nodes[keys[j]]);
        } else {
            let r = i - b.resolutions.len() - c.resolutions.len();
            assert(o.resolutions[i] == s.resolutions[r]);
        }
    }
}

/// The link of a meta to its body is fixed at birth, across both phases: a node of the
/// table before the delta that is still a node after validation keeps the body it had.
/// Laying the delta keeps the links of the nodes it changes; validation keeps the links of
/// the nodes it holds, and a parent it brings back takes the link of the meta read from
/// history at the mark, which is the meta the table held then.
pub proof fn law_body_link_is_fixed_at_birth(
    base: TableV,
    opened: Seq<OpenedMetaV>,
    delta: Seq<(Seq<char>, RawStatus)>,
    t: TableV,
    resurrected: Seq<OpenedMetaV>,
    keys: Seq<Seq<char>>,
)
    requires
        consistent(base.sorts, base.nodes),
        apply_spec(base, opened, delta) is Ok,
        t.sorts == apply_spec(base, opened, delta)->Ok_0.sorts,
        t.nodes == apply_spec(base, opened, delta)->Ok_0.nodes,
        t.mark == base.mark,
        validate_spec(t, apply_spec(base, opened, delta)->Ok_0.events, resurrected) is Ok,
        ordered_nodes(validate_spec(t, apply_spec(base, opened, delta)->Ok_0.events, resurrected)->Ok_0.nodes, keys),
        forall|j: int|
            0 <= j < resurrected.len() && base.nodes.contains_key(#[trigger] resurrected[j].object) ==> resurrected[j].body
                == base.nodes[resurrected[j].object].meta.body,
    ensures
        ({
            let nodes = validate_spec(t, apply_spec(base, opened, delta)->Ok_0.events, resurrected)->Ok_0.nodes;
            forall|id: Seq<char>| #[trigger] base.nodes.contains_key(id) && nodes.contains_key(id) ==> nodes[id].meta.body
                == base.nodes[id].meta.body
        }),
{
    let events = apply_spec(base, opened, delta)->Ok_0.events;
    let bs = base.sorts;
    let bn = base.nodes;
    let d = delta;
    // Phase one keeps the links.
    lemma_no_repeat_distinct(d);
    let st0 = ApplyState { sorts: bs, nodes: bn, events: Seq::empty() };
    assert(d.take(d.len() as int) =~= d);
    crate::replay::lemma_meta_pass_done(bs, bn, opened, d, d.len() as int);
    let st1 = meta_pass(st0, bs, opened, d)->Ok_0;
    crate::replay::lemma_body_pass_done(bs, bn, st1, opened, d, d.len() as int);
    assert(t.nodes == st1.nodes);
    assert forall|id: Seq<char>| #[trigger] bn.contains_key(id) && t.nodes.contains_key(id) implies t.nodes[id].meta.body
        == bn[id].meta.body by {
        if crate::replay::named(d, id) {
            let i = choose|i: int| 0 <= i < d.len() && #[trigger] d[i].0 == id;
            assert(crate::replay::meta_done(st1.sorts, st1.nodes, bs, bn, opened, d[i].0, d[i].1));
            assert(bs[id] == SortV::Meta(id));
        } else {
            assert(crate::replay::same_at(st1.nodes, bn, id));
        }
    }
    // Phase two keeps them too, and brings back the links of the mark.
    law_validation_changes_only_places_of_losers(t, events, resurrected, keys);
    lemma_validated(t, events, resurrected, keys);
    let b = brought(t, resurrected)->Ok_0;
    if t.mark is Some {
        lemma_bring_back(t.sorts, t.nodes, t.mark->0, resurrected);
    }
    let n = keys.len();
    let c = break_cycles(b.nodes, key_places(b.nodes, keys), keys, n);
    lemma_break_cycles(b.nodes, key_places(b.nodes, keys), keys, n);
    lemma_break_cycles_marks_losers(b.nodes, key_places(b.nodes, keys), keys, n);
    lemma_settle_keeps_parents(c.nodes, key_places(c.nodes, keys), keys);
    let o = validate_spec(t, events, resurrected)->Ok_0;
    assert forall|id: Seq<char>| #[trigger] bn.contains_key(id) && o.nodes.contains_key(id) implies o.nodes[id].meta.body
        == bn[id].meta.body by {
        if !t.nodes.contains_key(id) {
            assert(b.nodes.contains_key(id));
            let j = choose|j: int|
                0 <= j < resurrected.len() && #[trigger] resurrected[j].object == id && check_meta(id, resurrected[j]) is Ok
                    && b.nodes[id] == (EntryV { meta: check_meta(id, resurrected[j])->Ok_0, hash: None });
            assert(o.nodes[id].meta.body == c.nodes[id].meta.body);
        }
    }
}

proof fn lemma_parent_key_injective(a: Option<Seq<char>>, b: Option<Seq<char>>)
    requires
        parent_key(a) == parent_key(b),
    ensures
        a == b,
{
    match (a, b) {
        (Some(x), Some(y)) => {
            assert(parent_key(a).drop_first() =~= x);
            assert(parent_key(b).drop_first() =~= y);
        },
        (None, Some(y)) => {
            assert(parent_key(b).len() > 0);
        },
        (Some(x), None) => {
            assert(parent_key(a).len() > 0);
        },
        (None, None) => {},
    }
}

/// The index `idx` lists `x` among the children of `p`.
pub open spec fn listed(idx: Map<Seq<char>, Seq<Seq<char>>>, p: Option<Seq<char>>, x: Seq<char>) -> bool {
    idx.contains_key(parent_key(p)) && idx[parent_key(p)].contains(x)
}

/// The reverse index lists under each parent exactly the nodes whose place names that
/// parent, each once.
pub proof fn law_reverse_index_is_exact(keys: Seq<Seq<char>>, nodes: Map<Seq<char>, EntryV>)
    requires
        keys.no_duplicates(),
    ensures
        forall|p: Option<Seq<char>>, x: Seq<char>|
            #[trigger] listed(index_children(keys, nodes), p, x) <==> (keys.contains(x)
                && nodes[x].meta.place.parent == p),
        forall|q: Seq<char>| #[trigger] index_children(keys, nodes).contains_key(q) ==> index_children(
            keys,
            nodes,
        )[q].no_duplicates(),
    decreases keys.len(),
{
    if keys.len() > 0 {
        let d = keys.drop_last();
        assert(d.no_duplicates()) by {
            assert forall|i: int, j: int| 0 <= i < d.len() && 0 <= j < d.len() && i != j implies d[i] != d[j] by {
                assert(d[i] == keys[i] && d[j] == keys[j]);
            }
        }
        law_reverse_index_is_exact(d, nodes);
        let prev = index_children(d, nodes);
        let cur = index_children(keys, nodes);
        let k = keys.last();
        let pk = parent_key(nodes[k].meta.place.parent);
        assert(!d.contains(k)) by {
            if d.contains(k) {
                let j = d.index_of(k);
                assert(keys[j] == k);
                assert(keys[keys.len() - 1] == k);
            }
        }
        assert forall|p: Option<Seq<char>>, x: Seq<char>|
            #[trigger] listed(cur, p, x) <==> (keys.contains(x)
                && nodes[x].meta.place.parent == p) by {
            assert(listed(prev, p, x) <==> (d.contains(x) && nodes[x].meta.place.parent == p));
            assert(keys.contains(x) <==> (d.contains(x) || x == k)) by {
                if keys.contains(x) && x != k {
                    let j = keys.index_of(x);
                    assert(d[j] == x);
                }
                if d.contains(x) {
                    let j = d.index_of(x);
                    assert(keys[j] == x);
                }
                if x == k {
                    assert(keys[keys.len() - 1] == k);
                }
            }
            if parent_key(p) == pk {
                lemma_parent_key_injective(p, nodes[k].meta.place.parent);
                if prev.contains_key(pk) {
                    assert(cur[pk] == prev[pk].push(k));
                    assert(cur[pk].contains(x) <==> (prev[pk].contains(x) || x == k)) by {
                        if prev[pk].contains(x) {
                            let j = prev[pk].index_of(x);
                            assert(cur[pk][j] == x);
                        }
                        if cur[pk].contains(x) && x != k {
                            let j = cur[pk].index_of(x);
                            assert(prev[pk][j] == x);
                        }
                        if x == k {
                            assert(cur[pk][cur[pk].len() - 1] == k);
                        }
                    }
                } else {
                    assert(cur[pk] == seq![k]);
                    assert(cur[pk].contains(x) <==> x == k) by {
                        if x == k {
                            assert(cur[pk][0] == k);
                        }
                    }
                }
            } else {
                assert(cur.contains_key(parent_key(p)) == prev.contains_key(parent_key(p)));
                if prev.contains_key(parent_key(p)) {
                    assert(cur[parent_key(p)] == prev[parent_key(p)]);
                }
                assert(listed(cur, p, x) == listed(prev, p, x));
                if x == k && nodes[x].meta.place.parent == p {
                    assert(parent_key(p) == pk);
                }
            }
        }
        assert forall|q: Seq<char>| #[trigger] cur.contains_key(q) implies cur[q].no_duplicates() by {
            if q == pk && prev.contains_key(pk) {
                assert(!prev[pk].contains(k)) by {
                    if prev[pk].contains(k) {
                        assert(exists|p: Option<Seq<char>>| parent_key(p) == pk) by {
                            assert(parent_key(nodes[k].meta.place.parent) == pk);
                        }
                        let p = nodes[k].meta.place.parent;
                        assert(listed(prev, p, k));
                    }
                }
                assert forall|a: int, b: int| 0 <= a < cur[q].len() && 0 <= b < cur[q].len() && a != b implies cur[q][a] != cur[q][b] by {
                    if a == cur[q].len() - 1 && b < prev[pk].len() {
                        assert(prev[pk].contains(cur[q][b]));
                    } else if b == cur[q].len() - 1 && a < prev[pk].len() {
                        assert(prev[pk].contains(cur[q][a]));
                    }
                }
            }
        }
    }
}

/// The sorts and the nodes of a table agree: every node is known as a meta under its own
/// name, every meta sort names a node of that name, and a body is known under its name.
pub open spec fn consistent(sorts: Map<Seq<char>, SortV>, nodes: Map<Seq<char>, EntryV>) -> bool {
    &&& forall|k: Seq<char>| #[trigger] nodes.contains_key(k) ==> sorts.contains_key(k) && sorts[k]
        == SortV::Meta(k)
    &&& forall|k: Seq<char>| #[trigger] sorts.contains_key(k) ==> match sorts[k] {
        SortV::Meta(id) => id == k && nodes.contains_key(k),
        SortV::Body(b) => b == k,
        SortV::Chaff => true,
    }
}

/// No object appears twice in the delta.
pub open spec fn distinct_names(d: Seq<(Seq<char>, RawStatus)>) -> bool {
    forall|i: int, j: int| 0 <= i < d.len() && 0 <= j < d.len() && i != j ==> d[i].0 != d[j].0
}

proof fn lemma_meta_pass_consistent(
    st0: ApplyState,
    bs: Map<Seq<char>, SortV>,
    ov: Seq<OpenedMetaV>,
    d: Seq<(Seq<char>, RawStatus)>,
    i: int,
)
    requires
        st0.sorts == bs,
        consistent(bs, st0.nodes),
        distinct_names(d),
        0 <= i <= d.len(),
        meta_pass(st0, bs, ov, d.take(i)) is Ok,
    ensures
        ({
            let st = meta_pass(st0, bs, ov, d.take(i))->Ok_0;
            &&& consistent(st.sorts, st.nodes)
            &&& forall|j: int|
                0 <= j < d.len() && (j >= i || !is_meta_entry(bs, ov, #[trigger] d[j].0, d[j].1)) ==> (
                sort_of(st.sorts, d[j].0) == sort_of(bs, d[j].0) && (st.nodes.contains_key(d[j].0)
                <==> st0.nodes.contains_key(d[j].0)))
        }),
    decreases i,
{
    if i == 0 {
        assert(d.take(0) =~= Seq::<(Seq<char>, RawStatus)>::empty());
    } else {
        assert(d.take(i).drop_last() =~= d.take(i - 1));
        assert(d.take(i).last() == d[i - 1]);
        lemma_meta_pass_consistent(st0, bs, ov, d, i - 1);
        let prev = meta_pass(st0, bs, ov, d.take(i - 1))->Ok_0;
        let (name, status) = d[i - 1];
        let st = meta_pass(st0, bs, ov, d.take(i))->Ok_0;
        assert(st == meta_step(prev, bs, ov, name, status)->Ok_0);
        assert(sort_of(prev.sorts, name) == sort_of(bs, name));
        assert(prev.nodes.contains_key(name) <==> st0.nodes.contains_key(name));
        assert forall|j: int| 0 <= j < d.len() && j != i - 1 implies #[trigger] d[j].0 != name by {}
        if !is_meta_entry(bs, ov, name, status) {
            assert(st == prev);
        }
    }
}

proof fn lemma_body_pass_consistent(
    st0: ApplyState,
    st1: ApplyState,
    bs: Map<Seq<char>, SortV>,
    ov: Seq<OpenedMetaV>,
    d: Seq<(Seq<char>, RawStatus)>,
    i: int,
)
    requires
        consistent(bs, st0.nodes),
        consistent(st1.sorts, st1.nodes),
        distinct_names(d),
        forall|j: int|
            0 <= j < d.len() && !is_meta_entry(bs, ov, #[trigger] d[j].0, d[j].1) ==> (sort_of(
                st1.sorts,
                d[j].0,
            ) == sort_of(bs, d[j].0) && (st1.nodes.contains_key(d[j].0) <==> st0.nodes.contains_key(
                d[j].0,
            ))),
        0 <= i <= d.len(),
        body_pass(st1, bs, ov, d.take(i)) is Ok,
    ensures
        ({
            let st = body_pass(st1, bs, ov, d.take(i))->Ok_0;
            &&& consistent(st.sorts, st.nodes)
            &&& st.nodes == st1.nodes
            &&& forall|j: int|
                i <= j < d.len() && !is_meta_entry(bs, ov, #[trigger] d[j].0, d[j].1) ==> sort_of(
                    st.sorts,
                    d[j].0,
                ) == sort_of(bs, d[j].0)
        }),
    decreases i,
{
    if i == 0 {
        assert(d.take(0) =~= Seq::<(Seq<char>, RawStatus)>::empty());
    } else {
        assert(d.take(i).drop_last() =~= d.take(i - 1));
        assert(d.take(i).last() == d[i - 1]);
        lemma_body_pass_consistent(st0, st1, bs, ov, d, i - 1);
        let prev = body_pass(st1, bs, ov, d.take(i - 1))->Ok_0;
        let (name, status) = d[i - 1];
        let st = body_pass(st1, bs, ov, d.take(i))->Ok_0;
        assert(st == body_step(prev, bs, ov, name, status)->Ok_0);
        assert forall|j: int| 0 <= j < d.len() && j != i - 1 implies #[trigger] d[j].0 != name by {}
        if !is_meta_entry(bs, ov, name, status) {
            assert(sort_of(prev.sorts, name) == sort_of(bs, name));
            assert(!st0.nodes.contains_key(name));
            assert(!prev.nodes.contains_key(name));
        } else {
            assert(st == prev);
        }
    }
}

/// Laying a delta onto a table whose sorts and nodes agree gives, when it is accepted, a
/// table whose sorts and nodes agree again.
pub proof fn law_apply_keeps_table_consistent(
    base: TableV,
    opened: Seq<OpenedMetaV>,
    delta: Seq<(Seq<char>, RawStatus)>,
)
    requires
        consistent(base.sorts, base.nodes),
        apply_spec(base, opened, delta) is Ok,
    ensures
        ({
            let s = apply_spec(base, opened, delta)->Ok_0;
            consistent(s.sorts, s.nodes)
        }),
{
    lemma_no_repeat_distinct(delta);
    let st0 = ApplyState { sorts: base.sorts, nodes: base.nodes, events: Seq::empty() };
    assert(delta.take(delta.len() as int) =~= delta);
    lemma_meta_pass_consistent(st0, base.sorts, opened, delta, delta.len() as int);
    let st1 = meta_pass(st0, base.sorts, opened, delta)->Ok_0;
    lemma_body_pass_consistent(st0, st1, base.sorts, opened, delta, delta.len() as int);
}

/// The entry of a delta that names the event `e`: its object, and the status it has.
pub open spec fn entry_of(e: EventV) -> (Seq<char>, RawStatus) {
    match e {
        EventV::NodeBorn { id, .. } => (id, RawStatus::Appeared),
        EventV::MetaChanged { id, .. } => (id, RawStatus::Modified),
        EventV::NodeDied { id } => (id, RawStatus::Disappeared),
        EventV::ContentChanged { body } => (body, RawStatus::Modified),
        EventV::BodyArrived { body } => (body, RawStatus::Appeared),
        EventV::BodyGone { body } => (body, RawStatus::Disappeared),
    }
}

/// The event `e` is named by an entry of `d` before `bound`, or by a meta entry.
pub open spec fn named_event(
    bs: Map<Seq<char>, SortV>,
    o: Seq<OpenedMetaV>,
    d: Seq<(Seq<char>, RawStatus)>,
    bound: int,
    meta_only: bool,
    e: EventV,
) -> bool {
    exists|i: int| 0 <= i < d.len() && #[trigger] d[i] == entry_of(e) && (if meta_only {
        i < bound && is_meta_entry(bs, o, d[i].0, d[i].1)
    } else {
        i < bound || is_meta_entry(bs, o, d[i].0, d[i].1)
    })
}

/// No two events of `ev` are named by the same entry.
pub open spec fn distinct_entries(ev: Seq<EventV>) -> bool {
    forall|a: int, b: int| 0 <= a < b < ev.len() ==> entry_of(#[trigger] ev[a]) != entry_of(#[trigger] ev[b])
}

proof fn lemma_meta_pass_events(
    bs: Map<Seq<char>, SortV>,
    bn: Map<Seq<char>, EntryV>,
    o: Seq<OpenedMetaV>,
    d: Seq<(Seq<char>, RawStatus)>,
    k: int,
)
    requires
        consistent(bs, bn),
        distinct_names(d),
        0 <= k <= d.len(),
        meta_pass(ApplyState { sorts: bs, nodes: bn, events: Seq::empty() }, bs, o, d.take(k)) is Ok,
    ensures
        ({
            let ev = meta_pass(ApplyState { sorts: bs, nodes: bn, events: Seq::empty() }, bs, o, d.take(k))->Ok_0.events;
            &&& forall|a: int| 0 <= a < ev.len() ==> #[trigger] named_event(bs, o, d, k, true, ev[a])
            &&& distinct_entries(ev)
        }),
    decreases k,
{
    let st0 = ApplyState { sorts: bs, nodes: bn, events: Seq::empty() };
    if k == 0 {
        assert(d.take(0) =~= Seq::<(Seq<char>, RawStatus)>::empty());
    } else {
        assert(d.take(k).drop_last() =~= d.take(k - 1));
        assert(d.take(k).last() == d[k - 1]);
        lemma_meta_pass_events(bs, bn, o, d, k - 1);
        let prev = meta_pass(st0, bs, o, d.take(k - 1))->Ok_0;
        let (name, status) = d[k - 1];
        let st = meta_pass(st0, bs, o, d.take(k))->Ok_0;
        assert(st == meta_step(prev, bs, o, name, status)->Ok_0);
        if st.events.len() > prev.events.len() {
            let e = st.events.last();
            assert(st.events == prev.events.push(e));
            if bs.contains_key(name) {
                assert(bs[name] == SortV::Meta(name));
            }
            assert(entry_of(e) == d[k - 1]);
            assert(is_meta_entry(bs, o, name, status));
            assert forall|a: int| 0 <= a < st.events.len() implies #[trigger] named_event(bs, o, d, k, true, st.events[a]) by {
                if a < prev.events.len() {
                    assert(st.events[a] == prev.events[a]);
                    assert(named_event(bs, o, d, k - 1, true, prev.events[a]));
                    let i = choose|i: int| 0 <= i < d.len() && #[trigger] d[i] == entry_of(prev.events[a]) && (i < k - 1 && is_meta_entry(bs, o, d[i].0, d[i].1));
                    assert(d[i] == entry_of(st.events[a]));
                } else {
                    assert(d[k - 1] == entry_of(st.events[a]));
                }
            }
            assert forall|a: int, b: int| 0 <= a < b < st.events.len() implies entry_of(#[trigger] st.events[a]) != entry_of(#[trigger] st.events[b]) by {
                assert(st.events[a] == prev.events[a]);
                if b < prev.events.len() {
                    assert(st.events[b] == prev.events[b]);
                } else {
                    assert(named_event(bs, o, d, k - 1, true, prev.events[a]));
                    let i = choose|i: int| 0 <= i < d.len() && #[trigger] d[i] == entry_of(prev.events[a]) && (i < k - 1 && is_meta_entry(bs, o, d[i].0, d[i].1));
                    assert(d[i].0 != d[k - 1].0);
                }
            }
        } else {
            assert(st.events == prev.events);
            assert forall|a: int| 0 <= a < st.events.len() implies #[trigger] named_event(bs, o, d, k, true, st.events[a]) by {
                assert(named_event(bs, o, d, k - 1, true, prev.events[a]));
                let i = choose|i: int| 0 <= i < d.len() && #[trigger] d[i] == entry_of(prev.events[a]) && (i < k - 1 && is_meta_entry(bs, o, d[i].0, d[i].1));
                assert(d[i] == entry_of(st.events[a]));
            }
        }
    }
}

proof fn lemma_body_pass_events(
    bs: Map<Seq<char>, SortV>,
    bn: Map<Seq<char>, EntryV>,
    st1: ApplyState,
    o: Seq<OpenedMetaV>,
    d: Seq<(Seq<char>, RawStatus)>,
    k: int,
)
    requires
        consistent(bs, bn),
        distinct_names(d),
        0 <= k <= d.len(),
        forall|a: int| 0 <= a < st1.events.len() ==> #[trigger] named_event(bs, o, d, d.len() as int, true, st1.events[a]),
        distinct_entries(st1.events),
        body_pass(st1, bs, o, d.take(k)) is Ok,
    ensures
        ({
            let ev = body_pass(st1, bs, o, d.take(k))->Ok_0.events;
            &&& forall|a: int| 0 <= a < ev.len() ==> #[trigger] named_event(bs, o, d, k, false, ev[a])
            &&& distinct_entries(ev)
        }),
    decreases k,
{
    if k == 0 {
        assert(d.take(0) =~= Seq::<(Seq<char>, RawStatus)>::empty());
        assert(body_pass(st1, bs, o, d.take(0))->Ok_0 == st1);
        assert forall|a: int| 0 <= a < st1.events.len() implies #[trigger] named_event(bs, o, d, 0, false, st1.events[a]) by {
            assert(named_event(bs, o, d, d.len() as int, true, st1.events[a]));
            let i = choose|i: int| 0 <= i < d.len() && #[trigger] d[i] == entry_of(st1.events[a]) && (i < d.len() && is_meta_entry(bs, o, d[i].0, d[i].1));
        }
    } else {
        assert(d.take(k).drop_last() =~= d.take(k - 1));
        assert(d.take(k).last() == d[k - 1]);
        lemma_body_pass_events(bs, bn, st1, o, d, k - 1);
        let prev = body_pass(st1, bs, o, d.take(k - 1))->Ok_0;
        let (name, status) = d[k - 1];
        let st = body_pass(st1, bs, o, d.take(k))->Ok_0;
        assert(st == body_step(prev, bs, o, name, status)->Ok_0);
        assert forall|a: int| 0 <= a < prev.events.len() implies #[trigger] named_event(bs, o, d, k, false, prev.events[a]) by {
            assert(named_event(bs, o, d, k - 1, false, prev.events[a]));
            let i = choose|i: int| 0 <= i < d.len() && #[trigger] d[i] == entry_of(prev.events[a]) && (i < k - 1 || is_meta_entry(bs, o, d[i].0, d[i].1));
        }
        if st.events.len() > prev.events.len() {
            let e = st.events.last();
            assert(st.events == prev.events.push(e));
            assert(!is_meta_entry(bs, o, name, status));
            if bs.contains_key(name) {
                assert(bs[name] is Body);
                assert(bs[name] == SortV::Body(name));
            }
            assert(entry_of(e) == d[k - 1]);
            assert forall|a: int| 0 <= a < st.events.len() implies #[trigger] named_event(bs, o, d, k, false, st.events[a]) by {
                if a < prev.events.len() {
                    assert(st.events[a] == prev.events[a]);
                } else {
                    assert(d[k - 1] == entry_of(st.events[a]));
                }
            }
            assert forall|a: int, b: int| 0 <= a < b < st.events.len() implies entry_of(#[trigger] st.events[a]) != entry_of(#[trigger] st.events[b]) by {
                assert(st.events[a] == prev.events[a]);
                if b < prev.events.len() {
                    assert(st.events[b] == prev.events[b]);
                } else {
                    assert(named_event(bs, o, d, k - 1, false, prev.events[a]));
                    let i = choose|i: int| 0 <= i < d.len() && #[trigger] d[i] == entry_of(prev.events[a]) && (i < k - 1 || is_meta_entry(bs, o, d[i].0, d[i].1));
                    if i == k - 1 {
                        assert(is_meta_entry(bs, o, d[i].0, d[i].1));
                    }
                    assert(d[i].0 != d[k - 1].0);
                }
            }
        } else {
            assert(st.events == prev.events);
        }
    }
}

/// Every event is named by an entry of the delta, of its own kind: a birth by an
/// appeared meta, a meta change by a modified meta, a death by a disappeared meta, a
/// content change by a modified body, an arrival by an appeared body and a body gone by a
/// disappeared one. No entry names two events, so there are no more events than entries.
pub proof fn law_every_event_is_named_by_the_delta(
    base: TableV,
    opened: Seq<OpenedMetaV>,
    delta: Seq<(Seq<char>, RawStatus)>,
)
    requires
        consistent(base.sorts, base.nodes),
        apply_spec(base, opened, delta) is Ok,
    ensures
        ({
            let ev = apply_spec(base, opened, delta)->Ok_0.events;
            &&& forall|a: int| 0 <= a < ev.len() ==> delta.contains(entry_of(#[trigger] ev[a]))
            &&& forall|a: int, b: int| 0 <= a < b < ev.len() ==> entry_of(#[trigger] ev[a]) != entry_of(#[trigger] ev[b])
            &&& ev.len() <= delta.len()
        }),
{
    lemma_no_repeat_distinct(delta);
    let bs = base.sorts;
    let bn = base.nodes;
    let st0 = ApplyState { sorts: bs, nodes: bn, events: Seq::empty() };
    assert(delta.take(delta.len() as int) =~= delta);
    lemma_meta_pass_events(bs, bn, opened, delta, delta.len() as int);
    let st1 = meta_pass(st0, bs, opened, delta)->Ok_0;
    lemma_body_pass_events(bs, bn, st1, opened, delta, delta.len() as int);
    let ev = apply_spec(base, opened, delta)->Ok_0.events;
    assert forall|a: int| 0 <= a < ev.len() implies delta.contains(entry_of(#[trigger] ev[a])) by {
        assert(named_event(bs, opened, delta, delta.len() as int, false, ev[a]));
        let i = choose|i: int| 0 <= i < delta.len() && #[trigger] delta[i] == entry_of(ev[a]) && (i < delta.len() || is_meta_entry(bs, opened, delta[i].0, delta[i].1));
    }
    let names = ev.map_values(|e: EventV| entry_of(e));
    assert(names.no_duplicates()) by {
        assert forall|a: int, b: int| 0 <= a < names.len() && 0 <= b < names.len() && a != b implies names[a] != names[b] by {
            if a < b {
                assert(entry_of(ev[a]) != entry_of(ev[b]));
            } else {
                assert(entry_of(ev[b]) != entry_of(ev[a]));
            }
        }
    }
    names.unique_seq_to_set();
    vstd::seq_lib::seq_to_set_is_finite(delta);
    assert(names.to_set().subset_of(delta.to_set())) by {
        assert forall|x: (Seq<char>, RawStatus)| names.to_set().contains(x) implies delta.to_set().contains(x) by {
            let a = names.index_of(x);
            assert(delta.contains(entry_of(ev[a])));
        }
    }
    vstd::set_lib::lemma_len_subset(names.to_set(), delta.to_set());
    delta.lemma_cardinality_of_set();
}

/// Validation keeps the table's sorts and nodes in agreement: a parent it brings back is
/// known as a meta under its own name, and otherwise it changes places only.
pub proof fn law_validate_keeps_table_consistent(
    t: TableV,
    events: Seq<EventV>,
    metas: Seq<OpenedMetaV>,
    keys: Seq<Seq<char>>,
)
    requires
        consistent(t.sorts, t.nodes),
        validate_spec(t, events, metas) is Ok,
        ordered_nodes(validate_spec(t, events, metas)->Ok_0.nodes, keys),
    ensures
        consistent(validate_spec(t, events, metas)->Ok_0.sorts, validate_spec(t, events, metas)->Ok_0.nodes),
{
    lemma_validated(t, events, metas, keys);
    law_validation_changes_only_places_of_losers(t, events, metas, keys);
    let b = brought(t, metas)->Ok_0;
    if t.mark is Some {
        lemma_bring_back(t.sorts, t.nodes, t.mark->0, metas);
    }
    let n = keys.len();
    let c = break_cycles(b.nodes, key_places(b.nodes, keys), keys, n);
    lemma_break_cycles(b.nodes, key_places(b.nodes, keys), keys, n);
    lemma_settle_keeps_parents(c.nodes, key_places(c.nodes, keys), keys);
    let o = validate_spec(t, events, metas)->Ok_0;
    assert forall|k: Seq<char>| #[trigger] o.nodes.contains_key(k) implies o.sorts.contains_key(k) && o.sorts[k] == SortV::Meta(k) by {
        assert(b.nodes.contains_key(k));
        if t.nodes.contains_key(k) {
            assert(t.sorts.contains_key(k));
        }
    }
    assert forall|k: Seq<char>| #[trigger] o.sorts.contains_key(k) implies match o.sorts[k] {
        SortV::Meta(id) => id == k && o.nodes.contains_key(k),
        SortV::Body(x) => x == k,
        SortV::Chaff => true,
    } by {
        if b.nodes.contains_key(k) && !t.nodes.contains_key(k) {
        } else {
            assert(t.sorts.contains_key(k));
            if t.sorts[k] is Meta {
                assert(t.nodes.contains_key(k));
                assert(b.nodes.contains_key(k));
            }
        }
    }
}

/// The same graph validates to the same result on every device: validation depends on
/// what the table holds (its sorts, its nodes and its mark), not on how it was built or
/// how it lists its children, so equal inputs give identical sorts, nodes and resolutions,
/// in the same order, and the nodes are listed in the same order.
pub proof fn law_validation_is_deterministic(
    t1: TableV,
    t2: TableV,
    events: Seq<EventV>,
    metas: Seq<OpenedMetaV>,
    keys1: Seq<Seq<char>>,
    keys2: Seq<Seq<char>>,
)
    requires
        t1.sorts == t2.sorts,
        t1.nodes == t2.nodes,
        t1.mark == t2.mark,
        validate_spec(t1, events, metas) is Ok,
        ordered_nodes(validate_spec(t1, events, metas)->Ok_0.nodes, keys1),
        ordered_nodes(validate_spec(t2, events, metas)->Ok_0.nodes, keys2),
    ensures
        validate_spec(t1, events, metas) == validate_spec(t2, events, metas),
        keys1 == keys2,
{
    assert(brought(t1, metas) == brought(t2, metas));
    law_key_order_is_canonical(keys1, keys2);
}

/// The path of `x` names its ancestors, outermost first: read from its end, its `i`-th
/// name is the name of the `i`-th ancestor of `x`, a node of the graph, for every `i`
/// up to its length; so when the walk up from `x` reaches the top, no ancestor is left
/// out and none is named twice or out of order.
pub proof fn law_path_names_the_ancestors(nodes: Map<Seq<char>, EntryV>, x: Seq<char>, f: nat)
    requires
        reaches_top(nodes, x, f),
    ensures
        ({
            let path = path_of(nodes, x, f);
            forall|i: int| #![trigger path[path.len() - 1 - i]] #![trigger ancestor(nodes, x, i as nat)] 0 <= i < path.len() ==> {
                &&& nodes.contains_key(ancestor(nodes, x, i as nat))
                &&& path[path.len() - 1 - i] == nodes[ancestor(nodes, x, i as nat)].meta.place.name
            }
        }),
    decreases f,
{
    let c = chain(nodes, x, f);
    match nodes[x].meta.place.parent {
        None => {
            assert(c =~= seq![nodes[x].meta.place.name]);
            assert(c.reverse()[0] == nodes[x].meta.place.name);
            assert(ancestor(nodes, x, 0) == x);
            let path = path_of(nodes, x, f);
            assert forall|i: int| #![trigger path[path.len() - 1 - i]] #![trigger ancestor(nodes, x, i as nat)] 0 <= i < path.len() implies {
                &&& nodes.contains_key(ancestor(nodes, x, i as nat))
                &&& path[path.len() - 1 - i] == nodes[ancestor(nodes, x, i as nat)].meta.place.name
            } by {
                assert(i == 0);
            }
        },
        Some(p) => {
            if !nodes.contains_key(p) {
                assert(chain(nodes, p, (f - 1) as nat) =~= Seq::<Seq<char>>::empty());
                assert(c =~= seq![nodes[x].meta.place.name]);
                assert(c.reverse()[0] == nodes[x].meta.place.name);
                assert(ancestor(nodes, x, 0) == x);
            let path = path_of(nodes, x, f);
            assert forall|i: int| #![trigger path[path.len() - 1 - i]] #![trigger ancestor(nodes, x, i as nat)] 0 <= i < path.len() implies {
                &&& nodes.contains_key(ancestor(nodes, x, i as nat))
                &&& path[path.len() - 1 - i] == nodes[ancestor(nodes, x, i as nat)].meta.place.name
            } by {
                assert(i == 0);
            }
            } else {
                law_path_names_the_ancestors(nodes, p, (f - 1) as nat);
                let c1 = chain(nodes, p, (f - 1) as nat);
                assert(c == seq![nodes[x].meta.place.name] + c1);
                assert(up(nodes, x) == Some(p));
                let path = path_of(nodes, x, f);
                assert forall|i: int| #![trigger path[path.len() - 1 - i]] #![trigger ancestor(nodes, x, i as nat)] 0 <= i < path.len() implies {
                    &&& nodes.contains_key(ancestor(nodes, x, i as nat))
                    &&& path[path.len() - 1 - i] == nodes[ancestor(nodes, x, i as nat)].meta.place.name
                } by {
                    assert(path[path.len() - 1 - i] == c[i]);
                    if i > 0 {
                        let j = i - 1;
                        let p1 = path_of(nodes, p, (f - 1) as nat);
                        assert(p1[p1.len() - 1 - j] == nodes[ancestor(nodes, p, j as nat)].meta.place.name);
                        assert(ancestor(nodes, x, i as nat) == ancestor(nodes, p, j as nat));
                        assert(c[i] == c1[j]);
                        assert(p1[p1.len() - 1 - j] == c1[j]);
                    }
                }
            }
        },
    }
}

/// When the walk up from `x` reaches the top, the path of `x` is whole: it ends with the
/// name of `x`, and it starts with the name of an ancestor that sits at the root or under
/// a parent that is not in the graph.
pub proof fn law_path_is_complete(nodes: Map<Seq<char>, EntryV>, x: Seq<char>, f: nat)
    requires
        reaches_top(nodes, x, f),
    ensures
        ({
            let path = path_of(nodes, x, f);
            let top = ancestor(nodes, x, (path.len() - 1) as nat);
            &&& path.len() > 0
            &&& path.last() == nodes[x].meta.place.name
            &&& nodes.contains_key(top)
            &&& path[0] == nodes[top].meta.place.name
            &&& (nodes[top].meta.place.parent is None || !nodes.contains_key(
                nodes[top].meta.place.parent->0,
            ))
        }),
    decreases f,
{
    let c = chain(nodes, x, f);
    match nodes[x].meta.place.parent {
        None => {
            assert(c =~= seq![nodes[x].meta.place.name]);
        },
        Some(p) => {
            if !nodes.contains_key(p) {
                assert(chain(nodes, p, (f - 1) as nat) =~= Seq::<Seq<char>>::empty());
                assert(c =~= seq![nodes[x].meta.place.name]);
            } else {
                law_path_is_complete(nodes, p, (f - 1) as nat);
                let c1 = chain(nodes, p, (f - 1) as nat);
                assert(c == seq![nodes[x].meta.place.name] + c1);
                assert(up(nodes, x) == Some(p));
                assert(ancestor(nodes, x, (c.len() - 1) as nat) == ancestor(nodes, p, (c1.len() - 1) as nat));
                assert(c1.reverse()[0] == c1.last());
                assert(c.reverse()[0] == c.last());
                assert(c.last() == c1.last());
            }
        },
    }
    assert(c.reverse().last() == c[0]);
}

/// The number of steps walking up from `x`, through at most `fuel` nodes of the graph,
/// until the node `d` is met (none when it is not met).
pub open spec fn steps_to(nodes: Map<Seq<char>, EntryV>, x: Seq<char>, d: Seq<char>, fuel: nat) -> Option<nat>
    decreases fuel,
{
    if fuel == 0 || !nodes.contains_key(x) {
        None
    } else if x == d {
        Some(0)
    } else {
        match nodes[x].meta.place.parent {
            None => None,
            Some(p) => match steps_to(nodes, p, d, (fuel - 1) as nat) {
                Some(j) => Some(j + 1),
                None => None,
            },
        }
    }
}

/// Moving or renaming one node `d` changes only the paths that pass through it. `a` is the
/// graph before and `b` after: they hold the same nodes and differ at most in the entry of
/// `d`. Walking up from any node `x` meets `d` at the same step in both. When it does not,
/// the names met on the way (the path of `x`, read from `x` up) are the same. When it
/// meets `d` after `j` steps, the first `j` names are the same, and the rest is the walk up
/// from `d` in each graph: the moved node's new path takes the place of its old one.
pub proof fn law_move_changes_only_paths_through_it(
    a: Map<Seq<char>, EntryV>,
    b: Map<Seq<char>, EntryV>,
    d: Seq<char>,
    x: Seq<char>,
    fuel: nat,
)
    requires
        a.contains_key(d),
        b.contains_key(d),
        forall|k: Seq<char>| k != d ==> #[trigger] a.contains_key(k) == b.contains_key(k),
        forall|k: Seq<char>| k != d && #[trigger] a.contains_key(k) ==> a[k] == b[k],
    ensures
        steps_to(b, x, d, fuel) == steps_to(a, x, d, fuel),
        match steps_to(a, x, d, fuel) {
            None => chain(b, x, fuel) == chain(a, x, fuel),
            Some(j) => {
                &&& j <= chain(a, x, fuel).len()
                &&& chain(a, x, fuel) == chain(a, x, fuel).take(j as int) + chain(a, d, (fuel - j) as nat)
                &&& chain(b, x, fuel) == chain(a, x, fuel).take(j as int) + chain(b, d, (fuel - j) as nat)
            },
        },
    decreases fuel,
{
    if fuel == 0 {
    } else if !a.contains_key(x) {
        assert(!b.contains_key(x));
    } else if x == d {
        assert(chain(a, x, fuel).take(0) + chain(a, d, fuel) =~= chain(a, x, fuel));
        assert(chain(a, x, fuel).take(0) + chain(b, d, fuel) =~= chain(b, x, fuel));
    } else {
        assert(a[x] == b[x]);
        let nm = a[x].meta.place.name;
        match a[x].meta.place.parent {
            None => {},
            Some(p) => {
                law_move_changes_only_paths_through_it(a, b, d, p, (fuel - 1) as nat);
                let ca = chain(a, p, (fuel - 1) as nat);
                assert(chain(a, x, fuel) == seq![nm] + ca);
                assert(chain(b, x, fuel) == seq![nm] + chain(b, p, (fuel - 1) as nat));
                match steps_to(a, p, d, (fuel - 1) as nat) {
                    None => {},
                    Some(j1) => {
                        let j = j1 + 1;
                        assert(chain(a, x, fuel).take(j as int) =~= seq![nm] + ca.take(j1 as int));
                        assert((fuel - j) as nat == ((fuel - 1) as nat - j1) as nat);
                        assert(chain(a, x, fuel) =~= chain(a, x, fuel).take(j as int) + chain(a, d, (fuel - j) as nat));
                        assert(chain(b, x, fuel) =~= chain(a, x, fuel).take(j as int) + chain(b, d, (fuel - j) as nat));
                    },
                }
            },
        }
    }
}

/// The nodes of a table, with their order: what every law above asks of its input.
pub proof fn lemma_table_nodes_ordered(t: &crate::table::Table)
    requires
        t.nodes.is_sorted(),
    ensures
        ordered_nodes(t@.nodes, t.nodes.keys()),
{
    t.nodes.lemma_view_dom();
}

/// Applying a delta again, to the same table with the mark not moved, gives the same
/// state: the same sorts, nodes and events, the nodes in the same order, and so the same
/// reverse index.
pub proof fn law_apply_is_repeatable(
    base1: TableV,
    base2: TableV,
    opened: Seq<OpenedMetaV>,
    delta: Seq<(Seq<char>, RawStatus)>,
    keys1: Seq<Seq<char>>,
    keys2: Seq<Seq<char>>,
)
    requires
        base1 == base2,
        apply_spec(base1, opened, delta) is Ok,
        ordered_nodes(apply_spec(base1, opened, delta)->Ok_0.nodes, keys1),
        ordered_nodes(apply_spec(base2, opened, delta)->Ok_0.nodes, keys2),
    ensures
        apply_spec(base1, opened, delta) == apply_spec(base2, opened, delta),
        keys1 == keys2,
        index_children(keys1, apply_spec(base1, opened, delta)->Ok_0.nodes) == index_children(
            keys2,
            apply_spec(base2, opened, delta)->Ok_0.nodes,
        ),
{
    law_key_order_is_canonical(keys1, keys2);
}

/// The loser of a broken cycle is the least node on any cycle when its turn comes, so the
/// least member of its own cycle: no node before it in the order still lies on a cycle.
pub proof fn law_cycle_loser_is_least(nodes: Map<Seq<char>, EntryV>, keys: Seq<Seq<char>>, i: int)
    requires
        ordered_nodes(nodes, keys),
        0 <= i < keys.len(),
        on_cycle(break_cycles(nodes, key_places(nodes, keys), keys.take(i), keys.len()).nodes, keys[i], keys.len()),
    ensures
        forall|m: Seq<char>|
            #[trigger] break_cycles(nodes, key_places(nodes, keys), keys.take(i), keys.len()).nodes.contains_key(m) && on_cycle(
                break_cycles(nodes, key_places(nodes, keys), keys.take(i), keys.len()).nodes,
                m,
                keys.len(),
            ) ==> !seq_lt(m, keys[i]),
{
    let n = keys.len();
    let prev = break_cycles(nodes, key_places(nodes, keys), keys.take(i), n);
    lemma_break_cycles(nodes, key_places(nodes, keys), keys.take(i), n);
    assert forall|m: Seq<char>|
        #[trigger] prev.nodes.contains_key(m) && on_cycle(prev.nodes, m, n) implies !seq_lt(m, keys[i]) by {
        assert(keys.contains(m));
        let j = keys.index_of(m);
        if j < i {
            assert(keys.take(i)[j] == m);
        } else if j > i {
            assert(seq_lt(keys[i], keys[j]));
            lemma_seq_lt_asymmetric(keys[i], m);
        } else {
            lemma_seq_lt_irreflexive(m);
        }
    }
}

} // verus!
