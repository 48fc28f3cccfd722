//! The repository behind the table: the objects of its scatter at a revision, what a
//! delta between two revisions holds, and why the incremental delta and a full pass
//! reach the same table.
use vstd::prelude::*;

use crate::delta::{
    apply_spec, body_pass, body_step, changed_entry, check_meta, find_opened, first_repeated,
    first_unpaired, is_body_object, is_meta_entry, meta_pass, meta_step, references, repeated_at,
    unpaired, ApplyState, OpenedMetaV, RawStatus,
};
use crate::full_pass::{bodies_paired, full_delta, law_full_pass_rebuilds_the_table, no_chaff, opened_of, opens_as, readable};
use crate::laws::consistent;
use crate::meta::{is_legal_name, MetaV, PlaceV, CURRENT_SCHEMA_NUMBER};
use crate::replay::same_at;
use crate::table::{EntryV, SortV, TableV};

verus! {

/// An object of the scatter as the owner of the key reads it: a meta, opened, or a body,
/// known by a number of its content.
pub enum StoredV {
    Meta(OpenedMetaV),
    Body(nat),
}

/// The meta that an opened meta holds.
pub open spec fn meta_of(om: OpenedMetaV) -> MetaV {
    MetaV { schema: om.schema, place: PlaceV { parent: om.parent, name: om.name }, body: om.body }
}

/// The sorts of the table that the scatter `s` gives.
pub open spec fn state_sorts(s: Map<Seq<char>, StoredV>) -> Map<Seq<char>, SortV> {
    Map::new(
        |x: Seq<char>| s.contains_key(x),
        |x: Seq<char>| if s[x] is Meta {
            SortV::Meta(x)
        } else {
            SortV::Body(x)
        },
    )
}

/// The nodes of the table that the scatter `s` gives, no plaintext hash known.
pub open spec fn state_nodes(s: Map<Seq<char>, StoredV>) -> Map<Seq<char>, EntryV> {
    Map::new(
        |x: Seq<char>| s.contains_key(x) && s[x] is Meta,
        |x: Seq<char>| EntryV { meta: meta_of(s[x]->Meta_0), hash: None },
    )
}

/// A scatter as the library writes it: each meta is stored under its own name, reads
/// back, and names a body stored as a body; each body is the body of some meta.
pub open spec fn whole_state(s: Map<Seq<char>, StoredV>) -> bool {
    &&& forall|x: Seq<char>| #[trigger] s.contains_key(x) && s[x] is Meta ==> {
        let om = s[x]->Meta_0;
        &&& om.object == x
        &&& om.schema <= CURRENT_SCHEMA_NUMBER
        &&& is_legal_name(om.name)
        &&& (om.body is Some ==> s.contains_key(om.body->0) && s[om.body->0] is Body)
    }
    &&& forall|b: Seq<char>| #[trigger] s.contains_key(b) && s[b] is Body ==> exists|x: Seq<char>|
        #[trigger] s.contains_key(x) && s[x] is Meta && s[x]->Meta_0.body == Some(b)
}

/// From revision `s0` to revision `s1` an object keeps its kind, a meta keeps its body
/// link, and a body stays with its meta: a meta dies with its body, and a meta is born
/// with a body of its own.
pub open spec fn step_ok(s0: Map<Seq<char>, StoredV>, s1: Map<Seq<char>, StoredV>) -> bool {
    &&& forall|x: Seq<char>| #[trigger] s0.contains_key(x) && s1.contains_key(x) ==> {
        &&& (s0[x] is Meta) == (s1[x] is Meta)
        &&& (s0[x] is Meta ==> s0[x]->Meta_0.body == s1[x]->Meta_0.body)
    }
    &&& forall|x: Seq<char>|
        #[trigger] s0.contains_key(x) && s0[x] is Meta && s0[x]->Meta_0.body is Some && s1.contains_key(
            s0[x]->Meta_0.body->0,
        ) ==> s1.contains_key(x)
    &&& forall|x: Seq<char>|
        #[trigger] s1.contains_key(x) && s1[x] is Meta && s1[x]->Meta_0.body is Some && s0.contains_key(
            s1[x]->Meta_0.body->0,
        ) ==> s0.contains_key(x)
}

/// `opened` opens exactly the metas of `s`, as they are.
pub open spec fn opens_state(opened: Seq<OpenedMetaV>, s: Map<Seq<char>, StoredV>) -> bool {
    forall|x: Seq<char>| #[trigger] find_opened(opened, x) == if s.contains_key(x) && s[x] is Meta {
        Some(s[x]->Meta_0)
    } else {
        None
    }
}

/// What the raw delta from `s0` to `s1` says of the object `x`.
pub open spec fn change_of(s0: Map<Seq<char>, StoredV>, s1: Map<Seq<char>, StoredV>, x: Seq<char>) -> Option<RawStatus> {
    if s0.contains_key(x) && s1.contains_key(x) {
        if s0[x] == s1[x] {
            None
        } else {
            Some(RawStatus::Modified)
        }
    } else if s1.contains_key(x) {
        Some(RawStatus::Appeared)
    } else if s0.contains_key(x) {
        Some(RawStatus::Disappeared)
    } else {
        None
    }
}

/// `d` is the raw delta from `s0` to `s1`: each changed object once, with its change.
pub open spec fn is_diff(s0: Map<Seq<char>, StoredV>, s1: Map<Seq<char>, StoredV>, d: Seq<(Seq<char>, RawStatus)>) -> bool {
    &&& forall|i: int, j: int| 0 <= i < d.len() && 0 <= j < d.len() && i != j ==> d[i].0 != d[j].0
    &&& forall|i: int| 0 <= i < d.len() ==> change_of(s0, s1, #[trigger] d[i].0) == Some(d[i].1)
    &&& forall|x: Seq<char>| #[trigger] change_of(s0, s1, x) is Some ==> exists|i: int| 0 <= i < d.len() && #[trigger] d[i].0 == x
}

/// `x` is a meta in one of the two revisions.
pub open spec fn meta_name(s0: Map<Seq<char>, StoredV>, s1: Map<Seq<char>, StoredV>, x: Seq<char>) -> bool {
    (s0.contains_key(x) && s0[x] is Meta) || (s1.contains_key(x) && s1[x] is Meta)
}

/// Some entry of `d` before `k` names `x`.
pub open spec fn before(d: Seq<(Seq<char>, RawStatus)>, k: int, x: Seq<char>) -> bool {
    exists|i: int| 0 <= i < k && #[trigger] d[i].0 == x
}

/// What the metas pass has left at `x` after the first `k` entries.
pub open spec fn meta_point(
    st: ApplyState,
    s0: Map<Seq<char>, StoredV>,
    s1: Map<Seq<char>, StoredV>,
    d: Seq<(Seq<char>, RawStatus)>,
    k: int,
    x: Seq<char>,
) -> bool {
    if before(d, k, x) && meta_name(s0, s1, x) {
        same_at(st.sorts, state_sorts(s1), x) && same_at(st.nodes, state_nodes(s1), x)
    } else {
        same_at(st.sorts, state_sorts(s0), x) && same_at(st.nodes, state_nodes(s0), x)
    }
}

/// What the bodies pass has left at `x` after the first `k` entries.
pub open spec fn body_point(
    st: ApplyState,
    s0: Map<Seq<char>, StoredV>,
    s1: Map<Seq<char>, StoredV>,
    d: Seq<(Seq<char>, RawStatus)>,
    k: int,
    x: Seq<char>,
) -> bool {
    if meta_name(s0, s1, x) || before(d, k, x) {
        same_at(st.sorts, state_sorts(s1), x)
    } else {
        same_at(st.sorts, state_sorts(s0), x)
    }
}

proof fn lemma_diff_checks(
    s0: Map<Seq<char>, StoredV>,
    s1: Map<Seq<char>, StoredV>,
    base: TableV,
    o: Seq<OpenedMetaV>,
    d: Seq<(Seq<char>, RawStatus)>,
    e: Seq<(Seq<char>, RawStatus)>,
)
    requires
        whole_state(s0),
        whole_state(s1),
        step_ok(s0, s1),
        opens_state(o, s1),
        base.sorts == state_sorts(s0),
        base.nodes == state_nodes(s0),
        is_diff(s0, s1, d),
        forall|i: int| 0 <= i < e.len() ==> change_of(s0, s1, #[trigger] e[i].0) == Some(e[i].1),
    ensures
        first_unpaired(base, o, d, e) is None,
    decreases e.len(),
{
    if e.len() > 0 {
        let f = e.drop_last();
        assert forall|i: int| 0 <= i < f.len() implies change_of(s0, s1, #[trigger] f[i].0) == Some(f[i].1) by {
            assert(f[i] == e[i]);
        }
        lemma_diff_checks(s0, s1, base, o, d, f);
        let (x, st) = e.last();
        assert(change_of(s0, s1, e[e.len() - 1].0) == Some(e[e.len() - 1].1));
        if base.sorts.contains_key(x) {
            if base.sorts[x] is Meta && st == RawStatus::Disappeared && s0[x]->Meta_0.body is Some {
                let b = s0[x]->Meta_0.body->0;
                assert(s0.contains_key(b));
                assert(!s1.contains_key(b));
                assert(change_of(s0, s1, b) == Some(RawStatus::Disappeared));
                let i = choose|i: int| 0 <= i < d.len() && #[trigger] d[i].0 == b;
                assert(d[i] == (b, RawStatus::Disappeared));
                assert(d.contains((b, RawStatus::Disappeared)));
            }
        } else if st == RawStatus::Appeared && s1[x] is Meta && s1[x]->Meta_0.body is Some {
            let b = s1[x]->Meta_0.body->0;
            assert(s1.contains_key(b));
            assert(!s0.contains_key(b));
            assert(change_of(s0, s1, b) == Some(RawStatus::Appeared));
            let i = choose|i: int| 0 <= i < d.len() && #[trigger] d[i].0 == b;
            assert(d[i] == (b, RawStatus::Appeared));
            assert(d.contains((b, RawStatus::Appeared)));
            assert(find_opened(o, b) is None);
            assert(is_body_object(base, o, b));
        }
        assert(!unpaired(base, o, d, x, st));
    }
}

proof fn lemma_diff_meta_pass(
    s0: Map<Seq<char>, StoredV>,
    s1: Map<Seq<char>, StoredV>,
    o: Seq<OpenedMetaV>,
    d: Seq<(Seq<char>, RawStatus)>,
    k: int,
)
    requires
        whole_state(s0),
        whole_state(s1),
        step_ok(s0, s1),
        opens_state(o, s1),
        is_diff(s0, s1, d),
        0 <= k <= d.len(),
    ensures
        ({
            let r = meta_pass(
                ApplyState { sorts: state_sorts(s0), nodes: state_nodes(s0), events: Seq::empty() },
                state_sorts(s0),
                o,
                d.take(k),
            );
            &&& r is Ok
            &&& forall|x: Seq<char>| #[trigger] meta_point(r->Ok_0, s0, s1, d, k, x)
        }),
    decreases k,
{
    let t0s = state_sorts(s0);
    let t0n = state_nodes(s0);
    let st0 = ApplyState { sorts: t0s, nodes: t0n, events: Seq::empty() };
    if k == 0 {
        assert(d.take(0) =~= Seq::<(Seq<char>, RawStatus)>::empty());
        assert forall|x: Seq<char>| #[trigger] meta_point(st0, s0, s1, d, 0, x) by {}
    } else {
        assert(d.take(k).drop_last() =~= d.take(k - 1));
        assert(d.take(k).last() == d[k - 1]);
        lemma_diff_meta_pass(s0, s1, o, d, k - 1);
        let prev = meta_pass(st0, t0s, o, d.take(k - 1))->Ok_0;
        let (x, status) = d[k - 1];
        assert(change_of(s0, s1, d[k - 1].0) == Some(d[k - 1].1));
        assert(meta_point(prev, s0, s1, d, k - 1, x));
        assert(!before(d, k - 1, x));
        let r = meta_step(prev, t0s, o, x, status);
        assert(meta_pass(st0, t0s, o, d.take(k)) == r);
        if t0s.contains_key(x) && s0[x] is Meta && status == RawStatus::Modified {
            let om = s1[x]->Meta_0;
            assert(find_opened(o, x) == Some(om));
            assert(check_meta(x, om) == Ok::<MetaV, crate::delta::ErrV>(meta_of(om)));
            assert(changed_entry(prev.nodes, x, meta_of(om)) == state_nodes(s1)[x]);
        } else if !t0s.contains_key(x) && status == RawStatus::Appeared && s1[x] is Meta {
            let om = s1[x]->Meta_0;
            assert(find_opened(o, x) == Some(om));
            assert(check_meta(x, om) == Ok::<MetaV, crate::delta::ErrV>(meta_of(om)));
        } else if !t0s.contains_key(x) && status == RawStatus::Appeared {
            assert(find_opened(o, x) is None);
        }
        let cur = r->Ok_0;
        assert forall|y: Seq<char>| #[trigger] meta_point(cur, s0, s1, d, k, y) by {
            if y != x {
                assert(meta_point(prev, s0, s1, d, k - 1, y));
                assert(before(d, k, y) == before(d, k - 1, y)) by {
                    if before(d, k, y) {
                        let i = choose|i: int| 0 <= i < k && #[trigger] d[i].0 == y;
                        assert(i != k - 1);
                    }
                }
            } else {
                assert(d[k - 1].0 == y);
                assert(before(d, k, y));
            }
        }
    }
}

proof fn lemma_diff_body_pass(
    s0: Map<Seq<char>, StoredV>,
    s1: Map<Seq<char>, StoredV>,
    o: Seq<OpenedMetaV>,
    d: Seq<(Seq<char>, RawStatus)>,
    st1: ApplyState,
    k: int,
)
    requires
        whole_state(s0),
        whole_state(s1),
        step_ok(s0, s1),
        opens_state(o, s1),
        is_diff(s0, s1, d),
        st1.nodes == state_nodes(s1),
        forall|x: Seq<char>| #[trigger] body_point(st1, s0, s1, d, 0, x),
        0 <= k <= d.len(),
    ensures
        ({
            let r = body_pass(st1, state_sorts(s0), o, d.take(k));
            &&& r is Ok
            &&& r->Ok_0.nodes == state_nodes(s1)
            &&& forall|x: Seq<char>| #[trigger] body_point(r->Ok_0, s0, s1, d, k, x)
        }),
    decreases k,
{
    let t0s = state_sorts(s0);
    if k == 0 {
        assert(d.take(0) =~= Seq::<(Seq<char>, RawStatus)>::empty());
    } else {
        assert(d.take(k).drop_last() =~= d.take(k - 1));
        assert(d.take(k).last() == d[k - 1]);
        lemma_diff_body_pass(s0, s1, o, d, st1, k - 1);
        let prev = body_pass(st1, t0s, o, d.take(k - 1))->Ok_0;
        let (x, status) = d[k - 1];
        assert(change_of(s0, s1, d[k - 1].0) == Some(d[k - 1].1));
        assert(body_point(prev, s0, s1, d, k - 1, x));
        assert(!before(d, k - 1, x));
        let r = body_step(prev, t0s, o, x, status);
        assert(body_pass(st1, t0s, o, d.take(k)) == r);
        if !meta_name(s0, s1, x) {
            assert(find_opened(o, x) is None);
            assert(!is_meta_entry(t0s, o, x, status));
            if s1.contains_key(x) {
                assert(s1[x] is Body);
                let m = choose|m: Seq<char>| #[trigger] s1.contains_key(m) && s1[m] is Meta && s1[m]->Meta_0.body == Some(x);
                assert(state_nodes(s1).contains_key(m));
                assert(references(prev.nodes, x));
            } else {
                assert(s0.contains_key(x));
                assert(!references(prev.nodes, x)) by {
                    if references(prev.nodes, x) {
                        let m = choose|m: Seq<char>| #[trigger] prev.nodes.contains_key(m) && prev.nodes[m].meta.body == Some(x);
                        assert(s1.contains_key(m) && s1[m] is Meta);
                    }
                }
            }
        } else {
            if s0.contains_key(x) {
                assert(t0s[x] is Meta);
            } else {
                assert(s1[x] is Meta);
                assert(find_opened(o, x) is Some);
            }
            assert(is_meta_entry(t0s, o, x, status));
        }
        let cur = r->Ok_0;
        assert forall|y: Seq<char>| #[trigger] body_point(cur, s0, s1, d, k, y) by {
            if y != x {
                assert(body_point(prev, s0, s1, d, k - 1, y));
                assert(before(d, k, y) == before(d, k - 1, y)) by {
                    if before(d, k, y) {
                        let i = choose|i: int| 0 <= i < k && #[trigger] d[i].0 == y;
                        assert(i != k - 1);
                    }
                }
            } else {
                assert(d[k - 1].0 == y);
                assert(before(d, k, y));
            }
        }
    }
}

/// The incremental delta and a full pass agree. Let `s0` and `s1` be two revisions of the
/// scatter, whole, one reached from the other as the library writes: the table of `s0`
/// (its sorts and nodes, no plaintext hash known) with the raw delta from `s0` to `s1`
/// laid on it, and an empty table with the delta in which every object of `s1` appears,
/// both with the metas of `s1` opened, are both accepted and both give the table of `s1`.
/// So when the mark has vanished from history, a full pass reaches the state the
/// incremental deltas would have reached.
pub proof fn law_incremental_delta_and_full_pass_agree(
    s0: Map<Seq<char>, StoredV>,
    s1: Map<Seq<char>, StoredV>,
    base: TableV,
    empty: TableV,
    opened: Seq<OpenedMetaV>,
    delta: Seq<(Seq<char>, RawStatus)>,
    full: Seq<(Seq<char>, RawStatus)>,
)
    requires
        whole_state(s0),
        whole_state(s1),
        step_ok(s0, s1),
        opens_state(opened, s1),
        base.sorts == state_sorts(s0),
        base.nodes == state_nodes(s0),
        empty.sorts == Map::<Seq<char>, SortV>::empty(),
        empty.nodes == Map::<Seq<char>, EntryV>::empty(),
        is_diff(s0, s1, delta),
        full_delta(state_sorts(s1), full),
    ensures
        apply_spec(base, opened, delta) is Ok,
        apply_spec(empty, opened, full) is Ok,
        apply_spec(base, opened, delta)->Ok_0.sorts == state_sorts(s1),
        apply_spec(base, opened, delta)->Ok_0.nodes == state_nodes(s1),
        apply_spec(empty, opened, full)->Ok_0.sorts == state_sorts(s1),
        apply_spec(empty, opened, full)->Ok_0.nodes == state_nodes(s1),
{
    let t0s = state_sorts(s0);
    let t1s = state_sorts(s1);
    let t1n = state_nodes(s1);
    // The incremental delta.
    crate::full_pass::lemma_distinct_no_repeat(delta);
    lemma_diff_checks(s0, s1, base, opened, delta, delta);
    assert(delta.take(delta.len() as int) =~= delta);
    lemma_diff_meta_pass(s0, s1, opened, delta, delta.len() as int);
    let st0 = ApplyState { sorts: t0s, nodes: state_nodes(s0), events: Seq::empty() };
    let st1 = meta_pass(st0, t0s, opened, delta)->Ok_0;
    assert forall|x: Seq<char>| #[trigger] body_point(st1, s0, s1, delta, 0, x) by {
        assert(meta_point(st1, s0, s1, delta, delta.len() as int, x));
        if !meta_name(s0, s1, x) && before(delta, delta.len() as int, x) {
        }
        if meta_name(s0, s1, x) && !before(delta, delta.len() as int, x) {
            if change_of(s0, s1, x) is Some {
                let i = choose|i: int| 0 <= i < delta.len() && #[trigger] delta[i].0 == x;
            }
        }
    }
    assert(st1.nodes =~= t1n) by {
        assert forall|x: Seq<char>| #[trigger] st1.nodes.contains_key(x) == t1n.contains_key(x) && (st1.nodes.contains_key(x) ==> st1.nodes[x] == t1n[x]) by {
            assert(meta_point(st1, s0, s1, delta, delta.len() as int, x));
            if !(before(delta, delta.len() as int, x) && meta_name(s0, s1, x)) {
                if change_of(s0, s1, x) is Some {
                    let i = choose|i: int| 0 <= i < delta.len() && #[trigger] delta[i].0 == x;
                }
            }
        }
    }
    lemma_diff_body_pass(s0, s1, opened, delta, st1, delta.len() as int);
    let r = apply_spec(base, opened, delta)->Ok_0;
    assert(r == body_pass(st1, t0s, opened, delta)->Ok_0);
    assert(r.sorts =~= t1s) by {
        assert forall|x: Seq<char>| #[trigger] r.sorts.contains_key(x) == t1s.contains_key(x) && (r.sorts.contains_key(x) ==> r.sorts[x] == t1s[x]) by {
            assert(body_point(r, s0, s1, delta, delta.len() as int, x));
            if !(meta_name(s0, s1, x) || before(delta, delta.len() as int, x)) {
                if change_of(s0, s1, x) is Some {
                    let i = choose|i: int| 0 <= i < delta.len() && #[trigger] delta[i].0 == x;
                }
            }
        }
    }
    // The full pass.
    let t = TableV { sorts: t1s, nodes: t1n, ..empty };
    assert forall|k: Seq<char>| #[trigger] t1n.contains_key(k) implies t1s.contains_key(k) && t1s[k] == SortV::Meta(k) by {}
    assert(consistent(t1s, t1n));
    assert(bodies_paired(t1s, t1n)) by {
        assert forall|b: Seq<char>| #[trigger] t1s.contains_key(b) && t1s[b] is Body implies references(t1n, b) by {
            let m = choose|m: Seq<char>| #[trigger] s1.contains_key(m) && s1[m] is Meta && s1[m]->Meta_0.body == Some(b);
            assert(t1n.contains_key(m));
        }
    }
    assert(no_chaff(t1s));
    assert(readable(t1n));
    assert(opens_as(opened, t1n)) by {
        assert forall|k: Seq<char>| #[trigger] t1n.contains_key(k) implies find_opened(opened, k) == Some(opened_of(k, t1n[k])) by {
            assert(find_opened(opened, k) == Some(s1[k]->Meta_0));
        }
    }
    law_full_pass_rebuilds_the_table(t, empty, opened, full);
    let f = apply_spec(empty, opened, full)->Ok_0;
    assert(f.nodes =~= t1n);
}

} // verus!
