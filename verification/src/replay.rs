//! Laying a delta again on the table it produced: the second time it is accepted and
//! changes nothing.
use vstd::prelude::*;

use crate::delta::{
    apply_spec, body_pass, body_step, changed_entry, check_meta, find_opened, first_unpaired,
    is_meta_entry, lemma_no_repeat_distinct, meta_pass, meta_step, references, unpaired,
    ApplyState, EventV, OpenedMetaV, RawStatus,
};
use crate::laws::consistent;
use crate::table::{EntryV, SortV, TableV};

verus! {

/// `a` and `b` agree at the key `x`.
pub open spec fn same_at<V>(a: Map<Seq<char>, V>, b: Map<Seq<char>, V>, x: Seq<char>) -> bool {
    &&& a.contains_key(x) == b.contains_key(x)
    &&& a.contains_key(x) ==> a[x] == b[x]
}

/// Some entry of `d` names the object `x`.
pub open spec fn named(d: Seq<(Seq<char>, RawStatus)>, x: Seq<char>) -> bool {
    exists|i: int| 0 <= i < d.len() && #[trigger] d[i].0 == x
}

/// What the first pass leaves at the key `name` of the entry `(name, status)`, laid on
/// the sorts `bs` and the nodes `bn`: the final sorts `s` and nodes `n`.
pub open spec fn meta_done(
    s: Map<Seq<char>, SortV>,
    n: Map<Seq<char>, EntryV>,
    bs: Map<Seq<char>, SortV>,
    bn: Map<Seq<char>, EntryV>,
    o: Seq<OpenedMetaV>,
    name: Seq<char>,
    status: RawStatus,
) -> bool {
    if is_meta_entry(bs, o, name, status) {
        if status == RawStatus::Disappeared {
            !s.contains_key(name) && !n.contains_key(name)
        } else if bs.contains_key(name) && status == RawStatus::Appeared {
            same_at(s, bs, name) && same_at(n, bn, name)
        } else {
            &&& find_opened(o, name) is Some
            &&& check_meta(name, find_opened(o, name)->0) is Ok
            &&& s.contains_key(name) && s[name] == SortV::Meta(name)
            &&& n.contains_key(name)
            &&& n[name] == changed_entry(n, name, check_meta(name, find_opened(o, name)->0)->Ok_0)
            &&& n[name].meta.body == if bn.contains_key(name) {
                bn[name].meta.body
            } else {
                check_meta(name, find_opened(o, name)->0)->Ok_0.body
            }
        }
    } else {
        same_at(s, bs, name) && same_at(n, bn, name)
    }
}

/// What both passes leave at the key `name` of the entry `(name, status)`.
pub open spec fn done(
    s: Map<Seq<char>, SortV>,
    n: Map<Seq<char>, EntryV>,
    bs: Map<Seq<char>, SortV>,
    bn: Map<Seq<char>, EntryV>,
    o: Seq<OpenedMetaV>,
    name: Seq<char>,
    status: RawStatus,
) -> bool {
    if is_meta_entry(bs, o, name, status) {
        meta_done(s, n, bs, bn, o, name, status)
    } else if status == RawStatus::Disappeared {
        &&& !s.contains_key(name)
        &&& (bs.contains_key(name) ==> (bs[name] matches SortV::Body(b) ==> !references(n, b)))
    } else if bs.contains_key(name) {
        &&& same_at(s, bs, name)
        &&& (bs[name] matches SortV::Body(b) ==> references(n, b))
    } else {
        &&& status == RawStatus::Appeared
        &&& s.contains_key(name) && s[name] == SortV::Body(name)
        &&& references(n, name)
    }
}

proof fn lemma_meta_done_pointwise(
    s: Map<Seq<char>, SortV>,
    n: Map<Seq<char>, EntryV>,
    s2: Map<Seq<char>, SortV>,
    n2: Map<Seq<char>, EntryV>,
    bs: Map<Seq<char>, SortV>,
    bn: Map<Seq<char>, EntryV>,
    o: Seq<OpenedMetaV>,
    name: Seq<char>,
    status: RawStatus,
)
    requires
        meta_done(s, n, bs, bn, o, name, status),
        same_at(s, s2, name),
        same_at(n, n2, name),
    ensures
        meta_done(s2, n2, bs, bn, o, name, status),
{
}

proof fn lemma_done_pointwise(
    s: Map<Seq<char>, SortV>,
    s2: Map<Seq<char>, SortV>,
    n: Map<Seq<char>, EntryV>,
    bs: Map<Seq<char>, SortV>,
    bn: Map<Seq<char>, EntryV>,
    o: Seq<OpenedMetaV>,
    name: Seq<char>,
    status: RawStatus,
)
    requires
        done(s, n, bs, bn, o, name, status),
        same_at(s, s2, name),
    ensures
        done(s2, n, bs, bn, o, name, status),
{
    if is_meta_entry(bs, o, name, status) {
        lemma_meta_done_pointwise(s, n, s2, n, bs, bn, o, name, status);
    }
}

pub(crate) proof fn lemma_meta_pass_done(
    bs: Map<Seq<char>, SortV>,
    bn: Map<Seq<char>, EntryV>,
    o: Seq<OpenedMetaV>,
    d: Seq<(Seq<char>, RawStatus)>,
    k: int,
)
    requires
        consistent(bs, bn),
        forall|i: int, j: int| 0 <= i < d.len() && 0 <= j < d.len() && i != j ==> d[i].0 != d[j].0,
        0 <= k <= d.len(),
        meta_pass(ApplyState { sorts: bs, nodes: bn, events: Seq::empty() }, bs, o, d.take(k)) is Ok,
    ensures
        ({
            let st = meta_pass(ApplyState { sorts: bs, nodes: bn, events: Seq::empty() }, bs, o, d.take(k))->Ok_0;
            &&& forall|i: int| 0 <= i < k ==> meta_done(st.sorts, st.nodes, bs, bn, o, #[trigger] d[i].0, d[i].1)
            &&& forall|i: int| k <= i < d.len() ==> same_at(st.sorts, bs, #[trigger] d[i].0) && same_at(st.nodes, bn, d[i].0)
            &&& forall|x: Seq<char>| !#[trigger] named(d, x) ==> same_at(st.sorts, bs, x) && same_at(st.nodes, bn, x)
        }),
    decreases k,
{
    let st0 = ApplyState { sorts: bs, nodes: bn, events: Seq::empty() };
    if k == 0 {
        assert(d.take(0) =~= Seq::<(Seq<char>, RawStatus)>::empty());
    } else {
        assert(d.take(k).drop_last() =~= d.take(k - 1));
        assert(d.take(k).last() == d[k - 1]);
        lemma_meta_pass_done(bs, bn, o, d, k - 1);
        let prev = meta_pass(st0, bs, o, d.take(k - 1))->Ok_0;
        let (name, status) = d[k - 1];
        let st = meta_pass(st0, bs, o, d.take(k))->Ok_0;
        assert(st == meta_step(prev, bs, o, name, status)->Ok_0);
        assert(same_at(prev.sorts, bs, name) && same_at(prev.nodes, bn, name));
        // The step touches the key `name` alone.
        assert forall|x: Seq<char>| x != name implies same_at(st.sorts, prev.sorts, x) && same_at(
            st.nodes,
            prev.nodes,
            x,
        ) by {
            if bs.contains_key(name) {
                if bs[name] is Meta {
                    assert(bs[name] == SortV::Meta(name));
                }
            }
        }
        assert forall|i: int| 0 <= i < k implies meta_done(st.sorts, st.nodes, bs, bn, o, #[trigger] d[i].0, d[i].1) by {
            if i < k - 1 {
                assert(d[i].0 != name);
                lemma_meta_done_pointwise(prev.sorts, prev.nodes, st.sorts, st.nodes, bs, bn, o, d[i].0, d[i].1);
            } else {
                if bs.contains_key(name) && bs[name] is Meta {
                    assert(bs[name] == SortV::Meta(name));
                    if status == RawStatus::Modified {
                        let m = check_meta(name, find_opened(o, name)->0)->Ok_0;
                        let x = st.nodes[name];
                        assert(x == changed_entry(prev.nodes, name, m));
                        assert(changed_entry(st.nodes, name, m) == x);
                    }
                } else if is_meta_entry(bs, o, name, status) {
                    assert(!bn.contains_key(name));
                } else {
                    assert(st == prev);
                }
            }
        }
        assert forall|i: int| k <= i < d.len() implies same_at(st.sorts, bs, #[trigger] d[i].0) && same_at(
            st.nodes,
            bn,
            d[i].0,
        ) by {
            assert(d[i].0 != name);
        }
        assert forall|x: Seq<char>| !#[trigger] named(d, x) implies same_at(st.sorts, bs, x) && same_at(st.nodes, bn, x) by {
            if x == name {
                assert(d[k - 1].0 == x);
            }
        }
    }
}

pub(crate) proof fn lemma_body_pass_done(
    bs: Map<Seq<char>, SortV>,
    bn: Map<Seq<char>, EntryV>,
    st1: ApplyState,
    o: Seq<OpenedMetaV>,
    d: Seq<(Seq<char>, RawStatus)>,
    k: int,
)
    requires
        forall|i: int, j: int| 0 <= i < d.len() && 0 <= j < d.len() && i != j ==> d[i].0 != d[j].0,
        forall|i: int| 0 <= i < d.len() ==> meta_done(st1.sorts, st1.nodes, bs, bn, o, #[trigger] d[i].0, d[i].1),
        0 <= k <= d.len(),
        body_pass(st1, bs, o, d.take(k)) is Ok,
    ensures
        ({
            let st = body_pass(st1, bs, o, d.take(k))->Ok_0;
            &&& st.nodes == st1.nodes
            &&& forall|i: int| 0 <= i < k ==> done(st.sorts, st.nodes, bs, bn, o, #[trigger] d[i].0, d[i].1)
            &&& forall|i: int| k <= i < d.len() ==> same_at(st.sorts, st1.sorts, #[trigger] d[i].0)
            &&& forall|x: Seq<char>| !#[trigger] named(d, x) ==> same_at(st.sorts, st1.sorts, x)
        }),
    decreases k,
{
    if k == 0 {
        assert(d.take(0) =~= Seq::<(Seq<char>, RawStatus)>::empty());
    } else {
        assert(d.take(k).drop_last() =~= d.take(k - 1));
        assert(d.take(k).last() == d[k - 1]);
        lemma_body_pass_done(bs, bn, st1, o, d, k - 1);
        let prev = body_pass(st1, bs, o, d.take(k - 1))->Ok_0;
        let (name, status) = d[k - 1];
        let st = body_pass(st1, bs, o, d.take(k))->Ok_0;
        assert(st == body_step(prev, bs, o, name, status)->Ok_0);
        assert(same_at(prev.sorts, st1.sorts, name));
        assert(meta_done(st1.sorts, st1.nodes, bs, bn, o, d[k - 1].0, d[k - 1].1));
        assert forall|x: Seq<char>| x != name implies same_at(st.sorts, prev.sorts, x) by {}
        assert(st.nodes == prev.nodes);
        assert forall|i: int| 0 <= i < k implies done(st.sorts, st.nodes, bs, bn, o, #[trigger] d[i].0, d[i].1) by {
            if i < k - 1 {
                assert(d[i].0 != name);
                lemma_done_pointwise(prev.sorts, st.sorts, st.nodes, bs, bn, o, d[i].0, d[i].1);
            } else {
                if is_meta_entry(bs, o, name, status) {
                    assert(st == prev);
                    lemma_meta_done_pointwise(st1.sorts, st1.nodes, st.sorts, st.nodes, bs, bn, o, name, status);
                }
            }
        }
        assert forall|i: int| k <= i < d.len() implies same_at(st.sorts, st1.sorts, #[trigger] d[i].0) by {
            assert(d[i].0 != name);
        }
        assert forall|x: Seq<char>| !#[trigger] named(d, x) implies same_at(st.sorts, st1.sorts, x) by {
            if x == name {
                assert(d[k - 1].0 == x);
            }
        }
    }
}

proof fn lemma_second_meta_pass(
    s: Map<Seq<char>, SortV>,
    n: Map<Seq<char>, EntryV>,
    ev: Seq<EventV>,
    bs: Map<Seq<char>, SortV>,
    bn: Map<Seq<char>, EntryV>,
    o: Seq<OpenedMetaV>,
    d: Seq<(Seq<char>, RawStatus)>,
)
    requires
        forall|i: int| 0 <= i < d.len() ==> done(s, n, bs, bn, o, #[trigger] d[i].0, d[i].1),
    ensures
        meta_pass(ApplyState { sorts: s, nodes: n, events: ev }, s, o, d) is Ok,
        meta_pass(ApplyState { sorts: s, nodes: n, events: ev }, s, o, d)->Ok_0.sorts == s,
        meta_pass(ApplyState { sorts: s, nodes: n, events: ev }, s, o, d)->Ok_0.nodes == n,
    decreases d.len(),
{
    if d.len() > 0 {
        let e = d.drop_last();
        assert forall|i: int| 0 <= i < e.len() implies done(s, n, bs, bn, o, #[trigger] e[i].0, e[i].1) by {
            assert(e[i] == d[i]);
        }
        lemma_second_meta_pass(s, n, ev, bs, bn, o, e);
        let prev = meta_pass(ApplyState { sorts: s, nodes: n, events: ev }, s, o, e)->Ok_0;
        let (name, status) = d.last();
        assert(done(s, n, bs, bn, o, d[d.len() - 1].0, d[d.len() - 1].1));
        if s.contains_key(name) && s[name] is Meta && status == RawStatus::Modified {
            assert(s[name] == SortV::Meta(name));
            let m = check_meta(name, find_opened(o, name)->0)->Ok_0;
            assert(n.insert(name, changed_entry(n, name, m)) =~= n);
        }
    }
}

proof fn lemma_second_body_pass(
    s: Map<Seq<char>, SortV>,
    n: Map<Seq<char>, EntryV>,
    st: ApplyState,
    bs: Map<Seq<char>, SortV>,
    bn: Map<Seq<char>, EntryV>,
    o: Seq<OpenedMetaV>,
    d: Seq<(Seq<char>, RawStatus)>,
)
    requires
        st.sorts == s,
        st.nodes == n,
        forall|i: int| 0 <= i < d.len() ==> done(s, n, bs, bn, o, #[trigger] d[i].0, d[i].1),
    ensures
        body_pass(st, s, o, d) is Ok,
        body_pass(st, s, o, d)->Ok_0.sorts == s,
        body_pass(st, s, o, d)->Ok_0.nodes == n,
    decreases d.len(),
{
    if d.len() > 0 {
        let e = d.drop_last();
        assert forall|i: int| 0 <= i < e.len() implies done(s, n, bs, bn, o, #[trigger] e[i].0, e[i].1) by {
            assert(e[i] == d[i]);
        }
        lemma_second_body_pass(s, n, st, bs, bn, o, e);
        assert(done(s, n, bs, bn, o, d[d.len() - 1].0, d[d.len() - 1].1));
    }
}

/// Laid again, no entry is a secret born or dying without its body: what appeared is
/// known now, and what disappeared is not.
proof fn lemma_second_pairing(
    again: TableV,
    bs: Map<Seq<char>, SortV>,
    bn: Map<Seq<char>, EntryV>,
    o: Seq<OpenedMetaV>,
    all: Seq<(Seq<char>, RawStatus)>,
    d: Seq<(Seq<char>, RawStatus)>,
)
    requires
        forall|i: int| 0 <= i < d.len() ==> done(again.sorts, again.nodes, bs, bn, o, #[trigger] d[i].0, d[i].1),
    ensures
        first_unpaired(again, o, all, d) is None,
    decreases d.len(),
{
    if d.len() > 0 {
        let e = d.drop_last();
        assert forall|i: int| 0 <= i < e.len() implies done(again.sorts, again.nodes, bs, bn, o, #[trigger] e[i].0, e[i].1) by {
            assert(e[i] == d[i]);
        }
        lemma_second_pairing(again, bs, bn, o, all, e);
        assert(done(again.sorts, again.nodes, bs, bn, o, d[d.len() - 1].0, d[d.len() - 1].1));
        assert(!unpaired(again, o, all, d.last().0, d.last().1));
    }
}

/// Applying a delta is idempotent: laid again, with the mark not moved, on the table that
/// it produced from a table whose sorts and nodes agree, the same delta is accepted and
/// leaves the sorts and the nodes as they are, so the nodes in order and the reverse index
/// of children are the same too (`apply_delta` keeps the mark and rebuilds the index from
/// the nodes in order).
pub proof fn law_apply_is_idempotent(
    base: TableV,
    opened: Seq<OpenedMetaV>,
    delta: Seq<(Seq<char>, RawStatus)>,
    again: TableV,
)
    requires
        consistent(base.sorts, base.nodes),
        apply_spec(base, opened, delta) is Ok,
        again.sorts == apply_spec(base, opened, delta)->Ok_0.sorts,
        again.nodes == apply_spec(base, opened, delta)->Ok_0.nodes,
    ensures
        apply_spec(again, opened, delta) is Ok,
        apply_spec(again, opened, delta)->Ok_0.sorts == again.sorts,
        apply_spec(again, opened, delta)->Ok_0.nodes == again.nodes,
        forall|k1: Seq<Seq<char>>, k2: Seq<Seq<char>>|
            crate::validate::ordered_nodes(again.nodes, k1) && crate::validate::ordered_nodes(
                apply_spec(again, opened, delta)->Ok_0.nodes,
                k2,
            ) ==> k1 == k2 && crate::table::index_children(k1, again.nodes) == crate::table::index_children(
                k2,
                apply_spec(again, opened, delta)->Ok_0.nodes,
            ),
{
    let bs = base.sorts;
    let bn = base.nodes;
    lemma_no_repeat_distinct(delta);
    let st0 = ApplyState { sorts: bs, nodes: bn, events: Seq::empty() };
    assert(delta.take(delta.len() as int) =~= delta);
    lemma_meta_pass_done(bs, bn, opened, delta, delta.len() as int);
    let st1 = meta_pass(st0, bs, opened, delta)->Ok_0;
    lemma_body_pass_done(bs, bn, st1, opened, delta, delta.len() as int);
    let s = again.sorts;
    let n = again.nodes;
    lemma_second_pairing(again, bs, bn, opened, delta, delta);
    lemma_second_meta_pass(s, n, Seq::empty(), bs, bn, opened, delta);
    let st2 = meta_pass(ApplyState { sorts: s, nodes: n, events: Seq::empty() }, s, opened, delta)->Ok_0;
    lemma_second_body_pass(s, n, st2, bs, bn, opened, delta);
    assert forall|k1: Seq<Seq<char>>, k2: Seq<Seq<char>>|
        crate::validate::ordered_nodes(again.nodes, k1) && crate::validate::ordered_nodes(
            apply_spec(again, opened, delta)->Ok_0.nodes,
            k2,
        ) implies k1 == k2 by {
        crate::sorted_map::law_key_order_is_canonical(k1, k2);
    }
}

} // verus!
