//! A full pass: when the sync mark has vanished from history, the delta is computed from
//! nothing, every object of the scatter appearing. Laid on an empty table, it rebuilds the
//! table that the incremental deltas had reached.
use vstd::prelude::*;

use crate::delta::{
    apply_spec, body_pass, body_step, changed_entry, check_meta, find_opened, first_repeated,
    first_unpaired, is_body_object, is_meta_entry, lemma_no_repeat_distinct, meta_pass, meta_step,
    references, repeated_at, unpaired, ApplyState, OpenedMetaV, RawStatus,
};
use crate::laws::{consistent, law_apply_keeps_table_consistent};
use crate::meta::{is_legal_name, CURRENT_SCHEMA_NUMBER};
use crate::replay::{done, lemma_body_pass_done, lemma_meta_pass_done, meta_done, named, same_at};
use crate::table::{EntryV, SortV, TableV};

verus! {

/// Bodies go with secrets: the body of every secret is known as a body, and every body
/// known is the body of some secret.
pub open spec fn bodies_paired(sorts: Map<Seq<char>, SortV>, nodes: Map<Seq<char>, EntryV>) -> bool {
    &&& forall|k: Seq<char>| #[trigger] nodes.contains_key(k) && nodes[k].meta.body is Some ==> {
        let b = nodes[k].meta.body->0;
        sorts.contains_key(b) && sorts[b] == SortV::Body(b)
    }
    &&& forall|b: Seq<char>| #[trigger] sorts.contains_key(b) && sorts[b] is Body ==> references(nodes, b)
}

/// No object of the table is chaff.
pub open spec fn no_chaff(sorts: Map<Seq<char>, SortV>) -> bool {
    forall|k: Seq<char>| #[trigger] sorts.contains_key(k) ==> !(sorts[k] is Chaff)
}

/// Every meta of the table reads back: its schema is one that can be read, and its name
/// is legal.
pub open spec fn readable(nodes: Map<Seq<char>, EntryV>) -> bool {
    forall|k: Seq<char>| #[trigger] nodes.contains_key(k) ==> nodes[k].meta.schema <= CURRENT_SCHEMA_NUMBER
        && is_legal_name(nodes[k].meta.place.name)
}

/// The meta of node `k` as the packer opens it.
pub open spec fn opened_of(k: Seq<char>, e: EntryV) -> OpenedMetaV {
    OpenedMetaV {
        object: k,
        schema: e.meta.schema,
        parent: e.meta.place.parent,
        name: e.meta.place.name,
        body: e.meta.body,
    }
}

/// `opened` holds the meta of every node of `nodes`, as it is, and no other object opens
/// as a meta.
pub open spec fn opens_as(opened: Seq<OpenedMetaV>, nodes: Map<Seq<char>, EntryV>) -> bool {
    &&& forall|k: Seq<char>| #[trigger] nodes.contains_key(k) ==> find_opened(opened, k) == Some(opened_of(k, nodes[k]))
    &&& forall|k: Seq<char>| #[trigger] find_opened(opened, k) is Some ==> nodes.contains_key(k)
}

/// `d` names every object of `sorts`, each once, as appeared, and nothing else.
pub open spec fn full_delta(sorts: Map<Seq<char>, SortV>, d: Seq<(Seq<char>, RawStatus)>) -> bool {
    &&& forall|i: int, j: int| 0 <= i < d.len() && 0 <= j < d.len() && i != j ==> d[i].0 != d[j].0
    &&& forall|i: int| 0 <= i < d.len() ==> #[trigger] d[i].1 == RawStatus::Appeared && sorts.contains_key(d[i].0)
    &&& forall|x: Seq<char>| #[trigger] sorts.contains_key(x) ==> exists|i: int| 0 <= i < d.len() && #[trigger] d[i].0 == x
}

pub(crate) proof fn lemma_distinct_no_repeat(d: Seq<(Seq<char>, RawStatus)>)
    requires
        forall|i: int, j: int| 0 <= i < d.len() && 0 <= j < d.len() && i != j ==> d[i].0 != d[j].0,
    ensures
        first_repeated(d) is None,
    decreases d.len(),
{
    if d.len() > 0 {
        let e = d.drop_last();
        assert forall|i: int, j: int| 0 <= i < e.len() && 0 <= j < e.len() && i != j implies e[i].0 != e[j].0 by {
            assert(e[i] == d[i] && e[j] == d[j]);
        }
        lemma_distinct_no_repeat(e);
        assert(!repeated_at(d, d.len() - 1));
    }
}

proof fn lemma_full_paired(t: TableV, empty: TableV, o: Seq<OpenedMetaV>, all: Seq<(Seq<char>, RawStatus)>, d: Seq<(Seq<char>, RawStatus)>)
    requires
        empty.sorts == Map::<Seq<char>, SortV>::empty(),
        consistent(t.sorts, t.nodes),
        bodies_paired(t.sorts, t.nodes),
        opens_as(o, t.nodes),
        full_delta(t.sorts, all),
        forall|i: int| 0 <= i < d.len() ==> #[trigger] d[i].1 == RawStatus::Appeared,
    ensures
        first_unpaired(empty, o, all, d) is None,
    decreases d.len(),
{
    if d.len() > 0 {
        let e = d.drop_last();
        assert forall|i: int| 0 <= i < e.len() implies #[trigger] e[i].1 == RawStatus::Appeared by {
            assert(e[i] == d[i]);
        }
        lemma_full_paired(t, empty, o, all, e);
        let x = d.last().0;
        assert(d[d.len() - 1].1 == RawStatus::Appeared);
        if find_opened(o, x) is Some && find_opened(o, x)->0.body is Some {
            assert(t.nodes.contains_key(x));
            let b = t.nodes[x].meta.body->0;
            assert(t.sorts.contains_key(b));
            let i = choose|i: int| 0 <= i < all.len() && #[trigger] all[i].0 == b;
            assert(all[i] == (b, RawStatus::Appeared));
            assert(all.contains((b, RawStatus::Appeared)));
            assert(!t.nodes.contains_key(b));
            assert(find_opened(o, b) is None);
        }
        assert(!unpaired(empty, o, all, d.last().0, d.last().1));
    }
}

/// The meta pass of a full pass on an empty table: each node is born with its meta, and
/// nothing else enters.
proof fn lemma_full_meta_pass(tn: Map<Seq<char>, EntryV>, o: Seq<OpenedMetaV>, d: Seq<(Seq<char>, RawStatus)>, k: int)
    requires
        opens_as(o, tn),
        readable(tn),
        forall|i: int, j: int| 0 <= i < d.len() && 0 <= j < d.len() && i != j ==> d[i].0 != d[j].0,
        forall|i: int| 0 <= i < d.len() ==> #[trigger] d[i].1 == RawStatus::Appeared,
        0 <= k <= d.len(),
    ensures
        ({
            let st0 = ApplyState { sorts: Map::empty(), nodes: Map::empty(), events: Seq::empty() };
            let r = meta_pass(st0, Map::empty(), o, d.take(k));
            &&& r is Ok
            &&& forall|x: Seq<char>| #[trigger] r->Ok_0.sorts.contains_key(x) ==> tn.contains_key(x) && exists|i: int| 0 <= i < k && #[trigger] d[i].0 == x
            &&& forall|x: Seq<char>| #[trigger] r->Ok_0.nodes.contains_key(x) <==> r->Ok_0.sorts.contains_key(x)
            &&& forall|x: Seq<char>| #[trigger] r->Ok_0.sorts.contains_key(x) ==> r->Ok_0.sorts[x] == SortV::Meta(x) && r->Ok_0.nodes[x] == (EntryV { meta: tn[x].meta, hash: None })
            &&& forall|i: int| 0 <= i < k && tn.contains_key(#[trigger] d[i].0) ==> r->Ok_0.sorts.contains_key(d[i].0)
        }),
    decreases k,
{
    let st0 = ApplyState { sorts: Map::<Seq<char>, SortV>::empty(), nodes: Map::<Seq<char>, EntryV>::empty(), events: Seq::empty() };
    if k == 0 {
        assert(d.take(0) =~= Seq::<(Seq<char>, RawStatus)>::empty());
    } else {
        assert(d.take(k).drop_last() =~= d.take(k - 1));
        assert(d.take(k).last() == d[k - 1]);
        lemma_full_meta_pass(tn, o, d, k - 1);
        let prev = meta_pass(st0, Map::empty(), o, d.take(k - 1))->Ok_0;
        let x = d[k - 1].0;
        assert(d[k - 1].1 == RawStatus::Appeared);
        assert(!prev.sorts.contains_key(x)) by {
            if prev.sorts.contains_key(x) {
                let i = choose|i: int| 0 <= i < k - 1 && #[trigger] d[i].0 == x;
            }
        }
        let st = meta_pass(st0, Map::empty(), o, d.take(k));
        assert(st == meta_step(prev, Map::empty(), o, x, RawStatus::Appeared));
        if tn.contains_key(x) {
            let om = opened_of(x, tn[x]);
            assert(find_opened(o, x) == Some(om));
            assert(check_meta(x, om) == Ok::<crate::meta::MetaV, crate::delta::ErrV>(tn[x].meta));
            let s = st->Ok_0;
            assert forall|y: Seq<char>| #[trigger] s.sorts.contains_key(y) implies tn.contains_key(y) && exists|i: int| 0 <= i < k && #[trigger] d[i].0 == y by {
                if y == x {
                    assert(d[k - 1].0 == y);
                } else {
                    assert(prev.sorts.contains_key(y));
                }
            }
        } else {
            assert(find_opened(o, x) is None);
        }
    }
}

/// The body pass of a full pass: every object that is no node is a body of some secret,
/// which is born already, so the body arrives.
proof fn lemma_full_body_pass(t: TableV, st1: ApplyState, o: Seq<OpenedMetaV>, d: Seq<(Seq<char>, RawStatus)>, k: int)
    requires
        consistent(t.sorts, t.nodes),
        no_chaff(t.sorts),
        bodies_paired(t.sorts, t.nodes),
        opens_as(o, t.nodes),
        full_delta(t.sorts, d),
        forall|x: Seq<char>| #[trigger] st1.nodes.contains_key(x) <==> t.nodes.contains_key(x),
        forall|x: Seq<char>| #[trigger] st1.nodes.contains_key(x) ==> st1.nodes[x].meta == t.nodes[x].meta,
        forall|x: Seq<char>| #[trigger] st1.sorts.contains_key(x) ==> t.nodes.contains_key(x),
        0 <= k <= d.len(),
    ensures
        ({
            let r = body_pass(st1, Map::empty(), o, d.take(k));
            &&& r is Ok
            &&& r->Ok_0.nodes == st1.nodes
            &&& forall|x: Seq<char>| #[trigger] r->Ok_0.sorts.contains_key(x) ==> (st1.sorts.contains_key(x) && r->Ok_0.sorts[x] == st1.sorts[x]) || (!t.nodes.contains_key(x) && t.sorts.contains_key(x) && r->Ok_0.sorts[x] == SortV::Body(x))
            &&& forall|x: Seq<char>| #[trigger] st1.sorts.contains_key(x) ==> r->Ok_0.sorts.contains_key(x)
            &&& forall|i: int| 0 <= i < k && !t.nodes.contains_key(#[trigger] d[i].0) ==> r->Ok_0.sorts.contains_key(d[i].0)
        }),
    decreases k,
{
    if k == 0 {
        assert(d.take(0) =~= Seq::<(Seq<char>, RawStatus)>::empty());
    } else {
        assert(d.take(k).drop_last() =~= d.take(k - 1));
        assert(d.take(k).last() == d[k - 1]);
        lemma_full_body_pass(t, st1, o, d, k - 1);
        let prev = body_pass(st1, Map::empty(), o, d.take(k - 1))->Ok_0;
        let x = d[k - 1].0;
        assert(d[k - 1].1 == RawStatus::Appeared && t.sorts.contains_key(x));
        let st = body_pass(st1, Map::empty(), o, d.take(k));
        assert(st == body_step(prev, Map::empty(), o, x, RawStatus::Appeared));
        if !is_meta_entry(Map::empty(), o, x, RawStatus::Appeared) {
            assert(!t.nodes.contains_key(x));
            assert(t.sorts[x] is Body);
            let kk = choose|kk: Seq<char>| #[trigger] t.nodes.contains_key(kk) && t.nodes[kk].meta.body == Some(x);
            assert(st1.nodes.contains_key(kk));
            assert(references(prev.nodes, x));
        }
    }
}

/// A full pass rebuilds the table: laid on an empty table, the delta in which every object
/// of a table appears, once, with the metas of its nodes opened as they are, is accepted
/// and gives the same sorts and the same nodes, with their metas, no plaintext hash known
/// yet. So recomputing the delta by a full pass when the mark has vanished reaches the
/// state that the incremental deltas reached. The table is one the library keeps: its sorts
/// and nodes agree, its bodies go with its secrets, it holds no chaff, and its metas read
/// back.
pub proof fn law_full_pass_rebuilds_the_table(
    t: TableV,
    empty: TableV,
    opened: Seq<OpenedMetaV>,
    delta: Seq<(Seq<char>, RawStatus)>,
)
    requires
        consistent(t.sorts, t.nodes),
        bodies_paired(t.sorts, t.nodes),
        no_chaff(t.sorts),
        readable(t.nodes),
        empty.sorts == Map::<Seq<char>, SortV>::empty(),
        empty.nodes == Map::<Seq<char>, EntryV>::empty(),
        opens_as(opened, t.nodes),
        full_delta(t.sorts, delta),
    ensures
        apply_spec(empty, opened, delta) is Ok,
        apply_spec(empty, opened, delta)->Ok_0.sorts == t.sorts,
        forall|k: Seq<char>| #[trigger] apply_spec(empty, opened, delta)->Ok_0.nodes.contains_key(k) <==> t.nodes.contains_key(k),
        forall|k: Seq<char>| #[trigger] t.nodes.contains_key(k) ==> apply_spec(empty, opened, delta)->Ok_0.nodes[k] == (EntryV { meta: t.nodes[k].meta, hash: None }),
{
    lemma_distinct_no_repeat(delta);
    lemma_full_paired(t, empty, opened, delta, delta);
    assert forall|i: int| 0 <= i < delta.len() implies #[trigger] delta[i].1 == RawStatus::Appeared by {}
    assert(delta.take(delta.len() as int) =~= delta);
    lemma_full_meta_pass(t.nodes, opened, delta, delta.len() as int);
    let st0 = ApplyState { sorts: Map::<Seq<char>, SortV>::empty(), nodes: Map::<Seq<char>, EntryV>::empty(), events: Seq::empty() };
    assert(st0 == ApplyState { sorts: empty.sorts, nodes: empty.nodes, events: Seq::empty() });
    let st1 = meta_pass(st0, Map::empty(), opened, delta)->Ok_0;
    assert forall|x: Seq<char>| #[trigger] st1.nodes.contains_key(x) <==> t.nodes.contains_key(x) by {
        if t.nodes.contains_key(x) {
            assert(t.sorts.contains_key(x));
            let i = choose|i: int| 0 <= i < delta.len() && #[trigger] delta[i].0 == x;
            assert(st1.sorts.contains_key(delta[i].0));
        }
    }
    lemma_full_body_pass(t, st1, opened, delta, delta.len() as int);
    let r = apply_spec(empty, opened, delta)->Ok_0;
    assert(r == body_pass(st1, Map::empty(), opened, delta)->Ok_0);
    assert forall|x: Seq<char>| #[trigger] r.sorts.contains_key(x) <==> t.sorts.contains_key(x) by {
        if t.sorts.contains_key(x) {
            let i = choose|i: int| 0 <= i < delta.len() && #[trigger] delta[i].0 == x;
            if t.nodes.contains_key(x) {
                assert(st1.sorts.contains_key(delta[i].0));
            }
        }
    }
    assert forall|x: Seq<char>| #[trigger] r.sorts.contains_key(x) implies r.sorts[x] == t.sorts[x] by {
        if st1.sorts.contains_key(x) && r.sorts[x] == st1.sorts[x] {
            assert(t.nodes.contains_key(x));
        } else {
            assert(t.sorts[x] is Body);
        }
    }
    assert(r.sorts =~= t.sorts);
}

proof fn lemma_none_unpaired(base: TableV, o: Seq<OpenedMetaV>, all: Seq<(Seq<char>, RawStatus)>, d: Seq<(Seq<char>, RawStatus)>)
    requires
        first_unpaired(base, o, all, d) is None,
    ensures
        forall|i: int| 0 <= i < d.len() ==> !unpaired(base, o, all, #[trigger] d[i].0, d[i].1),
    decreases d.len(),
{
    if d.len() > 0 {
        let e = d.drop_last();
        lemma_none_unpaired(base, o, all, e);
        assert forall|i: int| 0 <= i < d.len() implies !unpaired(base, o, all, #[trigger] d[i].0, d[i].1) by {
            if i < d.len() - 1 {
                assert(e[i] == d[i]);
            }
        }
    }
}

/// Laying a delta keeps a table whole: its sorts and nodes agree, its bodies go with its
/// secrets, it holds no chaff, and its metas read back. These are what a full pass asks
/// of the table it rebuilds.
pub proof fn law_apply_keeps_the_table_whole(
    base: TableV,
    opened: Seq<OpenedMetaV>,
    delta: Seq<(Seq<char>, RawStatus)>,
)
    requires
        consistent(base.sorts, base.nodes),
        bodies_paired(base.sorts, base.nodes),
        no_chaff(base.sorts),
        readable(base.nodes),
        apply_spec(base, opened, delta) is Ok,
    ensures
        ({
            let r = apply_spec(base, opened, delta)->Ok_0;
            &&& consistent(r.sorts, r.nodes)
            &&& bodies_paired(r.sorts, r.nodes)
            &&& no_chaff(r.sorts)
            &&& readable(r.nodes)
        }),
{
    law_apply_keeps_table_consistent(base, opened, delta);
    lemma_no_repeat_distinct(delta);
    let bs = base.sorts;
    let bn = base.nodes;
    let d = delta;
    lemma_none_unpaired(base, opened, d, d);
    let st0 = ApplyState { sorts: bs, nodes: bn, events: Seq::empty() };
    assert(d.take(d.len() as int) =~= d);
    lemma_meta_pass_done(bs, bn, opened, d, d.len() as int);
    let st1 = meta_pass(st0, bs, opened, d)->Ok_0;
    lemma_body_pass_done(bs, bn, st1, opened, d, d.len() as int);
    let r = apply_spec(base, opened, delta)->Ok_0;
    assert(r == body_pass(st1, bs, opened, d)->Ok_0);
    let s = r.sorts;
    let n = r.nodes;
    assert(n == st1.nodes);
    // An object named by the delta: what both passes left there.
    assert forall|x: Seq<char>| #[trigger] named(d, x) implies exists|i: int| 0 <= i < d.len() && d[i].0 == x
        && done(s, n, bs, bn, opened, x, d[i].1) && meta_done(st1.sorts, n, bs, bn, opened, x, d[i].1)
        && !unpaired(base, opened, d, x, d[i].1) by {
        let i = choose|i: int| 0 <= i < d.len() && #[trigger] d[i].0 == x;
        assert(done(s, n, bs, bn, opened, d[i].0, d[i].1));
        assert(meta_done(st1.sorts, n, bs, bn, opened, d[i].0, d[i].1));
        assert(!unpaired(base, opened, d, d[i].0, d[i].1));
    }
    // A body known before, that a node of the result still has, is known as a body.
    assert forall|b: Seq<char>, k: Seq<char>|
        #![trigger bs[b], n[k]]
        bs.contains_key(b) && bs[b] == SortV::Body(b) && n.contains_key(k) && n[k].meta.body == Some(b)
        implies s.contains_key(b) && s[b] == SortV::Body(b) by {
        if named(d, b) {
            let i = choose|i: int| 0 <= i < d.len() && d[i].0 == b
                && done(s, n, bs, bn, opened, b, d[i].1) && meta_done(st1.sorts, n, bs, bn, opened, b, d[i].1)
                && !unpaired(base, opened, d, b, d[i].1);
            assert(!is_meta_entry(bs, opened, b, d[i].1));
            if d[i].1 == RawStatus::Disappeared {
                assert(!references(n, b));
            }
        } else {
            assert(same_at(st1.sorts, bs, b));
        }
    }
    assert forall|k: Seq<char>| #[trigger] n.contains_key(k) && n[k].meta.body is Some implies {
        let b = n[k].meta.body->0;
        s.contains_key(b) && s[b] == SortV::Body(b)
    } by {
        let b = n[k].meta.body->0;
        if named(d, k) {
            let i = choose|i: int| 0 <= i < d.len() && d[i].0 == k
                && done(s, n, bs, bn, opened, k, d[i].1) && meta_done(st1.sorts, n, bs, bn, opened, k, d[i].1)
                && !unpaired(base, opened, d, k, d[i].1);
            if is_meta_entry(bs, opened, k, d[i].1) {
                if bn.contains_key(k) {
                    assert(bn[k].meta.body == Some(b));
                    assert(bs.contains_key(b) && bs[b] == SortV::Body(b));
                } else {
                    // A secret born: its body appeared with it, as a body.
                    assert(!bs.contains_key(k));
                    let om = find_opened(opened, k)->0;
                    assert(om.body == Some(b));
                    assert(d.contains((b, RawStatus::Appeared)));
                    assert(is_body_object(base, opened, b));
                    let j = d.index_of((b, RawStatus::Appeared));
                    assert(d[j].0 == b);
                    assert(named(d, b));
                    let i2 = choose|i2: int| 0 <= i2 < d.len() && d[i2].0 == b
                        && done(s, n, bs, bn, opened, b, d[i2].1) && meta_done(st1.sorts, n, bs, bn, opened, b, d[i2].1)
                        && !unpaired(base, opened, d, b, d[i2].1);
                    assert(i2 == j);
                    assert(!is_meta_entry(bs, opened, b, RawStatus::Appeared));
                }
            } else {
                assert(same_at(n, bn, k));
                assert(bs.contains_key(k));
            }
        } else {
            assert(same_at(n, bn, k));
            assert(bn[k].meta.body == Some(b));
            assert(bs.contains_key(b) && bs[b] == SortV::Body(b));
        }
    }
    assert forall|b: Seq<char>| #[trigger] s.contains_key(b) && s[b] is Body implies references(n, b) by {
        if named(d, b) {
            let i = choose|i: int| 0 <= i < d.len() && d[i].0 == b
                && done(s, n, bs, bn, opened, b, d[i].1) && meta_done(st1.sorts, n, bs, bn, opened, b, d[i].1)
                && !unpaired(base, opened, d, b, d[i].1);
            if bs.contains_key(b) && !is_meta_entry(bs, opened, b, d[i].1) && d[i].1 != RawStatus::Disappeared {
                assert(bs[b] == SortV::Body(b));
            }
        } else {
            assert(same_at(st1.sorts, bs, b));
            assert(bs[b] == SortV::Body(b));
            assert(references(bn, b));
            let k = choose|k: Seq<char>| #[trigger] bn.contains_key(k) && bn[k].meta.body == Some(b);
            if named(d, k) {
                let i = choose|i: int| 0 <= i < d.len() && d[i].0 == k
                    && done(s, n, bs, bn, opened, k, d[i].1) && meta_done(st1.sorts, n, bs, bn, opened, k, d[i].1)
                    && !unpaired(base, opened, d, k, d[i].1);
                assert(bs[k] == SortV::Meta(k));
                if d[i].1 == RawStatus::Disappeared {
                    assert(d.contains((b, RawStatus::Disappeared)));
                    let j = d.index_of((b, RawStatus::Disappeared));
                    assert(d[j].0 == b);
                }
                assert(n.contains_key(k) && n[k].meta.body == Some(b));
            } else {
                assert(same_at(n, bn, k));
            }
        }
    }
    assert forall|x: Seq<char>| #[trigger] s.contains_key(x) implies !(s[x] is Chaff) by {
        if named(d, x) {
            let i = choose|i: int| 0 <= i < d.len() && d[i].0 == x
                && done(s, n, bs, bn, opened, x, d[i].1) && meta_done(st1.sorts, n, bs, bn, opened, x, d[i].1)
                && !unpaired(base, opened, d, x, d[i].1);
        } else {
            assert(same_at(st1.sorts, bs, x));
        }
    }
    assert forall|x: Seq<char>| #[trigger] n.contains_key(x) implies n[x].meta.schema <= CURRENT_SCHEMA_NUMBER
        && is_legal_name(n[x].meta.place.name) by {
        if named(d, x) {
            let i = choose|i: int| 0 <= i < d.len() && d[i].0 == x
                && done(s, n, bs, bn, opened, x, d[i].1) && meta_done(st1.sorts, n, bs, bn, opened, x, d[i].1)
                && !unpaired(base, opened, d, x, d[i].1);
            if is_meta_entry(bs, opened, x, d[i].1) && !(bs.contains_key(x) && d[i].1 == RawStatus::Appeared) {
                let m = check_meta(x, find_opened(opened, x)->0)->Ok_0;
                assert(n[x] == changed_entry(n, x, m));
            }
        } else {
            assert(same_at(n, bn, x));
        }
    }
}

} // verus!
