//! What each operation is for, stated on its inputs and results: legal names, the metas to
//! open, the meta changes that unfolding reports, and the body links that validation
//! refuses to change.
use vstd::prelude::*;

use crate::delta::{
    apply_spec, body_pass, body_step, check_meta, find_opened, lemma_no_repeat_distinct,
    meta_pass, meta_step, to_open, ApplyState, EventV, OpenedMetaV, RawStatus,
};
use crate::laws::consistent;
use crate::meta::{is_legal_name, MetaV, PlaceV};
use crate::replay::{lemma_body_pass_done, lemma_meta_pass_done, meta_done};
use crate::table::{EntryV, SortV, TableV};
use crate::validate::{first_broken_link, validate_spec};

verus! {

// ---------------------------------------------------------------------------------
// Names.

/// The legal names are exactly those that are not empty, are neither `.` nor `..`, and
/// hold no `/`, no `\` and no control character (the Unicode category Cc: the code
/// points below 0x20 and those from 0x7F to 0x9F). Every other character is allowed,
/// letters beyond ASCII among them: `NodeName::parse` accepts exactly these names.
pub proof fn law_legal_names(s: Seq<char>)
    ensures
        is_legal_name(s) <==> {
            &&& s.len() > 0
            &&& s != seq!['.']
            &&& s != seq!['.', '.']
            &&& forall|i: int| 0 <= i < s.len() ==> {
                &&& #[trigger] s[i] != '/'
                &&& s[i] != '\\'
                &&& !((s[i] as u32) < 0x20 || (0x7f <= (s[i] as u32) && (s[i] as u32) <= 0x9f))
            }
        },
{
}

// ---------------------------------------------------------------------------------
// The metas to open.

/// The packer opens only what classifying the delta needs: each object that
/// `metas_to_open` names is named by an entry of the delta as appeared and unknown to
/// the table, or as modified and known to the table as a meta. Every such entry is named.
/// So nothing is opened for a death, a body, or a meta that appears again.
pub proof fn law_metas_to_open_are_new_objects_and_changed_metas(
    sorts: Map<Seq<char>, SortV>,
    d: Seq<(Seq<char>, RawStatus)>,
)
    ensures
        forall|x: Seq<char>| #[trigger] to_open(sorts, d).contains(x) ==> exists|i: int|
            0 <= i < d.len() && #[trigger] d[i].0 == x && {
                ||| !sorts.contains_key(x) && d[i].1 == RawStatus::Appeared
                ||| sorts.contains_key(x) && sorts[x] is Meta && d[i].1 == RawStatus::Modified
            },
        forall|i: int|
            0 <= i < d.len() && {
                ||| !sorts.contains_key(d[i].0) && d[i].1 == RawStatus::Appeared
                ||| sorts.contains_key(d[i].0) && sorts[d[i].0] is Meta && d[i].1 == RawStatus::Modified
            } ==> to_open(sorts, d).contains(#[trigger] d[i].0),
    decreases d.len(),
{
    if d.len() > 0 {
        let e = d.drop_last();
        law_metas_to_open_are_new_objects_and_changed_metas(sorts, e);
        let prev = to_open(sorts, e);
        let cur = to_open(sorts, d);
        let (name, status) = d.last();
        assert forall|x: Seq<char>| #[trigger] cur.contains(x) implies exists|i: int|
            0 <= i < d.len() && #[trigger] d[i].0 == x && {
                ||| !sorts.contains_key(x) && d[i].1 == RawStatus::Appeared
                ||| sorts.contains_key(x) && sorts[x] is Meta && d[i].1 == RawStatus::Modified
            } by {
            if prev.contains(x) {
                let i = choose|i: int|
                    0 <= i < e.len() && #[trigger] e[i].0 == x && {
                        ||| !sorts.contains_key(x) && e[i].1 == RawStatus::Appeared
                        ||| sorts.contains_key(x) && sorts[x] is Meta && e[i].1 == RawStatus::Modified
                    };
                assert(d[i] == e[i]);
            } else {
                let q = cur.index_of(x);
                assert(cur != prev);
                assert(cur == prev.push(name));
                if q < prev.len() {
                    assert(prev[q] == x);
                }
                assert(d[d.len() - 1].0 == x);
            }
        }
        assert forall|i: int|
            0 <= i < d.len() && {
                ||| !sorts.contains_key(d[i].0) && d[i].1 == RawStatus::Appeared
                ||| sorts.contains_key(d[i].0) && sorts[d[i].0] is Meta && d[i].1 == RawStatus::Modified
            } implies cur.contains(#[trigger] d[i].0) by {
            if i < d.len() - 1 {
                assert(e[i] == d[i]);
                assert(prev.contains(e[i].0));
                let q = prev.index_of(e[i].0);
                if cur != prev {
                    assert(cur == prev.push(name));
                    assert(cur[q] == d[i].0);
                }
            } else {
                assert(cur == prev.push(name));
                assert(cur[cur.len() - 1] == d[i].0);
            }
        }
    }
}

// ---------------------------------------------------------------------------------
// Meta changes.

/// The event `e`, when it is a meta change, reports the meta that `o` opened for its
/// node, and the node is known as a meta whose entry in the delta is modified; when it is
/// a birth, it reports the meta opened for the new node, unknown before and appeared.
pub open spec fn reports_opened(
    bs: Map<Seq<char>, SortV>,
    o: Seq<OpenedMetaV>,
    d: Seq<(Seq<char>, RawStatus)>,
    e: EventV,
) -> bool {
    &&& (e is MetaChanged ==> {
        let id = e->MetaChanged_id;
        let nm = e->MetaChanged_new_meta;
        &&& find_opened(o, id) is Some
        &&& nm.schema == find_opened(o, id)->0.schema
        &&& nm.place.parent == find_opened(o, id)->0.parent
        &&& nm.place.name == find_opened(o, id)->0.name
        &&& nm.body == find_opened(o, id)->0.body
        &&& bs.contains_key(id) && bs[id] == SortV::Meta(id)
        &&& d.contains((id, RawStatus::Modified))
    })
    &&& (e is NodeBorn ==> {
        let id = e->NodeBorn_id;
        let m = e->NodeBorn_meta;
        &&& find_opened(o, id) is Some
        &&& m.schema == find_opened(o, id)->0.schema
        &&& m.place.parent == find_opened(o, id)->0.parent
        &&& m.place.name == find_opened(o, id)->0.name
        &&& m.body == find_opened(o, id)->0.body
        &&& !bs.contains_key(id)
        &&& d.contains((id, RawStatus::Appeared))
    })
}

proof fn lemma_meta_pass_reports(
    bs: Map<Seq<char>, SortV>,
    bn: Map<Seq<char>, EntryV>,
    o: Seq<OpenedMetaV>,
    d: Seq<(Seq<char>, RawStatus)>,
    k: int,
)
    requires
        consistent(bs, bn),
        0 <= k <= d.len(),
        meta_pass(ApplyState { sorts: bs, nodes: bn, events: Seq::empty() }, bs, o, d.take(k)) is Ok,
    ensures
        ({
            let ev = meta_pass(ApplyState { sorts: bs, nodes: bn, events: Seq::empty() }, bs, o, d.take(k))->Ok_0.events;
            forall|a: int| 0 <= a < ev.len() ==> #[trigger] reports_opened(bs, o, d, ev[a])
        }),
    decreases k,
{
    let st0 = ApplyState { sorts: bs, nodes: bn, events: Seq::empty() };
    if k == 0 {
        assert(d.take(0) =~= Seq::<(Seq<char>, RawStatus)>::empty());
    } else {
        assert(d.take(k).drop_last() =~= d.take(k - 1));
        assert(d.take(k).last() == d[k - 1]);
        lemma_meta_pass_reports(bs, bn, o, d, k - 1);
        let prev = meta_pass(st0, bs, o, d.take(k - 1))->Ok_0;
        let (name, status) = d[k - 1];
        let st = meta_pass(st0, bs, o, d.take(k))->Ok_0;
        assert(st == meta_step(prev, bs, o, name, status)->Ok_0);
        assert forall|a: int| 0 <= a < st.events.len() implies #[trigger] reports_opened(bs, o, d, st.events[a]) by {
            if a < prev.events.len() {
                assert(st.events[a] == prev.events[a]);
            } else {
                if bs.contains_key(name) && bs[name] is Meta {
                    assert(bs[name] == SortV::Meta(name));
                }
                assert(d[k - 1] == (name, status));
                if st.events[a] is MetaChanged {
                    assert(d.contains((name, RawStatus::Modified)));
                }
                if st.events[a] is NodeBorn {
                    assert(d.contains((name, RawStatus::Appeared)));
                }
            }
        }
    }
}

proof fn lemma_body_pass_reports(
    bs: Map<Seq<char>, SortV>,
    st1: ApplyState,
    o: Seq<OpenedMetaV>,
    d: Seq<(Seq<char>, RawStatus)>,
    k: int,
)
    requires
        forall|a: int| 0 <= a < st1.events.len() ==> #[trigger] reports_opened(bs, o, d, st1.events[a]),
        0 <= k <= d.len(),
        body_pass(st1, bs, o, d.take(k)) is Ok,
    ensures
        ({
            let ev = body_pass(st1, bs, o, d.take(k))->Ok_0.events;
            forall|a: int| 0 <= a < ev.len() ==> #[trigger] reports_opened(bs, o, d, ev[a])
        }),
    decreases k,
{
    if k == 0 {
        assert(d.take(0) =~= Seq::<(Seq<char>, RawStatus)>::empty());
    } else {
        assert(d.take(k).drop_last() =~= d.take(k - 1));
        assert(d.take(k).last() == d[k - 1]);
        lemma_body_pass_reports(bs, st1, o, d, k - 1);
        let prev = body_pass(st1, bs, o, d.take(k - 1))->Ok_0;
        let (name, status) = d[k - 1];
        let st = body_pass(st1, bs, o, d.take(k))->Ok_0;
        assert(st == body_step(prev, bs, o, name, status)->Ok_0);
        assert forall|a: int| 0 <= a < st.events.len() implies #[trigger] reports_opened(bs, o, d, st.events[a]) by {
            if a < prev.events.len() {
                assert(st.events[a] == prev.events[a]);
            }
        }
    }
}

/// A meta change reports the meta after the change: for every `MetaChanged { id,
/// new_meta }` that laying a delta reports, `new_meta` is the meta opened for `id` (its
/// schema, its place and its body), the delta names `id` as a modified meta, and the
/// table it returns holds `id` at that place. Likewise every `NodeBorn { id, meta }`
/// reports the meta opened for `id`, which the table did not know and the delta names as
/// appeared, and the table returned holds that very meta for `id`.
pub proof fn law_meta_change_reports_the_new_meta(
    base: TableV,
    opened: Seq<OpenedMetaV>,
    delta: Seq<(Seq<char>, RawStatus)>,
)
    requires
        consistent(base.sorts, base.nodes),
        apply_spec(base, opened, delta) is Ok,
    ensures
        ({
            let r = apply_spec(base, opened, delta)->Ok_0;
            &&& forall|a: int| 0 <= a < r.events.len() && #[trigger] r.events[a] is MetaChanged ==> {
                let id = r.events[a]->MetaChanged_id;
                let nm = r.events[a]->MetaChanged_new_meta;
                &&& find_opened(opened, id) is Some
                &&& nm.schema == find_opened(opened, id)->0.schema
                &&& nm.place.parent == find_opened(opened, id)->0.parent
                &&& nm.place.name == find_opened(opened, id)->0.name
                &&& nm.body == find_opened(opened, id)->0.body
                &&& delta.contains((id, RawStatus::Modified))
                &&& r.nodes.contains_key(id)
                &&& r.nodes[id].meta.place == nm.place
            }
            &&& forall|a: int| 0 <= a < r.events.len() && #[trigger] r.events[a] is NodeBorn ==> {
                let id = r.events[a]->NodeBorn_id;
                let m = r.events[a]->NodeBorn_meta;
                &&& find_opened(opened, id) is Some
                &&& m.schema == find_opened(opened, id)->0.schema
                &&& m.place.parent == find_opened(opened, id)->0.parent
                &&& m.place.name == find_opened(opened, id)->0.name
                &&& m.body == find_opened(opened, id)->0.body
                &&& !base.sorts.contains_key(id)
                &&& delta.contains((id, RawStatus::Appeared))
                &&& r.nodes.contains_key(id)
                &&& r.nodes[id].meta == m
            }
        }),
{
    let bs = base.sorts;
    let bn = base.nodes;
    let d = delta;
    lemma_no_repeat_distinct(d);
    let st0 = ApplyState { sorts: bs, nodes: bn, events: Seq::empty() };
    assert(d.take(d.len() as int) =~= d);
    lemma_meta_pass_reports(bs, bn, opened, d, d.len() as int);
    lemma_meta_pass_done(bs, bn, opened, d, d.len() as int);
    let st1 = meta_pass(st0, bs, opened, d)->Ok_0;
    lemma_body_pass_reports(bs, st1, opened, d, d.len() as int);
    lemma_body_pass_done(bs, bn, st1, opened, d, d.len() as int);
    let r = apply_spec(base, opened, delta)->Ok_0;
    assert(r == body_pass(st1, bs, opened, d)->Ok_0);
    assert forall|a: int| 0 <= a < r.events.len() && #[trigger] r.events[a] is MetaChanged implies {
        let id = r.events[a]->MetaChanged_id;
        let nm = r.events[a]->MetaChanged_new_meta;
        &&& find_opened(opened, id) is Some
        &&& nm.schema == find_opened(opened, id)->0.schema
        &&& nm.place.parent == find_opened(opened, id)->0.parent
        &&& nm.place.name == find_opened(opened, id)->0.name
        &&& nm.body == find_opened(opened, id)->0.body
        &&& delta.contains((id, RawStatus::Modified))
        &&& r.nodes.contains_key(id)
        &&& r.nodes[id].meta.place == nm.place
    } by {
        assert(reports_opened(bs, opened, d, r.events[a]));
        let id = r.events[a]->MetaChanged_id;
        let i = d.index_of((id, RawStatus::Modified));
        assert(d[i].0 == id);
        assert(meta_done(st1.sorts, st1.nodes, bs, bn, opened, d[i].0, d[i].1));
        let m = check_meta(id, find_opened(opened, id)->0)->Ok_0;
        assert(st1.nodes[id] == crate::delta::changed_entry(st1.nodes, id, m));
    }
    assert forall|a: int| 0 <= a < r.events.len() && #[trigger] r.events[a] is NodeBorn implies {
        let id = r.events[a]->NodeBorn_id;
        let m = r.events[a]->NodeBorn_meta;
        &&& find_opened(opened, id) is Some
        &&& m.schema == find_opened(opened, id)->0.schema
        &&& m.place.parent == find_opened(opened, id)->0.parent
        &&& m.place.name == find_opened(opened, id)->0.name
        &&& m.body == find_opened(opened, id)->0.body
        &&& !base.sorts.contains_key(id)
        &&& delta.contains((id, RawStatus::Appeared))
        &&& r.nodes.contains_key(id)
        &&& r.nodes[id].meta == m
    } by {
        assert(reports_opened(bs, opened, d, r.events[a]));
        let id = r.events[a]->NodeBorn_id;
        let i = d.index_of((id, RawStatus::Appeared));
        assert(d[i].0 == id);
        assert(meta_done(st1.sorts, st1.nodes, bs, bn, opened, d[i].0, d[i].1));
        assert(!bn.contains_key(id));
        let m = check_meta(id, find_opened(opened, id)->0)->Ok_0;
        assert(st1.nodes[id] == crate::delta::changed_entry(st1.nodes, id, m));
    }
}

// ---------------------------------------------------------------------------------
// Body links.

/// Validation accepts no change of a body link: when it succeeds, every meta change among
/// the events that names a node of the graph carries the very body that node has, whatever
/// else the node holds (its plaintext hash among it).
pub proof fn law_validation_refuses_changed_body_links(
    t: TableV,
    events: Seq<EventV>,
    metas: Seq<OpenedMetaV>,
)
    requires
        validate_spec(t, events, metas) is Ok,
    ensures
        forall|i: int|
            0 <= i < events.len() && #[trigger] events[i] is MetaChanged && t.nodes.contains_key(
                events[i]->MetaChanged_id,
            ) ==> events[i]->MetaChanged_new_meta.body == t.nodes[events[i]->MetaChanged_id].meta.body,
{
    assert(first_broken_link(t.nodes, events) is None);
    crate::laws::lemma_no_broken_link(t.nodes, events);
}

} // verus!
