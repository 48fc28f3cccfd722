//! Parallel edits: the transport presents an object edited on two devices; the losing
//! version becomes a copy, a node of its own under a new identity.
use vstd::prelude::*;

use crate::delta::{lemma_map_values_insert, DataError, ErrV};
use crate::ident::{BodyName, NodeId, ObjectName};
use crate::laws::consistent;
use crate::meta::{Meta, MetaV, NodeBody, ParentRef, Place, PlaceV, SchemaVersion};
use crate::sorted_map::{increasing, law_key_order_is_canonical, lemma_ordering_exists, SortedMap};
use crate::table::{index_children, reindex, EntryV, NodeEntry, Sort, SortV, Table};
use crate::validate::{
    free_name, is_taken, key_order, key_places, lemma_max_name_len, max_name_len, nv, nv_of,
    ordered_nodes, places, resolutions_view, settled_name, Resolution, ResolutionV, ValidatedState,
};

verus! {

pub struct LosingVersionV {
    pub object: Seq<char>,
    pub original: Seq<char>,
    pub copy: Seq<char>,
    pub copy_body: Option<Seq<char>>,
}

/// The losing version of an object that the transport reported in conflict, as the
/// runtime prepares it: `object` is the object in conflict and `original` the node it
/// belongs to; `copy` is the meta object of the copy, named with a new nonce, and
/// `copy_body` the body object under which the losing content is sealed when the original
/// is a secret.
#[derive(Debug, Clone)]
pub struct LosingVersion {
    pub object: ObjectName,
    pub original: NodeId,
    pub copy: ObjectName,
    pub copy_body: Option<ObjectName>,
}

impl View for LosingVersion {
    type V = LosingVersionV;

    open spec fn view(&self) -> LosingVersionV {
        LosingVersionV {
            object: self.object@,
            original: self.original@,
            copy: self.copy@,
            copy_body: match self.copy_body {
                Some(b) => Some(b@),
                None => None,
            },
        }
    }
}

pub open spec fn losing_view(v: Seq<LosingVersion>) -> Seq<LosingVersionV> {
    v.map_values(|l: LosingVersion| l@)
}

pub struct Copied {
    pub sorts: Map<Seq<char>, SortV>,
    pub nodes: Map<Seq<char>, EntryV>,
    pub resolutions: Seq<ResolutionV>,
}

/// The object of `lv` belongs to its original: it is the original's meta, or its body.
pub open spec fn owns(sorts: Map<Seq<char>, SortV>, nodes: Map<Seq<char>, EntryV>, lv: LosingVersionV) -> bool {
    &&& nodes.contains_key(lv.original)
    &&& sorts.contains_key(lv.object)
    &&& (sorts[lv.object] == SortV::Meta(lv.original) || (sorts[lv.object] is Body
        && nodes[lv.original].meta.body == Some(lv.object)))
}

/// The names the copy of `lv` would be born under are taken, or its body does not go with
/// the original: a secret's copy has a body of its own, a directory's has none.
pub open spec fn copy_clashes(sorts: Map<Seq<char>, SortV>, nodes: Map<Seq<char>, EntryV>, lv: LosingVersionV) -> bool {
    ||| sorts.contains_key(lv.copy)
    ||| nodes.contains_key(lv.copy)
    ||| (lv.copy_body is Some) != (nodes[lv.original].meta.body is Some)
    ||| (lv.copy_body is Some && (sorts.contains_key(lv.copy_body->0) || lv.copy_body->0 == lv.copy))
}

/// The place of a copy of the node whose entry is `e`: under the same parent, its name
/// with the suffix `~` until no place of the graph holds it.
pub open spec fn copy_place(nodes: Map<Seq<char>, EntryV>, e: EntryV) -> PlaceV {
    PlaceV {
        parent: e.meta.place.parent,
        name: settled_name(key_places(nodes, key_order(nodes)), e.meta.place),
    }
}

/// One losing version made a copy.
pub open spec fn copy_step(st: Copied, lv: LosingVersionV) -> Result<Copied, ErrV> {
    if !owns(st.sorts, st.nodes, lv) {
        Err(ErrV::UnknownObject(lv.object))
    } else if copy_clashes(st.sorts, st.nodes, lv) {
        Err(ErrV::InconsistentDelta(lv.copy))
    } else {
        let e = st.nodes[lv.original];
        let pl = copy_place(st.nodes, e);
        let sorts1 = st.sorts.insert(lv.copy, SortV::Meta(lv.copy));
        Ok(
            Copied {
                sorts: match lv.copy_body {
                    Some(b) => sorts1.insert(b, SortV::Body(b)),
                    None => sorts1,
                },
                nodes: st.nodes.insert(
                    lv.copy,
                    EntryV { meta: MetaV { schema: e.meta.schema, place: pl, body: lv.copy_body }, hash: None },
                ),
                resolutions: st.resolutions.push(
                    ResolutionV::ConflictCopy { original: lv.original, copy: lv.copy, copy_place: pl },
                ),
            },
        )
    }
}

/// The losing versions `lvs` made copies, in their order.
pub open spec fn copies(
    sorts: Map<Seq<char>, SortV>,
    nodes: Map<Seq<char>, EntryV>,
    lvs: Seq<LosingVersionV>,
) -> Result<Copied, ErrV>
    decreases lvs.len(),
{
    if lvs.len() == 0 {
        Ok(Copied { sorts, nodes, resolutions: Seq::empty() })
    } else {
        match copies(sorts, nodes, lvs.drop_last()) {
            Err(e) => Err(e),
            Ok(c) => copy_step(c, lvs.last()),
        }
    }
}

proof fn lemma_copies_stop(
    sorts: Map<Seq<char>, SortV>,
    nodes: Map<Seq<char>, EntryV>,
    lvs: Seq<LosingVersionV>,
    i: int,
)
    requires
        0 <= i <= lvs.len(),
        copies(sorts, nodes, lvs.take(i)) is Err,
    ensures
        copies(sorts, nodes, lvs) == copies(sorts, nodes, lvs.take(i)),
    decreases lvs.len() - i,
{
    if i < lvs.len() {
        assert(lvs.take(i + 1).drop_last() =~= lvs.take(i));
        lemma_copies_stop(sorts, nodes, lvs, i + 1);
    } else {
        assert(lvs.take(i) =~= lvs);
    }
}

/// Makes each losing version of `losing`, in its order, a copy in the validated `state`:
/// its object must belong to the node it names (else `UnknownObject`), and the copy's
/// names must be new and its body go with the original (else `InconsistentDelta`). The
/// copy is born with the original's schema at a place under the original's parent whose
/// name no node holds, and a `ConflictCopy` record names it.
pub fn conflict_copies(state: ValidatedState, losing: &Vec<LosingVersion>) -> (r: Result<ValidatedState, DataError>)
    ensures
        match copies(state.table@.sorts, state.table@.nodes, losing_view(losing@)) {
            Ok(c) => r matches Ok(v) && {
                &&& v.table@.sorts == c.sorts
                &&& v.table@.nodes == c.nodes
                &&& ordered_nodes(c.nodes, v.table.nodes.keys())
                &&& v.table@.mark == state.table@.mark
                &&& v.table@.children == index_children(v.table.nodes.keys(), c.nodes)
                &&& resolutions_view(v.resolutions@) == resolutions_view(state.resolutions@) + c.resolutions
            },
            Err(e) => r matches Err(x) && x@ == e,
        },
{
    let ghost s0 = state.table@.sorts;
    let ghost n0 = state.table@.nodes;
    let ghost r0 = resolutions_view(state.resolutions@);
    let ghost lv = losing_view(losing@);
    let ValidatedState { table, resolutions } = state;
    let Table { sorts, nodes, children: _, mark } = table;
    let mut sorts = sorts;
    let mut nodes = nodes;
    let mut resolutions = resolutions;
    let k = losing.len();
    let mut j: usize = 0;
    assert(lv.take(0) =~= Seq::<LosingVersionV>::empty());
    assert(r0 + Seq::<ResolutionV>::empty() =~= r0);
    while j < k
        invariant
            k == losing@.len(),
            j <= k,
            lv == losing_view(losing@),
            s0 == state.table@.sorts,
            n0 == state.table@.nodes,
            copies(s0, n0, lv.take(j as int)) == Ok::<Copied, ErrV>(
                Copied {
                    sorts: crate::delta::sorts_view(sorts@),
                    nodes: nv(nodes),
                    resolutions: copies(s0, n0, lv.take(j as int))->Ok_0.resolutions,
                },
            ),
            resolutions_view(resolutions@) == r0 + copies(s0, n0, lv.take(j as int))->Ok_0.resolutions,
        decreases k - j,
    {
        proof {
            assert(lv.take(j + 1).drop_last() =~= lv.take(j as int));
            assert(lv.take(j + 1).last() == lv[j as int]);
            assert(lv[j as int] == losing@[j as int]@);
        }
        let ghost st = copies(s0, n0, lv.take(j as int))->Ok_0;
        let l = &losing[j];
        // The object belongs to the original.
        let owned = match nodes.get(&l.original) {
            None => false,
            Some(e) => match sorts.get(&l.object) {
                Some(Sort::Meta(id)) => id.same(&l.original),
                Some(Sort::Body(_)) => match &e.meta.body {
                    NodeBody::Secret(b) => b.is_object(&l.object),
                    NodeBody::Directory => false,
                },
                Some(Sort::Chaff) => false,
                None => false,
            },
        };
        assert(owned == owns(st.sorts, st.nodes, lv[j as int]));
        if !owned {
            proof {
                lemma_copies_stop(s0, n0, lv, j + 1);
            }
            return Err(DataError::UnknownObject(l.object.dup()));
        }
        let copy_id = NodeId::born(l.copy.dup());
        let e = match nodes.get(&l.original) {
            Some(e) => e,
            None => {
                return Err(DataError::UnknownObject(l.object.dup()));
            },
        };
        let body_clash = match (&e.meta.body, &l.copy_body) {
            (NodeBody::Secret(_), Some(b)) => sorts.contains(b) || b.same(&l.copy),
            (NodeBody::Directory, None) => false,
            _ => true,
        };
        let clash = sorts.contains(&l.copy) || nodes.contains(&copy_id) || body_clash;
        assert(clash == copy_clashes(st.sorts, st.nodes, lv[j as int]));
        if clash {
            proof {
                lemma_copies_stop(s0, n0, lv, j + 1);
            }
            return Err(DataError::InconsistentDelta(l.copy.dup()));
        }
        // The places taken, in increasing order of identity.
        let n = nodes.len();
        proof {
            use_type_invariant(&nodes);
            nodes.lemma_view_dom();
        }
        let ghost keys = nodes.keys();
        proof {
            let kk = key_order(nv(nodes));
            assert(ordered_nodes(nv(nodes), keys));
            assert(ordered_nodes(nv(nodes), kk));
            law_key_order_is_canonical(kk, keys);
        }
        let mut taken: Vec<Place> = Vec::new();
        let mut i: usize = 0;
        assert(keys.take(0) =~= Seq::<Seq<char>>::empty());
        assert(places(taken@) =~= key_places(nv(nodes), keys.take(0)));
        while i < n
            invariant
                n == keys.len(),
                nodes.keys() == keys,
                nodes.is_sorted(),
                i <= n,
                places(taken@) == key_places(nv(nodes), keys.take(i as int)),
                forall|kk: Seq<char>| nodes@.contains_key(kk) <==> keys.contains(kk),
            decreases n - i,
        {
            proof {
                nodes.lemma_view_at(i as int);
            }
            let ghost t0 = taken@;
            taken.push(nodes.value_at(i).meta.place.dup());
            assert(places(taken@) =~= places(t0).push(nv(nodes)[keys[i as int]].meta.place));
            assert(key_places(nv(nodes), keys.take(i + 1)) =~= key_places(nv(nodes), keys.take(i as int)).push(
                nv(nodes)[keys[i as int]].meta.place,
            ));
            i = i + 1;
        }
        assert(keys.take(n as int) =~= keys);
        let ghost tv = places(taken@);
        assert(tv == key_places(nv(nodes), key_order(nv(nodes))));
        let parent = e.meta.place.parent.dup();
        let orig = e.meta.place.name.dup();
        let mut name = orig.dup();
        let ghost bound = (max_name_len(tv) + 1) as int;
        let tilde = "~";
        proof {
            reveal_strlit("~");
        }
        while is_taken(&taken, &parent, &name)
            invariant
                tv == places(taken@),
                bound == (max_name_len(tv) + 1) as int,
                tilde@ == seq!['~'],
                free_name(tv, parent@, name@, bound) == free_name(tv, parent@, orig@, bound),
            decreases bound - name@.len(),
        {
            proof {
                lemma_max_name_len(tv, PlaceV { parent: parent@, name: name@ });
            }
            assert(name@.push('~') =~= name@ + tilde@);
            name = name.tagged(tilde);
        }
        let pl = Place { parent, name };
        assert(pl@ == copy_place(nv(nodes), e@));
        let body = match &l.copy_body {
            Some(b) => NodeBody::Secret(BodyName::new(b.dup())),
            None => NodeBody::Directory,
        };
        let entry = NodeEntry {
            meta: Meta { schema: SchemaVersion(e.meta.schema.0), place: pl.dup(), body },
            plain_hash: None,
        };
        let ghost old_nodes = nodes@;
        let ghost old_sorts = sorts@;
        let ghost before = resolutions@;
        nodes.insert(copy_id.dup(), entry);
        proof {
            lemma_map_values_insert(old_nodes, l.copy@, entry, |y: NodeEntry| y@);
        }
        let sm = Sort::Meta(copy_id.dup());
        let ghost smg = sm;
        sorts.insert(l.copy.dup(), sm);
        proof {
            lemma_map_values_insert(old_sorts, l.copy@, smg, |y: Sort| y@);
        }
        match &l.copy_body {
            Some(b) => {
                let ghost mid = sorts@;
                let sb = Sort::Body(BodyName::new(b.dup()));
                let ghost sbg = sb;
                sorts.insert(b.dup(), sb);
                proof {
                    lemma_map_values_insert(mid, b@, sbg, |y: Sort| y@);
                }
            },
            None => {},
        }
        let x = Resolution::ConflictCopy { original: l.original.dup(), copy: copy_id, copy_place: pl };
        resolutions.push(x);
        assert(nv(nodes) =~= nv_of(old_nodes).insert(l.copy@, entry@));
        assert(resolutions_view(resolutions@) =~= resolutions_view(before).push(x@));
        j = j + 1;
    }
    assert(lv.take(k as int) =~= lv);
    proof {
        use_type_invariant(&nodes);
        nodes.lemma_view_dom();
    }
    let children = reindex(&nodes);
    Ok(ValidatedState { table: Table { sorts, nodes, children, mark }, resolutions })
}

/// No two nodes of `nodes` share a place.
pub open spec fn places_unique(nodes: Map<Seq<char>, EntryV>) -> bool {
    forall|a: Seq<char>, b: Seq<char>|
        #[trigger] nodes.contains_key(a) && #[trigger] nodes.contains_key(b) && a != b ==> nodes[a].meta.place
            != nodes[b].meta.place
}

/// Every parent that a node of `nodes` refers to is a node.
pub open spec fn parents_present(nodes: Map<Seq<char>, EntryV>) -> bool {
    forall|k: Seq<char>|
        #[trigger] nodes.contains_key(k) && nodes[k].meta.place.parent is Some ==> nodes.contains_key(
            nodes[k].meta.place.parent->0,
        )
}

/// Making copies keeps a validated graph sound: no two nodes share a place, every parent
/// is a node, sorts and nodes agree, and the nodes there were stay as they were. Each copy
/// record names an original that is a node, and a copy that is a new node, under the
/// original's parent, at the place the record gives.
pub proof fn law_copies_keep_the_graph_sound(
    sorts: Map<Seq<char>, SortV>,
    nodes: Map<Seq<char>, EntryV>,
    lvs: Seq<LosingVersionV>,
)
    requires
        nodes.dom().finite(),
        places_unique(nodes),
        parents_present(nodes),
        consistent(sorts, nodes),
        copies(sorts, nodes, lvs) is Ok,
    ensures
        ({
            let c = copies(sorts, nodes, lvs)->Ok_0;
            &&& c.nodes.dom().finite()
            &&& places_unique(c.nodes)
            &&& parents_present(c.nodes)
            &&& consistent(c.sorts, c.nodes)
            &&& forall|k: Seq<char>| #[trigger] nodes.contains_key(k) ==> c.nodes.contains_key(k) && c.nodes[k] == nodes[k]
            &&& forall|i: int| 0 <= i < c.resolutions.len() ==> (#[trigger] c.resolutions[i] matches ResolutionV::ConflictCopy { original, copy, copy_place }
                && c.nodes.contains_key(original) && c.nodes.contains_key(copy) && !nodes.contains_key(copy)
                && c.nodes[copy].meta.place == copy_place && copy_place.parent == c.nodes[original].meta.place.parent)
        }),
    decreases lvs.len(),
{
    if lvs.len() > 0 {
        law_copies_keep_the_graph_sound(sorts, nodes, lvs.drop_last());
        let c0 = copies(sorts, nodes, lvs.drop_last())->Ok_0;
        let l = lvs.last();
        let c = copies(sorts, nodes, lvs)->Ok_0;
        assert(c == copy_step(c0, l)->Ok_0);
        let e = c0.nodes[l.original];
        let keys = lemma_ordering_exists(c0.nodes.dom());
        assert(ordered_nodes(c0.nodes, keys));
        let kk = key_order(c0.nodes);
        assert(ordered_nodes(c0.nodes, kk));
        let taken = key_places(c0.nodes, kk);
        let pl = copy_place(c0.nodes, e);
        crate::laws::lemma_free_name_is_free(taken, e.meta.place.parent, e.meta.place.name, (max_name_len(taken) + 1) as int);
        assert(!taken.contains(pl));
        assert forall|x: Seq<char>| #[trigger] c0.nodes.contains_key(x) implies c0.nodes[x].meta.place != pl by {
            assert(kk.contains(x));
            let q = kk.index_of(x);
            assert(taken[q] == c0.nodes[x].meta.place);
        }
        let copy = l.copy;
        assert(!c0.nodes.contains_key(copy));
        assert forall|a: Seq<char>, b: Seq<char>|
            #[trigger] c.nodes.contains_key(a) && #[trigger] c.nodes.contains_key(b) && a != b implies c.nodes[a].meta.place
                != c.nodes[b].meta.place by {
            if a == copy {
                assert(c0.nodes.contains_key(b));
            } else if b == copy {
                assert(c0.nodes.contains_key(a));
            } else {
                assert(c0.nodes.contains_key(a) && c0.nodes.contains_key(b));
            }
        }
        assert forall|k: Seq<char>|
            #[trigger] c.nodes.contains_key(k) && c.nodes[k].meta.place.parent is Some implies c.nodes.contains_key(
                c.nodes[k].meta.place.parent->0,
            ) by {
            if k == copy {
                assert(c0.nodes.contains_key(l.original));
            }
        }
        assert forall|k: Seq<char>| #[trigger] c.nodes.contains_key(k) implies c.sorts.contains_key(k) && c.sorts[k]
            == SortV::Meta(k) by {
            if k != copy {
                assert(c0.sorts.contains_key(k));
                if l.copy_body is Some {
                    assert(l.copy_body->0 != k);
                }
            }
        }
        assert forall|k: Seq<char>| #[trigger] c.sorts.contains_key(k) implies match c.sorts[k] {
            SortV::Meta(id) => id == k && c.nodes.contains_key(k),
            SortV::Body(b) => b == k,
            SortV::Chaff => true,
        } by {}
        assert forall|i: int| 0 <= i < c.resolutions.len() implies (#[trigger] c.resolutions[i] matches ResolutionV::ConflictCopy { original, copy, copy_place }
            && c.nodes.contains_key(original) && c.nodes.contains_key(copy) && !nodes.contains_key(copy)
            && c.nodes[copy].meta.place == copy_place && copy_place.parent == c.nodes[original].meta.place.parent) by {
            if i < c0.resolutions.len() {
                assert(c.resolutions[i] == c0.resolutions[i]);
            } else {
                assert(!nodes.contains_key(copy));
            }
        }
    }
}

/// A copy is what its losing version says: every copy record comes from a losing version
/// that names the same original and the same copy, and the copy's body is exactly the
/// body that version gives. A secret's copy is a secret and a directory's copy a
/// directory, so the losing content always has a node to be reached through.
pub proof fn law_copies_are_what_the_losing_versions_say(
    sorts: Map<Seq<char>, SortV>,
    nodes: Map<Seq<char>, EntryV>,
    lvs: Seq<LosingVersionV>,
)
    requires
        copies(sorts, nodes, lvs) is Ok,
    ensures
        ({
            let c = copies(sorts, nodes, lvs)->Ok_0;
            forall|i: int| 0 <= i < c.resolutions.len() ==> (#[trigger] c.resolutions[i] matches ResolutionV::ConflictCopy { original, copy, copy_place }
                && c.nodes.contains_key(copy) && c.nodes.contains_key(original)
                && (c.nodes[copy].meta.body is Some <==> c.nodes[original].meta.body is Some)
                && exists|j: int| 0 <= j < lvs.len() && #[trigger] lvs[j].copy == copy && lvs[j].original == original
                    && c.nodes[copy].meta.body == lvs[j].copy_body)
        }),
    decreases lvs.len(),
{
    if lvs.len() > 0 {
        let e = lvs.drop_last();
        law_copies_are_what_the_losing_versions_say(sorts, nodes, e);
        let c0 = copies(sorts, nodes, e)->Ok_0;
        let l = lvs.last();
        let c = copies(sorts, nodes, lvs)->Ok_0;
        assert(c == copy_step(c0, l)->Ok_0);
        assert(!c0.nodes.contains_key(l.copy));
        assert(c0.nodes.contains_key(l.original));
        assert forall|i: int| 0 <= i < c.resolutions.len() implies (#[trigger] c.resolutions[i] matches ResolutionV::ConflictCopy { original, copy, copy_place }
            && c.nodes.contains_key(copy) && c.nodes.contains_key(original)
            && (c.nodes[copy].meta.body is Some <==> c.nodes[original].meta.body is Some)
            && exists|j: int| 0 <= j < lvs.len() && #[trigger] lvs[j].copy == copy && lvs[j].original == original
                && c.nodes[copy].meta.body == lvs[j].copy_body) by {
            if i < c0.resolutions.len() {
                assert(c.resolutions[i] == c0.resolutions[i]);
                let copy = c0.resolutions[i]->ConflictCopy_copy;
                let original = c0.resolutions[i]->ConflictCopy_original;
                let j = choose|j: int| 0 <= j < e.len() && #[trigger] e[j].copy == copy && e[j].original == original
                    && c0.nodes[copy].meta.body == e[j].copy_body;
                assert(lvs[j] == e[j]);
                assert(copy != l.copy);
                assert(original != l.copy);
            } else {
                assert(lvs[lvs.len() - 1] == l);
            }
        }
    }
}

} // verus!
