//! Computing the patches that take one scene to another.
use vstd::prelude::*;
use crate::scene::{
    entries_lookup, lemma_nodes_view, node_view, nodes_view, patches_view, value_eq, EntryView,
    NodeView, PatchView, PropertyMap, SceneDescription, SceneKey, SceneNode, ScenePatch,
};
use crate::text::chars_of;
use crate::patch::{child_position, lemma_child_position_first};

verus! {

/// A property of the new node keeps its value: the old node holds it, with a
/// value equal to the new one under `==` (so a NaN is never kept, and `0.0`
/// keeps `-0.0`).
pub open spec fn prop_unchanged(olds: Seq<EntryView>, e: EntryView) -> bool {
    match entries_lookup(olds, e.0) {
        Some(v) => value_eq(v, e.1),
        None => false,
    }
}

/// Each new property whose old value is equal to it under `==` is written the
/// same way as the old one (not `0.0` for `-0.0`).
pub open spec fn props_exact(olds: Seq<EntryView>, news: Seq<EntryView>) -> bool {
    forall|i: int|
        0 <= i < news.len() ==> match #[trigger] entries_lookup(olds, news[i].0) {
            Some(v) => value_eq(v, news[i].1) ==> v == news[i].1,
            None => true,
        }
}

/// Every property of the old node is among those of the new one.
pub open spec fn props_kept(olds: Seq<EntryView>, news: Seq<EntryView>) -> bool {
    forall|i: int| 0 <= i < olds.len() ==> (#[trigger] entries_lookup(news, olds[i].0)) is Some
}

/// One `UpdateProp` for each entry of `news`, in order, that does not keep its value.
pub open spec fn prop_patches(key: Seq<u8>, olds: Seq<EntryView>, news: Seq<EntryView>) -> Seq<PatchView>
    decreases news.len(),
{
    if news.len() == 0 {
        Seq::empty()
    } else {
        let e = news.last();
        let rest = prop_patches(key, olds, news.drop_last());
        if prop_unchanged(olds, e) {
            rest
        } else {
            rest.push(PatchView::UpdateProp { key, prop: e.0, value: e.1 })
        }
    }
}

/// One `Insert` under `parent` for each new child at a position from `from` on, in order.
pub open spec fn insert_patches(parent: Seq<u8>, from: nat, news: Seq<NodeView>) -> Seq<PatchView>
    decreases news.len(),
{
    if news.len() <= from {
        Seq::empty()
    } else {
        insert_patches(parent, from, news.drop_last()).push(
            PatchView::Insert { parent, index: (news.len() - 1) as u32, node: news.last() },
        )
    }
}

/// One `Remove` for each old child at a position from `to` on, the last first.
pub open spec fn remove_patches(olds: Seq<NodeView>, to: nat) -> Seq<PatchView>
    decreases olds.len(),
{
    if olds.len() <= to {
        Seq::empty()
    } else {
        seq![PatchView::Remove { key: olds.last().key }] + remove_patches(olds.drop_last(), to)
    }
}

pub open spec fn min_len(a: nat, b: nat) -> nat {
    if a <= b { a } else { b }
}

/// Some node of the list has the key.
pub open spec fn has_key(cs: Seq<NodeView>, k: Seq<u8>) -> bool {
    child_position(cs, k) is Some
}

/// No two nodes of the list have the same key.
pub open spec fn distinct_keys(cs: Seq<NodeView>) -> bool {
    forall|i: int, j: int| 0 <= i < cs.len() && 0 <= j < cs.len() && i != j ==> (#[trigger] cs[i]).key != (
    #[trigger] cs[j]).key
}

/// The nodes of `cs`, in order, whose key some node of `other` has.
pub open spec fn kept(cs: Seq<NodeView>, other: Seq<NodeView>) -> Seq<NodeView>
    decreases cs.len(),
{
    if cs.len() == 0 {
        Seq::empty()
    } else if has_key(other, cs.last().key) {
        kept(cs.drop_last(), other).push(cs.last())
    } else {
        kept(cs.drop_last(), other)
    }
}

/// The keys of the nodes, in order.
pub open spec fn keys_of(cs: Seq<NodeView>) -> Seq<Seq<u8>> {
    cs.map_values(|c: NodeView| c.key)
}

/// Children can be matched by key: the keys are distinct on each side, and
/// the children found on both sides come in the same order on both.
pub open spec fn keyed_ok(oc: Seq<NodeView>, nc: Seq<NodeView>) -> bool {
    &&& distinct_keys(oc)
    &&& distinct_keys(nc)
    &&& keys_of(kept(oc, nc)) == keys_of(kept(nc, oc))
}

/// One `Remove` for each old child whose key no new child has, the last first.
pub open spec fn keyed_removes(oc: Seq<NodeView>, nc: Seq<NodeView>) -> Seq<PatchView>
    decreases oc.len(),
{
    if oc.len() == 0 {
        Seq::empty()
    } else if has_key(nc, oc.last().key) {
        keyed_removes(oc.drop_last(), nc)
    } else {
        seq![PatchView::Remove { key: oc.last().key }] + keyed_removes(oc.drop_last(), nc)
    }
}

/// The patches for the first `n` old children that a new child matches by
/// key, each with that new child, in order.
pub open spec fn keyed_pairs(oc: Seq<NodeView>, nc: Seq<NodeView>, n: nat) -> Seq<PatchView>
    decreases oc, 0int, n,
{
    if n == 0 || n > oc.len() {
        Seq::empty()
    } else {
        proof {
            vstd::seq::axiom_seq_index_decreases(oc, n - 1);
        }
        keyed_pairs(oc, nc, (n - 1) as nat) + match child_position(nc, oc[n - 1].key) {
            Some(j) => diff_spec(oc[n - 1], nc[j]),
            None => Seq::empty(),
        }
    }
}

/// One `Insert` under `parent` for each new child whose key no old child has,
/// at its position among the new children, in order.
pub open spec fn keyed_inserts(parent: Seq<u8>, nc: Seq<NodeView>, oc: Seq<NodeView>) -> Seq<PatchView>
    decreases nc.len(),
{
    if nc.len() == 0 {
        Seq::empty()
    } else if has_key(oc, nc.last().key) {
        keyed_inserts(parent, nc.drop_last(), oc)
    } else {
        keyed_inserts(parent, nc.drop_last(), oc).push(
            PatchView::Insert { parent, index: (nc.len() - 1) as u32, node: nc.last() },
        )
    }
}

/// The patches for the children of two nodes with the same key. Children are
/// matched by key first (see `keyed_ok`): the old children that no new child
/// matches are removed (the last first), each matched pair is diffed, in
/// order, and the new children that no old child matches are inserted at
/// their positions. Where they cannot be matched by key, they are paired by
/// position: each pair is diffed, then the children that were added are
/// inserted, then those that were dropped are removed (the last first).
pub open spec fn child_patches(key: Seq<u8>, oc: Seq<NodeView>, nc: Seq<NodeView>) -> Seq<PatchView>
    decreases oc, 1int,
{
    if keyed_ok(oc, nc) {
        keyed_removes(oc, nc) + keyed_pairs(oc, nc, oc.len()) + keyed_inserts(key, nc, oc)
    } else {
        diff_children(oc, nc, min_len(oc.len(), nc.len())) + insert_patches(key, oc.len(), nc)
            + remove_patches(oc, nc.len())
    }
}

/// The patches that `diff` produces for a pair of nodes. Nodes whose keys or
/// kinds differ are replaced whole, and so is a node that loses a property
/// (no patch takes a property away). Otherwise: the properties that changed
/// or appeared, then the patches for the children (see `child_patches`).
pub open spec fn diff_spec(old: NodeView, new: NodeView) -> Seq<PatchView>
    decreases old, 2int,
{
    if old.key != new.key || old.kind != new.kind || !props_kept(old.props, new.props) {
        seq![PatchView::Replace { key: old.key, with: new }]
    } else {
        prop_patches(old.key, old.props, new.props) + child_patches(old.key, old.children, new.children)
    }
}

/// The patches for the first `n` pairs of children, in order.
pub open spec fn diff_children(olds: Seq<NodeView>, news: Seq<NodeView>, n: nat) -> Seq<PatchView>
    decreases olds, 0int, n,
{
    if n == 0 || n > olds.len() || n > news.len() {
        Seq::empty()
    } else {
        proof {
            vstd::seq::axiom_seq_index_decreases(olds, n - 1);
        }
        diff_children(olds, news, (n - 1) as nat) + diff_spec(olds[n - 1], news[n - 1])
    }
}

proof fn lemma_remove_patches_step(olds: Seq<NodeView>, to: nat)
    requires
        to < olds.len(),
    ensures
        remove_patches(olds, to) == remove_patches(olds, to + 1).push(
            PatchView::Remove { key: olds[to as int].key },
        ),
    decreases olds.len(),
{
    if to + 1 < olds.len() {
        lemma_remove_patches_step(olds.drop_last(), to);
        assert(olds.drop_last()[to as int] == olds[to as int]);
        assert(remove_patches(olds, to) =~= remove_patches(olds, to + 1).push(
            PatchView::Remove { key: olds[to as int].key },
        ));
    } else {
        assert(olds.drop_last().len() == to);
        assert(remove_patches(olds.drop_last(), to) =~= Seq::<PatchView>::empty());
        assert(remove_patches(olds, to + 1) =~= Seq::<PatchView>::empty());
        assert(olds.last() == olds[to as int]);
        assert(remove_patches(olds, to) =~= remove_patches(olds, to + 1).push(
            PatchView::Remove { key: olds[to as int].key },
        ));
    }
}

/// Whether every property of `olds` is among those of `news`.
fn keeps_names(olds: &PropertyMap, news: &PropertyMap) -> (r: bool)
    ensures
        r == props_kept(olds.entries(), news.entries()),
{
    let mut i: usize = 0;
    while i < olds.properties.len()
        invariant
            i <= olds.properties.len(),
            olds.entries().len() == olds.properties.len(),
            forall|j: int| 0 <= j < i ==> (#[trigger] entries_lookup(news.entries(), olds.entries()[j].0)) is Some,
        decreases olds.properties.len() - i,
    {
        let name = chars_of(olds.properties[i].0.as_str());
        assert(olds.entries()[i as int].0 == olds.properties@[i as int].0@);
        if news.find(name.as_slice()).is_none() {
            return false;
        }
        i = i + 1;
    }
    true
}

/// The position of the first child with the key (see `child_position`).
fn find_child(cs: &Vec<SceneNode>, key: &SceneKey) -> (r: Option<usize>)
    ensures
        match r {
            Some(j) => j < cs.len() && child_position(nodes_view(cs@), key@) == Some(j as int),
            None => child_position(nodes_view(cs@), key@) is None,
        },
{
    let ghost v = nodes_view(cs@);
    proof {
        lemma_nodes_view(cs@);
    }
    let mut i: usize = 0;
    while i < cs.len()
        invariant
            i <= cs.len(),
            v == nodes_view(cs@),
            v.len() == cs.len(),
            forall|j: int| 0 <= j < cs.len() ==> #[trigger] v[j] == cs@[j]@,
            forall|j: int| 0 <= j < i ==> (#[trigger] v[j]).key != key@,
        decreases cs.len() - i,
    {
        assert(v[i as int].key == cs@[i as int].key@);
        if cs[i].key.same_as(key) {
            proof {
                lemma_child_position_first(v, key@, i as int);
            }
            return Some(i);
        }
        i = i + 1;
    }
    proof {
        lemma_child_position_first(v, key@, i as int);
    }
    None
}

/// Whether no two children have the same key.
fn distinct_keys_exec(cs: &Vec<SceneNode>) -> (r: bool)
    ensures
        r == distinct_keys(nodes_view(cs@)),
{
    let ghost v = nodes_view(cs@);
    proof {
        lemma_nodes_view(cs@);
    }
    let mut i: usize = 0;
    while i < cs.len()
        invariant
            i <= cs.len(),
            v == nodes_view(cs@),
            v.len() == cs.len(),
            forall|j: int| 0 <= j < cs.len() ==> #[trigger] v[j] == cs@[j]@,
            forall|a: int, b: int| 0 <= a < i && 0 <= b < cs.len() && a != b ==> (#[trigger] v[a]).key != (#[trigger] v[b]).key,
        decreases cs.len() - i,
    {
        let mut j: usize = 0;
        while j < cs.len()
            invariant
                i < cs.len(),
                j <= cs.len(),
                v == nodes_view(cs@),
                v.len() == cs.len(),
                forall|k: int| 0 <= k < cs.len() ==> #[trigger] v[k] == cs@[k]@,
                forall|a: int, b: int| 0 <= a < i && 0 <= b < cs.len() && a != b ==> (#[trigger] v[a]).key != (#[trigger] v[b]).key,
                forall|b: int| 0 <= b < j && b != i ==> v[i as int].key != (#[trigger] v[b]).key,
            decreases cs.len() - j,
        {
            assert(v[i as int].key == cs@[i as int].key@ && v[j as int].key == cs@[j as int].key@);
            if j != i && cs[i].key.same_as(&cs[j].key) {
                return false;
            }
            j = j + 1;
        }
        i = i + 1;
    }
    true
}

/// The positions in `cs` of the nodes that `kept` keeps, in order.
fn kept_positions(cs: &Vec<SceneNode>, other: &Vec<SceneNode>) -> (r: Vec<usize>)
    ensures
        r.len() == kept(nodes_view(cs@), nodes_view(other@)).len(),
        forall|t: int| #![trigger r@[t]] 0 <= t < r.len() ==> r@[t] < cs.len() && kept(nodes_view(cs@), nodes_view(other@))[t]
            == nodes_view(cs@)[r@[t] as int],
{
    let ghost v = nodes_view(cs@);
    let ghost w = nodes_view(other@);
    proof {
        lemma_nodes_view(cs@);
    }
    let mut r: Vec<usize> = Vec::new();
    let mut i: usize = 0;
    assert(v.take(0) =~= Seq::<NodeView>::empty());
    while i < cs.len()
        invariant
            i <= cs.len(),
            v == nodes_view(cs@),
            w == nodes_view(other@),
            v.len() == cs.len(),
            forall|j: int| 0 <= j < cs.len() ==> #[trigger] v[j] == cs@[j]@,
            r.len() == kept(v.take(i as int), w).len(),
            forall|t: int| #![trigger r@[t]] 0 <= t < r.len() ==> r@[t] < i && kept(v.take(i as int), w)[t] == v[r@[t] as int],
        decreases cs.len() - i,
    {
        let ghost prev = kept(v.take(i as int), w);
        assert(v.take(i + 1).drop_last() =~= v.take(i as int));
        assert(v.take(i + 1).last() == v[i as int]);
        assert(v[i as int].key == cs@[i as int].key@);
        let found = find_child(other, &cs[i].key).is_some();
        assert(found == has_key(w, v[i as int].key));
        let ghost next = kept(v.take(i + 1), w);
        assert(next == (if found { prev.push(v[i as int]) } else { prev }));
        let ghost r0 = r@;
        if found {
            r.push(i);
        }
        assert forall|t: int| #![trigger r@[t]] 0 <= t < r.len() implies r@[t] < i + 1 && next[t] == v[r@[t] as int] by {
            if t < r0.len() {
                assert(r@[t] == r0[t]);
                assert(next[t] == prev[t]);
            }
        }
        i = i + 1;
    }
    assert(v.take(i as int) =~= v);
    r
}

/// Whether the children can be matched by key (see `keyed_ok`).
fn keyed_ok_exec(oc: &Vec<SceneNode>, nc: &Vec<SceneNode>) -> (r: bool)
    ensures
        r == keyed_ok(nodes_view(oc@), nodes_view(nc@)),
{
    if !distinct_keys_exec(oc) || !distinct_keys_exec(nc) {
        return false;
    }
    let ghost ko = kept(nodes_view(oc@), nodes_view(nc@));
    let ghost kn = kept(nodes_view(nc@), nodes_view(oc@));
    let ki = kept_positions(oc, nc);
    let mi = kept_positions(nc, oc);
    assert(forall|u: int| 0 <= u < ki.len() ==> #[trigger] ki@[u] < oc.len() && ko[u] == nodes_view(oc@)[ki@[u] as int]);
    assert(forall|u: int| 0 <= u < mi.len() ==> #[trigger] mi@[u] < nc.len() && kn[u] == nodes_view(nc@)[mi@[u] as int]);
    proof {
        lemma_nodes_view(oc@);
        lemma_nodes_view(nc@);
    }
    if ki.len() != mi.len() {
        assert(keys_of(ko).len() != keys_of(kn).len());
        return false;
    }
    let mut t: usize = 0;
    while t < ki.len()
        invariant
            t <= ki.len(),
            ki.len() == mi.len(),
            ki.len() == ko.len(),
            mi.len() == kn.len(),
            ko == kept(nodes_view(oc@), nodes_view(nc@)),
            kn == kept(nodes_view(nc@), nodes_view(oc@)),
            forall|u: int| 0 <= u < ki.len() ==> #[trigger] ki@[u] < oc.len() && ko[u] == nodes_view(oc@)[ki@[u] as int],
            forall|u: int| 0 <= u < mi.len() ==> #[trigger] mi@[u] < nc.len() && kn[u] == nodes_view(nc@)[mi@[u] as int],
            forall|j: int| 0 <= j < oc.len() ==> #[trigger] nodes_view(oc@)[j] == oc@[j]@,
            forall|j: int| 0 <= j < nc.len() ==> #[trigger] nodes_view(nc@)[j] == nc@[j]@,
            forall|u: int| 0 <= u < t ==> (#[trigger] ko[u]).key == kn[u].key,
            t <= ko.len(),
        decreases ki.len() - t,
    {
        let a = ki[t];
        let b = mi[t];
        assert(ko[t as int] == nodes_view(oc@)[a as int]);
        assert(kn[t as int] == nodes_view(nc@)[b as int]);
        if !oc[a].key.same_as(&nc[b].key) {
            assert(keys_of(ko)[t as int] != keys_of(kn)[t as int]);
            return false;
        }
        t = t + 1;
    }
    assert(keys_of(ko) =~= keys_of(kn));
    true
}

#[verifier::rlimit(60)]
fn diff_nodes(cur: &SceneNode, next: &SceneNode, patches: &mut Vec<ScenePatch>)
    ensures
        patches_view(final(patches)@) == patches_view(old(patches)@) + diff_spec(cur@, next@),
    decreases cur,
{
    let ghost base = patches_view(patches@);
    let ghost ov = cur@;
    let ghost nv = next@;
    if !cur.key.same_as(&next.key) || !cur.kind.same_as(&next.kind) || !keeps_names(&cur.properties, &next.properties) {
        patches.push(ScenePatch::Replace { key: cur.key.duplicate(), with: next.duplicate() });
        assert(patches_view(patches@) =~= base + diff_spec(ov, nv));
        return;
    }
    // Properties that appeared or changed.
    let mut i: usize = 0;
    assert(patches_view(patches@) =~= base + prop_patches(ov.key, ov.props, nv.props.take(0)));
    while i < next.properties.properties.len()
        invariant
            i <= next.properties.properties.len(),
            ov == cur@,
            nv == next@,
            nv.props.len() == next.properties.properties.len(),
            patches_view(patches@) == base + prop_patches(ov.key, ov.props, nv.props.take(i as int)),
        decreases next.properties.properties.len() - i,
    {
        let entry = &next.properties.properties[i];
        let name = chars_of(entry.0.as_str());
        let same = match cur.properties.find(name.as_slice()) {
            Some(j) => cur.properties.properties[j].1.equals(&entry.1),
            None => false,
        };
        let ghost e = nv.props[i as int];
        assert(e == (entry.0@, entry.1@));
        assert(same == prop_unchanged(ov.props, e));
        let ghost prev = patches_view(patches@);
        if !same {
            patches.push(ScenePatch::UpdateProp {
                key: cur.key.duplicate(),
                prop: entry.0.clone(),
                value: entry.1.duplicate(),
            });
            assert(patches_view(patches@) =~= prev.push(
                PatchView::UpdateProp { key: ov.key, prop: e.0, value: e.1 },
            ));
        }
        assert(nv.props.take(i + 1).drop_last() =~= nv.props.take(i as int));
        i = i + 1;
    }
    assert(nv.props.take(i as int) =~= nv.props);
    let ghost after_props = patches_view(patches@);
    let old_len = cur.children.len();
    let new_len = next.children.len();
    proof {
        lemma_nodes_view(cur.children@);
        lemma_nodes_view(next.children@);
    }
    assert(ov.children == nodes_view(cur.children@));
    assert(nv.children == nodes_view(next.children@));
    let ghost oc = ov.children;
    let ghost nc = nv.children;
    if keyed_ok_exec(&cur.children, &next.children) {
        // Old children that no new child matches, the last first.
        let mut i: usize = old_len;
        assert(oc.take(old_len as int) =~= oc);
        while i > 0
            invariant
                i <= old_len,
                old_len == cur.children.len(),
                oc == ov.children,
                nc == nv.children,
                oc.len() == old_len,
                nc.len() == next.children.len(),
                forall|j: int| 0 <= j < cur.children.len() ==> oc[j] == #[trigger] cur.children@[j]@,
                nc == nodes_view(next.children@),
                after_props + keyed_removes(oc, nc) == patches_view(patches@) + keyed_removes(oc.take(i as int), nc),
            decreases i,
        {
            let ghost prev = patches_view(patches@);
            let ghost t = oc.take(i as int);
            assert(t.drop_last() =~= oc.take(i - 1));
            assert(t.last() == oc[i - 1]);
            assert(cur.children@[i - 1]@ == oc[i - 1]);
            assert(cur.children@[i - 1]@.key == cur.children@[i - 1].key@);
            if find_child(&next.children, &cur.children[i - 1].key).is_none() {
                patches.push(ScenePatch::Remove { key: cur.children[i - 1].key.duplicate() });
                assert(patches_view(patches@) =~= prev.push(PatchView::Remove { key: oc[i - 1].key }));
                assert(keyed_removes(t, nc) == seq![PatchView::Remove { key: oc[i - 1].key }] + keyed_removes(
                    oc.take(i - 1),
                    nc,
                ));
                assert(prev + keyed_removes(t, nc) =~= patches_view(patches@) + keyed_removes(oc.take(i - 1), nc));
            } else {
                assert(keyed_removes(t, nc) == keyed_removes(oc.take(i - 1), nc));
            }
            i = i - 1;
        }
        assert(oc.take(0).len() == 0);
        assert(keyed_removes(oc.take(0), nc) == Seq::<PatchView>::empty());
        assert(patches_view(patches@) =~= after_props + keyed_removes(oc, nc));
        let ghost after_removes = patches_view(patches@);
        // Each old child with the new child that matches it.
        let mut i: usize = 0;
        assert(patches_view(patches@) =~= after_removes + keyed_pairs(oc, nc, 0));
        while i < old_len
            invariant
                i <= old_len,
                old_len == cur.children.len(),
                ov == cur@,
                oc == ov.children,
                nc == nv.children,
                oc.len() == old_len,
                nc.len() == next.children.len(),
                forall|j: int| 0 <= j < cur.children.len() ==> oc[j] == #[trigger] cur.children@[j]@,
                forall|j: int| 0 <= j < next.children.len() ==> nc[j] == #[trigger] next.children@[j]@,
                nc == nodes_view(next.children@),
                patches_view(patches@) == after_removes + keyed_pairs(oc, nc, i as nat),
            decreases old_len - i,
        {
            proof {
                vstd::std_specs::vec::axiom_vec_decreases_to_view(cur.children);
                vstd::seq::axiom_seq_index_decreases(cur.children@, i as int);
            }
            assert(cur.children@[i as int]@ == oc[i as int]);
            assert(cur.children@[i as int]@.key == cur.children@[i as int].key@);
            match find_child(&next.children, &cur.children[i].key) {
                Some(j) => {
                    diff_nodes(&cur.children[i], &next.children[j], patches);
                    assert(next.children@[j as int]@ == nc[j as int]);
                },
                None => {},
            }
            i = i + 1;
            assert(patches_view(patches@) =~= after_removes + keyed_pairs(oc, nc, i as nat));
        }
        let ghost after_pairs = patches_view(patches@);
        // New children that no old child matches, at their positions.
        let mut j: usize = 0;
        assert(keyed_inserts(ov.key, nc.take(0), oc) =~= Seq::<PatchView>::empty());
        assert(patches_view(patches@) =~= after_pairs + keyed_inserts(ov.key, nc.take(0), oc));
        while j < new_len
            invariant
                j <= new_len,
                new_len == next.children.len(),
                ov == cur@,
                oc == ov.children,
                nc == nv.children,
                nc.len() == new_len,
                oc == nodes_view(cur.children@),
                forall|k: int| 0 <= k < next.children.len() ==> nc[k] == #[trigger] next.children@[k]@,
                patches_view(patches@) == after_pairs + keyed_inserts(ov.key, nc.take(j as int), oc),
            decreases new_len - j,
        {
            let ghost prev = patches_view(patches@);
            let ghost t = nc.take(j + 1);
            assert(t.drop_last() =~= nc.take(j as int));
            assert(t.last() == nc[j as int]);
            assert(next.children@[j as int]@ == nc[j as int]);
            assert(next.children@[j as int]@.key == next.children@[j as int].key@);
            if find_child(&cur.children, &next.children[j].key).is_none() {
                patches.push(ScenePatch::Insert {
                    parent_key: cur.key.duplicate(),
                    index: j as u32,
                    node: next.children[j].duplicate(),
                });
                assert(patches_view(patches@) =~= prev.push(PatchView::Insert {
                    parent: ov.key,
                    index: j as u32,
                    node: nc[j as int],
                }));
            }
            j = j + 1;
        }
        assert(nc.take(new_len as int) =~= nc);
        assert(patches_view(patches@) =~= after_props + child_patches(ov.key, oc, nc));
        assert(patches_view(patches@) =~= base + diff_spec(ov, nv));
        return;
    }
    // Children position by position.
    let m = if old_len <= new_len { old_len } else { new_len };
    let mut i: usize = 0;
    assert(patches_view(patches@) =~= after_props + diff_children(ov.children, nv.children, 0));
    while i < m
        invariant
            i <= m,
            m == min_len(ov.children.len(), nv.children.len()),
            ov == cur@,
            nv == next@,
            ov.children.len() == cur.children.len(),
            nv.children.len() == next.children.len(),
            forall|j: int| 0 <= j < cur.children.len() ==> ov.children[j] == #[trigger] cur.children@[j]@,
            forall|j: int| 0 <= j < next.children.len() ==> nv.children[j] == #[trigger] next.children@[j]@,
            patches_view(patches@) == after_props + diff_children(ov.children, nv.children, i as nat),
        decreases m - i,
    {
        proof {
            vstd::std_specs::vec::axiom_vec_decreases_to_view(cur.children);
            vstd::seq::axiom_seq_index_decreases(cur.children@, i as int);
        }
        let ghost prev = patches_view(patches@);
        diff_nodes(&cur.children[i], &next.children[i], patches);
        assert(cur.children@[i as int]@ == ov.children[i as int]);
        assert(next.children@[i as int]@ == nv.children[i as int]);
        i = i + 1;
        assert(patches_view(patches@) =~= after_props + diff_children(ov.children, nv.children, i as nat));
    }
    let ghost after_children = patches_view(patches@);
    // Children that were added, then children that were dropped.
    if new_len > old_len {
        let mut i: usize = old_len;
        assert(nv.children.take(old_len as int).len() <= old_len);
        assert(patches_view(patches@) =~= after_children + insert_patches(ov.key, ov.children.len(), nv.children.take(i as int)));
        while i < new_len
            invariant
                old_len <= i <= new_len,
                old_len == ov.children.len(),
                ov == cur@,
                nv == next@,
                nv.children.len() == new_len,
                new_len == next.children.len(),
                forall|j: int| 0 <= j < next.children.len() ==> nv.children[j] == #[trigger] next.children@[j]@,
                patches_view(patches@) == after_children + insert_patches(ov.key, ov.children.len(), nv.children.take(i as int)),
            decreases new_len - i,
        {
            let ghost prev = patches_view(patches@);
            patches.push(ScenePatch::Insert {
                parent_key: cur.key.duplicate(),
                index: i as u32,
                node: next.children[i].duplicate(),
            });
            assert(nv.children.take(i + 1).drop_last() =~= nv.children.take(i as int));
            assert(patches_view(patches@) =~= prev.push(PatchView::Insert {
                parent: ov.key,
                index: i as u32,
                node: nv.children[i as int],
            }));
            i = i + 1;
        }
        assert(nv.children.take(new_len as int) =~= nv.children);
        assert(remove_patches(ov.children, nv.children.len()) =~= Seq::<PatchView>::empty());
        assert(patches_view(patches@) =~= after_props + child_patches(ov.key, oc, nc));
        assert(patches_view(patches@) =~= base + diff_spec(ov, nv));
    } else {
        let mut i: usize = old_len;
        assert(patches_view(patches@) =~= after_children + remove_patches(ov.children, old_len as nat));
        while i > new_len
            invariant
                new_len <= i <= old_len,
                old_len == ov.children.len(),
                ov == cur@,
                new_len == nv.children.len(),
                forall|j: int| 0 <= j < cur.children.len() ==> ov.children[j] == #[trigger] cur.children@[j]@,
                old_len == cur.children.len(),
                patches_view(patches@) == after_children + remove_patches(ov.children, i as nat),
            decreases i,
        {
            let ghost prev = patches_view(patches@);
            patches.push(ScenePatch::Remove { key: cur.children[i - 1].key.duplicate() });
            proof {
                lemma_remove_patches_step(ov.children, (i - 1) as nat);
                assert(cur.children@[i - 1]@ == ov.children[i - 1]);
                assert(cur.children@[i - 1]@.key == cur.children@[i - 1].key@);
            }
            assert(patches_view(patches@) =~= prev.push(PatchView::Remove { key: ov.children[i - 1].key }));
            i = i - 1;
        }
        assert(insert_patches(ov.key, ov.children.len(), nv.children) =~= Seq::<PatchView>::empty());
        assert(patches_view(patches@) =~= after_props + child_patches(ov.key, oc, nc));
        assert(patches_view(patches@) =~= base + diff_spec(ov, nv));
    }
}

impl SceneDescription {
    /// The patches that take this scene to `other` (see `diff_spec`).
    pub fn diff(&self, other: &SceneDescription) -> (r: Vec<ScenePatch>)
        ensures
            patches_view(r@) == diff_spec(self@, other@),
    {
        let mut patches: Vec<ScenePatch> = Vec::new();
        assert(patches_view(patches@) =~= Seq::<PatchView>::empty());
        diff_nodes(&self.root, &other.root, &mut patches);
        assert(patches_view(patches@) =~= diff_spec(self@, other@));
        patches
    }
}


/// A key that some node of the list has is found.
pub proof fn lemma_has_key(cs: Seq<NodeView>, i: int)
    requires
        0 <= i < cs.len(),
    ensures
        has_key(cs, cs[i].key),
        distinct_keys(cs) ==> child_position(cs, cs[i].key) == Some(i),
    decreases i,
{
    if distinct_keys(cs) {
        assert forall|j: int| 0 <= j < i implies (#[trigger] cs[j]).key != cs[i].key by {}
        lemma_child_position_first(cs, cs[i].key, i);
    }
    if i > 0 && cs[0].key != cs[i].key {
        lemma_has_key(cs.drop_first(), i - 1);
        assert(cs.drop_first()[i - 1] == cs[i]);
    }
}

/// No removal for a list whose every key the other list has.
proof fn lemma_keyed_removes_none(cs: Seq<NodeView>, other: Seq<NodeView>)
    requires
        forall|i: int| 0 <= i < cs.len() ==> has_key(other, (#[trigger] cs[i]).key),
    ensures
        keyed_removes(cs, other) == Seq::<PatchView>::empty(),
    decreases cs.len(),
{
    if cs.len() > 0 {
        assert(has_key(other, cs[cs.len() - 1].key));
        lemma_keyed_removes_none(cs.drop_last(), other);
    }
}

/// No insertion for a list whose every key the other list has.
proof fn lemma_keyed_inserts_none(parent: Seq<u8>, cs: Seq<NodeView>, other: Seq<NodeView>)
    requires
        forall|i: int| 0 <= i < cs.len() ==> has_key(other, (#[trigger] cs[i]).key),
    ensures
        keyed_inserts(parent, cs, other) == Seq::<PatchView>::empty(),
    decreases cs.len(),
{
    if cs.len() > 0 {
        assert(has_key(other, cs[cs.len() - 1].key));
        lemma_keyed_inserts_none(parent, cs.drop_last(), other);
    }
}

/// Children with the same keys at the same places, matched by key, give
/// exactly the pairs by position.
pub proof fn lemma_keyed_same_keys(parent: Seq<u8>, oc: Seq<NodeView>, nc: Seq<NodeView>, n: nat)
    requires
        oc.len() == nc.len(),
        n <= oc.len(),
        forall|i: int| 0 <= i < oc.len() ==> (#[trigger] oc[i]).key == nc[i].key,
        distinct_keys(nc),
    ensures
        keyed_removes(oc, nc) == Seq::<PatchView>::empty(),
        keyed_inserts(parent, nc, oc) == Seq::<PatchView>::empty(),
        keyed_pairs(oc, nc, n) == diff_children(oc, nc, n),
    decreases n,
{
    assert forall|i: int| 0 <= i < oc.len() implies has_key(nc, (#[trigger] oc[i]).key) by {
        lemma_has_key(nc, i);
    }
    assert forall|i: int| 0 <= i < nc.len() implies has_key(oc, (#[trigger] nc[i]).key) by {
        lemma_has_key(oc, i);
        assert(oc[i].key == nc[i].key);
    }
    lemma_keyed_removes_none(oc, nc);
    lemma_keyed_inserts_none(parent, nc, oc);
    if n > 0 {
        lemma_keyed_same_keys(parent, oc, nc, (n - 1) as nat);
        lemma_has_key(nc, n - 1);
        assert(oc[n - 1].key == nc[n - 1].key);
    }
}


/// `kept` goes over a concatenation piece by piece.
pub proof fn lemma_kept_concat(a: Seq<NodeView>, b: Seq<NodeView>, other: Seq<NodeView>)
    ensures
        kept(a + b, other) == kept(a, other) + kept(b, other),
    decreases b.len(),
{
    if b.len() == 0 {
        assert(a + b =~= a);
        assert(kept(a, other) + kept(b, other) =~= kept(a, other));
    } else {
        lemma_kept_concat(a, b.drop_last(), other);
        assert((a + b).drop_last() =~= a + b.drop_last());
        assert((a + b).last() == b.last());
        assert(kept(a + b, other) =~= kept(a, other) + kept(b, other));
    }
}

/// Each node that `kept` keeps is a node of the list that the other list
/// matches by key.
pub proof fn lemma_kept_elems(cs: Seq<NodeView>, other: Seq<NodeView>)
    ensures
        kept(cs, other).len() <= cs.len(),
        forall|t: int| 0 <= t < kept(cs, other).len() ==> exists|i: int| 0 <= i < cs.len() && #[trigger] kept(cs, other)[t] == cs[i]
            && has_key(other, cs[i].key),
    decreases cs.len(),
{
    if cs.len() > 0 {
        let d = cs.drop_last();
        lemma_kept_elems(d, other);
        assert forall|t: int| 0 <= t < kept(cs, other).len() implies exists|i: int| 0 <= i < cs.len() && #[trigger] kept(cs, other)[t] == cs[i]
            && has_key(other, cs[i].key) by {
            if t < kept(d, other).len() {
                let i = choose|i: int| 0 <= i < d.len() && #[trigger] kept(d, other)[t] == d[i] && has_key(other, d[i].key);
                assert(kept(cs, other)[t] == kept(d, other)[t]);
                assert(cs[i] == d[i]);
            } else {
                assert(kept(cs, other)[t] == cs[cs.len() - 1]);
            }
        }
    }
}

/// Keeping some of the nodes keeps their keys distinct.
pub proof fn lemma_kept_distinct(cs: Seq<NodeView>, other: Seq<NodeView>)
    requires
        distinct_keys(cs),
    ensures
        distinct_keys(kept(cs, other)),
    decreases cs.len(),
{
    if cs.len() > 0 {
        let d = cs.drop_last();
        assert(distinct_keys(d)) by {
            assert forall|i: int, j: int| 0 <= i < d.len() && 0 <= j < d.len() && i != j implies (#[trigger] d[i]).key != (
            #[trigger] d[j]).key by {
                assert(d[i] == cs[i] && d[j] == cs[j]);
            }
        }
        lemma_kept_distinct(d, other);
        lemma_kept_elems(d, other);
        let k = kept(cs, other);
        let kd = kept(d, other);
        if has_key(other, cs.last().key) {
            assert forall|a: int, b: int| 0 <= a < k.len() && 0 <= b < k.len() && a != b implies (#[trigger] k[a]).key != (
            #[trigger] k[b]).key by {
                if a < kd.len() && b < kd.len() {
                    assert(k[a] == kd[a] && k[b] == kd[b]);
                } else if a < kd.len() {
                    let i = choose|i: int| 0 <= i < d.len() && #[trigger] kd[a] == d[i] && has_key(other, d[i].key);
                    assert(k[a] == kd[a]);
                    assert(k[b] == cs.last());
                    assert(cs[i] == d[i]);
                    assert(cs[i].key != cs[cs.len() - 1].key);
                } else {
                    let i = choose|i: int| 0 <= i < d.len() && #[trigger] kd[b] == d[i] && has_key(other, d[i].key);
                    assert(k[b] == kd[b]);
                    assert(k[a] == cs.last());
                    assert(cs[i] == d[i]);
                    assert(cs[i].key != cs[cs.len() - 1].key);
                }
            }
        }
    }
}


/// `kept` of one node.
pub proof fn lemma_kept_single(x: NodeView, other: Seq<NodeView>)
    ensures
        kept(seq![x], other) == (if has_key(other, x.key) { seq![x] } else { Seq::<NodeView>::empty() }),
{
    let s = seq![x];
    assert(s.drop_last() =~= Seq::<NodeView>::empty());
    assert(s.last() == x);
    assert(kept(s.drop_last(), other) == Seq::<NodeView>::empty());
    if has_key(other, x.key) {
        assert(kept(s, other) == kept(s.drop_last(), other).push(x));
        assert(Seq::<NodeView>::empty().push(x) =~= seq![x]);
    }
}


proof fn lemma_keyed_removes_shape(oc: Seq<NodeView>, nc: Seq<NodeView>)
    ensures
        forall|i: int| 0 <= i < keyed_removes(oc, nc).len() ==> (#[trigger] keyed_removes(oc, nc)[i] matches PatchView::Remove { key }
            && !has_key(nc, key)),
    decreases oc.len(),
{
    if oc.len() > 0 {
        lemma_keyed_removes_shape(oc.drop_last(), nc);
        let r = keyed_removes(oc.drop_last(), nc);
        if !has_key(nc, oc.last().key) {
            assert forall|i: int| 0 <= i < keyed_removes(oc, nc).len() implies (#[trigger] keyed_removes(oc, nc)[i] matches PatchView::Remove { key }
                && !has_key(nc, key)) by {
                if i > 0 {
                    assert(keyed_removes(oc, nc)[i] == r[i - 1]);
                }
            }
        }
    }
}

proof fn lemma_keyed_inserts_shape(parent: Seq<u8>, nc: Seq<NodeView>, oc: Seq<NodeView>)
    ensures
        forall|i: int| 0 <= i < keyed_inserts(parent, nc, oc).len() ==> (#[trigger] keyed_inserts(parent, nc, oc)[i] matches PatchView::Insert { node, .. }
            && !has_key(oc, node.key)),
    decreases nc.len(),
{
    if nc.len() > 0 {
        lemma_keyed_inserts_shape(parent, nc.drop_last(), oc);
        let r = keyed_inserts(parent, nc.drop_last(), oc);
        if !has_key(oc, nc.last().key) {
            assert forall|i: int| 0 <= i < keyed_inserts(parent, nc, oc).len() implies (#[trigger] keyed_inserts(parent, nc, oc)[i] matches PatchView::Insert { node, .. }
                && !has_key(oc, node.key)) by {
                if i < r.len() {
                    assert(keyed_inserts(parent, nc, oc)[i] == r[i]);
                }
            }
        }
    }
}

/// When the children of two nodes with the same key, kind and properties can
/// be matched by key, the diff removes only children whose key no new child
/// has, inserts only children whose key no old child has, and diffs every
/// matched pair in place (with the properties first).
pub proof fn law_keyed_diff_keeps_matched_children(o: NodeView, n: NodeView)
    requires
        o.key == n.key,
        o.kind == n.kind,
        props_kept(o.props, n.props),
        keyed_ok(o.children, n.children),
    ensures
        diff_spec(o, n) == prop_patches(o.key, o.props, n.props) + keyed_removes(o.children, n.children) + keyed_pairs(
            o.children,
            n.children,
            o.children.len(),
        ) + keyed_inserts(o.key, n.children, o.children),
        forall|i: int| 0 <= i < keyed_removes(o.children, n.children).len() ==> (#[trigger] keyed_removes(
            o.children,
            n.children,
        )[i] matches PatchView::Remove { key } && !has_key(n.children, key)),
        forall|i: int| 0 <= i < keyed_inserts(o.key, n.children, o.children).len() ==> (#[trigger] keyed_inserts(
            o.key,
            n.children,
            o.children,
        )[i] matches PatchView::Insert { node, .. } && !has_key(o.children, node.key)),
{
    lemma_keyed_removes_shape(o.children, n.children);
    lemma_keyed_inserts_shape(o.key, n.children, o.children);
    assert(diff_spec(o, n) =~= prop_patches(o.key, o.props, n.props) + keyed_removes(o.children, n.children) + keyed_pairs(
        o.children,
        n.children,
        o.children.len(),
    ) + keyed_inserts(o.key, n.children, o.children));
}

} // verus!
