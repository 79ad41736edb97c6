//! Laws of diffing and patching.
use vstd::prelude::*;
use crate::diff::{keyed_ok, props_exact, lemma_keyed_same_keys, diff_children, diff_spec, insert_patches, min_len, prop_patches, prop_unchanged, props_kept, remove_patches};
use crate::scene::{
    entries_lookup, entries_set, entries_sorted, lemma_entries_lookup_map, lemma_entries_map_at,
    law_value_equality_on_plain_values, tree_wf, value_eq, value_nan_free, value_plain, EntryView, NodeView,
    PatchView, ValueView,
};
use crate::patch::{all_ok, apply_all, apply_patch, EditView};
use crate::recon::{key_set, lemma_absent_not_found};

verus! {

/// No property value anywhere in the tree holds a NaN.
pub open spec fn tree_nan_free(n: NodeView) -> bool
    decreases n,
{
    &&& forall|i: int| 0 <= i < n.props.len() ==> value_nan_free(#[trigger] n.props[i].1)
    &&& forall|i: int| 0 <= i < n.children.len() ==> tree_nan_free(#[trigger] n.children[i])
}

/// Two trees with the same keys and kinds at the same places, where no node
/// loses a property; the values of the properties may differ, and new ones
/// may appear.
pub open spec fn same_shape(a: NodeView, b: NodeView) -> bool
    decreases a,
{
    &&& a.key == b.key
    &&& a.kind == b.kind
    &&& props_kept(a.props, b.props)
    &&& a.children.len() == b.children.len()
    &&& forall|i: int| 0 <= i < a.children.len() ==> same_shape(#[trigger] a.children[i], b.children[i])
}

proof fn lemma_props_unchanged_self(key: Seq<u8>, es: Seq<EntryView>, n: int)
    requires
        entries_sorted(es),
        forall|i: int| 0 <= i < es.len() ==> value_nan_free(#[trigger] es[i].1),
        0 <= n <= es.len(),
    ensures
        prop_patches(key, es, es.take(n)) == Seq::<PatchView>::empty(),
    decreases n,
{
    if n > 0 {
        lemma_props_unchanged_self(key, es, n - 1);
        assert(es.take(n).drop_last() =~= es.take(n - 1));
        let e = es[n - 1];
        lemma_entries_lookup_map(es, e.0);
        lemma_entries_map_at(es, n - 1);
        assert(value_nan_free(e.1));
        assert(prop_unchanged(es, e));
    } else {
        assert(es.take(0).len() == 0);
    }
}

proof fn lemma_diff_children_self(cs: Seq<NodeView>, n: nat)
    requires
        n <= cs.len(),
        forall|i: int| 0 <= i < cs.len() ==> tree_nan_free(#[trigger] cs[i]),
        forall|i: int| 0 <= i < cs.len() ==> tree_wf(#[trigger] cs[i]),
    ensures
        diff_children(cs, cs, n) == Seq::<PatchView>::empty(),
    decreases cs, n,
{
    if n > 0 {
        vstd::seq::axiom_seq_index_decreases(cs, n - 1);
        lemma_diff_children_self(cs, (n - 1) as nat);
        law_diff_of_a_scene_with_itself_is_empty(cs[n - 1]);
        assert(diff_children(cs, cs, n) =~= Seq::<PatchView>::empty());
    }
}

/// Diffing a scene against itself gives no patch, when no property holds a
/// NaN (a NaN is unequal to itself, so its property is always sent again).
pub proof fn law_diff_of_a_scene_with_itself_is_empty(a: NodeView)
    requires
        tree_wf(a),
        tree_nan_free(a),
    ensures
        diff_spec(a, a) == Seq::<PatchView>::empty(),
    decreases a, 0int,
{
    lemma_props_unchanged_self(a.key, a.props, a.props.len() as int);
    assert(a.props.take(a.props.len() as int) =~= a.props);
    assert forall|i: int| 0 <= i < a.props.len() implies (#[trigger] entries_lookup(a.props, a.props[i].0)) is Some by {
        crate::scene::lemma_entries_lookup_self(a.props, i);
    }
    lemma_diff_children_self(a.children, a.children.len());
    if keyed_ok(a.children, a.children) {
        lemma_keyed_same_keys(a.key, a.children, a.children, a.children.len());
    } else {
        assert(insert_patches(a.key, a.children.len(), a.children) =~= Seq::<PatchView>::empty());
        assert(remove_patches(a.children, a.children.len()) =~= Seq::<PatchView>::empty());
    }
    assert(diff_spec(a, a) =~= Seq::<PatchView>::empty());
}

/// Every patch is a property update.
pub open spec fn only_prop_updates(ps: Seq<PatchView>) -> bool {
    forall|i: int| 0 <= i < ps.len() ==> (#[trigger] ps[i]) is UpdateProp
}

proof fn lemma_prop_patches_are_updates(key: Seq<u8>, olds: Seq<EntryView>, news: Seq<EntryView>)
    ensures
        only_prop_updates(prop_patches(key, olds, news)),
    decreases news.len(),
{
    if news.len() > 0 {
        lemma_prop_patches_are_updates(key, olds, news.drop_last());
    }
}

proof fn lemma_diff_children_shape(olds: Seq<NodeView>, news: Seq<NodeView>, n: nat)
    requires
        n <= olds.len(),
        olds.len() == news.len(),
        forall|i: int| 0 <= i < olds.len() ==> same_shape(#[trigger] olds[i], news[i]),
    ensures
        only_prop_updates(diff_children(olds, news, n)),
    decreases olds, n,
{
    if n > 0 {
        vstd::seq::axiom_seq_index_decreases(olds, n - 1);
        lemma_diff_children_shape(olds, news, (n - 1) as nat);
        law_same_shape_gives_only_prop_updates(olds[n - 1], news[n - 1]);
    }
}

/// Between two scenes with the same keys and kinds at the same places, the
/// diff is made of property updates alone: no node is inserted, removed or
/// replaced.
pub proof fn law_same_shape_gives_only_prop_updates(a: NodeView, b: NodeView)
    requires
        same_shape(a, b),
    ensures
        only_prop_updates(diff_spec(a, b)),
    decreases a, 0int,
{
    lemma_prop_patches_are_updates(a.key, a.props, b.props);
    lemma_diff_children_shape(a.children, b.children, a.children.len());
    if keyed_ok(a.children, b.children) {
        assert forall|i: int| 0 <= i < a.children.len() implies (#[trigger] a.children[i]).key == b.children[i].key by {
            assert(same_shape(a.children[i], b.children[i]));
        }
        lemma_keyed_same_keys(a.key, a.children, b.children, a.children.len());
    } else {
        assert(insert_patches(a.key, a.children.len(), b.children) =~= Seq::<PatchView>::empty());
        assert(remove_patches(a.children, b.children.len()) =~= Seq::<PatchView>::empty());
        assert(min_len(a.children.len(), b.children.len()) == a.children.len());
    }
}


/// Reading a property after setting it gives the value set; the other
/// properties read as before.
pub proof fn law_get_after_set(es: Seq<EntryView>, k: Seq<char>, v: ValueView, other: Seq<char>)
    ensures
        entries_lookup(entries_set(es, k, v), k) == Some(v),
        other != k ==> entries_lookup(entries_set(es, k, v), other) == entries_lookup(es, other),
    decreases es.len(),
{
    let r = entries_set(es, k, v);
    if es.len() == 0 {
        assert(r[0] == (k, v));
        assert(r.drop_first().len() == 0);
        assert(entries_lookup(r.drop_first(), other) is None);
    } else if !crate::text::seq_lt(es[0].0, k) {
        assert(r[0] == (k, v));
        if es[0].0 == k {
            assert(r.drop_first() =~= es.drop_first());
        } else {
            assert(r.drop_first() =~= es);
        }
    } else {
        let t = es.drop_first();
        crate::text::lemma_seq_lt_irreflexive(k);
        law_get_after_set(t, k, v, other);
        assert(r[0] == es[0]);
        assert(r.drop_first() =~= entries_set(t, k, v));
    }
}

/// The key a patch is addressed to.
pub open spec fn patch_key(p: PatchView) -> Seq<u8> {
    match p {
        PatchView::Insert { parent, .. } => parent,
        PatchView::Remove { key } => key,
        PatchView::UpdateProp { key, .. } => key,
        PatchView::Replace { key, .. } => key,
    }
}

/// A patch addressed to a key that is nowhere in the scene leaves it as it is.
pub proof fn law_patch_for_an_absent_key_changes_nothing(t: NodeView, p: PatchView)
    requires
        !key_set(t).contains(patch_key(p)),
    ensures
        apply_patch(t, p) == t,
{
    let e = match p {
        PatchView::Insert { index, node, .. } => EditView::InsertChild { index, node },
        PatchView::UpdateProp { prop, value, .. } => EditView::SetProp { name: prop, value },
        PatchView::Replace { with, .. } => EditView::ReplaceWith { node: with },
        PatchView::Remove { .. } => EditView::ReplaceWith { node: t },
    };
    lemma_absent_not_found(t, patch_key(p), e);
}


/// Patches take effect one by one, in order: applying `p` and then `q` is
/// applying `p` followed by `q`, which can be done without a panic exactly
/// when `p` can and then `q` can on what `p` left; no patch changes nothing.
pub proof fn law_patches_apply_in_sequence(t: NodeView, p: Seq<PatchView>, q: Seq<PatchView>)
    ensures
        apply_all(t, p + q) == apply_all(apply_all(t, p), q),
        all_ok(t, p + q) == (all_ok(t, p) && all_ok(apply_all(t, p), q)),
        apply_all(t, Seq::<PatchView>::empty()) == t,
        all_ok(t, Seq::<PatchView>::empty()),
{
    crate::recon::lemma_apply_concat(t, p, q);
}

proof fn lemma_lookup_plain(es: Seq<EntryView>, k: Seq<char>)
    requires
        forall|i: int| 0 <= i < es.len() ==> value_plain(#[trigger] es[i].1),
    ensures
        entries_lookup(es, k) matches Some(v) ==> value_plain(v),
    decreases es.len(),
{
    if es.len() > 0 && es[0].0 != k {
        assert forall|i: int| 0 <= i < es.drop_first().len() implies value_plain(
            #[trigger] es.drop_first()[i].1,
        ) by {
            assert(es.drop_first()[i] == es[i + 1]);
        }
        lemma_lookup_plain(es.drop_first(), k);
    }
}

/// Where no value on either side holds a NaN or a negative zero, a new
/// property keeps its value (so the diff sends no `UpdateProp` for it)
/// exactly when the old node holds the very same value under its name; every
/// property the diff leaves out is therefore written the same on both sides.
pub proof fn law_unchanged_properties_are_equal(olds: Seq<EntryView>, news: Seq<EntryView>)
    requires
        forall|i: int| 0 <= i < olds.len() ==> value_plain(#[trigger] olds[i].1),
        forall|i: int| 0 <= i < news.len() ==> value_plain(#[trigger] news[i].1),
    ensures
        forall|i: int|
            0 <= i < news.len() ==> (prop_unchanged(olds, #[trigger] news[i]) <==> entries_lookup(
                olds,
                news[i].0,
            ) == Some(news[i].1)),
        props_exact(olds, news),
{
    assert forall|i: int| 0 <= i < news.len() implies (prop_unchanged(olds, #[trigger] news[i])
        <==> entries_lookup(olds, news[i].0) == Some(news[i].1)) by {
        lemma_lookup_plain(olds, news[i].0);
        if let Some(v) = entries_lookup(olds, news[i].0) {
            law_value_equality_on_plain_values(v, news[i].1);
        }
    }
    assert forall|i: int| 0 <= i < news.len() implies match #[trigger] entries_lookup(olds, news[i].0) {
        Some(v) => value_eq(v, news[i].1) ==> v == news[i].1,
        None => true,
    } by {
        lemma_lookup_plain(olds, news[i].0);
        if let Some(v) = entries_lookup(olds, news[i].0) {
            law_value_equality_on_plain_values(v, news[i].1);
        }
    }
}

} // verus!
