//! Applying the diff of two scenes to the first gives the second.
use vstd::prelude::*;
use crate::diff::{child_patches, has_key, keyed_inserts, keyed_ok, keyed_pairs, keyed_removes, keys_of, kept, lemma_has_key, lemma_kept_concat, lemma_kept_distinct, lemma_kept_elems, lemma_kept_single, diff_children, diff_spec, insert_patches, min_len, prop_patches, prop_unchanged, props_exact, props_kept, remove_patches};
use crate::patch::{
    all_ok, apply_all, apply_patch, child_position, edit_node, find_first, find_list, lemma_child_position_first,
    lemma_modify_found, lemma_modify_list_skip, lemma_remove_list_skip, lemma_remove_not_found, modify_first,
    modify_list, patch_ok, remove_first, remove_list, EditView,
};
use crate::scene::{
    lemma_entries_set_sorted, lemma_entries_map_at, entries_has, entries_index, entries_lookup, entries_map, entries_set, entries_sorted, lemma_entries_lookup_map, EntryView,
    NodeView, PatchView, tree_wf,
};

verus! {

/// The keys of a node and all below it.
pub open spec fn key_set(n: NodeView) -> Set<Seq<u8>>
    decreases n, 0int,
{
    set![n.key] + list_keys(n.children, n.children.len())
}

/// The keys of the first `k` nodes and all below them.
pub open spec fn list_keys(cs: Seq<NodeView>, k: nat) -> Set<Seq<u8>>
    decreases cs, k,
{
    if k == 0 || k > cs.len() {
        Set::empty()
    } else {
        proof {
            vstd::seq::axiom_seq_index_decreases(cs, k - 1);
        }
        list_keys(cs, (k - 1) as nat) + key_set(cs[k - 1])
    }
}

pub proof fn lemma_list_keys(cs: Seq<NodeView>, k: nat)
    requires
        k <= cs.len(),
    ensures
        forall|i: int| 0 <= i < k ==> key_set(#[trigger] cs[i]).subset_of(list_keys(cs, k)),
        forall|x: Seq<u8>| #[trigger] list_keys(cs, k).contains(x) ==> exists|i: int| 0 <= i < k && key_set(#[trigger] cs[i]).contains(x),
    decreases k,
{
    if k > 0 {
        lemma_list_keys(cs, (k - 1) as nat);
        assert forall|x: Seq<u8>| #[trigger] list_keys(cs, k).contains(x) implies exists|i: int| 0 <= i < k && key_set(#[trigger] cs[i]).contains(x) by {
            if !key_set(cs[k - 1]).contains(x) {
                assert(list_keys(cs, (k - 1) as nat).contains(x));
            }
        }
    }
}

/// The keys of a node and all below it are all distinct.
pub open spec fn unique_keys(n: NodeView) -> bool
    decreases n,
{
    &&& !list_keys(n.children, n.children.len()).contains(n.key)
    &&& forall|i: int, j: int|
        0 <= i < n.children.len() && 0 <= j < n.children.len() && i != j ==> key_set(
            #[trigger] n.children[i],
        ).disjoint(key_set(#[trigger] n.children[j]))
    &&& forall|i: int| 0 <= i < n.children.len() ==> unique_keys(#[trigger] n.children[i])
}

pub proof fn lemma_absent_not_found(n: NodeView, k: Seq<u8>, e: EditView)
    requires
        !key_set(n).contains(k),
    ensures
        find_first(n, k) is None,
        !modify_first(n, k, e).1,
        modify_first(n, k, e).0 == n,
        !remove_first(n, k).1,
        remove_first(n, k).0 == n,
    decreases n,
{
    lemma_list_keys(n.children, n.children.len());
    assert forall|i: int| 0 <= i < n.children.len() implies !key_set(#[trigger] n.children[i]).contains(k) by {
        assert(key_set(n.children[i]).subset_of(list_keys(n.children, n.children.len())));
    }
    lemma_absent_list(n.children, k, e, n.children.len() as int);
    assert(n.children.skip(n.children.len() as int) =~= Seq::<NodeView>::empty());
    assert(n.children.take(n.children.len() as int) =~= n.children);
    assert forall|j: int| 0 <= j < n.children.len() implies (#[trigger] n.children[j]).key != k by {
        assert(key_set(n.children[j]).contains(n.children[j].key));
    }
    lemma_child_position_first(n.children, k, n.children.len() as int);
    lemma_modify_found(n, k, e);
    lemma_remove_not_found(n, k);
}

proof fn lemma_absent_list(cs: Seq<NodeView>, k: Seq<u8>, e: EditView, upto: int)
    requires
        0 <= upto <= cs.len(),
        forall|i: int| 0 <= i < upto ==> !key_set(#[trigger] cs[i]).contains(k),
    ensures
        forall|i: int| 0 <= i < upto ==> find_first(#[trigger] cs[i], k) is None,
        forall|i: int| 0 <= i < upto ==> !(#[trigger] remove_first(cs[i], k)).1,
        find_list(cs, k) == find_list(cs.skip(upto), k),
        modify_list(cs, k, e).0 == cs.take(upto) + modify_list(cs.skip(upto), k, e).0,
        modify_list(cs, k, e).1 == modify_list(cs.skip(upto), k, e).1,
        remove_list(cs, k).0 == cs.take(upto) + remove_list(cs.skip(upto), k).0,
        remove_list(cs, k).1 == remove_list(cs.skip(upto), k).1,
    decreases cs, 0int,
{
    assert forall|i: int| 0 <= i < upto implies find_first(#[trigger] cs[i], k) is None && !remove_first(cs[i], k).1 by {
        vstd::seq::axiom_seq_index_decreases(cs, i);
        lemma_absent_not_found(cs[i], k, e);
    }
    assert forall|i: int| 0 <= i < upto implies !(#[trigger] remove_first(cs[i], k)).1 by {
        vstd::seq::axiom_seq_index_decreases(cs, i);
        lemma_absent_not_found(cs[i], k, e);
    }
    lemma_modify_list_skip(cs, k, e, upto);
    lemma_remove_list_skip(cs, k, upto);
}


/// A node with a hole at one of its children.
pub struct Frame {
    pub node: NodeView,
    pub idx: int,
}

/// The frame's node with `x` in the hole.
pub open spec fn fill(f: Frame, x: NodeView) -> NodeView {
    NodeView { children: f.node.children.update(f.idx, x), ..f.node }
}

/// The tree made of the frames (outermost first) with `x` at the bottom.
pub open spec fn plug(ctx: Seq<Frame>, x: NodeView) -> NodeView
    decreases ctx.len(),
{
    if ctx.len() == 0 {
        x
    } else {
        plug(ctx.drop_last(), fill(ctx.last(), x))
    }
}

/// The key is neither the frame's node nor under a child other than the hole.
pub open spec fn frame_avoids(f: Frame, k: Seq<u8>) -> bool {
    &&& 0 <= f.idx < f.node.children.len()
    &&& f.node.key != k
    &&& forall|j: int|
        0 <= j < f.node.children.len() && j != f.idx ==> !key_set(#[trigger] f.node.children[j]).contains(k)
}

pub open spec fn ctx_avoids(ctx: Seq<Frame>, k: Seq<u8>) -> bool {
    forall|i: int| 0 <= i < ctx.len() ==> frame_avoids(#[trigger] ctx[i], k)
}

proof fn lemma_frame_modify(f: Frame, x: NodeView, k: Seq<u8>, e: EditView)
    requires
        frame_avoids(f, k),
    ensures
        find_first(fill(f, x), k) == find_first(x, k),
        modify_first(fill(f, x), k, e) == (fill(f, modify_first(x, k, e).0), modify_first(x, k, e).1),
{
    let y = fill(f, x);
    let cs = y.children;
    let i = f.idx;
    assert forall|j: int| 0 <= j < i implies !key_set(#[trigger] cs[j]).contains(k) by {
        assert(cs[j] == f.node.children[j]);
    }
    lemma_absent_list(cs, k, e, i);
    let rest = cs.skip(i + 1);
    assert forall|j: int| 0 <= j < rest.len() implies !key_set(#[trigger] rest[j]).contains(k) by {
        assert(rest[j] == f.node.children[i + 1 + j]);
    }
    lemma_absent_list(rest, k, e, rest.len() as int);
    assert(rest.skip(rest.len() as int) =~= Seq::<NodeView>::empty());
    assert(rest.take(rest.len() as int) =~= rest);
    let t = cs.skip(i);
    assert(t[0] == x);
    assert(t.drop_first() =~= rest);
    lemma_modify_found(x, k, e);
    let h = modify_first(x, k, e);
    if h.1 {
        assert(cs.take(i) + t.update(0, h.0) =~= f.node.children.update(i, h.0));
    } else {
        assert(cs.take(i) + (seq![t[0]] + rest) =~= cs);
        assert(f.node.children.update(i, x) =~= cs);
    }
}

pub proof fn lemma_plug_modify(ctx: Seq<Frame>, x: NodeView, k: Seq<u8>, e: EditView)
    requires
        ctx_avoids(ctx, k),
    ensures
        find_first(plug(ctx, x), k) == find_first(x, k),
        modify_first(plug(ctx, x), k, e) == (plug(ctx, modify_first(x, k, e).0), modify_first(x, k, e).1),
    decreases ctx.len(),
{
    if ctx.len() > 0 {
        let f = ctx.last();
        assert(frame_avoids(ctx[ctx.len() - 1], k));
        lemma_frame_modify(f, x, k, e);
        let c2 = ctx.drop_last();
        assert forall|i: int| 0 <= i < c2.len() implies frame_avoids(#[trigger] c2[i], k) by {
            assert(c2[i] == ctx[i]);
        }
        lemma_plug_modify(c2, fill(f, x), k, e);
    }
}

proof fn lemma_frame_remove(f: Frame, x: NodeView, k: Seq<u8>)
    requires
        frame_avoids(f, k),
        x.key != k,
    ensures
        remove_first(fill(f, x), k) == (fill(f, remove_first(x, k).0), remove_first(x, k).1),
{
    let y = fill(f, x);
    let cs = y.children;
    let i = f.idx;
    let e = EditView::ReplaceWith { node: x };
    assert forall|j: int| 0 <= j < cs.len() implies (#[trigger] cs[j]).key != k by {
        if j != i {
            assert(cs[j] == f.node.children[j]);
            assert(key_set(cs[j]).contains(cs[j].key));
        }
    }
    lemma_child_position_first(cs, k, cs.len() as int);
    assert forall|j: int| 0 <= j < i implies !key_set(#[trigger] cs[j]).contains(k) by {
        assert(cs[j] == f.node.children[j]);
    }
    lemma_absent_list(cs, k, e, i);
    let rest = cs.skip(i + 1);
    assert forall|j: int| 0 <= j < rest.len() implies !key_set(#[trigger] rest[j]).contains(k) by {
        assert(rest[j] == f.node.children[i + 1 + j]);
    }
    lemma_absent_list(rest, k, e, rest.len() as int);
    assert(rest.skip(rest.len() as int) =~= Seq::<NodeView>::empty());
    assert(rest.take(rest.len() as int) =~= rest);
    let t = cs.skip(i);
    assert(t[0] == x);
    assert(t.drop_first() =~= rest);
    lemma_remove_not_found(x, k);
    let h = remove_first(x, k);
    if h.1 {
        assert(cs.take(i) + t.update(0, h.0) =~= f.node.children.update(i, h.0));
    } else {
        assert(cs.take(i) + (seq![t[0]] + rest) =~= cs);
        assert(f.node.children.update(i, x) =~= cs);
    }
}

pub proof fn lemma_plug_remove(ctx: Seq<Frame>, x: NodeView, k: Seq<u8>)
    requires
        ctx_avoids(ctx, k),
        x.key != k,
    ensures
        remove_first(plug(ctx, x), k) == (plug(ctx, remove_first(x, k).0), remove_first(x, k).1),
    decreases ctx.len(),
{
    if ctx.len() > 0 {
        let f = ctx.last();
        assert(frame_avoids(ctx[ctx.len() - 1], k));
        lemma_frame_remove(f, x, k);
        let c2 = ctx.drop_last();
        assert forall|i: int| 0 <= i < c2.len() implies frame_avoids(#[trigger] c2[i], k) by {
            assert(c2[i] == ctx[i]);
        }
        lemma_plug_remove(c2, fill(f, x), k);
    }
}


pub proof fn lemma_apply_concat(t: NodeView, a: Seq<PatchView>, b: Seq<PatchView>)
    ensures
        apply_all(t, a + b) == apply_all(apply_all(t, a), b),
        all_ok(t, a + b) == (all_ok(t, a) && all_ok(apply_all(t, a), b)),
    decreases b.len(),
{
    if b.len() == 0 {
        assert(a + b =~= a);
    } else {
        lemma_apply_concat(t, a, b.drop_last());
        assert((a + b).drop_last() =~= a + b.drop_last());
        assert((a + b).last() == b.last());
    }
}

/// The entries after the property updates among the patches, in order.
pub open spec fn props_applied(es: Seq<EntryView>, ps: Seq<PatchView>) -> Seq<EntryView>
    decreases ps.len(),
{
    if ps.len() == 0 {
        es
    } else {
        match ps.last() {
            PatchView::UpdateProp { prop, value, .. } => entries_set(
                props_applied(es, ps.drop_last()),
                prop,
                value,
            ),
            _ => props_applied(es, ps.drop_last()),
        }
    }
}

proof fn lemma_apply_prop_patches(ctx: Seq<Frame>, x: NodeView, olds: Seq<EntryView>, news: Seq<EntryView>)
    requires
        ctx_avoids(ctx, x.key),
    ensures
        all_ok(plug(ctx, x), prop_patches(x.key, olds, news)),
        apply_all(plug(ctx, x), prop_patches(x.key, olds, news)) == plug(
            ctx,
            NodeView { props: props_applied(x.props, prop_patches(x.key, olds, news)), ..x },
        ),
    decreases news.len(),
{
    if news.len() == 0 {
        assert(NodeView { props: x.props, ..x } == x);
    } else {
        let ps0 = prop_patches(x.key, olds, news.drop_last());
        lemma_apply_prop_patches(ctx, x, olds, news.drop_last());
        let e = news.last();
        if !prop_unchanged(olds, e) {
            let ps = ps0.push(PatchView::UpdateProp { key: x.key, prop: e.0, value: e.1 });
            assert(ps.drop_last() =~= ps0);
            let x1 = NodeView { props: props_applied(x.props, ps0), ..x };
            let ed = EditView::SetProp { name: e.0, value: e.1 };
            lemma_plug_modify(ctx, x1, x.key, ed);
            assert(modify_first(x1, x.key, ed).0 == edit_node(x1, ed));
        }
    }
}

/// The new entries that do not keep their value, as a map.
pub open spec fn changed_map(olds: Seq<EntryView>, es: Seq<EntryView>) -> Map<Seq<char>, crate::scene::ValueView>
    decreases es.len(),
{
    if es.len() == 0 {
        Map::empty()
    } else {
        let m = changed_map(olds, es.drop_last());
        if prop_unchanged(olds, es.last()) {
            m
        } else {
            m.insert(es.last().0, es.last().1)
        }
    }
}

proof fn lemma_props_applied_map(key: Seq<u8>, olds: Seq<EntryView>, news: Seq<EntryView>, base: Seq<EntryView>)
    requires
        entries_sorted(base),
    ensures
        entries_sorted(props_applied(base, prop_patches(key, olds, news))),
        entries_map(props_applied(base, prop_patches(key, olds, news))) == entries_map(base).union_prefer_right(
            changed_map(olds, news),
        ),
    decreases news.len(),
{
    if news.len() == 0 {
        assert(entries_map(base).union_prefer_right(changed_map(olds, news)) =~= entries_map(base));
    } else {
        lemma_props_applied_map(key, olds, news.drop_last(), base);
        let ps0 = prop_patches(key, olds, news.drop_last());
        let e = news.last();
        if !prop_unchanged(olds, e) {
            let ps = ps0.push(PatchView::UpdateProp { key, prop: e.0, value: e.1 });
            assert(ps.drop_last() =~= ps0);
            lemma_entries_set_sorted(props_applied(base, ps0), e.0, e.1);
            assert(entries_map(base).union_prefer_right(changed_map(olds, news)) =~= entries_map(base).union_prefer_right(
                changed_map(olds, news.drop_last()),
            ).insert(e.0, e.1));
        }
    }
}

proof fn lemma_changed_map(olds: Seq<EntryView>, es: Seq<EntryView>)
    requires
        entries_sorted(es),
    ensures
        forall|c: Seq<char>| #[trigger] changed_map(olds, es).contains_key(c) ==> entries_has(es, c),
        forall|i: int| 0 <= i < es.len() && !prop_unchanged(olds, #[trigger] es[i]) ==> changed_map(olds, es).contains_key(es[i].0)
            && changed_map(olds, es)[es[i].0] == es[i].1,
        forall|i: int| 0 <= i < es.len() && prop_unchanged(olds, #[trigger] es[i]) ==> !changed_map(olds, es).contains_key(es[i].0),
    decreases es.len(),
{
    if es.len() > 0 {
        let t = es.drop_last();
        assert(entries_sorted(t)) by {
            assert forall|i: int, j: int| 0 <= i < j < t.len() implies crate::text::seq_lt(#[trigger] t[i].0, #[trigger] t[j].0) by {
                assert(t[i] == es[i] && t[j] == es[j]);
            }
        }
        lemma_changed_map(olds, t);
        let last = es.last();
        assert forall|i: int| 0 <= i < t.len() implies (#[trigger] t[i]).0 != last.0 by {
            assert(t[i] == es[i]);
            assert(crate::text::seq_lt(es[i].0, es[es.len() - 1].0));
            crate::text::lemma_seq_lt_irreflexive(last.0);
        }
        assert forall|c: Seq<char>| #[trigger] changed_map(olds, es).contains_key(c) implies entries_has(es, c) by {
            if c != last.0 {
                assert(changed_map(olds, t).contains_key(c));
                let j = entries_index(t, c);
                assert(es[j] == t[j]);
            } else {
                assert(es[es.len() - 1].0 == c);
            }
        }
        assert forall|i: int| 0 <= i < es.len() && !prop_unchanged(olds, #[trigger] es[i]) implies changed_map(olds, es).contains_key(es[i].0)
            && changed_map(olds, es)[es[i].0] == es[i].1 by {
            if i < es.len() - 1 {
                assert(es[i] == t[i]);
            }
        }
        assert forall|i: int| 0 <= i < es.len() && prop_unchanged(olds, #[trigger] es[i]) implies !changed_map(olds, es).contains_key(es[i].0) by {
            if i < es.len() - 1 {
                assert(es[i] == t[i]);
            } else {
                if changed_map(olds, t).contains_key(last.0) {
                    let j = entries_index(t, last.0);
                    assert(t[j].0 != last.0);
                }
            }
        }
    }
}

proof fn lemma_sorted_drop_first(a: Seq<EntryView>)
    requires
        entries_sorted(a),
        a.len() > 0,
    ensures
        entries_sorted(a.drop_first()),
        entries_map(a.drop_first()) == entries_map(a).remove(a[0].0),
{
    let t = a.drop_first();
    assert forall|i: int, j: int| 0 <= i < j < t.len() implies crate::text::seq_lt(#[trigger] t[i].0, #[trigger] t[j].0) by {
        assert(t[i] == a[i + 1] && t[j] == a[j + 1]);
    }
    assert forall|c: Seq<char>| #[trigger] entries_has(t, c) == (entries_has(a, c) && c != a[0].0) by {
        if entries_has(t, c) {
            let j = entries_index(t, c);
            assert(a[j + 1] == t[j]);
            assert(crate::text::seq_lt(a[0].0, a[j + 1].0));
            crate::text::lemma_seq_lt_irreflexive(c);
        }
        if entries_has(a, c) && c != a[0].0 {
            let j = entries_index(a, c);
            assert(t[j - 1] == a[j]);
        }
    }
    assert forall|c: Seq<char>| entries_map(t).contains_key(c) implies entries_map(t)[c] == entries_map(a)[c] by {
        let j = entries_index(t, c);
        lemma_entries_map_at(t, j);
        assert(a[j + 1] == t[j]);
        lemma_entries_map_at(a, j + 1);
    }
    assert(entries_map(t) =~= entries_map(a).remove(a[0].0));
}

/// Entries in order are determined by the map they stand for.
pub proof fn lemma_sorted_canonical(a: Seq<EntryView>, b: Seq<EntryView>)
    requires
        entries_sorted(a),
        entries_sorted(b),
        entries_map(a) == entries_map(b),
    ensures
        a == b,
    decreases a.len(),
{
    if a.len() == 0 || b.len() == 0 {
        if a.len() > 0 {
            lemma_entries_map_at(a, 0);
        }
        if b.len() > 0 {
            lemma_entries_map_at(b, 0);
        }
        assert(a =~= b);
    } else {
        lemma_entries_map_at(a, 0);
        lemma_entries_map_at(b, 0);
        let ka = a[0].0;
        let kb = b[0].0;
        if ka != kb {
            let j = entries_index(b, ka);
            let i = entries_index(a, kb);
            assert(j > 0 && i > 0);
            assert(crate::text::seq_lt(b[0].0, b[j].0));
            assert(crate::text::seq_lt(a[0].0, a[i].0));
            crate::text::lemma_seq_lt_transitive(ka, kb, ka);
            crate::text::lemma_seq_lt_irreflexive(ka);
        }
        lemma_sorted_drop_first(a);
        lemma_sorted_drop_first(b);
        lemma_sorted_canonical(a.drop_first(), b.drop_first());
        assert(a =~= seq![a[0]] + a.drop_first());
        assert(b =~= seq![b[0]] + b.drop_first());
    }
}

/// The properties after the property patches are the new ones.
proof fn lemma_props_rebuilt(key: Seq<u8>, olds: Seq<EntryView>, news: Seq<EntryView>)
    requires
        entries_sorted(olds),
        entries_sorted(news),
        props_kept(olds, news),
        props_exact(olds, news),
    ensures
        props_applied(olds, prop_patches(key, olds, news)) == news,
{
    lemma_props_applied_map(key, olds, news, olds);
    lemma_changed_map(olds, news);
    let r = props_applied(olds, prop_patches(key, olds, news));
    let m = entries_map(olds).union_prefer_right(changed_map(olds, news));
    assert forall|c: Seq<char>| #[trigger] m.contains_key(c) == entries_map(news).contains_key(c) by {
        if changed_map(olds, news).contains_key(c) {
            assert(entries_has(news, c));
        }
        if entries_map(olds).contains_key(c) {
            let j = entries_index(olds, c);
            assert(entries_lookup(news, olds[j].0) is Some);
            lemma_entries_lookup_map(news, c);
        }
        if entries_map(news).contains_key(c) {
            let i = entries_index(news, c);
            lemma_entries_lookup_map(olds, c);
            if prop_unchanged(olds, news[i]) {
                assert(entries_map(olds).contains_key(c));
            }
        }
    }
    assert forall|c: Seq<char>| m.contains_key(c) implies m[c] == entries_map(news)[c] by {
        let i = entries_index(news, c);
        lemma_entries_map_at(news, i);
        if !prop_unchanged(olds, news[i]) {
        } else {
            lemma_entries_lookup_map(olds, c);
            assert(entries_lookup(olds, news[i].0) is Some);
        }
    }
    assert(m =~= entries_map(news));
    lemma_sorted_canonical(r, news);
}


/// What makes the patches of `diff` rebuild the new tree from the old one.
/// Where the roots differ (in key or kind, or the new one lacks a property of
/// the old one), the new tree replaces the old one and nothing more is
/// needed. Where they agree: a new property equal under `==` to the old one is
/// written the same way (the diff does not send it; see `props_exact`); the
/// positions of new children fit in a `u32`; and the children that the diff
/// pairs (by key where `keyed_ok` holds, else by position) meet this too,
/// while no key under an old child of a pair occurs under a new child of
/// another pair (so that a key-addressed patch cannot land on a node that an
/// earlier patch brought in).
pub open spec fn recon_ok(o: NodeView, n: NodeView) -> bool
    decreases o,
{
    if o.key != n.key || o.kind != n.kind || !props_kept(o.props, n.props) {
        true
    } else {
        &&& props_exact(o.props, n.props)
        &&& n.children.len() <= 0x1_0000_0000
        &&& if keyed_ok(o.children, n.children) {
            &&& forall|i: int|
                0 <= i < o.children.len() && has_key(n.children, o.children[i].key) ==> recon_ok(
                    #[trigger] o.children[i],
                    n.children[child_position(n.children, o.children[i].key)->0],
                )
            &&& forall|i: int, j: int|
                0 <= i < o.children.len() && 0 <= j < n.children.len() && has_key(n.children, o.children[i].key)
                    && has_key(o.children, n.children[j].key) && o.children[i].key != n.children[j].key
                    ==> key_set(#[trigger] o.children[i]).disjoint(key_set(#[trigger] n.children[j]))
        } else {
            &&& forall|i: int|
                0 <= i < o.children.len() && i < n.children.len() ==> recon_ok(
                    #[trigger] o.children[i],
                    n.children[i],
                )
            &&& forall|i: int, j: int|
                0 <= i < o.children.len() && 0 <= j < n.children.len() && i != j ==> key_set(
                    #[trigger] o.children[i],
                ).disjoint(key_set(#[trigger] n.children[j]))
        }
    }
}

proof fn lemma_ctx_push(ctx: Seq<Frame>, f: Frame, k: Seq<u8>)
    requires
        ctx_avoids(ctx, k),
        frame_avoids(f, k),
    ensures
        ctx_avoids(ctx.push(f), k),
{
    assert forall|i: int| 0 <= i < ctx.push(f).len() implies frame_avoids(#[trigger] ctx.push(f)[i], k) by {
        if i < ctx.len() {
            assert(ctx.push(f)[i] == ctx[i]);
        }
    }
}

proof fn lemma_plug_push(ctx: Seq<Frame>, f: Frame, x: NodeView)
    ensures
        plug(ctx.push(f), x) == plug(ctx, fill(f, x)),
{
    assert(ctx.push(f).drop_last() =~= ctx);
}

proof fn lemma_rebuild_inserts(ctx: Seq<Frame>, base: NodeView, nc: Seq<NodeView>, from: nat, k: nat)
    requires
        ctx_avoids(ctx, base.key),
        base.children == nc.take(from as int),
        from <= k <= nc.len(),
        nc.len() <= 0x1_0000_0000,
    ensures
        all_ok(plug(ctx, base), insert_patches(base.key, from, nc.take(k as int))),
        apply_all(plug(ctx, base), insert_patches(base.key, from, nc.take(k as int))) == plug(
            ctx,
            NodeView { children: nc.take(k as int), ..base },
        ),
    decreases k,
{
    if k <= from {
        assert(insert_patches(base.key, from, nc.take(k as int)) =~= Seq::<PatchView>::empty());
        assert(k == from);
        assert(NodeView { children: nc.take(k as int), ..base } == base);
    } else {
        lemma_rebuild_inserts(ctx, base, nc, from, (k - 1) as nat);
        let news = nc.take(k as int);
        assert(news.drop_last() =~= nc.take(k - 1));
        let x = NodeView { children: nc.take(k - 1), ..base };
        let ed = EditView::InsertChild { index: (k - 1) as u32, node: nc[k - 1] };
        lemma_plug_modify(ctx, x, base.key, ed);
        let ps0 = insert_patches(base.key, from, nc.take(k - 1));
        let p = PatchView::Insert { parent: base.key, index: (k - 1) as u32, node: nc[k - 1] };
        let ps = insert_patches(base.key, from, news);
        assert(news.last() == nc[k - 1]);
        assert(ps == ps0.push(p));
        assert(ps.drop_last() =~= ps0);
        assert(ps.last() == p);
        assert(apply_all(plug(ctx, base), ps) == apply_patch(plug(ctx, x), p));
        assert(find_first(x, base.key) == Some(x));
        assert(((k - 1) as u32) as int == k - 1);
        assert(nc.take(k - 1).insert(k - 1, nc[k - 1]) =~= nc.take(k as int));
        assert(edit_node(x, ed) == NodeView { children: nc.take(k as int), ..base });
    }
}

proof fn lemma_rebuild_removes(ctx: Seq<Frame>, base: NodeView, oc: Seq<NodeView>, keep: Seq<NodeView>, r: nat)
    requires
        keep.len() <= r <= oc.len(),
        base.children == keep + oc.subrange(keep.len() as int, r as int),
        forall|j: int| keep.len() <= j < r ==> ctx_avoids(ctx, (#[trigger] oc[j]).key),
        forall|j: int| keep.len() <= j < r ==> base.key != (#[trigger] oc[j]).key,
        forall|i: int, j: int| 0 <= i < keep.len() && keep.len() <= j < r ==> (#[trigger] keep[i]).key != (#[trigger] oc[j]).key,
        forall|j1: int, j2: int| keep.len() <= j1 < r && keep.len() <= j2 < r && j1 != j2 ==> (#[trigger] oc[j1]).key != (#[trigger] oc[j2]).key,
    ensures
        all_ok(plug(ctx, base), remove_patches(oc.take(r as int), keep.len())),
        apply_all(plug(ctx, base), remove_patches(oc.take(r as int), keep.len())) == plug(
            ctx,
            NodeView { children: keep, ..base },
        ),
    decreases r,
{
    let to = keep.len();
    if r <= to {
        assert(remove_patches(oc.take(r as int), to) =~= Seq::<PatchView>::empty());
        assert(base.children =~= keep);
        assert(NodeView { children: keep, ..base } == base);
    } else {
        let olds = oc.take(r as int);
        assert(olds.drop_last() =~= oc.take(r - 1));
        let key = oc[r - 1].key;
        let first = seq![PatchView::Remove { key }];
        let rest = remove_patches(oc.take(r - 1), to);
        assert(remove_patches(olds, to) == first + rest);
        lemma_plug_remove(ctx, base, key);
        let cs = base.children;
        assert forall|j: int| 0 <= j < r - 1 implies (#[trigger] cs[j]).key != key by {
            if j < to {
                assert(cs[j] == keep[j]);
            } else {
                assert(cs[j] == oc[j]);
            }
        }
        assert(cs[r - 1] == oc[r - 1]);
        lemma_child_position_first(cs, key, r - 1);
        let x = NodeView { children: keep + oc.subrange(to as int, r - 1), ..base };
        assert(cs.remove(r - 1) =~= x.children);
        assert(remove_first(base, key).0 == x);
        assert(first.drop_last() =~= Seq::<PatchView>::empty());
        assert(apply_all(plug(ctx, base), first.drop_last()) == plug(ctx, base));
        assert(all_ok(plug(ctx, base), first.drop_last()));
        assert(first.last() == PatchView::Remove { key });
        assert(apply_all(plug(ctx, base), first) == plug(ctx, x));
        assert(all_ok(plug(ctx, base), first));
        lemma_rebuild_removes(ctx, x, oc, keep, (r - 1) as nat);
        lemma_apply_concat(plug(ctx, base), first, rest);
        assert(NodeView { children: keep, ..x } == NodeView { children: keep, ..base });
    }
}


proof fn lemma_rebuild(ctx: Seq<Frame>, o: NodeView, n: NodeView)
    requires
        forall|k: Seq<u8>| #[trigger] key_set(o).contains(k) ==> ctx_avoids(ctx, k),
        unique_keys(o),
        recon_ok(o, n),
        tree_wf(o),
        tree_wf(n),
    ensures
        all_ok(plug(ctx, o), diff_spec(o, n)),
        apply_all(plug(ctx, o), diff_spec(o, n)) == plug(ctx, n),
    decreases o, 1int, 0nat,
{
    assert(key_set(o).contains(o.key));
    let oc = o.children;
    let nc = n.children;
    lemma_list_keys(oc, oc.len());
    if o.key != n.key || o.kind != n.kind || !props_kept(o.props, n.props) {
        let ed = EditView::ReplaceWith { node: n };
        let p = PatchView::Replace { key: o.key, with: n };
        let ps = diff_spec(o, n);
        assert(ps == seq![p]);
        assert(ps.drop_last() =~= Seq::<PatchView>::empty());
        assert(ps.last() == p);
        lemma_plug_modify(ctx, o, o.key, ed);
        assert(apply_all(plug(ctx, o), ps.drop_last()) == plug(ctx, o));
        assert(all_ok(plug(ctx, o), ps.drop_last()));
        assert(apply_all(plug(ctx, o), ps) == apply_patch(plug(ctx, o), p));
    } else if keyed_ok(oc, nc) {
        lemma_rebuild_keyed(ctx, o, n);
    } else {
        let pp = prop_patches(o.key, o.props, n.props);
        let m = min_len(oc.len(), nc.len());
        let cp = diff_children(oc, nc, m);
        let ip = insert_patches(o.key, oc.len(), nc);
        let rp = remove_patches(oc, nc.len());
        assert(diff_spec(o, n) =~= pp + cp + ip + rp);
        let t = plug(ctx, o);
        lemma_apply_prop_patches(ctx, o, o.props, n.props);
        lemma_props_rebuilt(o.key, o.props, n.props);
        let o1 = NodeView { props: n.props, ..o };
        lemma_rebuild_children(ctx, o, n, m);
        lemma_apply_concat(t, pp, cp);
        let cm = NodeView { props: n.props, children: nc.take(m as int) + oc.skip(m as int), ..o };
        assert(apply_all(t, pp + cp) == plug(ctx, cm));
        if nc.len() >= oc.len() {
            assert(oc.skip(m as int) =~= Seq::<NodeView>::empty());
            assert(cm.children =~= nc.take(oc.len() as int));
            lemma_rebuild_inserts(ctx, cm, nc, oc.len(), nc.len());
            assert(nc.take(nc.len() as int) =~= nc);
            assert(rp =~= Seq::<PatchView>::empty());
            lemma_apply_concat(t, pp + cp, ip);
            lemma_apply_concat(t, pp + cp + ip, rp);
            assert(NodeView { children: nc, ..cm } == n);
        } else {
            assert(ip =~= Seq::<PatchView>::empty());
            assert(nc.take(m as int) =~= nc);
            assert(oc.skip(m as int) =~= oc.subrange(nc.len() as int, oc.len() as int));
            assert forall|j: int| nc.len() <= j < oc.len() implies ctx_avoids(ctx, (#[trigger] oc[j]).key) by {
                assert(key_set(oc[j]).contains(oc[j].key));
                assert(key_set(o).contains(oc[j].key));
            }
            assert forall|j: int| nc.len() <= j < oc.len() implies cm.key != (#[trigger] oc[j]).key by {
                assert(key_set(oc[j]).contains(oc[j].key));
            }
            assert forall|i: int, j: int| 0 <= i < nc.len() && nc.len() <= j < oc.len() implies (#[trigger] nc[i]).key != (#[trigger] oc[j]).key by {
                assert(key_set(oc[j]).disjoint(key_set(nc[i])));
                assert(key_set(oc[j]).contains(oc[j].key));
                assert(key_set(nc[i]).contains(nc[i].key));
            }
            assert forall|j1: int, j2: int| nc.len() <= j1 < oc.len() && nc.len() <= j2 < oc.len() && j1 != j2 implies (#[trigger] oc[j1]).key != (#[trigger] oc[j2]).key by {
                assert(key_set(oc[j1]).disjoint(key_set(oc[j2])));
                assert(key_set(oc[j1]).contains(oc[j1].key));
                assert(key_set(oc[j2]).contains(oc[j2].key));
            }
            lemma_rebuild_removes(ctx, cm, oc, nc, oc.len());
            assert(oc.take(oc.len() as int) =~= oc);
            lemma_apply_concat(t, pp + cp, ip);
            assert(pp + cp + ip =~= pp + cp);
            lemma_apply_concat(t, pp + cp + ip, rp);
            assert(NodeView { children: nc, ..cm } == n);
        }
    }
}

/// Removing, last first, the old children that no new child matches leaves
/// the matched ones, in order.
proof fn lemma_rebuild_keyed_removes(ctx: Seq<Frame>, base: NodeView, oc: Seq<NodeView>, nc: Seq<NodeView>, r: nat)
    requires
        r <= oc.len(),
        base.children == oc.take(r as int) + kept(oc.skip(r as int), nc),
        crate::diff::distinct_keys(oc),
        forall|j: int| 0 <= j < oc.len() ==> ctx_avoids(ctx, (#[trigger] oc[j]).key),
        forall|j: int| 0 <= j < oc.len() ==> base.key != (#[trigger] oc[j]).key,
    ensures
        all_ok(plug(ctx, base), keyed_removes(oc.take(r as int), nc)),
        apply_all(plug(ctx, base), keyed_removes(oc.take(r as int), nc)) == plug(
            ctx,
            NodeView { children: kept(oc, nc), ..base },
        ),
    decreases r,
{
    if r == 0 {
        assert(oc.take(0).len() == 0);
        assert(oc.skip(0) =~= oc);
        assert(base.children =~= kept(oc, nc));
        assert(NodeView { children: kept(oc, nc), ..base } == base);
    } else {
        let i = r - 1;
        let cur = oc.take(r as int);
        assert(cur.drop_last() =~= oc.take(i));
        assert(cur.last() == oc[i]);
        assert(oc.skip(i) =~= seq![oc[i]] + oc.skip(r as int));
        lemma_kept_concat(seq![oc[i]], oc.skip(r as int), nc);
        lemma_kept_single(oc[i], nc);
        let cs = base.children;
        if has_key(nc, oc[i].key) {
            assert(kept(seq![oc[i]], nc) =~= seq![oc[i]]);
            assert(keyed_removes(cur, nc) == keyed_removes(oc.take(i), nc));
            assert(cs =~= oc.take(i) + kept(oc.skip(i), nc));
            lemma_rebuild_keyed_removes(ctx, base, oc, nc, i as nat);
        } else {
            assert(kept(seq![oc[i]], nc) =~= Seq::<NodeView>::empty());
            let key = oc[i].key;
            let first = seq![PatchView::Remove { key }];
            let rest = keyed_removes(oc.take(i), nc);
            assert(keyed_removes(cur, nc) == first + rest);
            lemma_plug_remove(ctx, base, key);
            assert forall|j: int| 0 <= j < i implies (#[trigger] cs[j]).key != key by {
                assert(cs[j] == oc[j]);
            }
            assert(cs[i] == oc[i]);
            lemma_child_position_first(cs, key, i);
            let x = NodeView { children: oc.take(i) + kept(oc.skip(i), nc), ..base };
            assert(cs.remove(i) =~= x.children);
            assert(remove_first(base, key).0 == x);
            assert(first.drop_last() =~= Seq::<PatchView>::empty());
            assert(apply_all(plug(ctx, base), first.drop_last()) == plug(ctx, base));
            assert(all_ok(plug(ctx, base), first.drop_last()));
            assert(first.last() == PatchView::Remove { key });
            assert(apply_all(plug(ctx, base), first) == plug(ctx, x));
            assert(all_ok(plug(ctx, base), first));
            lemma_rebuild_keyed_removes(ctx, x, oc, nc, i as nat);
            lemma_apply_concat(plug(ctx, base), first, rest);
            assert(NodeView { children: kept(oc, nc), ..x } == NodeView { children: kept(oc, nc), ..base });
        }
    }
}

/// Inserting, in order, each new child that no old child matches at its
/// position turns the matched new children into all the new children.
proof fn lemma_rebuild_keyed_inserts(ctx: Seq<Frame>, base: NodeView, nc: Seq<NodeView>, oc: Seq<NodeView>, k: nat)
    requires
        ctx_avoids(ctx, base.key),
        base.children == kept(nc, oc),
        k <= nc.len(),
        nc.len() <= 0x1_0000_0000,
    ensures
        all_ok(plug(ctx, base), keyed_inserts(base.key, nc.take(k as int), oc)),
        apply_all(plug(ctx, base), keyed_inserts(base.key, nc.take(k as int), oc)) == plug(
            ctx,
            NodeView { children: nc.take(k as int) + kept(nc.skip(k as int), oc), ..base },
        ),
    decreases k,
{
    if k == 0 {
        assert(keyed_inserts(base.key, nc.take(0), oc) =~= Seq::<PatchView>::empty());
        assert(nc.skip(0) =~= nc);
        assert(nc.take(0) + kept(nc, oc) =~= kept(nc, oc));
        assert(NodeView { children: nc.take(0) + kept(nc.skip(0), oc), ..base } == base);
    } else {
        let i = k - 1;
        lemma_rebuild_keyed_inserts(ctx, base, nc, oc, i as nat);
        let cur = nc.take(k as int);
        assert(cur.drop_last() =~= nc.take(i));
        assert(cur.last() == nc[i]);
        assert(nc.skip(i) =~= seq![nc[i]] + nc.skip(k as int));
        lemma_kept_concat(seq![nc[i]], nc.skip(k as int), oc);
        lemma_kept_single(nc[i], oc);
        let x = NodeView { children: nc.take(i) + kept(nc.skip(i), oc), ..base };
        let ps0 = keyed_inserts(base.key, nc.take(i), oc);
        if has_key(oc, nc[i].key) {
            assert(kept(seq![nc[i]], oc) =~= seq![nc[i]]);
            assert(keyed_inserts(base.key, cur, oc) == ps0);
            assert(x.children =~= nc.take(k as int) + kept(nc.skip(k as int), oc));
        } else {
            assert(kept(seq![nc[i]], oc) =~= Seq::<NodeView>::empty());
            let ed = EditView::InsertChild { index: i as u32, node: nc[i] };
            lemma_plug_modify(ctx, x, base.key, ed);
            let p = PatchView::Insert { parent: base.key, index: i as u32, node: nc[i] };
            let ps = keyed_inserts(base.key, cur, oc);
            assert(ps == ps0.push(p));
            assert(ps.drop_last() =~= ps0);
            assert(ps.last() == p);
            assert(apply_all(plug(ctx, base), ps) == apply_patch(plug(ctx, x), p));
            assert(find_first(x, base.key) == Some(x));
            assert((i as u32) as int == i);
            assert(x.children.insert(i, nc[i]) =~= nc.take(k as int) + kept(nc.skip(k as int), oc));
            assert(edit_node(x, ed) == NodeView { children: nc.take(k as int) + kept(nc.skip(k as int), oc), ..base });
        }
    }
}

/// The number of the first `k` old children that a new child matches.
pub open spec fn kept_before(oc: Seq<NodeView>, nc: Seq<NodeView>, k: int) -> int {
    kept(oc.take(k), nc).len() as int
}

/// Diffing each matched pair in turn, with the matched old children in
/// place, puts the matched new children in their place.
proof fn lemma_rebuild_keyed_pairs(ctx: Seq<Frame>, o: NodeView, n: NodeView, k: nat)
    requires
        forall|x: Seq<u8>| #[trigger] key_set(o).contains(x) ==> ctx_avoids(ctx, x),
        unique_keys(o),
        recon_ok(o, n),
        tree_wf(o),
        tree_wf(n),
        o.key == n.key,
        o.kind == n.kind,
        props_kept(o.props, n.props),
        keyed_ok(o.children, n.children),
        k <= o.children.len(),
    ensures
        ({
            let kk = kept(o.children, n.children);
            let mm = kept(n.children, o.children);
            let t = kept_before(o.children, n.children, k as int);
            &&& t <= kk.len()
            &&& kk.len() == mm.len()
            &&& all_ok(plug(ctx, NodeView { props: n.props, children: kk, ..o }), keyed_pairs(o.children, n.children, k))
            &&& apply_all(plug(ctx, NodeView { props: n.props, children: kk, ..o }), keyed_pairs(o.children, n.children, k))
                == plug(ctx, NodeView { props: n.props, children: mm.take(t) + kk.skip(t), ..o })
        }),
    decreases o, 0int, k,
{
    let oc = o.children;
    let nc = n.children;
    let kk = kept(oc, nc);
    let mm = kept(nc, oc);
    assert(keys_of(kk).len() == keys_of(mm).len());
    let c0 = NodeView { props: n.props, children: kk, ..o };
    lemma_kept_concat(oc.take(k as int), oc.skip(k as int), nc);
    assert(oc.take(k as int) + oc.skip(k as int) =~= oc);
    let t = kept_before(oc, nc, k as int);
    if k == 0 {
        assert(oc.take(0).len() == 0);
        assert(keyed_pairs(oc, nc, 0) == Seq::<PatchView>::empty());
        assert(mm.take(0) + kk.skip(0) =~= kk);
        assert(NodeView { props: n.props, children: mm.take(0) + kk.skip(0), ..o } == c0);
    } else {
        let i = k - 1;
        lemma_rebuild_keyed_pairs(ctx, o, n, i as nat);
        let t0 = kept_before(oc, nc, i);
        let prev = NodeView { props: n.props, children: mm.take(t0) + kk.skip(t0), ..o };
        assert(oc.take(k as int) =~= oc.take(i) + seq![oc[i]]);
        lemma_kept_concat(oc.take(i), seq![oc[i]], nc);
        lemma_kept_single(oc[i], nc);
        lemma_kept_concat(oc.take(i), oc.skip(i), nc);
        assert(oc.take(i) + oc.skip(i) =~= oc);
        assert(oc.skip(i) =~= seq![oc[i]] + oc.skip(k as int));
        lemma_kept_concat(seq![oc[i]], oc.skip(k as int), nc);
        if !has_key(nc, oc[i].key) {
            assert(kept(seq![oc[i]], nc) =~= Seq::<NodeView>::empty());
            assert(kept(oc.take(k as int), nc) =~= kept(oc.take(i), nc));
            assert(keyed_pairs(oc, nc, k) =~= keyed_pairs(oc, nc, i as nat));
        } else {
            assert(kept(seq![oc[i]], nc) =~= seq![oc[i]]);
            assert(t == t0 + 1);
            // The old child is the next matched one, and the new child that
            // matches it is the next matched new one.
            assert(kk == kept(oc.take(i), nc) + (seq![oc[i]] + kept(oc.skip(k as int), nc)));
            assert(kk[t0] == oc[i]);
            let j = child_position(nc, oc[i].key)->0;
            lemma_kept_elems(nc, oc);
            lemma_kept_elems(oc, nc);
            let jm = choose|q: int| 0 <= q < nc.len() && #[trigger] mm[t0] == nc[q] && has_key(oc, nc[q].key);
            assert(keys_of(kk)[t0] == keys_of(mm)[t0]);
            assert(mm[t0].key == oc[i].key);
            lemma_has_key(nc, jm);
            assert(j == jm);
            assert(mm[t0] == nc[j]);
            // The frame around the pair.
            let f = Frame { node: prev, idx: t0 };
            vstd::seq::axiom_seq_index_decreases(oc, i);
            lemma_list_keys(oc, oc.len());
            lemma_kept_distinct(oc, nc);
            assert(key_set(oc[i]).subset_of(list_keys(oc, oc.len())));
            assert forall|x: Seq<u8>| #[trigger] key_set(oc[i]).contains(x) implies ctx_avoids(ctx.push(f), x) by {
                assert(key_set(o).contains(x));
                assert(prev.key != x);
                assert forall|s: int| 0 <= s < prev.children.len() && s != f.idx implies !key_set(#[trigger] prev.children[s]).contains(x) by {
                    if s < t0 {
                        assert(prev.children[s] == mm[s]);
                        let q = choose|q: int| 0 <= q < nc.len() && #[trigger] mm[s] == nc[q] && has_key(oc, nc[q].key);
                        assert(mm[s].key == kk[s].key) by {
                            assert(keys_of(kk)[s] == keys_of(mm)[s]);
                        }
                        assert(kk[s].key != kk[t0].key);
                        assert(key_set(oc[i]).disjoint(key_set(nc[q])));
                    } else {
                        assert(prev.children[s] == kk[s]);
                        let q = choose|q: int| 0 <= q < oc.len() && #[trigger] kk[s] == oc[q] && has_key(nc, oc[q].key);
                        assert(kk[s].key != kk[t0].key);
                        assert(q != i);
                        assert(key_set(oc[i]).disjoint(key_set(oc[q])));
                    }
                }
                assert(frame_avoids(f, x));
                lemma_ctx_push(ctx, f, x);
            }
            assert(recon_ok(oc[i], nc[j]));
            lemma_rebuild(ctx.push(f), oc[i], nc[j]);
            lemma_plug_push(ctx, f, oc[i]);
            lemma_plug_push(ctx, f, nc[j]);
            let next = NodeView { props: n.props, children: mm.take(t) + kk.skip(t), ..o };
            assert(prev.children.update(t0, oc[i]) =~= prev.children);
            assert(fill(f, oc[i]) == prev);
            assert(prev.children.update(t0, nc[j]) =~= next.children);
            assert(fill(f, nc[j]) == next);
            assert(keyed_pairs(oc, nc, k) == keyed_pairs(oc, nc, i as nat) + diff_spec(oc[i], nc[j]));
            lemma_apply_concat(plug(ctx, c0), keyed_pairs(oc, nc, i as nat), diff_spec(oc[i], nc[j]));
        }
    }
}

/// The patches of a diff whose children are matched by key rebuild the new
/// node in place.
proof fn lemma_rebuild_keyed(ctx: Seq<Frame>, o: NodeView, n: NodeView)
    requires
        forall|k: Seq<u8>| #[trigger] key_set(o).contains(k) ==> ctx_avoids(ctx, k),
        unique_keys(o),
        recon_ok(o, n),
        tree_wf(o),
        tree_wf(n),
        o.key == n.key,
        o.kind == n.kind,
        props_kept(o.props, n.props),
        keyed_ok(o.children, n.children),
    ensures
        all_ok(plug(ctx, o), diff_spec(o, n)),
        apply_all(plug(ctx, o), diff_spec(o, n)) == plug(ctx, n),
    decreases o, 0int, o.children.len() + 1,
{
    let oc = o.children;
    let nc = n.children;
    let pp = prop_patches(o.key, o.props, n.props);
    let kr = keyed_removes(oc, nc);
    let kp = keyed_pairs(oc, nc, oc.len());
    let ki = keyed_inserts(o.key, nc, oc);
    assert(diff_spec(o, n) =~= pp + kr + kp + ki);
    let t = plug(ctx, o);
    assert(key_set(o).contains(o.key));
    lemma_apply_prop_patches(ctx, o, o.props, n.props);
    lemma_props_rebuilt(o.key, o.props, n.props);
    let x1 = NodeView { props: n.props, ..o };
    assert(key_set(o).contains(o.key));
    lemma_list_keys(oc, oc.len());
    assert forall|j: int| 0 <= j < oc.len() implies ctx_avoids(ctx, (#[trigger] oc[j]).key) by {
        assert(key_set(oc[j]).contains(oc[j].key));
        assert(key_set(o).contains(oc[j].key));
    }
    assert forall|j: int| 0 <= j < oc.len() implies x1.key != (#[trigger] oc[j]).key by {
        assert(key_set(oc[j]).contains(oc[j].key));
    }
    assert(oc.take(oc.len() as int) =~= oc);
    assert(oc.skip(oc.len() as int).len() == 0);
    assert(kept(oc.skip(oc.len() as int), nc) =~= Seq::<NodeView>::empty());
    assert(x1.children =~= oc.take(oc.len() as int) + kept(oc.skip(oc.len() as int), nc));
    lemma_rebuild_keyed_removes(ctx, x1, oc, nc, oc.len());
    lemma_apply_concat(t, pp, kr);
    let kk = kept(oc, nc);
    let mm = kept(nc, oc);
    let x2 = NodeView { props: n.props, children: kk, ..o };
    assert(NodeView { children: kk, ..x1 } == x2);
    lemma_rebuild_keyed_pairs(ctx, o, n, oc.len());
    assert(oc.take(oc.len() as int) =~= oc);
    assert(kk.skip(kk.len() as int).len() == 0);
    assert(mm.take(mm.len() as int) + kk.skip(kk.len() as int) =~= mm);
    let x3 = NodeView { props: n.props, children: mm, ..o };
    lemma_apply_concat(t, pp + kr, kp);
    assert(ctx_avoids(ctx, x3.key));
    lemma_rebuild_keyed_inserts(ctx, x3, nc, oc, nc.len());
    assert(nc.take(nc.len() as int) =~= nc);
    assert(nc.skip(nc.len() as int).len() == 0);
    assert(kept(nc.skip(nc.len() as int), oc) =~= Seq::<NodeView>::empty());
    assert(nc + Seq::<NodeView>::empty() =~= nc);
    lemma_apply_concat(t, pp + kr + kp, ki);
    assert(NodeView { children: nc, ..x3 } == n);
}

proof fn lemma_rebuild_children(ctx: Seq<Frame>, o: NodeView, n: NodeView, k: nat)
    requires
        forall|x: Seq<u8>| #[trigger] key_set(o).contains(x) ==> ctx_avoids(ctx, x),
        unique_keys(o),
        recon_ok(o, n),
        tree_wf(o),
        tree_wf(n),
        o.key == n.key,
        o.kind == n.kind,
        props_kept(o.props, n.props),
        !keyed_ok(o.children, n.children),
        k <= o.children.len(),
        k <= n.children.len(),
    ensures
        all_ok(plug(ctx, NodeView { props: n.props, ..o }), diff_children(o.children, n.children, k)),
        apply_all(plug(ctx, NodeView { props: n.props, ..o }), diff_children(o.children, n.children, k)) == plug(
            ctx,
            NodeView { props: n.props, children: n.children.take(k as int) + o.children.skip(k as int), ..o },
        ),
    decreases o, 0int, k,
{
    let oc = o.children;
    let nc = n.children;
    let c0 = NodeView { props: n.props, ..o };
    if k == 0 {
        assert(nc.take(0) + oc.skip(0) =~= oc);
        assert(NodeView { props: n.props, children: nc.take(0) + oc.skip(0), ..o } == c0);
    } else {
        lemma_rebuild_children(ctx, o, n, (k - 1) as nat);
        let i = k - 1;
        let prev = NodeView { props: n.props, children: nc.take(i) + oc.skip(i), ..o };
        let next = NodeView { props: n.props, children: nc.take(k as int) + oc.skip(k as int), ..o };
        let f = Frame { node: prev, idx: i };
        vstd::seq::axiom_seq_index_decreases(oc, i);
        lemma_list_keys(oc, oc.len());
        assert(key_set(oc[i]).subset_of(list_keys(oc, oc.len())));
        assert forall|x: Seq<u8>| #[trigger] key_set(oc[i]).contains(x) implies ctx_avoids(ctx.push(f), x) by {
            assert(key_set(o).contains(x));
            assert(prev.key != x);
            assert forall|j: int| 0 <= j < prev.children.len() && j != f.idx implies !key_set(#[trigger] prev.children[j]).contains(x) by {
                if j < i {
                    assert(prev.children[j] == nc[j]);
                    assert(key_set(oc[i]).disjoint(key_set(nc[j])));
                } else {
                    assert(prev.children[j] == oc[j]);
                    assert(key_set(oc[i]).disjoint(key_set(oc[j])));
                }
            }
            assert(frame_avoids(f, x));
            lemma_ctx_push(ctx, f, x);
        }
        lemma_rebuild(ctx.push(f), oc[i], nc[i]);
        lemma_plug_push(ctx, f, oc[i]);
        lemma_plug_push(ctx, f, nc[i]);
        assert(prev.children.update(i, oc[i]) =~= prev.children);
        assert(fill(f, oc[i]) == prev);
        assert(prev.children.update(i, nc[i]) =~= next.children);
        assert(fill(f, nc[i]) == next);
        assert(diff_children(oc, nc, k) == diff_children(oc, nc, (k - 1) as nat) + diff_spec(oc[i], nc[i]));
        lemma_apply_concat(plug(ctx, c0), diff_children(oc, nc, (k - 1) as nat), diff_spec(oc[i], nc[i]));
    }
}

/// Applying the patches of `diff` to the old scene gives the new scene, and
/// each patch can be applied without a panic, when the old scene's keys are
/// distinct and the pair meets `recon_ok`.
pub proof fn law_applying_the_diff_rebuilds_the_new_scene(a: NodeView, b: NodeView)
    requires
        tree_wf(a),
        tree_wf(b),
        unique_keys(a),
        recon_ok(a, b),
    ensures
        all_ok(a, diff_spec(a, b)),
        apply_all(a, diff_spec(a, b)) == b,
{
    let ctx = Seq::<Frame>::empty();
    lemma_rebuild(ctx, a, b);
}

} // verus!
