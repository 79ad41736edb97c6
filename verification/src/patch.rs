//! Applying patches to a scene.
use vstd::prelude::*;
use crate::scene::{
    entries_set, lemma_nodes_view, node_view, nodes_view, patches_view, EntryView, NodeView,
    PatchView, PropertyValue, SceneDescription, SceneKey, SceneNode, ScenePatch, ValueView,
};

verus! {

/// A change made at one node.
pub enum EditView {
    InsertChild { index: u32, node: NodeView },
    SetProp { name: Seq<char>, value: ValueView },
    ReplaceWith { node: NodeView },
}

/// The node after the change.
pub open spec fn edit_node(x: NodeView, e: EditView) -> NodeView {
    match e {
        EditView::InsertChild { index, node } => NodeView {
            children: x.children.insert(index as int, node),
            ..x
        },
        EditView::SetProp { name, value } => NodeView { props: entries_set(x.props, name, value), ..x },
        EditView::ReplaceWith { node } => node,
    }
}

/// The change can be made without a panic: a child goes in at a position no
/// further than the end.
pub open spec fn edit_ok(x: NodeView, e: EditView) -> bool {
    match e {
        EditView::InsertChild { index, .. } => index <= x.children.len(),
        _ => true,
    }
}

/// The first node, in pre-order (a node before its children, children in
/// order), whose key is `key`.
pub open spec fn find_first(n: NodeView, key: Seq<u8>) -> Option<NodeView>
    decreases n,
{
    if n.key == key {
        Some(n)
    } else {
        find_list(n.children, key)
    }
}

pub open spec fn find_list(cs: Seq<NodeView>, key: Seq<u8>) -> Option<NodeView>
    decreases cs,
{
    if cs.len() == 0 {
        None
    } else {
        proof {
            vstd::seq::axiom_seq_index_decreases(cs, 0);
            vstd::seq::axiom_seq_subrange_decreases(cs, 1, cs.len() as int);
        }
        match find_first(cs[0], key) {
            Some(x) => Some(x),
            None => find_list(cs.drop_first(), key),
        }
    }
}

/// Makes the change `e` at the first node, in pre-order, whose key is `key`;
/// also tells whether there was one. With none, the tree stays as it is.
pub open spec fn modify_first(n: NodeView, key: Seq<u8>, e: EditView) -> (NodeView, bool)
    decreases n,
{
    if n.key == key {
        (edit_node(n, e), true)
    } else {
        let r = modify_list(n.children, key, e);
        (NodeView { children: r.0, ..n }, r.1)
    }
}

pub open spec fn modify_list(cs: Seq<NodeView>, key: Seq<u8>, e: EditView) -> (Seq<NodeView>, bool)
    decreases cs,
{
    if cs.len() == 0 {
        (cs, false)
    } else {
        proof {
            vstd::seq::axiom_seq_index_decreases(cs, 0);
            vstd::seq::axiom_seq_subrange_decreases(cs, 1, cs.len() as int);
        }
        let h = modify_first(cs[0], key, e);
        if h.1 {
            (cs.update(0, h.0), true)
        } else {
            let t = modify_list(cs.drop_first(), key, e);
            (seq![cs[0]] + t.0, t.1)
        }
    }
}


pub proof fn lemma_modify_found(n: NodeView, key: Seq<u8>, e: EditView)
    ensures
        modify_first(n, key, e).1 == (find_first(n, key) is Some),
        !modify_first(n, key, e).1 ==> modify_first(n, key, e).0 == n,
    decreases n,
{
    if n.key != key {
        lemma_modify_list_found(n.children, key, e);
    }
}

pub proof fn lemma_modify_list_found(cs: Seq<NodeView>, key: Seq<u8>, e: EditView)
    ensures
        modify_list(cs, key, e).1 == (find_list(cs, key) is Some),
        !modify_list(cs, key, e).1 ==> modify_list(cs, key, e).0 == cs,
    decreases cs,
{
    if cs.len() > 0 {
        vstd::seq::axiom_seq_index_decreases(cs, 0);
        vstd::seq::axiom_seq_subrange_decreases(cs, 1, cs.len() as int);
        lemma_modify_found(cs[0], key, e);
        lemma_modify_list_found(cs.drop_first(), key, e);
        if !modify_list(cs, key, e).1 {
            assert(seq![cs[0]] + cs.drop_first() =~= cs);
        }
    }
}

/// Past a prefix of children that hold no node with the key, the search and
/// the change go on in the rest.
pub proof fn lemma_modify_list_skip(cs: Seq<NodeView>, key: Seq<u8>, e: EditView, i: int)
    requires
        0 <= i <= cs.len(),
        forall|j: int| 0 <= j < i ==> find_first(#[trigger] cs[j], key) is None,
    ensures
        find_list(cs, key) == find_list(cs.skip(i), key),
        modify_list(cs, key, e).0 == cs.take(i) + modify_list(cs.skip(i), key, e).0,
        modify_list(cs, key, e).1 == modify_list(cs.skip(i), key, e).1,
    decreases i,
{
    if i == 0 {
        assert(cs.skip(0) =~= cs);
        assert(cs.take(0) + modify_list(cs, key, e).0 =~= modify_list(cs, key, e).0);
    } else {
        let t = cs.drop_first();
        lemma_modify_found(cs[0], key, e);
        assert forall|j: int| 0 <= j < i - 1 implies find_first(#[trigger] t[j], key) is None by {
            assert(t[j] == cs[j + 1]);
        }
        lemma_modify_list_skip(t, key, e, i - 1);
        assert(t.skip(i - 1) =~= cs.skip(i));
        assert(seq![cs[0]] + (t.take(i - 1) + modify_list(cs.skip(i), key, e).0) =~= cs.take(i)
            + modify_list(cs.skip(i), key, e).0);
    }
}

/// A change that can be made at the node it is addressed to.
pub open spec fn modify_ok(n: NodeView, key: Seq<u8>, e: EditView) -> bool {
    match find_first(n, key) {
        Some(x) => edit_ok(x, e),
        None => true,
    }
}

/// A change to make at one node, by reference to what it brings.
pub enum Edit<'a> {
    InsertChild { index: u32, node: &'a SceneNode },
    SetProp { name: &'a String, value: &'a PropertyValue },
    ReplaceWith { node: &'a SceneNode },
}

impl<'a> View for Edit<'a> {
    type V = EditView;

    open spec fn view(&self) -> EditView {
        match self {
            Edit::InsertChild { index, node } => EditView::InsertChild { index: *index, node: node@ },
            Edit::SetProp { name, value } => EditView::SetProp { name: name@, value: value@ },
            Edit::ReplaceWith { node } => EditView::ReplaceWith { node: node@ },
        }
    }
}

fn apply_edit(node: &mut SceneNode, e: &Edit)
    requires
        edit_ok(old(node)@, e@),
    ensures
        final(node)@ == edit_node(old(node)@, e@),
{
    match e {
        Edit::InsertChild { index, node: child } => {
            let ghost cs = old(node).children@;
            let c = child.duplicate();
            proof {
                lemma_nodes_view(cs);
            }
            node.children.insert(*index as usize, c);
            proof {
                lemma_nodes_view(node.children@);
                assert(nodes_view(node.children@) =~= nodes_view(cs).insert(*index as int, child@));
            }
        },
        Edit::SetProp { name, value } => {
            node.properties.set((*name).clone(), value.duplicate());
        },
        Edit::ReplaceWith { node: with } => {
            *node = with.duplicate();
        },
    }
}

/// Makes the change at the first node, in pre-order, with the key; tells
/// whether there was one.
fn edit_first(node: &mut SceneNode, key: &SceneKey, e: &Edit) -> (found: bool)
    requires
        modify_ok(old(node)@, key@, e@),
    ensures
        (final(node)@, found) == modify_first(old(node)@, key@, e@),
    decreases *old(node),
{
    if node.key.same_as(key) {
        apply_edit(node, e);
        return true;
    }
    let ghost n0 = old(node)@;
    let ghost cs = n0.children;
    proof {
        lemma_nodes_view(old(node).children@);
    }
    let mut i: usize = 0;
    while i < node.children.len()
        invariant
            i <= node.children.len(),
            n0 == old(node)@,
            cs == n0.children,
            n0.key != key@,
            modify_ok(n0, key@, e@),
            node.key == old(node).key,
            node.kind == old(node).kind,
            node.properties == old(node).properties,
            node.children.len() == old(node).children.len(),
            cs.len() == node.children.len(),
            forall|j: int| i <= j < node.children.len() ==> node.children@[j] == old(node).children@[j],
            forall|j: int| 0 <= j < node.children.len() ==> #[trigger] node_view(node.children@[j]) == cs[j],
            forall|j: int| 0 <= j < i ==> find_first(#[trigger] cs[j], key@) is None,
        decreases node.children.len() - i,
    {
        proof {
            lemma_modify_list_skip(cs, key@, e@, i as int);
            assert(cs.skip(i as int)[0] == cs[i as int]);
            vstd::std_specs::vec::axiom_vec_decreases_to_view(old(node).children);
            vstd::seq::axiom_seq_index_decreases(old(node).children@, i as int);
            lemma_modify_found(cs[i as int], key@, e@);
            lemma_nodes_view(node.children@);
        }
        let ghost before = node.children@;
        let found = edit_first(&mut node.children[i], key, e);
        proof {
            lemma_nodes_view(node.children@);
            lemma_nodes_view(before);
        }
        if found {
            proof {
                let h = modify_first(cs[i as int], key@, e@);
                assert(node.children@ == before.update(i as int, node.children@[i as int]));
                assert forall|j: int| 0 <= j < cs.len() implies nodes_view(node.children@)[j] == cs.update(i as int, h.0)[j] by {
                    if j != i {
                        assert(node.children@[j] == before[j]);
                    }
                }
                assert(nodes_view(node.children@) =~= cs.update(i as int, h.0));
                assert(cs.take(i as int) + cs.skip(i as int).update(0, h.0) =~= cs.update(i as int, h.0));
            }
            return true;
        }
        proof {
            assert(node.children@ == before.update(i as int, node.children@[i as int]));
            assert forall|j: int| 0 <= j < node.children.len() implies #[trigger] node_view(node.children@[j]) == cs[j] by {
                if j != i {
                    assert(node.children@[j] == before[j]);
                }
            }
        }
        i = i + 1;
    }
    proof {
        lemma_modify_list_skip(cs, key@, e@, i as int);
        assert(cs.take(i as int) =~= cs);
        assert(modify_list(cs.skip(i as int), key@, e@).0 =~= Seq::<NodeView>::empty());
        lemma_nodes_view(node.children@);
        assert(nodes_view(node.children@) =~= cs);
    }
    false
}


/// The position of the first child whose key is `key`.
pub open spec fn child_position(cs: Seq<NodeView>, key: Seq<u8>) -> Option<int>
    decreases cs.len(),
{
    if cs.len() == 0 {
        None
    } else if cs[0].key == key {
        Some(0)
    } else {
        match child_position(cs.drop_first(), key) {
            Some(p) => Some(p + 1),
            None => None,
        }
    }
}

/// Removes a node with the key: at each node, the first child with that key
/// if one has it, else the search goes down into the children in order.
/// Tells whether a node was removed. The root is never removed.
pub open spec fn remove_first(n: NodeView, key: Seq<u8>) -> (NodeView, bool)
    decreases n,
{
    match child_position(n.children, key) {
        Some(p) => (NodeView { children: n.children.remove(p), ..n }, true),
        None => {
            let r = remove_list(n.children, key);
            (NodeView { children: r.0, ..n }, r.1)
        },
    }
}

pub open spec fn remove_list(cs: Seq<NodeView>, key: Seq<u8>) -> (Seq<NodeView>, bool)
    decreases cs,
{
    if cs.len() == 0 {
        (cs, false)
    } else {
        proof {
            vstd::seq::axiom_seq_index_decreases(cs, 0);
            vstd::seq::axiom_seq_subrange_decreases(cs, 1, cs.len() as int);
        }
        let h = remove_first(cs[0], key);
        if h.1 {
            (cs.update(0, h.0), true)
        } else {
            let t = remove_list(cs.drop_first(), key);
            (seq![cs[0]] + t.0, t.1)
        }
    }
}

pub proof fn lemma_child_position_first(cs: Seq<NodeView>, key: Seq<u8>, i: int)
    requires
        0 <= i <= cs.len(),
        forall|j: int| 0 <= j < i ==> (#[trigger] cs[j]).key != key,
    ensures
        i < cs.len() && cs[i].key == key ==> child_position(cs, key) == Some(i),
        i == cs.len() ==> child_position(cs, key) is None,
    decreases i,
{
    if i > 0 {
        let t = cs.drop_first();
        assert forall|j: int| 0 <= j < i - 1 implies (#[trigger] t[j]).key != key by {
            assert(t[j] == cs[j + 1]);
        }
        lemma_child_position_first(t, key, i - 1);
    }
}

pub proof fn lemma_remove_not_found(n: NodeView, key: Seq<u8>)
    ensures
        !remove_first(n, key).1 ==> remove_first(n, key).0 == n,
    decreases n,
{
    if child_position(n.children, key) is None {
        lemma_remove_list_not_found(n.children, key);
    }
}

pub proof fn lemma_remove_list_not_found(cs: Seq<NodeView>, key: Seq<u8>)
    ensures
        !remove_list(cs, key).1 ==> remove_list(cs, key).0 == cs,
    decreases cs,
{
    if cs.len() > 0 {
        vstd::seq::axiom_seq_index_decreases(cs, 0);
        vstd::seq::axiom_seq_subrange_decreases(cs, 1, cs.len() as int);
        lemma_remove_not_found(cs[0], key);
        lemma_remove_list_not_found(cs.drop_first(), key);
        if !remove_list(cs, key).1 {
            assert(seq![cs[0]] + cs.drop_first() =~= cs);
        }
    }
}

pub proof fn lemma_remove_list_skip(cs: Seq<NodeView>, key: Seq<u8>, i: int)
    requires
        0 <= i <= cs.len(),
        forall|j: int| 0 <= j < i ==> !(#[trigger] remove_first(cs[j], key)).1,
    ensures
        remove_list(cs, key).0 == cs.take(i) + remove_list(cs.skip(i), key).0,
        remove_list(cs, key).1 == remove_list(cs.skip(i), key).1,
    decreases i,
{
    if i == 0 {
        assert(cs.skip(0) =~= cs);
        assert(cs.take(0) + remove_list(cs, key).0 =~= remove_list(cs, key).0);
    } else {
        let t = cs.drop_first();
        lemma_remove_not_found(cs[0], key);
        assert forall|j: int| 0 <= j < i - 1 implies !(#[trigger] remove_first(t[j], key)).1 by {
            assert(t[j] == cs[j + 1]);
        }
        lemma_remove_list_skip(t, key, i - 1);
        assert(t.skip(i - 1) =~= cs.skip(i));
        assert(seq![cs[0]] + (t.take(i - 1) + remove_list(cs.skip(i), key).0) =~= cs.take(i)
            + remove_list(cs.skip(i), key).0);
    }
}

/// Removes a node with the key as `remove_first` says; tells whether one was.
fn remove_below(node: &mut SceneNode, key: &SceneKey) -> (found: bool)
    ensures
        (final(node)@, found) == remove_first(old(node)@, key@),
    decreases *old(node),
{
    let ghost n0 = old(node)@;
    let ghost cs = n0.children;
    proof {
        lemma_nodes_view(old(node).children@);
    }
    let mut p: usize = 0;
    while p < node.children.len()
        invariant
            p <= node.children.len(),
            node == old(node),
            cs == nodes_view(node.children@),
            cs.len() == node.children.len(),
            forall|j: int| 0 <= j < p ==> (#[trigger] cs[j]).key != key@,
        decreases node.children.len() - p,
    {
        proof {
            lemma_nodes_view(node.children@);
        }
        assert(cs[p as int] == node_view(node.children@[p as int]));
        if node.children[p].key.same_as(key) {
            proof {
                lemma_child_position_first(cs, key@, p as int);
            }
            let ghost before = node.children@;
            node.children.remove(p);
            proof {
                lemma_nodes_view(before);
                lemma_nodes_view(node.children@);
                assert(node.children@ == before.remove(p as int));
                assert(nodes_view(node.children@) =~= cs.remove(p as int));
            }
            return true;
        }
        p = p + 1;
    }
    proof {
        lemma_child_position_first(cs, key@, p as int);
    }
    let mut i: usize = 0;
    while i < node.children.len()
        invariant
            i <= node.children.len(),
            n0 == old(node)@,
            cs == n0.children,
            child_position(cs, key@) is None,
            node.key == old(node).key,
            node.kind == old(node).kind,
            node.properties == old(node).properties,
            node.children.len() == old(node).children.len(),
            cs.len() == node.children.len(),
            forall|j: int| i <= j < node.children.len() ==> node.children@[j] == old(node).children@[j],
            forall|j: int| 0 <= j < node.children.len() ==> #[trigger] node_view(node.children@[j]) == cs[j],
            forall|j: int| 0 <= j < i ==> !(#[trigger] remove_first(cs[j], key@)).1,
        decreases node.children.len() - i,
    {
        proof {
            lemma_remove_list_skip(cs, key@, i as int);
            assert(cs.skip(i as int)[0] == cs[i as int]);
            vstd::std_specs::vec::axiom_vec_decreases_to_view(old(node).children);
            vstd::seq::axiom_seq_index_decreases(old(node).children@, i as int);
            lemma_remove_not_found(cs[i as int], key@);
            lemma_nodes_view(node.children@);
        }
        let ghost before = node.children@;
        let found = remove_below(&mut node.children[i], key);
        proof {
            lemma_nodes_view(node.children@);
            lemma_nodes_view(before);
            assert(node.children@ == before.update(i as int, node.children@[i as int]));
        }
        if found {
            proof {
                let h = remove_first(cs[i as int], key@);
                assert forall|j: int| 0 <= j < cs.len() implies nodes_view(node.children@)[j] == cs.update(i as int, h.0)[j] by {
                    if j != i {
                        assert(node.children@[j] == before[j]);
                    }
                }
                assert(nodes_view(node.children@) =~= cs.update(i as int, h.0));
                assert(cs.take(i as int) + cs.skip(i as int).update(0, h.0) =~= cs.update(i as int, h.0));
            }
            return true;
        }
        proof {
            assert forall|j: int| 0 <= j < node.children.len() implies #[trigger] node_view(node.children@[j]) == cs[j] by {
                if j != i {
                    assert(node.children@[j] == before[j]);
                }
            }
        }
        i = i + 1;
    }
    proof {
        lemma_remove_list_skip(cs, key@, i as int);
        assert(cs.take(i as int) =~= cs);
        assert(remove_list(cs.skip(i as int), key@).0 =~= Seq::<NodeView>::empty());
        lemma_nodes_view(node.children@);
        assert(nodes_view(node.children@) =~= cs);
    }
    false
}


/// The tree after one patch. An `Insert` puts the node among the children of
/// the first node (in pre-order) with the parent key; an `UpdateProp` sets the
/// property on the first node with the key; a `Replace` puts its node in place
/// of the first node with the key (the root included); a `Remove` acts as
/// `remove_first` says. A patch whose key is nowhere leaves the tree as it is.
pub open spec fn apply_patch(t: NodeView, p: PatchView) -> NodeView {
    match p {
        PatchView::Insert { parent, index, node } => modify_first(
            t,
            parent,
            EditView::InsertChild { index, node },
        ).0,
        PatchView::Remove { key } => remove_first(t, key).0,
        PatchView::UpdateProp { key, prop, value } => modify_first(
            t,
            key,
            EditView::SetProp { name: prop, value },
        ).0,
        PatchView::Replace { key, with } => modify_first(t, key, EditView::ReplaceWith { node: with }).0,
    }
}

/// The patch can be applied without a panic: an `Insert` goes no further than
/// the end of the children of the node it is addressed to.
pub open spec fn patch_ok(t: NodeView, p: PatchView) -> bool {
    match p {
        PatchView::Insert { parent, index, node } => modify_ok(
            t,
            parent,
            EditView::InsertChild { index, node },
        ),
        _ => true,
    }
}

/// The tree after the patches, in order.
pub open spec fn apply_all(t: NodeView, ps: Seq<PatchView>) -> NodeView
    decreases ps.len(),
{
    if ps.len() == 0 {
        t
    } else {
        apply_patch(apply_all(t, ps.drop_last()), ps.last())
    }
}

/// Each patch, in order, can be applied to the tree the earlier ones left.
pub open spec fn all_ok(t: NodeView, ps: Seq<PatchView>) -> bool
    decreases ps.len(),
{
    ps.len() == 0 || (all_ok(t, ps.drop_last()) && patch_ok(apply_all(t, ps.drop_last()), ps.last()))
}

fn apply_one(root: &mut SceneNode, patch: &ScenePatch)
    requires
        patch_ok(old(root)@, patch@),
    ensures
        final(root)@ == apply_patch(old(root)@, patch@),
{
    match patch {
        ScenePatch::Insert { parent_key, index, node } => {
            edit_first(root, parent_key, &Edit::InsertChild { index: *index, node });
        },
        ScenePatch::Remove { key } => {
            remove_below(root, key);
        },
        ScenePatch::UpdateProp { key, prop, value } => {
            edit_first(root, key, &Edit::SetProp { name: prop, value });
        },
        ScenePatch::Replace { key, with } => {
            edit_first(root, key, &Edit::ReplaceWith { node: with });
        },
    }
}

impl SceneDescription {
    /// Applies the patches in order (see `apply_patch`).
    pub fn apply_patches(&mut self, patches: &[ScenePatch])
        requires
            all_ok(old(self)@, patches_view(patches@)),
        ensures
            final(self)@ == apply_all(old(self)@, patches_view(patches@)),
    {
        let ghost t0 = self@;
        let ghost ps = patches_view(patches@);
        let mut i: usize = 0;
        while i < patches.len()
            invariant
                i <= patches.len(),
                ps == patches_view(patches@),
                ps.len() == patches.len(),
                all_ok(t0, ps),
                self@ == apply_all(t0, ps.take(i as int)),
            decreases patches.len() - i,
        {
            proof {
                lemma_all_ok_prefix(t0, ps, i as int + 1);
                assert(ps.take(i + 1).drop_last() =~= ps.take(i as int));
                assert(ps.take(i + 1).last() == patches@[i as int]@);
            }
            apply_one(&mut self.root, &patches[i]);
            i = i + 1;
        }
        assert(ps.take(i as int) =~= ps);
    }
}

pub proof fn lemma_all_ok_prefix(t: NodeView, ps: Seq<PatchView>, n: int)
    requires
        all_ok(t, ps),
        0 <= n <= ps.len(),
    ensures
        all_ok(t, ps.take(n)),
    decreases ps.len(),
{
    if n < ps.len() {
        lemma_all_ok_prefix(t, ps.drop_last(), n);
        assert(ps.drop_last().take(n) =~= ps.take(n));
    } else {
        assert(ps.take(n) =~= ps);
    }
}


/// The first node, in pre-order, with the key (see `find_first`).
fn find_node<'a>(node: &'a SceneNode, key: &SceneKey) -> (r: Option<&'a SceneNode>)
    ensures
        match r {
            Some(x) => find_first(node@, key@) == Some(x@),
            None => find_first(node@, key@) is None,
        },
    decreases node,
{
    if node.key.same_as(key) {
        return Some(node);
    }
    let ghost cs = nodes_view(node.children@);
    proof {
        lemma_nodes_view(node.children@);
    }
    assert(cs.skip(0) =~= cs);
    let mut i: usize = 0;
    while i < node.children.len()
        invariant
            i <= node.children.len(),
            node@.key != key@,
            cs == nodes_view(node.children@),
            cs.len() == node.children.len(),
            forall|j: int| 0 <= j < node.children.len() ==> #[trigger] cs[j] == node.children@[j]@,
            find_list(cs, key@) == find_list(cs.skip(i as int), key@),
        decreases node.children.len() - i,
    {
        proof {
            vstd::std_specs::vec::axiom_vec_decreases_to_view(node.children);
            vstd::seq::axiom_seq_index_decreases(node.children@, i as int);
        }
        let found = find_node(&node.children[i], key);
        let ghost rest = cs.skip(i as int);
        assert(rest[0] == cs[i as int]);
        assert(rest.drop_first() =~= cs.skip(i + 1));
        assert(cs[i as int] == node.children@[i as int]@);
        match found {
            Some(x) => {
                proof {
                    assert(rest.len() > 0);
                    assert(find_first(rest[0], key@) == Some(x@));
                    assert(find_list(rest, key@) == Some(x@));
                    assert(node@.children == cs);
                    assert(node@.key != key@);
                }
                return Some(x);
            },
            None => {
                assert(find_list(rest, key@) == find_list(cs.skip(i + 1), key@));
            },
        }
        i = i + 1;
    }
    assert(cs.skip(i as int).len() == 0);
    None
}

/// Whether the patch can be applied without a panic (see `patch_ok`).
fn patch_fits(root: &SceneNode, patch: &ScenePatch) -> (r: bool)
    ensures
        r == patch_ok(root@, patch@),
{
    match patch {
        ScenePatch::Insert { parent_key, index, .. } => match find_node(root, parent_key) {
            Some(x) => {
                proof {
                    lemma_nodes_view(x.children@);
                }
                (*index as usize) <= x.children.len()
            },
            None => true,
        },
        _ => true,
    }
}

impl SceneDescription {
    /// Whether each patch, in order, can be applied to what the earlier ones
    /// leave without a panic (see `all_ok`).
    pub fn patches_fit(&self, patches: &[ScenePatch]) -> (r: bool)
        ensures
            r == all_ok(self@, patches_view(patches@)),
    {
        let ghost t0 = self@;
        let ghost ps = patches_view(patches@);
        let mut cur = self.root.duplicate();
        let mut i: usize = 0;
        assert(ps.take(0) =~= Seq::<PatchView>::empty());
        while i < patches.len()
            invariant
                i <= patches.len(),
                ps == patches_view(patches@),
                ps.len() == patches.len(),
                t0 == self@,
                all_ok(t0, ps.take(i as int)),
                cur@ == apply_all(t0, ps.take(i as int)),
            decreases patches.len() - i,
        {
            assert(ps.take(i + 1).drop_last() =~= ps.take(i as int));
            assert(ps.take(i + 1).last() == patches@[i as int]@);
            if !patch_fits(&cur, &patches[i]) {
                proof {
                    if all_ok(t0, ps) {
                        lemma_all_ok_prefix(t0, ps, i as int + 1);
                    }
                }
                return false;
            }
            apply_one(&mut cur, &patches[i]);
            i = i + 1;
        }
        assert(ps.take(i as int) =~= ps);
        true
    }
}

} // verus!
