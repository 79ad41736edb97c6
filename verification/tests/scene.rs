use atomr_view::scene::{
    NodeKind, PropertyMap, PropertyValue, SceneDescription, SceneKey, SceneNode, ScenePatch,
};

fn key(b: u8) -> SceneKey {
    SceneKey { id: vec![b; 16] }
}

fn node(k: u8, kind: NodeKind, props: Vec<(&str, PropertyValue)>, children: Vec<SceneNode>) -> SceneNode {
    let mut properties = PropertyMap::new();
    for (name, value) in props {
        properties.set(name.to_string(), value);
    }
    SceneNode { key: key(k), kind, properties, children }
}

fn text(s: &str) -> PropertyValue {
    PropertyValue::String { value: s.to_string() }
}

fn num(x: f64) -> PropertyValue {
    PropertyValue::Number { value: x.to_bits() }
}

fn sample() -> SceneDescription {
    SceneDescription {
        root: node(
            1,
            NodeKind::Container {},
            vec![("title", text("main"))],
            vec![
                node(2, NodeKind::Text {}, vec![("text", text("hello")), ("size", num(12.0))], vec![]),
                node(3, NodeKind::Button {}, vec![("text", text("ok"))], vec![]),
            ],
        ),
    }
}

#[test]
fn property_map_set_then_get() {
    let mut m = PropertyMap::new();
    m.set("b".to_string(), text("two"));
    m.set("a".to_string(), text("one"));
    m.set("b".to_string(), PropertyValue::Boolean { value: true });
    assert_eq!(m.get("a".to_string()), Some(text("one")));
    assert_eq!(m.get("b".to_string()), Some(PropertyValue::Boolean { value: true }));
    assert_eq!(m.get("c".to_string()), None);
    assert_eq!(m.properties.len(), 2);
    assert_eq!(m.properties[0].0, "a");
}

#[test]
fn property_maps_with_the_same_contents_are_equal() {
    let mut a = PropertyMap::new();
    a.set("x".to_string(), num(1.0));
    a.set("y".to_string(), num(2.0));
    let mut b = PropertyMap::new();
    b.set("y".to_string(), num(2.0));
    b.set("x".to_string(), num(1.0));
    assert_eq!(a, b);
}

#[test]
fn test_property_identity_yields_empty_diff() {
    let a = sample();
    assert!(a.diff(&a).is_empty());
}

#[test]
fn nan_property_is_sent_again() {
    let mut a = sample();
    a.root.properties.set("weight".to_string(), num(f64::NAN));
    let patches = a.diff(&a);
    assert_eq!(patches.len(), 1);
    assert!(matches!(&patches[0], ScenePatch::UpdateProp { prop, .. } if prop == "weight"));
}

#[test]
fn signed_zeros_are_equal() {
    let mut a = sample();
    a.root.properties.set("z".to_string(), num(0.0));
    let mut b = sample();
    b.root.properties.set("z".to_string(), num(-0.0));
    assert!(a.diff(&b).is_empty());
}

#[test]
fn test_property_key_stability() {
    let a = sample();
    let mut b = a.clone();
    fn mutate(n: &mut SceneNode) {
        n.properties.set("test".to_string(), PropertyValue::Boolean { value: true });
        for c in &mut n.children {
            mutate(c);
        }
    }
    mutate(&mut b.root);
    let patches = a.diff(&b);
    assert_eq!(patches.len(), 3);
    for p in &patches {
        assert!(matches!(p, ScenePatch::UpdateProp { .. }));
    }
}

#[test]
fn test_property_perfect_reconstruction() {
    let a = sample();
    let b = SceneDescription {
        root: node(
            1,
            NodeKind::Container {},
            vec![("title", text("other")), ("visible", PropertyValue::Boolean { value: true })],
            vec![
                node(2, NodeKind::Text {}, vec![("text", text("bye")), ("size", num(14.0))], vec![]),
                node(9, NodeKind::Image {}, vec![], vec![]),
                node(4, NodeKind::Custom { name: "chart".to_string() }, vec![("color", PropertyValue::Color { values: vec![1.0f32.to_bits(); 4] })], vec![]),
            ],
        ),
    };
    let patches = a.diff(&b);
    let mut c = a.clone();
    c.apply_patches(&patches);
    assert_eq!(c, b);
}

#[test]
fn children_removed_last_first() {
    let a = sample();
    let b = SceneDescription { root: node(1, NodeKind::Container {}, vec![("title", text("main"))], vec![]) };
    let patches = a.diff(&b);
    assert_eq!(patches, vec![ScenePatch::Remove { key: key(3) }, ScenePatch::Remove { key: key(2) }]);
    let mut c = a.clone();
    c.apply_patches(&patches);
    assert_eq!(c, b);
}

#[test]
fn different_root_is_replaced() {
    let a = sample();
    let b = SceneDescription { root: node(7, NodeKind::Text {}, vec![], vec![]) };
    let patches = a.diff(&b);
    assert_eq!(patches, vec![ScenePatch::Replace { key: key(1), with: b.root.clone() }]);
    let mut c = a.clone();
    c.apply_patches(&patches);
    assert_eq!(c, b);
}

#[test]
fn node_that_loses_a_property_is_replaced() {
    let a = sample();
    let mut b = a.clone();
    b.root.properties = PropertyMap::new();
    let patches = a.diff(&b);
    assert_eq!(patches, vec![ScenePatch::Replace { key: key(1), with: b.root.clone() }]);
    let mut c = a.clone();
    c.apply_patches(&patches);
    assert_eq!(c, b);
}

#[test]
fn reconstruction_when_a_child_loses_a_property() {
    let a = sample();
    let mut b = a.clone();
    b.root.children[0].properties = PropertyMap::new();
    b.root.properties.set("title".to_string(), text("new"));
    let patches = a.diff(&b);
    let mut c = a.clone();
    c.apply_patches(&patches);
    assert_eq!(c, b);
}

#[test]
fn insert_patch_appends_child() {
    let mut a = sample();
    let child = node(5, NodeKind::Text {}, vec![], vec![]);
    a.apply_patches(&[ScenePatch::Insert { parent_key: key(1), index: 2, node: child.clone() }]);
    assert_eq!(a.root.children.len(), 3);
    assert_eq!(a.root.children[2], child);
}

#[test]
fn patch_for_unknown_key_changes_nothing() {
    let mut a = sample();
    let before = a.clone();
    a.apply_patches(&[
        ScenePatch::Remove { key: key(42) },
        ScenePatch::UpdateProp { key: key(42), prop: "x".to_string(), value: num(1.0) },
    ]);
    assert_eq!(a, before);
}

#[test]
fn diff_orders_property_updates_by_name() {
    let a = sample();
    let mut b = a.clone();
    b.root.properties.set("zeta".to_string(), num(1.0));
    b.root.properties.set("alpha".to_string(), num(2.0));
    let patches = a.diff(&b);
    let names: Vec<String> = patches
        .iter()
        .map(|p| match p {
            ScenePatch::UpdateProp { prop, .. } => prop.clone(),
            _ => String::new(),
        })
        .collect();
    assert_eq!(names, vec!["alpha".to_string(), "zeta".to_string()]);
}

#[test]
fn keyed_diff_inserts_before_a_kept_child() {
    let k = |b: u8| SceneKey { id: vec![b] };
    let leaf = |b: u8| SceneNode { key: k(b), kind: NodeKind::Text {}, properties: PropertyMap::new(), children: vec![] };
    let a = SceneDescription {
        root: SceneNode { key: k(1), kind: NodeKind::Container {}, properties: PropertyMap::new(), children: vec![leaf(2)] },
    };
    let b = SceneDescription {
        root: SceneNode { key: k(1), kind: NodeKind::Container {}, properties: PropertyMap::new(), children: vec![leaf(3), leaf(2)] },
    };
    let patches = a.diff(&b);
    assert_eq!(patches, vec![ScenePatch::Insert { parent_key: k(1), index: 0, node: leaf(3) }]);
    let mut c = a.clone();
    c.apply_patches(&patches);
    assert_eq!(c, b);
}

#[test]
fn keyed_diff_removes_only_vanished_children() {
    let a = SceneDescription {
        root: node(1, NodeKind::Container {}, vec![], vec![
            node(2, NodeKind::Text {}, vec![("text", text("a"))], vec![]),
            node(3, NodeKind::Text {}, vec![], vec![]),
            node(4, NodeKind::Text {}, vec![("text", text("c"))], vec![]),
        ]),
    };
    let b = SceneDescription {
        root: node(1, NodeKind::Container {}, vec![], vec![
            node(2, NodeKind::Text {}, vec![("text", text("a"))], vec![]),
            node(5, NodeKind::Button {}, vec![], vec![]),
            node(4, NodeKind::Text {}, vec![("text", text("C"))], vec![]),
        ]),
    };
    let patches = a.diff(&b);
    assert_eq!(patches.len(), 3);
    assert_eq!(patches[0], ScenePatch::Remove { key: key(3) });
    assert!(matches!(&patches[1], ScenePatch::UpdateProp { key: k, .. } if *k == key(4)));
    assert!(matches!(&patches[2], ScenePatch::Insert { index: 1, .. }));
    let mut c = a.clone();
    c.apply_patches(&patches);
    assert_eq!(c, b);
}

#[test]
fn reordered_children_fall_back_to_positions() {
    let a = SceneDescription {
        root: node(1, NodeKind::Container {}, vec![], vec![
            node(2, NodeKind::Text {}, vec![], vec![]),
            node(3, NodeKind::Text {}, vec![], vec![]),
        ]),
    };
    let b = SceneDescription {
        root: node(1, NodeKind::Container {}, vec![], vec![
            node(3, NodeKind::Text {}, vec![], vec![]),
            node(2, NodeKind::Text {}, vec![], vec![]),
        ]),
    };
    let patches = a.diff(&b);
    assert_eq!(patches.len(), 2);
    assert!(patches.iter().all(|p| matches!(p, ScenePatch::Replace { .. })));
}
