use atomr_view::backends::{BevyBackend, RenderOp, ShellAction, WindowRegistry, WinitWgpuBackend};
use atomr_view::bridge::{BackendCommand, BackendEvent};
use atomr_view::scene::{NodeKind, PropertyMap, PropertyValue, SceneKey, SceneNode};

fn node(kind: NodeKind, text: Option<&str>, children: Vec<SceneNode>) -> SceneNode {
    let mut properties = PropertyMap::new();
    if let Some(t) = text {
        properties.set("text".to_string(), PropertyValue::String { value: t.to_string() });
    }
    SceneNode { key: SceneKey { id: vec![0; 16] }, kind, properties, children }
}

#[test]
fn only_destroy_window_ends_bevy_app() {
    assert!(BevyBackend::requests_exit(&BackendCommand::DestroyWindow { id: "a".to_string() }));
    assert!(!BevyBackend::requests_exit(&BackendCommand::RequestRedraw { window_id: "a".to_string() }));
}

#[test]
fn render_plan_of_a_scene() {
    let root = node(
        NodeKind::Container {},
        None,
        vec![
            node(NodeKind::Text {}, Some("hi"), vec![]),
            node(NodeKind::Button {}, Some("go"), vec![]),
            node(NodeKind::Button {}, None, vec![]),
            node(NodeKind::Image {}, Some("x"), vec![]),
        ],
    );
    let ops = WinitWgpuBackend::render_scene(&root);
    let shown: Vec<String> = ops
        .iter()
        .map(|o| match o {
            RenderOp::BeginVertical => "(".to_string(),
            RenderOp::EndVertical => ")".to_string(),
            RenderOp::Label(s) => format!("L:{s}"),
            RenderOp::Button(s) => format!("B:{s}"),
        })
        .collect();
    assert_eq!(shown, vec!["(", "L:hi", "B:go", ")"]);
}

#[test]
fn registry_create_and_destroy() {
    let mut reg = WindowRegistry::new();
    let a = reg.on_command(BackendCommand::CreateWindow { id: "main".to_string(), title: "T".to_string() });
    assert!(matches!(&a[..], [ShellAction::BuildWindow { id, title }] if id == "main" && title == "T"));
    reg.window_built("main".to_string(), 3);
    let r = reg.on_command(BackendCommand::RequestRedraw { window_id: "main".to_string() });
    assert!(matches!(&r[..], [ShellAction::RequestRedraw { window: 3 }]));
    let d = reg.on_command(BackendCommand::DestroyWindow { id: "main".to_string() });
    assert!(d.is_empty());
    let c = reg.on_close_requested(3);
    assert!(c.is_empty());
}

#[test]
fn closing_a_built_window_reports_it_once() {
    let mut reg = WindowRegistry::new();
    reg.on_command(BackendCommand::CreateWindow { id: "a".to_string(), title: "A".to_string() });
    reg.window_built("a".to_string(), 1);
    reg.on_command(BackendCommand::CreateWindow { id: "b".to_string(), title: "B".to_string() });
    reg.window_built("b".to_string(), 2);
    let c = reg.on_close_requested(1);
    assert!(matches!(&c[..], [ShellAction::SendEvent(BackendEvent::WindowClosed { id })] if id == "a"));
    assert!(reg.on_close_requested(1).is_empty());
    assert!(reg.on_command(BackendCommand::RequestRedraw { window_id: "a".to_string() }).is_empty());
    let last = reg.on_close_requested(2);
    assert!(matches!(&last[..], [ShellAction::SendEvent(BackendEvent::WindowClosed { id }), ShellAction::Exit] if id == "b"));
}
