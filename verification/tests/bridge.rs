use atomr_view::ids::CorrelationId;
use atomr_view::actors::{WindowAction, WindowActor, WindowMessage};
use atomr_view::bridge::{BackendCommand, BackendEvent, BridgeAction, InputEvent, UiBridgeActor, UiBridgeMessage};
use atomr_view::scene::{NodeKind, PropertyMap, SceneDescription, SceneKey, SceneNode, ScenePatch};

fn text_scene() -> SceneDescription {
    SceneDescription {
        root: SceneNode {
            key: SceneKey::new(),
            kind: NodeKind::Text {},
            properties: PropertyMap::new(),
            children: vec![],
        },
    }
}

#[test]
fn test_bridge_conflation() {
    let mut bridge: UiBridgeActor<u32> = UiBridgeActor::new();
    let mut received_count = 0;
    for _ in 0..10 {
        let scene = text_scene();
        let actions = bridge.handle(UiBridgeMessage::Command(BackendCommand::SetScene {
            window_id: "main".to_string(),
            scene,
        }));
        for a in actions {
            if let BridgeAction::Send(BackendCommand::SetScene { .. }) = a {
                received_count += 1;
            }
        }
    }
    assert!(received_count > 0);
    assert_eq!(received_count, 10);
}

#[test]
fn test_bridge_routing() {
    let mut bridge: UiBridgeActor<u32> = UiBridgeActor::new();
    let started = bridge.handle(UiBridgeMessage::StartEventLoop);
    assert!(matches!(started.as_slice(), [BridgeAction::SpawnEventLoop]));
    let again = bridge.handle(UiBridgeMessage::StartEventLoop);
    assert!(again.is_empty());
    let closed = bridge.handle(UiBridgeMessage::InternalEvent(BackendEvent::WindowClosed { id: "main".to_string() }));
    assert!(closed.is_empty());
}

#[test]
fn window_events_reach_the_registered_actor_once() {
    let mut bridge: UiBridgeActor<u32> = UiBridgeActor::new();
    assert!(bridge.handle(UiBridgeMessage::RegisterWindow { id: "main".to_string(), actor: 7 }).is_empty());
    assert!(bridge.handle(UiBridgeMessage::RegisterWindow { id: "side".to_string(), actor: 8 }).is_empty());
    let input = BackendEvent::Input {
        window_id: "main".to_string(),
        event: InputEvent::TextInput { text: "a".to_string() },
    };
    let told = bridge.handle(UiBridgeMessage::InternalEvent(input));
    assert!(matches!(told.as_slice(), [BridgeAction::Tell(7, BackendEvent::Input { window_id, .. })] if window_id == "main"));
    let closed = bridge.handle(UiBridgeMessage::InternalEvent(BackendEvent::WindowClosed { id: "main".to_string() }));
    assert!(matches!(closed.as_slice(), [BridgeAction::Tell(7, BackendEvent::WindowClosed { id })] if id == "main"));
    let after = bridge.handle(UiBridgeMessage::InternalEvent(BackendEvent::WindowClosed { id: "main".to_string() }));
    assert!(after.is_empty());
    let tick = bridge.handle(UiBridgeMessage::InternalEvent(BackendEvent::FrameTick { now_ms: 1 }));
    assert!(tick.is_empty());
}

#[test]
fn redraws_are_deduplicated_per_window_and_frame() {
    let mut bridge: UiBridgeActor<u32> = UiBridgeActor::new();
    let redraw = |w: &str| UiBridgeMessage::Command(BackendCommand::RequestRedraw { window_id: w.to_string() });
    assert_eq!(bridge.handle(redraw("a")).len(), 1);
    assert!(bridge.handle(redraw("a")).is_empty());
    assert_eq!(bridge.handle(redraw("b")).len(), 1);
    assert!(bridge.handle(UiBridgeMessage::InternalEvent(BackendEvent::FrameTick { now_ms: 16 })).is_empty());
    assert_eq!(bridge.handle(redraw("a")).len(), 1);
}

#[test]
fn other_commands_pass_through() {
    let mut bridge: UiBridgeActor<u32> = UiBridgeActor::new();
    let actions = bridge.handle(UiBridgeMessage::Command(BackendCommand::RequestRedraw { window_id: "w".to_string() }));
    assert_eq!(actions.len(), 1);
    assert!(matches!(&actions[0], BridgeAction::Send(BackendCommand::RequestRedraw { window_id }) if window_id == "w"));
}

#[test]
fn window_actor_keeps_and_forwards_scene() {
    let mut w = WindowActor { id: "main".to_string(), bridge: (), scene: text_scene() };
    let scene = text_scene();
    let expected = scene.clone();
    let actions = w.handle(WindowMessage::UpdateScene(scene));
    assert_eq!(w.scene, expected);
    match &actions[..] {
        [WindowAction::TellBridge(BackendCommand::SetScene { window_id, scene })] => {
            assert_eq!(window_id, "main");
            assert_eq!(*scene, expected);
        }
        _ => panic!("expected one SetScene"),
    }
}

#[test]
fn window_actor_stops_on_close() {
    let mut w = WindowActor { id: "main".to_string(), bridge: (), scene: text_scene() };
    let actions = w.handle(WindowMessage::BackendEvent(BackendEvent::WindowClosed { id: "main".to_string() }));
    assert!(matches!(actions.as_slice(), [WindowAction::StopSelf]));
    let none = w.handle(WindowMessage::BackendEvent(BackendEvent::FrameTick { now_ms: 5 }));
    assert!(none.is_empty());
}

#[test]
fn window_actor_applies_and_forwards_patches() {
    let mut w = WindowActor { id: "w".to_string(), bridge: (), scene: text_scene() };
    let root_key = w.scene.root.key.clone();
    let child = SceneNode { key: SceneKey::new(), kind: NodeKind::Button {}, properties: PropertyMap::new(), children: vec![] };
    let patches = vec![ScenePatch::Insert { parent_key: root_key.clone(), index: 0, node: child.clone() }];
    let actions = w.handle(WindowMessage::PatchScene(patches.clone()));
    assert_eq!(w.scene.root.children, vec![child.clone()]);
    assert!(matches!(&actions[..], [WindowAction::TellBridge(BackendCommand::ApplyPatches { patches: p, .. })] if *p == patches));
    let bad = vec![ScenePatch::Insert { parent_key: root_key, index: 5, node: child.clone() }];
    let before = w.scene.clone();
    let actions = w.handle(WindowMessage::PatchScene(bad));
    assert_eq!(w.scene, before);
    assert_eq!(actions.len(), 1);
}

#[test]
fn window_actor_forwards_patches() {
    let mut w = WindowActor { id: "w2".to_string(), bridge: (), scene: text_scene() };
    let actions = w.handle(WindowMessage::PatchScene(vec![]));
    assert!(matches!(&actions[..], [WindowAction::TellBridge(BackendCommand::ApplyPatches { window_id, patches })] if window_id == "w2" && patches.is_empty()));
}

#[test]
fn file_picker_result_goes_back_to_who_asked() {
    let mut bridge: UiBridgeActor<u32> = UiBridgeActor::new();
    let cid = CorrelationId { id: "c-1".to_string() };
    let sent = bridge.handle(UiBridgeMessage::AskFilePicker { correlation_id: cid.clone(), title: "Open".to_string(), reply_to: 9 });
    assert!(matches!(sent.as_slice(), [BridgeAction::Send(BackendCommand::OpenFilePicker { correlation_id, title })] if *correlation_id == cid && title == "Open"));
    let result = BackendEvent::FilePickerResult { correlation_id: cid.clone(), path: Some("/tmp/a".to_string()) };
    let told = bridge.handle(UiBridgeMessage::InternalEvent(result));
    assert!(matches!(told.as_slice(), [BridgeAction::Tell(9, BackendEvent::FilePickerResult { path: Some(p), .. })] if p == "/tmp/a"));
    let again = bridge.handle(UiBridgeMessage::InternalEvent(BackendEvent::FilePickerResult { correlation_id: cid, path: None }));
    assert!(again.is_empty());
}
