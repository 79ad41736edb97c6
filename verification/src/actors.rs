//! The actors of the UI: what a window actor decides on each message.
use vstd::prelude::*;
use crate::bridge::{BackendCommand, BackendEvent};
use crate::patch::{all_ok, apply_all};
use crate::scene::{patches_view, SceneDescription, ScenePatch};

verus! {

/// A message to a window actor.
pub enum WindowMessage {
    UpdateScene(SceneDescription),
    PatchScene(Vec<ScenePatch>),
    BackendEvent(BackendEvent),
}

/// What a window actor asks its runner to do.
pub enum WindowAction {
    /// Hand the command to the bridge actor.
    TellBridge(BackendCommand),
    /// Stop this actor.
    StopSelf,
}

/// The actor that owns one OS window and its scene; `B` is how it reaches the
/// bridge actor.
pub struct WindowActor<B> {
    pub id: String,
    pub bridge: B,
    pub scene: SceneDescription,
}

impl<B> WindowActor<B> {
    /// Decides what to do with one message. A new scene is kept and sent on
    /// to the bridge; patches are applied to the kept scene, when each of
    /// them can be (an insert past the end of its parent's children cannot),
    /// and sent on as they are; a closed window stops the actor; other
    /// events do nothing.
    pub fn handle(&mut self, msg: WindowMessage) -> (actions: Vec<WindowAction>)
        ensures
            final(self).id == old(self).id,
            final(self).bridge == old(self).bridge,
            match msg {
                WindowMessage::UpdateScene(scene) => {
                    &&& final(self).scene@ == scene@
                    &&& actions@ == seq![
                        WindowAction::TellBridge(
                            BackendCommand::SetScene { window_id: final(self).id, scene },
                        ),
                    ]
                },
                WindowMessage::PatchScene(patches) => {
                    &&& final(self).scene@ == (if all_ok(old(self).scene@, patches_view(patches@)) {
                        apply_all(old(self).scene@, patches_view(patches@))
                    } else {
                        old(self).scene@
                    })
                    &&& actions@ == seq![
                        WindowAction::TellBridge(
                            BackendCommand::ApplyPatches { window_id: final(self).id, patches },
                        ),
                    ]
                },
                WindowMessage::BackendEvent(evt) => {
                    &&& final(self).scene == old(self).scene
                    &&& actions@ == (match evt {
                        BackendEvent::WindowClosed { .. } => seq![WindowAction::StopSelf],
                        _ => Seq::<WindowAction>::empty(),
                    })
                },
            },
    {
        let mut actions: Vec<WindowAction> = Vec::new();
        match msg {
            WindowMessage::UpdateScene(scene) => {
                self.scene = SceneDescription { root: scene.root.duplicate() };
                actions.push(WindowAction::TellBridge(BackendCommand::SetScene { window_id: self.id.clone(), scene }));
            },
            WindowMessage::PatchScene(patches) => {
                if self.scene.patches_fit(patches.as_slice()) {
                    self.scene.apply_patches(patches.as_slice());
                }
                actions.push(WindowAction::TellBridge(BackendCommand::ApplyPatches { window_id: self.id.clone(), patches }));
            },
            WindowMessage::BackendEvent(evt) => {
                match evt {
                    BackendEvent::WindowClosed { .. } => {
                        actions.push(WindowAction::StopSelf);
                    },
                    _ => {},
                }
            },
        }
        actions
    }
}

/// A message to a region actor.
pub enum RegionMessage {
    StateUpdate,
}

/// The actor for a stateful part of a window; `W` is how it reaches its window.
pub struct RegionActor<W> {
    pub id: String,
    pub parent_window: W,
}

/// A message to the persistence actor.
pub enum PersistenceMessage {
    Save(String, String),
    Load(String),
}

/// The actor that will hold what is persisted.
pub struct PersistenceActor;

/// A message to the inference actor.
pub enum InferenceMessage {
    Predict(String),
}

/// The actor that will run inference.
pub struct InferenceActor;

} // verus!
