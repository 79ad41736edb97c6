//! The bridge between the actors and the UI thread: the commands and events
//! that cross it, and the decisions of the actor that owns it.
use vstd::prelude::*;
use crate::ids::CorrelationId;
use crate::keyed::{keys_distinct, lemma_distinct_entries, list_map, StrMap};
use crate::scene::{SceneDescription, SceneKey, ScenePatch};

verus! {

/// Actor to backend.
#[derive(Debug, Clone)]
pub enum BackendCommand {
    CreateWindow { id: String, title: String },
    DestroyWindow { id: String },
    SetScene { window_id: String, scene: SceneDescription },
    ApplyPatches { window_id: String, patches: Vec<ScenePatch> },
    RequestRedraw { window_id: String },
    OpenFilePicker { correlation_id: CorrelationId, title: String },
}

/// Backend to actor.
#[derive(Debug, Clone)]
pub enum BackendEvent {
    WindowCreated { id: String },
    WindowClosed { id: String },
    Input { window_id: String, event: InputEvent },
    FrameTick { now_ms: u64 },
    FilePickerResult { correlation_id: CorrelationId, path: Option<String> },
}

/// Input from the user. Click coordinates are `f32` bit patterns
/// (`f32::to_bits`).
#[derive(Debug, Clone)]
pub enum InputEvent {
    Click { key: SceneKey, x: u32, y: u32 },
    KeyDown { key_code: String },
    TextInput { text: String },
}

/// A message to the bridge actor; `R` is how a window actor is reached.
pub enum UiBridgeMessage<R> {
    RegisterWindow { id: String, actor: R },
    Command(BackendCommand),
    /// Open a file picker; its result goes back to `reply_to`.
    AskFilePicker { correlation_id: CorrelationId, title: String, reply_to: R },
    StartEventLoop,
    InternalEvent(BackendEvent),
}

/// What the bridge actor asks its runner to do; `R` is how a window actor is
/// reached.
pub enum BridgeAction<R> {
    /// Put the command on the queue to the backend.
    Send(BackendCommand),
    /// Start forwarding backend events to this actor.
    SpawnEventLoop,
    /// Tell this window actor the event.
    Tell(R, BackendEvent),
}

/// One `SetScene` command per entry, in order.
pub open spec fn scene_sends<R>(l: Seq<(String, SceneDescription)>) -> Seq<BridgeAction<R>> {
    l.map_values(|e: (String, SceneDescription)| BridgeAction::<R>::Send(BackendCommand::SetScene { window_id: e.0, scene: e.1 }))
}

/// The window an event concerns, for the events that concern one window.
pub open spec fn event_window(evt: BackendEvent) -> Option<Seq<char>> {
    match evt {
        BackendEvent::WindowCreated { id } => Some(id@),
        BackendEvent::WindowClosed { id } => Some(id@),
        BackendEvent::Input { window_id, .. } => Some(window_id@),
        _ => None,
    }
}

/// The scene of a `SetScene` for window `w` that the action sends, if any.
pub open spec fn sent_scene<R>(a: BridgeAction<R>, w: Seq<char>) -> Seq<SceneDescription> {
    match a {
        BridgeAction::Send(BackendCommand::SetScene { window_id, scene }) => if window_id@ == w {
            seq![scene]
        } else {
            Seq::empty()
        },
        _ => Seq::empty(),
    }
}

/// The scenes that the actions send to window `w`, in order.
pub open spec fn scenes_sent<R>(acts: Seq<BridgeAction<R>>, w: Seq<char>) -> Seq<SceneDescription>
    decreases acts.len(),
{
    if acts.len() == 0 {
        Seq::empty()
    } else {
        scenes_sent(acts.drop_last(), w) + sent_scene(acts.last(), w)
    }
}

/// The scene that the message asks to show in window `w`, if any.
pub open spec fn asked_scene<R>(m: UiBridgeMessage<R>, w: Seq<char>) -> Seq<SceneDescription> {
    match m {
        UiBridgeMessage::Command(BackendCommand::SetScene { window_id, scene }) => if window_id@ == w {
            seq![scene]
        } else {
            Seq::empty()
        },
        _ => Seq::empty(),
    }
}

/// The scenes that the messages ask to show in window `w`, in order.
pub open spec fn scenes_asked<R>(msgs: Seq<UiBridgeMessage<R>>, w: Seq<char>) -> Seq<SceneDescription>
    decreases msgs.len(),
{
    if msgs.len() == 0 {
        Seq::empty()
    } else {
        scenes_asked(msgs.drop_last(), w) + asked_scene(msgs.last(), w)
    }
}

proof fn lemma_scenes_sent_short<R>(acts: Seq<BridgeAction<R>>, w: Seq<char>)
    ensures
        acts.len() == 0 ==> scenes_sent(acts, w) == Seq::<SceneDescription>::empty(),
        acts.len() == 1 ==> scenes_sent(acts, w) == sent_scene(acts[0], w),
{
    if acts.len() == 1 {
        assert(acts.drop_last().len() == 0);
        assert(scenes_sent(acts.drop_last(), w) == Seq::<SceneDescription>::empty());
        assert(acts.last() == acts[0]);
        assert(scenes_sent(acts, w) == scenes_sent(acts.drop_last(), w) + sent_scene(acts.last(), w));
        assert(scenes_sent(acts, w) =~= sent_scene(acts[0], w));
    }
}

proof fn lemma_scenes_sent_concat<R>(a: Seq<BridgeAction<R>>, b: Seq<BridgeAction<R>>, w: Seq<char>)
    ensures
        scenes_sent(a + b, w) == scenes_sent(a, w) + scenes_sent(b, w),
    decreases b.len(),
{
    if b.len() == 0 {
        assert(a + b =~= a);
        assert(scenes_sent(a, w) + scenes_sent(b, w) =~= scenes_sent(a, w));
    } else {
        lemma_scenes_sent_concat(a, b.drop_last(), w);
        assert((a + b).drop_last() =~= a + b.drop_last());
        assert((a + b).last() == b.last());
        assert(scenes_sent(a + b, w) =~= scenes_sent(a, w) + scenes_sent(b, w));
    }
}

/// Over any run of the bridge, the scenes sent to a window are the scenes
/// asked for it, all of them, in the order asked: so the last one sent is the
/// latest one asked. `outs[i]` is what `handle` returned for `msgs[i]` (its
/// contract gives each step).
pub proof fn law_scenes_reach_the_backend_in_order<R>(
    msgs: Seq<UiBridgeMessage<R>>,
    outs: Seq<Seq<BridgeAction<R>>>,
    w: Seq<char>,
)
    requires
        outs.len() == msgs.len(),
        forall|i: int| 0 <= i < msgs.len() ==> #[trigger] scenes_sent(outs[i], w) == asked_scene(msgs[i], w),
    ensures
        scenes_sent(outs.flatten(), w) == scenes_asked(msgs, w),
    decreases msgs.len(),
{
    outs.lemma_flatten_and_flatten_alt_are_equivalent();
    if msgs.len() > 0 {
        let n = msgs.len() - 1;
        assert(scenes_sent(outs[n], w) == asked_scene(msgs[n], w));
        law_scenes_reach_the_backend_in_order(msgs.drop_last(), outs.drop_last(), w);
        outs.drop_last().lemma_flatten_and_flatten_alt_are_equivalent();
        assert(outs.flatten_alt() == outs.drop_last().flatten_alt() + outs.last());
        lemma_scenes_sent_concat(outs.drop_last().flatten_alt(), outs.last(), w);
    } else {
        assert(outs.flatten_alt().len() == 0);
        lemma_scenes_sent_short(outs.flatten_alt(), w);
    }
}

/// The state of the bridge actor: the window actors it routes to, the scenes
/// not yet sent (conflated: one per window, the latest), the windows that
/// have a redraw asked for in the current frame, and whether the event loop
/// was started.
pub struct UiBridgeActor<R> {
    window_routes: StrMap<R>,
    pending_scenes: StrMap<SceneDescription>,
    redraw_requested: StrMap<()>,
    correlations: StrMap<R>,
    event_loop_started: bool,
}

impl<R> UiBridgeActor<R> {
    /// Between two messages no scene is left pending.
    #[verifier::type_invariant]
    closed spec fn nothing_pending(&self) -> bool {
        &&& self.pending_scenes@ == Map::<Seq<char>, SceneDescription>::empty()
        &&& self.pending_scenes.wf()
    }

    pub closed spec fn routes(&self) -> Map<Seq<char>, R> {
        self.window_routes@
    }

    pub closed spec fn pending(&self) -> Map<Seq<char>, SceneDescription> {
        self.pending_scenes@
    }

    /// The windows with a redraw already asked for in this frame.
    pub closed spec fn redraws(&self) -> Set<Seq<char>> {
        self.redraw_requested@.dom()
    }

    /// Who waits for the answer to each correlation id still open.
    pub closed spec fn asks(&self) -> Map<Seq<char>, R> {
        self.correlations@
    }

    pub closed spec fn started(&self) -> bool {
        self.event_loop_started
    }

    /// A bridge with no window, no pending scene and no redraw asked for, its
    /// event loop not started.
    pub fn new() -> (r: UiBridgeActor<R>)
        ensures
            r.routes() == Map::<Seq<char>, R>::empty(),
            r.pending() == Map::<Seq<char>, SceneDescription>::empty(),
            r.redraws() == Set::<Seq<char>>::empty(),
            r.asks() == Map::<Seq<char>, R>::empty(),
            !r.started(),
    {
        let r = UiBridgeActor {
            window_routes: StrMap::new(),
            pending_scenes: StrMap::new(),
            redraw_requested: StrMap::new(),
            correlations: StrMap::new(),
            event_loop_started: false,
        };
        assert(r.redraw_requested@.dom() =~= Set::<Seq<char>>::empty());
        r
    }

    /// Sends every pending scene: exactly one `SetScene` for each window,
    /// carrying the scene pending for it; the pending map is left empty.
    fn flush_pending_scenes(pending: &mut StrMap<SceneDescription>, actions: &mut Vec<BridgeAction<R>>)
        requires
            old(pending).wf(),
        ensures
            final(pending)@ == Map::<Seq<char>, SceneDescription>::empty(),
            final(pending).wf(),
            final(actions)@ == old(actions)@ + scene_sends::<R>(old(pending).list()),
            keys_distinct(old(pending).list()),
            forall|i: int| 0 <= i < old(pending).list().len() ==> #[trigger] old(pending)@.contains_key(
                old(pending).list()[i].0@,
            ) && old(pending)@[old(pending).list()[i].0@] == old(pending).list()[i].1,
            forall|w: Seq<char>| #[trigger] old(pending)@.contains_key(w) ==> exists|i: int|
                0 <= i < old(pending).list().len() && (#[trigger] old(pending).list()[i]).0@ == w,
    {
        let mut drained = pending.drain();
        let ghost d = drained@;
        proof {
            lemma_distinct_entries(d);
        }
        let ghost a0 = actions@;
        let n = drained.len();
        let mut i: usize = 0;
        assert(d.skip(0) =~= d);
        assert(a0 + scene_sends::<R>(d.take(0)) =~= a0);
        while drained.len() > 0
            invariant
                i <= d.len(),
                d.len() == n,
                drained@ == d.skip(i as int),
                actions@ == a0 + scene_sends::<R>(d.take(i as int)),
            decreases drained.len(),
        {
            let (window_id, scene) = drained.remove(0);
            assert(d[i as int] == (window_id, scene));
            actions.push(BridgeAction::Send(BackendCommand::SetScene { window_id, scene }));
            assert(drained@ =~= d.skip(i + 1));
            assert(scene_sends::<R>(d.take(i + 1)) =~= scene_sends::<R>(d.take(i as int)).push(
                BridgeAction::Send(BackendCommand::SetScene { window_id: d[i as int].0, scene: d[i as int].1 }),
            ));
            i = i + 1;
        }
        assert(d.take(i as int) =~= d);
    }
}

impl<R: Clone> UiBridgeActor<R> {
    /// Decides what to do with one message.
    /// - `RegisterWindow` routes the window's events to the actor.
    /// - A `SetScene` command is conflated with what is pending for its
    ///   window and the pending scenes are sent at once; a `RequestRedraw`
    ///   is sent only for a window with no redraw asked for in this frame;
    ///   any other command is sent as it is.
    /// - `StartEventLoop` starts the event loop once.
    /// - `AskFilePicker` sends `OpenFilePicker` and remembers who asked; the
    ///   `FilePickerResult` with that correlation id is told to it, once.
    /// - An event that concerns a window with a route is told to that
    ///   window's actor (a clone of the route); a closed window then loses
    ///   its route and its redraw request; a frame tick ends the frame, so
    ///   redraws may be asked for again.
    pub fn handle(&mut self, msg: UiBridgeMessage<R>) -> (actions: Vec<BridgeAction<R>>)
        ensures
            final(self).pending() == Map::<Seq<char>, SceneDescription>::empty(),
            final(self).started() == (old(self).started() || msg is StartEventLoop),
            forall|w: Seq<char>| #[trigger] scenes_sent(actions@, w) == asked_scene(msg, w),
            final(self).asks() == match msg {
                UiBridgeMessage::AskFilePicker { correlation_id, reply_to, .. } => old(self).asks().insert(
                    correlation_id@,
                    reply_to,
                ),
                UiBridgeMessage::InternalEvent(BackendEvent::FilePickerResult { correlation_id, .. }) => old(
                    self,
                ).asks().remove(correlation_id@),
                _ => old(self).asks(),
            },
            match msg {
                UiBridgeMessage::RegisterWindow { id, actor } => {
                    &&& final(self).routes() == old(self).routes().insert(id@, actor)
                    &&& final(self).redraws() == old(self).redraws()
                    &&& actions@.len() == 0
                },
                UiBridgeMessage::Command(cmd) => {
                    &&& final(self).routes() == old(self).routes()
                    &&& match cmd {
                        BackendCommand::RequestRedraw { window_id } => {
                            &&& final(self).redraws() == old(self).redraws().insert(window_id@)
                            &&& actions@ == (if old(self).redraws().contains(window_id@) {
                                Seq::<BridgeAction<R>>::empty()
                            } else {
                                seq![BridgeAction::<R>::Send(BackendCommand::RequestRedraw { window_id })]
                            })
                        },
                        _ => {
                            &&& final(self).redraws() == old(self).redraws()
                            &&& actions@ == seq![BridgeAction::<R>::Send(cmd)]
                        },
                    }
                },
                UiBridgeMessage::AskFilePicker { correlation_id, title, .. } => {
                    &&& final(self).routes() == old(self).routes()
                    &&& final(self).redraws() == old(self).redraws()
                    &&& actions@ == seq![
                        BridgeAction::<R>::Send(BackendCommand::OpenFilePicker { correlation_id, title }),
                    ]
                },
                UiBridgeMessage::StartEventLoop => {
                    &&& final(self).routes() == old(self).routes()
                    &&& final(self).redraws() == old(self).redraws()
                    &&& actions@ == (if old(self).started() {
                        Seq::<BridgeAction<R>>::empty()
                    } else {
                        seq![BridgeAction::<R>::SpawnEventLoop]
                    })
                },
                UiBridgeMessage::InternalEvent(evt) => {
                    &&& match event_window(evt) {
                        Some(w) => if old(self).routes().contains_key(w) {
                            &&& actions@.len() == 1
                            &&& actions@[0] matches BridgeAction::Tell(r, e)
                            &&& e == evt
                            &&& (if evt is WindowClosed {
                                r == old(self).routes()[w]
                            } else {
                                cloned::<R>(old(self).routes()[w], r)
                            })
                        } else {
                            actions@.len() == 0
                        },
                        None => match evt {
                            BackendEvent::FilePickerResult { correlation_id, .. } => if old(self).asks().contains_key(
                                correlation_id@,
                            ) {
                                actions@ == seq![BridgeAction::Tell(old(self).asks()[correlation_id@], evt)]
                            } else {
                                actions@.len() == 0
                            },
                            _ => actions@.len() == 0,
                        },
                    }
                    &&& final(self).routes() == match evt {
                        BackendEvent::WindowClosed { id } => old(self).routes().remove(id@),
                        _ => old(self).routes(),
                    }
                    &&& final(self).redraws() == match evt {
                        BackendEvent::WindowClosed { id } => old(self).redraws().remove(id@),
                        BackendEvent::FrameTick { .. } => Set::<Seq<char>>::empty(),
                        _ => old(self).redraws(),
                    }
                },
            },
    {
        proof {
            use_type_invariant(&*self);
        }
        let ghost m = msg;
        // Work on the routes and the redraw requests out of place, so that
        // `self` keeps its invariant at every step.
        let mut routes: StrMap<R> = StrMap::new();
        std::mem::swap(&mut routes, &mut self.window_routes);
        let mut redraws: StrMap<()> = StrMap::new();
        std::mem::swap(&mut redraws, &mut self.redraw_requested);
        let mut asks: StrMap<R> = StrMap::new();
        std::mem::swap(&mut asks, &mut self.correlations);
        let mut actions: Vec<BridgeAction<R>> = Vec::new();
        match msg {
            UiBridgeMessage::RegisterWindow { id, actor } => {
                routes.insert(id, actor);
            },
            UiBridgeMessage::AskFilePicker { correlation_id, title, reply_to } => {
                asks.insert(correlation_id.id.clone(), reply_to);
                actions.push(BridgeAction::Send(BackendCommand::OpenFilePicker { correlation_id, title }));
            },
            UiBridgeMessage::Command(cmd) => {
                match cmd {
                    BackendCommand::SetScene { window_id, scene } => {
                        let ghost w = window_id;
                        let ghost s = scene;
                        let mut pending: StrMap<SceneDescription> = StrMap::new();
                        std::mem::swap(&mut pending, &mut self.pending_scenes);
                        pending.insert(window_id, scene);
                        proof {
                            let l = pending.list();
                            assert(l.drop_first().len() == 0) by {
                                if l.drop_first().len() > 0 {
                                    assert(list_map(l.drop_first()).contains_key(l.drop_first()[0].0@));
                                }
                            }
                        }
                        Self::flush_pending_scenes(&mut pending, &mut actions);
                        assert(actions@ =~= seq![BridgeAction::Send(BackendCommand::SetScene { window_id: w, scene: s })]);
                    },
                    BackendCommand::RequestRedraw { window_id } => {
                        if !redraws.contains(&window_id) {
                            redraws.insert(window_id.clone(), ());
                            actions.push(BridgeAction::Send(BackendCommand::RequestRedraw { window_id }));
                        } else {
                            assert(redraws@.dom().insert(window_id@) =~= redraws@.dom());
                        }
                    },
                    other => {
                        actions.push(BridgeAction::Send(other));
                    },
                }
            },
            UiBridgeMessage::StartEventLoop => {
                if !self.event_loop_started {
                    self.event_loop_started = true;
                    actions.push(BridgeAction::SpawnEventLoop);
                }
            },
            UiBridgeMessage::InternalEvent(evt) => {
                match evt {
                    BackendEvent::WindowClosed { id } => {
                        let _ = redraws.remove(&id);
                        if let Some(route) = routes.remove(&id) {
                            actions.push(BridgeAction::Tell(route, BackendEvent::WindowClosed { id }));
                        }
                    },
                    BackendEvent::WindowCreated { id } => {
                        if let Some(route) = routes.get(&id) {
                            let r = route.clone();
                            actions.push(BridgeAction::Tell(r, BackendEvent::WindowCreated { id }));
                        }
                    },
                    BackendEvent::Input { window_id, event } => {
                        if let Some(route) = routes.get(&window_id) {
                            let r = route.clone();
                            actions.push(BridgeAction::Tell(r, BackendEvent::Input { window_id, event }));
                        }
                    },
                    BackendEvent::FrameTick { now_ms } => {
                        redraws = StrMap::new();
                        assert(redraws@.dom() =~= Set::<Seq<char>>::empty());
                    },
                    BackendEvent::FilePickerResult { correlation_id, path } => {
                        if let Some(who) = asks.remove(&correlation_id.id) {
                            actions.push(BridgeAction::Tell(who, BackendEvent::FilePickerResult { correlation_id, path }));
                        }
                    },
                    _ => {},
                }
            },
        }
        self.window_routes = routes;
        self.redraw_requested = redraws;
        self.correlations = asks;
        proof {
            assert forall|w: Seq<char>| #[trigger] scenes_sent(actions@, w) == asked_scene(m, w) by {
                lemma_scenes_sent_short(actions@, w);
            }
        }
        actions
    }
}

} // verus!
