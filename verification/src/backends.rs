//! The decisions of the rendering backends: which commands end the Bevy app,
//! the window registry of the winit backend, and what the scene draws as.
use vstd::prelude::*;
use crate::bridge::{BackendCommand, BackendEvent};
use crate::keyed::StrMap;
use crate::scene::{
    entries_lookup, lemma_nodes_view, node_view, nodes_view, KindView, NodeKind, NodeView,
    PropertyValue, SceneDescription, SceneKey, SceneNode, ScenePatch, ValueView,
};
use crate::text::chars_of;

verus! {

/// Turns a scene into the backend's own tree.
pub trait Reconciler {
    type NativeTree;

    fn apply_full(&mut self, tree: &mut Self::NativeTree, scene: &SceneDescription);

    fn apply_patches(&mut self, tree: &mut Self::NativeTree, patches: &[ScenePatch]);
}

/// The backend that runs inside a Bevy app.
pub struct BevyBackend;

impl BevyBackend {
    /// Whether the command ends the app: only `DestroyWindow` does.
    pub fn requests_exit(cmd: &BackendCommand) -> (r: bool)
        ensures
            r == (cmd is DestroyWindow),
    {
        match cmd {
            BackendCommand::DestroyWindow { .. } => true,
            _ => false,
        }
    }
}

/// Marks a Bevy entity as mirrored by a long-lived actor.
pub struct ActorBacked {
    pub actor_id: String,
}

/// The desktop backend (winit windows drawn with wgpu and egui).
pub struct WinitWgpuBackend;

/// The browser backend (the DOM, driven from `requestAnimationFrame`).
pub struct WebDomBackend;

/// A window the desktop backend draws: the id the actors know it by, its
/// native handle, and the scene it shows.
pub struct WindowRecord {
    pub window: u64,
    pub id: String,
    pub scene: Option<SceneDescription>,
}

/// What the desktop backend asks its event loop to do.
pub enum ShellAction {
    /// Open an OS window with this title, then report it with `window_built`.
    BuildWindow { id: String, title: String },
    /// Ask the OS window for a redraw.
    RequestRedraw { window: u64 },
    /// Send the event to the actors.
    SendEvent(BackendEvent),
    /// Leave the event loop.
    Exit,
}

/// The first record of a native window.
pub open spec fn window_position(ws: Seq<WindowRecord>, window: u64) -> Option<int>
    decreases ws.len(),
{
    if ws.len() == 0 {
        None
    } else if ws[0].window == window {
        Some(0)
    } else {
        match window_position(ws.drop_first(), window) {
            Some(p) => Some(p + 1),
            None => None,
        }
    }
}

pub proof fn lemma_window_position_bound(ws: Seq<WindowRecord>, window: u64)
    ensures
        window_position(ws, window) matches Some(p) ==> 0 <= p < ws.len() && ws[p].window == window,
    decreases ws.len(),
{
    if ws.len() > 0 {
        lemma_window_position_bound(ws.drop_first(), window);
    }
}

proof fn lemma_window_position(ws: Seq<WindowRecord>, window: u64, i: int)
    requires
        0 <= i <= ws.len(),
        forall|j: int| 0 <= j < i ==> (#[trigger] ws[j]).window != window,
    ensures
        i < ws.len() && ws[i].window == window ==> window_position(ws, window) == Some(i),
        i == ws.len() ==> window_position(ws, window) is None,
    decreases i,
{
    if i > 0 {
        let t = ws.drop_first();
        assert forall|j: int| 0 <= j < i - 1 implies (#[trigger] t[j]).window != window by {
            assert(t[j] == ws[j + 1]);
        }
        lemma_window_position(t, window, i - 1);
    }
}

/// The windows of the desktop backend: by the id the actors use, the native
/// handle; by native handle, the window's record.
pub struct WindowRegistry {
    id_to_window: StrMap<u64>,
    windows: Vec<WindowRecord>,
}

impl WindowRegistry {
    pub closed spec fn ids(&self) -> Map<Seq<char>, u64> {
        self.id_to_window@
    }

    pub closed spec fn records(&self) -> Seq<WindowRecord> {
        self.windows@
    }

    /// A registry with no window.
    pub fn new() -> (r: WindowRegistry)
        ensures
            r.ids() == Map::<Seq<char>, u64>::empty(),
            r.records().len() == 0,
    {
        WindowRegistry { id_to_window: StrMap::new(), windows: Vec::new() }
    }

    fn find_window(&self, window: u64) -> (r: Option<usize>)
        ensures
            match r {
                Some(p) => window_position(self.records(), window) == Some(p as int)
                    && p < self.records().len(),
                None => window_position(self.records(), window) is None,
            },
    {
        let mut i: usize = 0;
        while i < self.windows.len()
            invariant
                i <= self.windows.len(),
                forall|j: int| 0 <= j < i ==> (#[trigger] self.windows@[j]).window != window,
            decreases self.windows.len() - i,
        {
            if self.windows[i].window == window {
                proof {
                    lemma_window_position(self.windows@, window, i as int);
                }
                return Some(i);
            }
            i = i + 1;
        }
        proof {
            lemma_window_position(self.windows@, window, i as int);
        }
        None
    }

    /// Records that the OS window for `id` was opened with handle `window`:
    /// the id now names that window, and the window gets a record with no
    /// scene yet.
    pub fn window_built(&mut self, id: String, window: u64)
        ensures
            final(self).ids() == old(self).ids().insert(id@, window),
            final(self).records() == old(self).records().push(WindowRecord { window, id, scene: None }),
    {
        self.windows.push(WindowRecord { window, id: id.clone(), scene: None });
        self.id_to_window.insert(id, window);
    }

    /// Decides what to do with a command from the actors. `CreateWindow`
    /// asks for a window; `DestroyWindow` forgets the id and its record;
    /// `SetScene` keeps the scene in the window's record; `RequestRedraw`
    /// asks the window for a redraw; when the id or its record is unknown, or
    /// for other commands, nothing happens.
    pub fn on_command(&mut self, cmd: BackendCommand) -> (actions: Vec<ShellAction>)
        ensures
            match cmd {
                BackendCommand::CreateWindow { id, title } => {
                    &&& final(self).ids() == old(self).ids()
                    &&& final(self).records() == old(self).records()
                    &&& actions@ == seq![ShellAction::BuildWindow { id, title }]
                },
                BackendCommand::DestroyWindow { id } => {
                    &&& final(self).ids() == old(self).ids().remove(id@)
                    &&& final(self).records() == (if old(self).ids().contains_key(id@) {
                        match window_position(old(self).records(), old(self).ids()[id@]) {
                            Some(p) => old(self).records().remove(p),
                            None => old(self).records(),
                        }
                    } else {
                        old(self).records()
                    })
                    &&& actions@.len() == 0
                },
                BackendCommand::SetScene { window_id, scene } => {
                    &&& final(self).ids() == old(self).ids()
                    &&& actions@.len() == 0
                    &&& final(self).records().len() == old(self).records().len()
                    &&& forall|j: int| 0 <= j < old(self).records().len() ==> {
                        let r0 = old(self).records()[j];
                        let r1 = #[trigger] final(self).records()[j];
                        let target = old(self).ids().contains_key(window_id@) && window_position(
                            old(self).records(),
                            old(self).ids()[window_id@],
                        ) == Some(j);
                        &&& r1.window == r0.window
                        &&& r1.id == r0.id
                        &&& r1.scene == (if target { Some(scene) } else { r0.scene })
                    }
                },
                BackendCommand::RequestRedraw { window_id } => {
                    &&& final(self).ids() == old(self).ids()
                    &&& final(self).records() == old(self).records()
                    &&& actions@ == (if old(self).ids().contains_key(window_id@) && window_position(
                        old(self).records(),
                        old(self).ids()[window_id@],
                    ) is Some {
                        seq![ShellAction::RequestRedraw { window: old(self).ids()[window_id@] }]
                    } else {
                        Seq::<ShellAction>::empty()
                    })
                },
                _ => {
                    &&& final(self).ids() == old(self).ids()
                    &&& final(self).records() == old(self).records()
                    &&& actions@.len() == 0
                },
            },
    {
        let mut actions: Vec<ShellAction> = Vec::new();
        match cmd {
            BackendCommand::CreateWindow { id, title } => {
                actions.push(ShellAction::BuildWindow { id, title });
            },
            BackendCommand::DestroyWindow { id } => {
                if let Some(window) = self.id_to_window.remove(&id) {
                    if let Some(p) = self.find_window(window) {
                        self.windows.remove(p);
                    }
                }
            },
            BackendCommand::SetScene { window_id, scene } => {
                if let Some(window) = self.id_to_window.get(&window_id) {
                    let window = *window;
                    if let Some(p) = self.find_window(window) {
                        let ghost before = self.windows@;
                        let mut rec = self.windows.remove(p);
                        rec.scene = Some(scene);
                        self.windows.insert(p, rec);
                        assert(forall|j: int| 0 <= j < before.len() && j != p ==> self.windows@[j] == before[j]);
                    }
                }
            },
            BackendCommand::RequestRedraw { window_id } => {
                if let Some(window) = self.id_to_window.get(&window_id) {
                    let window = *window;
                    if self.find_window(window).is_some() {
                        actions.push(ShellAction::RequestRedraw { window });
                    }
                }
            },
            _ => {},
        }
        actions
    }

    /// Decides what to do when the OS asks to close a window. For a window
    /// with a record: tell the actors it closed, forget its record and its
    /// id, and leave the event loop when no window remains. For another:
    /// nothing.
    pub fn on_close_requested(&mut self, window: u64) -> (actions: Vec<ShellAction>)
        ensures
            window_position(old(self).records(), window) matches Some(p) ==> 0 <= p < old(self).records().len(),
            match window_position(old(self).records(), window) {
                Some(p) => {
                    let id = old(self).records()[p].id;
                    &&& final(self).records() == old(self).records().remove(p)
                    &&& final(self).ids() == old(self).ids().remove(id@)
                    &&& actions@ == (if old(self).records().len() == 1 {
                        seq![ShellAction::SendEvent(BackendEvent::WindowClosed { id }), ShellAction::Exit]
                    } else {
                        seq![ShellAction::SendEvent(BackendEvent::WindowClosed { id })]
                    })
                },
                None => {
                    &&& final(self).records() == old(self).records()
                    &&& final(self).ids() == old(self).ids()
                    &&& actions@.len() == 0
                },
            },
    {
        let mut actions: Vec<ShellAction> = Vec::new();
        proof {
            lemma_window_position_bound(self.windows@, window);
        }
        if let Some(p) = self.find_window(window) {
            let id = self.windows[p].id.clone();
            actions.push(ShellAction::SendEvent(BackendEvent::WindowClosed { id: id.clone() }));
            self.windows.remove(p);
            let _ = self.id_to_window.remove(&id);
            if self.windows.len() == 0 {
                actions.push(ShellAction::Exit);
            }
        }
        actions
    }
}

/// A drawing step of the desktop backend.
pub enum RenderOp {
    BeginVertical,
    EndVertical,
    Label(String),
    Button(String),
}

/// Model of a drawing step.
pub enum RenderOpView {
    BeginVertical,
    EndVertical,
    Label(Seq<char>),
    Button(Seq<char>),
}

impl View for RenderOp {
    type V = RenderOpView;

    open spec fn view(&self) -> RenderOpView {
        match self {
            RenderOp::BeginVertical => RenderOpView::BeginVertical,
            RenderOp::EndVertical => RenderOpView::EndVertical,
            RenderOp::Label(s) => RenderOpView::Label(s@),
            RenderOp::Button(s) => RenderOpView::Button(s@),
        }
    }
}

/// The text a node shows: its `text` property, when that holds a string.
pub open spec fn node_text(n: NodeView) -> Option<Seq<char>> {
    match entries_lookup(n.props, seq!['t', 'e', 'x', 't']) {
        Some(ValueView::Str(s)) => Some(s),
        _ => None,
    }
}

/// How a node is drawn: a container lays its children out one below the
/// other; a text is a label and a button a button, each with the node's text
/// (and nothing without one); other kinds are not drawn.
pub open spec fn render_spec(n: NodeView) -> Seq<RenderOpView>
    decreases n, 0int,
{
    match n.kind {
        KindView::Container => seq![RenderOpView::BeginVertical] + render_list(n.children, n.children.len())
            + seq![RenderOpView::EndVertical],
        KindView::Text => match node_text(n) {
            Some(t) => seq![RenderOpView::Label(t)],
            None => Seq::empty(),
        },
        KindView::Button => match node_text(n) {
            Some(t) => seq![RenderOpView::Button(t)],
            None => Seq::empty(),
        },
        _ => Seq::empty(),
    }
}

/// The drawing of the first `k` nodes, in order.
pub open spec fn render_list(cs: Seq<NodeView>, k: nat) -> Seq<RenderOpView>
    decreases cs, k,
{
    if k == 0 || k > cs.len() {
        Seq::empty()
    } else {
        proof {
            vstd::seq::axiom_seq_index_decreases(cs, k - 1);
        }
        render_list(cs, (k - 1) as nat) + render_spec(cs[k - 1])
    }
}

proof fn lemma_render_list_flat(cs: Seq<NodeView>, k: nat, f: spec_fn(NodeView) -> Seq<RenderOpView>)
    requires
        k <= cs.len(),
        forall|c: NodeView| #[trigger] f(c) == render_spec(c),
    ensures
        render_list(cs, k) == cs.take(k as int).map_values(f).flatten_alt(),
    decreases k,
{
    if k > 0 {
        lemma_render_list_flat(cs, (k - 1) as nat, f);
        let m = cs.take(k as int).map_values(f);
        assert(m.drop_last() =~= cs.take(k - 1).map_values(f));
        assert(m.last() == f(cs[k - 1]));
    } else {
        assert(cs.take(0).map_values(f) =~= Seq::<Seq<RenderOpView>>::empty());
    }
}

/// A container is drawn as `BeginVertical`, then the drawing of each of its
/// children by the same rule, whatever the child's kind, one after the
/// other in order, then `EndVertical`.
pub proof fn law_container_draws_every_child(n: NodeView)
    requires
        n.kind is Container,
    ensures
        render_spec(n) == seq![RenderOpView::BeginVertical] + n.children.map_values(
            |c: NodeView| render_spec(c),
        ).flatten() + seq![RenderOpView::EndVertical],
{
    let f = |c: NodeView| render_spec(c);
    lemma_render_list_flat(n.children, n.children.len(), f);
    assert(n.children.take(n.children.len() as int) =~= n.children);
    n.children.map_values(f).lemma_flatten_and_flatten_alt_are_equivalent();
}

pub open spec fn ops_view(ops: Seq<RenderOp>) -> Seq<RenderOpView> {
    ops.map_values(|o: RenderOp| o@)
}

fn render_into(node: &SceneNode, ops: &mut Vec<RenderOp>)
    ensures
        ops_view(final(ops)@) == ops_view(old(ops)@) + render_spec(node@),
    decreases node,
{
    let ghost base = ops_view(ops@);
    let ghost nv = node@;
    match &node.kind {
        NodeKind::Container {} => {
            ops.push(RenderOp::BeginVertical);
            let ghost start = ops_view(ops@);
            assert(start =~= base + seq![RenderOpView::BeginVertical]);
            proof {
                lemma_nodes_view(node.children@);
            }
            let mut i: usize = 0;
            assert(ops_view(ops@) =~= start + render_list(nv.children, 0));
            while i < node.children.len()
                invariant
                    i <= node.children.len(),
                    nv == node@,
                    nv.children.len() == node.children.len(),
                    forall|j: int| 0 <= j < node.children.len() ==> nv.children[j] == #[trigger] node.children@[j]@,
                    ops_view(ops@) == start + render_list(nv.children, i as nat),
                decreases node.children.len() - i,
            {
                proof {
                    vstd::std_specs::vec::axiom_vec_decreases_to_view(node.children);
                    vstd::seq::axiom_seq_index_decreases(node.children@, i as int);
                }
                render_into(&node.children[i], ops);
                assert(node.children@[i as int]@ == nv.children[i as int]);
                i = i + 1;
                assert(ops_view(ops@) =~= start + render_list(nv.children, i as nat));
            }
            let ghost mid = ops_view(ops@);
            ops.push(RenderOp::EndVertical);
            assert(ops_view(ops@) =~= mid + seq![RenderOpView::EndVertical]);
            assert(ops_view(ops@) =~= base + render_spec(nv));
        },
        NodeKind::Text {} | NodeKind::Button {} => {
            let key = chars_of("text");
            proof {
                reveal_strlit("text");
                assert(key@ =~= seq!['t', 'e', 'x', 't']);
            }
            match node.properties.find(key.as_slice()) {
                Some(i) => {
                    match &node.properties.properties[i].1 {
                        PropertyValue::String { value } => {
                            let is_text = match &node.kind {
                                NodeKind::Text {} => true,
                                _ => false,
                            };
                            if is_text {
                                ops.push(RenderOp::Label(value.clone()));
                            } else {
                                ops.push(RenderOp::Button(value.clone()));
                            }
                            assert(ops_view(ops@) =~= base + render_spec(nv));
                        },
                        _ => {
                            assert(ops_view(ops@) =~= base + render_spec(nv));
                        },
                    }
                },
                None => {
                    assert(ops_view(ops@) =~= base + render_spec(nv));
                },
            }
        },
        _ => {
            assert(ops_view(ops@) =~= base + render_spec(nv));
        },
    }
}

impl WinitWgpuBackend {
    /// The drawing steps for a node and all below it (see `render_spec`).
    pub fn render_scene(node: &SceneNode) -> (ops: Vec<RenderOp>)
        ensures
            ops_view(ops@) == render_spec(node@),
    {
        let mut ops: Vec<RenderOp> = Vec::new();
        assert(ops_view(ops@) =~= Seq::<RenderOpView>::empty());
        render_into(node, &mut ops);
        assert(ops_view(ops@) =~= render_spec(node@));
        ops
    }
}

} // verus!
