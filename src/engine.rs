use vstd::prelude::*;
use crate::config::Config;
use crate::geometry::{distance, distance_floor};
use crate::input::{ActorId, ActorSample, InputSample};

verus! {

/// Who holds the drawing tool.
#[derive(Clone, Copy, Debug, PartialEq, Eq, Structural)]
pub enum GrabState {
    Idle,
    /// `actor` took the tool at time `since`.
    Held { actor: ActorId, since: u64 },
}

/// Where the grab holder's draw gesture stands this frame.
#[derive(Clone, Copy, Debug, PartialEq, Eq, Structural)]
pub enum DrawPhase {
    Idle,
    Started,
    Continuing,
    Stopped,
}

/// The two non-exclusive actions tracked for every actor.
#[derive(Clone, Copy, Debug, PartialEq, Eq, Structural)]
pub enum Action {
    Hover,
    Draw,
}

/// Action state carried from one frame to the next.
#[derive(Clone, Debug)]
pub struct ActionEngine {
    /// Actors that hovered last frame.
    pub hovering: Vec<ActorId>,
    /// Actors that met the draw predicate last frame.
    pub drawing: Vec<ActorId>,
    pub grab: GrabState,
    /// Whether the grab holder was drawing last frame.
    pub holder_drawing: bool,
    /// When the grab was last let go.
    pub last_release: Option<u64>,
}

/// What one frame of action resolution yields.
#[derive(Clone, Debug)]
pub struct FrameOutput {
    /// The grab holder's sample, while the tool is held.
    pub holder: Option<ActorSample>,
    pub grab_started: bool,
    pub grab_stopped: bool,
    /// The holder's draw gesture.
    pub draw: DrawPhase,
    pub hover_started: Vec<ActorId>,
    pub hover_stopped: Vec<ActorId>,
    pub draw_started: Vec<ActorId>,
    pub draw_stopped: Vec<ActorId>,
}

/// Every sample's pose is in range.
pub open spec fn snapshot_wf(snap: Seq<ActorSample>) -> bool {
    forall|i: int| 0 <= i < snap.len() ==> (#[trigger] snap[i]).input.wf()
}

pub open spec fn hovers(a: ActorSample, cfg: Config) -> bool {
    a.field_distance < cfg.max_distance
}

pub open spec fn grabs(a: ActorSample, cfg: Config) -> bool {
    match a.input {
        InputSample::Hand { .. } => match a.channels.grab_strength {
            Some(v) => v > cfg.grab_threshold,
            None => false,
        },
        InputSample::Tip { .. } => match a.channels.grab {
            Some(v) => v > cfg.grab_threshold,
            None => false,
        },
        InputSample::Other => false,
    }
}

pub open spec fn draws(a: ActorSample, cfg: Config) -> bool {
    match a.input {
        InputSample::Hand { thumb_tip, index_tip, .. } => distance(thumb_tip, index_tip) < cfg.pinch_draw_threshold,
        InputSample::Tip { .. } => match a.channels.select {
            Some(v) => v > cfg.select_draw_threshold,
            None => false,
        },
        InputSample::Other => false,
    }
}

pub open spec fn acts(action: Action, a: ActorSample, cfg: Config) -> bool {
    match action {
        Action::Hover => hovers(a, cfg),
        Action::Draw => draws(a, cfg),
    }
}

/// An actor may take the tool only while it both grabs and hovers.
pub open spec fn captures(a: ActorSample, cfg: Config) -> bool {
    grabs(a, cfg) && hovers(a, cfg)
}

/// `id` has a sample in `snap` that performs `action`.
pub open spec fn performs(snap: Seq<ActorSample>, id: ActorId, action: Action, cfg: Config) -> bool {
    exists|i: int| 0 <= i < snap.len() && snap[i].id == id && #[trigger] acts(action, snap[i], cfg)
}

/// `id` has a sample in `snap` that grabs.
pub open spec fn still_grabs(snap: Seq<ActorSample>, id: ActorId, cfg: Config) -> bool {
    exists|i: int| 0 <= i < snap.len() && snap[i].id == id && #[trigger] grabs(snap[i], cfg)
}

/// Sample `i` is the first in `snap` that may take the tool.
pub open spec fn first_capture(snap: Seq<ActorSample>, i: int, cfg: Config) -> bool {
    &&& 0 <= i < snap.len()
    &&& captures(snap[i], cfg)
    &&& forall|j: int| 0 <= j < i ==> !captures(#[trigger] snap[j], cfg)
}

/// How the grab moves from `g0` to `g1` in a frame with samples `snap` at time `now`:
/// a holder keeps the tool while it grabs and loses it otherwise; an idle tool
/// goes to the first sample that grabs while hovering, if any.
pub open spec fn grab_transition(g0: GrabState, g1: GrabState, snap: Seq<ActorSample>, now: u64, cfg: Config) -> bool {
    match g0 {
        GrabState::Held { actor, .. } => if still_grabs(snap, actor, cfg) {
            g1 == g0
        } else {
            g1 == GrabState::Idle
        },
        GrabState::Idle => if exists|i: int| first_capture(snap, i, cfg) {
            exists|i: int| first_capture(snap, i, cfg) && g1 == (GrabState::Held { actor: snap[i].id, since: now })
        } else {
            g1 == GrabState::Idle
        },
    }
}

pub open spec fn draw_phase(before: bool, after: bool) -> DrawPhase {
    if before && after {
        DrawPhase::Continuing
    } else if after {
        DrawPhase::Started
    } else if before {
        DrawPhase::Stopped
    } else {
        DrawPhase::Idle
    }
}

/// `r` holds the ids in `a` that are not in `b`.
pub open spec fn is_difference(r: Seq<ActorId>, a: Seq<ActorId>, b: Seq<ActorId>) -> bool {
    forall|id: ActorId| #[trigger] r.contains(id) <==> a.contains(id) && !b.contains(id)
}

pub fn vec_contains(v: &Vec<ActorId>, id: ActorId) -> (r: bool)
    ensures
        r == v@.contains(id),
{
    let mut i: usize = 0;
    while i < v.len()
        invariant
            i <= v@.len(),
            forall|j: int| 0 <= j < i ==> v@[j] != id,
        decreases v@.len() - i,
    {
        if v[i] == id {
            return true;
        }
        i += 1;
    }
    false
}

/// The ids in `a` that are not in `b`, in the order of `a`.
pub fn difference(a: &Vec<ActorId>, b: &Vec<ActorId>) -> (r: Vec<ActorId>)
    ensures
        is_difference(r@, a@, b@),
{
    let mut r: Vec<ActorId> = Vec::new();
    let mut i: usize = 0;
    while i < a.len()
        invariant
            i <= a@.len(),
            forall|id: ActorId| #[trigger] r@.contains(id) <==> (exists|j: int| 0 <= j < i && a@[j] == id) && !b@.contains(id),
        decreases a@.len() - i,
    {
        let id = a[i];
        let ghost r0 = r@;
        if !vec_contains(b, id) {
            r.push(id);
        }
        proof {
            broadcast use vstd::seq_lib::lemma_seq_contains_after_push;
            assert forall|x: ActorId| #[trigger] r@.contains(x) <==> (exists|j: int| 0 <= j < i + 1 && a@[j] == x) && !b@.contains(x) by {
                if (exists|j: int| 0 <= j < i + 1 && a@[j] == x) && x != id {
                    let j = choose|j: int| 0 <= j < i + 1 && a@[j] == x;
                    assert(j < i);
                }
                if (exists|j: int| 0 <= j < i && a@[j] == x) {
                    let j = choose|j: int| 0 <= j < i && a@[j] == x;
                    assert(0 <= j < i + 1 && a@[j] == x);
                }
                assert(a@[i as int] == id);
            }
        }
        i += 1;
    }
    proof {
        assert forall|id: ActorId| #[trigger] r@.contains(id) <==> a@.contains(id) && !b@.contains(id) by {
            if a@.contains(id) {
                let j = choose|j: int| 0 <= j < a@.len() && a@[j] == id;
                assert(exists|j: int| 0 <= j < a@.len() && a@[j] == id);
            }
        }
    }
    r
}

pub fn is_hovering(a: &ActorSample, cfg: &Config) -> (r: bool)
    ensures
        r == hovers(*a, *cfg),
{
    a.field_distance < cfg.max_distance
}

pub fn is_grabbing(a: &ActorSample, cfg: &Config) -> (r: bool)
    ensures
        r == grabs(*a, *cfg),
{
    let channel = match a.input {
        InputSample::Hand { .. } => a.channels.grab_strength,
        InputSample::Tip { .. } => a.channels.grab,
        InputSample::Other => None,
    };
    match channel {
        Some(v) => v > cfg.grab_threshold,
        None => false,
    }
}

pub fn is_drawing(a: &ActorSample, cfg: &Config) -> (r: bool)
    requires
        a.input.wf(),
    ensures
        r == draws(*a, *cfg),
{
    match a.input {
        InputSample::Hand { thumb_tip, index_tip, .. } => distance_floor(thumb_tip, index_tip) < cfg.pinch_draw_threshold,
        InputSample::Tip { .. } => match a.channels.select {
            Some(v) => v > cfg.select_draw_threshold,
            None => false,
        },
        InputSample::Other => false,
    }
}

fn is_acting(action: Action, a: &ActorSample, cfg: &Config) -> (r: bool)
    requires
        a.input.wf(),
    ensures
        r == acts(action, *a, *cfg),
{
    match action {
        Action::Hover => is_hovering(a, cfg),
        Action::Draw => is_drawing(a, cfg),
    }
}

/// The ids of the actors in `snap` that perform `action`.
pub fn members(snap: &Vec<ActorSample>, action: Action, cfg: &Config) -> (r: Vec<ActorId>)
    requires
        snapshot_wf(snap@),
    ensures
        forall|id: ActorId| #[trigger] r@.contains(id) <==> performs(snap@, id, action, *cfg),
{
    let mut r: Vec<ActorId> = Vec::new();
    let mut i: usize = 0;
    while i < snap.len()
        invariant
            i <= snap@.len(),
            snapshot_wf(snap@),
            forall|id: ActorId| #[trigger] r@.contains(id)
                <==> exists|j: int| 0 <= j < i && snap@[j].id == id && #[trigger] acts(action, snap@[j], *cfg),
        decreases snap@.len() - i,
    {
        let a = &snap[i];
        assert(snap@[i as int].input.wf());
        let ghost r0 = r@;
        if is_acting(action, a, cfg) {
            r.push(a.id);
        }
        proof {
            broadcast use vstd::seq_lib::lemma_seq_contains_after_push;
            assert forall|x: ActorId| #[trigger] r@.contains(x)
                <==> exists|j: int| 0 <= j < i + 1 && snap@[j].id == x && #[trigger] acts(action, snap@[j], *cfg) by {
                if exists|j: int| 0 <= j < i + 1 && snap@[j].id == x && #[trigger] acts(action, snap@[j], *cfg) {
                    let j = choose|j: int| 0 <= j < i + 1 && snap@[j].id == x && #[trigger] acts(action, snap@[j], *cfg);
                    if j < i {
                        assert(r0.contains(x));
                    }
                }
                if r0.contains(x) {
                    let j = choose|j: int| 0 <= j < i && snap@[j].id == x && #[trigger] acts(action, snap@[j], *cfg);
                    assert(0 <= j < i + 1);
                }
            }
        }
        i += 1;
    }
    r
}

/// The first sample of actor `id` that grabs.
fn find_grabbing(snap: &Vec<ActorSample>, id: ActorId, cfg: &Config) -> (r: Option<usize>)
    ensures
        match r {
            Some(i) => i < snap@.len() && snap@[i as int].id == id && grabs(snap@[i as int], *cfg),
            None => !still_grabs(snap@, id, *cfg),
        },
{
    let mut i: usize = 0;
    while i < snap.len()
        invariant
            i <= snap@.len(),
            forall|j: int| 0 <= j < i ==> !(snap@[j].id == id && #[trigger] grabs(snap@[j], *cfg)),
        decreases snap@.len() - i,
    {
        if snap[i].id == id && is_grabbing(&snap[i], cfg) {
            return Some(i);
        }
        i += 1;
    }
    None
}

/// The first sample that may take the tool.
fn find_capture(snap: &Vec<ActorSample>, cfg: &Config) -> (r: Option<usize>)
    ensures
        match r {
            Some(i) => first_capture(snap@, i as int, *cfg),
            None => forall|j: int| 0 <= j < snap@.len() ==> !captures(#[trigger] snap@[j], *cfg),
        },
{
    let mut i: usize = 0;
    while i < snap.len()
        invariant
            i <= snap@.len(),
            forall|j: int| 0 <= j < i ==> !captures(#[trigger] snap@[j], *cfg),
        decreases snap@.len() - i,
    {
        if is_grabbing(&snap[i], cfg) && is_hovering(&snap[i], cfg) {
            return Some(i);
        }
        i += 1;
    }
    None
}

/// One frame of action resolution took `e0` to `e1` with output `out`:
/// membership recomputed from `snap`, the grab moved by its capture rule, and
/// the started and stopped sets and the holder's draw phase diffed against
/// last frame.
pub open spec fn resolves(e0: ActionEngine, e1: ActionEngine, out: FrameOutput, snap: Seq<ActorSample>, now: u64, cfg: Config) -> bool {
    &&& grab_transition(e0.grab, e1.grab, snap, now, cfg)
    &&& forall|id: ActorId| #[trigger] e1.hovering@.contains(id) <==> performs(snap, id, Action::Hover, cfg)
    &&& forall|id: ActorId| #[trigger] e1.drawing@.contains(id) <==> performs(snap, id, Action::Draw, cfg)
    &&& is_difference(out.hover_started@, e1.hovering@, e0.hovering@)
    &&& is_difference(out.hover_stopped@, e0.hovering@, e1.hovering@)
    &&& is_difference(out.draw_started@, e1.drawing@, e0.drawing@)
    &&& is_difference(out.draw_stopped@, e0.drawing@, e1.drawing@)
    &&& out.grab_started == (e0.grab is Idle && e1.grab is Held)
    &&& out.grab_stopped == (e0.grab is Held && e1.grab is Idle)
    &&& e1.last_release == if out.grab_stopped { Some(now) } else { e0.last_release }
    &&& match e1.grab {
        GrabState::Held { actor, .. } => out.holder is Some && out.holder->0.id == actor
            && snap.contains(out.holder->0) && grabs(out.holder->0, cfg),
        GrabState::Idle => out.holder is None,
    }
    &&& e1.holder_drawing == (out.holder is Some && draws(out.holder->0, cfg))
    &&& out.draw == draw_phase(e0.holder_drawing, e1.holder_drawing)
}

impl ActionEngine {
    /// No actor hovers, draws or holds the tool.
    pub fn new() -> (r: ActionEngine)
        ensures
            r.hovering@.len() == 0,
            r.drawing@.len() == 0,
            r.grab == GrabState::Idle,
            !r.holder_drawing,
            r.last_release.is_none(),
    {
        ActionEngine { hovering: Vec::new(), drawing: Vec::new(), grab: GrabState::Idle, holder_drawing: false, last_release: None }
    }

    /// Resolves one frame: hover and draw membership, then the grab against
    /// hover, then the transitions against last frame.
    pub fn step(&mut self, snap: &Vec<ActorSample>, now: u64, cfg: &Config) -> (out: FrameOutput)
        requires
            snapshot_wf(snap@),
        ensures
            resolves(*old(self), *final(self), out, snap@, now, *cfg),
    {
        let hovering = members(snap, Action::Hover, cfg);
        let drawing = members(snap, Action::Draw, cfg);
        let hover_started = difference(&hovering, &self.hovering);
        let hover_stopped = difference(&self.hovering, &hovering);
        let draw_started = difference(&drawing, &self.drawing);
        let draw_stopped = difference(&self.drawing, &drawing);
        self.hovering = hovering;
        self.drawing = drawing;

        let mut grab_started = false;
        let mut grab_stopped = false;
        let mut holder: Option<ActorSample> = None;
        match self.grab {
            GrabState::Held { actor, .. } => match find_grabbing(snap, actor, cfg) {
                Some(i) => {
                    holder = Some(snap[i]);
                },
                None => {
                    self.grab = GrabState::Idle;
                    self.last_release = Some(now);
                    grab_stopped = true;
                },
            },
            GrabState::Idle => match find_capture(snap, cfg) {
                Some(i) => {
                    self.grab = GrabState::Held { actor: snap[i].id, since: now };
                    holder = Some(snap[i]);
                    grab_started = true;
                },
                None => {},
            },
        }
        let now_drawing = match holder {
            Some(h) => {
                assert(snap@.contains(h));
                is_drawing(&h, cfg)
            },
            None => false,
        };
        let draw = if self.holder_drawing && now_drawing {
            DrawPhase::Continuing
        } else if now_drawing {
            DrawPhase::Started
        } else if self.holder_drawing {
            DrawPhase::Stopped
        } else {
            DrawPhase::Idle
        };
        self.holder_drawing = now_drawing;
        FrameOutput { holder, grab_started, grab_stopped, draw, hover_started, hover_stopped, draw_started, draw_stopped }
    }
}

/// Grab exclusivity for one frame: a held tool either stays with its holder,
/// from the same capture time, or goes idle; it never passes to another actor.
pub proof fn lemma_grab_exclusive(g0: GrabState, g1: GrabState, snap: Seq<ActorSample>, now: u64, cfg: Config)
    requires
        grab_transition(g0, g1, snap, now, cfg),
        g0 is Held,
    ensures
        g1 == g0 || g1 == GrabState::Idle,
{
}

/// Grab exclusivity over a run of frames: where the grab states `gs` follow
/// one another frame by frame, the tool held at frame `k` and at every frame
/// up to `l` is held by the same actor, captured at the same time.
pub proof fn lemma_grab_exclusive_run(
    gs: Seq<GrabState>,
    snaps: Seq<Seq<ActorSample>>,
    times: Seq<u64>,
    cfg: Config,
    k: int,
    l: int,
)
    requires
        gs.len() == snaps.len() + 1,
        times.len() == snaps.len(),
        forall|i: int| 0 <= i < snaps.len() ==> grab_transition(#[trigger] gs[i], gs[i + 1], snaps[i], times[i], cfg),
        0 <= k <= l < gs.len(),
        forall|m: int| k <= m <= l ==> (#[trigger] gs[m]) is Held,
    ensures
        gs[l] == gs[k],
    decreases l - k,
{
    if k < l {
        lemma_grab_exclusive_run(gs, snaps, times, cfg, k, l - 1);
        assert(grab_transition(gs[l - 1], gs[l], snaps[l - 1], times[l - 1], cfg));
        assert(gs[l - 1] is Held);
        assert(gs[l] is Held);
    }
}

} // verus!
