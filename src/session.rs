use vstd::prelude::*;
use crate::config::{Config, THICKNESS_LIMIT, UNIT};
use crate::geometry::{dist2, distance_squared, Vec3};
use crate::input::Orientation;
use crate::smoothing::{lemma_smooth_step_wf, smooth, smooth_step};

verus! {

/// An RGBA colour, one byte per channel.
#[derive(Clone, Copy, Debug, PartialEq, Eq, Structural)]
pub struct Color {
    pub r: u8,
    pub g: u8,
    pub b: u8,
    pub a: u8,
}

/// The colour strokes are drawn in: opaque red.
pub open spec fn ink_color() -> Color {
    Color { r: 255, g: 0, b: 0, a: 255 }
}

pub fn ink() -> (r: Color)
    ensures
        r == ink_color(),
{
    Color { r: 255, g: 0, b: 0, a: 255 }
}

/// One vertex of a stroke.
#[derive(Clone, Copy, Debug, PartialEq, Eq, Structural)]
pub struct Point {
    pub position: Vec3,
    /// Line thickness at this vertex, in micrometres.
    pub thickness: u32,
    pub color: Color,
}

/// An open polyline.
#[derive(Clone, Debug)]
pub struct Stroke {
    pub points: Vec<Point>,
}

impl View for Stroke {
    type V = Seq<Point>;

    open spec fn view(&self) -> Seq<Point> {
        self.points@
    }
}

/// What the pen did this frame, as seen by the stroke recorder.
#[derive(Clone, Copy, Debug, PartialEq, Eq, Structural)]
pub enum PenEvent {
    /// Held, not drawing.
    Grabbed,
    /// Drawing began, with this pinch strength.
    StartedDrawing(u32),
    /// Drawing goes on, with this pinch strength.
    Drawing(u32),
    /// Drawing ended while the pen stays held.
    StoppedDrawing,
    /// The pen was let go.
    Released,
}

/// Everything the drawing tool keeps between frames.
#[derive(Clone, Debug)]
pub struct PenSessionState {
    /// All strokes, oldest first; the last is the one drawing extends.
    pub strokes: Vec<Stroke>,
    /// Base line thickness, in micrometres.
    pub line_thickness: u32,
    pub pen_pos: Vec3,
    pub pen_rot: Orientation,
    /// Raw position of the last point that passed the motion filter.
    pub last_pen_update_pos: Vec3,
    /// The lazy-brush cursor.
    pub cursor: Vec3,
    /// When drawing last stopped, in microseconds of the frame clock.
    pub grab_stopped: Option<u64>,
    /// Whether a draw gesture is in progress.
    pub drawing: bool,
}

/// The session as mathematics: strokes as sequences of points.
pub struct SessionModel {
    pub strokes: Seq<Seq<Point>>,
    pub line_thickness: u32,
    pub pen_pos: Vec3,
    pub pen_rot: Orientation,
    pub last_pen_update_pos: Vec3,
    pub cursor: Vec3,
    pub grab_stopped: Option<u64>,
    pub drawing: bool,
}

pub open spec fn strokes_view(strokes: Seq<Stroke>) -> Seq<Seq<Point>> {
    strokes.map_values(|s: Stroke| s@)
}

impl View for PenSessionState {
    type V = SessionModel;

    open spec fn view(&self) -> SessionModel {
        SessionModel {
            strokes: strokes_view(self.strokes@),
            line_thickness: self.line_thickness,
            pen_pos: self.pen_pos,
            pen_rot: self.pen_rot,
            last_pen_update_pos: self.last_pen_update_pos,
            cursor: self.cursor,
            grab_stopped: self.grab_stopped,
            drawing: self.drawing,
        }
    }
}

impl SessionModel {
    pub open spec fn wf(&self) -> bool {
        &&& self.line_thickness <= THICKNESS_LIMIT
        &&& self.pen_pos.wf()
        &&& self.last_pen_update_pos.wf()
        &&& self.cursor.wf()
    }
}

/// Thickness of a point drawn at pinch strength `s` (clamped to 1.0).
pub open spec fn point_thickness(base: u32, s: u32) -> u32 {
    let c = if s > UNIT { UNIT } else { s };
    (base * c / (UNIT as int)) as u32
}

pub open spec fn ink_point(pos: Vec3, base: u32, s: u32) -> Point {
    Point { position: pos, thickness: point_thickness(base, s), color: ink_color() }
}

/// Adds `p` to the last stroke, or, where that stroke is full, starts a new
/// stroke holding `p` alone.
pub open spec fn push_point_spec(strokes: Seq<Seq<Point>>, p: Point, ceiling: int) -> Seq<Seq<Point>> {
    if strokes.last().len() >= ceiling {
        strokes.push(seq![p])
    } else {
        strokes.update(strokes.len() - 1, strokes.last().push(p))
    }
}

/// A point for raw position `pos` at strength `s` goes on the current stroke,
/// unless it lies closer than the motion resolution to the last one taken.
pub open spec fn extend_spec(m: SessionModel, pos: Vec3, s: u32, cfg: Config) -> SessionModel {
    if dist2(m.last_pen_update_pos, pos) < cfg.move_resolution * cfg.move_resolution {
        m
    } else {
        let cursor = if cfg.smoothing {
            smooth_step(m.cursor, pos, cfg.smoothing_threshold as int)
        } else {
            m.cursor
        };
        let at = if cfg.smoothing { cursor } else { pos };
        SessionModel {
            strokes: push_point_spec(m.strokes, ink_point(at, m.line_thickness, s), cfg.segment_ceiling as int),
            last_pen_update_pos: pos,
            cursor,
            ..m
        }
    }
}

/// A draw starting at `now` continues the last stroke: one exists and the
/// last stop lies less than the debounce window back.
pub open spec fn debounced(m: SessionModel, now: u64, cfg: Config) -> bool {
    &&& m.strokes.len() > 0
    &&& match m.grab_stopped {
        Some(t) => (now as int) < t + cfg.debounce_window,
        None => false,
    }
}

/// The session after the pen reports `ev` at pose (`pos`, `rot`) at time `now`.
pub open spec fn step_spec(m0: SessionModel, ev: PenEvent, pos: Vec3, rot: Orientation, now: u64, cfg: Config) -> SessionModel {
    let m = SessionModel { pen_pos: pos, pen_rot: rot, ..m0 };
    match ev {
        PenEvent::Grabbed => m,
        PenEvent::StoppedDrawing | PenEvent::Released => SessionModel { drawing: false, grab_stopped: Some(now), ..m },
        PenEvent::StartedDrawing(s) => if debounced(m, now, cfg) {
            extend_spec(SessionModel { drawing: true, ..m }, pos, s, cfg)
        } else {
            SessionModel {
                strokes: m.strokes.push(seq![ink_point(pos, m.line_thickness, s)]),
                last_pen_update_pos: pos,
                cursor: pos,
                drawing: true,
                ..m
            }
        },
        PenEvent::Drawing(s) => if m.drawing && m.strokes.len() > 0 {
            extend_spec(m, pos, s, cfg)
        } else {
            m
        },
    }
}

pub proof fn lemma_strokes_view_push(s: Seq<Stroke>, x: Stroke)
    ensures
        strokes_view(s.push(x)) == strokes_view(s).push(x@),
{
    assert(strokes_view(s.push(x)) =~= strokes_view(s).push(x@));
}

proof fn lemma_strokes_view_drop_last(s: Seq<Stroke>)
    requires
        s.len() > 0,
    ensures
        strokes_view(s.subrange(0, s.len() - 1)) == strokes_view(s).subrange(0, s.len() - 1),
{
    assert(strokes_view(s.subrange(0, s.len() - 1)) =~= strokes_view(s).subrange(0, s.len() - 1));
}

impl PenSessionState {
    /// An empty session with base thickness `thickness`, the pen at the origin.
    pub fn new(thickness: u32) -> (r: PenSessionState)
        requires
            thickness <= THICKNESS_LIMIT,
        ensures
            r@ == empty_session(thickness),
            r@.wf(),
    {
        let strokes: Vec<Stroke> = Vec::new();
        assert(strokes_view(strokes@) =~= Seq::empty());
        PenSessionState {
            strokes,
            line_thickness: thickness,
            pen_pos: Vec3::zero(),
            pen_rot: Orientation::identity(),
            last_pen_update_pos: Vec3::zero(),
            cursor: Vec3::zero(),
            grab_stopped: None,
            drawing: false,
        }
    }

    /// Appends `p` to the last stroke, or starts a new one where that is full.
    fn push_point(&mut self, p: Point, ceiling: u64)
        requires
            old(self).strokes@.len() > 0,
        ensures
            final(self)@ == (SessionModel { strokes: push_point_spec(old(self)@.strokes, p, ceiling as int), ..old(self)@ }),
    {
        let ghost before = self.strokes@;
        let mut last = self.strokes.pop().unwrap();
        proof {
            lemma_strokes_view_drop_last(before);
        }
        if last.points.len() as u64 >= ceiling {
            self.strokes.push(last);
            let mut fresh: Vec<Point> = Vec::new();
            fresh.push(p);
            let stroke = Stroke { points: fresh };
            self.strokes.push(stroke);
            proof {
                assert(self.strokes@.subrange(0, before.len() as int) =~= before);
                assert(self.strokes@ =~= before.push(stroke));
                lemma_strokes_view_push(before, stroke);
                assert(stroke@ =~= seq![p]);
            }
        } else {
            last.points.push(p);
            self.strokes.push(last);
            proof {
                let sub = before.subrange(0, before.len() - 1);
                lemma_strokes_view_push(sub, last);
                assert(strokes_view(before).subrange(0, before.len() - 1).push(last@)
                    =~= strokes_view(before).update(before.len() - 1, strokes_view(before).last().push(p)));
            }
        }
    }

    /// Takes a point for raw position `pos` at strength `s` onto the current
    /// stroke, through the motion filter and the lazy brush.
    fn extend(&mut self, pos: Vec3, s: u32, cfg: &Config)
        requires
            old(self)@.wf(),
            old(self).strokes@.len() > 0,
            pos.wf(),
            cfg.wf(),
        ensures
            final(self)@ == extend_spec(old(self)@, pos, s, *cfg),
            final(self)@.wf(),
    {
        let res = cfg.move_resolution;
        assert((res as int) * (res as int) <= 1_000_000_000_000_000_000) by (nonlinear_arith)
            requires res <= 1_000_000_000;
        if (distance_squared(self.last_pen_update_pos, pos) as u128) < (res as u128) * (res as u128) {
            return;
        }
        self.last_pen_update_pos = pos;
        if cfg.smoothing {
            self.cursor = smooth(self.cursor, pos, cfg.smoothing_threshold);
        }
        let at = if cfg.smoothing { self.cursor } else { pos };
        let p = Point { position: at, thickness: thickness_at(self.line_thickness, s), color: ink() };
        self.push_point(p, cfg.segment_ceiling);
    }

    /// Applies what the pen did this frame.
    ///
    /// The pose is recorded in every case. A stop or a release ends the draw
    /// gesture and stamps `now`. A start opens a new stroke with its first
    /// point, unless it follows the last stop by less than the debounce window,
    /// in which case it continues the last stroke. While drawing, each point
    /// that passes the motion filter goes on the current stroke, which splits
    /// into a new stroke when full. A draw event with no stroke to extend
    /// changes nothing but the pose.
    pub fn apply(&mut self, ev: PenEvent, pos: Vec3, rot: Orientation, now: u64, cfg: &Config)
        requires
            old(self)@.wf(),
            pos.wf(),
            cfg.wf(),
        ensures
            final(self)@ == step_spec(old(self)@, ev, pos, rot, now, *cfg),
            final(self)@.wf(),
    {
        self.pen_pos = pos;
        self.pen_rot = rot;
        match ev {
            PenEvent::Grabbed => {},
            PenEvent::StoppedDrawing | PenEvent::Released => {
                self.drawing = false;
                self.grab_stopped = Some(now);
            },
            PenEvent::StartedDrawing(s) => {
                let within = match self.grab_stopped {
                    Some(t) => (now as u128) < (t as u128) + (cfg.debounce_window as u128),
                    None => false,
                };
                if within && self.strokes.len() > 0 {
                    self.drawing = true;
                    self.extend(pos, s, cfg);
                } else {
                    let mut first: Vec<Point> = Vec::new();
                    first.push(Point { position: pos, thickness: thickness_at(self.line_thickness, s), color: ink() });
                    let stroke = Stroke { points: first };
                    proof {
                        lemma_strokes_view_push(self.strokes@, stroke);
                        assert(stroke@ =~= seq![ink_point(pos, self.line_thickness, s)]);
                    }
                    self.strokes.push(stroke);
                    self.last_pen_update_pos = pos;
                    self.cursor = pos;
                    self.drawing = true;
                }
            },
            PenEvent::Drawing(s) => {
                if self.drawing && self.strokes.len() > 0 {
                    self.extend(pos, s, cfg);
                }
            },
        }
    }
}

/// The session a fresh start begins with.
pub open spec fn empty_session(thickness: u32) -> SessionModel {
    SessionModel {
        strokes: Seq::empty(),
        line_thickness: thickness,
        pen_pos: Vec3 { x: 0, y: 0, z: 0 },
        pen_rot: Orientation { x: 0, y: 0, z: 0, w: 1_000_000 },
        last_pen_update_pos: Vec3 { x: 0, y: 0, z: 0 },
        cursor: Vec3 { x: 0, y: 0, z: 0 },
        grab_stopped: None,
        drawing: false,
    }
}

/// Thickness of a point drawn at pinch strength `s` on base `base`.
pub fn thickness_at(base: u32, s: u32) -> (r: u32)
    requires
        base <= THICKNESS_LIMIT,
    ensures
        r == point_thickness(base, s),
        r <= base,
{
    let c: u32 = if s > UNIT { UNIT } else { s };
    assert((base as int) * (c as int) <= (base as int) * (UNIT as int)) by (nonlinear_arith)
        requires c <= UNIT;
    proof {
        vstd::arithmetic::div_mod::lemma_div_is_ordered((base as int) * (c as int), (base as int) * (UNIT as int), UNIT as int);
        vstd::arithmetic::div_mod::lemma_div_multiples_vanish(base as int, UNIT as int);
        assert((base as int) * (UNIT as int) == (UNIT as int) * (base as int)) by (nonlinear_arith);
    }
    ((base as u64) * (c as u64) / (UNIT as u64)) as u32
}

/// `a` is `b` with points added at the end (or `b` itself).
pub open spec fn extends(a: Seq<Point>, b: Seq<Point>) -> bool {
    b.len() <= a.len() && a.subrange(0, b.len() as int) == b
}

/// No stroke holds more than `ceiling` points.
pub open spec fn strokes_bounded(strokes: Seq<Seq<Point>>, ceiling: int) -> bool {
    forall|i: int| 0 <= i < strokes.len() ==> #[trigger] strokes[i].len() <= ceiling
}

proof fn lemma_push_point_keeps(strokes: Seq<Seq<Point>>, p: Point, ceiling: int)
    requires
        strokes.len() > 0,
    ensures
        ({
            let n = push_point_spec(strokes, p, ceiling);
            &&& n.len() >= strokes.len()
            &&& forall|i: int| 0 <= i < strokes.len() - 1 ==> #[trigger] n[i] == strokes[i]
            &&& forall|i: int| 0 <= i < strokes.len() ==> extends(#[trigger] n[i], strokes[i])
        }),
{
    let n = push_point_spec(strokes, p, ceiling);
    let last = strokes.len() - 1;
    assert forall|i: int| 0 <= i < strokes.len() implies extends(#[trigger] n[i], strokes[i]) by {
        if i == last && strokes.last().len() < ceiling {
            assert(n[i].subrange(0, strokes[i].len() as int) =~= strokes[i]);
        } else {
            assert(n[i].subrange(0, strokes[i].len() as int) =~= strokes[i]);
        }
    }
}

/// Points already drawn never change: a step only adds points at the end of
/// the last stroke or adds new strokes, and every stroke before the last stays
/// as it was.
pub proof fn lemma_strokes_append_only(m: SessionModel, ev: PenEvent, pos: Vec3, rot: Orientation, now: u64, cfg: Config)
    ensures
        ({
            let n = step_spec(m, ev, pos, rot, now, cfg);
            &&& n.strokes.len() >= m.strokes.len()
            &&& forall|i: int| 0 <= i < m.strokes.len() - 1 ==> #[trigger] n.strokes[i] == m.strokes[i]
            &&& forall|i: int| 0 <= i < m.strokes.len() ==> extends(#[trigger] n.strokes[i], m.strokes[i])
        }),
{
    let n = step_spec(m, ev, pos, rot, now, cfg);
    if m.strokes.len() > 0 {
        let s = match ev {
            PenEvent::StartedDrawing(s) => s,
            PenEvent::Drawing(s) => s,
            _ => 0,
        };
        let at = if cfg.smoothing { smooth_step(m.cursor, pos, cfg.smoothing_threshold as int) } else { pos };
        lemma_push_point_keeps(m.strokes, ink_point(at, m.line_thickness, s), cfg.segment_ceiling as int);
    }
    assert forall|i: int| 0 <= i < m.strokes.len() implies extends(#[trigger] n.strokes[i], m.strokes[i]) by {
        assert(n.strokes[i].subrange(0, m.strokes[i].len() as int) =~= n.strokes[i].subrange(0, m.strokes[i].len() as int));
        if n.strokes[i] == m.strokes[i] {
            assert(m.strokes[i].subrange(0, m.strokes[i].len() as int) =~= m.strokes[i]);
        }
    }
}

/// Segmentation: where no stroke exceeds the ceiling, none does after a step;
/// a point that meets a full stroke starts the next stroke as its first point.
pub proof fn lemma_segmentation(strokes: Seq<Seq<Point>>, p: Point, ceiling: int)
    requires
        strokes.len() > 0,
        ceiling >= 1,
        strokes_bounded(strokes, ceiling),
    ensures
        strokes_bounded(push_point_spec(strokes, p, ceiling), ceiling),
        strokes.last().len() >= ceiling ==> push_point_spec(strokes, p, ceiling) == strokes.push(seq![p]),
        strokes.last().len() < ceiling ==> push_point_spec(strokes, p, ceiling).len() == strokes.len(),
{
    let n = push_point_spec(strokes, p, ceiling);
    assert forall|i: int| 0 <= i < n.len() implies #[trigger] n[i].len() <= ceiling by {
        if i < strokes.len() {
            assert(strokes[i].len() <= ceiling);
        }
    }
}

/// The segmentation bound holds over every step of a session.
pub proof fn lemma_step_bounded(m: SessionModel, ev: PenEvent, pos: Vec3, rot: Orientation, now: u64, cfg: Config)
    requires
        cfg.wf(),
        strokes_bounded(m.strokes, cfg.segment_ceiling as int),
    ensures
        strokes_bounded(step_spec(m, ev, pos, rot, now, cfg).strokes, cfg.segment_ceiling as int),
{
    let n = step_spec(m, ev, pos, rot, now, cfg);
    if m.strokes.len() > 0 {
        let s = match ev {
            PenEvent::StartedDrawing(s) => s,
            PenEvent::Drawing(s) => s,
            _ => 0,
        };
        let at = if cfg.smoothing { smooth_step(m.cursor, pos, cfg.smoothing_threshold as int) } else { pos };
        lemma_segmentation(m.strokes, ink_point(at, m.line_thickness, s), cfg.segment_ceiling as int);
    }
    assert forall|i: int| 0 <= i < n.strokes.len() implies #[trigger] n.strokes[i].len() <= cfg.segment_ceiling by {
        if i < m.strokes.len() {
            assert(m.strokes[i].len() <= cfg.segment_ceiling);
        }
    }
}

/// Debounce: after a stop at `stop`, a start at `start` sooner than the
/// debounce window continues the last stroke (no stroke is added while it has
/// room); a start at least the window later opens a new stroke holding the
/// start point.
pub proof fn lemma_debounce(
    m: SessionModel,
    stop_pos: Vec3,
    stop_rot: Orientation,
    stop: u64,
    pos: Vec3,
    rot: Orientation,
    start: u64,
    s: u32,
    cfg: Config,
)
    requires
        m.strokes.len() > 0,
    ensures
        ({
            let m1 = step_spec(m, PenEvent::StoppedDrawing, stop_pos, stop_rot, stop, cfg);
            let m2 = step_spec(m1, PenEvent::StartedDrawing(s), pos, rot, start, cfg);
            &&& m1.strokes == m.strokes
            &&& (start as int) < stop + cfg.debounce_window && m.strokes.last().len() < cfg.segment_ceiling
                ==> m2.strokes.len() == m.strokes.len()
                    && m2.strokes.subrange(0, m.strokes.len() - 1) == m.strokes.subrange(0, m.strokes.len() - 1)
                    && extends(m2.strokes.last(), m.strokes.last())
            &&& (start as int) >= stop + cfg.debounce_window
                ==> m2.strokes == m.strokes.push(seq![ink_point(pos, m.line_thickness, s)])
        }),
{
    let m1 = step_spec(m, PenEvent::StoppedDrawing, stop_pos, stop_rot, stop, cfg);
    let m2 = step_spec(m1, PenEvent::StartedDrawing(s), pos, rot, start, cfg);
    lemma_strokes_append_only(m1, PenEvent::StartedDrawing(s), pos, rot, start, cfg);
    if (start as int) < stop + cfg.debounce_window && m.strokes.last().len() < cfg.segment_ceiling {
        assert(m2.strokes.subrange(0, m.strokes.len() - 1) =~= m.strokes.subrange(0, m.strokes.len() - 1));
        assert(m2.strokes.last() == m2.strokes[m.strokes.len() - 1]);
    }
}

} // verus!
