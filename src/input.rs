use vstd::prelude::*;
use crate::config::{Config, UNIT};
use crate::geometry::{distance, distance_floor, isqrt, isqrt_floor, lemma_isqrt_correct, lemma_isqrt_monotone, Vec3};

verus! {

/// Pinch distance at which the fingers touch, in micrometres.
pub const PINCH_TOUCH: u64 = 10_000;

/// Pinch distance at which the hand counts as fully open, in micrometres.
pub const PINCH_OPEN: u64 = 30_000;

/// Identifies one input source among those seen in a frame.
#[derive(Clone, Copy, Debug, PartialEq, Eq, Structural)]
pub struct ActorId(pub u64);

/// A rotation as a quaternion whose components are scaled by one million.
#[derive(Clone, Copy, Debug, PartialEq, Eq, Structural)]
pub struct Orientation {
    pub x: i32,
    pub y: i32,
    pub z: i32,
    pub w: i32,
}

impl Orientation {
    pub fn identity() -> (r: Orientation)
        ensures
            r == (Orientation { x: 0, y: 0, z: 0, w: 1_000_000 }),
    {
        Orientation { x: 0, y: 0, z: 0, w: 1_000_000 }
    }
}

/// The scalar channels an actor reports, in thousandths; `None` where absent.
#[derive(Clone, Copy, Debug, PartialEq, Eq, Structural)]
pub struct Channels {
    pub select: Option<u32>,
    pub grab: Option<u32>,
    pub grab_strength: Option<u32>,
}

/// The pose an actor reports.
#[derive(Clone, Copy, Debug, PartialEq, Eq, Structural)]
pub enum InputSample {
    Hand { thumb_tip: Vec3, index_tip: Vec3, palm: Orientation },
    Tip { origin: Vec3, orientation: Orientation },
    Other,
}

/// One actor as seen in one frame.
#[derive(Clone, Copy, Debug, PartialEq, Eq, Structural)]
pub struct ActorSample {
    pub id: ActorId,
    pub input: InputSample,
    pub channels: Channels,
    /// Distance from the actor to the tool's field, in micrometres.
    pub field_distance: i64,
}

/// Why a sample cannot give a pinch strength.
#[derive(Clone, Copy, Debug, PartialEq, Eq, Structural)]
pub enum InputError {
    /// The sample carries no pose that the tool understands.
    Unsupported,
    /// A channel the sample's kind needs was not reported.
    MissingChannel,
}

impl InputSample {
    pub open spec fn wf(&self) -> bool {
        match *self {
            InputSample::Hand { thumb_tip, index_tip, .. } => thumb_tip.wf() && index_tip.wf(),
            InputSample::Tip { origin, .. } => origin.wf(),
            InputSample::Other => true,
        }
    }
}

/// Pinch distance mapped linearly from touching (`UNIT`) to open (0), clamped.
pub open spec fn pinch_linear(d: int) -> int {
    if d <= PINCH_TOUCH {
        UNIT as int
    } else if d >= PINCH_OPEN {
        0
    } else {
        (PINCH_OPEN - d) * UNIT / (PINCH_OPEN - PINCH_TOUCH)
    }
}

/// Square root on the unit interval: `sqrt(v / UNIT) * UNIT`, rounded down.
pub open spec fn unit_sqrt(v: int) -> int {
    isqrt((v * UNIT) as nat) as int
}

/// Pinch strength of a hand whose thumb and index tips are `d` apart.
pub open spec fn pinch_strength_spec(d: int) -> int {
    unit_sqrt(pinch_linear(d))
}

/// A channel value clamped to the unit interval.
pub open spec fn clamp_unit(v: int) -> int {
    if v > UNIT { UNIT as int } else { v }
}

/// Strength a tip reports through its "select" channel.
pub open spec fn select_strength_spec(v: int, curve: bool) -> int {
    if curve { unit_sqrt(clamp_unit(v)) } else { clamp_unit(v) }
}

proof fn lemma_unit_sqrt_bounds(v: int)
    requires
        0 <= v <= UNIT,
    ensures
        0 <= unit_sqrt(v) <= UNIT,
        v == UNIT ==> unit_sqrt(v) == UNIT,
        v == 0 ==> unit_sqrt(v) == 0,
{
    lemma_isqrt_monotone((v * UNIT) as nat, (UNIT * UNIT) as nat);
    lemma_isqrt_correct((UNIT * UNIT) as nat);
    lemma_isqrt_correct((v * UNIT) as nat);
    let r = isqrt((UNIT * UNIT) as nat) as int;
    if r < UNIT {
        assert((r + 1) * (r + 1) <= UNIT * UNIT) by (nonlinear_arith)
            requires 0 <= r < UNIT;
    } else if r > UNIT {
        assert((UNIT + 1) * (UNIT + 1) <= r * r) by (nonlinear_arith)
            requires r > UNIT;
    }
    if v == 0 {
        let z = isqrt(0) as int;
        assert(z * z <= 0);
        assert(z == 0) by (nonlinear_arith)
            requires z * z <= 0, z >= 0;
    }
}

/// Pinch strength of a hand whose finger tips are `d` micrometres apart.
pub fn pinch_strength(d: u64) -> (r: u32)
    ensures
        r == pinch_strength_spec(d as int),
        r <= UNIT,
{
    let lin: u64 = if d <= PINCH_TOUCH {
        UNIT as u64
    } else if d >= PINCH_OPEN {
        0
    } else {
        assert((PINCH_OPEN - d) * UNIT <= PINCH_OPEN * UNIT) by (nonlinear_arith)
            requires d <= PINCH_OPEN;
        (PINCH_OPEN - d) * (UNIT as u64) / (PINCH_OPEN - PINCH_TOUCH)
    };
    proof {
        lemma_pinch_linear_bounds(d as int);
        lemma_unit_sqrt_bounds(lin as int);
    }
    isqrt_floor(lin * (UNIT as u64)) as u32
}

/// Strength of a tip whose "select" channel reads `v`.
pub fn select_strength(v: u32, curve: bool) -> (r: u32)
    ensures
        r == select_strength_spec(v as int, curve),
        r <= UNIT,
{
    let c: u32 = if v > UNIT { UNIT } else { v };
    if curve {
        proof {
            lemma_unit_sqrt_bounds(c as int);
        }
        isqrt_floor((c as u64) * (UNIT as u64)) as u32
    } else {
        c
    }
}

/// What `classify` gives for a sample: a hand's pinch strength, a tip's
/// "select" strength, or the reason there is none.
pub open spec fn classify_spec(input: InputSample, channels: Channels, cfg: Config) -> Result<u32, InputError> {
    match input {
        InputSample::Hand { thumb_tip, index_tip, .. } =>
            Ok(pinch_strength_spec(distance(thumb_tip, index_tip) as int) as u32),
        InputSample::Tip { .. } => match channels.select {
            Some(v) => Ok(select_strength_spec(v as int, cfg.tip_curve) as u32),
            None => Err(InputError::MissingChannel),
        },
        InputSample::Other => Err(InputError::Unsupported),
    }
}

/// Pinch strength of one sample, in thousandths.
pub fn classify(input: &InputSample, channels: &Channels, cfg: &Config) -> (r: Result<u32, InputError>)
    requires
        input.wf(),
    ensures
        r == classify_spec(*input, *channels, *cfg),
        r is Ok ==> r->Ok_0 <= UNIT,
{
    match input {
        InputSample::Hand { thumb_tip, index_tip, .. } => Ok(pinch_strength(distance_floor(*thumb_tip, *index_tip))),
        InputSample::Tip { .. } => match channels.select {
            Some(v) => Ok(select_strength(v, cfg.tip_curve)),
            None => Err(InputError::MissingChannel),
        },
        InputSample::Other => Err(InputError::Unsupported),
    }
}

/// Pinch strength stays within the unit interval, never grows as the fingers
/// part, is full when they touch and nothing when the hand is open.
pub proof fn lemma_pinch_strength_law(d1: int, d2: int)
    requires
        0 <= d1 <= d2,
    ensures
        0 <= pinch_strength_spec(d1) <= UNIT,
        pinch_strength_spec(d2) <= pinch_strength_spec(d1),
        pinch_strength_spec(PINCH_TOUCH as int) == UNIT,
        pinch_strength_spec(PINCH_OPEN as int) == 0,
{
    assert(0 <= pinch_linear(d2) <= pinch_linear(d1) <= UNIT) by {
        if PINCH_TOUCH < d1 < PINCH_OPEN && PINCH_TOUCH < d2 < PINCH_OPEN {
            assert((PINCH_OPEN - d2) * UNIT <= (PINCH_OPEN - d1) * UNIT) by (nonlinear_arith)
                requires d1 <= d2;
            assert((PINCH_OPEN - d1) * UNIT <= (PINCH_OPEN - PINCH_TOUCH) * UNIT) by (nonlinear_arith)
                requires d1 > PINCH_TOUCH;
            lemma_div_le((PINCH_OPEN - d2) * UNIT, (PINCH_OPEN - d1) * UNIT, (PINCH_OPEN - PINCH_TOUCH) as int);
        }
        lemma_pinch_linear_bounds(d1);
        lemma_pinch_linear_bounds(d2);
    }
    lemma_unit_sqrt_bounds(pinch_linear(d1));
    lemma_unit_sqrt_bounds(pinch_linear(d2));
    lemma_unit_sqrt_bounds(UNIT as int);
    lemma_unit_sqrt_bounds(0);
    lemma_isqrt_monotone((pinch_linear(d2) * UNIT) as nat, (pinch_linear(d1) * UNIT) as nat);
}

proof fn lemma_pinch_linear_bounds(d: int)
    ensures
        0 <= pinch_linear(d) <= UNIT,
{
    if PINCH_TOUCH < d < PINCH_OPEN {
        assert((PINCH_OPEN - d) * UNIT <= (PINCH_OPEN - PINCH_TOUCH) * UNIT) by (nonlinear_arith)
            requires d > PINCH_TOUCH;
        lemma_div_le((PINCH_OPEN - d) * UNIT, (PINCH_OPEN - PINCH_TOUCH) * UNIT, (PINCH_OPEN - PINCH_TOUCH) as int);
        assert(((PINCH_OPEN - PINCH_TOUCH) * UNIT) / ((PINCH_OPEN - PINCH_TOUCH) as int) == UNIT);
    }
}

proof fn lemma_div_le(a: int, b: int, c: int)
    requires
        0 <= a <= b,
        c > 0,
    ensures
        a / c <= b / c,
{
    vstd::arithmetic::div_mod::lemma_div_is_ordered(a, b, c);
}

} // verus!
