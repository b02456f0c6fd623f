use vstd::prelude::*;

verus! {

/// Scale of the fixed-point unit interval: `UNIT` stands for 1.0.
pub const UNIT: u32 = 1000;

/// Largest base thickness accepted, in micrometres (one metre).
pub const THICKNESS_LIMIT: u32 = 1_000_000;

/// Thresholds and switches of the drawing tool.
///
/// Lengths are in micrometres, times in microseconds, and channel values in
/// thousandths (`UNIT` is 1.0).
#[derive(Clone, Copy, Debug, PartialEq, Eq, Structural)]
pub struct Config {
    /// An actor hovers while its distance to the tool's field is below this.
    pub max_distance: i64,
    /// Base line thickness; a point's thickness is this times pinch strength.
    pub thickness: u32,
    /// A point closer than this to the last committed one is dropped.
    pub move_resolution: u64,
    /// Most points one stroke may hold.
    pub segment_ceiling: u64,
    /// Whether the lazy-brush cursor is committed instead of the raw position.
    pub smoothing: bool,
    /// Distance the raw position must lead the lazy-brush cursor before it moves.
    pub smoothing_threshold: u64,
    /// A draw that starts sooner than this after the last stop continues the stroke.
    pub debounce_window: u64,
    /// A hand draws while its pinch distance is below this.
    pub pinch_draw_threshold: u64,
    /// A tip draws while its "select" channel exceeds this.
    pub select_draw_threshold: u32,
    /// An actor grabs while its grab channel exceeds this.
    pub grab_threshold: u32,
    /// Whether a tip's "select" value is square-rooted like a hand's pinch.
    pub tip_curve: bool,
}

impl Config {
    pub open spec fn wf(&self) -> bool {
        &&& self.segment_ceiling >= 1
        &&& self.thickness <= THICKNESS_LIMIT
        &&& self.smoothing_threshold <= 1_000_000_000
        &&& self.move_resolution <= 1_000_000_000
    }

    /// The default thresholds, with segmentation at 128 points and smoothing off.
    pub fn standard() -> (r: Config)
        ensures
            r == standard_config(),
            r.wf(),
    {
        Config {
            max_distance: 50_000,
            thickness: 5_000,
            move_resolution: 1_000,
            segment_ceiling: 128,
            smoothing: false,
            smoothing_threshold: 8_000,
            debounce_window: 33_334,
            pinch_draw_threshold: 30_000,
            select_draw_threshold: 10,
            grab_threshold: 900,
            tip_curve: false,
        }
    }
}

/// The default thresholds: hover within 5 cm, 5 mm lines, 1 mm motion filter,
/// 128-point strokes, smoothing off (8 mm when on), a 1/30 s debounce, drawing
/// below a 3 cm pinch or above a 0.01 select, grabbing above 0.90.
pub open spec fn standard_config() -> Config {
    Config {
        max_distance: 50_000,
        thickness: 5_000,
        move_resolution: 1_000,
        segment_ceiling: 128,
        smoothing: false,
        smoothing_threshold: 8_000,
        debounce_window: 33_334,
        pinch_draw_threshold: 30_000,
        select_draw_threshold: 10,
        grab_threshold: 900,
        tip_curve: false,
    }
}

impl Default for Config {
    fn default() -> (r: Config)
        ensures
            r == standard_config(),
    {
        Config::standard()
    }
}

} // verus!
