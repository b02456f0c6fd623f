use comet::codec::{decode_words, deserialize, encode_words, from_bytes, load, serialize, to_bytes, MAGIC};
use comet::config::Config;
use comet::engine::{difference, members, Action, ActionEngine, DrawPhase, GrabState};
use comet::geometry::{distance_floor, distance_squared, isqrt_ceil, isqrt_floor, midpoint_coord, Vec3};
use comet::input::{
    classify, pinch_strength, select_strength, ActorId, ActorSample, Channels, InputError, InputSample, Orientation,
};
use comet::session::{ink, thickness_at, Color, PenEvent, PenSessionState, Point, Stroke};
use comet::smoothing::smooth;
use comet::tool::frame;

fn v(x: i64, y: i64, z: i64) -> Vec3 {
    Vec3::new(x, y, z)
}

fn tip(id: u64, origin: Vec3, select: u32, grab: u32, field_distance: i64) -> ActorSample {
    ActorSample {
        id: ActorId(id),
        input: InputSample::Tip { origin, orientation: Orientation::identity() },
        channels: Channels { select: Some(select), grab: Some(grab), grab_strength: None },
        field_distance,
    }
}

fn hand(id: u64, thumb: Vec3, index: Vec3, grab_strength: u32) -> ActorSample {
    ActorSample {
        id: ActorId(id),
        input: InputSample::Hand { thumb_tip: thumb, index_tip: index, palm: Orientation::identity() },
        channels: Channels { select: None, grab: None, grab_strength: Some(grab_strength) },
        field_distance: 0,
    }
}

fn no_channels() -> Channels {
    Channels { select: None, grab: None, grab_strength: None }
}

#[test]
fn square_roots() {
    assert_eq!(isqrt_floor(0), 0);
    assert_eq!(isqrt_floor(15), 3);
    assert_eq!(isqrt_floor(16), 4);
    assert_eq!(isqrt_floor(u64::MAX), 4_294_967_295);
    assert_eq!(isqrt_ceil(10), 4);
    assert_eq!(isqrt_ceil(16), 4);
    assert_eq!(isqrt_ceil(0), 0);
}

#[test]
fn distances_and_midpoints() {
    assert_eq!(distance_squared(v(0, 0, 0), v(3, 4, 12)), 169);
    assert_eq!(distance_floor(v(0, 0, 0), v(3, 4, 12)), 13);
    assert_eq!(distance_floor(v(-1_000_000_000, 0, 0), v(1_000_000_000, 0, 0)), 2_000_000_000);
    assert_eq!(midpoint_coord(3, 8), 5);
    assert_eq!(midpoint_coord(-3, -8), -6);
    assert_eq!(midpoint_coord(-3, 8), 2);
}

#[test]
fn pinch_strength_ends_and_curve() {
    assert_eq!(pinch_strength(0), 1000);
    assert_eq!(pinch_strength(10_000), 1000);
    assert_eq!(pinch_strength(30_000), 0);
    assert_eq!(pinch_strength(50_000), 0);
    // halfway: linear 0.5, square-rooted to 0.707
    assert_eq!(pinch_strength(20_000), 707);
    assert_eq!(pinch_strength(25_000), 500);
}

#[test]
fn pinch_strength_never_rises_with_distance() {
    let mut prev = pinch_strength(0);
    let mut d: u64 = 0;
    while d <= 40_000 {
        let s = pinch_strength(d);
        assert!(s <= 1000);
        assert!(s <= prev);
        prev = s;
        d += 250;
    }
}

#[test]
fn select_strength_clamps_and_curves() {
    assert_eq!(select_strength(1000, false), 1000);
    assert_eq!(select_strength(1500, false), 1000);
    assert_eq!(select_strength(250, false), 250);
    assert_eq!(select_strength(250, true), 500);
    assert_eq!(select_strength(0, true), 0);
}

#[test]
fn classify_each_kind() {
    let cfg = Config::standard();
    let h = hand(1, v(0, 0, 0), v(20_000, 0, 0), 0);
    assert_eq!(classify(&h.input, &h.channels, &cfg), Ok(707));
    let t = tip(2, v(0, 0, 0), 640, 0, 0);
    assert_eq!(classify(&t.input, &t.channels, &cfg), Ok(640));
    let curved = Config { tip_curve: true, ..cfg };
    assert_eq!(classify(&t.input, &t.channels, &curved), Ok(800));
}

#[test]
fn classify_rejects_unsupported_input() {
    let cfg = Config::standard();
    assert_eq!(classify(&InputSample::Other, &no_channels(), &cfg), Err(InputError::Unsupported));
}

#[test]
fn classify_rejects_missing_channel() {
    let cfg = Config::standard();
    let t = InputSample::Tip { origin: v(0, 0, 0), orientation: Orientation::identity() };
    assert_eq!(classify(&t, &no_channels(), &cfg), Err(InputError::MissingChannel));
}

#[test]
fn set_difference_and_membership() {
    let a = vec![ActorId(1), ActorId(2), ActorId(3)];
    let b = vec![ActorId(2)];
    assert_eq!(difference(&a, &b), vec![ActorId(1), ActorId(3)]);
    assert_eq!(difference(&b, &a), Vec::<ActorId>::new());
    let cfg = Config::standard();
    let snap = vec![tip(1, v(0, 0, 0), 0, 0, 10_000), tip(2, v(0, 0, 0), 500, 0, 90_000)];
    assert_eq!(members(&snap, Action::Hover, &cfg), vec![ActorId(1)]);
    assert_eq!(members(&snap, Action::Draw, &cfg), vec![ActorId(2)]);
}

#[test]
fn grab_needs_hover_to_start() {
    let cfg = Config::standard();
    let mut engine = ActionEngine::new();
    let far = vec![tip(1, v(0, 0, 0), 0, 1000, 90_000)];
    let out = engine.step(&far, 1, &cfg);
    assert!(out.holder.is_none());
    assert_eq!(engine.grab, GrabState::Idle);
    let near = vec![tip(1, v(0, 0, 0), 0, 1000, 10_000)];
    let out = engine.step(&near, 2, &cfg);
    assert!(out.grab_started);
    assert_eq!(engine.grab, GrabState::Held { actor: ActorId(1), since: 2 });
    assert_eq!(out.hover_started, vec![ActorId(1)]);
}

#[test]
fn grab_is_exclusive() {
    let cfg = Config::standard();
    let mut engine = ActionEngine::new();
    let a = tip(1, v(0, 0, 0), 0, 1000, 0);
    let b = tip(2, v(0, 0, 0), 0, 1000, 0);
    engine.step(&vec![a], 1, &cfg);
    assert_eq!(engine.grab, GrabState::Held { actor: ActorId(1), since: 1 });
    for now in 2..10u64 {
        let out = engine.step(&vec![b, a], now, &cfg);
        assert_eq!(out.holder.unwrap().id, ActorId(1));
        assert_eq!(engine.grab, GrabState::Held { actor: ActorId(1), since: 1 });
    }
    // a lets go: the tool goes idle for a frame, then b may take it
    let a_open = tip(1, v(0, 0, 0), 0, 0, 0);
    let out = engine.step(&vec![b, a_open], 10, &cfg);
    assert!(out.grab_stopped);
    assert!(out.holder.is_none());
    assert_eq!(engine.last_release, Some(10));
    engine.step(&vec![b, a_open], 11, &cfg);
    assert_eq!(engine.grab, GrabState::Held { actor: ActorId(2), since: 11 });
}

#[test]
fn grab_threshold_is_strict() {
    let cfg = Config::standard();
    let mut engine = ActionEngine::new();
    engine.step(&vec![tip(1, v(0, 0, 0), 0, 900, 0)], 1, &cfg);
    assert_eq!(engine.grab, GrabState::Idle);
    engine.step(&vec![tip(1, v(0, 0, 0), 0, 901, 0)], 2, &cfg);
    assert!(matches!(engine.grab, GrabState::Held { .. }));
}

#[test]
fn draw_phases_follow_the_holder() {
    let cfg = Config::standard();
    let mut engine = ActionEngine::new();
    let phases: Vec<DrawPhase> = [0u32, 500, 500, 0, 0]
        .iter()
        .enumerate()
        .map(|(i, s)| engine.step(&vec![tip(1, v(0, 0, 0), *s, 1000, 0)], i as u64, &cfg).draw)
        .collect();
    assert_eq!(phases, vec![DrawPhase::Idle, DrawPhase::Started, DrawPhase::Continuing, DrawPhase::Stopped, DrawPhase::Idle]);
}

#[test]
fn hand_pinch_draws() {
    let cfg = Config::standard();
    let mut engine = ActionEngine::new();
    let open = hand(1, v(0, 0, 0), v(40_000, 0, 0), 1000);
    let pinched = hand(1, v(0, 0, 0), v(5_000, 0, 0), 1000);
    assert_eq!(engine.step(&vec![open], 0, &cfg).draw, DrawPhase::Idle);
    assert_eq!(engine.step(&vec![pinched], 1, &cfg).draw, DrawPhase::Started);
}

#[test]
fn thickness_scales_with_strength() {
    assert_eq!(thickness_at(5_000, 1000), 5_000);
    assert_eq!(thickness_at(5_000, 500), 2_500);
    assert_eq!(thickness_at(5_000, 0), 0);
    assert_eq!(thickness_at(5_000, 4000), 5_000);
}

fn draw_run(session: &mut PenSessionState, cfg: &Config, n: i64, start_time: u64) {
    for i in 0..n {
        let ev = if i == 0 { PenEvent::StartedDrawing(1000) } else { PenEvent::Drawing(1000) };
        session.apply(ev, v(10_000 * i, 0, 0), Orientation::identity(), start_time + i as u64, cfg);
    }
}

#[test]
fn segmentation_splits_at_ceiling() {
    let cfg = Config { segment_ceiling: 350, ..Config::standard() };
    let mut s = PenSessionState::new(5_000);
    draw_run(&mut s, &cfg, 400, 0);
    assert_eq!(s.strokes.len(), 2);
    assert_eq!(s.strokes[0].points.len(), 350);
    assert_eq!(s.strokes[1].points.len(), 50);
    // the 351st point computed
    assert_eq!(s.strokes[1].points[0].position, v(10_000 * 350, 0, 0));
    assert_eq!(s.strokes[0].points[349].position, v(10_000 * 349, 0, 0));
}

#[test]
fn segmentation_bound_holds_with_small_ceiling() {
    let cfg = Config { segment_ceiling: 3, ..Config::standard() };
    let mut s = PenSessionState::new(5_000);
    draw_run(&mut s, &cfg, 10, 0);
    let lens: Vec<usize> = s.strokes.iter().map(|st| st.points.len()).collect();
    assert_eq!(lens, vec![3, 3, 3, 1]);
}

#[test]
fn sealed_strokes_do_not_change() {
    let cfg = Config::standard();
    let mut s = PenSessionState::new(5_000);
    draw_run(&mut s, &cfg, 5, 0);
    s.apply(PenEvent::StoppedDrawing, v(40_000, 0, 0), Orientation::identity(), 10, &cfg);
    let first: Vec<Point> = s.strokes[0].points.clone();
    for i in 0..5 {
        let ev = if i == 0 { PenEvent::StartedDrawing(500) } else { PenEvent::Drawing(500) };
        s.apply(ev, v(0, 10_000 * i, 0), Orientation::identity(), 1_000_000 + i as u64, &cfg);
    }
    s.apply(PenEvent::Released, v(0, 0, 0), Orientation::identity(), 2_000_000, &cfg);
    assert_eq!(s.strokes.len(), 2);
    assert_eq!(s.strokes[0].points, first);
    assert_eq!(s.strokes[1].points[0].thickness, 2_500);
}

#[test]
fn debounce_continues_within_window() {
    let cfg = Config::standard();
    let mut s = PenSessionState::new(5_000);
    draw_run(&mut s, &cfg, 3, 0);
    s.apply(PenEvent::StoppedDrawing, v(20_000, 0, 0), Orientation::identity(), 100, &cfg);
    s.apply(PenEvent::StartedDrawing(1000), v(30_000, 0, 0), Orientation::identity(), 100 + 33_333, &cfg);
    assert_eq!(s.strokes.len(), 1);
    assert_eq!(s.strokes[0].points.len(), 4);
}

#[test]
fn debounce_opens_new_stroke_after_window() {
    let cfg = Config::standard();
    let mut s = PenSessionState::new(5_000);
    draw_run(&mut s, &cfg, 3, 0);
    s.apply(PenEvent::StoppedDrawing, v(20_000, 0, 0), Orientation::identity(), 100, &cfg);
    s.apply(PenEvent::StartedDrawing(1000), v(30_000, 0, 0), Orientation::identity(), 100 + 33_334, &cfg);
    assert_eq!(s.strokes.len(), 2);
    assert_eq!(s.strokes[1].points.len(), 1);
    assert_eq!(s.strokes[1].points[0].position, v(30_000, 0, 0));
}

#[test]
fn motion_filter_drops_small_moves() {
    let cfg = Config::standard();
    let mut s = PenSessionState::new(5_000);
    s.apply(PenEvent::StartedDrawing(1000), v(0, 0, 0), Orientation::identity(), 0, &cfg);
    s.apply(PenEvent::Drawing(1000), v(999, 0, 0), Orientation::identity(), 1, &cfg);
    assert_eq!(s.strokes[0].points.len(), 1);
    s.apply(PenEvent::Drawing(1000), v(1_000, 0, 0), Orientation::identity(), 2, &cfg);
    assert_eq!(s.strokes[0].points.len(), 2);
}

#[test]
fn drawing_without_stroke_is_ignored() {
    let cfg = Config::standard();
    let mut s = PenSessionState::new(5_000);
    s.apply(PenEvent::Drawing(1000), v(50_000, 0, 0), Orientation::identity(), 0, &cfg);
    assert_eq!(s.strokes.len(), 0);
    assert_eq!(s.pen_pos, v(50_000, 0, 0));
}

#[test]
fn smoothing_limits_each_step() {
    assert_eq!(smooth(v(0, 0, 0), v(20_000, 0, 0), 8_000), v(8_000, 0, 0));
    assert_eq!(smooth(v(0, 0, 0), v(5_000, 0, 0), 8_000), v(0, 0, 0));
    let step = smooth(v(0, 0, 0), v(30_000, 40_000, 0), 8_000);
    assert_eq!(step, v(4_800, 6_400, 0));
    let d = distance_squared(v(0, 0, 0), step);
    assert!(d <= 8_000 * 8_000);
}

#[test]
fn smoothing_converges_to_rest_near_raw() {
    let raw = v(123_456, -65_432, 9_999);
    let mut c = v(0, 0, 0);
    let mut prev = distance_squared(c, raw);
    for _ in 0..100 {
        let next = smooth(c, raw, 8_000);
        assert!(distance_squared(c, next) <= 8_000 * 8_000);
        let d = distance_squared(next, raw);
        assert!(d <= prev);
        prev = d;
        c = next;
    }
    assert!(distance_squared(c, raw) <= 8_000 * 8_000);
    assert_eq!(smooth(c, raw, 8_000), c);
}

#[test]
fn smoothing_commits_cursor() {
    let cfg = Config { smoothing: true, ..Config::standard() };
    let mut s = PenSessionState::new(5_000);
    s.apply(PenEvent::StartedDrawing(1000), v(0, 0, 0), Orientation::identity(), 0, &cfg);
    s.apply(PenEvent::Drawing(1000), v(20_000, 0, 0), Orientation::identity(), 1, &cfg);
    assert_eq!(s.strokes[0].points[1].position, v(8_000, 0, 0));
    assert_eq!(s.cursor, v(8_000, 0, 0));
}

fn sample_session() -> PenSessionState {
    let cfg = Config { segment_ceiling: 4, ..Config::standard() };
    let mut s = PenSessionState::new(5_000);
    for i in 0..6i64 {
        let ev = if i == 0 { PenEvent::StartedDrawing(1000) } else { PenEvent::Drawing(250 * i as u32) };
        s.apply(ev, v(10_000 * i, -20_000 * i, 7), Orientation { x: -5, y: 6, z: 7, w: 999_000 }, i as u64, &cfg);
    }
    s
}

#[test]
fn round_trip_keeps_everything_saved() {
    let s = sample_session();
    let blob = serialize(&s);
    assert_eq!(blob.len() % 8, 0);
    let back = deserialize(&blob).unwrap();
    assert_eq!(back.strokes.len(), s.strokes.len());
    for (a, b) in back.strokes.iter().zip(s.strokes.iter()) {
        assert_eq!(a.points, b.points);
    }
    assert_eq!(back.line_thickness, s.line_thickness);
    assert_eq!(back.pen_pos, s.pen_pos);
    assert_eq!(back.pen_rot, s.pen_rot);
    assert_eq!(back.last_pen_update_pos, s.last_pen_update_pos);
    assert_eq!(back.cursor, s.cursor);
    assert_eq!(back.grab_stopped, None);
    assert!(!back.drawing);
}

#[test]
fn words_and_bytes_agree() {
    let s = sample_session();
    let words = encode_words(&s);
    assert_eq!(words[0], MAGIC);
    assert_eq!(words[1], 2);
    let bytes = to_bytes(&words);
    assert_eq!(bytes.len(), words.len() * 8);
    assert_eq!(bytes[0], (MAGIC & 0xff) as u8);
    assert_eq!(from_bytes(&bytes), Some(words.clone()));
    assert!(from_bytes(&vec![1, 2, 3]).is_none());
    assert!(decode_words(&words).is_some());
}

#[test]
fn older_blob_defaults_cursor() {
    let s = sample_session();
    let mut words = encode_words(&s);
    words[1] = 1;
    words.drain(13..16);
    let back = decode_words(&words).unwrap();
    assert_eq!(back.cursor, v(0, 0, 0));
    assert_eq!(back.pen_pos, s.pen_pos);
    assert_eq!(back.strokes.len(), s.strokes.len());
}

#[test]
fn load_empty_blob_gives_default() {
    let back = load(&Vec::new(), 5_000);
    assert_eq!(back.strokes.len(), 0);
    assert_eq!(back.line_thickness, 5_000);
    assert_eq!(back.pen_pos, v(0, 0, 0));
    assert_eq!(back.pen_rot, Orientation::identity());
}

#[test]
fn load_corrupt_blob_gives_default() {
    let s = sample_session();
    let mut blob = serialize(&s);
    blob.truncate(blob.len() - 8);
    assert!(deserialize(&blob).is_none());
    let back = load(&blob, 5_000);
    assert_eq!(back.strokes.len(), 0);
    let mut foreign = serialize(&s);
    foreign[0] ^= 0xff;
    assert_eq!(load(&foreign, 5_000).strokes.len(), 0);
    let odd = vec![7u8; 13];
    assert_eq!(load(&odd, 5_000).strokes.len(), 0);
}

#[test]
fn load_rejects_huge_stroke_count() {
    let s = PenSessionState::new(5_000);
    let mut words = encode_words(&s);
    words[16] = u64::MAX;
    assert!(decode_words(&words).is_none());
    words[16] = 1;
    words.push(u64::MAX);
    assert!(decode_words(&words).is_none());
}

#[test]
fn tip_draws_one_stroke_over_five_frames() {
    let cfg = Config::standard();
    let mut engine = ActionEngine::new();
    let mut s = PenSessionState::new(cfg.thickness);
    for i in 0..5i64 {
        let a = tip(7, v(10_000 * i, 0, 0), 1000, 1000, 0);
        frame(&mut engine, &mut s, &vec![a], i as u64 * 16_000, &cfg);
    }
    assert_eq!(s.strokes.len(), 1);
    let pts = &s.strokes[0].points;
    assert_eq!(pts.len(), 5);
    for (i, p) in pts.iter().enumerate() {
        assert_eq!(p.thickness, cfg.thickness);
        assert_eq!(p.color, ink());
        if i > 0 {
            assert!(p.position.x > pts[i - 1].position.x);
        }
    }
}

#[test]
fn release_stamps_and_seals() {
    let cfg = Config::standard();
    let mut engine = ActionEngine::new();
    let mut s = PenSessionState::new(cfg.thickness);
    frame(&mut engine, &mut s, &vec![tip(7, v(0, 0, 0), 1000, 1000, 0)], 0, &cfg);
    frame(&mut engine, &mut s, &vec![tip(7, v(10_000, 0, 0), 1000, 1000, 0)], 1, &cfg);
    let out = frame(&mut engine, &mut s, &vec![tip(7, v(20_000, 0, 0), 1000, 0, 0)], 2, &cfg);
    assert!(out.grab_stopped);
    assert!(!s.drawing);
    assert_eq!(s.grab_stopped, Some(2));
    assert_eq!(s.strokes[0].points.len(), 2);
    assert_eq!(s.pen_pos, v(10_000, 0, 0));
}

#[test]
fn hand_pose_is_pinch_midpoint() {
    let cfg = Config::standard();
    let mut engine = ActionEngine::new();
    let mut s = PenSessionState::new(cfg.thickness);
    let h = hand(3, v(0, 0, 0), v(10_000, 2_000, 0), 1000);
    frame(&mut engine, &mut s, &vec![h], 0, &cfg);
    assert_eq!(s.pen_pos, v(5_000, 1_000, 0));
    assert_eq!(s.strokes.len(), 1);
    // tips 10.198 mm apart: strength sqrt(0.990) = 0.994
    assert_eq!(s.strokes[0].points[0].thickness, 4_970);
}

#[test]
fn colors_pack_losslessly() {
    let c = Color { r: 1, g: 2, b: 3, a: 4 };
    assert_eq!(comet::codec::unpack(comet::codec::pack(c)), c);
    assert_eq!(comet::codec::pack(c), 0x0403_0201);
    assert_eq!(comet::codec::from_word(comet::codec::to_word(-5)), -5);
    assert_eq!(comet::codec::to_word(-1), u64::MAX);
    let _ = Stroke { points: Vec::new() };
}
