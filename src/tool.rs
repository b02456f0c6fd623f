use vstd::prelude::*;
use crate::config::Config;
use crate::engine::{resolves, snapshot_wf, ActionEngine, DrawPhase, FrameOutput};
use crate::geometry::{mid, midpoint_coord, Vec3};
use crate::input::{classify, classify_spec, ActorSample, InputSample, Orientation};
use crate::session::{step_spec, PenEvent, PenSessionState};

verus! {

/// Where the tool sits on the actor holding it: between a hand's thumb and
/// index tips with the palm's orientation, or at a tip's origin.
pub open spec fn worn_pose(a: ActorSample, prev_pos: Vec3, prev_rot: Orientation) -> (Vec3, Orientation) {
    match a.input {
        InputSample::Hand { thumb_tip, index_tip, palm } => (
            Vec3 {
                x: mid(thumb_tip.x as int, index_tip.x as int) as i64,
                y: mid(thumb_tip.y as int, index_tip.y as int) as i64,
                z: mid(thumb_tip.z as int, index_tip.z as int) as i64,
            },
            palm,
        ),
        InputSample::Tip { origin, orientation } => (origin, orientation),
        InputSample::Other => (prev_pos, prev_rot),
    }
}

/// The recorder's event for a draw phase; a strength that could not be read
/// counts as none (the draw predicate fails on such a sample, so it only
/// reaches the phases that carry no strength).
pub open spec fn phase_event(phase: DrawPhase, strength: Result<u32, crate::input::InputError>) -> PenEvent {
    let s = match strength {
        Ok(v) => v,
        Err(_) => 0,
    };
    match phase {
        DrawPhase::Idle => PenEvent::Grabbed,
        DrawPhase::Started => PenEvent::StartedDrawing(s),
        DrawPhase::Continuing => PenEvent::Drawing(s),
        DrawPhase::Stopped => PenEvent::StoppedDrawing,
    }
}

/// What a frame's action output tells the recorder: a release, an event of
/// the holder at its worn pose, or nothing while the tool lies idle.
pub open spec fn pen_update(out: FrameOutput, prev_pos: Vec3, prev_rot: Orientation, cfg: Config) -> Option<(PenEvent, Vec3, Orientation)> {
    if out.grab_stopped {
        Some((PenEvent::Released, prev_pos, prev_rot))
    } else {
        match out.holder {
            Some(h) => {
                let pose = worn_pose(h, prev_pos, prev_rot);
                Some((phase_event(out.draw, classify_spec(h.input, h.channels, cfg)), pose.0, pose.1))
            },
            None => None,
        }
    }
}

fn worn(a: &ActorSample, prev_pos: Vec3, prev_rot: Orientation) -> (r: (Vec3, Orientation))
    requires
        a.input.wf(),
        prev_pos.wf(),
    ensures
        r == worn_pose(*a, prev_pos, prev_rot),
        r.0.wf(),
{
    match a.input {
        InputSample::Hand { thumb_tip, index_tip, palm } => (
            Vec3 {
                x: midpoint_coord(thumb_tip.x, index_tip.x),
                y: midpoint_coord(thumb_tip.y, index_tip.y),
                z: midpoint_coord(thumb_tip.z, index_tip.z),
            },
            palm,
        ),
        InputSample::Tip { origin, orientation } => (origin, orientation),
        InputSample::Other => (prev_pos, prev_rot),
    }
}

/// One frame of the drawing tool: resolves the actions over `snap`, then
/// applies the holder's gesture to the session.
pub fn frame(
    engine: &mut ActionEngine,
    session: &mut PenSessionState,
    snap: &Vec<ActorSample>,
    now: u64,
    cfg: &Config,
) -> (out: FrameOutput)
    requires
        snapshot_wf(snap@),
        old(session)@.wf(),
        cfg.wf(),
    ensures
        resolves(*old(engine), *final(engine), out, snap@, now, *cfg),
        final(session)@.wf(),
        final(session)@ == match pen_update(out, old(session).pen_pos, old(session).pen_rot, *cfg) {
            Some((ev, pos, rot)) => step_spec(old(session)@, ev, pos, rot, now, *cfg),
            None => old(session)@,
        },
{
    let out = engine.step(snap, now, cfg);
    if out.grab_stopped {
        let pos = session.pen_pos;
        let rot = session.pen_rot;
        session.apply(PenEvent::Released, pos, rot, now, cfg);
    } else {
        match &out.holder {
            Some(h) => {
                assert(snap@.contains(*h));
                let pose = worn(h, session.pen_pos, session.pen_rot);
                let s = match classify(&h.input, &h.channels, cfg) {
                    Ok(v) => v,
                    Err(_) => 0,
                };
                let ev = match out.draw {
                    DrawPhase::Idle => PenEvent::Grabbed,
                    DrawPhase::Started => PenEvent::StartedDrawing(s),
                    DrawPhase::Continuing => PenEvent::Drawing(s),
                    DrawPhase::Stopped => PenEvent::StoppedDrawing,
                };
                session.apply(ev, pose.0, pose.1, now, cfg);
            },
            None => {},
        }
    }
    out
}

} // verus!
