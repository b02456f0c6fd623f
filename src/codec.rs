use vstd::prelude::*;
use crate::config::THICKNESS_LIMIT;
use crate::geometry::{coord_ok, Vec3};
use crate::input::Orientation;
use crate::session::{strokes_view, Color, PenSessionState, Point, SessionModel, Stroke};

verus! {

/// Eight bytes, least significant first.
pub open spec fn le_bytes(x: u64) -> Seq<u8> {
    seq![
        (x & 0xff) as u8,
        ((x >> 8u64) & 0xff) as u8,
        ((x >> 16u64) & 0xff) as u8,
        ((x >> 24u64) & 0xff) as u8,
        ((x >> 32u64) & 0xff) as u8,
        ((x >> 40u64) & 0xff) as u8,
        ((x >> 48u64) & 0xff) as u8,
        ((x >> 56u64) & 0xff) as u8,
    ]
}

/// The word whose bytes, least significant first, are `b[0..8]`.
pub open spec fn le_word(b0: u8, b1: u8, b2: u8, b3: u8, b4: u8, b5: u8, b6: u8, b7: u8) -> u64 {
    (b0 as u64) | ((b1 as u64) << 8u64) | ((b2 as u64) << 16u64) | ((b3 as u64) << 24u64)
        | ((b4 as u64) << 32u64) | ((b5 as u64) << 40u64) | ((b6 as u64) << 48u64) | ((b7 as u64) << 56u64)
}

proof fn lemma_le_round_trip(x: u64)
    ensures
        le_word(
            (x & 0xff) as u8,
            ((x >> 8u64) & 0xff) as u8,
            ((x >> 16u64) & 0xff) as u8,
            ((x >> 24u64) & 0xff) as u8,
            ((x >> 32u64) & 0xff) as u8,
            ((x >> 40u64) & 0xff) as u8,
            ((x >> 48u64) & 0xff) as u8,
            ((x >> 56u64) & 0xff) as u8,
        ) == x,
{
    let b0 = (x & 0xff) as u8;
    let b1 = ((x >> 8u64) & 0xff) as u8;
    let b2 = ((x >> 16u64) & 0xff) as u8;
    let b3 = ((x >> 24u64) & 0xff) as u8;
    let b4 = ((x >> 32u64) & 0xff) as u8;
    let b5 = ((x >> 40u64) & 0xff) as u8;
    let b6 = ((x >> 48u64) & 0xff) as u8;
    let b7 = ((x >> 56u64) & 0xff) as u8;
    assert(x & 0xff < 256 && (x >> 8u64) & 0xff < 256 && (x >> 16u64) & 0xff < 256 && (x >> 24u64) & 0xff < 256
        && (x >> 32u64) & 0xff < 256 && (x >> 40u64) & 0xff < 256 && (x >> 48u64) & 0xff < 256
        && (x >> 56u64) & 0xff < 256) by (bit_vector);
    assert(b0 as u64 == x & 0xff);
    assert(b1 as u64 == (x >> 8u64) & 0xff);
    assert(b2 as u64 == (x >> 16u64) & 0xff);
    assert(b3 as u64 == (x >> 24u64) & 0xff);
    assert(b4 as u64 == (x >> 32u64) & 0xff);
    assert(b5 as u64 == (x >> 40u64) & 0xff);
    assert(b6 as u64 == (x >> 48u64) & 0xff);
    assert(b7 as u64 == (x >> 56u64) & 0xff);
    let c0 = b0 as u64;
    let c1 = b1 as u64;
    let c2 = b2 as u64;
    let c3 = b3 as u64;
    let c4 = b4 as u64;
    let c5 = b5 as u64;
    let c6 = b6 as u64;
    let c7 = b7 as u64;
    assert(c0 | (c1 << 8u64) | (c2 << 16u64) | (c3 << 24u64) | (c4 << 32u64) | (c5 << 40u64) | (c6 << 48u64) | (c7 << 56u64) == x)
        by (bit_vector)
        requires
            c0 == x & 0xff,
            c1 == (x >> 8u64) & 0xff,
            c2 == (x >> 16u64) & 0xff,
            c3 == (x >> 24u64) & 0xff,
            c4 == (x >> 32u64) & 0xff,
            c5 == (x >> 40u64) & 0xff,
            c6 == (x >> 48u64) & 0xff,
            c7 == (x >> 56u64) & 0xff;
}

/// A colour packed into the low 32 bits of a word, red lowest.
pub open spec fn pack_color(c: Color) -> u64 {
    (c.r as u64) | ((c.g as u64) << 8u64) | ((c.b as u64) << 16u64) | ((c.a as u64) << 24u64)
}

pub open spec fn unpack_color(w: u64) -> Color {
    Color {
        r: (w & 0xff) as u8,
        g: ((w >> 8u64) & 0xff) as u8,
        b: ((w >> 16u64) & 0xff) as u8,
        a: ((w >> 24u64) & 0xff) as u8,
    }
}

proof fn lemma_color_round_trip(c: Color)
    ensures
        unpack_color(pack_color(c)) == c,
        pack_color(c) <= 0xffff_ffff,
{
    let r = c.r as u64;
    let g = c.g as u64;
    let b = c.b as u64;
    let a = c.a as u64;
    let w = pack_color(c);
    assert(w & 0xff < 256 && (w >> 8u64) & 0xff < 256 && (w >> 16u64) & 0xff < 256 && (w >> 24u64) & 0xff < 256) by (bit_vector);
    assert(w & 0xff == r && (w >> 8u64) & 0xff == g && (w >> 16u64) & 0xff == b && (w >> 24u64) & 0xff == a && w <= 0xffff_ffff)
        by (bit_vector)
        requires
            r < 256, g < 256, b < 256, a < 256,
            w == r | (g << 8u64) | (b << 16u64) | (a << 24u64);
}

pub fn pack(c: Color) -> (r: u64)
    ensures
        r == pack_color(c),
{
    (c.r as u64) | ((c.g as u64) << 8u64) | ((c.b as u64) << 16u64) | ((c.a as u64) << 24u64)
}

pub fn unpack(w: u64) -> (r: Color)
    ensures
        r == unpack_color(w),
{
    Color {
        r: (w & 0xff) as u8,
        g: ((w >> 8u64) & 0xff) as u8,
        b: ((w >> 16u64) & 0xff) as u8,
        a: ((w >> 24u64) & 0xff) as u8,
    }
}

/// A signed value as a word, in two's complement.
pub open spec fn word_of(x: i64) -> u64 {
    if x >= 0 { x as u64 } else { (x + 0x1_0000_0000_0000_0000int) as u64 }
}

/// The signed value a word holds in two's complement.
pub open spec fn signed_of(w: u64) -> i64 {
    if w <= 0x7fff_ffff_ffff_ffff { w as i64 } else { (w - 0x1_0000_0000_0000_0000int) as i64 }
}

pub fn to_word(x: i64) -> (r: u64)
    ensures
        r == word_of(x),
        signed_of(r) == x,
{
    if x >= 0 { x as u64 } else { u64::MAX - ((-(x + 1)) as u64) }
}

pub fn from_word(w: u64) -> (r: i64)
    ensures
        r == signed_of(w),
{
    if w <= 0x7fff_ffff_ffff_ffff { w as i64 } else { -((u64::MAX - w) as i64) - 1 }
}

/// First word of every blob.
pub const MAGIC: u64 = 0x434f_4d45_5450_454e;

/// The layout written today; it adds the lazy-brush cursor to the first one.
pub const FORMAT_VERSION: u64 = 2;

/// Words before the stroke count in a blob of version `v`.
pub open spec fn header_len(v: u64) -> int {
    if v == 1 { 13 } else { 16 }
}

pub open spec fn enc_vec(v: Vec3) -> Seq<u64> {
    seq![word_of(v.x), word_of(v.y), word_of(v.z)]
}

pub open spec fn enc_point(p: Point) -> Seq<u64> {
    enc_vec(p.position) + seq![p.thickness as u64, pack_color(p.color)]
}

pub open spec fn enc_points(ps: Seq<Point>) -> Seq<u64>
    decreases ps.len(),
{
    if ps.len() == 0 {
        Seq::empty()
    } else {
        enc_points(ps.drop_last()) + enc_point(ps.last())
    }
}

/// A stroke: its point count, then five words per point.
pub open spec fn enc_stroke(ps: Seq<Point>) -> Seq<u64> {
    seq![ps.len() as u64] + enc_points(ps)
}

pub open spec fn enc_strokes(ss: Seq<Seq<Point>>) -> Seq<u64>
    decreases ss.len(),
{
    if ss.len() == 0 {
        Seq::empty()
    } else {
        enc_strokes(ss.drop_last()) + enc_stroke(ss.last())
    }
}

pub open spec fn enc_header(m: SessionModel) -> Seq<u64> {
    seq![MAGIC, FORMAT_VERSION, m.line_thickness as u64]
        + enc_vec(m.pen_pos)
        + seq![word_of(m.pen_rot.x as i64), word_of(m.pen_rot.y as i64), word_of(m.pen_rot.z as i64), word_of(m.pen_rot.w as i64)]
        + enc_vec(m.last_pen_update_pos)
        + enc_vec(m.cursor)
}

/// The words a session is saved as: header, stroke count, strokes.
pub open spec fn encode_spec(m: SessionModel) -> Seq<u64> {
    enc_header(m) + seq![m.strokes.len() as u64] + enc_strokes(m.strokes)
}

pub open spec fn vec_at(w: Seq<u64>, q: int) -> Vec3 {
    Vec3 { x: signed_of(w[q]), y: signed_of(w[q + 1]), z: signed_of(w[q + 2]) }
}

pub open spec fn point_at(w: Seq<u64>, q: int) -> Point {
    Point { position: vec_at(w, q), thickness: w[q + 3] as u32, color: unpack_color(w[q + 4]) }
}

pub open spec fn point_ok(w: Seq<u64>, q: int) -> bool {
    w[q + 3] <= 0xffff_ffff
}

/// The stroke that starts at word `p`, and the word after it.
pub open spec fn parse_stroke(w: Seq<u64>, p: int) -> Option<(Seq<Point>, int)> {
    if 0 <= p < w.len() && p + 1 + 5 * w[p] <= w.len()
        && forall|i: int| 0 <= i < w[p] ==> #[trigger] point_ok(w, p + 1 + 5 * i) {
        Some((Seq::new(w[p] as nat, |i: int| point_at(w, p + 1 + 5 * i)), p + 1 + 5 * w[p]))
    } else {
        None
    }
}

/// The first `k` strokes from word `start`, and the word after them.
pub open spec fn parse_strokes(w: Seq<u64>, start: int, k: nat) -> Option<(Seq<Seq<Point>>, int)>
    decreases k,
{
    if k == 0 {
        Some((Seq::empty(), start))
    } else {
        match parse_strokes(w, start, (k - 1) as nat) {
            Some((ss, p)) => match parse_stroke(w, p) {
                Some((st, q)) => Some((ss.push(st), q)),
                None => None,
            },
            None => None,
        }
    }
}

pub open spec fn rot_ok(w: Seq<u64>, q: int) -> bool {
    forall|i: int| q <= i < q + 4 ==> i32::MIN <= #[trigger] signed_of(w[i]) <= i32::MAX
}

pub open spec fn vec_ok(w: Seq<u64>, q: int) -> bool {
    vec_at(w, q).wf()
}

/// The header fields of a blob of version `v` hold values a session may have.
pub open spec fn header_ok(w: Seq<u64>, v: u64) -> bool {
    &&& w[2] <= THICKNESS_LIMIT
    &&& vec_ok(w, 3)
    &&& rot_ok(w, 6)
    &&& vec_ok(w, 10)
    &&& v == 2 ==> vec_ok(w, 13)
}

/// The session a well-formed blob of words holds: the header as saved, the
/// cursor at the origin where the blob predates it, nothing drawing.
pub open spec fn parse_spec(w: Seq<u64>) -> Option<SessionModel> {
    if w.len() >= 2 && w[0] == MAGIC && (w[1] == 1 || w[1] == 2) && w.len() > header_len(w[1])
        && header_ok(w, w[1]) {
        let h = header_len(w[1]);
        match parse_strokes(w, h + 1, w[h] as nat) {
            Some((ss, end)) => if end == w.len() {
                Some(SessionModel {
                    strokes: ss,
                    line_thickness: w[2] as u32,
                    pen_pos: vec_at(w, 3),
                    pen_rot: Orientation {
                        x: signed_of(w[6]) as i32,
                        y: signed_of(w[7]) as i32,
                        z: signed_of(w[8]) as i32,
                        w: signed_of(w[9]) as i32,
                    },
                    last_pen_update_pos: vec_at(w, 10),
                    cursor: if w[1] == 2 { vec_at(w, 13) } else { Vec3 { x: 0, y: 0, z: 0 } },
                    grab_stopped: None,
                    drawing: false,
                })
            } else {
                None
            },
            None => None,
        }
    } else {
        None
    }
}

/// What of a session is saved: all but the clock stamp and the gesture flag.
pub open spec fn persisted(m: SessionModel) -> SessionModel {
    SessionModel { grab_stopped: None, drawing: false, ..m }
}

/// Counts fit in a word.
pub open spec fn persistable(m: SessionModel) -> bool {
    &&& m.wf()
    &&& m.strokes.len() <= u64::MAX
    &&& forall|i: int| 0 <= i < m.strokes.len() ==> (#[trigger] m.strokes[i]).len() <= u64::MAX
}

proof fn lemma_enc_points(ps: Seq<Point>, i: int)
    requires
        0 <= i < ps.len(),
    ensures
        enc_points(ps).len() == 5 * ps.len(),
        enc_points(ps).subrange(5 * i, 5 * i + 5) == enc_point(ps[i]),
    decreases ps.len(),
{
    lemma_enc_points_len(ps);
    if i < ps.len() - 1 {
        lemma_enc_points(ps.drop_last(), i);
        assert(enc_points(ps).subrange(5 * i, 5 * i + 5) =~= enc_points(ps.drop_last()).subrange(5 * i, 5 * i + 5));
    } else {
        lemma_enc_points_len(ps.drop_last());
        assert(enc_points(ps).subrange(5 * i, 5 * i + 5) =~= enc_point(ps[i]));
    }
}

proof fn lemma_enc_points_len(ps: Seq<Point>)
    ensures
        enc_points(ps).len() == 5 * ps.len(),
    decreases ps.len(),
{
    if ps.len() > 0 {
        lemma_enc_points_len(ps.drop_last());
    }
}

proof fn lemma_point_round_trip(w: Seq<u64>, q: int, p: Point)
    requires
        0 <= q,
        q + 5 <= w.len(),
        w.subrange(q, q + 5) == enc_point(p),
    ensures
        point_ok(w, q),
        point_at(w, q) == p,
{
    assert(w[q] == w.subrange(q, q + 5)[0]);
    assert(w[q + 1] == w.subrange(q, q + 5)[1]);
    assert(w[q + 2] == w.subrange(q, q + 5)[2]);
    assert(w[q + 3] == w.subrange(q, q + 5)[3]);
    assert(w[q + 4] == w.subrange(q, q + 5)[4]);
    lemma_color_round_trip(p.color);
    lemma_word_round_trip(p.position.x);
    lemma_word_round_trip(p.position.y);
    lemma_word_round_trip(p.position.z);
}

proof fn lemma_word_round_trip(x: i64)
    ensures
        signed_of(word_of(x)) == x,
{
}

/// A stroke's encoding, found at word `p`, parses back to it.
proof fn lemma_stroke_round_trip(w: Seq<u64>, p: int, ps: Seq<Point>)
    requires
        0 <= p,
        ps.len() <= u64::MAX,
        p + enc_stroke(ps).len() <= w.len(),
        w.subrange(p, p + enc_stroke(ps).len()) == enc_stroke(ps),
    ensures
        parse_stroke(w, p) == Some((ps, p + enc_stroke(ps).len())),
{
    lemma_enc_points_len(ps);
    let e = enc_stroke(ps);
    assert(w[p] == e[0]);
    assert forall|i: int| 0 <= i < w[p] implies #[trigger] point_ok(w, p + 1 + 5 * i) && point_at(w, p + 1 + 5 * i) == ps[i] by {
        lemma_enc_points(ps, i);
        assert(w.subrange(p + 1 + 5 * i, p + 1 + 5 * i + 5) =~= enc_points(ps).subrange(5 * i, 5 * i + 5)) by {
            assert forall|j: int| 0 <= j < 5 implies #[trigger] w.subrange(p + 1 + 5 * i, p + 1 + 5 * i + 5)[j] == enc_points(ps).subrange(5 * i, 5 * i + 5)[j] by {
                assert(w[p + 1 + 5 * i + j] == w.subrange(p, p + e.len())[1 + 5 * i + j]);
            }
        }
        lemma_point_round_trip(w, p + 1 + 5 * i, ps[i]);
    }
    assert(w[p] as int == ps.len());
    let parsed = Seq::new(w[p] as nat, |i: int| point_at(w, p + 1 + 5 * i));
    assert forall|i: int| 0 <= i < ps.len() implies #[trigger] parsed[i] == ps[i] by {
        assert(point_ok(w, p + 1 + 5 * i));
    }
    assert(parsed =~= ps);
}

proof fn lemma_enc_strokes_prefix(ss: Seq<Seq<Point>>, k: int)
    requires
        0 <= k <= ss.len(),
    ensures
        enc_strokes(ss.subrange(0, k)).len() <= enc_strokes(ss).len(),
        enc_strokes(ss).subrange(0, enc_strokes(ss.subrange(0, k)).len() as int) == enc_strokes(ss.subrange(0, k)),
    decreases ss.len() - k,
{
    if k == ss.len() {
        assert(ss.subrange(0, k) =~= ss);
        assert(enc_strokes(ss).subrange(0, enc_strokes(ss).len() as int) =~= enc_strokes(ss));
    } else {
        lemma_enc_strokes_prefix(ss, k + 1);
        assert(ss.subrange(0, k + 1).drop_last() =~= ss.subrange(0, k));
        let a = enc_strokes(ss.subrange(0, k));
        let b = enc_strokes(ss.subrange(0, k + 1));
        assert(b.subrange(0, a.len() as int) =~= a);
        assert(enc_strokes(ss).subrange(0, a.len() as int) =~= b.subrange(0, a.len() as int));
    }
}

proof fn lemma_strokes_round_trip(w: Seq<u64>, start: int, ss: Seq<Seq<Point>>, k: int)
    requires
        0 <= start,
        0 <= k <= ss.len(),
        forall|i: int| 0 <= i < ss.len() ==> (#[trigger] ss[i]).len() <= u64::MAX,
        w.len() == start + enc_strokes(ss).len(),
        w.subrange(start, w.len() as int) == enc_strokes(ss),
    ensures
        parse_strokes(w, start, k as nat) == Some((ss.subrange(0, k), start + enc_strokes(ss.subrange(0, k)).len())),
    decreases k,
{
    if k == 0 {
        assert(ss.subrange(0, 0) =~= Seq::<Seq<Point>>::empty());
    } else {
        lemma_strokes_round_trip(w, start, ss, k - 1);
        lemma_enc_strokes_prefix(ss, k);
        let pre = ss.subrange(0, k - 1);
        assert(ss.subrange(0, k).drop_last() =~= pre);
        let a = enc_strokes(pre);
        let e = enc_stroke(ss[k - 1]);
        let p = start + a.len();
        assert(enc_strokes(ss.subrange(0, k)) == a + e);
        assert(w.subrange(p, p + e.len()) =~= e) by {
            assert forall|j: int| 0 <= j < e.len() implies #[trigger] w.subrange(p, p + e.len())[j] == e[j] by {
                assert(w[p + j] == w.subrange(start, w.len() as int)[a.len() + j]);
                assert(enc_strokes(ss).subrange(0, (a + e).len() as int)[a.len() + j] == (a + e)[a.len() + j]);
            }
        }
        lemma_stroke_round_trip(w, p, ss[k - 1]);
        assert(pre.push(ss[k - 1]) =~= ss.subrange(0, k));
    }
}

/// A session's saved words parse back to the same session, all but the
/// clock stamp and the gesture flag.
pub proof fn lemma_words_round_trip(m: SessionModel)
    requires
        persistable(m),
    ensures
        parse_spec(encode_spec(m)) == Some(persisted(m)),
{
    let w = encode_spec(m);
    let h = enc_header(m);
    assert(h.len() == 16);
    assert(w[0] == MAGIC && w[1] == 2 && w[2] == m.line_thickness as u64);
    assert(w[3] == word_of(m.pen_pos.x) && w[4] == word_of(m.pen_pos.y) && w[5] == word_of(m.pen_pos.z));
    assert(w[6] == word_of(m.pen_rot.x as i64) && w[7] == word_of(m.pen_rot.y as i64));
    assert(w[8] == word_of(m.pen_rot.z as i64) && w[9] == word_of(m.pen_rot.w as i64));
    assert(w[10] == word_of(m.last_pen_update_pos.x) && w[11] == word_of(m.last_pen_update_pos.y));
    assert(w[12] == word_of(m.last_pen_update_pos.z));
    assert(w[13] == word_of(m.cursor.x) && w[14] == word_of(m.cursor.y) && w[15] == word_of(m.cursor.z));
    assert(w[16] == m.strokes.len() as u64);
    lemma_word_round_trip(m.pen_pos.x);
    lemma_word_round_trip(m.pen_pos.y);
    lemma_word_round_trip(m.pen_pos.z);
    lemma_word_round_trip(m.pen_rot.x as i64);
    lemma_word_round_trip(m.pen_rot.y as i64);
    lemma_word_round_trip(m.pen_rot.z as i64);
    lemma_word_round_trip(m.pen_rot.w as i64);
    lemma_word_round_trip(m.last_pen_update_pos.x);
    lemma_word_round_trip(m.last_pen_update_pos.y);
    lemma_word_round_trip(m.last_pen_update_pos.z);
    lemma_word_round_trip(m.cursor.x);
    lemma_word_round_trip(m.cursor.y);
    lemma_word_round_trip(m.cursor.z);
    assert(w.subrange(17, w.len() as int) =~= enc_strokes(m.strokes));
    lemma_strokes_round_trip(w, 17, m.strokes, m.strokes.len() as int);
    assert(m.strokes.subrange(0, m.strokes.len() as int) =~= m.strokes);
    assert(rot_ok(w, 6));
}

fn push_vec(out: &mut Vec<u64>, v: Vec3)
    ensures
        final(out)@ == old(out)@ + enc_vec(v),
{
    out.push(to_word(v.x));
    out.push(to_word(v.y));
    out.push(to_word(v.z));
    assert(final(out)@ =~= old(out)@ + enc_vec(v));
}

fn push_point(out: &mut Vec<u64>, p: Point)
    ensures
        final(out)@ == old(out)@ + enc_point(p),
{
    push_vec(out, p.position);
    out.push(p.thickness as u64);
    out.push(pack(p.color));
    assert(final(out)@ =~= old(out)@ + enc_point(p));
}

/// The words a session is saved as.
pub fn encode_words(s: &PenSessionState) -> (r: Vec<u64>)
    ensures
        r@ == encode_spec(s@),
{
    let mut out: Vec<u64> = Vec::new();
    out.push(MAGIC);
    out.push(FORMAT_VERSION);
    out.push(s.line_thickness as u64);
    push_vec(&mut out, s.pen_pos);
    out.push(to_word(s.pen_rot.x as i64));
    out.push(to_word(s.pen_rot.y as i64));
    out.push(to_word(s.pen_rot.z as i64));
    out.push(to_word(s.pen_rot.w as i64));
    push_vec(&mut out, s.last_pen_update_pos);
    push_vec(&mut out, s.cursor);
    assert(out@ =~= enc_header(s@));
    out.push(s.strokes.len() as u64);
    let ghost base = out@;
    let ghost ss = strokes_view(s.strokes@);
    assert(ss.subrange(0, 0) =~= Seq::<Seq<Point>>::empty());
    assert(base =~= base + enc_strokes(ss.subrange(0, 0)));
    let mut k: usize = 0;
    while k < s.strokes.len()
        invariant
            k <= s.strokes@.len(),
            ss == strokes_view(s.strokes@),
            out@ == base + enc_strokes(ss.subrange(0, k as int)),
        decreases s.strokes@.len() - k,
    {
        let st = &s.strokes[k];
        out.push(st.points.len() as u64);
        let ghost mid = out@;
        assert(st@.subrange(0, 0) =~= Seq::<Point>::empty());
        assert(mid =~= mid + enc_points(st@.subrange(0, 0)));
        let mut j: usize = 0;
        while j < st.points.len()
            invariant
                j <= st@.len(),
                out@ == mid + enc_points(st@.subrange(0, j as int)),
            decreases st@.len() - j,
        {
            push_point(&mut out, st.points[j]);
            proof {
                assert(st@.subrange(0, j + 1).drop_last() =~= st@.subrange(0, j as int));
            }
            j += 1;
        }
        proof {
            assert(st@.subrange(0, st@.len() as int) =~= st@);
            assert(ss.subrange(0, k + 1).drop_last() =~= ss.subrange(0, k as int));
            assert(ss.subrange(0, k + 1).last() == st@);
            assert(out@ =~= base + enc_strokes(ss.subrange(0, k + 1)));
        }
        k += 1;
    }
    proof {
        assert(ss.subrange(0, ss.len() as int) =~= ss);
        assert(out@ =~= encode_spec(s@));
    }
    out
}

fn read_vec(w: &Vec<u64>, q: usize) -> (r: Vec3)
    requires
        q + 3 <= w@.len(),
    ensures
        r == vec_at(w@, q as int),
{
    let _n = w.len();
    Vec3 { x: from_word(w[q]), y: from_word(w[q + 1]), z: from_word(w[q + 2]) }
}

fn in_range(v: Vec3) -> (r: bool)
    ensures
        r == v.wf(),
{
    -1_000_000_000 <= v.x && v.x <= 1_000_000_000 && -1_000_000_000 <= v.y && v.y <= 1_000_000_000
        && -1_000_000_000 <= v.z && v.z <= 1_000_000_000
}

fn read_rot_part(w: &Vec<u64>, q: usize) -> (r: Option<i32>)
    requires
        q < w@.len(),
    ensures
        match r {
            Some(x) => i32::MIN <= signed_of(w@[q as int]) <= i32::MAX && x == signed_of(w@[q as int]) as i32,
            None => !(i32::MIN <= signed_of(w@[q as int]) <= i32::MAX),
        },
{
    let x = from_word(w[q]);
    if -2147483648 <= x && x <= 2147483647 { Some(x as i32) } else { None }
}

/// The stroke at word `p`, and the word after it.
fn parse_stroke_exec(w: &Vec<u64>, p: usize) -> (r: Option<(Stroke, usize)>)
    ensures
        match r {
            Some((st, q)) => parse_stroke(w@, p as int) == Some((st@, q as int)),
            None => parse_stroke(w@, p as int) is None,
        },
{
    if p >= w.len() {
        return None;
    }
    let len = w.len();
    let c = w[p];
    let avail: u64 = (w.len() - p - 1) as u64;
    if c > avail / 5 {
        assert(5 * c > avail) by (nonlinear_arith)
            requires c > avail / 5;
        return None;
    }
    assert(5 * c <= avail) by (nonlinear_arith)
        requires c <= avail / 5;
    let mut points: Vec<Point> = Vec::new();
    let mut j: u64 = 0;
    while j < c
        invariant
            j <= c,
            len == w@.len(),
            c == w@[p as int],
            p + 1 + 5 * c <= w@.len(),
            points@ == Seq::new(j as nat, |i: int| point_at(w@, p + 1 + 5 * i)),
            forall|i: int| 0 <= i < j ==> #[trigger] point_ok(w@, p + 1 + 5 * i),
        decreases c - j,
    {
        let q: usize = p + 1 + 5 * (j as usize);
        if w[q + 3] > 0xffff_ffff {
            assert(!point_ok(w@, p + 1 + 5 * (j as int)));
            return None;
        }
        let pt = Point { position: read_vec(w, q), thickness: w[q + 3] as u32, color: unpack(w[q + 4]) };
        points.push(pt);
        proof {
            assert(points@ =~= Seq::new((j + 1) as nat, |i: int| point_at(w@, p + 1 + 5 * i)));
        }
        j += 1;
    }
    let q: usize = p + 1 + 5 * (c as usize);
    Some((Stroke { points }, q))
}

proof fn lemma_parse_none(w: Seq<u64>, start: int, k: nat, n: nat)
    requires
        parse_strokes(w, start, k) is None,
        k <= n,
    ensures
        parse_strokes(w, start, n) is None,
    decreases n - k,
{
    if k < n {
        lemma_parse_none(w, start, k, (n - 1) as nat);
    }
}

/// The first `n` strokes from word `start`, and the word after them.
fn parse_strokes_exec(w: &Vec<u64>, start: usize, n: u64) -> (r: Option<(Vec<Stroke>, usize)>)
    requires
        start <= w@.len(),
    ensures
        match r {
            Some((ss, q)) => parse_strokes(w@, start as int, n as nat) == Some((strokes_view(ss@), q as int)),
            None => parse_strokes(w@, start as int, n as nat) is None,
        },
{
    let mut pos: usize = start;
    let mut strokes: Vec<Stroke> = Vec::new();
    let mut k: u64 = 0;
    proof {
        assert(strokes_view(strokes@) =~= Seq::<Seq<Point>>::empty());
    }
    while k < n
        invariant
            k <= n,
            pos <= w@.len(),
            parse_strokes(w@, start as int, k as nat) == Some((strokes_view(strokes@), pos as int)),
        decreases n - k,
    {
        match parse_stroke_exec(w, pos) {
            Some((st, q)) => {
                proof {
                    crate::session::lemma_strokes_view_push(strokes@, st);
                }
                strokes.push(st);
                pos = q;
            },
            None => {
                proof {
                    lemma_parse_none(w@, start as int, (k + 1) as nat, n as nat);
                }
                return None;
            },
        }
        k += 1;
    }
    Some((strokes, pos))
}

/// The session held in a blob of words, if it is well-formed.
pub fn decode_words(w: &Vec<u64>) -> (r: Option<PenSessionState>)
    ensures
        match r {
            Some(s) => parse_spec(w@) == Some(s@),
            None => parse_spec(w@) is None,
        },
{
    if w.len() < 2 || w[0] != MAGIC || (w[1] != 1 && w[1] != 2) {
        return None;
    }
    let v = w[1];
    let h: usize = if v == 1 { 13 } else { 16 };
    if w.len() <= h {
        return None;
    }
    if w[2] > THICKNESS_LIMIT as u64 {
        return None;
    }
    let pen_pos = read_vec(w, 3);
    let last = read_vec(w, 10);
    if !in_range(pen_pos) || !in_range(last) {
        return None;
    }
    let cursor = if v == 2 { read_vec(w, 13) } else { Vec3::zero() };
    if !in_range(cursor) {
        return None;
    }
    let rx = read_rot_part(w, 6);
    let ry = read_rot_part(w, 7);
    let rz = read_rot_part(w, 8);
    let rw = read_rot_part(w, 9);
    let pen_rot = match (rx, ry, rz, rw) {
        (Some(x), Some(y), Some(z), Some(ww)) => Orientation { x, y, z, w: ww },
        _ => {
            return None;
        },
    };
    proof {
        assert(rot_ok(w@, 6)) by {
            assert forall|i: int| 6 <= i < 10 implies i32::MIN <= #[trigger] signed_of(w@[i]) <= i32::MAX by {
                assert(i == 6 || i == 7 || i == 8 || i == 9);
            }
        }
        assert(header_ok(w@, v));
    }
    let n = w[h];
    let (strokes, pos) = match parse_strokes_exec(w, h + 1, n) {
        Some(r) => r,
        None => {
            return None;
        },
    };
    if pos != w.len() {
        return None;
    }
    Some(PenSessionState {
        strokes,
        line_thickness: w[2] as u32,
        pen_pos,
        pen_rot,
        last_pen_update_pos: last,
        cursor,
        grab_stopped: None,
        drawing: false,
    })
}

/// Words as bytes, eight per word, least significant first.
pub open spec fn bytes_of(w: Seq<u64>) -> Seq<u8>
    decreases w.len(),
{
    if w.len() == 0 {
        Seq::empty()
    } else {
        bytes_of(w.drop_last()) + le_bytes(w.last())
    }
}

/// Bytes as words, eight per word, least significant first.
pub open spec fn words_of(b: Seq<u8>) -> Seq<u64> {
    Seq::new(b.len() / 8, |i: int| le_word(b[8 * i], b[8 * i + 1], b[8 * i + 2], b[8 * i + 3], b[8 * i + 4], b[8 * i + 5], b[8 * i + 6], b[8 * i + 7]))
}

/// The session a blob holds: its bytes as words, parsed; nothing where the
/// length is not a whole number of words or the words do not parse.
pub open spec fn decode_blob_spec(b: Seq<u8>) -> Option<SessionModel> {
    if b.len() % 8 == 0 { parse_spec(words_of(b)) } else { None }
}

proof fn lemma_bytes_of(w: Seq<u64>, i: int)
    requires
        0 <= i < w.len(),
    ensures
        bytes_of(w).len() == 8 * w.len(),
        bytes_of(w).subrange(8 * i, 8 * i + 8) == le_bytes(w[i]),
    decreases w.len(),
{
    lemma_bytes_of_len(w);
    if i < w.len() - 1 {
        lemma_bytes_of(w.drop_last(), i);
        assert(bytes_of(w).subrange(8 * i, 8 * i + 8) =~= bytes_of(w.drop_last()).subrange(8 * i, 8 * i + 8));
    } else {
        lemma_bytes_of_len(w.drop_last());
        assert(bytes_of(w).subrange(8 * i, 8 * i + 8) =~= le_bytes(w[i]));
    }
}

proof fn lemma_bytes_of_len(w: Seq<u64>)
    ensures
        bytes_of(w).len() == 8 * w.len(),
    decreases w.len(),
{
    if w.len() > 0 {
        lemma_bytes_of_len(w.drop_last());
    }
}

proof fn lemma_bytes_round_trip(w: Seq<u64>)
    ensures
        bytes_of(w).len() % 8 == 0,
        words_of(bytes_of(w)) == w,
{
    lemma_bytes_of_len(w);
    let b = bytes_of(w);
    assert forall|i: int| 0 <= i < w.len() implies #[trigger] words_of(b)[i] == w[i] by {
        lemma_bytes_of(w, i);
        let e = le_bytes(w[i]);
        assert(b[8 * i] == e[0] && b[8 * i + 1] == e[1] && b[8 * i + 2] == e[2] && b[8 * i + 3] == e[3]) by {
            assert(b[8 * i] == b.subrange(8 * i, 8 * i + 8)[0]);
            assert(b[8 * i + 1] == b.subrange(8 * i, 8 * i + 8)[1]);
            assert(b[8 * i + 2] == b.subrange(8 * i, 8 * i + 8)[2]);
            assert(b[8 * i + 3] == b.subrange(8 * i, 8 * i + 8)[3]);
        }
        assert(b[8 * i + 4] == e[4] && b[8 * i + 5] == e[5] && b[8 * i + 6] == e[6] && b[8 * i + 7] == e[7]) by {
            assert(b[8 * i + 4] == b.subrange(8 * i, 8 * i + 8)[4]);
            assert(b[8 * i + 5] == b.subrange(8 * i, 8 * i + 8)[5]);
            assert(b[8 * i + 6] == b.subrange(8 * i, 8 * i + 8)[6]);
            assert(b[8 * i + 7] == b.subrange(8 * i, 8 * i + 8)[7]);
        }
        lemma_le_round_trip(w[i]);
    }
    assert(words_of(b) =~= w);
}

/// Saving then loading gives back the session, all but the clock stamp and
/// the gesture flag: the same strokes in the same order, every point's
/// position, thickness and colour, the base thickness, pose and cursor.
pub proof fn lemma_round_trip(m: SessionModel)
    requires
        persistable(m),
    ensures
        decode_blob_spec(bytes_of(encode_spec(m))) == Some(persisted(m)),
{
    lemma_words_round_trip(m);
    lemma_bytes_round_trip(encode_spec(m));
}

fn word_bytes(x: u64, out: &mut Vec<u8>)
    ensures
        final(out)@ == old(out)@ + le_bytes(x),
{
    assert(x & 0xff < 256 && (x >> 8u64) & 0xff < 256 && (x >> 16u64) & 0xff < 256 && (x >> 24u64) & 0xff < 256
        && (x >> 32u64) & 0xff < 256 && (x >> 40u64) & 0xff < 256 && (x >> 48u64) & 0xff < 256
        && (x >> 56u64) & 0xff < 256) by (bit_vector);
    out.push((x & 0xff) as u8);
    out.push(((x >> 8u64) & 0xff) as u8);
    out.push(((x >> 16u64) & 0xff) as u8);
    out.push(((x >> 24u64) & 0xff) as u8);
    out.push(((x >> 32u64) & 0xff) as u8);
    out.push(((x >> 40u64) & 0xff) as u8);
    out.push(((x >> 48u64) & 0xff) as u8);
    out.push(((x >> 56u64) & 0xff) as u8);
    assert(final(out)@ =~= old(out)@ + le_bytes(x));
}

/// Words as bytes, eight per word, least significant first.
pub fn to_bytes(w: &Vec<u64>) -> (r: Vec<u8>)
    ensures
        r@ == bytes_of(w@),
{
    let mut out: Vec<u8> = Vec::new();
    let mut i: usize = 0;
    assert(w@.subrange(0, 0) =~= Seq::<u64>::empty());
    while i < w.len()
        invariant
            i <= w@.len(),
            out@ == bytes_of(w@.subrange(0, i as int)),
        decreases w@.len() - i,
    {
        word_bytes(w[i], &mut out);
        proof {
            assert(w@.subrange(0, i + 1).drop_last() =~= w@.subrange(0, i as int));
        }
        i += 1;
    }
    assert(w@.subrange(0, w@.len() as int) =~= w@);
    out
}

/// Bytes as words; nothing where the length is not a whole number of words.
pub fn from_bytes(b: &Vec<u8>) -> (r: Option<Vec<u64>>)
    ensures
        match r {
            Some(w) => b@.len() % 8 == 0 && w@ == words_of(b@),
            None => b@.len() % 8 != 0,
        },
{
    let len = b.len();
    if len % 8 != 0 {
        return None;
    }
    let n = len / 8;
    let mut w: Vec<u64> = Vec::new();
    let mut i: usize = 0;
    while i < n
        invariant
            i <= n,
            n == b@.len() / 8,
            len == b@.len(),
            w@ == words_of(b@).subrange(0, i as int),
        decreases n - i,
    {
        let k = 8 * i;
        let x = (b[k] as u64) | ((b[k + 1] as u64) << 8u64) | ((b[k + 2] as u64) << 16u64) | ((b[k + 3] as u64) << 24u64)
            | ((b[k + 4] as u64) << 32u64) | ((b[k + 5] as u64) << 40u64) | ((b[k + 6] as u64) << 48u64)
            | ((b[k + 7] as u64) << 56u64);
        w.push(x);
        proof {
            assert(w@ =~= words_of(b@).subrange(0, i + 1));
        }
        i += 1;
    }
    assert(w@ =~= words_of(b@));
    Some(w)
}

/// The blob a session is saved as.
pub fn serialize(s: &PenSessionState) -> (r: Vec<u8>)
    ensures
        r@ == bytes_of(encode_spec(s@)),
{
    to_bytes(&encode_words(s))
}

/// The session a blob holds, or nothing where it is not a well-formed save.
pub fn deserialize(b: &Vec<u8>) -> (r: Option<PenSessionState>)
    ensures
        match r {
            Some(s) => decode_blob_spec(b@) == Some(s@),
            None => decode_blob_spec(b@) is None,
        },
{
    match from_bytes(b) {
        Some(w) => decode_words(&w),
        None => None,
    }
}

/// What a well-formed save holds is a session the tool can run on.
pub proof fn lemma_decoded_wf(b: Seq<u8>)
    ensures
        decode_blob_spec(b) is Some ==> decode_blob_spec(b)->Some_0.wf(),
{
}

/// The session a blob holds; an empty session with base thickness
/// `thickness` where the blob is missing, truncated or foreign.
pub fn load(b: &Vec<u8>, thickness: u32) -> (r: PenSessionState)
    requires
        thickness <= THICKNESS_LIMIT,
    ensures
        r@ == match decode_blob_spec(b@) {
            Some(m) => m,
            None => crate::session::empty_session(thickness),
        },
        r@.wf(),
{
    proof {
        lemma_decoded_wf(b@);
    }
    match deserialize(b) {
        Some(s) => s,
        None => PenSessionState::new(thickness),
    }
}

} // verus!
