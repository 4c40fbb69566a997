//! A stable binary form for height and stock maps: little-endian, fixed
//! width, so that a map written on one run reads back bit-identical on the
//! next. Layout: column count and row count as 4-byte words, then every
//! point of every column as three offset-biased 8-byte words.

use crate::geom::Point3;
use crate::layers::view2;
use vstd::prelude::*;

verus! {

/// Bias added to a signed coordinate before it is stored, so the stored
/// word is non-negative.
pub const COORD_BIAS: i64 = 0x1_0000_0000_0000;

/// Largest coordinate magnitude the codec accepts.
pub const CODE_LIMIT: i64 = 0x800_0000_0000;

pub open spec fn enc_u32(v: u32) -> Seq<u8> {
    seq![
        (v & 0xff) as u8,
        ((v >> 8) & 0xff) as u8,
        ((v >> 16) & 0xff) as u8,
        ((v >> 24) & 0xff) as u8,
    ]
}

pub open spec fn dec_u32(b: Seq<u8>) -> int {
    (b[0] as int) + (b[1] as int) * 0x100 + (b[2] as int) * 0x1_0000 + (b[3] as int) * 0x100_0000
}

pub open spec fn enc_u64(v: u64) -> Seq<u8> {
    seq![
        (v & 0xff) as u8,
        ((v >> 8) & 0xff) as u8,
        ((v >> 16) & 0xff) as u8,
        ((v >> 24) & 0xff) as u8,
        ((v >> 32) & 0xff) as u8,
        ((v >> 40) & 0xff) as u8,
        ((v >> 48) & 0xff) as u8,
        ((v >> 56) & 0xff) as u8,
    ]
}

pub open spec fn dec_u64(b: Seq<u8>) -> u64 {
    (b[0] as u64) | (b[1] as u64) << 8 | (b[2] as u64) << 16 | (b[3] as u64) << 24 | (b[4] as u64)
        << 32 | (b[5] as u64) << 40 | (b[6] as u64) << 48 | (b[7] as u64) << 56
}

/// A coordinate as stored: biased into the non-negative range.
pub open spec fn enc_coord(v: i64) -> Seq<u8> {
    enc_u64((v + COORD_BIAS) as u64)
}

pub open spec fn dec_coord(b: Seq<u8>) -> i64 {
    (dec_u64(b) - COORD_BIAS as u64) as i64
}

pub open spec fn coord_ok(v: i64) -> bool {
    -CODE_LIMIT <= v <= CODE_LIMIT
}

pub open spec fn point_ok(p: Point3) -> bool {
    coord_ok(p.x) && coord_ok(p.y) && coord_ok(p.z)
}

pub open spec fn enc_point(p: Point3) -> Seq<u8> {
    enc_coord(p.x) + enc_coord(p.y) + enc_coord(p.z)
}

pub open spec fn enc_col(c: Seq<Point3>) -> Seq<u8>
    decreases c.len(),
{
    if c.len() == 0 {
        Seq::empty()
    } else {
        enc_col(c.drop_last()) + enc_point(c.last())
    }
}

pub open spec fn enc_cols(m: Seq<Seq<Point3>>) -> Seq<u8>
    decreases m.len(),
{
    if m.len() == 0 {
        Seq::empty()
    } else {
        enc_cols(m.drop_last()) + enc_col(m.last())
    }
}

/// A serialized map: the shape header followed by every point.
pub open spec fn spec_encode(m: Seq<Seq<Point3>>) -> Seq<u8> {
    enc_u32(m.len() as u32) + enc_u32((if m.len() > 0 {
        m[0].len() as u32
    } else {
        0
    })) + enc_cols(m)
}

/// The point stored at byte offset `off`.
pub open spec fn dec_point(b: Seq<u8>, off: int) -> Point3 {
    Point3 {
        x: dec_coord(b.subrange(off, off + 8)),
        y: dec_coord(b.subrange(off + 8, off + 16)),
        z: dec_coord(b.subrange(off + 16, off + 24)),
    }
}

/// The stored word at `off` carries a coordinate within the codec's
/// range.
pub open spec fn word_ok(b: Seq<u8>, off: int) -> bool {
    (COORD_BIAS - CODE_LIMIT) as u64 <= dec_u64(b.subrange(off, off + 8)) <= (COORD_BIAS
        + CODE_LIMIT) as u64
}

/// All three stored words of the point at `off` are in range.
pub open spec fn point_words_ok(b: Seq<u8>, off: int) -> bool {
    word_ok(b, off) && word_ok(b, off + 8) && word_ok(b, off + 16)
}

/// The map a byte string holds, if its header and length are consistent.
pub open spec fn spec_decode(b: Seq<u8>) -> Option<Seq<Seq<Point3>>> {
    if b.len() < 8 {
        Option::None
    } else {
        let segments = dec_u32(b.subrange(0, 4));
        let rows = dec_u32(b.subrange(4, 8));
        if b.len() == 8 + 24 * segments * rows && (segments > 0 || rows == 0) && (forall|
            i: int,
            j: int,
        |
            0 <= i < segments && 0 <= j < rows ==> #[trigger] point_words_ok(
                b,
                8 + 24 * (i * rows + j),
            )) {
            Option::Some(
                Seq::new(
                    segments as nat,
                    |i: int|
                        Seq::new(
                            rows as nat,
                            |j: int| dec_point(b, 8 + 24 * (i * rows + j)),
                        ),
                ),
            )
        } else {
            Option::None
        }
    }
}

proof fn lemma_u64_round(v: u64)
    ensures
        dec_u64(enc_u64(v)) == v,
{
    let b0 = (v & 0xff) as u8;
    let b1 = ((v >> 8) & 0xff) as u8;
    let b2 = ((v >> 16) & 0xff) as u8;
    let b3 = ((v >> 24) & 0xff) as u8;
    let b4 = ((v >> 32) & 0xff) as u8;
    let b5 = ((v >> 40) & 0xff) as u8;
    let b6 = ((v >> 48) & 0xff) as u8;
    let b7 = ((v >> 56) & 0xff) as u8;
    assert((b0 as u64) | (b1 as u64) << 8 | (b2 as u64) << 16 | (b3 as u64) << 24 | (b4 as u64)
        << 32 | (b5 as u64) << 40 | (b6 as u64) << 48 | (b7 as u64) << 56 == v) by (bit_vector)
        requires
            b0 == (v & 0xff) as u8 && b1 == ((v >> 8) & 0xff) as u8 && b2 == ((v >> 16) & 0xff) as u8
                && b3 == ((v >> 24) & 0xff) as u8 && b4 == ((v >> 32) & 0xff) as u8 && b5 == ((v
                >> 40) & 0xff) as u8 && b6 == ((v >> 48) & 0xff) as u8 && b7 == ((v >> 56)
                & 0xff) as u8,
    ;
}

proof fn lemma_coord_round(v: i64)
    requires
        coord_ok(v),
    ensures
        dec_coord(enc_coord(v)) == v,
{
    lemma_u64_round((v + COORD_BIAS) as u64);
}

proof fn lemma_point_round(b: Seq<u8>, off: int, p: Point3)
    requires
        point_ok(p),
        0 <= off,
        off + 24 <= b.len(),
        b.subrange(off, off + 24) == enc_point(p),
    ensures
        dec_point(b, off) == p,
{
    let e = enc_point(p);
    assert(b.subrange(off, off + 8) =~= e.subrange(0, 8));
    assert(b.subrange(off + 8, off + 16) =~= e.subrange(8, 16));
    assert(b.subrange(off + 16, off + 24) =~= e.subrange(16, 24));
    assert(e.subrange(0, 8) =~= enc_coord(p.x));
    assert(e.subrange(8, 16) =~= enc_coord(p.y));
    assert(e.subrange(16, 24) =~= enc_coord(p.z));
    lemma_coord_round(p.x);
    lemma_coord_round(p.y);
    lemma_coord_round(p.z);
}

proof fn lemma_point_words(b: Seq<u8>, off: int, p: Point3)
    requires
        point_ok(p),
        0 <= off,
        off + 24 <= b.len(),
        b.subrange(off, off + 24) == enc_point(p),
    ensures
        point_words_ok(b, off),
{
    let e = enc_point(p);
    assert(b.subrange(off, off + 8) =~= e.subrange(0, 8));
    assert(b.subrange(off + 8, off + 16) =~= e.subrange(8, 16));
    assert(b.subrange(off + 16, off + 24) =~= e.subrange(16, 24));
    assert(e.subrange(0, 8) =~= enc_coord(p.x));
    assert(e.subrange(8, 16) =~= enc_coord(p.y));
    assert(e.subrange(16, 24) =~= enc_coord(p.z));
    lemma_u64_round((p.x + COORD_BIAS) as u64);
    lemma_u64_round((p.y + COORD_BIAS) as u64);
    lemma_u64_round((p.z + COORD_BIAS) as u64);
}

proof fn lemma_enc_col_len(c: Seq<Point3>)
    ensures
        enc_col(c).len() == 24 * c.len(),
    decreases c.len(),
{
    if c.len() > 0 {
        lemma_enc_col_len(c.drop_last());
    }
}

proof fn lemma_enc_cols_len(m: Seq<Seq<Point3>>, rows: int)
    requires
        forall|i: int| 0 <= i < m.len() ==> (#[trigger] m[i]).len() == rows,
        rows >= 0,
    ensures
        enc_cols(m).len() == 24 * rows * m.len(),
    decreases m.len(),
{
    if m.len() > 0 {
        lemma_enc_cols_len(m.drop_last(), rows);
        lemma_enc_col_len(m.last());
        assert(24 * rows * (m.len() - 1) + 24 * rows == 24 * rows * m.len()) by (nonlinear_arith);
    }
}

/// Within a serialized column, point `j` sits at byte offset `24 * j`.
proof fn lemma_enc_col_at(c: Seq<Point3>, j: int)
    requires
        0 <= j < c.len(),
    ensures
        enc_col(c).len() == 24 * c.len(),
        enc_col(c).subrange(24 * j, 24 * j + 24) == enc_point(c[j]),
    decreases c.len(),
{
    lemma_enc_col_len(c);
    if j == c.len() - 1 {
        lemma_enc_col_len(c.drop_last());
        assert(enc_col(c).subrange(24 * j, 24 * j + 24) =~= enc_point(c.last()));
    } else {
        lemma_enc_col_at(c.drop_last(), j);
        lemma_enc_col_len(c.drop_last());
        assert(enc_col(c).subrange(24 * j, 24 * j + 24) =~= enc_col(c.drop_last()).subrange(
            24 * j,
            24 * j + 24,
        ));
    }
}

/// Within the serialized columns, column `i` starts at `24 * rows * i`.
proof fn lemma_enc_cols_at(m: Seq<Seq<Point3>>, rows: int, i: int)
    requires
        forall|ii: int| 0 <= ii < m.len() ==> (#[trigger] m[ii]).len() == rows,
        rows >= 0,
        0 <= i < m.len(),
    ensures
        enc_cols(m).len() == 24 * rows * m.len(),
        enc_cols(m).subrange(24 * rows * i, 24 * rows * i + 24 * rows) == enc_col(m[i]),
    decreases m.len(),
{
    lemma_enc_cols_len(m, rows);
    lemma_enc_col_len(m[i]);
    if i == m.len() - 1 {
        lemma_enc_cols_len(m.drop_last(), rows);
        assert(24 * rows * (m.len() - 1) + 24 * rows == 24 * rows * m.len()) by (nonlinear_arith);
        assert(enc_cols(m).subrange(24 * rows * i, 24 * rows * i + 24 * rows) =~= enc_col(
            m.last(),
        ));
    } else {
        lemma_enc_cols_at(m.drop_last(), rows, i);
        lemma_enc_cols_len(m.drop_last(), rows);
        assert(24 * rows * i + 24 * rows <= 24 * rows * (m.len() - 1)) by (nonlinear_arith)
            requires
                0 <= i < m.len() - 1 && rows >= 0,
        ;
        assert(enc_cols(m).subrange(24 * rows * i, 24 * rows * i + 24 * rows) =~= enc_cols(
            m.drop_last(),
        ).subrange(24 * rows * i, 24 * rows * i + 24 * rows));
    }
}

/// Serializing a well-formed map and reading it back yields the identical
/// map, bit for bit.
pub proof fn lemma_codec_round_trip(m: Seq<Seq<Point3>>, segments: int, rows: int)
    requires
        crate::layers::shape_ok(m, segments, rows),
        0 < segments < 0x1_0000_0000,
        0 <= rows < 0x1_0000_0000,
        forall|i: int, j: int|
            0 <= i < m.len() && 0 <= j < m[i].len() ==> point_ok(#[trigger] m[i][j]),
    ensures
        spec_decode(spec_encode(m)) == Option::Some(m),
{
    let b = spec_encode(m);
    lemma_enc_cols_len(m, rows);
    assert(dec_u32(b.subrange(0, 4)) == segments) by {
        assert(b.subrange(0, 4) =~= enc_u32(segments as u32));
        lemma_u32_round(segments as u32);
    };
    assert(dec_u32(b.subrange(4, 8)) == rows) by {
        assert(b.subrange(4, 8) =~= enc_u32(rows as u32));
        lemma_u32_round(rows as u32);
    };
    assert(b.len() == 8 + 24 * segments * rows) by {
        assert(24 * rows * segments == 24 * segments * rows) by (nonlinear_arith);
    };
    assert forall|i: int, j: int|
        #![trigger point_words_ok(b, 8 + 24 * (i * rows + j))]
        #![trigger dec_point(b, 8 + 24 * (i * rows + j))]
        0 <= i < segments && 0 <= j < rows implies point_words_ok(b, 8 + 24 * (i * rows + j))
        && dec_point(b, 8 + 24 * (i * rows + j)) == m[i][j] by {
        lemma_enc_cols_at(m, rows, i);
        lemma_enc_col_at(m[i], j);
        let cstart = 8 + 24 * rows * i;
        assert(b.subrange(cstart, cstart + 24 * rows) =~= enc_cols(m).subrange(
            24 * rows * i,
            24 * rows * i + 24 * rows,
        )) by {
            assert(24 * rows * i + 24 * rows <= 24 * rows * segments) by (nonlinear_arith)
                requires
                    0 <= i < segments && rows >= 0,
            ;
            assert(24 * segments * rows == 24 * rows * segments) by (nonlinear_arith);
        };
        let pstart = cstart + 24 * j;
        assert(0 <= 24 * j && 24 * j + 24 <= 24 * rows) by (nonlinear_arith)
            requires
                0 <= j < rows,
        ;
        assert(cstart + 24 * rows <= b.len()) by (nonlinear_arith)
            requires
                0 <= i < segments && 0 <= rows && b.len() == 8 + 24 * segments * rows && cstart == 8
                    + 24 * rows * i,
        ;
        assert(b.subrange(pstart, pstart + 24) =~= b.subrange(cstart, cstart + 24 * rows).subrange(
            24 * j,
            24 * j + 24,
        ));
        assert(b.subrange(pstart, pstart + 24) =~= enc_col(m[i]).subrange(24 * j, 24 * j + 24));
        assert(8 + 24 * (i * rows + j) == pstart) by (nonlinear_arith)
            requires
                pstart == 8 + 24 * rows * i + 24 * j,
        ;
        lemma_point_round(b, pstart, m[i][j]);
        lemma_point_words(b, pstart, m[i][j]);
    };
    assert(spec_decode(b) is Some);
    let dec = spec_decode(b)->0;
    assert forall|i: int| 0 <= i < segments implies #[trigger] dec[i] =~= m[i] by {
        assert forall|j: int| 0 <= j < rows implies #[trigger] dec[i][j] == m[i][j] by {
            assert(dec_point(b, 8 + 24 * (i * rows + j)) == m[i][j]);
        };
    };
    assert(dec =~~= m);
}

proof fn lemma_u32_round(vv: u32)
    ensures
        dec_u32(enc_u32(vv)) == vv,
{
    let b0 = (vv & 0xff) as u8;
    let b1 = ((vv >> 8) & 0xff) as u8;
    let b2 = ((vv >> 16) & 0xff) as u8;
    let b3 = ((vv >> 24) & 0xff) as u8;
    assert((b0 as u32) + (b1 as u32) * 0x100 + (b2 as u32) * 0x1_0000 + (b3 as u32) * 0x100_0000
        == vv) by (bit_vector)
        requires
            b0 == (vv & 0xff) as u8 && b1 == ((vv >> 8) & 0xff) as u8 && b2 == ((vv >> 16)
                & 0xff) as u8 && b3 == ((vv >> 24) & 0xff) as u8,
    ;
}

fn push_u64(out: &mut Vec<u8>, v: u64)
    ensures
        final(out)@ == old(out)@ + enc_u64(v),
{
    out.push((v & 0xff) as u8);
    out.push(((v >> 8) & 0xff) as u8);
    out.push(((v >> 16) & 0xff) as u8);
    out.push(((v >> 24) & 0xff) as u8);
    out.push(((v >> 32) & 0xff) as u8);
    out.push(((v >> 40) & 0xff) as u8);
    out.push(((v >> 48) & 0xff) as u8);
    out.push(((v >> 56) & 0xff) as u8);
    proof {
        assert(final(out)@ =~= old(out)@ + enc_u64(v));
    }
}

/// Serialize a map in the stable binary form.
pub fn encode_map(m: &Vec<Vec<Point3>>) -> (r: Vec<u8>)
    requires
        m@.len() < 0x1_0000_0000,
        forall|i: int| 0 <= i < m@.len() ==> (#[trigger] m@[i])@.len() == m@[0]@.len(),
        m@.len() > 0 ==> m@[0]@.len() < 0x1_0000_0000,
        forall|i: int, j: int|
            0 <= i < m@.len() && 0 <= j < m@[i]@.len() ==> point_ok(#[trigger] m@[i]@[j]),
    ensures
        r@ == spec_encode(view2(*m)),
{
    let mut out: Vec<u8> = Vec::new();
    let segments = m.len() as u32;
    let rows: u32 = if m.len() > 0 {
        m[0].len() as u32
    } else {
        0
    };
    out.push((segments & 0xff) as u8);
    out.push(((segments >> 8) & 0xff) as u8);
    out.push(((segments >> 16) & 0xff) as u8);
    out.push(((segments >> 24) & 0xff) as u8);
    out.push((rows & 0xff) as u8);
    out.push(((rows >> 8) & 0xff) as u8);
    out.push(((rows >> 16) & 0xff) as u8);
    out.push(((rows >> 24) & 0xff) as u8);
    let ghost header = enc_u32(segments) + enc_u32(rows);
    proof {
        assert(out@ =~= header);
        assert(view2(*m).len() == m@.len());
    }
    let mut i: usize = 0;
    while i < m.len()
        invariant
            0 <= i <= m@.len(),
            m@.len() < 0x1_0000_0000,
            forall|ii: int, j: int|
                0 <= ii < m@.len() && 0 <= j < m@[ii]@.len() ==> point_ok(#[trigger] m@[ii]@[j]),
            out@ == header + enc_cols(view2(*m).take(i as int)),
            header == enc_u32(segments) + enc_u32(rows),
        decreases m@.len() - i,
    {
        let col = &m[i];
        let mut j: usize = 0;
        while j < col.len()
            invariant
                0 <= j <= col@.len(),
                0 <= i < m@.len(),
                col@ == m@[i as int]@,
                forall|ii: int, jj: int|
                    0 <= ii < m@.len() && 0 <= jj < m@[ii]@.len() ==> point_ok(
                        #[trigger] m@[ii]@[jj],
                    ),
                out@ == header + enc_cols(view2(*m).take(i as int)) + enc_col(col@.take(j as int)),
                header == enc_u32(segments) + enc_u32(rows),
            decreases col@.len() - j,
        {
            let pt = col[j];
            assert(point_ok(m@[i as int]@[j as int]));
            push_u64(&mut out, (pt.x + COORD_BIAS) as u64);
            push_u64(&mut out, (pt.y + COORD_BIAS) as u64);
            push_u64(&mut out, (pt.z + COORD_BIAS) as u64);
            proof {
                assert(col@.take(j + 1).drop_last() =~= col@.take(j as int));
                assert(col@.take(j + 1).last() == col@[j as int]);
                assert(out@ =~= header + enc_cols(view2(*m).take(i as int)) + enc_col(
                    col@.take(j + 1),
                ));
            }
            j = j + 1;
        }
        proof {
            assert(col@.take(col@.len() as int) =~= col@);
            assert(view2(*m).take(i + 1).drop_last() =~= view2(*m).take(i as int));
            assert(view2(*m).take(i + 1).last() == view2(*m)[i as int]);
            assert(view2(*m)[i as int] == col@);
        }
        i = i + 1;
    }
    proof {
        assert(view2(*m).take(view2(*m).len() as int) =~= view2(*m));
        assert(out@ =~= spec_encode(view2(*m)));
    }
    out
}

fn read_u64(b: &Vec<u8>, off: usize) -> (v: u64)
    requires
        off + 8 <= b.len(),
    ensures
        v == dec_u64(b@.subrange(off as int, off as int + 8)),
{
    let v = b[off] as u64 | (b[off + 1] as u64) << 8u64 | (b[off + 2] as u64) << 16u64 | (b[off
        + 3] as u64) << 24u64 | (b[off + 4] as u64) << 32u64 | (b[off + 5] as u64) << 40u64 | (b[off
        + 6] as u64) << 48u64 | (b[off + 7] as u64) << 56u64;
    proof {
        let s = b@.subrange(off as int, off as int + 8);
        assert(s[0] == b@[off as int] && s[1] == b@[off as int + 1] && s[2] == b@[off as int + 2]
            && s[3] == b@[off as int + 3] && s[4] == b@[off as int + 4] && s[5] == b@[off as int + 5]
            && s[6] == b@[off as int + 6] && s[7] == b@[off as int + 7]);
    }
    v
}

fn read_coord(b: &Vec<u8>, off: usize) -> (r: Option<i64>)
    requires
        off + 8 <= b.len(),
    ensures
        r matches Option::Some(v) ==> v == dec_coord(b@.subrange(off as int, off as int + 8))
            && coord_ok(v),
        r is None ==> !word_ok(b@, off as int),
        r is Some ==> word_ok(b@, off as int),
{
    let v = read_u64(b, off);
    let lo: u64 = (COORD_BIAS - CODE_LIMIT) as u64;
    let hi: u64 = (COORD_BIAS + CODE_LIMIT) as u64;
    if v < lo || v > hi {
        None
    } else {
        if v >= COORD_BIAS as u64 {
            Some((v - COORD_BIAS as u64) as i64)
        } else {
            let d = (COORD_BIAS as u64 - v) as i64;
            proof {
                assert((v - COORD_BIAS as u64) as i64 == -d);
            }
            Some(-d)
        }
    }
}

/// Read a map back from the stable binary form; `None` when the bytes are
/// not a well-formed serialized map.
pub fn decode_map(b: &Vec<u8>) -> (r: Option<Vec<Vec<Point3>>>)
    ensures
        r is Some <==> spec_decode(b@) is Some,
        r matches Option::Some(m) ==> view2(m) == spec_decode(b@)->0 && (forall|i: int, j: int|
            0 <= i < m@.len() && 0 <= j < m@[i]@.len() ==> point_ok(#[trigger] m@[i]@[j])),
{
    if b.len() < 8 {
        return None;
    }
    let seg64: u64 = b[0] as u64 + (b[1] as u64) * 0x100 + (b[2] as u64) * 0x1_0000 + (b[3] as u64)
        * 0x100_0000;
    let row64: u64 = b[4] as u64 + (b[5] as u64) * 0x100 + (b[6] as u64) * 0x1_0000 + (b[7] as u64)
        * 0x100_0000;
    proof {
        assert(b@.subrange(0, 4)[0] == b@[0] && b@.subrange(0, 4)[1] == b@[1] && b@.subrange(
            0,
            4,
        )[2] == b@[2] && b@.subrange(0, 4)[3] == b@[3]);
        assert(b@.subrange(4, 8)[0] == b@[4] && b@.subrange(4, 8)[1] == b@[5] && b@.subrange(
            4,
            8,
        )[2] == b@[6] && b@.subrange(4, 8)[3] == b@[7]);
        assert(seg64 == dec_u32(b@.subrange(0, 4)));
        assert(row64 == dec_u32(b@.subrange(4, 8)));
    }
    proof {
        assert((seg64 as int) * (row64 as int) <= 0x1_0000_0000 * 0x1_0000_0000)
            by (nonlinear_arith)
            requires
                0 <= seg64 < 0x1_0000_0000 && 0 <= row64 < 0x1_0000_0000,
        ;
        assert(24 * ((seg64 as int) * (row64 as int)) == 24 * (seg64 as int) * (row64 as int))
            by (nonlinear_arith);
    }
    let total: u128 = 8 + 24 * (seg64 as u128) * (row64 as u128);
    if (b.len() as u128) != total {
        return None;
    }
    if seg64 == 0 && row64 != 0 {
        return None;
    }
    let segments = seg64 as usize;
    let rows = row64 as usize;
    let ghost ds = seg64 as int;
    let ghost dr = row64 as int;
    let mut out: Vec<Vec<Point3>> = Vec::new();
    let mut off: usize = 8;
    let mut i: usize = 0;
    while i < segments
        invariant
            0 <= i <= segments,
            segments == ds,
            rows == dr,
            ds < 0x1_0000_0000,
            dr < 0x1_0000_0000,
            b@.len() == 8 + 24 * ds * dr,
            ds == dec_u32(b@.subrange(0, 4)),
            dr == dec_u32(b@.subrange(4, 8)),
            ds > 0 || dr == 0,
            off == 8 + 24 * (i as int * dr),
            out@.len() == i,
            forall|ii: int| 0 <= ii < i ==> (#[trigger] out@[ii])@.len() == dr,
            forall|ii: int, jj: int|
                0 <= ii < i && 0 <= jj < dr ==> (#[trigger] out@[ii]@[jj]) == dec_point(
                    b@,
                    8 + 24 * (ii * dr + jj),
                ),
            forall|ii: int, jj: int|
                0 <= ii < i && 0 <= jj < dr ==> #[trigger] point_words_ok(
                    b@,
                    8 + 24 * (ii * dr + jj),
                ),
            forall|ii: int, jj: int|
                0 <= ii < i && 0 <= jj < dr ==> point_ok(#[trigger] out@[ii]@[jj]),
        decreases segments - i,
    {
        let mut col: Vec<Point3> = Vec::new();
        let mut j: usize = 0;
        let mut bad = false;
        while j < rows
            invariant_except_break
                0 <= j <= rows,
                0 <= i < segments,
                segments == ds,
                rows == dr,
                ds < 0x1_0000_0000,
                dr < 0x1_0000_0000,
                b@.len() == 8 + 24 * ds * dr,
                off == 8 + 24 * (i as int * dr + j as int),
                !bad,
                col@.len() == j,
                forall|jj: int|
                    0 <= jj < j ==> (#[trigger] col@[jj]) == dec_point(
                        b@,
                        8 + 24 * (i as int * dr + jj),
                    ),
                forall|jj: int| 0 <= jj < j ==> point_ok(#[trigger] col@[jj]),
                forall|jj: int|
                    0 <= jj < j ==> #[trigger] point_words_ok(b@, 8 + 24 * (i as int * dr + jj)),
            ensures
                (bad && 0 <= j < rows && !point_words_ok(
                    b@,
                    8 + 24 * (i as int * dr + j as int),
                )) || (!bad && j == rows && off == 8 + 24 * (i as int * dr + j as int)
                    && col@.len() == rows && (forall|jj: int|
                    0 <= jj < rows ==> (#[trigger] col@[jj]) == dec_point(
                        b@,
                        8 + 24 * (i as int * dr + jj),
                    )) && (forall|jj: int| 0 <= jj < rows ==> point_ok(#[trigger] col@[jj])) && (
                forall|jj: int|
                    0 <= jj < rows ==> #[trigger] point_words_ok(
                        b@,
                        8 + 24 * (i as int * dr + jj),
                    ))),
            decreases rows - j,
        {
            proof {
                assert(i as int * dr + j < ds * dr) by (nonlinear_arith)
                    requires
                        0 <= i < ds && 0 <= j < dr,
                ;
                assert(24 * (i as int * dr + j as int) + 24 <= 24 * (ds * dr)) by (nonlinear_arith)
                    requires
                        i as int * dr + j < ds * dr,
                ;
                assert(24 * (ds * dr) == 24 * ds * dr) by (nonlinear_arith);
                assert(off + 24 <= b@.len());
            }
            let used: usize = b.len();
            assert(off + 24 <= used);
            let x = read_coord(b, off);
            let y = read_coord(b, off + 8);
            let z = read_coord(b, off + 16);
            match (x, y, z) {
                (Option::Some(xv), Option::Some(yv), Option::Some(zv)) => {
                    col.push(Point3 { x: xv, y: yv, z: zv });
                    proof {
                        let o = off as int;
                        assert(dec_point(b@, o) == Point3 {
                            x: dec_coord(b@.subrange(o, o + 8)),
                            y: dec_coord(b@.subrange(o + 8, o + 16)),
                            z: dec_coord(b@.subrange(o + 16, o + 24)),
                        });
                    }
                },
                _ => {
                    bad = true;
                    break;
                },
            }
            off = off + 24;
            j = j + 1;
        }
        if bad {
            return None;
        }
        out.push(col);
        proof {
            assert(24 * (i as int * dr + dr) == 24 * ((i + 1) * dr)) by (nonlinear_arith);
        }
        i = i + 1;
    }
    proof {
        assert forall|ii: int, jj: int|
            0 <= ii < ds && 0 <= jj < dr implies #[trigger] point_words_ok(
            b@,
            8 + 24 * (ii * dr + jj),
        ) by {};
        assert(spec_decode(b@) is Some);
        let specm = spec_decode(b@)->0;
        assert forall|ii: int| 0 <= ii < ds implies #[trigger] view2(out)[ii] =~= specm[ii] by {
            assert forall|jj: int| 0 <= jj < dr implies #[trigger] view2(out)[ii][jj]
                == specm[ii][jj] by {
                assert(out@[ii]@[jj] == dec_point(b@, 8 + 24 * (ii * dr + jj)));
            };
        };
        assert(view2(out) =~~= specm);
    }
    Some(out)
}

} // verus!
