//! The tick payload: per tick, a 4-byte timestamp offset, a change bitmap
//! and one delta frame per changed symbol, in ascending index order.

use vstd::prelude::*;
use crate::delta_encoding::{DeltaEncoding, decode_at, lemma_decode_frame};
use crate::types::CodecError;
use crate::wire::{le_u32, read_u32, lemma_read_u32};

verus! {

/// Whether the symbol at index `i` changed: its delta is non-zero.
pub open spec fn changed(d: Seq<i32>, i: int) -> bool {
    0 <= i < d.len() && d[i] != 0
}

/// Number of bitmap bytes for `n` symbols.
pub open spec fn bitmap_len(n: int) -> int {
    (n + 7) / 8
}

/// Byte `j` of the bitmap of `d`, with its bits below `k` filled in.
pub open spec fn bitmap_byte(d: Seq<i32>, j: int, k: nat) -> u8
    decreases k,
{
    if k == 0 {
        0u8
    } else {
        let below = bitmap_byte(d, j, (k - 1) as nat);
        if changed(d, 8 * j + k - 1) {
            below | (1u8 << ((k - 1) as u8))
        } else {
            below
        }
    }
}

/// The change bitmap of `d`: bit `i` (bit `i % 8` of byte `i / 8`) is set
/// exactly when symbol `i` changed.
pub open spec fn bitmap_of(d: Seq<i32>) -> Seq<u8> {
    Seq::new(bitmap_len(d.len() as int) as nat, |j: int| bitmap_byte(d, j, 8))
}

/// Bit `i` of a bitmap, least significant bit first within each byte.
pub open spec fn bit_set(bm: Seq<u8>, i: int) -> bool {
    (bm[i / 8] >> ((i % 8) as u8)) & 1u8 == 1u8
}

/// Number of bits set among the first `k` bits of `bm`.
pub open spec fn count_bits(bm: Seq<u8>, k: nat) -> nat
    decreases k,
{
    if k == 0 {
        0
    } else {
        count_bits(bm, (k - 1) as nat) + if bit_set(bm, k - 1) {
            1nat
        } else {
            0nat
        }
    }
}

/// Population count of a bitmap.
pub open spec fn popcount(bm: Seq<u8>) -> nat {
    count_bits(bm, 8 * bm.len())
}

/// The frames of the changed symbols of `d`, in ascending index order.
pub open spec fn frame_list(d: Seq<i32>) -> Seq<DeltaEncoding>
    decreases d.len(),
{
    if d.len() == 0 {
        seq![]
    } else if d.last() != 0 {
        frame_list(d.drop_last()).push(DeltaEncoding::spec_from_basis(d.last()))
    } else {
        frame_list(d.drop_last())
    }
}

/// The bytes of a run of frames.
pub open spec fn frames_bytes(fs: Seq<DeltaEncoding>) -> Seq<u8>
    decreases fs.len(),
{
    if fs.len() == 0 {
        seq![]
    } else {
        frames_bytes(fs.drop_last()) + fs.last().frame()
    }
}

/// The record of one tick: timestamp offset, bitmap, frames.
pub open spec fn tick_record(ts_delta: u32, d: Seq<i32>) -> Seq<u8> {
    le_u32(ts_delta) + bitmap_of(d) + frames_bytes(frame_list(d))
}

/// The records of `ticks`, each with its timestamp taken relative to `base`.
pub open spec fn records_of(base: u64, ticks: Seq<(u64, Seq<i32>)>) -> Seq<u8>
    decreases ticks.len(),
{
    if ticks.len() == 0 {
        seq![]
    } else {
        records_of(base, ticks.drop_last()) + tick_record(
            (ticks.last().0 - base) as u32,
            ticks.last().1,
        )
    }
}

/// Decodes the deltas of the first `k` symbols, whose frames start at
/// `pos`: a set bit reads one frame, a clear bit gives 0. Returns the deltas
/// and the position after the last frame; `None` where a frame runs past
/// the end of `buf`.
pub open spec fn decode_deltas(buf: Seq<u8>, pos: int, bm: Seq<u8>, k: nat) -> Option<
    (Seq<i32>, int),
>
    decreases k,
{
    if k == 0 {
        Some((seq![], pos))
    } else {
        match decode_deltas(buf, pos, bm, (k - 1) as nat) {
            None => None,
            Some((ds, p)) => if bit_set(bm, k - 1) {
                match decode_at(buf, p) {
                    None => None,
                    Some((e, q)) => Some((ds.push(e.value()), q)),
                }
            } else {
                Some((ds.push(0), p))
            },
        }
    }
}

/// Decoding frames moves forwards, and not past the end.
pub proof fn lemma_decode_deltas_advances(buf: Seq<u8>, pos: int, bm: Seq<u8>, k: nat)
    requires
        0 <= pos <= buf.len(),
    ensures
        decode_deltas(buf, pos, bm, k) is Some ==> {
            let (ds, q) = decode_deltas(buf, pos, bm, k)->Some_0;
            pos <= q <= buf.len() && ds.len() == k
        },
    decreases k,
{
    if k > 0 {
        lemma_decode_deltas_advances(buf, pos, bm, (k - 1) as nat);
    }
}

/// Once a frame runs past the end, decoding more symbols fails too.
pub proof fn lemma_decode_deltas_stays_none(buf: Seq<u8>, pos: int, bm: Seq<u8>, k: nat, m: nat)
    requires
        k <= m,
        decode_deltas(buf, pos, bm, k) is None,
    ensures
        decode_deltas(buf, pos, bm, m) is None,
    decreases m - k,
{
    if k < m {
        lemma_decode_deltas_stays_none(buf, pos, bm, k, (m - 1) as nat);
    }
}

/// Decodes the tick records from `pos` on, into timestamp offsets and
/// per-symbol deltas for `n` symbols. Decoding stops, keeping what it has,
/// where the buffer ends before a timestamp offset or a bitmap; it fails
/// where a frame runs past the end.
pub open spec fn decode_records(buf: Seq<u8>, n: nat, pos: int) -> Result<
    Seq<(u32, Seq<i32>)>,
    CodecError,
>
    decreases buf.len() - pos,
{
    let bml = bitmap_len(n as int);
    if pos < 0 || pos + 4 + bml > buf.len() {
        Ok(seq![])
    } else {
        let bm = buf.subrange(pos + 4, pos + 4 + bml);
        match decode_deltas(buf, pos + 4 + bml, bm, n) {
            None => Err(CodecError::DeltaUnderrun),
            Some((ds, q)) => {
                proof {
                    lemma_decode_deltas_advances(buf, pos + 4 + bml, bm, n);
                }
                match decode_records(buf, n, q) {
                    Err(e) => Err(e),
                    Ok(rest) => Ok(seq![(read_u32(buf, pos), ds)] + rest),
                }
            },
        }
    }
}

/// Timestamps of `ticks` taken relative to `base`, with their deltas.
pub open spec fn relative(base: u64, ticks: Seq<(u64, Seq<i32>)>) -> Seq<(u32, Seq<i32>)> {
    ticks.map_values(|t: (u64, Seq<i32>)| ((t.0 - base) as u32, t.1))
}

proof fn lemma_bitmap_byte_bit(d: Seq<i32>, j: int, k: nat, m: u8)
    requires
        k <= 8,
        m < 8,
    ensures
        ((bitmap_byte(d, j, k) >> m) & 1u8 == 1u8) == ((m as int) < k && changed(d, 8 * j + m)),
    decreases k,
{
    if k > 0 {
        lemma_bitmap_byte_bit(d, j, (k - 1) as nat, m);
        let b = bitmap_byte(d, j, (k - 1) as nat);
        let t = (k - 1) as u8;
        assert(t < 8 && m < 8 ==> (((b | (1u8 << t)) >> m) & 1u8 == 1u8 <==> ((b >> m) & 1u8
            == 1u8 || m == t))) by (bit_vector);
    } else {
        assert((0u8 >> m) & 1u8 == 0u8) by (bit_vector);
    }
}

/// Bit `i` of the bitmap of `d` is set exactly when symbol `i` changed.
pub proof fn lemma_bitmap_bits(d: Seq<i32>, i: int)
    requires
        0 <= i < 8 * bitmap_len(d.len() as int),
    ensures
        bit_set(bitmap_of(d), i) == changed(d, i),
{
    let j = i / 8;
    let m = (i % 8) as u8;
    lemma_bitmap_byte_bit(d, j, 8, m);
    assert(8 * j + m == i);
}

proof fn lemma_count_bits_prefix(d: Seq<i32>, k: nat)
    requires
        k <= d.len(),
    ensures
        count_bits(bitmap_of(d), k) == frame_list(d.subrange(0, k as int)).len(),
    decreases k,
{
    if k > 0 {
        lemma_count_bits_prefix(d, (k - 1) as nat);
        lemma_bitmap_bits(d, k - 1);
        assert(d.subrange(0, k as int).drop_last() =~= d.subrange(0, k - 1));
    } else {
        assert(d.subrange(0, 0) =~= Seq::<i32>::empty());
    }
}

proof fn lemma_count_bits_padding(d: Seq<i32>, k: nat)
    requires
        d.len() <= k <= 8 * bitmap_len(d.len() as int),
    ensures
        count_bits(bitmap_of(d), k) == count_bits(bitmap_of(d), d.len()),
    decreases k,
{
    if k > d.len() {
        lemma_count_bits_padding(d, (k - 1) as nat);
        lemma_bitmap_bits(d, k - 1);
    }
}

/// The bitmap of `d` has as many bits set as there are frames after it.
pub proof fn lemma_popcount_frames(d: Seq<i32>)
    ensures
        popcount(bitmap_of(d)) == frame_list(d).len(),
{
    let n = d.len();
    lemma_count_bits_padding(d, (8 * bitmap_len(n as int)) as nat);
    lemma_count_bits_prefix(d, n);
    assert(d.subrange(0, n as int) =~= d);
}

proof fn lemma_frame_list_append(a: Seq<i32>, b: Seq<i32>)
    ensures
        frame_list(a + b) == frame_list(a) + frame_list(b),
    decreases b.len(),
{
    if b.len() == 0 {
        assert(a + b =~= a);
        assert(frame_list(a) + frame_list(b) =~= frame_list(a));
    } else {
        lemma_frame_list_append(a, b.drop_last());
        assert((a + b).drop_last() =~= a + b.drop_last());
        assert((a + b).last() == b.last());
        if b.last() != 0 {
            let e = DeltaEncoding::spec_from_basis(b.last());
            assert((frame_list(a) + frame_list(b.drop_last())).push(e) =~= frame_list(a) + frame_list(
                b.drop_last(),
            ).push(e));
        }
    }
}

proof fn lemma_frames_bytes_append(x: Seq<DeltaEncoding>, y: Seq<DeltaEncoding>)
    ensures
        frames_bytes(x + y) == frames_bytes(x) + frames_bytes(y),
    decreases y.len(),
{
    if y.len() == 0 {
        assert(x + y =~= x);
        assert(frames_bytes(x) + frames_bytes(y) =~= frames_bytes(x));
    } else {
        lemma_frames_bytes_append(x, y.drop_last());
        assert((x + y).drop_last() =~= x + y.drop_last());
        assert((x + y).last() == y.last());
        assert(frames_bytes(x) + frames_bytes(y.drop_last()) + y.last().frame() =~= frames_bytes(x)
            + (frames_bytes(y.drop_last()) + y.last().frame()));
    }
}

proof fn lemma_from_basis_value(bp: i32)
    ensures
        DeltaEncoding::spec_from_basis(bp).value() == bp,
        DeltaEncoding::spec_from_basis(bp).in_range(),
{
}

/// The frames of `d`, laid out at `fpos`, decode under its bitmap back to `d`.
proof fn lemma_decode_deltas_of_frames(
    buf: Seq<u8>,
    fpos: int,
    bm: Seq<u8>,
    d: Seq<i32>,
    k: nat,
)
    requires
        0 <= fpos,
        fpos + frames_bytes(frame_list(d)).len() <= buf.len(),
        buf.subrange(fpos, fpos + frames_bytes(frame_list(d)).len()) == frames_bytes(
            frame_list(d),
        ),
        forall|i: int| 0 <= i < d.len() ==> bit_set(bm, i) == changed(d, i),
        k <= d.len(),
    ensures
        decode_deltas(buf, fpos, bm, k) == Some(
            (
                d.subrange(0, k as int),
                fpos + frames_bytes(frame_list(d.subrange(0, k as int))).len(),
            ),
        ),
    decreases k,
{
    if k == 0 {
        assert(d.subrange(0, 0) =~= Seq::<i32>::empty());
    } else {
        let km = (k - 1) as nat;
        lemma_decode_deltas_of_frames(buf, fpos, bm, d, km);
        let pre = d.subrange(0, km as int);
        let cur = d.subrange(0, k as int);
        assert(cur.drop_last() =~= pre);
        assert(cur.last() == d[km as int]);
        let p = fpos + frames_bytes(frame_list(pre)).len();
        if d[km as int] != 0 {
            let e = DeltaEncoding::spec_from_basis(d[km as int]);
            lemma_from_basis_value(d[km as int]);
            let all = frames_bytes(frame_list(d));
            let a = frames_bytes(frame_list(pre));
            let f = e.frame();
            assert(frame_list(cur) == frame_list(pre).push(e));
            assert(frame_list(pre).push(e).drop_last() =~= frame_list(pre));
            assert(frames_bytes(frame_list(cur)) == a + f);
            assert(d =~= cur + d.subrange(k as int, d.len() as int));
            lemma_frame_list_append(cur, d.subrange(k as int, d.len() as int));
            lemma_frames_bytes_append(
                frame_list(cur),
                frame_list(d.subrange(k as int, d.len() as int)),
            );
            let rest = frames_bytes(frame_list(d.subrange(k as int, d.len() as int)));
            assert(all == a + f + rest);
            assert(buf.subrange(p, p + f.len()) =~= f) by {
                assert forall|i: int| 0 <= i < f.len() implies buf.subrange(p, p + f.len())[i]
                    == f[i] by {
                    assert(buf.subrange(fpos, fpos + all.len())[a.len() + i] == all[a.len() + i]);
                    assert(all[a.len() + i] == f[i]);
                }
            }
            lemma_decode_frame(e, buf, p);
            assert(pre.push(d[km as int]) =~= cur);
        } else {
            assert(frame_list(cur) == frame_list(pre));
            assert(pre.push(0) =~= cur);
        }
    }
}

proof fn lemma_records_front(base: u64, ticks: Seq<(u64, Seq<i32>)>)
    requires
        ticks.len() > 0,
    ensures
        records_of(base, ticks) == tick_record((ticks[0].0 - base) as u32, ticks[0].1) + records_of(
            base,
            ticks.drop_first(),
        ),
    decreases ticks.len(),
{
    let r0 = tick_record((ticks[0].0 - base) as u32, ticks[0].1);
    if ticks.len() == 1 {
        assert(ticks.drop_last() =~= Seq::<(u64, Seq<i32>)>::empty());
        assert(ticks.drop_first() =~= Seq::<(u64, Seq<i32>)>::empty());
        assert(records_of(base, ticks.drop_last()) == Seq::<u8>::empty());
        assert(ticks.last() == ticks[0]);
        assert(records_of(base, ticks) =~= r0);
        assert(r0 + records_of(base, ticks.drop_first()) =~= r0);
    } else {
        lemma_records_front(base, ticks.drop_last());
        assert(ticks.drop_last().drop_first() =~= ticks.drop_first().drop_last());
        assert(ticks.drop_first().last() == ticks.last());
        let rl = tick_record((ticks.last().0 - base) as u32, ticks.last().1);
        assert(r0 + records_of(base, ticks.drop_first().drop_last()) + rl =~= r0 + (records_of(
            base,
            ticks.drop_first().drop_last(),
        ) + rl));
    }
}

/// One record laid out at `pos` reads back as its offset and deltas.
proof fn lemma_decode_record(buf: Seq<u8>, pos: int, rel: u32, d: Seq<i32>)
    requires
        0 <= pos,
        pos + tick_record(rel, d).len() <= buf.len(),
        buf.subrange(pos, pos + tick_record(rel, d).len()) == tick_record(rel, d),
    ensures
        pos + 4 + bitmap_len(d.len() as int) <= buf.len(),
        read_u32(buf, pos) == rel,
        decode_deltas(
            buf,
            pos + 4 + bitmap_len(d.len() as int),
            buf.subrange(pos + 4, pos + 4 + bitmap_len(d.len() as int)),
            d.len(),
        ) == Some((d, pos + tick_record(rel, d).len())),
{
    let bml = bitmap_len(d.len() as int);
    let r = tick_record(rel, d);
    let fb = frames_bytes(frame_list(d));
    let whole = buf.subrange(pos, pos + r.len());
    assert(bitmap_of(d).len() == bml);
    assert(r.len() == 4 + bml + fb.len());
    assert(buf.subrange(pos, pos + 4) =~= le_u32(rel)) by {
        assert forall|i: int| 0 <= i < 4 implies buf.subrange(pos, pos + 4)[i] == le_u32(rel)[i] by {
            assert(whole[i] == r[i]);
        }
    }
    lemma_read_u32(buf, pos, rel);
    let bm = buf.subrange(pos + 4, pos + 4 + bml);
    assert(bm =~= bitmap_of(d)) by {
        assert forall|i: int| 0 <= i < bml implies bm[i] == bitmap_of(d)[i] by {
            assert(whole[4 + i] == r[4 + i]);
        }
    }
    assert forall|i: int| 0 <= i < d.len() implies bit_set(bm, i) == changed(d, i) by {
        lemma_bitmap_bits(d, i);
    }
    let fpos = pos + 4 + bml;
    assert(buf.subrange(fpos, fpos + fb.len()) =~= fb) by {
        assert forall|i: int| 0 <= i < fb.len() implies buf.subrange(fpos, fpos + fb.len())[i]
            == fb[i] by {
            assert(whole[4 + bml + i] == r[4 + bml + i]);
        }
    }
    lemma_decode_deltas_of_frames(buf, fpos, bm, d, d.len());
    assert(d.subrange(0, d.len() as int) =~= d);
}

/// The records of `ticks`, when they fill `buf` from `pos` to its end,
/// decode back to the ticks' relative timestamps and deltas.
pub proof fn lemma_decode_records(
    buf: Seq<u8>,
    n: nat,
    pos: int,
    base: u64,
    ticks: Seq<(u64, Seq<i32>)>,
)
    requires
        0 <= pos <= buf.len(),
        buf.subrange(pos, buf.len() as int) == records_of(base, ticks),
        forall|i: int| 0 <= i < ticks.len() ==> (#[trigger] ticks[i]).1.len() == n,
    ensures
        decode_records(buf, n, pos) == Ok::<Seq<(u32, Seq<i32>)>, CodecError>(
            relative(base, ticks),
        ),
    decreases ticks.len(),
{
    if ticks.len() == 0 {
        assert(relative(base, ticks) =~= Seq::<(u32, Seq<i32>)>::empty());
    } else {
        lemma_records_front(base, ticks);
        let t0 = ticks[0];
        let rel0 = (t0.0 - base) as u32;
        let r0 = tick_record(rel0, t0.1);
        let rest = records_of(base, ticks.drop_first());
        let whole = buf.subrange(pos, buf.len() as int);
        assert(whole == r0 + rest);
        assert(buf.subrange(pos, pos + r0.len()) =~= r0) by {
            assert forall|i: int| 0 <= i < r0.len() implies buf.subrange(pos, pos + r0.len())[i]
                == r0[i] by {
                assert(whole[i] == r0[i]);
            }
        }
        lemma_decode_record(buf, pos, rel0, t0.1);
        let q = pos + r0.len();
        assert(buf.subrange(q, buf.len() as int) =~= rest) by {
            assert forall|i: int| 0 <= i < rest.len() implies buf.subrange(q, buf.len() as int)[i]
                == rest[i] by {
                assert(whole[r0.len() + i] == rest[i]);
            }
        }
        assert forall|i: int| 0 <= i < ticks.drop_first().len() implies (
        #[trigger] ticks.drop_first()[i]).1.len() == n by {
            assert(ticks.drop_first()[i] == ticks[i + 1]);
        }
        lemma_decode_records(buf, n, q, base, ticks.drop_first());
        assert(seq![(rel0, t0.1)] + relative(base, ticks.drop_first()) =~= relative(base, ticks));
    }
}

/// Each record takes at least its four-byte timestamp offset, and the
/// records of a prefix of `ticks` are no longer than those of all of them.
pub proof fn lemma_records_len_bounds(base: u64, ticks: Seq<(u64, Seq<i32>)>, i: int)
    requires
        0 <= i <= ticks.len(),
    ensures
        records_of(base, ticks).len() >= 4 * ticks.len(),
        records_of(base, ticks.subrange(0, i)).len() <= records_of(base, ticks).len(),
    decreases ticks.len(),
{
    if ticks.len() == 0 {
        assert(ticks.subrange(0, i) =~= ticks);
    } else {
        let init = ticks.drop_last();
        if i == ticks.len() {
            assert(ticks.subrange(0, i) =~= ticks);
            lemma_records_len_bounds(base, init, 0);
        } else {
            lemma_records_len_bounds(base, init, i);
            assert(init.subrange(0, i) =~= ticks.subrange(0, i));
        }
    }
}

} // verus!
