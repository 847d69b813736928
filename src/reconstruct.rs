//! Turning decoded factor bytes back into an image: per channel the left
//! factor (height by rank) times the right factor (rank by width), rounded
//! from units of 1/10000 to the nearest integer and clamped to a byte.
use vstd::prelude::*;
use crate::approx::{dot, shaped};
use crate::quantize::{
    entries_bytes, entry_bytes, entry_from_bytes, entry_value, flat, lemma_entry_round_trip,
};
use vstd::arithmetic::div_mod::lemma_fundamental_div_mod_converse;

verus! {

/// The `k`-th 16-bit entry of a channel's byte stream.
pub open spec fn stream_entry(bytes: Seq<u8>, k: int) -> int {
    entry_value(bytes[2 * k], bytes[2 * k + 1])
}

/// Number of bytes a channel's factors take.
pub open spec fn channel_len(width: nat, height: nat, rank: nat) -> nat {
    2 * (height * rank + rank * width)
}

/// Sum over the first `n` components of left entry `(i, t)` times right entry
/// `(t, j)`, both factors stored row-major, the left one first.
pub open spec fn channel_sum(bytes: Seq<u8>, width: nat, height: nat, rank: nat, i: int, j: int, n: nat) -> int
    decreases n,
{
    if n == 0 {
        0
    } else {
        let t = n - 1;
        channel_sum(bytes, width, height, rank, i, j, (n - 1) as nat)
            + stream_entry(bytes, i * rank + t) * stream_entry(bytes, height * rank + t * width + j)
    }
}

/// A value in units of 1/10000, rounded half away from zero to an integer and
/// clamped to `0..=255`.
pub open spec fn to_sample(x: int) -> u8 {
    if x < 0 {
        0
    } else if (x + 5000) / 10000 > 255 {
        255
    } else {
        ((x + 5000) / 10000) as u8
    }
}

/// The four-channel image decoded from three channels' factor bytes; the
/// fourth channel is always 255.
pub open spec fn decoded_image(r: Seq<u8>, g: Seq<u8>, b: Seq<u8>, width: nat, height: nat, rank: nat) -> Seq<u8> {
    Seq::new(
        4 * (height * width),
        |k: int|
            {
                let p = k / 4;
                let c = k % 4;
                let bytes = if c == 0 {
                    r
                } else if c == 1 {
                    g
                } else {
                    b
                };
                if c == 3 {
                    255u8
                } else {
                    to_sample(channel_sum(bytes, width, height, rank, p / width as int, p % width as int, rank))
                }
            },
    )
}

proof fn lemma_flat_index(m: Seq<Seq<i16>>, rows: nat, cols: nat, i: int, j: int)
    requires
        shaped(m, rows, cols),
        0 <= i < rows,
        0 <= j < cols,
    ensures
        flat(m).len() == rows * cols,
        i * cols + j < rows * cols,
        flat(m)[i * cols + j] == m[i][j],
    decreases rows,
{
    let init = m.drop_last();
    let r1 = (rows - 1) as nat;
    assert(shaped(init, r1, cols));
    lemma_flat_len(m, rows, cols);
    lemma_flat_len(init, r1, cols);
    assert(rows * cols == r1 * cols + cols) by (nonlinear_arith)
        requires r1 == rows - 1;
    if i < rows - 1 {
        lemma_flat_index(init, r1, cols, i, j);
        assert(i * cols + j < rows * cols);
    } else {
        assert(i * cols == r1 * cols);
    }
}

/// A matrix of `rows` rows of `cols` entries flattens to `rows * cols` entries.
pub proof fn lemma_flat_len(m: Seq<Seq<i16>>, rows: nat, cols: nat)
    requires
        shaped(m, rows, cols),
    ensures
        flat(m).len() == rows * cols,
    decreases rows,
{
    if rows > 0 {
        let r1 = (rows - 1) as nat;
        assert(shaped(m.drop_last(), r1, cols));
        lemma_flat_len(m.drop_last(), r1, cols);
        assert(m.last().len() == cols);
        assert(rows * cols == r1 * cols + cols) by (nonlinear_arith)
            requires r1 == rows - 1;
    } else {
        assert(rows * cols == 0) by (nonlinear_arith)
            requires rows == 0;
    }
}

proof fn lemma_stream_entry(v: Seq<i16>, k: int)
    requires
        0 <= k < v.len(),
    ensures
        stream_entry(entries_bytes(v), k) == v[k] as int,
{
    let b = entries_bytes(v);
    assert((2 * k) % 2 == 0 && (2 * k) / 2 == k);
    assert((2 * k + 1) % 2 == 1 && (2 * k + 1) / 2 == k);
    assert(b[2 * k] == entry_bytes(v[k]).0);
    assert(b[2 * k + 1] == entry_bytes(v[k]).1);
    lemma_entry_round_trip(v[k], 0, 0);
}

/// The bytes a channel's factors are sent as (left factor, then right factor,
/// each row-major, two little-endian bytes per entry) decode to exactly the
/// product of the factors: entry `(i, j)` is the sum over the components of
/// `left[i][t] * right[t][j]`.
pub proof fn lemma_channel_decodes_product(
    left: Seq<Seq<i16>>,
    right: Seq<Seq<i16>>,
    width: nat,
    height: nat,
    rank: nat,
    i: int,
    j: int,
    n: nat,
)
    requires
        shaped(left, height, rank),
        shaped(right, rank, width),
        0 <= i < height,
        0 <= j < width,
        n <= rank,
    ensures
        channel_sum(entries_bytes(flat(left)) + entries_bytes(flat(right)), width, height, rank, i, j, n)
            == dot(left, right, i, j, 0, n),
    decreases n,
{
    if n > 0 {
        lemma_channel_decodes_product(left, right, width, height, rank, i, j, (n - 1) as nat);
        let t = n - 1;
        let fl = flat(left);
        let fr = flat(right);
        let bytes = entries_bytes(fl) + entries_bytes(fr);
        lemma_flat_index(left, height, rank, i, t);
        lemma_flat_index(right, rank, width, t, j);
        let kl = i * rank + t;
        let kr = t * width + j;
        lemma_stream_entry(fl, kl);
        lemma_stream_entry(fr, kr);
        let nl = entries_bytes(fl).len();
        assert(nl == 2 * (height * rank));
        assert(bytes[2 * kl] == entries_bytes(fl)[2 * kl]);
        assert(bytes[2 * kl + 1] == entries_bytes(fl)[2 * kl + 1]);
        assert(2 * (height * rank + kr) == nl + 2 * kr);
        assert(bytes[2 * (height * rank + kr)] == entries_bytes(fr)[2 * kr]);
        assert(bytes[2 * (height * rank + kr) + 1] == entries_bytes(fr)[2 * kr + 1]);
        assert(height * rank + t * width + j == height * rank + kr);
    }
}

/// Rounds and clamps a value in units of 1/10000 to a byte.
pub fn sample_of(x: i64) -> (r: u8)
    requires
        x < 0x7fff_ffff_ffff_0000,
    ensures
        r == to_sample(x as int),
{
    if x < 0 {
        0
    } else {
        let q = (x + 5000) / 10000;
        if q > 255 {
            255
        } else {
            q as u8
        }
    }
}

/// Computes `channel_sum(bytes, width, height, rank, i, j, rank)`.
fn channel_entry(bytes: &Vec<u8>, width: usize, height: usize, rank: usize, i: usize, j: usize) -> (r: i64)
    requires
        bytes@.len() == channel_len(width as nat, height as nat, rank as nat),
        rank <= 65535,
        i < height,
        j < width,
    ensures
        r as int == channel_sum(bytes@, width as nat, height as nat, rank as nat, i as int, j as int, rank as nat),
        -(rank as int) * 0x4000_0000 <= r <= (rank as int) * 0x4000_0000,
{
    let total = bytes.len();
    let mut acc: i64 = 0;
    let mut t: usize = 0;
    while t < rank
        invariant
            total == bytes@.len(),
            bytes@.len() == channel_len(width as nat, height as nat, rank as nat),
            rank <= 65535,
            i < height,
            j < width,
            0 <= t <= rank,
            acc as int == channel_sum(bytes@, width as nat, height as nat, rank as nat, i as int, j as int, t as nat),
            -(t as int) * 0x4000_0000 <= acc <= (t as int) * 0x4000_0000,
        decreases rank - t,
    {
        proof {
            let (hh, rr, ww, ii, tt, jj) = (height as int, rank as int, width as int, i as int, t as int, j as int);
            assert(ii * rr + tt < hh * rr) by (nonlinear_arith)
                requires ii < hh, tt < rr, 0 <= ii, 0 <= tt;
            assert(tt * ww + jj < rr * ww) by (nonlinear_arith)
                requires tt < rr, jj < ww, 0 <= tt, 0 <= jj;
            assert(0 <= ii * rr && 0 <= tt * ww) by (nonlinear_arith)
                requires 0 <= ii, 0 <= rr, 0 <= tt, 0 <= ww;
            assert((tt + 1) * 0x4000_0000 <= 65535 * 0x4000_0000) by (nonlinear_arith)
                requires tt + 1 <= 65535;
        }
        let kl = i * rank + t;
        let kr = height * rank + t * width + j;
        let a = entry_from_bytes(bytes[2 * kl], bytes[2 * kl + 1]) as i64;
        let b = entry_from_bytes(bytes[2 * kr], bytes[2 * kr + 1]) as i64;
        proof {
            assert(-0x4000_0000 <= a * b <= 0x4000_0000) by (nonlinear_arith)
                requires -32768 <= a <= 32767, -32768 <= b <= 32767;
        }
        acc = acc + a * b;
        t = t + 1;
    }
    acc
}

/// The four-channel image (row-major, channels interleaved, fourth channel
/// 255) reconstructed from three channels' factor bytes.
pub fn reconstruct_image(r: &Vec<u8>, g: &Vec<u8>, b: &Vec<u8>, width: usize, height: usize, rank: usize) -> (out: Vec<u8>)
    requires
        r@.len() == channel_len(width as nat, height as nat, rank as nat),
        g@.len() == channel_len(width as nat, height as nat, rank as nat),
        b@.len() == channel_len(width as nat, height as nat, rank as nat),
        rank <= 65535,
        4 * (height * width) <= usize::MAX,
    ensures
        out@ == decoded_image(r@, g@, b@, width as nat, height as nat, rank as nat),
{
    let ghost target = decoded_image(r@, g@, b@, width as nat, height as nat, rank as nat);
    let mut out: Vec<u8> = Vec::new();
    let mut i: usize = 0;
    while i < height
        invariant
            r@.len() == channel_len(width as nat, height as nat, rank as nat),
            g@.len() == channel_len(width as nat, height as nat, rank as nat),
            b@.len() == channel_len(width as nat, height as nat, rank as nat),
            rank <= 65535,
            4 * (height * width) <= usize::MAX,
            target == decoded_image(r@, g@, b@, width as nat, height as nat, rank as nat),
            0 <= i <= height,
            out@ == target.take(4 * (i * width)),
        decreases height - i,
    {
        let mut j: usize = 0;
        while j < width
            invariant
                r@.len() == channel_len(width as nat, height as nat, rank as nat),
                g@.len() == channel_len(width as nat, height as nat, rank as nat),
                b@.len() == channel_len(width as nat, height as nat, rank as nat),
                rank <= 65535,
                4 * (height * width) <= usize::MAX,
                target == decoded_image(r@, g@, b@, width as nat, height as nat, rank as nat),
                0 <= i < height,
                0 <= j <= width,
                out@ == target.take(4 * (i * width + j)),
            decreases width - j,
        {
            let ghost p = i * width + j;
            proof {
                assert(p + 1 <= height * width) by (nonlinear_arith)
                    requires p == i * width + j, j < width, i < height;
                lemma_fundamental_div_mod_converse(p, width as int, i as int, j as int);
                lemma_fundamental_div_mod_converse(4 * p, 4, p, 0);
                lemma_fundamental_div_mod_converse(4 * p + 1, 4, p, 1);
                lemma_fundamental_div_mod_converse(4 * p + 2, 4, p, 2);
                lemma_fundamental_div_mod_converse(4 * p + 3, 4, p, 3);
            }
            let vr = sample_of(channel_entry(r, width, height, rank, i, j));
            let vg = sample_of(channel_entry(g, width, height, rank, i, j));
            let vb = sample_of(channel_entry(b, width, height, rank, i, j));
            out.push(vr);
            out.push(vg);
            out.push(vb);
            out.push(255);
            proof {
                assert(out@ =~= target.take(4 * (p + 1)));
                assert(4 * (i * width + j + 1) == 4 * (p + 1));
            }
            j = j + 1;
        }
        proof {
            assert(i * width + width == (i + 1) * width) by (nonlinear_arith);
        }
        i = i + 1;
    }
    proof {
        assert(target.len() == 4 * (height * width));
        assert(out@ =~= target);
    }
    out
}

} // verus!
