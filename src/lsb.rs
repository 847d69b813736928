//! The bit-plane codec: a pixel buffer and a cursor that walks its bytes
//! channel by channel, then plane by plane, reading and writing one bit per slot.
use vstd::prelude::*;
use crate::quantize::{
    binary_digits, lemma_bits_round_trip, lemma_low_bits_digits, two_pow, lemma_low_bits_len, lemma_two_pow_small, lemma_value_bound, low_bits,
    parse_bits, value_of_bits, entries_bytes, flat,
};
use crate::approx::{dot, shaped};
use crate::reconstruct::{
    channel_len, decoded_image, lemma_channel_decodes_product, lemma_flat_len, reconstruct_image,
    to_sample,
};
use vstd::arithmetic::div_mod::{
    lemma_fundamental_div_mod, lemma_fundamental_div_mod_converse, lemma_small_mod,
};

verus! {

/// Number of interleaved color channels in a pixel buffer.
pub const CHANNELS: usize = 3;

/// Highest number of bit-planes a byte offers.
pub const MAX_PLANES: usize = 8;

/// Why an encode or decode call stopped.
#[derive(Debug, Clone, Copy, PartialEq, Eq, Structural)]
pub enum StegoError {
    /// No slot is left within the configured bit-plane budget.
    CapacityExhausted,
    /// A value does not fit the field it is written to.
    DomainError,
    /// The stream does not describe a payload that the buffer can hold.
    MalformedStream,
}

/// Number of buffer bytes that belong to whole pixels.
pub open spec fn usable_len(len: nat) -> nat {
    (len - len % 3) as nat
}

/// Number of bit slots a buffer of `len` bytes offers with `max_planes` planes.
pub open spec fn capacity(len: nat, max_planes: nat) -> nat {
    usable_len(len) * max_planes
}

/// The cursor (channel, byte index, plane) after `n` slots have been used.
/// A buffer without a whole pixel keeps its cursor at the first slot; past
/// the last slot of the budget the cursor stands exhausted, at plane
/// `max_planes`.
pub open spec fn cursor_at(len: nat, max_planes: nat, n: nat) -> (nat, nat, nat) {
    let l = usable_len(len);
    if l == 0 {
        (0, 0, 0)
    } else if n >= l * max_planes {
        (0, 0, max_planes)
    } else {
        ((n % l) % 3, n % l, n / l)
    }
}

/// One move of the slot allocator: next channel, else next pixel, else next plane.
pub open spec fn step(len: nat, max_planes: nat, c: (nat, nat, nat)) -> (nat, nat, nat) {
    if usable_len(len) == 0 || c.2 >= max_planes {
        c
    } else if c.1 + 1 < usable_len(len) {
        (if c.0 == 2 { 0 } else { c.0 + 1 }, c.1 + 1, c.2)
    } else {
        (0, 0, c.2 + 1)
    }
}

/// The cursor reached from a fresh start after `n` moves.
pub open spec fn steps(len: nat, max_planes: nat, n: nat) -> (nat, nat, nat)
    decreases n,
{
    if n == 0 {
        (0, 0, 0)
    } else {
        step(len, max_planes, steps(len, max_planes, (n - 1) as nat))
    }
}

proof fn lemma_step(len: nat, max_planes: nat, n: nat)
    requires
        n < capacity(len, max_planes),
    ensures
        usable_len(len) > 0,
        cursor_at(len, max_planes, n).1 < usable_len(len),
        cursor_at(len, max_planes, n).2 < max_planes,
        n == usable_len(len) * cursor_at(len, max_planes, n).2 + cursor_at(len, max_planes, n).1,
        cursor_at(len, max_planes, (n + 1) as nat) == step(len, max_planes, cursor_at(len, max_planes, n)),
{
    let l = usable_len(len);
    let m = max_planes;
    assert(l > 0) by (nonlinear_arith)
        requires n < l * m;
    let i = n % l;
    let p = n / l;
    lemma_fundamental_div_mod(n as int, l as int);
    assert(p < m) by (nonlinear_arith)
        requires n == l * p + i, 0 <= i, n < l * m, l > 0;
    if i + 1 < l {
        lemma_fundamental_div_mod_converse((n + 1) as int, l as int, p as int, (i + 1) as int);
        assert(n + 1 < l * m) by (nonlinear_arith)
            requires n + 1 == l * p + i + 1, i + 1 < l, p < m, p >= 0;
    } else {
        assert(n + 1 == (p + 1) * l) by (nonlinear_arith)
            requires n == l * p + i, i + 1 == l;
        if p + 1 < m {
            lemma_fundamental_div_mod_converse((n + 1) as int, l as int, (p + 1) as int, 0);
            assert(n + 1 < l * m) by (nonlinear_arith)
                requires n + 1 == (p + 1) * l, p + 1 < m, l > 0;
        } else {
            assert(n + 1 >= l * m) by (nonlinear_arith)
                requires n + 1 == (p + 1) * l, p + 1 == m;
        }
    }
}

/// The slot allocator visits the same cursors, in the same order, for every
/// codec over a buffer of the same length and plane budget: after `n` moves
/// from a fresh start the cursor is a function of `n` alone.
pub proof fn lemma_cursor_determinism(len: nat, max_planes: nat, n: nat)
    requires
        1 <= max_planes <= MAX_PLANES,
    ensures
        steps(len, max_planes, n) == cursor_at(len, max_planes, n),
    decreases n,
{
    let l = usable_len(len);
    if n == 0 {
        if l > 0 {
            assert(0 < l * max_planes) by (nonlinear_arith)
                requires l > 0, max_planes >= 1;
        }
    } else {
        lemma_cursor_determinism(len, max_planes, (n - 1) as nat);
        if n - 1 < capacity(len, max_planes) {
            lemma_step(len, max_planes, (n - 1) as nat);
        }
    }
}

/// What the cursor after `n` slots tells: `n` is its plane times the usable
/// length plus its byte index, its channel is the byte index modulo three,
/// and a slot is left exactly when the buffer has a usable byte and the plane
/// is within the budget.
pub proof fn lemma_cursor_at_facts(len: nat, max_planes: nat, n: nat)
    requires
        1 <= max_planes,
        n <= capacity(len, max_planes),
    ensures
        ({
            let c = cursor_at(len, max_planes, n);
            let l = usable_len(len);
            &&& n == l * c.2 + c.1
            &&& c.0 == c.1 % 3
            &&& c.2 <= max_planes
            &&& l > 0 ==> c.1 < l
            &&& (n < capacity(len, max_planes) <==> (l > 0 && c.2 < max_planes))
        }),
{
    let l = usable_len(len);
    if n < capacity(len, max_planes) {
        lemma_step(len, max_planes, n);
    } else {
        assert(n == l * max_planes);
    }
}

/// The bit held by slot `s`: bit `s / L` of byte `s % L`, with `L` the usable length.
pub open spec fn bit_at(img: Seq<u8>, s: nat) -> bool {
    let l = usable_len(img.len());
    ((img[(s % l) as int] >> ((s / l) as u8)) & 1u8) == 1u8
}

/// The digit of slot `s`.
pub open spec fn bit_char(img: Seq<u8>, s: nat) -> char {
    if bit_at(img, s) {
        '1'
    } else {
        '0'
    }
}

/// The buffer with slot `s` set to `v`.
pub open spec fn set_bit(img: Seq<u8>, s: nat, v: bool) -> Seq<u8> {
    let l = usable_len(img.len());
    let i = (s % l) as int;
    let m = 1u8 << ((s / l) as u8);
    img.update(i, if v { img[i] | m } else { img[i] & !m })
}

/// The buffer after writing the digits `bits` from slot `start` on; a digit
/// other than `'1'` clears its slot.
pub open spec fn written(img: Seq<u8>, start: nat, bits: Seq<char>) -> Seq<u8>
    decreases bits.len(),
{
    if bits.len() == 0 {
        img
    } else {
        set_bit(
            written(img, start, bits.drop_last()),
            (start + bits.len() - 1) as nat,
            bits.last() == '1',
        )
    }
}

/// The `n` digits held by the slots from `start` on.
pub open spec fn read_spec(img: Seq<u8>, start: nat, n: nat) -> Seq<char> {
    Seq::new(n, |j: int| bit_char(img, (start + j) as nat))
}

/// A string made of the digits `'0'` and `'1'` only.
pub open spec fn is_bit_string(bits: Seq<char>) -> bool {
    forall|j: int| 0 <= j < bits.len() ==> bits[j] == '0' || bits[j] == '1'
}

proof fn lemma_bit_ops(b: u8, p: u8, q: u8)
    requires
        p < 8,
        q < 8,
    ensures
        ((b | (1u8 << p)) >> p) & 1u8 == 1u8,
        ((b & !(1u8 << p)) >> p) & 1u8 == 0u8,
        p != q ==> ((b | (1u8 << p)) >> q) & 1u8 == (b >> q) & 1u8,
        p != q ==> ((b & !(1u8 << p)) >> q) & 1u8 == (b >> q) & 1u8,
        (b & (1u8 << p)) > 0 <==> (b >> p) & 1u8 == 1u8,
{
    assert(((b | (1u8 << p)) >> p) & 1u8 == 1u8) by (bit_vector)
        requires p < 8;
    assert(((b & !(1u8 << p)) >> p) & 1u8 == 0u8) by (bit_vector)
        requires p < 8;
    assert(p != q ==> ((b | (1u8 << p)) >> q) & 1u8 == (b >> q) & 1u8) by (bit_vector)
        requires p < 8, q < 8;
    assert(p != q ==> ((b & !(1u8 << p)) >> q) & 1u8 == (b >> q) & 1u8) by (bit_vector)
        requires p < 8, q < 8;
    assert((b & (1u8 << p)) > 0 <==> (b >> p) & 1u8 == 1u8) by (bit_vector)
        requires p < 8;
}

proof fn lemma_set_bit(img: Seq<u8>, s: nat, t: nat, v: bool)
    requires
        s < capacity(img.len(), MAX_PLANES as nat),
        t < capacity(img.len(), MAX_PLANES as nat),
    ensures
        set_bit(img, s, v).len() == img.len(),
        bit_at(set_bit(img, s, v), t) == if s == t { v } else { bit_at(img, t) },
{
    let m = MAX_PLANES as nat;
    lemma_step(img.len(), m, s);
    lemma_step(img.len(), m, t);
    let l = usable_len(img.len());
    let ps = (s / l) as u8;
    let pt = (t / l) as u8;
    lemma_bit_ops(img[(s % l) as int], ps, pt);
    if s != t && s % l == t % l {
        assert(ps != pt);
    }
}

proof fn lemma_written(img: Seq<u8>, start: nat, bits: Seq<char>, t: nat)
    requires
        start + bits.len() <= capacity(img.len(), MAX_PLANES as nat),
        t < capacity(img.len(), MAX_PLANES as nat),
    ensures
        written(img, start, bits).len() == img.len(),
        bit_at(written(img, start, bits), t) == if start <= t < start + bits.len() {
            bits[t - start] == '1'
        } else {
            bit_at(img, t)
        },
    decreases bits.len(),
{
    if bits.len() > 0 {
        let prev = written(img, start, bits.drop_last());
        lemma_written(img, start, bits.drop_last(), t);
        lemma_set_bit(prev, (start + bits.len() - 1) as nat, t, bits.last() == '1');
    }
}

/// Digits written from a slot on are read back unchanged from the same slot,
/// as long as every slot lies within the buffer's eight planes.
pub proof fn lemma_round_trip(img: Seq<u8>, start: nat, bits: Seq<char>)
    requires
        start + bits.len() <= capacity(img.len(), MAX_PLANES as nat),
        is_bit_string(bits),
    ensures
        read_spec(written(img, start, bits), start, bits.len()) == bits,
{
    assert forall|j: int| 0 <= j < bits.len() implies read_spec(
        written(img, start, bits),
        start,
        bits.len(),
    )[j] == bits[j] by {
        lemma_written(img, start, bits, (start + j) as nat);
    }
    assert(read_spec(written(img, start, bits), start, bits.len()) =~= bits);
}

/// The digits of a byte sequence, eight per byte, most significant first.
pub open spec fn bytes_bits(bs: Seq<u8>) -> Seq<char>
    decreases bs.len(),
{
    if bs.len() == 0 {
        seq![]
    } else {
        bytes_bits(bs.drop_last()) + low_bits(bs.last() as nat, 8)
    }
}

/// The `n` bytes held by the slots from `start` on, eight slots per byte.
pub open spec fn stream_bytes(img: Seq<u8>, start: nat, n: nat) -> Seq<u8> {
    Seq::new(n, |k: int| value_of_bits(read_spec(img, (start + 8 * k) as nat, 8)) as u8)
}

proof fn lemma_bytes_bits_len(bs: Seq<u8>)
    ensures
        bytes_bits(bs).len() == 8 * bs.len(),
    decreases bs.len(),
{
    if bs.len() > 0 {
        lemma_bytes_bits_len(bs.drop_last());
        lemma_low_bits_len(bs.last() as nat, 8);
    }
}

proof fn lemma_written_concat(img: Seq<u8>, start: nat, a: Seq<char>, b: Seq<char>)
    ensures
        written(img, start, a + b) == written(written(img, start, a), start + a.len(), b),
    decreases b.len(),
{
    if b.len() == 0 {
        assert(a + b =~= a);
    } else {
        assert((a + b).drop_last() =~= a + b.drop_last());
        lemma_written_concat(img, start, a, b.drop_last());
    }
}

/// The buffer after writing a header from slot `start` on: width, height
/// and rank as sixteen digits each.
pub open spec fn header_written(img: Seq<u8>, start: nat, width: nat, height: nat, rank: nat) -> Seq<u8> {
    written(
        written(written(img, start, low_bits(width, 16)), start + 16, low_bits(height, 16)),
        start + 32,
        low_bits(rank, 16),
    )
}

proof fn lemma_header_field(img: Seq<u8>, start: nat, width: nat, height: nat, rank: nat, offset: nat, field: nat)
    requires
        start + 48 <= capacity(img.len(), MAX_PLANES as nat),
        offset == 0 || offset == 16 || offset == 32,
        field == if offset == 0 { width } else if offset == 16 { height } else { rank },
        field < 65536,
    ensures
        value_of_bits(read_spec(header_written(img, start, width, height, rank), start + offset, 16)) == field,
{
    let wb = low_bits(width, 16);
    let hb = low_bits(height, 16);
    let rb = low_bits(rank, 16);
    let fb = low_bits(field, 16);
    lemma_low_bits_len(width, 16);
    lemma_low_bits_len(height, 16);
    lemma_low_bits_len(rank, 16);
    lemma_low_bits_digits(field, 16);
    let i1 = written(img, start, wb);
    let i2 = written(i1, start + 16, hb);
    let i3 = written(i2, start + 32, rb);
    assert forall|j: int| 0 <= j < 16 implies #[trigger] read_spec(i3, start + offset, 16)[j] == fb[j] by {
        let t = (start + offset + j) as nat;
        lemma_written(img, start, wb, t);
        lemma_written(i1, start + 16, hb, t);
        lemma_written(i2, start + 32, rb, t);
    }
    assert(read_spec(i3, start + offset, 16) =~= fb);
    lemma_bits_round_trip(field, 16);
    lemma_two_pow_small();
    lemma_small_mod(field, 65536);
}

/// A header written from a slot on reads back field for field from the same
/// slot, as long as the buffer's eight planes hold its 48 digits.
pub proof fn lemma_header_round_trip(img: Seq<u8>, start: nat, width: nat, height: nat, rank: nat)
    requires
        start + 48 <= capacity(img.len(), MAX_PLANES as nat),
        width < 65536,
        height < 65536,
        rank < 65536,
    ensures
        value_of_bits(read_spec(header_written(img, start, width, height, rank), start, 16)) == width,
        value_of_bits(read_spec(header_written(img, start, width, height, rank), start + 16, 16)) == height,
        value_of_bits(read_spec(header_written(img, start, width, height, rank), start + 32, 16)) == rank,
{
    lemma_header_field(img, start, width, height, rank, 0, width);
    lemma_header_field(img, start, width, height, rank, 16, height);
    lemma_header_field(img, start, width, height, rank, 32, rank);
}

proof fn lemma_bytes_bits_at(bs: Seq<u8>, k: int)
    requires
        0 <= k < bs.len(),
    ensures
        bytes_bits(bs).len() == 8 * bs.len(),
        bytes_bits(bs).subrange(8 * k, 8 * k + 8) == low_bits(bs[k] as nat, 8),
    decreases bs.len(),
{
    let init = bs.drop_last();
    lemma_bytes_bits_len(bs);
    lemma_bytes_bits_len(init);
    lemma_low_bits_len(bs.last() as nat, 8);
    if k < bs.len() - 1 {
        lemma_bytes_bits_at(init, k);
        assert(bytes_bits(bs).subrange(8 * k, 8 * k + 8) =~= bytes_bits(init).subrange(8 * k, 8 * k + 8));
    } else {
        assert(bytes_bits(bs).subrange(8 * k, 8 * k + 8) =~= low_bits(bs.last() as nat, 8));
    }
}

proof fn lemma_bytes_bits_digits(bs: Seq<u8>)
    ensures
        is_bit_string(bytes_bits(bs)),
    decreases bs.len(),
{
    if bs.len() > 0 {
        lemma_bytes_bits_digits(bs.drop_last());
        lemma_low_bits_digits(bs.last() as nat, 8);
        lemma_bytes_bits_len(bs.drop_last());
        let a = bytes_bits(bs.drop_last());
        let b = low_bits(bs.last() as nat, 8);
        assert(bytes_bits(bs) == a + b);
        assert forall|j: int| 0 <= j < (a + b).len() implies (a + b)[j] == '0' || (a + b)[j] == '1' by {
            lemma_low_bits_len(bs.last() as nat, 8);
            if j >= a.len() {
                assert((a + b)[j] == b[j - a.len()]);
                assert(b[j - a.len()] == '0' || b[j - a.len()] == '1');
            } else {
                assert((a + b)[j] == a[j]);
            }
        }
    }
}

/// Bytes written from a slot on, eight digits each, are read back unchanged
/// from the same slot, as long as every slot lies within the buffer's eight
/// planes.
pub proof fn lemma_bytes_round_trip(img: Seq<u8>, start: nat, bs: Seq<u8>)
    requires
        start + 8 * bs.len() <= capacity(img.len(), MAX_PLANES as nat),
    ensures
        stream_bytes(written(img, start, bytes_bits(bs)), start, bs.len()) == bs,
{
    let bits = bytes_bits(bs);
    let out = written(img, start, bits);
    lemma_bytes_bits_len(bs);
    lemma_bytes_bits_digits(bs);
    lemma_round_trip(img, start, bits);
    assert forall|k: int| 0 <= k < bs.len() implies #[trigger] stream_bytes(out, start, bs.len())[k] == bs[k] by {
        lemma_bytes_bits_at(bs, k);
        assert(read_spec(out, (start + 8 * k) as nat, 8) =~= bits.subrange(8 * k, 8 * k + 8));
        lemma_bits_round_trip(bs[k] as nat, 8);
        lemma_two_pow_small();
        lemma_small_mod(bs[k] as nat, 256);
    }
    assert(stream_bytes(out, start, bs.len()) =~= bs);
}

/// The buffer after one channel's factors are written from slot `start` on:
/// the left factor's entries, then the right factor's, two little-endian
/// bytes each and eight digits per byte.
pub open spec fn channel_written(img: Seq<u8>, start: nat, left: Seq<Seq<i16>>, right: Seq<Seq<i16>>) -> Seq<u8> {
    let lb = entries_bytes(flat(left));
    written(written(img, start, bytes_bits(lb)), start + 8 * lb.len(), bytes_bits(entries_bytes(flat(right))))
}

/// The buffer after a whole stream is written from slot `start` on: the
/// header, then the factors of each of the three channels in turn.
pub open spec fn stream_written(
    img: Seq<u8>,
    start: nat,
    width: nat,
    height: nat,
    rank: nat,
    lefts: Seq<Seq<Seq<i16>>>,
    rights: Seq<Seq<Seq<i16>>>,
) -> Seq<u8> {
    let n = channel_len(width, height, rank);
    let i0 = header_written(img, start, width, height, rank);
    let i1 = channel_written(i0, start + 48, lefts[0], rights[0]);
    let i2 = channel_written(i1, start + 48 + 8 * n, lefts[1], rights[1]);
    channel_written(i2, start + 48 + 16 * n, lefts[2], rights[2])
}

/// The image that three channels' factors stand for: entry `(i, j)` of
/// channel `c` is the rounded, clamped product of row `i` of its left factor
/// and column `j` of its right factor; the fourth channel is 255.
pub open spec fn factor_image(
    lefts: Seq<Seq<Seq<i16>>>,
    rights: Seq<Seq<Seq<i16>>>,
    width: nat,
    height: nat,
    rank: nat,
) -> Seq<u8> {
    Seq::new(
        4 * (height * width),
        |k: int|
            {
                let p = k / 4;
                let c = k % 4;
                if c == 3 {
                    255u8
                } else {
                    to_sample(dot(lefts[c], rights[c], p / width as int, p % width as int, 0, rank))
                }
            },
    )
}

proof fn lemma_written_len(img: Seq<u8>, start: nat, bits: Seq<char>)
    requires
        start + bits.len() <= capacity(img.len(), MAX_PLANES as nat),
    ensures
        written(img, start, bits).len() == img.len(),
    decreases bits.len(),
{
    if bits.len() > 0 {
        lemma_written_len(img, start, bits.drop_last());
        lemma_step(img.len(), MAX_PLANES as nat, (start + bits.len() - 1) as nat);
    }
}

proof fn lemma_read_disjoint(img: Seq<u8>, q: nat, bits: Seq<char>, p: nat, m: nat)
    requires
        q + bits.len() <= capacity(img.len(), MAX_PLANES as nat),
        p + m <= capacity(img.len(), MAX_PLANES as nat),
        q + bits.len() <= p || p + m <= q,
    ensures
        written(img, q, bits).len() == img.len(),
        read_spec(written(img, q, bits), p, m) == read_spec(img, p, m),
{
    lemma_written_len(img, q, bits);
    assert forall|j: int| 0 <= j < m implies #[trigger] read_spec(written(img, q, bits), p, m)[j] == read_spec(img, p, m)[j] by {
        lemma_written(img, q, bits, (p + j) as nat);
    }
    assert(read_spec(written(img, q, bits), p, m) =~= read_spec(img, p, m));
}

proof fn lemma_stream_disjoint(img: Seq<u8>, q: nat, bits: Seq<char>, p: nat, n: nat)
    requires
        q + bits.len() <= capacity(img.len(), MAX_PLANES as nat),
        p + 8 * n <= capacity(img.len(), MAX_PLANES as nat),
        q + bits.len() <= p || p + 8 * n <= q,
    ensures
        written(img, q, bits).len() == img.len(),
        stream_bytes(written(img, q, bits), p, n) == stream_bytes(img, p, n),
{
    lemma_written_len(img, q, bits);
    assert forall|k: int| 0 <= k < n implies #[trigger] stream_bytes(written(img, q, bits), p, n)[k] == stream_bytes(img, p, n)[k] by {
        lemma_read_disjoint(img, q, bits, (p + 8 * k) as nat, 8);
    }
    assert(stream_bytes(written(img, q, bits), p, n) =~= stream_bytes(img, p, n));
}

proof fn lemma_channel_disjoint(img: Seq<u8>, q: nat, left: Seq<Seq<i16>>, right: Seq<Seq<i16>>, p: nat, n: nat, m: nat)
    requires
        q + 8 * (entries_bytes(flat(left)).len() + entries_bytes(flat(right)).len()) <= capacity(img.len(), MAX_PLANES as nat),
        p + 8 * n <= capacity(img.len(), MAX_PLANES as nat),
        p + m <= capacity(img.len(), MAX_PLANES as nat),
        q + 8 * (entries_bytes(flat(left)).len() + entries_bytes(flat(right)).len()) <= p || p + 8 * n <= q,
        q + 8 * (entries_bytes(flat(left)).len() + entries_bytes(flat(right)).len()) <= p || p + m <= q,
    ensures
        channel_written(img, q, left, right).len() == img.len(),
        stream_bytes(channel_written(img, q, left, right), p, n) == stream_bytes(img, p, n),
        read_spec(channel_written(img, q, left, right), p, m) == read_spec(img, p, m),
{
    let lb = entries_bytes(flat(left));
    let rb = entries_bytes(flat(right));
    lemma_bytes_bits_len(lb);
    lemma_bytes_bits_len(rb);
    let i1 = written(img, q, bytes_bits(lb));
    lemma_stream_disjoint(img, q, bytes_bits(lb), p, n);
    lemma_read_disjoint(img, q, bytes_bits(lb), p, m);
    lemma_stream_disjoint(i1, q + 8 * lb.len(), bytes_bits(rb), p, n);
    lemma_read_disjoint(i1, q + 8 * lb.len(), bytes_bits(rb), p, m);
}

proof fn lemma_channel_reads_back(img: Seq<u8>, q: nat, left: Seq<Seq<i16>>, right: Seq<Seq<i16>>)
    requires
        q + 8 * (entries_bytes(flat(left)).len() + entries_bytes(flat(right)).len()) <= capacity(img.len(), MAX_PLANES as nat),
    ensures
        stream_bytes(channel_written(img, q, left, right), q, entries_bytes(flat(left)).len() + entries_bytes(flat(right)).len())
            == entries_bytes(flat(left)) + entries_bytes(flat(right)),
{
    let lb = entries_bytes(flat(left));
    let rb = entries_bytes(flat(right));
    let n = lb.len() + rb.len();
    lemma_bytes_bits_len(lb);
    lemma_bytes_bits_len(rb);
    let i1 = written(img, q, bytes_bits(lb));
    let i2 = written(i1, q + 8 * lb.len(), bytes_bits(rb));
    lemma_bytes_round_trip(img, q, lb);
    lemma_written_len(img, q, bytes_bits(lb));
    lemma_stream_disjoint(i1, q + 8 * lb.len(), bytes_bits(rb), q, lb.len());
    lemma_bytes_round_trip(i1, q + 8 * lb.len(), rb);
    assert(stream_bytes(i2, q, n) =~= stream_bytes(i2, q, lb.len()) + stream_bytes(i2, q + 8 * lb.len(), rb.len()));
}

/// A whole stream written from a slot on, as `init_encode` and three calls
/// of `encode_channel` write it, decodes from the same slot to its header
/// fields and to the image its factors stand for, as long as the buffer's
/// eight planes hold it.
#[verifier::rlimit(50)]
pub proof fn lemma_stream_round_trip(
    img: Seq<u8>,
    start: nat,
    width: nat,
    height: nat,
    rank: nat,
    lefts: Seq<Seq<Seq<i16>>>,
    rights: Seq<Seq<Seq<i16>>>,
)
    requires
        width < 65536,
        height < 65536,
        rank < 65536,
        lefts.len() == 3,
        rights.len() == 3,
        forall|c: int| 0 <= c < 3 ==> shaped(#[trigger] lefts[c], height, rank) && shaped(rights[c], rank, width),
        start + 48 + 24 * channel_len(width, height, rank) <= capacity(img.len(), MAX_PLANES as nat),
    ensures
        ({
            let x = stream_written(img, start, width, height, rank, lefts, rights);
            let n = channel_len(width, height, rank);
            &&& value_of_bits(read_spec(x, start, 16)) == width
            &&& value_of_bits(read_spec(x, start + 16, 16)) == height
            &&& value_of_bits(read_spec(x, start + 32, 16)) == rank
            &&& decoded_image(
                stream_bytes(x, start + 48, n),
                stream_bytes(x, start + 48 + 8 * n, n),
                stream_bytes(x, start + 48 + 16 * n, n),
                width,
                height,
                rank,
            ) == factor_image(lefts, rights, width, height, rank)
        }),
{
    let n = channel_len(width, height, rank);
    let cap = capacity(img.len(), MAX_PLANES as nat);
    assert forall|c: int| 0 <= c < 3 implies entries_bytes(flat(#[trigger] lefts[c])).len()
        + entries_bytes(flat(rights[c])).len() == n by {
        lemma_flat_len(lefts[c], height, rank);
        lemma_flat_len(rights[c], rank, width);
    }
    let p0 = start + 48;
    let p1 = start + 48 + 8 * n;
    let p2 = start + 48 + 16 * n;
    let i0 = header_written(img, start, width, height, rank);
    lemma_low_bits_len(width, 16);
    lemma_low_bits_len(height, 16);
    lemma_low_bits_len(rank, 16);
    let a0 = written(img, start, low_bits(width, 16));
    let a1 = written(a0, start + 16, low_bits(height, 16));
    lemma_written_len(img, start, low_bits(width, 16));
    lemma_written_len(a0, start + 16, low_bits(height, 16));
    lemma_written_len(a1, start + 32, low_bits(rank, 16));
    lemma_header_round_trip(img, start, width, height, rank);
    let i1 = channel_written(i0, p0, lefts[0], rights[0]);
    let i2 = channel_written(i1, p1, lefts[1], rights[1]);
    let i3 = channel_written(i2, p2, lefts[2], rights[2]);
    // header fields survive the three channels
    lemma_channel_disjoint(i0, p0, lefts[0], rights[0], start, 0, 48);
    lemma_channel_disjoint(i1, p1, lefts[1], rights[1], start, 0, 48);
    lemma_channel_disjoint(i2, p2, lefts[2], rights[2], start, 0, 48);
    assert(read_spec(i3, start, 16) =~= read_spec(i3, start, 48).subrange(0, 16));
    assert(read_spec(i0, start, 16) =~= read_spec(i0, start, 48).subrange(0, 16));
    assert(read_spec(i3, start + 16, 16) =~= read_spec(i3, start, 48).subrange(16, 32));
    assert(read_spec(i0, start + 16, 16) =~= read_spec(i0, start, 48).subrange(16, 32));
    assert(read_spec(i3, start + 32, 16) =~= read_spec(i3, start, 48).subrange(32, 48));
    assert(read_spec(i0, start + 32, 16) =~= read_spec(i0, start, 48).subrange(32, 48));
    // each channel's bytes read back, and later channels leave them alone
    lemma_channel_reads_back(i0, p0, lefts[0], rights[0]);
    lemma_channel_disjoint(i1, p1, lefts[1], rights[1], p0, n, 0);
    lemma_channel_disjoint(i2, p2, lefts[2], rights[2], p0, n, 0);
    lemma_channel_reads_back(i1, p1, lefts[1], rights[1]);
    lemma_channel_disjoint(i2, p2, lefts[2], rights[2], p1, n, 0);
    lemma_channel_reads_back(i2, p2, lefts[2], rights[2]);
    let b0 = stream_bytes(i3, p0, n);
    let b1 = stream_bytes(i3, p1, n);
    let b2 = stream_bytes(i3, p2, n);
    let d = decoded_image(b0, b1, b2, width, height, rank);
    let f = factor_image(lefts, rights, width, height, rank);
    assert forall|k: int| 0 <= k < 4 * (height * width) implies #[trigger] d[k] == f[k] by {
        let p = k / 4;
        let c = k % 4;
        if c != 3 {
            let w = width as int;
            assert(p < height * width);
            assert(w > 0) by (nonlinear_arith)
                requires p < height * w, p >= 0, height >= 0;
            lemma_fundamental_div_mod(p, w);
            let i = p / w;
            let j = p % w;
            assert(i < height) by (nonlinear_arith)
                requires p == w * i + j, 0 <= j, p < height * w, w > 0;
            assert(0 <= i) by (nonlinear_arith)
                requires p == w * i + j, j < w, p >= 0, w > 0;
            lemma_channel_decodes_product(lefts[c], rights[c], width, height, rank, i, j, rank);
        }
    }
    assert(d =~= f);
}

/// Width, height and rank read from a stream header.
pub struct PropReturn(pub usize, pub usize, pub usize);

/// A pixel buffer together with the cursor of the slot allocator.
pub struct LSBStego {
    image: Vec<u8>,
    width: u32,
    height: u32,
    current_channel: usize,
    current_index: usize,
    plane: usize,
    max_lsb: usize,
    pos: Ghost<nat>,
}

impl LSBStego {
    /// Width and height of the carrier image, in pixels.
    pub closed spec fn dims(&self) -> (u32, u32) {
        (self.width, self.height)
    }

    /// The pixel buffer.
    pub closed spec fn pixels(&self) -> Seq<u8> {
        self.image@
    }

    /// Number of slots used since the cursor was last reset.
    pub closed spec fn pos(&self) -> nat {
        self.pos@
    }

    /// Number of bit-planes the cursor may use.
    pub closed spec fn max_planes(&self) -> nat {
        self.max_lsb as nat
    }

    /// The cursor as (channel, byte index, plane).
    pub closed spec fn cursor(&self) -> (nat, nat, nat) {
        (self.current_channel as nat, self.current_index as nat, self.plane as nat)
    }

    /// Number of slots this buffer offers under its plane budget.
    pub open spec fn cap(&self) -> nat {
        capacity(self.pixels().len(), self.max_planes())
    }

    /// A plane budget between one and eight, and a cursor that stands where
    /// `pos()` moves from a fresh start lead.
    pub closed spec fn wf(&self) -> bool {
        &&& 1 <= self.max_lsb <= MAX_PLANES
        &&& self.pos@ <= capacity(self.image@.len(), self.max_lsb as nat)
        &&& self.cursor() == cursor_at(self.image@.len(), self.max_lsb as nat, self.pos@)
    }

    /// The invariant of a codec, as callers may use it: a plane budget
    /// between one and eight, at most `cap()` slots used, and the cursor
    /// where that many moves from a fresh start lead.
    pub proof fn lemma_wf_cursor(&self)
        requires
            self.wf(),
        ensures
            1 <= self.max_planes() <= MAX_PLANES,
            self.pos() <= self.cap(),
            self.cursor() == cursor_at(self.pixels().len(), self.max_planes(), self.pos()),
    {
    }

    /// Takes a buffer of interleaved three-channel pixels, with the cursor at
    /// the first slot and all eight planes usable.
    pub fn new(im: Vec<u8>, width: u32, height: u32) -> (r: Self)
        ensures
            r.wf(),
            r.pixels() == im@,
            r.dims() == (width, height),
            r.pos() == 0,
            r.max_planes() == MAX_PLANES,
            r.cursor() == (0nat, 0nat, 0nat),
    {
        let l = im.len() - im.len() % CHANNELS;
        let plane: usize = 0;
        let r = LSBStego {
            image: im,
            width,
            height,
            current_channel: 0,
            current_index: 0,
            plane,
            max_lsb: MAX_PLANES,
            pos: Ghost(0),
        };
        proof {
            lemma_cursor_determinism(r.image@.len(), MAX_PLANES as nat, 0);
        }
        r
    }

    /// Moves the cursor back to the first slot.
    pub fn reset(&mut self)
        requires
            old(self).wf(),
        ensures
            final(self).wf(),
            final(self).pixels() == old(self).pixels(),
            final(self).max_planes() == old(self).max_planes(),
            final(self).pos() == 0,
            final(self).cursor() == (0nat, 0nat, 0nat),
    {
        let l = self.image.len() - self.image.len() % CHANNELS;
        self.current_channel = 0;
        self.current_index = 0;
        self.plane = 0;
        self.pos = Ghost(0);
        proof {
            lemma_cursor_determinism(self.image@.len(), self.max_lsb as nat, 0);
        }
    }

    /// Mask with only the current plane's bit set.
    pub fn get_mask_one(&self) -> (r: usize)
        requires
            self.wf(),
            self.cursor().2 < MAX_PLANES,
        ensures
            r == 1usize << self.cursor().2,
    {
        1usize << self.plane
    }

    /// Mask with every bit but the current plane's set.
    pub fn get_mask_zero(&self) -> (r: usize)
        requires
            self.wf(),
            self.cursor().2 < MAX_PLANES,
        ensures
            r == 255 - (1usize << self.cursor().2),
    {
        proof {
            let p = self.plane;
            assert(p < 8 ==> (1usize << p) <= 128) by (bit_vector);
        }
        255 - (1usize << self.plane)
    }

    /// Number of slots left before the plane budget is exhausted.
    pub fn remaining_slots(&self) -> (r: u128)
        requires
            self.wf(),
        ensures
            r == self.cap() - self.pos(),
    {
        let l = self.image.len() - self.image.len() % CHANNELS;
        proof {
            if self.pos@ < self.cap() {
                lemma_step(self.image@.len(), self.max_lsb as nat, self.pos@);
            }
        }
        if l == 0 || self.plane >= self.max_lsb {
            0
        } else {
            proof {
                let n = self.pos@;
                let lv = l as int;
                let m = self.max_lsb as int;
                if n >= capacity(self.image@.len(), m as nat) {
                } else {
                    assert((m - self.plane) * lv - self.current_index == lv * m - n) by (nonlinear_arith)
                        requires n == lv * (self.plane as int) + self.current_index;
                    assert((m - self.plane) * lv <= 8 * lv) by (nonlinear_arith)
                        requires m <= 8, self.plane >= 0, lv >= 0;
                }
            }
            (self.max_lsb - self.plane) as u128 * (l as u128) - self.current_index as u128
        }
    }

    /// Writes the digits of `bits` into consecutive slots, setting the slot's
    /// bit for `'1'` and clearing it otherwise. Fails, writing nothing, when
    /// fewer slots are left than there are digits.
    pub fn put_binary_value(&mut self, bits: String) -> (r: Result<(), StegoError>)
        requires
            old(self).wf(),
        ensures
            final(self).wf(),
            final(self).max_planes() == old(self).max_planes(),
            final(self).pixels().len() == old(self).pixels().len(),
            bits@.len() <= old(self).cap() - old(self).pos() ==> r is Ok
                && final(self).pixels() == written(old(self).pixels(), old(self).pos(), bits@)
                && final(self).pos() == old(self).pos() + bits@.len(),
            bits@.len() > old(self).cap() - old(self).pos() ==> r == Err::<(), StegoError>(StegoError::CapacityExhausted)
                && final(self).pixels() == old(self).pixels() && final(self).pos() == old(self).pos(),
    {
        let s = bits.as_str();
        let n = s.unicode_len();
        if n as u128 > self.remaining_slots() {
            return Err(StegoError::CapacityExhausted);
        }
        let ghost start = self.pos@;
        let ghost orig = self.image@;
        let ghost max = self.max_lsb as nat;
        let mut i: usize = 0;
        while i < n
            invariant
                self.wf(),
                0 <= i <= n,
                n == s@.len(),
                s@ == bits@,
                self.max_lsb as nat == max,
                self.pos@ == start + i,
                start + n <= capacity(orig.len(), max),
                max <= MAX_PLANES,
                self.image@.len() == orig.len(),
                self.image@ == written(orig, start, s@.take(i as int)),
            decreases n - i,
        {
            let c = s.get_char(i);
            proof {
                lemma_step(orig.len(), max, self.pos@);
            }
            let idx = self.current_index;
            let m: u8 = 1u8 << (self.plane as u8);
            let b = self.image[idx];
            let nb = if c == '1' { b | m } else { b & !m };
            self.image.set(idx, nb);
            proof {
                assert(s@.take(i + 1).drop_last() =~= s@.take(i as int));
            }
            let _ = self.next_slot();
            i = i + 1;
        }
        proof {
            assert(s@.take(n as int) =~= s@);
        }
        Ok(())
    }

    /// Reads the bit of the current slot and moves on.
    fn read_bit(&mut self) -> (c: char)
        requires
            old(self).wf(),
            old(self).pos() < old(self).cap(),
        ensures
            final(self).wf(),
            final(self).pixels() == old(self).pixels(),
            final(self).max_planes() == old(self).max_planes(),
            final(self).pos() == old(self).pos() + 1,
            c == bit_char(old(self).pixels(), old(self).pos()),
    {
        proof {
            lemma_step(self.image@.len(), self.max_lsb as nat, self.pos@);
            lemma_bit_ops(self.image@[self.current_index as int], self.plane as u8, 0);
        }
        let val = self.image[self.current_index] & (1u8 << (self.plane as u8));
        let _ = self.next_slot();
        if val > 0 {
            '1'
        } else {
            '0'
        }
    }

    /// Reads the digits of `n` consecutive slots. Fails, moving nothing, when
    /// fewer than `n` slots are left.
    pub fn read_bits(&mut self, n: u32) -> (r: Result<String, StegoError>)
        requires
            old(self).wf(),
        ensures
            final(self).wf(),
            final(self).pixels() == old(self).pixels(),
            final(self).max_planes() == old(self).max_planes(),
            n <= old(self).cap() - old(self).pos() ==> r is Ok
                && r->Ok_0@ == read_spec(old(self).pixels(), old(self).pos(), n as nat)
                && final(self).pos() == old(self).pos() + n,
            n > old(self).cap() - old(self).pos() ==> r is Err && r->Err_0 == StegoError::CapacityExhausted
                && final(self).pos() == old(self).pos(),
    {
        if n as u128 > self.remaining_slots() {
            return Err(StegoError::CapacityExhausted);
        }
        let ghost start = self.pos@;
        let ghost img = self.image@;
        let mut bits = String::new();
        let mut i: u32 = 0;
        while i < n
            invariant
                self.wf(),
                0 <= i <= n,
                self.image@ == img,
                self.max_lsb == old(self).max_lsb,
                self.pos@ == start + i,
                start + n <= self.cap(),
                bits@ == read_spec(img, start, i as nat),
            decreases n - i,
        {
            let c = self.read_bit();
            proof {
                reveal_strlit("1");
                reveal_strlit("0");
            }
            if c == '1' {
                bits.append("1");
            } else {
                bits.append("0");
            }
            proof {
                assert(bits@ =~= read_spec(img, start, (i + 1) as nat));
            }
            i = i + 1;
        }
        Ok(bits)
    }

    /// The fixed-width binary digits of `val`; fails when `val` needs more
    /// than `bitsize` bits.
    pub fn binary_value(&self, val: usize, bitsize: usize) -> (r: Result<String, StegoError>)
        ensures
            val < two_pow(bitsize as nat) ==> r is Ok && r->Ok_0@ == low_bits(val as nat, bitsize as nat),
            val >= two_pow(bitsize as nat) ==> r == Err::<String, StegoError>(StegoError::DomainError),
    {
        match binary_digits(val, bitsize) {
            Some(s) => Ok(s),
            None => Err(StegoError::DomainError),
        }
    }

    /// The eight binary digits of a byte value; fails above 255.
    pub fn byte_value(&self, val: usize) -> (r: Result<String, StegoError>)
        ensures
            val < 256 ==> r is Ok && r->Ok_0@ == low_bits(val as nat, 8),
            val >= 256 ==> r == Err::<String, StegoError>(StegoError::DomainError),
    {
        proof {
            lemma_two_pow_small();
        }
        self.binary_value(val, 8)
    }

    /// Writes the eight digits of each byte in turn.
    fn put_bytes(&mut self, bytes: &Vec<u8>)
        requires
            old(self).wf(),
            8 * bytes@.len() <= old(self).cap() - old(self).pos(),
        ensures
            final(self).wf(),
            final(self).max_planes() == old(self).max_planes(),
            final(self).pixels().len() == old(self).pixels().len(),
            final(self).pixels() == written(old(self).pixels(), old(self).pos(), bytes_bits(bytes@)),
            final(self).pos() == old(self).pos() + 8 * bytes@.len(),
    {
        let ghost start = self.pos@;
        let ghost orig = self.image@;
        let mut i: usize = 0;
        while i < bytes.len()
            invariant
                self.wf(),
                0 <= i <= bytes@.len(),
                self.max_lsb == old(self).max_lsb,
                self.image@.len() == orig.len(),
                start + 8 * bytes@.len() <= capacity(orig.len(), self.max_lsb as nat),
                self.pos@ == start + 8 * i,
                self.image@ == written(orig, start, bytes_bits(bytes@.take(i as int))),
            decreases bytes@.len() - i,
        {
            let b = bytes[i];
            let bits = match self.byte_value(b as usize) {
                Ok(v) => v,
                Err(_) => String::new(),
            };
            proof {
                lemma_low_bits_len(b as nat, 8);
                lemma_bytes_bits_len(bytes@.take(i as int));
                assert(bytes@.take(i + 1).drop_last() =~= bytes@.take(i as int));
                lemma_written_concat(orig, start, bytes_bits(bytes@.take(i as int)), low_bits(b as nat, 8));
            }
            let _ = self.put_binary_value(bits);
            i = i + 1;
        }
        proof {
            assert(bytes@.take(bytes@.len() as int) =~= bytes@);
        }
    }

    /// Sets the plane budget and writes the header from the current slot on:
    /// width, height and rank as sixteen digits each. Fails, changing
    /// nothing, when the budget is not between one and eight planes or a
    /// field needs more than sixteen bits, and when under the new budget
    /// fewer than 48 slots are left.
    pub fn init_encode(&mut self, width: usize, height: usize, rank: usize, max_lsb: usize) -> (r: Result<(), StegoError>)
        requires
            old(self).wf(),
        ensures
            final(self).wf(),
            final(self).pixels().len() == old(self).pixels().len(),
            ({
                let bad = max_lsb < 1 || max_lsb > MAX_PLANES || width >= 65536 || height >= 65536 || rank >= 65536;
                let short = old(self).pos() + 48 > capacity(old(self).pixels().len(), max_lsb as nat);
                &&& bad ==> r == Err::<(), StegoError>(StegoError::DomainError)
                &&& !bad && short ==> r == Err::<(), StegoError>(StegoError::CapacityExhausted)
                &&& r is Err ==> final(self).pixels() == old(self).pixels() && final(self).pos() == old(self).pos()
                    && final(self).max_planes() == old(self).max_planes()
                &&& !bad && !short ==> r is Ok
                    && final(self).max_planes() == max_lsb
                    && final(self).pos() == old(self).pos() + 48
                    && final(self).pixels() == header_written(
                        old(self).pixels(),
                        old(self).pos(),
                        width as nat,
                        height as nat,
                        rank as nat,
                    )
            }),
    {
        proof {
            lemma_two_pow_small();
        }
        if max_lsb < 1 || max_lsb > MAX_PLANES {
            return Err(StegoError::DomainError);
        }
        let w = match self.binary_value(width, 16) {
            Ok(v) => v,
            Err(e) => return Err(e),
        };
        let h = match self.binary_value(height, 16) {
            Ok(v) => v,
            Err(e) => return Err(e),
        };
        let k = match self.binary_value(rank, 16) {
            Ok(v) => v,
            Err(e) => return Err(e),
        };
        let l = self.image.len() - self.image.len() % CHANNELS;
        let ghost n = self.pos@;
        let ghost lv = l as int;
        let ghost m = max_lsb as int;
        let ghost p = self.plane as int;
        let ghost idx = self.current_index as int;
        proof {
            lemma_cursor_at_facts(self.image@.len(), self.max_lsb as nat, n);
            assert(lv * m >= 0) by (nonlinear_arith)
                requires lv >= 0, m >= 0;
        }
        if l == 0 || self.plane >= max_lsb {
            proof {
                if lv > 0 {
                    assert(n >= lv * m) by (nonlinear_arith)
                        requires n == lv * p + idx, idx >= 0, p >= m, lv > 0;
                }
            }
            return Err(StegoError::CapacityExhausted);
        }
        proof {
            assert(n < lv * m) by (nonlinear_arith)
                requires n == lv * p + idx, idx < lv, p < m, p >= 0;
            assert((m - p) * lv - idx == lv * m - n) by (nonlinear_arith)
                requires n == lv * p + idx;
            assert((m - p) * lv <= 8 * lv) by (nonlinear_arith)
                requires m <= 8, p >= 0, lv >= 0;
        }
        let rem = (max_lsb - self.plane) as u128 * (l as u128) - self.current_index as u128;
        if rem < 48 {
            return Err(StegoError::CapacityExhausted);
        }
        proof {
            lemma_fundamental_div_mod_converse(n as int, lv, p, idx);
        }
        self.max_lsb = max_lsb;
        proof {
            lemma_low_bits_len(width as nat, 16);
            lemma_low_bits_len(height as nat, 16);
            lemma_low_bits_len(rank as nat, 16);
        }
        let _ = self.put_binary_value(w);
        let _ = self.put_binary_value(h);
        let _ = self.put_binary_value(k);
        Ok(())
    }

    /// Writes the bytes of one channel's left factor, then those of its
    /// right factor, eight digits per byte. Fails, writing nothing, when they
    /// do not fit in the slots left.
    pub fn encode_channel(&mut self, lhs: &Vec<u8>, rhs: &Vec<u8>) -> (r: Result<(), StegoError>)
        requires
            old(self).wf(),
        ensures
            final(self).wf(),
            final(self).max_planes() == old(self).max_planes(),
            final(self).pixels().len() == old(self).pixels().len(),
            8 * (lhs@.len() + rhs@.len()) <= old(self).cap() - old(self).pos() ==> r is Ok
                && final(self).pos() == old(self).pos() + 8 * (lhs@.len() + rhs@.len())
                && final(self).pixels() == written(
                    written(old(self).pixels(), old(self).pos(), bytes_bits(lhs@)),
                    old(self).pos() + 8 * lhs@.len(),
                    bytes_bits(rhs@),
                ),
            8 * (lhs@.len() + rhs@.len()) > old(self).cap() - old(self).pos() ==> r == Err::<(), StegoError>(StegoError::CapacityExhausted)
                && final(self).pixels() == old(self).pixels() && final(self).pos() == old(self).pos(),
    {
        if 8 * (lhs.len() as u128 + rhs.len() as u128) > self.remaining_slots() {
            return Err(StegoError::CapacityExhausted);
        }
        self.put_bytes(lhs);
        self.put_bytes(rhs);
        Ok(())
    }

    /// A copy of the pixel buffer.
    pub fn get_image(&self) -> (r: Vec<u8>)
        ensures
            r@ == self.pixels(),
    {
        let r = self.image.clone();
        proof {
            assert(r@ =~= self.image@);
        }
        r
    }

    /// Reads the header: width, height and rank, sixteen digits each. Fails
    /// when fewer than 48 slots are left.
    pub fn decode_properties(&mut self) -> (r: Result<PropReturn, StegoError>)
        requires
            old(self).wf(),
        ensures
            final(self).wf(),
            final(self).pixels() == old(self).pixels(),
            final(self).max_planes() == old(self).max_planes(),
            old(self).cap() - old(self).pos() >= 48 ==> r is Ok && final(self).pos() == old(self).pos() + 48 && ({
                let p = r->Ok_0;
                let img = old(self).pixels();
                let s = old(self).pos();
                &&& p.0 == value_of_bits(read_spec(img, s, 16))
                &&& p.1 == value_of_bits(read_spec(img, s + 16, 16))
                &&& p.2 == value_of_bits(read_spec(img, s + 32, 16))
            }),
            old(self).cap() - old(self).pos() < 48 ==> r == Err::<PropReturn, StegoError>(StegoError::CapacityExhausted)
                && final(self).pos() == old(self).pos(),
    {
        if self.remaining_slots() < 48 {
            return Err(StegoError::CapacityExhausted);
        }
        let w = match self.read_bits(16) {
            Ok(s) => parse_bits(s.as_str()),
            Err(e) => return Err(e),
        };
        let h = match self.read_bits(16) {
            Ok(s) => parse_bits(s.as_str()),
            Err(e) => return Err(e),
        };
        let k = match self.read_bits(16) {
            Ok(s) => parse_bits(s.as_str()),
            Err(e) => return Err(e),
        };
        Ok(PropReturn(w as usize, h as usize, k as usize))
    }

    /// Reads one byte from the next eight slots.
    fn read_byte(&mut self) -> (r: u8)
        requires
            old(self).wf(),
            old(self).cap() - old(self).pos() >= 8,
        ensures
            final(self).wf(),
            final(self).pixels() == old(self).pixels(),
            final(self).max_planes() == old(self).max_planes(),
            final(self).pos() == old(self).pos() + 8,
            r as nat == value_of_bits(read_spec(old(self).pixels(), old(self).pos(), 8)),
    {
        let s = match self.read_bits(8) {
            Ok(s) => s,
            Err(_) => String::new(),
        };
        proof {
            lemma_value_bound(s@);
            lemma_two_pow_small();
        }
        parse_bits(s.as_str()) as u8
    }

    /// Reads `n` bytes from consecutive slots, eight slots per byte. Fails,
    /// moving nothing, when fewer than `8 * n` slots are left.
    pub fn read_bytes(&mut self, n: usize) -> (r: Result<Vec<u8>, StegoError>)
        requires
            old(self).wf(),
        ensures
            final(self).wf(),
            final(self).pixels() == old(self).pixels(),
            final(self).max_planes() == old(self).max_planes(),
            8 * n <= old(self).cap() - old(self).pos() ==> r is Ok && final(self).pos() == old(self).pos() + 8 * n
                && r->Ok_0@ == stream_bytes(old(self).pixels(), old(self).pos(), n as nat),
            8 * n > old(self).cap() - old(self).pos() ==> r == Err::<Vec<u8>, StegoError>(StegoError::CapacityExhausted)
                && final(self).pos() == old(self).pos(),
    {
        if 8 * (n as u128) > self.remaining_slots() {
            return Err(StegoError::CapacityExhausted);
        }
        let ghost start = self.pos@;
        let ghost img = self.image@;
        let mut out: Vec<u8> = Vec::with_capacity(n);
        let mut i: usize = 0;
        while i < n
            invariant
                self.wf(),
                0 <= i <= n,
                self.image@ == img,
                self.max_lsb == old(self).max_lsb,
                self.pos@ == start + 8 * i,
                start + 8 * n <= self.cap(),
                out@ == stream_bytes(img, start, i as nat),
            decreases n - i,
        {
            let b = self.read_byte();
            out.push(b);
            proof {
                assert(out@ =~= stream_bytes(img, start, (i + 1) as nat));
            }
            i = i + 1;
        }
        Ok(out)
    }

    /// Reads three channels' factor bytes, each `2 * (height * rank + rank *
    /// width)` long, and returns the four-channel image they describe. Fails,
    /// moving nothing, on sizes that no stream describes (a side above 65535,
    /// a rank above either side, an image too large to address) and when the
    /// slots left cannot hold the factors.
    pub fn decode_approximation(&mut self, width: usize, height: usize, rank: usize) -> (r: Result<Vec<u8>, StegoError>)
        requires
            old(self).wf(),
        ensures
            final(self).wf(),
            final(self).pixels() == old(self).pixels(),
            final(self).max_planes() == old(self).max_planes(),
            ({
                let bad = width > 65535 || height > 65535 || rank > width || rank > height
                    || 4 * (height * width) > usize::MAX;
                let n = channel_len(width as nat, height as nat, rank as nat);
                let img = old(self).pixels();
                let s = old(self).pos();
                &&& bad ==> r == Err::<Vec<u8>, StegoError>(StegoError::MalformedStream) && final(self).pos() == s
                &&& !bad && 24 * n > old(self).cap() - s ==> r == Err::<Vec<u8>, StegoError>(StegoError::CapacityExhausted)
                    && final(self).pos() == s
                &&& !bad && 24 * n <= old(self).cap() - s ==> r is Ok && final(self).pos() == s + 24 * n
                    && r->Ok_0@ == decoded_image(
                        stream_bytes(img, s, n),
                        stream_bytes(img, s + 8 * n, n),
                        stream_bytes(img, s + 16 * n, n),
                        width as nat,
                        height as nat,
                        rank as nat,
                    )
            }),
    {
        if width > 65535 || height > 65535 || rank > width || rank > height {
            return Err(StegoError::MalformedStream);
        }
        proof {
            assert(height * width <= 65535 * 65535) by (nonlinear_arith)
                requires height <= 65535, width <= 65535;
            assert(height * rank + rank * width <= 2 * 65535 * 65535) by (nonlinear_arith)
                requires height <= 65535, width <= 65535, rank <= 65535;
        }
        if 4 * (height as u128 * width as u128) > usize::MAX as u128 {
            return Err(StegoError::MalformedStream);
        }
        let n128 = 2 * (height as u128 * rank as u128 + rank as u128 * width as u128);
        if 24 * n128 > self.remaining_slots() {
            return Err(StegoError::CapacityExhausted);
        }
        proof {
            let len = self.image@.len();
            let l = usable_len(len);
            let m = self.max_lsb as nat;
            assert(l * m <= len * 8) by (nonlinear_arith)
                requires l <= len, m <= 8;
        }
        let buffer_len = self.image.len();
        proof {
            assert(buffer_len == self.image@.len());
        }
        let n = n128 as usize;
        let r = match self.read_bytes(n) {
            Ok(v) => v,
            Err(e) => return Err(e),
        };
        let g = match self.read_bytes(n) {
            Ok(v) => v,
            Err(e) => return Err(e),
        };
        let b = match self.read_bytes(n) {
            Ok(v) => v,
            Err(e) => return Err(e),
        };
        Ok(reconstruct_image(&r, &g, &b, width, height, rank))
    }

    /// Width of the carrier image, in pixels.
    pub fn width(&self) -> (r: u32)
        ensures
            r == self.dims().0,
    {
        self.width
    }

    /// Height of the carrier image, in pixels.
    pub fn height(&self) -> (r: u32)
        ensures
            r == self.dims().1,
    {
        self.height
    }

    /// The cursor as (channel, byte index, plane).
    pub fn position(&self) -> (r: (usize, usize, usize))
        ensures
            (r.0 as nat, r.1 as nat, r.2 as nat) == self.cursor(),
    {
        (self.current_channel, self.current_index, self.plane)
    }

    /// Moves the cursor to the next slot: the next channel of the pixel, else
    /// the first channel of the next pixel, else the first byte of the next
    /// plane. Moving past the last slot of the plane budget fails: the cursor
    /// then stands exhausted, and every later move fails, changing nothing.
    pub fn next_slot(&mut self) -> (r: Result<(), StegoError>)
        requires
            old(self).wf(),
        ensures
            final(self).wf(),
            final(self).pixels() == old(self).pixels(),
            final(self).max_planes() == old(self).max_planes(),
            final(self).cursor() == step(old(self).pixels().len(), old(self).max_planes(), old(self).cursor()),
            old(self).pos() < old(self).cap() ==> final(self).pos() == old(self).pos() + 1,
            old(self).pos() + 1 < old(self).cap() ==> r is Ok,
            old(self).pos() + 1 >= old(self).cap() ==> r == Err::<(), StegoError>(StegoError::CapacityExhausted),
            old(self).pos() >= old(self).cap() ==> final(self).pos() == old(self).pos(),
    {
        proof {
            if self.pos@ < self.cap() {
                lemma_step(self.image@.len(), self.max_lsb as nat, self.pos@);
            }
        }
        let l = self.image.len() - self.image.len() % CHANNELS;
        if l == 0 || self.plane >= self.max_lsb {
            return Err(StegoError::CapacityExhausted);
        }
        if self.current_index + 1 < l {
            self.current_channel = if self.current_channel == 2 { 0 } else { self.current_channel + 1 };
            self.current_index = self.current_index + 1;
        } else {
            self.current_channel = 0;
            self.current_index = 0;
            self.plane = self.plane + 1;
        }
        self.pos = Ghost(self.pos@ + 1);
        proof {
            lemma_cursor_at_facts(self.image@.len(), self.max_lsb as nat, self.pos@);
        }
        if self.plane >= self.max_lsb {
            Err(StegoError::CapacityExhausted)
        } else {
            Ok(())
        }
    }
}

} // verus!
