//! Conversions between 16-bit signed fixed-point factor entries and their
//! little-endian byte pairs, and between unsigned integers and fixed-width
//! binary digit strings.
use vstd::prelude::*;
use vstd::arithmetic::div_mod::{
    lemma_div_denominator, lemma_fundamental_div_mod, lemma_fundamental_div_mod_converse,
    lemma_mod_breakdown,
};
use vstd::string::StringExecFns;

verus! {

/// Fixed-point scale of right-factor entries: four decimal digits.
pub const RIGHT_SCALE: i64 = 10000;

/// Which factor an entry belongs to; the two are stored at different scales.
#[derive(Debug, Clone, Copy, PartialEq, Eq, Structural)]
pub enum FactorRole {
    /// Left factor: whole units.
    Left,
    /// Right factor: units of 1/10000.
    Right,
}

/// Number of stored units per whole unit for a role.
pub open spec fn role_scale(role: FactorRole) -> int {
    match role {
        FactorRole::Left => 1,
        FactorRole::Right => RIGHT_SCALE as int,
    }
}

impl FactorRole {
    /// Number of stored units per whole unit.
    pub fn scale(&self) -> (r: i64)
        ensures
            r == role_scale(*self),
    {
        match self {
            FactorRole::Left => 1,
            FactorRole::Right => RIGHT_SCALE,
        }
    }
}

/// The signed 16-bit value held by a little-endian byte pair.
pub open spec fn entry_value(lo: u8, hi: u8) -> int {
    let u = lo as int + 256 * hi as int;
    if u >= 32768 {
        u - 65536
    } else {
        u
    }
}

/// The little-endian byte pair of a signed 16-bit value (two's complement).
pub open spec fn entry_bytes(v: i16) -> (u8, u8) {
    let u: int = if v < 0 {
        v + 65536
    } else {
        v as int
    };
    ((u % 256) as u8, (u / 256) as u8)
}

/// Splits a fixed-point entry into its little-endian byte pair.
pub fn entry_to_bytes(v: i16) -> (r: (u8, u8))
    ensures
        r == entry_bytes(v),
        entry_value(r.0, r.1) == v as int,
{
    let u: u16 = if v < 0 {
        (v as i32 + 65536) as u16
    } else {
        v as u16
    };
    ((u % 256) as u8, (u / 256) as u8)
}

/// Joins a little-endian byte pair into a fixed-point entry.
pub fn entry_from_bytes(lo: u8, hi: u8) -> (r: i16)
    ensures
        r as int == entry_value(lo, hi),
{
    let u: u32 = lo as u32 + 256 * hi as u32;
    if u >= 32768 {
        (u as i32 - 65536) as i16
    } else {
        u as i16
    }
}

/// Every 16-bit entry survives the trip through its byte pair, and every
/// byte pair survives the trip through its entry.
pub proof fn lemma_entry_round_trip(v: i16, lo: u8, hi: u8)
    ensures
        entry_value(entry_bytes(v).0, entry_bytes(v).1) == v as int,
        entry_bytes(entry_value(lo, hi) as i16) == (lo, hi),
{
}

/// `2` raised to `k`.
pub open spec fn two_pow(k: nat) -> nat
    decreases k,
{
    if k == 0 {
        1
    } else {
        2 * two_pow((k - 1) as nat)
    }
}

/// The digit for the lowest bit of `x`.
pub open spec fn digit(x: nat) -> char {
    if x % 2 == 1 {
        '1'
    } else {
        '0'
    }
}

/// The lowest `k` bits of `v` as binary digits, most significant first.
pub open spec fn low_bits(v: nat, k: nat) -> Seq<char>
    decreases k,
{
    if k == 0 {
        seq![]
    } else {
        seq![digit(v / two_pow((k - 1) as nat))] + low_bits(v, (k - 1) as nat)
    }
}

/// The unsigned number written by binary digits, most significant first;
/// a digit other than `'1'` counts as zero.
pub open spec fn value_of_bits(s: Seq<char>) -> nat
    decreases s.len(),
{
    if s.len() == 0 {
        0
    } else {
        2 * value_of_bits(s.drop_last()) + if s.last() == '1' { 1nat } else { 0nat }
    }
}

/// Powers of two are positive.
pub proof fn lemma_two_pow_positive(k: nat)
    ensures
        two_pow(k) > 0,
    decreases k,
{
    if k > 0 {
        lemma_two_pow_positive((k - 1) as nat);
    }
}

/// The powers of two for a byte, a sixteen-bit field and a 32-bit word.
pub proof fn lemma_two_pow_small()
    ensures
        two_pow(8) == 256,
        two_pow(16) == 65536,
        two_pow(31) == 0x8000_0000,
{
    reveal_with_fuel(two_pow, 32);
}

/// `low_bits(v, k)` has `k` digits.
pub proof fn lemma_low_bits_len(v: nat, k: nat)
    ensures
        low_bits(v, k).len() == k,
    decreases k,
{
    if k > 0 {
        lemma_low_bits_len(v, (k - 1) as nat);
    }
}

/// `k` digits write a number below `2^k`.
pub proof fn lemma_value_bound(s: Seq<char>)
    ensures
        value_of_bits(s) < two_pow(s.len()),
    decreases s.len(),
{
    if s.len() > 0 {
        lemma_value_bound(s.drop_last());
    }
}

/// The fixed-width binary digits of `val`, or `None` when `val` needs more
/// than `width` bits.
pub fn binary_digits(val: usize, width: usize) -> (r: Option<String>)
    ensures
        val < two_pow(width as nat) ==> r is Some && r->Some_0@ == low_bits(val as nat, width as nat),
        val >= two_pow(width as nat) ==> r is None,
{
    let mut acc = String::new();
    let mut v: usize = val;
    let mut k: usize = 0;
    proof {
        reveal_strlit("1");
        reveal_strlit("0");
        assert(acc@ =~= low_bits(val as nat, 0));
        assert(two_pow(0) == 1);
    }
    while k < width
        invariant
            0 <= k <= width,
            v as nat == val as nat / two_pow(k as nat),
            acc@ == low_bits(val as nat, k as nat),
        decreases width - k,
    {
        proof {
            lemma_two_pow_positive(k as nat);
            lemma_div_denominator(val as int, two_pow(k as nat) as int, 2);
        }
        let ghost prev = acc@;
        if v % 2 == 1 {
            acc = String::from_str("1").concat(acc.as_str());
        } else {
            acc = String::from_str("0").concat(acc.as_str());
        }
        proof {
            reveal_strlit("1");
            reveal_strlit("0");
            assert(low_bits(val as nat, (k + 1) as nat) == seq![digit(v as nat)] + prev);
            assert(acc@ =~= low_bits(val as nat, (k + 1) as nat));
        }
        v = v / 2;
        k = k + 1;
    }
    proof {
        lemma_two_pow_positive(width as nat);
        let d = two_pow(width as nat) as int;
        lemma_fundamental_div_mod(val as int, d);
        let q = val as int / d;
        assert(val >= d ==> q >= 1) by (nonlinear_arith)
            requires val == d * q + (val as int) % d, (val as int) % d < d, d > 0;
        assert(val < d ==> q == 0) by (nonlinear_arith)
            requires val == d * q + (val as int) % d, (val as int) % d < d, (val as int) % d >= 0, d > 0, q >= 0;
    }
    if v != 0 {
        None
    } else {
        Some(acc)
    }
}

/// The unsigned number written by binary digits, at most 32 of them so that
/// it fits the result.
pub fn parse_bits(s: &str) -> (r: u32)
    requires
        s@.len() <= 32,
    ensures
        r as nat == value_of_bits(s@),
{
    let n = s.unicode_len();
    let mut acc: u32 = 0;
    let mut i: usize = 0;
    while i < n
        invariant
            0 <= i <= n,
            n == s@.len(),
            n <= 32,
            acc as nat == value_of_bits(s@.take(i as int)),
        decreases n - i,
    {
        let c = s.get_char(i);
        proof {
            assert(s@.take(i + 1).drop_last() =~= s@.take(i as int));
            lemma_value_bound(s@.take(i as int));
            lemma_two_pow_small();
            lemma_two_pow_mono(i as nat, 31);
        }
        acc = 2 * acc + if c == '1' { 1u32 } else { 0u32 };
        i = i + 1;
    }
    proof {
        assert(s@.take(n as int) =~= s@);
    }
    acc
}

proof fn lemma_two_pow_mono(a: nat, b: nat)
    requires
        a <= b,
    ensures
        two_pow(a) <= two_pow(b),
    decreases b,
{
    if a < b {
        lemma_two_pow_mono(a, (b - 1) as nat);
    }
}

proof fn lemma_low_bits_index(v: nat, k: nat, m: int)
    requires
        0 <= m < k,
    ensures
        low_bits(v, k)[m] == digit(v / two_pow((k - 1 - m) as nat)),
    decreases k,
{
    lemma_low_bits_len(v, (k - 1) as nat);
    if m > 0 {
        lemma_low_bits_index(v, (k - 1) as nat, m - 1);
    }
}

proof fn lemma_low_bits_split(v: nat, k: nat)
    requires
        k > 0,
    ensures
        low_bits(v, k) == low_bits(v / 2, (k - 1) as nat).push(digit(v)),
{
    let a = low_bits(v, k);
    let b = low_bits(v / 2, (k - 1) as nat).push(digit(v));
    lemma_low_bits_len(v, k);
    lemma_low_bits_len(v / 2, (k - 1) as nat);
    assert forall|m: int| 0 <= m < k implies a[m] == b[m] by {
        lemma_low_bits_index(v, k, m);
        if m < k - 1 {
            let j = (k - 2 - m) as nat;
            lemma_low_bits_index(v / 2, (k - 1) as nat, m);
            lemma_two_pow_positive(j);
            lemma_div_denominator(v as int, 2, two_pow(j) as int);
            assert(two_pow(j + 1) == 2 * two_pow(j));
            assert((k - 1 - m) as nat == j + 1);
            assert(((k - 1) as nat - 1 - m) as nat == j);
            assert(b[m] == low_bits(v / 2, (k - 1) as nat)[m]);
            assert((v / 2) / two_pow(j) == v / two_pow(j + 1));
        } else {
            assert(two_pow(0) == 1);
            assert((k - 1 - m) as nat == 0);
            assert(v / 1 == v);
            assert(v / two_pow(0) == v);
        }
    }
    assert(a =~= b);
}

/// Binary digits are digits: every one is `'0'` or `'1'`.
pub proof fn lemma_low_bits_digits(v: nat, k: nat)
    ensures
        forall|m: int| 0 <= m < k ==> #[trigger] low_bits(v, k)[m] == '0' || low_bits(v, k)[m] == '1',
{
    assert forall|m: int| 0 <= m < k implies #[trigger] low_bits(v, k)[m] == '0' || low_bits(v, k)[m] == '1' by {
        lemma_low_bits_index(v, k, m);
    }
}

/// The `k` binary digits of `v` read back as `v` modulo `2^k`.
pub proof fn lemma_bits_round_trip(v: nat, k: nat)
    ensures
        value_of_bits(low_bits(v, k)) == v % two_pow(k),
    decreases k,
{
    if k == 0 {
        assert(two_pow(0) == 1);
    } else {
        let p = two_pow((k - 1) as nat);
        lemma_low_bits_split(v, k);
        assert(low_bits(v, k).drop_last() =~= low_bits(v / 2, (k - 1) as nat));
        lemma_bits_round_trip(v / 2, (k - 1) as nat);
        lemma_two_pow_positive((k - 1) as nat);
        lemma_mod_breakdown(v as int, 2, p as int);
    }
}

/// Little-endian byte pairs of a sequence of entries, in order.
pub open spec fn entries_bytes(v: Seq<i16>) -> Seq<u8> {
    Seq::new(
        2 * v.len(),
        |k: int|
            if k % 2 == 0 {
                entry_bytes(v[k / 2]).0
            } else {
                entry_bytes(v[k / 2]).1
            },
    )
}

/// The rows of a matrix one after another.
pub open spec fn flat(m: Seq<Seq<i16>>) -> Seq<i16>
    decreases m.len(),
{
    if m.len() == 0 {
        seq![]
    } else {
        flat(m.drop_last()) + m.last()
    }
}

/// Splits each entry into its little-endian byte pair.
pub fn entries_to_bytes(v: &Vec<i16>) -> (r: Vec<u8>)
    requires
        2 * v@.len() <= usize::MAX,
    ensures
        r@ == entries_bytes(v@),
{
    let mut out: Vec<u8> = Vec::new();
    let mut i: usize = 0;
    while i < v.len()
        invariant
            0 <= i <= v@.len(),
            2 * v@.len() <= usize::MAX,
            out@ == entries_bytes(v@).take(2 * i),
        decreases v@.len() - i,
    {
        let (lo, hi) = entry_to_bytes(v[i]);
        out.push(lo);
        out.push(hi);
        proof {
            lemma_fundamental_div_mod_converse(2 * i, 2, i as int, 0);
            lemma_fundamental_div_mod_converse(2 * i + 1, 2, i as int, 1);
            assert(out@ =~= entries_bytes(v@).take(2 * (i + 1)));
        }
        i = i + 1;
    }
    proof {
        assert(out@ =~= entries_bytes(v@));
    }
    out
}

/// The rows of a matrix one after another.
pub fn flatten_rows(m: &Vec<Vec<i16>>) -> (r: Vec<i16>)
    ensures
        r@ == flat(Seq::new(m@.len(), |i: int| m@[i]@)),
{
    let ghost rows = Seq::new(m@.len(), |i: int| m@[i]@);
    let mut out: Vec<i16> = Vec::new();
    let mut i: usize = 0;
    while i < m.len()
        invariant
            0 <= i <= m@.len(),
            rows == Seq::new(m@.len(), |i: int| m@[i]@),
            out@ == flat(rows.take(i as int)),
        decreases m@.len() - i,
    {
        let ghost before = out@;
        let mut j: usize = 0;
        while j < m[i].len()
            invariant
                0 <= i < m@.len(),
                0 <= j <= m@[i as int]@.len(),
                out@ == before + m@[i as int]@.take(j as int),
            decreases m@[i as int]@.len() - j,
        {
            out.push(m[i][j]);
            proof {
                assert(out@ =~= before + m@[i as int]@.take(j + 1));
            }
            j = j + 1;
        }
        proof {
            assert(rows.take(i + 1).drop_last() =~= rows.take(i as int));
            assert(m@[i as int]@.take(j as int) =~= m@[i as int]@);
            assert(out@ =~= flat(rows.take(i + 1)));
        }
        i = i + 1;
    }
    proof {
        assert(rows.take(m@.len() as int) =~= rows);
    }
    out
}

} // verus!
