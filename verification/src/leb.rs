//! LEB128 variable-length integers: unsigned and signed encoders and
//! decoders, with round-trip proofs. All multi-byte integers of the chunk
//! format are carried in this encoding.

use vstd::prelude::*;
use vstd::arithmetic::div_mod::{
    lemma_fundamental_div_mod, lemma_fundamental_div_mod_converse_mod,
};

use crate::error::AutomergeError;

verus! {

/// Unsigned LEB128: 7 data bits per byte, little-endian groups, the high bit
/// of a byte flags continuation.
pub open spec fn uleb(n: nat) -> Seq<u8>
    decreases n,
{
    if n < 128 {
        seq![n as u8]
    } else {
        seq![(n % 128 + 128) as u8] + uleb(n / 128)
    }
}

/// Decode an unsigned LEB128 value from the front of `s`: the value and the
/// number of bytes consumed, or `None` at end of input. The value is an
/// unbounded natural: callers bound it.
pub open spec fn uleb_dec(s: Seq<u8>) -> Option<(nat, int)>
    decreases s.len(),
{
    if s.len() == 0 {
        None
    } else if s[0] < 128 {
        Some((s[0] as nat, 1))
    } else {
        match uleb_dec(s.skip(1)) {
            None => None,
            Some(p) => Some((((s[0] - 128) as nat + 128 * p.0) as nat, p.1 + 1)),
        }
    }
}

pub const U64_LIMIT: u128 = 0x1_0000_0000_0000_0000;

/// What the executable reader accepts: a terminated group sequence of at most
/// ten bytes whose value fits in 64 bits.
pub open spec fn uleb_read_spec(s: Seq<u8>) -> Option<(nat, int)> {
    match uleb_dec(s) {
        None => None,
        Some(p) => if p.1 <= 10 && p.0 < U64_LIMIT { Some(p) } else { None },
    }
}

pub proof fn lemma_uleb_len(n: nat)
    requires
        n < U64_LIMIT,
    ensures
        1 <= uleb(n).len() <= 10,
{
    lemma_pow128_vals();
    lemma_uleb_len_bound(n, 10);
}

proof fn lemma_uleb_len_bound(n: nat, k: nat)
    requires
        1 <= k,
        n < pow128(k),
    ensures
        uleb(n).len() <= k,
    decreases n,
{
    if n < 128 {
    } else {
        assert(pow128(k) == 128 * pow128((k - 1) as nat));
        lemma_fundamental_div_mod(n as int, 128);
        lemma_uleb_len_bound(n / 128, (k - 1) as nat);
    }
}

pub open spec fn pow128(k: nat) -> nat
    decreases k,
{
    if k == 0 {
        1
    } else {
        128 * pow128((k - 1) as nat)
    }
}

proof fn lemma_pow128_vals()
    ensures
        pow128(9) == 0x8000_0000_0000_0000,
        pow128(10) == 0x4_0000_0000_0000_0000_0,
{
    assert(pow128(0) == 1);
    assert(pow128(1) == 128);
    assert(pow128(2) == 0x4000);
    assert(pow128(3) == 0x20_0000);
    assert(pow128(4) == 0x1000_0000);
    assert(pow128(5) == 0x8_0000_0000);
    assert(pow128(6) == 0x400_0000_0000);
    assert(pow128(7) == 0x2_0000_0000_0000);
    assert(pow128(8) == 0x100_0000_0000_0000);
    assert(pow128(9) == 0x8000_0000_0000_0000);
    assert(pow128(10) == 0x4_0000_0000_0000_0000_0);
}

proof fn lemma_pow128_10()
    ensures
        U64_LIMIT as nat <= pow128(10),
{
    lemma_pow128_vals();
}

/// Round trip: decoding an encoded value from the front of any stream yields
/// the value and consumes exactly its bytes.
pub proof fn lemma_uleb_round_trip(n: nat, rest: Seq<u8>)
    ensures
        uleb_dec(uleb(n) + rest) == Some((n, uleb(n).len() as int)),
    decreases n,
{
    let s = uleb(n) + rest;
    if n < 128 {
        assert(s[0] == n as u8);
    } else {
        let b = (n % 128 + 128) as u8;
        assert(s[0] == b);
        lemma_uleb_round_trip(n / 128, rest);
        assert(s.skip(1) =~= uleb(n / 128) + rest);
        lemma_fundamental_div_mod(n as int, 128);
    }
}

/// The reader accepts every encoded `u64`.
pub proof fn lemma_uleb_read_round_trip(n: u64, rest: Seq<u8>)
    ensures
        uleb_read_spec(uleb(n as nat) + rest) == Some((n as nat, uleb(n as nat).len() as int)),
{
    lemma_uleb_round_trip(n as nat, rest);
    lemma_uleb_len(n as nat);
}

/// Appends the unsigned LEB128 encoding of `n` to `buf`.
pub fn write_uleb(buf: &mut Vec<u8>, n: u64)
    ensures
        final(buf)@ == old(buf)@ + uleb(n as nat),
{
    let mut x: u64 = n;
    while x >= 128
        invariant
            old(buf)@ + uleb(n as nat) == buf@ + uleb(x as nat),
        decreases x,
    {
        let b: u8 = (x % 128 + 128) as u8;
        buf.push(b);
        proof {
            assert(uleb(x as nat) =~= seq![b] + uleb((x as nat) / 128));
            assert(buf@ + uleb((x / 128) as nat) =~= old(buf)@ + uleb(n as nat));
        }
        x = x / 128;
    }
    buf.push(x as u8);
    proof {
        assert(uleb(x as nat) =~= seq![x as u8]);
        assert(buf@ =~= old(buf)@ + uleb(n as nat));
    }
}

/// Reads an unsigned LEB128 value from `bytes` at `pos`: the value and the
/// position after it. Fails at end of input, on a missing terminator within
/// ten bytes, and on a value over 64 bits.
pub fn read_uleb(bytes: &Vec<u8>, pos: usize) -> (r: Result<(u64, usize), AutomergeError>)
    requires
        pos <= bytes@.len(),
    ensures
        match r {
            Ok(p) => {
                &&& uleb_read_spec(bytes@.skip(pos as int)) == Some((p.0 as nat, p.1 - pos))
                &&& pos < p.1 <= bytes@.len()
            },
            Err(e) => {
                &&& uleb_read_spec(bytes@.skip(pos as int)) is None
                &&& e == AutomergeError::EncodingError
            },
        },
{
    let ghost s = bytes@.skip(pos as int);
    let n = bytes.len();
    let mut value: u64 = 0;
    let mut mult: u64 = 1;
    let mut i: usize = 0;
    loop
        invariant
            pos <= n,
            n == bytes@.len(),
            s == bytes@.skip(pos as int),
            i <= 9,
            i <= s.len(),
            pos + i <= n,
            mult == pow128(i as nat),
            value < mult,
            mult <= 0x8000_0000_0000_0000,
            forall|j: int| 0 <= j < i ==> s[j] >= 128,
            uleb_dec_partial(s, i as nat) == value as nat,
        decreases 10 - i,
    {
        if pos + i >= bytes.len() {
            proof { lemma_uleb_dec_prefix_none(s, i as nat); }
            return Err(AutomergeError::EncodingError);
        }
        let b = bytes[pos + i];
        assert(s[i as int] == b);
        let low: u64 = (b % 128) as u64;
        if i == 9 && (low > 1 || b >= 128) {
            proof { lemma_uleb_reject(s, b, value as nat); }
            return Err(AutomergeError::EncodingError);
        }
        proof {
            lemma_pow128_vals();
            if i < 9 {
                assert(pow128((i + 1) as nat) == 128 * pow128(i as nat));
                lemma_pow128_mono(i as nat + 1, 9);
                assert(value + low * mult < 128 * mult) by (nonlinear_arith)
                    requires value < mult, low < 128;
            } else {
                // the tenth group is zero or one, so the sum stays in range
                assert(low * mult <= mult) by (nonlinear_arith)
                    requires low <= 1, mult >= 0;
            }
        }
        let newvalue: u64 = value + low * mult;
        if b < 128 {
            proof { lemma_uleb_accept(s, i as nat, b, value as nat, newvalue as nat); }
            return Ok((newvalue, pos + i + 1));
        }
        proof {
            lemma_uleb_dec_partial_step(s, i as nat, value as nat, newvalue as nat);
            assert(pow128((i + 1) as nat) == 128 * pow128(i as nat));
            lemma_pow128_vals();
            lemma_pow128_mono(i as nat + 1, 9);
        }
        value = newvalue;
        mult = mult * 128;
        i = i + 1;
    }
}

/// The value of the first `i` groups of `s`, all of which must carry the
/// continuation flag.
spec fn uleb_dec_partial(s: Seq<u8>, i: nat) -> nat
    decreases i,
{
    if i == 0 {
        0
    } else {
        (uleb_dec_partial(s, (i - 1) as nat) + (s[i - 1] - 128) * pow128((i - 1) as nat)) as nat
    }
}

proof fn lemma_pow128_mono(a: nat, b: nat)
    requires
        a <= b,
    ensures
        pow128(a) <= pow128(b),
    decreases b,
{
    if a < b {
        lemma_pow128_mono(a, (b - 1) as nat);
        assert(pow128(b) == 128 * pow128((b - 1) as nat));
        assert(pow128((b - 1) as nat) <= 128 * pow128((b - 1) as nat)) by (nonlinear_arith)
            requires pow128((b - 1) as nat) >= 0;
    }
}

/// Relates the byte-by-byte accumulation to the recursive decoder: after `i`
/// continuation bytes, the decode of `s` is the partial value plus the decode
/// of the remainder scaled by `128^i`.
proof fn lemma_uleb_dec_split(s: Seq<u8>, i: nat)
    requires
        i <= s.len(),
        forall|j: int| 0 <= j < i ==> s[j] >= 128,
    ensures
        uleb_dec(s) == match uleb_dec(s.skip(i as int)) {
            None => None::<(nat, int)>,
            Some(p) => Some(((uleb_dec_partial(s, i) + pow128(i) * p.0) as nat, p.1 + i)),
        },
    decreases i,
{
    if i == 0 {
        assert(s.skip(0) =~= s);
    } else {
        lemma_uleb_dec_split(s, (i - 1) as nat);
        let t = s.skip(i as int - 1);
        assert(t[0] == s[i - 1]);
        assert(t.skip(1) =~= s.skip(i as int));
        match uleb_dec(s.skip(i as int)) {
            None => {}
            Some(p) => {
                assert(uleb_dec(t) == Some((((t[0] - 128) as nat + 128 * p.0) as nat, p.1 + 1)));
                assert(uleb_dec_partial(s, i)
                    == uleb_dec_partial(s, (i - 1) as nat) + (s[i - 1] - 128) * pow128((i - 1) as nat));
                assert(pow128(i) == 128 * pow128((i - 1) as nat));
                let a = uleb_dec_partial(s, (i - 1) as nat);
                let g = (s[i - 1] - 128) as nat;
                let m = pow128((i - 1) as nat);
                assert(a + m * ((g + 128 * p.0) as nat) == (a + g * m) + (128 * m) * p.0)
                    by (nonlinear_arith);
            }
        }
    }
}

proof fn lemma_uleb_dec_prefix_none(s: Seq<u8>, i: nat)
    requires
        i == s.len(),
        forall|j: int| 0 <= j < i ==> s[j] >= 128,
    ensures
        uleb_read_spec(s) is None,
{
    lemma_uleb_dec_split(s, i);
    assert(s.skip(i as int).len() == 0);
}

proof fn lemma_uleb_reject(s: Seq<u8>, b: u8, value: nat)
    requires
        s.len() > 9,
        forall|j: int| 0 <= j < 9 ==> s[j] >= 128,
        s[9] == b,
        b % 128 > 1 || b >= 128,
        value < pow128(9),
        uleb_dec_partial(s, 9) == value,
    ensures
        uleb_read_spec(s) is None,
{
    lemma_uleb_dec_split(s, 9);
    let t = s.skip(9);
    assert(t[0] == b);
    if b < 128 {
        // terminator with a tenth group of two or more: value over 64 bits
        assert(uleb_dec(t) == Some((b as nat, 1int)));
        let v = (value + pow128(9) * (b as nat)) as nat;
        assert(uleb_dec(s) == Some((v, 10int)));
        lemma_pow128_vals();
        assert(pow128(9) * (b as nat) >= pow128(9) * 2) by (nonlinear_arith)
            requires b as nat >= 2;
    } else {
        // an eleventh byte would be needed: more than ten bytes in all
        match uleb_dec(t.skip(1)) {
            None => {}
            Some(p) => {
                assert(p.1 >= 1) by { lemma_uleb_dec_len(t.skip(1)); }
            }
        }
    }
}

proof fn lemma_uleb_dec_len(s: Seq<u8>)
    ensures
        match uleb_dec(s) {
            None => true,
            Some(p) => 1 <= p.1 <= s.len(),
        },
    decreases s.len(),
{
    if s.len() > 0 && s[0] >= 128 {
        lemma_uleb_dec_len(s.skip(1));
    }
}

proof fn lemma_uleb_accept(s: Seq<u8>, i: nat, b: u8, value: nat, newvalue: nat)
    requires
        i < 10,
        i < s.len(),
        forall|j: int| 0 <= j < i ==> s[j] >= 128,
        s[i as int] == b,
        b < 128,
        uleb_dec_partial(s, i) == value,
        newvalue == value + (b as nat) * pow128(i),
        newvalue < U64_LIMIT,
    ensures
        uleb_read_spec(s) == Some((newvalue, i as int + 1)),
{
    lemma_uleb_dec_split(s, i);
    let t = s.skip(i as int);
    assert(t[0] == b);
    assert(uleb_dec(t) == Some((b as nat, 1int)));
    assert(value + pow128(i) * (b as nat) == newvalue) by (nonlinear_arith)
        requires newvalue == value + (b as nat) * pow128(i);
}

proof fn lemma_uleb_dec_partial_step(s: Seq<u8>, i: nat, value: nat, newvalue: nat)
    requires
        i < s.len(),
        s[i as int] >= 128,
        uleb_dec_partial(s, i) == value,
        newvalue == value + ((s[i as int] % 128) as nat) * pow128(i),
    ensures
        uleb_dec_partial(s, i + 1) == newvalue,
{
    assert((s[i as int] - 128) as nat == (s[i as int] % 128) as nat);
}

/// Magnitude of an integer, the measure for the signed recursions.
pub open spec fn mag(v: int) -> nat {
    if v < 0 {
        (-v) as nat
    } else {
        v as nat
    }
}

/// Signed LEB128: the same framing as the unsigned form, sign-extended from
/// bit six of the final group.
pub open spec fn sleb(v: int) -> Seq<u8>
    decreases mag(v),
{
    if -64 <= v && v < 64 {
        seq![(v % 128) as u8]
    } else {
        seq![(v % 128 + 128) as u8] + sleb((v - v % 128) / 128)
    }
}

/// Decode a signed LEB128 value from the front of `s`: the value and the
/// number of bytes consumed.
pub open spec fn sleb_dec(s: Seq<u8>) -> Option<(int, int)>
    decreases s.len(),
{
    if s.len() == 0 {
        None
    } else if s[0] < 64 {
        Some((s[0] as int, 1))
    } else if s[0] < 128 {
        Some((s[0] - 128, 1))
    } else {
        match sleb_dec(s.skip(1)) {
            None => None,
            Some(p) => Some(((s[0] - 128) + 128 * p.0, p.1 + 1)),
        }
    }
}

pub const I64_MIN_INT: i128 = -0x8000_0000_0000_0000;
pub const I64_LIMIT: i128 = 0x8000_0000_0000_0000;

/// What the executable reader accepts: at most ten groups, and a value that
/// fits a signed 64-bit integer.
pub open spec fn sleb_read_spec(s: Seq<u8>) -> Option<(int, int)> {
    match sleb_dec(s) {
        None => None,
        Some(p) => if p.1 <= 10 && I64_MIN_INT <= p.0 < I64_LIMIT { Some(p) } else { None },
    }
}

pub proof fn lemma_sleb_len(v: int)
    requires
        I64_MIN_INT <= v < I64_LIMIT,
    ensures
        1 <= sleb(v).len() <= 10,
{
    lemma_pow128_vals();
    assert(64 * pow128(9) >= 0x8000_0000_0000_0000);
    lemma_sleb_len_bound(v, 10);
}

proof fn lemma_sleb_len_bound(v: int, k: nat)
    requires
        1 <= k,
        -64 * pow128((k - 1) as nat) <= v < 64 * pow128((k - 1) as nat),
    ensures
        sleb(v).len() <= k,
    decreases k,
{
    if -64 <= v && v < 64 {
    } else {
        let m = pow128((k - 2) as nat);
        lemma_fundamental_div_mod(v, 128);
        let q = (v - v % 128) / 128;
        assert(pow128((k - 1) as nat) == 128 * m);
        assert(v == 128 * q + v % 128);
        assert(-64 * (128 * m) <= 128 * q + v % 128 < 64 * (128 * m));
        assert(-64 * m <= q < 64 * m) by (nonlinear_arith)
            requires
                -64 * (128 * m) <= 128 * q + v % 128 < 64 * (128 * m),
                0 <= v % 128 < 128,
                m >= 1,
        ;
        lemma_sleb_len_bound(q, (k - 1) as nat);
    }
}

/// Round trip: a signed value decodes from the front of any stream to itself.
pub proof fn lemma_sleb_round_trip(v: int, rest: Seq<u8>)
    ensures
        sleb_dec(sleb(v) + rest) == Some((v, sleb(v).len() as int)),
    decreases mag(v),
{
    let s = sleb(v) + rest;
    if -64 <= v && v < 64 {
        assert(s[0] == (v % 128) as u8);
        if v >= 0 {
            assert(v % 128 == v);
        } else {
            assert(v % 128 == v + 128);
            assert(s[0] >= 64 && s[0] < 128);
        }
    } else {
        let b = (v % 128 + 128) as u8;
        assert(s[0] == b);
        let q = (v - v % 128) / 128;
        lemma_sleb_round_trip(q, rest);
        assert(s.skip(1) =~= sleb(q) + rest);
        lemma_fundamental_div_mod(v, 128);
        assert(v - v % 128 == 128 * q);
    }
}

/// The reader accepts every encoded `i64`.
pub proof fn lemma_sleb_read_round_trip(v: i64, rest: Seq<u8>)
    ensures
        sleb_read_spec(sleb(v as int) + rest) == Some((v as int, sleb(v as int).len() as int)),
{
    lemma_sleb_round_trip(v as int, rest);
    lemma_sleb_len(v as int);
}

/// Appends the signed LEB128 encoding of `v` to `buf`.
pub fn write_sleb(buf: &mut Vec<u8>, v: i64)
    ensures
        final(buf)@ == old(buf)@ + sleb(v as int),
{
    let mut x: i128 = v as i128;
    while x < -64 || x >= 64
        invariant
            I64_MIN_INT <= x < I64_LIMIT,
            old(buf)@ + sleb(v as int) == buf@ + sleb(x as int),
        decreases mag(x as int),
    {
        let mut low: i128 = x % 128;
        if low < 0 {
            low = low + 128;
        }
        let b: u8 = (low + 128) as u8;
        buf.push(b);
        let q = (x - low) / 128;
        proof {
            assert(low == (x as int) % 128);
            assert(sleb(x as int) =~= seq![b] + sleb(q as int));
            assert(buf@ + sleb(q as int) =~= old(buf)@ + sleb(v as int));
        }
        x = q;
    }
    let low: i128 = if x < 0 {
        x + 128
    } else {
        x
    };
    buf.push(low as u8);
    proof {
        assert(low == (x as int) % 128);
        assert(sleb(x as int) =~= seq![low as u8]);
        assert(buf@ =~= old(buf)@ + sleb(v as int));
    }
}

/// Partial-sum lemma for the signed decoder, over a prefix of continuation
/// bytes.
proof fn lemma_sleb_dec_split(s: Seq<u8>, i: nat)
    requires
        i <= s.len(),
        forall|j: int| 0 <= j < i ==> s[j] >= 128,
    ensures
        sleb_dec(s) == match sleb_dec(s.skip(i as int)) {
            None => None::<(int, int)>,
            Some(p) => Some((uleb_dec_partial(s, i) + pow128(i) * p.0, p.1 + i)),
        },
    decreases i,
{
    if i == 0 {
        assert(s.skip(0) =~= s);
        match sleb_dec(s) {
            None => {}
            Some(p) => {
                assert(uleb_dec_partial(s, 0) == 0);
                assert(pow128(0) * p.0 == p.0) by (nonlinear_arith)
                    requires pow128(0) == 1;
            }
        }
    } else {
        lemma_sleb_dec_split(s, (i - 1) as nat);
        let t = s.skip(i as int - 1);
        assert(t[0] == s[i - 1]);
        assert(t.skip(1) =~= s.skip(i as int));
        match sleb_dec(s.skip(i as int)) {
            None => {}
            Some(p) => {
                assert(sleb_dec(t) == Some(((t[0] - 128) + 128 * p.0, p.1 + 1)));
                let a = uleb_dec_partial(s, (i - 1) as nat) as int;
                let g = (s[i - 1] - 128) as int;
                let m = pow128((i - 1) as nat) as int;
                assert(g >= 0);
                assert(g * m >= 0) by (nonlinear_arith)
                    requires g >= 0, m >= 0;
                assert(uleb_dec_partial(s, i) == a + g * m);
                assert(pow128(i) == 128 * m);
                assert(sleb_dec(s) == Some((a + m * (g + 128 * p.0), p.1 + 1 + (i - 1))));
                assert(a + m * (g + 128 * p.0) == (a + g * m) + pow128(i) * p.0)
                    by (nonlinear_arith)
                    requires pow128(i) == 128 * m;
            }
        }
    }
}

proof fn lemma_sleb_dec_len(s: Seq<u8>)
    ensures
        match sleb_dec(s) {
            None => true,
            Some(p) => 1 <= p.1 <= s.len(),
        },
    decreases s.len(),
{
    if s.len() > 0 && s[0] >= 128 {
        lemma_sleb_dec_len(s.skip(1));
    }
}

/// Reads a signed LEB128 value from `bytes` at `pos`. Fails at end of input,
/// on a missing terminator within ten bytes, and on a value outside the
/// signed 64-bit range.
pub fn read_sleb(bytes: &Vec<u8>, pos: usize) -> (r: Result<(i64, usize), AutomergeError>)
    requires
        pos <= bytes@.len(),
    ensures
        match r {
            Ok(p) => {
                &&& sleb_read_spec(bytes@.skip(pos as int)) == Some((p.0 as int, p.1 - pos))
                &&& pos < p.1 <= bytes@.len()
            },
            Err(e) => {
                &&& sleb_read_spec(bytes@.skip(pos as int)) is None
                &&& e == AutomergeError::EncodingError
            },
        },
{
    let ghost s = bytes@.skip(pos as int);
    let n = bytes.len();
    let mut value: i128 = 0;
    let mut mult: i128 = 1;
    let mut i: usize = 0;
    loop
        invariant
            pos <= n,
            n == bytes@.len(),
            s == bytes@.skip(pos as int),
            i <= 9,
            i <= s.len(),
            pos + i <= n,
            mult == pow128(i as nat),
            0 <= value < mult,
            mult <= 0x8000_0000_0000_0000,
            forall|j: int| 0 <= j < i ==> s[j] >= 128,
            uleb_dec_partial(s, i as nat) == value as nat,
        decreases 10 - i,
    {
        if pos + i >= bytes.len() {
            proof {
                lemma_sleb_dec_split(s, i as nat);
                assert(s.skip(i as int).len() == 0);
            }
            return Err(AutomergeError::EncodingError);
        }
        let b = bytes[pos + i];
        assert(s[i as int] == b);
        let low: i128 = (b % 128) as i128;
        proof {
            lemma_pow128_vals();
            assert(value + low * mult < 128 * mult) by (nonlinear_arith)
                requires 0 <= value < mult, 0 <= low < 128, mult > 0;
            assert(low * mult >= 0) by (nonlinear_arith)
                requires low >= 0, mult >= 0;
            if i < 9 {
                assert(pow128((i + 1) as nat) == 128 * pow128(i as nat));
                lemma_pow128_mono(i as nat + 1, 9);
            }
        }
        let acc: i128 = value + low * mult;
        if b < 128 {
            // terminator: sign-extend from bit six of the final group
            let v: i128 = if b >= 64 {
                acc - mult * 128
            } else {
                acc
            };
            proof {
                lemma_sleb_dec_split(s, i as nat);
                let t = s.skip(i as int);
                assert(t[0] == b);
                if b >= 64 {
                    assert(sleb_dec(t) == Some((b - 128, 1int)));
                    assert(value + pow128(i as nat) * (b - 128) == acc - mult * 128)
                        by (nonlinear_arith)
                        requires
                            acc == value + (b % 128) * mult,
                            mult == pow128(i as nat),
                            64 <= b < 128,
                    ;
                } else {
                    assert(sleb_dec(t) == Some((b as int, 1int)));
                    assert(value + pow128(i as nat) * (b as int) == acc) by (nonlinear_arith)
                        requires
                            acc == value + (b % 128) * mult,
                            mult == pow128(i as nat),
                            0 <= b < 64,
                    ;
                }
            }
            if v < I64_MIN_INT || v >= I64_LIMIT {
                return Err(AutomergeError::EncodingError);
            }
            return Ok((v as i64, pos + i + 1));
        }
        if i == 9 {
            // an eleventh byte would be needed: more than ten in all
            proof {
                lemma_sleb_dec_split(s, 10);
                let t = s.skip(10);
                match sleb_dec(t) {
                    None => {}
                    Some(p) => {
                        lemma_sleb_dec_len(t);
                    }
                }
            }
            return Err(AutomergeError::EncodingError);
        }
        proof {
            lemma_uleb_dec_partial_step(s, i as nat, value as nat, acc as nat);
            assert(pow128((i + 1) as nat) == 128 * pow128(i as nat));
            lemma_pow128_vals();
            lemma_pow128_mono(i as nat + 1, 9);
        }
        value = acc;
        mult = mult * 128;
        i = i + 1;
    }
}

} // verus!
