//! The signed run-length stream and the delta stream built on it. A delta
//! column stores successive first differences of unsigned values as signed
//! run-length data; differences wrap modulo 2^64, and the running reference
//! value is unchanged across nulls.

use vstd::prelude::*;

use crate::error::AutomergeError;
use crate::leb::{
    uleb, uleb_read_spec, sleb, sleb_read_spec, read_uleb, read_sleb, write_uleb, write_sleb,
    lemma_uleb_read_round_trip, lemma_sleb_read_round_trip,
};
use crate::encoding::{ColData, RUN_LIMIT, group_len, grp, lemma_group_len, col_at};

verus! {

// ------------------------------------------------------------------
// Signed run-length stream
// ------------------------------------------------------------------

/// Bytes of one run of a signed column.
pub open spec fn rle_i_run(v: Option<i64>, n: nat) -> Seq<u8> {
    match v {
        None => sleb(0) + uleb(n),
        Some(x) => sleb(n as int) + sleb(x as int),
    }
}

/// The canonical signed run-length encoding.
pub open spec fn rle_i_enc(items: Seq<Option<i64>>) -> Seq<u8>
    decreases items.len(),
{
    if items.len() == 0 {
        Seq::empty()
    } else {
        let n = grp(items);
        rle_i_run(items[0], n) + rle_i_enc(items.skip(n as int))
    }
}

/// Reads `m` literal signed values from the front of `s`.
pub open spec fn rle_i_lits(s: Seq<u8>, m: nat) -> Option<(Seq<Option<i64>>, int)>
    decreases m,
{
    if m == 0 {
        Some((Seq::empty(), 0))
    } else {
        match sleb_read_spec(s) {
            None => None,
            Some((v, k)) => match rle_i_lits(s.skip(k), (m - 1) as nat) {
                None => None,
                Some((rest, k2)) => Some((seq![Some(v as i64)] + rest, k + k2)),
            },
        }
    }
}

/// Decode a whole signed run-length column.
pub open spec fn rle_i_dec(s: Seq<u8>) -> Option<Seq<Option<i64>>>
    decreases s.len(),
{
    if s.len() == 0 {
        Some(Seq::empty())
    } else {
        match sleb_read_spec(s) {
            None => None,
            Some((cnt, k)) => if k < 1 {
                None
            } else if cnt > 0 {
                if cnt <= usize::MAX as int {
                    match sleb_read_spec(s.skip(k)) {
                        None => None,
                        Some((v, k2)) => if 0 <= k2 && k + k2 <= s.len() {
                            match rle_i_dec(s.skip(k + k2)) {
                                None => None,
                                Some(rest) => Some(
                                    Seq::new(cnt as nat, |i: int| Some(v as i64)) + rest,
                                ),
                            }
                        } else {
                            None
                        },
                    }
                } else {
                    None
                }
            } else if cnt == 0 {
                match uleb_read_spec(s.skip(k)) {
                    None => None,
                    Some((m, k2)) => if 0 <= k2 && m <= usize::MAX as nat && k + k2 <= s.len() {
                        match rle_i_dec(s.skip(k + k2)) {
                            None => None,
                            Some(rest) => Some(
                                Seq::new(m, |i: int| None::<i64>) + rest,
                            ),
                        }
                    } else {
                        None
                    },
                }
            } else {
                if -cnt <= usize::MAX as int {
                    match rle_i_lits(s.skip(k), (-cnt) as nat) {
                        None => None,
                        Some((vals, k2)) => if 0 <= k2 && k + k2 <= s.len() {
                            match rle_i_dec(s.skip(k + k2)) {
                                None => None,
                                Some(rest) => Some(vals + rest),
                            }
                        } else {
                            None
                        },
                    }
                } else {
                    None
                }
            },
        }
    }
}

/// Drops trailing nulls of a signed column.
pub open spec fn trim_nulls_i(items: Seq<Option<i64>>) -> Seq<Option<i64>>
    decreases items.len(),
{
    if items.len() == 0 {
        items
    } else if items.last() is Some {
        items
    } else {
        trim_nulls_i(items.drop_last())
    }
}

fn opt_i64_eq(a: &Option<i64>, b: &Option<i64>) -> (r: bool)
    ensures
        r == (a == b),
{
    match (a, b) {
        (None, None) => true,
        (Some(x), Some(y)) => x == y,
        _ => false,
    }
}

/// Writes the canonical signed run-length bytes of `items`, trailing nulls
/// already dropped by the caller.
fn rle_i_encode(items: &Vec<Option<i64>>) -> (r: Result<Vec<u8>, AutomergeError>)
    ensures
        match r {
            Ok(data) => data@ == rle_i_enc(items@),
            Err(e) => {
                &&& items@.len() > RUN_LIMIT
                &&& e == AutomergeError::InvalidChange
            },
        },
{
    if items.len() as u64 > RUN_LIMIT {
        return Err(AutomergeError::InvalidChange);
    }
    let end = items.len();
    let ghost t = items@;
    let mut data: Vec<u8> = Vec::new();
    proof {
        assert(t.skip(0) =~= t);
    }
    let mut i: usize = 0;
    while i < end
        invariant
            i <= end == items@.len(),
            items@.len() <= RUN_LIMIT,
            t == items@,
            data@ + rle_i_enc(t.skip(i as int)) == rle_i_enc(t),
        decreases end - i,
    {
        let v = items[i];
        let mut j = i + 1;
        while j < end && opt_i64_eq(&items[j], &v)
            invariant
                i < j <= end == items@.len(),
                v == items@[i as int],
                forall|m: int| i < m < j ==> items@[m] == v,
            decreases end - j,
        {
            j = j + 1;
        }
        let ghost g = t.skip(i as int);
        proof {
            lemma_group_len(g);
            assert(forall|m: int| 0 <= m < j - i ==> g[m] == items@[i + m]);
            assert(forall|m: int| 0 <= m < j - i ==> g[m] == v);
            if j < end {
                assert(g[j - i] == items@[j as int]);
            }
            assert(group_len(g) == j - i);
        }
        match v {
            None => {
                write_sleb(&mut data, 0);
                write_uleb(&mut data, (j - i) as u64);
            }
            Some(x) => {
                write_sleb(&mut data, (j - i) as i64);
                write_sleb(&mut data, x);
            }
        }
        proof {
            assert(rle_i_enc(g) == rle_i_run(g[0], (j - i) as nat) + rle_i_enc(
                g.skip((j - i) as int),
            ));
            assert(g.skip((j - i) as int) =~= t.skip(j as int));
            assert(data@ + rle_i_enc(t.skip(j as int)) =~= rle_i_enc(t));
        }
        i = j;
    }
    proof {
        assert(t.skip(i as int) =~= Seq::<Option<i64>>::empty());
        assert(data@ =~= rle_i_enc(t));
    }
    Ok(data)
}

/// Decodes a whole signed run-length column, exactly as `rle_i_dec` says.
#[verifier::rlimit(60)]
fn rle_i_decode(bytes: &Vec<u8>) -> (r: Result<Vec<Option<i64>>, AutomergeError>)
    ensures
        match r {
            Ok(v) => rle_i_dec(bytes@) == Some(v@),
            Err(e) => {
                &&& rle_i_dec(bytes@) is None
                &&& e == AutomergeError::EncodingError
            },
        },
{
    let mut out: Vec<Option<i64>> = Vec::new();
    let mut pos: usize = 0;
    proof {
        assert(bytes@.skip(0) =~= bytes@);
    }
    while pos < bytes.len()
        invariant
            pos <= bytes@.len(),
            rle_i_dec(bytes@) == match rle_i_dec(bytes@.skip(pos as int)) {
                None => None::<Seq<Option<i64>>>,
                Some(rest) => Some(out@ + rest),
            },
        decreases bytes@.len() - pos,
    {
        let ghost s = bytes@.skip(pos as int);
        let (cnt, p2) = match read_sleb(bytes, pos) {
            Ok(p) => p,
            Err(e) => {
                return Err(e);
            }
        };
        let ghost k = p2 - pos;
        assert(sleb_read_spec(s) == Some((cnt as int, k)));
        if cnt > 0 {
            if (cnt as u64) > (usize::MAX as u64) {
                return Err(AutomergeError::EncodingError);
            }
            let (v, p3) = match read_sleb(bytes, p2) {
                Ok(p) => p,
                Err(e) => {
                    proof { assert(s.skip(k) =~= bytes@.skip(p2 as int)); }
                    return Err(e);
                }
            };
            let ghost k2 = p3 - p2;
            proof {
                assert(s.skip(k) =~= bytes@.skip(p2 as int));
                assert(s.skip(k + k2) =~= bytes@.skip(p3 as int));
            }
            let n = cnt as usize;
            let ghost out0 = out@;
            let mut c: usize = 0;
            while c < n
                invariant
                    c <= n,
                    out@ == out0 + Seq::new(c as nat, |i: int| Some(v)),
                decreases n - c,
            {
                out.push(Some(v));
                proof {
                    assert(out@ =~= out0 + Seq::new((c + 1) as nat, |i: int| Some(v)));
                }
                c = c + 1;
            }
            pos = p3;
        } else if cnt == 0 {
            let (m, p3) = match read_uleb(bytes, p2) {
                Ok(p) => p,
                Err(e) => {
                    proof { assert(s.skip(k) =~= bytes@.skip(p2 as int)); }
                    return Err(e);
                }
            };
            let ghost k2 = p3 - p2;
            proof {
                assert(s.skip(k) =~= bytes@.skip(p2 as int));
                assert(s.skip(k + k2) =~= bytes@.skip(p3 as int));
            }
            if m > (usize::MAX as u64) {
                return Err(AutomergeError::EncodingError);
            }
            let n = m as usize;
            let ghost out0 = out@;
            let mut c: usize = 0;
            while c < n
                invariant
                    c <= n,
                    out@ == out0 + Seq::new(c as nat, |i: int| None::<i64>),
                decreases n - c,
            {
                out.push(None);
                proof {
                    assert(out@ =~= out0 + Seq::new((c + 1) as nat, |i: int| None::<i64>));
                }
                c = c + 1;
            }
            pos = p3;
        } else {
            let m_wide: i128 = -(cnt as i128);
            if m_wide > (usize::MAX as u64) as i128 {
                return Err(AutomergeError::EncodingError);
            }
            let n = m_wide as usize;
            let ghost out0 = out@;
            let ghost sub0 = s.skip(k);
            proof {
                assert(sub0 =~= bytes@.skip(p2 as int));
            }
            let mut c: usize = 0;
            let mut q: usize = p2;
            proof {
                assert(out@.take(out0.len() as int) =~= out0);
                assert(out@.skip(out0.len() as int) =~= Seq::<Option<i64>>::empty());
            }
            while c < n
                invariant
                    c <= n,
                    p2 <= q <= bytes@.len(),
                    pos < p2 <= bytes@.len(),
                    n <= usize::MAX,
                    out0.len() <= out@.len(),
                    out@.take(out0.len() as int) == out0,
                    sub0 == bytes@.skip(p2 as int),
                    s == bytes@.skip(pos as int),
                    sub0 == s.skip(k),
                    sleb_read_spec(s) == Some((cnt as int, k)),
                    cnt < 0,
                    -(cnt as int) == n as int,
                    1 <= k,
                    pos < bytes@.len(),
                    rle_i_dec(bytes@) == match rle_i_dec(bytes@.skip(pos as int)) {
                        None => None::<Seq<Option<i64>>>,
                        Some(rest) => Some(out0 + rest),
                    },
                    rle_i_lits(sub0, n as nat) == match rle_i_lits(
                        bytes@.skip(q as int),
                        (n - c) as nat,
                    ) {
                        None => None::<(Seq<Option<i64>>, int)>,
                        Some(p) => Some((out@.skip(out0.len() as int) + p.0, (q - p2) + p.1)),
                    },
                decreases n - c,
            {
                let ghost outc = out@;
                let (v, q2) = match read_sleb(bytes, q) {
                    Ok(p) => p,
                    Err(e) => {
                        proof {
                            assert(rle_i_lits(bytes@.skip(q as int), (n - c) as nat) is None);
                            assert(rle_i_lits(sub0, n as nat) is None);
                            assert(rle_i_dec(s) is None);
                        }
                        return Err(e);
                    }
                };
                proof {
                    assert(bytes@.skip(q as int).skip(q2 - q) =~= bytes@.skip(q2 as int));
                }
                out.push(Some(v));
                proof {
                    assert(out@.take(out0.len() as int) =~= out0);
                    let tailm = rle_i_lits(bytes@.skip(q2 as int), (n - c - 1) as nat);
                    match tailm {
                        None => {}
                        Some(p) => {
                            assert(out@.skip(out0.len() as int) + p.0 =~= outc.skip(
                                out0.len() as int,
                            ) + (seq![Some(v)] + p.0));
                        }
                    }
                }
                q = q2;
                c = c + 1;
            }
            proof {
                assert(rle_i_lits(bytes@.skip(q as int), 0) == Some(
                    (Seq::<Option<i64>>::empty(), 0int),
                ));
                assert(out@.skip(out0.len() as int) + Seq::<Option<i64>>::empty() =~= out@.skip(
                    out0.len() as int,
                ));
                assert(s.skip(k + (q - p2)) =~= bytes@.skip(q as int));
                assert(out0 + out@.skip(out0.len() as int) =~= out@);
            }
            pos = q;
        }
    }
    proof {
        assert(bytes@.skip(pos as int).len() == 0);
        assert(rle_i_dec(bytes@.skip(pos as int)) == Some(Seq::<Option<i64>>::empty()));
        assert(out@ + Seq::<Option<i64>>::empty() =~= out@);
    }
    Ok(out)
}

/// Round trip for the signed stream.
pub proof fn lemma_rle_i_round_trip(items: Seq<Option<i64>>)
    requires
        items.len() <= RUN_LIMIT,
        items.len() <= usize::MAX,
        items.len() > 0 ==> items.last() is Some,
    ensures
        rle_i_dec(rle_i_enc(items)) == Some(items),
    decreases items.len(),
{
    if items.len() == 0 {
    } else {
        lemma_group_len(items);
        let n = group_len(items);
        let rest = items.skip(n as int);
        if rest.len() > 0 {
            assert(rest.last() == items.last());
        }
        lemma_rle_i_round_trip(rest);
        let tail = rle_i_enc(rest);
        let s = rle_i_enc(items);
        match items[0] {
            None => {
                assert(n < items.len());
                let after = uleb(n) + tail;
                lemma_sleb_read_round_trip(0, after);
                assert(s =~= sleb(0) + after);
                assert(sleb(0).len() == 1);
                assert(s.skip(1) =~= after);
                lemma_uleb_read_round_trip(n as u64, tail);
                assert(s.skip(1 + uleb(n).len() as int) =~= tail);
                assert(Seq::new(n, |i: int| None::<i64>) + rest =~= items);
            }
            Some(x) => {
                let after = sleb(x as int) + tail;
                lemma_sleb_read_round_trip(n as i64, after);
                assert(s =~= sleb(n as int) + after);
                let k = sleb(n as int).len() as int;
                assert(s.skip(k) =~= after);
                lemma_sleb_read_round_trip(x, tail);
                assert(s.skip(k + sleb(x as int).len() as int) =~= tail);
                assert(Seq::new(n, |i: int| Some(x)) + rest =~= items);
            }
        }
    }
}

// ------------------------------------------------------------------
// Delta stream
// ------------------------------------------------------------------

pub open spec fn u64_mod() -> int {
    0x1_0000_0000_0000_0000
}

/// The wrapping difference `a - b` reinterpreted as a signed 64-bit value.
pub open spec fn wrap_diff(a: u64, b: u64) -> i64 {
    let d = (a - b) % u64_mod();
    if d < 0x8000_0000_0000_0000 {
        d as i64
    } else {
        (d - u64_mod()) as i64
    }
}

/// The wrapping sum `b + d` back in unsigned 64-bit space.
pub open spec fn wrap_add(b: u64, d: i64) -> u64 {
    (((b + d) % u64_mod() + u64_mod()) % u64_mod()) as u64
}

pub proof fn lemma_wrap_round_trip(a: u64, b: u64)
    ensures
        wrap_add(b, wrap_diff(a, b)) == a,
{
    let d0 = (a - b) % u64_mod();
    assert(0 <= d0 < u64_mod());
    vstd::arithmetic::div_mod::lemma_fundamental_div_mod(a - b, u64_mod());
    let q = (a - b) / u64_mod();
    assert(a - b == u64_mod() * q + d0);
    if d0 < 0x8000_0000_0000_0000 {
        assert((b + d0) % u64_mod() == a as int % u64_mod()) by {
            assert(b + d0 == a - u64_mod() * q);
            lemma_mod_shift(a as int, -q, u64_mod());
        }
        assert(a as int % u64_mod() == a);
        assert(0 <= (b + d0) % u64_mod() < u64_mod());
        assert(((b + d0) % u64_mod() + u64_mod()) % u64_mod() == (b + d0) % u64_mod()) by {
            lemma_mod_shift((b + d0) % u64_mod(), 1, u64_mod());
            vstd::arithmetic::div_mod::lemma_small_mod(((b + d0) % u64_mod()) as nat, u64_mod() as nat);
        }
    } else {
        let d = d0 - u64_mod();
        assert((b + d) % u64_mod() == a as int % u64_mod()) by {
            assert(b + d == a - u64_mod() * (q + 1));
            lemma_mod_shift(a as int, -(q + 1), u64_mod());
        }
        assert(a as int % u64_mod() == a);
        assert(((b + d) % u64_mod() + u64_mod()) % u64_mod() == (b + d) % u64_mod()) by {
            lemma_mod_shift((b + d) % u64_mod(), 1, u64_mod());
            vstd::arithmetic::div_mod::lemma_small_mod((((b + d) % u64_mod())) as nat, u64_mod() as nat);
        }
    }
}

/// Adding a multiple of the modulus leaves the remainder unchanged.
proof fn lemma_mod_shift(x: int, k: int, m: int)
    requires
        m > 0,
    ensures
        (x + m * k) % m == x % m,
{
    vstd::arithmetic::div_mod::lemma_mod_multiples_vanish(k, x, m);
}

/// First differences of the non-null items; the running reference value is
/// unchanged across nulls.
pub open spec fn deltas(items: Seq<Option<u64>>, last: u64) -> Seq<Option<i64>>
    decreases items.len(),
{
    if items.len() == 0 {
        Seq::empty()
    } else {
        match items[0] {
            None => seq![None::<i64>] + deltas(items.skip(1), last),
            Some(v) => seq![Some(wrap_diff(v, last))] + deltas(items.skip(1), v),
        }
    }
}

/// Rebuilds absolute values from differences.
pub open spec fn undeltas(diffs: Seq<Option<i64>>, last: u64) -> Seq<Option<u64>>
    decreases diffs.len(),
{
    if diffs.len() == 0 {
        Seq::empty()
    } else {
        match diffs[0] {
            None => seq![None::<u64>] + undeltas(diffs.skip(1), last),
            Some(d) => seq![Some(wrap_add(last, d))] + undeltas(diffs.skip(1), wrap_add(last, d)),
        }
    }
}

pub proof fn lemma_undeltas_deltas(items: Seq<Option<u64>>, last: u64)
    ensures
        undeltas(deltas(items, last), last) == items,
    decreases items.len(),
{
    if items.len() == 0 {
        assert(undeltas(deltas(items, last), last) =~= items);
    } else {
        match items[0] {
            None => {
                lemma_undeltas_deltas(items.skip(1), last);
                assert(deltas(items, last).skip(1) =~= deltas(items.skip(1), last));
                assert(undeltas(deltas(items, last), last) =~= items);
            }
            Some(v) => {
                lemma_wrap_round_trip(v, last);
                lemma_undeltas_deltas(items.skip(1), v);
                assert(deltas(items, last).skip(1) =~= deltas(items.skip(1), v));
                assert(undeltas(deltas(items, last), last) =~= items);
            }
        }
    }
}

/// The byte form of a delta column: its items' first differences,
/// run-length encoded, trailing nulls dropped first.
pub open spec fn delta_enc(items: Seq<Option<u64>>) -> Seq<u8> {
    rle_i_enc(deltas(crate::encoding::trim_nulls(items), 0))
}

/// Decode of a delta column.
pub open spec fn delta_dec(s: Seq<u8>) -> Option<Seq<Option<u64>>> {
    match rle_i_dec(s) {
        None => None,
        Some(diffs) => Some(undeltas(diffs, 0)),
    }
}

/// Collects the items of one delta column; `finish` writes the canonical
/// bytes.
pub struct DeltaCol {
    pub items: Vec<Option<u64>>,
}

impl DeltaCol {
    pub fn new() -> (r: DeltaCol)
        ensures
            r.items@ == Seq::<Option<u64>>::empty(),
    {
        DeltaCol { items: Vec::new() }
    }

    pub fn append_value(&mut self, v: u64)
        ensures
            final(self).items@ == old(self).items@.push(Some(v)),
    {
        self.items.push(Some(v));
    }

    pub fn append_null(&mut self)
        ensures
            final(self).items@ == old(self).items@.push(None),
    {
        self.items.push(None);
    }

    pub fn finish(self, col: u32) -> (r: Result<ColData, AutomergeError>)
        ensures
            match r {
                Ok(cd) => {
                    &&& cd.col == col
                    &&& cd.data@ == delta_enc(self.items@)
                    &&& self.items@.len() <= RUN_LIMIT
                },
                Err(e) => {
                    &&& self.items@.len() > RUN_LIMIT
                    &&& e == AutomergeError::InvalidChange
                },
            },
    {
        if self.items.len() as u64 > RUN_LIMIT {
            return Err(AutomergeError::InvalidChange);
        }
        let items = self.items;
        let mut end = items.len();
        while end > 0 && items[end - 1].is_none()
            invariant
                end <= items@.len(),
                forall|j: int| end <= j < items@.len() ==> items@[j] is None,
            decreases end,
        {
            end = end - 1;
        }
        let ghost t = crate::encoding::trim_nulls(items@);
        proof {
            crate::encoding::lemma_trim_nulls_take(items@, end as int);
        }
        let mut diffs: Vec<Option<i64>> = Vec::new();
        let mut last: u64 = 0;
        proof {
            assert(t.skip(0) =~= t);
        }
        let mut i: usize = 0;
        while i < end
            invariant
                i <= end <= items@.len(),
                t == items@.take(end as int),
                diffs@ + deltas(t.skip(i as int), last) == deltas(t, 0),
            decreases end - i,
        {
            match items[i] {
                None => {
                    diffs.push(None);
                    proof {
                        assert(t.skip(i as int).skip(1) =~= t.skip(i as int + 1));
                        assert(diffs@ + deltas(t.skip(i as int + 1), last) =~= deltas(t, 0));
                    }
                }
                Some(v) => {
                    let d = wrap_diff_exec(v, last);
                    diffs.push(Some(d));
                    proof {
                        assert(t.skip(i as int).skip(1) =~= t.skip(i as int + 1));
                        assert(diffs@ + deltas(t.skip(i as int + 1), v) =~= deltas(t, 0));
                    }
                    last = v;
                }
            }
            i = i + 1;
        }
        proof {
            assert(t.skip(i as int) =~= Seq::<Option<u64>>::empty());
            assert(deltas(t.skip(i as int), last) =~= Seq::<Option<i64>>::empty());
            assert(diffs@ + Seq::<Option<i64>>::empty() =~= diffs@);
        }
        proof {
            lemma_deltas_len(t, 0);
        }
        match rle_i_encode(&diffs) {
            Ok(data) => Ok(ColData { col, data }),
            Err(e) => Err(e),
        }
    }
}

/// The wrapping difference, computed in 128-bit arithmetic.
fn wrap_diff_exec(a: u64, b: u64) -> (r: i64)
    ensures
        r == wrap_diff(a, b),
{
    let wide: i128 = a as i128 - b as i128;
    let r: i64 = if wide >= 0x8000_0000_0000_0000i128 {
        (wide - 0x1_0000_0000_0000_0000i128) as i64
    } else if wide < -0x8000_0000_0000_0000i128 {
        (wide + 0x1_0000_0000_0000_0000i128) as i64
    } else {
        wide as i64
    };
    proof {
        if 0 <= wide {
            assert((a - b) % u64_mod() == a - b) by {
                vstd::arithmetic::div_mod::lemma_small_mod((a - b) as nat, u64_mod() as nat);
            }
        } else {
            assert((a - b) % u64_mod() == a - b + u64_mod()) by {
                lemma_mod_shift(a - b, 1, u64_mod());
                vstd::arithmetic::div_mod::lemma_small_mod(
                    (a - b + u64_mod()) as nat,
                    u64_mod() as nat,
                );
            }
        }
    }
    r
}

/// Decodes a whole delta column, exactly as `delta_dec` says.
pub fn delta_decode(bytes: &Vec<u8>) -> (r: Result<Vec<Option<u64>>, AutomergeError>)
    ensures
        match r {
            Ok(v) => delta_dec(bytes@) == Some(v@),
            Err(e) => {
                &&& delta_dec(bytes@) is None
                &&& e == AutomergeError::EncodingError
            },
        },
{
    let diffs = match rle_i_decode(bytes) {
        Ok(d) => d,
        Err(e) => {
            return Err(e);
        }
    };
    let mut out: Vec<Option<u64>> = Vec::new();
    let mut last: u64 = 0;
    proof {
        assert(diffs@.skip(0) =~= diffs@);
    }
    let mut i: usize = 0;
    while i < diffs.len()
        invariant
            i <= diffs@.len(),
            out@ + undeltas(diffs@.skip(i as int), last) == undeltas(diffs@, 0),
        decreases diffs@.len() - i,
    {
        match diffs[i] {
            None => {
                out.push(None);
                proof {
                    assert(diffs@.skip(i as int).skip(1) =~= diffs@.skip(i as int + 1));
                    assert(out@ + undeltas(diffs@.skip(i as int + 1), last) =~= undeltas(
                        diffs@,
                        0,
                    ));
                }
            }
            Some(d) => {
                let v = wrap_add_exec(last, d);
                out.push(Some(v));
                proof {
                    assert(diffs@.skip(i as int).skip(1) =~= diffs@.skip(i as int + 1));
                    assert(out@ + undeltas(diffs@.skip(i as int + 1), v) =~= undeltas(diffs@, 0));
                }
                last = v;
            }
        }
        i = i + 1;
    }
    proof {
        assert(diffs@.skip(i as int) =~= Seq::<Option<i64>>::empty());
        assert(undeltas(diffs@.skip(i as int), last) =~= Seq::<Option<u64>>::empty());
        assert(out@ + Seq::<Option<u64>>::empty() =~= out@);
    }
    Ok(out)
}

/// The wrapping sum, computed in 128-bit arithmetic.
fn wrap_add_exec(b: u64, d: i64) -> (r: u64)
    ensures
        r == wrap_add(b, d),
{
    let wide: i128 = b as i128 + d as i128;
    let r: u64 = if wide >= 0x1_0000_0000_0000_0000i128 {
        (wide - 0x1_0000_0000_0000_0000i128) as u64
    } else if wide < 0i128 {
        (wide + 0x1_0000_0000_0000_0000i128) as u64
    } else {
        wide as u64
    };
    proof {
        if 0 <= wide < u64_mod() {
            assert((b + d) % u64_mod() == b + d) by {
                vstd::arithmetic::div_mod::lemma_small_mod((b + d) as nat, u64_mod() as nat);
            }
            assert(((b + d) % u64_mod() + u64_mod()) % u64_mod() == b + d) by {
                lemma_mod_shift(b + d, 1, u64_mod());
                vstd::arithmetic::div_mod::lemma_small_mod((b + d) as nat, u64_mod() as nat);
            }
        } else if wide < 0 {
            assert((b + d) % u64_mod() == b + d + u64_mod()) by {
                lemma_mod_shift(b + d, 1, u64_mod());
                vstd::arithmetic::div_mod::lemma_small_mod(
                    (b + d + u64_mod()) as nat,
                    u64_mod() as nat,
                );
            }
            assert(((b + d) % u64_mod() + u64_mod()) % u64_mod() == b + d + u64_mod()) by {
                lemma_mod_shift(b + d + u64_mod(), 1, u64_mod());
                vstd::arithmetic::div_mod::lemma_small_mod(
                    (b + d + u64_mod()) as nat,
                    u64_mod() as nat,
                );
            }
        } else {
            assert((b + d) % u64_mod() == b + d - u64_mod()) by {
                lemma_mod_shift(b + d - u64_mod(), 1, u64_mod());
                vstd::arithmetic::div_mod::lemma_small_mod(
                    (b + d - u64_mod()) as nat,
                    u64_mod() as nat,
                );
            }
            assert(((b + d) % u64_mod() + u64_mod()) % u64_mod() == b + d - u64_mod()) by {
                lemma_mod_shift(b + d - u64_mod(), 1, u64_mod());
                vstd::arithmetic::div_mod::lemma_small_mod(
                    (b + d - u64_mod()) as nat,
                    u64_mod() as nat,
                );
            }
        }
    }
    r
}

/// Round trip for the delta stream, up to null padding.
pub proof fn lemma_delta_round_trip(items: Seq<Option<u64>>)
    requires
        items.len() <= RUN_LIMIT,
        items.len() <= usize::MAX,
    ensures
        delta_dec(delta_enc(items)) == Some(crate::encoding::trim_nulls(items)),
{
    let t = crate::encoding::trim_nulls(items);
    crate::encoding::lemma_trim_nulls_at(items, 0);
    let diffs = deltas(t, 0);
    lemma_deltas_len(t, 0);
    lemma_deltas_last(t, 0);
    lemma_rle_i_round_trip(diffs);
    lemma_undeltas_deltas(t, 0);
}

proof fn lemma_deltas_len(items: Seq<Option<u64>>, last: u64)
    ensures
        deltas(items, last).len() == items.len(),
        forall|i: int| 0 <= i < items.len() ==> (#[trigger] deltas(items, last)[i] is Some
            <==> items[i] is Some),
    decreases items.len(),
{
    if items.len() > 0 {
        match items[0] {
            None => {
                lemma_deltas_len(items.skip(1), last);
            }
            Some(v) => {
                lemma_deltas_len(items.skip(1), v);
            }
        }
    }
}

proof fn lemma_deltas_last(items: Seq<Option<u64>>, last: u64)
    requires
        items.len() > 0 ==> items.last() is Some,
    ensures
        deltas(items, last).len() > 0 ==> deltas(items, last).last() is Some,
{
    lemma_deltas_len(items, last);
    if items.len() > 0 {
        assert(deltas(items, last)[items.len() - 1] is Some);
    }
}

} // verus!