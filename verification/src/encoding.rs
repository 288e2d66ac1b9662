//! Column streams: run-length encoding over unsigned integers, signed
//! integers and byte strings, the boolean bitmap, and the delta stream of
//! first differences. Each writer's output is pinned to a spec-level mirror,
//! each reader returns exactly what the spec-level decoder says, and
//! round-trip lemmas connect the two.

use vstd::prelude::*;

use crate::error::AutomergeError;
use crate::leb::{
    uleb, uleb_read_spec, sleb, sleb_read_spec, read_uleb, read_sleb, write_uleb, write_sleb,
    lemma_uleb_read_round_trip, lemma_sleb_read_round_trip,
};

verus! {

/// One finished column: its id and its payload bytes.
pub struct ColData {
    pub col: u32,
    pub data: Vec<u8>,
}

/// Run lengths are written as signed LEB128, so a writer refuses a column of
/// more than `i64::MAX` elements.
pub const RUN_LIMIT: u64 = 0x7fff_ffff_ffff_ffff;

/// Length of the maximal prefix of equal elements: zero only on an empty
/// sequence.
pub open spec fn group_len<T>(s: Seq<T>) -> nat
    decreases s.len(),
{
    if s.len() <= 1 {
        s.len()
    } else if s[1] == s[0] {
        1 + group_len(s.skip(1))
    } else {
        1
    }
}

/// The group length, clamped into `1 ..= s.len()`; equal to `group_len` on
/// every non-empty sequence, and what the encoders recurse on.
pub open spec fn grp<T>(s: Seq<T>) -> nat {
    let n = group_len(s);
    if n < 1 {
        1
    } else if n > s.len() {
        s.len()
    } else {
        n
    }
}

pub proof fn lemma_group_len<T>(s: Seq<T>)
    requires
        s.len() > 0,
    ensures
        1 <= group_len(s) <= s.len(),
        grp(s) == group_len(s),
        forall|j: int| 0 <= j < group_len(s) ==> #[trigger] s[j] == s[0],
        group_len(s) < s.len() ==> s[group_len(s) as int] != s[0],
    decreases s.len(),
{
    if s.len() > 1 && s[1] == s[0] {
        lemma_group_len(s.skip(1));
        let t = s.skip(1);
        assert(forall|j: int| 0 <= j < group_len(t) ==> #[trigger] t[j] == t[0]);
        assert(forall|j: int| 1 <= j < group_len(s) ==> #[trigger] s[j] == t[j - 1]);
    }
}


// ------------------------------------------------------------------
// Unsigned run-length stream
// ------------------------------------------------------------------

/// Bytes of one run: a null run is a zero count and a null tally; a value
/// run is a positive count and the value.
pub open spec fn rle_u_run(v: Option<u64>, n: nat) -> Seq<u8> {
    match v {
        None => sleb(0) + uleb(n),
        Some(x) => sleb(n as int) + uleb(x as nat),
    }
}

/// The canonical unsigned run-length encoding: each maximal group of equal
/// items becomes one run.
pub open spec fn rle_u_enc(items: Seq<Option<u64>>) -> Seq<u8>
    decreases items.len(),
{
    if items.len() == 0 {
        Seq::empty()
    } else {
        let n = grp(items);
        rle_u_run(items[0], n) + rle_u_enc(items.skip(n as int))
    }
}

/// Reads `m` literal values from the front of `s`: the values and the bytes
/// consumed.
pub open spec fn rle_u_lits(s: Seq<u8>, m: nat) -> Option<(Seq<Option<u64>>, int)>
    decreases m,
{
    if m == 0 {
        Some((Seq::empty(), 0))
    } else {
        match uleb_read_spec(s) {
            None => None,
            Some((v, k)) => match rle_u_lits(s.skip(k), (m - 1) as nat) {
                None => None,
                Some((rest, k2)) => Some((seq![Some(v as u64)] + rest, k + k2)),
            },
        }
    }
}

/// Decode a whole unsigned run-length column. Accepts the three run forms:
/// positive count with one value, zero count with a null tally, negative
/// count with literal values.
pub open spec fn rle_u_dec(s: Seq<u8>) -> Option<Seq<Option<u64>>>
    decreases s.len(),
{
    if s.len() == 0 {
        Some(Seq::empty())
    } else {
        match sleb_read_spec(s) {
            None => None,
            Some((cnt, k)) => if k < 1 {
                None
            } else if cnt > 0 {
                if cnt <= usize::MAX as int {
                    match uleb_read_spec(s.skip(k)) {
                        None => None,
                        Some((v, k2)) => if 0 <= k2 && k + k2 <= s.len() {
                            match rle_u_dec(s.skip(k + k2)) {
                                None => None,
                                Some(rest) => Some(
                                    Seq::new(cnt as nat, |i: int| Some(v as u64)) + rest,
                                ),
                            }
                        } else {
                            None
                        },
                    }
                } else {
                    None
                }
            } else if cnt == 0 {
                match uleb_read_spec(s.skip(k)) {
                    None => None,
                    Some((m, k2)) => if 0 <= k2 && m <= usize::MAX as nat && k + k2 <= s.len() {
                        match rle_u_dec(s.skip(k + k2)) {
                            None => None,
                            Some(rest) => Some(
                                Seq::new(m, |i: int| None::<u64>) + rest,
                            ),
                        }
                    } else {
                        None
                    },
                }
            } else {
                if -cnt <= usize::MAX as int {
                    match rle_u_lits(s.skip(k), (-cnt) as nat) {
                        None => None,
                        Some((vals, k2)) => if 0 <= k2 && k + k2 <= s.len() {
                            match rle_u_dec(s.skip(k + k2)) {
                                None => None,
                                Some(rest) => Some(vals + rest),
                            }
                        } else {
                            None
                        },
                    }
                } else {
                    None
                }
            },
        }
    }
}

/// Drops trailing nulls: a decoder reads past-end as null, so the writer
/// leaves a trailing null run out.
pub open spec fn trim_nulls(items: Seq<Option<u64>>) -> Seq<Option<u64>>
    decreases items.len(),
{
    if items.len() == 0 {
        items
    } else if items.last() is Some {
        items
    } else {
        trim_nulls(items.drop_last())
    }
}

/// The element a column yields at `i`: null past the end.
pub open spec fn col_at(items: Seq<Option<u64>>, i: int) -> Option<u64> {
    if 0 <= i < items.len() {
        items[i]
    } else {
        None
    }
}

pub proof fn lemma_trim_nulls_at(items: Seq<Option<u64>>, i: int)
    ensures
        col_at(trim_nulls(items), i) == col_at(items, i),
        trim_nulls(items).len() <= items.len(),
        trim_nulls(items).len() > 0 ==> trim_nulls(items).last() is Some,
    decreases items.len(),
{
    if items.len() > 0 && items.last() is None {
        lemma_trim_nulls_at(items.drop_last(), i);
    }
}

/// A trimmed prefix is characterised by a scan from the end: everything at
/// or after `end` is null, and `end` is zero or sits right after a value.
pub proof fn lemma_trim_nulls_take(items: Seq<Option<u64>>, end: int)
    requires
        0 <= end <= items.len(),
        forall|j: int| end <= j < items.len() ==> items[j] is None,
        end > 0 ==> items[end - 1] is Some,
    ensures
        trim_nulls(items) == items.take(end),
    decreases items.len(),
{
    if items.len() == 0 {
        assert(items.take(0) =~= items);
    } else if items.last() is Some {
        assert(end == items.len());
        assert(items.take(end) =~= items);
    } else {
        lemma_trim_nulls_take(items.drop_last(), end);
        assert(items.drop_last() =~= items.take(items.len() - 1));
        assert(items.drop_last().take(end) =~= items.take(end));
    }
}

fn opt_u64_eq(a: &Option<u64>, b: &Option<u64>) -> (r: bool)
    ensures
        r == (a == b),
{
    match (a, b) {
        (None, None) => true,
        (Some(x), Some(y)) => x == y,
        _ => false,
    }
}

/// Collects the items of one unsigned run-length column; `finish` writes the
/// canonical bytes.
pub struct UintRle {
    pub items: Vec<Option<u64>>,
}

impl UintRle {
    pub fn new() -> (r: UintRle)
        ensures
            r.items@ == Seq::<Option<u64>>::empty(),
    {
        UintRle { items: Vec::new() }
    }

    pub fn append_value(&mut self, v: u64)
        ensures
            final(self).items@ == old(self).items@.push(Some(v)),
    {
        self.items.push(Some(v));
    }

    pub fn append_null(&mut self)
        ensures
            final(self).items@ == old(self).items@.push(None),
    {
        self.items.push(None);
    }

    /// Emits the canonical encoding of the items, trailing nulls dropped.
    /// Refuses a column of more than `i64::MAX` items, whose run counts
    /// could not be written.
    pub fn finish(self, col: u32) -> (r: Result<ColData, AutomergeError>)
        ensures
            match r {
                Ok(cd) => {
                    &&& cd.col == col
                    &&& cd.data@ == rle_u_enc(trim_nulls(self.items@))
                    &&& self.items@.len() <= RUN_LIMIT
                },
                Err(e) => {
                    &&& self.items@.len() > RUN_LIMIT
                    &&& e == AutomergeError::InvalidChange
                },
            },
    {
        if self.items.len() as u64 > RUN_LIMIT {
            return Err(AutomergeError::InvalidChange);
        }
        let items = self.items;
        let mut end = items.len();
        while end > 0 && items[end - 1].is_none()
            invariant
                end <= items@.len(),
                forall|j: int| end <= j < items@.len() ==> items@[j] is None,
            decreases end,
        {
            end = end - 1;
        }
        let ghost t = trim_nulls(items@);
        proof {
            lemma_trim_nulls_take(items@, end as int);
        }
        let mut data: Vec<u8> = Vec::new();
        proof {
            assert(t.skip(0) =~= t);
        }
        let mut i: usize = 0;
        while i < end
            invariant
                i <= end <= items@.len() <= RUN_LIMIT,
                t == items@.take(end as int),
                data@ + rle_u_enc(t.skip(i as int)) == rle_u_enc(t),
            decreases end - i,
        {
            let v = items[i];
            let mut j = i + 1;
            while j < end && opt_u64_eq(&items[j], &v)
                invariant
                    i < j <= end <= items@.len(),
                    v == items@[i as int],
                    forall|m: int| i < m < j ==> items@[m] == v,
                decreases end - j,
            {
                j = j + 1;
            }
            let ghost g = t.skip(i as int);
            proof {
                lemma_group_len(g);
                assert(forall|m: int| 0 <= m < j - i ==> g[m] == items@[i + m]);
                assert(forall|m: int| 0 <= m < j - i ==> g[m] == v);
                if j < end {
                    assert(g[j - i] == items@[j as int]);
                }
                // the scan found exactly the maximal group
                assert(group_len(g) == j - i);
            }
            match v {
                None => {
                    write_sleb(&mut data, 0);
                    write_uleb(&mut data, (j - i) as u64);
                }
                Some(x) => {
                    write_sleb(&mut data, (j - i) as i64);
                    write_uleb(&mut data, x);
                }
            }
            proof {
                assert(rle_u_enc(g) == rle_u_run(g[0], (j - i) as nat) + rle_u_enc(
                    g.skip((j - i) as int),
                ));
                assert(g.skip((j - i) as int) =~= t.skip(j as int));
                assert(data@ + rle_u_enc(t.skip(j as int)) =~= rle_u_enc(t));
            }
            i = j;
        }
        proof {
            assert(t.skip(i as int) =~= Seq::<Option<u64>>::empty());
            assert(data@ =~= rle_u_enc(t));
        }
        Ok(ColData { col, data })
    }
}

/// Round trip: the canonical encoding of a column without trailing nulls
/// decodes to exactly that column.
pub proof fn lemma_rle_u_round_trip(items: Seq<Option<u64>>)
    requires
        items.len() <= RUN_LIMIT,
        items.len() <= usize::MAX,
        items.len() > 0 ==> items.last() is Some,
    ensures
        rle_u_dec(rle_u_enc(items)) == Some(items),
    decreases items.len(),
{
    if items.len() == 0 {
    } else {
        lemma_group_len(items);
        let n = group_len(items);
        let rest = items.skip(n as int);
        if rest.len() > 0 {
            assert(rest.last() == items.last());
        }
        lemma_rle_u_round_trip(rest);
        let tail = rle_u_enc(rest);
        let s = rle_u_enc(items);
        match items[0] {
            None => {
                // the column does not end in a null, so the group is internal
                assert(n < items.len());
                let after = uleb(n) + tail;
                lemma_sleb_read_round_trip(0, after);
                assert(s =~= sleb(0) + after);
                assert(sleb(0).len() == 1);
                assert(s.skip(1) =~= after);
                lemma_uleb_read_round_trip(n as u64, tail);
                assert(s.skip(1 + uleb(n).len() as int) =~= tail);
                assert(Seq::new(n, |i: int| None::<u64>) + rest =~= items);
            }
            Some(x) => {
                let after = uleb(x as nat) + tail;
                lemma_sleb_read_round_trip(n as i64, after);
                assert(s =~= sleb(n as int) + after);
                let k = sleb(n as int).len() as int;
                assert(s.skip(k) =~= after);
                lemma_uleb_read_round_trip(x, tail);
                assert(s.skip(k + uleb(x as nat).len() as int) =~= tail);
                assert(Seq::new(n, |i: int| Some(x)) + rest =~= items);
            }
        }
    }
}

/// Decodes a whole unsigned run-length column, exactly as `rle_u_dec` says.
#[verifier::rlimit(60)]
pub fn rle_u_decode(bytes: &Vec<u8>) -> (r: Result<Vec<Option<u64>>, AutomergeError>)
    ensures
        match r {
            Ok(v) => rle_u_dec(bytes@) == Some(v@),
            Err(e) => {
                &&& rle_u_dec(bytes@) is None
                &&& e == AutomergeError::EncodingError
            },
        },
{
    let mut out: Vec<Option<u64>> = Vec::new();
    let mut pos: usize = 0;
    proof {
        assert(bytes@.skip(0) =~= bytes@);
    }
    while pos < bytes.len()
        invariant
            pos <= bytes@.len(),
            rle_u_dec(bytes@) == match rle_u_dec(bytes@.skip(pos as int)) {
                None => None::<Seq<Option<u64>>>,
                Some(rest) => Some(out@ + rest),
            },
        decreases bytes@.len() - pos,
    {
        let ghost s = bytes@.skip(pos as int);
        let (cnt, p2) = match read_sleb(bytes, pos) {
            Ok(p) => p,
            Err(e) => {
                return Err(e);
            }
        };
        let ghost k = p2 - pos;
        assert(sleb_read_spec(s) == Some((cnt as int, k)));
        if cnt > 0 {
            if (cnt as u64) > (usize::MAX as u64) {
                return Err(AutomergeError::EncodingError);
            }
            let (v, p3) = match read_uleb(bytes, p2) {
                Ok(p) => p,
                Err(e) => {
                    proof { assert(s.skip(k) =~= bytes@.skip(p2 as int)); }
                    return Err(e);
                }
            };
            let ghost k2 = p3 - p2;
            proof {
                assert(s.skip(k) =~= bytes@.skip(p2 as int));
                assert(s.skip(k + k2) =~= bytes@.skip(p3 as int));
            }
            let n = cnt as usize;
            let ghost out0 = out@;
            let mut c: usize = 0;
            while c < n
                invariant
                    c <= n,
                    out@ == out0 + Seq::new(c as nat, |i: int| Some(v)),
                decreases n - c,
            {
                out.push(Some(v));
                proof {
                    assert(out@ =~= out0 + Seq::new((c + 1) as nat, |i: int| Some(v)));
                }
                c = c + 1;
            }
            pos = p3;
        } else if cnt == 0 {
            let (m, p3) = match read_uleb(bytes, p2) {
                Ok(p) => p,
                Err(e) => {
                    proof { assert(s.skip(k) =~= bytes@.skip(p2 as int)); }
                    return Err(e);
                }
            };
            let ghost k2 = p3 - p2;
            proof {
                assert(s.skip(k) =~= bytes@.skip(p2 as int));
                assert(s.skip(k + k2) =~= bytes@.skip(p3 as int));
            }
            if m > (usize::MAX as u64) {
                return Err(AutomergeError::EncodingError);
            }
            let n = m as usize;
            let ghost out0 = out@;
            let mut c: usize = 0;
            while c < n
                invariant
                    c <= n,
                    out@ == out0 + Seq::new(c as nat, |i: int| None::<u64>),
                decreases n - c,
            {
                out.push(None);
                proof {
                    assert(out@ =~= out0 + Seq::new((c + 1) as nat, |i: int| None::<u64>));
                }
                c = c + 1;
            }
            pos = p3;
        } else {
            let m_wide: i128 = -(cnt as i128);
            if m_wide > (usize::MAX as u64) as i128 {
                return Err(AutomergeError::EncodingError);
            }
            let n = m_wide as usize;
            let ghost out0 = out@;
            let ghost sub0 = s.skip(k);
            proof {
                assert(sub0 =~= bytes@.skip(p2 as int));
            }
            let mut c: usize = 0;
            let mut q: usize = p2;
            proof {
                assert(out@.take(out0.len() as int) =~= out0);
                assert(out@.skip(out0.len() as int) =~= Seq::<Option<u64>>::empty());
            }
            while c < n
                invariant
                    c <= n,
                    p2 <= q <= bytes@.len(),
                    pos < p2 <= bytes@.len(),
                    n <= usize::MAX,
                    out0.len() <= out@.len(),
                    out@.take(out0.len() as int) == out0,
                    sub0 == bytes@.skip(p2 as int),
                    s == bytes@.skip(pos as int),
                    sub0 == s.skip(k),
                    sleb_read_spec(s) == Some((cnt as int, k)),
                    cnt < 0,
                    -(cnt as int) == n as int,
                    1 <= k,
                    pos < bytes@.len(),
                    rle_u_dec(bytes@) == match rle_u_dec(bytes@.skip(pos as int)) {
                        None => None::<Seq<Option<u64>>>,
                        Some(rest) => Some(out0 + rest),
                    },
                    rle_u_lits(sub0, n as nat) == match rle_u_lits(
                        bytes@.skip(q as int),
                        (n - c) as nat,
                    ) {
                        None => None::<(Seq<Option<u64>>, int)>,
                        Some(p) => Some((out@.skip(out0.len() as int) + p.0, (q - p2) + p.1)),
                    },
                decreases n - c,
            {
                let ghost outc = out@;
                let (v, q2) = match read_uleb(bytes, q) {
                    Ok(p) => p,
                    Err(e) => {
                        proof {
                            assert(rle_u_lits(bytes@.skip(q as int), (n - c) as nat) is None);
                            assert(rle_u_lits(sub0, n as nat) is None);
                            assert(rle_u_dec(s) is None);
                        }
                        return Err(e);
                    }
                };
                proof {
                    assert(bytes@.skip(q as int).skip(q2 - q) =~= bytes@.skip(q2 as int));
                }
                out.push(Some(v));
                proof {
                    assert(out@.take(out0.len() as int) =~= out0);
                    let tailm = rle_u_lits(bytes@.skip(q2 as int), (n - c - 1) as nat);
                    match tailm {
                        None => {}
                        Some(p) => {
                            assert(out@.skip(out0.len() as int) + p.0 =~= outc.skip(
                                out0.len() as int,
                            ) + (seq![Some(v)] + p.0));
                        }
                    }
                }
                q = q2;
                c = c + 1;
            }
            proof {
                assert(rle_u_lits(bytes@.skip(q as int), 0) == Some(
                    (Seq::<Option<u64>>::empty(), 0int),
                ));
                assert(out@.skip(out0.len() as int) + Seq::<Option<u64>>::empty() =~= out@.skip(
                    out0.len() as int,
                ));
                assert(s.skip(k + (q - p2)) =~= bytes@.skip(q as int));
                assert(out0 + out@.skip(out0.len() as int) =~= out@);
            }
            pos = q;
        }
    }
    proof {
        assert(bytes@.skip(pos as int).len() == 0);
        assert(rle_u_dec(bytes@.skip(pos as int)) == Some(Seq::<Option<u64>>::empty()));
        assert(out@ + Seq::<Option<u64>>::empty() =~= out@);
    }
    Ok(out)
}

} // verus!
