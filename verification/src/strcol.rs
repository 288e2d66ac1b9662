//! Length-prefixed byte strings and the run-length stream over them. Map
//! keys and messages are carried as UTF-8 byte strings in this stream.

use vstd::prelude::*;

use crate::error::AutomergeError;
use crate::leb::{
    uleb, uleb_read_spec, sleb, sleb_read_spec, read_uleb, read_sleb, write_uleb, write_sleb,
    lemma_uleb_read_round_trip, lemma_sleb_read_round_trip,
};
use crate::encoding::{ColData, RUN_LIMIT, group_len, grp, lemma_group_len};

verus! {

// ------------------------------------------------------------------
// Length-prefixed byte strings
// ------------------------------------------------------------------

/// A length-prefixed byte string: the length, then the bytes.
pub open spec fn pref(b: Seq<u8>) -> Seq<u8> {
    uleb(b.len()) + b
}

/// Reads one length-prefixed byte string from the front of `s`.
pub open spec fn pref_read_spec(s: Seq<u8>) -> Option<(Seq<u8>, int)> {
    match uleb_read_spec(s) {
        None => None,
        Some((ln, k)) => if 0 <= k && k + ln <= s.len() {
            Some((s.subrange(k, k + ln), k + ln as int))
        } else {
            None
        },
    }
}

pub proof fn lemma_pref_round_trip(b: Seq<u8>, rest: Seq<u8>)
    requires
        b.len() < 0x1_0000_0000_0000_0000,
    ensures
        pref_read_spec(pref(b) + rest) == Some((b, pref(b).len() as int)),
{
    let s = pref(b) + rest;
    lemma_uleb_read_round_trip(b.len() as u64, b + rest);
    assert(s =~= uleb(b.len()) + (b + rest));
    let k = uleb(b.len()).len() as int;
    assert(s.subrange(k, k + b.len() as int) =~= b);
}

/// Appends the length-prefixed form of `b` to `buf`.
pub fn write_pref(buf: &mut Vec<u8>, b: &Vec<u8>)
    ensures
        final(buf)@ == old(buf)@ + pref(b@),
{
    write_uleb(buf, b.len() as u64);
    let ghost mid = buf@;
    let mut i: usize = 0;
    while i < b.len()
        invariant
            i <= b@.len(),
            buf@ == mid + b@.take(i as int),
        decreases b@.len() - i,
    {
        buf.push(b[i]);
        proof {
            assert(buf@ =~= mid + b@.take(i as int + 1));
        }
        i = i + 1;
    }
    proof {
        assert(b@.take(i as int) =~= b@);
        assert(buf@ =~= old(buf)@ + pref(b@));
    }
}

/// Reads one length-prefixed byte string from `bytes` at `pos`.
pub fn read_pref(bytes: &Vec<u8>, pos: usize) -> (r: Result<(Vec<u8>, usize), AutomergeError>)
    requires
        pos <= bytes@.len(),
    ensures
        match r {
            Ok(p) => {
                &&& pref_read_spec(bytes@.skip(pos as int)) == Some((p.0@, p.1 - pos))
                &&& pos < p.1 <= bytes@.len()
            },
            Err(e) => {
                &&& pref_read_spec(bytes@.skip(pos as int)) is None
                &&& e == AutomergeError::EncodingError
            },
        },
{
    let ghost s = bytes@.skip(pos as int);
    let (ln, p2) = match read_uleb(bytes, pos) {
        Ok(p) => p,
        Err(e) => {
            return Err(e);
        }
    };
    let ghost k = p2 - pos;
    let bl = bytes.len();
    if ln > (usize::MAX as u64) || (ln as usize) > bl - p2 {
        proof {
            assert(k + ln > s.len());
        }
        return Err(AutomergeError::EncodingError);
    }
    let n = ln as usize;
    let mut out: Vec<u8> = Vec::new();
    let mut i: usize = 0;
    while i < n
        invariant
            i <= n,
            p2 + n <= bl,
            bl == bytes@.len(),
            out@ == bytes@.subrange(p2 as int, p2 + i),
        decreases n - i,
    {
        out.push(bytes[p2 + i]);
        proof {
            assert(out@ =~= bytes@.subrange(p2 as int, p2 + i + 1));
        }
        i = i + 1;
    }
    proof {
        assert(s.subrange(k, k + n) =~= bytes@.subrange(p2 as int, p2 + n));
    }
    Ok((out, p2 + n))
}

// ------------------------------------------------------------------
// Run-length stream over byte strings
// ------------------------------------------------------------------

/// The spec view of a string column's items.
pub open spec fn sviews(items: Seq<Option<Vec<u8>>>) -> Seq<Option<Seq<u8>>> {
    items.map_values(
        |o: Option<Vec<u8>>|
            match o {
                None => None::<Seq<u8>>,
                Some(v) => Some(v@),
            },
    )
}

/// Bytes of one run of a string column.
pub open spec fn rle_s_run(v: Option<Seq<u8>>, n: nat) -> Seq<u8> {
    match v {
        None => sleb(0) + uleb(n),
        Some(x) => sleb(n as int) + pref(x),
    }
}

/// The canonical string run-length encoding.
pub open spec fn rle_s_enc(items: Seq<Option<Seq<u8>>>) -> Seq<u8>
    decreases items.len(),
{
    if items.len() == 0 {
        Seq::empty()
    } else {
        let n = grp(items);
        rle_s_run(items[0], n) + rle_s_enc(items.skip(n as int))
    }
}

/// Reads `m` literal strings from the front of `s`.
pub open spec fn rle_s_lits(s: Seq<u8>, m: nat) -> Option<(Seq<Option<Seq<u8>>>, int)>
    decreases m,
{
    if m == 0 {
        Some((Seq::empty(), 0))
    } else {
        match pref_read_spec(s) {
            None => None,
            Some((v, k)) => if 0 <= k <= s.len() {
                match rle_s_lits(s.skip(k), (m - 1) as nat) {
                    None => None,
                    Some((rest, k2)) => Some((seq![Some(v)] + rest, k + k2)),
                }
            } else {
                None
            },
        }
    }
}

/// Decode a whole string run-length column.
pub open spec fn rle_s_dec(s: Seq<u8>) -> Option<Seq<Option<Seq<u8>>>>
    decreases s.len(),
{
    if s.len() == 0 {
        Some(Seq::empty())
    } else {
        match sleb_read_spec(s) {
            None => None,
            Some((cnt, k)) => if k < 1 {
                None
            } else if cnt > 0 {
                if cnt <= usize::MAX as int {
                    match pref_read_spec(s.skip(k)) {
                        None => None,
                        Some((v, k2)) => if 0 <= k2 && k + k2 <= s.len() {
                            match rle_s_dec(s.skip(k + k2)) {
                                None => None,
                                Some(rest) => Some(
                                    Seq::new(cnt as nat, |i: int| Some(v)) + rest,
                                ),
                            }
                        } else {
                            None
                        },
                    }
                } else {
                    None
                }
            } else if cnt == 0 {
                match uleb_read_spec(s.skip(k)) {
                    None => None,
                    Some((m, k2)) => if 0 <= k2 && m <= usize::MAX as nat && k + k2 <= s.len() {
                        match rle_s_dec(s.skip(k + k2)) {
                            None => None,
                            Some(rest) => Some(
                                Seq::new(m, |i: int| None::<Seq<u8>>) + rest,
                            ),
                        }
                    } else {
                        None
                    },
                }
            } else {
                if -cnt <= usize::MAX as int {
                    match rle_s_lits(s.skip(k), (-cnt) as nat) {
                        None => None,
                        Some((vals, k2)) => if 0 <= k2 && k + k2 <= s.len() {
                            match rle_s_dec(s.skip(k + k2)) {
                                None => None,
                                Some(rest) => Some(vals + rest),
                            }
                        } else {
                            None
                        },
                    }
                } else {
                    None
                }
            },
        }
    }
}

/// Drops trailing nulls of a string column.
pub open spec fn trim_nulls_s(items: Seq<Option<Seq<u8>>>) -> Seq<Option<Seq<u8>>>
    decreases items.len(),
{
    if items.len() == 0 {
        items
    } else if items.last() is Some {
        items
    } else {
        trim_nulls_s(items.drop_last())
    }
}

/// The element a string column yields at `i`: null past the end.
pub open spec fn scol_at(items: Seq<Option<Seq<u8>>>, i: int) -> Option<Seq<u8>> {
    if 0 <= i < items.len() {
        items[i]
    } else {
        None
    }
}

pub proof fn lemma_trim_nulls_s_at(items: Seq<Option<Seq<u8>>>, i: int)
    ensures
        scol_at(trim_nulls_s(items), i) == scol_at(items, i),
        trim_nulls_s(items).len() <= items.len(),
        trim_nulls_s(items).len() > 0 ==> trim_nulls_s(items).last() is Some,
    decreases items.len(),
{
    if items.len() > 0 && items.last() is None {
        lemma_trim_nulls_s_at(items.drop_last(), i);
    }
}

proof fn lemma_trim_nulls_s_take(items: Seq<Option<Seq<u8>>>, end: int)
    requires
        0 <= end <= items.len(),
        forall|j: int| end <= j < items.len() ==> items[j] is None,
        end > 0 ==> items[end - 1] is Some,
    ensures
        trim_nulls_s(items) == items.take(end),
    decreases items.len(),
{
    if items.len() == 0 {
        assert(items.take(0) =~= items);
    } else if items.last() is Some {
        assert(end == items.len());
        assert(items.take(end) =~= items);
    } else {
        lemma_trim_nulls_s_take(items.drop_last(), end);
        assert(items.drop_last() =~= items.take(items.len() - 1));
        assert(items.drop_last().take(end) =~= items.take(end));
    }
}

/// Byte-for-byte comparison of two byte vectors.
pub fn bytes_eq(a: &Vec<u8>, b: &Vec<u8>) -> (r: bool)
    ensures
        r == (a@ == b@),
{
    if a.len() != b.len() {
        proof {
            assert(a@.len() != b@.len());
        }
        return false;
    }
    let mut i: usize = 0;
    while i < a.len()
        invariant
            i <= a@.len(),
            a@.len() == b@.len(),
            forall|j: int| 0 <= j < i ==> a@[j] == b@[j],
        decreases a@.len() - i,
    {
        if a[i] != b[i] {
            return false;
        }
        i = i + 1;
    }
    proof {
        assert(a@ =~= b@);
    }
    true
}

fn opt_bytes_eq(a: &Option<Vec<u8>>, b: &Option<Vec<u8>>) -> (r: bool)
    ensures
        r == (match (a, b) {
            (None, None) => true,
            (Some(x), Some(y)) => x@ == y@,
            _ => false,
        }),
{
    match (a, b) {
        (None, None) => true,
        (Some(x), Some(y)) => bytes_eq(x, y),
        _ => false,
    }
}

/// Collects the items of one string run-length column; `finish` writes the
/// canonical bytes.
pub struct StrRle {
    pub items: Vec<Option<Vec<u8>>>,
}

impl StrRle {
    /// The spec view of the collected items.
    pub open spec fn view_items(&self) -> Seq<Option<Seq<u8>>> {
        sviews(self.items@)
    }

    pub fn new() -> (r: StrRle)
        ensures
            r.view_items() == Seq::<Option<Seq<u8>>>::empty(),
    {
        let r = StrRle { items: Vec::new() };
        proof {
            assert(r.view_items() =~= Seq::<Option<Seq<u8>>>::empty());
        }
        r
    }

    pub fn append_value(&mut self, v: Vec<u8>)
        ensures
            final(self).view_items() == old(self).view_items().push(Some(v@)),
    {
        let ghost vv = v@;
        self.items.push(Some(v));
        proof {
            assert(self.view_items() =~= old(self).view_items().push(Some(vv)));
        }
    }

    pub fn append_null(&mut self)
        ensures
            final(self).view_items() == old(self).view_items().push(None),
    {
        self.items.push(None);
        proof {
            assert(self.view_items() =~= old(self).view_items().push(None));
        }
    }

    /// Emits the canonical encoding of the items, trailing nulls dropped.
    #[verifier::rlimit(60)]
    pub fn finish(self, col: u32) -> (r: Result<ColData, AutomergeError>)
        ensures
            match r {
                Ok(cd) => {
                    &&& cd.col == col
                    &&& cd.data@ == rle_s_enc(trim_nulls_s(self.view_items()))
                    &&& self.view_items().len() <= RUN_LIMIT
                },
                Err(e) => {
                    &&& self.view_items().len() > RUN_LIMIT
                    &&& e == AutomergeError::InvalidChange
                },
            },
    {
        if self.items.len() as u64 > RUN_LIMIT {
            return Err(AutomergeError::InvalidChange);
        }
        let items = self.items;
        let ghost vs = sviews(items@);
        let mut end = items.len();
        while end > 0 && items[end - 1].is_none()
            invariant
                end <= items@.len(),
                vs == sviews(items@),
                forall|j: int| end <= j < items@.len() ==> vs[j] is None,
            decreases end,
        {
            proof {
                assert(vs[end - 1] is None <== items@[end - 1] is None);
            }
            end = end - 1;
        }
        let ghost t = trim_nulls_s(vs);
        proof {
            if end > 0 {
                assert(vs[end as int - 1] is Some);
            }
            lemma_trim_nulls_s_take(vs, end as int);
        }
        let mut data: Vec<u8> = Vec::new();
        proof {
            assert(t.skip(0) =~= t);
        }
        let mut i: usize = 0;
        while i < end
            invariant
                i <= end <= items@.len() <= RUN_LIMIT,
                vs == sviews(items@),
                t == vs.take(end as int),
                data@ + rle_s_enc(t.skip(i as int)) == rle_s_enc(t),
            decreases end - i,
        {
            let mut j = i + 1;
            while j < end && opt_bytes_eq(&items[j], &items[i])
                invariant
                    i < j <= end <= items@.len(),
                    vs == sviews(items@),
                    forall|m: int| i < m < j ==> vs[m] == vs[i as int],
                decreases end - j,
            {
                j = j + 1;
            }
            let ghost g = t.skip(i as int);
            proof {
                lemma_group_len(g);
                assert(forall|m: int| 0 <= m < j - i ==> g[m] == vs[i + m]);
                assert(forall|m: int| 0 <= m < j - i ==> g[m] == vs[i as int]);
                if j < end {
                    assert(g[j - i] == vs[j as int]);
                }
                assert(group_len(g) == j - i);
            }
            match &items[i] {
                None => {
                    write_sleb(&mut data, 0);
                    write_uleb(&mut data, (j - i) as u64);
                }
                Some(x) => {
                    write_sleb(&mut data, (j - i) as i64);
                    write_pref(&mut data, x);
                }
            }
            proof {
                assert(rle_s_enc(g) == rle_s_run(g[0], (j - i) as nat) + rle_s_enc(
                    g.skip((j - i) as int),
                ));
                assert(g.skip((j - i) as int) =~= t.skip(j as int));
                assert(data@ + rle_s_enc(t.skip(j as int)) =~= rle_s_enc(t));
            }
            i = j;
        }
        proof {
            assert(t.skip(i as int) =~= Seq::<Option<Seq<u8>>>::empty());
            assert(data@ =~= rle_s_enc(t));
        }
        Ok(ColData { col, data })
    }
}

/// Decodes a whole string run-length column, exactly as `rle_s_dec` says.
#[verifier::rlimit(100)]
pub fn rle_s_decode(bytes: &Vec<u8>) -> (r: Result<Vec<Option<Vec<u8>>>, AutomergeError>)
    ensures
        match r {
            Ok(v) => rle_s_dec(bytes@) == Some(sviews(v@)),
            Err(e) => {
                &&& rle_s_dec(bytes@) is None
                &&& e == AutomergeError::EncodingError
            },
        },
{
    let mut out: Vec<Option<Vec<u8>>> = Vec::new();
    let mut pos: usize = 0;
    proof {
        assert(bytes@.skip(0) =~= bytes@);
        assert(sviews(out@) =~= Seq::<Option<Seq<u8>>>::empty());
    }
    while pos < bytes.len()
        invariant
            pos <= bytes@.len(),
            rle_s_dec(bytes@) == match rle_s_dec(bytes@.skip(pos as int)) {
                None => None::<Seq<Option<Seq<u8>>>>,
                Some(rest) => Some(sviews(out@) + rest),
            },
        decreases bytes@.len() - pos,
    {
        let ghost s = bytes@.skip(pos as int);
        let (cnt, p2) = match read_sleb(bytes, pos) {
            Ok(p) => p,
            Err(e) => {
                return Err(e);
            }
        };
        let ghost k = p2 - pos;
        assert(sleb_read_spec(s) == Some((cnt as int, k)));
        if cnt > 0 {
            if (cnt as u64) > (usize::MAX as u64) {
                return Err(AutomergeError::EncodingError);
            }
            let (v, p3) = match read_pref(bytes, p2) {
                Ok(p) => p,
                Err(e) => {
                    proof { assert(s.skip(k) =~= bytes@.skip(p2 as int)); }
                    return Err(e);
                }
            };
            let ghost k2 = p3 - p2;
            proof {
                assert(s.skip(k) =~= bytes@.skip(p2 as int));
                assert(s.skip(k + k2) =~= bytes@.skip(p3 as int));
            }
            let n = cnt as usize;
            let ghost out0 = sviews(out@);
            let ghost vv = v@;
            let mut c: usize = 0;
            while c < n
                invariant
                    c <= n,
                    vv == v@,
                    sviews(out@) == out0 + Seq::new(c as nat, |i: int| Some(vv)),
                decreases n - c,
            {
                let ghost outc = sviews(out@);
                let copy = clone_bytes(&v);
                out.push(Some(copy));
                proof {
                    assert(sviews(out@) =~~= outc.push(Some(vv)));
                    assert(outc.push(Some(vv)) =~~= out0 + Seq::new(
                        (c + 1) as nat,
                        |i: int| Some(vv),
                    ));
                }
                c = c + 1;
            }
            pos = p3;
        } else if cnt == 0 {
            let (m, p3) = match read_uleb(bytes, p2) {
                Ok(p) => p,
                Err(e) => {
                    proof { assert(s.skip(k) =~= bytes@.skip(p2 as int)); }
                    return Err(e);
                }
            };
            let ghost k2 = p3 - p2;
            proof {
                assert(s.skip(k) =~= bytes@.skip(p2 as int));
                assert(s.skip(k + k2) =~= bytes@.skip(p3 as int));
            }
            if m > (usize::MAX as u64) {
                return Err(AutomergeError::EncodingError);
            }
            let n = m as usize;
            let ghost out0 = sviews(out@);
            let mut c: usize = 0;
            while c < n
                invariant
                    c <= n,
                    sviews(out@) == out0 + Seq::new(c as nat, |i: int| None::<Seq<u8>>),
                decreases n - c,
            {
                let ghost outc = sviews(out@);
                out.push(None);
                proof {
                    assert(sviews(out@) =~~= outc.push(None));
                    assert(outc.push(None) =~~= out0 + Seq::new(
                        (c + 1) as nat,
                        |i: int| None::<Seq<u8>>,
                    ));
                }
                c = c + 1;
            }
            pos = p3;
        } else {
            let m_wide: i128 = -(cnt as i128);
            if m_wide > (usize::MAX as u64) as i128 {
                return Err(AutomergeError::EncodingError);
            }
            let n = m_wide as usize;
            let ghost out0 = sviews(out@);
            let ghost sub0 = s.skip(k);
            proof {
                assert(sub0 =~= bytes@.skip(p2 as int));
                assert(sviews(out@).take(out0.len() as int) =~= out0);
                assert(sviews(out@).skip(out0.len() as int) =~= Seq::<Option<Seq<u8>>>::empty());
            }
            let mut c: usize = 0;
            let mut q: usize = p2;
            while c < n
                invariant
                    c <= n,
                    p2 <= q <= bytes@.len(),
                    pos < p2 <= bytes@.len(),
                    n <= usize::MAX,
                    out0.len() <= sviews(out@).len(),
                    sviews(out@).take(out0.len() as int) == out0,
                    sub0 == bytes@.skip(p2 as int),
                    s == bytes@.skip(pos as int),
                    sub0 == s.skip(k),
                    sleb_read_spec(s) == Some((cnt as int, k)),
                    cnt < 0,
                    -(cnt as int) == n as int,
                    1 <= k,
                    pos < bytes@.len(),
                    rle_s_dec(bytes@) == match rle_s_dec(bytes@.skip(pos as int)) {
                        None => None::<Seq<Option<Seq<u8>>>>,
                        Some(rest) => Some(out0 + rest),
                    },
                    rle_s_lits(sub0, n as nat) == match rle_s_lits(
                        bytes@.skip(q as int),
                        (n - c) as nat,
                    ) {
                        None => None::<(Seq<Option<Seq<u8>>>, int)>,
                        Some(p) => Some(
                            (sviews(out@).skip(out0.len() as int) + p.0, (q - p2) + p.1),
                        ),
                    },
                decreases n - c,
            {
                let ghost outc = sviews(out@);
                let (v, q2) = match read_pref(bytes, q) {
                    Ok(p) => p,
                    Err(e) => {
                        proof {
                            assert(rle_s_lits(bytes@.skip(q as int), (n - c) as nat) is None);
                            assert(rle_s_lits(sub0, n as nat) is None);
                            assert(rle_s_dec(s) is None);
                        }
                        return Err(e);
                    }
                };
                proof {
                    assert(bytes@.skip(q as int).skip(q2 - q) =~= bytes@.skip(q2 as int));
                }
                let ghost vv = v@;
                out.push(Some(v));
                proof {
                    assert(sviews(out@).take(out0.len() as int) =~= out0);
                    assert(sviews(out@).skip(out0.len() as int) =~= outc.skip(
                        out0.len() as int,
                    ).push(Some(vv)));
                    let tailm = rle_s_lits(bytes@.skip(q2 as int), (n - c - 1) as nat);
                    match tailm {
                        None => {}
                        Some(p) => {
                            assert(sviews(out@).skip(out0.len() as int) + p.0 =~= outc.skip(
                                out0.len() as int,
                            ) + (seq![Some(vv)] + p.0));
                        }
                    }
                }
                q = q2;
                c = c + 1;
            }
            proof {
                assert(rle_s_lits(bytes@.skip(q as int), 0) == Some(
                    (Seq::<Option<Seq<u8>>>::empty(), 0int),
                ));
                assert(sviews(out@).skip(out0.len() as int) + Seq::<Option<Seq<u8>>>::empty()
                    =~= sviews(out@).skip(out0.len() as int));
                assert(s.skip(k + (q - p2)) =~= bytes@.skip(q as int));
                assert(out0 + sviews(out@).skip(out0.len() as int) =~= sviews(out@));
            }
            pos = q;
        }
    }
    proof {
        assert(bytes@.skip(pos as int).len() == 0);
        assert(rle_s_dec(bytes@.skip(pos as int)) == Some(Seq::<Option<Seq<u8>>>::empty()));
        assert(sviews(out@) + Seq::<Option<Seq<u8>>>::empty() =~= sviews(out@));
    }
    Ok(out)
}

/// Copies a byte vector.
pub fn clone_bytes(v: &Vec<u8>) -> (r: Vec<u8>)
    ensures
        r@ == v@,
{
    let mut out: Vec<u8> = Vec::new();
    let mut i: usize = 0;
    while i < v.len()
        invariant
            i <= v@.len(),
            out@ == v@.take(i as int),
        decreases v@.len() - i,
    {
        out.push(v[i]);
        proof {
            assert(out@ =~= v@.take(i as int + 1));
        }
        i = i + 1;
    }
    proof {
        assert(v@.take(i as int) =~= v@);
    }
    out
}

/// Round trip for the string stream.
#[verifier::rlimit(100)]
pub proof fn lemma_rle_s_round_trip(items: Seq<Option<Seq<u8>>>)
    requires
        items.len() <= RUN_LIMIT,
        items.len() <= usize::MAX,
        items.len() > 0 ==> items.last() is Some,
        forall|i: int| 0 <= i < items.len() ==> (#[trigger] items[i] matches Some(b)
            ==> b.len() < 0x1_0000_0000_0000_0000),
    ensures
        rle_s_dec(rle_s_enc(items)) == Some(items),
    decreases items.len(),
{
    if items.len() == 0 {
    } else {
        lemma_group_len(items);
        let n = group_len(items);
        let rest = items.skip(n as int);
        if rest.len() > 0 {
            assert(rest.last() == items.last());
        }
        assert(forall|i: int| 0 <= i < rest.len() ==> rest[i] == items[i + n]);
        lemma_rle_s_round_trip(rest);
        let tail = rle_s_enc(rest);
        let s = rle_s_enc(items);
        match items[0] {
            None => {
                assert(n < items.len());
                let after = uleb(n) + tail;
                lemma_sleb_read_round_trip(0, after);
                assert(s =~= sleb(0) + after);
                assert(sleb(0).len() == 1);
                assert(s.skip(1) =~= after);
                lemma_uleb_read_round_trip(n as u64, tail);
                assert(s.skip(1 + uleb(n).len() as int) =~= tail);
                assert(Seq::new(n, |i: int| None::<Seq<u8>>) + rest =~= items);
            }
            Some(x) => {
                let after = pref(x) + tail;
                lemma_sleb_read_round_trip(n as i64, after);
                assert(s =~= sleb(n as int) + after);
                let k = sleb(n as int).len() as int;
                assert(s.skip(k) =~= after);
                lemma_pref_round_trip(x, tail);
                assert(s.skip(k + pref(x).len() as int) =~= tail);
                assert(Seq::new(n, |i: int| Some(x)) + rest =~= items);
            }
        }
    }
}

} // verus!
