//! The boolean bitmap column: alternating run lengths, the first run always
//! of `false` polarity and possibly zero-length. A reader yields `false`
//! past the end, so a writer drops a trailing `false` run.

use vstd::prelude::*;

use crate::error::AutomergeError;
use crate::leb::{uleb, uleb_read_spec, read_uleb, write_uleb, lemma_uleb_read_round_trip};
use crate::encoding::{ColData, group_len, grp, lemma_group_len};

verus! {

/// Encode from a given polarity: a run of the current polarity, or a zero
/// count to flip.
pub open spec fn bool_enc_from(items: Seq<bool>, pol: bool) -> Seq<u8>
    decreases items.len(), (if items.len() > 0 && items[0] != pol { 1int } else { 0int }),
{
    if items.len() == 0 {
        Seq::empty()
    } else if items[0] == pol {
        uleb(grp(items)) + bool_enc_from(items.skip(grp(items) as int), !pol)
    } else {
        uleb(0) + bool_enc_from(items, !pol)
    }
}

/// The byte form of a boolean column: runs from the `false` polarity,
/// trailing `false` values dropped first.
pub open spec fn bool_enc(items: Seq<bool>) -> Seq<u8> {
    bool_enc_from(trim_false(items), false)
}

/// Decode from a given polarity.
pub open spec fn bool_dec_from(s: Seq<u8>, pol: bool) -> Option<Seq<bool>>
    decreases s.len(),
{
    if s.len() == 0 {
        Some(Seq::empty())
    } else {
        match uleb_read_spec(s) {
            None => None,
            Some((m, k)) => if 1 <= k <= s.len() && m <= usize::MAX as nat {
                match bool_dec_from(s.skip(k), !pol) {
                    None => None,
                    Some(rest) => Some(Seq::new(m, |i: int| pol) + rest),
                }
            } else {
                None
            },
        }
    }
}

pub open spec fn bool_dec(s: Seq<u8>) -> Option<Seq<bool>> {
    bool_dec_from(s, false)
}

/// Drops trailing `false` values.
pub open spec fn trim_false(items: Seq<bool>) -> Seq<bool>
    decreases items.len(),
{
    if items.len() == 0 {
        items
    } else if items.last() {
        items
    } else {
        trim_false(items.drop_last())
    }
}

/// The element a boolean column yields at `i`: `false` past the end.
pub open spec fn bool_at(items: Seq<bool>, i: int) -> bool {
    if 0 <= i < items.len() {
        items[i]
    } else {
        false
    }
}

pub proof fn lemma_trim_false_at(items: Seq<bool>, i: int)
    ensures
        bool_at(trim_false(items), i) == bool_at(items, i),
        trim_false(items).len() <= items.len(),
        trim_false(items).len() > 0 ==> trim_false(items).last(),
    decreases items.len(),
{
    if items.len() > 0 && !items.last() {
        lemma_trim_false_at(items.drop_last(), i);
    }
}

proof fn lemma_trim_false_take(items: Seq<bool>, end: int)
    requires
        0 <= end <= items.len(),
        forall|j: int| end <= j < items.len() ==> !items[j],
        end > 0 ==> items[end - 1],
    ensures
        trim_false(items) == items.take(end),
    decreases items.len(),
{
    if items.len() == 0 {
        assert(items.take(0) =~= items);
    } else if items.last() {
        assert(end == items.len());
        assert(items.take(end) =~= items);
    } else {
        lemma_trim_false_take(items.drop_last(), end);
        assert(items.drop_last() =~= items.take(items.len() - 1));
        assert(items.drop_last().take(end) =~= items.take(end));
    }
}

/// Collects the values of one boolean column; `finish` writes the canonical
/// bytes. This writer has no failure case: run lengths are unsigned here.
pub struct BoolCol {
    pub items: Vec<bool>,
}

impl BoolCol {
    pub fn new() -> (r: BoolCol)
        ensures
            r.items@ == Seq::<bool>::empty(),
    {
        BoolCol { items: Vec::new() }
    }

    pub fn append(&mut self, v: bool)
        ensures
            final(self).items@ == old(self).items@.push(v),
    {
        self.items.push(v);
    }

    /// Emits the canonical encoding of the values, trailing `false` dropped.
    pub fn finish(self, col: u32) -> (r: ColData)
        ensures
            r.col == col,
            r.data@ == bool_enc(self.items@),
    {
        let items = self.items;
        let mut end = items.len();
        while end > 0 && !items[end - 1]
            invariant
                end <= items@.len(),
                forall|j: int| end <= j < items@.len() ==> !items@[j],
            decreases end,
        {
            end = end - 1;
        }
        let ghost t = trim_false(items@);
        proof {
            lemma_trim_false_take(items@, end as int);
            assert(t.skip(0) =~= t);
        }
        let mut data: Vec<u8> = Vec::new();
        let mut pol = false;
        let mut i: usize = 0;
        while i < end
            invariant
                i <= end <= items@.len(),
                t == items@.take(end as int),
                data@ + bool_enc_from(t.skip(i as int), pol) == bool_enc_from(t, false),
            decreases end - i, (if i < end && items@[i as int] != pol { 1int } else { 0int }),
        {
            if items[i] == pol {
                let mut j = i + 1;
                while j < end && items[j] == pol
                    invariant
                        i < j <= end <= items@.len(),
                        pol == items@[i as int],
                        forall|m: int| i < m < j ==> items@[m] == pol,
                    decreases end - j,
                {
                    j = j + 1;
                }
                let ghost g = t.skip(i as int);
                proof {
                    lemma_group_len(g);
                    assert(forall|m: int| 0 <= m < j - i ==> g[m] == items@[i + m]);
                    assert(forall|m: int| 0 <= m < j - i ==> g[m] == pol);
                    if j < end {
                        assert(g[j - i] == items@[j as int]);
                    }
                    assert(group_len(g) == j - i);
                }
                write_uleb(&mut data, (j - i) as u64);
                proof {
                    assert(bool_enc_from(g, pol) == uleb((j - i) as nat) + bool_enc_from(
                        g.skip((j - i) as int),
                        !pol,
                    ));
                    assert(g.skip((j - i) as int) =~= t.skip(j as int));
                    assert(data@ + bool_enc_from(t.skip(j as int), !pol) =~= bool_enc_from(
                        t,
                        false,
                    ));
                }
                i = j;
                pol = !pol;
            } else {
                write_uleb(&mut data, 0);
                proof {
                    assert(bool_enc_from(t.skip(i as int), pol) == uleb(0) + bool_enc_from(
                        t.skip(i as int),
                        !pol,
                    ));
                    assert(data@ + bool_enc_from(t.skip(i as int), !pol) =~= bool_enc_from(
                        t,
                        false,
                    ));
                }
                pol = !pol;
            }
        }
        proof {
            assert(t.skip(i as int) =~= Seq::<bool>::empty());
            assert(data@ =~= bool_enc_from(t, false));
        }
        ColData { col, data }
    }
}

/// Decodes a whole boolean column, exactly as `bool_dec` says.
pub fn bool_decode(bytes: &Vec<u8>) -> (r: Result<Vec<bool>, AutomergeError>)
    ensures
        match r {
            Ok(v) => bool_dec(bytes@) == Some(v@),
            Err(e) => {
                &&& bool_dec(bytes@) is None
                &&& e == AutomergeError::EncodingError
            },
        },
{
    let mut out: Vec<bool> = Vec::new();
    let mut pos: usize = 0;
    let mut pol = false;
    proof {
        assert(bytes@.skip(0) =~= bytes@);
    }
    while pos < bytes.len()
        invariant
            pos <= bytes@.len(),
            bool_dec(bytes@) == match bool_dec_from(bytes@.skip(pos as int), pol) {
                None => None::<Seq<bool>>,
                Some(rest) => Some(out@ + rest),
            },
        decreases bytes@.len() - pos,
    {
        let ghost s = bytes@.skip(pos as int);
        let (m, p2) = match read_uleb(bytes, pos) {
            Ok(p) => p,
            Err(e) => {
                return Err(e);
            }
        };
        let ghost k = p2 - pos;
        if m > (usize::MAX as u64) {
            return Err(AutomergeError::EncodingError);
        }
        proof {
            assert(s.skip(k) =~= bytes@.skip(p2 as int));
        }
        let n = m as usize;
        let ghost out0 = out@;
        let ghost p0 = pol;
        let mut c: usize = 0;
        while c < n
            invariant
                c <= n,
                pol == p0,
                out@ == out0 + Seq::new(c as nat, |i: int| p0),
            decreases n - c,
        {
            out.push(pol);
            proof {
                assert(out@ =~= out0 + Seq::new((c + 1) as nat, |i: int| p0));
            }
            c = c + 1;
        }
        pos = p2;
        pol = !pol;
    }
    proof {
        assert(bytes@.skip(pos as int).len() == 0);
        assert(bool_dec_from(bytes@.skip(pos as int), pol) == Some(Seq::<bool>::empty()));
        assert(out@ + Seq::<bool>::empty() =~= out@);
    }
    Ok(out)
}

/// Round trip for the boolean column, from either polarity.
proof fn lemma_bool_round_trip_from(items: Seq<bool>, pol: bool)
    requires
        items.len() <= usize::MAX,
        items.len() > 0 ==> items.last(),
    ensures
        bool_dec_from(bool_enc_from(items, pol), pol) == Some(items),
    decreases items.len(), (if items.len() > 0 && items[0] != pol { 1int } else { 0int }),
{
    if items.len() == 0 {
    } else if items[0] == pol {
        lemma_group_len(items);
        let n = group_len(items);
        let rest = items.skip(n as int);
        if rest.len() > 0 {
            assert(rest.last() == items.last());
        }
        lemma_bool_round_trip_from(rest, !pol);
        let tail = bool_enc_from(rest, !pol);
        let s = bool_enc_from(items, pol);
        lemma_uleb_read_round_trip(n as u64, tail);
        assert(s =~= uleb(n) + tail);
        assert(s.skip(uleb(n).len() as int) =~= tail);
        assert(Seq::new(n, |i: int| pol) + rest =~= items);
    } else {
        lemma_bool_round_trip_from(items, !pol);
        let tail = bool_enc_from(items, !pol);
        let s = bool_enc_from(items, pol);
        lemma_uleb_read_round_trip(0, tail);
        assert(s =~= uleb(0) + tail);
        assert(s.skip(uleb(0).len() as int) =~= tail);
        assert(Seq::new(0, |i: int| pol) + items =~= items);
    }
}

/// Round trip for the boolean column, up to `false` padding.
pub proof fn lemma_bool_round_trip(items: Seq<bool>)
    requires
        items.len() <= usize::MAX,
    ensures
        bool_dec(bool_enc(items)) == Some(trim_false(items)),
{
    lemma_trim_false_at(items, 0);
    lemma_bool_round_trip_from(trim_false(items), false);
}

} // verus!
