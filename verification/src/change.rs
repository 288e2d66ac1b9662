//! The change codec: a logical change is encoded into a framed binary chunk
//! — magic, hash prefix, chunk type, body length, body — and decoded back.
//! The encoder's output is pinned byte for byte by a spec-level mirror of
//! the whole format.

use vstd::prelude::*;

use crate::error::AutomergeError;
use crate::leb::{uleb, sleb, write_uleb, write_sleb};
use crate::strcol::{pref, write_pref, clone_bytes, bytes_eq};
use crate::columnar::{
    aviews, op_cols_fold, op_cols_init, op_col_list, col_block, cols_over, OpCols,
    ColumnEncoder, extend_bytes,
};
use crate::types::{
    ActorId, ChangeHash, OpId, ObjectId, Key, ScalarValue, OpType, Op, UncompressedChange,
    bytes_lt, bytes_lt_exec, lemma_bytes_lt_total, lemma_bytes_lt_asym, lemma_bytes_lt_trans,
    hviews, msg_bytes, ops_views, op_view, opid_view, VOp,
    VALUE_TYPE_MIN_UNKNOWN, VALUE_TYPE_MAX_UNKNOWN,
};
use crate::hash::{sha256, sha256_of};

verus! {

pub const CHUNK_TYPE_DOC: u8 = 0;
pub const CHUNK_TYPE_CHANGE: u8 = 1;
pub const HASH_BYTES: usize = 32;
pub const PREAMBLE_BYTES: usize = 8;
pub const HEADER_BYTES: usize = 9;

/// The magic preamble.
pub open spec fn magic() -> Seq<u8> {
    seq![0x85u8, 0x6fu8, 0x4au8, 0x83u8]
}

// ------------------------------------------------------------------
// Sorting the dependency hashes
// ------------------------------------------------------------------

/// Inserts `x` into a sorted sequence, before the first larger element.
pub open spec fn sort_insert(s: Seq<Seq<u8>>, x: Seq<u8>) -> Seq<Seq<u8>>
    decreases s.len(),
{
    if s.len() == 0 {
        seq![x]
    } else if bytes_lt(x, s[0]) {
        seq![x] + s
    } else {
        seq![s[0]] + sort_insert(s.skip(1), x)
    }
}

/// Insertion sort by the lexicographic byte order.
pub open spec fn sort_bytes(s: Seq<Seq<u8>>) -> Seq<Seq<u8>>
    decreases s.len(),
{
    if s.len() == 0 {
        Seq::empty()
    } else {
        sort_insert(sort_bytes(s.drop_last()), s.last())
    }
}

/// Weakly sorted: no later element is smaller.
pub open spec fn sorted_w(s: Seq<Seq<u8>>) -> bool {
    forall|i: int, j: int| 0 <= i < j < s.len() ==> !bytes_lt(#[trigger] s[j], #[trigger] s[i])
}

/// Strictly ascending, the wire invariant on dependencies.
pub open spec fn sorted_strict(s: Seq<Seq<u8>>) -> bool {
    forall|i: int, j: int| 0 <= i < j < s.len() ==> bytes_lt(#[trigger] s[i], #[trigger] s[j])
}

pub open spec fn has_elem(s: Seq<Seq<u8>>, v: Seq<u8>) -> bool {
    exists|i: int| 0 <= i < s.len() && s[i] == v
}

pub proof fn lemma_sort_insert_props(s: Seq<Seq<u8>>, x: Seq<u8>)
    requires
        sorted_w(s),
    ensures
        sorted_w(sort_insert(s, x)),
        sort_insert(s, x).len() == s.len() + 1,
        has_elem(sort_insert(s, x), x),
        forall|v: Seq<u8>| has_elem(sort_insert(s, x), v) <==> (has_elem(s, v) || v == x),
    decreases s.len(),
{
    let r = sort_insert(s, x);
    if s.len() == 0 {
        assert(r =~= seq![x]);
        assert(r[0] == x);
    } else if bytes_lt(x, s[0]) {
        assert(r =~= seq![x] + s);
        assert forall|i: int, j: int| 0 <= i < j < r.len() implies !bytes_lt(r[j], r[i]) by {
            if i == 0 {
                // x is below the head, and the head below everything after
                lemma_bytes_lt_asym(x, s[0]);
                if j >= 2 {
                    lemma_bytes_lt_trans(x, s[0], s[j - 1]);
                    if bytes_lt(s[j - 1], x) {
                        lemma_bytes_lt_trans(s[j - 1], x, s[0]);
                    }
                } else {
                    lemma_bytes_lt_asym(x, s[0]);
                }
            }
        }
        assert forall|v: Seq<u8>| has_elem(r, v) implies (has_elem(s, v) || v == x) by {
            let i = choose|i: int| 0 <= i < r.len() && r[i] == v;
            if i > 0 {
                assert(s[i - 1] == v);
            }
        }
        assert forall|v: Seq<u8>| (has_elem(s, v) || v == x) implies has_elem(r, v) by {
            if v == x {
                assert(r[0] == v);
            } else {
                let i = choose|i: int| 0 <= i < s.len() && s[i] == v;
                assert(r[i + 1] == v);
            }
        }
    } else {
        let t = s.skip(1);
        assert(sorted_w(t)) by {
            assert(forall|i: int, j: int|
                0 <= i < j < t.len() ==> t[i] == s[i + 1] && t[j] == s[j + 1]);
        }
        lemma_sort_insert_props(t, x);
        let rt = sort_insert(t, x);
        assert(r =~= seq![s[0]] + rt);
        assert(has_elem(r, x)) by {
            let m = choose|m: int| 0 <= m < rt.len() && rt[m] == x;
            assert(r[m + 1] == x);
        }
        lemma_bytes_lt_total(x, s[0]);
        assert forall|i: int, j: int| 0 <= i < j < r.len() implies !bytes_lt(r[j], r[i]) by {
            if i == 0 {
                // everything in the tail insert is at or above the head
                assert(has_elem(rt, r[j]));
                let m = choose|m: int| 0 <= m < rt.len() && rt[m] == r[j];
                if r[j] == x {
                    lemma_bytes_lt_asym(x, s[0]);
                    if bytes_lt(x, s[0]) {
                    }
                } else {
                    assert(has_elem(t, r[j]));
                    let w = choose|w: int| 0 <= w < t.len() && t[w] == r[j];
                    assert(t[w] == s[w + 1]);
                }
            }
        }
        assert forall|v: Seq<u8>| has_elem(r, v) implies (has_elem(s, v) || v == x) by {
            let i = choose|i: int| 0 <= i < r.len() && r[i] == v;
            if i == 0 {
                assert(s[0] == v);
            } else {
                assert(has_elem(rt, v));
                if has_elem(t, v) {
                    let w = choose|w: int| 0 <= w < t.len() && t[w] == v;
                    assert(s[w + 1] == v);
                }
            }
        }
        assert forall|v: Seq<u8>| (has_elem(s, v) || v == x) implies has_elem(r, v) by {
            if v == x {
                assert(has_elem(rt, v));
                let m = choose|m: int| 0 <= m < rt.len() && rt[m] == v;
                assert(r[m + 1] == v);
            } else {
                let i = choose|i: int| 0 <= i < s.len() && s[i] == v;
                if i == 0 {
                    assert(r[0] == v);
                } else {
                    assert(t[i - 1] == v);
                    assert(has_elem(t, v));
                    assert(has_elem(rt, v));
                    let m = choose|m: int| 0 <= m < rt.len() && rt[m] == v;
                    assert(r[m + 1] == v);
                }
            }
        }
    }
}

pub proof fn lemma_sort_bytes_props(s: Seq<Seq<u8>>)
    ensures
        sorted_w(sort_bytes(s)),
        sort_bytes(s).len() == s.len(),
        forall|v: Seq<u8>| has_elem(sort_bytes(s), v) <==> has_elem(s, v),
    decreases s.len(),
{
    if s.len() > 0 {
        lemma_sort_bytes_props(s.drop_last());
        lemma_sort_insert_props(sort_bytes(s.drop_last()), s.last());
        assert forall|v: Seq<u8>| has_elem(s, v) implies has_elem(sort_bytes(s), v) by {
            let i = choose|i: int| 0 <= i < s.len() && s[i] == v;
            if i < s.len() - 1 {
                assert(s.drop_last()[i] == v);
                assert(has_elem(s.drop_last(), v));
            } else {
                assert(v == s.last());
            }
        }
        assert forall|v: Seq<u8>| has_elem(sort_bytes(s), v) implies has_elem(s, v) by {
            if has_elem(s.drop_last(), v) {
                let i = choose|i: int| 0 <= i < s.drop_last().len() && s.drop_last()[i] == v;
                assert(s[i] == v);
            } else {
                assert(s[s.len() - 1] == v);
            }
        }
    }
}

/// Sorts the dependency hashes into the wire order.
pub fn sort_deps(deps: &Vec<ChangeHash>) -> (r: Vec<ChangeHash>)
    ensures
        hviews(r@) == sort_bytes(hviews(deps@)),
{
    let mut out: Vec<ChangeHash> = Vec::new();
    let mut i: usize = 0;
    proof {
        assert(hviews(out@) =~= sort_bytes(hviews(deps@).take(0)));
    }
    while i < deps.len()
        invariant
            i <= deps@.len(),
            hviews(out@) == sort_bytes(hviews(deps@).take(i as int)),
            out@.len() == i,
        decreases deps@.len() - i,
    {
        let x = ChangeHash { bytes: clone_bytes(&deps[i].bytes) };
        let ghost xs = x.bytes@;
        let ghost cur = hviews(out@);
        // find the first element above x
        let mut p: usize = 0;
        while p < out.len() && !bytes_lt_exec(&x.bytes, &out[p].bytes)
            invariant
                p <= out@.len(),
                cur == hviews(out@),
                xs == x.bytes@,
                forall|j: int| 0 <= j < p ==> !bytes_lt(xs, cur[j]),
            decreases out@.len() - p,
        {
            p = p + 1;
        }
        proof {
            lemma_sort_insert_at(cur, xs, p as int);
        }
        out.insert(p, x);
        proof {
            assert(hviews(out@) =~~= cur.insert(p as int, xs));
            assert(hviews(deps@).take(i as int + 1).drop_last() =~= hviews(deps@).take(i as int));
            assert(hviews(deps@).take(i as int + 1).last() == hviews(deps@)[i as int]);
        }
        i = i + 1;
    }
    proof {
        assert(hviews(deps@).take(i as int) =~= hviews(deps@));
    }
    out
}

/// The scan characterisation of `sort_insert`: inserting at the first
/// position whose element is above `x`.
proof fn lemma_sort_insert_at(s: Seq<Seq<u8>>, x: Seq<u8>, p: int)
    requires
        0 <= p <= s.len(),
        forall|j: int| 0 <= j < p ==> !bytes_lt(x, s[j]),
        p < s.len() ==> bytes_lt(x, s[p]),
    ensures
        sort_insert(s, x) == s.insert(p, x),
    decreases s.len(),
{
    if s.len() == 0 {
        assert(sort_insert(s, x) =~= s.insert(0, x));
    } else if bytes_lt(x, s[0]) {
        assert(p == 0);
        assert(sort_insert(s, x) =~= s.insert(0, x));
    } else {
        let t = s.skip(1);
        assert(p >= 1);
        assert(forall|j: int| 0 <= j < p - 1 ==> t[j] == s[j + 1]);
        if p - 1 < t.len() {
            assert(t[p - 1] == s[p]);
        }
        lemma_sort_insert_at(t, x, p - 1);
        assert(sort_insert(s, x) =~= seq![s[0]] + t.insert(p - 1, x));
        assert(seq![s[0]] + t.insert(p - 1, x) =~= s.insert(p, x));
    }
}

// ------------------------------------------------------------------
// Validity checking
// ------------------------------------------------------------------

fn check_value(v: &ScalarValue) -> (r: bool)
    ensures
        r == v.valid(),
{
    match v {
        ScalarValue::Str(s) => (s.len() as u64) < 0x800_0000_0000_0000,
        ScalarValue::Bytes(b) => (b.len() as u64) < 0x800_0000_0000_0000,
        ScalarValue::Unknown(tag, b) => {
            (*tag as u64) >= VALUE_TYPE_MIN_UNKNOWN && (*tag as u64) <= VALUE_TYPE_MAX_UNKNOWN
                && (b.len() as u64) < 0x800_0000_0000_0000
        }
        ScalarValue::Cursor(id) => id.actor.bytes.len() >= 1 && id.actor.bytes.len() <= 255,
        _ => true,
    }
}

fn check_op(op: &Op) -> (r: bool)
    ensures
        r == op.valid(),
{
    let action_ok = match &op.action {
        OpType::Put(v) => check_value(v),
        _ => true,
    };
    if !action_ok {
        return false;
    }
    let obj_ok = match &op.obj {
        ObjectId::Root => true,
        ObjectId::Id(id) => id.actor.bytes.len() >= 1 && id.actor.bytes.len() <= 255,
    };
    if !obj_ok {
        return false;
    }
    let key_ok = match &op.key {
        Key::MapKey(_) => true,
        Key::Head => true,
        Key::Elem(id) => id.actor.bytes.len() >= 1 && id.actor.bytes.len() <= 255,
    };
    if !key_ok {
        return false;
    }
    if op.pred.len() as u64 > 0xffff_ffff {
        return false;
    }
    let mut j: usize = 0;
    while j < op.pred.len()
        invariant
            j <= op.pred@.len(),
            forall|k: int| 0 <= k < j ==> (#[trigger] op.pred@[k]).valid(),
        decreases op.pred@.len() - j,
    {
        if op.pred[j].actor.bytes.len() < 1 || op.pred[j].actor.bytes.len() > 255 {
            return false;
        }
        j = j + 1;
    }
    true
}

/// Checks every operand condition of `UncompressedChange::valid`.
pub fn check_change(c: &UncompressedChange) -> (r: bool)
    ensures
        r == c.valid(),
{
    if c.actor_id.bytes.len() < 1 || c.actor_id.bytes.len() > 255 {
        return false;
    }
    if c.operations.len() as u64 > 0xffff_ffff {
        return false;
    }
    let mut i: usize = 0;
    while i < c.operations.len()
        invariant
            i <= c.operations@.len(),
            forall|k: int| 0 <= k < i ==> (#[trigger] c.operations@[k]).valid(),
        decreases c.operations@.len() - i,
    {
        if !check_op(&c.operations[i]) {
            return false;
        }
        i = i + 1;
    }
    let mut i: usize = 0;
    while i < c.deps.len()
        invariant
            i <= c.deps@.len(),
            forall|k: int| 0 <= k < i ==> (#[trigger] c.deps@[k]).valid(),
            forall|k: int, l: int| 0 <= k < l < i ==> (#[trigger] c.deps@[k]).bytes@
                != (#[trigger] c.deps@[l]).bytes@,
        decreases c.deps@.len() - i,
    {
        if c.deps[i].bytes.len() != 32 {
            return false;
        }
        let mut j: usize = 0;
        while j < i
            invariant
                j <= i < c.deps@.len(),
                forall|k: int| 0 <= k < j ==> (#[trigger] c.deps@[k]).bytes@
                    != c.deps@[i as int].bytes@,
            decreases i - j,
        {
            if bytes_eq(&c.deps[j].bytes, &c.deps[i].bytes) {
                return false;
            }
            j = j + 1;
        }
        i = i + 1;
    }
    true
}

// ------------------------------------------------------------------
// The byte mirror of an encoded change
// ------------------------------------------------------------------

/// Concatenated raw hashes.
pub open spec fn cat_hashes(ds: Seq<Seq<u8>>) -> Seq<u8>
    decreases ds.len(),
{
    if ds.len() == 0 {
        Seq::empty()
    } else {
        ds[0] + cat_hashes(ds.skip(1))
    }
}

/// Concatenated length-prefixed actors.
pub open spec fn cat_prefs(s: Seq<Seq<u8>>) -> Seq<u8>
    decreases s.len(),
{
    if s.len() == 0 {
        Seq::empty()
    } else {
        pref(s[0]) + cat_prefs(s.skip(1))
    }
}

/// The column state of a change's operations: the table starts with the
/// change's own actor alone.
pub open spec fn change_cols(c: UncompressedChange) -> OpCols {
    op_cols_fold(op_cols_init(seq![c.actor_id.bytes@]), c.operations@)
}

/// The body of a change chunk, byte for byte.
pub open spec fn change_body(c: UncompressedChange) -> Seq<u8> {
    let sd = sort_bytes(hviews(c.deps@));
    let st = change_cols(c);
    uleb(sd.len()) + cat_hashes(sd) + pref(c.actor_id.bytes@) + uleb(c.seq as nat) + uleb(
        c.start_op as nat,
    ) + sleb(c.time as int) + pref(msg_bytes(c.message)) + uleb((st.table.len() - 1) as nat)
        + cat_prefs(st.table.skip(1)) + col_block(op_col_list(st)) + c.extra_bytes@
}

/// The chunk: type byte, body length, body.
pub open spec fn change_chunk(c: UncompressedChange) -> Seq<u8> {
    seq![CHUNK_TYPE_CHANGE] + uleb(change_body(c).len()) + change_body(c)
}

/// The full encoding: magic, hash prefix, chunk. The hash preimage is the
/// chunk — type, length prefix and body — not the body alone.
pub open spec fn change_bytes(c: UncompressedChange) -> Seq<u8> {
    magic() + sha256_of(change_chunk(c)).take(4) + change_chunk(c)
}

// ------------------------------------------------------------------
// The encoded change and the encoder
// ------------------------------------------------------------------

/// A half-open byte range within a chunk.
#[derive(PartialEq, Eq, Structural, Debug, Clone, Copy)]
pub struct ByteRange {
    pub start: usize,
    pub end: usize,
}

/// An encoded change: its bytes, plus metadata derived from them. A change
/// is constructed once and thereafter treated as immutable bytes; its
/// logical view is re-derived on demand.
#[derive(PartialEq, Debug, Clone)]
pub struct Change {
    pub bytes: Vec<u8>,
    pub hash: ChangeHash,
    pub seq: u64,
    pub start_op: u64,
    pub time: i64,
    pub body: ByteRange,
    pub message: Vec<u8>,
    pub actors: Vec<ActorId>,
    pub deps: Vec<ChangeHash>,
    pub ops_list: Vec<Op>,
    pub extra_bytes: Vec<u8>,
}

/// Deep-copies an operation list.
fn clone_ops(ops: &Vec<Op>) -> (r: Vec<Op>)
    ensures
        ops_views(r@) == ops_views(ops@),
{
    let mut out: Vec<Op> = Vec::new();
    let mut i: usize = 0;
    proof {
        assert(ops_views(out@) =~= ops_views(ops@).take(0));
    }
    while i < ops.len()
        invariant
            i <= ops@.len(),
            ops_views(out@) == ops_views(ops@).take(i as int),
        decreases ops@.len() - i,
    {
        let ghost prev = ops_views(out@);
        let c = clone_op(&ops[i]);
        out.push(c);
        proof {
            assert(ops_views(out@) =~~= prev.push(op_view(ops@[i as int])));
            assert(prev.push(op_view(ops@[i as int])) =~~= ops_views(ops@).take(i as int + 1));
        }
        i = i + 1;
    }
    proof {
        assert(ops_views(ops@).take(i as int) =~= ops_views(ops@));
    }
    out
}

fn clone_actor(a: &ActorId) -> (r: ActorId)
    ensures
        r.bytes@ == a.bytes@,
{
    ActorId { bytes: clone_bytes(&a.bytes) }
}

fn clone_opid(id: &OpId) -> (r: OpId)
    ensures
        opid_view(r) == opid_view(*id),
{
    OpId { ctr: id.ctr, actor: clone_actor(&id.actor) }
}

fn clone_value(v: &ScalarValue) -> (r: ScalarValue)
    ensures
        crate::types::val_view(r) == crate::types::val_view(*v),
{
    match v {
        ScalarValue::Null => ScalarValue::Null,
        ScalarValue::Boolean(b) => ScalarValue::Boolean(*b),
        ScalarValue::Uint(n) => ScalarValue::Uint(*n),
        ScalarValue::Int(n) => ScalarValue::Int(*n),
        ScalarValue::F32(b) => ScalarValue::F32(*b),
        ScalarValue::F64(b) => ScalarValue::F64(*b),
        ScalarValue::Counter(n) => ScalarValue::Counter(*n),
        ScalarValue::Timestamp(n) => ScalarValue::Timestamp(*n),
        ScalarValue::Str(s) => ScalarValue::Str(clone_bytes(s)),
        ScalarValue::Bytes(b) => ScalarValue::Bytes(clone_bytes(b)),
        ScalarValue::Unknown(t, b) => ScalarValue::Unknown(*t, clone_bytes(b)),
        ScalarValue::Cursor(id) => ScalarValue::Cursor(clone_opid(id)),
    }
}

/// Deep-copies an operation.
pub fn clone_op(op: &Op) -> (r: Op)
    ensures
        op_view(r) == op_view(*op),
{
    let action = match &op.action {
        OpType::MakeMap => OpType::MakeMap,
        OpType::MakeTable => OpType::MakeTable,
        OpType::MakeList => OpType::MakeList,
        OpType::MakeText => OpType::MakeText,
        OpType::Del => OpType::Del,
        OpType::Inc(n) => OpType::Inc(*n),
        OpType::Put(v) => OpType::Put(clone_value(v)),
    };
    let obj = match &op.obj {
        ObjectId::Root => ObjectId::Root,
        ObjectId::Id(id) => ObjectId::Id(clone_opid(id)),
    };
    let key = match &op.key {
        Key::MapKey(s) => Key::MapKey(clone_bytes(s)),
        Key::Head => Key::Head,
        Key::Elem(id) => Key::Elem(clone_opid(id)),
    };
    let mut pred: Vec<OpId> = Vec::new();
    let mut j: usize = 0;
    proof {
        assert(pred@.map_values(|p: OpId| opid_view(p)) =~= op.pred@.map_values(
            |p: OpId| opid_view(p),
        ).take(0));
    }
    while j < op.pred.len()
        invariant
            j <= op.pred@.len(),
            pred@.map_values(|p: OpId| opid_view(p)) == op.pred@.map_values(
                |p: OpId| opid_view(p),
            ).take(j as int),
        decreases op.pred@.len() - j,
    {
        let ghost prev = pred@.map_values(|p: OpId| opid_view(p));
        pred.push(clone_opid(&op.pred[j]));
        proof {
            assert(pred@.map_values(|p: OpId| opid_view(p)) =~~= prev.push(
                opid_view(op.pred@[j as int]),
            ));
            assert(prev.push(opid_view(op.pred@[j as int])) =~~= op.pred@.map_values(
                |p: OpId| opid_view(p),
            ).take(j as int + 1));
        }
        j = j + 1;
    }
    proof {
        assert(op.pred@.map_values(|p: OpId| opid_view(p)).take(j as int) =~= op.pred@.map_values(
            |p: OpId| opid_view(p),
        ));
    }
    let r = Op { action, obj, key, insert: op.insert, pred };
    proof {
        assert(op_view(r) =~~= op_view(*op));
    }
    r
}

/// Encodes a logical change into its chunk, byte for byte as the mirror
/// says, and returns the `Change` carrying the bytes and the derived
/// metadata. Fails exactly on an invalid operand or an operation column too
/// long for a run length.
#[verifier::rlimit(100)]
pub fn encode(uncompressed_change: &UncompressedChange) -> (r: Result<Change, AutomergeError>)
    ensures
        r is Err <==> (!uncompressed_change.valid() || cols_over(
            change_cols(*uncompressed_change),
        )),
        match r {
            Ok(ch) => {
                &&& uncompressed_change.valid()
                &&& ch.bytes@ == change_bytes(*uncompressed_change)
                &&& ch.hash.bytes@ == sha256_of(change_chunk(*uncompressed_change))
                &&& ch.hash.valid()
                &&& ch.seq == uncompressed_change.seq
                &&& ch.start_op == uncompressed_change.start_op
                &&& ch.time == uncompressed_change.time
                &&& hviews(ch.deps@) == sort_bytes(hviews(uncompressed_change.deps@))
                &&& aviews(ch.actors@) == change_cols(*uncompressed_change).table
                &&& ch.actors@.len() >= 1
                &&& ch.message@ == msg_bytes(uncompressed_change.message)
                &&& ops_views(ch.ops_list@) == ops_views(uncompressed_change.operations@)
                &&& ch.extra_bytes@ == uncompressed_change.extra_bytes@
                &&& ch.body.start == HEADER_BYTES + uleb(change_body(
                    *uncompressed_change,
                ).len()).len()
                &&& ch.body.end == ch.bytes@.len()
            },
            Err(e) => e == AutomergeError::InvalidChange,
        },
{
    let c = uncompressed_change;
    if !check_change(c) {
        return Err(AutomergeError::InvalidChange);
    }
    // body
    let mut body: Vec<u8> = Vec::new();
    let deps = sort_deps(&c.deps);
    write_uleb(&mut body, deps.len() as u64);
    let ghost sd = sort_bytes(hviews(c.deps@));
    let ghost afterdeps_cnt = body@;
    let mut i: usize = 0;
    proof {
        assert(sd.skip(0) =~= sd);
    }
    while i < deps.len()
        invariant
            i <= deps@.len(),
            hviews(deps@) == sd,
            body@ + cat_hashes(sd.skip(i as int)) == afterdeps_cnt + cat_hashes(sd),
        decreases deps@.len() - i,
    {
        extend_bytes(&mut body, &deps[i].bytes);
        proof {
            assert(sd.skip(i as int).skip(1) =~= sd.skip(i as int + 1));
            assert(body@ + cat_hashes(sd.skip(i as int + 1)) =~= afterdeps_cnt + cat_hashes(sd));
        }
        i = i + 1;
    }
    proof {
        assert(cat_hashes(sd.skip(i as int)) =~= Seq::<u8>::empty());
        assert(body@ =~= afterdeps_cnt + cat_hashes(sd));
    }
    write_pref(&mut body, &c.actor_id.bytes);
    write_uleb(&mut body, c.seq);
    write_uleb(&mut body, c.start_op);
    write_sleb(&mut body, c.time);
    let msg = match &c.message {
        None => Vec::new(),
        Some(m) => clone_bytes(m),
    };
    write_pref(&mut body, &msg);
    // operations, interning actors as they are first referenced
    let own = ActorId { bytes: clone_bytes(&c.actor_id.bytes) };
    let mut actors: Vec<ActorId> = Vec::new();
    actors.push(own);
    proof {
        assert(aviews(actors@) =~~= seq![c.actor_id.bytes@]);
    }
    let ops_buf = match ColumnEncoder::encode_ops(&c.operations, &mut actors) {
        Ok(b) => b,
        Err(e) => {
            return Err(e);
        }
    };
    let ghost st = change_cols(*c);
    proof {
        crate::columnar::lemma_fold_table_prefix(
            op_cols_init(seq![c.actor_id.bytes@]),
            c.operations@,
        );
        assert(aviews(actors@).len() == actors@.len());
        assert(actors@.len() >= 1);
    }
    write_uleb(&mut body, (actors.len() - 1) as u64);
    let ghost aftern = body@;
    let mut i: usize = 1;
    proof {
        assert(aviews(actors@).skip(1).skip(0) =~= aviews(actors@).skip(1));
    }
    while i < actors.len()
        invariant
            1 <= i <= actors@.len(),
            aviews(actors@) == st.table,
            body@ + cat_prefs(aviews(actors@).skip(i as int)) == aftern + cat_prefs(
                aviews(actors@).skip(1),
            ),
        decreases actors@.len() - i,
    {
        write_pref(&mut body, &actors[i].bytes);
        proof {
            assert(aviews(actors@).skip(i as int)[0] == actors@[i as int].bytes@);
            assert(aviews(actors@).skip(i as int).skip(1) =~= aviews(actors@).skip(i as int + 1));
            assert(body@ + cat_prefs(aviews(actors@).skip(i as int + 1)) =~= aftern + cat_prefs(
                aviews(actors@).skip(1),
            ));
        }
        i = i + 1;
    }
    proof {
        assert(cat_prefs(aviews(actors@).skip(i as int)) =~= Seq::<u8>::empty());
        assert(body@ =~= aftern + cat_prefs(aviews(actors@).skip(1)));
    }
    extend_bytes(&mut body, &ops_buf);
    extend_bytes(&mut body, &c.extra_bytes);
    proof {
        assert(body@ =~= change_body(*c));
    }
    // chunk: type byte, body length, body
    let mut chunk: Vec<u8> = Vec::new();
    chunk.push(CHUNK_TYPE_CHANGE);
    write_uleb(&mut chunk, body.len() as u64);
    let lebn = chunk.len() - 1;
    extend_bytes(&mut chunk, &body);
    proof {
        assert(chunk@ =~= change_chunk(*c));
    }
    let digest = sha256(&chunk);
    // frame: magic, hash prefix, chunk
    let mut out: Vec<u8> = Vec::new();
    out.push(0x85);
    out.push(0x6f);
    out.push(0x4a);
    out.push(0x83);
    out.push(digest[0]);
    out.push(digest[1]);
    out.push(digest[2]);
    out.push(digest[3]);
    extend_bytes(&mut out, &chunk);
    proof {
        assert(out@ =~= change_bytes(*c));
    }
    let total = out.len();
    let ch = Change {
        bytes: out,
        hash: ChangeHash { bytes: digest },
        seq: c.seq,
        start_op: c.start_op,
        time: c.time,
        body: ByteRange { start: HEADER_BYTES + lebn, end: total },
        message: msg,
        actors,
        deps,
        ops_list: clone_ops(&c.operations),
        extra_bytes: clone_bytes(&c.extra_bytes),
    };
    Ok(ch)
}

// ------------------------------------------------------------------
// Parsing: header, directory, and operation assembly
// ------------------------------------------------------------------

// ------------------------------------------------------------------
// The spec-level parse of a change chunk
// ------------------------------------------------------------------

/// The framing of a change chunk: the magic, the change type byte, and a
/// body length that accounts for every remaining byte.
pub open spec fn frame_ok(s: Seq<u8>) -> bool {
    &&& s.len() > 9
    &&& s.take(4) == magic()
    &&& s[8] == CHUNK_TYPE_CHANGE
    &&& crate::leb::uleb_read_spec(s.skip(9)) matches Some(p) && 9 + p.1 + p.0 == s.len()
}

/// Where the body begins: after the magic, hash prefix, type byte and
/// length prefix.
pub open spec fn body_start_of(s: Seq<u8>) -> int {
    9 + crate::leb::uleb_read_spec(s.skip(9)).unwrap().1
}

/// Reads `n` raw 32-byte hashes.
pub open spec fn read_hashes(s: Seq<u8>, pos: int, n: nat) -> Option<(Seq<Seq<u8>>, int)>
    decreases n,
{
    if n == 0 {
        Some((Seq::empty(), pos))
    } else if 0 <= pos && pos + 32 <= s.len() {
        match read_hashes(s, pos + 32, (n - 1) as nat) {
            None => None,
            Some((rest, e)) => Some((seq![s.subrange(pos, pos + 32)] + rest, e)),
        }
    } else {
        None
    }
}

/// Reads `n` length-prefixed actors.
pub open spec fn read_actors(s: Seq<u8>, pos: int, n: nat) -> Option<(Seq<Seq<u8>>, int)>
    decreases n,
{
    if n == 0 {
        Some((Seq::empty(), pos))
    } else if 0 <= pos <= s.len() {
        match crate::strcol::pref_read_spec(s.skip(pos)) {
            None => None,
            Some((a, k)) => if 1 <= k {
                match read_actors(s, pos + k, (n - 1) as nat) {
                    None => None,
                    Some((rest, e)) => Some((seq![a] + rest, e)),
                }
            } else {
                None
            },
        }
    } else {
        None
    }
}

/// Reads `n` directory entries; ids must be strictly ascending, and each
/// length must fit the machine.
pub open spec fn read_dir(s: Seq<u8>, pos: int, n: nat, last: int) -> Option<
    (Seq<(u32, int)>, int),
>
    decreases n,
{
    if n == 0 {
        Some((Seq::empty(), pos))
    } else if 0 <= pos <= s.len() {
        match crate::leb::uleb_read_spec(s.skip(pos)) {
            None => None,
            Some((id, k)) => if id <= last || id > u32::MAX as nat {
                None
            } else {
                match crate::leb::uleb_read_spec(s.skip(pos + k)) {
                    None => None,
                    Some((ln, k2)) => if ln <= usize::MAX as nat && 0 <= pos + k + k2 {
                        match read_dir(s, pos + k + k2, (n - 1) as nat, id as int) {
                            None => None,
                            Some((rest, e)) => Some(
                                (seq![(id as u32, ln as int)] + rest, e),
                            ),
                        }
                    } else {
                        None
                    },
                }
            },
        }
    } else {
        None
    }
}

/// Total payload length of a directory.
pub open spec fn dir_total(dir: Seq<(u32, int)>) -> int
    decreases dir.len(),
{
    if dir.len() == 0 {
        0
    } else {
        dir[0].1 + dir_total(dir.skip(1))
    }
}

/// Everything the scalar header of a change says, plus its actor table.
pub struct HdrParts {
    pub deps: Seq<Seq<u8>>,
    pub actor: Seq<u8>,
    pub seq: u64,
    pub start_op: u64,
    pub time: i64,
    pub message: Seq<u8>,
    pub extras: Seq<Seq<u8>>,
}

/// Parses the header of a change body at `pos`: dependency count and
/// hashes (strictly ascending), the change's own actor, sequence number,
/// start counter, time, message, and the extra actors.
#[verifier::opaque]
pub open spec fn hdr_parse(s: Seq<u8>, pos: int) -> Option<(HdrParts, int)> {
    if !(0 <= pos <= s.len()) {
        None
    } else {
        match crate::leb::uleb_read_spec(s.skip(pos)) {
            None => None,
            Some((nd, k1)) => if nd > usize::MAX as nat {
                None
            } else {
                match read_hashes(s, pos + k1, nd) {
                    None => None,
                    Some((deps, p1)) => if !deps_ascending(deps) || !(0 <= p1 <= s.len()) {
                        None
                    } else {
                        match crate::strcol::pref_read_spec(s.skip(p1)) {
                            None => None,
                            Some((actor, ka)) => match crate::leb::uleb_read_spec(
                                s.skip(p1 + ka),
                            ) {
                                None => None,
                                Some((seqv, k2)) => match crate::leb::uleb_read_spec(
                                    s.skip(p1 + ka + k2),
                                ) {
                                    None => None,
                                    Some((sop, k3)) => match crate::leb::sleb_read_spec(
                                        s.skip(p1 + ka + k2 + k3),
                                    ) {
                                        None => None,
                                        Some((tm, k4)) => match crate::strcol::pref_read_spec(
                                            s.skip(p1 + ka + k2 + k3 + k4),
                                        ) {
                                            None => None,
                                            Some((message, km)) => {
                                                let p2 = p1 + ka + k2 + k3 + k4 + km;
                                                match crate::leb::uleb_read_spec(s.skip(p2)) {
                                                    None => None,
                                                    Some((nact, kn)) => if nact
                                                        > usize::MAX as nat {
                                                        None
                                                    } else {
                                                        match read_actors(s, p2 + kn, nact) {
                                                            None => None,
                                                            Some((extras, p3)) => Some(
                                                                (
                                                                    HdrParts {
                                                                        deps,
                                                                        actor,
                                                                        seq: seqv as u64,
                                                                        start_op: sop as u64,
                                                                        time: tm as i64,
                                                                        message,
                                                                        extras,
                                                                    },
                                                                    p3,
                                                                ),
                                                            ),
                                                        }
                                                    },
                                                }
                                            },
                                        },
                                    },
                                },
                            },
                        }
                    },
                }
            },
        }
    }
}

/// Parses the column directory at `pos`: entry count, strictly ascending
/// entries, and payloads that fit within the chunk. Yields the directory
/// and the offset of the first payload.
pub open spec fn dir_parse(s: Seq<u8>, pos: int) -> Option<(Seq<(u32, int)>, int)> {
    if !(0 <= pos <= s.len()) {
        None
    } else {
        match crate::leb::uleb_read_spec(s.skip(pos)) {
            None => None,
            Some((nc, kc)) => if nc > usize::MAX as nat {
                None
            } else {
                match read_dir(s, pos + kc, nc, 0) {
                    None => None,
                    Some((dir, cs)) => if 0 <= cs && cs + dir_total(dir) <= s.len() {
                        Some((dir, cs))
                    } else {
                        None
                    },
                }
            },
        }
    }
}

/// The operations a chunk's columns decode to, over a parsed directory.
#[verifier::opaque]
pub open spec fn ops_of(s: Seq<u8>, dir: Seq<(u32, int)>, cs: int, table: Seq<Seq<u8>>) -> Option<
    Seq<VOp>,
> {
    let action = crate::encoding::rle_u_dec(
        col_bytes_dir(s, dir, cs, crate::columnar::COL_ACTION),
    );
    let insert = crate::boolcol::bool_dec(col_bytes_dir(s, dir, cs, crate::columnar::COL_INSERT));
    let oa = crate::encoding::rle_u_dec(col_bytes_dir(s, dir, cs, crate::columnar::COL_OBJ_ACTOR));
    let oc = crate::encoding::rle_u_dec(col_bytes_dir(s, dir, cs, crate::columnar::COL_OBJ_CTR));
    let ka = crate::encoding::rle_u_dec(col_bytes_dir(s, dir, cs, crate::columnar::COL_KEY_ACTOR));
    let kc = crate::delta::delta_dec(col_bytes_dir(s, dir, cs, crate::columnar::COL_KEY_CTR));
    let ks = crate::strcol::rle_s_dec(col_bytes_dir(s, dir, cs, crate::columnar::COL_KEY_STR));
    let vl = crate::encoding::rle_u_dec(col_bytes_dir(s, dir, cs, crate::columnar::COL_VAL_LEN));
    let vraw = col_bytes_dir(s, dir, cs, crate::columnar::COL_VAL_RAW);
    let ra = crate::encoding::rle_u_dec(col_bytes_dir(s, dir, cs, crate::columnar::COL_REF_ACTOR));
    let rc = crate::encoding::rle_u_dec(col_bytes_dir(s, dir, cs, crate::columnar::COL_REF_CTR));
    let pn = crate::encoding::rle_u_dec(col_bytes_dir(s, dir, cs, crate::columnar::COL_PRED_NUM));
    let pa = crate::encoding::rle_u_dec(
        col_bytes_dir(s, dir, cs, crate::columnar::COL_PRED_ACTOR),
    );
    let pc = crate::delta::delta_dec(col_bytes_dir(s, dir, cs, crate::columnar::COL_PRED_CTR));
    if action is None || insert is None || oa is None || oc is None || ka is None || kc is None
        || ks is None || vl is None || ra is None || rc is None || pn is None || pa is None
        || pc is None {
        None
    } else {
        asm_ops(
            Streams {
                action: action.unwrap(),
                insert: insert.unwrap(),
                oa: oa.unwrap(),
                oc: oc.unwrap(),
                ka: ka.unwrap(),
                kc: kc.unwrap(),
                ks: ks.unwrap(),
                vl: vl.unwrap(),
                vraw,
                ra: ra.unwrap(),
                rc: rc.unwrap(),
                pn: pn.unwrap(),
                pa: pa.unwrap(),
                pc: pc.unwrap(),
                table,
            },
            0,
            0,
            0,
        )
    }
}

/// Whether a byte sequence is a well-formed change chunk from frame to
/// operations.
pub open spec fn change_ok(s: Seq<u8>) -> bool {
    &&& frame_ok(s)
    &&& hdr_parse(s, body_start_of(s)) matches Some(hp) && dir_parse(s, hp.1) matches Some(dp)
        && ops_of(s, dp.0, dp.1, seq![hp.0.actor] + hp.0.extras) is Some
}

/// What a parsed `Change` carries, field by field, as a function of its
/// bytes.
pub open spec fn change_wf(ch: Change, s: Seq<u8>) -> bool {
    &&& change_ok(s)
    &&& ch.bytes@ == s
    &&& ch.hash.bytes@ == sha256_of(s.skip(PREAMBLE_BYTES as int))
    &&& ch.hash.valid()
    &&& ch.body.end == s.len()
    &&& ch.body.start == body_start_of(s)
    &&& hdr_parse(s, body_start_of(s)) matches Some(hp) && {
        &&& ch.seq == hp.0.seq
        &&& ch.start_op == hp.0.start_op
        &&& ch.time == hp.0.time
        &&& ch.message@ == hp.0.message
        &&& hviews(ch.deps@) == hp.0.deps
        &&& aviews(ch.actors@) == seq![hp.0.actor] + hp.0.extras
        &&& dir_parse(s, hp.1) matches Some(dp) && {
            &&& ch.extra_bytes@ == s.subrange(dp.1 + dir_total(dp.0), s.len() as int)
            &&& ops_of(s, dp.0, dp.1, seq![hp.0.actor] + hp.0.extras) matches Some(vops)
                && ops_views(ch.ops_list@) == vops
        }
    }
}

/// Adjacent dependency hashes strictly ascend

/// Adjacent dependency hashes strictly ascend; the first repeated or
/// out-of-order hash is a decode error.
pub open spec fn deps_ascending(deps: Seq<Seq<u8>>) -> bool {
    forall|i: int| 0 <= i < deps.len() - 1 ==> bytes_lt(#[trigger] deps[i], deps[i + 1])
}

/// A parsed value-column cell: a plain value, or the cursor marker whose
/// identifier lives in the reference columns.
pub enum VCell {
    Plain(crate::types::VVal),
    Mark,
}

/// Parses one value-column entry against the raw pool at `rcur`.
pub open spec fn val_parse(vl: u64, raw: Seq<u8>, rcur: int) -> Option<(VCell, int)> {
    let tag = vl % 16;
    let ln = vl / 16;
    if tag == 0 || tag == 1 || tag == 2 || tag == 10 {
        if ln == 0 {
            if tag == 0 {
                Some((VCell::Plain(crate::types::VVal::Null), rcur))
            } else if tag == 1 {
                Some((VCell::Plain(crate::types::VVal::Boolean(false)), rcur))
            } else if tag == 2 {
                Some((VCell::Plain(crate::types::VVal::Boolean(true)), rcur))
            } else {
                Some((VCell::Mark, rcur))
            }
        } else {
            None
        }
    } else if tag == 3 {
        match crate::leb::uleb_read_spec(raw.skip(rcur)) {
            None => None,
            Some((v, k)) => if k == ln && 0 <= rcur <= raw.len() {
                Some((VCell::Plain(crate::types::VVal::Uint(v as u64)), rcur + k))
            } else {
                None
            },
        }
    } else if tag == 4 || tag == 8 || tag == 9 {
        match crate::leb::sleb_read_spec(raw.skip(rcur)) {
            None => None,
            Some((v, k)) => if k == ln && 0 <= rcur <= raw.len() {
                Some(
                    (
                        VCell::Plain(
                            if tag == 4 {
                                crate::types::VVal::Int(v as i64)
                            } else if tag == 8 {
                                crate::types::VVal::Counter(v as i64)
                            } else {
                                crate::types::VVal::Timestamp(v as i64)
                            },
                        ),
                        rcur + k,
                    ),
                )
            } else {
                None
            },
        }
    } else if tag == 5 {
        if ln == 4 && 0 <= rcur && rcur + 4 <= raw.len() {
            let b0 = raw[rcur] as u32;
            let b1 = raw[rcur + 1] as u32;
            let b2 = raw[rcur + 2] as u32;
            let b3 = raw[rcur + 3] as u32;
            Some(
                (
                    VCell::Plain(
                        crate::types::VVal::F32(
                            (b0 + b1 * 256 + b2 * 0x10000 + b3 * 0x1000000) as u32,
                        ),
                    ),
                    rcur + 4,
                ),
            )
        } else if ln == 8 && 0 <= rcur && rcur + 8 <= raw.len() {
            let b0 = raw[rcur] as u64;
            let b1 = raw[rcur + 1] as u64;
            let b2 = raw[rcur + 2] as u64;
            let b3 = raw[rcur + 3] as u64;
            let b4 = raw[rcur + 4] as u64;
            let b5 = raw[rcur + 5] as u64;
            let b6 = raw[rcur + 6] as u64;
            let b7 = raw[rcur + 7] as u64;
            Some(
                (
                    VCell::Plain(
                        crate::types::VVal::F64(
                            (b0 + b1 * 256 + b2 * 0x10000 + b3 * 0x1000000 + b4 * 0x1_0000_0000
                                + b5 * 0x100_0000_0000 + b6 * 0x1_0000_0000_0000
                                + b7 * 0x100_0000_0000_0000) as u64,
                        ),
                    ),
                    rcur + 8,
                ),
            )
        } else {
            None
        }
    } else {
        // 6, 7 and the reserved range carry `ln` raw bytes
        if 0 <= rcur && rcur + ln <= raw.len() {
            let data = raw.subrange(rcur, rcur + ln);
            if tag == 6 {
                Some((VCell::Plain(crate::types::VVal::Str(data)), rcur + ln))
            } else if tag == 7 {
                Some((VCell::Plain(crate::types::VVal::Bytes(data)), rcur + ln))
            } else {
                Some((VCell::Plain(crate::types::VVal::Unknown(tag as u8, data)), rcur + ln))
            }
        } else {
            None
        }
    }
}

/// The decoded item streams of every operation column, plus the actor table.
pub struct Streams {
    pub action: Seq<Option<u64>>,
    pub insert: Seq<bool>,
    pub oa: Seq<Option<u64>>,
    pub oc: Seq<Option<u64>>,
    pub ka: Seq<Option<u64>>,
    pub kc: Seq<Option<u64>>,
    pub ks: Seq<Option<Seq<u8>>>,
    pub vl: Seq<Option<u64>>,
    pub vraw: Seq<u8>,
    pub ra: Seq<Option<u64>>,
    pub rc: Seq<Option<u64>>,
    pub pn: Seq<Option<u64>>,
    pub pa: Seq<Option<u64>>,
    pub pc: Seq<Option<u64>>,
    pub table: Seq<Seq<u8>>,
}

/// Reads `m` predecessor identifiers from the predecessor streams.
pub open spec fn asm_preds(st: Streams, pcur: int, m: nat) -> Option<(Seq<crate::types::VOpId>, int)>
    decreases m,
{
    if m == 0 {
        Some((Seq::empty(), pcur))
    } else {
        match (crate::encoding::col_at(st.pa, pcur), crate::encoding::col_at(st.pc, pcur)) {
            (Some(a), Some(c)) => if a < st.table.len() {
                match asm_preds(st, pcur + 1, (m - 1) as nat) {
                    None => None,
                    Some((rest, e)) => Some(
                        (
                            seq![
                                crate::types::VOpId { ctr: c, actor: st.table[a as int] }
                            ] + rest,
                            e,
                        ),
                    ),
                }
            } else {
                None
            },
            _ => None,
        }
    }
}

/// Assembles one operation per action entry, drawing one element from each
/// active column; the assembly rules per action are exactly the decode
/// rules: an assignment has exactly one of value and reference, a counter
/// adjustment takes a signed integer, and the remaining actions take a null
/// value and no reference.
pub open spec fn asm_ops(st: Streams, i: nat, pcur: int, rcur: int) -> Option<Seq<VOp>>
    decreases st.action.len() - i,
{
    if i >= st.action.len() {
        Some(Seq::empty())
    } else {
        let code = st.action[i as int];
        if code is None {
            None
        } else {
            let code = code.unwrap();
            let insert = crate::boolcol::bool_at(st.insert, i as int);
            let obj = match (
                crate::encoding::col_at(st.oa, i as int),
                crate::encoding::col_at(st.oc, i as int),
            ) {
                (Some(a), Some(c)) => if a < st.table.len() {
                    Some(Some(crate::types::VOpId { ctr: c, actor: st.table[a as int] }))
                } else {
                    None
                },
                (None, None) => Some(None),
                _ => None,
            };
            let key = match (
                crate::encoding::col_at(st.ka, i as int),
                crate::encoding::col_at(st.kc, i as int),
                crate::strcol::scol_at(st.ks, i as int),
            ) {
                (None, None, Some(sv)) => Some(crate::types::VKey::Field(sv)),
                (None, Some(c), None) => if c == 0 {
                    Some(crate::types::VKey::Head)
                } else {
                    None
                },
                (Some(a), Some(c), None) => if a < st.table.len() {
                    Some(
                        crate::types::VKey::Elem(
                            crate::types::VOpId { ctr: c, actor: st.table[a as int] },
                        ),
                    )
                } else {
                    None
                },
                _ => None,
            };
            let refid = match (
                crate::encoding::col_at(st.ra, i as int),
                crate::encoding::col_at(st.rc, i as int),
            ) {
                (Some(a), Some(c)) => if a < st.table.len() {
                    Some(Some(crate::types::VOpId { ctr: c, actor: st.table[a as int] }))
                } else {
                    None
                },
                (None, None) => Some(None),
                _ => None,
            };
            if obj is None || key is None || refid is None {
                None
            } else {
                match crate::encoding::col_at(st.pn, i as int) {
                    None => None,
                    Some(m) => match asm_preds(st, pcur, m as nat) {
                        None => None,
                        Some((pred, pcur2)) => match crate::encoding::col_at(st.vl, i as int) {
                            None => None,
                            Some(vl) => match val_parse(vl, st.vraw, rcur) {
                                None => None,
                                Some((cell, rcur2)) => match asm_act(
                                    code,
                                    cell,
                                    refid.unwrap(),
                                ) {
                                    None => None,
                                    Some(act) => match asm_ops(st, i + 1, pcur2, rcur2) {
                                        None => None,
                                        Some(rest) => Some(
                                            seq![
                                                VOp {
                                                    action: act,
                                                    obj: obj.unwrap(),
                                                    key: key.unwrap(),
                                                    insert,
                                                    pred,
                                                }
                                            ] + rest,
                                        ),
                                    },
                                },
                            },
                        },
                    },
                }
            }
        }
    }
}

/// The action built from its code, the value cell, and the reference.
pub open spec fn asm_act(
    code: u64,
    cell: VCell,
    refid: Option<crate::types::VOpId>,
) -> Option<crate::types::VAct> {
    if code == 1 {
        match (cell, refid) {
            (VCell::Mark, Some(id)) => Some(
                crate::types::VAct::Put(crate::types::VVal::Cursor(id)),
            ),
            (VCell::Plain(v), None) => Some(crate::types::VAct::Put(v)),
            _ => None,
        }
    } else if refid is Some {
        None
    } else if code == 5 {
        match cell {
            VCell::Plain(crate::types::VVal::Int(n)) => Some(crate::types::VAct::Inc(n)),
            _ => None,
        }
    } else if cell matches VCell::Plain(crate::types::VVal::Null) {
        if code == 0 {
            Some(crate::types::VAct::MakeMap)
        } else if code == 2 {
            Some(crate::types::VAct::MakeList)
        } else if code == 3 {
            Some(crate::types::VAct::Del)
        } else if code == 4 {
            Some(crate::types::VAct::MakeText)
        } else if code == 6 {
            Some(crate::types::VAct::MakeTable)
        } else {
            None
        }
    } else {
        None
    }
}

/// The change hash depends only on the chunk — its type byte, body length
/// prefix and body — so it is stable across re-encoding by a different
/// host: equal bodies give equal frames and equal hashes.
pub proof fn lemma_hash_depends_on_chunk(a: UncompressedChange, b: UncompressedChange)
    requires
        change_body(a) == change_body(b),
    ensures
        change_chunk(a) == change_chunk(b),
        sha256_of(change_chunk(a)) == sha256_of(change_chunk(b)),
        change_bytes(a) == change_bytes(b),
{
}

/// No two elements equal.
pub open spec fn distinct_elems(s: Seq<Seq<u8>>) -> bool {
    forall|i: int, j: int| 0 <= i < j < s.len() ==> #[trigger] s[i] != #[trigger] s[j]
}

proof fn lemma_sort_insert_distinct(s: Seq<Seq<u8>>, x: Seq<u8>)
    requires
        sorted_w(s),
        distinct_elems(s),
        !has_elem(s, x),
    ensures
        distinct_elems(sort_insert(s, x)),
    decreases s.len(),
{
    let r = sort_insert(s, x);
    if s.len() == 0 {
    } else if bytes_lt(x, s[0]) {
        assert(r =~= seq![x] + s);
        assert forall|i: int, j: int| 0 <= i < j < r.len() implies r[i] != r[j] by {
            if i == 0 {
                if r[j] == x {
                    assert(s[j - 1] == x);
                    assert(has_elem(s, x));
                }
            } else {
                assert(r[i] == s[i - 1] && r[j] == s[j - 1]);
            }
        }
    } else {
        let t = s.skip(1);
        assert(sorted_w(t) && distinct_elems(t)) by {
            assert(forall|i: int, j: int|
                0 <= i < j < t.len() ==> t[i] == s[i + 1] && t[j] == s[j + 1]);
        }
        assert(!has_elem(t, x)) by {
            if has_elem(t, x) {
                let w = choose|w: int| 0 <= w < t.len() && t[w] == x;
                assert(s[w + 1] == x);
                assert(has_elem(s, x));
            }
        }
        lemma_sort_insert_props(t, x);
        lemma_sort_insert_distinct(t, x);
        let rt = sort_insert(t, x);
        assert(r =~= seq![s[0]] + rt);
        assert forall|i: int, j: int| 0 <= i < j < r.len() implies r[i] != r[j] by {
            if i == 0 {
                if r[j] == s[0] {
                    assert(has_elem(rt, s[0]));
                    if has_elem(t, s[0]) {
                        let w = choose|w: int| 0 <= w < t.len() && t[w] == s[0];
                        assert(s[w + 1] == s[0]);
                    } else {
                        assert(s[0] == x);
                        assert(has_elem(s, x));
                    }
                }
            } else {
                assert(r[i] == rt[i - 1] && r[j] == rt[j - 1]);
            }
        }
    }
}

proof fn lemma_sort_bytes_distinct(s: Seq<Seq<u8>>)
    requires
        distinct_elems(s),
    ensures
        distinct_elems(sort_bytes(s)),
    decreases s.len(),
{
    if s.len() > 0 {
        let d = s.drop_last();
        assert(distinct_elems(d)) by {
            assert(forall|i: int, j: int|
                0 <= i < j < d.len() ==> d[i] == s[i] && d[j] == s[j]);
        }
        lemma_sort_bytes_distinct(d);
        lemma_sort_bytes_props(d);
        assert(!has_elem(sort_bytes(d), s.last())) by {
            if has_elem(d, s.last()) {
                let w = choose|w: int| 0 <= w < d.len() && d[w] == s.last();
                assert(s[w] == s[s.len() - 1]);
            }
        }
        lemma_sort_insert_distinct(sort_bytes(d), s.last());
    }
}

/// The dependencies a change encodes are strictly ascending on the wire:
/// the sorted form of a valid change's distinct hashes.
pub proof fn lemma_wire_deps_sorted(c: UncompressedChange)
    requires
        c.valid(),
    ensures
        sorted_strict(sort_bytes(hviews(c.deps@))),
        sort_bytes(hviews(c.deps@)).len() == c.deps@.len(),
{
    let h = hviews(c.deps@);
    assert(distinct_elems(h)) by {
        assert(forall|i: int, j: int| 0 <= i < j < h.len() ==> h[i] == c.deps@[i].bytes@ && h[j]
            == c.deps@[j].bytes@);
    }
    lemma_sort_bytes_props(h);
    lemma_sort_bytes_distinct(h);
    let sd = sort_bytes(h);
    assert forall|i: int, j: int| 0 <= i < j < sd.len() implies bytes_lt(sd[i], sd[j]) by {
        lemma_bytes_lt_total(sd[i], sd[j]);
    }
}


// ------------------------------------------------------------------
// Executable decoding
// ------------------------------------------------------------------

/// A column's id and byte range within a chunk.
#[derive(PartialEq, Eq, Structural, Debug, Clone, Copy)]
pub struct ColRange {
    pub col: u32,
    pub start: usize,
    pub end: usize,
}

/// Reads one unsigned LEB128 value at the cursor and advances it. The
/// change codec always parses to the end of the chunk, so the cursor's end
/// is the buffer's end.
pub fn read_slice(bytes: &Vec<u8>, cursor: &mut ByteRange) -> (r: Result<u64, AutomergeError>)
    requires
        old(cursor).start <= old(cursor).end == bytes@.len(),
    ensures
        final(cursor).end == old(cursor).end,
        match r {
            Ok(v) => {
                &&& crate::leb::uleb_read_spec(bytes@.skip(old(cursor).start as int)) == Some(
                    (v as nat, final(cursor).start - old(cursor).start),
                )
                &&& old(cursor).start < final(cursor).start <= bytes@.len()
            },
            Err(e) => {
                &&& crate::leb::uleb_read_spec(bytes@.skip(old(cursor).start as int)) is None
                &&& e == AutomergeError::EncodingError
                &&& final(cursor).start == old(cursor).start
            },
        },
{
    match crate::leb::read_uleb(bytes, cursor.start) {
        Ok((v, p)) => {
            cursor.start = p;
            Ok(v)
        }
        Err(e) => Err(e),
    }
}

/// Reads one length-prefixed byte string at the cursor and advances it,
/// returning the range of the raw bytes.
pub fn slice_bytes(bytes: &Vec<u8>, cursor: &mut ByteRange) -> (r: Result<
    ByteRange,
    AutomergeError,
>)
    requires
        old(cursor).start <= old(cursor).end == bytes@.len(),
    ensures
        final(cursor).end == old(cursor).end,
        match r {
            Ok(rg) => {
                &&& crate::strcol::pref_read_spec(bytes@.skip(old(cursor).start as int))
                    matches Some(p)
                    && p.0 == bytes@.subrange(rg.start as int, rg.end as int)
                    && final(cursor).start == old(cursor).start + p.1
                &&& old(cursor).start <= rg.start <= rg.end <= bytes@.len()
                &&& final(cursor).start == rg.end
            },
            Err(e) => {
                &&& crate::strcol::pref_read_spec(bytes@.skip(old(cursor).start as int)) is None
                &&& e == AutomergeError::EncodingError
                &&& final(cursor).start == old(cursor).start
            },
        },
{
    let p0 = cursor.start;
    match crate::leb::read_uleb(bytes, p0) {
        Ok((ln, p)) => {
            let ghost s = bytes@.skip(p0 as int);
            if ln > (usize::MAX as u64) || (ln as usize) > bytes.len() - p {
                proof {
                    assert((p - p0) + ln > s.len());
                }
                return Err(AutomergeError::EncodingError);
            }
            let e = p + (ln as usize);
            cursor.start = e;
            proof {
                assert(s.subrange(p - p0, p - p0 + ln as int) =~= bytes@.subrange(
                    p as int,
                    e as int,
                ));
            }
            Ok(ByteRange { start: p, end: e })
        }
        Err(e) => Err(e),
    }
}

/// Copies a byte range out of a buffer.
fn copy_range(bytes: &Vec<u8>, a: usize, b: usize) -> (r: Vec<u8>)
    requires
        a <= b <= bytes@.len(),
    ensures
        r@ == bytes@.subrange(a as int, b as int),
{
    let mut out: Vec<u8> = Vec::new();
    let mut i: usize = a;
    while i < b
        invariant
            a <= i <= b <= bytes@.len(),
            out@ == bytes@.subrange(a as int, i as int),
        decreases b - i,
    {
        out.push(bytes[i]);
        proof {
            assert(out@ =~= bytes@.subrange(a as int, i as int + 1));
        }
        i = i + 1;
    }
    out
}

/// The bytes of a column id out of a parsed directory: empty when the id is
/// not listed.
pub open spec fn dir_views(d: Seq<ColRange>) -> Seq<(u32, int)> {
    d.map_values(|c: ColRange| (c.col, c.end - c.start))
}

/// The bytes a directory assigns to a column id: empty when absent.
pub open spec fn col_lookup(s: Seq<u8>, d: Seq<ColRange>, id: u32) -> Seq<u8> {
    col_bytes_dir(
        s,
        dir_views(d),
        if d.len() == 0 {
            0int
        } else {
            d[0].start as int
        },
        id,
    )
}

pub fn col_iter(bytes: &Vec<u8>, dir: &Vec<ColRange>, col_id: u32) -> (r: Vec<u8>)
    requires
        forall|j: int| 0 <= j < dir@.len() ==> (#[trigger] dir@[j]).start <= dir@[j].end
            <= bytes@.len(),
        forall|j: int| 0 <= j < dir@.len() - 1 ==> (#[trigger] dir@[j]).end == dir@[
            j + 1
        ].start,
    ensures
        r@ == col_lookup(bytes@, dir@, col_id),
{
    let ghost spec_dir = dir_views(dir@);
    let ghost start0: int = if dir@.len() == 0 { 0int } else { dir@[0].start as int };
    let mut j: usize = 0;
    proof {
        assert(spec_dir.skip(0) =~= spec_dir);
    }
    while j < dir.len()
        invariant
            j <= dir@.len(),
            spec_dir == dir_views(dir@),
            start0 == if dir@.len() == 0 { 0int } else { dir@[0].start as int },
            forall|k: int| 0 <= k < dir@.len() ==> (#[trigger] dir@[k]).start <= dir@[k].end
                <= bytes@.len(),
            forall|k: int| 0 <= k < dir@.len() - 1 ==> (#[trigger] dir@[k]).end == dir@[
                k + 1
            ].start,
            forall|k: int| 0 <= k < j ==> (#[trigger] dir@[k]).col != col_id,
            col_range_of(spec_dir, start0, col_id) == col_range_of(
                spec_dir.skip(j as int),
                if j < dir@.len() { dir@[j as int].start as int } else { 0int },
                col_id,
            ),
        decreases dir@.len() - j,
    {
        if dir[j].col == col_id {
            proof {
                assert(spec_dir.skip(j as int)[0] == (dir@[j as int].col, dir@[
                    j as int
                ].end - dir@[j as int].start));
                assert(col_range_of(
                    spec_dir.skip(j as int),
                    dir@[j as int].start as int,
                    col_id,
                ) == Some(
                    (
                        dir@[j as int].start as int,
                        dir@[j as int].start + (dir@[j as int].end - dir@[j as int].start),
                    ),
                ));
                assert(dir@[j as int].start + (dir@[j as int].end - dir@[j as int].start)
                    == dir@[j as int].end as int);
                assert(col_bytes_dir(bytes@, spec_dir, start0, col_id) == bytes@.subrange(
                    dir@[j as int].start as int,
                    dir@[j as int].end as int,
                ));
            }
            let out = copy_range(bytes, dir[j].start, dir[j].end);
            proof {
                assert(out@ == col_bytes_dir(bytes@, spec_dir, start0, col_id));
                assert(col_lookup(bytes@, dir@, col_id) == col_bytes_dir(
                    bytes@,
                    spec_dir,
                    start0,
                    col_id,
                ));
            }
            return out;
        }
        proof {
            assert(spec_dir.skip(j as int)[0] == (dir@[j as int].col, dir@[j as int].end - dir@[
                j as int
            ].start));
            assert(spec_dir.skip(j as int).skip(1) =~= spec_dir.skip(j as int + 1));
            assert(col_range_of(spec_dir.skip(j as int), dir@[j as int].start as int, col_id)
                == col_range_of(
                spec_dir.skip(j as int + 1),
                dir@[j as int].start + (dir@[j as int].end - dir@[j as int].start),
                col_id,
            ));
            if j + 1 < dir@.len() {
                assert(dir@[j as int].end == dir@[j as int + 1].start);
            } else {
                assert(spec_dir.skip(j as int + 1) =~= Seq::<(u32, int)>::empty());
            }
        }
        j = j + 1;
    }
    proof {
        assert(spec_dir.skip(j as int) =~= Seq::<(u32, int)>::empty());
        assert(col_lookup(bytes@, dir@, col_id) == col_bytes_dir(
            bytes@,
            spec_dir,
            start0,
            col_id,
        ));
        assert(col_bytes_dir(bytes@, spec_dir, start0, col_id) =~= Seq::<u8>::empty());
    }
    Vec::new()
}

/// `col_range_of` against a directory whose ranges carry lengths; same
/// recursion, shared by the executable lookup.
pub open spec fn col_range_of(dir: Seq<(u32, int)>, start: int, id: u32) -> Option<(int, int)>
    decreases dir.len(),
{
    if dir.len() == 0 {
        None
    } else if dir[0].0 == id {
        Some((start, start + dir[0].1))
    } else {
        col_range_of(dir.skip(1), start + dir[0].1, id)
    }
}

pub open spec fn col_bytes_dir(s: Seq<u8>, dir: Seq<(u32, int)>, start: int, id: u32) -> Seq<
    u8,
> {
    match col_range_of(dir, start, id) {
        None => Seq::empty(),
        Some((a, b)) => if 0 <= a <= b <= s.len() {
            s.subrange(a, b)
        } else {
            Seq::empty()
        },
    }
}

/// Reads `n` raw 32-byte dependency hashes.
fn read_hashes_exec(bytes: &Vec<u8>, pos: usize, n: usize) -> (r: Result<
    (Vec<ChangeHash>, usize),
    AutomergeError,
>)
    requires
        pos <= bytes@.len(),
    ensures
        match r {
            Ok((v, p)) => {
                &&& read_hashes(bytes@, pos as int, n as nat) == Some((hviews(v@), p as int))
                &&& pos <= p <= bytes@.len()
                &&& forall|k: int| 0 <= k < v@.len() ==> (#[trigger] v@[k]).valid()
            },
            Err(e) => {
                &&& read_hashes(bytes@, pos as int, n as nat) is None
                &&& e == AutomergeError::EncodingError
            },
        },
{
    let nlen = bytes.len();
    let mut deps: Vec<ChangeHash> = Vec::new();
    let mut cur = pos;
    let mut d: usize = 0;
    while d < n
        invariant
            d <= n,
            pos <= cur <= nlen,
            nlen == bytes@.len(),
            forall|k: int| 0 <= k < deps@.len() ==> (#[trigger] deps@[k]).valid(),
            read_hashes(bytes@, pos as int, n as nat) == match read_hashes(
                bytes@,
                cur as int,
                (n - d) as nat,
            ) {
                None => None::<(Seq<Seq<u8>>, int)>,
                Some((rest, e)) => Some((hviews(deps@) + rest, e)),
            },
        decreases n - d,
    {
        if nlen - cur < 32 {
            return Err(AutomergeError::EncodingError);
        }
        let h = copy_range(bytes, cur, cur + 32);
        let ghost prev = hviews(deps@);
        deps.push(ChangeHash { bytes: h });
        proof {
            assert(hviews(deps@) =~~= prev.push(bytes@.subrange(cur as int, cur + 32)));
            match read_hashes(bytes@, cur + 32, (n - d - 1) as nat) {
                None => {}
                Some((rest, e)) => {
                    assert(hviews(deps@) + rest =~= prev + (seq![bytes@.subrange(
                        cur as int,
                        cur + 32,
                    )] + rest));
                }
            }
        }
        cur = cur + 32;
        d = d + 1;
    }
    proof {
        assert(read_hashes(bytes@, cur as int, 0) == Some(
            (Seq::<Seq<u8>>::empty(), cur as int),
        ));
        assert(hviews(deps@) + Seq::<Seq<u8>>::empty() =~= hviews(deps@));
    }
    Ok((deps, cur))
}

/// Whether the wire order of the parsed hashes is strictly ascending.
fn deps_ascending_exec(deps: &Vec<ChangeHash>) -> (r: bool)
    ensures
        r == deps_ascending(hviews(deps@)),
{
    let mut d: usize = 1;
    while d < deps.len()
        invariant
            1 <= d,
            forall|k: int| 0 <= k < d - 1 && k < deps@.len() - 1 ==> bytes_lt(
                #[trigger] hviews(deps@)[k],
                hviews(deps@)[k + 1],
            ),
        decreases deps@.len() - d,
    {
        if !bytes_lt_exec(&deps[d - 1].bytes, &deps[d].bytes) {
            proof {
                assert(!bytes_lt(hviews(deps@)[d - 1], hviews(deps@)[d as int]));
            }
            return false;
        }
        d = d + 1;
    }
    true
}

/// Reads `n` length-prefixed actors.
fn read_actors_exec(bytes: &Vec<u8>, pos: usize, n: usize) -> (r: Result<
    (Vec<ActorId>, usize),
    AutomergeError,
>)
    requires
        pos <= bytes@.len(),
    ensures
        match r {
            Ok((v, p)) => {
                &&& read_actors(bytes@, pos as int, n as nat) == Some((aviews(v@), p as int))
                &&& pos <= p <= bytes@.len()
            },
            Err(e) => {
                &&& read_actors(bytes@, pos as int, n as nat) is None
                &&& e == AutomergeError::EncodingError
            },
        },
{
    let mut out: Vec<ActorId> = Vec::new();
    let mut cur = pos;
    let mut d: usize = 0;
    proof {
        assert(aviews(out@) =~= Seq::<Seq<u8>>::empty());
    }
    while d < n
        invariant
            d <= n,
            pos <= cur <= bytes@.len(),
            read_actors(bytes@, pos as int, n as nat) == match read_actors(
                bytes@,
                cur as int,
                (n - d) as nat,
            ) {
                None => None::<(Seq<Seq<u8>>, int)>,
                Some((rest, e)) => Some((aviews(out@) + rest, e)),
            },
        decreases n - d,
    {
        let (a, p2) = match crate::strcol::read_pref(bytes, cur) {
            Ok(p) => p,
            Err(e) => {
                return Err(e);
            }
        };
        let ghost prev = aviews(out@);
        let ghost av = a@;
        out.push(ActorId { bytes: a });
        proof {
            assert(aviews(out@) =~~= prev.push(av));
            match read_actors(bytes@, p2 as int, (n - d - 1) as nat) {
                None => {}
                Some((rest, e)) => {
                    assert(aviews(out@) + rest =~= prev + (seq![av] + rest));
                }
            }
        }
        cur = p2;
        d = d + 1;
    }
    proof {
        assert(read_actors(bytes@, cur as int, 0) == Some(
            (Seq::<Seq<u8>>::empty(), cur as int),
        ));
        assert(aviews(out@) + Seq::<Seq<u8>>::empty() =~= aviews(out@));
    }
    Ok((out, cur))
}

/// The id/length pairs a parse loop collects.
pub open spec fn dir_pairs(ids: Seq<u32>, lens: Seq<usize>) -> Seq<(u32, int)>
    decreases ids.len(),
{
    if ids.len() == 0 || lens.len() == 0 {
        Seq::empty()
    } else {
        seq![(ids[0], lens[0] as int)] + dir_pairs(ids.skip(1), lens.skip(1))
    }
}

proof fn lemma_dir_pairs_index(ids: Seq<u32>, lens: Seq<usize>)
    requires
        ids.len() == lens.len(),
    ensures
        dir_pairs(ids, lens).len() == ids.len(),
        forall|k: int| 0 <= k < ids.len() ==> #[trigger] dir_pairs(ids, lens)[k] == (
            ids[k],
            lens[k] as int,
        ),
    decreases ids.len(),
{
    if ids.len() > 0 {
        lemma_dir_pairs_index(ids.skip(1), lens.skip(1));
        assert(forall|k: int| 1 <= k < ids.len() ==> dir_pairs(ids, lens)[k] == #[trigger]
            dir_pairs(ids.skip(1), lens.skip(1))[k - 1]);
        assert(forall|k: int| 1 <= k < ids.len() ==> #[trigger] ids.skip(1)[k - 1] == ids[k]
            && lens.skip(1)[k - 1] == lens[k]);
    }
}

/// Reads the `n` directory entries at `pos`.
fn read_dir_exec(bytes: &Vec<u8>, pos: usize, n: usize) -> (r: Result<
    (Vec<u32>, Vec<usize>, usize),
    AutomergeError,
>)
    requires
        pos <= bytes@.len(),
    ensures
        match r {
            Ok((ids, lens, p)) => {
                &&& read_dir(bytes@, pos as int, n as nat, 0) == Some(
                    (dir_pairs(ids@, lens@), p as int),
                )
                &&& ids@.len() == n
                &&& lens@.len() == n
                &&& pos <= p <= bytes@.len()
            },
            Err(e) => {
                &&& read_dir(bytes@, pos as int, n as nat, 0) is None
                &&& e == AutomergeError::EncodingError
            },
        },
{
    let mut ids: Vec<u32> = Vec::new();
    let mut lens: Vec<usize> = Vec::new();
    let mut last: u32 = 0;
    let mut cur = pos;
    let mut d: usize = 0;
    while d < n
        invariant
            d <= n,
            pos <= cur <= bytes@.len(),
            ids@.len() == d,
            lens@.len() == d,
            read_dir(bytes@, pos as int, n as nat, 0) == match read_dir(
                bytes@,
                cur as int,
                (n - d) as nat,
                last as int,
            ) {
                None => None::<(Seq<(u32, int)>, int)>,
                Some((rest, e)) => Some((dir_pairs(ids@, lens@) + rest, e)),
            },
        decreases n - d,
    {
        let (id64, p2) = match crate::leb::read_uleb(bytes, cur) {
            Ok(p) => p,
            Err(e) => {
                return Err(e);
            }
        };
        if id64 <= (last as u64) || id64 > (u32::MAX as u64) {
            return Err(AutomergeError::EncodingError);
        }
        let (ln64, p3) = match crate::leb::read_uleb(bytes, p2) {
            Ok(p) => p,
            Err(e) => {
                return Err(e);
            }
        };
        if ln64 > (usize::MAX as u64) {
            return Err(AutomergeError::EncodingError);
        }
        let ghost prev_ids = ids@;
        let ghost prev_lens = lens@;
        ids.push(id64 as u32);
        lens.push(ln64 as usize);
        proof {
            lemma_dir_pairs_index(prev_ids, prev_lens);
            lemma_dir_pairs_index(ids@, lens@);
            match read_dir(bytes@, p3 as int, (n - d - 1) as nat, id64 as int) {
                None => {}
                Some((rest, e)) => {
                    assert(dir_pairs(ids@, lens@) + rest =~~= dir_pairs(prev_ids, prev_lens) + (
                    seq![(id64 as u32, ln64 as int)] + rest));
                }
            }
        }
        cur = p3;
        last = id64 as u32;
        d = d + 1;
    }
    proof {
        assert(read_dir(bytes@, cur as int, 0, last as int) == Some(
            (Seq::<(u32, int)>::empty(), cur as int),
        ));
        assert(dir_pairs(ids@, lens@) + Seq::<(u32, int)>::empty() =~= dir_pairs(ids@, lens@));
    }
    Ok((ids, lens, cur))
}

/// Contiguous payload ranges from `start` end where the directory total
/// says.
proof fn lemma_dir_total(d: Seq<ColRange>, pairs: Seq<(u32, int)>, start: int)
    requires
        dir_views(d) == pairs,
        d.len() > 0 ==> d[0].start == start,
        forall|k: int| 0 <= k < d.len() - 1 ==> (#[trigger] d[k]).end == d[k + 1].start,
        forall|k: int| 0 <= k < d.len() ==> (#[trigger] d[k]).start <= d[k].end,
    ensures
        d.len() > 0 ==> start + dir_total(pairs) == d[d.len() - 1].end,
        d.len() == 0 ==> dir_total(pairs) == 0,
    decreases d.len(),
{
    if d.len() > 0 {
        let dt = d.skip(1);
        assert(dir_views(dt) =~= pairs.skip(1));
        lemma_dir_total(dt, pairs.skip(1), d[0].end as int);
        assert(pairs[0].1 == d[0].end - d[0].start);
        if dt.len() > 0 {
            assert(dt[dt.len() - 1] == d[d.len() - 1]);
        }
    }
}

proof fn lemma_dir_total_split(pairs: Seq<(u32, int)>, d: int)
    requires
        0 <= d <= pairs.len(),
    ensures
        dir_total(pairs) == dir_total(pairs.take(d)) + dir_total(pairs.skip(d)),
    decreases d,
{
    if d == 0 {
        assert(pairs.take(0) =~= Seq::<(u32, int)>::empty());
        assert(pairs.skip(0) =~= pairs);
    } else {
        let t = pairs.skip(1);
        lemma_dir_total_split(t, d - 1);
        assert(t.take(d - 1) =~= pairs.take(d).skip(1));
        assert(t.skip(d - 1) =~= pairs.skip(d));
        assert(dir_total(pairs.take(d)) == pairs.take(d)[0].1 + dir_total(
            pairs.take(d).skip(1),
        ));
        assert(pairs.take(d)[0] == pairs[0]);
    }
}

proof fn lemma_dir_total_nonneg(pairs: Seq<(u32, int)>)
    requires
        forall|k: int| 0 <= k < pairs.len() ==> (#[trigger] pairs[k]).1 >= 0,
    ensures
        dir_total(pairs) >= 0,
    decreases pairs.len(),
{
    if pairs.len() > 0 {
        let t = pairs.skip(1);
        assert(forall|k: int| 0 <= k < t.len() ==> (#[trigger] t[k]) == pairs[k + 1]);
        lemma_dir_total_nonneg(t);
    }
}

/// Builds the contiguous payload ranges of a parsed directory from
/// `cs`, refusing payloads that overrun the chunk.
#[verifier::rlimit(100)]
fn build_ranges(n: usize, ids: &Vec<u32>, lens: &Vec<usize>, cs: usize) -> (r: Result<
    (Vec<ColRange>, usize),
    AutomergeError,
>)
    requires
        ids@.len() == lens@.len(),
        cs <= n,
    ensures
        ({
            let pairs = dir_pairs(ids@, lens@);
            match r {
                Ok((dir, off)) => {
                    &&& dir_views(dir@) == pairs
                    &&& off as int == cs + dir_total(pairs)
                    &&& cs <= off <= n
                    &&& dir@.len() == ids@.len()
                    &&& forall|k: int| 0 <= k < dir@.len() ==> (#[trigger] dir@[k]).start
                        <= dir@[k].end <= n
                    &&& forall|k: int| 0 <= k < dir@.len() - 1 ==> (#[trigger] dir@[k]).end
                        == dir@[k + 1].start
                    &&& dir@.len() > 0 ==> dir@[0].start == cs
                },
                Err(e) => {
                    &&& cs + dir_total(pairs) > n
                    &&& e == AutomergeError::EncodingError
                },
            }
        }),
{
    let ghost pairs = dir_pairs(ids@, lens@);
    proof {
        lemma_dir_pairs_index(ids@, lens@);
    }
    let ncols = ids.len();
    let mut dir: Vec<ColRange> = Vec::new();
    let mut off: usize = cs;
    let mut d: usize = 0;
    proof {
        assert(pairs.take(0) =~= Seq::<(u32, int)>::empty());
        assert(dir_views(dir@) =~= pairs.take(0));
    }
    while d < ncols
        invariant
            d <= ncols,
            ncols == ids@.len() && ncols == lens@.len(),
            cs <= off <= n,
            pairs == dir_pairs(ids@, lens@),
            pairs.len() == ncols,
            forall|k: int| 0 <= k < ncols ==> #[trigger] pairs[k] == (
                ids@[k],
                lens@[k] as int,
            ),
            dir@.len() == d,
            dir_views(dir@) == pairs.take(d as int),
            off as int == cs + dir_total(pairs.take(d as int)),
            forall|k: int| 0 <= k < d ==> (#[trigger] dir@[k]).start <= dir@[k].end <= n,
            forall|k: int| 0 <= k < d - 1 ==> (#[trigger] dir@[k]).end == dir@[k + 1].start,
            d > 0 ==> dir@[0].start == cs && dir@[d - 1].end == off,
            d == 0 ==> off == cs,
        decreases ncols - d,
    {
        let ln = lens[d];
        if ln > n - off {
            proof {
                // the payloads overrun the chunk: the directory total does too
                lemma_dir_total_split(pairs, d as int);
                assert(dir_total(pairs.skip(d as int)) >= pairs[d as int].1) by {
                    let t = pairs.skip(d as int);
                    assert(t[0] == pairs[d as int]);
                    let t2 = t.skip(1);
                    assert(forall|k: int| 0 <= k < t2.len() ==> (#[trigger] t2[k]) == pairs[
                        d + 1 + k
                    ]);
                    lemma_dir_total_nonneg(t2);
                }
            }
            return Err(AutomergeError::EncodingError);
        }
        dir.push(ColRange { col: ids[d], start: off, end: off + ln });
        proof {
            assert(dir_views(dir@) =~~= pairs.take(d as int).push(pairs[d as int]));
            assert(pairs.take(d as int).push(pairs[d as int]) =~~= pairs.take(d as int + 1));
            lemma_dir_total_split(pairs.take(d as int + 1), d as int);
            assert(pairs.take(d as int + 1).take(d as int) =~= pairs.take(d as int));
            assert(pairs.take(d as int + 1).skip(d as int) =~= seq![pairs[d as int]]);
            assert(dir_total(seq![pairs[d as int]]) == pairs[d as int].1) by {
                assert(seq![pairs[d as int]].skip(1) =~= Seq::<(u32, int)>::empty());
                assert(dir_total(Seq::<(u32, int)>::empty()) == 0);
                assert(seq![pairs[d as int]][0] == pairs[d as int]);
            }
        }
        off = off + ln;
        d = d + 1;
    }
    proof {
        assert(pairs.take(d as int) =~= pairs);
    }
    Ok((dir, off))
}

/// Decodes every operation column of a parsed directory and assembles the
/// operations, exactly as `ops_of` says.
#[verifier::rlimit(100)]
fn decode_ops_block(
    bytes: &Vec<u8>,
    dir: &Vec<ColRange>,
    actors: &Vec<ActorId>,
    Ghost(pairs): Ghost<Seq<(u32, int)>>,
    cs: usize,
) -> (r: Result<Vec<Op>, AutomergeError>)
    requires
        dir_views(dir@) == pairs,
        forall|k: int| 0 <= k < dir@.len() ==> (#[trigger] dir@[k]).start <= dir@[k].end
            <= bytes@.len(),
        forall|k: int| 0 <= k < dir@.len() - 1 ==> (#[trigger] dir@[k]).end == dir@[
            k + 1
        ].start,
        dir@.len() > 0 ==> dir@[0].start == cs,
    ensures
        match r {
            Ok(ops) => ops_of(bytes@, pairs, cs as int, aviews(actors@)) == Some(
                ops_views(ops@),
            ),
            Err(e) => {
                &&& ops_of(bytes@, pairs, cs as int, aviews(actors@)) is None
                &&& e == AutomergeError::EncodingError
            },
        },
{
    let ghost s = bytes@;
    proof {
        reveal(ops_of);
        assert forall|id: u32| col_lookup(s, dir@, id) == col_bytes_dir(
            s,
            pairs,
            cs as int,
            id,
        ) by {
            if dir@.len() == 0 {
                assert(pairs =~= Seq::<(u32, int)>::empty());
            } else {
                assert(dir@[0].start == cs);
            }
        }
    }
    let streams = OpStreams {
        action: match crate::encoding::rle_u_decode(
            &col_iter(bytes, dir, crate::columnar::COL_ACTION),
        ) {
            Ok(v) => v,
            Err(e) => {
                return Err(e);
            }
        },
        insert: match crate::boolcol::bool_decode(
            &col_iter(bytes, dir, crate::columnar::COL_INSERT),
        ) {
            Ok(v) => v,
            Err(e) => {
                return Err(e);
            }
        },
        oa: match crate::encoding::rle_u_decode(
            &col_iter(bytes, dir, crate::columnar::COL_OBJ_ACTOR),
        ) {
            Ok(v) => v,
            Err(e) => {
                return Err(e);
            }
        },
        oc: match crate::encoding::rle_u_decode(
            &col_iter(bytes, dir, crate::columnar::COL_OBJ_CTR),
        ) {
            Ok(v) => v,
            Err(e) => {
                return Err(e);
            }
        },
        ka: match crate::encoding::rle_u_decode(
            &col_iter(bytes, dir, crate::columnar::COL_KEY_ACTOR),
        ) {
            Ok(v) => v,
            Err(e) => {
                return Err(e);
            }
        },
        kc: match crate::delta::delta_decode(
            &col_iter(bytes, dir, crate::columnar::COL_KEY_CTR),
        ) {
            Ok(v) => v,
            Err(e) => {
                return Err(e);
            }
        },
        ks: match crate::strcol::rle_s_decode(
            &col_iter(bytes, dir, crate::columnar::COL_KEY_STR),
        ) {
            Ok(v) => v,
            Err(e) => {
                return Err(e);
            }
        },
        vl: match crate::encoding::rle_u_decode(
            &col_iter(bytes, dir, crate::columnar::COL_VAL_LEN),
        ) {
            Ok(v) => v,
            Err(e) => {
                return Err(e);
            }
        },
        vraw: col_iter(bytes, dir, crate::columnar::COL_VAL_RAW),
        ra: match crate::encoding::rle_u_decode(
            &col_iter(bytes, dir, crate::columnar::COL_REF_ACTOR),
        ) {
            Ok(v) => v,
            Err(e) => {
                return Err(e);
            }
        },
        rc: match crate::encoding::rle_u_decode(
            &col_iter(bytes, dir, crate::columnar::COL_REF_CTR),
        ) {
            Ok(v) => v,
            Err(e) => {
                return Err(e);
            }
        },
        pn: match crate::encoding::rle_u_decode(
            &col_iter(bytes, dir, crate::columnar::COL_PRED_NUM),
        ) {
            Ok(v) => v,
            Err(e) => {
                return Err(e);
            }
        },
        pa: match crate::encoding::rle_u_decode(
            &col_iter(bytes, dir, crate::columnar::COL_PRED_ACTOR),
        ) {
            Ok(v) => v,
            Err(e) => {
                return Err(e);
            }
        },
        pc: match crate::delta::delta_decode(
            &col_iter(bytes, dir, crate::columnar::COL_PRED_CTR),
        ) {
            Ok(v) => v,
            Err(e) => {
                return Err(e);
            }
        },
    };
    let ops_list = match assemble_ops(&streams, actors) {
        Ok(v) => v,
        Err(e) => {
            return Err(e);
        }
    };
    proof {
        assert(streams.view_with(aviews(actors@)) =~~= Streams {
            action: streams.action@,
            insert: streams.insert@,
            oa: streams.oa@,
            oc: streams.oc@,
            ka: streams.ka@,
            kc: streams.kc@,
            ks: crate::strcol::sviews(streams.ks@),
            vl: streams.vl@,
            vraw: streams.vraw@,
            ra: streams.ra@,
            rc: streams.rc@,
            pn: streams.pn@,
            pa: streams.pa@,
            pc: streams.pc@,
            table: aviews(actors@),
        });
    }
    Ok(ops_list)
}

/// The decoded header of a change body.
pub struct HdrExec {
    pub deps: Vec<ChangeHash>,
    pub actor: Vec<u8>,
    pub seq: u64,
    pub start_op: u64,
    pub time: i64,
    pub message: Vec<u8>,
    pub extras: Vec<ActorId>,
    pub end: usize,
}

impl HdrExec {
    /// The spec image of this header.
    pub open spec fn view_parts(&self) -> HdrParts {
        HdrParts {
            deps: hviews(self.deps@),
            actor: self.actor@,
            seq: self.seq,
            start_op: self.start_op,
            time: self.time,
            message: self.message@,
            extras: aviews(self.extras@),
        }
    }
}

/// Reads the scalar header of a change body at `pos`, exactly as
/// `hdr_parse` says.
#[verifier::rlimit(100)]
fn parse_header(bytes: &Vec<u8>, pos: usize) -> (r: Result<HdrExec, AutomergeError>)
    requires
        pos <= bytes@.len(),
    ensures
        match r {
            Ok(h) => {
                &&& hdr_parse(bytes@, pos as int) == Some((h.view_parts(), h.end as int))
                &&& h.end <= bytes@.len()
                &&& forall|k: int| 0 <= k < h.deps@.len() ==> (#[trigger] h.deps@[k]).valid()
            },
            Err(e) => {
                &&& hdr_parse(bytes@, pos as int) is None
                &&& e == AutomergeError::EncodingError
            },
        },
{
    proof {
        reveal(hdr_parse);
    }
    let (ndeps64, p_nd) = match crate::leb::read_uleb(bytes, pos) {
        Ok(p) => p,
        Err(e) => {
            return Err(e);
        }
    };
    if ndeps64 > (usize::MAX as u64) {
        return Err(AutomergeError::EncodingError);
    }
    let (deps, p1) = match read_hashes_exec(bytes, p_nd, ndeps64 as usize) {
        Ok(p) => p,
        Err(e) => {
            return Err(e);
        }
    };
    if !deps_ascending_exec(&deps) {
        return Err(AutomergeError::EncodingError);
    }
    let (actor, p_a) = match crate::strcol::read_pref(bytes, p1) {
        Ok(p) => p,
        Err(e) => {
            return Err(e);
        }
    };
    let (seqv, p_s) = match crate::leb::read_uleb(bytes, p_a) {
        Ok(p) => p,
        Err(e) => {
            return Err(e);
        }
    };
    let (start_op, p_o) = match crate::leb::read_uleb(bytes, p_s) {
        Ok(p) => p,
        Err(e) => {
            return Err(e);
        }
    };
    let (time, p_t) = match crate::leb::read_sleb(bytes, p_o) {
        Ok(p) => p,
        Err(e) => {
            return Err(e);
        }
    };
    let (message, p_m) = match crate::strcol::read_pref(bytes, p_t) {
        Ok(p) => p,
        Err(e) => {
            return Err(e);
        }
    };
    let (nact64, p_na) = match crate::leb::read_uleb(bytes, p_m) {
        Ok(p) => p,
        Err(e) => {
            return Err(e);
        }
    };
    if nact64 > (usize::MAX as u64) {
        return Err(AutomergeError::EncodingError);
    }
    let (extras, p_hdr) = match read_actors_exec(bytes, p_na, nact64 as usize) {
        Ok(p) => p,
        Err(e) => {
            return Err(e);
        }
    };
    Ok(HdrExec { deps, actor, seq: seqv, start_op, time, message, extras, end: p_hdr })
}

/// The actor table of a change: its own actor at index zero, then the
/// extra actors in wire order.
fn table_with_own(actor: Vec<u8>, extras: &Vec<ActorId>) -> (r: Vec<ActorId>)
    ensures
        aviews(r@) == seq![actor@] + aviews(extras@),
        r@.len() == extras@.len() + 1,
{
    let ghost av = actor@;
    let mut actors: Vec<ActorId> = Vec::new();
    actors.push(ActorId { bytes: actor });
    let mut d: usize = 0;
    let ghost exv = aviews(extras@);
    proof {
        assert(aviews(actors@) =~~= seq![av] + exv.take(0));
    }
    while d < extras.len()
        invariant
            d <= extras@.len(),
            exv == aviews(extras@),
            actors@.len() == d + 1,
            aviews(actors@) == seq![av] + exv.take(d as int),
        decreases extras@.len() - d,
    {
        let ghost prev = aviews(actors@);
        actors.push(ActorId { bytes: clone_bytes(&extras[d].bytes) });
        proof {
            assert(aviews(actors@) =~~= prev.push(exv[d as int]));
            assert(prev.push(exv[d as int]) =~~= seq![av] + exv.take(d as int + 1));
        }
        d = d + 1;
    }
    proof {
        assert(exv.take(extras@.len() as int) =~= exv);
    }
    actors
}

/// An executable value cell.
pub enum ValCell {
    Plain(ScalarValue),
    Mark,
}

pub open spec fn cell_view(c: ValCell) -> VCell {
    match c {
        ValCell::Plain(v) => VCell::Plain(crate::types::val_view(v)),
        ValCell::Mark => VCell::Mark,
    }
}

/// Parses one value-column entry against the raw pool, dispatching on the
/// four-bit type tag and checking the declared payload length.
pub fn val_parse_exec(vl: u64, raw: &Vec<u8>, rcur: usize) -> (r: Result<
    (ValCell, usize),
    AutomergeError,
>)
    requires
        rcur <= raw@.len(),
    ensures
        match r {
            Ok((cell, rc2)) => {
                &&& val_parse(vl, raw@, rcur as int) == Some((cell_view(cell), rc2 as int))
                &&& rcur <= rc2 <= raw@.len()
            },
            Err(e) => {
                &&& val_parse(vl, raw@, rcur as int) is None
                &&& e == AutomergeError::EncodingError
            },
        },
{
    let tag = vl % 16;
    let ln64 = vl / 16;
    let rl = raw.len();
    if tag == 0 || tag == 1 || tag == 2 || tag == 10 {
        if ln64 == 0 {
            if tag == 0 {
                Ok((ValCell::Plain(ScalarValue::Null), rcur))
            } else if tag == 1 {
                Ok((ValCell::Plain(ScalarValue::Boolean(false)), rcur))
            } else if tag == 2 {
                Ok((ValCell::Plain(ScalarValue::Boolean(true)), rcur))
            } else {
                Ok((ValCell::Mark, rcur))
            }
        } else {
            Err(AutomergeError::EncodingError)
        }
    } else if tag == 3 {
        match crate::leb::read_uleb(raw, rcur) {
            Ok((v, p)) => {
                if (p - rcur) as u64 == ln64 {
                    Ok((ValCell::Plain(ScalarValue::Uint(v)), p))
                } else {
                    Err(AutomergeError::EncodingError)
                }
            }
            Err(e) => Err(e),
        }
    } else if tag == 4 || tag == 8 || tag == 9 {
        match crate::leb::read_sleb(raw, rcur) {
            Ok((v, p)) => {
                if (p - rcur) as u64 == ln64 {
                    let cell = if tag == 4 {
                        ScalarValue::Int(v)
                    } else if tag == 8 {
                        ScalarValue::Counter(v)
                    } else {
                        ScalarValue::Timestamp(v)
                    };
                    Ok((ValCell::Plain(cell), p))
                } else {
                    Err(AutomergeError::EncodingError)
                }
            }
            Err(e) => Err(e),
        }
    } else if tag == 5 {
        if ln64 == 4 && rcur <= rl && rl - rcur >= 4 {
            let b0 = raw[rcur] as u32;
            let b1 = raw[rcur + 1] as u32;
            let b2 = raw[rcur + 2] as u32;
            let b3 = raw[rcur + 3] as u32;
            let bits: u32 = b0 + b1 * 256 + b2 * 0x10000 + (b3 as u64 * 0x1000000) as u32;
            proof {
                assert(b3 * 0x1000000 <= 0xff00_0000);
                assert(b0 + b1 * 256 + b2 * 0x10000 + b3 * 0x1000000 <= 0xffff_ffff);
            }
            Ok((ValCell::Plain(ScalarValue::F32(bits)), rcur + 4))
        } else if ln64 == 8 && rcur <= rl && rl - rcur >= 8 {
            let b0 = raw[rcur] as u64;
            let b1 = raw[rcur + 1] as u64;
            let b2 = raw[rcur + 2] as u64;
            let b3 = raw[rcur + 3] as u64;
            let b4 = raw[rcur + 4] as u64;
            let b5 = raw[rcur + 5] as u64;
            let b6 = raw[rcur + 6] as u64;
            let b7 = raw[rcur + 7] as u64;
            proof {
                assert(b7 * 0x100_0000_0000_0000 <= 0xff00_0000_0000_0000);
            }
            let bits: u64 = b0 + b1 * 256 + b2 * 0x10000 + b3 * 0x1000000 + b4 * 0x1_0000_0000
                + b5 * 0x100_0000_0000 + b6 * 0x1_0000_0000_0000 + b7 * 0x100_0000_0000_0000;
            Ok((ValCell::Plain(ScalarValue::F64(bits)), rcur + 8))
        } else {
            Err(AutomergeError::EncodingError)
        }
    } else {
        if ln64 <= (usize::MAX as u64) && rcur <= rl && (rl - rcur) as u64 >= ln64 {
            let ln = ln64 as usize;
            let data = copy_range(raw, rcur, rcur + ln);
            if tag == 6 {
                Ok((ValCell::Plain(ScalarValue::Str(data)), rcur + ln))
            } else if tag == 7 {
                Ok((ValCell::Plain(ScalarValue::Bytes(data)), rcur + ln))
            } else {
                Ok((ValCell::Plain(ScalarValue::Unknown(tag as u8, data)), rcur + ln))
            }
        } else {
            proof {
                assert(rcur + vl / 16 > raw@.len());
            }
            Err(AutomergeError::EncodingError)
        }
    }
}

/// Padded access to an unsigned column.
pub(crate) fn cat_u(v: &Vec<Option<u64>>, i: usize) -> (r: Option<u64>)
    ensures
        r == crate::encoding::col_at(v@, i as int),
{
    if i < v.len() {
        v[i]
    } else {
        None
    }
}

/// Padded access to a boolean column.
pub(crate) fn cat_b(v: &Vec<bool>, i: usize) -> (r: bool)
    ensures
        r == crate::boolcol::bool_at(v@, i as int),
{
    if i < v.len() {
        v[i]
    } else {
        false
    }
}

/// Padded access to a string column.
pub(crate) fn cat_s(v: &Vec<Option<Vec<u8>>>, i: usize) -> (r: Option<Vec<u8>>)
    ensures
        match r {
            Some(b) => crate::strcol::scol_at(crate::strcol::sviews(v@), i as int)
                == Some(b@),
            None => crate::strcol::scol_at(crate::strcol::sviews(v@), i as int) is None,
        },
{
    if i < v.len() {
        match &v[i] {
            Some(b) => {
                proof {
                    assert(crate::strcol::sviews(v@)[i as int] == Some(v@[i as int].unwrap()@));
                }
                Some(clone_bytes(b))
            }
            None => {
                proof {
                    assert(crate::strcol::sviews(v@)[i as int] is None);
                }
                None
            }
        }
    } else {
        None
    }
}

/// The decoded operation columns, ready for assembly.
pub struct OpStreams {
    pub action: Vec<Option<u64>>,
    pub insert: Vec<bool>,
    pub oa: Vec<Option<u64>>,
    pub oc: Vec<Option<u64>>,
    pub ka: Vec<Option<u64>>,
    pub kc: Vec<Option<u64>>,
    pub ks: Vec<Option<Vec<u8>>>,
    pub vl: Vec<Option<u64>>,
    pub vraw: Vec<u8>,
    pub ra: Vec<Option<u64>>,
    pub rc: Vec<Option<u64>>,
    pub pn: Vec<Option<u64>>,
    pub pa: Vec<Option<u64>>,
    pub pc: Vec<Option<u64>>,
}

impl OpStreams {
    /// The spec image of the streams against an actor table.
    pub open spec fn view_with(&self, table: Seq<Seq<u8>>) -> Streams {
        Streams {
            action: self.action@,
            insert: self.insert@,
            oa: self.oa@,
            oc: self.oc@,
            ka: self.ka@,
            kc: self.kc@,
            ks: crate::strcol::sviews(self.ks@),
            vl: self.vl@,
            vraw: self.vraw@,
            ra: self.ra@,
            rc: self.rc@,
            pn: self.pn@,
            pa: self.pa@,
            pc: self.pc@,
            table,
        }
    }
}

/// Looks an actor index up in the table, as a fresh `ActorId`.
pub(crate) fn table_actor(actors: &Vec<ActorId>, a: u64) -> (r: Result<ActorId, AutomergeError>)
    ensures
        match r {
            Ok(x) => a < aviews(actors@).len() && x.bytes@ == aviews(actors@)[a as int],
            Err(e) => {
                &&& a >= aviews(actors@).len()
                &&& e == AutomergeError::EncodingError
            },
        },
{
    if a < actors.len() as u64 {
        let i = a as usize;
        Ok(ActorId { bytes: clone_bytes(&actors[i].bytes) })
    } else {
        Err(AutomergeError::EncodingError)
    }
}

/// Reads one operation's predecessor identifiers from the group streams.
fn read_preds(streams: &OpStreams, actors: &Vec<ActorId>, pcur: usize, m64: u64) -> (r: Result<
    (Vec<OpId>, usize),
    AutomergeError,
>)
    ensures
        ({
            let st = streams.view_with(aviews(actors@));
            match r {
                Ok((pred, pc2)) => {
                    &&& asm_preds(st, pcur as int, m64 as nat) == Some(
                        (pred@.map_values(|p: OpId| opid_view(p)), pc2 as int),
                    )
                    &&& pcur <= pc2
                },
                Err(e) => {
                    &&& asm_preds(st, pcur as int, m64 as nat) is None
                    &&& e == AutomergeError::EncodingError
                },
            }
        }),
{
    let ghost st = streams.view_with(aviews(actors@));
    let mut pred: Vec<OpId> = Vec::new();
    let mut pc: usize = pcur;
    let mut c2: u64 = 0;
    let pal = streams.pa.len();
    proof {
        assert(pred@.map_values(|p: OpId| opid_view(p)) =~= Seq::<crate::types::VOpId>::empty());
    }
    while c2 < m64
        invariant
            c2 <= m64,
            pcur <= pc,
            pal == st.pa.len(),
            st == streams.view_with(aviews(actors@)),
            asm_preds(st, pcur as int, m64 as nat) == match asm_preds(
                st,
                pc as int,
                (m64 - c2) as nat,
            ) {
                None => None::<(Seq<crate::types::VOpId>, int)>,
                Some((rest, e)) => Some(
                    (pred@.map_values(|p: OpId| opid_view(p)) + rest, e),
                ),
            },
        decreases m64 - c2,
    {
        match (cat_u(&streams.pa, pc), cat_u(&streams.pc, pc)) {
            (Some(a), Some(c)) => {
                let actor = match table_actor(actors, a) {
                    Ok(x) => x,
                    Err(e) => {
                        return Err(e);
                    }
                };
                let ghost prev = pred@.map_values(|p: OpId| opid_view(p));
                pred.push(OpId { ctr: c, actor });
                proof {
                    assert(pred@.map_values(|p: OpId| opid_view(p)) =~~= prev.push(
                        crate::types::VOpId { ctr: c, actor: st.table[a as int] },
                    ));
                }
                if pc == usize::MAX {
                    proof {
                        assert(crate::encoding::col_at(st.pa, pc as int + 1) is None);
                    }
                    return Err(AutomergeError::EncodingError);
                }
                pc = pc + 1;
            }
            _ => {
                return Err(AutomergeError::EncodingError);
            }
        }
        c2 = c2 + 1;
    }
    proof {
        assert(asm_preds(st, pc as int, 0) == Some(
            (Seq::<crate::types::VOpId>::empty(), pc as int),
        ));
        assert(pred@.map_values(|p: OpId| opid_view(p)) + Seq::<crate::types::VOpId>::empty()
            =~= pred@.map_values(|p: OpId| opid_view(p)));
    }
    Ok((pred, pc))
}

/// Assembles the operations of a change from its decoded columns: one
/// operation per action entry, with the assembly rules of the format.
#[verifier::rlimit(100)]
pub fn assemble_ops(streams: &OpStreams, actors: &Vec<ActorId>) -> (r: Result<
    Vec<Op>,
    AutomergeError,
>)
    ensures
        ({
            let st = streams.view_with(aviews(actors@));
            match r {
                Ok(ops) => asm_ops(st, 0, 0, 0) == Some(ops_views(ops@)),
                Err(e) => {
                    &&& asm_ops(st, 0, 0, 0) is None
                    &&& e == AutomergeError::EncodingError
                },
            }
        }),
{
    let ghost st = streams.view_with(aviews(actors@));
    let n = streams.action.len();
    let mut out: Vec<Op> = Vec::new();
    let mut i: usize = 0;
    let mut pcur: usize = 0;
    let mut rcur: usize = 0;
    proof {
        assert(ops_views(out@) =~= Seq::<VOp>::empty());
    }
    while i < n
        invariant
            i <= n == st.action.len(),
            st == streams.view_with(aviews(actors@)),
            rcur <= streams.vraw@.len(),
            asm_ops(st, 0, 0, 0) == match asm_ops(st, i as nat, pcur as int, rcur as int) {
                None => None::<Seq<VOp>>,
                Some(rest) => Some(ops_views(out@) + rest),
            },
        decreases n - i,
    {
        let ghost pcur0 = pcur as int;
        let ghost rcur0 = rcur as int;
        let code = match cat_u(&streams.action, i) {
            Some(c) => c,
            None => {
                return Err(AutomergeError::EncodingError);
            }
        };
        let insert = cat_b(&streams.insert, i);
        let obj = match (cat_u(&streams.oa, i), cat_u(&streams.oc, i)) {
            (Some(a), Some(c)) => {
                let actor = match table_actor(actors, a) {
                    Ok(x) => x,
                    Err(e) => {
                        return Err(e);
                    }
                };
                ObjectId::Id(OpId { ctr: c, actor })
            }
            (None, None) => ObjectId::Root,
            _ => {
                return Err(AutomergeError::EncodingError);
            }
        };
        let key = match (cat_u(&streams.ka, i), cat_u(&streams.kc, i), cat_s(&streams.ks, i)) {
            (None, None, Some(sv)) => Key::MapKey(sv),
            (None, Some(c), None) => {
                if c == 0 {
                    Key::Head
                } else {
                    return Err(AutomergeError::EncodingError);
                }
            }
            (Some(a), Some(c), None) => {
                let actor = match table_actor(actors, a) {
                    Ok(x) => x,
                    Err(e) => {
                        return Err(e);
                    }
                };
                Key::Elem(OpId { ctr: c, actor })
            }
            _ => {
                return Err(AutomergeError::EncodingError);
            }
        };
        let refid = match (cat_u(&streams.ra, i), cat_u(&streams.rc, i)) {
            (Some(a), Some(c)) => {
                let actor = match table_actor(actors, a) {
                    Ok(x) => x,
                    Err(e) => {
                        return Err(e);
                    }
                };
                Some(OpId { ctr: c, actor })
            }
            (None, None) => None,
            _ => {
                return Err(AutomergeError::EncodingError);
            }
        };
        let ghost refv: Option<crate::types::VOpId> = match &refid {
            None => None,
            Some(id) => Some(opid_view(*id)),
        };
        let m64 = match cat_u(&streams.pn, i) {
            Some(m) => m,
            None => {
                return Err(AutomergeError::EncodingError);
            }
        };
        let (pred, pc2) = match read_preds(streams, actors, pcur, m64) {
            Ok(p) => p,
            Err(e) => {
                return Err(e);
            }
        };
        let vl_i = match cat_u(&streams.vl, i) {
            Some(v) => v,
            None => {
                return Err(AutomergeError::EncodingError);
            }
        };
        let (cell, rcur2) = match val_parse_exec(vl_i, &streams.vraw, rcur) {
            Ok(p) => p,
            Err(e) => {
                return Err(e);
            }
        };
        let ghost cellv = cell_view(cell);
        let action: OpType = if code == 1 {
            match (cell, &refid) {
                (ValCell::Mark, Some(id)) => OpType::Put(ScalarValue::Cursor(clone_opid(id))),
                (ValCell::Plain(v), None) => OpType::Put(v),
                _ => {
                    return Err(AutomergeError::EncodingError);
                }
            }
        } else if refid.is_some() {
            return Err(AutomergeError::EncodingError);
        } else if code == 5 {
            match cell {
                ValCell::Plain(ScalarValue::Int(nv)) => OpType::Inc(nv),
                _ => {
                    return Err(AutomergeError::EncodingError);
                }
            }
        } else {
            match cell {
                ValCell::Plain(ScalarValue::Null) => {
                    if code == 0 {
                        OpType::MakeMap
                    } else if code == 2 {
                        OpType::MakeList
                    } else if code == 3 {
                        OpType::Del
                    } else if code == 4 {
                        OpType::MakeText
                    } else if code == 6 {
                        OpType::MakeTable
                    } else {
                        return Err(AutomergeError::EncodingError);
                    }
                }
                _ => {
                    return Err(AutomergeError::EncodingError);
                }
            }
        };
        proof {
            assert(asm_act(code, cellv, refv) == Some(crate::types::act_view(action)));
        }
        let ghost prevops = ops_views(out@);
        let op = Op { action, obj, key, insert, pred };
        out.push(op);
        proof {
            let stepped = asm_ops(st, i as nat + 1, pc2 as int, rcur2 as int);
            assert(asm_ops(st, i as nat, pcur0, rcur0) == match stepped {
                None => None::<Seq<VOp>>,
                Some(rest) => Some(seq![op_view(op)] + rest),
            }) by {
                assert(op_view(op).pred =~~= op.pred@.map_values(|p: OpId| opid_view(p)));
            }
            assert(ops_views(out@) =~= prevops.push(op_view(op)));
            match stepped {
                None => {}
                Some(rest) => {
                    assert(prevops + (seq![op_view(op)] + rest) =~= ops_views(out@) + rest);
                }
            }
        }
        pcur = pc2;
        rcur = rcur2;
        i = i + 1;
    }
    proof {
        assert(asm_ops(st, i as nat, pcur as int, rcur as int) == Some(Seq::<VOp>::empty()));
        assert(ops_views(out@) + Seq::<VOp>::empty() =~= ops_views(out@));
    }
    Ok(out)
}

// ------------------------------------------------------------------
// Splitting a stream into framed chunks
// ------------------------------------------------------------------

/// Where the chunk that starts at `pos` ends, if its length field can be
/// read and stays within the buffer.
pub open spec fn chunk_end_at(s: Seq<u8>, pos: int) -> Option<int> {
    if !(0 <= pos) || s.len() - pos <= 9 {
        None
    } else {
        match crate::leb::uleb_read_spec(s.skip(pos + 9)) {
            None => None,
            Some((bl, k)) => if 1 <= k && pos + 9 + k + bl <= s.len() {
                Some(pos + 9 + k + bl)
            } else {
                None
            },
        }
    }
}

/// Whether the buffer from `pos` on splits entirely into well-formed
/// change chunks.
pub open spec fn chunks_ok(s: Seq<u8>, pos: int) -> bool
    decreases s.len() - pos,
{
    if pos == s.len() {
        true
    } else {
        match chunk_end_at(s, pos) {
            None => false,
            Some(e) => if pos < e <= s.len() {
                change_ok(s.subrange(pos, e)) && chunks_ok(s, e)
            } else {
                false
            },
        }
    }
}

/// The changes `v` are exactly the chunks of `s` between `p0` and `p1`, in
/// order, each carrying its own slice.
pub open spec fn chunks_seg(s: Seq<u8>, p0: int, p1: int, v: Seq<Change>) -> bool
    decreases v.len(),
{
    if v.len() == 0 {
        p0 == p1
    } else {
        match chunk_end_at(s, p0) {
            None => false,
            Some(e) => {
                &&& p0 < e <= s.len()
                &&& e <= p1
                &&& v[0].bytes@ == s.subrange(p0, e)
                &&& change_wf(v[0], s.subrange(p0, e))
                &&& chunks_seg(s, e, p1, v.skip(1))
            },
        }
    }
}

proof fn lemma_chunks_seg_push(s: Seq<u8>, p0: int, p1: int, v: Seq<Change>, ch: Change, e: int)
    requires
        chunks_seg(s, p0, p1, v),
        p0 <= p1,
        chunk_end_at(s, p1) == Some(e),
        p1 < e <= s.len(),
        ch.bytes@ == s.subrange(p1, e),
        change_wf(ch, s.subrange(p1, e)),
    ensures
        chunks_seg(s, p0, e, v.push(ch)),
    decreases v.len(),
{
    if v.len() == 0 {
        assert(v.push(ch) =~= seq![ch]);
        assert(seq![ch].skip(1) =~= Seq::<Change>::empty());
        assert(chunks_seg(s, e, e, Seq::<Change>::empty()));
    } else {
        let e0 = chunk_end_at(s, p0).unwrap();
        lemma_chunks_seg_push(s, e0, p1, v.skip(1), ch, e);
        assert(v.push(ch).skip(1) =~= v.skip(1).push(ch));
        assert(v.push(ch)[0] == v[0]);
    }
}

impl Change {
    /// The change's own actor: index zero of its actor table.
    pub fn actor_id(&self) -> (r: &ActorId)
        requires
            self.actors@.len() > 0,
        ensures
            r == self.actors@[0],
    {
        &self.actors[0]
    }

    /// Parses one framed chunk into a change: framing, header, directory and
    /// every operation column are validated here; failures are fatal for the
    /// chunk. Succeeds exactly on a well-formed chunk, and every field of
    /// the result is the spec-level parse of the bytes.
    #[verifier::rlimit(100)]
    pub fn from_bytes(bytes: Vec<u8>) -> (r: Result<Change, AutomergeError>)
        ensures
            r is Ok <==> change_ok(bytes@),
            match r {
                Ok(ch) => change_wf(ch, bytes@),
                Err(e) => e == AutomergeError::EncodingError,
            },
    {
        let ghost s = bytes@;
        let n = bytes.len();
        if n <= HEADER_BYTES {
            return Err(AutomergeError::EncodingError);
        }
        if !(bytes[0] == 0x85 && bytes[1] == 0x6f && bytes[2] == 0x4a && bytes[3] == 0x83) {
            proof {
                assert(s.take(4) != magic());
            }
            return Err(AutomergeError::EncodingError);
        }
        proof {
            assert(s.take(4) =~= magic());
        }
        let (blen, bstart) = match crate::leb::read_uleb(&bytes, HEADER_BYTES) {
            Ok(p) => p,
            Err(e) => {
                return Err(e);
            }
        };
        if blen > (usize::MAX as u64) || (blen as usize) > n - bstart || bstart + (blen as usize)
            != n {
            return Err(AutomergeError::EncodingError);
        }
        if bytes[PREAMBLE_BYTES] != CHUNK_TYPE_CHANGE {
            return Err(AutomergeError::EncodingError);
        }
        proof {
            assert(frame_ok(s));
            assert(body_start_of(s) == bstart as int);
        }
        // the change hash: the digest of chunk type, length prefix and body
        let tail = copy_range(&bytes, PREAMBLE_BYTES, n);
        let digest = sha256(&tail);
        // header
        let hdr = match parse_header(&bytes, bstart) {
            Ok(h) => h,
            Err(e) => {
                return Err(e);
            }
        };
        let ghost hp = hdr.view_parts();
        let p_hdr = hdr.end;
        let deps = hdr.deps;
        let message = hdr.message;
        let seqv = hdr.seq;
        let start_op = hdr.start_op;
        let time = hdr.time;
        let actor_bytes = hdr.actor;
        let extras = hdr.extras;
        proof {
            assert(hdr_parse(s, bstart as int) == Some((hp, p_hdr as int)));
        }
        // the change's actor table: its own actor, then the extras
        let actors = table_with_own(actor_bytes, &extras);
        // directory
        let (ncols64, p_nc) = match crate::leb::read_uleb(&bytes, p_hdr) {
            Ok(p) => p,
            Err(e) => {
                return Err(e);
            }
        };
        if ncols64 > (usize::MAX as u64) {
            return Err(AutomergeError::EncodingError);
        }
        let (ids, lens, cs) = match read_dir_exec(&bytes, p_nc, ncols64 as usize) {
            Ok(p) => p,
            Err(e) => {
                return Err(e);
            }
        };
        let ghost pairs = dir_pairs(ids@, lens@);
        let (dir, off) = match build_ranges(n, &ids, &lens, cs) {
            Ok(p) => p,
            Err(e) => {
                return Err(e);
            }
        };
        proof {
            assert(dir_parse(s, p_hdr as int) == Some((pairs, cs as int)));
        }
        let extra = copy_range(&bytes, off, n);
        // decode every operation column and assemble
        let ops_list = match decode_ops_block(&bytes, &dir, &actors, Ghost(pairs), cs) {
            Ok(v) => v,
            Err(e) => {
                return Err(e);
            }
        };
        proof {
            assert(ops_of(s, pairs, cs as int, seq![hp.actor] + hp.extras) == Some(
                ops_views(ops_list@),
            ));
            assert(change_ok(s));
        }
        let ch = Change {
            hash: ChangeHash { bytes: digest },
            seq: seqv,
            start_op,
            time,
            body: ByteRange { start: bstart, end: n },
            message,
            actors,
            deps,
            ops_list,
            extra_bytes: extra,
            bytes,
        };
        proof {
            assert(change_wf(ch, s));
        }
        Ok(ch)
    }
}

/// A restartable iterator over a change's decoded operations.
pub struct OperationIterator {
    pub ops: Vec<Op>,
    pub pos: usize,
}

impl OperationIterator {
    pub fn new(ch: &Change) -> (r: OperationIterator)
        ensures
            ops_views(r.ops@) == ops_views(ch.ops_list@),
            r.pos == 0,
    {
        OperationIterator { ops: clone_ops(&ch.ops_list), pos: 0 }
    }

    /// The next operation, or nothing at the end.
    pub fn next(&mut self) -> (r: Option<Op>)
        ensures
            match r {
                Some(op) => {
                    &&& old(self).pos < old(self).ops@.len()
                    &&& op_view(op) == op_view(old(self).ops@[old(self).pos as int])
                    &&& final(self).pos == old(self).pos + 1
                },
                None => {
                    &&& old(self).pos >= old(self).ops@.len()
                    &&& final(self).pos == old(self).pos
                },
            },
            final(self).ops@ == old(self).ops@,
    {
        if self.pos < self.ops.len() {
            let op = clone_op(&self.ops[self.pos]);
            self.pos = self.pos + 1;
            Some(op)
        } else {
            None
        }
    }
}

impl Change {
    /// The number of operations this change carries.
    pub fn len_ops(&self) -> (r: usize)
        ensures
            r == self.ops_list@.len(),
    {
        self.ops_list.len()
    }

    /// The operation counter of the last operation: `start_op` plus the
    /// operation count, less one, saturating at zero for an empty change.
    pub fn max_op(&self) -> (r: u64)
        requires
            self.start_op + self.ops_list@.len() - 1 <= u64::MAX,
        ensures
            self.ops_list@.len() > 0 || self.start_op > 0 ==> r == self.start_op
                + self.ops_list@.len() - 1,
            self.ops_list@.len() == 0 && self.start_op == 0 ==> r == 0,
    {
        let n = self.ops_list.len() as u64;
        if n == 0 {
            if self.start_op == 0 {
                0
            } else {
                self.start_op - 1
            }
        } else {
            self.start_op + (n - 1)
        }
    }

    /// The message, `None` when the stored bytes are empty. Messages are
    /// carried as raw bytes and returned unvalidated: a change whose wire
    /// message is not UTF-8 round-trips unchanged rather than collapsing to
    /// no message.
    pub fn message(&self) -> (r: Option<Vec<u8>>)
        ensures
            self.message@.len() == 0 ==> r is None,
            self.message@.len() > 0 ==> (r matches Some(m) && m@ == self.message@),
    {
        if self.message.len() == 0 {
            None
        } else {
            Some(clone_bytes(&self.message))
        }
    }

    /// A restartable iterator over the decoded operations.
    pub fn iter_ops(&self) -> (r: OperationIterator)
        ensures
            ops_views(r.ops@) == ops_views(self.ops_list@),
            r.pos == 0,
    {
        OperationIterator::new(self)
    }

    /// The logical change these bytes carry: the inverse direction of
    /// `encode`, up to sorted dependencies and message normalisation.
    pub fn decode(&self) -> (r: UncompressedChange)
        requires
            self.actors@.len() >= 1,
        ensures
            ops_views(r.operations@) == ops_views(self.ops_list@),
            r.actor_id.bytes@ == self.actors@[0].bytes@,
            r.seq == self.seq,
            r.start_op == self.start_op,
            r.time == self.time,
            msg_bytes(r.message) == self.message@,
            r.message is None <==> self.message@.len() == 0,
            hviews(r.deps@) == hviews(self.deps@),
            r.extra_bytes@ == self.extra_bytes@,
    {
        let mut deps: Vec<ChangeHash> = Vec::new();
        let mut i: usize = 0;
        proof {
            assert(hviews(deps@) =~= hviews(self.deps@).take(0));
        }
        while i < self.deps.len()
            invariant
                i <= self.deps@.len(),
                hviews(deps@) == hviews(self.deps@).take(i as int),
            decreases self.deps@.len() - i,
        {
            let ghost prev = hviews(deps@);
            deps.push(ChangeHash { bytes: clone_bytes(&self.deps[i].bytes) });
            proof {
                assert(hviews(deps@) =~~= prev.push(self.deps@[i as int].bytes@));
                assert(hviews(deps@) =~~= hviews(self.deps@).take(i as int + 1));
            }
            i = i + 1;
        }
        proof {
            assert(hviews(self.deps@).take(i as int) =~= hviews(self.deps@));
        }
        UncompressedChange {
            operations: clone_ops(&self.ops_list),
            actor_id: ActorId { bytes: clone_bytes(&self.actors[0].bytes) },
            seq: self.seq,
            start_op: self.start_op,
            time: self.time,
            message: if self.message.len() == 0 {
                None
            } else {
                Some(clone_bytes(&self.message))
            },
            deps,
            extra_bytes: clone_bytes(&self.extra_bytes),
        }
    }

    /// Splits a byte stream into framed chunks and parses each one: the
    /// result is exactly the chunk list of the input, in order, covering
    /// the whole buffer. A malformed chunk anywhere halts parsing with the
    /// error; the empty buffer parses to no changes.
    pub fn parse(bytes: &Vec<u8>) -> (r: Result<Vec<Change>, AutomergeError>)
        ensures
            r is Ok <==> chunks_ok(bytes@, 0),
            match r {
                Ok(v) => chunks_seg(bytes@, 0, bytes@.len() as int, v@),
                Err(e) => e == AutomergeError::EncodingError,
            },
    {
        let ghost s = bytes@;
        let mut changes: Vec<Change> = Vec::new();
        let n = bytes.len();
        let mut pos: usize = 0;
        while pos < n
            invariant
                pos <= n == bytes@.len(),
                s == bytes@,
                chunks_seg(s, 0, pos as int, changes@),
                chunks_ok(s, 0) <==> chunks_ok(s, pos as int),
            decreases n - pos,
        {
            if n - pos <= HEADER_BYTES {
                proof {
                    assert(chunk_end_at(s, pos as int) is None);
                }
                return Err(AutomergeError::EncodingError);
            }
            let (blen, p2) = match crate::leb::read_uleb(bytes, pos + HEADER_BYTES) {
                Ok(p) => p,
                Err(e) => {
                    proof {
                        assert(chunk_end_at(s, pos as int) is None);
                    }
                    return Err(e);
                }
            };
            if blen > (usize::MAX as u64) || (blen as usize) > n - p2 {
                proof {
                    assert(chunk_end_at(s, pos as int) is None);
                }
                return Err(AutomergeError::EncodingError);
            }
            let chunk_end = p2 + (blen as usize);
            proof {
                assert(chunk_end_at(s, pos as int) == Some(chunk_end as int));
            }
            let data = copy_range(bytes, pos, chunk_end);
            let ch = match Change::from_bytes(data) {
                Ok(c) => c,
                Err(e) => {
                    return Err(e);
                }
            };
            proof {
                lemma_chunks_seg_push(
                    s,
                    0,
                    pos as int,
                    changes@,
                    ch,
                    chunk_end as int,
                );
            }
            let ghost prev = changes@;
            changes.push(ch);
            proof {
                assert(changes@ =~= prev.push(ch));
            }
            pos = chunk_end;
        }
        proof {
            assert(chunks_ok(s, pos as int));
        }
        Ok(changes)
    }

    /// The raw bytes of one operation column, found by re-reading the
    /// chunk's header and directory; empty when the id is not listed.
    pub fn col_iter(&self, col_id: u32) -> (r: Result<Vec<u8>, AutomergeError>)
        ensures
            match r {
                Ok(v) => hdr_parse(self.bytes@, self.body.start as int) matches Some(hp)
                    && dir_parse(self.bytes@, hp.1) matches Some(dp) && v@ == col_bytes_dir(
                    self.bytes@,
                    dp.0,
                    dp.1,
                    col_id,
                ),
                Err(e) => e == AutomergeError::EncodingError,
            },
            ({
                &&& self.body.start <= self.bytes@.len()
                &&& hdr_parse(self.bytes@, self.body.start as int) matches Some(hp)
                    && dir_parse(self.bytes@, hp.1) is Some
            }) ==> r is Ok,
    {
        let ghost s = self.bytes@;
        let n = self.bytes.len();
        if self.body.start > n {
            proof {
                reveal(hdr_parse);
            }
            return Err(AutomergeError::EncodingError);
        }
        let hdr = match parse_header(&self.bytes, self.body.start) {
            Ok(h) => h,
            Err(e) => {
                return Err(e);
            }
        };
        let (ncols64, p_nc) = match crate::leb::read_uleb(&self.bytes, hdr.end) {
            Ok(p) => p,
            Err(e) => {
                return Err(e);
            }
        };
        if ncols64 > (usize::MAX as u64) {
            return Err(AutomergeError::EncodingError);
        }
        let (ids, lens, cs) = match read_dir_exec(&self.bytes, p_nc, ncols64 as usize) {
            Ok(p) => p,
            Err(e) => {
                return Err(e);
            }
        };
        let ghost pairs = dir_pairs(ids@, lens@);
        let (dir, _off) = match build_ranges(n, &ids, &lens, cs) {
            Ok(p) => p,
            Err(e) => {
                return Err(e);
            }
        };
        proof {
            assert(dir_parse(s, hdr.end as int) == Some((pairs, cs as int)));
        }
        let out = col_iter(&self.bytes, &dir, col_id);
        proof {
            if dir@.len() == 0 {
                assert(pairs =~= Seq::<(u32, int)>::empty());
            } else {
                assert(dir@[0].start == cs);
            }
        }
        Ok(out)
    }
}

} // verus!
