//! The column registry and the per-field encoders: each logical field of an
//! operation feeds one to three column streams, and a change's operation
//! block is the directory plus payloads of all non-empty columns in
//! ascending column-id order.

use vstd::prelude::*;

use crate::error::AutomergeError;
use crate::leb::{uleb, sleb, write_uleb, lemma_uleb_len};
use crate::encoding::{ColData, UintRle, RUN_LIMIT};
use crate::delta::DeltaCol;
use crate::strcol::{StrRle, bytes_eq, clone_bytes};
use crate::boolcol::BoolCol;
use crate::types::{
    ActorId, OpId, ObjectId, Key, ScalarValue, OpType, Op,
    VALUE_TYPE_NULL, VALUE_TYPE_FALSE, VALUE_TYPE_TRUE, VALUE_TYPE_LEB128_UINT,
    VALUE_TYPE_LEB128_INT, VALUE_TYPE_IEEE754, VALUE_TYPE_UTF8, VALUE_TYPE_BYTES,
    VALUE_TYPE_COUNTER, VALUE_TYPE_TIMESTAMP, VALUE_TYPE_CURSOR,
};

verus! {

// Column stream kinds.
pub const COLUMN_TYPE_GROUP_CARD: u32 = 0;
pub const COLUMN_TYPE_ACTOR_ID: u32 = 1;
pub const COLUMN_TYPE_INT_RLE: u32 = 2;
pub const COLUMN_TYPE_INT_DELTA: u32 = 3;
pub const COLUMN_TYPE_BOOLEAN: u32 = 4;
pub const COLUMN_TYPE_STRING_RLE: u32 = 5;
pub const COLUMN_TYPE_VALUE_LEN: u32 = 6;
pub const COLUMN_TYPE_VALUE_RAW: u32 = 7;

// Operation columns: `group << 3 | kind`.
pub const COL_OBJ_ACTOR: u32 = COLUMN_TYPE_ACTOR_ID;
pub const COL_OBJ_CTR: u32 = COLUMN_TYPE_INT_RLE;
pub const COL_KEY_ACTOR: u32 = 1 << 3 | COLUMN_TYPE_ACTOR_ID;
pub const COL_KEY_CTR: u32 = 1 << 3 | COLUMN_TYPE_INT_DELTA;
pub const COL_KEY_STR: u32 = 1 << 3 | COLUMN_TYPE_STRING_RLE;
pub const COL_ID_ACTOR: u32 = 2 << 3 | COLUMN_TYPE_ACTOR_ID;
pub const COL_ID_CTR: u32 = 2 << 3 | COLUMN_TYPE_INT_DELTA;
pub const COL_INSERT: u32 = 3 << 3 | COLUMN_TYPE_BOOLEAN;
pub const COL_ACTION: u32 = 4 << 3 | COLUMN_TYPE_INT_RLE;
pub const COL_VAL_LEN: u32 = 5 << 3 | COLUMN_TYPE_VALUE_LEN;
pub const COL_VAL_RAW: u32 = 5 << 3 | COLUMN_TYPE_VALUE_RAW;
pub const COL_REF_ACTOR: u32 = 6 << 3 | COLUMN_TYPE_ACTOR_ID;
pub const COL_REF_CTR: u32 = 6 << 3 | COLUMN_TYPE_INT_RLE;
pub const COL_PRED_NUM: u32 = 7 << 3 | COLUMN_TYPE_GROUP_CARD;
pub const COL_PRED_ACTOR: u32 = 7 << 3 | COLUMN_TYPE_ACTOR_ID;
pub const COL_PRED_CTR: u32 = 7 << 3 | COLUMN_TYPE_INT_DELTA;
pub const COL_SUCC_NUM: u32 = 8 << 3 | COLUMN_TYPE_GROUP_CARD;
pub const COL_SUCC_ACTOR: u32 = 8 << 3 | COLUMN_TYPE_ACTOR_ID;
pub const COL_SUCC_CTR: u32 = 8 << 3 | COLUMN_TYPE_INT_DELTA;

// Document-metadata columns, in their own namespace.
pub const DOC_ACTOR: u32 = COLUMN_TYPE_ACTOR_ID;
pub const DOC_SEQ: u32 = COLUMN_TYPE_INT_DELTA;
pub const DOC_MAX_OP: u32 = 1 << 3 | COLUMN_TYPE_INT_DELTA;
pub const DOC_TIME: u32 = 2 << 3 | COLUMN_TYPE_INT_DELTA;
pub const DOC_MESSAGE: u32 = 3 << 3 | COLUMN_TYPE_STRING_RLE;
pub const DOC_DEPS_NUM: u32 = 4 << 3 | COLUMN_TYPE_GROUP_CARD;
pub const DOC_DEPS_INDEX: u32 = 4 << 3 | COLUMN_TYPE_INT_DELTA;
pub const DOC_EXTRA_LEN: u32 = 5 << 3 | COLUMN_TYPE_VALUE_LEN;
pub const DOC_EXTRA_RAW: u32 = 5 << 3 | COLUMN_TYPE_VALUE_RAW;

/// The wire code of an action.
pub open spec fn action_code(a: OpType) -> u64 {
    match a {
        OpType::MakeMap => 0,
        OpType::Put(_) => 1,
        OpType::MakeList => 2,
        OpType::Del => 3,
        OpType::MakeText => 4,
        OpType::Inc(_) => 5,
        OpType::MakeTable => 6,
    }
}

// ------------------------------------------------------------------
// The actor table
// ------------------------------------------------------------------

/// The views of an actor table.
pub open spec fn aviews(actors: Seq<ActorId>) -> Seq<Seq<u8>> {
    actors.map_values(|a: ActorId| a.bytes@)
}

/// The index of `a` in the table, or `-1`.
pub open spec fn actor_idx(table: Seq<Seq<u8>>, a: Seq<u8>) -> int
    decreases table.len(),
{
    if table.len() == 0 {
        -1
    } else if table[0] == a {
        0
    } else {
        let r = actor_idx(table.skip(1), a);
        if r < 0 {
            -1
        } else {
            r + 1
        }
    }
}

/// The index `a` gets when interned: its position if present, else the
/// table's length.
pub open spec fn ma_idx(table: Seq<Seq<u8>>, a: Seq<u8>) -> int {
    let r = actor_idx(table, a);
    if r < 0 {
        table.len() as int
    } else {
        r
    }
}

/// The table after interning `a`.
pub open spec fn ma_upd(table: Seq<Seq<u8>>, a: Seq<u8>) -> Seq<Seq<u8>> {
    if actor_idx(table, a) < 0 {
        table.push(a)
    } else {
        table
    }
}

pub proof fn lemma_actor_idx_bounds(table: Seq<Seq<u8>>, a: Seq<u8>)
    ensures
        -1 <= actor_idx(table, a) < table.len(),
        actor_idx(table, a) >= 0 ==> table[actor_idx(table, a)] == a,
        0 <= ma_idx(table, a) <= table.len(),
        ma_upd(table, a)[ma_idx(table, a)] == a,
        ma_upd(table, a).len() == if actor_idx(table, a) < 0 {
            table.len() + 1int
        } else {
            table.len() as int
        },
        table.is_prefix_of(ma_upd(table, a)),
    decreases table.len(),
{
    if table.len() > 0 && table[0] != a {
        lemma_actor_idx_bounds(table.skip(1), a);
        let r = actor_idx(table.skip(1), a);
        if r >= 0 {
            assert(table.skip(1)[r] == table[r + 1]);
        }
    }
    assert(table.is_prefix_of(ma_upd(table, a))) by {
        if actor_idx(table, a) < 0 {
            assert(table =~= table.push(a).take(table.len() as int));
        } else {
            assert(table =~= table.take(table.len() as int));
        }
    }
}

/// The scan characterisation of `actor_idx`.
pub proof fn lemma_actor_idx_is(table: Seq<Seq<u8>>, a: Seq<u8>, i: int)
    requires
        0 <= i <= table.len(),
        forall|j: int| 0 <= j < i ==> table[j] != a,
        i < table.len() ==> table[i] == a,
    ensures
        i < table.len() ==> actor_idx(table, a) == i,
        i == table.len() ==> actor_idx(table, a) == -1,
    decreases table.len(),
{
    if table.len() > 0 && table[0] != a {
        let t = table.skip(1);
        assert(forall|j: int| 0 <= j < i - 1 ==> t[j] != a);
        if i > 0 && i < table.len() {
            assert(t[i - 1] == a);
        }
        lemma_actor_idx_is(t, a, if i == 0 { 0 } else { i - 1 });
    }
}

/// Interns an actor in the table: its index if present, else the index it
/// is appended at. Index zero always holds the change's own actor.
pub fn map_actor(actor: &ActorId, actors: &mut Vec<ActorId>) -> (r: usize)
    ensures
        aviews(final(actors)@) == ma_upd(aviews(old(actors)@), actor.bytes@),
        r as int == ma_idx(aviews(old(actors)@), actor.bytes@),
        r < final(actors)@.len(),
        final(actors)@.len() <= old(actors)@.len() + 1,
        final(actors)@[r as int].bytes@ == actor.bytes@,
{
    let ghost t = aviews(actors@);
    let n = actors.len();
    let mut i: usize = 0;
    while i < n
        invariant
            i <= n == actors@.len(),
            t == aviews(actors@),
            forall|j: int| 0 <= j < i ==> t[j] != actor.bytes@,
        decreases n - i,
    {
        if bytes_eq(&actors[i].bytes, &actor.bytes) {
            proof {
                assert(t[i as int] == actor.bytes@);
                lemma_actor_idx_is(t, actor.bytes@, i as int);
                lemma_actor_idx_bounds(t, actor.bytes@);
                assert(ma_upd(t, actor.bytes@) =~= t);
            }
            return i;
        }
        i = i + 1;
    }
    proof {
        lemma_actor_idx_is(t, actor.bytes@, n as int);
    }
    let copy = ActorId { bytes: clone_bytes(&actor.bytes) };
    actors.push(copy);
    proof {
        assert(aviews(actors@) =~~= ma_upd(t, actor.bytes@));
    }
    n
}

// ------------------------------------------------------------------
// The value columns
// ------------------------------------------------------------------

/// Little-endian bytes of a 32-bit value.
pub open spec fn le4(b: u32) -> Seq<u8> {
    seq![
        (b % 256) as u8,
        ((b / 256) % 256) as u8,
        ((b / 0x10000) % 256) as u8,
        ((b / 0x1000000) % 256) as u8,
    ]
}

/// Little-endian bytes of a 64-bit value.
pub open spec fn le8(b: u64) -> Seq<u8> {
    seq![
        (b % 256) as u8,
        ((b / 256) % 256) as u8,
        ((b / 0x10000) % 256) as u8,
        ((b / 0x1000000) % 256) as u8,
        ((b / 0x1_0000_0000) % 256) as u8,
        ((b / 0x100_0000_0000) % 256) as u8,
        ((b / 0x1_0000_0000_0000) % 256) as u8,
        ((b / 0x100_0000_0000_0000) % 256) as u8,
    ]
}

/// The raw-column payload of a scalar value.
pub open spec fn val_payload(v: ScalarValue) -> Seq<u8> {
    match v {
        ScalarValue::Null => Seq::empty(),
        ScalarValue::Boolean(_) => Seq::empty(),
        ScalarValue::Uint(n) => uleb(n as nat),
        ScalarValue::Int(n) => sleb(n as int),
        ScalarValue::F32(bits) => le4(bits),
        ScalarValue::F64(bits) => le8(bits),
        ScalarValue::Counter(n) => sleb(n as int),
        ScalarValue::Timestamp(n) => sleb(n as int),
        ScalarValue::Str(s) => s@,
        ScalarValue::Bytes(b) => b@,
        ScalarValue::Unknown(_, b) => b@,
        ScalarValue::Cursor(_) => Seq::empty(),
    }
}

/// The four-bit type tag of a scalar value.
pub open spec fn val_tag(v: ScalarValue) -> u64 {
    match v {
        ScalarValue::Null => VALUE_TYPE_NULL,
        ScalarValue::Boolean(b) => if b {
            VALUE_TYPE_TRUE
        } else {
            VALUE_TYPE_FALSE
        },
        ScalarValue::Uint(_) => VALUE_TYPE_LEB128_UINT,
        ScalarValue::Int(_) => VALUE_TYPE_LEB128_INT,
        ScalarValue::F32(_) => VALUE_TYPE_IEEE754,
        ScalarValue::F64(_) => VALUE_TYPE_IEEE754,
        ScalarValue::Counter(_) => VALUE_TYPE_COUNTER,
        ScalarValue::Timestamp(_) => VALUE_TYPE_TIMESTAMP,
        ScalarValue::Str(_) => VALUE_TYPE_UTF8,
        ScalarValue::Bytes(_) => VALUE_TYPE_BYTES,
        ScalarValue::Unknown(tag, _) => tag as u64,
        ScalarValue::Cursor(_) => VALUE_TYPE_CURSOR,
    }
}

/// The length-column entry of a scalar value: payload length beside the
/// type tag.
pub open spec fn val_code(v: ScalarValue) -> u64 {
    (val_payload(v).len() * 16 + val_tag(v)) as u64
}

/// Appends a byte vector to a buffer.
pub fn extend_bytes(dst: &mut Vec<u8>, src: &Vec<u8>)
    ensures
        final(dst)@ == old(dst)@ + src@,
{
    let mut i: usize = 0;
    let ghost mid = dst@;
    while i < src.len()
        invariant
            i <= src@.len(),
            dst@ == mid + src@.take(i as int),
        decreases src@.len() - i,
    {
        dst.push(src[i]);
        proof {
            assert(dst@ =~= mid + src@.take(i as int + 1));
        }
        i = i + 1;
    }
    proof {
        assert(src@.take(i as int) =~= src@);
    }
}

/// The value columns: the length/type entries and the raw byte pool.
pub struct ValEncoder {
    pub len: UintRle,
    pub raw: Vec<u8>,
}

impl ValEncoder {
    pub fn new() -> (r: ValEncoder)
        ensures
            r.len.items@ == Seq::<Option<u64>>::empty(),
            r.raw@ == Seq::<u8>::empty(),
    {
        ValEncoder { len: UintRle::new(), raw: Vec::new() }
    }

    /// Appends one value: its code to the length column, its payload to the
    /// raw pool.
    pub fn append_value(&mut self, val: &ScalarValue)
        requires
            val.valid(),
        ensures
            final(self).len.items@ == old(self).len.items@.push(Some(val_code(*val))),
            final(self).raw@ == old(self).raw@ + val_payload(*val),
    {
        match val {
            ScalarValue::Null => {
                self.len.append_value(VALUE_TYPE_NULL);
                proof {
                    assert(self.raw@ =~= old(self).raw@ + val_payload(*val));
                }
            }
            ScalarValue::Boolean(b) => {
                self.len.append_value(if *b {
                    VALUE_TYPE_TRUE
                } else {
                    VALUE_TYPE_FALSE
                });
                proof {
                    assert(self.raw@ =~= old(self).raw@ + val_payload(*val));
                }
            }
            ScalarValue::Uint(n) => {
                let pre = self.raw.len();
                write_uleb(&mut self.raw, *n);
                let ln = self.raw.len() - pre;
                proof {
                    lemma_uleb_len(*n as nat);
                }
                self.len.append_value((ln as u64) * 16 + VALUE_TYPE_LEB128_UINT);
            }
            ScalarValue::Int(n) => {
                let pre = self.raw.len();
                crate::leb::write_sleb(&mut self.raw, *n);
                let ln = self.raw.len() - pre;
                proof {
                    crate::leb::lemma_sleb_len(*n as int);
                }
                self.len.append_value((ln as u64) * 16 + VALUE_TYPE_LEB128_INT);
            }
            ScalarValue::F32(bits) => {
                let b = *bits;
                self.raw.push((b % 256) as u8);
                self.raw.push(((b / 256) % 256) as u8);
                self.raw.push(((b / 0x10000) % 256) as u8);
                self.raw.push(((b / 0x1000000) % 256) as u8);
                proof {
                    assert(self.raw@ =~= old(self).raw@ + le4(b));
                }
                self.len.append_value(4 * 16 + VALUE_TYPE_IEEE754);
            }
            ScalarValue::F64(bits) => {
                let b = *bits;
                self.raw.push((b % 256) as u8);
                self.raw.push(((b / 256) % 256) as u8);
                self.raw.push(((b / 0x10000) % 256) as u8);
                self.raw.push(((b / 0x1000000) % 256) as u8);
                self.raw.push(((b / 0x1_0000_0000) % 256) as u8);
                self.raw.push(((b / 0x100_0000_0000) % 256) as u8);
                self.raw.push(((b / 0x1_0000_0000_0000) % 256) as u8);
                self.raw.push(((b / 0x100_0000_0000_0000) % 256) as u8);
                proof {
                    assert(self.raw@ =~= old(self).raw@ + le8(b));
                }
                self.len.append_value(8 * 16 + VALUE_TYPE_IEEE754);
            }
            ScalarValue::Counter(n) => {
                let pre = self.raw.len();
                crate::leb::write_sleb(&mut self.raw, *n);
                let ln = self.raw.len() - pre;
                proof {
                    crate::leb::lemma_sleb_len(*n as int);
                }
                self.len.append_value((ln as u64) * 16 + VALUE_TYPE_COUNTER);
            }
            ScalarValue::Timestamp(n) => {
                let pre = self.raw.len();
                crate::leb::write_sleb(&mut self.raw, *n);
                let ln = self.raw.len() - pre;
                proof {
                    crate::leb::lemma_sleb_len(*n as int);
                }
                self.len.append_value((ln as u64) * 16 + VALUE_TYPE_TIMESTAMP);
            }
            ScalarValue::Str(s) => {
                extend_bytes(&mut self.raw, s);
                self.len.append_value((s.len() as u64) * 16 + VALUE_TYPE_UTF8);
            }
            ScalarValue::Bytes(bs) => {
                extend_bytes(&mut self.raw, bs);
                self.len.append_value((bs.len() as u64) * 16 + VALUE_TYPE_BYTES);
            }
            ScalarValue::Unknown(tag, bs) => {
                extend_bytes(&mut self.raw, bs);
                self.len.append_value((bs.len() as u64) * 16 + (*tag as u64));
            }
            ScalarValue::Cursor(_) => {
                self.len.append_value(VALUE_TYPE_CURSOR);
                proof {
                    assert(self.raw@ =~= old(self).raw@ + val_payload(*val));
                }
            }
        }
    }

    /// Appends a null value entry, as the actions without a value do.
    pub fn append_null(&mut self)
        ensures
            final(self).len.items@ == old(self).len.items@.push(Some(VALUE_TYPE_NULL)),
            final(self).raw@ == old(self).raw@,
    {
        self.len.append_value(VALUE_TYPE_NULL);
    }

    pub fn finish(self) -> (r: Result<(ColData, ColData), AutomergeError>)
        ensures
            match r {
                Ok(p) => {
                    &&& p.0.col == COL_VAL_LEN
                    &&& p.0.data@ == crate::encoding::rle_u_enc(
                        crate::encoding::trim_nulls(self.len.items@),
                    )
                    &&& p.1.col == COL_VAL_RAW
                    &&& p.1.data@ == self.raw@
                    &&& self.len.items@.len() <= RUN_LIMIT
                },
                Err(e) => {
                    &&& self.len.items@.len() > RUN_LIMIT
                    &&& e == AutomergeError::InvalidChange
                },
            },
    {
        let len_col = match self.len.finish(COL_VAL_LEN) {
            Ok(c) => c,
            Err(e) => {
                return Err(e);
            }
        };
        Ok((len_col, ColData { col: COL_VAL_RAW, data: self.raw }))
    }
}

// ------------------------------------------------------------------
// The key, object, predecessor and successor encoders
// ------------------------------------------------------------------

/// The key columns: actor, counter (delta) and string.
pub struct KeyEncoder {
    pub actor: UintRle,
    pub ctr: DeltaCol,
    pub str_col: StrRle,
}

impl KeyEncoder {
    pub fn new() -> (r: KeyEncoder)
        ensures
            r.actor.items@ == Seq::<Option<u64>>::empty(),
            r.ctr.items@ == Seq::<Option<u64>>::empty(),
            r.str_col.view_items() == Seq::<Option<Seq<u8>>>::empty(),
    {
        KeyEncoder { actor: UintRle::new(), ctr: DeltaCol::new(), str_col: StrRle::new() }
    }

    /// One key: a map key fills only the string column, the head sentinel
    /// only the counter (with zero), an element identifier the actor and
    /// counter columns.
    pub fn append(&mut self, key: &Key, actors: &mut Vec<ActorId>)
        ensures
            final(self).actor.items@ == old(self).actor.items@.push(
                key_actor_item(aviews(old(actors)@), *key),
            ),
            final(self).ctr.items@ == old(self).ctr.items@.push(key_ctr_item(*key)),
            final(self).str_col.view_items() == old(self).str_col.view_items().push(
                key_str_item(*key),
            ),
            aviews(final(actors)@) == key_upd(aviews(old(actors)@), *key),
    {
        match key {
            Key::MapKey(s) => {
                self.actor.append_null();
                self.ctr.append_null();
                self.str_col.append_value(clone_bytes(s));
            }
            Key::Head => {
                self.actor.append_null();
                self.ctr.append_value(0);
                self.str_col.append_null();
            }
            Key::Elem(id) => {
                let idx = map_actor(&id.actor, actors);
                self.actor.append_value(idx as u64);
                self.ctr.append_value(id.ctr);
                self.str_col.append_null();
            }
        }
    }

    pub fn finish(self) -> (r: Result<(ColData, ColData, ColData), AutomergeError>)
        ensures
            match r {
                Ok(p) => {
                    &&& p.0.col == COL_KEY_ACTOR
                    &&& p.0.data@ == crate::encoding::rle_u_enc(
                        crate::encoding::trim_nulls(self.actor.items@),
                    )
                    &&& p.1.col == COL_KEY_CTR
                    &&& p.1.data@ == crate::delta::delta_enc(self.ctr.items@)
                    &&& p.2.col == COL_KEY_STR
                    &&& p.2.data@ == crate::strcol::rle_s_enc(
                        crate::strcol::trim_nulls_s(self.str_col.view_items()),
                    )
                    &&& self.actor.items@.len() <= RUN_LIMIT
                    &&& self.ctr.items@.len() <= RUN_LIMIT
                    &&& self.str_col.view_items().len() <= RUN_LIMIT
                },
                Err(e) => {
                    &&& e == AutomergeError::InvalidChange
                    &&& (self.actor.items@.len() > RUN_LIMIT || self.ctr.items@.len() > RUN_LIMIT
                        || self.str_col.view_items().len() > RUN_LIMIT)
                },
            },
    {
        let a = match self.actor.finish(COL_KEY_ACTOR) {
            Ok(c) => c,
            Err(e) => { return Err(e); }
        };
        let c = match self.ctr.finish(COL_KEY_CTR) {
            Ok(c) => c,
            Err(e) => { return Err(e); }
        };
        let s = match self.str_col.finish(COL_KEY_STR) {
            Ok(c) => c,
            Err(e) => { return Err(e); }
        };
        Ok((a, c, s))
    }
}

/// The key's actor-column entry, against the table as it stands.
pub open spec fn key_actor_item(table: Seq<Seq<u8>>, key: Key) -> Option<u64> {
    match key {
        Key::Elem(id) => Some(ma_idx(table, id.actor.bytes@) as u64),
        _ => None,
    }
}

pub open spec fn key_ctr_item(key: Key) -> Option<u64> {
    match key {
        Key::MapKey(_) => None,
        Key::Head => Some(0),
        Key::Elem(id) => Some(id.ctr),
    }
}

pub open spec fn key_str_item(key: Key) -> Option<Seq<u8>> {
    match key {
        Key::MapKey(s) => Some(s@),
        _ => None,
    }
}

pub open spec fn key_upd(table: Seq<Seq<u8>>, key: Key) -> Seq<Seq<u8>> {
    match key {
        Key::Elem(id) => ma_upd(table, id.actor.bytes@),
        _ => table,
    }
}

/// The object columns: actor and counter.
pub struct ObjEncoder {
    pub actor: UintRle,
    pub ctr: UintRle,
}

pub open spec fn obj_actor_item(table: Seq<Seq<u8>>, obj: ObjectId) -> Option<u64> {
    match obj {
        ObjectId::Root => None,
        ObjectId::Id(id) => Some(ma_idx(table, id.actor.bytes@) as u64),
    }
}

pub open spec fn obj_ctr_item(obj: ObjectId) -> Option<u64> {
    match obj {
        ObjectId::Root => None,
        ObjectId::Id(id) => Some(id.ctr),
    }
}

pub open spec fn obj_upd(table: Seq<Seq<u8>>, obj: ObjectId) -> Seq<Seq<u8>> {
    match obj {
        ObjectId::Root => table,
        ObjectId::Id(id) => ma_upd(table, id.actor.bytes@),
    }
}

impl ObjEncoder {
    pub fn new() -> (r: ObjEncoder)
        ensures
            r.actor.items@ == Seq::<Option<u64>>::empty(),
            r.ctr.items@ == Seq::<Option<u64>>::empty(),
    {
        ObjEncoder { actor: UintRle::new(), ctr: UintRle::new() }
    }

    pub fn append(&mut self, obj: &ObjectId, actors: &mut Vec<ActorId>)
        ensures
            final(self).actor.items@ == old(self).actor.items@.push(
                obj_actor_item(aviews(old(actors)@), *obj),
            ),
            final(self).ctr.items@ == old(self).ctr.items@.push(obj_ctr_item(*obj)),
            aviews(final(actors)@) == obj_upd(aviews(old(actors)@), *obj),
    {
        match obj {
            ObjectId::Root => {
                self.actor.append_null();
                self.ctr.append_null();
            }
            ObjectId::Id(id) => {
                let idx = map_actor(&id.actor, actors);
                self.actor.append_value(idx as u64);
                self.ctr.append_value(id.ctr);
            }
        }
    }

    pub fn finish(self) -> (r: Result<(ColData, ColData), AutomergeError>)
        ensures
            match r {
                Ok(p) => {
                    &&& p.0.col == COL_OBJ_ACTOR
                    &&& p.0.data@ == crate::encoding::rle_u_enc(
                        crate::encoding::trim_nulls(self.actor.items@),
                    )
                    &&& p.1.col == COL_OBJ_CTR
                    &&& p.1.data@ == crate::encoding::rle_u_enc(
                        crate::encoding::trim_nulls(self.ctr.items@),
                    )
                    &&& self.actor.items@.len() <= RUN_LIMIT
                    &&& self.ctr.items@.len() <= RUN_LIMIT
                },
                Err(e) => {
                    &&& e == AutomergeError::InvalidChange
                    &&& (self.actor.items@.len() > RUN_LIMIT || self.ctr.items@.len() > RUN_LIMIT)
                },
            },
    {
        let a = match self.actor.finish(COL_OBJ_ACTOR) {
            Ok(c) => c,
            Err(e) => { return Err(e); }
        };
        let c = match self.ctr.finish(COL_OBJ_CTR) {
            Ok(c) => c,
            Err(e) => { return Err(e); }
        };
        Ok((a, c))
    }
}

/// The state the predecessor columns and the actor table are in while a
/// predecessor list is appended.
pub struct PredSt {
    pub actor: Seq<Option<u64>>,
    pub ctr: Seq<Option<u64>>,
    pub table: Seq<Seq<u8>>,
}

/// Appending a predecessor list: each entry interns its actor and pushes
/// its counter and actor index.
pub open spec fn pred_fold(st: PredSt, pred: Seq<OpId>) -> PredSt
    decreases pred.len(),
{
    if pred.len() == 0 {
        st
    } else {
        let id = pred[0];
        pred_fold(
            PredSt {
                actor: st.actor.push(Some(ma_idx(st.table, id.actor.bytes@) as u64)),
                ctr: st.ctr.push(Some(id.ctr)),
                table: ma_upd(st.table, id.actor.bytes@),
            },
            pred.skip(1),
        )
    }
}

/// The predecessor columns: group cardinality, actor, counter (delta).
pub struct PredEncoder {
    pub num: UintRle,
    pub actor: UintRle,
    pub ctr: DeltaCol,
}

impl PredEncoder {
    pub fn new() -> (r: PredEncoder)
        ensures
            r.num.items@ == Seq::<Option<u64>>::empty(),
            r.actor.items@ == Seq::<Option<u64>>::empty(),
            r.ctr.items@ == Seq::<Option<u64>>::empty(),
    {
        PredEncoder { num: UintRle::new(), actor: UintRle::new(), ctr: DeltaCol::new() }
    }

    pub fn append(&mut self, pred: &Vec<OpId>, actors: &mut Vec<ActorId>)
        requires
            pred@.len() <= 0xffff_ffff,
        ensures
            final(self).num.items@ == old(self).num.items@.push(Some(pred@.len() as u64)),
            ({
                let st = pred_fold(
                    PredSt {
                        actor: old(self).actor.items@,
                        ctr: old(self).ctr.items@,
                        table: aviews(old(actors)@),
                    },
                    pred@,
                );
                &&& final(self).actor.items@ == st.actor
                &&& final(self).ctr.items@ == st.ctr
                &&& aviews(final(actors)@) == st.table
            }),
    {
        self.num.append_value(pred.len() as u64);
        let ghost st0 = PredSt {
            actor: self.actor.items@,
            ctr: self.ctr.items@,
            table: aviews(actors@),
        };
        let mut j: usize = 0;
        proof {
            assert(pred@.skip(0) =~= pred@);
        }
        while j < pred.len()
            invariant
                j <= pred@.len(),
                self.num.items@ == old(self).num.items@.push(Some(pred@.len() as u64)),
                pred_fold(
                    PredSt {
                        actor: self.actor.items@,
                        ctr: self.ctr.items@,
                        table: aviews(actors@),
                    },
                    pred@.skip(j as int),
                ) == pred_fold(st0, pred@),
            decreases pred@.len() - j,
        {
            let ghost pre = PredSt {
                actor: self.actor.items@,
                ctr: self.ctr.items@,
                table: aviews(actors@),
            };
            let id_ctr = pred[j].ctr;
            let actor_ref = ActorId { bytes: clone_bytes(&pred[j].actor.bytes) };
            let idx = map_actor(&actor_ref, actors);
            self.ctr.append_value(id_ctr);
            self.actor.append_value(idx as u64);
            proof {
                assert(pred@.skip(j as int)[0] == pred@[j as int]);
                assert(pred@.skip(j as int).skip(1) =~= pred@.skip(j as int + 1));
            }
            j = j + 1;
        }
        proof {
            assert(pred@.skip(j as int) =~= Seq::<OpId>::empty());
        }
    }

    pub fn finish(self) -> (r: Result<(ColData, ColData, ColData), AutomergeError>)
        ensures
            match r {
                Ok(p) => {
                    &&& p.0.col == COL_PRED_NUM
                    &&& p.0.data@ == crate::encoding::rle_u_enc(
                        crate::encoding::trim_nulls(self.num.items@),
                    )
                    &&& p.1.col == COL_PRED_ACTOR
                    &&& p.1.data@ == crate::encoding::rle_u_enc(
                        crate::encoding::trim_nulls(self.actor.items@),
                    )
                    &&& p.2.col == COL_PRED_CTR
                    &&& p.2.data@ == crate::delta::delta_enc(self.ctr.items@)
                    &&& self.num.items@.len() <= RUN_LIMIT
                    &&& self.actor.items@.len() <= RUN_LIMIT
                    &&& self.ctr.items@.len() <= RUN_LIMIT
                },
                Err(e) => {
                    &&& e == AutomergeError::InvalidChange
                    &&& (self.num.items@.len() > RUN_LIMIT || self.actor.items@.len() > RUN_LIMIT
                        || self.ctr.items@.len() > RUN_LIMIT)
                },
            },
    {
        let n = match self.num.finish(COL_PRED_NUM) {
            Ok(c) => c,
            Err(e) => { return Err(e); }
        };
        let a = match self.actor.finish(COL_PRED_ACTOR) {
            Ok(c) => c,
            Err(e) => { return Err(e); }
        };
        let c = match self.ctr.finish(COL_PRED_CTR) {
            Ok(c) => c,
            Err(e) => { return Err(e); }
        };
        Ok((n, a, c))
    }
}

/// The successor columns of the document form: group cardinality, actor
/// index, counter (delta). Actor indices are already resolved here.
pub struct SuccEncoder {
    pub num: UintRle,
    pub actor: UintRle,
    pub ctr: DeltaCol,
}

impl SuccEncoder {
    pub fn new() -> (r: SuccEncoder)
        ensures
            r.num.items@ == Seq::<Option<u64>>::empty(),
            r.actor.items@ == Seq::<Option<u64>>::empty(),
            r.ctr.items@ == Seq::<Option<u64>>::empty(),
    {
        SuccEncoder { num: UintRle::new(), actor: UintRle::new(), ctr: DeltaCol::new() }
    }

    /// One successor list: counter/actor-index pairs.
    pub fn append(&mut self, succ: &Vec<(u64, u64)>)
        requires
            succ@.len() <= 0xffff_ffff,
        ensures
            final(self).num.items@ == old(self).num.items@.push(Some(succ@.len() as u64)),
            final(self).ctr.items@ == old(self).ctr.items@ + succ@.map_values(
                |p: (u64, u64)| Some(p.0),
            ),
            final(self).actor.items@ == old(self).actor.items@ + succ@.map_values(
                |p: (u64, u64)| Some(p.1),
            ),
    {
        self.num.append_value(succ.len() as u64);
        let ghost c0 = self.ctr.items@;
        let ghost a0 = self.actor.items@;
        let mut j: usize = 0;
        while j < succ.len()
            invariant
                j <= succ@.len(),
                self.num.items@ == old(self).num.items@.push(Some(succ@.len() as u64)),
                self.ctr.items@ == c0 + succ@.take(j as int).map_values(
                    |p: (u64, u64)| Some(p.0),
                ),
                self.actor.items@ == a0 + succ@.take(j as int).map_values(
                    |p: (u64, u64)| Some(p.1),
                ),
            decreases succ@.len() - j,
        {
            let (c, a) = succ[j];
            self.ctr.append_value(c);
            self.actor.append_value(a);
            proof {
                assert(self.ctr.items@ =~~= c0 + succ@.take(j as int + 1).map_values(
                    |p: (u64, u64)| Some(p.0),
                ));
                assert(self.actor.items@ =~~= a0 + succ@.take(j as int + 1).map_values(
                    |p: (u64, u64)| Some(p.1),
                ));
            }
            j = j + 1;
        }
        proof {
            assert(succ@.take(j as int) =~= succ@);
        }
    }

    pub fn finish(self) -> (r: Result<(ColData, ColData, ColData), AutomergeError>)
        ensures
            match r {
                Ok(p) => {
                    &&& p.0.col == COL_SUCC_NUM
                    &&& p.0.data@ == crate::encoding::rle_u_enc(
                        crate::encoding::trim_nulls(self.num.items@),
                    )
                    &&& p.1.col == COL_SUCC_ACTOR
                    &&& p.1.data@ == crate::encoding::rle_u_enc(
                        crate::encoding::trim_nulls(self.actor.items@),
                    )
                    &&& p.2.col == COL_SUCC_CTR
                    &&& p.2.data@ == crate::delta::delta_enc(self.ctr.items@)
                    &&& self.num.items@.len() <= RUN_LIMIT
                    &&& self.actor.items@.len() <= RUN_LIMIT
                    &&& self.ctr.items@.len() <= RUN_LIMIT
                },
                Err(e) => {
                    &&& e == AutomergeError::InvalidChange
                    &&& (self.num.items@.len() > RUN_LIMIT || self.actor.items@.len() > RUN_LIMIT
                        || self.ctr.items@.len() > RUN_LIMIT)
                },
            },
    {
        let n = match self.num.finish(COL_SUCC_NUM) {
            Ok(c) => c,
            Err(e) => { return Err(e); }
        };
        let a = match self.actor.finish(COL_SUCC_ACTOR) {
            Ok(c) => c,
            Err(e) => { return Err(e); }
        };
        let c = match self.ctr.finish(COL_SUCC_CTR) {
            Ok(c) => c,
            Err(e) => { return Err(e); }
        };
        Ok((n, a, c))
    }
}

// ------------------------------------------------------------------
// The operation column group
// ------------------------------------------------------------------

/// The items of every operation column, plus the actor table, as they stand
/// after some operations have been appended.
pub struct OpCols {
    pub obj_actor: Seq<Option<u64>>,
    pub obj_ctr: Seq<Option<u64>>,
    pub key_actor: Seq<Option<u64>>,
    pub key_ctr: Seq<Option<u64>>,
    pub key_str: Seq<Option<Seq<u8>>>,
    pub insert: Seq<bool>,
    pub action: Seq<Option<u64>>,
    pub val_len: Seq<Option<u64>>,
    pub val_raw: Seq<u8>,
    pub ref_actor: Seq<Option<u64>>,
    pub ref_ctr: Seq<Option<u64>>,
    pub pred_num: Seq<Option<u64>>,
    pub pred_actor: Seq<Option<u64>>,
    pub pred_ctr: Seq<Option<u64>>,
    pub table: Seq<Seq<u8>>,
}

/// The reference columns' entries: present only for a cursor value.
pub open spec fn ref_items(action: OpType) -> (Option<u64>, Option<u64>)
    recommends action.valid(),
{
    match action {
        OpType::Put(ScalarValue::Cursor(_)) => (Some(0), Some(0)),
        _ => (None, None),
    }
}

/// What one operation appends to every column. Interning order is the order
/// the fields are appended in: object, key, predecessors, then a cursor
/// reference.
pub open spec fn op_cols_step(st: OpCols, op: Op) -> OpCols {
    let t1 = obj_upd(st.table, op.obj);
    let t2 = key_upd(t1, op.key);
    let ps = pred_fold(
        PredSt { actor: st.pred_actor, ctr: st.pred_ctr, table: t2 },
        op.pred@,
    );
    let t3 = ps.table;
    let t4 = match op.action {
        OpType::Put(ScalarValue::Cursor(id)) => ma_upd(t3, id.actor.bytes@),
        _ => t3,
    };
    let rf = match op.action {
        OpType::Put(ScalarValue::Cursor(id)) => (
            Some(ma_idx(t3, id.actor.bytes@) as u64),
            Some(id.ctr),
        ),
        _ => (None::<u64>, None::<u64>),
    };
    let vl = match op.action {
        OpType::Put(v) => Some(val_code(v)),
        OpType::Inc(n) => Some(val_code(ScalarValue::Int(n))),
        _ => Some(VALUE_TYPE_NULL),
    };
    let vr = match op.action {
        OpType::Put(v) => val_payload(v),
        OpType::Inc(n) => val_payload(ScalarValue::Int(n)),
        _ => Seq::empty(),
    };
    OpCols {
        obj_actor: st.obj_actor.push(obj_actor_item(st.table, op.obj)),
        obj_ctr: st.obj_ctr.push(obj_ctr_item(op.obj)),
        key_actor: st.key_actor.push(key_actor_item(t1, op.key)),
        key_ctr: st.key_ctr.push(key_ctr_item(op.key)),
        key_str: st.key_str.push(key_str_item(op.key)),
        insert: st.insert.push(op.insert),
        action: st.action.push(Some(action_code(op.action))),
        val_len: st.val_len.push(vl),
        val_raw: st.val_raw + vr,
        ref_actor: st.ref_actor.push(rf.0),
        ref_ctr: st.ref_ctr.push(rf.1),
        pred_num: st.pred_num.push(Some(op.pred@.len() as u64)),
        pred_actor: ps.actor,
        pred_ctr: ps.ctr,
        table: t4,
    }
}

/// The column state after a whole operation list.
pub open spec fn op_cols_fold(st: OpCols, ops: Seq<Op>) -> OpCols
    decreases ops.len(),
{
    if ops.len() == 0 {
        st
    } else {
        op_cols_fold(op_cols_step(st, ops[0]), ops.skip(1))
    }
}

/// The empty column state over a starting actor table.
pub open spec fn op_cols_init(table: Seq<Seq<u8>>) -> OpCols {
    OpCols {
        obj_actor: Seq::empty(),
        obj_ctr: Seq::empty(),
        key_actor: Seq::empty(),
        key_ctr: Seq::empty(),
        key_str: Seq::empty(),
        insert: Seq::empty(),
        action: Seq::empty(),
        val_len: Seq::empty(),
        val_raw: Seq::empty(),
        ref_actor: Seq::empty(),
        ref_ctr: Seq::empty(),
        pred_num: Seq::empty(),
        pred_actor: Seq::empty(),
        pred_ctr: Seq::empty(),
        table,
    }
}

/// Whether any operation column grew past what a run length can hold: the
/// one condition under which encoding a change's operations fails.
pub open spec fn cols_over(st: OpCols) -> bool {
    ||| st.obj_actor.len() > RUN_LIMIT
    ||| st.obj_ctr.len() > RUN_LIMIT
    ||| st.key_actor.len() > RUN_LIMIT
    ||| st.key_ctr.len() > RUN_LIMIT
    ||| st.key_str.len() > RUN_LIMIT
    ||| st.action.len() > RUN_LIMIT
    ||| st.val_len.len() > RUN_LIMIT
    ||| st.ref_actor.len() > RUN_LIMIT
    ||| st.ref_ctr.len() > RUN_LIMIT
    ||| st.pred_num.len() > RUN_LIMIT
    ||| st.pred_actor.len() > RUN_LIMIT
    ||| st.pred_ctr.len() > RUN_LIMIT
}

/// The finished bytes of each operation column, paired with its id, in
/// ascending id order.
pub open spec fn op_col_list(st: OpCols) -> Seq<(u32, Seq<u8>)> {
    seq![
        (COL_OBJ_ACTOR, crate::encoding::rle_u_enc(crate::encoding::trim_nulls(st.obj_actor))),
        (COL_OBJ_CTR, crate::encoding::rle_u_enc(crate::encoding::trim_nulls(st.obj_ctr))),
        (COL_KEY_ACTOR, crate::encoding::rle_u_enc(crate::encoding::trim_nulls(st.key_actor))),
        (COL_KEY_CTR, crate::delta::delta_enc(st.key_ctr)),
        (COL_KEY_STR, crate::strcol::rle_s_enc(crate::strcol::trim_nulls_s(st.key_str))),
        (COL_INSERT, crate::boolcol::bool_enc(st.insert)),
        (COL_ACTION, crate::encoding::rle_u_enc(crate::encoding::trim_nulls(st.action))),
        (COL_VAL_LEN, crate::encoding::rle_u_enc(crate::encoding::trim_nulls(st.val_len))),
        (COL_VAL_RAW, st.val_raw),
        (COL_REF_ACTOR, crate::encoding::rle_u_enc(crate::encoding::trim_nulls(st.ref_actor))),
        (COL_REF_CTR, crate::encoding::rle_u_enc(crate::encoding::trim_nulls(st.ref_ctr))),
        (COL_PRED_NUM, crate::encoding::rle_u_enc(crate::encoding::trim_nulls(st.pred_num))),
        (COL_PRED_ACTOR, crate::encoding::rle_u_enc(crate::encoding::trim_nulls(st.pred_actor))),
        (COL_PRED_CTR, crate::delta::delta_enc(st.pred_ctr)),
    ]
}

/// How many columns of a list are non-empty.
pub open spec fn nonempty_count(cols: Seq<(u32, Seq<u8>)>) -> nat
    decreases cols.len(),
{
    if cols.len() == 0 {
        0
    } else {
        (if cols[0].1.len() > 0 { 1nat } else { 0nat }) + nonempty_count(cols.skip(1))
    }
}

/// The directory entries: id and length of each non-empty column.
pub open spec fn dir_entries(cols: Seq<(u32, Seq<u8>)>) -> Seq<u8>
    decreases cols.len(),
{
    if cols.len() == 0 {
        Seq::empty()
    } else {
        (if cols[0].1.len() > 0 {
            uleb(cols[0].0 as nat) + uleb(cols[0].1.len())
        } else {
            Seq::empty()
        }) + dir_entries(cols.skip(1))
    }
}

/// The concatenated payloads.
pub open spec fn payload_bytes(cols: Seq<(u32, Seq<u8>)>) -> Seq<u8>
    decreases cols.len(),
{
    if cols.len() == 0 {
        Seq::empty()
    } else {
        cols[0].1 + payload_bytes(cols.skip(1))
    }
}

/// A whole column block: the count of non-empty columns, the directory, the
/// payloads.
pub open spec fn col_block(cols: Seq<(u32, Seq<u8>)>) -> Seq<u8> {
    uleb(nonempty_count(cols)) + dir_entries(cols) + payload_bytes(cols)
}

/// Writes a column block: the directory of the non-empty columns in the
/// order given, then their payloads.
pub fn write_col_block(buf: &mut Vec<u8>, cols: &Vec<ColData>)
    ensures
        final(buf)@ == old(buf)@ + col_block(cols@.map_values(|c: ColData| (c.col, c.data@))),
{
    let ghost cl = cols@.map_values(|c: ColData| (c.col, c.data@));
    let mut cnt: u64 = 0;
    let mut i: usize = 0;
    proof {
        assert(cl.skip(0) =~= cl);
    }
    while i < cols.len()
        invariant
            i <= cols@.len(),
            cl == cols@.map_values(|c: ColData| (c.col, c.data@)),
            cnt <= i,
            cnt as nat + nonempty_count(cl.skip(i as int)) == nonempty_count(cl),
        decreases cols@.len() - i,
    {
        if cols[i].data.len() > 0 {
            cnt = cnt + 1;
        }
        proof {
            assert(cl.skip(i as int).skip(1) =~= cl.skip(i as int + 1));
        }
        i = i + 1;
    }
    proof {
        assert(cl.skip(i as int) =~= Seq::<(u32, Seq<u8>)>::empty());
    }
    write_uleb(buf, cnt);
    let ghost aftercnt = buf@;
    let mut i: usize = 0;
    proof {
        assert(cl.skip(0) =~= cl);
    }
    while i < cols.len()
        invariant
            i <= cols@.len(),
            cl == cols@.map_values(|c: ColData| (c.col, c.data@)),
            buf@ + dir_entries(cl.skip(i as int)) == aftercnt + dir_entries(cl),
        decreases cols@.len() - i,
    {
        if cols[i].data.len() > 0 {
            write_uleb(buf, cols[i].col as u64);
            write_uleb(buf, cols[i].data.len() as u64);
        }
        proof {
            assert(cl.skip(i as int).skip(1) =~= cl.skip(i as int + 1));
            assert(buf@ + dir_entries(cl.skip(i as int + 1)) =~= aftercnt + dir_entries(cl));
        }
        i = i + 1;
    }
    proof {
        assert(cl.skip(i as int) =~= Seq::<(u32, Seq<u8>)>::empty());
    }
    let ghost afterdir = buf@;
    let mut i: usize = 0;
    proof {
        assert(cl.skip(0) =~= cl);
    }
    while i < cols.len()
        invariant
            i <= cols@.len(),
            cl == cols@.map_values(|c: ColData| (c.col, c.data@)),
            buf@ + payload_bytes(cl.skip(i as int)) == afterdir + payload_bytes(cl),
        decreases cols@.len() - i,
    {
        extend_bytes(buf, &cols[i].data);
        proof {
            assert(cl.skip(i as int).skip(1) =~= cl.skip(i as int + 1));
            assert(buf@ + payload_bytes(cl.skip(i as int + 1)) =~= afterdir + payload_bytes(cl));
        }
        i = i + 1;
    }
    proof {
        assert(cl.skip(i as int) =~= Seq::<(u32, Seq<u8>)>::empty());
        assert(buf@ =~= old(buf)@ + col_block(cl));
    }
}

/// The actor table only grows: appending predecessors keeps the existing
/// entries in place.
pub proof fn lemma_pred_fold_table(st: PredSt, pred: Seq<OpId>)
    ensures
        st.table.is_prefix_of(pred_fold(st, pred).table),
    decreases pred.len(),
{
    if pred.len() == 0 {
        assert(st.table =~= st.table.take(st.table.len() as int));
    } else {
        let id = pred[0];
        let st2 = PredSt {
            actor: st.actor.push(Some(ma_idx(st.table, id.actor.bytes@) as u64)),
            ctr: st.ctr.push(Some(id.ctr)),
            table: ma_upd(st.table, id.actor.bytes@),
        };
        lemma_actor_idx_bounds(st.table, id.actor.bytes@);
        lemma_pred_fold_table(st2, pred.skip(1));
        lemma_prefix_trans(st.table, st2.table, pred_fold(st, pred).table);
    }
}

proof fn lemma_prefix_trans(a: Seq<Seq<u8>>, b: Seq<Seq<u8>>, c: Seq<Seq<u8>>)
    requires
        a.is_prefix_of(b),
        b.is_prefix_of(c),
    ensures
        a.is_prefix_of(c),
{
    assert(a =~= c.take(a.len() as int)) by {
        assert(a =~= b.take(a.len() as int));
        assert(b =~= c.take(b.len() as int));
    }
}

/// The actor table only grows across a whole operation list, so index zero
/// keeps holding the change's own actor.
pub proof fn lemma_fold_table_prefix(st: OpCols, ops: Seq<Op>)
    ensures
        st.table.is_prefix_of(op_cols_fold(st, ops).table),
    decreases ops.len(),
{
    if ops.len() == 0 {
        assert(st.table =~= st.table.take(st.table.len() as int));
    } else {
        let op = ops[0];
        let st2 = op_cols_step(st, op);
        assert(st.table.is_prefix_of(st2.table)) by {
            let t1 = obj_upd(st.table, op.obj);
            let t2 = key_upd(t1, op.key);
            let ps = pred_fold(PredSt { actor: st.pred_actor, ctr: st.pred_ctr, table: t2 }, op.pred@);
            let t3 = ps.table;
            assert(st.table.is_prefix_of(t1)) by {
                match op.obj {
                    ObjectId::Root => {
                        assert(st.table =~= st.table.take(st.table.len() as int));
                    }
                    ObjectId::Id(id) => {
                        lemma_actor_idx_bounds(st.table, id.actor.bytes@);
                    }
                }
            }
            assert(t1.is_prefix_of(t2)) by {
                match op.key {
                    Key::Elem(id) => {
                        lemma_actor_idx_bounds(t1, id.actor.bytes@);
                    }
                    _ => {
                        assert(t1 =~= t1.take(t1.len() as int));
                    }
                }
            }
            lemma_pred_fold_table(PredSt { actor: st.pred_actor, ctr: st.pred_ctr, table: t2 }, op.pred@);
            assert(t3.is_prefix_of(st2.table)) by {
                match op.action {
                    OpType::Put(ScalarValue::Cursor(id)) => {
                        lemma_actor_idx_bounds(t3, id.actor.bytes@);
                    }
                    _ => {
                        assert(t3 =~= t3.take(t3.len() as int));
                    }
                }
            }
            lemma_prefix_trans(st.table, t1, t2);
            lemma_prefix_trans(st.table, t2, t3);
            lemma_prefix_trans(st.table, t3, st2.table);
        }
        lemma_fold_table_prefix(st2, ops.skip(1));
        lemma_prefix_trans(st.table, st2.table, op_cols_fold(st, ops).table);
    }
}

/// All the operation columns of a change, appended one operation at a time.
pub struct ColumnEncoder {
    pub obj: ObjEncoder,
    pub key: KeyEncoder,
    pub insert: BoolCol,
    pub action: UintRle,
    pub val: ValEncoder,
    pub pred: PredEncoder,
    pub ref_actor: UintRle,
    pub ref_counter: UintRle,
}

impl ColumnEncoder {
    /// The spec state of this encoder against an actor table.
    pub open spec fn st(&self, table: Seq<Seq<u8>>) -> OpCols {
        OpCols {
            obj_actor: self.obj.actor.items@,
            obj_ctr: self.obj.ctr.items@,
            key_actor: self.key.actor.items@,
            key_ctr: self.key.ctr.items@,
            key_str: self.key.str_col.view_items(),
            insert: self.insert.items@,
            action: self.action.items@,
            val_len: self.val.len.items@,
            val_raw: self.val.raw@,
            ref_actor: self.ref_actor.items@,
            ref_ctr: self.ref_counter.items@,
            pred_num: self.pred.num.items@,
            pred_actor: self.pred.actor.items@,
            pred_ctr: self.pred.ctr.items@,
            table,
        }
    }

    pub fn new() -> (r: ColumnEncoder)
        ensures
            forall|t: Seq<Seq<u8>>| #[trigger] r.st(t) == op_cols_init(t),
    {
        let r = ColumnEncoder {
            obj: ObjEncoder::new(),
            key: KeyEncoder::new(),
            insert: BoolCol::new(),
            action: UintRle::new(),
            val: ValEncoder::new(),
            pred: PredEncoder::new(),
            ref_actor: UintRle::new(),
            ref_counter: UintRle::new(),
        };
        proof {
            assert forall|t: Seq<Seq<u8>>| #[trigger] r.st(t) == op_cols_init(t) by {
                assert(r.st(t) =~~= op_cols_init(t));
            }
        }
        r
    }

    /// Appends one operation to every column.
    pub fn append(&mut self, op: &Op, actors: &mut Vec<ActorId>)
        requires
            op.valid(),
        ensures
            final(self).st(aviews(final(actors)@)) == op_cols_step(
                old(self).st(aviews(old(actors)@)),
                *op,
            ),
    {
        let ghost st0 = self.st(aviews(actors@));
        self.obj.append(&op.obj, actors);
        self.key.append(&op.key, actors);
        self.insert.append(op.insert);
        self.pred.append(&op.pred, actors);
        match &op.action {
            OpType::Put(value) => {
                match value {
                    ScalarValue::Cursor(id) => {
                        let idx = map_actor(&id.actor, actors);
                        self.ref_actor.append_value(idx as u64);
                        self.ref_counter.append_value(id.ctr);
                    }
                    _ => {
                        self.ref_actor.append_null();
                        self.ref_counter.append_null();
                    }
                }
                self.val.append_value(value);
                self.action.append_value(1);
            }
            OpType::Inc(n) => {
                let m = *n;
                self.val.append_value(&ScalarValue::Int(m));
                self.ref_actor.append_null();
                self.ref_counter.append_null();
                self.action.append_value(5);
            }
            OpType::Del => {
                self.val.append_null();
                self.ref_actor.append_null();
                self.ref_counter.append_null();
                self.action.append_value(3);
            }
            OpType::MakeMap => {
                self.val.append_null();
                self.ref_actor.append_null();
                self.ref_counter.append_null();
                self.action.append_value(0);
            }
            OpType::MakeList => {
                self.val.append_null();
                self.ref_actor.append_null();
                self.ref_counter.append_null();
                self.action.append_value(2);
            }
            OpType::MakeText => {
                self.val.append_null();
                self.ref_actor.append_null();
                self.ref_counter.append_null();
                self.action.append_value(4);
            }
            OpType::MakeTable => {
                self.val.append_null();
                self.ref_actor.append_null();
                self.ref_counter.append_null();
                self.action.append_value(6);
            }
        }
        proof {
            assert(self.st(aviews(actors@)) =~~= op_cols_step(st0, *op));
        }
    }

    /// Encodes a whole operation list over a starting actor table: the
    /// operation column block of a change body.
    pub fn encode_ops(ops: &Vec<Op>, actors: &mut Vec<ActorId>) -> (r: Result<
        Vec<u8>,
        AutomergeError,
    >)
        requires
            forall|i: int| 0 <= i < ops@.len() ==> (#[trigger] ops@[i]).valid(),
        ensures
            ({
                let st = op_cols_fold(op_cols_init(aviews(old(actors)@)), ops@);
                &&& (r is Err <==> cols_over(st))
                &&& match r {
                    Ok(data) => {
                        &&& data@ == col_block(op_col_list(st))
                        &&& aviews(final(actors)@) == st.table
                    },
                    Err(e) => e == AutomergeError::InvalidChange,
                }
            }),
    {
        let mut e = ColumnEncoder::new();
        let ghost t0 = aviews(actors@);
        let mut i: usize = 0;
        proof {
            assert(ops@.skip(0) =~= ops@);
        }
        while i < ops.len()
            invariant
                i <= ops@.len(),
                forall|k: int| 0 <= k < ops@.len() ==> (#[trigger] ops@[k]).valid(),
                op_cols_fold(e.st(aviews(actors@)), ops@.skip(i as int)) == op_cols_fold(
                    op_cols_init(t0),
                    ops@,
                ),
            decreases ops@.len() - i,
        {
            e.append(&ops[i], actors);
            proof {
                assert(ops@.skip(i as int)[0] == ops@[i as int]);
                assert(ops@.skip(i as int).skip(1) =~= ops@.skip(i as int + 1));
            }
            i = i + 1;
        }
        proof {
            assert(ops@.skip(i as int) =~= Seq::<Op>::empty());
        }
        e.finish()
    }

    /// Finishes every column and assembles the block, in ascending
    /// column-id order.
    pub fn finish(self) -> (r: Result<Vec<u8>, AutomergeError>)
        ensures
            (r is Err <==> cols_over(self.st(Seq::empty()))),
            match r {
                Ok(data) => forall|t: Seq<Seq<u8>>| data@ == col_block(
                    op_col_list(#[trigger] self.st(t)),
                ),
                Err(e) => e == AutomergeError::InvalidChange,
            },
    {
        let (obj_a, obj_c) = match self.obj.finish() {
            Ok(p) => p,
            Err(e) => { return Err(e); }
        };
        let (key_a, key_c, key_s) = match self.key.finish() {
            Ok(p) => p,
            Err(e) => { return Err(e); }
        };
        let insert_col = self.insert.finish(COL_INSERT);
        let action_col = match self.action.finish(COL_ACTION) {
            Ok(c) => c,
            Err(e) => { return Err(e); }
        };
        let (val_len, val_raw) = match self.val.finish() {
            Ok(p) => p,
            Err(e) => { return Err(e); }
        };
        let ref_a = match self.ref_actor.finish(COL_REF_ACTOR) {
            Ok(c) => c,
            Err(e) => { return Err(e); }
        };
        let ref_c = match self.ref_counter.finish(COL_REF_CTR) {
            Ok(c) => c,
            Err(e) => { return Err(e); }
        };
        let (pred_n, pred_a, pred_c) = match self.pred.finish() {
            Ok(p) => p,
            Err(e) => { return Err(e); }
        };
        let mut cols: Vec<ColData> = Vec::new();
        cols.push(obj_a);
        cols.push(obj_c);
        cols.push(key_a);
        cols.push(key_c);
        cols.push(key_s);
        cols.push(insert_col);
        cols.push(action_col);
        cols.push(val_len);
        cols.push(val_raw);
        cols.push(ref_a);
        cols.push(ref_c);
        cols.push(pred_n);
        cols.push(pred_a);
        cols.push(pred_c);
        let mut data: Vec<u8> = Vec::new();
        write_col_block(&mut data, &cols);
        proof {
            assert forall|t: Seq<Seq<u8>>| data@ == col_block(
                op_col_list(#[trigger] self.st(t)),
            ) by {
                assert(cols@.map_values(|c: ColData| (c.col, c.data@)) =~~= op_col_list(
                    self.st(t),
                ));
            }
        }
        Ok(data)
    }
}

} // verus!
