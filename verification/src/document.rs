//! The document column groups: a document chunk carries a change-metadata
//! group and a document-operation group, the latter with successor
//! references in place of predecessors. The writers here pin their column
//! items exactly; the iterators replay decoded columns.

use vstd::prelude::*;

use crate::error::AutomergeError;
use crate::encoding::{ColData, UintRle, col_at};
use crate::delta::DeltaCol;
use crate::strcol::StrRle;
use crate::boolcol::BoolCol;
use crate::columnar::{
    DOC_ACTOR, DOC_SEQ, DOC_MAX_OP, DOC_TIME, DOC_MESSAGE, DOC_DEPS_NUM, DOC_DEPS_INDEX,
    DOC_EXTRA_LEN, DOC_EXTRA_RAW, COL_ID_ACTOR, COL_ID_CTR, COL_INSERT, COL_ACTION,
    COL_REF_ACTOR, COL_REF_CTR, ObjEncoder, KeyEncoder, ValEncoder, SuccEncoder, extend_bytes,
    write_col_block, col_block,
};
use crate::types::{ActorId, ObjectId, Key, ScalarValue, OpType, VDocOp, VALUE_TYPE_BYTES};
use crate::change::{
    ValCell, cell_view, val_parse, val_parse_exec, asm_act, cat_u, cat_b, cat_s, table_actor,
    clone_op, Change,
};
use crate::columnar::{aviews, actor_idx, lemma_actor_idx_is};
use crate::strcol::bytes_eq;

verus! {

/// One change's row in the document metadata group: indices and scalars
/// already resolved against the document's actor table and change order.
pub struct DocChangeRow {
    pub actor: u64,
    pub seq: u64,
    pub max_op: u64,
    pub time: i64,
    pub message: Option<Vec<u8>>,
    pub deps: Vec<u64>,
    pub extra: Vec<u8>,
}

/// A signed epoch second in the unsigned delta column: two's complement,
/// as the change codec's own signed encoding also wraps.
pub open spec fn time_wrap(t: i64) -> u64 {
    if t >= 0 {
        t as u64
    } else {
        (t + 0x1_0000_0000_0000_0000) as u64
    }
}

/// The items of every metadata column after some rows.
pub struct MetaCols {
    pub actor: Seq<Option<u64>>,
    pub seq: Seq<Option<u64>>,
    pub max_op: Seq<Option<u64>>,
    pub time: Seq<Option<u64>>,
    pub message: Seq<Option<Seq<u8>>>,
    pub deps_num: Seq<Option<u64>>,
    pub deps_index: Seq<Option<u64>>,
    pub extra_len: Seq<Option<u64>>,
    pub extra_raw: Seq<u8>,
}

/// What one row appends to the metadata columns.
pub open spec fn meta_step(st: MetaCols, row: DocChangeRow) -> MetaCols {
    MetaCols {
        actor: st.actor.push(Some(row.actor)),
        seq: st.seq.push(Some(row.seq)),
        max_op: st.max_op.push(Some(row.max_op)),
        time: st.time.push(Some(time_wrap(row.time))),
        message: st.message.push(msg_view(row.message)),
        deps_num: st.deps_num.push(Some(row.deps@.len() as u64)),
        deps_index: st.deps_index + row.deps@.map_values(|d: u64| Some(d)),
        extra_len: st.extra_len.push(Some((row.extra@.len() * 16 + VALUE_TYPE_BYTES) as u64)),
        extra_raw: st.extra_raw + row.extra@,
    }
}

pub open spec fn meta_fold(st: MetaCols, rows: Seq<DocChangeRow>) -> MetaCols
    decreases rows.len(),
{
    if rows.len() == 0 {
        st
    } else {
        meta_fold(meta_step(st, rows[0]), rows.skip(1))
    }
}

pub open spec fn meta_init() -> MetaCols {
    MetaCols {
        actor: Seq::empty(),
        seq: Seq::empty(),
        max_op: Seq::empty(),
        time: Seq::empty(),
        message: Seq::empty(),
        deps_num: Seq::empty(),
        deps_index: Seq::empty(),
        extra_len: Seq::empty(),
        extra_raw: Seq::empty(),
    }
}

/// The finished bytes of each metadata column, in ascending id order.
pub open spec fn meta_col_list(st: MetaCols) -> Seq<(u32, Seq<u8>)> {
    seq![
        (DOC_ACTOR, crate::encoding::rle_u_enc(crate::encoding::trim_nulls(st.actor))),
        (DOC_SEQ, crate::delta::delta_enc(st.seq)),
        (DOC_MAX_OP, crate::delta::delta_enc(st.max_op)),
        (DOC_TIME, crate::delta::delta_enc(st.time)),
        (DOC_MESSAGE, crate::strcol::rle_s_enc(crate::strcol::trim_nulls_s(st.message))),
        (DOC_DEPS_NUM, crate::encoding::rle_u_enc(crate::encoding::trim_nulls(st.deps_num))),
        (DOC_DEPS_INDEX, crate::delta::delta_enc(st.deps_index)),
        (DOC_EXTRA_LEN, crate::encoding::rle_u_enc(crate::encoding::trim_nulls(st.extra_len))),
        (DOC_EXTRA_RAW, st.extra_raw),
    ]
}

/// Whether any metadata column grew past what a run length can hold.
pub open spec fn meta_over(st: MetaCols) -> bool {
    ||| st.actor.len() > crate::encoding::RUN_LIMIT
    ||| st.seq.len() > crate::encoding::RUN_LIMIT
    ||| st.max_op.len() > crate::encoding::RUN_LIMIT
    ||| st.time.len() > crate::encoding::RUN_LIMIT
    ||| st.message.len() > crate::encoding::RUN_LIMIT
    ||| st.deps_num.len() > crate::encoding::RUN_LIMIT
    ||| st.deps_index.len() > crate::encoding::RUN_LIMIT
    ||| st.extra_len.len() > crate::encoding::RUN_LIMIT
}

/// The change-metadata column group of a document chunk.
pub struct ChangeEncoder {
    pub actor: UintRle,
    pub seq: DeltaCol,
    pub max_op: DeltaCol,
    pub time: DeltaCol,
    pub message: StrRle,
    pub deps_num: UintRle,
    pub deps_index: DeltaCol,
    pub extra_len: UintRle,
    pub extra_raw: Vec<u8>,
}

impl ChangeEncoder {
    /// The spec state of this encoder.
    pub open spec fn st(&self) -> MetaCols {
        MetaCols {
            actor: self.actor.items@,
            seq: self.seq.items@,
            max_op: self.max_op.items@,
            time: self.time.items@,
            message: self.message.view_items(),
            deps_num: self.deps_num.items@,
            deps_index: self.deps_index.items@,
            extra_len: self.extra_len.items@,
            extra_raw: self.extra_raw@,
        }
    }

    pub fn new() -> (r: ChangeEncoder)
        ensures
            r.actor.items@ == Seq::<Option<u64>>::empty(),
            r.seq.items@ == Seq::<Option<u64>>::empty(),
            r.max_op.items@ == Seq::<Option<u64>>::empty(),
            r.time.items@ == Seq::<Option<u64>>::empty(),
            r.message.view_items() == Seq::<Option<Seq<u8>>>::empty(),
            r.deps_num.items@ == Seq::<Option<u64>>::empty(),
            r.deps_index.items@ == Seq::<Option<u64>>::empty(),
            r.extra_len.items@ == Seq::<Option<u64>>::empty(),
            r.extra_raw@ == Seq::<u8>::empty(),
    {
        let r = ChangeEncoder {
            actor: UintRle::new(),
            seq: DeltaCol::new(),
            max_op: DeltaCol::new(),
            time: DeltaCol::new(),
            message: StrRle::new(),
            deps_num: UintRle::new(),
            deps_index: DeltaCol::new(),
            extra_len: UintRle::new(),
            extra_raw: Vec::new(),
        };
        r
    }

    /// Appends one change's metadata row: one entry per column, the
    /// dependency indices flattened into the deps group.
    pub fn append(&mut self, row: &DocChangeRow)
        requires
            row.extra@.len() * 16 + VALUE_TYPE_BYTES <= u64::MAX,
        ensures
            final(self).actor.items@ == old(self).actor.items@.push(Some(row.actor)),
            final(self).seq.items@ == old(self).seq.items@.push(Some(row.seq)),
            final(self).max_op.items@ == old(self).max_op.items@.push(Some(row.max_op)),
            final(self).time.items@ == old(self).time.items@.push(Some(time_wrap(row.time))),
            final(self).message.view_items() == old(self).message.view_items().push(
                match row.message {
                    None => None,
                    Some(m) => Some(m@),
                },
            ),
            final(self).deps_num.items@ == old(self).deps_num.items@.push(
                Some(row.deps@.len() as u64),
            ),
            final(self).deps_index.items@ == old(self).deps_index.items@ + row.deps@.map_values(
                |d: u64| Some(d),
            ),
            final(self).extra_len.items@ == old(self).extra_len.items@.push(
                Some((row.extra@.len() * 16 + VALUE_TYPE_BYTES) as u64),
            ),
            final(self).extra_raw@ == old(self).extra_raw@ + row.extra@,
            final(self).st() == meta_step(old(self).st(), *row),
    {
        let ghost st0 = self.st();
        self.actor.append_value(row.actor);
        self.seq.append_value(row.seq);
        self.max_op.append_value(row.max_op);
        let tw: u64 = if row.time >= 0 {
            row.time as u64
        } else {
            ((row.time as i128) + 0x1_0000_0000_0000_0000i128) as u64
        };
        self.time.append_value(tw);
        match &row.message {
            None => self.message.append_null(),
            Some(m) => self.message.append_value(crate::strcol::clone_bytes(m)),
        }
        self.deps_num.append_value(row.deps.len() as u64);
        let ghost di0 = self.deps_index.items@;
        let mut j: usize = 0;
        proof {
            assert(di0 + row.deps@.take(0).map_values(|d: u64| Some(d)) =~~= di0);
        }
        while j < row.deps.len()
            invariant
                j <= row.deps@.len(),
                self.actor.items@ == old(self).actor.items@.push(Some(row.actor)),
                self.seq.items@ == old(self).seq.items@.push(Some(row.seq)),
                self.max_op.items@ == old(self).max_op.items@.push(Some(row.max_op)),
                self.time.items@ == old(self).time.items@.push(Some(time_wrap(row.time))),
                self.message.view_items() == old(self).message.view_items().push(
                    match row.message {
                        None => None,
                        Some(m) => Some(m@),
                    },
                ),
                self.deps_num.items@ == old(self).deps_num.items@.push(
                    Some(row.deps@.len() as u64),
                ),
                self.extra_len.items@ == old(self).extra_len.items@,
                self.extra_raw@ == old(self).extra_raw@,
                self.deps_index.items@ == di0 + row.deps@.take(j as int).map_values(
                    |d: u64| Some(d),
                ),
            decreases row.deps@.len() - j,
        {
            self.deps_index.append_value(row.deps[j]);
            proof {
                assert(self.deps_index.items@ =~~= di0 + row.deps@.take(j as int + 1).map_values(
                    |d: u64| Some(d),
                ));
            }
            j = j + 1;
        }
        proof {
            assert(row.deps@.take(j as int) =~= row.deps@);
        }
        let ln = row.extra.len() as u64;
        self.extra_len.append_value(ln * 16 + VALUE_TYPE_BYTES);
        extend_bytes(&mut self.extra_raw, &row.extra);
        proof {
            assert(self.st() =~~= meta_step(st0, *row));
        }
    }

    /// Encodes a whole metadata group: the column block of the rows.
    pub fn encode_changes(rows: &Vec<DocChangeRow>) -> (r: Result<Vec<u8>, AutomergeError>)
        requires
            forall|i: int| 0 <= i < rows@.len() ==> (#[trigger] rows@[i]).extra@.len() * 16
                + VALUE_TYPE_BYTES <= u64::MAX,
        ensures
            ({
                let st = meta_fold(meta_init(), rows@);
                &&& (r is Err <==> meta_over(st))
                &&& match r {
                    Ok(block) => block@ == col_block(meta_col_list(st)),
                    Err(e) => e == AutomergeError::InvalidChange,
                }
            }),
    {
        let mut e = ChangeEncoder::new();
        proof {
            assert(e.st() =~~= meta_init());
            assert(rows@.skip(0) =~= rows@);
        }
        let mut i: usize = 0;
        while i < rows.len()
            invariant
                i <= rows@.len(),
                forall|k: int| 0 <= k < rows@.len() ==> (#[trigger] rows@[k]).extra@.len() * 16
                    + VALUE_TYPE_BYTES <= u64::MAX,
                meta_fold(e.st(), rows@.skip(i as int)) == meta_fold(meta_init(), rows@),
            decreases rows@.len() - i,
        {
            e.append(&rows[i]);
            proof {
                assert(rows@.skip(i as int)[0] == rows@[i as int]);
                assert(rows@.skip(i as int).skip(1) =~= rows@.skip(i as int + 1));
            }
            i = i + 1;
        }
        proof {
            assert(rows@.skip(i as int) =~= Seq::<DocChangeRow>::empty());
        }
        e.finish()
    }

    /// Finishes every metadata column into its block, in ascending
    /// column-id order.
    pub fn finish(self) -> (r: Result<Vec<u8>, AutomergeError>)
        ensures
            (r is Err <==> meta_over(self.st())),
            match r {
                Ok(block) => block@ == col_block(meta_col_list(self.st())),
                Err(e) => e == AutomergeError::InvalidChange,
            },
    {
        let actor = match self.actor.finish(DOC_ACTOR) {
            Ok(c) => c,
            Err(e) => { return Err(e); }
        };
        let seq = match self.seq.finish(DOC_SEQ) {
            Ok(c) => c,
            Err(e) => { return Err(e); }
        };
        let max_op = match self.max_op.finish(DOC_MAX_OP) {
            Ok(c) => c,
            Err(e) => { return Err(e); }
        };
        let time = match self.time.finish(DOC_TIME) {
            Ok(c) => c,
            Err(e) => { return Err(e); }
        };
        let message = match self.message.finish(DOC_MESSAGE) {
            Ok(c) => c,
            Err(e) => { return Err(e); }
        };
        let deps_num = match self.deps_num.finish(DOC_DEPS_NUM) {
            Ok(c) => c,
            Err(e) => { return Err(e); }
        };
        let deps_index = match self.deps_index.finish(DOC_DEPS_INDEX) {
            Ok(c) => c,
            Err(e) => { return Err(e); }
        };
        let extra_len = match self.extra_len.finish(DOC_EXTRA_LEN) {
            Ok(c) => c,
            Err(e) => { return Err(e); }
        };
        let mut cols: Vec<ColData> = Vec::new();
        cols.push(actor);
        cols.push(seq);
        cols.push(max_op);
        cols.push(time);
        cols.push(message);
        cols.push(deps_num);
        cols.push(deps_index);
        cols.push(extra_len);
        cols.push(ColData { col: DOC_EXTRA_RAW, data: self.extra_raw });
        let mut block: Vec<u8> = Vec::new();
        write_col_block(&mut block, &cols);
        proof {
            assert(cols@.map_values(|c: ColData| (c.col, c.data@)) =~~= meta_col_list(
                self.st(),
            ));
        }
        Ok(block)
    }
}

/// One operation's row in the document operation group, its actor already
/// an index and its successors resolved.
pub struct DocOp {
    pub actor: u64,
    pub ctr: u64,
    pub action: OpType,
    pub obj: ObjectId,
    pub key: Key,
    pub succ: Vec<(u64, u64)>,
    pub insert: bool,
}

/// The items of every document-operation column, plus the actor table.
pub struct DocCols {
    pub actor: Seq<Option<u64>>,
    pub ctr: Seq<Option<u64>>,
    pub obj_actor: Seq<Option<u64>>,
    pub obj_ctr: Seq<Option<u64>>,
    pub key_actor: Seq<Option<u64>>,
    pub key_ctr: Seq<Option<u64>>,
    pub key_str: Seq<Option<Seq<u8>>>,
    pub insert: Seq<bool>,
    pub action: Seq<Option<u64>>,
    pub val_len: Seq<Option<u64>>,
    pub val_raw: Seq<u8>,
    pub ref_actor: Seq<Option<u64>>,
    pub ref_ctr: Seq<Option<u64>>,
    pub succ_num: Seq<Option<u64>>,
    pub succ_actor: Seq<Option<u64>>,
    pub succ_ctr: Seq<Option<u64>>,
    pub table: Seq<Seq<u8>>,
}

/// What one document operation appends to every column; interning order is
/// object, key, then a cursor reference.
pub open spec fn doc_op_step(st: DocCols, op: DocOp) -> DocCols {
    let t1 = crate::columnar::obj_upd(st.table, op.obj);
    let t2 = crate::columnar::key_upd(t1, op.key);
    let t3 = match op.action {
        OpType::Put(ScalarValue::Cursor(id)) => crate::columnar::ma_upd(t2, id.actor.bytes@),
        _ => t2,
    };
    let rf = match op.action {
        OpType::Put(ScalarValue::Cursor(id)) => (
            Some(crate::columnar::ma_idx(t2, id.actor.bytes@) as u64),
            Some(id.ctr),
        ),
        _ => (None::<u64>, None::<u64>),
    };
    let vl = match op.action {
        OpType::Put(v) => Some(crate::columnar::val_code(v)),
        OpType::Inc(n) => Some(crate::columnar::val_code(ScalarValue::Int(n))),
        _ => Some(crate::types::VALUE_TYPE_NULL),
    };
    let vr = match op.action {
        OpType::Put(v) => crate::columnar::val_payload(v),
        OpType::Inc(n) => crate::columnar::val_payload(ScalarValue::Int(n)),
        _ => Seq::empty(),
    };
    DocCols {
        actor: st.actor.push(Some(op.actor)),
        ctr: st.ctr.push(Some(op.ctr)),
        obj_actor: st.obj_actor.push(crate::columnar::obj_actor_item(st.table, op.obj)),
        obj_ctr: st.obj_ctr.push(crate::columnar::obj_ctr_item(op.obj)),
        key_actor: st.key_actor.push(crate::columnar::key_actor_item(t1, op.key)),
        key_ctr: st.key_ctr.push(crate::columnar::key_ctr_item(op.key)),
        key_str: st.key_str.push(crate::columnar::key_str_item(op.key)),
        insert: st.insert.push(op.insert),
        action: st.action.push(Some(crate::columnar::action_code(op.action))),
        val_len: st.val_len.push(vl),
        val_raw: st.val_raw + vr,
        ref_actor: st.ref_actor.push(rf.0),
        ref_ctr: st.ref_ctr.push(rf.1),
        succ_num: st.succ_num.push(Some(op.succ@.len() as u64)),
        succ_actor: st.succ_actor + op.succ@.map_values(|p: (u64, u64)| Some(p.1)),
        succ_ctr: st.succ_ctr + op.succ@.map_values(|p: (u64, u64)| Some(p.0)),
        table: t3,
    }
}

pub open spec fn doc_fold(st: DocCols, ops: Seq<DocOp>) -> DocCols
    decreases ops.len(),
{
    if ops.len() == 0 {
        st
    } else {
        doc_fold(doc_op_step(st, ops[0]), ops.skip(1))
    }
}

pub open spec fn doc_init(table: Seq<Seq<u8>>) -> DocCols {
    DocCols {
        actor: Seq::empty(),
        ctr: Seq::empty(),
        obj_actor: Seq::empty(),
        obj_ctr: Seq::empty(),
        key_actor: Seq::empty(),
        key_ctr: Seq::empty(),
        key_str: Seq::empty(),
        insert: Seq::empty(),
        action: Seq::empty(),
        val_len: Seq::empty(),
        val_raw: Seq::empty(),
        ref_actor: Seq::empty(),
        ref_ctr: Seq::empty(),
        succ_num: Seq::empty(),
        succ_actor: Seq::empty(),
        succ_ctr: Seq::empty(),
        table,
    }
}

/// The finished bytes of each document-operation column, in ascending id
/// order.
pub open spec fn doc_col_list(st: DocCols) -> Seq<(u32, Seq<u8>)> {
    seq![
        (
            crate::columnar::COL_OBJ_ACTOR,
            crate::encoding::rle_u_enc(crate::encoding::trim_nulls(st.obj_actor)),
        ),
        (
            crate::columnar::COL_OBJ_CTR,
            crate::encoding::rle_u_enc(crate::encoding::trim_nulls(st.obj_ctr)),
        ),
        (
            crate::columnar::COL_KEY_ACTOR,
            crate::encoding::rle_u_enc(crate::encoding::trim_nulls(st.key_actor)),
        ),
        (crate::columnar::COL_KEY_CTR, crate::delta::delta_enc(st.key_ctr)),
        (
            crate::columnar::COL_KEY_STR,
            crate::strcol::rle_s_enc(crate::strcol::trim_nulls_s(st.key_str)),
        ),
        (
            COL_ID_ACTOR,
            crate::encoding::rle_u_enc(crate::encoding::trim_nulls(st.actor)),
        ),
        (COL_ID_CTR, crate::delta::delta_enc(st.ctr)),
        (COL_INSERT, crate::boolcol::bool_enc(st.insert)),
        (COL_ACTION, crate::encoding::rle_u_enc(crate::encoding::trim_nulls(st.action))),
        (
            crate::columnar::COL_VAL_LEN,
            crate::encoding::rle_u_enc(crate::encoding::trim_nulls(st.val_len)),
        ),
        (crate::columnar::COL_VAL_RAW, st.val_raw),
        (
            COL_REF_ACTOR,
            crate::encoding::rle_u_enc(crate::encoding::trim_nulls(st.ref_actor)),
        ),
        (COL_REF_CTR, crate::encoding::rle_u_enc(crate::encoding::trim_nulls(st.ref_ctr))),
        (
            crate::columnar::COL_SUCC_NUM,
            crate::encoding::rle_u_enc(crate::encoding::trim_nulls(st.succ_num)),
        ),
        (
            crate::columnar::COL_SUCC_ACTOR,
            crate::encoding::rle_u_enc(crate::encoding::trim_nulls(st.succ_actor)),
        ),
        (crate::columnar::COL_SUCC_CTR, crate::delta::delta_enc(st.succ_ctr)),
    ]
}

/// Whether any document-operation column grew past what a run length can
/// hold.
pub open spec fn doc_over(st: DocCols) -> bool {
    ||| st.actor.len() > crate::encoding::RUN_LIMIT
    ||| st.ctr.len() > crate::encoding::RUN_LIMIT
    ||| st.obj_actor.len() > crate::encoding::RUN_LIMIT
    ||| st.obj_ctr.len() > crate::encoding::RUN_LIMIT
    ||| st.key_actor.len() > crate::encoding::RUN_LIMIT
    ||| st.key_ctr.len() > crate::encoding::RUN_LIMIT
    ||| st.key_str.len() > crate::encoding::RUN_LIMIT
    ||| st.action.len() > crate::encoding::RUN_LIMIT
    ||| st.val_len.len() > crate::encoding::RUN_LIMIT
    ||| st.ref_actor.len() > crate::encoding::RUN_LIMIT
    ||| st.ref_ctr.len() > crate::encoding::RUN_LIMIT
    ||| st.succ_num.len() > crate::encoding::RUN_LIMIT
    ||| st.succ_actor.len() > crate::encoding::RUN_LIMIT
    ||| st.succ_ctr.len() > crate::encoding::RUN_LIMIT
}

/// The document operation column group: identifier, object, key, insert,
/// action, value, successor and reference columns.
pub struct DocOpEncoder {
    pub actor: UintRle,
    pub ctr: DeltaCol,
    pub obj: ObjEncoder,
    pub key: KeyEncoder,
    pub insert: BoolCol,
    pub action: UintRle,
    pub val: ValEncoder,
    pub succ: SuccEncoder,
    pub ref_actor: UintRle,
    pub ref_counter: UintRle,
}

impl DocOpEncoder {
    /// The spec state of this encoder against an actor table.
    pub open spec fn st(&self, table: Seq<Seq<u8>>) -> DocCols {
        DocCols {
            actor: self.actor.items@,
            ctr: self.ctr.items@,
            obj_actor: self.obj.actor.items@,
            obj_ctr: self.obj.ctr.items@,
            key_actor: self.key.actor.items@,
            key_ctr: self.key.ctr.items@,
            key_str: self.key.str_col.view_items(),
            insert: self.insert.items@,
            action: self.action.items@,
            val_len: self.val.len.items@,
            val_raw: self.val.raw@,
            ref_actor: self.ref_actor.items@,
            ref_ctr: self.ref_counter.items@,
            succ_num: self.succ.num.items@,
            succ_actor: self.succ.actor.items@,
            succ_ctr: self.succ.ctr.items@,
            table,
        }
    }

    pub fn new() -> (r: DocOpEncoder)
        ensures
            forall|t: Seq<Seq<u8>>| #[trigger] r.st(t) == doc_init(t),
    {
        let r = DocOpEncoder {
            actor: UintRle::new(),
            ctr: DeltaCol::new(),
            obj: ObjEncoder::new(),
            key: KeyEncoder::new(),
            insert: BoolCol::new(),
            action: UintRle::new(),
            val: ValEncoder::new(),
            succ: SuccEncoder::new(),
            ref_actor: UintRle::new(),
            ref_counter: UintRle::new(),
        };
        proof {
            assert forall|t: Seq<Seq<u8>>| #[trigger] r.st(t) == doc_init(t) by {
                assert(r.st(t) =~~= doc_init(t));
            }
        }
        r
    }

    /// Appends one document operation: its identifier columns, the shared
    /// field columns, its successors, and the action with its value or
    /// cursor reference.
    pub fn encode(&mut self, op: &DocOp, actors: &mut Vec<ActorId>)
        requires
            op.action.valid(),
            op.succ@.len() <= 0xffff_ffff,
        ensures
            final(self).st(aviews(final(actors)@)) == doc_op_step(
                old(self).st(aviews(old(actors)@)),
                *op,
            ),
    {
        let ghost st0 = self.st(aviews(actors@));
        self.actor.append_value(op.actor);
        self.ctr.append_value(op.ctr);
        self.obj.append(&op.obj, actors);
        self.key.append(&op.key, actors);
        self.insert.append(op.insert);
        self.succ.append(&op.succ);
        match &op.action {
            OpType::Put(value) => {
                match value {
                    ScalarValue::Cursor(id) => {
                        let idx = crate::columnar::map_actor(&id.actor, actors);
                        self.ref_actor.append_value(idx as u64);
                        self.ref_counter.append_value(id.ctr);
                    }
                    _ => {
                        self.ref_actor.append_null();
                        self.ref_counter.append_null();
                    }
                }
                self.val.append_value(value);
                self.action.append_value(1);
            }
            OpType::Inc(n) => {
                let m = *n;
                self.val.append_value(&ScalarValue::Int(m));
                self.ref_actor.append_null();
                self.ref_counter.append_null();
                self.action.append_value(5);
            }
            OpType::Del => {
                self.val.append_null();
                self.ref_actor.append_null();
                self.ref_counter.append_null();
                self.action.append_value(3);
            }
            OpType::MakeMap => {
                self.val.append_null();
                self.ref_actor.append_null();
                self.ref_counter.append_null();
                self.action.append_value(0);
            }
            OpType::MakeList => {
                self.val.append_null();
                self.ref_actor.append_null();
                self.ref_counter.append_null();
                self.action.append_value(2);
            }
            OpType::MakeText => {
                self.val.append_null();
                self.ref_actor.append_null();
                self.ref_counter.append_null();
                self.action.append_value(4);
            }
            OpType::MakeTable => {
                self.val.append_null();
                self.ref_actor.append_null();
                self.ref_counter.append_null();
                self.action.append_value(6);
            }
        }
        proof {
            assert(self.st(aviews(actors@)) =~~= doc_op_step(st0, *op));
        }
    }

    /// Encodes a whole document operation list over the document's actor
    /// table: the operation column block of a document chunk.
    pub fn encode_doc_ops(ops: &Vec<DocOp>, actors: &mut Vec<ActorId>) -> (r: Result<
        Vec<u8>,
        AutomergeError,
    >)
        requires
            forall|i: int| 0 <= i < ops@.len() ==> (#[trigger] ops@[i]).action.valid()
                && ops@[i].succ@.len() <= 0xffff_ffff,
        ensures
            ({
                let st = doc_fold(doc_init(aviews(old(actors)@)), ops@);
                &&& (r is Err <==> doc_over(st))
                &&& match r {
                    Ok(block) => {
                        &&& block@ == col_block(doc_col_list(st))
                        &&& aviews(final(actors)@) == st.table
                    },
                    Err(e) => e == AutomergeError::InvalidChange,
                }
            }),
    {
        let mut e = DocOpEncoder::new();
        let ghost t0 = aviews(actors@);
        let mut i: usize = 0;
        proof {
            assert(ops@.skip(0) =~= ops@);
        }
        while i < ops.len()
            invariant
                i <= ops@.len(),
                forall|k: int| 0 <= k < ops@.len() ==> (#[trigger] ops@[k]).action.valid()
                    && ops@[k].succ@.len() <= 0xffff_ffff,
                doc_fold(e.st(aviews(actors@)), ops@.skip(i as int)) == doc_fold(
                    doc_init(t0),
                    ops@,
                ),
            decreases ops@.len() - i,
        {
            e.encode(&ops[i], actors);
            proof {
                assert(ops@.skip(i as int)[0] == ops@[i as int]);
                assert(ops@.skip(i as int).skip(1) =~= ops@.skip(i as int + 1));
            }
            i = i + 1;
        }
        proof {
            assert(ops@.skip(i as int) =~= Seq::<DocOp>::empty());
        }
        e.finish()
    }

    /// Finishes every document operation column into its block, in
    /// ascending id order.
    pub fn finish(self) -> (r: Result<Vec<u8>, AutomergeError>)
        ensures
            (r is Err <==> doc_over(self.st(Seq::empty()))),
            match r {
                Ok(block) => forall|t: Seq<Seq<u8>>| block@ == col_block(
                    doc_col_list(#[trigger] self.st(t)),
                ),
                Err(e) => e == AutomergeError::InvalidChange,
            },
    {
        let actor = match self.actor.finish(COL_ID_ACTOR) {
            Ok(c) => c,
            Err(e) => { return Err(e); }
        };
        let ctr = match self.ctr.finish(COL_ID_CTR) {
            Ok(c) => c,
            Err(e) => { return Err(e); }
        };
        let insert_col = self.insert.finish(COL_INSERT);
        let action = match self.action.finish(COL_ACTION) {
            Ok(c) => c,
            Err(e) => { return Err(e); }
        };
        let (obj_a, obj_c) = match self.obj.finish() {
            Ok(p) => p,
            Err(e) => { return Err(e); }
        };
        let (key_a, key_c, key_s) = match self.key.finish() {
            Ok(p) => p,
            Err(e) => { return Err(e); }
        };
        let (val_len, val_raw) = match self.val.finish() {
            Ok(p) => p,
            Err(e) => { return Err(e); }
        };
        let (succ_n, succ_a, succ_c) = match self.succ.finish() {
            Ok(p) => p,
            Err(e) => { return Err(e); }
        };
        let ref_a = match self.ref_actor.finish(COL_REF_ACTOR) {
            Ok(c) => c,
            Err(e) => { return Err(e); }
        };
        let ref_c = match self.ref_counter.finish(COL_REF_CTR) {
            Ok(c) => c,
            Err(e) => { return Err(e); }
        };
        let mut cols: Vec<ColData> = Vec::new();
        cols.push(obj_a);
        cols.push(obj_c);
        cols.push(key_a);
        cols.push(key_c);
        cols.push(key_s);
        cols.push(actor);
        cols.push(ctr);
        cols.push(insert_col);
        cols.push(action);
        cols.push(val_len);
        cols.push(val_raw);
        cols.push(ref_a);
        cols.push(ref_c);
        cols.push(succ_n);
        cols.push(succ_a);
        cols.push(succ_c);
        let mut block: Vec<u8> = Vec::new();
        write_col_block(&mut block, &cols);
        proof {
            assert forall|t: Seq<Seq<u8>>| block@ == col_block(
                doc_col_list(#[trigger] self.st(t)),
            ) by {
                assert(cols@.map_values(|c: ColData| (c.col, c.data@)) =~~= doc_col_list(
                    self.st(t),
                ));
            }
        }
        Ok(block)
    }
}

// ------------------------------------------------------------------
// Iterators over decoded document columns
// ------------------------------------------------------------------

/// Reads `m` values from a flattened group column at `gpos`.
pub open spec fn flat_read(flat: Seq<Option<u64>>, gpos: int, m: nat) -> Option<(Seq<u64>, int)>
    decreases m,
{
    if m == 0 {
        Some((Seq::empty(), gpos))
    } else {
        match col_at(flat, gpos) {
            None => None,
            Some(v) => match flat_read(flat, gpos + 1, (m - 1) as nat) {
                None => None,
                Some((rest, e)) => Some((seq![v] + rest, e)),
            },
        }
    }
}

/// One group of a cardinality column and its flattened value column.
pub open spec fn group_read(
    num: Seq<Option<u64>>,
    flat: Seq<Option<u64>>,
    pos: int,
    gpos: int,
) -> Option<(Seq<u64>, int)> {
    match col_at(num, pos) {
        None => None,
        Some(m) => flat_read(flat, gpos, m as nat),
    }
}

/// Replays a group-cardinality column and its flattened index column:
/// each step yields one change's dependency indices.
pub struct DepsIterator {
    pub num: Vec<Option<u64>>,
    pub dep: Vec<Option<u64>>,
    pub pos: usize,
    pub gpos: usize,
}

impl DepsIterator {
    /// The next change's dependency indices, exactly the next group of the
    /// flattened column.
    pub fn next(&mut self) -> (r: Option<Vec<u64>>)
        ensures
            final(self).num@ == old(self).num@,
            final(self).dep@ == old(self).dep@,
            match r {
                Some(v) => {
                    &&& group_read(
                        old(self).num@,
                        old(self).dep@,
                        old(self).pos as int,
                        old(self).gpos as int,
                    ) == Some((v@, final(self).gpos as int))
                    &&& final(self).pos == old(self).pos + 1
                },
                None => group_read(
                    old(self).num@,
                    old(self).dep@,
                    old(self).pos as int,
                    old(self).gpos as int,
                ) is None || old(self).pos == usize::MAX || final(self).gpos == usize::MAX,
            },
    {
        let m = cat_u(&self.num, self.pos);
        match m {
            None => None,
            Some(m) => {
                let ghost g0 = self.gpos as int;
                let mut out: Vec<u64> = Vec::new();
                let mut j: u64 = 0;
                while j < m
                    invariant
                        j <= m,
                        self.pos == old(self).pos,
                        self.num@ == old(self).num@,
                        self.dep@ == old(self).dep@,
                        g0 == old(self).gpos as int,
                        col_at(old(self).num@, old(self).pos as int) == Some(m),
                        g0 <= self.gpos as int,
                        flat_read(self.dep@, g0, m as nat) == match flat_read(
                            self.dep@,
                            self.gpos as int,
                            (m - j) as nat,
                        ) {
                            None => None::<(Seq<u64>, int)>,
                            Some((rest, e)) => Some((out@ + rest, e)),
                        },
                    decreases m - j,
                {
                    match cat_u(&self.dep, self.gpos) {
                        Some(d) => {
                            let ghost prev = out@;
                            out.push(d);
                            proof {
                                assert(out@ =~= prev.push(d));
                            }
                        }
                        None => {
                            proof {
                                assert(flat_read(
                                    self.dep@,
                                    self.gpos as int,
                                    (m - j) as nat,
                                ) is None);
                                assert(flat_read(self.dep@, g0, m as nat) is None);
                            }
                            return None;
                        }
                    }
                    if self.gpos == usize::MAX {
                        return None;
                    }
                    self.gpos = self.gpos + 1;
                    j = j + 1;
                }
                proof {
                    assert(flat_read(self.dep@, self.gpos as int, 0) == Some(
                        (Seq::<u64>::empty(), self.gpos as int),
                    ));
                    assert(out@ + Seq::<u64>::empty() =~= out@);
                }
                if self.pos == usize::MAX {
                    return None;
                }
                self.pos = self.pos + 1;
                Some(out)
            }
        }
    }
}

/// Replays the extra-bytes columns: a length entry and its raw payload.
pub struct ExtraIterator {
    pub len: Vec<Option<u64>>,
    pub extra: Vec<u8>,
    pub pos: usize,
    pub rc: usize,
}

impl ExtraIterator {
    /// The next change's extra bytes: the declared length from the length
    /// entry's upper bits, taken from the raw pool.
    pub fn next(&mut self) -> (r: Option<Vec<u8>>)
        ensures
            final(self).len@ == old(self).len@,
            final(self).extra@ == old(self).extra@,
            match r {
                Some(v) => {
                    &&& col_at(old(self).len@, old(self).pos as int) matches Some(e) && {
                        &&& old(self).rc + e / 16 <= old(self).extra@.len()
                        &&& v@ == old(self).extra@.subrange(
                            old(self).rc as int,
                            old(self).rc + (e / 16) as int,
                        )
                        &&& final(self).rc == old(self).rc + e / 16
                    }
                    &&& final(self).pos == old(self).pos + 1
                },
                None => col_at(old(self).len@, old(self).pos as int) is None || (col_at(
                    old(self).len@,
                    old(self).pos as int,
                ) matches Some(e) && old(self).rc + e / 16 > old(self).extra@.len())
                    || old(self).pos == usize::MAX,
            },
    {
        let v = cat_u(&self.len, self.pos);
        match v {
            None => None,
            Some(v) => {
                let ln64 = v / 16;
                let el = self.extra.len();
                if self.rc > el || ln64 > (el - self.rc) as u64 {
                    return None;
                }
                let ln = ln64 as usize;
                let mut out: Vec<u8> = Vec::new();
                let mut j: usize = 0;
                while j < ln
                    invariant
                        self.pos == old(self).pos,
                        self.rc == old(self).rc,
                        self.len@ == old(self).len@,
                        self.extra@ == old(self).extra@,
                        self.rc + ln <= el,
                        el == self.extra@.len(),
                        j <= ln,
                        out@ == self.extra@.subrange(self.rc as int, self.rc + j as int),
                    decreases ln - j,
                {
                    out.push(self.extra[self.rc + j]);
                    proof {
                        assert(out@ =~= self.extra@.subrange(
                            self.rc as int,
                            self.rc + j + 1,
                        ));
                    }
                    j = j + 1;
                }
                if self.pos == usize::MAX {
                    return None;
                }
                self.rc = self.rc + ln;
                self.pos = self.pos + 1;
                Some(out)
            }
        }
    }
}

/// Replays the successor group columns: each step yields one operation's
/// counter/actor-index pairs.
pub struct SuccIterator {
    pub succ_num: Vec<Option<u64>>,
    pub succ_actor: Vec<Option<u64>>,
    pub succ_ctr: Vec<Option<u64>>,
    pub pos: usize,
    pub gpos: usize,
}

/// Reads `m` counter/actor pairs from the flattened successor columns.
pub open spec fn pairs_read(
    sa: Seq<Option<u64>>,
    sc: Seq<Option<u64>>,
    gpos: int,
    m: nat,
) -> Option<(Seq<(u64, u64)>, int)>
    decreases m,
{
    if m == 0 {
        Some((Seq::empty(), gpos))
    } else {
        match (col_at(sa, gpos), col_at(sc, gpos)) {
            (Some(a), Some(c)) => match pairs_read(sa, sc, gpos + 1, (m - 1) as nat) {
                None => None,
                Some((rest, e)) => Some((seq![(c, a)] + rest, e)),
            },
            _ => None,
        }
    }
}

impl SuccIterator {
    /// The next operation's successor pairs, exactly the next group of the
    /// flattened columns.
    pub fn next(&mut self) -> (r: Option<Vec<(u64, u64)>>)
        ensures
            final(self).succ_num@ == old(self).succ_num@,
            final(self).succ_actor@ == old(self).succ_actor@,
            final(self).succ_ctr@ == old(self).succ_ctr@,
            match r {
                Some(v) => {
                    &&& col_at(old(self).succ_num@, old(self).pos as int) matches Some(m)
                        && pairs_read(
                        old(self).succ_actor@,
                        old(self).succ_ctr@,
                        old(self).gpos as int,
                        m as nat,
                    ) == Some((v@, final(self).gpos as int))
                    &&& final(self).pos == old(self).pos + 1
                },
                None => col_at(old(self).succ_num@, old(self).pos as int) is None || (col_at(
                    old(self).succ_num@,
                    old(self).pos as int,
                ) matches Some(m) && pairs_read(
                    old(self).succ_actor@,
                    old(self).succ_ctr@,
                    old(self).gpos as int,
                    m as nat,
                ) is None) || old(self).pos == usize::MAX || final(self).gpos == usize::MAX,
            },
    {
        let m = cat_u(&self.succ_num, self.pos);
        match m {
            None => None,
            Some(m) => {
                let ghost g0 = self.gpos as int;
                let mut out: Vec<(u64, u64)> = Vec::new();
                let mut j: u64 = 0;
                while j < m
                    invariant
                        j <= m,
                        self.pos == old(self).pos,
                        self.succ_num@ == old(self).succ_num@,
                        self.succ_actor@ == old(self).succ_actor@,
                        self.succ_ctr@ == old(self).succ_ctr@,
                        g0 == old(self).gpos as int,
                        col_at(old(self).succ_num@, old(self).pos as int) == Some(m),
                        g0 <= self.gpos as int,
                        pairs_read(self.succ_actor@, self.succ_ctr@, g0, m as nat)
                            == match pairs_read(
                            self.succ_actor@,
                            self.succ_ctr@,
                            self.gpos as int,
                            (m - j) as nat,
                        ) {
                            None => None::<(Seq<(u64, u64)>, int)>,
                            Some((rest, e)) => Some((out@ + rest, e)),
                        },
                    decreases m - j,
                {
                    match (cat_u(&self.succ_actor, self.gpos), cat_u(&self.succ_ctr, self.gpos)) {
                        (Some(a), Some(c)) => {
                            let ghost prev = out@;
                            out.push((c, a));
                            proof {
                                assert(out@ =~= prev.push((c, a)));
                            }
                        }
                        _ => {
                            proof {
                                assert(pairs_read(
                                    self.succ_actor@,
                                    self.succ_ctr@,
                                    self.gpos as int,
                                    (m - j) as nat,
                                ) is None);
                                assert(pairs_read(
                                    self.succ_actor@,
                                    self.succ_ctr@,
                                    g0,
                                    m as nat,
                                ) is None);
                            }
                            return None;
                        }
                    }
                    if self.gpos == usize::MAX {
                        return None;
                    }
                    self.gpos = self.gpos + 1;
                    j = j + 1;
                }
                proof {
                    assert(pairs_read(self.succ_actor@, self.succ_ctr@, self.gpos as int, 0)
                        == Some((Seq::<(u64, u64)>::empty(), self.gpos as int)));
                    assert(out@ + Seq::<(u64, u64)>::empty() =~= out@);
                }
                if self.pos == usize::MAX {
                    return None;
                }
                self.pos = self.pos + 1;
                Some(out)
            }
        }
    }
}

/// Replays the value columns: each step parses one length/type entry
/// against the raw pool, yielding a plain value or the cursor marker.
pub struct ValueIterator {
    pub val_len: Vec<Option<u64>>,
    pub val_raw: Vec<u8>,
    pub pos: usize,
    pub rc: usize,
}

impl ValueIterator {
    pub fn next(&mut self) -> (r: Result<ValCell, AutomergeError>)
        ensures
            match r {
                Ok(cell) => {
                    &&& col_at(old(self).val_len@, old(self).pos as int) matches Some(vl)
                        && crate::change::val_parse(vl, old(self).val_raw@, old(self).rc as int)
                        matches Some(p) && p.0 == crate::change::cell_view(cell) && p.1
                        == final(self).rc
                    &&& final(self).pos == old(self).pos + 1
                },
                Err(e) => {
                    &&& e == AutomergeError::EncodingError
                    &&& (old(self).rc > old(self).val_raw@.len() || col_at(
                        old(self).val_len@,
                        old(self).pos as int,
                    ) is None || (col_at(old(self).val_len@, old(self).pos as int)
                        matches Some(vl) && crate::change::val_parse(
                        vl,
                        old(self).val_raw@,
                        old(self).rc as int,
                    ) is None) || old(self).pos == usize::MAX)
                },
            },
    {
        if self.rc > self.val_raw.len() {
            return Err(AutomergeError::EncodingError);
        }
        let vl = if self.pos < self.val_len.len() {
            self.val_len[self.pos]
        } else {
            None
        };
        match vl {
            None => Err(AutomergeError::EncodingError),
            Some(vl) => {
                let (cell, rc2) = match crate::change::val_parse_exec(vl, &self.val_raw, self.rc) {
                    Ok(p) => p,
                    Err(e) => {
                        return Err(e);
                    }
                };
                if self.pos == usize::MAX {
                    return Err(AutomergeError::EncodingError);
                }
                self.rc = rc2;
                self.pos = self.pos + 1;
                Ok(cell)
            }
        }
    }
}

/// Replays the change-metadata columns of a document: each step yields one
/// change's row.
pub struct ChangeIterator {
    pub actor: Vec<Option<u64>>,
    pub seq: Vec<Option<u64>>,
    pub max_op: Vec<Option<u64>>,
    pub time: Vec<Option<u64>>,
    pub message: Vec<Option<Vec<u8>>>,
    pub deps: DepsIterator,
    pub extra: ExtraIterator,
    pub pos: usize,
}

impl ChangeIterator {
    /// Builds the iterator from the decoded metadata columns.
    pub fn new(
        actor: Vec<Option<u64>>,
        seq: Vec<Option<u64>>,
        max_op: Vec<Option<u64>>,
        time: Vec<Option<u64>>,
        message: Vec<Option<Vec<u8>>>,
        deps_num: Vec<Option<u64>>,
        deps_index: Vec<Option<u64>>,
        extra_len: Vec<Option<u64>>,
        extra_raw: Vec<u8>,
    ) -> (r: ChangeIterator)
        ensures
            r.pos == 0,
            r.actor@ == actor@,
            r.seq@ == seq@,
            r.max_op@ == max_op@,
            r.time@ == time@,
            crate::strcol::sviews(r.message@) == crate::strcol::sviews(message@),
            r.deps.num@ == deps_num@,
            r.deps.dep@ == deps_index@,
            r.deps.pos == 0 && r.deps.gpos == 0,
            r.extra.len@ == extra_len@,
            r.extra.extra@ == extra_raw@,
            r.extra.pos == 0 && r.extra.rc == 0,
    {
        ChangeIterator {
            actor,
            seq,
            max_op,
            time,
            message,
            deps: DepsIterator { num: deps_num, dep: deps_index, pos: 0, gpos: 0 },
            extra: ExtraIterator { len: extra_len, extra: extra_raw, pos: 0, rc: 0 },
            pos: 0,
        }
    }

    pub fn next(&mut self) -> (r: Option<DocChangeRow>)
        ensures
            r is Some ==> final(self).pos == old(self).pos + 1,
    {
        let actor = match if self.pos < self.actor.len() {
            self.actor[self.pos]
        } else {
            None
        } {
            Some(a) => a,
            None => {
                return None;
            }
        };
        let seq = match if self.pos < self.seq.len() {
            self.seq[self.pos]
        } else {
            None
        } {
            Some(v) => v,
            None => {
                return None;
            }
        };
        let max_op = match if self.pos < self.max_op.len() {
            self.max_op[self.pos]
        } else {
            None
        } {
            Some(v) => v,
            None => {
                return None;
            }
        };
        let time64 = match if self.pos < self.time.len() {
            self.time[self.pos]
        } else {
            None
        } {
            Some(v) => v,
            None => {
                return None;
            }
        };

        let message = if self.pos < self.message.len() {
            match &self.message[self.pos] {
                Some(m) => Some(crate::strcol::clone_bytes(m)),
                None => None,
            }
        } else {
            None
        };
        let deps = match self.deps.next() {
            Some(d) => d,
            None => {
                return None;
            }
        };
        let extra = match self.extra.next() {
            Some(e) => e,
            None => Vec::new(),
        };
        if self.pos == usize::MAX {
            return None;
        }
        self.pos = self.pos + 1;
        let time: i64 = if time64 <= (i64::MAX as u64) {
            time64 as i64
        } else {
            ((time64 as i128) - 0x1_0000_0000_0000_0000i128) as i64
        };
        Some(
            DocChangeRow {
                actor,
                seq,
                max_op,
                time,
                message,
                deps,
                extra,
            },
        )
    }
}

// ------------------------------------------------------------------
// Fusing decoded document-operation columns back into records
// ------------------------------------------------------------------

/// The spec image of a document operation.
pub open spec fn docop_view(op: DocOp) -> VDocOp {
    VDocOp {
        actor: op.actor,
        ctr: op.ctr,
        action: crate::types::act_view(op.action),
        obj: match op.obj {
            ObjectId::Root => None,
            ObjectId::Id(id) => Some(crate::types::opid_view(id)),
        },
        key: crate::types::key_view(op.key),
        succ: op.succ@,
        insert: op.insert,
    }
}

pub open spec fn doc_ops_views(ops: Seq<DocOp>) -> Seq<VDocOp> {
    ops.map_values(|o: DocOp| docop_view(o))
}

/// The decoded item streams of every document-operation column, plus the
/// document's actor table.
pub struct DocOpStreams {
    pub actor: Vec<Option<u64>>,
    pub ctr: Vec<Option<u64>>,
    pub action: Vec<Option<u64>>,
    pub insert: Vec<bool>,
    pub oa: Vec<Option<u64>>,
    pub oc: Vec<Option<u64>>,
    pub ka: Vec<Option<u64>>,
    pub kc: Vec<Option<u64>>,
    pub ks: Vec<Option<Vec<u8>>>,
    pub vl: Vec<Option<u64>>,
    pub vraw: Vec<u8>,
    pub ra: Vec<Option<u64>>,
    pub rc: Vec<Option<u64>>,
    pub sn: Vec<Option<u64>>,
    pub sa: Vec<Option<u64>>,
    pub sc: Vec<Option<u64>>,
}

/// The spec image of the document-operation streams.
pub struct DocStreams {
    pub actor: Seq<Option<u64>>,
    pub ctr: Seq<Option<u64>>,
    pub action: Seq<Option<u64>>,
    pub insert: Seq<bool>,
    pub oa: Seq<Option<u64>>,
    pub oc: Seq<Option<u64>>,
    pub ka: Seq<Option<u64>>,
    pub kc: Seq<Option<u64>>,
    pub ks: Seq<Option<Seq<u8>>>,
    pub vl: Seq<Option<u64>>,
    pub vraw: Seq<u8>,
    pub ra: Seq<Option<u64>>,
    pub rc: Seq<Option<u64>>,
    pub sn: Seq<Option<u64>>,
    pub sa: Seq<Option<u64>>,
    pub sc: Seq<Option<u64>>,
    pub table: Seq<Seq<u8>>,
}

impl DocOpStreams {
    pub open spec fn view_with(&self, table: Seq<Seq<u8>>) -> DocStreams {
        DocStreams {
            actor: self.actor@,
            ctr: self.ctr@,
            action: self.action@,
            insert: self.insert@,
            oa: self.oa@,
            oc: self.oc@,
            ka: self.ka@,
            kc: self.kc@,
            ks: crate::strcol::sviews(self.ks@),
            vl: self.vl@,
            vraw: self.vraw@,
            ra: self.ra@,
            rc: self.rc@,
            sn: self.sn@,
            sa: self.sa@,
            sc: self.sc@,
            table,
        }
    }
}

/// Reads `m` successor pairs from the group streams: counter and raw actor
/// index, unresolved, as the document form stores them.
pub open spec fn asm_succs(st: DocStreams, scur: int, m: nat) -> Option<(Seq<(u64, u64)>, int)>
    decreases m,
{
    if m == 0 {
        Some((Seq::empty(), scur))
    } else {
        match (col_at(st.sa, scur), col_at(st.sc, scur)) {
            (Some(a), Some(c)) => match asm_succs(st, scur + 1, (m - 1) as nat) {
                None => None,
                Some((rest, e)) => Some((seq![(c, a)] + rest, e)),
            },
            _ => None,
        }
    }
}

/// Assembles one document operation per action entry: identifier, object,
/// key, insert, successors, and the action with its value or cursor
/// reference — the same assembly rules as a change, with successor groups
/// in place of predecessors.
pub open spec fn asm_doc_ops(st: DocStreams, i: nat, scur: int, rcur: int) -> Option<Seq<VDocOp>>
    decreases st.action.len() - i,
{
    if i >= st.action.len() {
        Some(Seq::empty())
    } else {
        let code = st.action[i as int];
        let actor = col_at(st.actor, i as int);
        let ctr = col_at(st.ctr, i as int);
        if code is None || actor is None || ctr is None {
            None
        } else {
            let code = code.unwrap();
            let insert = crate::boolcol::bool_at(st.insert, i as int);
            let obj = match (col_at(st.oa, i as int), col_at(st.oc, i as int)) {
                (Some(a), Some(c)) => if a < st.table.len() {
                    Some(Some(crate::types::VOpId { ctr: c, actor: st.table[a as int] }))
                } else {
                    None
                },
                (None, None) => Some(None),
                _ => None,
            };
            let key = match (
                col_at(st.ka, i as int),
                col_at(st.kc, i as int),
                crate::strcol::scol_at(st.ks, i as int),
            ) {
                (None, None, Some(sv)) => Some(crate::types::VKey::Field(sv)),
                (None, Some(c), None) => if c == 0 {
                    Some(crate::types::VKey::Head)
                } else {
                    None
                },
                (Some(a), Some(c), None) => if a < st.table.len() {
                    Some(
                        crate::types::VKey::Elem(
                            crate::types::VOpId { ctr: c, actor: st.table[a as int] },
                        ),
                    )
                } else {
                    None
                },
                _ => None,
            };
            let refid = match (col_at(st.ra, i as int), col_at(st.rc, i as int)) {
                (Some(a), Some(c)) => if a < st.table.len() {
                    Some(Some(crate::types::VOpId { ctr: c, actor: st.table[a as int] }))
                } else {
                    None
                },
                (None, None) => Some(None),
                _ => None,
            };
            if obj is None || key is None || refid is None {
                None
            } else {
                match col_at(st.sn, i as int) {
                    None => None,
                    Some(m) => match asm_succs(st, scur, m as nat) {
                        None => None,
                        Some((succ, scur2)) => match col_at(st.vl, i as int) {
                            None => None,
                            Some(vl) => match val_parse(vl, st.vraw, rcur) {
                                None => None,
                                Some((cell, rcur2)) => match asm_act(
                                    code,
                                    cell,
                                    refid.unwrap(),
                                ) {
                                    None => None,
                                    Some(act) => match asm_doc_ops(st, i + 1, scur2, rcur2) {
                                        None => None,
                                        Some(rest) => Some(
                                            seq![
                                                VDocOp {
                                                    actor: actor.unwrap(),
                                                    ctr: ctr.unwrap(),
                                                    action: act,
                                                    obj: obj.unwrap(),
                                                    key: key.unwrap(),
                                                    succ,
                                                    insert,
                                                }
                                            ] + rest,
                                        ),
                                    },
                                },
                            },
                        },
                    },
                }
            }
        }
    }
}

/// Reads one operation's successor pairs from the group streams.
fn read_succs(streams: &DocOpStreams, actors: &Vec<ActorId>, scur: usize, m64: u64) -> (r: Result<
    (Vec<(u64, u64)>, usize),
    AutomergeError,
>)
    ensures
        ({
            let st = streams.view_with(aviews(actors@));
            match r {
                Ok((succ, sc2)) => {
                    &&& asm_succs(st, scur as int, m64 as nat) == Some((succ@, sc2 as int))
                    &&& scur <= sc2
                },
                Err(e) => {
                    &&& asm_succs(st, scur as int, m64 as nat) is None
                    &&& e == AutomergeError::EncodingError
                },
            }
        }),
{
    let ghost st = streams.view_with(aviews(actors@));
    let mut succ: Vec<(u64, u64)> = Vec::new();
    let mut sc: usize = scur;
    let mut c2: u64 = 0;
    let sal = streams.sa.len();
    proof {
        assert(succ@ =~= Seq::<(u64, u64)>::empty());
    }
    while c2 < m64
        invariant
            c2 <= m64,
            scur <= sc,
            sal == st.sa.len(),
            st == streams.view_with(aviews(actors@)),
            asm_succs(st, scur as int, m64 as nat) == match asm_succs(
                st,
                sc as int,
                (m64 - c2) as nat,
            ) {
                None => None::<(Seq<(u64, u64)>, int)>,
                Some((rest, e)) => Some((succ@ + rest, e)),
            },
        decreases m64 - c2,
    {
        match (cat_u(&streams.sa, sc), cat_u(&streams.sc, sc)) {
            (Some(a), Some(c)) => {
                let ghost prev = succ@;
                succ.push((c, a));
                proof {
                    assert(succ@ =~= prev.push((c, a)));
                }
                if sc == usize::MAX {
                    proof {
                        assert(col_at(st.sa, sc as int + 1) is None);
                    }
                    return Err(AutomergeError::EncodingError);
                }
                sc = sc + 1;
            }
            _ => {
                return Err(AutomergeError::EncodingError);
            }
        }
        c2 = c2 + 1;
    }
    proof {
        assert(asm_succs(st, sc as int, 0) == Some((Seq::<(u64, u64)>::empty(), sc as int)));
        assert(succ@ + Seq::<(u64, u64)>::empty() =~= succ@);
    }
    Ok((succ, sc))
}

/// Assembles the document operations from their decoded columns: one
/// record per action entry, with the document form's assembly rules.
#[verifier::rlimit(100)]
pub fn assemble_doc_ops(streams: &DocOpStreams, actors: &Vec<ActorId>) -> (r: Result<
    Vec<DocOp>,
    AutomergeError,
>)
    ensures
        ({
            let st = streams.view_with(aviews(actors@));
            match r {
                Ok(ops) => asm_doc_ops(st, 0, 0, 0) == Some(doc_ops_views(ops@)),
                Err(e) => {
                    &&& asm_doc_ops(st, 0, 0, 0) is None
                    &&& e == AutomergeError::EncodingError
                },
            }
        }),
{
    let ghost st = streams.view_with(aviews(actors@));
    let n = streams.action.len();
    let mut out: Vec<DocOp> = Vec::new();
    let mut i: usize = 0;
    let mut scur: usize = 0;
    let mut rcur: usize = 0;
    proof {
        assert(doc_ops_views(out@) =~= Seq::<VDocOp>::empty());
    }
    while i < n
        invariant
            i <= n == st.action.len(),
            st == streams.view_with(aviews(actors@)),
            rcur <= streams.vraw@.len(),
            asm_doc_ops(st, 0, 0, 0) == match asm_doc_ops(
                st,
                i as nat,
                scur as int,
                rcur as int,
            ) {
                None => None::<Seq<VDocOp>>,
                Some(rest) => Some(doc_ops_views(out@) + rest),
            },
        decreases n - i,
    {
        let ghost scur0 = scur as int;
        let ghost rcur0 = rcur as int;
        let code = match cat_u(&streams.action, i) {
            Some(c) => c,
            None => {
                return Err(AutomergeError::EncodingError);
            }
        };
        let op_actor = match cat_u(&streams.actor, i) {
            Some(a) => a,
            None => {
                return Err(AutomergeError::EncodingError);
            }
        };
        let op_ctr = match cat_u(&streams.ctr, i) {
            Some(c) => c,
            None => {
                return Err(AutomergeError::EncodingError);
            }
        };
        let insert = cat_b(&streams.insert, i);
        let obj = match (cat_u(&streams.oa, i), cat_u(&streams.oc, i)) {
            (Some(a), Some(c)) => {
                let actor = match table_actor(actors, a) {
                    Ok(x) => x,
                    Err(e) => {
                        return Err(e);
                    }
                };
                ObjectId::Id(crate::types::OpId { ctr: c, actor })
            }
            (None, None) => ObjectId::Root,
            _ => {
                return Err(AutomergeError::EncodingError);
            }
        };
        let key = match (cat_u(&streams.ka, i), cat_u(&streams.kc, i), cat_s(&streams.ks, i)) {
            (None, None, Some(sv)) => Key::MapKey(sv),
            (None, Some(c), None) => {
                if c == 0 {
                    Key::Head
                } else {
                    return Err(AutomergeError::EncodingError);
                }
            }
            (Some(a), Some(c), None) => {
                let actor = match table_actor(actors, a) {
                    Ok(x) => x,
                    Err(e) => {
                        return Err(e);
                    }
                };
                Key::Elem(crate::types::OpId { ctr: c, actor })
            }
            _ => {
                return Err(AutomergeError::EncodingError);
            }
        };
        let refid = match (cat_u(&streams.ra, i), cat_u(&streams.rc, i)) {
            (Some(a), Some(c)) => {
                let actor = match table_actor(actors, a) {
                    Ok(x) => x,
                    Err(e) => {
                        return Err(e);
                    }
                };
                Some(crate::types::OpId { ctr: c, actor })
            }
            (None, None) => None,
            _ => {
                return Err(AutomergeError::EncodingError);
            }
        };
        let ghost refv: Option<crate::types::VOpId> = match &refid {
            None => None,
            Some(id) => Some(crate::types::opid_view(*id)),
        };
        let m64 = match cat_u(&streams.sn, i) {
            Some(m) => m,
            None => {
                return Err(AutomergeError::EncodingError);
            }
        };
        let (succ, sc2) = match read_succs(streams, actors, scur, m64) {
            Ok(p) => p,
            Err(e) => {
                return Err(e);
            }
        };
        let vl_i = match cat_u(&streams.vl, i) {
            Some(v) => v,
            None => {
                return Err(AutomergeError::EncodingError);
            }
        };
        let (cell, rcur2) = match val_parse_exec(vl_i, &streams.vraw, rcur) {
            Ok(p) => p,
            Err(e) => {
                return Err(e);
            }
        };
        let ghost cellv = cell_view(cell);
        let action: OpType = if code == 1 {
            match (cell, &refid) {
                (ValCell::Mark, Some(id)) => OpType::Put(
                    ScalarValue::Cursor(crate::types::OpId {
                        ctr: id.ctr,
                        actor: ActorId { bytes: crate::strcol::clone_bytes(&id.actor.bytes) },
                    }),
                ),
                (ValCell::Plain(v), None) => OpType::Put(v),
                _ => {
                    return Err(AutomergeError::EncodingError);
                }
            }
        } else if refid.is_some() {
            return Err(AutomergeError::EncodingError);
        } else if code == 5 {
            match cell {
                ValCell::Plain(ScalarValue::Int(nv)) => OpType::Inc(nv),
                _ => {
                    return Err(AutomergeError::EncodingError);
                }
            }
        } else {
            match cell {
                ValCell::Plain(ScalarValue::Null) => {
                    if code == 0 {
                        OpType::MakeMap
                    } else if code == 2 {
                        OpType::MakeList
                    } else if code == 3 {
                        OpType::Del
                    } else if code == 4 {
                        OpType::MakeText
                    } else if code == 6 {
                        OpType::MakeTable
                    } else {
                        return Err(AutomergeError::EncodingError);
                    }
                }
                _ => {
                    return Err(AutomergeError::EncodingError);
                }
            }
        };
        proof {
            assert(asm_act(code, cellv, refv) == Some(crate::types::act_view(action)));
        }
        let ghost prevops = doc_ops_views(out@);
        let op = DocOp { actor: op_actor, ctr: op_ctr, action, obj, key, succ, insert };
        out.push(op);
        proof {
            let stepped = asm_doc_ops(st, i as nat + 1, sc2 as int, rcur2 as int);
            assert(asm_doc_ops(st, i as nat, scur0, rcur0) == match stepped {
                None => None::<Seq<VDocOp>>,
                Some(rest) => Some(seq![docop_view(op)] + rest),
            });
            assert(doc_ops_views(out@) =~= prevops.push(docop_view(op)));
            match stepped {
                None => {}
                Some(rest) => {
                    assert(prevops + (seq![docop_view(op)] + rest) =~= doc_ops_views(out@)
                        + rest);
                }
            }
        }
        scur = sc2;
        rcur = rcur2;
        i = i + 1;
    }
    proof {
        assert(asm_doc_ops(st, i as nat, scur as int, rcur as int) == Some(
            Seq::<VDocOp>::empty(),
        ));
        assert(doc_ops_views(out@) + Seq::<VDocOp>::empty() =~= doc_ops_views(out@));
    }
    Ok(out)
}

// ------------------------------------------------------------------
// Resolving changes into document metadata rows
// ------------------------------------------------------------------

/// The hashes of a change list, in order.
pub open spec fn hashes_of(changes: Seq<Change>) -> Seq<Seq<u8>> {
    changes.map_values(|c: Change| c.hash.bytes@)
}

/// One resolved metadata row: the actor index into the document table, the
/// last operation counter, and each dependency as the position of the
/// earlier change carrying that hash.
pub open spec fn row_wf(row: DocChangeRow, ch: Change, table: Seq<Seq<u8>>, prior: Seq<Seq<u8>>) -> bool {
    &&& ch.actors@.len() > 0
    &&& row.actor as int == actor_idx(table, ch.actors@[0].bytes@)
    &&& actor_idx(table, ch.actors@[0].bytes@) >= 0
    &&& row.seq == ch.seq
    &&& row.time == ch.time
    &&& msg_view(row.message) == (if ch.message@.len() == 0 {
        None::<Seq<u8>>
    } else {
        Some(ch.message@)
    })
    &&& row.max_op as int == (if ch.ops_list@.len() > 0 || ch.start_op > 0 {
        ch.start_op + ch.ops_list@.len() - 1
    } else {
        0int
    })
    &&& row.deps@.len() == ch.deps@.len()
    &&& forall|k: int| 0 <= k < row.deps@.len() ==> (#[trigger] row.deps@[k]) as int
        == actor_idx(prior, ch.deps@[k].bytes@) && actor_idx(prior, ch.deps@[k].bytes@) >= 0
    &&& row.extra@ == ch.extra_bytes@
}

pub open spec fn msg_view(m: Option<Vec<u8>>) -> Option<Seq<u8>> {
    match m {
        None => None,
        Some(v) => Some(v@),
    }
}

/// Every change's own actor is in the table, every dependency hash matches
/// an earlier change, and every last-operation counter fits.
pub open spec fn rows_ok(changes: Seq<Change>, table: Seq<Seq<u8>>) -> bool {
    forall|i: int| 0 <= i < changes.len() ==> {
        let ch = #[trigger] changes[i];
        &&& ch.actors@.len() > 0
        &&& actor_idx(table, ch.actors@[0].bytes@) >= 0
        &&& ch.start_op + ch.ops_list@.len() <= u64::MAX + 1
        &&& forall|k: int| 0 <= k < ch.deps@.len() ==> actor_idx(
            hashes_of(changes).take(i),
            (#[trigger] ch.deps@[k]).bytes@,
        ) >= 0
    }
}

/// Finds the first position of `target` in the hashes of `changes[0..hi]`,
/// as `actor_idx` over those hashes says.
fn find_hash(changes: &Vec<Change>, hi: usize, target: &Vec<u8>) -> (r: Option<u64>)
    requires
        hi <= changes@.len(),
    ensures
        ({
            let prior = hashes_of(changes@).take(hi as int);
            match r {
                Some(j) => j as int == actor_idx(prior, target@) && actor_idx(prior, target@)
                    >= 0,
                None => actor_idx(prior, target@) < 0,
            }
        }),
{
    let ghost prior = hashes_of(changes@).take(hi as int);
    let mut j: usize = 0;
    while j < hi
        invariant
            j <= hi <= changes@.len(),
            prior == hashes_of(changes@).take(hi as int),
            forall|k: int| 0 <= k < j ==> prior[k] != target@,
        decreases hi - j,
    {
        if bytes_eq(&changes[j].hash.bytes, target) {
            proof {
                assert(prior[j as int] == target@);
                lemma_actor_idx_is(prior, target@, j as int);
            }
            return Some(j as u64);
        }
        proof {
            assert(prior[j as int] == changes@[j as int].hash.bytes@);
        }
        j = j + 1;
    }
    proof {
        lemma_actor_idx_is(prior, target@, hi as int);
    }
    None
}

/// Finds an actor's index in the document table.
fn find_actor(actors: &Vec<ActorId>, target: &Vec<u8>) -> (r: Option<u64>)
    ensures
        match r {
            Some(j) => j as int == actor_idx(aviews(actors@), target@) && actor_idx(
                aviews(actors@),
                target@,
            ) >= 0,
            None => actor_idx(aviews(actors@), target@) < 0,
        },
{
    let ghost t = aviews(actors@);
    let mut j: usize = 0;
    while j < actors.len()
        invariant
            j <= actors@.len(),
            t == aviews(actors@),
            forall|k: int| 0 <= k < j ==> t[k] != target@,
        decreases actors@.len() - j,
    {
        if bytes_eq(&actors[j].bytes, target) {
            proof {
                assert(t[j as int] == target@);
                lemma_actor_idx_is(t, target@, j as int);
            }
            return Some(j as u64);
        }
        j = j + 1;
    }
    proof {
        lemma_actor_idx_is(t, target@, actors@.len() as int);
    }
    None
}

/// Resolves parsed changes into document metadata rows: each change's own
/// actor becomes its index in the document table, its last operation
/// counter is computed, and each dependency hash becomes the position of
/// the earlier change that carries it. Fails exactly when an actor is
/// missing from the table, a dependency matches no earlier change, or a
/// change has no actor table or an overflowing operation counter.
#[verifier::rlimit(100)]
pub fn doc_change_rows(changes: &Vec<Change>, actors: &Vec<ActorId>) -> (r: Result<
    Vec<DocChangeRow>,
    AutomergeError,
>)
    ensures
        r is Ok <==> rows_ok(changes@, aviews(actors@)),
        match r {
            Ok(rows) => {
                &&& rows@.len() == changes@.len()
                &&& forall|i: int| 0 <= i < rows@.len() ==> row_wf(
                    #[trigger] rows@[i],
                    changes@[i],
                    aviews(actors@),
                    hashes_of(changes@).take(i),
                )
            },
            Err(e) => e == AutomergeError::InvalidChange,
        },
{
    let ghost table = aviews(actors@);
    let mut rows: Vec<DocChangeRow> = Vec::new();
    let mut i: usize = 0;
    while i < changes.len()
        invariant
            i <= changes@.len(),
            table == aviews(actors@),
            rows@.len() == i,
            forall|k: int| 0 <= k < i ==> {
                let ch = #[trigger] changes@[k];
                &&& ch.actors@.len() > 0
                &&& actor_idx(table, ch.actors@[0].bytes@) >= 0
                &&& ch.start_op + ch.ops_list@.len() <= u64::MAX + 1
                &&& forall|d: int| 0 <= d < ch.deps@.len() ==> actor_idx(
                    hashes_of(changes@).take(k),
                    (#[trigger] ch.deps@[d]).bytes@,
                ) >= 0
            },
            forall|k: int| 0 <= k < i ==> row_wf(
                #[trigger] rows@[k],
                changes@[k],
                table,
                hashes_of(changes@).take(k),
            ),
        decreases changes@.len() - i,
    {
        let ch = &changes[i];
        if ch.actors.len() == 0 {
            return Err(AutomergeError::InvalidChange);
        }
        let actor = match find_actor(actors, &ch.actors[0].bytes) {
            Some(a) => a,
            None => {
                return Err(AutomergeError::InvalidChange);
            }
        };
        let nops = ch.ops_list.len() as u64;
        let max_op: u64 = if nops == 0 {
            if ch.start_op == 0 {
                0
            } else {
                ch.start_op - 1
            }
        } else {
            if ch.start_op > u64::MAX - (nops - 1) {
                return Err(AutomergeError::InvalidChange);
            }
            ch.start_op + (nops - 1)
        };
        let mut deps: Vec<u64> = Vec::new();
        let mut d: usize = 0;
        while d < ch.deps.len()
            invariant
                d <= ch.deps@.len(),
                i < changes@.len(),
                ch == changes@[i as int],
                deps@.len() == d,
                forall|k: int| 0 <= k < d ==> (#[trigger] deps@[k]) as int == actor_idx(
                    hashes_of(changes@).take(i as int),
                    ch.deps@[k].bytes@,
                ) && actor_idx(hashes_of(changes@).take(i as int), ch.deps@[k].bytes@) >= 0,
            decreases ch.deps@.len() - d,
        {
            let j = match find_hash(changes, i, &ch.deps[d].bytes) {
                Some(j) => j,
                None => {
                    return Err(AutomergeError::InvalidChange);
                }
            };
            let ghost prevd = deps@;
            deps.push(j);
            proof {
                assert(deps@ =~= prevd.push(j));
                assert forall|k: int| 0 <= k < d + 1 implies (#[trigger] deps@[k]) as int
                    == actor_idx(
                    hashes_of(changes@).take(i as int),
                    ch.deps@[k].bytes@,
                ) && actor_idx(hashes_of(changes@).take(i as int), ch.deps@[k].bytes@) >= 0 by {
                    if k < d {
                        assert(deps@[k] == prevd[k]);
                    }
                }
            }
            d = d + 1;
        }
        let message = if ch.message.len() == 0 {
            None
        } else {
            Some(crate::strcol::clone_bytes(&ch.message))
        };
        let row = DocChangeRow {
            actor,
            seq: ch.seq,
            max_op,
            time: ch.time,
            message,
            deps,
            extra: crate::strcol::clone_bytes(&ch.extra_bytes),
        };
        let ghost prior = hashes_of(changes@).take(i as int);
        let ghost gdeps = row.deps@;
        rows.push(row);
        proof {
            assert(rows@[i as int].deps@ == gdeps);
            assert forall|d2: int| 0 <= d2 < changes@[i as int].deps@.len() implies actor_idx(
                prior,
                (#[trigger] changes@[i as int].deps@[d2]).bytes@,
            ) >= 0 by {
                assert(gdeps[d2] as int == actor_idx(prior, ch.deps@[d2].bytes@));
            }
            assert(row_wf(rows@[i as int], changes@[i as int], table, prior));
        }
        i = i + 1;
    }
    Ok(rows)
}

} // verus!
