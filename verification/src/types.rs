//! The logical data model: actors, change hashes, operation identifiers,
//! keys, scalar values, operations and logical changes. Strings are carried
//! as UTF-8 byte vectors; 32- and 64-bit float values are carried as their
//! IEEE-754 bit patterns, so the codec itself is exact on them.

use vstd::prelude::*;

verus! {

/// An opaque actor identifier: one to 255 bytes.
#[derive(PartialEq, Eq, Debug, Clone)]
pub struct ActorId {
    pub bytes: Vec<u8>,
}

impl ActorId {
    pub open spec fn valid(&self) -> bool {
        1 <= self.bytes@.len() <= 255
    }
}

/// A 32-byte change hash: the SHA-256 digest of a change's header and body.
#[derive(PartialEq, Eq, Debug, Clone)]
pub struct ChangeHash {
    pub bytes: Vec<u8>,
}

impl ChangeHash {
    pub open spec fn valid(&self) -> bool {
        self.bytes@.len() == 32
    }
}

/// An operation identifier: a counter and the actor that produced it.
#[derive(PartialEq, Eq, Debug, Clone)]
pub struct OpId {
    pub ctr: u64,
    pub actor: ActorId,
}

impl OpId {
    pub open spec fn valid(&self) -> bool {
        self.actor.valid()
    }
}

/// The container an operation targets: the document root or the object made
/// by an earlier operation.
#[derive(PartialEq, Eq, Debug, Clone)]
pub enum ObjectId {
    Root,
    Id(OpId),
}

impl ObjectId {
    pub open spec fn valid(&self) -> bool {
        match self {
            ObjectId::Root => true,
            ObjectId::Id(id) => id.valid(),
        }
    }
}

/// A map key, the list-head sentinel, or a list element identifier.
#[derive(PartialEq, Eq, Debug, Clone)]
pub enum Key {
    MapKey(Vec<u8>),
    Head,
    Elem(OpId),
}

impl Key {
    pub open spec fn valid(&self) -> bool {
        match self {
            Key::MapKey(_) => true,
            Key::Head => true,
            Key::Elem(id) => id.valid(),
        }
    }
}

/// A scalar value. Float values carry their IEEE-754 bit patterns; the
/// `Unknown` variant preserves a reserved value type for round-tripping.
#[derive(PartialEq, Eq, Debug, Clone)]
pub enum ScalarValue {
    Null,
    Boolean(bool),
    Uint(u64),
    Int(i64),
    F32(u32),
    F64(u64),
    Counter(i64),
    Timestamp(i64),
    Str(Vec<u8>),
    Bytes(Vec<u8>),
    Unknown(u8, Vec<u8>),
    Cursor(OpId),
}

pub const VALUE_TYPE_NULL: u64 = 0;
pub const VALUE_TYPE_FALSE: u64 = 1;
pub const VALUE_TYPE_TRUE: u64 = 2;
pub const VALUE_TYPE_LEB128_UINT: u64 = 3;
pub const VALUE_TYPE_LEB128_INT: u64 = 4;
pub const VALUE_TYPE_IEEE754: u64 = 5;
pub const VALUE_TYPE_UTF8: u64 = 6;
pub const VALUE_TYPE_BYTES: u64 = 7;
pub const VALUE_TYPE_COUNTER: u64 = 8;
pub const VALUE_TYPE_TIMESTAMP: u64 = 9;
pub const VALUE_TYPE_CURSOR: u64 = 10;
pub const VALUE_TYPE_MIN_UNKNOWN: u64 = 11;
pub const VALUE_TYPE_MAX_UNKNOWN: u64 = 15;

impl ScalarValue {
    /// Payload lengths must leave room for the four type bits beside them in
    /// the length column, and unknown type tags must stay in the reserved
    /// range.
    pub open spec fn valid(&self) -> bool {
        match self {
            ScalarValue::Str(s) => s@.len() < 0x800_0000_0000_0000,
            ScalarValue::Bytes(b) => b@.len() < 0x800_0000_0000_0000,
            ScalarValue::Unknown(tag, b) => {
                &&& VALUE_TYPE_MIN_UNKNOWN <= *tag as u64 <= VALUE_TYPE_MAX_UNKNOWN
                &&& b@.len() < 0x800_0000_0000_0000
            },
            ScalarValue::Cursor(id) => id.valid(),
            _ => true,
        }
    }
}

/// What an operation does. `Put` assigns a scalar value; the four make
/// variants create containers; `Del` removes; `Inc` adjusts a counter.
#[derive(PartialEq, Eq, Debug, Clone)]
pub enum OpType {
    MakeMap,
    MakeTable,
    MakeList,
    MakeText,
    Del,
    Inc(i64),
    Put(ScalarValue),
}

impl OpType {
    pub open spec fn valid(&self) -> bool {
        match self {
            OpType::Put(v) => v.valid(),
            _ => true,
        }
    }
}

/// One operation of a change.
#[derive(PartialEq, Eq, Debug, Clone)]
pub struct Op {
    pub action: OpType,
    pub obj: ObjectId,
    pub key: Key,
    pub insert: bool,
    pub pred: Vec<OpId>,
}

impl Op {
    pub open spec fn valid(&self) -> bool {
        &&& self.action.valid()
        &&& self.obj.valid()
        &&& self.key.valid()
        &&& self.pred@.len() <= 0xffff_ffff
        &&& forall|i: int| 0 <= i < self.pred@.len() ==> (#[trigger] self.pred@[i]).valid()
    }
}

/// A logical change: a batch of operations by one actor, with its causal
/// dependencies.
#[derive(PartialEq, Eq, Debug, Clone)]
pub struct UncompressedChange {
    pub operations: Vec<Op>,
    pub actor_id: ActorId,
    pub seq: u64,
    pub start_op: u64,
    pub time: i64,
    pub message: Option<Vec<u8>>,
    pub deps: Vec<ChangeHash>,
    pub extra_bytes: Vec<u8>,
}

impl UncompressedChange {
    /// The operand conditions under which a change can be encoded: valid
    /// actors everywhere, 32-byte distinct dependency hashes, a message that
    /// fits its length prefix, and an operation count a run length can hold.
    pub open spec fn valid(&self) -> bool {
        &&& self.actor_id.valid()
        &&& self.operations@.len() <= 0xffff_ffff
        &&& forall|i: int| 0 <= i < self.operations@.len()
            ==> (#[trigger] self.operations@[i]).valid()
        &&& forall|i: int| 0 <= i < self.deps@.len() ==> (#[trigger] self.deps@[i]).valid()
        &&& forall|i: int, j: int|
            0 <= i < j < self.deps@.len() ==> (#[trigger] self.deps@[i]).bytes@
                != (#[trigger] self.deps@[j]).bytes@
    }
}

/// Lexicographic order on byte strings, the order of dependency hashes on
/// the wire.
pub open spec fn bytes_lt(a: Seq<u8>, b: Seq<u8>) -> bool
    decreases a.len(),
{
    if b.len() == 0 {
        false
    } else if a.len() == 0 {
        true
    } else if a[0] < b[0] {
        true
    } else if a[0] > b[0] {
        false
    } else {
        bytes_lt(a.skip(1), b.skip(1))
    }
}

pub proof fn lemma_bytes_lt_total(a: Seq<u8>, b: Seq<u8>)
    ensures
        bytes_lt(a, b) || bytes_lt(b, a) || a == b,
    decreases a.len(),
{
    if b.len() == 0 {
        if a.len() == 0 {
            assert(a =~= b);
        }
    } else if a.len() == 0 {
    } else if a[0] == b[0] {
        lemma_bytes_lt_total(a.skip(1), b.skip(1));
        if a.skip(1) == b.skip(1) {
            assert(a.skip(1).len() == b.skip(1).len());
            assert(a.len() == b.len());
            assert forall|j: int| 1 <= j < a.len() implies a[j] == b[j] by {
                assert(a.skip(1)[j - 1] == a[j]);
                assert(b.skip(1)[j - 1] == b[j]);
            }
            assert(a =~= b);
        }
    }
}

pub proof fn lemma_bytes_lt_asym(a: Seq<u8>, b: Seq<u8>)
    ensures
        !(bytes_lt(a, b) && bytes_lt(b, a)),
        bytes_lt(a, b) ==> a != b,
    decreases a.len(),
{
    if a.len() > 0 && b.len() > 0 && a[0] == b[0] {
        lemma_bytes_lt_asym(a.skip(1), b.skip(1));
        if a.skip(1) == b.skip(1) {
            assert(a.skip(1).len() == b.skip(1).len());
            assert(a.len() == b.len());
            assert forall|j: int| 1 <= j < a.len() implies a[j] == b[j] by {
                assert(a.skip(1)[j - 1] == a[j]);
                assert(b.skip(1)[j - 1] == b[j]);
            }
            assert(a =~= b);
        } else {
            assert(a != b);
        }
    } else if bytes_lt(a, b) && a.len() > 0 && b.len() > 0 {
        assert(a != b);
    } else if bytes_lt(a, b) {
        assert(a.len() == 0 && b.len() > 0);
        assert(a != b);
    }
}

pub proof fn lemma_bytes_lt_trans(a: Seq<u8>, b: Seq<u8>, c: Seq<u8>)
    ensures
        bytes_lt(a, b) && bytes_lt(b, c) ==> bytes_lt(a, c),
    decreases a.len(),
{
    if a.len() > 0 && b.len() > 0 && c.len() > 0 {
        lemma_bytes_lt_trans(a.skip(1), b.skip(1), c.skip(1));
    }
}

/// Executable lexicographic comparison.
pub fn bytes_lt_exec(a: &Vec<u8>, b: &Vec<u8>) -> (r: bool)
    ensures
        r == bytes_lt(a@, b@),
{
    let mut i: usize = 0;
    let an = a.len();
    let bn = b.len();
    proof {
        assert(a@.skip(0) =~= a@);
        assert(b@.skip(0) =~= b@);
    }
    loop
        invariant
            i <= an,
            i <= bn,
            an == a@.len(),
            bn == b@.len(),
            bytes_lt(a@, b@) == bytes_lt(a@.skip(i as int), b@.skip(i as int)),
            forall|j: int| 0 <= j < i ==> a@[j] == b@[j],
        decreases an - i,
    {
        let ghost sa = a@.skip(i as int);
        let ghost sb = b@.skip(i as int);
        if i >= bn {
            assert(sb.len() == 0);
            return false;
        }
        if i >= an {
            assert(sa.len() == 0 && sb.len() > 0);
            return true;
        }
        let x = a[i];
        let y = b[i];
        assert(sa[0] == x && sb[0] == y);
        if x < y {
            return true;
        }
        if x > y {
            return false;
        }
        proof {
            assert(sa.skip(1) =~= a@.skip(i as int + 1));
            assert(sb.skip(1) =~= b@.skip(i as int + 1));
        }
        i = i + 1;
    }
}

} // verus!

// What follows is the ghost image of the data model: the same shapes over
// mathematical sequences, used by every contract that compares values.

use vstd::prelude::*;

verus! {

/// Ghost image of an operation identifier.
pub struct VOpId {
    pub ctr: u64,
    pub actor: Seq<u8>,
}

/// Ghost image of a key.
pub enum VKey {
    Field(Seq<u8>),
    Head,
    Elem(VOpId),
}

/// Ghost image of a scalar value.
pub enum VVal {
    Null,
    Boolean(bool),
    Uint(u64),
    Int(i64),
    F32(u32),
    F64(u64),
    Counter(i64),
    Timestamp(i64),
    Str(Seq<u8>),
    Bytes(Seq<u8>),
    Unknown(u8, Seq<u8>),
    Cursor(VOpId),
}

/// Ghost image of an action.
pub enum VAct {
    MakeMap,
    MakeTable,
    MakeList,
    MakeText,
    Del,
    Inc(i64),
    Put(VVal),
}

/// Ghost image of an operation: `obj` is `None` for the root.
pub struct VOp {
    pub action: VAct,
    pub obj: Option<VOpId>,
    pub key: VKey,
    pub insert: bool,
    pub pred: Seq<VOpId>,
}

pub open spec fn opid_view(id: OpId) -> VOpId {
    VOpId { ctr: id.ctr, actor: id.actor.bytes@ }
}

pub open spec fn key_view(k: Key) -> VKey {
    match k {
        Key::MapKey(s) => VKey::Field(s@),
        Key::Head => VKey::Head,
        Key::Elem(id) => VKey::Elem(opid_view(id)),
    }
}

pub open spec fn val_view(v: ScalarValue) -> VVal {
    match v {
        ScalarValue::Null => VVal::Null,
        ScalarValue::Boolean(b) => VVal::Boolean(b),
        ScalarValue::Uint(n) => VVal::Uint(n),
        ScalarValue::Int(n) => VVal::Int(n),
        ScalarValue::F32(b) => VVal::F32(b),
        ScalarValue::F64(b) => VVal::F64(b),
        ScalarValue::Counter(n) => VVal::Counter(n),
        ScalarValue::Timestamp(n) => VVal::Timestamp(n),
        ScalarValue::Str(s) => VVal::Str(s@),
        ScalarValue::Bytes(b) => VVal::Bytes(b@),
        ScalarValue::Unknown(t, b) => VVal::Unknown(t, b@),
        ScalarValue::Cursor(id) => VVal::Cursor(opid_view(id)),
    }
}

pub open spec fn act_view(a: OpType) -> VAct {
    match a {
        OpType::MakeMap => VAct::MakeMap,
        OpType::MakeTable => VAct::MakeTable,
        OpType::MakeList => VAct::MakeList,
        OpType::MakeText => VAct::MakeText,
        OpType::Del => VAct::Del,
        OpType::Inc(n) => VAct::Inc(n),
        OpType::Put(v) => VAct::Put(val_view(v)),
    }
}

pub open spec fn op_view(op: Op) -> VOp {
    VOp {
        action: act_view(op.action),
        obj: match op.obj {
            ObjectId::Root => None,
            ObjectId::Id(id) => Some(opid_view(id)),
        },
        key: key_view(op.key),
        insert: op.insert,
        pred: op.pred@.map_values(|p: OpId| opid_view(p)),
    }
}

pub open spec fn ops_views(ops: Seq<Op>) -> Seq<VOp> {
    ops.map_values(|o: Op| op_view(o))
}

/// The views of a dependency list.
pub open spec fn hviews(ds: Seq<ChangeHash>) -> Seq<Seq<u8>> {
    ds.map_values(|h: ChangeHash| h.bytes@)
}

/// The bytes a message occupies: an absent message is the empty string.
pub open spec fn msg_bytes(m: Option<Vec<u8>>) -> Seq<u8> {
    match m {
        None => Seq::empty(),
        Some(v) => v@,
    }
}

} // verus!

// The ghost image of a document operation: actor and successor references
// are small indices here, resolved against the document's tables by the
// callers.

verus! {

/// Ghost image of a document operation.
pub struct VDocOp {
    pub actor: u64,
    pub ctr: u64,
    pub action: VAct,
    pub obj: Option<VOpId>,
    pub key: VKey,
    pub succ: Seq<(u64, u64)>,
    pub insert: bool,
}

} // verus!
