use automerge_codec::change::{encode, Change};
use automerge_codec::error::AutomergeError;
use automerge_codec::types::{
    ActorId, ChangeHash, Key, ObjectId, Op, OpId, OpType, ScalarValue, UncompressedChange,
};

fn actor(hex_bytes: &[u8]) -> ActorId {
    ActorId { bytes: hex_bytes.to_vec() }
}

fn opid(ctr: u64, a: &ActorId) -> OpId {
    OpId { ctr, actor: a.clone() }
}

#[test]
fn test_empty_change() {
    let change1 = UncompressedChange {
        start_op: 1,
        seq: 2,
        time: 1234,
        message: None,
        actor_id: actor(&[0xde, 0xad, 0xbe, 0xef, 0xde, 0xad, 0xbe, 0xef]),
        deps: vec![],
        operations: vec![],
        extra_bytes: vec![],
    };
    let bin1: Change = encode(&change1).unwrap();
    let change2 = bin1.decode();
    let bin2 = encode(&change2).unwrap();
    assert_eq!(bin1, bin2);
    assert_eq!(change1, change2);
}

#[test]
fn test_complex_change() {
    let actor1 = actor(&[0xde, 0xad, 0xbe, 0xef, 0xde, 0xad, 0xbe, 0xef]);
    let actor2 = actor(&[0xfe, 0xed, 0xde, 0xfa, 0xff]);
    let actor3 = actor(&[0x00, 0x10, 0x10, 0x10, 0xfa, 0xfa, 0xfa, 0xfa]);
    let opid1 = opid(102, &actor1);
    let opid2 = opid(391, &actor1);
    let opid3 = opid(299, &actor2);
    let opid4 = opid(762, &actor3);
    let opid5 = opid(100_203, &actor2);
    let obj1 = ObjectId::Id(opid1.clone());
    let obj2 = ObjectId::Root;
    let obj3 = ObjectId::Id(opid4.clone());
    let key1 = Key::MapKey(b"field1".to_vec());
    let key2 = Key::MapKey(b"field2".to_vec());
    let key3 = Key::MapKey(b"field3".to_vec());
    let head = Key::Head;
    let keyseq1 = Key::Elem(opid1.clone());
    let keyseq2 = Key::Elem(opid2.clone());
    let insert = false;
    let change1 = UncompressedChange {
        start_op: 123,
        seq: 29291,
        time: 12_341_231,
        message: Some(b"This is my message".to_vec()),
        actor_id: actor1,
        deps: vec![],
        extra_bytes: vec![],
        operations: vec![
            Op {
                action: OpType::Put(ScalarValue::F64((10.0f64).to_bits())),
                key: key1,
                obj: obj1.clone(),
                insert,
                pred: vec![opid1.clone(), opid2.clone()],
            },
            Op {
                action: OpType::Put(ScalarValue::Counter(-11)),
                key: key2.clone(),
                obj: obj1.clone(),
                insert,
                pred: vec![opid1.clone(), opid2.clone()],
            },
            Op {
                action: OpType::Put(ScalarValue::Timestamp(20)),
                key: key3,
                obj: obj1,
                insert,
                pred: vec![opid1.clone(), opid2],
            },
            Op {
                action: OpType::Put(ScalarValue::Str(b"some value".to_vec())),
                key: key2.clone(),
                obj: obj2.clone(),
                insert,
                pred: vec![opid3.clone(), opid4.clone()],
            },
            Op {
                action: OpType::MakeMap,
                key: key2.clone(),
                obj: obj2.clone(),
                insert,
                pred: vec![opid3.clone(), opid4.clone()],
            },
            Op {
                action: OpType::Put(ScalarValue::Str(b"val1".to_vec())),
                key: head.clone(),
                obj: obj3.clone(),
                insert: true,
                pred: vec![opid3, opid4.clone()],
            },
            Op {
                action: OpType::Put(ScalarValue::Str(b"val2".to_vec())),
                key: head,
                obj: obj3.clone(),
                insert: true,
                pred: vec![opid4.clone(), opid5.clone()],
            },
            Op {
                action: OpType::Inc(10),
                key: key2,
                obj: obj2,
                insert,
                pred: vec![opid1, opid5.clone()],
            },
            Op {
                action: OpType::Del,
                obj: obj3.clone(),
                key: keyseq1,
                insert: true,
                pred: vec![opid4.clone(), opid5.clone()],
            },
            Op {
                action: OpType::Del,
                obj: obj3,
                key: keyseq2,
                insert: true,
                pred: vec![opid4, opid5],
            },
        ],
    };
    let bin1 = encode(&change1).unwrap();
    let change2 = bin1.decode();
    let bin2 = encode(&change2).unwrap();
    assert_eq!(bin1, bin2);
    assert_eq!(change1, change2);
}

#[test]
fn round_trip_every_value_kind() {
    let a1 = actor(&[1, 2, 3]);
    let a2 = actor(&[9, 9]);
    let vals = vec![
        ScalarValue::Null,
        ScalarValue::Boolean(true),
        ScalarValue::Boolean(false),
        ScalarValue::Uint(u64::MAX),
        ScalarValue::Int(i64::MIN),
        ScalarValue::Int(-1),
        ScalarValue::F32((1.5f32).to_bits()),
        ScalarValue::F64((-2.25f64).to_bits()),
        ScalarValue::Counter(-11),
        ScalarValue::Timestamp(20),
        ScalarValue::Str(b"text".to_vec()),
        ScalarValue::Bytes(vec![0, 255, 3]),
        ScalarValue::Unknown(12, vec![7, 7, 7]),
        ScalarValue::Cursor(opid(44, &a2)),
    ];
    let mut ops = Vec::new();
    for (i, v) in vals.into_iter().enumerate() {
        ops.push(Op {
            action: OpType::Put(v),
            obj: ObjectId::Root,
            key: Key::MapKey(format!("k{}", i).into_bytes()),
            insert: false,
            pred: vec![],
        });
    }
    let c = UncompressedChange {
        operations: ops,
        actor_id: a1,
        seq: 1,
        start_op: 1,
        time: 0,
        message: None,
        deps: vec![],
        extra_bytes: vec![1, 2, 3, 4],
    };
    let bin = encode(&c).unwrap();
    let c2 = bin.decode();
    assert_eq!(c, c2);
    let bin2 = encode(&c2).unwrap();
    assert_eq!(bin.bytes, bin2.bytes);
    assert_eq!(bin.hash, bin2.hash);
}

#[test]
fn reencode_from_parsed_bytes_is_identical() {
    let c = UncompressedChange {
        operations: vec![Op {
            action: OpType::Put(ScalarValue::Int(7)),
            obj: ObjectId::Root,
            key: Key::MapKey(b"x".to_vec()),
            insert: false,
            pred: vec![],
        }],
        actor_id: actor(&[0xaa]),
        seq: 1,
        start_op: 1,
        time: 99,
        message: Some(b"m".to_vec()),
        deps: vec![],
        extra_bytes: vec![],
    };
    let bin = encode(&c).unwrap();
    let reparsed = Change::from_bytes(bin.bytes.clone()).unwrap();
    let c2 = reparsed.decode();
    let bin2 = encode(&c2).unwrap();
    assert_eq!(bin.bytes, bin2.bytes);
}

#[test]
fn deps_are_sorted_and_hash_ignores_input_order() {
    let h1 = ChangeHash { bytes: vec![2u8; 32] };
    let h2 = ChangeHash { bytes: vec![1u8; 32] };
    let base = UncompressedChange {
        operations: vec![],
        actor_id: actor(&[5]),
        seq: 1,
        start_op: 1,
        time: 0,
        message: None,
        deps: vec![h1.clone(), h2.clone()],
        extra_bytes: vec![],
    };
    let mut flipped = base.clone();
    flipped.deps = vec![h2.clone(), h1.clone()];
    let b1 = encode(&base).unwrap();
    let b2 = encode(&flipped).unwrap();
    assert_eq!(b1.bytes, b2.bytes);
    assert_eq!(b1.hash, b2.hash);
    assert_eq!(b1.deps, vec![h2, h1]);
}

#[test]
fn empty_message_normalises_to_none() {
    let mut c = UncompressedChange {
        operations: vec![],
        actor_id: actor(&[5]),
        seq: 1,
        start_op: 1,
        time: 0,
        message: Some(vec![]),
        deps: vec![],
        extra_bytes: vec![],
    };
    let bin = encode(&c).unwrap();
    assert_eq!(bin.decode().message, None);
    c.message = None;
    let bin2 = encode(&c).unwrap();
    assert_eq!(bin.bytes, bin2.bytes);
}

#[test]
fn invalid_changes_are_rejected() {
    let good = UncompressedChange {
        operations: vec![],
        actor_id: actor(&[5]),
        seq: 1,
        start_op: 1,
        time: 0,
        message: None,
        deps: vec![],
        extra_bytes: vec![],
    };
    let mut no_actor = good.clone();
    no_actor.actor_id = ActorId { bytes: vec![] };
    assert_eq!(encode(&no_actor).unwrap_err(), AutomergeError::InvalidChange);
    let mut bad_hash = good.clone();
    bad_hash.deps = vec![ChangeHash { bytes: vec![1, 2, 3] }];
    assert_eq!(encode(&bad_hash).unwrap_err(), AutomergeError::InvalidChange);
    let mut dup_deps = good.clone();
    dup_deps.deps = vec![ChangeHash { bytes: vec![7u8; 32] }, ChangeHash { bytes: vec![7u8; 32] }];
    assert_eq!(encode(&dup_deps).unwrap_err(), AutomergeError::InvalidChange);
}

#[test]
fn framing_mutations_are_decode_errors() {
    let c = UncompressedChange {
        operations: vec![],
        actor_id: actor(&[0xde, 0xad]),
        seq: 1,
        start_op: 1,
        time: 0,
        message: None,
        deps: vec![],
        extra_bytes: vec![],
    };
    let bin = encode(&c).unwrap();
    // zero the first magic byte
    let mut bad_magic = bin.bytes.clone();
    bad_magic[0] = 0;
    assert_eq!(Change::parse(&bad_magic).unwrap_err(), AutomergeError::EncodingError);
    // truncate the last byte
    let mut truncated = bin.bytes.clone();
    truncated.pop();
    assert_eq!(Change::parse(&truncated).unwrap_err(), AutomergeError::EncodingError);
    // a document chunk type is not a change
    let mut doc_type = bin.bytes.clone();
    doc_type[8] = 0;
    assert!(Change::from_bytes(doc_type).is_err());
}

#[test]
fn unsorted_wire_deps_are_rejected() {
    let h_small = ChangeHash { bytes: vec![1u8; 32] };
    let h_big = ChangeHash { bytes: vec![2u8; 32] };
    let c = UncompressedChange {
        operations: vec![],
        actor_id: actor(&[0xab]),
        seq: 1,
        start_op: 1,
        time: 0,
        message: None,
        deps: vec![h_small, h_big],
        extra_bytes: vec![],
    };
    let bin = encode(&c).unwrap();
    // swap the two 32-byte hashes in place: descending order on the wire
    let mut swapped = bin.bytes.clone();
    let deps_start = bin.body.start + 1;
    for i in 0..32 {
        swapped.swap(deps_start + i, deps_start + 32 + i);
    }
    assert!(Change::from_bytes(swapped).is_err());
    // the original parses back
    let ok = Change::from_bytes(bin.bytes.clone()).unwrap();
    assert_eq!(ok.deps.len(), 2);
}

#[test]
fn parse_splits_concatenated_chunks() {
    let mk = |seq: u64| UncompressedChange {
        operations: vec![],
        actor_id: actor(&[9, 9, 9]),
        seq,
        start_op: 1,
        time: 0,
        message: None,
        deps: vec![],
        extra_bytes: vec![],
    };
    let b1 = encode(&mk(1)).unwrap();
    let b2 = encode(&mk(2)).unwrap();
    let mut joined = b1.bytes.clone();
    joined.extend_from_slice(&b2.bytes);
    let parsed = Change::parse(&joined).unwrap();
    assert_eq!(parsed.len(), 2);
    assert_eq!(parsed[0].seq, 1);
    assert_eq!(parsed[1].seq, 2);
    assert_eq!(parsed[0].hash, b1.hash);
    assert_eq!(parsed[1].hash, b2.hash);
}

#[test]
fn cursor_ref_interns_new_actor() {
    let own = actor(&[1]);
    let other = actor(&[2, 2]);
    let c = UncompressedChange {
        operations: vec![Op {
            action: OpType::Put(ScalarValue::Cursor(opid(9, &other))),
            obj: ObjectId::Root,
            key: Key::MapKey(b"c".to_vec()),
            insert: false,
            pred: vec![],
        }],
        actor_id: own.clone(),
        seq: 1,
        start_op: 1,
        time: 0,
        message: None,
        deps: vec![],
        extra_bytes: vec![],
    };
    let bin = encode(&c).unwrap();
    assert_eq!(bin.actors.len(), 2);
    assert_eq!(bin.actors[0], own);
    assert_eq!(bin.actors[1], other);
    let c2 = bin.decode();
    assert_eq!(c, c2);
}

#[test]
fn max_op_and_iteration() {
    let a = actor(&[3]);
    let ops: Vec<Op> = (0..5)
        .map(|i| Op {
            action: OpType::Put(ScalarValue::Uint(i)),
            obj: ObjectId::Root,
            key: Key::MapKey(format!("k{}", i).into_bytes()),
            insert: false,
            pred: vec![],
        })
        .collect();
    let c = UncompressedChange {
        operations: ops.clone(),
        actor_id: a,
        seq: 1,
        start_op: 10,
        time: 0,
        message: None,
        deps: vec![],
        extra_bytes: vec![],
    };
    let bin = encode(&c).unwrap();
    assert_eq!(bin.max_op(), 14);
    let mut it = bin.iter_ops();
    let mut seen = Vec::new();
    while let Some(op) = it.next() {
        seen.push(op);
    }
    assert_eq!(seen, ops);
}

#[test]
fn many_ops_many_actors_single_pass() {
    let own = actor(&[0]);
    let actors: Vec<ActorId> = (0..50u8).map(|i| actor(&[i, i, 1])).collect();
    let mut ops = Vec::new();
    for i in 0..10_000u64 {
        let who = &actors[(i % 50) as usize];
        ops.push(Op {
            action: OpType::Put(ScalarValue::Uint(i)),
            obj: ObjectId::Root,
            key: Key::Elem(opid(i + 1, who)),
            insert: i % 2 == 0,
            pred: vec![],
        });
    }
    let c = UncompressedChange {
        operations: ops,
        actor_id: own,
        seq: 1,
        start_op: 1,
        time: 0,
        message: None,
        deps: vec![],
        extra_bytes: vec![],
    };
    let bin = encode(&c).unwrap();
    let c2 = bin.decode();
    assert_eq!(c, c2);
}

#[test]
fn unknown_value_type_survives_round_trip() {
    for tag in 11u8..=15 {
        let c = UncompressedChange {
            operations: vec![Op {
                action: OpType::Put(ScalarValue::Unknown(tag, vec![tag, 0, 1])),
                obj: ObjectId::Root,
                key: Key::MapKey(b"u".to_vec()),
                insert: false,
                pred: vec![],
            }],
            actor_id: actor(&[8]),
            seq: 1,
            start_op: 1,
            time: 0,
            message: None,
            deps: vec![],
            extra_bytes: vec![],
        };
        let bin = encode(&c).unwrap();
        assert_eq!(bin.decode(), c);
    }
}
