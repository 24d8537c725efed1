use symexpr::SerializationStorage;
use symexpr::Snapshot;
use symexpr::SnapshotError;
use symexpr::children_of;
use symexpr::deserialize;
use symexpr::serial::Record;
use symexpr::serial::RecordBody;
use symexpr::serialize;
use symexpr::term::Arena;
use symexpr::term::ArgumentPolicy;
use symexpr::term::AssignmentValueInner;
use symexpr::term::CallArgument;
use symexpr::term::FloatingPointNumberValueInner;
use symexpr::term::HoldValueInner;
use symexpr::term::IntrinsicCallValueInner;
use symexpr::term::NullValueInner;
use symexpr::term::SymbolValueInner;
use symexpr::term::TupleValueInner;
use symexpr::term::Value;

fn symbol(arena: &mut Arena, name: &str) -> Value {
    Value::new(arena, SymbolValueInner { name: String::from(name) })
}

#[test]
fn a_leaf_snapshot_has_one_record() {
    let mut arena = Arena::new();
    let mut storage = SerializationStorage::new();
    let nil = Value::new(&mut arena, NullValueInner);
    let snap = serialize(&mut storage, &arena, nil).unwrap();
    assert_eq!(snap.values.len(), 1);
    assert_eq!(snap.values[0].id, snap.id);
    assert!(matches!(snap.values[0].body, RecordBody::Null));
}

#[test]
fn records_come_in_discovery_order_with_unique_ids() {
    let mut arena = Arena::new();
    let mut storage = SerializationStorage::new();
    let a = symbol(&mut arena, "a");
    let b = symbol(&mut arena, "b");
    let t = Value::new(&mut arena, TupleValueInner { inner: vec![a, b] });
    let snap = serialize(&mut storage, &arena, t).unwrap();
    assert_eq!(snap.values.len(), 3, "root and two children, each once");
    assert_eq!(snap.values[0].id, snap.id, "the root's record comes first");
    for i in 0..snap.values.len() {
        for j in (i + 1)..snap.values.len() {
            assert_ne!(snap.values[i].id, snap.values[j].id);
        }
    }
}

#[test]
fn a_shared_child_is_recorded_once() {
    let mut arena = Arena::new();
    let mut storage = SerializationStorage::new();
    let s = symbol(&mut arena, "s");
    let t = Value::new(&mut arena, TupleValueInner { inner: vec![s, s] });
    let snap = serialize(&mut storage, &arena, t).unwrap();
    assert_eq!(snap.values.len(), 2, "the shared child has a single record");
    match &snap.values[0].body {
        RecordBody::Tuple { items } => {
            assert_eq!(items.len(), 2);
            assert_eq!(items[0], items[1], "both slots reference the same id");
        }
        other => panic!("expected a tuple record, got {:?}", other),
    }
}

#[test]
fn the_same_term_keeps_its_id_across_snapshots() {
    let mut arena = Arena::new();
    let mut storage = SerializationStorage::new();
    let s = symbol(&mut arena, "s");
    let snap1 = serialize(&mut storage, &arena, s).unwrap();
    let snap2 = serialize(&mut storage, &arena, s).unwrap();
    assert_eq!(snap1.id, snap2.id);
}

#[test]
fn reading_back_through_the_same_storage_returns_the_original() {
    let mut arena = Arena::new();
    let mut storage = SerializationStorage::new();
    let s = symbol(&mut arena, "s");
    let h = Value::new(&mut arena, HoldValueInner { inner: s });
    let snap = serialize(&mut storage, &arena, h).unwrap();
    let back = deserialize(&mut storage, &mut arena, &snap).unwrap();
    assert_eq!(back, h, "known identifiers resolve to the very same term");
}

#[test]
fn a_fresh_storage_rebuilds_an_equivalent_shape() {
    let mut arena = Arena::new();
    let mut storage = SerializationStorage::new();
    let name = symbol(&mut arena, "shared");
    let bits = 6.25f64.to_bits();
    let num = Value::new(&mut arena, FloatingPointNumberValueInner { bits });
    let asg = Value::new(&mut arena, AssignmentValueInner { source: num, target: name });
    let root = Value::new(&mut arena, TupleValueInner { inner: vec![asg, name] });
    let snap = serialize(&mut storage, &arena, root).unwrap();

    let mut arena2 = Arena::new();
    let mut storage2 = SerializationStorage::new();
    let back = deserialize(&mut storage2, &mut arena2, &snap).unwrap();
    assert_ne!(
        arena.len(),
        0,
        "the original arena is untouched by reading into another"
    );
    let kids = children_of(&arena2, back);
    assert_eq!(kids.len(), 2);
    let asg2 = kids[0].downcast::<AssignmentValueInner>(&arena2);
    let num2 = asg2.source.downcast::<FloatingPointNumberValueInner>(&arena2);
    assert_eq!(num2.bits, bits, "leaf payloads survive the round trip");
    let name2 = asg2.target.downcast::<SymbolValueInner>(&arena2);
    assert_eq!(name2.name, "shared");
    assert_eq!(
        asg2.target, kids[1],
        "a node reachable via two paths is one reconstructed term"
    );
}

#[test]
fn argument_policies_survive_the_round_trip() {
    let mut arena = Arena::new();
    let mut storage = SerializationStorage::new();
    let f = symbol(&mut arena, "f");
    let x = symbol(&mut arena, "x");
    let call = Value::new(
        &mut arena,
        IntrinsicCallValueInner {
            intrinsic: f,
            arguments: vec![
                CallArgument { policy: ArgumentPolicy::Held, term: x },
                CallArgument { policy: ArgumentPolicy::Evaluated, term: x },
            ],
        },
    );
    let snap = serialize(&mut storage, &arena, call).unwrap();
    let mut arena2 = Arena::new();
    let mut storage2 = SerializationStorage::new();
    let back = deserialize(&mut storage2, &mut arena2, &snap).unwrap();
    let payload = back.downcast::<IntrinsicCallValueInner>(&arena2);
    assert_eq!(payload.arguments.len(), 2);
    assert_eq!(payload.arguments[0].policy, ArgumentPolicy::Held);
    assert_eq!(payload.arguments[1].policy, ArgumentPolicy::Evaluated);
    assert_eq!(payload.arguments[0].term, payload.arguments[1].term);
}

#[test]
fn a_missing_root_record_is_fatal() {
    let mut arena = Arena::new();
    let mut storage = SerializationStorage::new();
    let snap = Snapshot { id: 42, values: vec![] };
    assert_eq!(
        deserialize(&mut storage, &mut arena, &snap),
        Err(SnapshotError::MissingRecord)
    );
}

#[test]
fn a_dangling_child_reference_is_fatal() {
    let mut arena = Arena::new();
    let mut storage = SerializationStorage::new();
    let snap = Snapshot {
        id: 0,
        values: vec![Record { id: 0, body: RecordBody::Hold { inner: 99 } }],
    };
    assert_eq!(
        deserialize(&mut storage, &mut arena, &snap),
        Err(SnapshotError::MissingRecord)
    );
}

#[test]
fn cyclic_references_are_fatal() {
    let mut arena = Arena::new();
    let mut storage = SerializationStorage::new();
    let snap = Snapshot {
        id: 0,
        values: vec![
            Record { id: 0, body: RecordBody::Hold { inner: 1 } },
            Record { id: 1, body: RecordBody::Hold { inner: 0 } },
        ],
    };
    assert_eq!(
        deserialize(&mut storage, &mut arena, &snap),
        Err(SnapshotError::CyclicReference)
    );
}

#[test]
fn an_identifier_off_the_scale_is_fatal() {
    let mut arena = Arena::new();
    let mut storage = SerializationStorage::new();
    let snap = Snapshot {
        id: u64::MAX,
        values: vec![Record { id: u64::MAX, body: RecordBody::Null }],
    };
    assert_eq!(
        deserialize(&mut storage, &mut arena, &snap),
        Err(SnapshotError::InvalidId)
    );
}

#[test]
fn evaluated_results_round_trip() {
    // serialize the value an evaluation produced, read it back, and check
    // the payload: the flow a session save would use
    let mut arena = Arena::new();
    let mut storage = SerializationStorage::new();
    let bits = 11.5f64.to_bits();
    let num = Value::new(&mut arena, FloatingPointNumberValueInner { bits });
    let h = Value::new(&mut arena, HoldValueInner { inner: num });
    let snap = serialize(&mut storage, &arena, h).unwrap();
    let mut arena2 = Arena::new();
    let mut storage2 = SerializationStorage::new();
    let back = deserialize(&mut storage2, &mut arena2, &snap).unwrap();
    let inner = back.downcast::<HoldValueInner>(&arena2).inner;
    assert_eq!(
        inner.downcast::<FloatingPointNumberValueInner>(&arena2).bits,
        bits
    );
}
