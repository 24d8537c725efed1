use symexpr::term::Arena;
use symexpr::term::FloatingPointNumberValueInner;
use symexpr::term::HoldValueInner;
use symexpr::term::NullValueInner;
use symexpr::term::SymbolValueInner;
use symexpr::term::TupleValueInner;
use symexpr::term::Value;

#[test]
fn symbols_with_the_same_name_are_distinct() {
    let mut arena = Arena::new();
    let a = Value::new(&mut arena, SymbolValueInner { name: String::from("x") });
    let b = Value::new(&mut arena, SymbolValueInner { name: String::from("x") });
    assert_ne!(a, b);
    assert_eq!(a, a);
    assert_eq!(b, b);
}

#[test]
fn downcast_recovers_the_payload() {
    let mut arena = Arena::new();
    let s = Value::new(&mut arena, SymbolValueInner { name: String::from("velocity") });
    assert!(s.is::<SymbolValueInner>(&arena));
    assert!(!s.is::<NullValueInner>(&arena));
    let payload = s.downcast::<SymbolValueInner>(&arena);
    assert_eq!(payload.name, "velocity");
}

#[test]
fn try_downcast_refuses_the_wrong_variant() {
    let mut arena = Arena::new();
    let n = Value::new(&mut arena, NullValueInner);
    assert!(n.try_downcast::<SymbolValueInner>(&arena).is_none());
    assert!(n.try_downcast::<NullValueInner>(&arena).is_some());
}

#[test]
fn number_bits_carry_the_float_exactly() {
    let mut arena = Arena::new();
    let n = Value::new(
        &mut arena,
        FloatingPointNumberValueInner { bits: 2.5f64.to_bits() },
    );
    let payload = n.downcast::<FloatingPointNumberValueInner>(&arena);
    assert_eq!(f64::from_bits(payload.bits), 2.5);
}

#[test]
fn tuples_share_their_element_allocations() {
    let mut arena = Arena::new();
    let shared = Value::new(&mut arena, SymbolValueInner { name: String::from("s") });
    let t = Value::new(&mut arena, TupleValueInner { inner: vec![shared, shared] });
    let items = t.downcast::<TupleValueInner>(&arena).inner;
    assert_eq!(items.len(), 2);
    assert_eq!(items[0], items[1]);
    assert_eq!(items[0], shared);
}

#[test]
fn hold_wraps_without_copying() {
    let mut arena = Arena::new();
    let inner = Value::new(&mut arena, NullValueInner);
    let h = Value::new(&mut arena, HoldValueInner { inner });
    assert_eq!(h.downcast::<HoldValueInner>(&arena).inner, inner);
    assert_ne!(h, inner);
}
