use symexpr::children_of;
use symexpr::get_part;
use symexpr::replace;
use symexpr::replace_part;
use symexpr::term::Arena;
use symexpr::term::AssignmentValueInner;
use symexpr::term::FloatingPointNumberValueInner;
use symexpr::term::HoldValueInner;
use symexpr::term::SymbolValueInner;
use symexpr::term::TupleValueInner;
use symexpr::term::Value;
use symexpr::with_children;

fn symbol(arena: &mut Arena, name: &str) -> Value {
    Value::new(arena, SymbolValueInner { name: String::from(name) })
}

#[test]
fn replacing_a_term_by_itself_gives_the_target() {
    let mut arena = Arena::new();
    let v = symbol(&mut arena, "v");
    let to = symbol(&mut arena, "w");
    assert_eq!(replace(&mut arena, v, v, to), to);
    let n = Value::new(&mut arena, FloatingPointNumberValueInner { bits: 0 });
    let inner = symbol(&mut arena, "i");
    let h = Value::new(&mut arena, HoldValueInner { inner });
    assert_eq!(replace(&mut arena, n, n, h), h);
    assert_eq!(replace(&mut arena, h, h, n), n);
}

#[test]
fn replacement_without_occurrence_returns_the_same_reference() {
    let mut arena = Arena::new();
    let a = symbol(&mut arena, "a");
    let b = symbol(&mut arena, "b");
    let inner = symbol(&mut arena, "x");
    let h = Value::new(&mut arena, HoldValueInner { inner });
    let before = arena.len();
    let r = replace(&mut arena, h, a, b);
    assert_eq!(r, h);
    assert_eq!(arena.len(), before, "nothing may be allocated");
}

#[test]
fn replacement_rewrites_exactly_the_occurrences() {
    let mut arena = Arena::new();
    let a = symbol(&mut arena, "a");
    let b = symbol(&mut arena, "b");
    let other = symbol(&mut arena, "other");
    let t = Value::new(&mut arena, TupleValueInner { inner: vec![a, other, a] });
    let r = replace(&mut arena, t, a, b);
    assert_ne!(r, t, "a changed tuple is a fresh node");
    let items = r.downcast::<TupleValueInner>(&arena).inner;
    assert_eq!(items[0], b);
    assert_eq!(items[1], other, "untouched children keep their identity");
    assert_eq!(items[2], b);
    let original = t.downcast::<TupleValueInner>(&arena).inner;
    assert_eq!(original[0], a, "the original term is immutable");
}

#[test]
fn replacement_preserves_untouched_subtrees() {
    let mut arena = Arena::new();
    let a = symbol(&mut arena, "a");
    let b = symbol(&mut arena, "b");
    let quiet_inner = symbol(&mut arena, "quiet");
    let quiet = Value::new(&mut arena, HoldValueInner { inner: quiet_inner });
    let hot = Value::new(&mut arena, HoldValueInner { inner: a });
    let t = Value::new(&mut arena, TupleValueInner { inner: vec![quiet, hot] });
    let r = replace(&mut arena, t, a, b);
    let items = r.downcast::<TupleValueInner>(&arena).inner;
    assert_eq!(items[0], quiet, "the subtree without occurrences is shared");
    assert_ne!(items[1], hot);
    assert_eq!(items[1].downcast::<HoldValueInner>(&arena).inner, b);
}

#[test]
fn with_children_of_the_same_children_is_identity() {
    let mut arena = Arena::new();
    let s = symbol(&mut arena, "s");
    let t = symbol(&mut arena, "t");
    let asg = Value::new(&mut arena, AssignmentValueInner { source: s, target: t });
    let kids = children_of(&arena, asg);
    assert_eq!(kids, vec![s, t]);
    let before = arena.len();
    let rebuilt = with_children(&mut arena, asg, &kids);
    assert_eq!(rebuilt, asg);
    assert_eq!(arena.len(), before);
}

#[test]
fn with_children_rebuilds_the_variant() {
    let mut arena = Arena::new();
    let s = symbol(&mut arena, "s");
    let t = symbol(&mut arena, "t");
    let u = symbol(&mut arena, "u");
    let asg = Value::new(&mut arena, AssignmentValueInner { source: s, target: t });
    let rebuilt = with_children(&mut arena, asg, &vec![u, t]);
    assert_ne!(rebuilt, asg);
    let payload = rebuilt.downcast::<AssignmentValueInner>(&arena);
    assert_eq!(payload.source, u);
    assert_eq!(payload.target, t);
}

#[test]
fn part_navigation_follows_paths() {
    let mut arena = Arena::new();
    let a = symbol(&mut arena, "a");
    let h = Value::new(&mut arena, HoldValueInner { inner: a });
    let t = Value::new(&mut arena, TupleValueInner { inner: vec![h] });
    assert_eq!(get_part(&arena, t, &vec![]), Some(t));
    assert_eq!(get_part(&arena, t, &vec![0]), Some(h));
    assert_eq!(get_part(&arena, t, &vec![0, 0]), Some(a));
    assert_eq!(get_part(&arena, t, &vec![1]), None);
    assert_eq!(get_part(&arena, t, &vec![0, 0, 0]), None);
}

#[test]
fn replace_part_rebuilds_the_spine_only() {
    let mut arena = Arena::new();
    let a = symbol(&mut arena, "a");
    let b = symbol(&mut arena, "b");
    let sibling = symbol(&mut arena, "sibling");
    let t = Value::new(&mut arena, TupleValueInner { inner: vec![a, sibling] });
    let r = replace_part(&mut arena, t, &vec![0], b).unwrap();
    let items = r.downcast::<TupleValueInner>(&arena).inner;
    assert_eq!(items[0], b);
    assert_eq!(items[1], sibling);
    assert_eq!(replace_part(&mut arena, t, &vec![7], b), None);
}
