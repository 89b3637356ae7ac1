use pmmlruntime::arena::{alloc_vec, BumpArena};
use pmmlruntime::mapvalues::map_discrete;
use pmmlruntime::error::PmmlError;
use pmmlruntime::value::{FieldId, SymbolId};

#[test]
fn error_constructors_and_messages() {
    let e = PmmlError::unsupported("AnomalyDetectionModel");
    assert!(e.message().contains("unsupported markup"));
    let e = PmmlError::unsupported("SequenceModel");
    assert!(e.message().contains("SequenceModel"));
    assert_eq!(PmmlError::invalid("x").message(), "invalid value: x");
    assert_eq!(PmmlError::missing("f").message(), "missing field: f");
    assert_eq!(PmmlError::parse("ctx", "msg").message(), "parse error at ctx: msg");
    assert_eq!(PmmlError::TypeError("t".into()).message(), "type error: t");
    assert_eq!(PmmlError::ValidationError("v".into()).message(), "validation error: v");
    assert_eq!(PmmlError::Io("i".into()).message(), "io error: i");
    assert_eq!(PmmlError::ArithmeticOverflow("o".into()).message(), "arithmetic overflow: o");
    assert_eq!(PmmlError::Other("plain".into()).message(), "plain");
}

#[test]
fn field_id_as_usize() {
    assert_eq!(FieldId(2).as_usize(), 2);
    assert_eq!(FieldId(3).as_usize(), 3);
    assert_eq!(FieldId(u32::MAX).as_usize(), u32::MAX as usize);
}

#[test]
fn symbol_ids_compare() {
    assert_ne!(SymbolId(0), SymbolId(1));
    assert!(SymbolId(0) < SymbolId(1));
}

#[test]
fn bump_arena_allocates_strings() {
    let arena = BumpArena::new();
    let s = arena.alloc_str("hello");
    assert_eq!(s, "hello");
    let mut arena = BumpArena::with_capacity(64);
    let t = arena.alloc_str("world");
    assert_eq!(t, "world");
    arena.reset();
    assert_eq!(arena.bump().alloc_str("again"), "again");
    assert_eq!(arena.bump_mut().alloc_str("mut"), "mut");
}

#[test]
fn alloc_vec_repeats_the_value() {
    let arena = BumpArena::new();
    let v = alloc_vec(arena.bump(), 4, 0u32);
    assert_eq!(v, vec![0, 0, 0, 0]);
    let w: Vec<String> = alloc_vec(arena.bump(), 2, "x".to_string());
    assert_eq!(w, vec!["x".to_string(), "x".to_string()]);
    assert!(alloc_vec(arena.bump(), 0, 7u8).is_empty());
}

#[test]
fn map_discrete_first_match_or_default() {
    let table = vec![(SymbolId(1), SymbolId(10)), (SymbolId(2), SymbolId(20))];
    assert_eq!(map_discrete(Some(SymbolId(1)), &table, None), Some(SymbolId(10)));
    assert_eq!(map_discrete(Some(SymbolId(3)), &table, Some(SymbolId(99))), Some(SymbolId(99)));
    assert_eq!(map_discrete(Some(SymbolId(3)), &table, None), None);
    assert_eq!(map_discrete(None, &table, Some(SymbolId(5))), Some(SymbolId(5)));
    let dup = vec![(SymbolId(1), SymbolId(7)), (SymbolId(1), SymbolId(8))];
    assert_eq!(map_discrete(Some(SymbolId(1)), &dup, None), Some(SymbolId(7)));
}
