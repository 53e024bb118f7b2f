use rsift_opt_gfx::string_intern::{CompactSymbolTable, InlineStr, SymbolId};

#[test]
fn test_inline_str_sso() {
    let s = InlineStr::try_from_str("minecraft:stone").unwrap();
    assert_eq!(s.as_str(), "minecraft:stone");
    assert_eq!(std::mem::size_of::<InlineStr>(), 16);
}

#[test]
fn test_symbol_table_deduplication() {
    let mut table = CompactSymbolTable::new();
    let id1 = table.intern("facing=north");
    let id2 = table.intern("facing=north");
    assert_eq!(id1, id2);
    assert!(table.bytes_saved_estimate() > 0);
}

#[test]
fn inline_str_boundary_lengths_exact() {
    assert!(InlineStr::try_from_str("").is_some());
    assert!(InlineStr::try_from_str("a").is_some());
    assert!(InlineStr::try_from_str("0123456789abcde").is_some());
    assert!(InlineStr::try_from_str("0123456789abcdef").is_none());
    for s in ["", "minecraft:stone", "日本語", "axis=y"] {
        let is = InlineStr::try_from_str(s).expect("<=15B");
        assert_eq!(is.as_str(), s);
        assert_eq!(is.len() as usize, s.len());
        assert_eq!(is.is_empty(), s.is_empty());
    }
    let a = InlineStr::try_from_str("abc").unwrap();
    let b = InlineStr::try_from_str("abc").unwrap();
    assert!(a == b);
    let c = InlineStr::try_from_str("abd").unwrap();
    assert!(a != c);
}

#[test]
fn symbol_table_id_sequence_and_resolve_roundtrip() {
    let mut table = CompactSymbolTable::new();
    let a = table.intern("minecraft:stone");
    let b = table.intern("axis=y");
    let c = table.intern("facing=north");
    assert_eq!((a.0, b.0, c.0), (0, 1, 2));
    assert_eq!(table.intern("axis=y"), b);
    assert_eq!(table.resolve(a), Some("minecraft:stone"));
    assert_eq!(table.resolve(b), Some("axis=y"));
    assert_eq!(table.resolve(c), Some("facing=north"));
    assert_eq!(table.resolve(SymbolId(99)), None);
    assert_eq!(table.symbol_count(), 3);
}

#[test]
fn bytes_saved_exact_accumulation() {
    let mut table = CompactSymbolTable::new();
    table.intern("facing=north");
    table.intern("facing=north");
    table.intern("axis=y");
    table.intern("axis=y");
    table.intern("axis=y");
    assert_eq!(table.bytes_saved_estimate(), 36 + 30 + 30);
}

#[test]
fn reinterning_keeps_id_and_table() {
    let mut table = CompactSymbolTable::new();
    let a = table.intern("axis=y");
    let n = table.symbol_count();
    let b = table.intern("axis=y");
    assert_eq!(a, b);
    assert_eq!(table.symbol_count(), n);
    assert_eq!(table.resolve(a), Some("axis=y"));
    assert_eq!(table.resolve(SymbolId(n as u32)), None);
}
