use desdec_app::functions::{starts_a_function, table, Bounds, Symbol, SymbolKind};

fn symbol(address: Option<u64>, size: u64, kind: SymbolKind) -> Symbol {
    Symbol { address, size, kind, local: false, imported: false, decoded: true }
}

/// A label inside a function is not a function, and neither is data.
#[test]
fn only_a_symbol_that_begins_code_begins_a_function() {
    assert!(starts_a_function(&symbol(Some(0x10), 0, SymbolKind::Function)));
    assert!(starts_a_function(&symbol(Some(0x10), 0, SymbolKind::Untyped)));
    let label = Symbol { local: true, ..symbol(Some(0x10), 0, SymbolKind::Untyped) };
    assert!(!starts_a_function(&label), "_start.cmp_loop lives inside _start");
    assert!(!starts_a_function(&symbol(Some(0x10), 0, SymbolKind::Data)));
    assert!(!starts_a_function(&symbol(None, 0, SymbolKind::Function)));
    let undecoded = Symbol { decoded: false, ..symbol(Some(0x10), 0, SymbolKind::Function) };
    assert!(!starts_a_function(&undecoded));
}

/// Named functions first, found ones where nothing is named, each ending at
/// its declared size or where the next one begins.
#[test]
fn the_table_merges_the_named_and_the_found() {
    let symbols = [
        symbol(Some(0x1000), 0x20, SymbolKind::Function),
        symbol(Some(0x1000), 0, SymbolKind::Untyped),
        Symbol { local: true, ..symbol(Some(0x1040), 0, SymbolKind::Untyped) },
        symbol(Some(0x1080), 0, SymbolKind::Function),
        Symbol { imported: true, ..symbol(Some(0x2000), 0x10, SymbolKind::Function) },
        symbol(Some(0x1100), 0, SymbolKind::Data),
        symbol(None, 0, SymbolKind::Function),
        Symbol { decoded: false, ..symbol(Some(0x10c0), 0, SymbolKind::Function) },
    ];
    let found = [0x1060, 0x1080, 0x1000];
    assert_eq!(
        table(&symbols, &found, 0x1200),
        vec![
            Bounds { start: 0x1000, end: 0x1020, named: Some(0) },
            Bounds { start: 0x1060, end: 0x1080, named: None },
            Bounds { start: 0x1080, end: 0x1200, named: Some(3) },
        ]
    );
}

/// A stripped file still has its functions, and no end comes before its start.
#[test]
fn a_stripped_file_is_all_found_functions() {
    assert_eq!(
        table(&[], &[0x30, 0x10], 0x20),
        vec![
            Bounds { start: 0x10, end: 0x30, named: None },
            Bounds { start: 0x30, end: 0x30, named: None },
        ]
    );
    assert_eq!(table(&[], &[], 0), vec![]);
    let last = [symbol(Some(u64::MAX - 4), 0x10, SymbolKind::Function)];
    assert_eq!(table(&last, &[], 0)[0].end, u64::MAX, "a declared size that runs off the end stops there");
}
