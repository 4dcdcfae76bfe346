use pwn::elf::{is_pie, listed_symbols, Symbol, Symtab};

fn sym(name: &str, address: u64) -> Symbol {
    Symbol { name: name.to_string(), address }
}

#[test]
fn symtab_lookup_finds_first_by_name() {
    let t = Symtab::new(vec![sym("main", 0x401000), sym("puts", 0x401030), sym("main", 0x1)]);
    assert_eq!(t.get("main").map(|s| s.address), Some(0x401000));
    assert_eq!(t.get("puts").map(|s| s.address), Some(0x401030));
    assert!(t.get("blahblah").is_none());
    assert_eq!(t.symbols().len(), 3);
}

#[test]
fn only_named_placed_symbols_are_listed() {
    let all = vec![sym("", 0x10), sym("a", 0), sym("b", 0x20), sym("c", 0x30), sym("", 0)];
    let kept: Vec<(String, u64)> =
        listed_symbols(all).into_iter().map(|s| (s.name, s.address)).collect();
    assert_eq!(kept, vec![("b".to_string(), 0x20), ("c".to_string(), 0x30)]);
}

#[test]
fn shared_object_type_is_pie() {
    assert!(is_pie(3));
    assert!(!is_pie(2));
}
