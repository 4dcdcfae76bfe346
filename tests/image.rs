use pwn::elf::Symbol;
use pwn::image::{
    got_map, load_address, plt_map, statically_linked, symbol_map, word_bits, DynSym, ElfImage,
    Reloc, RelocSection, SectionHeader, Segment, ET_EXEC, PT_INTERP, PT_LOAD,
};
use pwn::names::NameMap;

fn seg(p_type: u32, vaddr: u64) -> Segment {
    Segment { p_type, vaddr }
}

fn dynsym(name: Option<&str>, value: u64) -> DynSym {
    DynSym { name: name.map(String::from), value }
}

fn pairs(map: &NameMap) -> Vec<(String, u64)> {
    let mut v: Vec<(String, u64)> = map.entries().clone();
    v.sort();
    v
}

fn owned(v: &[(&str, u64)]) -> Vec<(String, u64)> {
    let mut out: Vec<(String, u64)> = v.iter().map(|(n, a)| (n.to_string(), *a)).collect();
    out.sort();
    out
}

fn image() -> ElfImage {
    ElfImage {
        is_64: true,
        e_type: ET_EXEC,
        segments: vec![seg(PT_INTERP, 0x400318), seg(PT_LOAD, 0x400000), seg(PT_LOAD, 0x401000)],
        syms: vec![
            Symbol { name: "main".to_string(), address: 0x401136 },
            Symbol { name: "".to_string(), address: 0x401000 },
            Symbol { name: "undefined".to_string(), address: 0 },
        ],
        dynsyms: vec![
            dynsym(Some(""), 0),
            dynsym(Some("puts"), 0),
            dynsym(Some("printf"), 0),
            dynsym(Some("main"), 0x401140),
            dynsym(None, 0x10),
        ],
        reloc_sections: vec![
            RelocSection {
                link: 5,
                relocs: vec![
                    Reloc { sym: 1, offset: 0x404018 },
                    Reloc { sym: 2, offset: 0x404020 },
                    Reloc { sym: 0, offset: 0x404028 },
                    Reloc { sym: 9, offset: 0x404030 },
                ],
            },
            RelocSection { link: 0, relocs: vec![Reloc { sym: 3, offset: 0x404038 }] },
        ],
        sections: vec![
            SectionHeader { name: None, addr: 0, entsize: 0 },
            SectionHeader { name: Some(".plt".to_string()), addr: 0x401020, entsize: 16 },
            SectionHeader { name: Some(".plt".to_string()), addr: 0x999, entsize: 1 },
        ],
        plt_relocs: vec![1, 2],
    }
}

#[test]
fn name_map_insert_replaces_and_keeps_names_once() {
    let mut m = NameMap::new();
    assert!(m.is_empty());
    m.insert("a".to_string(), 1);
    m.insert("b".to_string(), 2);
    m.insert("a".to_string(), 3);
    assert_eq!(m.get("a"), Some(3));
    assert_eq!(m.get("b"), Some(2));
    assert_eq!(m.get("c"), None);
    assert_eq!(m.entries().len(), 2);
    m.insert_if_absent("a".to_string(), 9);
    m.insert_if_absent("c".to_string(), 4);
    assert_eq!(m.get("a"), Some(3));
    assert_eq!(m.get("c"), Some(4));
    let mut other = NameMap::new();
    other.insert("c".to_string(), 7);
    other.insert("d".to_string(), 8);
    m.absorb_missing(&other);
    assert_eq!(pairs(&m), owned(&[("a", 3), ("b", 2), ("c", 4), ("d", 8)]));
}

#[test]
fn load_address_is_lowest_loaded_nonzero() {
    let segs = vec![seg(PT_LOAD, 0), seg(PT_LOAD, 0x2000), seg(PT_INTERP, 0x10), seg(PT_LOAD, 0x1000)];
    assert_eq!(load_address(ET_EXEC, &segs), 0x1000);
    assert_eq!(load_address(3, &segs), 0);
    assert_eq!(load_address(ET_EXEC, &vec![seg(PT_INTERP, 0x10)]), 0);
}

#[test]
fn static_linking_needs_executable_load_and_no_interpreter() {
    let segs = vec![seg(PT_LOAD, 0x400000)];
    assert!(statically_linked(ET_EXEC, 0x400000, &segs));
    assert!(!statically_linked(ET_EXEC, 0, &segs));
    assert!(!statically_linked(3, 0x400000, &segs));
    assert!(!statically_linked(ET_EXEC, 0x400000, &vec![seg(PT_LOAD, 1), seg(PT_INTERP, 2)]));
}

#[test]
fn word_size_follows_class() {
    assert_eq!(word_bits(true), 64);
    assert_eq!(word_bits(false), 32);
}

#[test]
fn got_takes_named_relocations_of_linked_sections() {
    let img = image();
    let got = got_map(&img, false);
    assert_eq!(pairs(&got), owned(&[("puts", 0x404018), ("printf", 0x404020)]));
    assert!(got_map(&img, true).is_empty());
}

#[test]
fn plt_entries_follow_the_header_entry() {
    let img = image();
    let plt = plt_map(&img, false, false).unwrap();
    assert_eq!(pairs(&plt), owned(&[("puts", 0x401030), ("printf", 0x401040)]));
    assert!(plt_map(&img, true, false).unwrap().is_empty());
    assert!(plt_map(&img, false, true).unwrap().is_empty());
}

#[test]
fn plt_without_section_or_room_is_refused() {
    let mut img = image();
    img.sections = vec![SectionHeader { name: Some(".text".to_string()), addr: 0, entsize: 0 }];
    assert!(plt_map(&img, false, false).is_none());
    img.sections = vec![SectionHeader { name: Some(".plt".to_string()), addr: u64::MAX - 8, entsize: 16 }];
    assert!(plt_map(&img, false, false).is_none());
}

#[test]
fn symbols_merge_static_dynamic_plt_and_got() {
    let img = image();
    let got = got_map(&img, false);
    let plt = plt_map(&img, false, false).unwrap();
    let syms = symbol_map(&img, &plt, &got);
    assert_eq!(
        pairs(&syms),
        owned(&[("main", 0x401140), ("puts", 0x401030), ("printf", 0x401040)])
    );
}
