//! What symbol resolution reads of an ELF file, held as plain values, and the
//! rules that turn it into name-to-address maps: the load address, whether
//! the file is statically linked, and its symbols, GOT and PLT entries.

use crate::elf::{ET_DYN, Symbol};
use crate::names::NameMap;
use vstd::prelude::*;

verus! {

/// Program header type of a loadable segment.
pub const PT_LOAD: u32 = 1;

/// Program header type of the segment naming the program interpreter.
pub const PT_INTERP: u32 = 3;

/// ELF object type of an executable that is not position independent.
pub const ET_EXEC: u16 = 2;

/// A program header: its type and the virtual address it loads at.
pub struct Segment {
    /// The segment type.
    pub p_type: u32,
    /// The virtual address.
    pub vaddr: u64,
}

/// A relocation: the index of its symbol in the dynamic symbol table, and
/// the address it patches.
pub struct Reloc {
    /// Index into the dynamic symbols.
    pub sym: usize,
    /// The patched address.
    pub offset: u64,
}

/// The section index that links to nothing.
pub const SHN_UNDEF: u32 = 0;

/// A section of relocations.
pub struct RelocSection {
    /// The `sh_link` of its header: the symbol table it refers to.
    pub link: u32,
    /// Its relocations, in order.
    pub relocs: Vec<Reloc>,
}

/// A dynamic symbol: its name, when the dynamic string table resolves it,
/// and its value.
pub struct DynSym {
    /// The resolved name.
    pub name: Option<String>,
    /// The symbol's value.
    pub value: u64,
}

/// A section header: its name, when the section name table resolves it,
/// where the section starts and how long each of its entries is.
pub struct SectionHeader {
    /// The resolved name.
    pub name: Option<String>,
    /// The section's address.
    pub addr: u64,
    /// The size of one entry.
    pub entsize: u64,
}

/// The parts of an ELF file that symbol resolution reads.
pub struct ElfImage {
    /// Whether the file is 64-bit.
    pub is_64: bool,
    /// The object type.
    pub e_type: u16,
    /// The program headers, in order.
    pub segments: Vec<Segment>,
    /// The static symbols; a name that does not resolve is empty.
    pub syms: Vec<Symbol>,
    /// The dynamic symbols.
    pub dynsyms: Vec<DynSym>,
    /// The relocation sections, in order.
    pub reloc_sections: Vec<RelocSection>,
    /// The section headers, in order.
    pub sections: Vec<SectionHeader>,
    /// The dynamic symbol index of each PLT relocation, in order.
    pub plt_relocs: Vec<usize>,
}

/// The map that inserting each pair of `s` in turn builds.
pub open spec fn pairs_map(s: Seq<(Seq<char>, u64)>) -> Map<Seq<char>, u64>
    decreases s.len(),
{
    if s.len() == 0 {
        Map::empty()
    } else {
        pairs_map(s.drop_last()).insert(s.last().0, s.last().1)
    }
}

proof fn lemma_pairs_map_push(a: Seq<(Seq<char>, u64)>, x: (Seq<char>, u64))
    ensures
        pairs_map(a.push(x)) == pairs_map(a).insert(x.0, x.1),
{
    assert(a.push(x).drop_last() == a);
}

/// The word size of the file in bits.
pub fn word_bits(is_64: bool) -> (r: usize)
    ensures
        r == if is_64 { 64usize } else { 32usize },
{
    if is_64 {
        64
    } else {
        32
    }
}

/// A loadable segment with a non-zero address.
pub open spec fn placed_load(s: Segment) -> bool {
    s.p_type == PT_LOAD && s.vaddr != 0
}

/// The address the file loads at: zero for a position-independent file,
/// else the lowest non-zero address of a loadable segment, or zero if none.
pub fn load_address(e_type: u16, segments: &Vec<Segment>) -> (r: u64)
    ensures
        e_type == ET_DYN ==> r == 0,
        e_type != ET_DYN ==> {
            &&& r == 0 <==> forall|i: int| 0 <= i < segments@.len() ==> !placed_load(#[trigger] segments@[i])
            &&& r != 0 ==> exists|i: int|
                0 <= i < segments@.len() && placed_load(#[trigger] segments@[i]) && segments@[i].vaddr == r
            &&& forall|i: int| 0 <= i < segments@.len() && placed_load(#[trigger] segments@[i]) ==> r <= segments@[i].vaddr
        },
{
    if e_type == ET_DYN {
        return 0;
    }
    let mut low: u64 = 0;
    let mut i: usize = 0;
    while i < segments.len()
        invariant
            i <= segments@.len(),
            low == 0 <==> forall|j: int| 0 <= j < i ==> !placed_load(#[trigger] segments@[j]),
            low != 0 ==> exists|j: int| 0 <= j < i && placed_load(#[trigger] segments@[j]) && segments@[j].vaddr == low,
            forall|j: int| 0 <= j < i && placed_load(#[trigger] segments@[j]) ==> low <= segments@[j].vaddr,
        decreases segments@.len() - i,
    {
        let seg = &segments[i];
        if seg.p_type == PT_LOAD && seg.vaddr != 0 && (seg.vaddr < low || low == 0) {
            low = seg.vaddr;
        }
        i = i + 1;
    }
    low
}

/// Whether the file is statically linked: an executable with a load
/// address and no interpreter segment.
pub fn statically_linked(e_type: u16, load: u64, segments: &Vec<Segment>) -> (r: bool)
    ensures
        r == (e_type == ET_EXEC && load != 0 && forall|i: int|
            0 <= i < segments@.len() ==> (#[trigger] segments@[i]).p_type != PT_INTERP),
{
    if e_type != ET_EXEC || load == 0 {
        return false;
    }
    let mut i: usize = 0;
    while i < segments.len()
        invariant
            i <= segments@.len(),
            forall|j: int| 0 <= j < i ==> (#[trigger] segments@[j]).p_type != PT_INTERP,
        decreases segments@.len() - i,
    {
        if segments[i].p_type == PT_INTERP {
            return false;
        }
        i = i + 1;
    }
    true
}

/// The name of dynamic symbol `i`, when it exists and resolves.
pub open spec fn dyn_name(dynsyms: Seq<DynSym>, i: int) -> Option<Seq<char>> {
    if 0 <= i < dynsyms.len() {
        match dynsyms[i].name {
            Some(n) => Some(n@),
            None => None,
        }
    } else {
        None
    }
}

/// The GOT entry a relocation gives, if any: a named symbol other than the
/// first, patched at a non-zero address.
pub open spec fn got_entry(r: Reloc, dynsyms: Seq<DynSym>) -> Option<(Seq<char>, u64)> {
    if r.sym != 0 && r.offset != 0 {
        match dyn_name(dynsyms, r.sym as int) {
            Some(n) => if n.len() > 0 {
                Some((n, r.offset))
            } else {
                None
            },
            None => None,
        }
    } else {
        None
    }
}

/// The GOT entries of `relocs`, in order.
pub open spec fn reloc_pairs(relocs: Seq<Reloc>, dynsyms: Seq<DynSym>) -> Seq<(Seq<char>, u64)>
    decreases relocs.len(),
{
    if relocs.len() == 0 {
        Seq::empty()
    } else {
        let rest = reloc_pairs(relocs.drop_last(), dynsyms);
        match got_entry(relocs.last(), dynsyms) {
            Some(p) => rest.push(p),
            None => rest,
        }
    }
}

/// The GOT entries of the linked sections of `sections`, in order.
pub open spec fn got_pairs(sections: Seq<RelocSection>, dynsyms: Seq<DynSym>) -> Seq<(Seq<char>, u64)>
    decreases sections.len(),
{
    if sections.len() == 0 {
        Seq::empty()
    } else {
        got_pairs(sections.drop_last(), dynsyms) + if sections.last().link != SHN_UNDEF {
            reloc_pairs(sections.last().relocs@, dynsyms)
        } else {
            Seq::empty()
        }
    }
}

/// The GOT, name to patched address; empty for a statically linked file.
pub fn got_map(img: &ElfImage, statically: bool) -> (r: NameMap)
    ensures
        r@ == if statically {
            Map::<Seq<char>, u64>::empty()
        } else {
            pairs_map(got_pairs(img.reloc_sections@, img.dynsyms@))
        },
{
    let mut got = NameMap::new();
    if statically {
        return got;
    }
    let secs = &img.reloc_sections;
    let dynsyms = &img.dynsyms;
    let mut s: usize = 0;
    assert(secs@.subrange(0, 0) == Seq::<RelocSection>::empty());
    while s < secs.len()
        invariant
            s <= secs@.len(),
            got@ == pairs_map(got_pairs(secs@.subrange(0, s as int), dynsyms@)),
        decreases secs@.len() - s,
    {
        let ghost done = got_pairs(secs@.subrange(0, s as int), dynsyms@);
        let sec = &secs[s];
        assert(secs@.subrange(0, s + 1).drop_last() == secs@.subrange(0, s as int));
        if sec.link != SHN_UNDEF {
            let relocs = &sec.relocs;
            let mut k: usize = 0;
            assert(relocs@.subrange(0, 0) == Seq::<Reloc>::empty());
            assert(done + Seq::<(Seq<char>, u64)>::empty() == done);
            while k < relocs.len()
                invariant
                    k <= relocs@.len(),
                    got@ == pairs_map(done + reloc_pairs(relocs@.subrange(0, k as int), dynsyms@)),
                decreases relocs@.len() - k,
            {
                let ghost before = reloc_pairs(relocs@.subrange(0, k as int), dynsyms@);
                assert(relocs@.subrange(0, k + 1).drop_last() == relocs@.subrange(0, k as int));
                let r = &relocs[k];
                if r.sym != 0 && r.offset != 0 && r.sym < dynsyms.len() {
                    match &dynsyms[r.sym].name {
                        Some(n) => {
                            if !n.as_str().is_empty() {
                                proof {
                                    lemma_pairs_map_push(done + before, (n@, r.offset));
                                    assert(done + before.push((n@, r.offset)) == (done + before).push(
                                        (n@, r.offset),
                                    ));
                                }
                                got.insert(n.clone(), r.offset);
                            }
                        },
                        None => {},
                    }
                }
                k = k + 1;
            }
            assert(relocs@.subrange(0, relocs@.len() as int) == relocs@);
        } else {
            assert(done + Seq::<(Seq<char>, u64)>::empty() == done);
        }
        s = s + 1;
    }
    assert(secs@.subrange(0, secs@.len() as int) == secs@);
    got
}

/// The PLT entries of the relocations `rel`: the `i`-th, when its symbol
/// resolves to a name, stands at the `i + 1`-th entry of the section.
pub open spec fn plt_pairs(rel: Seq<usize>, dynsyms: Seq<DynSym>, addr: nat, entsize: nat) -> Seq<(Seq<char>, u64)>
    decreases rel.len(),
{
    if rel.len() == 0 {
        Seq::empty()
    } else {
        let rest = plt_pairs(rel.drop_last(), dynsyms, addr, entsize);
        match dyn_name(dynsyms, rel.last() as int) {
            Some(n) => rest.push((n, (addr + entsize * rel.len()) as u64)),
            None => rest,
        }
    }
}

proof fn lemma_div_bound(a: int, b: int, n: int)
    requires
        a >= 0,
        b > 0,
        n >= 0,
    ensures
        n > a / b ==> b * n > a,
        n <= a / b ==> b * n <= a,
{
    vstd::arithmetic::div_mod::lemma_fundamental_div_mod(a, b);
    let q = a / b;
    if n > q {
        assert(b * n >= b * (q + 1)) by (nonlinear_arith)
            requires
                n >= q + 1,
                b > 0,
        ;
        assert(b * (q + 1) == b * q + b) by (nonlinear_arith);
        assert(a % b < b);
    } else {
        assert(b * n <= b * q) by (nonlinear_arith)
            requires
                n <= q,
                b > 0,
        ;
    }
}

/// The section is the procedure linkage table, `.plt`.
pub open spec fn is_plt(h: SectionHeader) -> bool {
    match h.name {
        Some(n) => n@ == ".plt"@,
        None => false,
    }
}

/// `i` is the first `.plt` section among `sections`.
pub open spec fn first_plt(sections: Seq<SectionHeader>, i: int) -> bool {
    &&& 0 <= i < sections.len()
    &&& is_plt(sections[i])
    &&& forall|j: int| 0 <= j < i ==> !is_plt(#[trigger] sections[j])
}

/// The address and entry size of the first `.plt` section, if there is one.
fn find_plt(sections: &Vec<SectionHeader>) -> (r: Option<(u64, u64)>)
    ensures
        match r {
            Some(p) => exists|i: int|
                first_plt(sections@, i) && p == (sections@[i].addr, sections@[i].entsize),
            None => forall|i: int| 0 <= i < sections@.len() ==> !is_plt(#[trigger] sections@[i]),
        },
{
    let plt_name = ".plt".to_owned();
    let mut i: usize = 0;
    while i < sections.len()
        invariant
            i <= sections@.len(),
            plt_name@ == ".plt"@,
            forall|j: int| 0 <= j < i ==> !is_plt(#[trigger] sections@[j]),
        decreases sections@.len() - i,
    {
        let h = &sections[i];
        match &h.name {
            Some(n) => {
                if *n == plt_name {
                    assert(first_plt(sections@, i as int));
                    return Some((h.addr, h.entsize));
                }
            },
            None => {},
        }
        i = i + 1;
    }
    None
}

/// The PLT, name to entry address. Empty for a statically linked file or
/// one without GOT entries. `None` when it should be there but the file has
/// no `.plt` section, or its entries run past the end of the address space.
pub fn plt_map(img: &ElfImage, statically: bool, got_empty: bool) -> (r: Option<NameMap>)
    ensures
        (statically || got_empty) ==> r is Some && r->0@ == Map::<Seq<char>, u64>::empty(),
        !(statically || got_empty) && (forall|i: int|
            0 <= i < img.sections@.len() ==> !is_plt(#[trigger] img.sections@[i])) ==> r is None,
        forall|i: int|
            !(statically || got_empty) && first_plt(img.sections@, i) ==> {
                let p = #[trigger] img.sections@[i];
                if p.addr + p.entsize * img.plt_relocs@.len() > u64::MAX {
                    r is None
                } else {
                    r is Some && r->0@ == pairs_map(
                        plt_pairs(img.plt_relocs@, img.dynsyms@, p.addr as nat, p.entsize as nat),
                    )
                }
            },
{
    if statically || got_empty {
        return Some(NameMap::new());
    }
    let (addr, entsize) = match find_plt(&img.sections) {
        Some(p) => p,
        None => {
            return None;
        },
    };
    let ghost at = choose|i: int|
        first_plt(img.sections@, i) && (addr, entsize) == (img.sections@[i].addr, img.sections@[i].entsize);
    assert forall|i: int| first_plt(img.sections@, i) implies i == at by {
        if i < at {
            assert(!is_plt(img.sections@[i]));
        } else if i > at {
            assert(!is_plt(img.sections@[at]));
        }
    }
    let rel = &img.plt_relocs;
    let dynsyms = &img.dynsyms;
    let n = rel.len();
    if entsize != 0 && n as u64 > (u64::MAX - addr) / entsize {
        proof {
            lemma_div_bound((u64::MAX - addr) as int, entsize as int, n as int);
        }
        return None;
    }
    proof {
        if entsize != 0 {
            lemma_div_bound((u64::MAX - addr) as int, entsize as int, n as int);
        }
    }
    let mut plt = NameMap::new();
    let mut i: usize = 0;
    assert(rel@.subrange(0, 0) == Seq::<usize>::empty());
    while i < n
        invariant
            n == rel@.len(),
            i <= n,
            addr + entsize * n <= u64::MAX,
            plt@ == pairs_map(plt_pairs(rel@.subrange(0, i as int), dynsyms@, addr as nat, entsize as nat)),
        decreases n - i,
    {
        let ghost before = plt_pairs(rel@.subrange(0, i as int), dynsyms@, addr as nat, entsize as nat);
        let ghost next = rel@.subrange(0, i + 1);
        assert(next.drop_last() == rel@.subrange(0, i as int));
        assert(next.last() == rel@[i as int]);
        let sym = rel[i];
        if sym < dynsyms.len() {
            match &dynsyms[sym].name {
                Some(name) => {
                    proof {
                        assert(entsize * (i + 1) <= entsize * n) by (nonlinear_arith)
                            requires
                                i + 1 <= n,
                        ;
                    }
                    let at = addr + entsize * (i as u64 + 1);
                    proof {
                        lemma_pairs_map_push(before, (name@, at));
                    }
                    plt.insert(name.clone(), at);
                },
                None => {},
            }
        }
        i = i + 1;
    }
    assert(rel@.subrange(0, n as int) == rel@);
    Some(plt)
}

/// The entries the static symbols give: named, with a non-zero value.
pub open spec fn sym_pairs(syms: Seq<Symbol>) -> Seq<(Seq<char>, u64)>
    decreases syms.len(),
{
    if syms.len() == 0 {
        Seq::empty()
    } else {
        let rest = sym_pairs(syms.drop_last());
        let s = syms.last();
        if s.address != 0 && s.name@.len() > 0 {
            rest.push((s.name@, s.address))
        } else {
            rest
        }
    }
}

/// The entries the dynamic symbols give: named, with a non-zero value.
pub open spec fn dynsym_pairs(dynsyms: Seq<DynSym>) -> Seq<(Seq<char>, u64)>
    decreases dynsyms.len(),
{
    if dynsyms.len() == 0 {
        Seq::empty()
    } else {
        let rest = dynsym_pairs(dynsyms.drop_last());
        let d = dynsyms.last();
        match d.name {
            Some(n) => if d.value != 0 && n@.len() > 0 {
                rest.push((n@, d.value))
            } else {
                rest
            },
            None => rest,
        }
    }
}

/// Every symbol of the file, name to address: the static symbols, then the
/// dynamic ones (a later one of the same name wins), then the PLT entries and
/// GOT entries of names not seen yet.
pub fn symbol_map(img: &ElfImage, plt: &NameMap, got: &NameMap) -> (r: NameMap)
    ensures
        r@ == got@.union_prefer_right(
            plt@.union_prefer_right(pairs_map(sym_pairs(img.syms@) + dynsym_pairs(img.dynsyms@))),
        ),
{
    let mut map = NameMap::new();
    let syms = &img.syms;
    let mut i: usize = 0;
    assert(syms@.subrange(0, 0) == Seq::<Symbol>::empty());
    while i < syms.len()
        invariant
            i <= syms@.len(),
            map@ == pairs_map(sym_pairs(syms@.subrange(0, i as int))),
        decreases syms@.len() - i,
    {
        let ghost before = sym_pairs(syms@.subrange(0, i as int));
        assert(syms@.subrange(0, i + 1).drop_last() == syms@.subrange(0, i as int));
        let s = &syms[i];
        if s.address != 0 && !s.name.as_str().is_empty() {
            proof {
                lemma_pairs_map_push(before, (s.name@, s.address));
            }
            map.insert(s.name.clone(), s.address);
        }
        i = i + 1;
    }
    assert(syms@.subrange(0, syms@.len() as int) == syms@);
    let ghost statics = sym_pairs(syms@);
    let dynsyms = &img.dynsyms;
    let mut j: usize = 0;
    assert(dynsyms@.subrange(0, 0) == Seq::<DynSym>::empty());
    assert(statics + Seq::<(Seq<char>, u64)>::empty() == statics);
    while j < dynsyms.len()
        invariant
            j <= dynsyms@.len(),
            map@ == pairs_map(statics + dynsym_pairs(dynsyms@.subrange(0, j as int))),
        decreases dynsyms@.len() - j,
    {
        let ghost before = dynsym_pairs(dynsyms@.subrange(0, j as int));
        assert(dynsyms@.subrange(0, j + 1).drop_last() == dynsyms@.subrange(0, j as int));
        let d = &dynsyms[j];
        match &d.name {
            Some(n) => {
                if d.value != 0 && !n.as_str().is_empty() {
                    proof {
                        lemma_pairs_map_push(statics + before, (n@, d.value));
                        assert(statics + before.push((n@, d.value)) == (statics + before).push(
                            (n@, d.value),
                        ));
                    }
                    map.insert(n.clone(), d.value);
                }
            },
            None => {},
        }
        j = j + 1;
    }
    assert(dynsyms@.subrange(0, dynsyms@.len() as int) == dynsyms@);
    map.absorb_missing(plt);
    map.absorb_missing(got);
    map
}

} // verus!
