//! Symbols of a binary: names and the addresses they stand at.

use vstd::prelude::*;

verus! {

/// The ELF object type of a shared object, which position-independent
/// executables are too.
pub const ET_DYN: u16 = 3;

/// Whether an ELF file of object type `e_type` is position independent.
pub fn is_pie(e_type: u16) -> (r: bool)
    ensures
        r == (e_type == ET_DYN),
{
    e_type == ET_DYN
}

/// A named address in a binary.
pub struct Symbol {
    /// The symbol's name.
    pub name: String,
    /// Where it stands.
    pub address: u64,
}

/// The symbols of a binary, in the order they were read.
pub struct Symtab {
    symbols: Vec<Symbol>,
}

impl View for Symtab {
    type V = Seq<Symbol>;

    closed spec fn view(&self) -> Seq<Symbol> {
        self.symbols@
    }
}

/// `i` is the first place in `syms` where a symbol is named `name`.
pub open spec fn first_named(syms: Seq<Symbol>, name: Seq<char>, i: int) -> bool {
    &&& 0 <= i < syms.len()
    &&& syms[i].name@ == name
    &&& forall|j: int| 0 <= j < i ==> syms[j].name@ != name
}

impl Symtab {
    /// A table of the given symbols, in their order.
    pub fn new(symbols: Vec<Symbol>) -> (r: Symtab)
        ensures
            r@ == symbols@,
    {
        Symtab { symbols }
    }

    /// The symbols, in order.
    pub fn symbols(&self) -> (r: &Vec<Symbol>)
        ensures
            r@ == self@,
    {
        &self.symbols
    }

    /// The first symbol named `name`, if there is one.
    pub fn get(&self, name: &str) -> (r: Option<&Symbol>)
        ensures
            match r {
                Some(s) => exists|i: int| first_named(self@, name@, i) && *s == self@[i],
                None => forall|i: int| 0 <= i < self@.len() ==> self@[i].name@ != name@,
            },
    {
        let key = name.to_owned();
        let mut i: usize = 0;
        while i < self.symbols.len()
            invariant
                i <= self@.len(),
                key@ == name@,
                forall|j: int| 0 <= j < i ==> self@[j].name@ != name@,
            decreases self@.len() - i,
        {
            if self.symbols[i].name == key {
                assert(first_named(self@, name@, i as int));
                return Some(&self.symbols[i]);
            }
            i = i + 1;
        }
        None
    }
}

/// A symbol worth listing: it has a name and a non-zero address.
pub open spec fn listed(s: Symbol) -> bool {
    s.name@.len() > 0 && s.address != 0
}

/// The symbols of `syms` worth listing, in their order.
pub open spec fn listed_of(syms: Seq<Symbol>) -> Seq<Symbol>
    decreases syms.len(),
{
    if syms.len() == 0 {
        Seq::empty()
    } else if listed(syms.last()) {
        listed_of(syms.drop_last()).push(syms.last())
    } else {
        listed_of(syms.drop_last())
    }
}

proof fn lemma_reverse_push(s: Seq<Symbol>, x: Symbol)
    ensures
        s.push(x).reverse() == seq![x] + s.reverse(),
{
    assert(s.push(x).reverse() =~= seq![x] + s.reverse());
}

/// Keeps the symbols worth listing, those with a name and a non-zero
/// address, in the order they came.
pub fn listed_symbols(all: Vec<Symbol>) -> (r: Vec<Symbol>)
    ensures
        r@ == listed_of(all@),
{
    let mut rest = all;
    let mut kept_rev: Vec<Symbol> = Vec::new();
    assert(Seq::<Symbol>::empty().reverse() == Seq::<Symbol>::empty());
    assert(listed_of(all@) + Seq::<Symbol>::empty() == listed_of(all@));
    while rest.len() > 0
        invariant
            listed_of(all@) == listed_of(rest@) + kept_rev@.reverse(),
        decreases rest@.len(),
    {
        let ghost before = rest@;
        match rest.pop() {
            Some(s) => {
                assert(before.drop_last() == rest@);
                proof {
                    lemma_reverse_push(kept_rev@, s);
                }
                if !s.name.as_str().is_empty() && s.address != 0 {
                    assert(listed_of(before) + kept_rev@.reverse() == listed_of(rest@) + (seq![s]
                        + kept_rev@.reverse()));
                    kept_rev.push(s);
                }
            },
            None => {},
        }
    }
    let mut out: Vec<Symbol> = Vec::new();
    assert(Seq::<Symbol>::empty() + kept_rev@.reverse() == kept_rev@.reverse());
    while kept_rev.len() > 0
        invariant
            listed_of(all@) == out@ + kept_rev@.reverse(),
        decreases kept_rev@.len(),
    {
        let ghost before = kept_rev@;
        match kept_rev.pop() {
            Some(s) => {
                assert(before == kept_rev@.push(s));
                proof {
                    lemma_reverse_push(kept_rev@, s);
                }
                assert(out@ + before.reverse() == out@.push(s) + kept_rev@.reverse());
                out.push(s);
            },
            None => {},
        }
    }
    assert(out@ + Seq::<Symbol>::empty() == out@);
    out
}

} // verus!
