//! Flattening values into one byte string: numbers packed as words of the
//! architecture, bytes and text as they are, sequences concatenated, and
//! byte strings laid out at chosen offsets.

use crate::context::{Arch, width};
use crate::packing::{bytes_of, fits, pack};
use vstd::prelude::*;
use vstd::utf8::encode_utf8;

verus! {

/// What a number flattens to: one word of the architecture, if it fits.
pub open spec fn word_flat(v: nat, arch: Arch) -> Option<Seq<u8>> {
    if fits(v, arch.bits) {
        Some(bytes_of(v, width(arch.bits), arch.endian))
    } else {
        None
    }
}

/// A value that can be flattened down to bytes.
pub trait Flatten {
    /// The bytes that `self` flattens to under `arch`; `None` when it cannot
    /// be flattened there (a number too wide for the word size).
    spec fn flat_bytes(&self, arch: Arch) -> Option<Seq<u8>>;

    /// Flattens `self` under `arch`.
    fn flatten(&self, arch: Arch) -> (r: Option<Vec<u8>>)
        ensures
            match r {
                Some(v) => self.flat_bytes(arch) == Some(v@),
                None => self.flat_bytes(arch) is None,
            },
    ;
}

/// A byte stays itself, whatever the architecture.
impl Flatten for u8 {
    open spec fn flat_bytes(&self, arch: Arch) -> Option<Seq<u8>> {
        Some(seq![*self])
    }

    fn flatten(&self, arch: Arch) -> (r: Option<Vec<u8>>) {
        let mut out: Vec<u8> = Vec::new();
        out.push(*self);
        Some(out)
    }
}

impl Flatten for u16 {
    open spec fn flat_bytes(&self, arch: Arch) -> Option<Seq<u8>> {
        word_flat(*self as nat, arch)
    }

    fn flatten(&self, arch: Arch) -> (r: Option<Vec<u8>>) {
        pack(*self as u64, arch)
    }
}

impl Flatten for u32 {
    open spec fn flat_bytes(&self, arch: Arch) -> Option<Seq<u8>> {
        word_flat(*self as nat, arch)
    }

    fn flatten(&self, arch: Arch) -> (r: Option<Vec<u8>>) {
        pack(*self as u64, arch)
    }
}

impl Flatten for u64 {
    open spec fn flat_bytes(&self, arch: Arch) -> Option<Seq<u8>> {
        word_flat(*self as nat, arch)
    }

    fn flatten(&self, arch: Arch) -> (r: Option<Vec<u8>>) {
        pack(*self, arch)
    }
}

/// Text flattens to its UTF-8 bytes.
impl Flatten for String {
    open spec fn flat_bytes(&self, arch: Arch) -> Option<Seq<u8>> {
        Some(encode_utf8(self@))
    }

    fn flatten(&self, arch: Arch) -> (r: Option<Vec<u8>>) {
        let b = self.as_str().as_bytes();
        let mut out: Vec<u8> = Vec::new();
        let mut i: usize = 0;
        while i < b.len()
            invariant
                i <= b@.len(),
                out@ == b@.subrange(0, i as int),
            decreases b@.len() - i,
        {
            out.push(b[i]);
            i = i + 1;
            assert(out@ == b@.subrange(0, i as int));
        }
        assert(b@.subrange(0, b@.len() as int) == b@);
        Some(out)
    }
}

/// The items flattened one after another, or `None` if one of them cannot be.
pub open spec fn concat_flat<T: Flatten>(items: Seq<T>, arch: Arch) -> Option<Seq<u8>>
    decreases items.len(),
{
    if items.len() == 0 {
        Some(Seq::empty())
    } else {
        match (concat_flat(items.drop_last(), arch), items.last().flat_bytes(arch)) {
            (Some(a), Some(b)) => Some(a + b),
            _ => None,
        }
    }
}

proof fn lemma_concat_flat_fails<T: Flatten>(items: Seq<T>, i: int, arch: Arch)
    requires
        0 <= i <= items.len(),
        concat_flat(items.subrange(0, i), arch) is None,
    ensures
        concat_flat(items, arch) is None,
    decreases items.len() - i,
{
    if i < items.len() {
        assert(items.subrange(0, i + 1).drop_last() == items.subrange(0, i));
        lemma_concat_flat_fails(items, i + 1, arch);
    } else {
        assert(items.subrange(0, i) == items);
    }
}

/// Flattens each item in turn and concatenates the results.
fn flatten_all<T: Flatten>(items: &[T], arch: Arch) -> (r: Option<Vec<u8>>)
    ensures
        match r {
            Some(v) => concat_flat(items@, arch) == Some(v@),
            None => concat_flat(items@, arch) is None,
        },
{
    let mut out: Vec<u8> = Vec::new();
    let mut i: usize = 0;
    assert(items@.subrange(0, 0) == Seq::<T>::empty());
    while i < items.len()
        invariant
            i <= items@.len(),
            concat_flat(items@.subrange(0, i as int), arch) == Some(out@),
        decreases items@.len() - i,
    {
        let ghost prefix = items@.subrange(0, i + 1);
        assert(prefix.drop_last() == items@.subrange(0, i as int));
        assert(prefix.last() == items@[i as int]);
        match items[i].flatten(arch) {
            Some(piece) => {
                let mut piece = piece;
                out.append(&mut piece);
            },
            None => {
                proof {
                    lemma_concat_flat_fails(items@, i + 1, arch);
                }
                return None;
            },
        }
        i = i + 1;
    }
    assert(items@.subrange(0, items@.len() as int) == items@);
    Some(out)
}

/// A sequence flattens to its items flattened, one after another.
impl<T: Flatten> Flatten for Vec<T> {
    open spec fn flat_bytes(&self, arch: Arch) -> Option<Seq<u8>> {
        concat_flat(self@, arch)
    }

    fn flatten(&self, arch: Arch) -> (r: Option<Vec<u8>>) {
        flatten_all(self.as_slice(), arch)
    }
}

/// An array flattens to its items flattened, one after another.
impl<T: Flatten, const N: usize> Flatten for [T; N] {
    open spec fn flat_bytes(&self, arch: Arch) -> Option<Seq<u8>> {
        concat_flat(self@, arch)
    }

    fn flatten(&self, arch: Arch) -> (r: Option<Vec<u8>>) {
        flatten_all(self.as_slice(), arch)
    }
}

/// Flattens `item` under `arch`.
pub fn flat<F: Flatten>(item: &F, arch: Arch) -> (r: Option<Vec<u8>>)
    ensures
        match r {
            Some(v) => item.flat_bytes(arch) == Some(v@),
            None => item.flat_bytes(arch) is None,
        },
{
    item.flatten(arch)
}

/// The byte that fills the gaps between laid-out pieces: `a`.
pub const FILLER: u8 = 0x61;

/// Marks a position that no piece has claimed yet.
const FREE: usize = usize::MAX;

/// Where the piece `p`, its bytes placed at its offset, ends.
pub open spec fn end_of(p: (usize, Vec<u8>)) -> nat {
    p.0 as nat + p.1@.len()
}

/// The piece `p` puts one of its bytes at position `j`.
pub open spec fn covers(p: (usize, Vec<u8>), j: int) -> bool {
    p.0 <= j < end_of(p)
}

/// The byte that the piece `p` puts at position `j`.
pub open spec fn byte_at(p: (usize, Vec<u8>), j: int) -> u8 {
    p.1@[j - p.0]
}

/// Two of the pieces put a byte at the same position.
pub open spec fn overlapping(ps: Seq<(usize, Vec<u8>)>) -> bool {
    exists|a: int, b: int, j: int|
        #![trigger covers(ps[a], j), covers(ps[b], j)]
        0 <= a < b < ps.len() && covers(ps[a], j) && covers(ps[b], j)
}

/// Lays the pieces out in one byte string: each piece's bytes start at its
/// offset, the string ends where the last-ending piece ends, and positions no
/// piece reaches hold the filler `a`. `None` when two pieces overlap.
pub fn flat_layout(pieces: &[(usize, Vec<u8>)]) -> (r: Option<Vec<u8>>)
    requires
        forall|a: int| 0 <= a < pieces@.len() ==> end_of(#[trigger] pieces@[a]) <= usize::MAX,
    ensures
        r is None <==> overlapping(pieces@),
        r is Some ==> {
            let out = r->0@;
            &&& forall|a: int| 0 <= a < pieces@.len() ==> end_of(#[trigger] pieces@[a]) <= out.len()
            &&& out.len() == 0 || exists|a: int|
                0 <= a < pieces@.len() && end_of(#[trigger] pieces@[a]) == out.len()
            &&& forall|a: int, j: int|
                0 <= a < pieces@.len() && #[trigger] covers(pieces@[a], j) ==> out[j]
                    == byte_at(pieces@[a], j)
            &&& forall|j: int|
                0 <= j < out.len() && (forall|a: int|
                    0 <= a < pieces@.len() ==> !#[trigger] covers(pieces@[a], j)) ==> out[j]
                    == FILLER
        },
{
    let n = pieces.len();
    let mut e: usize = 0;
    let mut i: usize = 0;
    while i < n
        invariant
            n == pieces@.len(),
            i <= n,
            forall|a: int| 0 <= a < pieces@.len() ==> end_of(#[trigger] pieces@[a]) <= usize::MAX,
            forall|a: int| 0 <= a < i ==> end_of(#[trigger] pieces@[a]) <= e,
            e == 0 || exists|a: int| 0 <= a < i && end_of(#[trigger] pieces@[a]) == e,
        decreases n - i,
    {
        assert(end_of(pieces@[i as int]) <= usize::MAX);
        let end = pieces[i].0 + pieces[i].1.len();
        if end > e {
            e = end;
        }
        i = i + 1;
    }
    let mut out: Vec<u8> = Vec::new();
    let mut owner: Vec<usize> = Vec::new();
    let mut j: usize = 0;
    while j < e
        invariant
            j <= e,
            out@.len() == j,
            owner@.len() == j,
            forall|k: int| 0 <= k < j ==> out@[k] == FILLER && owner@[k] == FREE,
        decreases e - j,
    {
        out.push(FILLER);
        owner.push(FREE);
        j = j + 1;
    }
    let mut a: usize = 0;
    while a < n
        invariant
            n == pieces@.len(),
            a <= n,
            out@.len() == e,
            owner@.len() == e,
            forall|b: int| 0 <= b < n ==> end_of(#[trigger] pieces@[b]) <= e,
            forall|k: int|
                0 <= k < e ==> (owner@[k] == FREE && out@[k] == FILLER) || (owner@[k] < a
                    && covers(pieces@[owner@[k] as int], k) && out@[k] == byte_at(
                    pieces@[owner@[k] as int],
                    k,
                )),
            forall|b: int, k: int|
                0 <= b < a && #[trigger] covers(pieces@[b], k) ==> owner@[k] == b,
        decreases n - a,
    {
        let off = pieces[a].0;
        let bytes = &pieces[a].1;
        assert(end_of(pieces@[a as int]) <= e);
        let mut k: usize = 0;
        while k < bytes.len()
            invariant
                n == pieces@.len(),
                a < n,
                off == pieces@[a as int].0,
                bytes@ == pieces@[a as int].1@,
                k <= bytes@.len(),
                off + bytes@.len() <= e,
                forall|b: int| 0 <= b < n ==> end_of(#[trigger] pieces@[b]) <= e,
                out@.len() == e,
                owner@.len() == e,
                forall|k2: int|
                    0 <= k2 < e ==> (owner@[k2] == FREE && out@[k2] == FILLER) || (owner@[k2] <= a
                        && covers(pieces@[owner@[k2] as int], k2) && out@[k2] == byte_at(
                        pieces@[owner@[k2] as int],
                        k2,
                    )),
                forall|k2: int| 0 <= k2 < e && owner@[k2] == a ==> off <= k2 < off + k,
                forall|k2: int| off <= k2 < off + k ==> owner@[k2] == a,
                forall|b: int, k2: int|
                    0 <= b < a && #[trigger] covers(pieces@[b], k2) ==> owner@[k2] == b,
            decreases bytes@.len() - k,
        {
            let idx = off + k;
            let prev = owner[idx];
            if prev != FREE {
                proof {
                    let b = prev as int;
                    assert(covers(pieces@[b], idx as int));
                    assert(covers(pieces@[a as int], idx as int));
                    assert(b < a);
                }
                return None;
            }
            owner.set(idx, a);
            out.set(idx, bytes[k]);
            k = k + 1;
        }
        proof {
            assert forall|b: int, k2: int|
                0 <= b < a + 1 && #[trigger] covers(pieces@[b], k2) implies owner@[k2] == b by {
                if b == a {
                    assert(owner@[k2] == a);
                }
            }
        }
        a = a + 1;
    }
    proof {
        if overlapping(pieces@) {
            let (b1, b2, j1) = choose|b1: int, b2: int, j1: int|
                #![trigger covers(pieces@[b1], j1), covers(pieces@[b2], j1)]
                0 <= b1 < b2 < pieces@.len() && covers(pieces@[b1], j1) && covers(
                    pieces@[b2],
                    j1,
                );
            assert(owner@[j1] == b1);
            assert(owner@[j1] == b2);
        }
    }
    Some(out)
}

} // verus!
