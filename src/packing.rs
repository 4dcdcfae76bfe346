//! Packing unsigned integers into words of bytes and reading them back, in
//! either byte order.

use crate::context::{Arch, Bits, Endianness, width};
use vstd::prelude::*;

verus! {

/// `256` to the power `n`.
pub open spec fn pow256(n: nat) -> nat
    decreases n,
{
    if n == 0 {
        1
    } else {
        256 * pow256((n - 1) as nat)
    }
}

/// The number that `s` spells, least significant byte first.
pub open spec fn le_value(s: Seq<u8>) -> nat
    decreases s.len(),
{
    if s.len() == 0 {
        0
    } else {
        s[0] as nat + 256 * le_value(s.drop_first())
    }
}

/// The number that `s` spells, most significant byte first.
pub open spec fn be_value(s: Seq<u8>) -> nat
    decreases s.len(),
{
    if s.len() == 0 {
        0
    } else {
        be_value(s.drop_last()) * 256 + s.last() as nat
    }
}

/// The low `n` bytes of `v`, least significant first.
pub open spec fn le_bytes(v: nat, n: nat) -> Seq<u8>
    decreases n,
{
    if n == 0 {
        Seq::empty()
    } else {
        seq![(v % 256) as u8] + le_bytes(v / 256, (n - 1) as nat)
    }
}

/// The low `n` bytes of `v`, most significant first.
pub open spec fn be_bytes(v: nat, n: nat) -> Seq<u8>
    decreases n,
{
    if n == 0 {
        Seq::empty()
    } else {
        be_bytes(v / 256, (n - 1) as nat).push((v % 256) as u8)
    }
}

/// The number that `s` spells in byte order `e`.
pub open spec fn value_of(s: Seq<u8>, e: Endianness) -> nat {
    match e {
        Endianness::Little => le_value(s),
        Endianness::Big => be_value(s),
    }
}

/// The low `n` bytes of `v` in byte order `e`.
pub open spec fn bytes_of(v: nat, n: nat, e: Endianness) -> Seq<u8> {
    match e {
        Endianness::Little => le_bytes(v, n),
        Endianness::Big => be_bytes(v, n),
    }
}

proof fn lemma_pow256_mono(a: nat, b: nat)
    requires
        a <= b,
    ensures
        pow256(a) <= pow256(b),
    decreases b,
{
    if a < b {
        lemma_pow256_mono(a, (b - 1) as nat);
    }
}

proof fn lemma_pow256_values()
    ensures
        pow256(1) == 0x100,
        pow256(2) == 0x1_0000,
        pow256(4) == 0x1_0000_0000,
        pow256(7) == 0x100_0000_0000_0000,
        pow256(8) == 0x1_0000_0000_0000_0000,
{
    reveal_with_fuel(pow256, 9);
}

proof fn lemma_shift_in(acc: nat, b: u8, k: nat)
    requires
        acc < pow256(k),
    ensures
        acc * 256 + b < pow256(k + 1),
{
    assert(pow256(k + 1) == 256 * pow256(k));
    assert(acc * 256 + b < 256 * pow256(k)) by (nonlinear_arith)
        requires
            acc < pow256(k),
            b < 256,
    ;
}

/// The low `n` bytes of `v`, least significant first.
fn write_le(v: u64, n: usize) -> (r: Vec<u8>)
    ensures
        r@ == le_bytes(v as nat, n as nat),
{
    let mut out: Vec<u8> = Vec::new();
    let mut x: u64 = v;
    let mut i: usize = 0;
    while i < n
        invariant
            i <= n,
            out@ + le_bytes(x as nat, (n - i) as nat) == le_bytes(v as nat, n as nat),
        decreases n - i,
    {
        let ghost before = out@;
        assert(le_bytes(x as nat, (n - i) as nat) == seq![(x % 256) as u8] + le_bytes(
            (x / 256) as nat,
            (n - i - 1) as nat,
        ));
        out.push((x % 256) as u8);
        x = x / 256;
        i = i + 1;
        assert(out@ + le_bytes(x as nat, (n - i) as nat) == before + (seq![out@.last()]
            + le_bytes(x as nat, (n - i) as nat)));
    }
    assert(le_bytes(x as nat, 0) == Seq::<u8>::empty());
    assert(out@ + Seq::<u8>::empty() == out@);
    out
}

/// The low `n` bytes of `v`, most significant first.
fn write_be(v: u64, n: usize) -> (r: Vec<u8>)
    ensures
        r@ == be_bytes(v as nat, n as nat),
{
    let mut out: Vec<u8> = vec![0u8; n];
    let mut x: u64 = v;
    let mut i: usize = n;
    while i > 0
        invariant
            i <= n,
            out@.len() == n,
            be_bytes(x as nat, i as nat) + out@.subrange(i as int, n as int) == be_bytes(
                v as nat,
                n as nat,
            ),
        decreases i,
    {
        let ghost before = out@;
        assert(be_bytes(x as nat, i as nat) == be_bytes((x / 256) as nat, (i - 1) as nat).push(
            (x % 256) as u8,
        ));
        out.set(i - 1, (x % 256) as u8);
        assert(out@.subrange(i - 1, n as int) == seq![(x % 256) as u8] + before.subrange(
            i as int,
            n as int,
        ));
        x = x / 256;
        i = i - 1;
    }
    assert(be_bytes(x as nat, 0) == Seq::<u8>::empty());
    assert(out@.subrange(0, n as int) == out@);
    out
}

/// The number that the first `n` bytes of `v` spell, least significant first.
fn read_le(v: &[u8], n: usize) -> (r: u64)
    requires
        n <= 8,
        n <= v@.len(),
    ensures
        r == le_value(v@.subrange(0, n as int)),
{
    let mut acc: u64 = 0;
    let mut i: usize = n;
    proof {
        lemma_pow256_values();
    }
    while i > 0
        invariant
            i <= n,
            n <= 8,
            n <= v@.len(),
            acc == le_value(v@.subrange(i as int, n as int)),
            acc < pow256((n - i) as nat),
        decreases i,
    {
        i = i - 1;
        proof {
            lemma_pow256_mono((n - i - 1) as nat, 7);
            lemma_pow256_values();
            lemma_shift_in(acc as nat, v@[i as int], (n - i - 1) as nat);
            let s = v@.subrange(i as int, n as int);
            assert(s.drop_first() == v@.subrange(i + 1, n as int));
        }
        acc = acc * 256 + v[i] as u64;
    }
    acc
}

/// The number that the first `n` bytes of `v` spell, most significant first.
fn read_be(v: &[u8], n: usize) -> (r: u64)
    requires
        n <= 8,
        n <= v@.len(),
    ensures
        r == be_value(v@.subrange(0, n as int)),
{
    let mut acc: u64 = 0;
    let mut i: usize = 0;
    assert(v@.subrange(0, 0) == Seq::<u8>::empty());
    while i < n
        invariant
            i <= n,
            n <= 8,
            n <= v@.len(),
            acc == be_value(v@.subrange(0, i as int)),
            acc < pow256(i as nat),
        decreases n - i,
    {
        proof {
            lemma_pow256_mono(i as nat, 7);
            lemma_pow256_values();
            lemma_shift_in(acc as nat, v@[i as int], i as nat);
            let s = v@.subrange(0, i + 1);
            assert(s.drop_last() == v@.subrange(0, i as int));
        }
        acc = acc * 256 + v[i] as u64;
        i = i + 1;
    }
    acc
}

/// The low `n` bytes of `v` in byte order `e`.
fn write_word(v: u64, n: usize, e: Endianness) -> (r: Vec<u8>)
    ensures
        r@ == bytes_of(v as nat, n as nat, e),
{
    match e {
        Endianness::Little => write_le(v, n),
        Endianness::Big => write_be(v, n),
    }
}

/// The number that the first `n` bytes of `v` spell in byte order `e`.
fn read_word(v: &[u8], n: usize, e: Endianness) -> (r: u64)
    requires
        n <= 8,
        n <= v@.len(),
    ensures
        r == value_of(v@.subrange(0, n as int), e),
{
    match e {
        Endianness::Little => read_le(v, n),
        Endianness::Big => read_be(v, n),
    }
}

/// Packs a byte into a one-byte word; byte order plays no part.
pub fn p8(v: u8) -> (r: Vec<u8>)
    ensures
        r@ == seq![v],
{
    let mut out: Vec<u8> = Vec::new();
    out.push(v);
    out
}

/// Packs `v` into a two-byte word in byte order `e`.
pub fn p16(v: u16, e: Endianness) -> (r: Vec<u8>)
    ensures
        r@ == bytes_of(v as nat, 2, e),
{
    write_word(v as u64, 2, e)
}

/// Packs `v` into a four-byte word in byte order `e`.
pub fn p32(v: u32, e: Endianness) -> (r: Vec<u8>)
    ensures
        r@ == bytes_of(v as nat, 4, e),
{
    write_word(v as u64, 4, e)
}

/// Packs `v` into an eight-byte word in byte order `e`.
pub fn p64(v: u64, e: Endianness) -> (r: Vec<u8>)
    ensures
        r@ == bytes_of(v as nat, 8, e),
{
    write_word(v, 8, e)
}

/// Reads the byte that starts `v`.
pub fn u8(v: &[u8]) -> (r: u8)
    requires
        v@.len() >= 1,
    ensures
        r == v@[0],
{
    v[0]
}

/// Reads the two-byte word that starts `v`, in byte order `e`.
pub fn u16(v: &[u8], e: Endianness) -> (r: u16)
    requires
        v@.len() >= 2,
    ensures
        r == value_of(v@.subrange(0, 2), e),
{
    proof {
        lemma_value_bound(v@.subrange(0, 2), e);
        lemma_pow256_values();
    }
    read_word(v, 2, e) as u16
}

/// Reads the four-byte word that starts `v`, in byte order `e`.
pub fn u32(v: &[u8], e: Endianness) -> (r: u32)
    requires
        v@.len() >= 4,
    ensures
        r == value_of(v@.subrange(0, 4), e),
{
    proof {
        lemma_value_bound(v@.subrange(0, 4), e);
        lemma_pow256_values();
    }
    read_word(v, 4, e) as u32
}

/// Reads the eight-byte word that starts `v`, in byte order `e`.
pub fn u64(v: &[u8], e: Endianness) -> (r: u64)
    requires
        v@.len() >= 8,
    ensures
        r == value_of(v@.subrange(0, 8), e),
{
    read_word(v, 8, e)
}

/// A word of `s.len()` bytes spells a number below `256` to that power.
proof fn lemma_value_bound(s: Seq<u8>, e: Endianness)
    ensures
        value_of(s, e) < pow256(s.len()),
    decreases s.len(),
{
    if s.len() > 0 {
        match e {
            Endianness::Little => {
                lemma_value_bound(s.drop_first(), e);
                lemma_shift_in(le_value(s.drop_first()), s[0], (s.len() - 1) as nat);
                assert(s[0] as nat + 256 * le_value(s.drop_first()) == le_value(s.drop_first())
                    * 256 + s[0]) by (nonlinear_arith);
            },
            Endianness::Big => {
                lemma_value_bound(s.drop_last(), e);
                lemma_shift_in(be_value(s.drop_last()), s.last(), (s.len() - 1) as nat);
            },
        }
    }
}

/// `v` fits in a word of the architecture's size.
pub open spec fn fits(v: nat, bits: Bits) -> bool {
    v < pow256(width(bits))
}

/// Packs `v` into one word of the architecture `arch`: its size, its byte
/// order. `None` when `v` does not fit in such a word.
pub fn pack(v: u64, arch: Arch) -> (r: Option<Vec<u8>>)
    ensures
        r is Some <==> fits(v as nat, arch.bits),
        r is Some ==> r->0@ == bytes_of(v as nat, width(arch.bits), arch.endian),
{
    proof {
        lemma_pow256_values();
    }
    let fit = match arch.bits {
        Bits::Eight => v <= 0xff,
        Bits::Sixteen => v <= 0xffff,
        Bits::ThirtyTwo => v <= 0xffff_ffff,
        Bits::SixtyFour => true,
    };
    if fit {
        Some(write_word(v, arch.bits.bytes(), arch.endian))
    } else {
        None
    }
}

/// Reads one word of the architecture `arch` from the start of `v`.
pub fn unpack(v: &[u8], arch: Arch) -> (r: u64)
    requires
        v@.len() >= width(arch.bits),
    ensures
        r == value_of(v@.subrange(0, width(arch.bits) as int), arch.endian),
{
    read_word(v, arch.bits.bytes(), arch.endian)
}

proof fn lemma_pow256_positive(n: nat)
    ensures
        pow256(n) > 0,
    decreases n,
{
    if n > 0 {
        lemma_pow256_positive((n - 1) as nat);
    }
}

/// Reading back the low `n` bytes of `v` gives `v` modulo `256` to the `n`,
/// in either byte order.
proof fn lemma_read_written(v: nat, n: nat, e: Endianness)
    ensures
        bytes_of(v, n, e).len() == n,
        value_of(bytes_of(v, n, e), e) == v % pow256(n),
    decreases n,
{
    if n > 0 {
        let m = (n - 1) as nat;
        lemma_read_written(v / 256, m, e);
        lemma_pow256_positive(m);
        vstd::arithmetic::div_mod::lemma_mod_breakdown(v as int, 256, pow256(m) as int);
        let low = ((v % 256) as u8) as nat;
        assert(low == v % 256);
        match e {
            Endianness::Little => {
                let s = le_bytes(v, n);
                assert(s.drop_first() == le_bytes(v / 256, m));
            },
            Endianness::Big => {
                let s = be_bytes(v, n);
                assert(s.drop_last() == be_bytes(v / 256, m));
            },
        }
    } else {
        assert(v % 1 == 0);
    }
}

/// Unpacking the word that `pack` made of `v` gives `v` back, whatever the
/// architecture's word size and byte order.
pub proof fn law_unpack_after_pack(v: u64, arch: Arch)
    requires
        fits(v as nat, arch.bits),
    ensures
        bytes_of(v as nat, width(arch.bits), arch.endian).len() == width(arch.bits),
        value_of(
            bytes_of(v as nat, width(arch.bits), arch.endian).subrange(0, width(arch.bits) as int),
            arch.endian,
        ) == v,
{
    let w = width(arch.bits);
    lemma_read_written(v as nat, w, arch.endian);
    let s = bytes_of(v as nat, w, arch.endian);
    assert(s.subrange(0, w as int) == s);
    vstd::arithmetic::div_mod::lemma_small_mod(v as nat, pow256(w));
}

} // verus!
