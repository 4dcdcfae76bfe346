//! The configuration that packing reads: the target's word size and byte
//! order, and the log level. It is an ordinary value handed to whatever needs
//! it, not state shared behind the caller's back.

use vstd::prelude::*;

verus! {

/// The byte order of a word.
#[derive(Clone, Copy, Debug, PartialEq, Eq, Structural)]
pub enum Endianness {
    /// Least significant byte first.
    Little,
    /// Most significant byte first.
    Big,
}

/// The word size of an architecture.
#[derive(Clone, Copy, Debug, PartialEq, Eq, Structural)]
pub enum Bits {
    /// 8-bit words.
    Eight,
    /// 16-bit words.
    Sixteen,
    /// 32-bit words.
    ThirtyTwo,
    /// 64-bit words.
    SixtyFour,
}

/// The number of bytes in a word of `b` bits.
pub open spec fn width(b: Bits) -> nat {
    match b {
        Bits::Eight => 1,
        Bits::Sixteen => 2,
        Bits::ThirtyTwo => 4,
        Bits::SixtyFour => 8,
    }
}

impl Bits {
    /// The number of bytes in a word.
    pub fn bytes(self) -> (r: usize)
        ensures
            r == width(self),
    {
        match self {
            Bits::Eight => 1,
            Bits::Sixteen => 2,
            Bits::ThirtyTwo => 4,
            Bits::SixtyFour => 8,
        }
    }
}

/// How much the logger reports.
#[derive(Clone, Copy, Debug, PartialEq, Eq, Structural)]
pub enum LogLevel {
    /// Everything, traces of bytes sent included.
    Debug,
    /// Notices such as connections opened.
    Info,
    /// Warnings and errors only.
    Warn,
    /// Errors only.
    Error,
}

/// An architecture: the byte order and size of its words.
#[derive(Clone, Copy, Debug, PartialEq, Eq, Structural)]
pub struct Arch {
    /// The byte order.
    pub endian: Endianness,
    /// The word size.
    pub bits: Bits,
}

impl Arch {
    /// The 64-bit x86 architecture: little-endian 64-bit words.
    pub fn amd64() -> (r: Arch)
        ensures
            r == (Arch { endian: Endianness::Little, bits: Bits::SixtyFour }),
    {
        Arch { endian: Endianness::Little, bits: Bits::SixtyFour }
    }

    /// The 32-bit x86 architecture: little-endian 32-bit words.
    pub fn i386() -> (r: Arch)
        ensures
            r == (Arch { endian: Endianness::Little, bits: Bits::ThirtyTwo }),
    {
        Arch { endian: Endianness::Little, bits: Bits::ThirtyTwo }
    }
}

/// The settings in force: an architecture and a log level.
#[derive(Clone, Copy, Debug, PartialEq, Eq, Structural)]
pub struct Context {
    arch: Arch,
    log_level: LogLevel,
}

impl View for Context {
    type V = (Arch, LogLevel);

    closed spec fn view(&self) -> (Arch, LogLevel) {
        (self.arch, self.log_level)
    }
}

impl Default for Context {
    /// 32-bit x86 at the `Info` level.
    fn default() -> (r: Context)
        ensures
            r@ == (Arch { endian: Endianness::Little, bits: Bits::ThirtyTwo }, LogLevel::Info),
    {
        Context { arch: Arch::i386(), log_level: LogLevel::Info }
    }
}

/// Sets the architecture.
pub fn set_arch(ctx: &mut Context, a: Arch)
    ensures
        final(ctx)@ == (a, old(ctx)@.1),
{
    ctx.arch = a;
}

/// Sets the log level.
pub fn set_loglevel(ctx: &mut Context, l: LogLevel)
    ensures
        final(ctx)@ == (old(ctx)@.0, l),
{
    ctx.log_level = l;
}

/// Sets the byte order, keeping the word size.
pub fn set_endianess(ctx: &mut Context, e: Endianness)
    ensures
        final(ctx)@ == (Arch { endian: e, bits: old(ctx)@.0.bits }, old(ctx)@.1),
{
    ctx.arch.endian = e;
}

/// Sets the word size, keeping the byte order.
pub fn set_bits(ctx: &mut Context, b: Bits)
    ensures
        final(ctx)@ == (Arch { endian: old(ctx)@.0.endian, bits: b }, old(ctx)@.1),
{
    ctx.arch.bits = b;
}

/// The architecture.
pub fn get_arch(ctx: &Context) -> (r: Arch)
    ensures
        r == ctx@.0,
{
    ctx.arch
}

/// The log level.
pub fn get_loglevel(ctx: &Context) -> (r: LogLevel)
    ensures
        r == ctx@.1,
{
    ctx.log_level
}

/// The byte order.
pub fn get_endianess(ctx: &Context) -> (r: Endianness)
    ensures
        r == ctx@.0.endian,
{
    ctx.arch.endian
}

/// The word size.
pub fn get_bits(ctx: &Context) -> (r: Bits)
    ensures
        r == ctx@.0.bits,
{
    ctx.arch.bits
}

} // verus!
