use pwn::context::{self, Arch, Bits, Context, Endianness, LogLevel};

#[test]
fn test_context() {
    let mut ctx = Context::default();
    assert_eq!(context::get_arch(&ctx), Arch::i386());
    assert_eq!(context::get_arch(&ctx), Arch::i386());
    context::set_arch(&mut ctx, Arch::amd64());
    assert_eq!(context::get_arch(&ctx), Arch::amd64());
    assert_eq!(context::get_endianess(&ctx), Endianness::Little);
    assert_eq!(context::get_bits(&ctx), Bits::SixtyFour);
}

#[test]
fn setters_change_one_setting_each() {
    let mut ctx = Context::default();
    assert_eq!(context::get_loglevel(&ctx), LogLevel::Info);
    context::set_endianess(&mut ctx, Endianness::Big);
    assert_eq!(context::get_endianess(&ctx), Endianness::Big);
    assert_eq!(context::get_bits(&ctx), Bits::ThirtyTwo);
    context::set_bits(&mut ctx, Bits::Sixteen);
    assert_eq!(
        context::get_arch(&ctx),
        Arch { endian: Endianness::Big, bits: Bits::Sixteen }
    );
    context::set_loglevel(&mut ctx, LogLevel::Debug);
    assert_eq!(context::get_loglevel(&ctx), LogLevel::Debug);
    assert_eq!(context::get_bits(&ctx), Bits::Sixteen);
}

#[test]
fn word_sizes_in_bytes() {
    assert_eq!(Bits::Eight.bytes(), 1);
    assert_eq!(Bits::Sixteen.bytes(), 2);
    assert_eq!(Bits::ThirtyTwo.bytes(), 4);
    assert_eq!(Bits::SixtyFour.bytes(), 8);
}
