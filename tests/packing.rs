use pwn::context::{Arch, Bits, Endianness::{Big, Little}};
use pwn::packing::{p16, p32, p64, p8, pack, u16, u32, u64, u8, unpack};

#[test]
pub fn test_packing_little() {
    assert_eq!(p8(8), vec![8]);
    assert_eq!(p16(8, Little), vec![8, 0]);
    assert_eq!(p32(8, Little), vec![8, 0, 0, 0]);
    assert_eq!(p64(8, Little), vec![8, 0, 0, 0, 0, 0, 0, 0]);
}

#[test]
pub fn test_packing_big() {
    assert_eq!(p8(8), vec![8]);
    assert_eq!(p16(8, Big), vec![0, 8]);
    assert_eq!(p32(8, Big), vec![0, 0, 0, 8]);
    assert_eq!(p64(8, Big), vec![0, 0, 0, 0, 0, 0, 0, 8]);
}

#[test]
pub fn test_unpacking_little() {
    assert_eq!(u8(&[8]), 8);
    assert_eq!(u16(&[8, 0], Little), 8);
    assert_eq!(u32(&[8, 0, 0, 0], Little), 8);
    assert_eq!(u64(&[8, 0, 0, 0, 0, 0, 0, 0], Little), 8);
}

#[test]
pub fn test_unpacking_big() {
    assert_eq!(u8(&[8]), 8);
    assert_eq!(u16(&[0, 8], Big), 8);
    assert_eq!(u32(&[0, 0, 0, 8], Big), 8);
    assert_eq!(u64(&[0, 0, 0, 0, 0, 0, 0, 8], Big), 8);
}

#[test]
fn multi_byte_values_in_both_orders() {
    assert_eq!(p32(0x1337bab3, Little), vec![0xb3, 0xba, 0x37, 0x13]);
    assert_eq!(p32(0x1337bab3, Big), vec![0x13, 0x37, 0xba, 0xb3]);
    assert_eq!(u32(&[0xb3, 0xba, 0x37, 0x13], Little), 0x1337bab3);
    assert_eq!(u32(&[0x13, 0x37, 0xba, 0xb3], Big), 0x1337bab3);
    assert_eq!(p64(u64::MAX, Big), vec![0xff; 8]);
    assert_eq!(u64(&[0xff; 8], Little), u64::MAX);
    assert_eq!(p16(0x0102, Big), vec![1, 2]);
    assert_eq!(u16(&[1, 2, 3], Little), 0x0201);
}

#[test]
fn pack_follows_the_architecture() {
    assert_eq!(pack(0x41424344, Arch::i386()), Some(vec![0x44, 0x43, 0x42, 0x41]));
    assert_eq!(pack(1, Arch::amd64()), Some(vec![1, 0, 0, 0, 0, 0, 0, 0]));
    let a16 = Arch { endian: Big, bits: Bits::Sixteen };
    assert_eq!(pack(0xbeef, a16), Some(vec![0xbe, 0xef]));
    assert_eq!(pack(0x1_0000, a16), None);
    let a8 = Arch { endian: Little, bits: Bits::Eight };
    assert_eq!(pack(255, a8), Some(vec![255]));
    assert_eq!(pack(256, a8), None);
    assert_eq!(pack(0x1_0000_0000, Arch::i386()), None);
}

#[test]
fn unpack_follows_the_architecture() {
    assert_eq!(unpack(&[0x44, 0x43, 0x42, 0x41], Arch::i386()), 0x41424344);
    let a16 = Arch { endian: Big, bits: Bits::Sixteen };
    assert_eq!(unpack(&[0xbe, 0xef, 0x00], a16), 0xbeef);
    assert_eq!(unpack(&[1, 0, 0, 0, 0, 0, 0, 1], Arch::amd64()), 0x0100_0000_0000_0001);
}

#[test]
fn unpack_after_pack_gives_the_value_back() {
    let arches = [
        Arch::i386(),
        Arch::amd64(),
        Arch { endian: Big, bits: Bits::Sixteen },
        Arch { endian: Big, bits: Bits::Eight },
        Arch { endian: Big, bits: Bits::SixtyFour },
    ];
    for arch in arches {
        for v in [0u64, 1, 0x7f, 0xff, 0x1234, 0xdead_beef, u64::MAX] {
            if let Some(bytes) = pack(v, arch) {
                assert_eq!(unpack(&bytes, arch), v);
            }
        }
    }
}
