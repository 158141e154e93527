use chibidec::binary::{Binary, BinaryError, Section, Symbol};

/// A 64-bit ARM64 Mach-O executable header without load commands.
fn empty_macho() -> Vec<u8> {
    let mut b = Vec::new();
    for word in [0xfeedfacfu32, 0x0100000c, 0, 2, 0, 0, 0, 0] {
        b.extend_from_slice(&word.to_le_bytes());
    }
    b
}

#[test]
fn parse_rejects_input_too_small_to_identify() {
    assert_eq!(Binary::parse(b"tiny").err(), Some(BinaryError::Parse));
}

#[test]
fn parse_rejects_objects_that_are_not_mach_o() {
    let bytes = [0x7au8; 32];
    assert_eq!(Binary::parse(&bytes).err(), Some(BinaryError::UnsupportedFormat));
}

#[test]
fn parse_reads_mach_o_without_sections() {
    let bin = Binary::parse(&empty_macho()).expect("a bare Mach-O header parses");
    assert!(bin.sections().is_empty());
    assert!(bin.symbols().is_empty());
    assert_eq!(bin.section_by_name("__text").err(), Some(BinaryError::SectionNotFound));
}

#[test]
fn section_and_symbol_accessors_give_their_fields() {
    let s = Section { addr: 0x100000460, name: String::from("__text"), data: vec![0xc0, 0x03, 0x5f, 0xd6] };
    assert_eq!(s.addr(), 0x100000460);
    assert_eq!(s.name(), "__text");
    assert_eq!(s.data(), &[0xc0, 0x03, 0x5f, 0xd6]);
    let sym = Symbol { addr: 0x100000460, name: String::from("_main") };
    let copy = sym.clone();
    assert_eq!(copy.addr(), 0x100000460);
    assert_eq!(copy.name(), "_main");
}
