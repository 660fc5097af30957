use canutil::byte::{Byte, ByteCategory};

#[test]
fn byte_categories() {
    assert_eq!(Byte(0x00).category(), ByteCategory::Null);
    assert_eq!(Byte(b'A').category(), ByteCategory::AsciiPrintable);
    assert_eq!(Byte(b'~').category(), ByteCategory::AsciiPrintable);
    assert_eq!(Byte(b'!').category(), ByteCategory::AsciiPrintable);
    assert_eq!(Byte(b' ').category(), ByteCategory::AsciiWhitespace);
    assert_eq!(Byte(b'\n').category(), ByteCategory::AsciiWhitespace);
    assert_eq!(Byte(0x0c).category(), ByteCategory::AsciiWhitespace);
    assert_eq!(Byte(0x01).category(), ByteCategory::AsciiOther);
    assert_eq!(Byte(0x7f).category(), ByteCategory::AsciiOther);
    assert_eq!(Byte(0x80).category(), ByteCategory::NonAscii);
    assert_eq!(Byte(0xff).category(), ByteCategory::NonAscii);
}

#[test]
fn byte_chars() {
    assert_eq!(Byte(0x00).as_char(), '0');
    assert_eq!(Byte(b'z').as_char(), 'z');
    assert_eq!(Byte(b' ').as_char(), ' ');
    assert_eq!(Byte(b'\t').as_char(), '_');
    assert_eq!(Byte(0x1b).as_char(), '•');
    assert_eq!(Byte(0xc3).as_char(), '×');
}
