use leb128::{FromLeb128i, FromLeb128u, ToLeb128i, ToLeb128u};

#[test]
fn to_leb_128u() {
    let mut buf = Vec::new();

    buf.clear();
    assert_eq!(127u32.to_leb128u(&mut buf).unwrap(), 1);
    assert_eq!(buf, vec![0x7f]);

    buf.clear();
    assert_eq!(128u32.to_leb128u(&mut buf).unwrap(), 2);
    assert_eq!(buf, vec![0x80, 0x01]);
}

#[test]
fn to_leb_128i() {
    let mut buf = Vec::new();

    buf.clear();
    assert_eq!(63i32.to_leb128i(&mut buf).unwrap(), 1);
    assert_eq!(buf, vec![0x3f]);

    buf.clear();
    assert_eq!(64i32.to_leb128i(&mut buf).unwrap(), 2);
    assert_eq!(buf, vec![0xc0, 0x00]);

    buf.clear();
    assert_eq!((-64i32).to_leb128i(&mut buf).unwrap(), 1);
    assert_eq!(buf, vec![0x40]);

    buf.clear();
    assert_eq!((-65i32).to_leb128i(&mut buf).unwrap(), 2);
    assert_eq!(buf, vec![0xbf, 0x7f]);
}

#[test]
fn from_leb_128u() {
    let mut buf = Vec::new();

    for i in 0..=u8::MAX {
        buf.clear();
        i.to_leb128u(&mut buf).unwrap();
        assert_eq!(i, u8::from_leb128u(&mut &buf[..]).unwrap());
    }

    for i in 0..=u16::MAX {
        buf.clear();
        i.to_leb128u(&mut buf).unwrap();
        assert_eq!(i, u16::from_leb128u(&mut &buf[..]).unwrap());
    }
}

#[test]
fn from_leb_128i() {
    let mut buf = Vec::new();

    for i in i8::MIN..=i8::MAX {
        buf.clear();
        i.to_leb128i(&mut buf).unwrap();
        assert_eq!(i, i8::from_leb128i(&mut &buf[..]).unwrap());
    }

    for i in i16::MIN..=i16::MAX {
        buf.clear();
        i.to_leb128i(&mut buf).unwrap();
        assert_eq!(i, i16::from_leb128i(&mut &buf[..]).unwrap());
    }
}
