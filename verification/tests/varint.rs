use rfx_voiced::varint::{write_varint, Reader};

fn roundtrip(v: u64) {
    let mut buf = Vec::new();
    write_varint(&mut buf, v);
    assert_eq!(Reader::new(&buf).varint(), Some(v as i64), "value {v}");
}

#[test]
fn varint_roundtrips_across_every_width() {
    for v in [
        0,
        1,
        0x7f,
        0x80,
        0x3fff,
        0x4000,
        0x1fffff,
        0x200000,
        0xfffffff,
        0x10000000,
        0xffffffff,
        0x1_0000_0000,
    ] {
        roundtrip(v);
    }
}

#[test]
fn small_negatives_decode() {
    assert_eq!(Reader::new(&[0xfc]).varint(), Some(0));
    assert_eq!(Reader::new(&[0xff]).varint(), Some(-3));
}

/// The first byte says how many follow, and the numbers are big endian.
#[test]
fn numbers_are_written_in_the_fewest_bytes() {
    for (value, bytes) in [
        (0x7fu64, vec![0x7fu8]),
        (0x80, vec![0x80, 0x80]),
        (0x3fff, vec![0xbf, 0xff]),
        (0x4000, vec![0xc0, 0x40, 0x00]),
        (0x200000, vec![0xe0, 0x20, 0x00, 0x00]),
        (0x10000000, vec![0xf0, 0x10, 0x00, 0x00, 0x00]),
        (
            0x1_0000_0000,
            vec![0xf4, 0, 0, 0, 1, 0, 0, 0, 0],
        ),
    ] {
        let mut out = Vec::new();
        write_varint(&mut out, value);
        assert_eq!(out, bytes, "value {value}");
    }
}

#[test]
fn a_negative_number_is_another_one_negated() {
    assert_eq!(Reader::new(&[0xf8, 0x05]).varint(), Some(-5));
}

#[test]
fn a_number_that_is_cut_short_is_none() {
    assert_eq!(Reader::new(&[]).varint(), None);
    assert_eq!(Reader::new(&[0x80]).varint(), None);
    assert_eq!(Reader::new(&[0xf4, 0, 0, 0]).varint(), None);
}

#[test]
fn reading_moves_past_what_was_read() {
    let buf = [0x80, 0x80, 0x01];
    let mut r = Reader::new(&buf);
    assert_eq!(r.remaining(), 3);
    assert_eq!(r.varint(), Some(0x80));
    assert_eq!(r.pos(), 2);
    assert_eq!(r.remaining(), 1);
    assert_eq!(r.varint(), Some(1));
    assert_eq!(r.remaining(), 0);
}
