//! The unsigned LEB128 codec on boundary values and round trips.

use cog_ir::leb128::{read_leb128u, write_leb128u, Leb128U};

fn encode(v: u64) -> Vec<u8> {
    let mut buf: Vec<u8> = Vec::new();
    write_leb128u(v, &mut buf);
    buf
}

#[test]
fn varint_boundary_lengths() {
    let cases: [(u64, usize); 6] = [
        (0, 1),
        (127, 1),
        (128, 2),
        (16383, 2),
        (16384, 3),
        (0xffff_ffff, 5),
    ];
    for (v, n) in cases {
        let buf = encode(v);
        assert_eq!(buf.len(), n);
        let (read_n, read_v) = read_leb128u(&buf, 0);
        assert_eq!(read_n, n);
        assert_eq!(read_v, v);
    }
}

#[test]
fn varint_exact_bytes() {
    assert_eq!(encode(0), vec![0x00]);
    assert_eq!(encode(1), vec![0x01]);
    assert_eq!(encode(127), vec![0x7f]);
    assert_eq!(encode(128), vec![0x80, 0x01]);
    assert_eq!(encode(300), vec![0xac, 0x02]);
    assert_eq!(encode(16384), vec![0x80, 0x80, 0x01]);
}

#[test]
fn varint_round_trip_u64_max() {
    let buf = encode(u64::MAX);
    assert_eq!(buf.len(), 10);
    let (n, v) = read_leb128u(&buf, 0);
    assert_eq!(n, 10);
    assert_eq!(v, u64::MAX);
}

#[test]
fn varint_round_trip_assorted() {
    let values: [u64; 9] =
        [2, 63, 64, 255, 256, 65535, 1 << 21, (1 << 32) + 5, (1 << 56) - 1];
    for v in values {
        let buf = encode(v);
        let (n, back) = read_leb128u(&buf, 0);
        assert_eq!(n, buf.len());
        assert_eq!(back, v);
    }
}

#[test]
fn varint_read_at_offset_with_suffix() {
    let mut buf: Vec<u8> = vec![0xee, 0xee];
    write_leb128u(777, &mut buf);
    buf.push(0x55);
    let (n, v) = read_leb128u(&buf, 2);
    assert_eq!(v, 777);
    assert_eq!(n, buf.len() - 3);
}

#[test]
fn leb128u_wrapper_round_trip() {
    let mut buf: Vec<u8> = Vec::new();
    let n = Leb128U::new(16383).send_to(&mut buf);
    assert_eq!(n, 2);
    let (m, back) = Leb128U::take_from(&buf, 0);
    assert_eq!(m, 2);
    assert_eq!(back.as_u64(), 16383);
}
