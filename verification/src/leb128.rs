//! Unsigned LEB128: variable-length encoding of `u64` values, seven
//! bits per byte, least-significant group first, continuation bit set
//! on every byte but the last.

use vstd::prelude::*;

verus! {

/// The encoding of `v`: one byte per seven-bit group, low group first.
pub open spec fn leb(v: u64) -> Seq<u8>
    decreases v,
{
    if v < 128 {
        seq![v as u8]
    } else {
        seq![(v % 128 + 128) as u8] + leb(v / 128)
    }
}

/// The encoding of `v` occupies `s[off .. off + leb(v).len()]`.
pub open spec fn leb_at(s: Seq<u8>, off: int, v: u64) -> bool {
    &&& 0 <= off
    &&& off + leb(v).len() <= s.len()
    &&& s.subrange(off, off + leb(v).len() as int) == leb(v)
}

/// An encoding is between one and ten bytes long.
pub proof fn lemma_leb_len(v: u64)
    ensures
        1 <= leb(v).len() <= 10,
{
    assert(pow128(0) == 1);
    assert(pow128(1) == 128);
    assert(pow128(2) == 0x4000);
    assert(pow128(3) == 0x20_0000);
    assert(pow128(4) == 0x1000_0000);
    assert(pow128(5) == 0x8_0000_0000);
    assert(pow128(6) == 0x400_0000_0000);
    assert(pow128(7) == 0x2_0000_0000_0000);
    assert(pow128(8) == 0x100_0000_0000_0000);
    assert(pow128(9) == 0x8000_0000_0000_0000);
    assert(pow128(10) == 0x40_0000_0000_0000_0000);
    lemma_leb_len_bound(v, 10);
}

/// A value below `128^n` encodes in at most `n` bytes (for n >= 1).
proof fn lemma_leb_len_bound(v: u64, n: nat)
    requires
        n >= 1,
        v < pow128(n),
    ensures
        1 <= leb(v).len() <= n,
    decreases v,
{
    if v >= 128 {
        let m = (n - 1) as nat;
        assert(pow128(n) == 128 * pow128(m));
        assert(v / 128 < pow128(m)) by {
            assert(v == 128 * (v / 128) + v % 128);
            if v / 128 >= pow128(m) {
                assert(128 * (v / 128) >= 128 * pow128(m)) by (nonlinear_arith)
                    requires v / 128 >= pow128(m), pow128(m) >= 1;
                assert(pow128(m) >= 1) by { lemma_pow128_pos(m); }
            }
        }
        assert(pow128(m) >= 1) by { lemma_pow128_pos(m); }
        assert(m >= 1) by {
            if m == 0 {
                assert(pow128(1) == 128);
            }
        }
        lemma_leb_len_bound(v / 128, m);
        assert(leb(v).len() == 1 + leb(v / 128).len());
    }
}

proof fn lemma_pow128_pos(n: nat)
    ensures
        pow128(n) >= 1,
    decreases n,
{
    if n > 0 {
        lemma_pow128_pos((n - 1) as nat);
        assert(pow128(n) == 128 * pow128((n - 1) as nat));
    }
}

/// `128^n`.
pub open spec fn pow128(n: nat) -> int
    decreases n,
{
    if n == 0 {
        1
    } else {
        128 * pow128((n - 1) as nat)
    }
}

/// No byte string encodes two distinct values: the continuation bits
/// determine the length, and the seven-bit groups determine the value.
pub proof fn lemma_leb_unique(s: Seq<u8>, off: int, v1: u64, v2: u64)
    requires
        leb_at(s, off, v1),
        leb_at(s, off, v2),
    ensures
        v1 == v2,
    decreases v1,
{
    let b = s[off];
    assert(leb(v1)[0] == b);
    assert(leb(v2)[0] == b);
    if v1 < 128 && v2 < 128 {
        assert(v1 as u8 == b && v2 as u8 == b);
    } else if v1 >= 128 && v2 >= 128 {
        lemma_leb_tail(s, off, v1);
        lemma_leb_tail(s, off, v2);
        lemma_leb_unique(s, off + 1, v1 / 128, v2 / 128);
        assert(v1 % 128 == b - 128 && v2 % 128 == b - 128);
        assert(v1 == 128 * (v1 / 128) + v1 % 128);
        assert(v2 == 128 * (v2 / 128) + v2 % 128);
    } else {
        // One first byte would carry the continuation bit, the other not.
        assert(v1 < 128 ==> b < 128);
        assert(v1 >= 128 ==> b >= 128);
        assert(v2 < 128 ==> b < 128);
        assert(v2 >= 128 ==> b >= 128);
    }
}

/// For `v >= 128`, the tail of the encoding at `off` is the encoding
/// of `v / 128` at `off + 1`.
pub proof fn lemma_leb_tail(s: Seq<u8>, off: int, v: u64)
    requires
        leb_at(s, off, v),
        v >= 128,
    ensures
        leb_at(s, off + 1, v / 128),
        s[off] == v % 128 + 128,
{
    let rest = leb(v / 128);
    assert(leb(v) == seq![(v % 128 + 128) as u8] + rest);
    assert(s.subrange(off, off + leb(v).len() as int) == leb(v));
    assert(s[off] == leb(v)[0]);
    assert forall|j: int| 0 <= j < rest.len() implies s[off + 1 + j] == rest[j] by {
        assert(leb(v)[j + 1] == rest[j]);
        assert(s[off + 1 + j] == s.subrange(off, off + leb(v).len() as int)[j + 1]);
    }
    assert(s.subrange(off + 1, off + 1 + rest.len() as int) =~= rest);
}

/// Law: decoding starts over again exactly where an encoding was
/// written, whatever follows it, and recovers the encoded value alone.
pub proof fn lemma_varint_round_trip(v: u64, tail: Seq<u8>)
    ensures
        leb_at(leb(v) + tail, 0, v),
        forall|w: u64| leb_at(leb(v) + tail, 0, w) ==> w == v,
{
    assert((leb(v) + tail).subrange(0, leb(v).len() as int) =~= leb(v));
    assert forall|w: u64| leb_at(leb(v) + tail, 0, w) implies w == v by {
        lemma_leb_unique(leb(v) + tail, 0, w, v);
    }
}

/// A `u64` seen as a LEB128-encoded value.
pub struct Leb128U(pub u64);

impl Leb128U {
    pub fn new(v: u64) -> (r: Leb128U)
        ensures
            r.0 == v,
    {
        Leb128U(v)
    }

    pub fn as_u64(&self) -> (r: u64)
        ensures
            r == self.0,
    {
        self.0
    }

    /// Append this value's encoding to `sink`; the byte count written
    /// is the encoding's exact length.
    pub fn send_to(&self, sink: &mut Vec<u8>) -> (n: usize)
        ensures
            final(sink)@ == old(sink)@ + leb(self.0),
            n == leb(self.0).len(),
    {
        let before = sink.len();
        write_leb128u(self.0, sink);
        sink.len() - before
    }

    /// Decode one value at `off`; the inverse of `send_to`.
    pub fn take_from(bytes: &[u8], off: usize) -> (r: (usize, Leb128U))
        requires
            exists|v: u64| leb_at(bytes@, off as int, v),
        ensures
            leb_at(bytes@, off as int, r.1.0),
            r.0 == leb(r.1.0).len(),
    {
        let (n, v) = read_leb128u(bytes, off);
        (n, Leb128U(v))
    }
}

/// Append the encoding of `v` to `vec`.
pub fn write_leb128u(v: u64, vec: &mut Vec<u8>)
    ensures
        final(vec)@ == old(vec)@ + leb(v),
    decreases v,
{
    if v < 128 {
        vec.push(v as u8);
        assert(vec@ =~= old(vec)@ + leb(v));
    } else {
        vec.push((v % 128 + 128) as u8);
        write_leb128u(v / 128, vec);
        assert(vec@ =~= old(vec)@ + leb(v));
    }
}

/// Decode one value at `off`; total on input that holds an encoding
/// there, and inverse to `write_leb128u`: the returned count is the
/// exact length of the encoding of the returned value, which is the
/// one value encoded at `off`.
pub fn read_leb128u(bytes: &[u8], off: usize) -> (r: (usize, u64))
    requires
        exists|v: u64| leb_at(bytes@, off as int, v),
    ensures
        leb_at(bytes@, off as int, r.1),
        r.0 == leb(r.1).len(),
        forall|w: u64| leb_at(bytes@, off as int, w) ==> w == r.1,
    decreases bytes@.len() - off,
{
    let ghost v0 = choose|v: u64| leb_at(bytes@, off as int, v);
    proof {
        lemma_leb_len(v0);
    }
    let b = bytes[off];
    if b < 128 {
        proof {
            if v0 >= 128 {
                lemma_leb_tail(bytes@, off as int, v0);
            }
            assert(leb(v0)[0] == b);
            assert(v0 < 128 && v0 as u8 == b);
            assert(bytes@.subrange(off as int, off + 1) =~= leb(b as u64));
            assert forall|w: u64| leb_at(bytes@, off as int, w) implies w == b as u64 by {
                lemma_leb_unique(bytes@, off as int, w, v0);
            }
        }
        (1, b as u64)
    } else {
        proof {
            assert(leb(v0)[0] == b);
            assert(v0 >= 128);
            lemma_leb_tail(bytes@, off as int, v0);
        }
        let (n, hi) = read_leb128u(bytes, off + 1);
        proof {
            lemma_leb_unique(bytes@, off as int + 1, hi, v0 / 128);
            assert(v0 == 128 * (v0 / 128) + v0 % 128);
            assert(hi == v0 / 128 && b - 128 == v0 % 128);
            lemma_leb_len(hi);
        }
        let r = (b - 128) as u64 + hi * 128;
        proof {
            assert(r == v0);
            assert(leb(r) == seq![(r % 128 + 128) as u8] + leb(r / 128));
            assert(bytes@.subrange(off as int, off + leb(r).len() as int) =~= leb(r)) by {
                assert(leb(r)[0] == b);
                assert(bytes@.subrange(off as int + 1, off + 1 + leb(r / 128).len() as int) == leb(r / 128));
                assert forall|j: int| 0 <= j < leb(r).len() implies
                    bytes@.subrange(off as int, off + leb(r).len() as int)[j] == leb(r)[j] by {
                    if j > 0 {
                        assert(leb(r)[j] == leb(r / 128)[j - 1]);
                        assert(bytes@[off + j] == bytes@.subrange(
                            off as int + 1, off + 1 + leb(r / 128).len() as int)[j - 1]);
                    }
                }
            }
            assert forall|w: u64| leb_at(bytes@, off as int, w) implies w == r by {
                lemma_leb_unique(bytes@, off as int, w, v0);
            }
        }
        (n + 1, r)
    }
}

} // verus!
