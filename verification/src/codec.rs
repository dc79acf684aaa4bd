//! Byte-order interpretations of byte sequences, the laws that make
//! encoding and decoding inverse to each other, and the helpers the codec
//! operations are built from.

use vstd::endian::Endian;
use vstd::endian::endianness;
use vstd::prelude::*;

verus! {

/// The value of a byte sequence read as a little-endian number:
/// the first byte is the least significant.
pub open spec fn le_val(s: Seq<u8>) -> nat
    decreases s.len(),
{
    if s.len() == 0 {
        0
    } else {
        s[0] as nat + 256 * le_val(s.skip(1))
    }
}

/// The value of a byte sequence read as a big-endian number:
/// the last byte is the least significant.
pub open spec fn be_val(s: Seq<u8>) -> nat
    decreases s.len(),
{
    if s.len() == 0 {
        0
    } else {
        s.last() as nat + 256 * be_val(s.drop_last())
    }
}

/// The value of a byte sequence read in the byte order of the hardware
/// this program runs on.
pub open spec fn ne_val(s: Seq<u8>) -> nat {
    match endianness() {
        Endian::Little => le_val(s),
        Endian::Big => be_val(s),
    }
}

/// The `n` little-endian bytes encoding `v % pow256(n)`.
pub open spec fn le_bytes(v: nat, n: nat) -> Seq<u8>
    decreases n,
{
    if n == 0 {
        Seq::empty()
    } else {
        seq![(v % 256) as u8] + le_bytes(v / 256, (n - 1) as nat)
    }
}

/// The `n` big-endian bytes encoding `v % pow256(n)`.
pub open spec fn be_bytes(v: nat, n: nat) -> Seq<u8>
    decreases n,
{
    if n == 0 {
        Seq::empty()
    } else {
        be_bytes(v / 256, (n - 1) as nat).push((v % 256) as u8)
    }
}

/// The `n` bytes encoding `v % pow256(n)` in the byte order of the
/// hardware this program runs on.
pub open spec fn ne_bytes(v: nat, n: nat) -> Seq<u8> {
    match endianness() {
        Endian::Little => le_bytes(v, n),
        Endian::Big => be_bytes(v, n),
    }
}

/// 256 raised to the power `n`: the number of values a sequence of `n`
/// bytes can encode.
pub open spec fn pow256(n: nat) -> nat
    decreases n,
{
    if n == 0 {
        1
    } else {
        256 * pow256((n - 1) as nat)
    }
}

/// The two's-complement reading of an `n`-byte unsigned value `u`.
pub open spec fn signed_val(u: nat, n: nat) -> int {
    if u < pow256(n) / 2 {
        u as int
    } else {
        u - pow256(n)
    }
}

/// The `n`-byte unsigned value whose two's-complement reading is `v`.
pub open spec fn unsigned_val(v: int, n: nat) -> nat {
    if v >= 0 {
        v as nat
    } else {
        (v + pow256(n)) as nat
    }
}

/// The powers of 256 at the widths the codec operations use.
pub proof fn lemma_pow256_values()
    ensures
        pow256(1) == 0x100,
        pow256(2) == 0x10000,
        pow256(4) == 0x100000000,
        pow256(8) == 0x10000000000000000,
        pow256(15) == 0x1000000000000000000000000000000,
        pow256(16) == 0x100000000000000000000000000000000,
{
    reveal_with_fuel(pow256, 17);
}

/// Raising 256 to a larger power gives a value at least as large.
pub proof fn lemma_pow256_le(a: nat, b: nat)
    requires
        a <= b,
    ensures
        pow256(a) <= pow256(b),
    decreases b,
{
    if a < b {
        lemma_pow256_le(a, (b - 1) as nat);
    }
}

/// An `n`-byte sequence encodes a value below `pow256(n)`, read
/// little-endian.
pub proof fn lemma_le_val_bound(s: Seq<u8>)
    ensures
        le_val(s) < pow256(s.len()),
    decreases s.len(),
{
    if s.len() > 0 {
        lemma_le_val_bound(s.skip(1));
    }
}

/// An `n`-byte sequence encodes a value below `pow256(n)`, read
/// big-endian.
pub proof fn lemma_be_val_bound(s: Seq<u8>)
    ensures
        be_val(s) < pow256(s.len()),
    decreases s.len(),
{
    if s.len() > 0 {
        lemma_be_val_bound(s.drop_last());
    }
}

/// The little-endian encoding always has the requested length.
pub proof fn lemma_le_bytes_len(v: nat, n: nat)
    ensures
        le_bytes(v, n).len() == n,
    decreases n,
{
    if n > 0 {
        lemma_le_bytes_len(v / 256, (n - 1) as nat);
    }
}

/// The big-endian encoding always has the requested length.
pub proof fn lemma_be_bytes_len(v: nat, n: nat)
    ensures
        be_bytes(v, n).len() == n,
    decreases n,
{
    if n > 0 {
        lemma_be_bytes_len(v / 256, (n - 1) as nat);
    }
}

/// Round-trip law, little-endian: decoding the `n`-byte encoding of any
/// value `v` that fits in `n` bytes gives back exactly `v`.
pub proof fn lemma_le_roundtrip(v: nat, n: nat)
    requires
        v < pow256(n),
    ensures
        le_val(le_bytes(v, n)) == v,
    decreases n,
{
    if n == 0 {
    } else {
        let lo = v % 256;
        let hi = v / 256;
        assert(hi < pow256((n - 1) as nat)) by (nonlinear_arith)
            requires
                v < pow256(n),
                pow256(n) == 256 * pow256((n - 1) as nat),
                hi == v / 256,
        ;
        lemma_le_roundtrip(hi, (n - 1) as nat);
        let s = le_bytes(v, n);
        assert(s.skip(1) =~= le_bytes(hi, (n - 1) as nat));
        assert(s[0] == lo as u8);
        assert(le_val(s) == lo + 256 * hi);
        assert(lo + 256 * hi == v) by (nonlinear_arith)
            requires
                lo == v % 256,
                hi == v / 256,
        ;
    }
}

/// Round-trip law, big-endian: decoding the `n`-byte encoding of any
/// value `v` that fits in `n` bytes gives back exactly `v`.
pub proof fn lemma_be_roundtrip(v: nat, n: nat)
    requires
        v < pow256(n),
    ensures
        be_val(be_bytes(v, n)) == v,
    decreases n,
{
    if n == 0 {
    } else {
        let lo = v % 256;
        let hi = v / 256;
        assert(hi < pow256((n - 1) as nat)) by (nonlinear_arith)
            requires
                v < pow256(n),
                pow256(n) == 256 * pow256((n - 1) as nat),
                hi == v / 256,
        ;
        lemma_be_roundtrip(hi, (n - 1) as nat);
        let s = be_bytes(v, n);
        lemma_be_bytes_len(hi, (n - 1) as nat);
        assert(s.drop_last() =~= be_bytes(hi, (n - 1) as nat));
        assert(s.last() == lo as u8);
        assert(be_val(s) == lo + 256 * hi);
        assert(lo + 256 * hi == v) by (nonlinear_arith)
            requires
                lo == v % 256,
                hi == v / 256,
        ;
    }
}

/// Round-trip law, native byte order: whichever order the hardware uses,
/// decoding the encoding of a value that fits gives it back.
pub proof fn lemma_ne_roundtrip(v: nat, n: nat)
    requires
        v < pow256(n),
    ensures
        ne_val(ne_bytes(v, n)) == v,
{
    if endianness() is Little {
        lemma_le_roundtrip(v, n);
    } else {
        lemma_be_roundtrip(v, n);
    }
}

/// The unsigned carrier of an `n`-byte signed value fits in `n` bytes.
pub proof fn lemma_unsigned_bound(v: int, n: nat)
    requires
        1 <= n,
        -(pow256(n) / 2) <= v < pow256(n) / 2,
    ensures
        unsigned_val(v, n) < pow256(n),
{
    lemma_pow256_le(1, n);
}

/// Round-trip law for signed values: reading back the unsigned carrier of
/// any `v` representable in `n` signed bytes gives back exactly `v`.
pub proof fn lemma_signed_roundtrip(v: int, n: nat)
    requires
        1 <= n,
        -(pow256(n) / 2) <= v < pow256(n) / 2,
    ensures
        signed_val(unsigned_val(v, n), n) == v,
{
    assert(pow256(n) % 2 == 0) by {
        let h = pow256((n - 1) as nat);
        assert(pow256(n) == 256 * h);
        assert(256 * h == 2 * (128 * h)) by (nonlinear_arith);
    }
}

/// Relies on `u16::from_ne_bytes`: it reads its bytes in the byte order of
/// the hardware this program runs on — the order that
/// `vstd::endian::endianness()` abstracts — so the two-byte probe `[1, 0]`
/// reads as 1 on little-endian hardware and as 256 on big-endian hardware.
#[verifier::external_body]
fn ne_probe() -> (r: u16)
    ensures
        r == (match endianness() {
            Endian::Little => 1u16,
            Endian::Big => 256u16,
        }),
{
    u16::from_ne_bytes([1, 0])
}

/// Whether the hardware this program runs on reads multi-byte values
/// little-endian.
pub(crate) fn native_is_little() -> (r: bool)
    ensures
        r == (endianness() is Little),
{
    ne_probe() == 1
}

/// The text encoded by a byte sequence, when the sequence is well-formed
/// UTF-8.
pub uninterp spec fn utf8_chars(bytes: Seq<u8>) -> Option<Seq<char>>;

/// Relies on `core::str::from_utf8`: whether a byte sequence is
/// well-formed UTF-8, and the text it then encodes, depend on the bytes
/// alone.
#[verifier::external_body]
pub(crate) fn str_from_utf8(bytes: &[u8]) -> (r: Option<&str>)
    ensures
        match r {
            Some(s) => utf8_chars(bytes@) == Some(s@),
            None => utf8_chars(bytes@) is None,
        },
{
    core::str::from_utf8(bytes).ok()
}

/// Decodes up to 16 bytes as a little-endian number.
pub fn u128_of_le(b: &[u8]) -> (r: u128)
    requires
        b@.len() <= 16,
    ensures
        r as nat == le_val(b@),
{
    let len = b.len();
    let mut r: u128 = 0;
    let mut i: usize = len;
    proof {
        assert(b@.skip(len as int) =~= Seq::<u8>::empty());
    }
    while i > 0
        invariant
            i <= len,
            len == b@.len() <= 16,
            r as nat == le_val(b@.skip(i as int)),
        decreases i,
    {
        i = i - 1;
        proof {
            lemma_le_val_bound(b@.skip(i as int + 1));
            lemma_pow256_le((len - i - 1) as nat, 15);
            lemma_pow256_values();
            assert(b@.skip(i as int).skip(1) =~= b@.skip(i as int + 1));
        }
        r = r * 256 + (b[i] as u128);
    }
    proof {
        assert(b@.skip(0) =~= b@);
    }
    r
}

/// Decodes up to 16 bytes as a big-endian number.
pub fn u128_of_be(b: &[u8]) -> (r: u128)
    requires
        b@.len() <= 16,
    ensures
        r as nat == be_val(b@),
{
    let len = b.len();
    let mut r: u128 = 0;
    let mut i: usize = 0;
    proof {
        assert(b@.take(0) =~= Seq::<u8>::empty());
    }
    while i < len
        invariant
            i <= len,
            len == b@.len() <= 16,
            r as nat == be_val(b@.take(i as int)),
        decreases len - i,
    {
        proof {
            lemma_be_val_bound(b@.take(i as int));
            lemma_pow256_le(i as nat, 15);
            lemma_pow256_values();
            assert(b@.take(i as int + 1).drop_last() =~= b@.take(i as int));
            assert(b@.take(i as int + 1).last() == b@[i as int]);
        }
        r = r * 256 + (b[i] as u128);
        i = i + 1;
    }
    proof {
        assert(b@.take(len as int) =~= b@);
    }
    r
}

/// Encodes the low `n` bytes of a number in little-endian order.
pub fn le_vec_of(v: u128, n: usize) -> (r: Vec<u8>)
    ensures
        r@ == le_bytes(v as nat, n as nat),
        r@.len() == n,
{
    let mut r: Vec<u8> = Vec::new();
    let mut cur: u128 = v;
    let mut i: usize = 0;
    proof {
        assert(le_bytes(v as nat, n as nat) =~= r@ + le_bytes(v as nat, n as nat));
    }
    while i < n
        invariant
            i <= n,
            r@.len() == i,
            le_bytes(v as nat, n as nat) == r@ + le_bytes(cur as nat, (n - i) as nat),
        decreases n - i,
    {
        let ghost r_old = r@;
        let ghost cur_old = cur as nat;
        let byte = (cur % 256) as u8;
        r.push(byte);
        cur = cur / 256;
        i = i + 1;
        proof {
            assert(le_bytes(cur_old, (n - i + 1) as nat) == seq![(cur_old % 256) as u8] + le_bytes(
                cur_old / 256,
                (n - i) as nat,
            ));
            assert(r_old + (seq![byte] + le_bytes(cur as nat, (n - i) as nat)) =~= r@ + le_bytes(
                cur as nat,
                (n - i) as nat,
            ));
        }
    }
    proof {
        assert(r@ + le_bytes(cur as nat, 0) =~= r@);
        lemma_le_bytes_len(v as nat, n as nat);
    }
    r
}

/// Encodes the low `n` bytes of a number in big-endian order.
pub fn be_vec_of(v: u128, n: usize) -> (r: Vec<u8>)
    ensures
        r@ == be_bytes(v as nat, n as nat),
        r@.len() == n,
{
    let mut r: Vec<u8> = Vec::new();
    let mut cur: u128 = v;
    let mut i: usize = 0;
    proof {
        assert(be_bytes(v as nat, n as nat) =~= be_bytes(v as nat, n as nat) + r@);
    }
    while i < n
        invariant
            i <= n,
            r@.len() == i,
            be_bytes(v as nat, n as nat) == be_bytes(cur as nat, (n - i) as nat) + r@,
        decreases n - i,
    {
        let ghost r_old = r@;
        let ghost cur_old = cur as nat;
        let byte = (cur % 256) as u8;
        r.insert(0, byte);
        cur = cur / 256;
        i = i + 1;
        proof {
            assert(be_bytes(cur_old, (n - i + 1) as nat) == be_bytes(
                cur as nat,
                (n - i) as nat,
            ).push(byte));
            assert(be_bytes(cur as nat, (n - i) as nat).push(byte) + r_old =~= be_bytes(
                cur as nat,
                (n - i) as nat,
            ) + r@);
        }
    }
    proof {
        assert(be_bytes(cur as nat, 0) + r@ =~= r@);
        lemma_be_bytes_len(v as nat, n as nat);
    }
    r
}

} // verus!
