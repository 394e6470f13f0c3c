//! Base-128 variable-width integers, as written and read by `integer_encoding`.
use integer_encoding::VarInt;
use vstd::prelude::*;

verus! {

/// The bytes of `n` in the base-128 continuation-bit scheme: seven bits per
/// byte, least significant group first, the high bit set on every byte but the
/// last.
pub open spec fn varint_bytes(n: nat) -> Seq<u8>
    decreases n,
{
    if n < 128 {
        seq![n as u8]
    } else {
        seq![(n % 128 + 128) as u8] + varint_bytes(n / 128)
    }
}

/// Whether `s` begins with the bytes `p`.
pub open spec fn starts_with(s: Seq<u8>, p: Seq<u8>) -> bool {
    p.len() <= s.len() && s.subrange(0, p.len() as int) == p
}

/// Byte `w - 1` of `s` is the first without the high bit: `s` begins with a
/// complete varint header of `w` bytes.
pub open spec fn varint_end(s: Seq<u8>, w: int) -> bool {
    &&& 1 <= w <= s.len()
    &&& s[w - 1] < 0x80
    &&& forall|i: int| 0 <= i < w - 1 ==> #[trigger] s[i] >= 0x80
}

/// `s` begins with a header of `w` bytes that holds a `u32`: at most five
/// bytes, the fifth carrying no more than the top four bits.
pub open spec fn u32_header(s: Seq<u8>, w: int) -> bool {
    &&& varint_end(s, w)
    &&& w <= 5
    &&& w == 5 ==> s[4] <= 0x0f
}

/// The value of the first `w` bytes of `s` read as base-128 groups, least
/// significant first, each byte's high bit dropped.
pub open spec fn header_value(s: Seq<u8>, w: int) -> nat
    decreases w,
{
    if w <= 0 || s.len() == 0 {
        0
    } else {
        (s[0] % 128) as nat + 128 * header_value(s.drop_first(), w - 1)
    }
}

/// `s` begins with a header that holds a `u32`.
pub open spec fn has_u32_header(s: Seq<u8>) -> bool {
    exists|w: int| u32_header(s, w)
}

/// Number of bytes that the encoding of `n` occupies.
pub open spec fn varint_len(n: nat) -> nat {
    varint_bytes(n).len()
}

/// Relies on `VarInt::required_space` of integer_encoding: the length of the
/// encoding that `encode_var` writes.
#[verifier::external_body]
pub(crate) fn varint_width(n: u32) -> (r: usize)
    ensures
        r == varint_len(n as nat),
{
    n.required_space()
}

/// Relies on `VarInt::encode_var` of integer_encoding: writes the encoding of
/// `n` at `at` and returns its length, leaving every other byte as it was.
#[verifier::external_body]
pub(crate) fn put_varint(n: u32, buf: &mut Vec<u8>, at: usize) -> (r: usize)
    requires
        at + varint_len(n as nat) <= old(buf)@.len(),
    ensures
        r == varint_len(n as nat),
        final(buf)@ == old(buf)@.subrange(0, at as int) + varint_bytes(n as nat) + old(
            buf,
        )@.subrange(at + r, old(buf)@.len() as int),
{
    n.encode_var(&mut buf[at..])
}

/// Relies on `VarInt::decode_var` of integer_encoding for `u32`: where the
/// bytes from `at` on begin with the encoding of a `u32`, that value and the
/// length of its encoding come back. A length `w` comes back where byte
/// `w - 1` is the first of the first ten without the high bit; `None` comes
/// back where each of the first ten bytes (or all, if fewer) has it. The
/// value is the sum of the low seven bits of each byte read, least
/// significant group first, which a header that holds a `u32` keeps whole.
#[verifier::external_body]
pub(crate) fn get_varint(data: &[u8], at: usize) -> (r: Option<(u32, usize)>)
    requires
        at <= data@.len(),
    ensures
        forall|v: u32|
            #![trigger varint_bytes(v as nat)]
            starts_with(data@.subrange(at as int, data@.len() as int), varint_bytes(v as nat))
                ==> r == Some((v, varint_len(v as nat) as usize)),
        r matches Some((_, w)) ==> {
            &&& 1 <= w <= 10
            &&& at + w <= data@.len()
            &&& varint_end(data@.subrange(at as int, data@.len() as int), w as int)
        },
        r matches Some((v, w)) ==> (u32_header(
            data@.subrange(at as int, data@.len() as int),
            w as int,
        ) ==> v == header_value(data@.subrange(at as int, data@.len() as int), w as int)),
        r is None <==> forall|i: int|
            at <= i < data@.len() && i < at + 10 ==> #[trigger] data@[i] >= 0x80,
{
    u32::decode_var(&data[at..])
}

/// An encoding has at least one byte.
pub proof fn lemma_varint_nonempty(n: nat)
    ensures
        1 <= varint_len(n),
    decreases n,
{
    if n >= 128 {
        lemma_varint_nonempty(n / 128);
    }
}

/// The encoding of a `u32` is at most five bytes long.
pub proof fn lemma_varint_len_u32(n: nat)
    requires
        n <= u32::MAX,
    ensures
        varint_len(n) <= 5,
{
    reveal_with_fuel(varint_bytes, 6);
}

/// A sequence has at most one complete header.
pub proof fn lemma_varint_end_unique(s: Seq<u8>, a: int, b: int)
    requires
        varint_end(s, a),
        varint_end(s, b),
    ensures
        a == b,
{
    if a < b {
        assert(s[a - 1] >= 0x80);
    } else if b < a {
        assert(s[b - 1] >= 0x80);
    }
}

/// The encoding of a `u32` is a header that holds a `u32`.
pub proof fn lemma_varint_u32_header(n: nat)
    requires
        n <= u32::MAX,
    ensures
        u32_header(varint_bytes(n), varint_len(n) as int),
{
    reveal_with_fuel(varint_bytes, 6);
    let n1 = n / 128;
    let n2 = n1 / 128;
    let n3 = n2 / 128;
    let n4 = n3 / 128;
    assert(n4 <= 15);
    lemma_varint_len_u32(n);
    lemma_varint_nonempty(n);
    lemma_varint_shape(n);
}

/// Every byte of an encoding but the last has the high bit; the last has not.
pub proof fn lemma_varint_shape(n: nat)
    ensures
        varint_end(varint_bytes(n), varint_len(n) as int),
    decreases n,
{
    lemma_varint_nonempty(n);
    if n >= 128 {
        lemma_varint_shape(n / 128);
        let t = varint_bytes(n / 128);
        assert(varint_bytes(n) == seq![(n % 128 + 128) as u8] + t);
        assert forall|i: int| 0 <= i < varint_len(n) - 1 implies #[trigger] varint_bytes(n)[i] >= 0x80 by {
            if i > 0 {
                assert(varint_bytes(n)[i] == t[i - 1]);
            }
        }
    }
}

/// No encoding is a proper prefix of another: where a sequence begins with
/// the encodings of `a` and of `b`, the two are equal.
pub proof fn lemma_varint_unique(s: Seq<u8>, a: nat, b: nat)
    requires
        starts_with(s, varint_bytes(a)),
        starts_with(s, varint_bytes(b)),
    ensures
        a == b,
    decreases a,
{
    assert(s[0] == varint_bytes(a)[0]);
    assert(s[0] == varint_bytes(b)[0]);
    if a >= 128 && b >= 128 {
        let t = s.subrange(1, s.len() as int);
        let ta = varint_bytes(a / 128);
        let tb = varint_bytes(b / 128);
        assert(varint_bytes(a) == seq![(a % 128 + 128) as u8] + ta);
        assert(varint_bytes(b) == seq![(b % 128 + 128) as u8] + tb);
        assert(t.subrange(0, ta.len() as int) =~= ta) by {
            assert forall|i: int| 0 <= i < ta.len() implies t[i] == ta[i] by {
                assert(s[i + 1] == varint_bytes(a)[i + 1]);
            }
        }
        assert(t.subrange(0, tb.len() as int) =~= tb) by {
            assert forall|i: int| 0 <= i < tb.len() implies t[i] == tb[i] by {
                assert(s[i + 1] == varint_bytes(b)[i + 1]);
            }
        }
        lemma_varint_unique(t, a / 128, b / 128);
    }
}

} // verus!
