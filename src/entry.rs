//! The record codec: one key and one value framed as
//! `[varint key length][varint value length][key][value]`.
use crate::varint::{
    get_varint, has_u32_header, header_value, lemma_varint_end_unique, lemma_varint_len_u32,
    lemma_varint_nonempty, lemma_varint_u32_header, lemma_varint_unique, put_varint, starts_with,
    u32_header, varint_bytes, varint_len,
};
use vstd::prelude::*;
use vstd::slice::slice_subrange;

verus! {

/// The bytes of the record that holds `key` and `value`.
pub open spec fn record_bytes(key: Seq<u8>, value: Seq<u8>) -> Seq<u8> {
    varint_bytes(key.len()) + varint_bytes(value.len()) + key + value
}

/// Number of bytes that the record of `key` and `value` occupies.
pub open spec fn record_len(key: Seq<u8>, value: Seq<u8>) -> nat {
    varint_len(key.len()) + varint_len(value.len()) + key.len() + value.len()
}

/// Whether `s` begins with a well-framed record of `key` and `value`, whose
/// whole length a `u32` holds.
pub open spec fn is_record(s: Seq<u8>, key: Seq<u8>, value: Seq<u8>) -> bool {
    &&& record_len(key, value) <= u32::MAX
    &&& starts_with(s, record_bytes(key, value))
}

/// `s` begins with a key length header of `kw` bytes and a value length
/// header of `vw` bytes, each holding a `u32`, and the key and value they
/// announce fit in `s`, the whole within a `u32`.
pub open spec fn frame_ok(s: Seq<u8>, kw: int, vw: int) -> bool {
    let rest = s.subrange(kw, s.len() as int);
    let total = kw + vw + header_value(s, kw) + header_value(rest, vw);
    &&& u32_header(s, kw)
    &&& u32_header(rest, vw)
    &&& total <= s.len()
    &&& total <= u32::MAX
}

/// The key and value that a frame of `kw` and `vw` header bytes announces.
pub open spec fn framed_parts(s: Seq<u8>, kw: int, vw: int) -> (Seq<u8>, Seq<u8>) {
    let k = header_value(s, kw) as int;
    let v = header_value(s.subrange(kw, s.len() as int), vw) as int;
    (s.subrange(kw + vw, kw + vw + k), s.subrange(kw + vw + k, kw + vw + k + v))
}

/// Why the bytes at some place are not a record.
#[derive(Debug, PartialEq, Eq, Structural)]
pub enum EntryError {
    /// A length header is malformed or truncated, or the payload it announces
    /// runs past the end of the bytes.
    Corruption,
}

/// A record read in place: a view over bytes it does not own, together with
/// the decoded lengths of its two headers.
pub struct Entry<'a> {
    data: &'a [u8],
    key_size: u32,
    key_width: usize,
    value_size: u32,
    value_width: usize,
}

/// The record framing holds exactly what it was given: what was written for
/// `key` and `value`, followed by any bytes at all, reads back as `key` and
/// `value` and as nothing else.
pub proof fn lemma_round_trip(key: Seq<u8>, value: Seq<u8>, rest: Seq<u8>)
    requires
        record_len(key, value) <= u32::MAX,
    ensures
        is_record(record_bytes(key, value) + rest, key, value),
        forall|k: Seq<u8>, v: Seq<u8>|
            is_record(record_bytes(key, value) + rest, k, v) ==> k == key && v == value,
{
    let s = record_bytes(key, value) + rest;
    assert(s.subrange(0, record_bytes(key, value).len() as int) =~= record_bytes(key, value));
    assert forall|k: Seq<u8>, v: Seq<u8>| is_record(s, k, v) implies k == key && v == value by {
        lemma_record_fields(s, key, value);
        lemma_record_fields(s, k, v);
        lemma_varint_unique(s, k.len(), key.len());
        let s1 = s.subrange(varint_len(k.len()) as int, s.len() as int);
        lemma_varint_unique(s1, v.len(), value.len());
        let h = (varint_len(k.len()) + varint_len(v.len())) as int;
        let kl = k.len() as int;
        let vl = v.len() as int;
        assert(k =~= s.subrange(h, h + kl));
        assert(key =~= s.subrange(h, h + kl));
        assert(v =~= s.subrange(h + kl, h + kl + vl));
        assert(value =~= s.subrange(h + kl, h + kl + vl));
    }
}

/// What `create` leaves at `at` is a record of its key and value, whatever
/// follows it: `from_slice` on the bytes from `at` reads back exactly that
/// key and that value.
pub proof fn lemma_create_then_read(buf: Seq<u8>, at: int, key: Seq<u8>, value: Seq<u8>)
    requires
        0 <= at,
        at + record_len(key, value) <= buf.len(),
        record_len(key, value) <= u32::MAX,
        buf.subrange(at, at + record_len(key, value)) == record_bytes(key, value),
    ensures
        is_record(buf.subrange(at, buf.len() as int), key, value),
        forall|k: Seq<u8>, v: Seq<u8>|
            is_record(buf.subrange(at, buf.len() as int), k, v) ==> k == key && v == value,
{
    let s = buf.subrange(at, buf.len() as int);
    let r = record_bytes(key, value);
    assert(r.len() == record_len(key, value));
    let rest = buf.subrange(at + r.len(), buf.len() as int);
    assert(s =~= r + rest) by {
        assert forall|i: int| 0 <= i < s.len() implies #[trigger] s[i] == (r + rest)[i] by {
            if i < r.len() {
                assert(buf.subrange(at, at + record_len(key, value))[i] == buf[at + i]);
            }
        }
    }
    lemma_round_trip(key, value, rest);
}

/// The parts of a record, each read at its place.
pub proof fn lemma_record_fields(s: Seq<u8>, key: Seq<u8>, value: Seq<u8>)
    requires
        is_record(s, key, value),
    ensures
        record_bytes(key, value).len() == record_len(key, value),
        key.len() <= u32::MAX,
        value.len() <= u32::MAX,
        starts_with(s, varint_bytes(key.len())),
        starts_with(
            s.subrange(varint_len(key.len()) as int, s.len() as int),
            varint_bytes(value.len()),
        ),
        s.subrange(
            (varint_len(key.len()) + varint_len(value.len())) as int,
            (varint_len(key.len()) + varint_len(value.len()) + key.len()) as int,
        ) == key,
        s.subrange(
            (varint_len(key.len()) + varint_len(value.len()) + key.len()) as int,
            record_len(key, value) as int,
        ) == value,
        1 <= varint_len(key.len()) <= 5,
        1 <= varint_len(value.len()) <= 5,
{
    let r = record_bytes(key, value);
    let kw = varint_len(key.len()) as int;
    let vw = varint_len(value.len()) as int;
    assert(r.len() == record_len(key, value));
    lemma_varint_nonempty(key.len());
    lemma_varint_nonempty(value.len());
    lemma_varint_len_u32(key.len());
    lemma_varint_len_u32(value.len());
    assert(s.subrange(0, kw) =~= varint_bytes(key.len())) by {
        assert forall|i: int| 0 <= i < kw implies s[i] == varint_bytes(key.len())[i] by {
            assert(s[i] == r[i]);
        }
    }
    let s1 = s.subrange(kw, s.len() as int);
    assert(s1.subrange(0, vw) =~= varint_bytes(value.len())) by {
        assert forall|i: int| 0 <= i < vw implies s1[i] == varint_bytes(value.len())[i] by {
            assert(s[kw + i] == r[kw + i]);
        }
    }
    assert(s.subrange(kw + vw, kw + vw + key.len()) =~= key) by {
        assert forall|i: int| 0 <= i < key.len() implies s[kw + vw + i] == key[i] by {
            assert(s[kw + vw + i] == r[kw + vw + i]);
        }
    }
    assert(s.subrange(kw + vw + key.len(), record_len(key, value) as int) =~= value) by {
        assert forall|i: int| 0 <= i < value.len() implies s[kw + vw + key.len() + i]
            == value[i] by {
            assert(s[kw + vw + key.len() + i] == r[kw + vw + key.len() + i]);
        }
    }
}

/// Writes `src` into `buf` at `at`, leaving every other byte as it was.
fn copy_into(buf: &mut Vec<u8>, at: usize, src: &[u8])
    requires
        at + src@.len() <= old(buf)@.len(),
    ensures
        final(buf)@ == old(buf)@.subrange(0, at as int) + src@ + old(buf)@.subrange(
            at + src@.len(),
            old(buf)@.len() as int,
        ),
{
    let n = src.len();
    let total = buf.len();
    let mut i: usize = 0;
    while i < n
        invariant
            i <= n,
            total == old(buf)@.len(),
            n == src@.len(),
            at + n <= buf@.len(),
            buf@.len() == old(buf)@.len(),
            forall|j: int| 0 <= j < at ==> buf@[j] == old(buf)@[j],
            forall|j: int| 0 <= j < i ==> buf@[at + j] == src@[j],
            forall|j: int| at + i <= j < buf@.len() ==> buf@[j] == old(buf)@[j],
        decreases n - i,
    {
        buf.set(at + i, src[i]);
        i = i + 1;
    }
    assert(buf@ =~= old(buf)@.subrange(0, at as int) + src@ + old(buf)@.subrange(
        at + src@.len(),
        old(buf)@.len() as int,
    ));
}

/// A sequence that begins with `a` followed by `b` begins with `a`, and
/// after `a` with `b`.
proof fn lemma_prefix_split(s: Seq<u8>, a: Seq<u8>, b: Seq<u8>)
    requires
        starts_with(s, a + b),
    ensures
        starts_with(s, a),
        starts_with(s.subrange(a.len() as int, s.len() as int), b),
{
    assert(s.subrange(0, a.len() as int) =~= a) by {
        assert forall|i: int| 0 <= i < a.len() implies #[trigger] s[i] == a[i] by {
            assert(s.subrange(0, (a + b).len() as int)[i] == (a + b)[i]);
        }
    }
    let t = s.subrange(a.len() as int, s.len() as int);
    assert(t.subrange(0, b.len() as int) =~= b) by {
        assert forall|i: int| 0 <= i < b.len() implies #[trigger] t[i] == b[i] by {
            assert(s.subrange(0, (a + b).len() as int)[a.len() + i] == (a + b)[a.len() + i]);
        }
    }
}

impl<'a> Entry<'a> {
    /// Writes the record of `key` and `value` into `block_entry` at `at`, where
    /// the caller has made room for it, and returns its length. Every other
    /// byte stays as it was.
    pub fn create(block_entry: &mut Vec<u8>, at: usize, key: &[u8], value: &[u8]) -> (r: usize)
        requires
            at + record_len(key@, value@) <= old(block_entry)@.len(),
            record_len(key@, value@) <= u32::MAX,
        ensures
            r == record_len(key@, value@),
            final(block_entry)@ == old(block_entry)@.subrange(0, at as int) + record_bytes(
                key@,
                value@,
            ) + old(block_entry)@.subrange(at + r, old(block_entry)@.len() as int),
    {
        let ghost b0 = block_entry@;
        let total = block_entry.len();
        assert(key@.len() <= u32::MAX && value@.len() <= u32::MAX);
        let ghost kw = varint_len(key@.len());
        let ghost vw = varint_len(value@.len());
        let key_width = put_varint(key.len() as u32, block_entry, at);
        let value_width = put_varint(value.len() as u32, block_entry, at + key_width);
        let key_at = at + key_width + value_width;
        copy_into(block_entry, key_at, key);
        copy_into(block_entry, key_at + key.len(), value);
        let r = key_at + key.len() + value.len() - at;
        assert(block_entry@ =~= b0.subrange(0, at as int) + record_bytes(key@, value@)
            + b0.subrange(at + r, b0.len() as int));
        r
    }

    /// The decoded headers agree with the bytes: the two lengths were read
    /// there and the payload lies within them.
    pub closed spec fn wf(&self) -> bool {
        &&& 1 <= self.key_width <= 5
        &&& 1 <= self.value_width <= 5
        &&& self.key_width + self.value_width + self.key_size + self.value_size
            <= self.data@.len()
        &&& self.key_width + self.value_width + self.key_size + self.value_size <= u32::MAX
    }

    /// Offset of the key bytes.
    pub closed spec fn key_start(&self) -> int {
        self.key_width + self.value_width
    }

    /// The key and the value that this record holds.
    pub closed spec fn view(&self) -> (Seq<u8>, Seq<u8>) {
        let ks = self.key_start();
        let vs = ks + self.key_size;
        (
            self.data@.subrange(ks, vs),
            self.data@.subrange(vs, vs + self.value_size),
        )
    }

    /// The bytes that the record was read from.
    pub closed spec fn bytes(&self) -> Seq<u8> {
        self.data@
    }

    /// The number of bytes that the two headers occupy.
    pub closed spec fn header_widths(&self) -> (nat, nat) {
        (self.key_width as nat, self.value_width as nat)
    }

    /// Reads the length header at `at`: the length and the number of bytes
    /// of its header, or `None` where no header that holds a `u32` stands
    /// there.
    fn read_header(data: &[u8], at: usize) -> (r: Option<(u32, usize)>)
        requires
            at <= data@.len(),
        ensures
            r is Some <==> has_u32_header(data@.subrange(at as int, data@.len() as int)),
            r matches Some((v, w)) ==> u32_header(
                data@.subrange(at as int, data@.len() as int),
                w as int,
            ) && v == header_value(data@.subrange(at as int, data@.len() as int), w as int),
            forall|v: u32|
                #![trigger varint_bytes(v as nat)]
                starts_with(data@.subrange(at as int, data@.len() as int), varint_bytes(v as nat))
                    ==> r == Some((v, varint_len(v as nat) as usize)),
    {
        let ghost sub = data@.subrange(at as int, data@.len() as int);
        let _ = data.len();
        let r = get_varint(data, at);
        proof {
            assert forall|v: u32|
                #![trigger varint_bytes(v as nat)]
                starts_with(sub, varint_bytes(v as nat)) implies u32_header(
                    sub,
                    varint_len(v as nat) as int,
                ) by {
                lemma_varint_u32_header(v as nat);
                let w = varint_len(v as nat) as int;
                assert forall|i: int| 0 <= i < w implies #[trigger] sub[i] == varint_bytes(
                    v as nat,
                )[i] by {
                    assert(sub.subrange(0, w)[i] == sub[i]);
                }
            }
        }
        match r {
            None => {
                proof {
                    if has_u32_header(sub) {
                        let w = choose|w: int| u32_header(sub, w);
                        assert(data@[at + w - 1] == sub[w - 1]);
                    }
                }
                None
            },
            Some((v, w)) => {
                proof {
                    assert forall|w2: int| u32_header(sub, w2) implies w2 == w by {
                        lemma_varint_end_unique(sub, w2, w as int);
                    }
                }
                if w > 5 {
                    return None;
                }
                if w == 5 && data[at + 4] > 0x0f {
                    proof {
                        assert(sub[4] == data@[at + 4]);
                    }
                    return None;
                }
                proof {
                    if w == 5 {
                        assert(sub[4] == data@[at + 4]);
                    }
                    assert(u32_header(sub, w as int));
                }
                Some((v, w))
            },
        }
    }

    /// Reads the key length header at the start of `data`: the length and
    /// the number of bytes of its header. `None` where `data` does not begin
    /// with a complete header that holds a `u32` (at most five bytes, the
    /// last one without the high bit).
    pub fn key_len_from_slice(data: &[u8]) -> (r: Option<(u32, usize)>)
        ensures
            r is Some <==> has_u32_header(data@),
            r matches Some((v, w)) ==> u32_header(data@, w as int) && v == header_value(
                data@,
                w as int,
            ),
            forall|kl: u32|
                #![trigger varint_bytes(kl as nat)]
                starts_with(data@, varint_bytes(kl as nat)) ==> r == Some(
                    (kl, varint_len(kl as nat) as usize),
                ),
            forall|k: Seq<u8>, v: Seq<u8>|
                is_record(data@, k, v) ==> r == Some(
                    (k.len() as u32, varint_len(k.len()) as usize),
                ),
            r matches Some((_, w)) ==> 1 <= w <= data@.len(),
    {
        let r = Entry::read_header(data, 0);
        proof {
            assert(data@.subrange(0, data@.len() as int) =~= data@);
            assert forall|k: Seq<u8>, v: Seq<u8>| is_record(data@, k, v) implies r == Some(
                (k.len() as u32, varint_len(k.len()) as usize),
            ) by {
                lemma_record_fields(data@, k, v);
                assert(varint_bytes(k.len() as u32 as nat) == varint_bytes(k.len()));
            }
        }
        r
    }

    /// Reads the value length header, which follows the key length header:
    /// the length and the number of bytes of its header. `None` where either
    /// header is missing, incomplete, or holds more than a `u32`.
    pub fn value_len_from_slice(data: &[u8]) -> (r: Option<(u32, usize)>)
        ensures
            r is Some <==> exists|w: int|
                u32_header(data@, w) && #[trigger] has_u32_header(
                    data@.subrange(w, data@.len() as int),
                ),
            r matches Some((v, w)) ==> forall|kw: int|
                u32_header(data@, kw) ==> u32_header(
                    #[trigger] data@.subrange(kw, data@.len() as int),
                    w as int,
                ) && v == header_value(data@.subrange(kw, data@.len() as int), w as int),
            forall|kl: u32, vl: u32|
                #![trigger varint_bytes(kl as nat), varint_bytes(vl as nat)]
                starts_with(data@, varint_bytes(kl as nat) + varint_bytes(vl as nat)) ==> r
                    == Some((vl, varint_len(vl as nat) as usize)),
            forall|k: Seq<u8>, v: Seq<u8>|
                is_record(data@, k, v) ==> r == Some(
                    (v.len() as u32, varint_len(v.len()) as usize),
                ),
            r matches Some((_, w)) ==> 1 <= w <= data@.len(),
    {
        match Entry::key_len_from_slice(data) {
            None => {
                proof {
                    if exists|w: int| u32_header(data@, w) && #[trigger] has_u32_header(data@.subrange(w, data@.len() as int)) {
                        let w = choose|w: int| u32_header(data@, w) && #[trigger] has_u32_header(data@.subrange(w, data@.len() as int));
                        assert(has_u32_header(data@));
                    }
                    assert forall|kl: u32, vl: u32|
                        #![trigger varint_bytes(kl as nat), varint_bytes(vl as nat)]
                        !starts_with(data@, varint_bytes(kl as nat) + varint_bytes(vl as nat)) by {
                        if starts_with(data@, varint_bytes(kl as nat) + varint_bytes(vl as nat)) {
                            lemma_prefix_split(data@, varint_bytes(kl as nat), varint_bytes(vl as nat));
                        }
                    }
                }
                None
            },
            Some((_, key_width)) => {
                let r = Entry::read_header(data, key_width);
                proof {
                    assert forall|w2: int| u32_header(data@, w2) implies w2 == key_width by {
                        lemma_varint_end_unique(data@, w2, key_width as int);
                    }
                    assert forall|k: Seq<u8>, v: Seq<u8>| is_record(data@, k, v) implies r == Some(
                        (v.len() as u32, varint_len(v.len()) as usize),
                    ) by {
                        lemma_record_fields(data@, k, v);
                        assert(varint_bytes(v.len() as u32 as nat) == varint_bytes(v.len()));
                    }
                    assert forall|kl: u32, vl: u32|
                        #![trigger varint_bytes(kl as nat), varint_bytes(vl as nat)]
                        starts_with(data@, varint_bytes(kl as nat) + varint_bytes(vl as nat))
                            implies r == Some((vl, varint_len(vl as nat) as usize)) by {
                        let a = varint_bytes(kl as nat);
                        let b = varint_bytes(vl as nat);
                        lemma_prefix_split(data@, a, b);
                        lemma_varint_len_u32(kl as nat);
                        assert(key_width == a.len());
                    }
                }
                match r {
                    None => None,
                    Some((n, w)) => Some((n, w)),
                }
            },
        }
    }

    /// Total number of bytes of the record at the start of `data`.
    pub fn len_from_slice(data: &[u8]) -> (r: Option<u32>)
        ensures
            forall|k: Seq<u8>, v: Seq<u8>|
                is_record(data@, k, v) ==> r == Some(record_len(k, v) as u32),
            r is Some <==> exists|kw: int, vw: int| #[trigger] frame_ok(data@, kw, vw),
            r matches Some(l) ==> exists|kw: int, vw: int|
                #[trigger] frame_ok(data@, kw, vw) && l == kw + vw + header_value(data@, kw)
                    + header_value(data@.subrange(kw, data@.len() as int), vw),
    {
        match Entry::from_slice(data) {
            Ok(e) => {
                let l = e.len();
                proof {
                    let (kw, vw) = (e.header_widths().0 as int, e.header_widths().1 as int);
                    assert(frame_ok(data@, kw, vw));
                }
                Some(l)
            },
            Err(_) => None,
        }
    }

    /// Reads the record at the start of `data`. Fails with `Corruption` where
    /// a header cannot be read or the payload does not fit in `data`.
    pub fn from_slice(data: &'a [u8]) -> (r: Result<Entry<'a>, EntryError>)
        ensures
            forall|k: Seq<u8>, v: Seq<u8>|
                is_record(data@, k, v) ==> {
                    &&& r is Ok
                    &&& r->Ok_0@ == (k, v)
                    &&& r->Ok_0.header_widths() == (varint_len(k.len()), varint_len(v.len()))
                },
            r matches Ok(e) ==> e.wf() && e.bytes() == data@,
            r is Ok <==> exists|kw: int, vw: int| #[trigger] frame_ok(data@, kw, vw),
            r matches Ok(e) ==> {
                &&& frame_ok(data@, e.header_widths().0 as int, e.header_widths().1 as int)
                &&& e@ == framed_parts(
                    data@,
                    e.header_widths().0 as int,
                    e.header_widths().1 as int,
                )
            },
    {
        let kl = Entry::key_len_from_slice(data);
        let vl = Entry::value_len_from_slice(data);
        match (kl, vl) {
            (Some((key_size, key_width)), Some((value_size, value_width))) => {
                proof {
                    let rest = data@.subrange(key_width as int, data@.len() as int);
                    assert(u32_header(rest, value_width as int));
                    assert forall|kw: int, vw: int| #[trigger] frame_ok(data@, kw, vw) implies kw
                        == key_width && vw == value_width by {
                        lemma_varint_end_unique(data@, kw, key_width as int);
                        lemma_varint_end_unique(rest, vw, value_width as int);
                    }
                }
                proof {
                    assert forall|k: Seq<u8>, v: Seq<u8>| is_record(data@, k, v) implies {
                        &&& key_width <= 5 && value_width <= 5
                        &&& key_width + value_width + key_size + value_size <= data@.len()
                        &&& key_width + value_width + key_size + value_size <= u32::MAX
                    } by {
                        lemma_record_fields(data@, k, v);
                    }
                }
                if key_width > 5 || value_width > 5 {
                    return Err(EntryError::Corruption);
                }
                let avail = data.len() - key_width;
                if value_width > avail {
                    return Err(EntryError::Corruption);
                }
                let avail = avail - value_width;
                if key_size as usize > avail {
                    return Err(EntryError::Corruption);
                }
                let avail = avail - key_size as usize;
                if value_size as usize > avail {
                    return Err(EntryError::Corruption);
                }
                let total = key_width as u64 + value_width as u64 + key_size as u64
                    + value_size as u64;
                if total > u32::MAX as u64 {
                    return Err(EntryError::Corruption);
                }
                let e = Entry { data, key_size, key_width, value_size, value_width };
                proof {
                    assert(frame_ok(data@, key_width as int, value_width as int));
                    assert forall|k: Seq<u8>, v: Seq<u8>| is_record(data@, k, v) implies e@ == (
                        k,
                        v,
                    ) by {
                        lemma_record_fields(data@, k, v);
                    }
                }
                Ok(e)
            },
            _ => {
                proof {
                    assert forall|k: Seq<u8>, v: Seq<u8>| is_record(data@, k, v) implies false by {
                        lemma_record_fields(data@, k, v);
                    }
                    assert forall|kw: int, vw: int| !#[trigger] frame_ok(data@, kw, vw) by {
                        if frame_ok(data@, kw, vw) {
                            assert(has_u32_header(data@));
                            assert(has_u32_header(data@.subrange(kw, data@.len() as int)));
                        }
                    }
                }
                Err(EntryError::Corruption)
            },
        }
    }

    /// Reads the record at the start of `data`, where the caller knows one to
    /// stand.
    pub fn read(data: &'a [u8]) -> (r: Entry<'a>)
        requires
            exists|k: Seq<u8>, v: Seq<u8>| is_record(data@, k, v),
        ensures
            r.wf(),
            r.bytes() == data@,
            forall|k: Seq<u8>, v: Seq<u8>|
                is_record(data@, k, v) ==> r@ == (k, v) && r.header_widths() == (
                    varint_len(k.len()),
                    varint_len(v.len()),
                ),
    {
        match Entry::from_slice(data) {
            Ok(e) => e,
            Err(_) => {
                proof {
                    let (k, v) = choose|k: Seq<u8>, v: Seq<u8>| is_record(data@, k, v);
                    assert(is_record(data@, k, v));
                }
                Entry { data, key_size: 0, key_width: 1, value_size: 0, value_width: 1 }
            },
        }
    }

    /// The key length and the width of its header.
    pub fn key_len(&self) -> (r: (u32, usize))
        requires
            self.wf(),
        ensures
            r.0 == self@.0.len(),
            r.1 == self.header_widths().0,
    {
        (self.key_size, self.key_width)
    }

    /// The value length and the width of its header.
    pub fn value_len(&self) -> (r: (u32, usize))
        requires
            self.wf(),
        ensures
            r.0 == self@.1.len(),
            r.1 == self.header_widths().1,
    {
        (self.value_size, self.value_width)
    }

    /// The key bytes, in place.
    pub fn key(&self) -> (r: &'a [u8])
        requires
            self.wf(),
        ensures
            r@ == self@.0,
    {
        let start = self.key_width + self.value_width;
        slice_subrange(self.data, start, start + self.key_size as usize)
    }

    /// The value bytes, in place.
    pub fn value(&self) -> (r: &'a [u8])
        requires
            self.wf(),
        ensures
            r@ == self@.1,
    {
        let start = self.key_width + self.value_width + self.key_size as usize;
        slice_subrange(self.data, start, start + self.value_size as usize)
    }

    /// Total number of bytes that the record occupies.
    pub fn len(&self) -> (r: u32)
        requires
            self.wf(),
        ensures
            r == self.header_widths().0 + self.header_widths().1 + self@.0.len() + self@.1.len(),
    {
        (self.key_width as u32) + (self.value_width as u32) + self.key_size + self.value_size
    }
}

} // verus!
