//! The page: a fixed-capacity byte region that holds records in insertion
//! order from its start and, from its end downwards, a sparse index of the
//! offsets of every `SNAPSHOT_FREQUENCY`-th record.
use crate::entry::{is_record, record_bytes, record_len, Entry};
use crate::varint::{starts_with, varint_len, varint_width};
use std::cmp::Ordering;
use vstd::prelude::*;
use vstd::slice::slice_subrange;

verus! {

/// One index snapshot is saved for every this many records.
pub const SNAPSHOT_FREQUENCY: u32 = 10;

/// Bytes of the page header: the record count and the write offset, each a
/// little-endian `u32`.
pub const HEADER_SIZE: usize = 8;

/// Bytes of one snapshot: a little-endian `u32` offset.
pub const SNAPSHOT_SIZE: usize = 4;

/// The little-endian bytes of `x`.
pub open spec fn le_bytes(x: u32) -> Seq<u8> {
    seq![(x & 0xff) as u8, ((x >> 8u32) & 0xff) as u8, ((x >> 16u32) & 0xff) as u8, ((x >> 24u32) & 0xff) as u8]
}

/// The records of `es`, one after the other.
pub open spec fn records_bytes(es: Seq<(Seq<u8>, Seq<u8>)>) -> Seq<u8>
    decreases es.len(),
{
    if es.len() == 0 {
        Seq::empty()
    } else {
        records_bytes(es.drop_last()) + record_bytes(es.last().0, es.last().1)
    }
}

/// Offset at which record `i` of `es` starts.
pub open spec fn record_start(es: Seq<(Seq<u8>, Seq<u8>)>, i: int) -> int {
    records_bytes(es.take(i)).len() as int
}

/// Why an insert was refused.
#[derive(Debug, PartialEq, Eq, Structural)]
pub enum BlockError {
    /// The record, with the snapshot it may bring, does not fit in the space
    /// left between the records and the snapshots.
    FullBlock,
}

/// The bytes of snapshot `j` in the buffer `d`: four bytes, the first
/// snapshot at the very end and each later one just below the one before.
pub open spec fn snapshot_slot(d: Seq<u8>, j: int) -> Seq<u8> {
    d.subrange(d.len() - SNAPSHOT_SIZE * (j + 1), d.len() - SNAPSHOT_SIZE * j)
}

/// Whether `cmp`, given a key equal to `key`, may answer `o`.
pub open spec fn says<F: Fn(&[u8]) -> Ordering>(cmp: F, key: Seq<u8>, o: Ordering) -> bool {
    exists|k: &[u8]| #[trigger] cmp.ensures((k,), o) && k@ == key
}

/// The order between keys, for callers that compare records by a rule of
/// their own.
pub trait EntryOrd<Rhs: ?Sized = Self> {
    /// How `self` stands to `other`.
    fn cmp(&self, other: &Rhs) -> Ordering;

    /// Whether `self` comes before `other`.
    fn lt(&self, other: &Rhs) -> bool {
        match self.cmp(other) {
            Ordering::Less => true,
            _ => false,
        }
    }
}

/// A record container over a buffer of fixed length.
pub struct Block {
    size: u32,
    offset: u32,
    data: Vec<u8>,
    entries: Ghost<Seq<(Seq<u8>, Seq<u8>)>>,
    initial: Ghost<Seq<u8>>,
}

/// Writes the little-endian bytes of `x` at `at`, leaving every other byte as
/// it was.
fn write_u32_le(buf: &mut Vec<u8>, at: usize, x: u32)
    requires
        at + 4 <= old(buf)@.len(),
    ensures
        final(buf)@.len() == old(buf)@.len(),
        final(buf)@.subrange(at as int, at + 4) == le_bytes(x),
        forall|i: int|
            0 <= i < old(buf)@.len() && !(at <= i < at + 4) ==> final(buf)@[i] == old(buf)@[i],
{
    let _ = buf.len();
    assert((x & 0xff) <= 0xff && ((x >> 8u32) & 0xff) <= 0xff && ((x >> 16u32) & 0xff) <= 0xff
        && ((x >> 24u32) & 0xff) <= 0xff) by (bit_vector);
    buf.set(at, (x & 0xff) as u8);
    buf.set(at + 1, ((x >> 8u32) & 0xff) as u8);
    buf.set(at + 2, ((x >> 16u32) & 0xff) as u8);
    buf.set(at + 3, ((x >> 24u32) & 0xff) as u8);
    assert(buf@.subrange(at as int, at + 4) =~= le_bytes(x));
}

/// Reads the little-endian `u32` at `at`.
fn read_u32_le(buf: &Vec<u8>, at: usize) -> (r: u32)
    requires
        at + 4 <= buf@.len(),
    ensures
        forall|x: u32| buf@.subrange(at as int, at + 4) == le_bytes(x) ==> r == x,
{
    let _ = buf.len();
    let b0 = buf[at] as u32;
    let b1 = buf[at + 1] as u32;
    let b2 = buf[at + 2] as u32;
    let b3 = buf[at + 3] as u32;
    let r = b0 | (b1 << 8u32) | (b2 << 16u32) | (b3 << 24u32);
    proof {
        assert forall|x: u32| buf@.subrange(at as int, at + 4) == le_bytes(x) implies r == x by {
            assert(buf@[at as int] == buf@.subrange(at as int, at + 4)[0]);
            assert(buf@[at + 1] == buf@.subrange(at as int, at + 4)[1]);
            assert(buf@[at + 2] == buf@.subrange(at as int, at + 4)[2]);
            assert(buf@[at + 3] == buf@.subrange(at as int, at + 4)[3]);
            lemma_le_round_trip(x);
        }
    }
    r
}

proof fn lemma_le_round_trip(x: u32)
    ensures
        ((x & 0xff) as u8 as u32) | ((((x >> 8u32) & 0xff) as u8 as u32) << 8u32) | ((((x
            >> 16u32) & 0xff) as u8 as u32) << 16u32) | ((((x >> 24u32) & 0xff) as u8 as u32)
            << 24u32) == x,
{
    assert(((x & 0xff) as u8 as u32) | ((((x >> 8u32) & 0xff) as u8 as u32) << 8u32) | ((((x
        >> 16u32) & 0xff) as u8 as u32) << 16u32) | ((((x >> 24u32) & 0xff) as u8 as u32)
        << 24u32) == x) by (bit_vector);
}

/// Appending a record appends its bytes.
proof fn lemma_records_push(es: Seq<(Seq<u8>, Seq<u8>)>, e: (Seq<u8>, Seq<u8>))
    ensures
        records_bytes(es.push(e)) == records_bytes(es) + record_bytes(e.0, e.1),
        forall|i: int| 0 <= i <= es.len() ==> record_start(es.push(e), i) == record_start(es, i),
{
    assert(es.push(e).drop_last() =~= es);
    assert forall|i: int| 0 <= i <= es.len() implies record_start(es.push(e), i)
        == record_start(es, i) by {
        assert(es.push(e).take(i) =~= es.take(i));
    }
}

/// The bytes of the first `i` records begin the bytes of all of them, and
/// record `i` follows them.
proof fn lemma_records_prefix(es: Seq<(Seq<u8>, Seq<u8>)>, i: int)
    requires
        0 <= i < es.len(),
    ensures
        starts_with(
            records_bytes(es).subrange(record_start(es, i), records_bytes(es).len() as int),
            record_bytes(es[i].0, es[i].1),
        ),
        record_start(es, i + 1) == record_start(es, i) + record_bytes(es[i].0, es[i].1).len(),
        record_start(es, i + 1) <= records_bytes(es).len(),
    decreases es.len(),
{
    let t = es.take(i + 1);
    assert(t.drop_last() =~= es.take(i));
    if i + 1 < es.len() {
        lemma_records_prefix(es.drop_last(), i);
        assert(es.drop_last().take(i) =~= es.take(i));
        assert(es.drop_last().take(i + 1) =~= es.take(i + 1));
        assert(es.drop_last()[i] == es[i]);
        let a = records_bytes(es.drop_last());
        let b = records_bytes(es);
        assert(b == a + record_bytes(es.last().0, es.last().1));
        let s = record_start(es, i);
        let r = record_bytes(es[i].0, es[i].1);
        let l = r.len() as int;
        assert(record_start(es.drop_last(), i) == s);
        assert(s + l <= a.len());
        assert(a.subrange(s, a.len() as int).subrange(0, l) == r);
        assert(a.subrange(s, a.len() as int).subrange(0, l) =~= a.subrange(s, s + l));
        assert(b.subrange(s, s + l) =~= a.subrange(s, s + l));
        assert(b.subrange(s, b.len() as int).subrange(0, l) =~= b.subrange(s, s + l));
        assert(b.len() >= a.len());
    } else {
        assert(t =~= es);
        assert(es.drop_last() =~= es.take(i));
        let s = record_start(es, i);
        let b = records_bytes(es);
        assert(b == records_bytes(es.take(i)) + record_bytes(es[i].0, es[i].1));
        let r = record_bytes(es[i].0, es[i].1);
        assert(b.subrange(s, b.len() as int) =~= r);
        assert(b.subrange(s, b.len() as int).subrange(0, r.len() as int) =~= r);
    }
}

impl Block {
    /// The records held, in insertion order, each as its key and value.
    pub closed spec fn entries(&self) -> Seq<(Seq<u8>, Seq<u8>)> {
        self.entries@
    }

    /// Bytes available to records and snapshots together.
    pub open spec fn capacity(&self) -> int {
        self.bytes().len() as int
    }

    /// The buffer as the page was created over it.
    pub closed spec fn initial_bytes(&self) -> Seq<u8> {
        self.initial@
    }

    /// The buffer: records from its start, snapshots from its end.
    pub closed spec fn bytes(&self) -> Seq<u8> {
        self.data@
    }

    /// The buffer, under the name the layout lemmas use.
    pub open spec fn region(&self) -> Seq<u8> {
        self.bytes()
    }

    /// Offset of the next free byte after the records.
    pub open spec fn write_offset_spec(&self) -> int {
        records_bytes(self.entries()).len() as int
    }

    /// Number of snapshots saved.
    pub open spec fn snapshot_count(&self) -> int {
        self.entries().len() as int / SNAPSHOT_FREQUENCY as int
    }

    /// Position in the region of snapshot `j`.
    pub open spec fn snapshot_pos(&self, j: int) -> int {
        self.capacity() - SNAPSHOT_SIZE * (j + 1)
    }

    /// The record that snapshot `j` points at.
    pub open spec fn snapshot_record(j: int) -> int {
        SNAPSHOT_FREQUENCY * (j + 1) - 1
    }

    /// Whether the next insert saves a snapshot.
    pub open spec fn adds_snapshot(&self) -> bool {
        (self.entries().len() + 1) as int % SNAPSHOT_FREQUENCY as int == 0
    }

    /// Where the snapshot of the next insert goes, if it saves one.
    pub open spec fn next_slot(&self) -> int {
        self.capacity() - SNAPSHOT_SIZE * ((self.entries().len() + 1) as int / SNAPSHOT_FREQUENCY as int)
    }

    /// What a successful insert of `key` and `value` does to the bytes of
    /// `old`: the record at the old write offset, its offset in the next
    /// snapshot slot where this insert saves one, every other byte as it was.
    pub open spec fn written_from(&self, old: &Block, key: Seq<u8>, value: Seq<u8>) -> bool {
        let wo = old.write_offset_spec();
        let rl = record_len(key, value) as int;
        &&& self.bytes().len() == old.bytes().len()
        &&& self.bytes().subrange(wo, wo + rl) == record_bytes(key, value)
        &&& old.adds_snapshot() ==> self.bytes().subrange(
            old.next_slot(),
            old.next_slot() + SNAPSHOT_SIZE,
        ) == le_bytes(wo as u32)
        &&& forall|i: int|
            0 <= i < old.bytes().len() && !(wo <= i < wo + rl) && !(old.adds_snapshot()
                && old.next_slot() <= i < old.next_slot() + SNAPSHOT_SIZE) ==> #[trigger] self.bytes()[i]
                == old.bytes()[i]
    }

    /// Whether inserting `key` and `value` leaves the records and the
    /// snapshots, the one that this insert may add included, apart.
    pub open spec fn fits(&self, key: Seq<u8>, value: Seq<u8>) -> bool {
        self.write_offset_spec() + record_len(key, value) + SNAPSHOT_SIZE * (
        (self.entries().len() + 1) as int / SNAPSHOT_FREQUENCY as int) <= self.capacity()
    }

    /// The layout holds: header, records from the start of the region, and
    /// the snapshots from its end.
    pub closed spec fn wf(&self) -> bool {
        let es = self.entries@;
        &&& self.data@.len() <= u32::MAX
        &&& es.len() == self.size
        &&& self.offset == records_bytes(es).len()
        &&& self.offset + SNAPSHOT_SIZE * self.snapshot_count() <= self.capacity()
        &&& self.data@.subrange(0, self.offset as int) == records_bytes(es)
        &&& self.initial@.len() == self.data@.len()
        &&& forall|i: int|
            self.offset <= i < self.capacity() - SNAPSHOT_SIZE * self.snapshot_count()
                ==> #[trigger] self.data@[i] == self.initial@[i]
        &&& forall|j: int|
            0 <= j < self.snapshot_count() ==> #[trigger] snapshot_slot(self.data@, j)
                == le_bytes(record_start(es, Block::snapshot_record(j)) as u32)
    }

    /// Whether a record starts at `offset`.
    pub open spec fn is_entry_start(&self, offset: int) -> bool {
        exists|i: int| 0 <= i < self.entries().len() && record_start(self.entries(), i) == offset
    }

    /// Creates an empty page over `block`, whose bytes take the records
    /// and the snapshots.
    pub fn new(block: Vec<u8>) -> (r: Block)
        requires
            block@.len() <= u32::MAX,
        ensures
            r.wf(),
            r.entries() == Seq::<(Seq<u8>, Seq<u8>)>::empty(),
            r.bytes() == block@,
            r.initial_bytes() == block@,
    {
        let r = Block {
            size: 0,
            offset: 0,
            data: block,
            entries: Ghost(Seq::empty()),
            initial: Ghost(block@),
        };
        assert(r.data@.subrange(0, 0) =~= records_bytes(r.entries@));
        r
    }

    /// Number of records held.
    pub fn entry_count(&self) -> (r: u32)
        requires
            self.wf(),
        ensures
            r == self.entries().len(),
    {
        self.size
    }

    /// Offset of the next free byte after the records.
    pub fn write_offset(&self) -> (r: u32)
        requires
            self.wf(),
        ensures
            r == self.write_offset_spec(),
    {
        self.offset
    }

    /// The buffer, as it would be written out after the header.
    pub fn as_bytes(&self) -> (r: &[u8])
        ensures
            r@ == self.bytes(),
    {
        self.data.as_slice()
    }

    /// The header as it would be written out before the buffer: the record
    /// count, then the write offset, each a little-endian `u32`.
    pub fn header_bytes(&self) -> (r: Vec<u8>)
        requires
            self.wf(),
        ensures
            r@ == le_bytes(self.entries().len() as u32) + le_bytes(self.write_offset_spec() as u32),
    {
        let mut r: Vec<u8> = vec![0u8; HEADER_SIZE];
        write_u32_le(&mut r, 0, self.size);
        let ghost r1 = r@;
        write_u32_le(&mut r, 4, self.offset);
        assert(r@ =~= le_bytes(self.size) + le_bytes(self.offset)) by {
            assert(r@.subrange(0, 4) =~= r1.subrange(0, 4));
        }
        r
    }

    proof fn lemma_entry_at(&self, i: int)
        requires
            self.wf(),
            0 <= i < self.entries().len(),
        ensures
            is_record(
                self.region().subrange(record_start(self.entries(), i), self.capacity()),
                self.entries()[i].0,
                self.entries()[i].1,
            ),
            record_start(self.entries(), i + 1) == record_start(self.entries(), i) + record_len(
                self.entries()[i].0,
                self.entries()[i].1,
            ),
            record_start(self.entries(), i + 1) <= self.write_offset_spec(),
            0 <= record_start(self.entries(), i),
    {
        let es = self.entries();
        lemma_records_prefix(es, i);
        let s = record_start(es, i);
        let e = es[i];
        let rb = record_bytes(e.0, e.1);
        let all = records_bytes(es);
        let reg = self.region();
        assert(rb.len() == record_len(e.0, e.1));
        assert(reg.subrange(s, self.capacity()).subrange(0, rb.len() as int) =~= all.subrange(
            s,
            all.len() as int,
        ).subrange(0, rb.len() as int)) by {
            assert forall|k: int| 0 <= k < rb.len() implies #[trigger] reg[s + k] == all[s + k] by {
                assert(self.data@.subrange(0, self.offset as int)[s + k] == reg[s + k]);
            }
        }
        assert(record_len(e.0, e.1) <= u32::MAX);
    }

    /// Writes the current write offset into the snapshot slot of the record
    /// count, leaving every other byte as it was.
    fn save_offset_snapshot(&mut self)
        requires
            old(self).data@.len() <= u32::MAX,
            1 <= old(self).size / SNAPSHOT_FREQUENCY,
            SNAPSHOT_SIZE * (old(self).size / SNAPSHOT_FREQUENCY) <= old(self).capacity(),
        ensures
            final(self).size == old(self).size,
            final(self).offset == old(self).offset,
            final(self).entries == old(self).entries,
            final(self).initial == old(self).initial,
            final(self).data@.len() == old(self).data@.len(),
            ({
                let at = old(self).snapshot_pos(old(self).size / SNAPSHOT_FREQUENCY - 1);
                &&& final(self).data@.subrange(at, at + SNAPSHOT_SIZE) == le_bytes(old(self).offset)
                &&& forall|i: int|
                    0 <= i < old(self).data@.len() && !(at <= i < at + SNAPSHOT_SIZE)
                        ==> final(self).data@[i] == old(self).data@[i]
            }),
    {
        let cap = self.data.len();
        let count = (self.size / SNAPSHOT_FREQUENCY) as usize;
        let at = cap - count * SNAPSHOT_SIZE;
        write_u32_le(&mut self.data, at, self.offset);
    }

    /// Appends the record of `key` and `value` and returns the offset at
    /// which it starts. Every `SNAPSHOT_FREQUENCY`-th record also has its
    /// offset saved as a snapshot. Where the record and that snapshot do not
    /// fit, fails with `FullBlock` and changes nothing. Keys are expected in
    /// non-decreasing order across calls; that is not checked.
    pub fn insert(&mut self, key: &[u8], value: &[u8]) -> (r: Result<u32, BlockError>)
        requires
            old(self).wf(),
        ensures
            final(self).wf(),
            final(self).capacity() == old(self).capacity(),
            final(self).initial_bytes() == old(self).initial_bytes(),
            old(self).fits(key@, value@) ==> {
                &&& r == Ok::<u32, BlockError>(old(self).write_offset_spec() as u32)
                &&& final(self).entries() == old(self).entries().push((key@, value@))
                &&& final(self).written_from(old(self), key@, value@)
            },
            !old(self).fits(key@, value@) ==> {
                &&& r == Err::<u32, BlockError>(BlockError::FullBlock)
                &&& *final(self) == *old(self)
            },
    {
        let ghost es0 = self.entries@;
        let ghost d0 = self.data@;
        let cap = self.data.len();
        let used = self.offset as usize + (self.size / SNAPSHOT_FREQUENCY) as usize * SNAPSHOT_SIZE;
        let free = cap - used;
        if key.len() > free || value.len() > free {
            return Err(BlockError::FullBlock);
        }
        let key_width = varint_width(key.len() as u32);
        let value_width = varint_width(value.len() as u32);
        proof {
            crate::varint::lemma_varint_len_u32(key@.len());
            crate::varint::lemma_varint_len_u32(value@.len());
            crate::varint::lemma_varint_nonempty(key@.len());
            lemma_record_start_ge(es0, es0.len() as int);
            assert(es0.take(es0.len() as int) =~= es0);
        }
        let entry_size: u64 = key_width as u64 + value_width as u64 + key.len() as u64
            + value.len() as u64;
        if entry_size > free as u64 {
            return Err(BlockError::FullBlock);
        }
        let new_size = self.size + 1;
        let new_count: u64 = (new_size / SNAPSHOT_FREQUENCY) as u64;
        assert(new_count <= 0xffff_ffff);
        let snapshot_bytes: u64 = new_count * 4;
        if self.offset as u64 + entry_size + snapshot_bytes > cap as u64 {
            return Err(BlockError::FullBlock);
        }
        Ok(self.append(key, value))
    }

    /// Writes a record that fits, its snapshot and the new header.
    fn append(&mut self, key: &[u8], value: &[u8]) -> (r: u32)
        requires
            old(self).wf(),
            old(self).fits(key@, value@),
        ensures
            final(self).wf(),
            final(self).capacity() == old(self).capacity(),
            r == old(self).write_offset_spec(),
            final(self).entries() == old(self).entries().push((key@, value@)),
            final(self).written_from(old(self), key@, value@),
            final(self).initial_bytes() == old(self).initial_bytes(),
    {
        let ghost es0 = self.entries@;
        let ghost d0 = self.data@;
        let ghost cap = self.capacity();
        proof {
            lemma_record_start_ge(es0, es0.len() as int);
            assert(es0.take(es0.len() as int) =~= es0);
            lemma_record_fields_len(key@, value@);
        }
        let _ = self.data.len();
        let at = self.offset;
        let new_size = self.size + 1;
        let written = Entry::create(&mut self.data, at as usize, key, value);
        let ghost d1 = self.data@;
        self.size = new_size;
        self.entries = Ghost(es0.push((key@, value@)));
        if new_size % SNAPSHOT_FREQUENCY == 0 {
            self.save_offset_snapshot();
        }
        let ghost d2 = self.data@;
        self.offset = at + written as u32;
        proof {
            let slot = cap - SNAPSHOT_SIZE * ((es0.len() + 1) / 10);
            let fresh = (es0.len() + 1) % 10 == 0;
            if fresh {
                assert(d2.subrange(slot, slot + SNAPSHOT_SIZE) =~= self.data@.subrange(slot, slot + SNAPSHOT_SIZE));
            }
            lemma_insert_layout(es0, (key@, value@), d0, d1, d2, cap, at as int);
            let rl = record_len(key@, value@) as int;
            let wo = at as int;
            assert(d1.subrange(wo, wo + rl) =~= record_bytes(key@, value@));
            assert(d2.subrange(wo, wo + rl) =~= d1.subrange(wo, wo + rl)) by {
                assert forall|k: int| 0 <= k < rl implies #[trigger] d2.subrange(wo, wo + rl)[k] == d1.subrange(wo, wo + rl)[k] by {
                    assert(d2[wo + k] == d1[wo + k]);
                }
            }
            assert forall|i: int|
                0 <= i < d0.len() && !(wo <= i < wo + rl) && !(fresh && slot <= i < slot + SNAPSHOT_SIZE)
                    implies #[trigger] d2[i] == d0[i] by {
                assert(d2[i] == d1[i]);
            }
            assert forall|i: int|
                self.offset <= i < self.capacity() - SNAPSHOT_SIZE * self.snapshot_count()
                    implies #[trigger] self.data@[i] == self.initial@[i] by {
                assert(d2[i] == d0[i]);
                assert(old(self).snapshot_count() <= self.snapshot_count());
                assert(old(self).offset <= i);
                assert(old(self).data@[i] == old(self).initial@[i]);
            }
        }
        at
    }

    /// The record that starts at `offset`.
    pub fn get_at_offset(&self, offset: u32) -> (r: Entry<'_>)
        requires
            self.wf(),
            self.is_entry_start(offset as int),
        ensures
            r.wf(),
            r.bytes() == self.bytes().subrange(offset as int, self.capacity()),
            forall|i: int|
                0 <= i < self.entries().len() && record_start(self.entries(), i) == offset
                    ==> r@ == self.entries()[i] && r.header_widths() == (
                    varint_len(self.entries()[i].0.len()),
                    varint_len(self.entries()[i].1.len()),
                ),
    {
        let ghost i = choose|i: int|
            0 <= i < self.entries().len() && record_start(self.entries(), i) == offset;
        proof {
            self.lemma_entry_at(i);
            assert forall|i2: int|
                0 <= i2 < self.entries().len() && record_start(self.entries(), i2)
                    == offset implies i2 == i by {
                if i2 < i {
                    lemma_record_start_strict(self.entries(), i2, i);
                } else if i < i2 {
                    lemma_record_start_strict(self.entries(), i, i2);
                }
            }
        }
        let len = self.data.len();
        let slice = slice_subrange(self.data.as_slice(), offset as usize, len);
        assert(slice@ =~= self.region().subrange(offset as int, self.capacity()));
        Entry::read(slice)
    }

    /// The offset saved in snapshot `index`: where record
    /// `SNAPSHOT_FREQUENCY * (index + 1) - 1` starts.
    pub fn read_offset_snapshot(&self, index: usize) -> (r: u32)
        requires
            self.wf(),
            index < self.snapshot_count(),
        ensures
            r == record_start(self.entries(), Block::snapshot_record(index as int)),
    {
        let ghost j = index as int;
        let cap = self.data.len();
        let at = cap - (index + 1) * SNAPSHOT_SIZE;
        let r = read_u32_le(&self.data, at);
        proof {
            let es = self.entries();
            let k = Block::snapshot_record(j);
            assert(snapshot_slot(self.data@, j) == le_bytes(
                record_start(es, Block::snapshot_record(j)) as u32,
            ));
            self.lemma_entry_at(k);
            lemma_record_start_mono(es, k + 1, es.len() as int);
        }
        r
    }
}

/// The bytes after an insert: the new record after the old ones, the old
/// snapshots in place, and, every `SNAPSHOT_FREQUENCY`-th record, a new
/// snapshot below them that holds where the new record starts.
proof fn lemma_insert_layout(
    es0: Seq<(Seq<u8>, Seq<u8>)>,
    e: (Seq<u8>, Seq<u8>),
    d0: Seq<u8>,
    d1: Seq<u8>,
    d3: Seq<u8>,
    cap: int,
    at: int,
)
    requires
        d0.len() == cap,
        at == records_bytes(es0).len(),
        at + record_len(e.0, e.1) + SNAPSHOT_SIZE * ((es0.len() + 1) / 10) <= cap,
        d0.subrange(0, at) == records_bytes(es0),
        forall|j: int|
            0 <= j < es0.len() / 10 ==> #[trigger] snapshot_slot(d0, j) == le_bytes(record_start(es0, Block::snapshot_record(j)) as u32),
        record_len(e.0, e.1) <= u32::MAX,
        d1 == d0.subrange(0, at) + record_bytes(e.0, e.1) + d0.subrange(
            at + record_len(e.0, e.1),
            d0.len() as int,
        ),
        d3.len() == d1.len(),
        ({
            let slot = cap - SNAPSHOT_SIZE * ((es0.len() + 1) / 10);
            let fresh = (es0.len() + 1) % 10 == 0;
            &&& forall|i: int|
                0 <= i < d1.len() && !(fresh && slot <= i < slot + SNAPSHOT_SIZE)
                    ==> #[trigger] d3[i] == d1[i]
            &&& fresh ==> d3.subrange(slot, slot + SNAPSHOT_SIZE) == le_bytes(at as u32)
        }),
    ensures
        ({
            let es = es0.push(e);
            &&& d3.subrange(0, at + record_len(e.0, e.1))
                == records_bytes(es)
            &&& forall|j: int|
                0 <= j < es.len() / 10 ==> #[trigger] snapshot_slot(d3, j) == le_bytes(record_start(es, Block::snapshot_record(j)) as u32)
        }),
{
    let es = es0.push(e);
    let rb = record_bytes(e.0, e.1);
    let h = 0int;
    let l = record_len(e.0, e.1) as int;
    let oc = es0.len() as int / 10;
    let nc = es.len() as int / 10;
    lemma_records_push(es0, e);
    lemma_record_fields_len(e.0, e.1);
    assert(d3.subrange(h, h + at + l) =~= records_bytes(es)) by {
        assert forall|k: int| 0 <= k < at + l implies #[trigger] d3.subrange(h, h + at + l)[k]
            == records_bytes(es)[k] by {
            assert(d3[h + k] == d1[h + k]);
            if k < at {
                assert(d0.subrange(h, h + at)[k] == d0[h + k]);
            }
        }
    }
    assert forall|j: int| 0 <= j < nc implies #[trigger] snapshot_slot(d3, j) == le_bytes(record_start(es, Block::snapshot_record(j)) as u32) by {
        let p = h + cap - SNAPSHOT_SIZE * (j + 1);
        if j < oc {
            assert(snapshot_slot(d3, j) =~= snapshot_slot(d0, j)) by {
                assert forall|k: int| 0 <= k < 4 implies #[trigger] snapshot_slot(d3, j)[k]
                    == snapshot_slot(d0, j)[k] by {
                    assert(d3[p + k] == d1[p + k]);
                    assert(d1[p + k] == d0[p + k]);
                }
            }
        } else {
            assert(es.take(es0.len() as int) =~= es0);
            assert(es0.take(es0.len() as int) =~= es0);
            assert(snapshot_slot(d3, j) == d3.subrange(p, p + SNAPSHOT_SIZE));
        }
    }
}

/// The length of the bytes of a record.
proof fn lemma_record_fields_len(key: Seq<u8>, value: Seq<u8>)
    ensures
        record_bytes(key, value).len() == record_len(key, value),
{
}

/// A record takes at least one byte.
proof fn lemma_record_start_ge(es: Seq<(Seq<u8>, Seq<u8>)>, i: int)
    requires
        0 <= i <= es.len(),
    ensures
        i <= record_start(es, i),
    decreases i,
{
    if i > 0 {
        lemma_record_start_ge(es, i - 1);
        lemma_record_start_strict(es, i - 1, i);
    }
}

/// Record starts grow strictly with the index.
proof fn lemma_record_start_strict(es: Seq<(Seq<u8>, Seq<u8>)>, i: int, j: int)
    requires
        0 <= i < j <= es.len(),
    ensures
        record_start(es, i) < record_start(es, j),
{
    lemma_records_prefix(es, i);
    crate::varint::lemma_varint_nonempty(es[i].0.len());
    assert(record_bytes(es[i].0, es[i].1).len() >= 1);
    lemma_record_start_mono(es, i + 1, j);
}

/// Record starts grow with the index.
proof fn lemma_record_start_mono(es: Seq<(Seq<u8>, Seq<u8>)>, i: int, j: int)
    requires
        0 <= i <= j <= es.len(),
    ensures
        record_start(es, i) <= record_start(es, j),
    decreases j - i,
{
    if i < j {
        lemma_records_prefix(es, j - 1);
        lemma_record_start_mono(es, i, j - 1);
    }
}

/// A cursor over the records of a page, in storage order.
pub struct BlockIterator<'a> {
    idx: u32,
    offset: u32,
    block: &'a Block,
}

impl<'a> BlockIterator<'a> {
    /// The cursor stands before record `idx`, at its offset.
    pub closed spec fn wf(&self) -> bool {
        &&& self.block.wf()
        &&& self.idx <= self.block.entries().len()
        &&& self.offset == record_start(self.block.entries(), self.idx as int)
    }

    /// The page walked over.
    pub closed spec fn block(&self) -> &'a Block {
        self.block
    }

    /// Offset of the next record.
    pub closed spec fn cursor(&self) -> int {
        self.offset as int
    }

    /// How many records were handed out so far.
    pub closed spec fn position(&self) -> int {
        self.idx as int
    }

    /// The next record, or `None` once all `entry_count` records were handed
    /// out.
    pub fn next(&mut self) -> (r: Option<Entry<'a>>)
        requires
            old(self).wf(),
        ensures
            final(self).wf(),
            final(self).block() == old(self).block(),
            final(self).cursor() == record_start(final(self).block().entries(), final(self).position()),
            old(self).position() < old(self).block().entries().len() ==> {
                &&& r is Some
                &&& r->Some_0.wf()
                &&& r->Some_0@ == old(self).block().entries()[old(self).position()]
                &&& r->Some_0.header_widths() == (
                    varint_len(old(self).block().entries()[old(self).position()].0.len()),
                    varint_len(old(self).block().entries()[old(self).position()].1.len()),
                )
                &&& r->Some_0.bytes() == old(self).block().bytes().subrange(
                    old(self).cursor(),
                    old(self).block().capacity(),
                )
                &&& final(self).position() == old(self).position() + 1
            },
            old(self).position() >= old(self).block().entries().len() ==> {
                &&& r is None
                &&& final(self).position() == old(self).position()
            },
    {
        if self.idx >= self.block.size {
            None
        } else {
            let ghost i = self.idx as int;
            proof {
                self.block.lemma_entry_at(i);
            }
            let entry = self.block.get_at_offset(self.offset);
            let l = entry.len();
            self.offset = self.offset + l;
            self.idx = self.idx + 1;
            Some(entry)
        }
    }
}

impl Block {
    /// A fresh cursor at the first record.
    pub fn into_iter(&self) -> (r: BlockIterator<'_>)
        requires
            self.wf(),
        ensures
            r.wf(),
            r.block() == self,
            r.position() == 0,
            r.cursor() == 0,
    {
        proof {
            assert(self.entries().take(0) =~= Seq::<(Seq<u8>, Seq<u8>)>::empty());
        }
        BlockIterator { idx: 0, offset: 0, block: self }
    }

    /// Record `index`, reached by walking the records from the first.
    pub fn index(&self, index: u32) -> (r: Entry<'_>)
        requires
            self.wf(),
            index < self.entries().len(),
        ensures
            r.wf(),
            r@ == self.entries()[index as int],
            r.header_widths() == (
                varint_len(self.entries()[index as int].0.len()),
                varint_len(self.entries()[index as int].1.len()),
            ),
            r.bytes() == self.bytes().subrange(
                record_start(self.entries(), index as int),
                self.capacity(),
            ),
    {
        let mut it = self.into_iter();
        let mut i: u32 = 0;
        while i < index
            invariant
                it.wf(),
                it.block() == self,
                it.position() == i,
                it.cursor() == record_start(self.entries(), i as int),
                i <= index,
                index < self.entries().len(),
            decreases index - i,
        {
            let _ = it.next();
            i = i + 1;
        }
        match it.next() {
            Some(e) => e,
            None => {
                proof {
                    assert(false);
                }
                self.get_at_offset(0)
            },
        }
    }
}

impl Block {
    /// The key of the record that snapshot `j` points at.
    pub open spec fn snapshot_key(&self, j: int) -> Seq<u8> {
        self.entries()[Block::snapshot_record(j)].0
    }

    /// The offset that snapshot `j` holds.
    pub open spec fn snapshot_offset(&self, j: int) -> int {
        record_start(self.entries(), Block::snapshot_record(j))
    }

    /// What a search with `cmp` may return: the offset of a snapshot whose
    /// key `cmp` finds equal to the target, or of one whose key it finds
    /// below the target while it finds the next snapshot's key above it (or
    /// there is no next snapshot); 0 where there is no snapshot or the first
    /// snapshot's key lies above the target.
    pub open spec fn search_result<F: Fn(&[u8]) -> Ordering>(&self, cmp: F, r: int) -> bool {
        let n = self.snapshot_count();
        ||| r == 0 && (n == 0 || says(cmp, self.snapshot_key(0), Ordering::Greater))
        ||| exists|j: int|
            0 <= j < n && r == self.snapshot_offset(j) && (says(
                cmp,
                self.snapshot_key(j),
                Ordering::Equal,
            ) || (says(cmp, self.snapshot_key(j), Ordering::Less) && (j + 1 == n || says(
                cmp,
                self.snapshot_key(j + 1),
                Ordering::Greater,
            ))))
    }

    /// Binary search over the snapshots with `cmp`, which tells how a key
    /// stands to the target: returns the offset of the closest snapshot whose
    /// record is not above the target (see `search_result`). The exact record
    /// lies at most `SNAPSHOT_FREQUENCY` records further on.
    #[verifier::rlimit(30)]
    pub fn binary_search<F: Fn(&[u8]) -> Ordering>(&self, cmp: F) -> (r: u32)
        requires
            self.wf(),
            forall|k: &[u8]| cmp.requires((k,)),
        ensures
            self.search_result(cmp, r as int),
    {
        let ghost n = self.snapshot_count();
        let mut left: usize = 0;
        let mut right: usize = (self.size / SNAPSHOT_FREQUENCY) as usize;
        while left < right
            invariant
                self.wf(),
                forall|k: &[u8]| cmp.requires((k,)),
                n == self.snapshot_count(),
                left <= right <= n,
                left == 0 || says(cmp, self.snapshot_key(left - 1), Ordering::Less),
                right == n || says(cmp, self.snapshot_key(right as int), Ordering::Greater),
            decreases right - left,
        {
            let mid = left + (right - left) / 2;
            let offset = self.read_offset_snapshot(mid);
            proof {
                let k = Block::snapshot_record(mid as int);
                assert(0 <= k < self.entries().len()) by (nonlinear_arith)
                    requires
                        k == 10 * (mid + 1) - 1,
                        mid < n,
                        n == self.entries().len() / 10,
                ;
            }
            let ghost k = Block::snapshot_record(mid as int);
            assert(self.is_entry_start(offset as int));
            let entry = self.get_at_offset(offset);
            assert(entry@ == self.entries()[k]);
            let key = entry.key();
            let order = cmp(key);
            assert(says(cmp, self.snapshot_key(mid as int), order));
            match order {
                Ordering::Greater => {
                    right = mid;
                },
                Ordering::Less => {
                    left = mid + 1;
                },
                Ordering::Equal => {
                    assert(offset == self.snapshot_offset(mid as int));
                    return offset;
                },
            }
        }
        if left == 0 {
            0
        } else {
            let r = self.read_offset_snapshot(left - 1);
            assert(r == self.snapshot_offset(left - 1));
            r
        }
    }
}

/// In a page, the bytes from the start up to the write offset are the
/// records, one after the other, as `record_bytes` lays each out.
pub proof fn lemma_records_layout(b: &Block)
    requires
        b.wf(),
    ensures
        b.bytes().subrange(0, b.write_offset_spec()) == records_bytes(b.entries()),
        forall|i: int|
            0 <= i < b.entries().len() ==> starts_with(
                b.bytes().subrange(record_start(b.entries(), i), b.capacity()),
                #[trigger] record_bytes(b.entries()[i].0, b.entries()[i].1),
            ),
{
    assert forall|i: int| 0 <= i < b.entries().len() implies starts_with(
        b.bytes().subrange(record_start(b.entries(), i), b.capacity()),
        #[trigger] record_bytes(b.entries()[i].0, b.entries()[i].1),
    ) by {
        b.lemma_entry_at(i);
    }
}

/// The free bytes of a page, between its records and its snapshots, are
/// those it was created over: inserts write the records and the snapshots
/// and nothing else.
pub proof fn lemma_gap_untouched(b: &Block)
    requires
        b.wf(),
    ensures
        forall|i: int|
            b.write_offset_spec() <= i < b.capacity() - SNAPSHOT_SIZE * b.snapshot_count()
                ==> #[trigger] b.bytes()[i] == b.initial_bytes()[i],
{
}

/// A page with `N` records holds `N / SNAPSHOT_FREQUENCY` snapshots, clear of
/// the records, and snapshot `j` holds where record
/// `SNAPSHOT_FREQUENCY * (j + 1) - 1` starts.
pub proof fn lemma_snapshot_cadence(b: &Block)
    requires
        b.wf(),
    ensures
        b.snapshot_count() == b.entries().len() as int / SNAPSHOT_FREQUENCY as int,
        b.write_offset_spec() + SNAPSHOT_SIZE * b.snapshot_count() <= b.capacity(),
        forall|j: int|
            0 <= j < b.snapshot_count() ==> #[trigger] snapshot_slot(b.bytes(), j) == le_bytes(
                record_start(b.entries(), SNAPSHOT_FREQUENCY * (j + 1) - 1) as u32,
            ),
{
}

/// Where the records' keys ascend and `cmp` answers `Less` for the records
/// before record `t`, `Equal` for record `t` and `Greater` after it, every
/// result that `binary_search` may give is the offset of a record at or
/// before record `t`, fewer than `SNAPSHOT_FREQUENCY` records before it.
pub proof fn lemma_binary_search_brackets<F: Fn(&[u8]) -> Ordering>(
    b: &Block,
    cmp: F,
    t: int,
    r: int,
)
    requires
        b.wf(),
        0 <= t < b.entries().len(),
        forall|i: int, o: Ordering|
            0 <= i < b.entries().len() && #[trigger] says(cmp, b.entries()[i].0, o) ==> o == (
            if i < t {
                Ordering::Less
            } else if i == t {
                Ordering::Equal
            } else {
                Ordering::Greater
            }),
        b.search_result(cmp, r),
    ensures
        exists|s: int|
            0 <= s <= t < s + SNAPSHOT_FREQUENCY && r == record_start(b.entries(), s),
        r <= record_start(b.entries(), t),
{
    let es = b.entries();
    let n = b.snapshot_count();
    assert(es.take(0) =~= Seq::<(Seq<u8>, Seq<u8>)>::empty());
    let s = if r == 0 && (n == 0 || says(cmp, b.snapshot_key(0), Ordering::Greater)) {
        if n > 0 {
            assert(9 < es.len());
        }
        0
    } else {
        let j = choose|j: int|
            0 <= j < n && r == b.snapshot_offset(j) && (says(
                cmp,
                b.snapshot_key(j),
                Ordering::Equal,
            ) || (says(cmp, b.snapshot_key(j), Ordering::Less) && (j + 1 == n || says(
                cmp,
                b.snapshot_key(j + 1),
                Ordering::Greater,
            ))));
        assert(10 * j + 9 < es.len());
        if j + 1 < n {
            assert(10 * j + 19 < es.len());
        }
        10 * j + 9
    };
    assert(0 <= s <= t < s + SNAPSHOT_FREQUENCY && r == record_start(es, s));
    lemma_record_start_mono(es, s, t);
}

} // verus!
