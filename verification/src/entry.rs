//! The 128-byte archive entry: empty slot, directory, or file.
//!
//! Names are held in their on-disk EUC-KR encoding and validated when an
//! entry is built, so encoding and decoding an entry is pure byte logic.
//! An entry read back from its own encoding is the entry again, except that
//! an empty slot drops its stored link, as the format prescribes.

use vstd::prelude::*;

use crate::codec::{
    push_u16_le, push_u32_le, push_u64_le, read_u32_le, read_u64_le, read_bytes, append_bytes,
    append_zeros, u16_le, u32_le, u64_le, u32_of_le, u64_of_le, lemma_u32_le_roundtrip,
    lemma_u64_le_roundtrip,
};
use crate::euckr::{decode_name, encode_name, euc_kr_bytes, euc_kr_str};
use crate::{ChainIndex, Error, FileTime};

verus! {

/// One slot of an index block.
pub enum PackEntry {
    /// A free (or tombstoned) slot. `next_block` of 0 means no link.
    Empty { next_block: u64 },
    /// A directory whose own chain starts at `pos_children`.
    Directory {
        name: Vec<u8>,
        access_time: FileTime,
        create_time: FileTime,
        modify_time: FileTime,
        pos_children: ChainIndex,
        next_block: u64,
    },
    /// A file whose payload is the `size` bytes at `pos_data`.
    File {
        name: Vec<u8>,
        access_time: FileTime,
        create_time: FileTime,
        modify_time: FileTime,
        pos_data: u64,
        size: u32,
        next_block: u64,
    },
}

/// The mathematical value of an entry: the name as its byte sequence.
#[verifier::ext_equal]
pub ghost enum EntryView {
    Empty { next_block: u64 },
    Directory {
        name: Seq<u8>,
        access_time: FileTime,
        create_time: FileTime,
        modify_time: FileTime,
        pos_children: u64,
        next_block: u64,
    },
    File {
        name: Seq<u8>,
        access_time: FileTime,
        create_time: FileTime,
        modify_time: FileTime,
        pos_data: u64,
        size: u32,
        next_block: u64,
    },
}

impl View for PackEntry {
    type V = EntryView;

    open spec fn view(&self) -> EntryView {
        match self {
            PackEntry::Empty { next_block } => EntryView::Empty { next_block: *next_block },
            PackEntry::Directory {
                name,
                access_time,
                create_time,
                modify_time,
                pos_children,
                next_block,
            } => EntryView::Directory {
                name: name@,
                access_time: *access_time,
                create_time: *create_time,
                modify_time: *modify_time,
                pos_children: pos_children.0,
                next_block: *next_block,
            },
            PackEntry::File {
                name,
                access_time,
                create_time,
                modify_time,
                pos_data,
                size,
                next_block,
            } => EntryView::File {
                name: name@,
                access_time: *access_time,
                create_time: *create_time,
                modify_time: *modify_time,
                pos_data: *pos_data,
                size: *size,
                next_block: *next_block,
            },
        }
    }
}

/// The block link carried by an entry; 0 means none.
pub open spec fn entry_next(v: EntryView) -> u64 {
    match v {
        EntryView::Empty { next_block } => next_block,
        EntryView::Directory { next_block, .. } => next_block,
        EntryView::File { next_block, .. } => next_block,
    }
}

/// `v` with its link replaced; an empty slot keeps its stored link.
pub open spec fn with_next(v: EntryView, nc: u64) -> EntryView {
    match v {
        EntryView::Empty { next_block } => EntryView::Empty { next_block },
        EntryView::Directory {
            name,
            access_time,
            create_time,
            modify_time,
            pos_children,
            next_block,
        } => EntryView::Directory {
            name,
            access_time,
            create_time,
            modify_time,
            pos_children,
            next_block: nc,
        },
        EntryView::File {
            name,
            access_time,
            create_time,
            modify_time,
            pos_data,
            size,
            next_block,
        } => EntryView::File {
            name,
            access_time,
            create_time,
            modify_time,
            pos_data,
            size,
            next_block: nc,
        },
    }
}

/// The encoded name bytes of an entry; empty for a free slot.
pub open spec fn entry_name_raw(v: EntryView) -> Seq<u8> {
    match v {
        EntryView::Empty { .. } => Seq::<u8>::empty(),
        EntryView::Directory { name, .. } => name,
        EntryView::File { name, .. } => name,
    }
}

/// A name the on-disk format can carry: it fits the 81-byte field and has
/// no NUL byte, since NUL terminates the field.
pub open spec fn name_wf(n: Seq<u8>) -> bool {
    n.len() <= 81 && (forall|i: int| 0 <= i < n.len() ==> n[i] != 0)
}

/// Validity of an entry: its name can be written back.
pub open spec fn entry_wf(v: EntryView) -> bool {
    name_wf(entry_name_raw(v))
}

/// Whether `v` is a named entry (directory or file) carrying exactly `n`.
pub open spec fn has_name(v: EntryView, n: Seq<u8>) -> bool {
    !(v is Empty) && entry_name_raw(v) == n
}

/// The timestamp written into fresh entries.
pub open spec fn zero_time() -> FileTime {
    FileTime { low: 0, high: 0 }
}

/// The 81-byte name field: the encoded name, NUL-padded.
pub open spec fn name_field(n: Seq<u8>) -> Seq<u8>
    recommends
        n.len() <= 81,
{
    n + Seq::new((81 - n.len()) as nat, |i: int| 0u8)
}

/// The six little-endian words of the three timestamps.
pub open spec fn times_bytes(a: FileTime, c: FileTime, m: FileTime) -> Seq<u8> {
    u32_le(a.low) + u32_le(a.high) + u32_le(c.low) + u32_le(c.high) + u32_le(m.low) + u32_le(
        m.high,
    )
}

/// The 128 bytes of an entry on disk.
pub open spec fn entry_bytes(v: EntryView) -> Seq<u8>
    recommends
        entry_wf(v),
{
    match v {
        EntryView::Empty { next_block } => Seq::new(118, |i: int| 0u8) + u64_le(next_block)
            + seq![0u8, 0u8],
        EntryView::Directory {
            name,
            access_time,
            create_time,
            modify_time,
            pos_children,
            next_block,
        } => seq![1u8] + name_field(name) + times_bytes(access_time, create_time, modify_time)
            + u64_le(pos_children) + u32_le(0) + u64_le(next_block) + u16_le(0),
        EntryView::File {
            name,
            access_time,
            create_time,
            modify_time,
            pos_data,
            size,
            next_block,
        } => seq![2u8] + name_field(name) + times_bytes(access_time, create_time, modify_time)
            + u64_le(pos_data) + u32_le(size) + u64_le(next_block) + u16_le(0),
    }
}

/// An entry encoding is always exactly 128 bytes.
pub proof fn lemma_entry_bytes_len(v: EntryView)
    requires
        entry_wf(v),
    ensures
        entry_bytes(v).len() == 128,
{
}

/// The prefix of `s` before its first NUL byte; all of `s` when it has none.
pub open spec fn trim_nul(s: Seq<u8>) -> Seq<u8>
    decreases s.len(),
{
    if s.len() == 0 {
        s
    } else if s[0] == 0 {
        Seq::<u8>::empty()
    } else {
        seq![s[0]] + trim_nul(s.drop_first())
    }
}

/// When the bytes before position `i` are non-NUL and position `i` ends the
/// sequence or holds a NUL, the trimmed prefix is exactly `s.take(i)`.
pub proof fn lemma_trim_take(s: Seq<u8>, i: int)
    requires
        0 <= i <= s.len(),
        forall|j: int| 0 <= j < i ==> s[j] != 0,
        i == s.len() || s[i] == 0,
    ensures
        trim_nul(s) == s.take(i),
    decreases s.len(),
{
    if s.len() == 0 {
        assert(s.take(0) =~= s);
    } else if i == 0 {
        if s[0] == 0 {
            assert(trim_nul(s) =~= s.take(0));
        } else {
            assert(false);
        }
    } else {
        assert(s[0] != 0);
        let t = s.drop_first();
        assert(forall|j: int| 0 <= j < i - 1 ==> t[j] == s[j + 1] && t[j] != 0);
        assert(i - 1 == t.len() || t[i - 1] == 0);
        lemma_trim_take(t, i - 1);
        assert(seq![s[0]] + t.take(i - 1) =~= s.take(i));
    }
}

/// A trimmed prefix is a valid name: no longer than its source and free of
/// NUL bytes.
pub proof fn lemma_trim_wf(s: Seq<u8>)
    ensures
        trim_nul(s).len() <= s.len(),
        forall|i: int| 0 <= i < trim_nul(s).len() ==> #[trigger] trim_nul(s)[i] != 0,
    decreases s.len(),
{
    if s.len() == 0 {
    } else if s[0] == 0 {
    } else {
        lemma_trim_wf(s.drop_first());
        let t = trim_nul(s.drop_first());
        assert(trim_nul(s) == seq![s[0]] + t);
        assert(forall|i: int| 1 <= i < trim_nul(s).len() ==> trim_nul(s)[i] == t[i - 1]);
        assert(trim_nul(s)[0] == s[0]);
    }
}

/// Trimming the padded name field of a valid name yields the name again.
pub proof fn lemma_trim_name_field(n: Seq<u8>)
    requires
        name_wf(n),
    ensures
        trim_nul(name_field(n)) == n,
{
    let f = name_field(n);
    assert(forall|j: int| 0 <= j < n.len() ==> f[j] == n[j]);
    assert(n.len() < 81 ==> f[n.len() as int] == 0);
    lemma_trim_take(f, n.len() as int);
    assert(f.take(n.len() as int) =~= n);
}

/// The entry that 128 on-disk bytes describe. Meaningful when the type byte
/// is 0, 1 or 2; an empty slot's stored link is dropped on read.
pub open spec fn parsed_entry(b: Seq<u8>) -> EntryView
    recommends
        b.len() == 128,
        b[0] <= 2,
{
    if b[0] == 0 {
        EntryView::Empty { next_block: 0 }
    } else {
        let name = trim_nul(b.subrange(1, 82));
        let access_time = FileTime {
            low: u32_of_le(b.subrange(82, 86)),
            high: u32_of_le(b.subrange(86, 90)),
        };
        let create_time = FileTime {
            low: u32_of_le(b.subrange(90, 94)),
            high: u32_of_le(b.subrange(94, 98)),
        };
        let modify_time = FileTime {
            low: u32_of_le(b.subrange(98, 102)),
            high: u32_of_le(b.subrange(102, 106)),
        };
        let position = u64_of_le(b.subrange(106, 114));
        let size = u32_of_le(b.subrange(114, 118));
        let next_block = u64_of_le(b.subrange(118, 126));
        if b[0] == 1 {
            EntryView::Directory {
                name,
                access_time,
                create_time,
                modify_time,
                pos_children: position,
                next_block,
            }
        } else {
            EntryView::File {
                name,
                access_time,
                create_time,
                modify_time,
                pos_data: position,
                size,
                next_block,
            }
        }
    }
}

/// Decoding an entry's own encoding yields the entry again; an empty slot
/// comes back with no link, as the format prescribes.
#[verifier::rlimit(100)]
#[verifier::spinoff_prover]
pub proof fn lemma_entry_roundtrip(v: EntryView)
    requires
        entry_wf(v),
    ensures
        !(v is Empty) ==> parsed_entry(entry_bytes(v)) == v,
        v is Empty ==> parsed_entry(entry_bytes(v)) == (EntryView::Empty { next_block: 0 }),
{
    let b = entry_bytes(v);
    match v {
        EntryView::Empty { next_block } => {
            assert(b[0] == 0);
        },
        EntryView::Directory {
            name,
            access_time,
            create_time,
            modify_time,
            pos_children,
            next_block,
        } => {
            assert(name_field(name).len() == 81);
            assert(b.len() == 128);
            assert(b[0] == 1);
            assert(b.subrange(1, 82) =~= name_field(name));
            lemma_trim_name_field(name);
            assert(b.subrange(82, 86) =~= u32_le(access_time.low));
            assert(b.subrange(86, 90) =~= u32_le(access_time.high));
            assert(b.subrange(90, 94) =~= u32_le(create_time.low));
            assert(b.subrange(94, 98) =~= u32_le(create_time.high));
            assert(b.subrange(98, 102) =~= u32_le(modify_time.low));
            assert(b.subrange(102, 106) =~= u32_le(modify_time.high));
            assert(b.subrange(106, 114) =~= u64_le(pos_children));
            assert(b.subrange(118, 126) =~= u64_le(next_block));
            lemma_u32_le_roundtrip(access_time.low);
            lemma_u32_le_roundtrip(access_time.high);
            lemma_u32_le_roundtrip(create_time.low);
            lemma_u32_le_roundtrip(create_time.high);
            lemma_u32_le_roundtrip(modify_time.low);
            lemma_u32_le_roundtrip(modify_time.high);
            lemma_u64_le_roundtrip(pos_children);
            lemma_u64_le_roundtrip(next_block);
            assert(parsed_entry(b) =~= v);
        },
        EntryView::File {
            name,
            access_time,
            create_time,
            modify_time,
            pos_data,
            size,
            next_block,
        } => {
            assert(name_field(name).len() == 81);
            assert(b.len() == 128);
            assert(b[0] == 2);
            assert(b.subrange(1, 82) =~= name_field(name));
            lemma_trim_name_field(name);
            assert(b.subrange(82, 86) =~= u32_le(access_time.low));
            assert(b.subrange(86, 90) =~= u32_le(access_time.high));
            assert(b.subrange(90, 94) =~= u32_le(create_time.low));
            assert(b.subrange(94, 98) =~= u32_le(create_time.high));
            assert(b.subrange(98, 102) =~= u32_le(modify_time.low));
            assert(b.subrange(102, 106) =~= u32_le(modify_time.high));
            assert(b.subrange(106, 114) =~= u64_le(pos_data));
            assert(b.subrange(114, 118) =~= u32_le(size));
            assert(b.subrange(118, 126) =~= u64_le(next_block));
            lemma_u32_le_roundtrip(access_time.low);
            lemma_u32_le_roundtrip(access_time.high);
            lemma_u32_le_roundtrip(create_time.low);
            lemma_u32_le_roundtrip(create_time.high);
            lemma_u32_le_roundtrip(modify_time.low);
            lemma_u32_le_roundtrip(modify_time.high);
            lemma_u64_le_roundtrip(pos_data);
            lemma_u32_le_roundtrip(size);
            lemma_u64_le_roundtrip(next_block);
            assert(parsed_entry(b) =~= v);
        },
    }
}

/// Checks a freshly encoded name for the field limits.
fn name_ok(enc: &Vec<u8>) -> (r: bool)
    ensures
        r == name_wf(enc@),
{
    if enc.len() > 81 {
        return false;
    }
    let mut i: usize = 0;
    while i < enc.len()
        invariant
            i <= enc@.len(),
            enc@.len() <= 81,
            forall|j: int| 0 <= j < i ==> enc@[j] != 0,
        decreases enc@.len() - i,
    {
        if enc[i] == 0 {
            return false;
        }
        i = i + 1;
    }
    true
}

impl PackEntry {
    /// A free slot carrying `next_block` (0 for none).
    pub fn new_empty(next_block: u64) -> (r: PackEntry)
        ensures
            r@ == (EntryView::Empty { next_block }),
    {
        PackEntry::Empty { next_block }
    }

    /// A directory entry for `name`, encoded to the archive's name bytes.
    /// Rejected when the encoding does not fit the 81-byte field or holds a
    /// NUL byte.
    pub fn new_directory(name: &str, pos_children: ChainIndex, next_block: u64) -> (r: Result<
        PackEntry,
        Error,
    >)
        ensures
            r is Ok <==> name_wf(euc_kr_bytes(name@)),
            (forall|i: int| 0 <= i < name@.len() ==> (name@[i] as u32) < 0x80) ==> euc_kr_bytes(
                name@,
            ) == name@.map_values(|c: char| c as u8),
            r matches Ok(e) ==> e@ == (EntryView::Directory {
                name: euc_kr_bytes(name@),
                access_time: zero_time(),
                create_time: zero_time(),
                modify_time: zero_time(),
                pos_children: pos_children.0,
                next_block,
            }) && entry_wf(e@),
            r matches Err(er) ==> er == Error::NonUnicodePath,
    {
        let enc = encode_name(name);
        if !name_ok(&enc) {
            return Err(Error::NonUnicodePath);
        }
        let t = FileTime { low: 0, high: 0 };
        Ok(
            PackEntry::Directory {
                name: enc,
                access_time: t,
                create_time: t,
                modify_time: t,
                pos_children,
                next_block,
            },
        )
    }

    /// A file entry for `name` with payload position and size. Rejected when
    /// the encoded name does not fit the field.
    pub fn new_file(name: &str, pos_data: u64, size: u32, next_block: u64) -> (r: Result<
        PackEntry,
        Error,
    >)
        ensures
            r is Ok <==> name_wf(euc_kr_bytes(name@)),
            (forall|i: int| 0 <= i < name@.len() ==> (name@[i] as u32) < 0x80) ==> euc_kr_bytes(
                name@,
            ) == name@.map_values(|c: char| c as u8),
            r matches Ok(e) ==> e@ == (EntryView::File {
                name: euc_kr_bytes(name@),
                access_time: zero_time(),
                create_time: zero_time(),
                modify_time: zero_time(),
                pos_data,
                size,
                next_block,
            }) && entry_wf(e@),
            r matches Err(er) ==> er == Error::NonUnicodePath,
    {
        let enc = encode_name(name);
        if !name_ok(&enc) {
            return Err(Error::NonUnicodePath);
        }
        let t = FileTime { low: 0, high: 0 };
        Ok(
            PackEntry::File {
                name: enc,
                access_time: t,
                create_time: t,
                modify_time: t,
                pos_data,
                size,
                next_block,
            },
        )
    }

    /// Tombstones the entry: it becomes a free slot that keeps the block
    /// link, so a chain is never severed by deletion.
    pub fn clear(&mut self)
        ensures
            final(self)@ == (EntryView::Empty { next_block: entry_next(old(self)@) }),
    {
        let next_block = self.next_block();
        *self = PackEntry::Empty { next_block };
    }

    /// The block link carried by this entry; 0 means none.
    pub fn next_block(&self) -> (r: u64)
        ensures
            r == entry_next(self@),
    {
        match self {
            PackEntry::Empty { next_block } => *next_block,
            PackEntry::Directory { next_block, .. } => *next_block,
            PackEntry::File { next_block, .. } => *next_block,
        }
    }

    /// Sets the block link of a named entry; a free slot is left unchanged.
    pub fn set_next_block(&mut self, nc: u64)
        ensures
            final(self)@ == with_next(old(self)@, nc),
    {
        match self {
            PackEntry::Empty { .. } => (),
            PackEntry::Directory { next_block, .. } => {
                *next_block = nc;
            },
            PackEntry::File { next_block, .. } => {
                *next_block = nc;
            },
        }
    }

    /// The decoded name of a named entry.
    pub fn name(&self) -> (r: Option<String>)
        ensures
            r is Some <==> !(self@ is Empty),
            r matches Some(s) ==> s@ == euc_kr_str(entry_name_raw(self@)),
    {
        match self {
            PackEntry::Empty { .. } => None,
            PackEntry::Directory { name, .. } => Some(decode_name(name)),
            PackEntry::File { name, .. } => Some(decode_name(name)),
        }
    }

    /// A copy of this entry.
    pub fn duplicate(&self) -> (r: PackEntry)
        ensures
            r@ == self@,
    {
        match self {
            PackEntry::Empty { next_block } => PackEntry::Empty { next_block: *next_block },
            PackEntry::Directory {
                name,
                access_time,
                create_time,
                modify_time,
                pos_children,
                next_block,
            } => PackEntry::Directory {
                name: vstd::slice::slice_to_vec(name.as_slice()),
                access_time: *access_time,
                create_time: *create_time,
                modify_time: *modify_time,
                pos_children: *pos_children,
                next_block: *next_block,
            },
            PackEntry::File {
                name,
                access_time,
                create_time,
                modify_time,
                pos_data,
                size,
                next_block,
            } => PackEntry::File {
                name: vstd::slice::slice_to_vec(name.as_slice()),
                access_time: *access_time,
                create_time: *create_time,
                modify_time: *modify_time,
                pos_data: *pos_data,
                size: *size,
                next_block: *next_block,
            },
        }
    }

    /// Whether this is a named entry carrying exactly the bytes `n`.
    pub fn matches_name(&self, n: &Vec<u8>) -> (r: bool)
        ensures
            r == has_name(self@, n@),
    {
        match self {
            PackEntry::Empty { .. } => false,
            PackEntry::Directory { name, .. } => crate::codec::bytes_eq(name, n),
            PackEntry::File { name, .. } => crate::codec::bytes_eq(name, n),
        }
    }

    /// Whether this is a free slot.
    pub fn is_empty(&self) -> (r: bool)
        ensures
            r == (self@ is Empty),
    {
        match self {
            PackEntry::Empty { .. } => true,
            _ => false,
        }
    }

    /// Whether this is a file entry.
    pub fn is_file(&self) -> (r: bool)
        ensures
            r == (self@ is File),
    {
        match self {
            PackEntry::File { .. } => true,
            _ => false,
        }
    }

    /// Whether this is a directory entry.
    pub fn is_dir(&self) -> (r: bool)
        ensures
            r == (self@ is Directory),
    {
        match self {
            PackEntry::Directory { .. } => true,
            _ => false,
        }
    }

    /// Decodes the entry stored at `off` in `buf`. A type byte above 2 is a
    /// corrupted archive.
    pub fn from_reader(buf: &Vec<u8>, off: usize) -> (r: Result<PackEntry, Error>)
        requires
            off + 128 <= buf.len(),
        ensures
            buf@.subrange(off as int, off + 128)[0] <= 2 ==> (r matches Ok(e) && e@
                == parsed_entry(buf@.subrange(off as int, off + 128)) && entry_wf(e@)),
            buf@.subrange(off as int, off + 128)[0] > 2 ==> r == Err::<
                PackEntry,
                Error,
            >(Error::CorruptedFile),
    {
        let ghost region = buf@.subrange(off as int, off + 128);
        let ty = buf[off];
        assert(ty == region[0]);
        if ty == 0 {
            return Ok(PackEntry::Empty { next_block: 0 });
        }
        if ty > 2 {
            return Err(Error::CorruptedFile);
        }
        let mut end: usize = 0;
        while end < 81 && buf[off + 1 + end] != 0
            invariant
                end <= 81,
                off + 128 <= buf.len(),
                region == buf@.subrange(off as int, off + 128),
                forall|j: int| off + 1 <= j < off + 1 + end ==> #[trigger] buf@[j] != 0,
            decreases 81 - end,
        {
            end = end + 1;
        }
        let name = read_bytes(buf, off + 1, end);
        proof {
            let field = region.subrange(1, 82);
            assert(forall|j: int| 0 <= j < 81 ==> field[j] == buf@[off + 1 + j]);
            lemma_trim_take(field, end as int);
            assert(field.take(end as int) =~= buf@.subrange(off + 1, off + 1 + end));
            assert(name@ == trim_nul(region.subrange(1, 82)));
        }
        let atl = read_u32_le(buf, off + 82);
        let ath = read_u32_le(buf, off + 86);
        let ctl = read_u32_le(buf, off + 90);
        let cth = read_u32_le(buf, off + 94);
        let mtl = read_u32_le(buf, off + 98);
        let mth = read_u32_le(buf, off + 102);
        let position = read_u64_le(buf, off + 106);
        let size = read_u32_le(buf, off + 114);
        let next_block = read_u64_le(buf, off + 118);
        proof {
            assert(buf@.subrange(off + 82, off + 86) =~= region.subrange(82, 86));
            assert(buf@.subrange(off + 86, off + 90) =~= region.subrange(86, 90));
            assert(buf@.subrange(off + 90, off + 94) =~= region.subrange(90, 94));
            assert(buf@.subrange(off + 94, off + 98) =~= region.subrange(94, 98));
            assert(buf@.subrange(off + 98, off + 102) =~= region.subrange(98, 102));
            assert(buf@.subrange(off + 102, off + 106) =~= region.subrange(102, 106));
            assert(buf@.subrange(off + 106, off + 114) =~= region.subrange(106, 114));
            assert(buf@.subrange(off + 114, off + 118) =~= region.subrange(114, 118));
            assert(buf@.subrange(off + 118, off + 126) =~= region.subrange(118, 126));
        }
        let access_time = FileTime { low: atl, high: ath };
        let create_time = FileTime { low: ctl, high: cth };
        let modify_time = FileTime { low: mtl, high: mth };
        if ty == 1 {
            Ok(
                PackEntry::Directory {
                    name,
                    access_time,
                    create_time,
                    modify_time,
                    pos_children: ChainIndex(position),
                    next_block,
                },
            )
        } else {
            Ok(
                PackEntry::File {
                    name,
                    access_time,
                    create_time,
                    modify_time,
                    pos_data: position,
                    size,
                    next_block,
                },
            )
        }
    }

    /// Appends the 128-byte encoding of this entry to `out`.
    pub fn to_writer(&self, out: &mut Vec<u8>)
        requires
            entry_wf(self@),
        ensures
            final(out)@ == old(out)@ + entry_bytes(self@),
    {
        let ghost base = out@;
        match self {
            PackEntry::Empty { next_block } => {
                append_zeros(out, 118);
                push_u64_le(out, *next_block);
                out.push(0u8);
                out.push(0u8);
                assert(out@ =~= base + entry_bytes(self@));
            },
            PackEntry::Directory {
                name,
                access_time,
                create_time,
                modify_time,
                pos_children,
                next_block,
            } => {
                out.push(1u8);
                append_bytes(out, name);
                append_zeros(out, 81 - name.len());
                push_u32_le(out, access_time.low);
                push_u32_le(out, access_time.high);
                push_u32_le(out, create_time.low);
                push_u32_le(out, create_time.high);
                push_u32_le(out, modify_time.low);
                push_u32_le(out, modify_time.high);
                push_u64_le(out, pos_children.0);
                push_u32_le(out, 0);
                push_u64_le(out, *next_block);
                push_u16_le(out, 0);
                assert(out@ =~= base + entry_bytes(self@));
            },
            PackEntry::File {
                name,
                access_time,
                create_time,
                modify_time,
                pos_data,
                size,
                next_block,
            } => {
                out.push(2u8);
                append_bytes(out, name);
                append_zeros(out, 81 - name.len());
                push_u32_le(out, access_time.low);
                push_u32_le(out, access_time.high);
                push_u32_le(out, create_time.low);
                push_u32_le(out, create_time.high);
                push_u32_le(out, modify_time.low);
                push_u32_le(out, modify_time.high);
                push_u64_le(out, *pos_data);
                push_u32_le(out, *size);
                push_u64_le(out, *next_block);
                push_u16_le(out, 0);
                assert(out@ =~= base + entry_bytes(self@));
            },
        }
    }
}

} // verus!
