//! Index blocks of twenty entries, and chains of blocks linked through the
//! `next_block` field of their entries.
//!
//! A block occupies 2560 contiguous bytes. The link from one block to the
//! next is the `next_block` of the rearmost entry that carries one; a chain
//! ends when no entry of its last block carries a link.

use vstd::prelude::*;

use crate::codec::read_bytes;
use crate::entry::{
    entry_bytes, entry_next, entry_wf, has_name, parsed_entry, EntryView, PackEntry,
};
use crate::{ChainIndex, Error};

verus! {

/// One index block: its absolute offset and its twenty entries.
pub struct PackBlock {
    pub offset: u64,
    pub entries: Vec<PackEntry>,
}

/// The mathematical value of a block.
#[verifier::ext_equal]
pub ghost struct BlockView {
    pub offset: u64,
    pub entries: Seq<EntryView>,
}

impl View for PackBlock {
    type V = BlockView;

    open spec fn view(&self) -> BlockView {
        BlockView { offset: self.offset, entries: self.entries@.map_values(|e: PackEntry| e@) }
    }
}

/// Validity of a block: exactly twenty entries, each of which can be
/// written back.
pub open spec fn block_wf(b: BlockView) -> bool {
    b.entries.len() == 20 && (forall|i: int| 0 <= i < 20 ==> entry_wf(#[trigger] b.entries[i]))
}

/// The concatenated encodings of a sequence of entries.
pub open spec fn entries_bytes(s: Seq<EntryView>) -> Seq<u8>
    decreases s.len(),
{
    if s.len() == 0 {
        Seq::<u8>::empty()
    } else {
        entry_bytes(s[0]) + entries_bytes(s.drop_first())
    }
}

/// The 2560 bytes of a block on disk (before encryption).
pub open spec fn block_bytes(b: BlockView) -> Seq<u8>
    recommends
        block_wf(b),
{
    entries_bytes(b.entries)
}

/// Concatenated entry encodings have 128 bytes per entry.
pub proof fn lemma_entries_bytes_len(s: Seq<EntryView>)
    requires
        forall|i: int| 0 <= i < s.len() ==> entry_wf(#[trigger] s[i]),
    ensures
        entries_bytes(s).len() == 128 * s.len(),
    decreases s.len(),
{
    if s.len() > 0 {
        assert(entry_wf(s[0]));
        crate::entry::lemma_entry_bytes_len(s[0]);
        assert(forall|i: int|
            0 <= i < s.drop_first().len() ==> entry_wf(#[trigger] s.drop_first()[i]));
        lemma_entries_bytes_len(s.drop_first());
    }
}

/// Appending one entry appends its encoding.
pub proof fn lemma_entries_bytes_snoc(s: Seq<EntryView>, x: EntryView)
    ensures
        entries_bytes(s.push(x)) == entries_bytes(s) + entry_bytes(x),
    decreases s.len(),
{
    if s.len() == 0 {
        assert(s.push(x)[0] == x);
        assert(s.push(x).drop_first() =~= Seq::<EntryView>::empty());
        assert(entries_bytes(s.push(x)) == entry_bytes(s.push(x)[0]) + entries_bytes(
            s.push(x).drop_first(),
        ));
        assert(entries_bytes(Seq::<EntryView>::empty()) =~= Seq::<u8>::empty());
        assert(entries_bytes(s.push(x)) =~= entries_bytes(s) + entry_bytes(x));
    } else {
        assert(s.push(x).drop_first() =~= s.drop_first().push(x));
        assert(s.push(x)[0] == s[0]);
        lemma_entries_bytes_snoc(s.drop_first(), x);
        assert(entries_bytes(s.push(x)) =~= entries_bytes(s) + entry_bytes(x));
    }
}

/// The slice of the concatenated encodings that belongs to entry `i`.
pub proof fn lemma_entries_bytes_index(s: Seq<EntryView>, i: int)
    requires
        forall|j: int| 0 <= j < s.len() ==> entry_wf(#[trigger] s[j]),
        0 <= i < s.len(),
    ensures
        entries_bytes(s).subrange(128 * i, 128 * i + 128) == entry_bytes(s[i]),
    decreases s.len(),
{
    lemma_entries_bytes_len(s);
    crate::entry::lemma_entry_bytes_len(s[0]);
    lemma_entries_bytes_len(s.drop_first());
    if i == 0 {
        assert(entries_bytes(s).subrange(0, 128) =~= entry_bytes(s[0]));
    } else {
        assert(forall|j: int|
            0 <= j < s.drop_first().len() ==> entry_wf(#[trigger] s.drop_first()[j]));
        lemma_entries_bytes_index(s.drop_first(), i - 1);
        assert(entries_bytes(s).subrange(128 * i, 128 * i + 128) =~= entries_bytes(
            s.drop_first(),
        ).subrange(128 * (i - 1), 128 * (i - 1) + 128));
    }
}

/// The twenty entries parsed from 2560 plain block bytes.
pub open spec fn parsed_entries(bytes: Seq<u8>) -> Seq<EntryView>
    recommends
        bytes.len() == 2560,
{
    Seq::new(20, |i: int| parsed_entry(bytes.subrange(128 * i, 128 * i + 128)))
}

/// Whether every entry of 2560 plain block bytes has a known type byte.
pub open spec fn block_decodable(bytes: Seq<u8>) -> bool
    recommends
        bytes.len() == 2560,
{
    forall|i: int| 0 <= i < 20 ==> #[trigger] bytes[128 * i] <= 2
}

/// The link leaving a sequence of entries: the `next_block` of the rearmost
/// entry that carries one, or 0.
pub open spec fn seq_link(s: Seq<EntryView>) -> u64
    decreases s.len(),
{
    if s.len() == 0 {
        0
    } else if entry_next(s.last()) != 0 {
        entry_next(s.last())
    } else {
        seq_link(s.drop_last())
    }
}

/// Entries without links leave no link.
pub proof fn lemma_seq_link_zero(s: Seq<EntryView>)
    requires
        forall|i: int| 0 <= i < s.len() ==> entry_next(#[trigger] s[i]) == 0,
    ensures
        seq_link(s) == 0,
    decreases s.len(),
{
    if s.len() > 0 {
        assert(entry_next(s.last()) == 0);
        assert(forall|i: int| 0 <= i < s.drop_last().len() ==> s.drop_last()[i] == s[i]);
        lemma_seq_link_zero(s.drop_last());
    }
}

impl PackBlock {
    /// A fresh block of twenty free slots at `offset`.
    pub fn new(offset: u64) -> (r: PackBlock)
        ensures
            r@.offset == offset,
            r@.entries == Seq::new(20, |i: int| EntryView::Empty { next_block: 0 }),
            block_wf(r@),
    {
        let mut entries: Vec<PackEntry> = Vec::new();
        let mut i: usize = 0;
        while i < 20
            invariant
                i <= 20,
                entries@.len() == i,
                forall|j: int|
                    0 <= j < i ==> #[trigger] entries@[j]@ == (EntryView::Empty {
                        next_block: 0u64,
                    }),
            decreases 20 - i,
        {
            entries.push(PackEntry::Empty { next_block: 0 });
            i = i + 1;
        }
        let r = PackBlock { offset, entries };
        assert(r@.entries =~= Seq::new(20, |i: int| EntryView::Empty { next_block: 0 }));
        r
    }

    /// Decodes a block from 2560 plain bytes. An unknown entry type byte is
    /// a corrupted archive.
    pub fn from_bytes(bytes: &Vec<u8>, offset: u64) -> (r: Result<PackBlock, Error>)
        requires
            bytes@.len() == 2560,
        ensures
            block_decodable(bytes@) ==> (r matches Ok(b) && b@.offset == offset && b@.entries
                == parsed_entries(bytes@) && block_wf(b@)),
            !block_decodable(bytes@) ==> r == Err::<PackBlock, Error>(Error::CorruptedFile),
    {
        let mut entries: Vec<PackEntry> = Vec::new();
        let mut i: usize = 0;
        while i < 20
            invariant
                i <= 20,
                bytes@.len() == 2560,
                entries@.len() == i,
                forall|j: int| 0 <= j < i ==> #[trigger] bytes@[128 * j] <= 2,
                forall|j: int|
                    0 <= j < i ==> #[trigger] entries@[j]@ == parsed_entry(
                        bytes@.subrange(128 * j, 128 * j + 128),
                    ) && entry_wf(entries@[j]@),
            decreases 20 - i,
        {
            let e = match PackEntry::from_reader(bytes, 128 * i) {
                Ok(e) => e,
                Err(er) => {
                    proof {
                        let region = bytes@.subrange(128 * i as int, 128 * i + 128);
                        assert(region[0] == bytes@[128 * i as int]);
                        assert(!block_decodable(bytes@));
                    }
                    return Err(Error::CorruptedFile);
                },
            };
            proof {
                let region = bytes@.subrange(128 * i as int, 128 * i + 128);
                assert(region[0] == bytes@[128 * i as int]);
            }
            entries.push(e);
            i = i + 1;
        }
        let r = PackBlock { offset, entries };
        assert(r@.entries =~= parsed_entries(bytes@));
        Ok(r)
    }

    /// The link leaving this block: the `next_block` of the rearmost entry
    /// that carries one, or 0.
    pub fn link(&self) -> (r: u64)
        requires
            block_wf(self@),
        ensures
            r == seq_link(self@.entries),
    {
        let mut j = self.entries.len();
        assert(self@.entries.take(j as int) =~= self@.entries);
        while j > 0
            invariant
                j <= self.entries@.len(),
                block_wf(self@),
                self.entries@.len() == 20,
                seq_link(self@.entries) == seq_link(self@.entries.take(j as int)),
            decreases j,
        {
            let nb = self.entries[j - 1].next_block();
            proof {
                let t = self@.entries.take(j as int);
                assert(t.last() == self@.entries[j - 1]);
                assert(t.drop_last() =~= self@.entries.take(j - 1));
            }
            if nb != 0 {
                return nb;
            }
            j = j - 1;
        }
        assert(self@.entries.take(0) =~= Seq::<EntryView>::empty());
        0
    }

    /// A copy of this block.
    pub fn duplicate(&self) -> (r: PackBlock)
        ensures
            r@ == self@,
    {
        let mut entries: Vec<PackEntry> = Vec::new();
        let mut i: usize = 0;
        while i < self.entries.len()
            invariant
                i <= self.entries@.len(),
                entries@.len() == i,
                forall|j: int| 0 <= j < i ==> #[trigger] entries@[j]@ == self.entries@[j]@,
            decreases self.entries@.len() - i,
        {
            entries.push(self.entries[i].duplicate());
            i = i + 1;
        }
        let r = PackBlock { offset: self.offset, entries };
        assert(r@.entries =~= self@.entries);
        assert(r@ =~= self@);
        r
    }

    /// Encodes the block to its 2560 plain bytes.
    pub fn to_bytes(&self) -> (r: Vec<u8>)
        requires
            block_wf(self@),
        ensures
            r@ == block_bytes(self@),
            r@.len() == 2560,
    {
        let mut out: Vec<u8> = Vec::new();
        let mut i: usize = 0;
        while i < 20
            invariant
                i <= 20,
                block_wf(self@),
                self.entries@.len() == 20,
                out@ == entries_bytes(self@.entries.take(i as int)),
                out@.len() == 128 * i,
            decreases 20 - i,
        {
            proof {
                assert(entry_wf(self@.entries[i as int]));
                lemma_entries_bytes_snoc(self@.entries.take(i as int), self@.entries[i as int]);
                assert(self@.entries.take(i as int).push(self@.entries[i as int])
                    =~= self@.entries.take(i + 1));
                crate::entry::lemma_entry_bytes_len(self@.entries[i as int]);
            }
            let e = &self.entries[i];
            assert(e@ == self@.entries[i as int]);
            e.to_writer(&mut out);
            i = i + 1;
        }
        assert(self@.entries.take(20) =~= self@.entries);
        out
    }
}

} // verus!

use crate::codec::bytes_eq;

verus! {

/// An ordered list of blocks forming one directory's entry table. Its
/// identity is the offset of its first block.
pub struct PackBlockChain {
    pub blocks: Vec<PackBlock>,
}

impl View for PackBlockChain {
    type V = Seq<BlockView>;

    open spec fn view(&self) -> Seq<BlockView> {
        self.blocks@.map_values(|b: PackBlock| b@)
    }
}

/// Validity of a chain: at least one block, every block valid.
pub open spec fn chain_wf(c: Seq<BlockView>) -> bool {
    c.len() >= 1 && (forall|i: int| 0 <= i < c.len() ==> block_wf(#[trigger] c[i]))
}

/// The entries of all blocks of a chain, in order.
pub open spec fn chain_entries(c: Seq<BlockView>) -> Seq<EntryView>
    recommends
        chain_wf(c),
{
    Seq::new((20 * c.len()) as nat, |i: int| c[i / 20].entries[i % 20])
}

/// The absolute offset of the entry at flattened index `i`.
pub open spec fn entry_file_offset(c: Seq<BlockView>, i: int) -> int
    recommends
        0 <= i < 20 * c.len(),
{
    c[i / 20].offset + (i % 20) * 128
}

/// The chain with the entry at flattened index `i` replaced by `v`.
pub open spec fn chain_update(c: Seq<BlockView>, i: int, v: EntryView) -> Seq<BlockView>
    recommends
        0 <= i < 20 * c.len(),
{
    c.update(
        i / 20,
        BlockView { offset: c[i / 20].offset, entries: c[i / 20].entries.update(i % 20, v) },
    )
}

/// The index of the first entry of `s` that is named `n`, or -1.
pub open spec fn first_named(s: Seq<EntryView>, n: Seq<u8>) -> int
    decreases s.len(),
{
    if s.len() == 0 {
        -1
    } else if has_name(s[0], n) {
        0
    } else {
        let r = first_named(s.drop_first(), n);
        if r == -1 {
            -1
        } else {
            r + 1
        }
    }
}

/// What `first_named` finds: the first match when there is one, and
/// nothing exactly when no entry matches.
pub proof fn lemma_first_named(s: Seq<EntryView>, n: Seq<u8>)
    ensures
        first_named(s, n) == -1 ==> forall|i: int| 0 <= i < s.len() ==> !has_name(
            #[trigger] s[i],
            n,
        ),
        first_named(s, n) != -1 ==> 0 <= first_named(s, n) < s.len() && has_name(
            s[first_named(s, n)],
            n,
        ) && (forall|j: int| 0 <= j < first_named(s, n) ==> !has_name(#[trigger] s[j], n)),
    decreases s.len(),
{
    if s.len() == 0 {
    } else if has_name(s[0], n) {
    } else {
        let t = s.drop_first();
        lemma_first_named(t, n);
        assert(forall|i: int| 1 <= i < s.len() ==> #[trigger] s[i] == t[i - 1]);
    }
}

/// When no entry carries the name, none is found.
pub proof fn lemma_first_named_none(s: Seq<EntryView>, n: Seq<u8>)
    requires
        forall|i: int| 0 <= i < s.len() ==> !has_name(#[trigger] s[i], n),
    ensures
        first_named(s, n) == -1,
    decreases s.len(),
{
    if s.len() > 0 {
        let t = s.drop_first();
        assert(forall|i: int| 0 <= i < t.len() ==> #[trigger] t[i] == s[i + 1]);
        lemma_first_named_none(t, n);
    }
}

impl PackBlockChain {
    /// Builds a chain from its ordered blocks.
    pub fn from_blocks(blocks: Vec<PackBlock>) -> (r: PackBlockChain)
        ensures
            r@ == blocks@.map_values(|b: PackBlock| b@),
    {
        PackBlockChain { blocks }
    }

    /// The identity of this chain: the offset of its first block.
    pub fn chain_index(&self) -> (r: ChainIndex)
        requires
            self@.len() >= 1,
        ensures
            r.0 == self@[0].offset,
    {
        ChainIndex(self.blocks[0].offset)
    }

    /// The number of blocks of the chain.
    pub fn num_blocks(&self) -> (r: usize)
        ensures
            r == self@.len(),
    {
        self.blocks.len()
    }

    /// The number of entry slots of the chain.
    pub fn num_entries(&self) -> (r: usize)
        requires
            20 * self@.len() <= usize::MAX,
        ensures
            r == 20 * self@.len(),
    {
        20 * self.blocks.len()
    }

    /// A copy of the entry at flattened index `idx`.
    pub fn get(&self, idx: usize) -> (r: Option<PackEntry>)
        requires
            chain_wf(self@),
            20 * self@.len() <= usize::MAX,
        ensures
            idx < 20 * self@.len() ==> (r matches Some(e) && e@ == chain_entries(
                self@,
            )[idx as int]),
            idx >= 20 * self@.len() ==> r is None,
    {
        if idx >= self.num_entries() {
            return None;
        }
        let b = idx / 20;
        let j = idx % 20;
        proof {
            assert(idx as int / 20 < self@.len() && 0 <= idx as int % 20 < 20)
                by (nonlinear_arith)
                requires
                    idx < 20 * self@.len(),
                    self@.len() >= 1,
            ;
            assert(block_wf(self@[b as int]));
        }
        Some(self.blocks[b].entries[j].duplicate())
    }

    /// Replaces the entry at flattened index `idx`.
    pub fn set_entry(&mut self, idx: usize, e: PackEntry)
        requires
            chain_wf(old(self)@),
            20 * old(self)@.len() <= usize::MAX,
            idx < 20 * old(self)@.len(),
        ensures
            final(self)@ == chain_update(old(self)@, idx as int, e@),
            final(self)@.len() == old(self)@.len(),
    {
        let ghost pre = self@;
        let b = idx / 20;
        let j = idx % 20;
        proof {
            assert(idx as int / 20 < self@.len() && 0 <= idx as int % 20 < 20)
                by (nonlinear_arith)
                requires
                    idx < 20 * self@.len(),
                    self@.len() >= 1,
            ;
            assert(block_wf(pre[b as int]));
        }
        let mut blk = self.blocks.remove(b);
        assert(blk@ == pre[b as int]);
        blk.entries.set(j, e);
        assert(blk@.entries =~= pre[b as int].entries.update(j as int, e@));
        self.blocks.insert(b, blk);
        proof {
            assert(self@ =~= chain_update(pre, idx as int, e@));
        }
    }

    /// The absolute offset of the entry at flattened index `idx`.
    pub fn file_offset_for_entry(&self, idx: usize) -> (r: Option<u64>)
        requires
            chain_wf(self@),
            20 * self@.len() <= usize::MAX,
            forall|i: int| 0 <= i < self@.len() ==> (#[trigger] self@[i].offset) + 2560
                <= u64::MAX,
        ensures
            idx < 20 * self@.len() ==> (r matches Some(o) && o == entry_file_offset(
                self@,
                idx as int,
            )),
            idx >= 20 * self@.len() ==> r is None,
    {
        if idx >= self.num_entries() {
            return None;
        }
        let b = idx / 20;
        let j = idx % 20;
        proof {
            assert(idx as int / 20 < self@.len() && 0 <= idx as int % 20 < 20)
                by (nonlinear_arith)
                requires
                    idx < 20 * self@.len(),
                    self@.len() >= 1,
            ;
            assert(self@[b as int].offset + 2560 <= u64::MAX);
        }
        Some(self.blocks[b].offset + (j as u64) * 128)
    }

    /// Looks `name` up among the entries: a directory yields its child
    /// chain, a file is not a directory, and otherwise the name is absent.
    pub fn find_block_chain_index_of(&self, name: &Vec<u8>) -> (r: Result<ChainIndex, Error>)
        requires
            chain_wf(self@),
            20 * self@.len() <= usize::MAX,
        ensures
            ({
                let f = first_named(chain_entries(self@), name@);
                &&& f == -1 ==> r == Err::<ChainIndex, Error>(Error::NotFound)
                &&& f != -1 && chain_entries(self@)[f] is Directory ==> (r matches Ok(ci)
                    && ci.0 == chain_entries(self@)[f]->Directory_pos_children)
                &&& f != -1 && chain_entries(self@)[f] is File ==> r == Err::<
                    ChainIndex,
                    Error,
                >(Error::ExpectedDirectory)
            }),
    {
        proof {
            lemma_first_named(chain_entries(self@), name@);
        }
        let n = self.num_entries();
        let mut i: usize = 0;
        while i < n
            invariant
                chain_wf(self@),
                n == 20 * self@.len(),
                n <= usize::MAX,
                i <= n,
                forall|j: int| 0 <= j < i ==> !has_name(#[trigger] chain_entries(self@)[j], name@),
            decreases n - i,
        {
            let e = self.get(i).unwrap();
            if e.matches_name(name) {
                proof {
                    lemma_first_named(chain_entries(self@), name@);
                    assert(first_named(chain_entries(self@), name@) == i);
                }
                if e.is_dir() {
                    match &e {
                        PackEntry::Directory { pos_children, .. } => {
                            return Ok(*pos_children);
                        },
                        _ => {
                            return Err(Error::NotFound);
                        },
                    }
                } else {
                    return Err(Error::ExpectedDirectory);
                }
            }
            i = i + 1;
        }
        proof {
            lemma_first_named(chain_entries(self@), name@);
        }
        Err(Error::NotFound)
    }
}

} // verus!

verus! {

/// Updating one slot of a chain updates exactly that position of its
/// flattened entries.
pub proof fn lemma_chain_entries_update(c: Seq<BlockView>, i: int, v: EntryView)
    requires
        chain_wf(c),
        0 <= i < 20 * c.len(),
    ensures
        chain_entries(chain_update(c, i, v)) == chain_entries(c).update(i, v),
{
    let cu = chain_update(c, i, v);
    assert(0 <= i / 20 < c.len() && 0 <= i % 20 < 20) by (nonlinear_arith)
        requires
            0 <= i < 20 * c.len(),
            c.len() >= 1,
    ;
    assert(cu.len() == c.len());
    assert forall|j: int| 0 <= j < 20 * c.len() implies #[trigger] chain_entries(cu)[j] == (if j
        == i {
        v
    } else {
        chain_entries(c)[j]
    }) by {
        assert(0 <= j / 20 < c.len() && 0 <= j % 20 < 20) by (nonlinear_arith)
            requires
                0 <= j < 20 * c.len(),
                c.len() >= 1,
        ;
        assert(chain_entries(cu)[j] == cu[j / 20].entries[j % 20]);
        if j / 20 == i / 20 {
            assert(cu[j / 20].entries == c[i / 20].entries.update(i % 20, v));
            if j % 20 == i % 20 {
                assert(j == i) by (nonlinear_arith)
                    requires
                        j / 20 == i / 20,
                        j % 20 == i % 20,
                        0 <= i,
                        0 <= j,
                ;
            } else {
                assert(j != i);
            }
        } else {
            assert(j != i);
            assert(cu[j / 20] == c[j / 20]);
        }
    }
    assert(chain_entries(cu) =~= chain_entries(c).update(i, v));
}

} // verus!
