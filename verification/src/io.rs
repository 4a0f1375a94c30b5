//! Reading and writing blocks and single entries at absolute offsets of the
//! archive image, applying the Blowfish envelope transparently.
//!
//! An entry is 128 bytes and entry slots start at multiples of 128 inside
//! their block, so a single entry can be re-enciphered in place without
//! touching its neighbours: the 8-byte ECB chunks of the entry line up with
//! the chunks of the whole block.

use vstd::prelude::*;

use crate::block::{
    block_bytes, block_decodable, block_wf, chain_wf, entry_file_offset, parsed_entries,
    seq_link, BlockView, PackBlock, PackBlockChain,
};
use crate::codec::{append_bytes, read_bytes, spliced, write_bytes};
use crate::crypto::{env_dec, env_enc, Blowfish};
use crate::entry::{entry_bytes, entry_wf, with_next, EntryView, PackEntry};
use crate::Error;

verus! {

/// The derived key of an optional cipher.
pub open spec fn opt_key(bf: Option<Blowfish>) -> Option<Seq<u8>> {
    match bf {
        Option::None => Option::None,
        Option::Some(b) => Option::Some(b.key()),
    }
}

/// An optional cipher that is usable when present.
pub open spec fn opt_wf(bf: Option<Blowfish>) -> bool {
    bf matches Option::Some(b) ==> b.wf()
}

/// The envelope ciphertext under an optional key; the clear bytes when none.
pub open spec fn env_enc_opt(k: Option<Seq<u8>>, d: Seq<u8>) -> Seq<u8> {
    match k {
        Option::None => d,
        Option::Some(key) => env_enc(key, d),
    }
}

/// The envelope plaintext under an optional key; the clear bytes when none.
pub open spec fn env_dec_opt(k: Option<Seq<u8>>, d: Seq<u8>) -> Seq<u8> {
    match k {
        Option::None => d,
        Option::Some(key) => env_dec(key, d),
    }
}

/// The plain bytes of the 2560-byte block region at `off`.
pub open spec fn plain_at(k: Option<Seq<u8>>, bytes: Seq<u8>, off: int) -> Seq<u8>
    recommends
        0 <= off,
        off + 2560 <= bytes.len(),
{
    env_dec_opt(k, bytes.subrange(off, off + 2560))
}

/// Whether a block can be read at `off`: the region exists and every entry
/// of its plaintext has a known type byte.
pub open spec fn block_at_ok(k: Option<Seq<u8>>, bytes: Seq<u8>, off: u64) -> bool {
    &&& off + 2560 <= bytes.len()
    &&& plain_at(k, bytes, off as int).len() == 2560
    &&& block_decodable(plain_at(k, bytes, off as int))
}

/// The block read at `off`.
pub open spec fn block_at(k: Option<Seq<u8>>, bytes: Seq<u8>, off: u64) -> BlockView
    recommends
        block_at_ok(k, bytes, off),
{
    BlockView { offset: off, entries: parsed_entries(plain_at(k, bytes, off as int)) }
}

/// A block read from plain bytes is valid: twenty entries whose names are
/// trimmed prefixes, hence writable again.
pub proof fn lemma_block_at_wf(k: Option<Seq<u8>>, bytes: Seq<u8>, off: u64)
    requires
        block_at_ok(k, bytes, off),
    ensures
        block_wf(block_at(k, bytes, off)),
{
    let p = plain_at(k, bytes, off as int);
    let b = block_at(k, bytes, off);
    assert forall|i: int| 0 <= i < 20 implies crate::entry::entry_wf(#[trigger] b.entries[i]) by {
        let region = p.subrange(128 * i, 128 * i + 128);
        crate::entry::lemma_trim_wf(region.subrange(1, 82));
    }
}

/// Applies the envelope to `d` under an optional cipher.
pub fn seal(bf: &Option<Blowfish>, d: &Vec<u8>) -> (r: Vec<u8>)
    requires
        opt_wf(*bf),
    ensures
        r@ == env_enc_opt(opt_key(*bf), d@),
        env_dec_opt(opt_key(*bf), r@) == d@,
        r@.len() == d@.len(),
{
    match bf {
        Option::Some(b) => crate::crypto::envelope_encrypt(b, d),
        Option::None => read_bytes(d, 0, d.len()),
    }
}

/// Removes the envelope from `d` under an optional cipher.
pub fn unseal(bf: &Option<Blowfish>, d: &Vec<u8>) -> (r: Vec<u8>)
    requires
        opt_wf(*bf),
    ensures
        r@ == env_dec_opt(opt_key(*bf), d@),
        r@.len() == d@.len(),
{
    match bf {
        Option::Some(b) => crate::crypto::envelope_decrypt(b, d),
        Option::None => read_bytes(d, 0, d.len()),
    }
}

/// Reads and decodes the block stored at `offset`. A region outside the
/// image or an unknown entry type byte is a corrupted archive.
pub fn read_block_at(bf: &Option<Blowfish>, data: &Vec<u8>, offset: u64) -> (r: Result<
    PackBlock,
    Error,
>)
    requires
        opt_wf(*bf),
    ensures
        block_at_ok(opt_key(*bf), data@, offset) ==> (r matches Ok(b) && b@ == block_at(
            opt_key(*bf),
            data@,
            offset,
        ) && block_wf(b@)),
        !block_at_ok(opt_key(*bf), data@, offset) ==> r == Err::<PackBlock, Error>(
            Error::CorruptedFile,
        ),
{
    if data.len() < 2560 || offset > (data.len() - 2560) as u64 {
        assert(!block_at_ok(opt_key(*bf), data@, offset));
        return Err(Error::CorruptedFile);
    }
    let off = offset as usize;
    let raw = read_bytes(data, off, 2560);
    let plain = unseal(bf, &raw);
    match PackBlock::from_bytes(&plain, offset) {
        Ok(b) => {
            assert(b@ =~= block_at(opt_key(*bf), data@, offset));
            Ok(b)
        },
        Err(e) => {
            assert(!block_at_ok(opt_key(*bf), data@, offset));
            Err(Error::CorruptedFile)
        },
    }
}

/// Encodes, enciphers and stores `block` at its own offset, overwriting the
/// region that holds it.
pub fn write_block(bf: &Option<Blowfish>, data: &mut Vec<u8>, block: &PackBlock)
    requires
        opt_wf(*bf),
        block_wf(block@),
        block@.offset + 2560 <= old(data).len(),
    ensures
        final(data)@ == spliced(
            old(data)@,
            block@.offset as int,
            env_enc_opt(opt_key(*bf), block_bytes(block@)),
        ),
        env_enc_opt(opt_key(*bf), block_bytes(block@)).len() == 2560,
        final(data).len() == old(data).len(),
        plain_at(opt_key(*bf), final(data)@, block@.offset as int) == block_bytes(block@),
{
    let plain = block.to_bytes();
    let enc = seal(bf, &plain);
    write_bytes(data, block.offset as usize, &enc);
    proof {
        assert(data@.subrange(block@.offset as int, block@.offset + 2560) =~= enc@);
    }
}

/// Encodes, enciphers and appends `block`, whose offset must be the current
/// end of the image.
pub fn append_block(bf: &Option<Blowfish>, data: &mut Vec<u8>, block: &PackBlock)
    requires
        opt_wf(*bf),
        block_wf(block@),
        block@.offset == old(data).len(),
    ensures
        final(data)@ == old(data)@ + env_enc_opt(opt_key(*bf), block_bytes(block@)),
        env_enc_opt(opt_key(*bf), block_bytes(block@)).len() == 2560,
        final(data).len() == old(data).len() + 2560,
        plain_at(opt_key(*bf), final(data)@, block@.offset as int) == block_bytes(block@),
{
    let plain = block.to_bytes();
    let enc = seal(bf, &plain);
    append_bytes(data, &enc);
    proof {
        assert(data@.subrange(block@.offset as int, block@.offset + 2560) =~= enc@);
    }
}

/// Encodes, enciphers and stores a single entry at the absolute offset of
/// its 128-byte slot.
pub fn write_entry_at(bf: &Option<Blowfish>, data: &mut Vec<u8>, offset: u64, entry: &PackEntry)
    requires
        opt_wf(*bf),
        entry_wf(entry@),
        offset + 128 <= old(data).len(),
    ensures
        final(data)@ == spliced(
            old(data)@,
            offset as int,
            env_enc_opt(opt_key(*bf), entry_bytes(entry@)),
        ),
        env_enc_opt(opt_key(*bf), entry_bytes(entry@)).len() == 128,
        final(data).len() == old(data).len(),
        env_dec_opt(opt_key(*bf), final(data)@.subrange(offset as int, offset + 128))
            == entry_bytes(entry@),
{
    let mut plain: Vec<u8> = Vec::new();
    entry.to_writer(&mut plain);
    proof {
        crate::entry::lemma_entry_bytes_len(entry@);
    }
    let enc = seal(bf, &plain);
    write_bytes(data, offset as usize, &enc);
    proof {
        assert(data@.subrange(offset as int, offset + 128) =~= enc@);
    }
}

impl PackBlockChain {
    /// Appends a fresh block at the end of the image and links it into the
    /// chain through the last entry of the previously last block. Returns
    /// the flattened index of the new block's first entry.
    pub fn create_new_block(&mut self, bf: &Option<Blowfish>, data: &mut Vec<u8>) -> (r: Result<
        usize,
        Error,
    >)
        requires
            opt_wf(*bf),
            chain_wf(old(self)@),
            20 * (old(self)@.len() + 1) <= usize::MAX,
            old(data).len() + 2560 <= u64::MAX,
            old(self)@.last().offset + 2560 <= old(data).len(),
        ensures
            ({
                let pre = old(self)@;
                let last = pre.len() - 1;
                let new_off = old(data).len() as u64;
                let linked = with_next(pre.last().entries[19], new_off);
                let entry_off = pre.last().offset + 19 * 128;
                let fresh = BlockView {
                    offset: new_off,
                    entries: Seq::new(20, |i: int| EntryView::Empty { next_block: 0 }),
                };
                &&& r matches Ok(idx) && idx == 20 * pre.len()
                &&& final(self)@.len() == pre.len() + 1
                &&& (forall|i: int| 0 <= i < last ==> final(self)@[i] == pre[i])
                &&& final(self)@[last] == (BlockView {
                    offset: pre.last().offset,
                    entries: pre.last().entries.update(19, linked),
                })
                &&& final(self)@[last + 1] == fresh
                &&& chain_wf(final(self)@)
                &&& final(data)@ == spliced(
                    old(data)@,
                    entry_off,
                    env_enc_opt(opt_key(*bf), entry_bytes(linked)),
                ) + env_enc_opt(opt_key(*bf), block_bytes(fresh))
                &&& final(data).len() == old(data).len() + 2560
            }),
    {
        let ghost pre = self@;
        let new_off = data.len() as u64;
        let lasti = self.blocks.len() - 1;
        proof {
            assert(block_wf(pre[lasti as int]));
        }
        let mut blk = self.blocks.remove(lasti);
        let mut e = blk.entries.remove(19);
        e.set_next_block(new_off);
        blk.entries.insert(19, e);
        proof {
            assert(blk@.entries =~= pre.last().entries.update(
                19,
                with_next(pre.last().entries[19], new_off),
            ));
            assert(block_wf(blk@));
        }
        let entry_off = blk.offset + 19 * 128;
        write_entry_at(bf, data, entry_off, &blk.entries[19]);
        let ghost blkv = blk@;
        self.blocks.insert(lasti, blk);
        let fresh = PackBlock::new(new_off);
        let ghost freshv = fresh@;
        append_block(bf, data, &fresh);
        self.blocks.push(fresh);
        proof {
            assert(self@ =~= pre.update(pre.len() - 1, blkv).push(freshv));
            assert(self@.len() == pre.len() + 1);
            assert(forall|i: int| 0 <= i < pre.len() - 1 ==> self@[i] == pre[i]);
            assert forall|i: int| 0 <= i < self@.len() implies block_wf(#[trigger] self@[i]) by {
                if i < pre.len() - 1 {
                    assert(self@[i] == pre[i]);
                    assert(block_wf(pre[i]));
                } else if i == pre.len() - 1 {
                    assert(self@[i] == blkv);
                } else {
                    assert(self@[i] == freshv);
                }
            }
            assert(chain_wf(self@));
        }
        Ok(20 * (self.blocks.len() - 1))
    }
}

} // verus!
