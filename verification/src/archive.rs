//! The archive façade: opening and creating archives held as in-memory
//! images, and the mutations of the virtual filesystem.
//!
//! An image a caller brings is checked in order: size, signature, version,
//! encryption flag, key verification, and then the whole index is parsed.
//! A fresh image is a header and a root block whose first entry is the `.`
//! directory of the root chain; such an image is accepted back by `open_in`
//! under the same key.

use vstd::prelude::*;

use crate::block::{
    block_bytes, block_wf, chain_entries, chain_update, chain_wf, entry_file_offset,
    lemma_entries_bytes_index, lemma_entries_bytes_len, lemma_seq_link_zero, seq_link, BlockView,
    PackBlock, PackBlockChain,
};
use crate::codec::{bytes_eq, read_bytes, spliced, u32_of_le};
use crate::crypto::{check_bytes, create_blowfish, key_check_bytes, key_len_ok, salted, Blowfish};
use crate::entry::{
    entry_bytes, entry_next, entry_wf, has_name, lemma_entry_roundtrip, name_wf, parsed_entry,
    with_next, EntryView, PackEntry,
};
use crate::euckr::{encode_name, euc_kr_bytes};
use crate::header::{header_bytes, header_wf, pk2_signature, signature_vec, PackHeader};
use crate::io::{
    append_block, block_at, block_at_ok, env_enc_opt, opt_key, opt_wf, plain_at, write_entry_at,
};
use crate::manager::{
    chain_fuel, child_of, comps_view, is_child_entry, parse_chain, resolve_entry_spec,
    root_only_parse, validate_spec, BlockManager,
};
use crate::path::{check_root, components, split_comps};
use crate::{ChainIndex, Error, PK2_ROOT_BLOCK, PK2_VERSION};

verus! {

/// Whether the header of `bytes` admits opening under `key`: the image
/// holds a header with the right signature and version, a known encryption
/// flag, and, when encrypted, a key the cipher takes whose check bytes
/// match the stored ones.
pub open spec fn header_accepts(bytes: Seq<u8>, key: Seq<u8>) -> bool {
    &&& bytes.len() >= 256
    &&& bytes.subrange(0, 30) == pk2_signature()
    &&& u32_of_le(bytes.subrange(30, 34)) == PK2_VERSION
    &&& (bytes[37] == 0 || bytes[37] == 1)
    &&& (bytes[37] == 1 ==> key_len_ok(key.len()) && bytes.subrange(40, 43) == check_bytes(
        salted(key),
    ))
}

/// The cipher key in effect for `bytes` opened under `key`.
pub open spec fn effective_key(bytes: Seq<u8>, key: Seq<u8>) -> Option<Seq<u8>> {
    if bytes[37] == 1 {
        Option::Some(salted(key))
    } else {
        Option::None
    }
}

/// A sufficient condition for `open_in` to succeed: the header admits the
/// key and the root chain parses with no directory entries beyond the `.`
/// and `..` links. Every image `create_new_in` makes satisfies this under
/// its own key.
pub open spec fn open_accepts(bytes: Seq<u8>, key: Seq<u8>) -> bool {
    &&& header_accepts(bytes, key)
    &&& root_only_parse(effective_key(bytes, key), bytes)
}

/// Every chain's first entry is the `.` directory naming the chain itself.
pub open spec fn dot_ok(m: &BlockManager) -> bool {
    forall|k: u64|
        #[trigger] m.has_chain(k) ==> chain_entries(m.chain_view(k)).len() >= 1 && (chain_entries(
            m.chain_view(k),
        )[0] matches EntryView::Directory { name, pos_children, .. } && name == seq![46u8]
            && pos_children == k)
}

/// An open archive: the host image, the cipher of its index blocks, and
/// the parsed chain map.
pub struct Pk2 {
    pub data: Vec<u8>,
    pub blowfish: Option<Blowfish>,
    pub block_manager: BlockManager,
}

impl Pk2 {
    /// The cipher key of the index blocks, if the archive is encrypted.
    pub open spec fn key(&self) -> Option<Seq<u8>> {
        opt_key(self.blowfish)
    }

    /// Validity of an open archive: a usable cipher, a valid chain map
    /// holding the root chain, and every loaded block lying inside the
    /// image.
    pub open spec fn wf(&self) -> bool {
        &&& opt_wf(self.blowfish)
        &&& self.block_manager.wf()
        &&& self.block_manager.has_chain(PK2_ROOT_BLOCK)
        &&& forall|k: u64, j: int|
            self.block_manager.has_chain(k) && 0 <= j < self.block_manager.chain_view(k).len()
                ==> (#[trigger] self.block_manager.chain_view(k)[j].offset) + 2560
                <= self.data@.len()
    }

    /// Opens an archive from an image. The header is validated, the key
    /// verified against the stored check bytes, and the whole index
    /// parsed.
    pub fn open_in(data: Vec<u8>, key: &[u8]) -> (r: Result<Pk2, Error>)
        ensures
            r matches Ok(pk2) ==> pk2.wf() && pk2.data@ == data@ && header_accepts(data@, key@)
                && pk2.key() == effective_key(data@, key@) && (forall|k: u64|
                #[trigger] pk2.block_manager.has_chain(k) ==> parse_chain(
                    effective_key(data@, key@),
                    data@,
                    k,
                    chain_fuel(data@.len()),
                ) == Option::Some(pk2.block_manager.chain_view(k))),
            open_accepts(data@, key@) ==> r is Ok,
            data@.len() < 256 ==> r == Err::<Pk2, Error>(Error::CorruptedFile),
            data@.len() >= 256 && data@.subrange(0, 30) != pk2_signature() ==> r == Err::<
                Pk2,
                Error,
            >(Error::CorruptedFile),
            data@.len() >= 256 && data@.subrange(0, 30) == pk2_signature() && u32_of_le(
                data@.subrange(30, 34),
            ) != PK2_VERSION ==> r == Err::<Pk2, Error>(Error::UnsupportedVersion),
            data@.len() >= 256 && data@.subrange(0, 30) == pk2_signature() && u32_of_le(
                data@.subrange(30, 34),
            ) == PK2_VERSION && data@[37] > 1 ==> r == Err::<Pk2, Error>(Error::CorruptedFile),
            data@.len() >= 256 && data@.subrange(0, 30) == pk2_signature() && u32_of_le(
                data@.subrange(30, 34),
            ) == PK2_VERSION && data@[37] == 1 && !key_len_ok(key@.len()) ==> r == Err::<
                Pk2,
                Error,
            >(Error::InvalidKey),
            data@.len() >= 256 && data@.subrange(0, 30) == pk2_signature() && u32_of_le(
                data@.subrange(30, 34),
            ) == PK2_VERSION && data@[37] == 1 && key_len_ok(key@.len()) && data@.subrange(
                40,
                43,
            ) != check_bytes(salted(key@)) ==> r == Err::<Pk2, Error>(Error::InvalidKey),
            header_accepts(data@, key@) ==> (r is Ok || r == Err::<Pk2, Error>(
                Error::CorruptedFile,
            )),
    {
        let header = match PackHeader::from_reader(&data) {
            Ok(h) => h,
            Err(e) => {
                return Err(e);
            },
        };
        let sig = signature_vec();
        if !bytes_eq(&header.signature, &sig) {
            return Err(Error::CorruptedFile);
        }
        if header.version != PK2_VERSION {
            return Err(Error::UnsupportedVersion);
        }
        if header.flag > 1 {
            return Err(Error::CorruptedFile);
        }
        let blowfish: Option<Blowfish> = if header.flag == 1 {
            let bf = match create_blowfish(key) {
                Ok(bf) => bf,
                Err(e) => {
                    return Err(e);
                },
            };
            let chk = key_check_bytes(&bf);
            let stored = read_bytes(&header.verify, 0, 3);
            proof {
                assert(stored@ =~= data@.subrange(40, 43));
            }
            if !bytes_eq(&chk, &stored) {
                return Err(Error::InvalidKey);
            }
            Some(bf)
        } else {
            None
        };
        proof {
            assert(opt_key(blowfish) == effective_key(data@, key@));
            assert(header_accepts(data@, key@));
        }
        let block_manager = match BlockManager::new(&blowfish, &data) {
            Ok(m) => m,
            Err(e) => {
                return Err(e);
            },
        };
        proof {
            assert forall|k: u64, j: int|
                block_manager.has_chain(k) && 0 <= j < block_manager.chain_view(k).len() implies (
            #[trigger] block_manager.chain_view(k)[j].offset) + 2560 <= data@.len() by {
                crate::manager::lemma_parse_chain_props(
                    opt_key(blowfish),
                    data@,
                    k,
                    chain_fuel(data@.len()),
                );
            }
        }
        Ok(Pk2 { data, blowfish, block_manager })
    }

    /// Creates a fresh archive image: a header (encrypted exactly when the
    /// key is non-empty) and a root block whose first entry is the root's
    /// own `.` directory. The image is accepted back by `open_in` under
    /// the same key.
    pub fn create_new_in(key: &[u8]) -> (r: Result<Pk2, Error>)
        ensures
            r is Ok <==> key@.len() == 0 || key_len_ok(key@.len()),
            r matches Err(e) ==> e == Error::InvalidKey,
            r matches Ok(pk2) ==> {
                &&& pk2.wf()
                &&& pk2.data@.len() == 2816
                &&& pk2.data@.subrange(0, 30) == pk2_signature()
                &&& pk2.data@[37] == (if key@.len() == 0 {
                    0u8
                } else {
                    1u8
                })
                &&& (key@.len() > 0 ==> pk2.data@.subrange(40, 43) == check_bytes(salted(key@)))
                &&& (key@.len() == 0 ==> pk2.data@.subrange(40, 56) == Seq::new(
                    16,
                    |i: int| 0u8,
                ))
                &&& pk2.data@.subrange(30, 34) == crate::codec::u32_le(PK2_VERSION)
                &&& pk2.data@.subrange(34, 37) == seq![0u8, 0u8, 0u8]
                &&& pk2.data@.subrange(38, 40) == seq![0u8, 0u8]
                &&& pk2.data@.subrange(43, 56) == Seq::new(13, |i: int| 0u8)
                &&& pk2.data@.subrange(56, 256) == Seq::new(200, |i: int| 0u8)
                &&& pk2.key() == effective_key(pk2.data@, key@)
                &&& open_accepts(pk2.data@, key@)
                &&& dot_ok(&pk2.block_manager)
                &&& child_links_ok(&pk2.block_manager, pk2.data@.len())
                &&& (forall|k: u64|
                    #[trigger] pk2.block_manager.has_chain(k) ==> k == PK2_ROOT_BLOCK)
                &&& chain_entries(pk2.block_manager.chain_view(PK2_ROOT_BLOCK)).len() == 20
                &&& chain_entries(pk2.block_manager.chain_view(PK2_ROOT_BLOCK))[0]
                    == (EntryView::Directory {
                    name: seq![46u8],
                    access_time: crate::entry::zero_time(),
                    create_time: crate::entry::zero_time(),
                    modify_time: crate::entry::zero_time(),
                    pos_children: PK2_ROOT_BLOCK,
                    next_block: 0,
                })
                &&& (forall|j: int|
                    1 <= j < 20 ==> chain_entries(pk2.block_manager.chain_view(PK2_ROOT_BLOCK))[
                        j
                    ] == (EntryView::Empty { next_block: 0u64 }))
            },
    {
        let blowfish: Option<Blowfish> = if key.len() == 0 {
            None
        } else {
            match create_blowfish(key) {
                Ok(bf) => Some(bf),
                Err(e) => {
                    return Err(e);
                },
            }
        };
        let mut verify: Vec<u8> = Vec::new();
        match &blowfish {
            Some(bf) => {
                let chk = key_check_bytes(bf);
                crate::codec::append_bytes(&mut verify, &chk);
                crate::codec::append_zeros(&mut verify, 13);
            },
            None => {
                crate::codec::append_zeros(&mut verify, 16);
            },
        }
        let header = PackHeader {
            signature: signature_vec(),
            version: PK2_VERSION,
            flag: if key.len() == 0 {
                0
            } else {
                1
            },
            verify,
        };
        let mut data: Vec<u8> = Vec::new();
        header.to_writer(&mut data);
        let ghost hdr = data@;
        let mut root = PackBlock::new(PK2_ROOT_BLOCK);
        proof {
            reveal_strlit(".");
        }
        let dot = match PackEntry::new_directory(".", ChainIndex(PK2_ROOT_BLOCK), 0) {
            Ok(e) => e,
            Err(_) => {
                proof {
                    assert(euc_kr_bytes("."@) =~= seq![46u8]);
                    assert(false);
                }
                return Err(Error::InvalidKey);
            },
        };
        proof {
            assert(euc_kr_bytes("."@) =~= seq![46u8]);
        }
        let ghost dotv = dot@;
        let ghost dotev = dot;
        let ghost pre_vec = root.entries@;
        let ghost prev = root@;
        root.entries.set(0, dot);
        let ghost rootv = root@;
        proof {
            assert(root.entries@.len() == 20);
            assert(root.entries@ == pre_vec.update(0, dotev));
            assert forall|i: int| 0 <= i < 20 implies #[trigger] rootv.entries[i] == (if i == 0 {
                dotv
            } else {
                EntryView::Empty { next_block: 0u64 }
            }) by {
                assert(rootv.entries[i] == root.entries@[i]@);
                if i == 0 {
                    assert(root.entries@[0] == dotev);
                } else {
                    assert(root.entries@[i] == pre_vec[i]);
                    assert(prev.entries[i] == pre_vec[i]@);
                    assert(prev.entries[i] == (EntryView::Empty { next_block: 0u64 }));
                }
            }
            assert(block_wf(rootv));
            assert(rootv.entries[0] matches EntryView::Directory { name, pos_children, next_block, .. }
                && name == seq![46u8] && pos_children == PK2_ROOT_BLOCK && next_block == 0);
            assert(forall|i: int| 1 <= i < 20 ==> rootv.entries[i] == (EntryView::Empty {
                next_block: 0u64,
            }));
        }
        append_block(&blowfish, &mut data, &root);
        let ghost image = data@;
        let ghost k = opt_key(blowfish);
        proof {
            assert(image.len() == 2816);
            assert(image =~= hdr + env_enc_opt(k, block_bytes(rootv)));
            assert(image.subrange(0, 30) =~= pk2_signature());
            assert(image.subrange(30, 34) =~= crate::codec::u32_le(PK2_VERSION));
            crate::codec::lemma_u32_le_roundtrip(PK2_VERSION);
            assert(image[37] == (if key@.len() == 0 {
                0u8
            } else {
                1u8
            }));
            if key@.len() > 0 {
                assert(image.subrange(40, 43) =~= check_bytes(salted(key@)));
                assert(image.subrange(43, 56) =~= Seq::new(13, |i: int| 0u8));
            } else {
                assert(image.subrange(40, 43) =~= seq![0u8, 0u8, 0u8]);
                assert(image.subrange(40, 56) =~= Seq::new(16, |i: int| 0u8));
                assert(image.subrange(43, 56) =~= Seq::new(13, |i: int| 0u8));
            }
            assert(image.subrange(34, 37) =~= seq![0u8, 0u8, 0u8]);
            assert(image.subrange(38, 40) =~= seq![0u8, 0u8]);
            assert(image.subrange(56, 256) =~= Seq::new(200, |i: int| 0u8));
            assert(header_accepts(image, key@));
            assert(k == effective_key(image, key@));
            // the root block region deciphers to the block bytes it encodes
            assert(plain_at(k, image, PK2_ROOT_BLOCK as int) == block_bytes(rootv));
            lemma_root_only_image(k, image, rootv);
        }
        let block_manager = match BlockManager::new(&blowfish, &data) {
            Ok(m) => m,
            Err(_) => {
                proof {
                    assert(false);
                }
                return Err(Error::InvalidKey);
            },
        };
        proof {
            assert forall|k2: u64, j: int|
                block_manager.has_chain(k2) && 0 <= j < block_manager.chain_view(k2).len() implies
                (#[trigger] block_manager.chain_view(k2)[j].offset) + 2560 <= data@.len() by {
                crate::manager::lemma_parse_chain_props(k, data@, k2, chain_fuel(data@.len()));
            }
            assert forall|k2: u64| #[trigger] block_manager.has_chain(k2) implies chain_entries(
                block_manager.chain_view(k2),
            ).len() >= 1 && (chain_entries(block_manager.chain_view(k2))[0]
                matches EntryView::Directory { name, pos_children, .. } && name == seq![46u8]
                && pos_children == k2) by {
                assert(parse_chain(k, data@, k2, chain_fuel(data@.len()))
                    == Option::Some(block_manager.chain_view(k2)));
                assert(parse_chain(k, data@, PK2_ROOT_BLOCK, chain_fuel(data@.len()))
                    == Option::Some(seq![rootv]));
                if k2 != PK2_ROOT_BLOCK {
                    assert(root_only_parse(k, data@));
                    assert(false);
                } else {
                    assert(block_manager.chain_view(k2) == seq![rootv]);
                    assert(chain_entries(seq![rootv])[0] == rootv.entries[0]);
                }
            }
            assert(block_manager.chain_view(PK2_ROOT_BLOCK) == seq![rootv]);
            assert forall|j: int| 0 <= j < 20 implies #[trigger] chain_entries(seq![rootv])[j]
                == rootv.entries[j] by {
                assert(j / 20 == 0 && j % 20 == j);
            }
            assert forall|k2: u64, j: int| !(#[trigger] child_at(&block_manager, k2, j)) by {
                if child_at(&block_manager, k2, j) {
                    assert(k2 == PK2_ROOT_BLOCK);
                    assert(block_manager.chain_view(k2) == seq![rootv]);
                    assert(chain_entries(seq![rootv])[j] == rootv.entries[j]);
                    assert(!is_child_entry(rootv.entries[j]));
                }
            }
            assert(child_links_ok(&block_manager, data@.len()));
        }
        Ok(Pk2 { data, blowfish, block_manager })
    }
}

/// The image of a fresh archive parses to the root chain alone, whose only
/// named entry is the root's `.` directory.
proof fn lemma_root_only_image(k: Option<Seq<u8>>, image: Seq<u8>, rootv: BlockView)
    requires
        image.len() == 2816,
        plain_at(k, image, crate::PK2_ROOT_BLOCK as int) == block_bytes(rootv),
        block_wf(rootv),
        rootv.offset == crate::PK2_ROOT_BLOCK,
        rootv.entries[0] matches EntryView::Directory {
            name,
            pos_children,
            next_block,
            ..
        } && name == seq![46u8] && pos_children == crate::PK2_ROOT_BLOCK as u64 && next_block
            == 0,
        forall|i: int|
            1 <= i < 20 ==> rootv.entries[i] == (EntryView::Empty { next_block: 0u64 }),
    ensures
        root_only_parse(k, image),
        parse_chain(k, image, crate::PK2_ROOT_BLOCK, chain_fuel(image.len())) == Option::Some(
            seq![rootv],
        ),
{
    let off = crate::PK2_ROOT_BLOCK;
    let p = plain_at(k, image, off as int);
    lemma_entries_bytes_len(rootv.entries);
    assert(p.len() == 2560);
    assert forall|i: int| 0 <= i < 20 implies #[trigger] p[128 * i] <= 2 by {
        lemma_entries_bytes_index(rootv.entries, i);
        assert(p.subrange(128 * i, 128 * i + 128) == entry_bytes(rootv.entries[i]));
        assert(p[128 * i] == entry_bytes(rootv.entries[i])[0]);
        lemma_entry_roundtrip(rootv.entries[i]);
    }
    assert(block_at_ok(k, image, off));
    let b = block_at(k, image, off);
    assert forall|i: int| 0 <= i < 20 implies #[trigger] b.entries[i] == (if i == 0 {
        rootv.entries[0]
    } else {
        EntryView::Empty { next_block: 0u64 }
    }) by {
        lemma_entries_bytes_index(rootv.entries, i);
        assert(p.subrange(128 * i, 128 * i + 128) == entry_bytes(rootv.entries[i]));
        lemma_entry_roundtrip(rootv.entries[i]);
        assert(b.entries[i] == parsed_entry(p.subrange(128 * i, 128 * i + 128)));
    }
    assert(b.entries =~= rootv.entries);
    assert(b =~= rootv);
    assert forall|i: int| 0 <= i < 20 implies entry_next(#[trigger] rootv.entries[i]) == 0 by {}
    lemma_seq_link_zero(rootv.entries);
    assert(seq_link(b.entries) == 0);
    assert(chain_fuel(image.len()) == 2);
    assert(parse_chain(k, image, off, 2) == Option::Some(seq![b]));
    let bs = seq![rootv];
    assert(parse_chain(k, image, off, chain_fuel(image.len())) == Option::Some(bs));
    assert forall|j: int| 0 <= j < chain_entries(bs).len() implies !is_child_entry(
        #[trigger] chain_entries(bs)[j],
    ) by {
        assert(chain_entries(bs).len() == 20);
        assert(chain_entries(bs)[j] == bs[j / 20].entries[j % 20]);
        assert(j / 20 == 0 && j % 20 == j);
    }
}

} // verus!

verus! {

impl Pk2 {
    /// The entry at `(chain, idx)`, if the chain is loaded and the index in
    /// range.
    pub fn get_entry(&self, chain: ChainIndex, idx: usize) -> (r: Option<PackEntry>)
        requires
            self.wf(),
        ensures
            (self.block_manager.has_chain(chain.0) && idx < chain_entries(
                self.block_manager.chain_view(chain.0),
            ).len()) <==> r is Some,
            r matches Some(e) ==> e@ == chain_entries(self.block_manager.chain_view(chain.0))[
                idx as int
            ],
    {
        match self.block_manager.get(chain) {
            Some(c) => {
                proof {
                    self.block_manager.lemma_chain_view_wf(chain.0);
                }
                c.get(idx)
            },
            None => None,
        }
    }

    /// Tombstones the file named by `path`: the entry becomes a free slot
    /// that keeps its block link, in memory and in the image. No chain
    /// gains or loses a block, and the payload bytes stay where they are.
    pub fn delete_file(&mut self, path: &str) -> (r: Result<(), Error>)
        requires
            old(self).wf(),
        ensures
            final(self).wf(),
            final(self).blowfish == old(self).blowfish,
            final(self).data@.len() == old(self).data@.len(),
            dot_ok(&old(self).block_manager) ==> dot_ok(&final(self).block_manager),
            child_links_ok(&old(self).block_manager, old(self).data@.len()) ==> child_links_ok(
                &final(self).block_manager,
                final(self).data@.len(),
            ),
            r is Err ==> *final(self) == *old(self),
            !(path@.len() >= 1 && path@[0] == '/') ==> r == Err::<(), Error>(Error::InvalidPath),
            path@.len() >= 1 && path@[0] == '/' ==> ({
                let so = resolve_entry_spec(
                    &old(self).block_manager,
                    PK2_ROOT_BLOCK,
                    split_comps(path@),
                );
                &&& (so matches Err(e) ==> r == Err::<(), Error>(e))
                &&& (so matches Ok(o) ==> (o is None ==> r == Err::<(), Error>(
                    Error::InvalidPath,
                )))
                &&& (so matches Ok(o) ==> (o matches Some((p, f)) ==> {
                    let e = chain_entries(old(self).block_manager.chain_view(p))[f];
                    &&& (!(e is File) ==> r == Err::<(), Error>(Error::ExpectedFile))
                    &&& (e is File ==> {
                        let cleared = EntryView::Empty { next_block: entry_next(e) };
                        &&& r is Ok
                        &&& (forall|k: u64|
                            (#[trigger] final(self).block_manager.has_chain(k)) == old(
                                self,
                            ).block_manager.has_chain(k))
                        &&& (forall|k: u64|
                            k != p && old(self).block_manager.has_chain(k) ==> (
                            #[trigger] final(self).block_manager.chain_view(k)) == old(
                                self,
                            ).block_manager.chain_view(k))
                        &&& final(self).block_manager.chain_view(p) == chain_update(
                            old(self).block_manager.chain_view(p),
                            f,
                            cleared,
                        )
                        &&& final(self).block_manager.chain_view(p).len() == old(
                            self,
                        ).block_manager.chain_view(p).len()
                        &&& final(self).data@ == spliced(
                            old(self).data@,
                            entry_file_offset(old(self).block_manager.chain_view(p), f),
                            env_enc_opt(
                                old(self).key(),
                                entry_bytes(cleared),
                            ),
                        )
                        &&& ((forall|j: int|
                            0 <= j < chain_entries(old(self).block_manager.chain_view(p)).len()
                                && j != f ==> !has_name(
                                #[trigger] chain_entries(old(self).block_manager.chain_view(p))[
                                    j
                                ],
                                crate::entry::entry_name_raw(e),
                            )) ==> crate::block::first_named(
                            chain_entries(final(self).block_manager.chain_view(p)),
                            crate::entry::entry_name_raw(e),
                        ) == -1)
                    })
                }))
            }),
    {
        let ghost pre = *self;
        if let Err(e) = check_root(path) {
            return Err(e);
        }
        let comps = components(path);
        let rr = self.block_manager.resolve_path_to_entry_and_parent(
            ChainIndex(PK2_ROOT_BLOCK),
            &comps,
        );
        let (ci, idx, e) = match rr {
            Err(e) => {
                return Err(e);
            },
            Ok(None) => {
                return Err(Error::InvalidPath);
            },
            Ok(Some(t)) => t,
        };
        if !e.is_file() {
            return Err(Error::ExpectedFile);
        }
        let nb = e.next_block();
        let chain = self.block_manager.get(ci).unwrap();
        proof {
            self.block_manager.lemma_chain_view_wf(ci.0);
        }
        let off = chain.file_offset_for_entry(idx).unwrap();
        proof {
            assert((idx as int % 20) * 128 <= 2432);
            assert(off + 128 <= self.data@.len());
        }
        let cleared = PackEntry::new_empty(nb);
        let ghost clearedv = cleared@;
        let c = self.block_manager.get_mut(ci);
        proof {
            crate::manager::lemma_idx_of_key(pre.block_manager.keys@, ci.0);
        }
        c.set_entry(idx, cleared);
        proof {
            let ix = crate::manager::idx_of_key(pre.block_manager.keys@, ci.0);
            assert(self.block_manager.chains@[ix]@ == chain_update(
                pre.block_manager.chain_view(ci.0),
                idx as int,
                clearedv,
            ));
            lemma_manager_update_frame(&pre.block_manager, &self.block_manager, ci.0);
            assert(self.block_manager.wf());
        }
        let cleared2 = PackEntry::new_empty(nb);
        write_entry_at(&self.blowfish, &mut self.data, off, &cleared2);
        proof {
            assert(self.wf());
            {
                let oldes = chain_entries(pre.block_manager.chain_view(ci.0));
                let n = crate::entry::entry_name_raw(e@);
                crate::block::lemma_chain_entries_update(
                    pre.block_manager.chain_view(ci.0),
                    idx as int,
                    clearedv,
                );
                if forall|j: int|
                    0 <= j < oldes.len() && j != idx ==> !has_name(#[trigger] oldes[j], n) {
                    let newes = chain_entries(self.block_manager.chain_view(ci.0));
                    assert(newes == oldes.update(idx as int, clearedv));
                    assert forall|j: int| 0 <= j < newes.len() implies !has_name(
                        #[trigger] newes[j],
                        n,
                    ) by {
                        if j == idx {
                            assert(newes[j] is Empty);
                        } else {
                            assert(newes[j] == oldes[j]);
                        }
                    }
                    crate::block::lemma_first_named_none(newes, n);
                }
            }
            if child_links_ok(&pre.block_manager, pre.data@.len()) {
                assert(!is_child_entry(
                    chain_entries(pre.block_manager.chain_view(ci.0))[idx as int],
                ));
                lemma_child_links_entry_swap(
                    &pre.block_manager,
                    &self.block_manager,
                    ci.0,
                    idx as int,
                    clearedv,
                    pre.data@.len(),
                    self.data@.len(),
                );
            }
            if dot_ok(&pre.block_manager) {
                assert forall|k: u64| #[trigger] self.block_manager.has_chain(k) implies
                    chain_entries(self.block_manager.chain_view(k)).len() >= 1 && (chain_entries(
                    self.block_manager.chain_view(k),
                )[0] matches EntryView::Directory { name, pos_children, .. } && name == seq![46u8]
                    && pos_children == k) by {
                    if k == ci.0 {
                        assert(chain_entries(pre.block_manager.chain_view(k))[0] is Directory);
                        assert(chain_entries(pre.block_manager.chain_view(k))[idx as int]
                            is File);
                        assert(idx != 0);
                        assert(chain_entries(self.block_manager.chain_view(k))[0]
                            == chain_entries(pre.block_manager.chain_view(k))[0]);
                    } else {
                        assert(self.block_manager.chain_view(k) == pre.block_manager.chain_view(
                            k,
                        ));
                    }
                }
            }
        }
        Ok(())
    }
}

/// After replacing the chain of `k` by a valid chain with the same
/// starting offset, the map is still valid and every other chain is
/// unchanged.
pub proof fn lemma_manager_update_frame(pre: &BlockManager, post: &BlockManager, k: u64)
    requires
        pre.wf(),
        pre.has_chain(k),
        post.keys@ == pre.keys@,
        post.chains@ == pre.chains@.update(
            crate::manager::idx_of_key(pre.keys@, k),
            post.chains@[crate::manager::idx_of_key(pre.keys@, k)],
        ),
        ({
            let nc = post.chains@[crate::manager::idx_of_key(pre.keys@, k)]@;
            &&& chain_wf(nc)
            &&& nc[0].offset == k
            &&& 20 * (nc.len() + 1) <= usize::MAX
            &&& forall|j: int| 0 <= j < nc.len() ==> (#[trigger] nc[j].offset) + 2560 <= u64::MAX
        }),
    ensures
        post.wf(),
        forall|k2: u64| (#[trigger] post.has_chain(k2)) == pre.has_chain(k2),
        post.has_chain(k),
        post.chain_view(k) == post.chains@[crate::manager::idx_of_key(pre.keys@, k)]@,
        forall|k2: u64|
            k2 != k && pre.has_chain(k2) ==> (#[trigger] post.chain_view(k2)) == pre.chain_view(
                k2,
            ),
{
    crate::manager::lemma_idx_of_key(pre.keys@, k);
    let ix = crate::manager::idx_of_key(pre.keys@, k);
    assert forall|k2: u64| k2 != k && pre.has_chain(k2) implies (#[trigger] post.chain_view(k2))
        == pre.chain_view(k2) by {
        crate::manager::lemma_idx_of_key(pre.keys@, k2);
        let ix2 = crate::manager::idx_of_key(pre.keys@, k2);
        assert(pre.keys@[ix2] == k2 && pre.keys@[ix] == k);
        assert(ix2 != ix);
    }
}

} // verus!

verus! {

impl Pk2 {
    /// Starts a new directory chain: a block holding the `.` and `..`
    /// links is appended at the end of the image, and the empty slot
    /// `(cur, slot)` becomes the directory entry pointing at it.
    fn create_new_block_chain(&mut self, cur: ChainIndex, slot: usize, dir_name: &str) -> (r:
        Result<ChainIndex, Error>)
        requires
            old(self).wf(),
            old(self).block_manager.has_chain(cur.0),
            slot < chain_entries(old(self).block_manager.chain_view(cur.0)).len(),
            chain_entries(old(self).block_manager.chain_view(cur.0))[slot as int] is Empty,
        ensures
            final(self).wf(),
            final(self).key() == old(self).key(),
            final(self).data@.len() >= old(self).data@.len(),
            r is Err ==> *final(self) == *old(self),
            r is Ok <==> name_wf(euc_kr_bytes(dir_name@)) && old(self).data@.len() <= usize::MAX
                - 2560,
            !name_wf(euc_kr_bytes(dir_name@)) ==> r == Err::<ChainIndex, Error>(
                Error::NonUnicodePath,
            ),
            name_wf(euc_kr_bytes(dir_name@)) && old(self).data@.len() > usize::MAX - 2560 ==> r
                == Err::<ChainIndex, Error>(Error::Io),
            r matches Ok(nc) ==> {
                &&& nc.0 == old(self).data@.len()
                &&& final(self).data@.len() == old(self).data@.len() + 2560
                &&& final(self).block_manager.has_chain(nc.0)
                &&& (forall|k: u64|
                    k != nc.0 ==> (#[trigger] final(self).block_manager.has_chain(k)) == old(
                        self,
                    ).block_manager.has_chain(k))
                &&& (forall|k: u64|
                    k != nc.0 && k != cur.0 && old(self).block_manager.has_chain(k) ==> (
                    #[trigger] final(self).block_manager.chain_view(k)) == old(
                        self,
                    ).block_manager.chain_view(k))
                &&& final(self).block_manager.chain_view(cur.0) == chain_update(
                    old(self).block_manager.chain_view(cur.0),
                    slot as int,
                    EntryView::Directory {
                        name: euc_kr_bytes(dir_name@),
                        access_time: crate::entry::zero_time(),
                        create_time: crate::entry::zero_time(),
                        modify_time: crate::entry::zero_time(),
                        pos_children: nc.0,
                        next_block: entry_next(
                            chain_entries(old(self).block_manager.chain_view(cur.0))[slot as int],
                        ),
                    },
                )
                &&& chain_entries(final(self).block_manager.chain_view(nc.0)).len() == 20
                &&& chain_entries(final(self).block_manager.chain_view(nc.0))[0]
                    == (EntryView::Directory {
                    name: seq![46u8],
                    access_time: crate::entry::zero_time(),
                    create_time: crate::entry::zero_time(),
                    modify_time: crate::entry::zero_time(),
                    pos_children: nc.0,
                    next_block: 0,
                })
                &&& chain_entries(final(self).block_manager.chain_view(nc.0))[1]
                    == (EntryView::Directory {
                    name: seq![46u8, 46u8],
                    access_time: crate::entry::zero_time(),
                    create_time: crate::entry::zero_time(),
                    modify_time: crate::entry::zero_time(),
                    pos_children: cur.0,
                    next_block: 0,
                })
                &&& (forall|j: int|
                    2 <= j < 20 ==> chain_entries(final(self).block_manager.chain_view(nc.0))[j]
                        == (EntryView::Empty { next_block: 0u64 }))
            },
            dot_ok(&old(self).block_manager) && r is Ok ==> dot_ok(&final(self).block_manager),
            child_links_ok(&old(self).block_manager, old(self).data@.len()) ==> child_links_ok(
                &final(self).block_manager,
                final(self).data@.len(),
            ),
    {
        let ghost pre = *self;
        let new_off = self.data.len() as u64;
        proof {
            reveal_strlit(".");
            reveal_strlit("..");
        }
        let slot_entry = self.get_entry(cur, slot).unwrap();
        let nb = slot_entry.next_block();
        let parent_entry = match PackEntry::new_directory(dir_name, ChainIndex(new_off), nb) {
            Ok(e) => e,
            Err(e) => {
                return Err(e);
            },
        };
        if self.data.len() > usize::MAX - 2560 {
            return Err(Error::Io);
        }
        let dot = match PackEntry::new_directory(".", ChainIndex(new_off), 0) {
            Ok(e) => e,
            Err(_) => {
                proof {
                    assert(euc_kr_bytes("."@) =~= seq![46u8]);
                    assert(false);
                }
                return Err(Error::Io);
            },
        };
        let dotdot = match PackEntry::new_directory("..", cur, 0) {
            Ok(e) => e,
            Err(_) => {
                proof {
                    assert(euc_kr_bytes(".."@) =~= seq![46u8, 46u8]);
                    assert(false);
                }
                return Err(Error::Io);
            },
        };
        proof {
            assert(euc_kr_bytes("."@) =~= seq![46u8]);
            assert(euc_kr_bytes(".."@) =~= seq![46u8, 46u8]);
        }
        let ghost dotv = dot@;
        let ghost dotdotv = dotdot@;
        let ghost parentv = parent_entry@;
        let mut blk = PackBlock::new(new_off);
        let ghost pre_vec0 = blk.entries@;
        let ghost prev0 = blk@;
        let ghost dotev = dot;
        blk.entries.set(0, dot);
        let ghost pre_vec1 = blk.entries@;
        let ghost prev1 = blk@;
        let ghost dotdotev = dotdot;
        blk.entries.set(1, dotdot);
        let ghost blkv = blk@;
        proof {
            assert(blk.entries@ == pre_vec1.update(1, dotdotev));
            assert(pre_vec1 == pre_vec0.update(0, dotev));
            assert forall|i: int| 0 <= i < 20 implies #[trigger] blkv.entries[i] == (if i == 0 {
                dotv
            } else if i == 1 {
                dotdotv
            } else {
                EntryView::Empty { next_block: 0u64 }
            }) by {
                assert(blkv.entries[i] == blk.entries@[i]@);
                if i == 0 {
                    assert(blk.entries@[0] == pre_vec1[0]);
                    assert(pre_vec1[0] == dotev);
                } else if i == 1 {
                    assert(blk.entries@[1] == dotdotev);
                } else {
                    assert(blk.entries@[i] == pre_vec0[i]);
                    assert(prev0.entries[i] == pre_vec0[i]@);
                    assert(prev0.entries[i] == (EntryView::Empty { next_block: 0u64 }));
                }
            }
            assert(block_wf(blkv));
        }
        // the chain becomes reachable only after the parent entry is
        // written, so the block goes out first
        append_block(&self.blowfish, &mut self.data, &blk);
        let chain = self.block_manager.get(cur).unwrap();
        proof {
            self.block_manager.lemma_chain_view_wf(cur.0);
        }
        let off = chain.file_offset_for_entry(slot).unwrap();
        proof {
            assert((slot as int % 20) * 128 <= 2432);
            assert(off + 128 <= self.data@.len());
        }
        write_entry_at(&self.blowfish, &mut self.data, off, &parent_entry);
        proof {
            crate::manager::lemma_idx_of_key(pre.block_manager.keys@, cur.0);
        }
        let c = self.block_manager.get_mut(cur);
        c.set_entry(slot, parent_entry);
        proof {
            let ix = crate::manager::idx_of_key(pre.block_manager.keys@, cur.0);
            assert(self.block_manager.chains@[ix]@ == chain_update(
                pre.block_manager.chain_view(cur.0),
                slot as int,
                parentv,
            ));
            lemma_manager_update_frame(&pre.block_manager, &self.block_manager, cur.0);
        }
        let ghost mid = self.block_manager;
        let nchain = PackBlockChain::from_blocks(vec![blk]);
        proof {
            assert(nchain@ =~= seq![blkv]);
        }
        self.block_manager.insert(ChainIndex(new_off), nchain);
        proof {
            assert(self.block_manager.chain_view(new_off) =~= seq![blkv]);
            assert forall|j: int| 0 <= j < 20 implies #[trigger] chain_entries(seq![blkv])[j]
                == blkv.entries[j] by {
                assert(j / 20 == 0 && j % 20 == j);
            }
            assert(self.wf());
            if dot_ok(&pre.block_manager) {
                assert forall|k: u64| #[trigger] self.block_manager.has_chain(k) implies
                    chain_entries(self.block_manager.chain_view(k)).len() >= 1 && (chain_entries(
                    self.block_manager.chain_view(k),
                )[0] matches EntryView::Directory { name, pos_children, .. } && name == seq![46u8]
                    && pos_children == k) by {
                    if k == new_off {
                        assert(chain_entries(self.block_manager.chain_view(k))[0] == dotv);
                    } else if k == cur.0 {
                        assert(slot != 0);
                        assert(chain_entries(self.block_manager.chain_view(k))[0]
                            == chain_entries(pre.block_manager.chain_view(k))[0]);
                    } else {
                        assert(self.block_manager.chain_view(k) == pre.block_manager.chain_view(
                            k,
                        ));
                    }
                }
            }
        }
        proof {
            if child_links_ok(&pre.block_manager, pre.data@.len()) {
                let m2 = &self.block_manager;
                let m1 = &pre.block_manager;
                crate::block::lemma_chain_entries_update(
                    pre.block_manager.chain_view(cur.0),
                    slot as int,
                    parentv,
                );
                assert(m1.chain_view(cur.0)[0].offset == cur.0);
                assert(cur.0 + 2560 <= pre.data@.len());
                assert(cur.0 != new_off);
                assert forall|k: u64| k != new_off implies (#[trigger] m2.has_chain(k))
                    == m1.has_chain(k) && (m1.has_chain(k) && k != cur.0
                    ==> m2.chain_view(k) == m1.chain_view(k)) by {
                    assert(m2.has_chain(k) == mid.has_chain(k));
                    if m1.has_chain(k) && k != cur.0 {
                        assert(mid.chain_view(k) == m1.chain_view(k));
                        assert(m2.chain_view(k) == mid.chain_view(k));
                    }
                }
                assert(m2.chain_view(cur.0) == mid.chain_view(cur.0));
                assert forall|k: u64, j: int| #[trigger] child_at(m2, k, j) implies (if k == cur.0
                    && j == slot {
                    child_link(m2, k, j) == new_off
                } else {
                    child_at(m1, k, j) && child_link(m2, k, j) == child_link(m1, k, j)
                }) by {
                    if k == new_off {
                        assert(!is_child_entry(chain_entries(m2.chain_view(k))[j]));
                    } else if k == cur.0 {
                        assert(chain_entries(m2.chain_view(k)) == chain_entries(
                            m1.chain_view(k),
                        ).update(slot as int, parentv));
                        if j != slot {
                            assert(chain_entries(m2.chain_view(k))[j] == chain_entries(
                                m1.chain_view(k),
                            )[j]);
                        }
                    } else {
                        assert(m2.chain_view(k) == m1.chain_view(k));
                    }
                }
                assert forall|k: u64, j: int| #[trigger] child_at(m1, k, j) implies child_at(
                    m2,
                    k,
                    j,
                ) && (k != cur.0 || j != slot) by {
                    pre.block_manager.lemma_chain_view_wf(k);
                    assert(pre.block_manager.chain_view(k)[0].offset + 2560 <= pre.data@.len());
                    assert(k != new_off);
                    if k == cur.0 {
                        assert(chain_entries(m1.chain_view(k))[slot as int] is Empty);
                        assert(j != slot);
                        assert(chain_entries(m2.chain_view(k)) == chain_entries(
                            m1.chain_view(k),
                        ).update(slot as int, parentv));
                        assert(chain_entries(m2.chain_view(k))[j] == chain_entries(
                            m1.chain_view(k),
                        )[j]);
                    } else {
                        assert(m2.chain_view(k) == m1.chain_view(k));
                    }
                }
                assert forall|k1: u64, j1: int, k2: u64, j2: int|
                    #[trigger] child_at(m2, k1, j1) && #[trigger] child_at(m2, k2, j2)
                        && child_link(m2, k1, j1) == child_link(m2, k2, j2) implies k1 == k2 && j1
                    == j2 by {
                    let fresh1 = k1 == cur.0 && j1 == slot;
                    let fresh2 = k2 == cur.0 && j2 == slot;
                    if fresh1 && fresh2 {
                    } else if fresh1 {
                        assert(child_at(m1, k2, j2));
                        assert(child_link(m1, k2, j2) + 2560 <= pre.data@.len());
                        assert(child_link(m2, k2, j2) != new_off);
                        assert(false);
                    } else if fresh2 {
                        assert(child_at(m1, k1, j1));
                        assert(child_link(m1, k1, j1) + 2560 <= pre.data@.len());
                        assert(child_link(m2, k1, j1) != new_off);
                        assert(false);
                    } else {
                        assert(child_at(m1, k1, j1) && child_at(m1, k2, j2));
                        assert(child_link(m1, k1, j1) == child_link(m1, k2, j2));
                    }
                }
                assert forall|k: u64, j: int| #[trigger] child_at(m2, k, j) implies child_link(
                    m2,
                    k,
                    j,
                ) + 2560 <= self.data@.len() by {
                    if k == cur.0 && j == slot && child_link(m2, k, j) == new_off {
                    } else {
                        assert(child_at(m1, k, j));
                        assert(child_link(m1, k, j) + 2560 <= pre.data@.len());
                    }
                }
                assert(child_links_ok(&self.block_manager, self.data@.len()));
            }
        }
        Ok(ChainIndex(new_off))
    }
}

} // verus!

verus! {

/// Component names that the create walk can lay down: each encodes to a
/// valid on-disk name and none is a `.` or `..` link.
pub open spec fn creatable_names(comps: Seq<Seq<char>>, from: int) -> bool {
    forall|j: int|
        from <= j < comps.len() ==> {
            let n = #[trigger] euc_kr_bytes(comps[j]);
            &&& name_wf(n)
            &&& n != seq![46u8]
            &&& n != seq![46u8, 46u8]
        }
}

/// The first free slot of a chain, if any.
fn find_empty_slot(c: &PackBlockChain) -> (r: Option<usize>)
    requires
        chain_wf(c@),
        20 * c@.len() <= usize::MAX,
    ensures
        r matches Some(s) ==> s < chain_entries(c@).len() && chain_entries(c@)[s as int] is Empty,
{
    let ne = c.num_entries();
    let mut slot: usize = 0;
    while slot < ne
        invariant
            chain_wf(c@),
            ne == 20 * c@.len(),
            20 * c@.len() <= usize::MAX,
            slot <= ne,
        decreases ne - slot,
    {
        let e = c.get(slot).unwrap();
        if e.is_empty() {
            return Some(slot);
        }
        slot = slot + 1;
    }
    None
}

impl Pk2 {
    /// Walks `comps` from `chain`, creating every directory that does not
    /// yet exist, and returns the chain and free slot where the final
    /// component is to be placed. A path whose final name already exists
    /// is rejected.
    fn create_entry_at(&mut self, chain: ChainIndex, comps: &Vec<String>) -> (r: Result<
        (ChainIndex, usize),
        Error,
    >)
        requires
            old(self).wf(),
        ensures
            final(self).wf(),
            final(self).key() == old(self).key(),
            final(self).data@.len() >= old(self).data@.len(),
            dot_ok(&old(self).block_manager) ==> dot_ok(&final(self).block_manager),
            child_links_ok(&old(self).block_manager, old(self).data@.len()) ==> child_links_ok(
                &final(self).block_manager,
                final(self).data@.len(),
            ),
            r matches Ok((c, idx)) ==> {
                &&& final(self).block_manager.has_chain(c.0)
                &&& idx < chain_entries(final(self).block_manager.chain_view(c.0)).len()
                &&& chain_entries(final(self).block_manager.chain_view(c.0))[idx as int] is Empty
            },
            (validate_spec(&old(self).block_manager, chain.0, comps_view(comps@)) matches Ok(
                (c, k),
            ) && old(self).block_manager.has_chain(c) && k < comps@.len() && creatable_names(
                comps_view(comps@),
                k,
            )) ==> (r is Ok || r == Err::<(ChainIndex, usize), Error>(Error::Io)),
            ({
                let cv = comps_view(comps@);
                let vr = validate_spec(&old(self).block_manager, chain.0, cv);
                (vr matches Ok((vc0, k)) && k == cv.len() - 1 && old(
                    self,
                ).block_manager.has_chain(vc0) && creatable_names(cv, k)) ==> (r matches Ok(
                    (c, idx),
                ) ==> c.0 == vr->Ok_0.0 && {
                    let oldc = old(self).block_manager.chain_view(vr->Ok_0.0);
                    let newc = final(self).block_manager.chain_view(vr->Ok_0.0);
                    ||| (newc == oldc && final(self).data@ == old(self).data@)
                    ||| (newc.len() == oldc.len() + 1 && idx == 20 * oldc.len()
                        && newc[oldc.len() as int].offset == old(self).data@.len()
                        && newc[oldc.len() as int].entries == Seq::new(
                        20,
                        |i: int| EntryView::Empty { next_block: 0 },
                    ) && final(self).data@.len() == old(self).data@.len() + 2560)
                })
            }),
    {
        let (vc, vi) = match self.block_manager.validate_dir_path_until(chain, comps) {
            Ok(t) => t,
            Err(e) => {
                return Err(e);
            },
        };
        let mut cur = vc;
        let mut i = vi;
        let ghost hyp = old(self).block_manager.has_chain(vc.0) && (vi as int) < comps@.len()
            && creatable_names(comps_view(comps@), vi as int);
        let ghost direct = hyp && vi as int == comps@.len() - 1;
        let dot: Vec<u8> = vec![46u8];
        let dotdot: Vec<u8> = vec![46u8, 46u8];
        while i < comps.len()
            invariant
                self.wf(),
                self.key() == old(self).key(),
                self.data@.len() >= old(self).data@.len(),
                dot_ok(&old(self).block_manager) ==> dot_ok(&self.block_manager),
                child_links_ok(&old(self).block_manager, old(self).data@.len())
                    ==> child_links_ok(&self.block_manager, self.data@.len()),
                dot@ == seq![46u8],
                dotdot@ == seq![46u8, 46u8],
                i <= comps@.len(),
                vi <= i,
                validate_spec(&old(self).block_manager, chain.0, comps_view(comps@))
                    == Result::<(u64, int), Error>::Ok((vc.0, vi as int)),
                hyp == (old(self).block_manager.has_chain(vc.0) && (vi as int) < comps@.len()
                    && creatable_names(comps_view(comps@), vi as int)),
                hyp ==> self.block_manager.has_chain(cur.0) && i < comps@.len(),
                direct == (hyp && vi as int == comps@.len() - 1),
                direct ==> i == vi && cur == vc && self.block_manager == old(self).block_manager
                    && self.data@ == old(self).data@,
            decreases comps@.len() - i,
        {
            proof {
                if hyp {
                    let cv = comps_view(comps@);
                    assert(creatable_names(cv, vi as int));
                    assert(vi <= i < comps@.len());
                    assert(name_wf(euc_kr_bytes(cv[i as int])));
                    assert(euc_kr_bytes(cv[i as int]) != seq![46u8]);
                    assert(euc_kr_bytes(cv[i as int]) != seq![46u8, 46u8]);
                    assert(cv[i as int] == comps@[i as int]@);
                }
            }
            let n = encode_name(comps[i].as_str());
            if bytes_eq(&n, &dot) {
                proof {
                    if hyp {
                        assert(false);
                    }
                }
                i = i + 1;
                continue ;
            }
            if bytes_eq(&n, &dotdot) {
                proof {
                    if hyp {
                        assert(false);
                    }
                }
                let c = match self.block_manager.get(cur) {
                    Some(c) => c,
                    None => {
                        return Err(Error::InvalidChainIndex);
                    },
                };
                proof {
                    self.block_manager.lemma_chain_view_wf(cur.0);
                    crate::block::lemma_first_named(chain_entries(c@), n@);
                }
                cur = match c.find_block_chain_index_of(&n) {
                    Ok(ci) => ci,
                    Err(_) => {
                        return Err(Error::InvalidPath);
                    },
                };
                i = i + 1;
                continue ;
            }
            if !self.block_manager.contains(cur) {
                return Err(Error::InvalidChainIndex);
            }
            proof {
                self.block_manager.lemma_chain_view_wf(cur.0);
            }
            let found = {
                let c = self.block_manager.get(cur).unwrap();
                find_empty_slot(c)
            };
            let slot: usize = match found {
                Some(s) => s,
                None => {
                    // the chain is full: append a block and use its first slot
                    let nblocks = {
                        let c = self.block_manager.get(cur).unwrap();
                        c.num_blocks()
                    };
                    if nblocks > usize::MAX / 20 - 2 {
                        return Err(Error::Io);
                    }
                    if self.data.len() > usize::MAX - 2560 {
                        return Err(Error::Io);
                    }
                    proof {
                        crate::manager::lemma_idx_of_key(self.block_manager.keys@, cur.0);
                        assert(20 * ((nblocks + 1) + 1) <= usize::MAX) by (nonlinear_arith)
                            requires
                                nblocks <= usize::MAX / 20 - 2,
                                usize::MAX >= 0xFFFF_FFFF,
                        ;
                    }
                    let ghost mpre = self.block_manager;
                    let ghost dpre = self.data@;
                    let cm = self.block_manager.get_mut(cur);
                    proof {
                        assert(cm@.last().offset + 2560 <= self.data@.len());
                    }
                    let s = match cm.create_new_block(&self.blowfish, &mut self.data) {
                        Ok(s) => s,
                        Err(_) => {
                            proof {
                                assert(false);
                            }
                            return Err(Error::Io);
                        },
                    };
                    proof {
                        let ix = crate::manager::idx_of_key(mpre.keys@, cur.0);
                        let nc = self.block_manager.chains@[ix]@;
                        assert forall|j: int| 0 <= j < nc.len() implies (#[trigger] nc[j].offset)
                            + 2560 <= u64::MAX by {
                            if j < nc.len() - 1 {
                                assert(nc[j].offset == mpre.chain_view(cur.0)[j].offset);
                            } else {
                                assert(nc[j].offset == dpre.len());
                            }
                        }
                        lemma_manager_update_frame(&mpre, &self.block_manager, cur.0);
                        assert forall|k: u64, j: int|
                            self.block_manager.has_chain(k) && 0 <= j
                                < self.block_manager.chain_view(k).len() implies (
                        #[trigger] self.block_manager.chain_view(k)[j].offset) + 2560
                            <= self.data@.len() by {
                            if k == cur.0 {
                                if j < self.block_manager.chain_view(k).len() - 1 {
                                    assert(self.block_manager.chain_view(k)[j].offset
                                        == mpre.chain_view(cur.0)[j].offset);
                                } else {
                                    assert(self.block_manager.chain_view(k)[j].offset
                                        == dpre.len());
                                }
                            } else {
                                assert(self.block_manager.chain_view(k) == mpre.chain_view(k));
                            }
                        }
                        assert(self.wf());
                        if dot_ok(&mpre) {
                            assert forall|k: u64| #[trigger] self.block_manager.has_chain(
                                k,
                            ) implies chain_entries(self.block_manager.chain_view(k)).len() >= 1
                                && (chain_entries(self.block_manager.chain_view(k))[0]
                                matches EntryView::Directory { name, pos_children, .. } && name
                                == seq![46u8] && pos_children == k) by {
                                if k == cur.0 {
                                    assert(chain_entries(self.block_manager.chain_view(k))[0]
                                        == self.block_manager.chain_view(k)[0].entries[0]);
                                    assert(self.block_manager.chain_view(k)[0].entries[0]
                                        == mpre.chain_view(k)[0].entries[0]);
                                    assert(chain_entries(mpre.chain_view(k))[0]
                                        == mpre.chain_view(k)[0].entries[0]);
                                } else {
                                    assert(self.block_manager.chain_view(k) == mpre.chain_view(
                                        k,
                                    ));
                                }
                            }
                        }
                        assert(chain_entries(self.block_manager.chain_view(cur.0))[s as int]
                            == self.block_manager.chain_view(cur.0)[s as int / 20].entries[
                        s as int % 20]);
                        assert(s as int / 20 == self.block_manager.chain_view(cur.0).len() - 1
                            && s as int % 20 == 0) by (nonlinear_arith)
                            requires
                                s == 20 * (self.block_manager.chain_view(cur.0).len() - 1),
                                self.block_manager.chain_view(cur.0).len() >= 1,
                        ;
                        if child_links_ok(&mpre, dpre.len()) {
                            let m2 = &self.block_manager;
                            let llen = mpre.chain_view(cur.0).len();
                            let off64 = dpre.len() as u64;
                            assert forall|k: u64, j: int| #[trigger] child_at(m2, k, j) implies
                                child_at(&mpre, k, j) && child_link(m2, k, j) == child_link(
                                &mpre,
                                k,
                                j,
                            ) by {
                                if k == cur.0 {
                                    let nc = m2.chain_view(k);
                                    let oc = mpre.chain_view(k);
                                    assert(nc.len() == llen + 1);
                                    assert(0 <= j / 20 < llen + 1 && 0 <= j % 20 < 20)
                                        by (nonlinear_arith)
                                        requires
                                            0 <= j < 20 * (llen + 1),
                                            llen >= 1,
                                    ;
                                    assert(chain_entries(nc)[j] == nc[j / 20].entries[j % 20]);
                                    if j / 20 == llen {
                                        assert(nc[j / 20].entries[j % 20]
                                            == (EntryView::Empty { next_block: 0u64 }));
                                    } else {
                                        assert(0 <= j < 20 * llen) by (nonlinear_arith)
                                            requires
                                                0 <= j,
                                                j / 20 < llen,
                                                j % 20 < 20,
                                                j == 20 * (j / 20) + j % 20,
                                        ;
                                        assert(chain_entries(oc)[j] == oc[j / 20].entries[j
                                            % 20]);
                                        if j / 20 == llen - 1 && j % 20 == 19 {
                                            assert(nc[j / 20].entries[19] == with_next(
                                                oc[j / 20].entries[19],
                                                off64,
                                            ));
                                        } else if j / 20 == llen - 1 {
                                            assert(nc[j / 20].entries[j % 20] == oc[j
                                                / 20].entries[j % 20]);
                                        } else {
                                            assert(nc[j / 20] == oc[j / 20]);
                                        }
                                    }
                                } else {
                                    assert(m2.chain_view(k) == mpre.chain_view(k));
                                }
                            }
                            assert forall|k: u64, j: int| #[trigger] child_at(&mpre, k, j)
                                implies child_at(m2, k, j) && child_link(m2, k, j) == child_link(
                                &mpre,
                                k,
                                j,
                            ) by {
                                if k == cur.0 {
                                    let nc = m2.chain_view(k);
                                    let oc = mpre.chain_view(k);
                                    assert(0 <= j / 20 < llen && 0 <= j % 20 < 20)
                                        by (nonlinear_arith)
                                        requires
                                            0 <= j < 20 * llen,
                                            llen >= 1,
                                    ;
                                    assert(0 <= j < 20 * (llen + 1)) by (nonlinear_arith)
                                        requires
                                            0 <= j < 20 * llen,
                                            llen >= 1,
                                    ;
                                    assert(chain_entries(nc)[j] == nc[j / 20].entries[j % 20]);
                                    assert(chain_entries(oc)[j] == oc[j / 20].entries[j % 20]);
                                    if j / 20 == llen - 1 && j % 20 == 19 {
                                        assert(nc[j / 20].entries[19] == with_next(
                                            oc[j / 20].entries[19],
                                            off64,
                                        ));
                                    } else if j / 20 == llen - 1 {
                                        assert(nc[j / 20].entries[j % 20] == oc[j / 20].entries[
                                            j % 20]);
                                    } else {
                                        assert(nc[j / 20] == oc[j / 20]);
                                    }
                                } else {
                                    assert(m2.chain_view(k) == mpre.chain_view(k));
                                }
                            }
                            lemma_child_links_preserved(
                                &mpre,
                                m2,
                                dpre.len(),
                                self.data@.len(),
                            );
                        }
                    }
                    s
                },
            };
            if i == comps.len() - 1 {
                return Ok((cur, slot));
            }
            cur = match self.create_new_block_chain(cur, slot, comps[i].as_str()) {
                Ok(nc) => nc,
                Err(e) => {
                    return Err(e);
                },
            };
            i = i + 1;
        }
        Err(Error::AlreadyExists)
    }
}

} // verus!

use crate::fs::{Directory, File, FileMut};

verus! {

impl Pk2 {
    /// Resolves an absolute path to the file entry it names and hands back
    /// a read-only handle.
    pub fn open_file(&self, path: &str) -> (r: Result<File, Error>)
        requires
            self.wf(),
        ensures
            !(path@.len() >= 1 && path@[0] == '/') ==> r == Err::<File, Error>(
                Error::InvalidPath,
            ),
            path@.len() >= 1 && path@[0] == '/' ==> ({
                let so = resolve_entry_spec(
                    &self.block_manager,
                    PK2_ROOT_BLOCK,
                    split_comps(path@),
                );
                &&& (so matches Err(e) ==> r == Err::<File, Error>(e))
                &&& (so matches Ok(o) ==> (o is None ==> r == Err::<File, Error>(
                    Error::InvalidPath,
                )))
                &&& (so matches Ok(o) ==> (o matches Some((p, f)) ==> {
                    let e = chain_entries(self.block_manager.chain_view(p))[f];
                    &&& (e is File ==> (r matches Ok(h) && h.chain.0 == p && h.entry == f
                        && h.pos == 0))
                    &&& (!(e is File) ==> r == Err::<File, Error>(Error::ExpectedFile))
                }))
            }),
    {
        if let Err(e) = check_root(path) {
            return Err(e);
        }
        let comps = components(path);
        match self.block_manager.resolve_path_to_entry_and_parent(
            ChainIndex(PK2_ROOT_BLOCK),
            &comps,
        ) {
            Err(e) => Err(e),
            Ok(None) => Err(Error::InvalidPath),
            Ok(Some((ci, idx, e))) => {
                if e.is_file() {
                    Ok(File { chain: ci, entry: idx, pos: 0 })
                } else {
                    Err(Error::ExpectedFile)
                }
            },
        }
    }

    /// Resolves an absolute path to the file entry it names and hands back
    /// a writable handle.
    pub fn open_file_mut(&mut self, path: &str) -> (r: Result<FileMut, Error>)
        requires
            old(self).wf(),
        ensures
            *final(self) == *old(self),
            !(path@.len() >= 1 && path@[0] == '/') ==> r == Err::<FileMut, Error>(
                Error::InvalidPath,
            ),
            path@.len() >= 1 && path@[0] == '/' ==> ({
                let so = resolve_entry_spec(
                    &old(self).block_manager,
                    PK2_ROOT_BLOCK,
                    split_comps(path@),
                );
                &&& (so matches Err(e) ==> r == Err::<FileMut, Error>(e))
                &&& (so matches Ok(o) ==> (o is None ==> r == Err::<FileMut, Error>(
                    Error::InvalidPath,
                )))
                &&& (so matches Ok(o) ==> (o matches Some((p, f)) ==> {
                    let e = chain_entries(old(self).block_manager.chain_view(p))[f];
                    &&& (e is File ==> (r matches Ok(h) && h.chain.0 == p && h.entry == f))
                    &&& (!(e is File) ==> r == Err::<FileMut, Error>(Error::ExpectedFile))
                }))
            }),
    {
        if let Err(e) = check_root(path) {
            return Err(e);
        }
        let comps = components(path);
        match self.block_manager.resolve_path_to_entry_and_parent(
            ChainIndex(PK2_ROOT_BLOCK),
            &comps,
        ) {
            Err(e) => Err(e),
            Ok(None) => Err(Error::InvalidPath),
            Ok(Some((ci, idx, e))) => {
                if e.is_file() {
                    Ok(FileMut { chain: ci, entry: idx })
                } else {
                    Err(Error::ExpectedFile)
                }
            },
        }
    }

    /// Resolves an absolute path to the directory entry it names. The root
    /// path resolves to the root chain's own `.` entry.
    pub fn open_directory(&self, path: &str) -> (r: Result<Directory, Error>)
        requires
            self.wf(),
        ensures
            !(path@.len() >= 1 && path@[0] == '/') ==> r == Err::<Directory, Error>(
                Error::InvalidPath,
            ),
            path@.len() >= 1 && path@[0] == '/' ==> ({
                let so = resolve_entry_spec(
                    &self.block_manager,
                    PK2_ROOT_BLOCK,
                    split_comps(path@),
                );
                &&& (so matches Err(e) ==> r == Err::<Directory, Error>(e))
                &&& (so matches Ok(o) ==> (o is None ==> (r matches Ok(h) && h.chain.0
                    == PK2_ROOT_BLOCK && h.entry == 0)))
                &&& (so matches Ok(o) ==> (o matches Some((p, f)) ==> {
                    let e = chain_entries(self.block_manager.chain_view(p))[f];
                    &&& (e is Directory ==> (r matches Ok(h) && h.chain.0 == p && h.entry == f))
                    &&& (!(e is Directory) ==> r == Err::<Directory, Error>(
                        Error::ExpectedDirectory,
                    ))
                }))
            }),
    {
        if let Err(e) = check_root(path) {
            return Err(e);
        }
        let comps = components(path);
        match self.block_manager.resolve_path_to_entry_and_parent(
            ChainIndex(PK2_ROOT_BLOCK),
            &comps,
        ) {
            Err(e) => Err(e),
            Ok(None) => Ok(Directory { chain: ChainIndex(PK2_ROOT_BLOCK), entry: 0 }),
            Ok(Some((ci, idx, e))) => {
                if e.is_dir() {
                    Ok(Directory { chain: ci, entry: idx })
                } else {
                    Err(Error::ExpectedDirectory)
                }
            },
        }
    }

    /// Creates the file named by `path`, creating every directory along the
    /// way that does not yet exist, and hands back a writable handle to the
    /// fresh entry. The entry starts with no payload; a write relocates it.
    pub fn create_file(&mut self, path: &str) -> (r: Result<FileMut, Error>)
        requires
            old(self).wf(),
        ensures
            final(self).wf(),
            final(self).key() == old(self).key(),
            final(self).data@.len() >= old(self).data@.len(),
            dot_ok(&old(self).block_manager) ==> dot_ok(&final(self).block_manager),
            child_links_ok(&old(self).block_manager, old(self).data@.len()) ==> child_links_ok(
                &final(self).block_manager,
                final(self).data@.len(),
            ),
            !(path@.len() >= 1 && path@[0] == '/') ==> r == Err::<FileMut, Error>(
                Error::InvalidPath,
            ),
            path@.len() >= 1 && path@[0] == '/' && split_comps(path@).len() > 0 ==> ({
                let so = resolve_entry_spec(
                    &old(self).block_manager,
                    PK2_ROOT_BLOCK,
                    split_comps(path@),
                );
                so matches Ok(o) ==> (o is Some ==> r == Err::<FileMut, Error>(
                    Error::AlreadyExists,
                ))
            }),
            ({
                let cs = split_comps(path@);
                let so = resolve_entry_spec(&old(self).block_manager, PK2_ROOT_BLOCK, cs);
                let vr = validate_spec(&old(self).block_manager, PK2_ROOT_BLOCK, cs);
                (path@.len() >= 1 && path@[0] == '/' && cs.len() > 0 && so == Result::<
                    Option<(u64, int)>,
                    Error,
                >::Err(Error::NotFound) && (vr matches Ok((c, k)) && old(
                    self,
                ).block_manager.has_chain(c) && k < cs.len() && creatable_names(cs, k))) ==> (
                r is Ok || r == Err::<FileMut, Error>(Error::Io))
            }),
            r matches Ok(h) ==> ({
                let cv = final(self).block_manager.chain_view(h.chain.0);
                &&& final(self).block_manager.has_chain(h.chain.0)
                &&& h.entry < chain_entries(cv).len()
                &&& chain_entries(cv)[h.entry as int] matches EntryView::File {
                    name,
                    pos_data,
                    size,
                    ..
                } && name == euc_kr_bytes(split_comps(path@).last()) && pos_data == 0 && size
                    == 0
            }),
            ({
                let cs = split_comps(path@);
                let so = resolve_entry_spec(&old(self).block_manager, PK2_ROOT_BLOCK, cs);
                let vr = validate_spec(&old(self).block_manager, PK2_ROOT_BLOCK, cs);
                (path@.len() >= 1 && path@[0] == '/' && cs.len() > 0 && so == Result::<
                    Option<(u64, int)>,
                    Error,
                >::Err(Error::NotFound) && (vr matches Ok((vc0, k)) && k == cs.len() - 1 && old(
                    self,
                ).block_manager.has_chain(vc0) && creatable_names(cs, k))) ==> (r matches Ok(h)
                    ==> h.chain.0 == vr->Ok_0.0 && {
                    let oldc = old(self).block_manager.chain_view(vr->Ok_0.0);
                    let newc = final(self).block_manager.chain_view(vr->Ok_0.0);
                    ||| (newc.len() == oldc.len()
                        && final(self).data@.len() == old(self).data@.len()
                        && chain_entries(oldc)[h.entry as int] is Empty && entry_next(
                        chain_entries(newc)[h.entry as int],
                    ) == entry_next(chain_entries(oldc)[h.entry as int]))
                    ||| (newc.len() == oldc.len() + 1 && h.entry == 20 * oldc.len()
                        && newc[oldc.len() as int].offset == old(self).data@.len()
                        && final(self).data@.len() == old(self).data@.len() + 2560
                        && entry_next(chain_entries(newc)[h.entry as int]) == 0)
                })
            }),
    {
        if let Err(e) = check_root(path) {
            return Err(e);
        }
        let comps = components(path);
        if comps.len() == 0 {
            return Err(Error::NonUnicodePath);
        }
        // the terminal name must not be present yet, whatever its kind
        match self.block_manager.resolve_path_to_entry_and_parent(
            ChainIndex(PK2_ROOT_BLOCK),
            &comps,
        ) {
            Ok(Some(_)) => {
                return Err(Error::AlreadyExists);
            },
            Ok(None) => {
                proof {
                    assert(false);
                }
                return Err(Error::AlreadyExists);
            },
            Err(e) => {
                if !matches!(e, Error::NotFound) {
                    return Err(e);
                }
            },
        }
        let ghost mid0 = *self;
        let ghost cs = split_comps(path@);
        proof {
            if creatable_names(cs, cs.len() - 1) {
                assert(name_wf(euc_kr_bytes(cs[cs.len() - 1])));
                assert(cs[cs.len() - 1] == comps@[comps@.len() - 1]@);
            }
        }
        let (ci, idx) = match self.create_entry_at(ChainIndex(PK2_ROOT_BLOCK), &comps) {
            Ok(t) => t,
            Err(e) => {
                return Err(e);
            },
        };
        let ghost mid = *self;
        let nb = self.get_entry(ci, idx).unwrap().next_block();
        let fe = match PackEntry::new_file(comps[comps.len() - 1].as_str(), 0, 0, nb) {
            Ok(e) => e,
            Err(e) => {
                proof {
                    if creatable_names(cs, cs.len() - 1) {
                        assert(name_wf(euc_kr_bytes(cs[cs.len() - 1])));
                        assert(false);
                    }
                    let vr = validate_spec(&old(self).block_manager, PK2_ROOT_BLOCK, cs);
                    if vr matches Ok((c, k)) && old(self).block_manager.has_chain(c) && k
                        < cs.len() && creatable_names(cs, k) {
                        assert(name_wf(euc_kr_bytes(cs[cs.len() - 1])));
                        assert(false);
                    }
                }
                return Err(e);
            },
        };
        let ghost fev = fe@;
        proof {
            crate::manager::lemma_idx_of_key(mid.block_manager.keys@, ci.0);
            assert(comps@[comps@.len() - 1]@ == split_comps(path@).last());
        }
        let c = self.block_manager.get_mut(ci);
        c.set_entry(idx, fe);
        proof {
            let ix = crate::manager::idx_of_key(mid.block_manager.keys@, ci.0);
            assert(self.block_manager.chains@[ix]@ == chain_update(
                mid.block_manager.chain_view(ci.0),
                idx as int,
                fev,
            ));
            lemma_manager_update_frame(&mid.block_manager, &self.block_manager, ci.0);
            assert(self.wf());
            assert(chain_entries(self.block_manager.chain_view(ci.0))[idx as int] == fev);
            assert(self.block_manager.chain_view(ci.0).len() == mid.block_manager.chain_view(
                ci.0,
            ).len());
            assert forall|j: int| 0 <= j < mid.block_manager.chain_view(ci.0).len() implies (
            #[trigger] self.block_manager.chain_view(ci.0)[j].offset)
                == mid.block_manager.chain_view(ci.0)[j].offset by {
                let mc = mid.block_manager.chain_view(ci.0);
                if j == idx as int / 20 {
                    assert(self.block_manager.chain_view(ci.0)[j] == (BlockView {
                        offset: mc[j].offset,
                        entries: mc[j].entries.update(idx as int % 20, fev),
                    }));
                } else {
                    assert(self.block_manager.chain_view(ci.0)[j] == mc[j]);
                }
            }
            if child_links_ok(&mid.block_manager, mid.data@.len()) {
                assert(!is_child_entry(
                    chain_entries(mid.block_manager.chain_view(ci.0))[idx as int],
                ));
                assert(!is_child_entry(fev));
                lemma_child_links_entry_swap(
                    &mid.block_manager,
                    &self.block_manager,
                    ci.0,
                    idx as int,
                    fev,
                    mid.data@.len(),
                    self.data@.len(),
                );
            }
            if dot_ok(&mid.block_manager) {
                assert forall|k: u64| #[trigger] self.block_manager.has_chain(k) implies
                    chain_entries(self.block_manager.chain_view(k)).len() >= 1 && (chain_entries(
                    self.block_manager.chain_view(k),
                )[0] matches EntryView::Directory { name, pos_children, .. } && name == seq![46u8]
                    && pos_children == k) by {
                    if k == ci.0 {
                        assert(chain_entries(mid.block_manager.chain_view(k))[0] is Directory);
                        assert(idx != 0);
                        assert(chain_entries(self.block_manager.chain_view(k))[0]
                            == chain_entries(mid.block_manager.chain_view(k))[0]);
                    } else {
                        assert(self.block_manager.chain_view(k) == mid.block_manager.chain_view(
                            k,
                        ));
                    }
                }
            }
        }
        Ok(FileMut { chain: ci, entry: idx })
    }
}

} // verus!
verus! {

/// An encrypted archive never opens under an empty key: derivation treats
/// the empty key as salted bytes of length zero, which the cipher refuses,
/// so verification cannot succeed and `open_in` reports `InvalidKey`.
pub proof fn lemma_empty_key_rejected(bytes: Seq<u8>, key: Seq<u8>)
    requires
        key.len() == 0,
        bytes.len() >= 256,
        bytes[37] == 1,
    ensures
        !key_len_ok(key.len()),
        !header_accepts(bytes, key),
        !open_accepts(bytes, key),
{
}

} // verus!


verus! {

/// Whether slot `j` of chain `k` holds a directory entry that links a
/// child chain (one other than the `.` and `..` links).
pub open spec fn child_at(m: &BlockManager, k: u64, j: int) -> bool {
    &&& m.has_chain(k)
    &&& 0 <= j < chain_entries(m.chain_view(k)).len()
    &&& is_child_entry(chain_entries(m.chain_view(k))[j])
}

/// The child chain linked from slot `j` of chain `k`.
pub open spec fn child_link(m: &BlockManager, k: u64, j: int) -> u64 {
    child_of(chain_entries(m.chain_view(k))[j])
}

/// No two directory entries of the whole archive link the same child
/// chain: each chain has at most one parent entry.
pub open spec fn parents_unique(m: &BlockManager) -> bool {
    forall|k1: u64, j1: int, k2: u64, j2: int|
        #[trigger] child_at(m, k1, j1) && #[trigger] child_at(m, k2, j2) && child_link(m, k1, j1)
            == child_link(m, k2, j2) ==> k1 == k2 && j1 == j2
}

/// Every child link points at a block region inside an image of `dlen`
/// bytes; fresh chains are created at the end of the image, so their
/// offsets are new.
pub open spec fn child_bounds(m: &BlockManager, dlen: nat) -> bool {
    forall|k: u64, j: int|
        #[trigger] child_at(m, k, j) ==> child_link(m, k, j) + 2560 <= dlen
}

/// The parent-link discipline of archives this library builds: child links
/// are unique across the archive and stay inside the image.
pub open spec fn child_links_ok(m: &BlockManager, dlen: nat) -> bool {
    parents_unique(m) && child_bounds(m, dlen)
}

/// Replacing one non-child entry of one chain by another non-child entry
/// keeps the parent-link discipline.
pub proof fn lemma_child_links_entry_swap(
    pre: &BlockManager,
    post: &BlockManager,
    k: u64,
    j: int,
    v: EntryView,
    prelen: nat,
    postlen: nat,
)
    requires
        child_links_ok(pre, prelen),
        pre.wf(),
        pre.has_chain(k),
        chain_wf(pre.chain_view(k)),
        0 <= j < chain_entries(pre.chain_view(k)).len(),
        !is_child_entry(chain_entries(pre.chain_view(k))[j]),
        !is_child_entry(v),
        forall|k2: u64| (#[trigger] post.has_chain(k2)) == pre.has_chain(k2),
        forall|k2: u64|
            k2 != k && pre.has_chain(k2) ==> (#[trigger] post.chain_view(k2)) == pre.chain_view(
                k2,
            ),
        post.chain_view(k) == chain_update(pre.chain_view(k), j, v),
        postlen >= prelen,
    ensures
        child_links_ok(post, postlen),
{
    crate::block::lemma_chain_entries_update(pre.chain_view(k), j, v);
    assert forall|k2: u64, j2: int| #[trigger] child_at(post, k2, j2) implies child_at(
        pre,
        k2,
        j2,
    ) by {
        if k2 == k {
            assert(chain_entries(post.chain_view(k2)) == chain_entries(pre.chain_view(k)).update(
                j,
                v,
            ));
            if j2 == j {
                assert(!is_child_entry(chain_entries(post.chain_view(k2))[j2]));
            } else {
                assert(chain_entries(post.chain_view(k2))[j2] == chain_entries(
                    pre.chain_view(k2),
                )[j2]);
            }
        } else {
            assert(post.chain_view(k2) == pre.chain_view(k2));
        }
    }
    assert forall|k2: u64, j2: int| #[trigger] child_at(pre, k2, j2) implies child_at(
        post,
        k2,
        j2,
    ) && child_link(post, k2, j2) == child_link(pre, k2, j2) by {
        if k2 == k {
            assert(j2 != j);
            assert(chain_entries(post.chain_view(k2))[j2] == chain_entries(pre.chain_view(k2))[
                j2]);
        } else {
            assert(post.chain_view(k2) == pre.chain_view(k2));
        }
    }
    lemma_child_links_preserved(pre, post, prelen, postlen);
}

/// A mutation that neither adds nor moves child links keeps the
/// parent-link discipline.
pub proof fn lemma_child_links_preserved(
    pre: &BlockManager,
    post: &BlockManager,
    prelen: nat,
    postlen: nat,
)
    requires
        child_links_ok(pre, prelen),
        forall|k: u64, j: int| #[trigger] child_at(post, k, j) ==> child_at(pre, k, j),
        forall|k: u64, j: int|
            #[trigger] child_at(pre, k, j) ==> child_at(post, k, j) && child_link(post, k, j)
                == child_link(pre, k, j),
        postlen >= prelen,
    ensures
        child_links_ok(post, postlen),
{
    assert forall|k1: u64, j1: int, k2: u64, j2: int|
        #[trigger] child_at(post, k1, j1) && #[trigger] child_at(post, k2, j2) && child_link(
            post,
            k1,
            j1,
        ) == child_link(post, k2, j2) implies k1 == k2 && j1 == j2 by {
        assert(child_at(pre, k1, j1));
        assert(child_at(pre, k2, j2));
        assert(child_link(pre, k1, j1) == child_link(pre, k2, j2));
    }
    assert forall|k: u64, j: int| #[trigger] child_at(post, k, j) implies child_link(post, k, j)
        + 2560 <= postlen by {
        assert(child_at(pre, k, j));
    }
}

} // verus!
