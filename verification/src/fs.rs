//! Handles into an open archive: directories enumerate their entries,
//! files read their payload, and writable files relocate their payload by
//! appending to the image.
//!
//! A handle carries the chain and slot of its entry and borrows the archive
//! per call, so reading entry metadata never mutates the chain map.

use vstd::prelude::*;

use crate::archive::{dot_ok, lemma_manager_update_frame, Pk2};
use crate::block::{chain_entries, chain_update, chain_wf, entry_file_offset};
use crate::codec::{append_bytes, read_bytes, spliced};
use crate::entry::{entry_name_raw, entry_next, EntryView, PackEntry};
use crate::io::{env_enc_opt, write_entry_at};
use crate::{ChainIndex, Error};

verus! {

/// Whether directory enumeration yields an entry: named entries other than
/// the `.` and `..` links.
pub open spec fn is_listed(e: EntryView) -> bool {
    !(e is Empty) && entry_name_raw(e) != seq![46u8] && entry_name_raw(e) != seq![46u8, 46u8]
}

/// The entries a directory yields, in chain order.
pub open spec fn listed(s: Seq<EntryView>) -> Seq<EntryView>
    decreases s.len(),
{
    if s.len() == 0 {
        Seq::<EntryView>::empty()
    } else {
        listed(s.drop_last()) + (if is_listed(s.last()) {
            seq![s.last()]
        } else {
            Seq::<EntryView>::empty()
        })
    }
}

/// Enumeration is idempotent absent mutations: the sequence a directory
/// yields is a function of the archive state alone, so two enumerations of
/// the same directory of the same archive are equal. `Directory::entries`
/// pins each successful result to `listed` of the child chain's entries;
/// this states that any two such results coincide.
pub proof fn lemma_enumeration_stable(
    pk2: &Pk2,
    child: u64,
    first: Seq<EntryView>,
    second: Seq<EntryView>,
)
    requires
        first == listed(chain_entries(pk2.block_manager.chain_view(child))),
        second == listed(chain_entries(pk2.block_manager.chain_view(child))),
    ensures
        first == second,
{
}

/// A read-only handle to a directory entry.
pub struct Directory {
    pub chain: ChainIndex,
    pub entry: usize,
}

/// A read-only handle to a file entry, with a byte cursor for sequential
/// reads.
pub struct File {
    pub chain: ChainIndex,
    pub entry: usize,
    pub pos: u64,
}

/// A writable handle to a file entry.
pub struct FileMut {
    pub chain: ChainIndex,
    pub entry: usize,
}

impl Directory {
    /// Copies of the entries of this directory's chain, skipping free
    /// slots and the `.` and `..` links. Two calls on the same archive
    /// state yield the same sequence.
    pub fn entries(&self, pk2: &Pk2) -> (r: Result<Vec<PackEntry>, Error>)
        requires
            pk2.wf(),
        ensures
            ({
                let valid = pk2.block_manager.has_chain(self.chain.0) && self.entry
                    < chain_entries(pk2.block_manager.chain_view(self.chain.0)).len();
                let e = chain_entries(pk2.block_manager.chain_view(self.chain.0))[
                    self.entry as int
                ];
                &&& (r is Ok <==> valid && e is Directory && pk2.block_manager.has_chain(
                    e->Directory_pos_children,
                ))
                &&& (r matches Ok(v) ==> v@.map_values(|p: PackEntry| p@) == listed(
                    chain_entries(pk2.block_manager.chain_view(e->Directory_pos_children)),
                ))
                &&& (!valid ==> r == Err::<Vec<PackEntry>, Error>(Error::InvalidChainIndex))
                &&& (valid && !(e is Directory) ==> r == Err::<Vec<PackEntry>, Error>(
                    Error::ExpectedDirectory,
                ))
                &&& (valid && e is Directory && !pk2.block_manager.has_chain(
                    e->Directory_pos_children,
                ) ==> r == Err::<Vec<PackEntry>, Error>(Error::InvalidChainIndex))
            }),
    {
        let e = match pk2.get_entry(self.chain, self.entry) {
            Some(e) => e,
            None => {
                return Err(Error::InvalidChainIndex);
            },
        };
        let child = match &e {
            PackEntry::Directory { pos_children, .. } => *pos_children,
            _ => {
                return Err(Error::ExpectedDirectory);
            },
        };
        let c = match pk2.block_manager.get(child) {
            Some(c) => c,
            None => {
                return Err(Error::InvalidChainIndex);
            },
        };
        proof {
            pk2.block_manager.lemma_chain_view_wf(child.0);
        }
        let dot: Vec<u8> = vec![46u8];
        let dotdot: Vec<u8> = vec![46u8, 46u8];
        let ne = c.num_entries();
        let mut out: Vec<PackEntry> = Vec::new();
        let mut i: usize = 0;
        proof {
            assert(chain_entries(c@).take(0) =~= Seq::<EntryView>::empty());
            assert(out@.map_values(|p: PackEntry| p@) =~= listed(chain_entries(c@).take(0)));
        }
        while i < ne
            invariant
                pk2.wf(),
                chain_wf(c@),
                ne == 20 * c@.len(),
                20 * c@.len() <= usize::MAX,
                i <= ne,
                dot@ == seq![46u8],
                dotdot@ == seq![46u8, 46u8],
                out@.map_values(|p: PackEntry| p@) == listed(chain_entries(c@).take(i as int)),
            decreases ne - i,
        {
            let e = c.get(i).unwrap();
            let ghost pre = out@;
            proof {
                assert(chain_entries(c@).take(i + 1).drop_last() =~= chain_entries(c@).take(
                    i as int,
                ));
                assert(chain_entries(c@).take(i + 1).last() == chain_entries(c@)[i as int]);
            }
            let keep = if e.is_empty() {
                false
            } else {
                match &e {
                    PackEntry::Directory { name, .. } => !(crate::codec::bytes_eq(name, &dot)
                        || crate::codec::bytes_eq(name, &dotdot)),
                    PackEntry::File { name, .. } => !(crate::codec::bytes_eq(name, &dot)
                        || crate::codec::bytes_eq(name, &dotdot)),
                    PackEntry::Empty { .. } => false,
                }
            };
            if keep {
                out.push(e);
                proof {
                    assert(out@.map_values(|p: PackEntry| p@) =~= pre.map_values(
                        |p: PackEntry| p@,
                    ) + seq![chain_entries(c@)[i as int]]);
                    assert(out@.map_values(|p: PackEntry| p@) =~= listed(
                        chain_entries(c@).take(i + 1),
                    ));
                }
            } else {
                proof {
                    assert(!is_listed(chain_entries(c@)[i as int]));
                    assert(out@.map_values(|p: PackEntry| p@) =~= listed(
                        chain_entries(c@).take(i + 1),
                    ));
                }
            }
            i = i + 1;
        }
        proof {
            assert(chain_entries(c@).take(ne as int) =~= chain_entries(c@));
        }
        Ok(out)
    }
}

impl File {
    /// The size recorded in this file's entry.
    pub fn size(&self, pk2: &Pk2) -> (r: Result<u32, Error>)
        requires
            pk2.wf(),
        ensures
            ({
                let valid = pk2.block_manager.has_chain(self.chain.0) && self.entry
                    < chain_entries(pk2.block_manager.chain_view(self.chain.0)).len();
                let e = chain_entries(pk2.block_manager.chain_view(self.chain.0))[
                    self.entry as int
                ];
                &&& (r is Ok <==> valid && e is File)
                &&& (r matches Ok(n) ==> n == e->File_size)
                &&& (!valid ==> r == Err::<u32, Error>(Error::InvalidChainIndex))
                &&& (valid && !(e is File) ==> r == Err::<u32, Error>(Error::ExpectedFile))
            }),
    {
        match pk2.get_entry(self.chain, self.entry) {
            Some(PackEntry::File { size, .. }) => Ok(size),
            Some(_) => Err(Error::ExpectedFile),
            None => Err(Error::InvalidChainIndex),
        }
    }

    /// Moves the read cursor to an absolute position within the payload.
    /// A position past the end is allowed; reads there yield no bytes.
    pub fn seek(&mut self, pos: u64)
        ensures
            final(self).pos == pos,
            final(self).chain == old(self).chain,
            final(self).entry == old(self).entry,
    {
        self.pos = pos;
    }

    /// Reads up to `n` bytes at the cursor and advances it. The cursor is
    /// clamped to the payload size, so reads past the end yield no bytes.
    pub fn read(&mut self, pk2: &Pk2, n: usize) -> (r: Result<Vec<u8>, Error>)
        requires
            pk2.wf(),
        ensures
            final(self).chain == old(self).chain,
            final(self).entry == old(self).entry,
            r is Err ==> *final(self) == *old(self),
            ({
                let valid = pk2.block_manager.has_chain(old(self).chain.0) && old(self).entry
                    < chain_entries(pk2.block_manager.chain_view(old(self).chain.0)).len();
                let e = chain_entries(pk2.block_manager.chain_view(old(self).chain.0))[
                    old(self).entry as int
                ];
                &&& (r is Ok <==> valid && e is File && e->File_pos_data + e->File_size
                    <= pk2.data@.len())
                &&& (r matches Ok(v) ==> {
                    let start = if old(self).pos > e->File_size as u64 {
                        e->File_size as int
                    } else {
                        old(self).pos as int
                    };
                    let take = if n <= e->File_size - start {
                        n as int
                    } else {
                        e->File_size - start
                    };
                    &&& v@ == pk2.data@.subrange(
                        e->File_pos_data + start,
                        e->File_pos_data + start + take,
                    )
                    &&& v@.len() == take
                    &&& final(self).pos == start + take
                })
                &&& (!valid ==> r == Err::<Vec<u8>, Error>(Error::InvalidChainIndex))
                &&& (valid && !(e is File) ==> r == Err::<Vec<u8>, Error>(Error::ExpectedFile))
                &&& (valid && e is File && e->File_pos_data + e->File_size > pk2.data@.len()
                    ==> r == Err::<Vec<u8>, Error>(Error::CorruptedFile))
            }),
    {
        let (pos_data, size) = match pk2.get_entry(self.chain, self.entry) {
            Some(PackEntry::File { pos_data, size, .. }) => (pos_data, size),
            Some(_) => {
                return Err(Error::ExpectedFile);
            },
            None => {
                return Err(Error::InvalidChainIndex);
            },
        };
        if pos_data > pk2.data.len() as u64 || (size as u64) > pk2.data.len() as u64 - pos_data {
            return Err(Error::CorruptedFile);
        }
        let start: u64 = if self.pos > size as u64 {
            size as u64
        } else {
            self.pos
        };
        let avail: u64 = size as u64 - start;
        let take: u64 = if (n as u64) <= avail {
            n as u64
        } else {
            avail
        };
        let v = read_bytes(&pk2.data, (pos_data + start) as usize, take as usize);
        self.pos = start + take;
        Ok(v)
    }

    /// The whole payload of this file: the `size` bytes at `pos_data` of
    /// the image. A payload region outside the image is a corrupted
    /// archive.
    pub fn read_to_end(&self, pk2: &Pk2) -> (r: Result<Vec<u8>, Error>)
        requires
            pk2.wf(),
        ensures
            ({
                let valid = pk2.block_manager.has_chain(self.chain.0) && self.entry
                    < chain_entries(pk2.block_manager.chain_view(self.chain.0)).len();
                let e = chain_entries(pk2.block_manager.chain_view(self.chain.0))[
                    self.entry as int
                ];
                &&& (r is Ok <==> valid && e is File && e->File_pos_data + e->File_size
                    <= pk2.data@.len())
                &&& (r matches Ok(v) ==> v@ == pk2.data@.subrange(
                    e->File_pos_data as int,
                    e->File_pos_data + e->File_size,
                ))
                &&& (!valid ==> r == Err::<Vec<u8>, Error>(Error::InvalidChainIndex))
                &&& (valid && !(e is File) ==> r == Err::<Vec<u8>, Error>(Error::ExpectedFile))
                &&& (valid && e is File && e->File_pos_data + e->File_size > pk2.data@.len()
                    ==> r == Err::<Vec<u8>, Error>(Error::CorruptedFile))
            }),
    {
        let (pos, size) = match pk2.get_entry(self.chain, self.entry) {
            Some(PackEntry::File { pos_data, size, .. }) => (pos_data, size),
            Some(_) => {
                return Err(Error::ExpectedFile);
            },
            None => {
                return Err(Error::InvalidChainIndex);
            },
        };
        if pos > pk2.data.len() as u64 || (size as u64) > pk2.data.len() as u64 - pos {
            return Err(Error::CorruptedFile);
        }
        Ok(read_bytes(&pk2.data, pos as usize, size as usize))
    }
}

impl FileMut {
    /// Writes the whole payload of this file: the bytes are appended at
    /// the end of the image, and the entry's position and size are
    /// redirected there, in memory and in the image. The old payload
    /// region is left behind.
    pub fn write_all(&self, pk2: &mut Pk2, bytes: &Vec<u8>) -> (r: Result<(), Error>)
        requires
            old(pk2).wf(),
            bytes@.len() <= u32::MAX,
        ensures
            final(pk2).wf(),
            final(pk2).key() == old(pk2).key(),
            dot_ok(&old(pk2).block_manager) ==> dot_ok(&final(pk2).block_manager),
            crate::archive::child_links_ok(&old(pk2).block_manager, old(pk2).data@.len())
                ==> crate::archive::child_links_ok(
                &final(pk2).block_manager,
                final(pk2).data@.len(),
            ),
            r is Err ==> *final(pk2) == *old(pk2),
            ({
                let valid = old(pk2).block_manager.has_chain(self.chain.0) && self.entry
                    < chain_entries(old(pk2).block_manager.chain_view(self.chain.0)).len();
                let e = chain_entries(old(pk2).block_manager.chain_view(self.chain.0))[
                    self.entry as int
                ];
                &&& (r is Ok <==> valid && e is File && bytes@.len() <= usize::MAX - old(
                    pk2,
                ).data@.len())
                &&& (!valid ==> r == Err::<(), Error>(Error::InvalidChainIndex))
                &&& (valid && !(e is File) ==> r == Err::<(), Error>(Error::ExpectedFile))
                &&& (valid && e is File && bytes@.len() > usize::MAX - old(pk2).data@.len()
                    ==> r == Err::<(), Error>(Error::Io))
            }),
            r matches Ok(u) ==> ({
                let cv = old(pk2).block_manager.chain_view(self.chain.0);
                let e = chain_entries(cv)[self.entry as int];
                let newe = EntryView::File {
                    name: entry_name_raw(e),
                    access_time: e->File_access_time,
                    create_time: e->File_create_time,
                    modify_time: e->File_modify_time,
                    pos_data: old(pk2).data@.len() as u64,
                    size: bytes@.len() as u32,
                    next_block: entry_next(e),
                };
                &&& old(pk2).block_manager.has_chain(self.chain.0)
                &&& self.entry < chain_entries(cv).len()
                &&& e is File
                &&& final(pk2).data@.len() == old(pk2).data@.len() + bytes@.len()
                &&& final(pk2).data@.subrange(
                    old(pk2).data@.len() as int,
                    old(pk2).data@.len() + bytes@.len() as int,
                ) == bytes@
                &&& final(pk2).block_manager.chain_view(self.chain.0) == chain_update(
                    cv,
                    self.entry as int,
                    newe,
                )
                &&& (forall|k: u64|
                    (#[trigger] final(pk2).block_manager.has_chain(k)) == old(
                        pk2,
                    ).block_manager.has_chain(k))
                &&& (forall|k: u64|
                    k != self.chain.0 && old(pk2).block_manager.has_chain(k) ==> (
                    #[trigger] final(pk2).block_manager.chain_view(k)) == old(
                        pk2,
                    ).block_manager.chain_view(k))
                &&& final(pk2).data@ == spliced(
                    old(pk2).data@ + bytes@,
                    entry_file_offset(cv, self.entry as int),
                    env_enc_opt(old(pk2).key(), crate::entry::entry_bytes(newe)),
                )
            }),
    {
        let ghost pre = *pk2;
        let e = match pk2.get_entry(self.chain, self.entry) {
            Some(e) => e,
            None => {
                return Err(Error::InvalidChainIndex);
            },
        };
        let ghost ev = e@;
        let newe = match e {
            PackEntry::File { name, access_time, create_time, modify_time, next_block, .. } => {
                if bytes.len() > usize::MAX - pk2.data.len() {
                    return Err(Error::Io);
                }
                let pos_data = pk2.data.len() as u64;
                PackEntry::File {
                    name,
                    access_time,
                    create_time,
                    modify_time,
                    pos_data,
                    size: bytes.len() as u32,
                    next_block,
                }
            },
            _ => {
                return Err(Error::ExpectedFile);
            },
        };
        let ghost newev = newe@;
        let chain = pk2.block_manager.get(self.chain).unwrap();
        proof {
            pk2.block_manager.lemma_chain_view_wf(self.chain.0);
        }
        let off = chain.file_offset_for_entry(self.entry).unwrap();
        proof {
            assert((self.entry as int % 20) * 128 <= 2432);
            assert(off + 128 <= pk2.data@.len());
        }
        append_bytes(&mut pk2.data, bytes);
        write_entry_at(&pk2.blowfish, &mut pk2.data, off, &newe);
        proof {
            crate::manager::lemma_idx_of_key(pre.block_manager.keys@, self.chain.0);
        }
        let c = pk2.block_manager.get_mut(self.chain);
        c.set_entry(self.entry, newe);
        proof {
            let ix = crate::manager::idx_of_key(pre.block_manager.keys@, self.chain.0);
            assert(pk2.block_manager.chains@[ix]@ == chain_update(
                pre.block_manager.chain_view(self.chain.0),
                self.entry as int,
                newev,
            ));
            lemma_manager_update_frame(&pre.block_manager, &pk2.block_manager, self.chain.0);
            assert(pk2.wf());
            if crate::archive::child_links_ok(&pre.block_manager, pre.data@.len()) {
                assert(!crate::manager::is_child_entry(
                    chain_entries(pre.block_manager.chain_view(self.chain.0))[self.entry as int],
                ));
                assert(!crate::manager::is_child_entry(newev));
                crate::archive::lemma_child_links_entry_swap(
                    &pre.block_manager,
                    &pk2.block_manager,
                    self.chain.0,
                    self.entry as int,
                    newev,
                    pre.data@.len(),
                    pk2.data@.len(),
                );
            }
            assert(pk2.data@.subrange(pre.data@.len() as int, pre.data@.len() + bytes@.len() as int)
                =~= bytes@);
            if dot_ok(&pre.block_manager) {
                assert forall|k: u64| #[trigger] pk2.block_manager.has_chain(k) implies
                    chain_entries(pk2.block_manager.chain_view(k)).len() >= 1 && (chain_entries(
                    pk2.block_manager.chain_view(k),
                )[0] matches EntryView::Directory { name, pos_children, .. } && name == seq![46u8]
                    && pos_children == k) by {
                    if k == self.chain.0 {
                        assert(chain_entries(pre.block_manager.chain_view(k))[0]
                            is Directory);
                        assert(self.entry != 0);
                        assert(chain_entries(pk2.block_manager.chain_view(k))[0]
                            == chain_entries(pre.block_manager.chain_view(k))[0]);
                    } else {
                        assert(pk2.block_manager.chain_view(k) == pre.block_manager.chain_view(
                            k,
                        ));
                    }
                }
            }
        }
        Ok(())
    }

    /// Finalizes the entry. Writes are persisted as they are made, so
    /// there is nothing left to write back.
    pub fn flush(&self, _pk2: &Pk2) -> (r: Result<(), Error>)
        ensures
            r is Ok,
    {
        Ok(())
    }
}

} // verus!
