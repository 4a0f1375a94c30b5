//! The in-memory index of the archive: every block chain, keyed by its
//! starting offset, together with path resolution over the chains.
//!
//! On open the whole index is parsed: starting from the root chain, every
//! directory entry's child chain is loaded in turn. The number of blocks a
//! chain may span is bounded by the size of the image, so a crafted cycle
//! of block links is rejected instead of walking forever.

use vstd::prelude::*;

use crate::block::{
    block_wf, chain_entries, chain_wf, first_named, lemma_first_named, seq_link, BlockView,
    PackBlock, PackBlockChain,
};
use crate::crypto::Blowfish;
use crate::entry::{EntryView, PackEntry};
use crate::io::{block_at, block_at_ok, opt_key, opt_wf, read_block_at};
use crate::{ChainIndex, Error};

verus! {

/// The most blocks a single chain may span in an image of `len` bytes.
pub open spec fn chain_fuel(len: nat) -> nat {
    len / 2560 + 1
}

/// The chain starting at `off`: blocks read and followed through their
/// links until a block carries none. `None` when a block cannot be read or
/// the walk does not end within `fuel` blocks.
pub open spec fn parse_chain(k: Option<Seq<u8>>, bytes: Seq<u8>, off: u64, fuel: nat) -> Option<
    Seq<BlockView>,
>
    decreases fuel,
{
    if fuel == 0 {
        Option::None
    } else if !block_at_ok(k, bytes, off) {
        Option::None
    } else {
        let b = block_at(k, bytes, off);
        let l = seq_link(b.entries);
        if l == 0 {
            Option::Some(seq![b])
        } else {
            match parse_chain(k, bytes, l, (fuel - 1) as nat) {
                Option::None => Option::None,
                Option::Some(rest) => Option::Some(seq![b] + rest),
            }
        }
    }
}

/// What a parsed chain looks like: non-empty, valid, starting at `off`,
/// and no longer than the fuel spent.
pub proof fn lemma_parse_chain_props(k: Option<Seq<u8>>, bytes: Seq<u8>, off: u64, fuel: nat)
    requires
        parse_chain(k, bytes, off, fuel) is Some,
    ensures
        ({
            let bs = parse_chain(k, bytes, off, fuel)->Some_0;
            &&& bs.len() >= 1
            &&& bs.len() <= fuel
            &&& bs[0].offset == off
            &&& chain_wf(bs)
            &&& forall|i: int| 0 <= i < bs.len() ==> (#[trigger] bs[i].offset) + 2560
                <= bytes.len()
        }),
    decreases fuel,
{
    let bs = parse_chain(k, bytes, off, fuel)->Some_0;
    let b = block_at(k, bytes, off);
    let l = seq_link(b.entries);
    assert(block_wf(b)) by {
        crate::io::lemma_block_at_wf(k, bytes, off);
    }
    if l == 0 {
    } else {
        lemma_parse_chain_props(k, bytes, l, (fuel - 1) as nat);
        let rest = parse_chain(k, bytes, l, (fuel - 1) as nat)->Some_0;
        assert(bs =~= seq![b] + rest);
        assert(forall|i: int| 1 <= i < bs.len() ==> bs[i] == rest[i - 1]);
    }
}

/// The index of the first occurrence of `k` in `s`, or -1.
pub open spec fn idx_of_key(s: Seq<u64>, k: u64) -> int
    decreases s.len(),
{
    if s.len() == 0 {
        -1
    } else if s[0] == k {
        0
    } else {
        let r = idx_of_key(s.drop_first(), k);
        if r == -1 {
            -1
        } else {
            r + 1
        }
    }
}

/// What `idx_of_key` finds: the first occurrence when the key is present,
/// and nothing exactly when it is absent.
pub proof fn lemma_idx_of_key(s: Seq<u64>, k: u64)
    ensures
        idx_of_key(s, k) == -1 ==> forall|i: int| 0 <= i < s.len() ==> s[i] != k,
        idx_of_key(s, k) != -1 ==> 0 <= idx_of_key(s, k) < s.len() && s[idx_of_key(s, k)] == k
            && (forall|j: int| 0 <= j < idx_of_key(s, k) ==> s[j] != k),
    decreases s.len(),
{
    if s.len() == 0 {
    } else if s[0] == k {
    } else {
        let t = s.drop_first();
        lemma_idx_of_key(t, k);
        assert(forall|i: int| 1 <= i < s.len() ==> #[trigger] s[i] == t[i - 1]);
    }
}

/// The in-memory chain map: parallel vectors of chain offsets and chains.
/// Offsets are already unique positions in the image, so a plain
/// association list keyed by the raw offset serves as the map.
pub struct BlockManager {
    pub keys: Vec<u64>,
    pub chains: Vec<PackBlockChain>,
}

impl BlockManager {
    /// Whether a chain starting at `k` is loaded.
    pub open spec fn has_chain(&self, k: u64) -> bool {
        self.keys@.contains(k)
    }

    /// The loaded chain starting at `k`.
    pub open spec fn chain_view(&self, k: u64) -> Seq<BlockView>
        recommends
            self.has_chain(k),
    {
        self.chains@[idx_of_key(self.keys@, k)]@
    }

    /// Validity of the map: the vectors run in parallel, offsets are
    /// unique, every chain is valid, starts at its key, lies inside the
    /// image bound, and is small enough to index.
    pub open spec fn wf(&self) -> bool {
        &&& self.keys@.len() == self.chains@.len()
        &&& forall|i: int, j: int|
            0 <= i < j < self.keys@.len() ==> self.keys@[i] != self.keys@[j]
        &&& forall|i: int|
            0 <= i < self.chains@.len() ==> chain_wf(#[trigger] self.chains@[i]@)
        &&& forall|i: int|
            0 <= i < self.chains@.len() ==> (#[trigger] self.chains@[i]@[0].offset)
                == self.keys@[i]
        &&& forall|i: int|
            0 <= i < self.chains@.len() ==> 20 * ((#[trigger] self.chains@[i]@.len()) + 1)
                <= usize::MAX
        &&& forall|i: int, j: int|
            0 <= i < self.chains@.len() && 0 <= j < self.chains@[i]@.len() ==> (
            #[trigger] self.chains@[i]@[j].offset) + 2560 <= u64::MAX
    }

    /// Whether the chain starting at `chain` is loaded.
    pub fn contains(&self, chain: ChainIndex) -> (r: bool)
        ensures
            r == self.has_chain(chain.0),
    {
        contains_key(&self.keys, chain.0)
    }

    /// The loaded chain starting at `chain`, if any.
    pub fn get(&self, chain: ChainIndex) -> (r: Option<&PackBlockChain>)
        requires
            self.wf(),
        ensures
            r is Some <==> self.has_chain(chain.0),
            r matches Some(c) ==> c@ == self.chain_view(chain.0),
    {
        proof {
            lemma_idx_of_key(self.keys@, chain.0);
        }
        let mut i: usize = 0;
        while i < self.keys.len()
            invariant
                i <= self.keys@.len(),
                self.wf(),
                forall|j: int| 0 <= j < i ==> self.keys@[j] != chain.0,
            decreases self.keys@.len() - i,
        {
            if self.keys[i] == chain.0 {
                proof {
                    lemma_idx_of_key(self.keys@, chain.0);
                    assert(idx_of_key(self.keys@, chain.0) == i);
                }
                return Some(&self.chains[i]);
            }
            i = i + 1;
        }
        proof {
            lemma_idx_of_key(self.keys@, chain.0);
            assert(!self.keys@.contains(chain.0));
        }
        None
    }

    /// The position of `chain` in the key vector.
    fn index_of(&self, chain: ChainIndex) -> (r: usize)
        requires
            self.wf(),
            self.has_chain(chain.0),
        ensures
            r == idx_of_key(self.keys@, chain.0),
            r < self.chains@.len(),
            self.keys@[r as int] == chain.0,
    {
        let mut i: usize = 0;
        while i < self.keys.len()
            invariant
                i <= self.keys@.len(),
                self.wf(),
                self.has_chain(chain.0),
                forall|j: int| 0 <= j < i ==> self.keys@[j] != chain.0,
            decreases self.keys@.len() - i,
        {
            if self.keys[i] == chain.0 {
                proof {
                    lemma_idx_of_key(self.keys@, chain.0);
                }
                return i;
            }
            i = i + 1;
        }
        proof {
            lemma_idx_of_key(self.keys@, chain.0);
            assert(!self.keys@.contains(chain.0));
        }
        vstd::pervasive::unreached()
    }

    /// A mutable borrow of the loaded chain starting at `chain`. The rest
    /// of the map is untouched; the borrowed chain's slot follows whatever
    /// the caller makes of the borrow.
    pub fn get_mut(&mut self, chain: ChainIndex) -> (r: &mut PackBlockChain)
        requires
            old(self).wf(),
            old(self).has_chain(chain.0),
        ensures
            *r == old(self).chains@[idx_of_key(old(self).keys@, chain.0)],
            (*r)@ == old(self).chain_view(chain.0),
            final(self).keys@ == old(self).keys@,
            final(self).chains@ == old(self).chains@.update(
                idx_of_key(old(self).keys@, chain.0),
                *final(r),
            ),
    {
        let i = self.index_of(chain);
        &mut self.chains[i]
    }

    /// Stores `bc` under `chain`, replacing a chain already there.
    pub fn insert(&mut self, chain: ChainIndex, bc: PackBlockChain)
        requires
            old(self).wf(),
            chain_wf(bc@),
            bc@[0].offset == chain.0,
            20 * (bc@.len() + 1) <= usize::MAX,
            forall|j: int| 0 <= j < bc@.len() ==> (#[trigger] bc@[j].offset) + 2560 <= u64::MAX,
        ensures
            final(self).wf(),
            final(self).has_chain(chain.0),
            final(self).chain_view(chain.0) == bc@,
            forall|k: u64|
                k != chain.0 ==> (#[trigger] final(self).has_chain(k)) == old(self).has_chain(k),
            forall|k: u64|
                k != chain.0 && old(self).has_chain(k) ==> (#[trigger] final(self).chain_view(k))
                    == old(self).chain_view(k),
    {
        let ghost pre = *self;
        let ghost bcv = bc@;
        if self.contains(chain) {
            let i = self.index_of(chain);
            self.chains.set(i, bc);
            proof {
                lemma_idx_of_key(pre.keys@, chain.0);
                lemma_insert_frame(pre.keys@, pre.chains@, self.chains@, chain.0, i as int);
                assert(self.wf());
            }
        } else {
            proof {
                assert(!pre.keys@.contains(chain.0));
            }
            self.keys.push(chain.0);
            self.chains.push(bc);
            proof {
                lemma_push_frame(pre.keys@, pre.chains@, chain.0);
                assert(self.keys@ == pre.keys@.push(chain.0));
                assert(self.keys@[self.keys@.len() - 1] == chain.0);
                assert(idx_of_key(self.keys@, chain.0) == self.keys@.len() - 1) by {
                    lemma_idx_of_key(self.keys@, chain.0);
                    let ix = idx_of_key(self.keys@, chain.0);
                    if ix < self.keys@.len() - 1 {
                        assert(pre.keys@[ix] == chain.0);
                        assert(pre.keys@.contains(chain.0));
                    }
                }
                assert(self.chain_view(chain.0) == bcv);
                assert forall|a: int, b: int|
                    0 <= a < b < self.keys@.len() implies self.keys@[a] != self.keys@[b] by {
                    if b < pre.keys@.len() {
                    } else {
                        assert(self.keys@[b] == chain.0);
                        assert(self.keys@[a] == pre.keys@[a]);
                        if pre.keys@[a] == chain.0 {
                            assert(pre.keys@.contains(chain.0));
                        }
                    }
                }
                assert(self.wf());
                assert forall|k: u64| k != chain.0 implies (#[trigger] self.has_chain(k))
                    == pre.has_chain(k) by {
                    if self.keys@.contains(k) {
                        assert(k == chain.0 || pre.keys@.contains(k));
                    }
                    if pre.keys@.contains(k) {
                        let j = choose|j: int|
                            0 <= j < pre.keys@.len() && pre.keys@[j] == k;
                        assert(self.keys@[j] == k);
                        assert(self.keys@.contains(k));
                    }
                }
            }
        }
    }
}

/// After replacing slot `i` (the slot of `k`), every other key still maps
/// to its old chain.
proof fn lemma_insert_frame(
    keys: Seq<u64>,
    pre: Seq<PackBlockChain>,
    post: Seq<PackBlockChain>,
    k: u64,
    i: int,
)
    requires
        keys.len() == pre.len(),
        post.len() == pre.len(),
        0 <= i < keys.len(),
        keys[i] == k,
        forall|a: int, b: int| 0 <= a < b < keys.len() ==> keys[a] != keys[b],
        forall|j: int| 0 <= j < post.len() && j != i ==> post[j] == pre[j],
    ensures
        forall|k2: u64|
            k2 != k && keys.contains(k2) ==> idx_of_key(keys, k2) != i && post[idx_of_key(
                keys,
                k2,
            )] == pre[idx_of_key(keys, k2)],
{
    assert forall|k2: u64| k2 != k && keys.contains(k2) implies idx_of_key(keys, k2) != i
        && post[idx_of_key(keys, k2)] == pre[idx_of_key(keys, k2)] by {
        lemma_idx_of_key(keys, k2);
        let j = choose|j: int| 0 <= j < keys.len() && keys[j] == k2;
        assert(idx_of_key(keys, k2) != -1);
    }
}

/// After pushing a fresh key, every old key still maps to its old chain.
proof fn lemma_push_frame(keys: Seq<u64>, chains: Seq<PackBlockChain>, k: u64)
    requires
        keys.len() == chains.len(),
        !keys.contains(k),
    ensures
        forall|k2: u64|
            k2 != k && keys.contains(k2) ==> {
                &&& #[trigger] idx_of_key(keys.push(k), k2) == idx_of_key(keys, k2)
                &&& 0 <= idx_of_key(keys, k2) < keys.len()
            },
        keys.push(k).contains(k),
        forall|k2: u64| keys.push(k).contains(k2) ==> k2 == k || keys.contains(k2),
    decreases keys.len(),
{
    assert(keys.push(k)[keys.len() as int] == k);
    assert forall|k2: u64| #[trigger] keys.push(k).contains(k2) implies k2 == k || keys.contains(
        k2,
    ) by {
        let j = choose|j: int| 0 <= j < keys.push(k).len() && keys.push(k)[j] == k2;
        if j < keys.len() {
            assert(keys[j] == k2);
        }
    }
    assert forall|k2: u64| k2 != k && keys.contains(k2) implies #[trigger] idx_of_key(
        keys.push(k),
        k2,
    ) == idx_of_key(keys, k2) && 0 <= idx_of_key(keys, k2) < keys.len() by {
        lemma_idx_of_key(keys, k2);
        lemma_idx_of_push(keys, k, k2);
    }
}

/// Pushing a different key at the back does not change where a present key
/// is first found.
proof fn lemma_idx_of_push(keys: Seq<u64>, k: u64, k2: u64)
    requires
        keys.contains(k2),
        k2 != k,
    ensures
        idx_of_key(keys.push(k), k2) == idx_of_key(keys, k2),
    decreases keys.len(),
{
    lemma_idx_of_key(keys, k2);
    if keys.len() == 0 {
    } else if keys[0] == k2 {
        assert(keys.push(k)[0] == k2);
    } else {
        let t = keys.drop_first();
        assert(t.contains(k2)) by {
            let j = choose|j: int| 0 <= j < keys.len() && keys[j] == k2;
            assert(t[j - 1] == k2);
        }
        lemma_idx_of_push(t, k, k2);
        assert(keys.push(k).drop_first() =~= t.push(k));
        lemma_idx_of_key(t, k2);
        lemma_idx_of_key(t.push(k), k2);
    }
}

/// Whether `key` occurs in `keys`.
fn contains_key(keys: &Vec<u64>, key: u64) -> (r: bool)
    ensures
        r == keys@.contains(key),
{
    let mut i: usize = 0;
    while i < keys.len()
        invariant
            i <= keys@.len(),
            forall|j: int| 0 <= j < i ==> keys@[j] != key,
        decreases keys@.len() - i,
    {
        if keys[i] == key {
            return true;
        }
        i = i + 1;
    }
    false
}

impl BlockManager {
    /// Reads the chain starting at `offset`: blocks are read and followed
    /// through their links until a block carries none, or the walk exceeds
    /// what an image of this size can hold, which is a corrupted archive.
    pub fn read_chain_from_file_at(bf: &Option<Blowfish>, data: &Vec<u8>, offset: u64) -> (r:
        Result<PackBlockChain, Error>)
        requires
            opt_wf(*bf),
        ensures
            parse_chain(opt_key(*bf), data@, offset, chain_fuel(data@.len())) matches Some(bs)
                ==> (r matches Ok(c) && c@ == bs),
            parse_chain(opt_key(*bf), data@, offset, chain_fuel(data@.len())) is None ==> r
                == Err::<PackBlockChain, Error>(Error::CorruptedFile),
    {
        let ghost k = opt_key(*bf);
        let ghost cap_n = chain_fuel(data@.len());
        let cap: usize = data.len() / 2560 + 1;
        assert(cap == cap_n);
        let mut blocks: Vec<PackBlock> = Vec::new();
        let mut cur: u64 = offset;
        let mut i: usize = 0;
        loop
            invariant
                opt_wf(*bf),
                k == opt_key(*bf),
                cap_n == chain_fuel(data@.len()),
                cap == cap_n,
                i <= cap,
                blocks@.len() == i,
                (parse_chain(k, data@, offset, cap_n) is Some) == (parse_chain(
                    k,
                    data@,
                    cur,
                    (cap_n - i) as nat,
                ) is Some),
                parse_chain(k, data@, offset, cap_n) matches Some(bs) ==> (parse_chain(
                    k,
                    data@,
                    cur,
                    (cap_n - i) as nat,
                ) matches Some(rest) && bs == blocks@.map_values(|b: PackBlock| b@) + rest),
            decreases cap - i,
        {
            if i >= cap {
                assert((cap_n - i) as nat == 0);
                assert(parse_chain(k, data@, cur, (cap_n - i) as nat) is None);
                assert(parse_chain(k, data@, offset, cap_n) is None);
                return Err(Error::CorruptedFile);
            }
            let b = match read_block_at(bf, data, cur) {
                Ok(b) => b,
                Err(_) => {
                    assert(!block_at_ok(k, data@, cur));
                    assert((cap_n - i) as nat >= 0);
                    assert(parse_chain(k, data@, cur, (cap_n - i) as nat) is None);
                    assert(parse_chain(k, data@, offset, cap_n) is None);
                    return Err(Error::CorruptedFile);
                },
            };
            assert(block_at_ok(k, data@, cur));
            assert(b@ == block_at(k, data@, cur));
            let l = b.link();
            let ghost prev_blocks = blocks@.map_values(|b: PackBlock| b@);
            blocks.push(b);
            proof {
                assert(blocks@.map_values(|b: PackBlock| b@) =~= prev_blocks + seq![
                    block_at(k, data@, cur),
                ]);
            }
            if l == 0 {
                proof {
                    assert(parse_chain(k, data@, cur, (cap_n - i) as nat) matches Some(one)
                        && one == seq![block_at(k, data@, cur)]);
                    if parse_chain(k, data@, offset, cap_n) is Some {
                        let bs = parse_chain(k, data@, offset, cap_n)->Some_0;
                        assert(bs =~= blocks@.map_values(|b: PackBlock| b@));
                    }
                }
                let c = PackBlockChain::from_blocks(blocks);
                return Ok(c);
            }
            proof {
                let fuel = (cap_n - i) as nat;
                assert(parse_chain(k, data@, cur, fuel) == (match parse_chain(
                    k,
                    data@,
                    l,
                    (fuel - 1) as nat,
                ) {
                    Option::None => Option::None::<Seq<BlockView>>,
                    Option::Some(rest) => Option::Some(seq![block_at(k, data@, cur)] + rest),
                }));
                if parse_chain(k, data@, offset, cap_n) is Some {
                    let bs = parse_chain(k, data@, offset, cap_n)->Some_0;
                    let rest = parse_chain(k, data@, l, (fuel - 1) as nat)->Some_0;
                    assert(bs =~= blocks@.map_values(|b: PackBlock| b@) + rest);
                }
            }
            cur = l;
            i = i + 1;
        }
    }
}

} // verus!

verus! {

/// Whether an entry names a child chain that the index parser must load: a
/// directory other than the `.` and `..` links.
pub open spec fn is_child_entry(e: EntryView) -> bool {
    match e {
        EntryView::Directory { name, .. } => name != seq![46u8] && name != seq![46u8, 46u8],
        _ => false,
    }
}

/// The child chain offset of a directory entry.
pub open spec fn child_of(e: EntryView) -> u64 {
    match e {
        EntryView::Directory { pos_children, .. } => pos_children,
        _ => 0,
    }
}

/// Whether some loaded chain holds a directory entry linking chain `k`.
pub open spec fn reachable_from(m: &BlockManager, k: u64) -> bool {
    exists|k2: u64, j: int|
        m.has_chain(k2) && 0 <= j < chain_entries(m.chain_view(k2)).len() && is_child_entry(
            #[trigger] chain_entries(m.chain_view(k2))[j],
        ) && child_of(chain_entries(m.chain_view(k2))[j]) == k
}

/// A chain reachable in a map stays reachable after a fresh chain is added.
proof fn lemma_reachable_frame(mpre: &BlockManager, m: &BlockManager, off: u64, x: u64)
    requires
        reachable_from(mpre, x),
        !mpre.has_chain(off),
        forall|k: u64| k != off ==> (#[trigger] m.has_chain(k)) == mpre.has_chain(k),
        forall|k: u64|
            k != off && mpre.has_chain(k) ==> (#[trigger] m.chain_view(k)) == mpre.chain_view(k),
    ensures
        reachable_from(m, x),
{
    let (k2, j) = choose|k2: u64, j: int|
        mpre.has_chain(k2) && 0 <= j < chain_entries(mpre.chain_view(k2)).len()
            && is_child_entry(#[trigger] chain_entries(mpre.chain_view(k2))[j]) && child_of(
            chain_entries(mpre.chain_view(k2))[j],
        ) == x;
    assert(k2 != off);
    assert(m.has_chain(k2));
    assert(m.chain_view(k2) == mpre.chain_view(k2));
    assert(is_child_entry(chain_entries(m.chain_view(k2))[j]) && child_of(
        chain_entries(m.chain_view(k2))[j],
    ) == x);
}

/// An image whose root chain parses and holds no directory besides the
/// `.` and `..` links: its index is the root chain alone.
pub open spec fn root_only_parse(k: Option<Seq<u8>>, bytes: Seq<u8>) -> bool {
    &&& parse_chain(k, bytes, crate::PK2_ROOT_BLOCK, chain_fuel(bytes.len())) is Some
    &&& ({
        let bs = parse_chain(k, bytes, crate::PK2_ROOT_BLOCK, chain_fuel(bytes.len()))->Some_0;
        forall|j: int|
            0 <= j < chain_entries(bs).len() ==> !is_child_entry(#[trigger] chain_entries(bs)[j])
    })
}

/// A chain of an image of `len` bytes is small enough to index by entry.
pub proof fn lemma_fuel_bound(len: nat)
    requires
        len <= usize::MAX,
    ensures
        20 * (chain_fuel(len) + 1) <= usize::MAX,
{
    assert(usize::MAX >= 0xFFFF_FFFF);
    let d = len / 2560;
    assert(d * 2560 <= len && 20 * (d + 2) <= usize::MAX) by (nonlinear_arith)
        requires
            d == len / 2560,
            len <= usize::MAX,
            usize::MAX >= 0xFFFF_FFFF,
    ;
}

impl BlockManager {
    /// Parses the complete index of an archive image: the root chain and,
    /// transitively, the chain of every directory entry. An offset already
    /// loaded is not walked again, so a crafted cycle of directories ends
    /// the walk instead of repeating it.
    #[verifier::rlimit(100)]
    pub fn new(bf: &Option<Blowfish>, data: &Vec<u8>) -> (r: Result<BlockManager, Error>)
        requires
            opt_wf(*bf),
        ensures
            r matches Ok(m) ==> m.wf() && m.has_chain(crate::PK2_ROOT_BLOCK),
            r matches Ok(m) ==> forall|k: u64|
                #[trigger] m.has_chain(k) ==> parse_chain(
                    opt_key(*bf),
                    data@,
                    k,
                    chain_fuel(data@.len()),
                ) == Option::Some(m.chain_view(k)),
            r matches Ok(m) ==> forall|k: u64, j: int|
                m.has_chain(k) && 0 <= j < chain_entries(m.chain_view(k)).len() && is_child_entry(
                    #[trigger] chain_entries(m.chain_view(k))[j],
                ) ==> m.has_chain(child_of(chain_entries(m.chain_view(k))[j])),
            r matches Ok(m) ==> forall|k: u64|
                #[trigger] m.has_chain(k) ==> k == crate::PK2_ROOT_BLOCK || reachable_from(
                    &m,
                    k,
                ),
            root_only_parse(opt_key(*bf), data@) ==> r is Ok,
            root_only_parse(opt_key(*bf), data@) ==> (r matches Ok(m) ==> forall|k: u64|
                #[trigger] m.has_chain(k) ==> k == crate::PK2_ROOT_BLOCK),
            r matches Err(e) ==> e == Error::CorruptedFile,
    {
        let ghost key = opt_key(*bf);
        let ghost fuel = chain_fuel(data@.len());
        let mut m = BlockManager { keys: Vec::new(), chains: Vec::new() };
        let mut work: Vec<u64> = Vec::new();
        work.push(crate::PK2_ROOT_BLOCK);
        let dot: Vec<u8> = vec![46u8];
        let dotdot: Vec<u8> = vec![46u8, 46u8];
        assert(work@ =~= seq![crate::PK2_ROOT_BLOCK]);
        assert(work@[0] == crate::PK2_ROOT_BLOCK);
        assert(work@.contains(crate::PK2_ROOT_BLOCK));
        let dlen: usize = data.len();
        assert(data@.len() <= usize::MAX);
        let budget: usize = data.len() / 128 + 2;
        let mut iter: usize = 0;
        while work.len() > 0
            invariant
                opt_wf(*bf),
                key == opt_key(*bf),
                fuel == chain_fuel(data@.len()),
                dot@ == seq![46u8],
                dotdot@ == seq![46u8, 46u8],
                budget == data@.len() / 128 + 2,
                data@.len() <= usize::MAX,
                iter <= budget,
                root_only_parse(key, data@) ==> ((iter == 0 ==> work@ == seq![
                    crate::PK2_ROOT_BLOCK,
                ] && m.keys@.len() == 0) && (iter >= 1 ==> work@.len() == 0)),
                m.wf(),
                forall|k: u64|
                    #[trigger] m.has_chain(k) ==> parse_chain(key, data@, k, fuel)
                        == Option::Some(m.chain_view(k)),
                forall|k: u64, j: int|
                    m.has_chain(k) && 0 <= j < chain_entries(m.chain_view(k)).len()
                        && is_child_entry(#[trigger] chain_entries(m.chain_view(k))[j])
                        ==> m.has_chain(child_of(chain_entries(m.chain_view(k))[j]))
                        || work@.contains(child_of(chain_entries(m.chain_view(k))[j])),
                m.has_chain(crate::PK2_ROOT_BLOCK) || work@.contains(crate::PK2_ROOT_BLOCK),
                forall|k: u64|
                    #[trigger] m.has_chain(k) ==> k == crate::PK2_ROOT_BLOCK || reachable_from(
                        &m,
                        k,
                    ),
                forall|w: u64|
                    #[trigger] work@.contains(w) ==> w == crate::PK2_ROOT_BLOCK
                        || reachable_from(&m, w),
                root_only_parse(key, data@) ==> (forall|j: int|
                    0 <= j < work@.len() ==> work@[j] == crate::PK2_ROOT_BLOCK) && (forall|
                    k: u64,
                |
                    #[trigger] m.has_chain(k) ==> k == crate::PK2_ROOT_BLOCK),
            decreases budget - iter,
        {
            if iter >= budget {
                return Err(Error::CorruptedFile);
            }
            iter = iter + 1;
            let ghost work0 = work@;
            let off = work.pop().unwrap();
            let ghost wp = work@;
            proof {
                assert(work0 =~= wp.push(off));
                assert(work0[work0.len() - 1] == off);
                assert(work0.contains(off));
                assert forall|w: u64| wp.contains(w) implies work0.contains(w) by {
                    let j = choose|j: int| 0 <= j < wp.len() && wp[j] == w;
                    assert(work0[j] == w);
                }
                assert forall|w: u64| work0.contains(w) implies wp.contains(w) || w == off by {
                    let j = choose|j: int| 0 <= j < work0.len() && work0[j] == w;
                    if j < wp.len() {
                        assert(wp[j] == w);
                    }
                }
            }
            if m.contains(ChainIndex(off)) {
                continue ;
            }
            let c = match Self::read_chain_from_file_at(bf, data, off) {
                Ok(c) => c,
                Err(_) => {
                    proof {
                        if root_only_parse(key, data@) {
                            assert(off == crate::PK2_ROOT_BLOCK);
                            assert(parse_chain(key, data@, off, fuel) is Some);
                            assert(false);
                        }
                    }
                    return Err(Error::CorruptedFile);
                },
            };
            proof {
                lemma_parse_chain_props(key, data@, off, fuel);
                lemma_fuel_bound(data@.len());
            }
            let ghost cv = c@;
            let n = c.num_entries();
            let mut idx: usize = 0;
            while idx < n
                invariant
                    opt_wf(*bf),
                    key == opt_key(*bf),
                    fuel == chain_fuel(data@.len()),
                    chain_wf(cv),
                    c@ == cv,
                    data@.len() <= usize::MAX,
                    cv == parse_chain(key, data@, off, fuel)->Some_0,
                    parse_chain(key, data@, off, fuel) is Some,
                    dot@ == seq![46u8],
                    dotdot@ == seq![46u8, 46u8],
                    n == 20 * cv.len(),
                    20 * (cv.len() + 1) <= usize::MAX,
                    idx <= n,
                    forall|j: int|
                        0 <= j < idx && is_child_entry(#[trigger] chain_entries(cv)[j])
                            ==> work@.contains(child_of(chain_entries(cv)[j])),
                    forall|w: u64| wp.contains(w) ==> #[trigger] work@.contains(w),
                    forall|w: u64|
                        #[trigger] work@.contains(w) ==> wp.contains(w) || (exists|j: int|
                            0 <= j < chain_entries(cv).len() && is_child_entry(
                                #[trigger] chain_entries(cv)[j],
                            ) && child_of(chain_entries(cv)[j]) == w),
                    root_only_parse(key, data@) && off == crate::PK2_ROOT_BLOCK ==> work@ == wp,
                decreases n - idx,
            {
                let e = c.get(idx).unwrap();
                let ghost ev = chain_entries(cv)[idx as int];
                match &e {
                    PackEntry::Directory { name, pos_children, .. } => {
                        if !(crate::codec::bytes_eq(name, &dot) || crate::codec::bytes_eq(
                            name,
                            &dotdot,
                        )) {
                            proof {
                                assert(is_child_entry(ev));
                                assert(child_of(ev) == pos_children.0);
                                if root_only_parse(key, data@) && off
                                    == crate::PK2_ROOT_BLOCK {
                                    assert(!is_child_entry(chain_entries(cv)[idx as int]));
                                    assert(false);
                                }
                            }
                            let ghost wbefore = work@;
                            work.push(pos_children.0);
                            proof {
                                assert(work@ =~= wbefore.push(pos_children.0));
                                assert(work@[work@.len() - 1] == pos_children.0);
                                assert(work@.contains(child_of(ev)));
                                assert forall|w: u64|
                                    wbefore.contains(w) implies #[trigger] work@.contains(
                                    w,
                                ) by {
                                    let j = choose|j: int|
                                        0 <= j < wbefore.len() && wbefore[j] == w;
                                    assert(work@[j] == w);
                                }
                                assert forall|w: u64| #[trigger] work@.contains(w) implies
                                    wbefore.contains(w) || w == pos_children.0 by {
                                    let j = choose|j: int|
                                        0 <= j < work@.len() && work@[j] == w;
                                    if j < wbefore.len() {
                                        assert(wbefore[j] == w);
                                    }
                                }
                                assert(is_child_entry(chain_entries(cv)[idx as int])
                                    && child_of(chain_entries(cv)[idx as int])
                                    == pos_children.0);
                            }
                        } else {
                            assert(!is_child_entry(ev));
                        }
                    },
                    _ => {
                        assert(!is_child_entry(ev));
                    },
                }
                idx = idx + 1;
            }
            let ghost mpre = m;
            let ghost wfin = work@;
            proof {
                lemma_parse_chain_props(key, data@, off, fuel);
                lemma_fuel_bound(data@.len());
                assert(usize::MAX <= u64::MAX);
                assert forall|j: int| 0 <= j < cv.len() implies (#[trigger] cv[j].offset) + 2560
                    <= u64::MAX by {
                    assert(cv[j].offset + 2560 <= data@.len());
                }
            }
            m.insert(ChainIndex(off), c);
            proof {
                assert(m.has_chain(off));
                assert(m.chain_view(off) == cv);
                assert forall|k: u64|
                    #[trigger] m.has_chain(k) implies parse_chain(key, data@, k, fuel)
                    == Option::Some(m.chain_view(k)) by {
                    if k != off {
                        assert(mpre.has_chain(k));
                        assert(m.chain_view(k) == mpre.chain_view(k));
                    }
                }
                assert forall|k: u64, j: int|
                    m.has_chain(k) && 0 <= j < chain_entries(m.chain_view(k)).len()
                        && is_child_entry(
                        #[trigger] chain_entries(m.chain_view(k))[j],
                    ) implies m.has_chain(child_of(chain_entries(m.chain_view(k))[j]))
                    || work@.contains(child_of(chain_entries(m.chain_view(k))[j])) by {
                    let ch = child_of(chain_entries(m.chain_view(k))[j]);
                    if k == off {
                        assert(m.chain_view(k) == cv);
                    } else {
                        assert(mpre.has_chain(k));
                        assert(m.chain_view(k) == mpre.chain_view(k));
                        if !mpre.has_chain(ch) && !work0.contains(ch) {
                            assert(false);
                        }
                        if !m.has_chain(ch) {
                            assert(!mpre.has_chain(ch) || mpre.has_chain(ch));
                            if mpre.has_chain(ch) {
                                assert(m.has_chain(ch));
                            } else {
                                assert(work0.contains(ch));
                                if ch == off {
                                    assert(m.has_chain(ch));
                                } else {
                                    assert(wp.contains(ch));
                                    assert(work@.contains(ch));
                                }
                            }
                        }
                    }
                }
                if !m.has_chain(crate::PK2_ROOT_BLOCK) {
                    assert(crate::PK2_ROOT_BLOCK != off);
                    assert(!mpre.has_chain(crate::PK2_ROOT_BLOCK));
                    assert(work0.contains(crate::PK2_ROOT_BLOCK));
                    assert(wp.contains(crate::PK2_ROOT_BLOCK));
                    assert(work@.contains(crate::PK2_ROOT_BLOCK));
                }
                assert forall|k: u64| #[trigger] m.has_chain(k) implies k
                    == crate::PK2_ROOT_BLOCK || reachable_from(&m, k) by {
                    if k != crate::PK2_ROOT_BLOCK {
                        if k == off {
                            assert(work0.contains(off));
                            assert(reachable_from(&mpre, off));
                            lemma_reachable_frame(&mpre, &m, off, off);
                        } else {
                            assert(mpre.has_chain(k));
                            assert(reachable_from(&mpre, k));
                            lemma_reachable_frame(&mpre, &m, off, k);
                        }
                    }
                }
                assert forall|w: u64| #[trigger] work@.contains(w) implies w
                    == crate::PK2_ROOT_BLOCK || reachable_from(&m, w) by {
                    if w != crate::PK2_ROOT_BLOCK {
                        if wp.contains(w) {
                            assert(work0.contains(w));
                            assert(reachable_from(&mpre, w));
                            lemma_reachable_frame(&mpre, &m, off, w);
                        } else {
                            let j = choose|j: int|
                                0 <= j < chain_entries(cv).len() && is_child_entry(
                                    #[trigger] chain_entries(cv)[j],
                                ) && child_of(chain_entries(cv)[j]) == w;
                            assert(m.has_chain(off) && m.chain_view(off) == cv);
                            assert(is_child_entry(chain_entries(m.chain_view(off))[j])
                                && child_of(chain_entries(m.chain_view(off))[j]) == w);
                            assert(reachable_from(&m, w));
                        }
                    }
                }
                if root_only_parse(key, data@) {
                    assert(off == crate::PK2_ROOT_BLOCK);
                    assert(work@ == wp);
                    assert forall|k: u64| #[trigger] m.has_chain(k) implies k
                        == crate::PK2_ROOT_BLOCK by {
                        if k != off {
                            assert(mpre.has_chain(k));
                        }
                    }
                }
            }
        }
        Ok(m)
    }
}

} // verus!

use crate::codec::bytes_eq;
use crate::euckr::{encode_name, euc_kr_bytes};

verus! {

/// Resolution of a component sequence to a chain: each component is looked
/// up by its encoded name in the current chain and must be a directory,
/// whose child chain the walk continues in. `.` and `..` resolve through
/// the directory links that every chain carries as ordinary entries.
pub open spec fn resolve_chain_spec(m: &BlockManager, start: u64, comps: Seq<Seq<char>>) -> Result<
    u64,
    Error,
>
    decreases comps.len(),
{
    if comps.len() == 0 {
        Result::Ok(start)
    } else if !m.has_chain(start) {
        Result::Err(Error::InvalidChainIndex)
    } else {
        let es = chain_entries(m.chain_view(start));
        let f = first_named(es, euc_kr_bytes(comps[0]));
        if f == -1 {
            Result::Err(Error::NotFound)
        } else if es[f] is Directory {
            resolve_chain_spec(m, child_of(es[f]), comps.drop_first())
        } else {
            Result::Err(Error::ExpectedDirectory)
        }
    }
}

/// Resolution of a component sequence to its final entry: the leading
/// components resolve to the parent chain, whose entries are searched for
/// the last component. An empty sequence names the root itself and yields
/// no entry.
pub open spec fn resolve_entry_spec(m: &BlockManager, start: u64, comps: Seq<Seq<char>>) -> Result<
    Option<(u64, int)>,
    Error,
>
    recommends
        m.wf(),
{
    if comps.len() == 0 {
        Result::Ok(Option::None)
    } else {
        match resolve_chain_spec(m, start, comps.drop_last()) {
            Result::Err(e) => Result::Err(e),
            Result::Ok(p) => if !m.has_chain(p) {
                Result::Err(Error::InvalidChainIndex)
            } else {
                let f = first_named(chain_entries(m.chain_view(p)), euc_kr_bytes(comps.last()));
                if f == -1 {
                    Result::Err(Error::NotFound)
                } else {
                    Result::Ok(Option::Some((p, f)))
                }
            },
        }
    }
}

/// The walk of `validate_dir_path_until`: how far a component sequence
/// already exists. It stops at the first absent name, which must not be a
/// parent link; a name that exists as a file cannot be walked through.
pub open spec fn validate_spec(m: &BlockManager, chain: u64, comps: Seq<Seq<char>>) -> Result<
    (u64, int),
    Error,
>
    decreases comps.len(),
{
    if comps.len() == 0 {
        Result::Ok((chain, 0))
    } else if !m.has_chain(chain) {
        Result::Err(Error::InvalidChainIndex)
    } else {
        let es = chain_entries(m.chain_view(chain));
        let f = first_named(es, euc_kr_bytes(comps[0]));
        if f == -1 {
            if euc_kr_bytes(comps[0]) == seq![46u8, 46u8] {
                Result::Err(Error::InvalidPath)
            } else {
                Result::Ok((chain, 0))
            }
        } else if es[f] is Directory {
            match validate_spec(m, child_of(es[f]), comps.drop_first()) {
                Result::Ok((c, k)) => Result::Ok((c, k + 1)),
                Result::Err(e) => Result::Err(e),
            }
        } else {
            Result::Err(Error::ExpectedDirectory)
        }
    }
}

/// The views of a component vector.
pub open spec fn comps_view(comps: Seq<String>) -> Seq<Seq<char>> {
    comps.map_values(|s: String| s@)
}

impl BlockManager {
    /// A loaded chain is valid, indexable, and starts at its key.
    pub proof fn lemma_chain_view_wf(&self, k: u64)
        requires
            self.wf(),
            self.has_chain(k),
        ensures
            chain_wf(self.chain_view(k)),
            20 * (self.chain_view(k).len() + 1) <= usize::MAX,
            20 * self.chain_view(k).len() <= usize::MAX,
            self.chain_view(k)[0].offset == k,
            forall|j: int|
                0 <= j < self.chain_view(k).len() ==> (#[trigger] self.chain_view(k)[j].offset)
                    + 2560 <= u64::MAX,
    {
        lemma_idx_of_key(self.keys@, k);
    }
}

impl BlockManager {
    /// Resolves `comps` to the index of the chain they name, starting from
    /// `current_chain`.
    pub fn resolve_path_to_block_chain_index_at(&self, current_chain: ChainIndex, comps: &Vec<
        String,
    >) -> (r: Result<ChainIndex, Error>)
        requires
            self.wf(),
        ensures
            match r {
                Result::Ok(ci) => resolve_chain_spec(self, current_chain.0, comps_view(comps@))
                    == Result::<u64, Error>::Ok(ci.0),
                Result::Err(e) => resolve_chain_spec(self, current_chain.0, comps_view(comps@))
                    == Result::<u64, Error>::Err(e),
            },
    {
        let ghost full = comps_view(comps@);
        assert(full.skip(0) =~= full);
        let mut cur = current_chain;
        let mut i: usize = 0;
        while i < comps.len()
            invariant
                self.wf(),
                i <= comps@.len(),
                full == comps_view(comps@),
                resolve_chain_spec(self, current_chain.0, full) == resolve_chain_spec(
                    self,
                    cur.0,
                    full.skip(i as int),
                ),
            decreases comps@.len() - i,
        {
            proof {
                assert(full.skip(i as int)[0] == comps@[i as int]@);
                assert(full.skip(i as int).drop_first() =~= full.skip(i + 1));
            }
            let n = encode_name(comps[i].as_str());
            let chain = match self.get(cur) {
                Option::Some(c) => c,
                Option::None => {
                    return Err(Error::InvalidChainIndex);
                },
            };
            proof {
                self.lemma_chain_view_wf(cur.0);
                lemma_first_named(chain_entries(chain@), n@);
            }
            match chain.find_block_chain_index_of(&n) {
                Ok(ci) => {
                    cur = ci;
                },
                Err(e) => {
                    return Err(e);
                },
            }
            i = i + 1;
        }
        assert(full.skip(comps@.len() as int) =~= Seq::<Seq<char>>::empty());
        Ok(cur)
    }

    /// Resolves `comps` to its final entry and the chain that holds it: the
    /// parent chain's index, the entry's index within it, and a copy of the
    /// entry. An empty sequence names the root itself and yields nothing.
    pub fn resolve_path_to_entry_and_parent(&self, current_chain: ChainIndex, comps: &Vec<
        String,
    >) -> (r: Result<Option<(ChainIndex, usize, PackEntry)>, Error>)
        requires
            self.wf(),
        ensures
            match r {
                Result::Ok(o) => {
                    let so = resolve_entry_spec(self, current_chain.0, comps_view(comps@));
                    &&& so is Ok
                    &&& (o matches Some((ci, idx, e)) ==> so->Ok_0 matches Some(p) && p.0 == ci.0
                        && p.1 == idx && self.has_chain(ci.0) && idx < chain_entries(
                        self.chain_view(ci.0),
                    ).len() && e@ == chain_entries(self.chain_view(ci.0))[idx as int])
                    &&& (o is None ==> so->Ok_0 is None && comps@.len() == 0)
                },
                Result::Err(e) => resolve_entry_spec(self, current_chain.0, comps_view(comps@))
                    == Result::<Option<(u64, int)>, Error>::Err(e),
            },
    {
        let ghost full = comps_view(comps@);
        if comps.len() == 0 {
            return Ok(None);
        }
        let mut parent_comps: Vec<String> = Vec::new();
        let mut i: usize = 0;
        while i < comps.len() - 1
            invariant
                i <= comps@.len() - 1,
                comps@.len() >= 1,
                parent_comps@.len() == i,
                forall|j: int| 0 <= j < i ==> #[trigger] parent_comps@[j]@ == comps@[j]@,
            decreases comps@.len() - 1 - i,
        {
            parent_comps.push(comps[i].clone());
            i = i + 1;
        }
        proof {
            assert(comps_view(parent_comps@) =~= full.drop_last());
        }
        let p = match self.resolve_path_to_block_chain_index_at(current_chain, &parent_comps) {
            Ok(p) => p,
            Err(e) => {
                return Err(e);
            },
        };
        let chain = match self.get(p) {
            Option::Some(c) => c,
            Option::None => {
                return Err(Error::InvalidChainIndex);
            },
        };
        proof {
            self.lemma_chain_view_wf(p.0);
        }
        let name = encode_name(comps[comps.len() - 1].as_str());
        proof {
            assert(comps@[comps@.len() - 1]@ == full.last());
            lemma_first_named(chain_entries(chain@), name@);
        }
        let ne = chain.num_entries();
        let mut idx: usize = 0;
        while idx < ne
            invariant
                self.wf(),
                chain@ == self.chain_view(p.0),
                self.has_chain(p.0),
                chain_wf(chain@),
                ne == 20 * chain@.len(),
                20 * chain@.len() <= usize::MAX,
                idx <= ne,
                full == comps_view(comps@),
                full.len() == comps@.len(),
                comps@.len() >= 1,
                resolve_chain_spec(self, current_chain.0, full.drop_last()) == Result::<
                    u64,
                    Error,
                >::Ok(p.0),
                name@ == euc_kr_bytes(full.last()),
                forall|j: int|
                    0 <= j < idx ==> !crate::entry::has_name(
                        #[trigger] chain_entries(chain@)[j],
                        name@,
                    ),
            decreases ne - idx,
        {
            let e = chain.get(idx).unwrap();
            if e.matches_name(&name) {
                proof {
                    lemma_first_named(chain_entries(chain@), name@);
                    assert(first_named(chain_entries(chain@), name@) == idx);
                }
                return Ok(Some((p, idx, e)));
            }
            idx = idx + 1;
        }
        proof {
            lemma_first_named(chain_entries(chain@), name@);
        }
        Err(Error::NotFound)
    }

    /// Walks `comps` from `chain` as far as the names already exist,
    /// returning the deepest existing chain and how many components were
    /// consumed. A parent link into a region that does not exist is an
    /// invalid path; a file in the middle of the walk is not a directory.
    pub fn validate_dir_path_until(&self, chain: ChainIndex, comps: &Vec<String>) -> (r: Result<
        (ChainIndex, usize),
        Error,
    >)
        requires
            self.wf(),
        ensures
            match r {
                Result::Ok((c, k)) => validate_spec(self, chain.0, comps_view(comps@))
                    == Result::<(u64, int), Error>::Ok((c.0, k as int)) && k <= comps@.len(),
                Result::Err(e) => validate_spec(self, chain.0, comps_view(comps@))
                    == Result::<(u64, int), Error>::Err(e),
            },
    {
        let ghost full = comps_view(comps@);
        let dotdot: Vec<u8> = vec![46u8, 46u8];
        assert(dotdot@ =~= seq![46u8, 46u8]);
        let mut cur = chain;
        let mut i: usize = 0;
        assert(full.skip(0) =~= full);
        while i < comps.len()
            invariant
                self.wf(),
                i <= comps@.len(),
                full == comps_view(comps@),
                dotdot@ == seq![46u8, 46u8],
                validate_spec(self, chain.0, full) == (match validate_spec(
                    self,
                    cur.0,
                    full.skip(i as int),
                ) {
                    Result::Ok((c, k)) => Result::<(u64, int), Error>::Ok((c, k + i)),
                    Result::Err(e) => Result::<(u64, int), Error>::Err(e),
                }),
            decreases comps@.len() - i,
        {
            proof {
                assert(full.skip(i as int)[0] == comps@[i as int]@);
                assert(full.skip(i as int).drop_first() =~= full.skip(i + 1));
            }
            let n = encode_name(comps[i].as_str());
            let c = match self.get(cur) {
                Option::Some(c) => c,
                Option::None => {
                    return Err(Error::InvalidChainIndex);
                },
            };
            proof {
                self.lemma_chain_view_wf(cur.0);
                lemma_first_named(chain_entries(c@), n@);
            }
            match c.find_block_chain_index_of(&n) {
                Ok(ci) => {
                    cur = ci;
                },
                Err(e) => {
                    if matches!(e, Error::NotFound) {
                        if bytes_eq(&n, &dotdot) {
                            return Err(Error::InvalidPath);
                        }
                        return Ok((cur, i));
                    }
                    return Err(e);
                },
            }
            i = i + 1;
        }
        assert(full.skip(comps@.len() as int) =~= Seq::<Seq<char>>::empty());
        Ok((cur, comps.len()))
    }
}

} // verus!
