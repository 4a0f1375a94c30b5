//! Key derivation and the Blowfish envelope around index blocks.
//!
//! The user key is XOR-salted and handed to the Blowfish cipher of the
//! `blowfish` crate (little-endian variant). Index blocks are enciphered in
//! ECB over the largest prefix that is a multiple of the 8-byte cipher block;
//! the trailing bytes stay in the clear.

use vstd::prelude::*;

use blowfish::cipher::BlockCipherDecrypt;
use blowfish::cipher::BlockCipherEncrypt;
use blowfish::cipher::KeyInit;

use crate::Error;

verus! {

/// The ciphertext block that Blowfish under `key` produces for an 8-byte
/// plaintext block.
pub uninterp spec fn bf_enc(key: Seq<u8>, block: Seq<u8>) -> Seq<u8>;

/// The plaintext block that Blowfish under `key` produces for an 8-byte
/// ciphertext block.
pub uninterp spec fn bf_dec(key: Seq<u8>, block: Seq<u8>) -> Seq<u8>;

/// The salt that is XOR-folded over the head of the user key.
pub open spec fn pk2_salt() -> Seq<u8> {
    seq![0x03u8, 0xF8u8, 0xE4u8, 0x44u8, 0x88u8, 0x99u8, 0x3Fu8, 0x64u8, 0xFEu8, 0x35u8]
}

/// The fixed plaintext whose encryption yields the header's key-check bytes.
pub open spec fn pk2_checksum() -> Seq<u8> {
    seq![0xB7u8, 0xB7u8, 0xB7u8, 0xB7u8, 0xB7u8, 0xB7u8, 0xB7u8, 0xB7u8]
}

/// The user key after salting: each of the first ten bytes XORed with the
/// salt, the rest unchanged.
pub open spec fn salted(k: Seq<u8>) -> Seq<u8> {
    Seq::new(k.len(), |i: int| if i < 10 { k[i] ^ pk2_salt()[i] } else { k[i] })
}

/// Whether the cipher accepts a derived key of this length.
pub open spec fn key_len_ok(len: nat) -> bool {
    4 <= len <= 56
}

/// A Blowfish instance, identified by its derived (salted) key bytes.
pub struct Blowfish {
    key: Vec<u8>,
}

impl Blowfish {
    /// The derived key this cipher was built with.
    pub closed spec fn key(&self) -> Seq<u8> {
        self.key@
    }

    /// A key length the cipher accepts.
    pub open spec fn wf(&self) -> bool {
        key_len_ok(self.key().len())
    }

    /// Relies on `blowfish::BlowfishLE` (`KeyInit::new_from_slice` and
    /// `BlockCipherEncrypt::encrypt_block`): a key of 4 to 56 bytes is
    /// accepted, the ciphertext block is a function of key and plaintext
    /// alone, and `decrypt_block` inverts it.
    #[verifier::external_body]
    pub fn encrypt8(&self, block: &[u8; 8]) -> (r: [u8; 8])
        requires
            self.wf(),
        ensures
            r@ == bf_enc(self.key(), block@),
            bf_dec(self.key(), r@) == block@,
    {
        let bf = blowfish::BlowfishLE::new_from_slice(self.key.as_slice()).unwrap();
        let mut b = blowfish::cipher::Block::<blowfish::BlowfishLE>::from(*block);
        bf.encrypt_block(&mut b);
        b.into()
    }

    /// Relies on `blowfish::BlowfishLE` (`KeyInit::new_from_slice` and
    /// `BlockCipherDecrypt::decrypt_block`): a key of 4 to 56 bytes is
    /// accepted, the plaintext block is a function of key and ciphertext
    /// alone, and `encrypt_block` inverts it.
    #[verifier::external_body]
    pub fn decrypt8(&self, block: &[u8; 8]) -> (r: [u8; 8])
        requires
            self.wf(),
        ensures
            r@ == bf_dec(self.key(), block@),
            bf_enc(self.key(), r@) == block@,
    {
        let bf = blowfish::BlowfishLE::new_from_slice(self.key.as_slice()).unwrap();
        let mut b = blowfish::cipher::Block::<blowfish::BlowfishLE>::from(*block);
        bf.decrypt_block(&mut b);
        b.into()
    }
}

/// XORs the salt over the head of the key, in place.
pub fn gen_final_blowfish_key_inplace(key: &mut Vec<u8>)
    ensures
        final(key)@ == salted(old(key)@),
{
    let salt: Vec<u8> = vec![0x03u8, 0xF8u8, 0xE4u8, 0x44u8, 0x88u8, 0x99u8, 0x3Fu8, 0x64u8,
        0xFEu8, 0x35u8];
    assert(salt@ =~= pk2_salt());
    let n = if key.len() < 10 {
        key.len()
    } else {
        10
    };
    let mut i: usize = 0;
    while i < n
        invariant
            n <= key.len(),
            n <= 10,
            n == if old(key)@.len() < 10 {
                old(key)@.len() as int
            } else {
                10
            },
            i <= n,
            salt@ == pk2_salt(),
            key@.len() == old(key)@.len(),
            forall|j: int|
                0 <= j < key@.len() ==> key@[j] == if j < i {
                    (old(key)@[j] ^ pk2_salt()[j])
                } else {
                    old(key)@[j]
                },
        decreases n - i,
    {
        let b = key[i] ^ salt[i];
        key.set(i, b);
        i = i + 1;
    }
    assert(final(key)@ =~= salted(old(key)@));
}

/// Derives the archive cipher from the user key: salts the key and builds
/// the Blowfish instance. Fails with `InvalidKey` when the cipher cannot
/// take a key of this length.
pub fn create_blowfish(key: &[u8]) -> (r: Result<Blowfish, Error>)
    ensures
        r is Ok <==> key_len_ok(key@.len()),
        r matches Ok(bf) ==> bf.key() == salted(key@) && bf.wf(),
        r matches Err(e) ==> e == Error::InvalidKey,
{
    let mut k = vstd::slice::slice_to_vec(key);
    gen_final_blowfish_key_inplace(&mut k);
    if k.len() < 4 || k.len() > 56 {
        Err(Error::InvalidKey)
    } else {
        Ok(Blowfish { key: k })
    }
}

/// The key-check bytes stored in the header: the first three bytes of the
/// encrypted fixed checksum plaintext.
pub open spec fn check_bytes(key: Seq<u8>) -> Seq<u8> {
    bf_enc(key, pk2_checksum()).take(3)
}

/// Computes the key-check bytes for this cipher.
pub fn key_check_bytes(bf: &Blowfish) -> (r: Vec<u8>)
    requires
        bf.wf(),
    ensures
        r@ == check_bytes(bf.key()),
        r@.len() == 3,
{
    let plain: [u8; 8] = [0xB7u8, 0xB7u8, 0xB7u8, 0xB7u8, 0xB7u8, 0xB7u8, 0xB7u8, 0xB7u8];
    assert(plain@ =~= pk2_checksum());
    let c = bf.encrypt8(&plain);
    let r: Vec<u8> = vec![c[0], c[1], c[2]];
    assert(r@ =~= bf_enc(bf.key(), pk2_checksum()).take(3));
    r
}

/// The envelope ciphertext: every full 8-byte chunk enciphered in ECB, the
/// tail in the clear.
pub open spec fn env_enc(key: Seq<u8>, data: Seq<u8>) -> Seq<u8>
    decreases data.len(),
{
    if data.len() < 8 {
        data
    } else {
        bf_enc(key, data.take(8)) + env_enc(key, data.skip(8))
    }
}

/// The envelope plaintext: every full 8-byte chunk deciphered in ECB, the
/// tail in the clear.
pub open spec fn env_dec(key: Seq<u8>, data: Seq<u8>) -> Seq<u8>
    decreases data.len(),
{
    if data.len() < 8 {
        data
    } else {
        bf_dec(key, data.take(8)) + env_dec(key, data.skip(8))
    }
}

/// The envelope distributes over concatenation at chunk boundaries.
pub proof fn lemma_env_enc_append(key: Seq<u8>, a: Seq<u8>, b: Seq<u8>)
    requires
        a.len() % 8 == 0,
    ensures
        env_enc(key, a + b) == env_enc(key, a) + env_enc(key, b),
    decreases a.len(),
{
    if a.len() == 0 {
        assert(a + b =~= b);
        assert(env_enc(key, a) + env_enc(key, b) =~= env_enc(key, b));
    } else {
        assert(a.len() >= 8);
        assert((a + b).take(8) =~= a.take(8));
        assert((a + b).skip(8) =~= a.skip(8) + b);
        assert(a.skip(8).len() % 8 == 0);
        lemma_env_enc_append(key, a.skip(8), b);
        assert(env_enc(key, a + b) =~= env_enc(key, a) + env_enc(key, b));
    }
}

/// The inverse envelope distributes over concatenation at chunk boundaries.
pub proof fn lemma_env_dec_append(key: Seq<u8>, a: Seq<u8>, b: Seq<u8>)
    requires
        a.len() % 8 == 0,
    ensures
        env_dec(key, a + b) == env_dec(key, a) + env_dec(key, b),
    decreases a.len(),
{
    if a.len() == 0 {
        assert(a + b =~= b);
        assert(env_dec(key, a) + env_dec(key, b) =~= env_dec(key, b));
    } else {
        assert(a.len() >= 8);
        assert((a + b).take(8) =~= a.take(8));
        assert((a + b).skip(8) =~= a.skip(8) + b);
        assert(a.skip(8).len() % 8 == 0);
        lemma_env_dec_append(key, a.skip(8), b);
        assert(env_dec(key, a + b) =~= env_dec(key, a) + env_dec(key, b));
    }
}

/// Applies the envelope to `data`: the result both equals the envelope
/// ciphertext and deciphers back to `data`.
pub fn envelope_encrypt(bf: &Blowfish, data: &Vec<u8>) -> (r: Vec<u8>)
    requires
        bf.wf(),
    ensures
        r@ == env_enc(bf.key(), data@),
        env_dec(bf.key(), r@) == data@,
        r@.len() == data@.len(),
{
    let ghost key = bf.key();
    let mut out: Vec<u8> = Vec::new();
    let n = data.len();
    let full: usize = n - (n % 8);
    let mut i: usize = 0;
    while i < full
        invariant
            bf.wf(),
            key == bf.key(),
            n == data.len(),
            full == n - (n % 8),
            i <= full,
            i % 8 == 0,
            out@.len() == i,
            out@ == env_enc(key, data@.take(i as int)),
            env_dec(key, out@) == data@.take(i as int),
        decreases full - i,
    {
        proof {
            assert((full - i) % 8 == 0);
            assert(full - i >= 8);
        }
        let chunk: [u8; 8] = [data[i], data[i + 1], data[i + 2], data[i + 3], data[i + 4],
            data[i + 5], data[i + 6], data[i + 7]];
        assert(chunk@ =~= data@.subrange(i as int, i + 8));
        let e = bf.encrypt8(&chunk);
        let ghost out0 = out@;
        out.push(e[0]);
        out.push(e[1]);
        out.push(e[2]);
        out.push(e[3]);
        out.push(e[4]);
        out.push(e[5]);
        out.push(e[6]);
        out.push(e[7]);
        proof {
            assert(out@ =~= out0 + e@);
            assert(data@.take(i + 8) =~= data@.take(i as int) + chunk@);
            lemma_env_enc_append(key, data@.take(i as int), chunk@);
            assert(env_enc(key, chunk@) =~= bf_enc(key, chunk@.take(8)) + env_enc(
                key,
                chunk@.skip(8),
            ));
            assert(chunk@.take(8) =~= chunk@);
            assert(env_enc(key, chunk@.skip(8)) =~= chunk@.skip(8));
            assert(env_enc(key, chunk@) =~= bf_enc(key, chunk@));
            assert(out@ =~= env_enc(key, data@.take(i + 8)));
            lemma_env_dec_append(key, out0, e@);
            assert(env_dec(key, e@) =~= bf_dec(key, e@.take(8)) + env_dec(key, e@.skip(8)));
            assert(e@.take(8) =~= e@);
            assert(env_dec(key, e@.skip(8)) =~= e@.skip(8));
            assert(env_dec(key, e@) =~= bf_dec(key, e@));
            assert(env_dec(key, out@) =~= data@.take(i + 8));
        }
        i = i + 8;
    }
    let ghost mid = i as int;
    while i < data.len()
        invariant
            i >= mid,
            mid % 8 == 0,
            i <= data.len(),
            data@.len() - mid < 8,
            out@ == env_enc(key, data@.take(mid)) + data@.subrange(mid, i as int),
            env_dec(key, out@) == data@.take(i as int),
            out@.len() == i,
            env_dec(key, env_enc(key, data@.take(mid))) == data@.take(mid),
        decreases data.len() - i,
    {
        out.push(data[i]);
        proof {
            assert(out@ =~= env_enc(key, data@.take(mid)) + data@.subrange(mid, i + 1));
            lemma_env_dec_append(key, env_enc(key, data@.take(mid)), data@.subrange(mid, i + 1));
            assert(env_enc(key, data@.take(mid)).len() == mid);
            assert(env_dec(key, data@.subrange(mid, i + 1)) =~= data@.subrange(mid, i + 1));
            assert(env_dec(key, out@) =~= data@.take(i + 1));
        }
        i = i + 1;
    }
    proof {
        assert(data@.take(data@.len() as int) =~= data@);
        assert(out@ =~= env_enc(key, data@.take(mid)) + data@.skip(mid));
        lemma_env_enc_append(key, data@.take(mid), data@.skip(mid));
        assert(data@.take(mid) + data@.skip(mid) =~= data@);
        assert(env_enc(key, data@.skip(mid)) =~= data@.skip(mid));
        assert(out@ =~= env_enc(key, data@));
    }
    out
}

/// Removes the envelope from `data`: the result both equals the envelope
/// plaintext and enciphers back to `data`.
pub fn envelope_decrypt(bf: &Blowfish, data: &Vec<u8>) -> (r: Vec<u8>)
    requires
        bf.wf(),
    ensures
        r@ == env_dec(bf.key(), data@),
        env_enc(bf.key(), r@) == data@,
        r@.len() == data@.len(),
{
    let ghost key = bf.key();
    let mut out: Vec<u8> = Vec::new();
    let n = data.len();
    let full: usize = n - (n % 8);
    let mut i: usize = 0;
    while i < full
        invariant
            bf.wf(),
            key == bf.key(),
            n == data.len(),
            full == n - (n % 8),
            i <= full,
            i % 8 == 0,
            out@.len() == i,
            out@ == env_dec(key, data@.take(i as int)),
            env_enc(key, out@) == data@.take(i as int),
        decreases full - i,
    {
        proof {
            assert((full - i) % 8 == 0);
            assert(full - i >= 8);
        }
        let chunk: [u8; 8] = [data[i], data[i + 1], data[i + 2], data[i + 3], data[i + 4],
            data[i + 5], data[i + 6], data[i + 7]];
        assert(chunk@ =~= data@.subrange(i as int, i + 8));
        let e = bf.decrypt8(&chunk);
        let ghost out0 = out@;
        out.push(e[0]);
        out.push(e[1]);
        out.push(e[2]);
        out.push(e[3]);
        out.push(e[4]);
        out.push(e[5]);
        out.push(e[6]);
        out.push(e[7]);
        proof {
            assert(out@ =~= out0 + e@);
            assert(data@.take(i + 8) =~= data@.take(i as int) + chunk@);
            lemma_env_dec_append(key, data@.take(i as int), chunk@);
            assert(env_dec(key, chunk@) =~= bf_dec(key, chunk@.take(8)) + env_dec(
                key,
                chunk@.skip(8),
            ));
            assert(chunk@.take(8) =~= chunk@);
            assert(env_dec(key, chunk@.skip(8)) =~= chunk@.skip(8));
            assert(env_dec(key, chunk@) =~= bf_dec(key, chunk@));
            assert(out@ =~= env_dec(key, data@.take(i + 8)));
            lemma_env_enc_append(key, out0, e@);
            assert(env_enc(key, e@) =~= bf_enc(key, e@.take(8)) + env_enc(key, e@.skip(8)));
            assert(e@.take(8) =~= e@);
            assert(env_enc(key, e@.skip(8)) =~= e@.skip(8));
            assert(env_enc(key, e@) =~= bf_enc(key, e@));
            assert(env_enc(key, out@) =~= data@.take(i + 8));
        }
        i = i + 8;
    }
    let ghost mid = i as int;
    while i < data.len()
        invariant
            i >= mid,
            mid % 8 == 0,
            i <= data.len(),
            data@.len() - mid < 8,
            out@ == env_dec(key, data@.take(mid)) + data@.subrange(mid, i as int),
            env_enc(key, out@) == data@.take(i as int),
            out@.len() == i,
            env_enc(key, env_dec(key, data@.take(mid))) == data@.take(mid),
        decreases data.len() - i,
    {
        out.push(data[i]);
        proof {
            assert(out@ =~= env_dec(key, data@.take(mid)) + data@.subrange(mid, i + 1));
            lemma_env_enc_append(key, env_dec(key, data@.take(mid)), data@.subrange(mid, i + 1));
            assert(env_dec(key, data@.take(mid)).len() == mid);
            assert(env_enc(key, data@.subrange(mid, i + 1)) =~= data@.subrange(mid, i + 1));
            assert(env_enc(key, out@) =~= data@.take(i + 1));
        }
        i = i + 1;
    }
    proof {
        assert(data@.take(data@.len() as int) =~= data@);
        assert(out@ =~= env_dec(key, data@.take(mid)) + data@.skip(mid));
        lemma_env_dec_append(key, data@.take(mid), data@.skip(mid));
        assert(data@.take(mid) + data@.skip(mid) =~= data@);
        assert(env_dec(key, data@.skip(mid)) =~= data@.skip(mid));
        assert(out@ =~= env_dec(key, data@));
    }
    out
}

} // verus!
