use cfb8::cipher::AsyncStreamCipher;
use cfb8::cipher::KeyIvInit;
use vstd::prelude::*;

verus! {

/// Which way a cipher works.
#[derive(Clone, Copy, Debug, PartialEq, Eq)]
pub enum CryptMode {
    Encrypt,
    Decrypt,
}

/// AES-128 in CFB-8 mode, as a stream: a key, and the sixteen bytes of
/// feedback that the next byte is enciphered with.
pub struct AesCryptCfb8 {
    key: [u8; 16],
    iv: [u8; 16],
}

/// What AES-128 in CFB-8 mode makes of the plaintext `data`, started with the
/// feedback `iv`.
pub uninterp spec fn cfb8_encrypt(key: Seq<u8>, iv: Seq<u8>, data: Seq<u8>) -> Seq<u8>;

/// What AES-128 in CFB-8 mode makes of the ciphertext `data`, started with
/// the feedback `iv`.
pub uninterp spec fn cfb8_decrypt(key: Seq<u8>, iv: Seq<u8>, data: Seq<u8>) -> Seq<u8>;

/// `cfb8::Encryptor::<aes::Aes128>::new`, then `encrypt` on the whole of
/// `data`: the bytes are replaced by their ciphertext, one for one.
#[verifier::external_body]
fn cfb8_encrypt_in_place(key: &[u8; 16], iv: &[u8; 16], data: &mut [u8])
    ensures
        final(data)@ == cfb8_encrypt(key@, iv@, old(data)@),
        final(data)@.len() == old(data)@.len(),
{
    cfb8::Encryptor::<aes::Aes128>::new(key.into(), iv.into()).encrypt(data)
}

/// `cfb8::Decryptor::<aes::Aes128>::new`, then `decrypt` on the whole of
/// `data`: the bytes are replaced by their plaintext, one for one.
#[verifier::external_body]
fn cfb8_decrypt_in_place(key: &[u8; 16], iv: &[u8; 16], data: &mut [u8])
    ensures
        final(data)@ == cfb8_decrypt(key@, iv@, old(data)@),
        final(data)@.len() == old(data)@.len(),
{
    cfb8::Decryptor::<aes::Aes128>::new(key.into(), iv.into()).decrypt(data)
}

/// The feedback after the ciphertext `ct` has gone through a stream whose
/// feedback was `iv`: the last sixteen bytes of the two on end.
pub open spec fn next_iv(iv: Seq<u8>, ct: Seq<u8>) -> Seq<u8> {
    (iv + ct).skip(ct.len() as int)
}

/// Computes the feedback that follows `iv` after the ciphertext `ct`.
fn feedback_after(iv: &[u8; 16], ct: &[u8]) -> (r: [u8; 16])
    ensures
        r@ == next_iv(iv@, ct@),
{
    let n = ct.len();
    let mut r: [u8; 16] = [0u8; 16];
    let mut j: usize = 0;
    while j < 16
        invariant
            j <= 16,
            n == ct@.len(),
            forall|k: int| 0 <= k < j ==> r@[k] == (iv@ + ct@)[n + k],
        decreases 16 - j,
    {
        let b = if n >= 16 {
            ct[n - 16 + j]
        } else if j < 16 - n {
            iv[j + n]
        } else {
            ct[j - (16 - n)]
        };
        r[j] = b;
        j = j + 1;
    }
    assert(r@ =~= next_iv(iv@, ct@));
    r
}

impl AesCryptCfb8 {
    /// The key.
    pub closed spec fn key(&self) -> Seq<u8> {
        self.key@
    }

    /// The feedback that the next byte is enciphered with.
    pub closed spec fn iv(&self) -> Seq<u8> {
        self.iv@
    }

    /// A stream with the given key, whose first feedback is the key itself.
    pub fn new(key: [u8; 16]) -> (r: AesCryptCfb8)
        ensures
            r.key() == key@,
            r.iv() == key@,
    {
        AesCryptCfb8 { key, iv: key }
    }

    /// Enciphers or deciphers `data` in place and carries the feedback on, so
    /// that a stream cut into pieces gives what it gives in one piece.
    pub fn process(&mut self, data: &mut [u8], mode: CryptMode)
        ensures
            final(self).key() == old(self).key(),
            final(data)@.len() == old(data)@.len(),
            mode is Encrypt ==> final(data)@ == cfb8_encrypt(
                old(self).key(),
                old(self).iv(),
                old(data)@,
            ) && final(self).iv() == next_iv(old(self).iv(), final(data)@),
            mode is Decrypt ==> final(data)@ == cfb8_decrypt(
                old(self).key(),
                old(self).iv(),
                old(data)@,
            ) && final(self).iv() == next_iv(old(self).iv(), old(data)@),
            old(data)@.len() == 0 ==> final(self).iv() == old(self).iv(),
    {
        proof {
            if data@.len() == 0 {
                assert(next_iv(self.iv@, data@) =~= self.iv@);
            }
        }
        match mode {
            CryptMode::Encrypt => {
                cfb8_encrypt_in_place(&self.key, &self.iv, data);
                self.iv = feedback_after(&self.iv, data);
            },
            CryptMode::Decrypt => {
                let next = feedback_after(&self.iv, data);
                cfb8_decrypt_in_place(&self.key, &self.iv, data);
                self.iv = next;
            },
        }
    }
}

} // verus!
