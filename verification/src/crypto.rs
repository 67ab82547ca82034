use vstd::prelude::*;

use crate::mbedtls::cfb8_decrypt;
use crate::mbedtls::cfb8_encrypt;
use crate::mbedtls::next_iv;
use crate::mbedtls::AesCryptCfb8;
use crate::mbedtls::CryptMode;

verus! {

/// The cipher layer of one direction of a connection: it lets bytes pass as
/// they are until a key is installed, and enciphers or deciphers them from
/// then on.
pub struct Cryptor {
    c: Option<AesCryptCfb8>,
    mode: CryptMode,
}

impl Cryptor {
    /// Which way the cryptor works.
    pub closed spec fn mode(&self) -> CryptMode {
        self.mode
    }

    /// The key installed, if any.
    pub closed spec fn key(&self) -> Option<Seq<u8>> {
        match self.c {
            Some(c) => Some(c.key()),
            None => None,
        }
    }

    /// The feedback that the next byte is enciphered with; meaningless while
    /// no key is installed.
    pub closed spec fn iv(&self) -> Seq<u8> {
        match self.c {
            Some(c) => c.iv(),
            None => Seq::empty(),
        }
    }

    /// A cryptor that will encrypt, without a key.
    pub fn new_encrypt() -> (r: Cryptor)
        ensures
            r.key() is None,
            r.mode() == CryptMode::Encrypt,
    {
        Cryptor { c: None, mode: CryptMode::Encrypt }
    }

    /// A cryptor that will decrypt, without a key.
    pub fn new_decrypt() -> (r: Cryptor)
        ensures
            r.key() is None,
            r.mode() == CryptMode::Decrypt,
    {
        Cryptor { c: None, mode: CryptMode::Decrypt }
    }

    /// Lets `data` pass: unchanged while no key is installed, else
    /// enciphered or deciphered in place, as a continuation of all that
    /// passed since the key was installed.
    pub fn process(&mut self, data: &mut [u8])
        ensures
            final(self).mode() == old(self).mode(),
            final(self).key() == old(self).key(),
            final(data)@.len() == old(data)@.len(),
            old(self).key() is None ==> final(data)@ == old(data)@,
            old(self).key() matches Some(key) ==> {
                &&& old(self).mode() is Encrypt ==> final(data)@ == cfb8_encrypt(
                    key,
                    old(self).iv(),
                    old(data)@,
                ) && final(self).iv() == next_iv(old(self).iv(), final(data)@)
                &&& old(self).mode() is Decrypt ==> final(data)@ == cfb8_decrypt(
                    key,
                    old(self).iv(),
                    old(data)@,
                ) && final(self).iv() == next_iv(old(self).iv(), old(data)@)
            },
    {
        let mode = self.mode;
        match &mut self.c {
            Some(c) => {
                c.process(data, mode);
            },
            None => {},
        }
    }

    /// Installs a key. The first feedback is the key itself.
    pub fn start_crypto(&mut self, key: [u8; 16])
        ensures
            final(self).mode() == old(self).mode(),
            final(self).key() == Some(key@),
            final(self).iv() == key@,
    {
        self.c = Some(AesCryptCfb8::new(key));
    }
}

} // verus!
