//! The three cipher algorithms and their shared two-method contract.

use vstd::prelude::*;

pub mod ceasar;
pub mod homophonics;
pub mod polyalphabetic;

pub use ceasar::CeasarData;
pub use homophonics::HomophonicData;
pub use polyalphabetic::PolyalphabeticData;

verus! {

/// The common contract of the three ciphers: a well-formed instance turns a
/// text into a text of the same length, in either direction.
pub trait Cipher {
    /// What the instance needs so that neither operation can get stuck.
    spec fn wf(&self) -> bool;

    /// Enciphers `data`; one output character per input character.
    fn encrypt(&self, data: &str) -> (r: String)
        requires
            self.wf(),
        ensures
            r@.len() == data@.len(),
    ;

    /// Deciphers `data`; one output character per input character when it
    /// succeeds.
    fn decrypt(&self, data: &str) -> (r: Result<String, crate::utils::CipherError>)
        requires
            self.wf(),
        ensures
            r matches Ok(s) ==> s@.len() == data@.len(),
    ;
}

} // verus!
