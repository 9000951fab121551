//! File-level transforms.

use vstd::prelude::*;

use crate::cpk::file::{CpkFile, CpkFileView};

verus! {

/// A transform that an archive applies to the bytes of single files.
pub trait FileDecryptor: Sized {
    /// The packed bytes `data` of `file` are encrypted.
    spec fn marks(file: CpkFileView, data: Seq<u8>) -> bool;

    /// What decrypting makes of `data`.
    spec fn transformed(data: Seq<u8>) -> Seq<u8>;

    fn is_encrypted(file: &CpkFile, data: &Vec<u8>) -> (yes: bool)
        ensures
            yes == Self::marks(file@, data@),
    ;

    fn decrypt_in_place(data: &mut Vec<u8>)
        ensures
            final(data)@ == Self::transformed(old(data)@),
    ;
}

/// No transform: every file is stored as it is.
#[derive(Debug)]
pub struct DummyDecryptor;

impl FileDecryptor for DummyDecryptor {
    open spec fn marks(file: CpkFileView, data: Seq<u8>) -> bool {
        false
    }

    open spec fn transformed(data: Seq<u8>) -> Seq<u8> {
        data
    }

    fn is_encrypted(file: &CpkFile, data: &Vec<u8>) -> (yes: bool) {
        false
    }

    fn decrypt_in_place(data: &mut Vec<u8>) {
    }
}

} // verus!
