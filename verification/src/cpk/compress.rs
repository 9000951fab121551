//! Decompression of single files.

use vstd::prelude::*;

use crate::utils::bytes::copy_range;

verus! {

/// A compression that an archive applies to the bytes of single files.
pub trait FileDecompressor: Sized {
    /// The bytes `data` are compressed.
    spec fn recognises(data: Seq<u8>) -> bool;

    /// What decompressing makes of `data`.
    spec fn decompressed(data: Seq<u8>) -> Seq<u8>;

    fn is_compressed(data: &Vec<u8>) -> (yes: bool)
        ensures
            yes == Self::recognises(data@),
    ;

    fn decompress(data: &Vec<u8>) -> (output: Vec<u8>)
        ensures
            output@ == Self::decompressed(data@),
    ;
}

/// No decompression: every file is taken as it is.
#[derive(Debug)]
pub struct DummyDecompressor;

impl FileDecompressor for DummyDecompressor {
    open spec fn recognises(data: Seq<u8>) -> bool {
        false
    }

    open spec fn decompressed(data: Seq<u8>) -> Seq<u8> {
        data
    }

    fn is_compressed(data: &Vec<u8>) -> (yes: bool) {
        false
    }

    fn decompress(data: &Vec<u8>) -> (output: Vec<u8>) {
        let output = copy_range(data.as_slice(), 0, data.len());
        assert(output@ =~= data@);
        output
    }
}

} // verus!
