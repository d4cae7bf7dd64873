pub mod bits;
pub mod code_lengths;
pub mod codebook;
pub mod codec;
pub mod frequency;
pub mod tree;

use vstd::prelude::*;
use crate::codec::{decompressed, encoding_of, header_counts_fit, is_compression_of};

verus! {

// Exported Types

/// The result of a compress or decompress operation:
/// { success, data, error, sizes }.
pub struct WasmResult {
    pub success: bool,
    pub data: Vec<u8>,
    pub error: String,
    pub original_size: usize,
    pub compressed_size: usize,
}

impl WasmResult {
    pub fn success(&self) -> (s: bool)
        ensures
            s == self.success,
    {
        self.success
    }

    pub fn data(&self) -> (d: Vec<u8>)
        ensures
            d@ == self.data@,
    {
        let d = self.data.clone();
        assert(d@ =~= self.data@);
        d
    }

    pub fn error(&self) -> (e: String)
        ensures
            e@ == self.error@,
    {
        self.error.clone()
    }

    pub fn original_size(&self) -> (n: usize)
        ensures
            n == self.original_size,
    {
        self.original_size
    }

    pub fn compressed_size(&self) -> (n: usize)
        ensures
            n == self.compressed_size,
    {
        self.compressed_size
    }
}

// Exported Functions

/// Compress raw bytes using Huffman encoding.
pub fn compress(data: &[u8]) -> (r: WasmResult)
    requires
        encoding_of(data@).len() <= u64::MAX,
    ensures
        data@.len() == 0 ==> {
            &&& !r.success
            &&& r.data@.len() == 0
            &&& r.error@ == "Cannot compress empty input"@
            &&& r.original_size == 0
            &&& r.compressed_size == 0
        },
        data@.len() > 0 ==> {
            &&& r.success
            &&& is_compression_of(r.data@, data@)
            &&& r.error@.len() == 0
            &&& r.original_size == data@.len()
            &&& r.compressed_size == r.data@.len()
        },
{
    match codec::compress(data) {
        Ok(compressed) => {
            let original_size = data.len();
            let compressed_size = compressed.len();
            WasmResult {
                success: true,
                data: compressed,
                error: String::new(),
                original_size,
                compressed_size,
            }
        },
        Err(e) => WasmResult {
            success: false,
            data: Vec::new(),
            error: e,
            original_size: 0,
            compressed_size: 0,
        },
    }
}

/// Decompress a .huff file back to its original bytes.
pub fn decompress(data: &[u8]) -> (r: WasmResult)
    requires
        header_counts_fit(data@),
    ensures
        match decompressed(data@) {
            Ok(out) => {
                &&& r.success
                &&& r.data@ == out
                &&& r.error@.len() == 0
                &&& r.original_size == out.len()
                &&& r.compressed_size == data@.len()
            },
            Err(msg) => {
                &&& !r.success
                &&& r.data@.len() == 0
                &&& r.error@ == msg
                &&& r.original_size == 0
                &&& r.compressed_size == 0
            },
        },
{
    let original_size = data.len();
    match codec::decompress(data) {
        Ok(decompressed) => WasmResult {
            success: true,
            compressed_size: original_size,
            original_size: decompressed.len(),
            data: decompressed,
            error: String::new(),
        },
        Err(e) => WasmResult {
            success: false,
            data: Vec::new(),
            error: e,
            original_size: 0,
            compressed_size: 0,
        },
    }
}

} // verus!

