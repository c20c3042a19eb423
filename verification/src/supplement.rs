use vstd::prelude::*;

use crate::ext::{gunzip, gunzip_of};

verus! {

/// Whether raw snapshot bytes carry the gzip magic and must be
/// decompressed before JSON decoding.
pub open spec fn gzip_magic(d: Seq<u8>) -> bool {
    d.len() >= 2 && d[0] == 0x1f && d[1] == 0x8b
}

/// Decompresses a raw supplement snapshot when its first two bytes are
/// the gzip magic; plain bytes pass through unchanged.  `None` means the
/// bytes claimed to be gzip but were corrupt, and the caller moves on to
/// its next source.
pub fn decompress_if_needed(data: &[u8]) -> (r: Option<Vec<u8>>)
    ensures
        !gzip_magic(data@) ==> (r matches Some(v) && v@ == data@),
        gzip_magic(data@) ==> match r {
            Some(v) => gunzip_of(data@) == Some(v@),
            None => gunzip_of(data@) is None,
        },
{
    if data.len() >= 2 && data[0] == 0x1f && data[1] == 0x8b {
        gunzip(data)
    } else {
        let mut out: Vec<u8> = Vec::new();
        let mut i: usize = 0;
        while i < data.len()
            invariant
                i <= data@.len(),
                out@ == data@.take(i as int),
            decreases data@.len() - i,
        {
            out.push(data[i]);
            assert(out@ =~= data@.take(i + 1));
            i = i + 1;
        }
        assert(out@ =~= data@);
        Some(out)
    }
}

} // verus!
