use vstd::prelude::*;
use crate::cursor::DecodeError;

verus! {

/// `w` rounded up to the next multiple of 4.
pub open spec fn align4_spec(w: int) -> int {
    ((w + 3) / 4) * 4
}

/// Byte length of the packed 2-bit plane of a `w` by `h` mask.
pub open spec fn plane_len(w: int, h: int) -> int {
    (align4_spec(w) * h) / 4
}

/// `w` rounded up to the next multiple of 4.
pub fn align4(w: u32) -> (r: u64)
    ensures
        r == align4_spec(w as int),
{
    ((w / 4) as u64 + if w % 4 != 0 { 1u64 } else { 0u64 }) * 4
}

/// Byte length of the packed 2-bit plane of a `w` by `h` mask.
pub fn plane_size(w: u32, h: u32) -> (r: u64)
    ensures
        r == plane_len(w as int, h as int),
{
    let a = align4(w);
    assert(a <= 0x1_0000_0000);
    assert(a * (h as int) <= 0x1_0000_0000 * 0xFFFF_FFFF) by (nonlinear_arith)
        requires
            a <= 0x1_0000_0000,
            h <= 0xFFFF_FFFF,
    ;
    (a * h as u64) / 4
}

/// What LZO1X decompression of `src` into a buffer of `cap` bytes gives: the
/// bytes written, or `None` where the decompressor reports an error.
pub uninterp spec fn lzo_decompressed(src: Seq<u8>, cap: nat) -> Option<Seq<u8>>;

/// Relies on rust_lzo::LZOContext::decompress_to_slice: it decompresses `src`
/// into a zeroed buffer of `cap` bytes and hands back the part it wrote,
/// together with a status.
#[verifier::external_body]
fn lzo_decompress(src: &[u8], cap: usize) -> (r: Option<Vec<u8>>)
    ensures
        r is Some <==> lzo_decompressed(src@, cap as nat) is Some,
        r matches Some(v) ==> lzo_decompressed(src@, cap as nat) == Some(v@),
{
    let mut buf = vec![0u8; cap];
    let (out, status) = rust_lzo::LZOContext::decompress_to_slice(src, &mut buf);
    match status {
        rust_lzo::LZOError::OK => Some(out.to_vec()),
        _ => None,
    }
}

/// The plane that a decompression outcome gives a mask of `plane_bytes`
/// bytes: the output where it fills the buffer, else the failure of the
/// record at `offset`.
pub open spec fn plane_outcome(offset: u64, plane_bytes: int, dec: Option<Seq<u8>>) -> Result<
    Seq<u8>,
    DecodeError,
> {
    match dec {
        Some(p) => if p.len() == plane_bytes {
            Ok(p)
        } else {
            Err(DecodeError::MaskDecompressionFailed { offset })
        },
        None => Err(DecodeError::MaskDecompressionFailed { offset }),
    }
}

/// Judges what the decompressor gave for the mask record at `offset`: only
/// output that fills the whole plane of `plane_bytes` bytes is accepted.
pub fn check_plane(offset: u64, plane_bytes: u64, decompressed: Option<Vec<u8>>) -> (r: Result<
    Vec<u8>,
    DecodeError,
>)
    ensures
        r matches Ok(p) ==> plane_outcome(offset, plane_bytes as int, match decompressed {
            Some(v) => Some(v@),
            None => None,
        }) == Ok::<Seq<u8>, DecodeError>(p@),
        r matches Err(e) ==> plane_outcome(offset, plane_bytes as int, match decompressed {
            Some(v) => Some(v@),
            None => None,
        }) == Err::<Seq<u8>, DecodeError>(e),
{
    match decompressed {
        Some(p) => {
            if p.len() as u64 == plane_bytes {
                Ok(p)
            } else {
                Err(DecodeError::MaskDecompressionFailed { offset })
            }
        },
        None => Err(DecodeError::MaskDecompressionFailed { offset }),
    }
}

/// The plane of the mask record at `offset`, whose compressed payload is
/// `payload`, for a mask of `w` by `h` pixels.
pub open spec fn mask_plane(offset: u64, payload: Seq<u8>, w: u32, h: u32) -> Result<
    Seq<u8>,
    DecodeError,
> {
    let n = plane_len(w as int, h as int);
    if n > usize::MAX {
        Err(DecodeError::MaskDecompressionFailed { offset })
    } else {
        plane_outcome(offset, n, lzo_decompressed(payload, n as nat))
    }
}

/// Decompresses the payload of the mask record at `offset` into its packed
/// plane. A plane too large for this machine's memory counts as a failed
/// decompression.
pub fn decompress_plane(offset: u64, payload: &[u8], w: u32, h: u32) -> (r: Result<
    Vec<u8>,
    DecodeError,
>)
    ensures
        r matches Ok(p) ==> mask_plane(offset, payload@, w, h) == Ok::<Seq<u8>, DecodeError>(p@),
        r matches Err(e) ==> mask_plane(offset, payload@, w, h) == Err::<Seq<u8>, DecodeError>(e),
{
    let n = plane_size(w, h);
    if n > usize::MAX as u64 {
        return Err(DecodeError::MaskDecompressionFailed { offset });
    }
    let dec = lzo_decompress(payload, n as usize);
    check_plane(offset, n, dec)
}

} // verus!
