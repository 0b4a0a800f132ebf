//! Rendering of decoded masks: per-pixel values unpacked from a mask's 2-bit
//! plane, and their mapping to RGBA.

use vstd::prelude::*;
use crate::mask::{align4, align4_spec, plane_len};

pub use crate::map::{decode, MapData, MapHeader, Mask, Unit};

verus! {

/// The value of pixel (`k`, `i`) (row, column) of a mask of width `w` whose
/// packed plane is `plane`: 0xF0 where its 2-bit field is 3, else 0.
pub open spec fn mask_value(plane: Seq<u8>, w: u32, k: int, i: int) -> u32 {
    let bit = (k * align4_spec(w as int) + i) * 2;
    if (plane[bit / 8] >> ((bit % 8) as u8)) & 3u8 == 3u8 {
        0xF0
    } else {
        0
    }
}

/// The RGBA pixel of a mask value, read as a 16-bit color word.
pub open spec fn rgba_spec(v: u32) -> (u8, u8, u8, u8) {
    (
        (((v >> 11u32) & 0x1F) << 3u32) as u8,
        (((v >> 5u32) & 0x3F) << 2u32) as u8,
        ((v & 0x1F) << 3u32) as u8,
        (((v >> 16u32) & 0x1F) << 3u32) as u8,
    )
}

/// The RGBA pixel of a mask value, read as a 16-bit color word.
pub fn mask_rgba(v: u32) -> (r: (u8, u8, u8, u8))
    ensures
        r == rgba_spec(v),
{
    (
        (((v >> 11u32) & 0x1F) << 3u32) as u8,
        (((v >> 5u32) & 0x3F) << 2u32) as u8,
        ((v & 0x1F) << 3u32) as u8,
        (((v >> 16u32) & 0x1F) << 3u32) as u8,
    )
}

/// The value of each pixel of a mask, row by row.
pub fn mask_pixels(m: &Mask) -> (r: Vec<u32>)
    requires
        m.plane@.len() == plane_len(m.width as int, m.height as int),
        m.width as int * m.height as int <= usize::MAX,
    ensures
        r@.len() == m.width as int * m.height as int,
        forall|j: int|
            0 <= j < r@.len() ==> #[trigger] r@[j] == mask_value(
                m.plane@,
                m.width,
                j / m.width as int,
                j % m.width as int,
            ),
{
    let w = m.width;
    let h = m.height;
    let a = align4(w);
    let total: usize = (w as u64 * h as u64) as usize;
    let mut out: Vec<u32> = Vec::with_capacity(total);
    let mut j: usize = 0;
    let plen = m.plane.len();
    while j < total
        invariant
            plen == m.plane@.len(),
            total == w as int * h as int,
            a == align4_spec(w as int),
            m.plane@.len() == plane_len(w as int, h as int),
            w == m.width,
            j <= total,
            out@.len() == j,
            forall|t: int|
                0 <= t < j ==> #[trigger] out@[t] == mask_value(
                    m.plane@,
                    w,
                    t / w as int,
                    t % w as int,
                ),
        decreases total - j,
    {
        let k = j / w as usize;
        let i = j % w as usize;
        proof {
            assert(w > 0) by (nonlinear_arith)
                requires
                    j < w as int * h as int,
            ;
            assert(k < h) by (nonlinear_arith)
                requires
                    w > 0,
                    k as int == j as int / w as int,
                    j < w as int * h as int,
            ;
            assert(w <= a);
            assert(k * a <= (h - 1) * a) by (nonlinear_arith)
                requires
                    k <= h - 1,
                    a >= 0,
            ;
            assert((h - 1) * a == h * a - a) by (nonlinear_arith);
            assert(h * a <= 0xFFFF_FFFF * 0x1_0000_0000) by (nonlinear_arith)
                requires
                    h <= 0xFFFF_FFFF,
                    a <= 0x1_0000_0000,
            ;
            let x = k * a + i;
            let y = a * h;
            let c = a / 4;
            assert(y == 4 * (c * h)) by (nonlinear_arith)
                requires
                    a == 4 * c,
                    y == a * h,
            ;
            assert(y % 4 == 0);
            assert(x < y);
            assert(x * 2 / 8 < y / 4);
        }
        let bit: u128 = (k as u128 * a as u128 + i as u128) * 2;
        assert(bit / 8 < plen);
        let byte = m.plane[(bit / 8) as usize];
        let v: u32 = if (byte >> ((bit % 8) as u8)) & 3u8 == 3u8 {
            0xF0
        } else {
            0
        };
        let ghost prev = out@;
        out.push(v);
        proof {
            let sb = (j as int / w as int * align4_spec(w as int) + j as int % w as int) * 2;
            assert(bit as int == sb);
            assert(byte == m.plane@[sb / 8]);
            assert((bit % 8) as u8 == (sb % 8) as u8);
            assert(out@[j as int] == mask_value(m.plane@, w, j as int / w as int, j as int % w as int));
            assert forall|t: int| 0 <= t < j implies #[trigger] out@[t] == prev[t] by {}
        }
        j = j + 1;
    }
    out
}

} // verus!
