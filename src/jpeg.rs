use vstd::prelude::*;
use crate::cursor::copy_range;

verus! {

/// Whether a Start Of Scan marker {0xFF, 0xDA} begins at `p`.
pub open spec fn sos_at(s: Seq<u8>, p: int) -> bool {
    0 <= p && p + 1 < s.len() && s[p] == 0xFF && s[p + 1] == 0xDA
}

/// The first position at or after `i` where a scan marker begins, or
/// `s.len()` where there is none.
pub open spec fn find_sos(s: Seq<u8>, i: int) -> int
    decreases s.len() - i,
{
    if i < 0 || i + 1 >= s.len() {
        s.len() as int
    } else if sos_at(s, i) {
        i
    } else {
        find_sos(s, i + 1)
    }
}

/// Scan data from `i` on with its byte stuffing restored: a 0x00 follows
/// each 0xFF, until an End Of Image marker {0xFF, 0xD9}, which ends the
/// rewrite and is kept with all that follows it.
pub open spec fn stuffed(s: Seq<u8>, i: int) -> Seq<u8>
    decreases s.len() - i,
{
    if i < 0 || i >= s.len() {
        Seq::empty()
    } else if s[i] == 0xFF {
        if i + 1 < s.len() && s[i + 1] == 0xD9 {
            s.subrange(i, s.len() as int)
        } else {
            seq![0xFFu8, 0x00u8] + stuffed(s, i + 1)
        }
    } else {
        seq![s[i]] + stuffed(s, i + 1)
    }
}

/// The standard JPEG stream for a stored payload: at the first scan marker
/// (at `p`) the length byte at `p + 3` becomes 0x0C, the bytes
/// {0x00, 0x3F, 0x00} go in after its 12-byte header, and the scan data after
/// them is stuffed. A payload whose first scan marker has no complete header
/// in it, or that has none, stays as it is.
pub open spec fn jpeg_repaired(s: Seq<u8>) -> Seq<u8> {
    let p = find_sos(s, 0);
    if p + 13 > s.len() {
        s
    } else {
        s.subrange(0, p + 3) + seq![0x0Cu8] + s.subrange(p + 4, p + 13) + seq![
            0x00u8,
            0x3Fu8,
            0x00u8,
        ] + stuffed(s, p + 13)
    }
}

/// Rewrites a stored "GEPJ" payload into a standard JPEG stream.
pub fn read_jpeg(src: &[u8]) -> (r: Vec<u8>)
    ensures
        r@ == jpeg_repaired(src@),
{
    let len = src.len();
    let mut p: usize = 0;
    while p < len && p + 1 < len && !(src[p] == 0xFF && src[p + 1] == 0xDA)
        invariant
            len == src@.len(),
            p <= len,
            find_sos(src@, 0) == find_sos(src@, p as int),
        decreases len - p,
    {
        p = p + 1;
    }
    if len < 13 || p > len - 13 {
        return copy_range(src, 0, len);
    }
    let mut out = copy_range(src, 0, p + 3);
    out.push(0x0C);
    let mut i: usize = p + 4;
    while i < p + 13
        invariant
            len == src@.len(),
            p + 13 <= len,
            p + 4 <= i <= p + 13,
            out@ == src@.subrange(0, p + 3) + seq![0x0Cu8] + src@.subrange(p + 4, i as int),
        decreases p + 13 - i,
    {
        out.push(src[i]);
        i = i + 1;
        assert(out@ =~= src@.subrange(0, p + 3) + seq![0x0Cu8] + src@.subrange(
            p + 4,
            i as int,
        ));
    }
    out.push(0x00);
    out.push(0x3F);
    out.push(0x00);
    let ghost head = out@;
    assert(head =~= src@.subrange(0, p + 3) + seq![0x0Cu8] + src@.subrange(p + 4, p + 13)
        + seq![0x00u8, 0x3Fu8, 0x00u8]);
    while i < len
        invariant
            len == src@.len(),
            p + 13 <= i <= len,
            out@ + stuffed(src@, i as int) == head + stuffed(src@, p + 13),
        decreases len - i,
    {
        if src[i] == 0xFF {
            if i + 1 < len && src[i + 1] == 0xD9 {
                let ghost before = out@;
                let mut j: usize = i;
                while j < len
                    invariant
                        len == src@.len(),
                        i <= j <= len,
                        out@ == before + src@.subrange(i as int, j as int),
                    decreases len - j,
                {
                    out.push(src[j]);
                    j = j + 1;
                    assert(out@ =~= before + src@.subrange(i as int, j as int));
                }
                i = len;
                assert(out@ + stuffed(src@, i as int) =~= out@);
            } else {
                let ghost before = out@;
                out.push(0xFF);
                out.push(0x00);
                assert(out@ + stuffed(src@, i + 1) =~= before + stuffed(src@, i as int));
                i = i + 1;
            }
        } else {
            let ghost before = out@;
            out.push(src[i]);
            assert(out@ + stuffed(src@, i + 1) =~= before + stuffed(src@, i as int));
            i = i + 1;
        }
    }
    assert(out@ =~= out@ + stuffed(src@, i as int));
    out
}

/// `t` with a 0x00 put after each 0xFF.
pub open spec fn zero_after_ff(t: Seq<u8>) -> Seq<u8>
    decreases t.len(),
{
    if t.len() == 0 {
        Seq::empty()
    } else {
        (if t[0] == 0xFF {
            seq![0xFFu8, 0x00u8]
        } else {
            seq![t[0]]
        }) + zero_after_ff(t.drop_first())
    }
}

/// How many bytes of `t` are 0xFF.
pub open spec fn count_ff(t: Seq<u8>) -> nat
    decreases t.len(),
{
    if t.len() == 0 {
        0
    } else {
        (if t[0] == 0xFF {
            1nat
        } else {
            0nat
        }) + count_ff(t.drop_first())
    }
}

proof fn lemma_zero_after_ff_len(t: Seq<u8>)
    ensures
        zero_after_ff(t).len() == t.len() + count_ff(t),
    decreases t.len(),
{
    if t.len() > 0 {
        lemma_zero_after_ff_len(t.drop_first());
    }
}

proof fn lemma_find_sos_skips(s: Seq<u8>, i: int, p: int)
    requires
        0 <= i <= p,
        sos_at(s, p),
        forall|j: int| i <= j < p ==> !sos_at(s, j),
    ensures
        find_sos(s, i) == p,
    decreases p - i,
{
    if i < p {
        lemma_find_sos_skips(s, i + 1, p);
    }
}

proof fn lemma_stuffed_scan(s: Seq<u8>, q: int, d: Seq<u8>, i: int)
    requires
        0 <= q <= i <= q + d.len(),
        s.len() == q + d.len() + 2,
        s.subrange(q, q + d.len()) == d,
        s[q + d.len()] == 0xFF,
        s[q + d.len() + 1] == 0xD9,
        forall|j: int| 0 <= j < d.len() - 1 && #[trigger] d[j] == 0xFF ==> d[j + 1] != 0xD9,
    ensures
        stuffed(s, i) == zero_after_ff(d.subrange(i - q, d.len() as int)) + seq![0xFFu8, 0xD9u8],
    decreases q + d.len() - i,
{
    let t = d.subrange(i - q, d.len() as int);
    if i == q + d.len() {
        assert(s.subrange(i, s.len() as int) =~= seq![0xFFu8, 0xD9u8]);
        assert(t =~= Seq::<u8>::empty());
        assert(zero_after_ff(t) + seq![0xFFu8, 0xD9u8] =~= seq![0xFFu8, 0xD9u8]);
    } else {
        lemma_stuffed_scan(s, q, d, i + 1);
        assert(t.drop_first() =~= d.subrange(i + 1 - q, d.len() as int));
        assert(s[i] == d[i - q]);
        if i + 1 < q + d.len() {
            assert(s[i + 1] == d[i + 1 - q]);
        }
        let rest = zero_after_ff(t.drop_first()) + seq![0xFFu8, 0xD9u8];
        if s[i] == 0xFF {
            assert(seq![0xFFu8, 0x00u8] + rest =~= zero_after_ff(t) + seq![0xFFu8, 0xD9u8]);
        } else {
            assert(seq![s[i]] + rest =~= zero_after_ff(t) + seq![0xFFu8, 0xD9u8]);
        }
    }
}

/// Repairing a payload made of a prefix with no scan marker, a scan marker
/// with its 12-byte header, scan data in which no 0xFF comes before 0xD9,
/// and a closing End Of Image marker: the length byte of the header becomes
/// 0x0C, {0x00, 0x3F, 0x00} follows the header, exactly one 0x00 follows each
/// 0xFF of the scan data, and so the payload grows by 3 plus that count.
pub proof fn lemma_repair_structure(pre: Seq<u8>, hdr: Seq<u8>, d: Seq<u8>)
    requires
        hdr.len() == 11,
        forall|i: int| 0 <= i < pre.len() - 1 ==> !(#[trigger] pre[i] == 0xFF && pre[i + 1] == 0xDA),
        forall|j: int| 0 <= j < d.len() - 1 && #[trigger] d[j] == 0xFF ==> d[j + 1] != 0xD9,
    ensures
        ({
            let s = pre + seq![0xFFu8, 0xDAu8] + hdr + d + seq![0xFFu8, 0xD9u8];
            let p = pre.len() as int;
            let r = jpeg_repaired(s);
            &&& r.len() == s.len() + 3 + count_ff(d)
            &&& r.subrange(0, p + 3) == s.subrange(0, p + 3)
            &&& r[p + 3] == 0x0C
            &&& r.subrange(p + 4, p + 13) == s.subrange(p + 4, p + 13)
            &&& r.subrange(p + 13, p + 16) == seq![0x00u8, 0x3Fu8, 0x00u8]
            &&& r.subrange(p + 16, r.len() as int) == zero_after_ff(d) + seq![0xFFu8, 0xD9u8]
        }),
{
    let s = pre + seq![0xFFu8, 0xDAu8] + hdr + d + seq![0xFFu8, 0xD9u8];
    let p = pre.len() as int;
    let q = p + 13;
    assert(sos_at(s, p));
    assert forall|j: int| 0 <= j < p implies !sos_at(s, j) by {
        if j < p - 1 {
            assert(s[j] == pre[j] && s[j + 1] == pre[j + 1]);
        } else {
            assert(s[j + 1] == 0xFF);
        }
    }
    lemma_find_sos_skips(s, 0, p);
    assert(s.subrange(q, q + d.len()) =~= d);
    assert(s[q + d.len()] == 0xFF);
    assert(s[q + d.len() + 1] == 0xD9);
    lemma_stuffed_scan(s, q, d, q);
    assert(d.subrange(0, d.len() as int) =~= d);
    lemma_zero_after_ff_len(d);
    let r = jpeg_repaired(s);
    let tail = zero_after_ff(d) + seq![0xFFu8, 0xD9u8];
    assert(r == s.subrange(0, p + 3) + seq![0x0Cu8] + s.subrange(p + 4, p + 13) + seq![
        0x00u8,
        0x3Fu8,
        0x00u8,
    ] + tail);
    assert(r.subrange(0, p + 3) =~= s.subrange(0, p + 3));
    assert(r.subrange(p + 4, p + 13) =~= s.subrange(p + 4, p + 13));
    assert(r.subrange(p + 13, p + 16) =~= seq![0x00u8, 0x3Fu8, 0x00u8]);
    assert(r.subrange(p + 16, r.len() as int) =~= tail);
}

} // verus!
