use vstd::prelude::*;
use crate::cursor::{copy_range, le32, truncated, u32_from_le, ByteCursor, DecodeError};
use crate::jpeg::{jpeg_repaired, read_jpeg};
use crate::mask::{decompress_plane, mask_plane};

verus! {

/// Archive header: dimensions, tile grid and the tile offset index.
pub struct MapHeader {
    pub flag: u32,
    pub width: u32,
    pub height: u32,
    pub map_index_list: Vec<u32>,
    pub rows: u32,
    pub cols: u32,
    pub index_size: u64,
}

/// One tile of the background picture, as a standard JPEG stream.
pub struct Unit {
    pub unit_flag: String,
    pub size: u32,
    pub unit_data: Vec<u8>,
}

/// One mask record: its place and size, the compressed payload as stored,
/// and the packed 2-bit plane it decompresses to.
pub struct Mask {
    pub x: u32,
    pub y: u32,
    pub width: u32,
    pub height: u32,
    pub size: u32,
    pub data: Vec<u8>,
    pub plane: Vec<u8>,
}

/// A decoded archive.
pub struct MapData {
    pub map_header: MapHeader,
    pub units: Vec<Unit>,
    pub masks: Vec<Mask>,
}

pub struct HeaderView {
    pub flag: u32,
    pub width: u32,
    pub height: u32,
    pub index_list: Seq<u32>,
    pub rows: u32,
    pub cols: u32,
    pub index_size: u64,
}

pub struct UnitView {
    pub tag: Seq<char>,
    pub size: u32,
    pub data: Seq<u8>,
}

pub struct MaskView {
    pub x: u32,
    pub y: u32,
    pub width: u32,
    pub height: u32,
    pub size: u32,
    pub data: Seq<u8>,
    pub plane: Seq<u8>,
}

pub struct MapView {
    pub header: HeaderView,
    pub units: Seq<UnitView>,
    pub masks: Seq<MaskView>,
}

impl View for MapHeader {
    type V = HeaderView;

    open spec fn view(&self) -> HeaderView {
        HeaderView {
            flag: self.flag,
            width: self.width,
            height: self.height,
            index_list: self.map_index_list@,
            rows: self.rows,
            cols: self.cols,
            index_size: self.index_size,
        }
    }
}

impl View for Unit {
    type V = UnitView;

    open spec fn view(&self) -> UnitView {
        UnitView { tag: self.unit_flag@, size: self.size, data: self.unit_data@ }
    }
}

impl View for Mask {
    type V = MaskView;

    open spec fn view(&self) -> MaskView {
        MaskView {
            x: self.x,
            y: self.y,
            width: self.width,
            height: self.height,
            size: self.size,
            data: self.data@,
            plane: self.plane@,
        }
    }
}

impl View for MapData {
    type V = MapView;

    open spec fn view(&self) -> MapView {
        MapView {
            header: self.map_header@,
            units: self.units@.map_values(|u: Unit| u@),
            masks: self.masks@.map_values(|m: Mask| m@),
        }
    }
}

/// The magic text "0.1M".
pub open spec fn magic() -> Seq<u8> {
    seq![0x30u8, 0x2Eu8, 0x31u8, 0x4Du8]
}

/// The tag "GEPJ" of a tile stored without scan header length and stuffing.
pub open spec fn tag_jpeg() -> Seq<u8> {
    seq![0x47u8, 0x45u8, 0x50u8, 0x4Au8]
}

/// The tag "2GPJ" of a tile stored as a standard JPEG stream.
pub open spec fn tag_full_jpeg() -> Seq<u8> {
    seq![0x32u8, 0x47u8, 0x50u8, 0x4Au8]
}

/// `a / d` rounded up.
pub open spec fn ceil_div(a: int, d: int) -> int {
    (a + d - 1) / d
}

/// `n` little-endian 32-bit values stored one after the other from `p`.
pub open spec fn u32_list(b: Seq<u8>, p: int, n: int) -> Seq<u32> {
    Seq::new(n as nat, |i: int| le32(b, p + 4 * i))
}

/// The header at the start of the archive `b`.
pub open spec fn header_spec(b: Seq<u8>) -> Result<HeaderView, DecodeError> {
    if b.len() < 4 {
        Err(truncated(0, 4))
    } else if b.subrange(0, 4) != magic() {
        Err(DecodeError::InvalidFormat)
    } else if b.len() < 12 {
        Err(truncated(4, 8))
    } else {
        let w = le32(b, 4);
        let h = le32(b, 8);
        let rows = ceil_div(h as int, 240);
        let cols = ceil_div(w as int, 320);
        let n = rows * cols;
        if b.len() < 12 + 4 * n {
            Err(truncated(12, 4 * n))
        } else {
            Ok(
                HeaderView {
                    flag: le32(b, 0),
                    width: w,
                    height: h,
                    index_list: u32_list(b, 12, n),
                    rows: rows as u32,
                    cols: cols as u32,
                    index_size: n as u64,
                },
            )
        }
    }
}

/// The mask offset table that starts at `p` (after one unused value).
pub open spec fn mask_table(b: Seq<u8>, p: int) -> Result<Seq<u32>, DecodeError> {
    if b.len() < p + 4 {
        Err(truncated(p, 4))
    } else if b.len() < p + 8 {
        Err(truncated(p + 4, 4))
    } else {
        let n = le32(b, p + 4) as int;
        if b.len() < p + 8 + 4 * n {
            Err(truncated(p + 8, 4 * n))
        } else {
            Ok(u32_list(b, p + 8, n))
        }
    }
}

/// The mask record stored at `off`.
pub open spec fn mask_record(b: Seq<u8>, off: int) -> Result<MaskView, DecodeError> {
    if off > b.len() {
        Err(DecodeError::OutOfRange { offset: off as u64 })
    } else if b.len() < off + 20 {
        Err(truncated(off, 20))
    } else {
        let size = le32(b, off + 16);
        if b.len() < off + 20 + size {
            Err(truncated(off + 20, size as int))
        } else {
            let payload = b.subrange(off + 20, off + 20 + size);
            match mask_plane(off as u64, payload, le32(b, off + 8), le32(b, off + 12)) {
                Err(e) => Err(e),
                Ok(p) => Ok(
                    MaskView {
                        x: le32(b, off),
                        y: le32(b, off + 4),
                        width: le32(b, off + 8),
                        height: le32(b, off + 12),
                        size,
                        data: payload,
                        plane: p,
                    },
                ),
            }
        }
    }
}

/// The mask records at the offsets `offs`, in order; the first failure ends it.
pub open spec fn masks_spec(b: Seq<u8>, offs: Seq<u32>) -> Result<Seq<MaskView>, DecodeError>
    decreases offs.len(),
{
    if offs.len() == 0 {
        Ok(Seq::empty())
    } else {
        match masks_spec(b, offs.drop_last()) {
            Err(e) => Err(e),
            Ok(ms) => match mask_record(b, offs.last() as int) {
                Err(e) => Err(e),
                Ok(m) => Ok(ms.push(m)),
            },
        }
    }
}

/// Whether the bytes are well-formed UTF-8.
pub uninterp spec fn utf8_valid(b: Seq<u8>) -> bool;

/// Relies on std::str::from_utf8: it succeeds exactly on well-formed UTF-8.
#[verifier::external_body]
fn is_utf8(b: &[u8]) -> (r: bool)
    ensures
        r == utf8_valid(b@),
{
    std::str::from_utf8(b).is_ok()
}

/// What a tile's tag says of it.
#[derive(Debug, Clone, Copy, PartialEq, Eq, Structural)]
pub enum UnitKind {
    /// "GEPJ": the payload needs its JPEG stream repaired.
    Jpeg,
    /// "2GPJ": the payload is a standard JPEG stream already.
    FullJpeg,
    /// Any other tag: the tile is left out.
    Other,
}

/// The kind of a tile whose tag, at `position`, is `tag`.
pub open spec fn kind_spec(position: u64, tag: Seq<u8>, utf8_ok: bool) -> Result<UnitKind, DecodeError> {
    if !utf8_ok {
        Err(DecodeError::EncodingError { position })
    } else if tag == tag_jpeg() {
        Ok(UnitKind::Jpeg)
    } else if tag == tag_full_jpeg() {
        Ok(UnitKind::FullJpeg)
    } else {
        Ok(UnitKind::Other)
    }
}

/// Tells a tile's kind from its four tag bytes at `position`, given whether
/// they are well-formed UTF-8.
pub fn classify_tag(position: u64, tag: &[u8], utf8_ok: bool) -> (r: Result<UnitKind, DecodeError>)
    requires
        tag@.len() == 4,
    ensures
        r == kind_spec(position, tag@, utf8_ok),
{
    if !utf8_ok {
        return Err(DecodeError::EncodingError { position });
    }
    if tag[0] == 0x47 && tag[1] == 0x45 && tag[2] == 0x50 && tag[3] == 0x4A {
        assert(tag@ =~= tag_jpeg());
        Ok(UnitKind::Jpeg)
    } else if tag[0] == 0x32 && tag[1] == 0x47 && tag[2] == 0x50 && tag[3] == 0x4A {
        assert(tag@ =~= tag_full_jpeg());
        Ok(UnitKind::FullJpeg)
    } else {
        assert(tag@ != tag_jpeg() && tag@ != tag_full_jpeg()) by {
            if tag@ == tag_jpeg() {
                assert(tag@[0] == 0x47);
            }
            if tag@ == tag_full_jpeg() {
                assert(tag@[0] == 0x32);
            }
        }
        Ok(UnitKind::Other)
    }
}

/// The tile stored at `off`: `None` where its tag is not one of this format's.
pub open spec fn unit_record(b: Seq<u8>, off: int) -> Result<Option<UnitView>, DecodeError> {
    if off > b.len() {
        Err(DecodeError::OutOfRange { offset: off as u64 })
    } else if b.len() < off + 4 {
        Err(truncated(off, 4))
    } else {
        let skip = 4 * le32(b, off);
        if b.len() < off + 4 + skip {
            Err(truncated(off + 4, skip))
        } else {
            let p = off + 4 + skip;
            if b.len() < p + 8 {
                Err(truncated(p, 8))
            } else {
                let tag = b.subrange(p, p + 4);
                let size = le32(b, p + 4);
                match kind_spec(p as u64, tag, utf8_valid(tag)) {
                    Err(e) => Err(e),
                    Ok(UnitKind::Other) => Ok(None),
                    Ok(kind) => if b.len() < p + 8 + size {
                        Err(truncated(p + 8, size as int))
                    } else {
                        let payload = b.subrange(p + 8, p + 8 + size);
                        if kind == UnitKind::Jpeg {
                            Ok(Some(UnitView { tag: "GEPJ"@, size, data: jpeg_repaired(payload) }))
                        } else {
                            Ok(Some(UnitView { tag: "2GPJ"@, size, data: payload }))
                        }
                    },
                }
            }
        }
    }
}

/// The tiles at the offsets `offs`, in order, leaving out those of other tags;
/// the first failure ends it.
pub open spec fn units_spec(b: Seq<u8>, offs: Seq<u32>) -> Result<Seq<UnitView>, DecodeError>
    decreases offs.len(),
{
    if offs.len() == 0 {
        Ok(Seq::empty())
    } else {
        match units_spec(b, offs.drop_last()) {
            Err(e) => Err(e),
            Ok(us) => match unit_record(b, offs.last() as int) {
                Err(e) => Err(e),
                Ok(None) => Ok(us),
                Ok(Some(u)) => Ok(us.push(u)),
            },
        }
    }
}

/// The mask table starting at `p` and the mask records it points to.
pub open spec fn masks_at(b: Seq<u8>, p: int) -> Result<Seq<MaskView>, DecodeError> {
    match mask_table(b, p) {
        Err(e) => Err(e),
        Ok(t) => masks_spec(b, t),
    }
}

/// The archive `b` decoded: header, then mask table and masks, then tiles.
pub open spec fn archive(b: Seq<u8>) -> Result<MapView, DecodeError> {
    match header_spec(b) {
        Err(e) => Err(e),
        Ok(h) => match masks_at(b, 12 + 4 * h.index_size) {
            Err(e) => Err(e),
            Ok(ms) => match units_spec(b, h.index_list) {
                Err(e) => Err(e),
                Ok(us) => Ok(MapView { header: h, units: us, masks: ms }),
            },
        },
    }
}

/// Reads `n` little-endian 32-bit values, or fails with `Truncated` where
/// the `4 * n` bytes they take are not all there.
fn read_u32_list(cur: &mut ByteCursor, n: u64) -> (r: Result<Vec<u32>, DecodeError>)
    requires
        old(cur).pos <= old(cur).data@.len(),
        n <= 0x1_0000_0000_0000,
    ensures
        final(cur).data@ == old(cur).data@,
        final(cur).pos <= final(cur).data@.len(),
        old(cur).pos + 4 * n <= old(cur).data@.len() ==> (r matches Ok(v) && v@ == u32_list(
            old(cur).data@,
            old(cur).pos as int,
            n as int,
        ) && final(cur).pos == old(cur).pos + 4 * n),
        old(cur).pos + 4 * n > old(cur).data@.len() ==> r == Err::<Vec<u32>, DecodeError>(
            truncated(old(cur).pos as int, 4 * n),
        ),
{
    let start = cur.pos;
    let bytes = cur.read_bytes(4 * n)?;
    let ghost b = cur.data@;
    let mut v: Vec<u32> = Vec::new();
    let mut i: usize = 0;
    while i < bytes.len() / 4
        invariant
            bytes@.len() == 4 * n,
            start + 4 * n <= b.len(),
            bytes@ == b.subrange(start as int, start + 4 * n),
            i <= n,
            v@ == u32_list(b, start as int, i as int),
        decreases n - i,
    {
        let x = u32_from_le(bytes[4 * i], bytes[4 * i + 1], bytes[4 * i + 2], bytes[4 * i + 3]);
        proof {
            assert(seq![bytes@[4 * i], bytes@[4 * i + 1], bytes@[4 * i + 2], bytes@[4 * i + 3]][0]
                == bytes@[4 * i]);
            assert(bytes@[4 * i] == b[start + 4 * i]);
            assert(bytes@[4 * i + 1] == b[start + 4 * i + 1]);
            assert(bytes@[4 * i + 2] == b[start + 4 * i + 2]);
            assert(bytes@[4 * i + 3] == b[start + 4 * i + 3]);
            assert(x == le32(b, start + 4 * i));
        }
        v.push(x);
        i = i + 1;
        assert(v@ =~= u32_list(b, start as int, i as int));
    }
    Ok(v)
}

/// Reads the archive header: magic, dimensions, and the tile offset index,
/// one offset for each cell of the grid of 320 by 240 pixel tiles.
pub fn read_header(cur: &mut ByteCursor) -> (r: Result<MapHeader, DecodeError>)
    requires
        old(cur).pos == 0,
    ensures
        final(cur).data@ == old(cur).data@,
        final(cur).pos <= final(cur).data@.len(),
        r matches Ok(h) ==> header_spec(old(cur).data@) == Ok::<HeaderView, DecodeError>(h@)
            && final(cur).pos == 12 + 4 * h.index_size,
        r matches Err(e) ==> header_spec(old(cur).data@) == Err::<HeaderView, DecodeError>(e),
{
    let ghost b = cur.data@;
    let magic_bytes = cur.read_bytes(4)?;
    if !(magic_bytes[0] == 0x30 && magic_bytes[1] == 0x2E && magic_bytes[2] == 0x31
        && magic_bytes[3] == 0x4D) {
        assert(b.subrange(0, 4) != magic()) by {
            if b.subrange(0, 4) == magic() {
                assert(magic_bytes@ == magic());
                assert(magic_bytes@[0] == 0x30 && magic_bytes@[1] == 0x2E);
                assert(magic_bytes@[2] == 0x31 && magic_bytes@[3] == 0x4D);
            }
        }
        return Err(DecodeError::InvalidFormat);
    }
    assert(b.subrange(0, 4) =~= magic());
    let flag = u32_from_le(magic_bytes[0], magic_bytes[1], magic_bytes[2], magic_bytes[3]);
    let dims = cur.read_bytes(8)?;
    let width = u32_from_le(dims[0], dims[1], dims[2], dims[3]);
    let height = u32_from_le(dims[4], dims[5], dims[6], dims[7]);
    proof {
        assert(seq![magic_bytes@[0], magic_bytes@[1], magic_bytes@[2], magic_bytes@[3]][0]
            == magic_bytes@[0]);
        assert(seq![dims@[0], dims@[1], dims@[2], dims@[3]][0] == dims@[0]);
        assert(seq![dims@[4], dims@[5], dims@[6], dims@[7]][0] == dims@[4]);
        assert(flag == le32(b, 0));
        assert(width == le32(b, 4));
        assert(height == le32(b, 8));
    }
    let rows: u32 = height / 240 + if height % 240 != 0 { 1u32 } else { 0u32 };
    let cols: u32 = width / 320 + if width % 320 != 0 { 1u32 } else { 0u32 };
    assert(rows == ceil_div(height as int, 240));
    assert(cols == ceil_div(width as int, 320));
    assert(rows as int * cols as int <= 17895698 * 13421773) by (nonlinear_arith)
        requires
            rows <= 17895698,
            cols <= 13421773,
    ;
    let index_size: u64 = rows as u64 * cols as u64;
    let map_index_list = read_u32_list(cur, index_size)?;
    Ok(MapHeader { flag, width, height, map_index_list, rows, cols, index_size })
}

proof fn lemma_le32_subrange(b: Seq<u8>, s: int, e: int, i: int)
    requires
        0 <= s <= e <= b.len(),
        0 <= i,
        i + 4 <= e - s,
    ensures
        le32(b.subrange(s, e), i) == le32(b, s + i),
{
}

/// The little-endian `u32` at `i` in `bytes`.
fn le32_at(bytes: &Vec<u8>, i: usize) -> (r: u32)
    requires
        i + 4 <= bytes@.len(),
    ensures
        r == le32(bytes@, i as int),
{
    let _n = bytes.len();
    let r = u32_from_le(bytes[i], bytes[i + 1], bytes[i + 2], bytes[i + 3]);
    assert(seq![bytes@[i as int], bytes@[i + 1], bytes@[i + 2], bytes@[i + 3]][0] == bytes@[i as int]);
    r
}

proof fn lemma_masks_failure_stays(b: Seq<u8>, offs: Seq<u32>, k: int)
    requires
        0 <= k <= offs.len(),
        masks_spec(b, offs.take(k)) is Err,
    ensures
        masks_spec(b, offs) == masks_spec(b, offs.take(k)),
    decreases offs.len() - k,
{
    if k < offs.len() {
        assert(offs.take(k + 1).drop_last() =~= offs.take(k));
        lemma_masks_failure_stays(b, offs, k + 1);
    } else {
        assert(offs.take(k) =~= offs);
    }
}

proof fn lemma_units_failure_stays(b: Seq<u8>, offs: Seq<u32>, k: int)
    requires
        0 <= k <= offs.len(),
        units_spec(b, offs.take(k)) is Err,
    ensures
        units_spec(b, offs) == units_spec(b, offs.take(k)),
    decreases offs.len() - k,
{
    if k < offs.len() {
        assert(offs.take(k + 1).drop_last() =~= offs.take(k));
        lemma_units_failure_stays(b, offs, k + 1);
    } else {
        assert(offs.take(k) =~= offs);
    }
}

/// Reads the mask record at `off`: geometry, compressed payload, and the
/// plane it decompresses to.
fn read_mask_record(cur: &mut ByteCursor, off: u32) -> (r: Result<Mask, DecodeError>)
    requires
        old(cur).pos <= old(cur).data@.len(),
    ensures
        final(cur).data@ == old(cur).data@,
        final(cur).pos <= final(cur).data@.len(),
        r matches Ok(m) ==> mask_record(old(cur).data@, off as int) == Ok::<MaskView, DecodeError>(m@),
        r matches Err(e) ==> mask_record(old(cur).data@, off as int) == Err::<MaskView, DecodeError>(e),
{
    let ghost b = cur.data@;
    cur.seek(off as u64)?;
    let fixed = cur.read_bytes(20)?;
    let x = le32_at(&fixed, 0);
    let y = le32_at(&fixed, 4);
    let width = le32_at(&fixed, 8);
    let height = le32_at(&fixed, 12);
    let size = le32_at(&fixed, 16);
    proof {
        lemma_le32_subrange(b, off as int, off + 20, 0);
        lemma_le32_subrange(b, off as int, off + 20, 4);
        lemma_le32_subrange(b, off as int, off + 20, 8);
        lemma_le32_subrange(b, off as int, off + 20, 12);
        lemma_le32_subrange(b, off as int, off + 20, 16);
    }
    let data = cur.read_bytes(size as u64)?;
    let plane = decompress_plane(off as u64, data.as_slice(), width, height)?;
    Ok(Mask { x, y, width, height, size, data, plane })
}

/// Reads the mask table at the cursor and then each mask record it points
/// to, in table order. Any failure ends the whole read.
pub fn read_mask(cur: &mut ByteCursor) -> (r: Result<Vec<Mask>, DecodeError>)
    requires
        old(cur).pos <= old(cur).data@.len(),
    ensures
        final(cur).data@ == old(cur).data@,
        final(cur).pos <= final(cur).data@.len(),
        r matches Ok(ms) ==> masks_at(old(cur).data@, old(cur).pos as int) == Ok::<
            Seq<MaskView>,
            DecodeError,
        >(ms@.map_values(|m: Mask| m@)),
        r matches Err(e) ==> masks_at(old(cur).data@, old(cur).pos as int) == Err::<
            Seq<MaskView>,
            DecodeError,
        >(e),
{
    let ghost b = cur.data@;
    let ghost p = cur.pos as int;
    let _unknown = cur.read_u32()?;
    let count = cur.read_u32()?;
    let offsets = read_u32_list(cur, count as u64)?;
    assert(mask_table(b, p) == Ok::<Seq<u32>, DecodeError>(offsets@));
    let mut masks: Vec<Mask> = Vec::new();
    let mut j: usize = 0;
    assert(offsets@.take(0) =~= Seq::<u32>::empty());
    assert(masks@.map_values(|m: Mask| m@) =~= Seq::<MaskView>::empty());
    while j < offsets.len()
        invariant
            cur.data@ == b,
            old(cur).data@ == b,
            old(cur).pos == p,
            mask_table(b, p) == Ok::<Seq<u32>, DecodeError>(offsets@),
            cur.pos <= b.len(),
            j <= offsets@.len(),
            masks_spec(b, offsets@.take(j as int)) == Ok::<Seq<MaskView>, DecodeError>(
                masks@.map_values(|m: Mask| m@),
            ),
        decreases offsets.len() - j,
    {
        let ghost prev = masks@;
        assert(offsets@.take(j + 1).drop_last() =~= offsets@.take(j as int));
        assert(offsets@.take(j + 1).last() == offsets@[j as int]);
        let m = read_mask_record(cur, offsets[j]);
        match m {
            Ok(m) => {
                masks.push(m);
                assert(masks@.map_values(|m: Mask| m@) =~= prev.map_values(|m: Mask| m@).push(
                    m@,
                ));
            },
            Err(e) => {
                proof {
                    lemma_masks_failure_stays(b, offsets@, j + 1);
                }
                return Err(e);
            },
        }
        j = j + 1;
    }
    assert(offsets@.take(j as int) =~= offsets@);
    Ok(masks)
}

/// Reads the tile at `off`: skips its prefix block, reads tag and size, and
/// for a "GEPJ" or "2GPJ" tag the payload, repaired for "GEPJ". Other tags
/// give `None`.
fn read_unit_record(cur: &mut ByteCursor, off: u32) -> (r: Result<Option<Unit>, DecodeError>)
    requires
        old(cur).pos <= old(cur).data@.len(),
    ensures
        final(cur).data@ == old(cur).data@,
        final(cur).pos <= final(cur).data@.len(),
        r matches Ok(Some(u)) ==> unit_record(old(cur).data@, off as int) == Ok::<
            Option<UnitView>,
            DecodeError,
        >(Some(u@)),
        r matches Ok(None) ==> unit_record(old(cur).data@, off as int) == Ok::<
            Option<UnitView>,
            DecodeError,
        >(None),
        r matches Err(e) ==> unit_record(old(cur).data@, off as int) == Err::<
            Option<UnitView>,
            DecodeError,
        >(e),
{
    let ghost b = cur.data@;
    cur.seek(off as u64)?;
    let count = cur.read_u32()?;
    cur.skip(4 * count as u64)?;
    let p = cur.pos;
    let head = cur.read_bytes(8)?;
    let tag = copy_range(head.as_slice(), 0, 4);
    let size = le32_at(&head, 4);
    proof {
        lemma_le32_subrange(b, p as int, p + 8, 4);
        assert(tag@ =~= b.subrange(p as int, p + 4));
    }
    let valid = is_utf8(tag.as_slice());
    let kind = classify_tag(p as u64, tag.as_slice(), valid)?;
    match kind {
        UnitKind::Other => Ok(None),
        UnitKind::Jpeg => {
            let stored = cur.read_bytes(size as u64)?;
            let unit_data = read_jpeg(stored.as_slice());
            let unit_flag = "GEPJ".to_owned();
            Ok(Some(Unit { unit_flag, size, unit_data }))
        },
        UnitKind::FullJpeg => {
            let unit_data = cur.read_bytes(size as u64)?;
            let unit_flag = "2GPJ".to_owned();
            Ok(Some(Unit { unit_flag, size, unit_data }))
        },
    }
}

/// Reads the tile at each offset of the header's index, in order, keeping
/// those of a known tag. Any failure ends the whole read.
pub fn read_unit(map_header: &MapHeader, cur: &mut ByteCursor) -> (r: Result<Vec<Unit>, DecodeError>)
    requires
        old(cur).pos <= old(cur).data@.len(),
    ensures
        final(cur).data@ == old(cur).data@,
        final(cur).pos <= final(cur).data@.len(),
        r matches Ok(us) ==> units_spec(old(cur).data@, map_header.map_index_list@) == Ok::<
            Seq<UnitView>,
            DecodeError,
        >(us@.map_values(|u: Unit| u@)),
        r matches Err(e) ==> units_spec(old(cur).data@, map_header.map_index_list@) == Err::<
            Seq<UnitView>,
            DecodeError,
        >(e),
{
    let ghost b = cur.data@;
    let offsets = &map_header.map_index_list;
    let mut units: Vec<Unit> = Vec::new();
    let mut j: usize = 0;
    assert(offsets@.take(0) =~= Seq::<u32>::empty());
    assert(units@.map_values(|u: Unit| u@) =~= Seq::<UnitView>::empty());
    while j < offsets.len()
        invariant
            cur.data@ == b,
            old(cur).data@ == b,
            offsets@ == map_header.map_index_list@,
            cur.pos <= b.len(),
            j <= offsets@.len(),
            units_spec(b, offsets@.take(j as int)) == Ok::<Seq<UnitView>, DecodeError>(
                units@.map_values(|u: Unit| u@),
            ),
        decreases offsets.len() - j,
    {
        let ghost prev = units@;
        assert(offsets@.take(j + 1).drop_last() =~= offsets@.take(j as int));
        assert(offsets@.take(j + 1).last() == offsets@[j as int]);
        let u = read_unit_record(cur, offsets[j]);
        match u {
            Ok(Some(u)) => {
                units.push(u);
                assert(units@.map_values(|u: Unit| u@) =~= prev.map_values(|u: Unit| u@).push(
                    u@,
                ));
            },
            Ok(None) => {},
            Err(e) => {
                proof {
                    assert(units_spec(b, offsets@.take(j + 1)) == Err::<Seq<UnitView>, DecodeError>(e));
                    lemma_units_failure_stays(b, offsets@, j + 1);
                }
                return Err(e);
            },
        }
        j = j + 1;
    }
    assert(offsets@.take(j as int) =~= offsets@);
    Ok(units)
}

/// Decodes a whole archive held in memory: header, masks, then tiles. Any
/// failure ends the decode; there is no partial result.
pub fn decode(data: &[u8]) -> (r: Result<MapData, DecodeError>)
    ensures
        r matches Ok(m) ==> archive(data@) == Ok::<MapView, DecodeError>(m@),
        r matches Err(e) ==> archive(data@) == Err::<MapView, DecodeError>(e),
{
    let mut cur = ByteCursor::new(data);
    let map_header = read_header(&mut cur)?;
    let masks = read_mask(&mut cur)?;
    let units = read_unit(&map_header, &mut cur)?;
    Ok(MapData { map_header, units, masks })
}

/// Every header that reads has `ceil(height / 240)` rows and
/// `ceil(width / 320)` columns, and an index of one offset per grid cell.
pub proof fn lemma_header_grid(b: Seq<u8>)
    requires
        header_spec(b) is Ok,
    ensures
        ({
            let h = header_spec(b)->Ok_0;
            &&& h.rows == ceil_div(h.height as int, 240)
            &&& h.cols == ceil_div(h.width as int, 320)
            &&& h.index_size == h.rows as int * h.cols as int
            &&& h.index_list.len() == h.rows as int * h.cols as int
        }),
{
    let w = le32(b, 4);
    let hh = le32(b, 8);
    let rows = ceil_div(hh as int, 240);
    let cols = ceil_div(w as int, 320);
    assert(0 <= rows <= 17895698);
    assert(0 <= cols <= 13421773);
    assert(rows * cols <= 17895698 * 13421773) by (nonlinear_arith)
        requires
            0 <= rows <= 17895698,
            0 <= cols <= 13421773,
    ;
    assert(rows * cols >= 0) by (nonlinear_arith)
        requires
            0 <= rows,
            0 <= cols,
    ;
}

/// A buffer whose first four bytes are not "0.1M" never decodes: it fails
/// with `InvalidFormat`, whatever follows.
pub proof fn lemma_bad_magic(b: Seq<u8>)
    requires
        b.len() >= 4,
        b.subrange(0, 4) != magic(),
    ensures
        archive(b) == Err::<MapView, DecodeError>(DecodeError::InvalidFormat),
{
}

/// A tile record tagged "2GPJ" keeps its payload exactly as stored.
pub proof fn lemma_full_jpeg_verbatim(b: Seq<u8>, off: int)
    requires
        unit_record(b, off) is Ok,
        0 <= off,
        off + 4 <= b.len(),
        off + 4 + 4 * le32(b, off) + 8 <= b.len(),
        b.subrange(off + 4 + 4 * le32(b, off), off + 8 + 4 * le32(b, off)) == tag_full_jpeg(),
    ensures
        ({
            let p = off + 4 + 4 * le32(b, off);
            let size = le32(b, p + 4);
            unit_record(b, off) == Ok::<Option<UnitView>, DecodeError>(
                Some(UnitView { tag: "2GPJ"@, size, data: b.subrange(p + 8, p + 8 + size) }),
            )
        }),
{
    let p = off + 4 + 4 * le32(b, off);
    assert(tag_full_jpeg() != tag_jpeg()) by {
        assert(tag_full_jpeg()[0] != tag_jpeg()[0]);
    }
}

/// Byte length of the part of an archive that sits at fixed places: magic,
/// dimensions, tile index, and the mask table with its offsets.
pub open spec fn fixed_part_len(b: Seq<u8>) -> int {
    let p = 12 + 4 * header_spec(b)->Ok_0.index_size;
    p + 8 + 4 * le32(b, p + 4)
}

/// Cutting a valid archive anywhere inside its fixed part makes it fail with
/// `Truncated`.
pub proof fn lemma_truncated_fixed_part(b: Seq<u8>, k: int)
    requires
        archive(b) is Ok,
        0 <= k < fixed_part_len(b),
    ensures
        archive(b.subrange(0, k)) matches Err(DecodeError::Truncated { .. }),
{
    let c = b.subrange(0, k);
    if k >= 4 {
        assert(c.subrange(0, 4) =~= b.subrange(0, 4));
    }
    if k >= 12 {
        lemma_le32_subrange(b, 0, k, 4);
        lemma_le32_subrange(b, 0, k, 8);
        let p = 12 + 4 * header_spec(b)->Ok_0.index_size;
        if k >= p + 8 {
            lemma_le32_subrange(b, 0, k, p + 4);
        }
    }
}

/// Whether an error is one that a buffer cut short can give.
pub open spec fn cut_short(e: DecodeError) -> bool {
    e is Truncated || e is OutOfRange
}

proof fn lemma_le32_prefix(b: Seq<u8>, k: int, p: int)
    requires
        0 <= p,
        p + 4 <= k <= b.len(),
    ensures
        le32(b.subrange(0, k), p) == le32(b, p),
{
    lemma_le32_subrange(b, 0, k, p);
}

proof fn lemma_mask_record_prefix(b: Seq<u8>, k: int, off: int)
    requires
        0 <= k <= b.len(),
        0 <= off,
    ensures
        mask_record(b.subrange(0, k), off) == mask_record(b, off) || (mask_record(
            b.subrange(0, k),
            off,
        ) matches Err(e) && cut_short(e)),
{
    let c = b.subrange(0, k);
    if off <= k && k >= off + 20 {
        lemma_le32_prefix(b, k, off);
        lemma_le32_prefix(b, k, off + 4);
        lemma_le32_prefix(b, k, off + 8);
        lemma_le32_prefix(b, k, off + 12);
        lemma_le32_prefix(b, k, off + 16);
        let size = le32(b, off + 16);
        if k >= off + 20 + size {
            assert(c.subrange(off + 20, off + 20 + size) =~= b.subrange(off + 20, off + 20 + size));
        }
    }
}

proof fn lemma_unit_record_prefix(b: Seq<u8>, k: int, off: int)
    requires
        0 <= k <= b.len(),
        0 <= off,
    ensures
        unit_record(b.subrange(0, k), off) == unit_record(b, off) || (unit_record(
            b.subrange(0, k),
            off,
        ) matches Err(e) && cut_short(e)),
{
    let c = b.subrange(0, k);
    if off <= k && k >= off + 4 {
        lemma_le32_prefix(b, k, off);
        let p = off + 4 + 4 * le32(b, off);
        if k >= p + 8 {
            lemma_le32_prefix(b, k, p + 4);
            assert(c.subrange(p, p + 4) =~= b.subrange(p, p + 4));
            let size = le32(b, p + 4);
            if k >= p + 8 + size {
                assert(c.subrange(p + 8, p + 8 + size) =~= b.subrange(p + 8, p + 8 + size));
            }
        }
    }
}

proof fn lemma_masks_prefix(b: Seq<u8>, k: int, offs: Seq<u32>)
    requires
        0 <= k <= b.len(),
    ensures
        masks_spec(b.subrange(0, k), offs) == masks_spec(b, offs) || (masks_spec(
            b.subrange(0, k),
            offs,
        ) matches Err(e) && cut_short(e)) || masks_spec(b, offs) is Err,
    decreases offs.len(),
{
    if offs.len() > 0 {
        lemma_masks_prefix(b, k, offs.drop_last());
        lemma_mask_record_prefix(b, k, offs.last() as int);
    }
}

proof fn lemma_units_prefix(b: Seq<u8>, k: int, offs: Seq<u32>)
    requires
        0 <= k <= b.len(),
    ensures
        units_spec(b.subrange(0, k), offs) == units_spec(b, offs) || (units_spec(
            b.subrange(0, k),
            offs,
        ) matches Err(e) && cut_short(e)) || units_spec(b, offs) is Err,
    decreases offs.len(),
{
    if offs.len() > 0 {
        lemma_units_prefix(b, k, offs.drop_last());
        lemma_unit_record_prefix(b, k, offs.last() as int);
    }
}

/// Cutting a valid archive short never changes what it decodes to, nor
/// gives another error: the cut archive decodes as before (where nothing the
/// decode reads lies past the cut) or fails with `Truncated` or `OutOfRange`.
pub proof fn lemma_truncation(b: Seq<u8>, k: int)
    requires
        archive(b) is Ok,
        0 <= k <= b.len(),
    ensures
        archive(b.subrange(0, k)) == archive(b) || (archive(b.subrange(0, k)) matches Err(e)
            && cut_short(e)),
{
    let c = b.subrange(0, k);
    if k >= 4 {
        assert(c.subrange(0, 4) =~= b.subrange(0, 4));
    }
    if k >= 12 {
        lemma_le32_prefix(b, k, 0);
        lemma_le32_prefix(b, k, 4);
        lemma_le32_prefix(b, k, 8);
        let h = header_spec(b)->Ok_0;
        lemma_header_grid(b);
        let n = h.index_size as int;
        if k >= 12 + 4 * n {
            assert forall|i: int| 0 <= i < n implies #[trigger] le32(c, 12 + 4 * i) == le32(
                b,
                12 + 4 * i,
            ) by {
                lemma_le32_prefix(b, k, 12 + 4 * i);
            }
            assert(u32_list(c, 12, n) =~= u32_list(b, 12, n));
            assert(header_spec(c) == header_spec(b));
            let p = 12 + 4 * n;
            if k >= p + 8 {
                lemma_le32_prefix(b, k, p + 4);
                let cnt = le32(b, p + 4) as int;
                if k >= p + 8 + 4 * cnt {
                    assert forall|i: int| 0 <= i < cnt implies #[trigger] le32(c, p + 8 + 4 * i)
                        == le32(b, p + 8 + 4 * i) by {
                        lemma_le32_prefix(b, k, p + 8 + 4 * i);
                    }
                    assert(u32_list(c, p + 8, cnt) =~= u32_list(b, p + 8, cnt));
                    assert(mask_table(c, p) == mask_table(b, p));
                    lemma_masks_prefix(b, k, mask_table(b, p)->Ok_0);
                    lemma_units_prefix(b, k, h.index_list);
                }
            }
        }
    }
}

} // verus!
