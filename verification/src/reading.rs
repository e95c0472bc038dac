//! What a reader of a camera-profile record finds in it.
//!
//! A reader follows the TIFF conventions: the directory's place stands in bytes
//! 4 to 8, the directory begins with its entry count, and a value of at most
//! four bytes stands in its entry while a longer one stands at the place that
//! its entry gives.
use crate::mmcr::{Item, Record};
use crate::tags::{
    CALIBRATION_ILLUMINANT1, CALIBRATION_ILLUMINANT2, COLOR_MATRIX2, COMPRESSION, FORWARD_MATRIX2,
    TIFF_TYPE_ASCII, TIFF_TYPE_SHORT, TIFF_TYPE_SRATIONAL,
};
use vstd::prelude::*;

verus! {

/// One tag as a reader gets it: the whole value, wherever it was stored.
#[verifier::ext_equal]
pub struct Field {
    pub tag: u16,
    pub kind: u16,
    pub count: nat,
    pub payload: Seq<u8>,
}

/// Size in bytes of one value of a TIFF type.
pub open spec fn kind_size(kind: u16) -> nat {
    if kind == TIFF_TYPE_ASCII {
        1
    } else if kind == TIFF_TYPE_SHORT {
        2
    } else if kind == TIFF_TYPE_SRATIONAL {
        8
    } else {
        4
    }
}

/// Where a record says that its directory is.
pub open spec fn directory_at(blob: Seq<u8>) -> nat {
    crate::endian::from_be32(blob.subrange(4, 8)) as nat
}

/// How many entries a record says that its directory has.
pub open spec fn directory_count(blob: Seq<u8>) -> nat {
    let p = directory_at(blob) as int;
    crate::endian::from_be16(blob.subrange(p, p + 2)) as nat
}

/// Entry `i` of a record, with its value.
pub open spec fn read_field(blob: Seq<u8>, i: int) -> Field {
    let p = directory_at(blob) + 2 + 12 * i;
    let kind = crate::endian::from_be16(blob.subrange(p + 2, p + 4));
    let count = crate::endian::from_be32(blob.subrange(p + 4, p + 8)) as nat;
    let size = count * kind_size(kind);
    let at = if size <= 4 {
        p + 8
    } else {
        crate::endian::from_be32(blob.subrange(p + 8, p + 12)) as int
    };
    Field {
        tag: crate::endian::from_be16(blob.subrange(p, p + 2)),
        kind,
        count,
        payload: blob.subrange(at, at + size),
    }
}

/// All entries of a record, with their values.
pub open spec fn read_fields(blob: Seq<u8>) -> Seq<Field> {
    Seq::new(directory_count(blob), |i: int| read_field(blob, i))
}

/// An entry without regard to where its value is stored.
pub open spec fn field_of(x: Item) -> Field {
    Field { tag: x.tag, kind: x.kind, count: x.count, payload: x.payload }
}

/// What a record is meant to tell its reader.
pub open spec fn fields(r: Record) -> Seq<Field> {
    crate::mmcr::items(r).map_values(|x: Item| field_of(x))
}

/// Whether no table has exactly one element. A record stores its tables behind
/// the directory whatever their size, and a reader looks for a value of four
/// bytes in the entry itself.
pub open spec fn tables_found(r: Record) -> bool {
    &&& r.tone matches Some(t) ==> t.len() != 1
    &&& r.map matches Some(m) ==> m.len() != 1
}

/// An entry's value is where its entry says, has the size that its count and
/// type give, and where it stands behind the directory it is even-aligned and
/// within the record.
pub open spec fn located(r: Record, x: Item) -> bool {
    &&& x.payload.len() == x.count * kind_size(x.kind)
    &&& match x.at {
        Some(at) => {
            &&& crate::mmcr::tail_at(r) <= at
            &&& at % 2 == 0
            &&& at + x.payload.len() <= crate::mmcr::record_len(r)
            &&& crate::mmcr::record_bytes(r).subrange(at as int, (at + x.payload.len()) as int) == x.payload
            &&& tables_found(r) ==> x.payload.len() == 0 || x.payload.len() > 4
        },
        None => x.payload.len() <= 4,
    }
}

/// Where the parts of a record are.
pub(crate) proof fn lemma_layout(r: Record)
    ensures
        crate::mmcr::items(r).len() == crate::mmcr::entry_count(r),
        crate::mmcr::tail(r).len() == crate::mmcr::record_len(r) - crate::mmcr::tail_at(r),
        crate::mmcr::record_bytes(r).len() == crate::mmcr::record_len(r),
        crate::mmcr::record_bytes(r).subrange(0, 4) == crate::mmcr::magic(),
        crate::mmcr::record_bytes(r).subrange(4, 8) == crate::endian::be32(8),
        crate::mmcr::record_bytes(r).subrange(8, 10) == crate::endian::be16(
            crate::mmcr::entry_count(r) as u16,
        ),
        crate::mmcr::record_bytes(r).subrange(10, crate::mmcr::tail_at(r) - 4)
            == crate::mmcr::directory_bytes(crate::mmcr::items(r)),
        crate::mmcr::record_bytes(r).subrange(
            crate::mmcr::tail_at(r) - 4,
            crate::mmcr::tail_at(r) as int,
        ) == crate::endian::be32(0),
        crate::mmcr::record_bytes(r).subrange(
            crate::mmcr::tail_at(r) as int,
            crate::mmcr::record_len(r) as int,
        ) == crate::mmcr::tail(r),
{
    reveal(crate::mmcr::record_bytes);
    let b = crate::mmcr::record_bytes(r);
    let t = crate::mmcr::tail_at(r) as int;
    assert(b.subrange(0, 4) =~= crate::mmcr::magic());
    assert(b.subrange(4, 8) =~= crate::endian::be32(8));
    assert(b.subrange(8, 10) =~= crate::endian::be16(crate::mmcr::entry_count(r) as u16));
    assert(b.subrange(10, t - 4) =~= crate::mmcr::directory_bytes(crate::mmcr::items(r)));
    assert(b.subrange(t - 4, t) =~= crate::endian::be32(0));
    assert(b.subrange(t, crate::mmcr::record_len(r) as int) =~= crate::mmcr::tail(r));
}

/// A part of the tail, found in the record.
proof fn lemma_in_tail(r: Record, at: nat, part: Seq<u8>)
    requires
        crate::mmcr::tail_at(r) <= at,
        at + part.len() <= crate::mmcr::record_len(r),
        crate::mmcr::tail(r).subrange(
            at - crate::mmcr::tail_at(r),
            at - crate::mmcr::tail_at(r) + part.len(),
        ) == part,
    ensures
        crate::mmcr::record_bytes(r).subrange(at as int, (at + part.len()) as int) == part,
{
    lemma_layout(r);
    let t = crate::mmcr::tail_at(r) as int;
    let whole = crate::mmcr::record_bytes(r);
    assert(whole.subrange(at as int, (at + part.len()) as int) =~= whole.subrange(
        t,
        crate::mmcr::record_len(r) as int,
    ).subrange(at - t, at - t + part.len()));
}

/// A part of the matrices at the tail, found in the record.
proof fn lemma_in_matrices(r: Record, k: nat, part: Seq<u8>)
    requires
        k + part.len() <= crate::mmcr::matrix_tail(r.matrices).len(),
        crate::mmcr::matrix_tail(r.matrices).subrange(k as int, (k + part.len()) as int) == part,
    ensures
        crate::mmcr::record_bytes(r).subrange(
            (crate::mmcr::tail_at(r) + k) as int,
            (crate::mmcr::tail_at(r) + k + part.len()) as int,
        ) == part,
{
    lemma_layout(r);
    let m = crate::mmcr::matrix_tail(r.matrices);
    assert(crate::mmcr::tail(r).subrange(k as int, (k + part.len()) as int) =~= m.subrange(
        k as int,
        (k + part.len()) as int,
    ));
    lemma_in_tail(r, crate::mmcr::tail_at(r) + k, part);
}

proof fn lemma_color_items_located(r: Record)
    ensures
        forall|i: int|
            0 <= i < crate::mmcr::color_items(r).len() ==> located(
                r,
                #[trigger] crate::mmcr::color_items(r)[i],
            ),
{
    lemma_layout(r);
    let m = crate::mmcr::matrix_tail(r.matrices);
    let first = crate::mmcr::srational_bytes(r.matrices.first.color@);
    assert(m.subrange(0, 72) =~= first);
    lemma_in_matrices(r, 0, first);
    if let Some(s) = r.matrices.second {
        let second = crate::mmcr::srational_bytes(s.color@);
        assert(m.subrange(72, 144) =~= second);
        lemma_in_matrices(r, 72, second);
    }
}

proof fn lemma_forward_items_located(r: Record)
    ensures
        forall|i: int|
            0 <= i < crate::mmcr::forward_items(r).len() ==> located(
                r,
                #[trigger] crate::mmcr::forward_items(r)[i],
            ),
{
    lemma_layout(r);
    let m = crate::mmcr::matrix_tail(r.matrices);
    let first = crate::mmcr::srational_bytes(r.matrices.first.forward@);
    if let Some(s) = r.matrices.second {
        let second = crate::mmcr::srational_bytes(s.forward@);
        assert(m.subrange(144, 216) =~= first);
        assert(m.subrange(216, 288) =~= second);
        lemma_in_matrices(r, 144, first);
        lemma_in_matrices(r, 216, second);
    } else {
        assert(m.subrange(72, 144) =~= first);
        lemma_in_matrices(r, 72, first);
    }
}

proof fn lemma_tone_items_located(r: Record)
    ensures
        forall|i: int|
            0 <= i < crate::mmcr::tone_items(r).len() ==> located(
                r,
                #[trigger] crate::mmcr::tone_items(r)[i],
            ),
{
    lemma_layout(r);
    if let Some(t) = r.tone {
        let k = crate::mmcr::matrix_tail(r.matrices).len() as int;
        let part = crate::mmcr::tone_tail(r);
        assert(crate::mmcr::tail(r).subrange(k, k + part.len()) =~= part);
        lemma_in_tail(r, crate::mmcr::tone_at(r), part);
    }
}

proof fn lemma_map_items_located(r: Record)
    ensures
        forall|i: int|
            0 <= i < crate::mmcr::map_items(r).len() ==> located(
                r,
                #[trigger] crate::mmcr::map_items(r)[i],
            ),
{
    lemma_layout(r);
    if let Some(m) = r.map {
        let k = crate::mmcr::map_at(r) - crate::mmcr::tail_at(r);
        let part = crate::mmcr::map_tail(r);
        let dims = crate::endian::be32_all(crate::tags::hue_sat_map_dims());
        let data = crate::endian::be32_all(m);
        assert(crate::mmcr::tail(r).subrange(k, k + part.len()) =~= part);
        assert(crate::mmcr::tail(r).subrange(k, k + 12) =~= part.subrange(0, 12));
        assert(part.subrange(0, 12) =~= dims);
        assert(crate::mmcr::tail(r).subrange(k + 12, k + 12 + data.len()) =~= part.subrange(
            12,
            (12 + data.len()) as int,
        ));
        assert(part.subrange(12, (12 + data.len()) as int) =~= data);
        lemma_in_tail(r, crate::mmcr::map_at(r), dims);
        lemma_in_tail(r, crate::mmcr::map_at(r) + 12, data);
    }
}

proof fn lemma_name_item_located(r: Record)
    ensures
        located(r, crate::mmcr::name_item(r)),
{
    lemma_layout(r);
    if crate::mmcr::stored_name(r).len() > 4 {
        let k = crate::mmcr::name_at(r) - crate::mmcr::tail_at(r);
        let part = crate::mmcr::name_tail(r);
        assert(crate::mmcr::tail(r).subrange(k, k + part.len()) =~= part);
        lemma_in_tail(r, crate::mmcr::name_at(r), part);
    }
}

proof fn lemma_closing_items_located(r: Record)
    ensures
        forall|i: int|
            0 <= i < crate::mmcr::closing_items(r).len() ==> located(
                r,
                #[trigger] crate::mmcr::closing_items(r)[i],
            ),
{
}

/// Every value is where its entry says. A value that does not stand in its
/// entry stands behind the directory and within the record, at an even place.
pub proof fn law_values_are_located(r: Record)
    ensures
        forall|i: int|
            0 <= i < crate::mmcr::items(r).len() ==> located(
                r,
                #[trigger] crate::mmcr::items(r)[i],
            ),
{
    lemma_color_items_located(r);
    lemma_name_item_located(r);
    lemma_map_items_located(r);
    lemma_tone_items_located(r);
    lemma_forward_items_located(r);
    lemma_closing_items_located(r);
    let a = crate::mmcr::color_items(r);
    let b = crate::mmcr::map_items(r);
    let c = crate::mmcr::tone_items(r);
    let d = crate::mmcr::forward_items(r);
    let e = crate::mmcr::closing_items(r);
    assert forall|i: int| 0 <= i < crate::mmcr::items(r).len() implies located(
        r,
        #[trigger] crate::mmcr::items(r)[i],
    ) by {
        let x = crate::mmcr::items(r)[i];
        if i < a.len() {
            assert(x == a[i]);
        } else if i == a.len() {
            assert(x == crate::mmcr::name_item(r));
        } else if i < a.len() + 1 + b.len() {
            assert(x == b[i - a.len() - 1]);
        } else if i < a.len() + 1 + b.len() + c.len() {
            assert(x == c[i - a.len() - 1 - b.len()]);
        } else if i < a.len() + 1 + b.len() + c.len() + d.len() {
            assert(x == d[i - a.len() - 1 - b.len() - c.len()]);
        } else {
            assert(x == e[i - a.len() - 1 - b.len() - c.len() - d.len()]);
        }
    }
}

/// A record begins with `MMCR`, its directory follows the eight-byte header, and
/// the directory has as many entries as it says, `Compression` first, and no
/// successor.
pub proof fn law_record_header(r: Record)
    ensures
        crate::mmcr::record_bytes(r).subrange(0, 4) == crate::mmcr::magic(),
        directory_at(crate::mmcr::record_bytes(r)) == 8,
        directory_count(crate::mmcr::record_bytes(r)) == crate::mmcr::items(r).len(),
        crate::mmcr::items(r).len() == crate::mmcr::entry_count(r),
        crate::mmcr::items(r)[0] == crate::mmcr::short_item(COMPRESSION, 1),
        crate::mmcr::record_bytes(r).subrange(
            crate::mmcr::tail_at(r) - 4,
            crate::mmcr::tail_at(r) as int,
        ) == crate::endian::be32(0),
        crate::mmcr::record_bytes(r).len() == crate::mmcr::record_len(r),
        crate::mmcr::tail_at(r) < crate::mmcr::record_len(r),
{
    lemma_layout(r);
    crate::endian::lemma_be32_round_trip(8);
    crate::endian::lemma_be16_round_trip(crate::mmcr::entry_count(r) as u16);
}

/// Where the bytes of an entry are.
proof fn lemma_entry(r: Record, i: int)
    requires
        0 <= i < crate::mmcr::items(r).len(),
    ensures
        crate::mmcr::record_bytes(r).subrange(10 + 12 * i, 22 + 12 * i)
            == crate::mmcr::entry_bytes(crate::mmcr::items(r)[i]),
        22 + 12 * i <= crate::mmcr::record_bytes(r).len(),
{
    lemma_layout(r);
    let whole = crate::mmcr::record_bytes(r);
    let dir = crate::mmcr::directory_bytes(crate::mmcr::items(r));
    assert(whole.subrange(10 + 12 * i, 22 + 12 * i) =~= whole.subrange(
        10,
        crate::mmcr::tail_at(r) - 4,
    ).subrange(12 * i, 12 * i + 12));
    assert(dir.subrange(12 * i, 12 * i + 12) =~= crate::mmcr::entry_bytes(
        crate::mmcr::items(r)[i],
    ));
}

/// A reader gets every tag back with the value that was written, in a record
/// whose offsets fit into 32 bits.
pub proof fn law_record_reads_back(r: Record)
    requires
        crate::mmcr::record_len(r) <= u32::MAX,
        tables_found(r),
    ensures
        read_fields(crate::mmcr::record_bytes(r)) == fields(r),
{
    law_record_header(r);
    let blob = crate::mmcr::record_bytes(r);
    assert forall|i: int| 0 <= i < crate::mmcr::items(r).len() implies #[trigger] read_field(
        blob,
        i,
    ) == field_of(crate::mmcr::items(r)[i]) by {
        lemma_field_reads_back(r, i);
    }
    assert(read_fields(blob) =~= fields(r));
}

proof fn lemma_field_reads_back(r: Record, i: int)
    requires
        crate::mmcr::record_len(r) <= u32::MAX,
        tables_found(r),
        0 <= i < crate::mmcr::items(r).len(),
    ensures
        read_field(crate::mmcr::record_bytes(r), i) == field_of(crate::mmcr::items(r)[i]),
{
    law_record_header(r);
    law_values_are_located(r);
    lemma_entry(r, i);
    assert(located(r, crate::mmcr::items(r)[i]));
    lemma_entry_reads_back(crate::mmcr::record_bytes(r), i, crate::mmcr::items(r)[i]);
}

/// An entry whose value is where it says reads back as the value.
proof fn lemma_entry_reads_back(blob: Seq<u8>, i: int, x: Item)
    requires
        blob.len() <= u32::MAX,
        directory_at(blob) == 8,
        0 <= i,
        22 + 12 * i <= blob.len(),
        blob.subrange(10 + 12 * i, 22 + 12 * i) == crate::mmcr::entry_bytes(x),
        x.payload.len() == x.count * kind_size(x.kind),
        match x.at {
            Some(at) => {
                &&& at + x.payload.len() <= blob.len()
                &&& blob.subrange(at as int, (at + x.payload.len()) as int) == x.payload
                &&& x.payload.len() == 0 || x.payload.len() > 4
            },
            None => x.payload.len() <= 4,
        },
    ensures
        read_field(blob, i) == field_of(x),
{
    let p = 10 + 12 * i;
    let slot = crate::mmcr::slot(x);
    lemma_entry_decodes(blob, p, x);
    assert(x.count <= x.payload.len()) by (nonlinear_arith)
        requires
            x.payload.len() == x.count * kind_size(x.kind),
            kind_size(x.kind) >= 1,
    ;
    let size = x.payload.len() as int;
    if size <= 4 {
        assert(blob.subrange(p + 8, p + 8 + size) =~= slot.take(size));
        assert(x.at is Some ==> size == 0);
        assert(slot.take(size) =~= x.payload);
    } else {
        crate::endian::lemma_be32_round_trip(crate::endian::low32(x.at->0));
    }
}

/// The fields of an entry, found in its bytes.
proof fn lemma_entry_decodes(blob: Seq<u8>, p: int, x: Item)
    requires
        0 <= p,
        p + 12 <= blob.len(),
        blob.subrange(p, p + 12) == crate::mmcr::entry_bytes(x),
    ensures
        crate::endian::from_be16(blob.subrange(p, p + 2)) == x.tag,
        crate::endian::from_be16(blob.subrange(p + 2, p + 4)) == x.kind,
        crate::endian::from_be32(blob.subrange(p + 4, p + 8)) == crate::endian::low32(x.count),
        blob.subrange(p + 8, p + 12) == crate::mmcr::slot(x),
{
    let entry = crate::mmcr::entry_bytes(x);
    assert(crate::mmcr::slot(x).len() == 4);
    assert(blob.subrange(p, p + 2) =~= entry.subrange(0, 2));
    assert(entry.subrange(0, 2) =~= crate::endian::be16(x.tag));
    assert(blob.subrange(p + 2, p + 4) =~= entry.subrange(2, 4));
    assert(entry.subrange(2, 4) =~= crate::endian::be16(x.kind));
    assert(blob.subrange(p + 4, p + 8) =~= entry.subrange(4, 8));
    assert(entry.subrange(4, 8) =~= crate::endian::be32(crate::endian::low32(x.count)));
    assert(blob.subrange(p + 8, p + 12) =~= entry.subrange(8, 12));
    assert(entry.subrange(8, 12) =~= crate::mmcr::slot(x));
    crate::endian::lemma_be16_round_trip(x.tag);
    crate::endian::lemma_be16_round_trip(x.kind);
    crate::endian::lemma_be32_round_trip(crate::endian::low32(x.count));
}

/// Whether entries are in strictly ascending order of their tags.
pub open spec fn ascending(xs: Seq<Item>) -> bool {
    forall|i: int, j: int| 0 <= i < j < xs.len() ==> xs[i].tag < xs[j].tag
}

/// Whether all tags are from `low` to `high`.
spec fn tags_within(xs: Seq<Item>, low: u16, high: u16) -> bool {
    forall|i: int| 0 <= i < xs.len() ==> low <= (#[trigger] xs[i]).tag <= high
}

proof fn lemma_ascending_concat(xs: Seq<Item>, ys: Seq<Item>, a: u16, b: u16, c: u16, d: u16)
    requires
        ascending(xs),
        ascending(ys),
        tags_within(xs, a, b),
        tags_within(ys, c, d),
        a <= b < c <= d,
    ensures
        ascending(xs + ys),
        tags_within(xs + ys, a, d),
{
}

/// The entries of a record are in strictly ascending order of their tags.
pub proof fn law_tags_ascend(r: Record)
    ensures
        ascending(crate::mmcr::items(r)),
{
    let a = crate::mmcr::color_items(r);
    let n = seq![crate::mmcr::name_item(r)];
    let m = crate::mmcr::map_items(r);
    let t = crate::mmcr::tone_items(r);
    let f = crate::mmcr::forward_items(r);
    let c = crate::mmcr::closing_items(r);
    assert(tags_within(a, 259, 50779) && ascending(a));
    assert(tags_within(n, 50936, 50936) && ascending(n));
    assert(tags_within(m, 50937, 50938) && ascending(m));
    assert(tags_within(t, 50940, 50940) && ascending(t));
    assert(tags_within(f, 50964, 50965) && ascending(f));
    assert(tags_within(c, 51107, 51110) && ascending(c));
    lemma_ascending_concat(n, m, 50936, 50936, 50937, 50938);
    lemma_ascending_concat(n + m, t, 50936, 50938, 50940, 50940);
    lemma_ascending_concat(a, n + m + t, 259, 50779, 50936, 50940);
    lemma_ascending_concat(a + (n + m + t), f, 259, 50940, 50964, 50965);
    lemma_ascending_concat(a + (n + m + t) + f, c, 259, 50965, 51107, 51110);
}

/// Whether some entry has this tag.
pub open spec fn has_tag(r: Record, tag: u16) -> bool {
    exists|i: int|
        0 <= i < crate::mmcr::items(r).len() && (#[trigger] crate::mmcr::items(r)[i]).tag == tag
}

/// A record carries the second matrices and both calibration illuminants where
/// the profile has two illuminants, and none of these where it has one.
pub proof fn law_illuminant_tags(r: Record)
    ensures
        has_tag(r, COLOR_MATRIX2) == (r.matrices.second is Some),
        has_tag(r, FORWARD_MATRIX2) == (r.matrices.second is Some),
        has_tag(r, CALIBRATION_ILLUMINANT1) == (r.matrices.second is Some),
        has_tag(r, CALIBRATION_ILLUMINANT2) == (r.matrices.second is Some),
{
    let xs = crate::mmcr::items(r);
    let a = crate::mmcr::color_items(r);
    let b = crate::mmcr::table_items(r);
    let f = crate::mmcr::forward_items(r);
    let c = crate::mmcr::closing_items(r);
    if r.matrices.second is Some {
        assert(xs[2] == a[2]);
        assert(xs[3] == a[3]);
        assert(xs[4] == a[4]);
        assert(xs[(a.len() + b.len() + 1) as int] == f[1]);
    } else {
        assert(tags_within(b, 50936, 50940));
        assert forall|i: int| 0 <= i < xs.len() implies {
            let tag = (#[trigger] xs[i]).tag;
            tag != COLOR_MATRIX2 && tag != FORWARD_MATRIX2 && tag != CALIBRATION_ILLUMINANT1
                && tag != CALIBRATION_ILLUMINANT2
        } by {
            if i < a.len() {
                assert(xs[i] == a[i]);
            } else if i < a.len() + b.len() {
                assert(xs[i] == b[i - a.len()]);
            } else if i < a.len() + b.len() + f.len() {
                assert(xs[i] == f[i - a.len() - b.len()]);
            } else {
                assert(xs[i] == c[i - a.len() - b.len() - f.len()]);
            }
        }
    }
}

} // verus!
