//! The `MMCR` record of one extra camera profile: a big-endian TIFF directory
//! whose magic reads `MMCR`, with its single directory right behind the
//! eight-byte header and the values that do not fit into it at the tail.
use crate::endian::{be32_of, low32_of, pad2, pattern32_of, push_be16, push_be32, push_be32_all, push_bytes};
use crate::matrices::ProfileMatrices;
use crate::rational::{numerator_of, read_binary32};
use crate::tags::{
    CALIBRATION_ILLUMINANT1, CALIBRATION_ILLUMINANT2, COLOR_MATRIX1, COLOR_MATRIX2, COMPRESSION,
    DEFAULT_BLACK_RENDER, FORWARD_MATRIX1, FORWARD_MATRIX2, HUE_DIVISIONS, HUE_SAT_MAP_ENCODING,
    MATRIX_DENOMINATOR, PROFILE_HUE_SAT_MAP_DATA1, PROFILE_HUE_SAT_MAP_DIMS,
    PROFILE_HUE_SAT_MAP_ENCODING, PROFILE_NAME, PROFILE_TONE_CURVE, SATURATION_DIVISIONS,
    TIFF_TYPE_ASCII, TIFF_TYPE_FLOAT, TIFF_TYPE_LONG, TIFF_TYPE_SHORT, TIFF_TYPE_SRATIONAL,
    VALUE_DIVISIONS,
};
use vstd::prelude::*;

verus! {

/// What one record is made from. The name is in bytes, without a terminator;
/// the tone curve and the hue/saturation map hold binary32 bit patterns.
#[verifier::ext_equal]
pub struct Record {
    pub name: Seq<u8>,
    pub matrices: ProfileMatrices,
    pub tone: Option<Seq<u32>>,
    pub map: Option<Seq<u32>>,
}

/// One directory entry with its whole value: `at` is the value's place in the
/// record, or `None` for a value that stands in the entry itself.
#[verifier::ext_equal]
pub struct Item {
    pub tag: u16,
    pub kind: u16,
    pub count: nat,
    pub payload: Seq<u8>,
    pub at: Option<nat>,
}

/// The 32-bit words of a matrix stored as signed rationals: numerator,
/// denominator, element by element.
pub open spec fn srational_words(values: Seq<u32>) -> Seq<u32> {
    Seq::new(
        values.len() * 2,
        |i: int|
            if i % 2 == 0 {
                crate::endian::pattern32(
                    crate::rational::numerator(
                        crate::rational::binary32(values[i / 2]),
                        MATRIX_DENOMINATOR,
                    ),
                )
            } else {
                MATRIX_DENOMINATOR as u32
            },
    )
}

/// The bytes of a matrix stored as signed rationals.
pub open spec fn srational_bytes(values: Seq<u32>) -> Seq<u8> {
    crate::endian::be32_all(srational_words(values))
}

/// The name as stored: with its terminating zero byte.
pub open spec fn stored_name(r: Record) -> Seq<u8> {
    r.name.push(0)
}

/// Number of directory entries.
pub open spec fn entry_count(r: Record) -> nat {
    5 + (if r.matrices.second is Some {
        4nat
    } else {
        0
    }) + (if r.map is Some {
        3nat
    } else {
        0
    }) + (if r.tone is Some {
        1nat
    } else {
        0
    })
}

/// Where the directory ends and the values at the tail begin.
pub open spec fn tail_at(r: Record) -> nat {
    14 + 12 * entry_count(r)
}

/// Where the first forward matrix is.
pub open spec fn forward_at(r: Record) -> nat {
    tail_at(r) + (if r.matrices.second is Some {
        144nat
    } else {
        72
    })
}

/// Where the tone curve is.
pub open spec fn tone_at(r: Record) -> nat {
    tail_at(r) + (if r.matrices.second is Some {
        288nat
    } else {
        144
    })
}

/// Where the dimensions of the hue/saturation map are.
pub open spec fn map_at(r: Record) -> nat {
    tone_at(r) + (match r.tone {
        Some(t) => t.len() * 4,
        None => 0,
    })
}

/// Where the name is, unless it stands in its entry.
pub open spec fn name_at(r: Record) -> nat {
    map_at(r) + (match r.map {
        Some(m) => 12 + m.len() * 4,
        None => 0,
    })
}

/// The matrices at the tail of the record, in the order in which they stand.
pub open spec fn matrix_tail(m: ProfileMatrices) -> Seq<u8> {
    match m.second {
        Some(s) => srational_bytes(m.first.color@) + srational_bytes(s.color@) + srational_bytes(
            m.first.forward@,
        ) + srational_bytes(s.forward@),
        None => srational_bytes(m.first.color@) + srational_bytes(m.first.forward@),
    }
}

/// The tone curve at the tail of the record.
pub open spec fn tone_tail(r: Record) -> Seq<u8> {
    match r.tone {
        Some(t) => crate::endian::be32_all(t),
        None => seq![],
    }
}

/// The hue/saturation map at the tail of the record: dimensions, then data.
pub open spec fn map_tail(r: Record) -> Seq<u8> {
    match r.map {
        Some(m) => crate::endian::be32_all(crate::tags::hue_sat_map_dims())
            + crate::endian::be32_all(m),
        None => seq![],
    }
}

/// The name at the tail of the record, unless it stands in its entry.
pub open spec fn name_tail(r: Record) -> Seq<u8> {
    if stored_name(r).len() > 4 {
        stored_name(r)
    } else {
        seq![]
    }
}

/// The values at the tail of the record, in the order in which they stand.
pub open spec fn tail(r: Record) -> Seq<u8> {
    matrix_tail(r.matrices) + tone_tail(r) + map_tail(r) + name_tail(r)
}

pub open spec fn short_item(tag: u16, value: u16) -> Item {
    Item {
        tag,
        kind: TIFF_TYPE_SHORT,
        count: 1,
        payload: crate::endian::be16(value),
        at: None,
    }
}

pub open spec fn long_item(tag: u16, value: u32) -> Item {
    Item { tag, kind: TIFF_TYPE_LONG, count: 1, payload: crate::endian::be32(value), at: None }
}

pub open spec fn matrix_item(tag: u16, values: Seq<u32>, at: nat) -> Item {
    Item {
        tag,
        kind: TIFF_TYPE_SRATIONAL,
        count: values.len(),
        payload: srational_bytes(values),
        at: Some(at),
    }
}

pub open spec fn words_item(tag: u16, kind: u16, words: Seq<u32>, at: nat) -> Item {
    Item {
        tag,
        kind,
        count: words.len(),
        payload: crate::endian::be32_all(words),
        at: Some(at),
    }
}

pub open spec fn name_item(r: Record) -> Item {
    Item {
        tag: PROFILE_NAME,
        kind: TIFF_TYPE_ASCII,
        count: stored_name(r).len(),
        payload: stored_name(r),
        at: if stored_name(r).len() > 4 {
            Some(name_at(r))
        } else {
            None
        },
    }
}

/// `Compression` and `ColorMatrix1`; for two illuminants also `ColorMatrix2` and
/// the two calibration illuminants.
pub open spec fn color_items(r: Record) -> Seq<Item> {
    let compression = short_item(COMPRESSION, 1);
    let first = matrix_item(COLOR_MATRIX1, r.matrices.first.color@, tail_at(r));
    match r.matrices.second {
        Some(s) => seq![
            compression,
            first,
            matrix_item(COLOR_MATRIX2, s.color@, tail_at(r) + 72),
            short_item(CALIBRATION_ILLUMINANT1, r.matrices.first.illuminant),
            short_item(CALIBRATION_ILLUMINANT2, s.illuminant),
        ],
        None => seq![compression, first],
    }
}

/// `ProfileHueSatMapDims` and `ProfileHueSatMapData1`, where there is a map.
pub open spec fn map_items(r: Record) -> Seq<Item> {
    match r.map {
        Some(m) => seq![
            words_item(
                PROFILE_HUE_SAT_MAP_DIMS,
                TIFF_TYPE_LONG,
                crate::tags::hue_sat_map_dims(),
                map_at(r),
            ),
            words_item(PROFILE_HUE_SAT_MAP_DATA1, TIFF_TYPE_FLOAT, m, map_at(r) + 12),
        ],
        None => seq![],
    }
}

/// `ProfileToneCurve`, where there is a curve.
pub open spec fn tone_items(r: Record) -> Seq<Item> {
    match r.tone {
        Some(t) => seq![words_item(PROFILE_TONE_CURVE, TIFF_TYPE_FLOAT, t, tone_at(r))],
        None => seq![],
    }
}

/// `ProfileName` and the tables.
pub open spec fn table_items(r: Record) -> Seq<Item> {
    seq![name_item(r)] + map_items(r) + tone_items(r)
}

/// `ForwardMatrix1`; for two illuminants also `ForwardMatrix2`.
pub open spec fn forward_items(r: Record) -> Seq<Item> {
    let first = matrix_item(FORWARD_MATRIX1, r.matrices.first.forward@, forward_at(r));
    match r.matrices.second {
        Some(s) => seq![first, matrix_item(FORWARD_MATRIX2, s.forward@, tail_at(r) + 216)],
        None => seq![first],
    }
}

/// `ProfileHueSatMapEncoding`, where there is a map, and `DefaultBlackRender`.
pub open spec fn closing_items(r: Record) -> Seq<Item> {
    let render = long_item(DEFAULT_BLACK_RENDER, 1);
    match r.map {
        Some(m) => seq![long_item(PROFILE_HUE_SAT_MAP_ENCODING, HUE_SAT_MAP_ENCODING), render],
        None => seq![render],
    }
}

/// The directory, entry by entry.
pub open spec fn items(r: Record) -> Seq<Item> {
    color_items(r) + table_items(r) + forward_items(r) + closing_items(r)
}

/// The four-byte value slot of an entry: the value's place, or the value itself
/// followed by zeros.
pub open spec fn slot(x: Item) -> Seq<u8> {
    match x.at {
        Some(at) => crate::endian::be32(crate::endian::low32(at)),
        None => Seq::new(
            4,
            |i: int|
                if i < x.payload.len() {
                    x.payload[i]
                } else {
                    0
                },
        ),
    }
}

/// The twelve bytes of an entry.
pub open spec fn entry_bytes(x: Item) -> Seq<u8> {
    crate::endian::be16(x.tag) + crate::endian::be16(x.kind) + crate::endian::be32(
        crate::endian::low32(x.count),
    ) + slot(x)
}

/// The bytes of consecutive entries.
pub open spec fn directory_bytes(xs: Seq<Item>) -> Seq<u8> {
    Seq::new(xs.len() * 12, |i: int| entry_bytes(xs[i / 12])[i % 12])
}

/// The four bytes `MMCR`.
pub open spec fn magic() -> Seq<u8> {
    seq![0x4d, 0x4d, 0x43, 0x52]
}

/// A whole record: magic, place of the directory, entry count, entries, the
/// place of the next directory (none), and the values at the tail.
#[verifier::opaque]
pub open spec fn record_bytes(r: Record) -> Seq<u8> {
    magic() + crate::endian::be32(8) + crate::endian::be16(entry_count(r) as u16)
        + directory_bytes(items(r)) + crate::endian::be32(0) + tail(r)
}

/// Length of a whole record.
pub open spec fn record_len(r: Record) -> nat {
    name_at(r) + (if stored_name(r).len() > 4 {
        stored_name(r).len()
    } else {
        0
    })
}

/// The values of a borrowed table.
pub open spec fn table_view(table: Option<&[u32]>) -> Option<Seq<u32>> {
    match table {
        Some(t) => Some(t@),
        None => None,
    }
}

/// What a profile with this name, these matrices and these tables is stored as.
pub open spec fn record_of(
    name: Seq<char>,
    matrices: ProfileMatrices,
    tone: Option<&[u32]>,
    map: Option<&[u32]>,
) -> Record {
    Record {
        name: vstd::utf8::encode_utf8(name),
        matrices,
        tone: table_view(tone),
        map: table_view(map),
    }
}

/// Whether a name has no zero character, so that a terminated string can hold
/// it.
pub open spec fn terminable(name: Seq<char>) -> bool {
    !name.contains('\0')
}

/// Length of a borrowed table.
pub open spec fn table_len(table: Option<&[u32]>) -> nat {
    match table {
        Some(t) => t@.len(),
        None => 0,
    }
}

/// Whether a record has room in memory. The second bound implies the first, since a
/// character takes at most four bytes; it speaks of the lengths alone.
pub open spec fn has_room(
    name: Seq<char>,
    matrices: ProfileMatrices,
    tone: Option<&[u32]>,
    map: Option<&[u32]>,
) -> bool {
    ||| record_len(record_of(name, matrices, tone, map)) <= usize::MAX
    ||| 512 + 4 * (name.len() + table_len(tone) + table_len(map)) <= usize::MAX
}

/// The room that a record takes, by the lengths of what it is made from.
proof fn lemma_record_len(
    name: Seq<char>,
    matrices: ProfileMatrices,
    tone: Option<&[u32]>,
    map: Option<&[u32]>,
)
    ensures
        record_len(record_of(name, matrices, tone, map)) <= 512 + 4 * (name.len() + table_len(tone)
            + table_len(map)),
{
    crate::text::lemma_utf8_length(name);
}

/// Appends a matrix as nine signed rationals.
fn push_srational9(out: &mut Vec<u8>, values: &[u32; 9])
    ensures
        final(out)@ == old(out)@ + srational_bytes(values@),
{
    let mut i: usize = 0;
    assert(out@ =~= old(out)@ + crate::endian::be32_all(srational_words(values@).take(0)));
    while i < 9
        invariant
            i <= 9,
            out@ == old(out)@ + crate::endian::be32_all(
                srational_words(values@).take(2 * i as int),
            ),
        decreases 9 - i,
    {
        let numerator = numerator_of(read_binary32(values[i]), MATRIX_DENOMINATOR);
        push_be32(out, pattern32_of(numerator));
        push_be32(out, MATRIX_DENOMINATOR as u32);
        proof {
            let words = srational_words(values@);
            let k = 2 * i as int;
            assert(words[k] == crate::endian::pattern32(numerator));
            crate::endian::lemma_be32_all_push(words.take(k), words[k]);
            assert(words.take(k).push(words[k]) =~= words.take(k + 1));
            crate::endian::lemma_be32_all_push(words.take(k + 1), words[k + 1]);
            assert(words.take(k + 1).push(words[k + 1]) =~= words.take(k + 2));
            assert(out@ =~= old(out)@ + crate::endian::be32_all(words.take(k + 2)));
        }
        i = i + 1;
    }
    assert(srational_words(values@).take(18) =~= srational_words(values@));
}

/// The value slot of the name: the name itself where it fits, else its place.
fn name_inline(name: &str, place: u32) -> (r: [u8; 4])
    ensures
        vstd::utf8::encode_utf8(name@).len() < 4 ==> r@ == Seq::new(
            4,
            |i: int|
                if i < vstd::utf8::encode_utf8(name@).len() {
                    vstd::utf8::encode_utf8(name@)[i]
                } else {
                    0u8
                },
        ),
        vstd::utf8::encode_utf8(name@).len() >= 4 ==> r@ == crate::endian::be32(place),
{
    let bytes = name.as_bytes();
    if bytes.len() >= 4 {
        return be32_of(place);
    }
    let mut r: [u8; 4] = [0, 0, 0, 0];
    let mut i: usize = 0;
    while i < bytes.len()
        invariant
            i <= bytes@.len() < 4,
            forall|k: int| 0 <= k < i ==> r@[k] == bytes@[k],
            forall|k: int| i <= k < 4 ==> r@[k] == 0,
        decreases bytes@.len() - i,
    {
        r[i] = bytes[i];
        i = i + 1;
    }
    assert(r@ =~= Seq::new(
        4,
        |i: int|
            if i < bytes@.len() {
                bytes@[i]
            } else {
                0u8
            },
    ));
    r
}

/// Appends one directory entry.
fn push_entry(out: &mut Vec<u8>, tag: u16, kind: u16, count: u32, slot: [u8; 4])
    ensures
        final(out)@ == old(out)@ + (crate::endian::be16(tag) + crate::endian::be16(kind)
            + crate::endian::be32(count) + slot@),
{
    push_be16(out, tag);
    push_be16(out, kind);
    push_be32(out, count);
    push_bytes(out, slot.as_slice());
    assert(out@ =~= old(out)@ + (crate::endian::be16(tag) + crate::endian::be16(kind)
        + crate::endian::be32(count) + slot@));
}

/// Appends an entry that holds one 16-bit value.
fn push_short(out: &mut Vec<u8>, tag: u16, value: u16)
    ensures
        final(out)@ == old(out)@ + entry_bytes(short_item(tag, value)),
{
    // The value fills the first half of the slot; the rest stays zero.
    let inline: [u8; 4] = [(value / 256) as u8, (value % 256) as u8, 0, 0];
    assert(inline@ =~= slot(short_item(tag, value)));
    push_entry(out, tag, TIFF_TYPE_SHORT, 1, inline);
}

/// Appends an entry that holds one 32-bit value.
fn push_long(out: &mut Vec<u8>, tag: u16, value: u32)
    ensures
        final(out)@ == old(out)@ + entry_bytes(long_item(tag, value)),
{
    let inline = be32_of(value);
    assert(inline@ =~= slot(long_item(tag, value)));
    push_entry(out, tag, TIFF_TYPE_LONG, 1, inline);
}

/// Appends an entry that gives the place of a value.
fn push_placed(out: &mut Vec<u8>, tag: u16, kind: u16, count: usize, place: u32)
    ensures
        forall|x: Item|
            x.tag == tag && x.kind == kind && x.count == count && x.at is Some
                && crate::endian::low32(x.at->0) == place ==> final(out)@ == old(out)@
                + #[trigger] entry_bytes(x),
{
    push_entry(out, tag, kind, low32_of(count), be32_of(place));
}

/// Appends the entry of the name, which stands in it where it fits.
fn push_name(out: &mut Vec<u8>, name: &str, place: u32)
    requires
        vstd::utf8::encode_utf8(name@).len() < usize::MAX,
    ensures
        forall|r: Record|
            r.name == vstd::utf8::encode_utf8(name@) && (stored_name(r).len() > 4 ==> place
                == crate::endian::low32(name_at(r))) ==> final(out)@ == old(out)@
                + #[trigger] entry_bytes(name_item(r)),
{
    let count: usize = name.as_bytes().len() + 1;
    let inline = name_inline(name, place);
    push_entry(out, PROFILE_NAME, TIFF_TYPE_ASCII, low32_of(count), inline);
    assert forall|r: Record|
        r.name == vstd::utf8::encode_utf8(name@) && (stored_name(r).len() > 4 ==> place
            == crate::endian::low32(name_at(r))) implies out@ == old(out)@
        + #[trigger] entry_bytes(name_item(r)) by {
        assert(inline@ =~= slot(name_item(r)));
    }
}

/// Places of the values at the tail of a record, as 32-bit offsets.
struct Places {
    color1: u32,
    color2: u32,
    forward1: u32,
    forward2: u32,
    tone: u32,
    dims: u32,
    data: u32,
    name: u32,
}

/// The places that [`items`] gives to the values at the tail.
spec fn places_agree(p: Places, r: Record) -> bool {
    &&& p.color1 == crate::endian::low32(tail_at(r))
    &&& r.matrices.second is Some ==> p.color2 == crate::endian::low32(tail_at(r) + 72)
    &&& p.forward1 == crate::endian::low32(forward_at(r))
    &&& r.matrices.second is Some ==> p.forward2 == crate::endian::low32(tail_at(r) + 216)
    &&& r.tone is Some ==> p.tone == crate::endian::low32(tone_at(r))
    &&& r.map is Some ==> p.dims == crate::endian::low32(map_at(r))
    &&& r.map is Some ==> p.data == crate::endian::low32(map_at(r) + 12)
    &&& stored_name(r).len() > 4 ==> p.name == crate::endian::low32(name_at(r))
}

/// Appends the matrices that stand at the tail.
fn push_matrix_tail(
    ext: &mut Vec<u8>,
    matrices: &ProfileMatrices,
    start: usize,
) -> (at: (u32, u32, u32, u32))
    requires
        old(ext)@.len() == 0,
        start + 288 <= usize::MAX,
    ensures
        final(ext)@ == matrix_tail(*matrices),
        at.0 == crate::endian::low32(start as nat),
        matrices.second is Some ==> at.1 == crate::endian::low32((start + 72) as nat),
        matrices.second is Some ==> at.2 == crate::endian::low32((start + 144) as nat),
        matrices.second is None ==> at.2 == crate::endian::low32((start + 72) as nat),
        matrices.second is Some ==> at.3 == crate::endian::low32((start + 216) as nat),
{
    let color1 = low32_of(start + ext.len());
    push_srational9(ext, &matrices.first.color);
    assert(ext@ =~= srational_bytes(matrices.first.color@));
    let mut color2: u32 = 0;
    if let Some(second) = matrices.second {
        pad2(ext);
        color2 = low32_of(start + ext.len());
        push_srational9(ext, &second.color);
    }
    pad2(ext);
    let forward1 = low32_of(start + ext.len());
    push_srational9(ext, &matrices.first.forward);
    let mut forward2: u32 = 0;
    if let Some(second) = matrices.second {
        pad2(ext);
        forward2 = low32_of(start + ext.len());
        push_srational9(ext, &second.forward);
    }
    (color1, color2, forward1, forward2)
}

/// Appends the tone curve, and gives its place.
fn push_tone_tail(
    ext: &mut Vec<u8>,
    tone_curve: Option<&[u32]>,
    start: usize,
    Ghost(r): Ghost<Record>,
) -> (at: u32)
    requires
        r.tone == table_view(tone_curve),
        start + old(ext)@.len() <= usize::MAX,
    ensures
        final(ext)@ == old(ext)@ + tone_tail(r),
        r.tone is Some ==> at == crate::endian::low32((start + old(ext)@.len()) as nat),
{
    if let Some(curve) = tone_curve {
        let at = low32_of(start + ext.len());
        push_be32_all(ext, curve);
        at
    } else {
        assert(ext@ =~= old(ext)@ + tone_tail(r));
        0
    }
}

/// Appends the hue/saturation map, and gives the places of its dimensions and data.
fn push_map_tail(
    ext: &mut Vec<u8>,
    hue_sat_map: Option<&[u32]>,
    start: usize,
    Ghost(r): Ghost<Record>,
) -> (at: (u32, u32))
    requires
        r.map == table_view(hue_sat_map),
        start + old(ext)@.len() + map_tail(r).len() <= usize::MAX,
    ensures
        final(ext)@ == old(ext)@ + map_tail(r),
        r.map is Some ==> at.0 == crate::endian::low32((start + old(ext)@.len()) as nat),
        r.map is Some ==> at.1 == crate::endian::low32((start + old(ext)@.len() + 12) as nat),
{
    if let Some(map) = hue_sat_map {
        let dims = low32_of(start + ext.len());
        let divisions: [u32; 3] = [HUE_DIVISIONS, SATURATION_DIVISIONS, VALUE_DIVISIONS];
        assert(divisions@ =~= crate::tags::hue_sat_map_dims());
        push_be32_all(ext, divisions.as_slice());
        let data = low32_of(start + ext.len());
        push_be32_all(ext, map);
        assert(ext@ =~= old(ext)@ + map_tail(r));
        (dims, data)
    } else {
        assert(ext@ =~= old(ext)@ + map_tail(r));
        (0, 0)
    }
}

/// Appends the name, unless it stands in its entry, and gives its place.
fn push_name_tail(
    ext: &mut Vec<u8>,
    name: &str,
    start: usize,
    Ghost(r): Ghost<Record>,
) -> (at: u32)
    requires
        r.name == vstd::utf8::encode_utf8(name@),
        old(ext)@.len() % 2 == 0,
        start + old(ext)@.len() <= usize::MAX,
    ensures
        final(ext)@ == old(ext)@ + name_tail(r),
        stored_name(r).len() > 4 ==> at == crate::endian::low32(
            (start + old(ext)@.len()) as nat,
        ),
{
    let name = name.as_bytes();
    if name.len() >= 4 {
        pad2(ext);
        let at = low32_of(start + ext.len());
        push_bytes(ext, name);
        ext.push(0);
        assert(ext@ =~= old(ext)@ + name_tail(r));
        at
    } else {
        assert(ext@ =~= old(ext)@ + name_tail(r));
        0
    }
}

/// Lays out the values at the tail, which begins at `start`.
fn lay_out_tail(
    name: &str,
    matrices: &ProfileMatrices,
    tone_curve: Option<&[u32]>,
    hue_sat_map: Option<&[u32]>,
    start: usize,
) -> (laid: (Vec<u8>, Places))
    requires
        start == tail_at(record_of(name@, *matrices, tone_curve, hue_sat_map)),
        record_len(record_of(name@, *matrices, tone_curve, hue_sat_map)) <= usize::MAX,
    ensures
        laid.0@ == tail(record_of(name@, *matrices, tone_curve, hue_sat_map)),
        places_agree(laid.1, record_of(name@, *matrices, tone_curve, hue_sat_map)),
{
    let ghost r = record_of(name@, *matrices, tone_curve, hue_sat_map);
    let mut ext: Vec<u8> = Vec::new();
    let (color1, color2, forward1, forward2) = push_matrix_tail(&mut ext, matrices, start);
    assert(start + ext@.len() == tone_at(r));
    let tone = push_tone_tail(&mut ext, tone_curve, start, Ghost(r));
    assert(start + ext@.len() == map_at(r));
    let (dims, data) = push_map_tail(&mut ext, hue_sat_map, start, Ghost(r));
    assert(start + ext@.len() == name_at(r));
    let name = push_name_tail(&mut ext, name, start, Ghost(r));
    (ext, Places { color1, color2, forward1, forward2, tone, dims, data, name })
}

/// Appends `Compression`, the color matrices and the calibration illuminants.
fn push_color_entries(
    out: &mut Vec<u8>,
    matrices: &ProfileMatrices,
    places: &Places,
    Ghost(r): Ghost<Record>,
)
    requires
        r.matrices == *matrices,
        places_agree(*places, r),
    ensures
        final(out)@ == old(out)@ + directory_bytes(color_items(r)),
{
    let ghost head = out@;
    let ghost xs = color_items(r);
    push_short(out, COMPRESSION, 1);
    push_placed(out, COLOR_MATRIX1, TIFF_TYPE_SRATIONAL, 9, places.color1);
    assert(out@ == head + entry_bytes(xs[0]) + entry_bytes(xs[1]));
    if let Some(second) = matrices.second {
        push_placed(out, COLOR_MATRIX2, TIFF_TYPE_SRATIONAL, 9, places.color2);
        push_short(out, CALIBRATION_ILLUMINANT1, matrices.first.illuminant);
        push_short(out, CALIBRATION_ILLUMINANT2, second.illuminant);
        assert(out@ == head + entry_bytes(xs[0]) + entry_bytes(xs[1]) + entry_bytes(xs[2])
            + entry_bytes(xs[3]) + entry_bytes(xs[4]));
    }
    assert(out@ =~= head + directory_bytes(xs));
}

/// Appends the name, the hue/saturation map and the tone curve.
fn push_table_entries(
    out: &mut Vec<u8>,
    name: &str,
    tone_curve: Option<&[u32]>,
    hue_sat_map: Option<&[u32]>,
    places: &Places,
    Ghost(r): Ghost<Record>,
)
    requires
        r.name == vstd::utf8::encode_utf8(name@),
        r.name.len() < usize::MAX,
        r.tone == table_view(tone_curve),
        r.map == table_view(hue_sat_map),
        places_agree(*places, r),
    ensures
        final(out)@ == old(out)@ + directory_bytes(table_items(r)),
{
    let ghost head = out@;
    let ghost xs = seq![name_item(r)];
    push_name(out, name, places.name);
    assert(directory_bytes(xs) =~= entry_bytes(xs[0]));
    let ghost ys = map_items(r);
    if let Some(map) = hue_sat_map {
        push_placed(out, PROFILE_HUE_SAT_MAP_DIMS, TIFF_TYPE_LONG, 3, places.dims);
        push_placed(
            out,
            PROFILE_HUE_SAT_MAP_DATA1,
            TIFF_TYPE_FLOAT,
            map.len(),
            places.data,
        );
        assert(out@ == head + directory_bytes(xs) + entry_bytes(ys[0]) + entry_bytes(ys[1]));
    }
    assert(out@ =~= head + directory_bytes(xs + ys));
    let ghost zs = tone_items(r);
    if let Some(curve) = tone_curve {
        push_placed(out, PROFILE_TONE_CURVE, TIFF_TYPE_FLOAT, curve.len(), places.tone);
        assert(out@ == head + directory_bytes(xs + ys) + entry_bytes(zs[0]));
    }
    assert(out@ =~= head + directory_bytes(xs + ys + zs));
}

/// Appends the forward matrices.
fn push_forward_entries(
    out: &mut Vec<u8>,
    matrices: &ProfileMatrices,
    places: &Places,
    Ghost(r): Ghost<Record>,
)
    requires
        r.matrices == *matrices,
        places_agree(*places, r),
    ensures
        final(out)@ == old(out)@ + directory_bytes(forward_items(r)),
{
    let ghost head = out@;
    let ghost xs = forward_items(r);
    push_placed(out, FORWARD_MATRIX1, TIFF_TYPE_SRATIONAL, 9, places.forward1);
    assert(out@ == head + entry_bytes(xs[0]));
    if matrices.second.is_some() {
        push_placed(out, FORWARD_MATRIX2, TIFF_TYPE_SRATIONAL, 9, places.forward2);
        assert(out@ == head + entry_bytes(xs[0]) + entry_bytes(xs[1]));
    }
    assert(out@ =~= head + directory_bytes(xs));
}

/// Appends the map's encoding and the black render mode.
fn push_closing_entries(out: &mut Vec<u8>, mapped: bool, Ghost(r): Ghost<Record>)
    requires
        mapped == (r.map is Some),
    ensures
        final(out)@ == old(out)@ + directory_bytes(closing_items(r)),
{
    let ghost head = out@;
    let ghost xs = closing_items(r);
    if mapped {
        push_long(out, PROFILE_HUE_SAT_MAP_ENCODING, HUE_SAT_MAP_ENCODING);
    }
    push_long(out, DEFAULT_BLACK_RENDER, 1);
    assert(out@ =~= head + directory_bytes(xs));
}

/// The stages of the directory make up the directory.
proof fn lemma_directory_stages(head: Seq<u8>, r: Record)
    ensures
        head + directory_bytes(color_items(r)) + directory_bytes(table_items(r))
            + directory_bytes(forward_items(r)) + directory_bytes(closing_items(r)) == head
            + directory_bytes(items(r)),
{
    let a = color_items(r);
    let b = a + table_items(r);
    let c = b + forward_items(r);
    lemma_directory_stage(head, a, table_items(r));
    lemma_directory_stage(head, b, forward_items(r));
    lemma_directory_stage(head, c, closing_items(r));
}

proof fn lemma_directory_stage(head: Seq<u8>, xs: Seq<Item>, ys: Seq<Item>)
    ensures
        head + directory_bytes(xs) + directory_bytes(ys) == head + directory_bytes(xs + ys),
{
    assert(head + directory_bytes(xs) + directory_bytes(ys) =~= head + directory_bytes(xs + ys));
}

/// Builds the record of one extra camera profile.
///
/// The directory follows the eight-byte header, the values that do not fit into
/// it stand behind it, and the entries are in the order of their tags:
/// `Compression`, `ColorMatrix1`, for two illuminants `ColorMatrix2` and both
/// `CalibrationIlluminant` tags, `ProfileName`, the hue/saturation map's
/// dimensions and data, `ProfileToneCurve`, `ForwardMatrix1`, for two
/// illuminants `ForwardMatrix2`, the map's encoding, `DefaultBlackRender`.
///
/// Offsets and counts hold the low 32 bits of what they stand for.
pub fn build_mmcr_profile(
    name: &str,
    matrices: &ProfileMatrices,
    tone_curve: Option<&[u32]>,
    hue_sat_map: Option<&[u32]>,
) -> (blob: Vec<u8>)
    requires
        terminable(name@),
        has_room(name@, *matrices, tone_curve, hue_sat_map),
    ensures
        blob@ == record_bytes(record_of(name@, *matrices, tone_curve, hue_sat_map)),
{
    let ghost r = record_of(name@, *matrices, tone_curve, hue_sat_map);
    proof {
        lemma_record_len(name@, *matrices, tone_curve, hue_sat_map);
    }
    let mut count: u16 = 5;
    if matrices.second.is_some() {
        count = count + 4;
    }
    if hue_sat_map.is_some() {
        count = count + 3;
    }
    if tone_curve.is_some() {
        count = count + 1;
    }
    let start: usize = 14 + 12 * (count as usize);
    let (values, places) = lay_out_tail(name, matrices, tone_curve, hue_sat_map, start);

    let mut out: Vec<u8> = Vec::new();
    let mark: [u8; 4] = [0x4d, 0x4d, 0x43, 0x52];
    assert(mark@ =~= magic());
    push_bytes(&mut out, mark.as_slice());
    assert(out@ =~= magic());
    push_be32(&mut out, 8);
    push_be16(&mut out, count);
    let ghost head = out@;
    push_color_entries(&mut out, matrices, &places, Ghost(r));
    push_table_entries(&mut out, name, tone_curve, hue_sat_map, &places, Ghost(r));
    push_forward_entries(&mut out, matrices, &places, Ghost(r));
    push_closing_entries(&mut out, hue_sat_map.is_some(), Ghost(r));
    proof {
        lemma_directory_stages(head, r);
    }
    push_be32(&mut out, 0);
    push_bytes(&mut out, values.as_slice());
    reveal(record_bytes);
    out
}

} // verus!
