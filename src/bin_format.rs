//! Fixed-size records of a BIN container, decoded field by field from bytes.
//!
//! Two layouts of the same records exist. Both start the header with a
//! 16-byte signature followed by the 16-bit format version; they differ in
//! record sizes, field placement and in how a version mismatch is treated.
//! All multi-byte fields are little-endian and are copied out by offset, so
//! no alignment of the underlying buffer is ever assumed.
use vstd::arithmetic::power2::{lemma2_to64, lemma2_to64_rest, lemma_pow2_adds, lemma_pow2_strictly_increases, pow2};
use vstd::prelude::*;
use vstd::slice::slice_subrange;
use vstd::utf8::{decode_utf8, encode_utf8, encode_utf8_decode_utf8, encode_utf8_valid_utf8, is_ascii_chars, is_ascii_chars_encode_utf8, valid_utf8};

use crate::error::{Bin2HexError, FormatError};

verus! {

/// Text of the header's signature field (without its terminating NUL).
pub open spec fn bin_signature() -> Seq<u8> {
    seq![0x58u8, 0x43, 0x50, 0x4C, 0x49, 0x54, 0x45, 0x5F, 0x5F, 0x42, 0x49, 0x4E, 0x41, 0x52, 0x59]
}

/// Number of bytes of the signature field.
pub const SIGNATURE_FIELD_SIZE: usize = 16;

/// Version accepted by the 256-byte layout; any other is rejected.
pub const EXTENDED_VERSION: u16 = 0x0203;

/// Version expected by the compact layout; any other only earns a warning.
/// The value is this library's assumption: the format documents only the
/// 256-byte layout's version.
pub const COMPACT_VERSION: u16 = 0x0100;

/// Little-endian 16-bit value at `at`.
pub open spec fn u16_le(d: Seq<u8>, at: int) -> u16 {
    (d[at] + 256 * d[at + 1]) as u16
}

/// Little-endian 32-bit value at `at`.
pub open spec fn u32_le(d: Seq<u8>, at: int) -> u32 {
    (d[at] + 256 * d[at + 1] + 65536 * d[at + 2] + 16777216 * d[at + 3]) as u32
}

/// Little-endian value of the bytes `b`.
pub open spec fn le_value(b: Seq<u8>) -> int
    decreases b.len(),
{
    if b.len() == 0 {
        0
    } else {
        b[0] + 256 * le_value(b.drop_first())
    }
}

/// The 16 bytes of the signature field at `at`, as one little-endian value.
pub open spec fn signature_field(d: Seq<u8>, at: int) -> u128 {
    le_value(d.subrange(at, at + 16)) as u128
}

/// Length of the C string at the start of `raw`: the bytes before the first NUL.
pub open spec fn nul_len(raw: Seq<u8>) -> nat
    decreases raw.len(),
{
    if raw.len() == 0 || raw[0] == 0 {
        0
    } else {
        1 + nul_len(raw.drop_first())
    }
}

/// The bytes of a NUL-terminated (or NUL-padded) fixed-width text field.
pub open spec fn c_bytes(raw: Seq<u8>) -> Seq<u8> {
    raw.take(nul_len(raw) as int)
}

/// What `String::from_utf8_lossy` makes of a byte sequence.
pub uninterp spec fn lossy_text_of(b: Seq<u8>) -> Seq<char>;

/// The text of the field `d[from..to]`.
pub open spec fn field_text(d: Seq<u8>, from: int, to: int) -> Seq<char> {
    lossy_text_of(c_bytes(d.subrange(from, to)))
}

/// `text` is what the field `d[from..to]` reads: its bytes up to the first
/// NUL, decoded; where those are valid UTF-8, decoded unchanged.
pub open spec fn is_field_text(text: Seq<char>, d: Seq<u8>, from: int, to: int) -> bool {
    &&& text == field_text(d, from, to)
    &&& valid_utf8(c_bytes(d.subrange(from, to))) ==> text == decode_utf8(c_bytes(d.subrange(from, to)))
}

/// The characters that ASCII bytes stand for.
pub open spec fn ascii_chars(b: Seq<u8>) -> Seq<char> {
    b.map_values(|x: u8| x as char)
}

/// ASCII bytes are valid UTF-8 and decode to the characters they stand for.
pub proof fn ascii_text_decodes(b: Seq<u8>)
    requires
        forall|i: int| 0 <= i < b.len() ==> #[trigger] b[i] < 128,
    ensures
        valid_utf8(b),
        decode_utf8(b) == ascii_chars(b),
{
    let chars = ascii_chars(b);
    assert(is_ascii_chars(chars));
    is_ascii_chars_encode_utf8(chars);
    assert(encode_utf8(chars) =~= b) by {
        assert forall|i: int| 0 <= i < b.len() implies encode_utf8(chars)[i] == b[i] by {
            assert(chars[i] as u8 == encode_utf8(chars)[i]);
            let x = b[i];
            assert((x as char) as u8 == x);
        }
    }
    encode_utf8_valid_utf8(chars);
    encode_utf8_decode_utf8(chars);
}

/// A field whose first `k` bytes are non-NUL ASCII, followed by a NUL or
/// the end of the field, reads as exactly those `k` characters.
pub proof fn ascii_field_text(text: Seq<char>, d: Seq<u8>, from: int, to: int, k: int)
    requires
        0 <= from <= from + k <= to <= d.len(),
        is_field_text(text, d, from, to),
        forall|j: int| 0 <= j < k ==> 0 < #[trigger] d[from + j] < 128,
        from + k == to || d[from + k] == 0,
    ensures
        text == ascii_chars(d.subrange(from, from + k)),
{
    let raw = d.subrange(from, to);
    assert forall|j: int| 0 <= j < k implies raw[j] != 0 by {
        assert(raw[j] == d[from + j]);
    }
    lemma_nul_len(raw, k);
    let b = d.subrange(from, from + k);
    assert(c_bytes(raw) =~= b);
    assert forall|i: int| 0 <= i < b.len() implies #[trigger] b[i] < 128 by {
        assert(b[i] == d[from + i]);
    }
    ascii_text_decodes(b);
}

/// Relies on String::from_utf8_lossy: invalid sequences become U+FFFD, and
/// valid UTF-8 is decoded unchanged.
#[verifier::external_body]
fn lossy_text(b: &[u8]) -> (s: String)
    ensures
        s@ == lossy_text_of(b@),
        valid_utf8(b@) ==> s@ == decode_utf8(b@),
{
    String::from_utf8_lossy(b).into_owned()
}

/// The text of a field ends at its first NUL: where the first `k` bytes
/// are not NUL and byte `k` is (or the field ends), the text is those `k`.
pub proof fn lemma_nul_len(raw: Seq<u8>, k: int)
    requires
        0 <= k <= raw.len(),
        forall|j: int| 0 <= j < k ==> raw[j] != 0,
        k == raw.len() || raw[k] == 0,
    ensures
        nul_len(raw) == k,
    decreases k,
{
    if k > 0 {
        lemma_nul_len(raw.drop_first(), k - 1);
    }
}

/// Length of the C string held in `d[from..to]`.
fn c_len(d: &[u8], from: usize, to: usize) -> (k: usize)
    requires
        from <= to <= d@.len(),
    ensures
        k == nul_len(d@.subrange(from as int, to as int)),
        k <= to - from,
{
    let mut i: usize = from;
    while i < to && d[i] != 0
        invariant
            from <= i <= to <= d@.len(),
            forall|j: int| from <= j < i ==> d@[j] != 0,
        decreases to - i,
    {
        i = i + 1;
    }
    proof {
        lemma_nul_len(d@.subrange(from as int, to as int), i - from);
    }
    i - from
}

/// Decodes the text field `d[from..to]`.
fn read_text(d: &[u8], from: usize, to: usize) -> (s: String)
    requires
        from <= to <= d@.len(),
    ensures
        is_field_text(s@, d@, from as int, to as int),
{
    let k = c_len(d, from, to);
    let raw = slice_subrange(d, from, from + k);
    assert(raw@ =~= c_bytes(d@.subrange(from as int, to as int)));
    lossy_text(raw)
}

fn read_u16(d: &[u8], at: usize) -> (r: u16)
    requires
        at + 2 <= d@.len(),
    ensures
        r == u16_le(d@, at as int),
{
    d[at] as u16 + (d[at + 1] as u16) * 256
}

fn read_signature_field(d: &[u8], at: usize) -> (r: u128)
    requires
        at + 16 <= d.len(),
    ensures
        r == signature_field(d@, at as int),
{
    let mut acc: u128 = 0;
    let mut i: usize = 16;
    assert(d@.subrange(at + 16, at + 16) =~= Seq::<u8>::empty());
    proof {
        lemma2_to64();
    }
    while i > 0
        invariant
            i <= 16,
            at + 16 <= d.len(),
            acc == le_value(d@.subrange(at + i, at + 16)),
            acc < pow2((8 * (16 - i)) as nat),
        decreases i,
    {
        let ghost rest = d@.subrange(at + i, at + 16);
        let ghost next = d@.subrange(at + i - 1, at + 16);
        assert(next.drop_first() =~= rest);
        proof {
            lemma2_to64();
            lemma2_to64_rest();
            lemma_pow2_adds((8 * (16 - i)) as nat, 8);
            if i > 1 {
                lemma_pow2_strictly_increases((8 * (16 - i) + 8) as nat, 128);
            }
            lemma_pow2_128();
        }
        assert(acc * 256 + d@[at + i - 1] < pow2((8 * (16 - i) + 8) as nat)) by (nonlinear_arith)
            requires acc < pow2((8 * (16 - i)) as nat), d@[at + i - 1] < 256,
                pow2((8 * (16 - i) + 8) as nat) == pow2((8 * (16 - i)) as nat) * pow2(8), pow2(8) == 256;
        acc = acc * 256 + d[at + i - 1] as u128;
        i = i - 1;
    }
    acc
}

proof fn lemma_pow2_128()
    ensures
        pow2(128) == 0x1_0000_0000_0000_0000_0000_0000_0000_0000,
{
    lemma2_to64();
    lemma_pow2_adds(64, 64);
}

fn read_u32(d: &[u8], at: usize) -> (r: u32)
    requires
        at + 4 <= d@.len(),
    ensures
        r == u32_le(d@, at as int),
{
    d[at] as u32 + (d[at + 1] as u32) * 256 + (d[at + 2] as u32) * 65536 + (d[at + 3] as u32)
        * 16777216
}


/// The two layouts of the container's records.
#[derive(Debug, Clone, Copy, PartialEq, Eq, Structural)]
pub enum BinLayout {
    /// Header of 58 bytes, events of 28, segment descriptors of 24; a version
    /// other than the expected one is only reported. The header's field order
    /// (signature, version, 32-byte build id, counts, reserved) is documented;
    /// the placement inside the event and segment records is an assumption
    /// of this library: the numeric fields as in the 256-byte layout, then a
    /// 16-byte name (events: 3 reserved bytes after it).
    Compact,
    /// Header, events and segment descriptors of 256 bytes each; a version
    /// other than the expected one is rejected.
    Extended,
}

/// The layout that a header declaring `version` uses: major version 2 and
/// later use the 256-byte records. Headers declare no record size, so the
/// version's major byte is this library's chosen discriminator.
pub open spec fn layout_for(version: u16) -> BinLayout {
    if version >= 0x0200 {
        BinLayout::Extended
    } else {
        BinLayout::Compact
    }
}

impl BinLayout {
    pub open spec fn header_len(self) -> int {
        match self {
            BinLayout::Compact => 58,
            BinLayout::Extended => 256,
        }
    }

    pub open spec fn event_len(self) -> int {
        match self {
            BinLayout::Compact => 28,
            BinLayout::Extended => 256,
        }
    }

    pub open spec fn calseg_len(self) -> int {
        match self {
            BinLayout::Compact => 24,
            BinLayout::Extended => 256,
        }
    }

    /// Offset of the event count within the header.
    pub open spec fn event_count_at(self) -> int {
        match self {
            BinLayout::Compact => 50,
            BinLayout::Extended => 18,
        }
    }

    /// Offset of the segment count within the header.
    pub open spec fn calseg_count_at(self) -> int {
        self.event_count_at() + 2
    }

    /// Bounds of the EPK text within the header.
    pub open spec fn epk_field(self) -> (int, int) {
        match self {
            BinLayout::Compact => (18, 50),
            BinLayout::Extended => (150, 256),
        }
    }

    /// Bounds of the name within an event record.
    pub open spec fn event_name_field(self) -> (int, int) {
        match self {
            BinLayout::Compact => (9, 25),
            BinLayout::Extended => (137, 256),
        }
    }

    /// Bounds of the name within a segment descriptor.
    pub open spec fn calseg_name_field(self) -> (int, int) {
        match self {
            BinLayout::Compact => (8, 24),
            BinLayout::Extended => (136, 256),
        }
    }

    pub open spec fn spec_expected_version(self) -> u16 {
        match self {
            BinLayout::Compact => COMPACT_VERSION,
            BinLayout::Extended => EXTENDED_VERSION,
        }
    }

    /// The layout that a header declaring `version` uses.
    pub fn from_version(version: u16) -> (r: BinLayout)
        ensures
            r == layout_for(version),
    {
        if version >= 0x0200 {
            BinLayout::Extended
        } else {
            BinLayout::Compact
        }
    }

    /// The layout of the container whose bytes start with `d`, told by the
    /// version field that both layouts place right after the signature.
    pub fn detect(d: &[u8]) -> (r: Result<BinLayout, Bin2HexError>)
        ensures
            d@.len() < 18 ==> r == Err::<BinLayout, Bin2HexError>(
                Bin2HexError::UnexpectedEof { offset: 0 },
            ),
            d@.len() >= 18 ==> r == Ok::<BinLayout, Bin2HexError>(layout_for(u16_le(d@, 16))),
    {
        if d.len() < 18 {
            Err(Bin2HexError::UnexpectedEof { offset: 0 })
        } else {
            Ok(BinLayout::from_version(read_u16(d, 16)))
        }
    }

    /// The version that this layout expects in the header.
    pub fn expected_version(self) -> (r: u16)
        ensures
            r == self.spec_expected_version(),
    {
        match self {
            BinLayout::Compact => COMPACT_VERSION,
            BinLayout::Extended => EXTENDED_VERSION,
        }
    }

    pub fn header_size(self) -> (r: usize)
        ensures
            r == self.header_len(),
    {
        match self {
            BinLayout::Compact => 58,
            BinLayout::Extended => 256,
        }
    }

    pub fn event_size(self) -> (r: usize)
        ensures
            r == self.event_len(),
    {
        match self {
            BinLayout::Compact => 28,
            BinLayout::Extended => 256,
        }
    }

    pub fn calseg_size(self) -> (r: usize)
        ensures
            r == self.calseg_len(),
    {
        match self {
            BinLayout::Compact => 24,
            BinLayout::Extended => 256,
        }
    }
}

/// The signature field at `pos` holds the expected signature.
pub open spec fn signature_ok(d: Seq<u8>, pos: int) -> bool {
    c_bytes(d.subrange(pos, pos + 16)) == bin_signature()
}

/// The version field at `pos` is acceptable to `layout`.
pub open spec fn version_ok(layout: BinLayout, d: Seq<u8>, pos: int) -> bool {
    layout == BinLayout::Compact || u16_le(d, pos + 16) == EXTENDED_VERSION
}

fn signature_matches(d: &[u8], pos: usize) -> (r: bool)
    requires
        pos + 16 <= d.len(),
    ensures
        r == signature_ok(d@, pos as int),
{
    let sig: [u8; 15] = [0x58, 0x43, 0x50, 0x4C, 0x49, 0x54, 0x45, 0x5F, 0x5F, 0x42, 0x49, 0x4E, 0x41, 0x52, 0x59];
    assert(sig@ =~= bin_signature());
    let k = c_len(d, pos, pos + 16);
    let ghost text = c_bytes(d@.subrange(pos as int, pos + 16));
    if k != 15 {
        return false;
    }
    assert(forall|j: int| 0 <= j < 15 ==> text[j] == d@[pos + j]);
    let mut i: usize = 0;
    while i < 15
        invariant
            i <= 15,
            pos + 16 <= d.len(),
            sig@ == bin_signature(),
            text.len() == 15,
            forall|j: int| 0 <= j < 15 ==> text[j] == d@[pos + j],
            text == c_bytes(d@.subrange(pos as int, pos + 16)),
            forall|j: int| 0 <= j < i ==> text[j] == sig@[j],
        decreases 15 - i,
    {
        if d[pos + i] != sig[i] {
            assert(text[i as int] != bin_signature()[i as int]);
            return false;
        }
        i = i + 1;
    }
    assert(text =~= bin_signature());
    true
}


/// The container header.
#[derive(Debug, Clone)]
pub struct BinHeader {
    pub signature: String,
    pub version: u16,
    pub event_count: u16,
    pub calseg_count: u16,
    pub epk: String,
}

/// An event descriptor.
#[derive(Debug, Clone)]
pub struct EventDescriptor {
    pub id: u16,
    pub index: u16,
    pub cycle_time_ns: u32,
    /// 0 = queued, 1 = pushing, 2 = realtime.
    pub priority: u8,
    pub name: String,
}

/// A calibration segment descriptor; `size` payload bytes follow it.
#[derive(Debug, Clone)]
pub struct CalSegDescriptor {
    pub index: u16,
    pub size: u16,
    pub addr: u32,
    pub name: String,
}

impl BinHeader {
    /// `self` holds the fields of the header record at `pos`.
    pub open spec fn matches(self, layout: BinLayout, d: Seq<u8>, pos: int) -> bool {
        &&& is_field_text(self.signature@, d, pos, pos + 16)
        &&& self.version == u16_le(d, pos + 16)
        &&& self.event_count == u16_le(d, pos + layout.event_count_at())
        &&& self.calseg_count == u16_le(d, pos + layout.calseg_count_at())
        &&& is_field_text(self.epk@, d, pos + layout.epk_field().0, pos + layout.epk_field().1)
    }

    /// What reading a header at `pos` gives: the record must fit, carry the
    /// signature, and (in the 256-byte layout) the accepted version.
    pub open spec fn read_result(
        r: Result<BinHeader, Bin2HexError>,
        layout: BinLayout,
        d: Seq<u8>,
        pos: int,
    ) -> bool {
        if pos + layout.header_len() > d.len() {
            r == Err::<BinHeader, Bin2HexError>(Bin2HexError::UnexpectedEof { offset: pos as usize })
        } else if !signature_ok(d, pos) {
            r == Err::<BinHeader, Bin2HexError>(
                Bin2HexError::InvalidFormat(FormatError::BadSignature { signature: signature_field(d, pos) }),
            )
        } else if !version_ok(layout, d, pos) {
            r == Err::<BinHeader, Bin2HexError>(
                Bin2HexError::InvalidFormat(
                    FormatError::UnsupportedVersion { found: u16_le(d, pos + 16), expected: EXTENDED_VERSION },
                ),
            )
        } else {
            r is Ok && r->Ok_0.matches(layout, d, pos)
        }
    }

    /// Decodes the header record at `pos` of `d`.
    pub fn read_from(layout: BinLayout, d: &[u8], pos: usize) -> (r: Result<BinHeader, Bin2HexError>)
        ensures
            BinHeader::read_result(r, layout, d@, pos as int),
    {
        let size = layout.header_size();
        if pos > d.len() || d.len() - pos < size {
            return Err(Bin2HexError::UnexpectedEof { offset: pos });
        }
        if !signature_matches(d, pos) {
            return Err(Bin2HexError::InvalidFormat(FormatError::BadSignature { signature: read_signature_field(d, pos) }));
        }
        let version = read_u16(d, pos + 16);
        if layout == BinLayout::Extended && version != EXTENDED_VERSION {
            return Err(
                Bin2HexError::InvalidFormat(
                    FormatError::UnsupportedVersion { found: version, expected: EXTENDED_VERSION },
                ),
            );
        }
        let (count_at, epk_from, epk_to): (usize, usize, usize) = match layout {
            BinLayout::Compact => (50, 18, 50),
            BinLayout::Extended => (18, 150, 256),
        };
        let signature = read_text(d, pos, pos + 16);
        let epk = read_text(d, pos + epk_from, pos + epk_to);
        Ok(BinHeader {
            signature,
            version,
            event_count: read_u16(d, pos + count_at),
            calseg_count: read_u16(d, pos + count_at + 2),
            epk,
        })
    }

    /// The header declares a version other than the one its layout expects.
    /// The compact layout reads such a header anyway; this tells the caller
    /// to report it.
    pub fn version_mismatch(&self, layout: BinLayout) -> (r: bool)
        ensures
            r == (self.version != layout.spec_expected_version()),
    {
        self.version != layout.expected_version()
    }
}

impl EventDescriptor {
    /// `self` holds the fields of the event record at `pos`.
    pub open spec fn matches(self, layout: BinLayout, d: Seq<u8>, pos: int) -> bool {
        &&& self.id == u16_le(d, pos)
        &&& self.index == u16_le(d, pos + 2)
        &&& self.cycle_time_ns == u32_le(d, pos + 4)
        &&& self.priority == d[pos + 8]
        &&& is_field_text(self.name@, d, pos + layout.event_name_field().0, pos + layout.event_name_field().1)
    }

    /// Decodes the event record at `pos` of `d`.
    pub fn read_from(layout: BinLayout, d: &[u8], pos: usize) -> (r: Result<EventDescriptor, Bin2HexError>)
        ensures
            pos + layout.event_len() > d@.len() ==> r == Err::<EventDescriptor, Bin2HexError>(
                Bin2HexError::UnexpectedEof { offset: pos },
            ),
            pos + layout.event_len() <= d@.len() ==> r is Ok && r->Ok_0.matches(layout, d@, pos as int),
    {
        let size = layout.event_size();
        if pos > d.len() || d.len() - pos < size {
            return Err(Bin2HexError::UnexpectedEof { offset: pos });
        }
        let (name_from, name_to): (usize, usize) = match layout {
            BinLayout::Compact => (9, 25),
            BinLayout::Extended => (137, 256),
        };
        let name = read_text(d, pos + name_from, pos + name_to);
        Ok(EventDescriptor {
            id: read_u16(d, pos),
            index: read_u16(d, pos + 2),
            cycle_time_ns: read_u32(d, pos + 4),
            priority: d[pos + 8],
            name,
        })
    }
}

impl CalSegDescriptor {
    /// A field-by-field copy.
    pub fn copy(&self) -> (r: CalSegDescriptor)
        ensures
            r == *self,
    {
        CalSegDescriptor { index: self.index, size: self.size, addr: self.addr, name: self.name.clone() }
    }

    /// `self` holds the fields of the segment descriptor at `pos`.
    pub open spec fn matches(self, layout: BinLayout, d: Seq<u8>, pos: int) -> bool {
        &&& self.index == u16_le(d, pos)
        &&& self.size == u16_le(d, pos + 2)
        &&& self.addr == u32_le(d, pos + 4)
        &&& is_field_text(self.name@, d, pos + layout.calseg_name_field().0, pos + layout.calseg_name_field().1)
    }

    /// Decodes the segment descriptor at `pos` of `d`.
    pub fn read_from(layout: BinLayout, d: &[u8], pos: usize) -> (r: Result<CalSegDescriptor, Bin2HexError>)
        ensures
            pos + layout.calseg_len() > d@.len() ==> r == Err::<CalSegDescriptor, Bin2HexError>(
                Bin2HexError::UnexpectedEof { offset: pos },
            ),
            pos + layout.calseg_len() <= d@.len() ==> r is Ok && r->Ok_0.matches(layout, d@, pos as int),
    {
        let size = layout.calseg_size();
        if pos > d.len() || d.len() - pos < size {
            return Err(Bin2HexError::UnexpectedEof { offset: pos });
        }
        let (name_from, name_to): (usize, usize) = match layout {
            BinLayout::Compact => (8, 24),
            BinLayout::Extended => (136, 256),
        };
        let name = read_text(d, pos + name_from, pos + name_to);
        Ok(CalSegDescriptor {
            index: read_u16(d, pos),
            size: read_u16(d, pos + 2),
            addr: read_u32(d, pos + 4),
            name,
        })
    }
}

} // verus!
