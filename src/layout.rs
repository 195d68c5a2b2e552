//! The fixed-size records of an image file: the 64-byte header and the item
//! table entries, whose name fields are 32 bytes wide in version 1 and 256
//! bytes wide in version 2. All integers are little-endian.

use vstd::prelude::*;
use vstd::utf8::*;

use crate::error::ImageError;

verus! {

pub const MAGIC: u32 = 0x27b51956;

pub const SIZE_RAW_IMAGE_HEAD: usize = 64;

pub const SIZE_ITEM_TYPE_V1: usize = 32;

pub const SIZE_ITEM_TYPE_V2: usize = 256;

pub const SIZE_RAW_ITEM_INFO_V1: usize = 128;

pub const SIZE_RAW_ITEM_INFO_V2: usize = 576;

// ---------------------------------------------------------------------------
// Little-endian integers
// ---------------------------------------------------------------------------

pub open spec fn u16_le(v: u16) -> Seq<u8> {
    seq![(v & 0xff) as u8, ((v >> 8) & 0xff) as u8]
}

pub open spec fn u32_le(v: u32) -> Seq<u8> {
    seq![
        (v & 0xff) as u8,
        ((v >> 8) & 0xff) as u8,
        ((v >> 16) & 0xff) as u8,
        ((v >> 24) & 0xff) as u8,
    ]
}

pub open spec fn u64_le(v: u64) -> Seq<u8> {
    seq![
        (v & 0xff) as u8,
        ((v >> 8) & 0xff) as u8,
        ((v >> 16) & 0xff) as u8,
        ((v >> 24) & 0xff) as u8,
        ((v >> 32) & 0xff) as u8,
        ((v >> 40) & 0xff) as u8,
        ((v >> 48) & 0xff) as u8,
        ((v >> 56) & 0xff) as u8,
    ]
}

pub open spec fn u16_at(s: Seq<u8>, off: int) -> u16 {
    (s[off] as u16) | ((s[off + 1] as u16) << 8)
}

pub open spec fn u32_at(s: Seq<u8>, off: int) -> u32 {
    (s[off] as u32) | ((s[off + 1] as u32) << 8) | ((s[off + 2] as u32) << 16) | ((s[off
        + 3] as u32) << 24)
}

pub open spec fn u64_at(s: Seq<u8>, off: int) -> u64 {
    (s[off] as u64) | ((s[off + 1] as u64) << 8) | ((s[off + 2] as u64) << 16) | ((s[off
        + 3] as u64) << 24) | ((s[off + 4] as u64) << 32) | ((s[off + 5] as u64) << 40) | ((s[off
        + 6] as u64) << 48) | ((s[off + 7] as u64) << 56)
}

pub open spec fn zeros(n: nat) -> Seq<u8> {
    Seq::new(n, |i: int| 0u8)
}

pub fn push_u16(out: &mut Vec<u8>, v: u16)
    ensures
        final(out)@ == old(out)@ + u16_le(v),
{
    out.push((v & 0xff) as u8);
    out.push(((v >> 8) & 0xff) as u8);
    assert(final(out)@ =~= old(out)@ + u16_le(v));
}

pub fn push_u32(out: &mut Vec<u8>, v: u32)
    ensures
        final(out)@ == old(out)@ + u32_le(v),
{
    out.push((v & 0xff) as u8);
    out.push(((v >> 8) & 0xff) as u8);
    out.push(((v >> 16) & 0xff) as u8);
    out.push(((v >> 24) & 0xff) as u8);
    assert(final(out)@ =~= old(out)@ + u32_le(v));
}

pub fn push_u64(out: &mut Vec<u8>, v: u64)
    ensures
        final(out)@ == old(out)@ + u64_le(v),
{
    out.push((v & 0xff) as u8);
    out.push(((v >> 8) & 0xff) as u8);
    out.push(((v >> 16) & 0xff) as u8);
    out.push(((v >> 24) & 0xff) as u8);
    out.push(((v >> 32) & 0xff) as u8);
    out.push(((v >> 40) & 0xff) as u8);
    out.push(((v >> 48) & 0xff) as u8);
    out.push(((v >> 56) & 0xff) as u8);
    assert(final(out)@ =~= old(out)@ + u64_le(v));
}

pub fn push_zeros(out: &mut Vec<u8>, n: usize)
    ensures
        final(out)@ == old(out)@ + zeros(n as nat),
{
    let ghost start = out@;
    let mut i: usize = 0;
    while i < n
        invariant
            i <= n,
            out@ == start + zeros(i as nat),
        decreases n - i,
    {
        out.push(0);
        assert(start + zeros((i + 1) as nat) =~= (start + zeros(i as nat)).push(0));
        i = i + 1;
    }
}

pub fn read_u16(s: &[u8], off: usize) -> (r: u16)
    requires
        off + 2 <= s@.len(),
    ensures
        r == u16_at(s@, off as int),
{
    (s[off] as u16) | ((s[off + 1] as u16) << 8)
}

pub fn read_u32(s: &[u8], off: usize) -> (r: u32)
    requires
        off + 4 <= s@.len(),
    ensures
        r == u32_at(s@, off as int),
{
    (s[off] as u32) | ((s[off + 1] as u32) << 8) | ((s[off + 2] as u32) << 16) | ((s[off
        + 3] as u32) << 24)
}

pub fn read_u64(s: &[u8], off: usize) -> (r: u64)
    requires
        off + 8 <= s@.len(),
    ensures
        r == u64_at(s@, off as int),
{
    (s[off] as u64) | ((s[off + 1] as u64) << 8) | ((s[off + 2] as u64) << 16) | ((s[off
        + 3] as u64) << 24) | ((s[off + 4] as u64) << 32) | ((s[off + 5] as u64) << 40) | ((s[off
        + 6] as u64) << 48) | ((s[off + 7] as u64) << 56)
}

// ---------------------------------------------------------------------------
// Fixed-width NUL-terminated name fields
// ---------------------------------------------------------------------------

/// The bytes of a name: its UTF-8 encoding.
pub open spec fn name_bytes(name: Seq<char>) -> Seq<u8> {
    encode_utf8(name)
}

/// How many bytes of a name fit in a field of `width` bytes: all but one, so
/// that a NUL always follows.
pub open spec fn kept_len(name: Seq<char>, width: nat) -> nat {
    if name_bytes(name).len() < width {
        name_bytes(name).len()
    } else {
        (width - 1) as nat
    }
}

/// A name field: the name's bytes, truncated so that a NUL follows, then
/// zeros up to `width`.
pub open spec fn name_field(name: Seq<char>, width: nat) -> Seq<u8> {
    name_bytes(name).subrange(0, kept_len(name, width) as int) + zeros(
        (width - kept_len(name, width)) as nat,
    )
}

/// The bytes of a C string stored in `s`: all bytes before the first NUL, or
/// all of `s` where it holds none.
pub open spec fn c_string(s: Seq<u8>) -> Seq<u8>
    decreases s.len(),
{
    if s.len() == 0 || s[0] == 0 {
        Seq::empty()
    } else {
        seq![s[0]] + c_string(s.drop_first())
    }
}

/// What decoding `b` as UTF-8 with replacement of invalid sequences gives.
pub uninterp spec fn utf8_lossy(b: Seq<u8>) -> Seq<char>;

/// The text of `b`: its decoding where it is valid UTF-8, else the lenient
/// decoding.
pub open spec fn lenient_utf8(b: Seq<u8>) -> Seq<char> {
    if valid_utf8(b) {
        decode_utf8(b)
    } else {
        utf8_lossy(b)
    }
}

/// Relies on `String::from_utf8_lossy`: the text depends on the bytes alone,
/// and valid UTF-8 is decoded unchanged.
#[verifier::external_body]
fn string_from_utf8_lossy(b: &[u8]) -> (r: String)
    ensures
        r@ == lenient_utf8(b@),
        !valid_utf8(b@) ==> r@ == utf8_lossy(b@),
{
    String::from_utf8_lossy(b).into_owned()
}

pub proof fn lemma_c_string_prefix(s: Seq<u8>, i: int)
    requires
        0 <= i <= s.len(),
        forall|j: int| 0 <= j < i ==> s[j] != 0,
        i == s.len() || s[i] == 0,
    ensures
        c_string(s) == s.subrange(0, i),
    decreases i,
{
    if i == 0 {
        assert(s.subrange(0, 0) =~= Seq::<u8>::empty());
    } else {
        let t = s.drop_first();
        assert forall|j: int| 0 <= j < i - 1 implies t[j] != 0 by {
            assert(t[j] == s[j + 1]);
        }
        lemma_c_string_prefix(t, i - 1);
        assert(s.subrange(0, i) =~= seq![s[0]] + t.subrange(0, i - 1));
    }
}

/// Reads a name field: the bytes before the first NUL, decoded leniently.
pub fn string_from_slice_u8_c_string(slice: &[u8]) -> (r: String)
    ensures
        r@ == lenient_utf8(c_string(slice@)),
{
    let mut i: usize = 0;
    while i < slice.len() && slice[i] != 0
        invariant
            i <= slice@.len(),
            forall|j: int| 0 <= j < i ==> slice@[j] != 0,
        decreases slice@.len() - i,
    {
        i = i + 1;
    }
    proof {
        lemma_c_string_prefix(slice@, i as int);
    }
    string_from_utf8_lossy(&slice[0..i])
}

/// Copies as much of `src` into `dest` as leaves its last byte untouched.
pub fn bytes_fill_from_str(dest: &mut [u8], src: &str)
    requires
        old(dest)@.len() >= 1,
    ensures
        final(dest)@.len() == old(dest)@.len(),
        final(dest)@ == name_bytes(src@).subrange(0, kept_len(src@, old(dest)@.len()) as int)
            + old(dest)@.subrange(
            kept_len(src@, old(dest)@.len()) as int,
            old(dest)@.len() as int,
        ),
{
    let src = src.as_bytes();
    let len: usize = if dest.len() - 1 < src.len() {
        dest.len() - 1
    } else {
        src.len()
    };
    let ghost start = dest@;
    let mut i: usize = 0;
    while i < len
        invariant
            i <= len,
            len <= src@.len(),
            len < dest@.len(),
            dest@.len() == start.len(),
            forall|j: int| 0 <= j < i ==> dest@[j] == src@[j],
            forall|j: int| i <= j < dest@.len() ==> dest@[j] == start[j],
        decreases len - i,
    {
        dest[i] = src[i];
        i = i + 1;
    }
    assert(dest@ =~= src@.subrange(0, len as int) + start.subrange(len as int, start.len() as int));
}

/// Writes a name into a fresh field of `width` bytes.
pub fn push_name_field(out: &mut Vec<u8>, name: &str, width: usize)
    requires
        width >= 1,
    ensures
        final(out)@ == old(out)@ + name_field(name@, width as nat),
{
    let mut field: Vec<u8> = Vec::new();
    push_zeros(&mut field, width);
    bytes_fill_from_str(field.as_mut_slice(), name);
    assert(field@ =~= name_field(name@, width as nat));
    out.append(&mut field);
}

// ---------------------------------------------------------------------------
// Format versions
// ---------------------------------------------------------------------------

/// The header version, which fixes the width of the name fields.
#[derive(Clone, Copy, PartialEq, Eq, Structural, Debug)]
pub enum ImageVersion {
    V1,
    V2,
}

impl Default for ImageVersion {
    fn default() -> (r: Self)
        ensures
            r == ImageVersion::V2,
    {
        ImageVersion::V2
    }
}

impl ImageVersion {
    pub open spec fn name_width(self) -> nat {
        match self {
            ImageVersion::V1 => 32,
            ImageVersion::V2 => 256,
        }
    }

    /// Bytes in one item table record: `64 + 2 * name_width`.
    pub open spec fn record_size(self) -> nat {
        match self {
            ImageVersion::V1 => 128,
            ImageVersion::V2 => 576,
        }
    }

    pub open spec fn raw(self) -> u32 {
        match self {
            ImageVersion::V1 => 1,
            ImageVersion::V2 => 2,
        }
    }

    /// The version that a header's version field names, if any.
    pub open spec fn from_raw(v: u32) -> Option<ImageVersion> {
        if v == 1 {
            Some(ImageVersion::V1)
        } else if v == 2 {
            Some(ImageVersion::V2)
        } else {
            None
        }
    }

    pub fn size_raw_info(&self) -> (r: usize)
        ensures
            r == self.record_size(),
            r == 64 + 2 * self.name_width(),
    {
        match self {
            ImageVersion::V1 => SIZE_RAW_ITEM_INFO_V1,
            ImageVersion::V2 => SIZE_RAW_ITEM_INFO_V2,
        }
    }

    pub fn size_item_type(&self) -> (r: usize)
        ensures
            r == self.name_width(),
    {
        match self {
            ImageVersion::V1 => SIZE_ITEM_TYPE_V1,
            ImageVersion::V2 => SIZE_ITEM_TYPE_V2,
        }
    }

    pub fn to_raw(&self) -> (r: u32)
        ensures
            r == self.raw(),
    {
        match self {
            ImageVersion::V1 => 1,
            ImageVersion::V2 => 2,
        }
    }

    pub fn try_from_raw(value: u32) -> (r: Result<ImageVersion, ImageError>)
        ensures
            match ImageVersion::from_raw(value) {
                Some(v) => r == Ok::<ImageVersion, ImageError>(v),
                None => r matches Err(e) && e@ == crate::error::ImageFault::InvalidVersion(value),
            },
    {
        if value == 1 {
            Ok(ImageVersion::V1)
        } else if value == 2 {
            Ok(ImageVersion::V2)
        } else {
            Err(ImageError::InvalidVersion { version: value })
        }
    }
}

// ---------------------------------------------------------------------------
// The header
// ---------------------------------------------------------------------------

/// The 64-byte image header; its 36 reserved bytes are zero when written and
/// ignored when read.
#[derive(Clone, Copy, PartialEq, Eq, Structural, Debug)]
pub struct RawImageHead {
    pub crc: u32,
    pub version: u32,
    pub magic: u32,
    pub image_size: u64,
    pub item_align_size: u32,
    pub item_count: u32,
}

pub open spec fn head_bytes(h: RawImageHead) -> Seq<u8> {
    u32_le(h.crc) + u32_le(h.version) + u32_le(h.magic) + u64_le(h.image_size) + u32_le(
        h.item_align_size,
    ) + u32_le(h.item_count) + zeros(36)
}

/// The header that the first 64 bytes of `s` hold.
pub open spec fn head_at(s: Seq<u8>) -> RawImageHead {
    RawImageHead {
        crc: u32_at(s, 0),
        version: u32_at(s, 4),
        magic: u32_at(s, 8),
        image_size: u64_at(s, 12),
        item_align_size: u32_at(s, 20),
        item_count: u32_at(s, 24),
    }
}

impl RawImageHead {
    pub fn new(version: &ImageVersion, item_align_size: u32) -> (r: Self)
        ensures
            r == (RawImageHead {
                crc: 0,
                version: version.raw(),
                magic: MAGIC,
                image_size: 0,
                item_align_size,
                item_count: 0,
            }),
    {
        RawImageHead {
            crc: 0,
            version: version.to_raw(),
            magic: MAGIC,
            image_size: 0,
            item_align_size,
            item_count: 0,
        }
    }

    pub fn parse(s: &[u8]) -> (r: Self)
        requires
            s@.len() >= 64,
        ensures
            r == head_at(s@),
    {
        RawImageHead {
            crc: read_u32(s, 0),
            version: read_u32(s, 4),
            magic: read_u32(s, 8),
            image_size: read_u64(s, 12),
            item_align_size: read_u32(s, 20),
            item_count: read_u32(s, 24),
        }
    }

    pub fn write(&self, out: &mut Vec<u8>)
        ensures
            final(out)@ == old(out)@ + head_bytes(*self),
    {
        let ghost start = out@;
        push_u32(out, self.crc);
        push_u32(out, self.version);
        push_u32(out, self.magic);
        push_u64(out, self.image_size);
        push_u32(out, self.item_align_size);
        push_u32(out, self.item_count);
        push_zeros(out, 36);
        assert(out@ =~= start + head_bytes(*self));
    }
}

// ---------------------------------------------------------------------------
// Item table records
// ---------------------------------------------------------------------------

/// One item table record, with its name fields as text.
pub struct RawItemInfo {
    pub item_id: u32,
    pub file_type: u32,
    pub current_offset_in_item: u64,
    pub offset_in_image: u64,
    pub item_size: u64,
    pub item_main_type: String,
    pub item_sub_type: String,
    pub verify: u32,
    pub is_backup_item: u16,
    pub backup_item_id: u16,
}

/// A record as a value: the names as character sequences.
pub struct InfoView {
    pub item_id: u32,
    pub file_type: u32,
    pub current_offset_in_item: u64,
    pub offset_in_image: u64,
    pub item_size: u64,
    pub main_type: Seq<char>,
    pub sub_type: Seq<char>,
    pub verify: u32,
    pub is_backup_item: u16,
    pub backup_item_id: u16,
}

impl View for RawItemInfo {
    type V = InfoView;

    open spec fn view(&self) -> InfoView {
        InfoView {
            item_id: self.item_id,
            file_type: self.file_type,
            current_offset_in_item: self.current_offset_in_item,
            offset_in_image: self.offset_in_image,
            item_size: self.item_size,
            main_type: self.item_main_type@,
            sub_type: self.item_sub_type@,
            verify: self.verify,
            is_backup_item: self.is_backup_item,
            backup_item_id: self.backup_item_id,
        }
    }
}

/// The bytes of a record whose name fields are `width` bytes wide.
pub open spec fn info_bytes(i: InfoView, width: nat) -> Seq<u8> {
    u32_le(i.item_id) + u32_le(i.file_type) + u64_le(i.current_offset_in_item) + u64_le(
        i.offset_in_image,
    ) + u64_le(i.item_size) + name_field(i.main_type, width) + name_field(i.sub_type, width)
        + u32_le(i.verify) + u16_le(i.is_backup_item) + u16_le(i.backup_item_id) + zeros(24)
}

/// The record that `s` holds from its start, name fields `width` bytes wide.
pub open spec fn info_at(s: Seq<u8>, width: nat) -> InfoView {
    let width = width as int;
    InfoView {
        item_id: u32_at(s, 0),
        file_type: u32_at(s, 4),
        current_offset_in_item: u64_at(s, 8),
        offset_in_image: u64_at(s, 16),
        item_size: u64_at(s, 24),
        main_type: lenient_utf8(c_string(s.subrange(32, 32 + width))),
        sub_type: lenient_utf8(c_string(s.subrange(32 + width, 32 + 2 * width))),
        verify: u32_at(s, 32 + 2 * width),
        is_backup_item: u16_at(s, 36 + 2 * width),
        backup_item_id: u16_at(s, 38 + 2 * width),
    }
}

impl RawItemInfo {
    pub fn parse(s: &[u8], width: usize) -> (r: Self)
        requires
            width <= 256,
            s@.len() >= 64 + 2 * width,
        ensures
            r@ == info_at(s@, width as nat),
    {
        RawItemInfo {
            item_id: read_u32(s, 0),
            file_type: read_u32(s, 4),
            current_offset_in_item: read_u64(s, 8),
            offset_in_image: read_u64(s, 16),
            item_size: read_u64(s, 24),
            item_main_type: string_from_slice_u8_c_string(&s[32..32 + width]),
            item_sub_type: string_from_slice_u8_c_string(&s[32 + width..32 + 2 * width]),
            verify: read_u32(s, 32 + 2 * width),
            is_backup_item: read_u16(s, 36 + 2 * width),
            backup_item_id: read_u16(s, 38 + 2 * width),
        }
    }

    pub fn write(&self, width: usize, out: &mut Vec<u8>)
        requires
            width >= 1,
        ensures
            final(out)@ == old(out)@ + info_bytes(self@, width as nat),
    {
        let ghost start = out@;
        push_u32(out, self.item_id);
        push_u32(out, self.file_type);
        push_u64(out, self.current_offset_in_item);
        push_u64(out, self.offset_in_image);
        push_u64(out, self.item_size);
        push_name_field(out, self.item_main_type.as_str(), width);
        push_name_field(out, self.item_sub_type.as_str(), width);
        push_u32(out, self.verify);
        push_u16(out, self.is_backup_item);
        push_u16(out, self.backup_item_id);
        push_zeros(out, 24);
        assert(out@ =~= start + info_bytes(self@, width as nat));
    }
}

} // verus!
