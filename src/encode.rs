//! Writing an image file: items in their fixed order, bodies aligned,
//! repeated contents stored once, a verify record after every partition, and
//! the checksum over everything but the checksum field itself.

use vstd::arithmetic::div_mod::{lemma_fundamental_div_mod, lemma_mod_multiples_basic};
use vstd::prelude::*;
use vstd::slice::slice_to_vec;

use crate::crc32::{crc32_of, Crc32Hasher};
use crate::decode::verify_prefix;
use crate::error::{result_view, ImageError, ImageFault};
use crate::image::{Image, ImageView, Item, ItemView};
use crate::layout::{
    head_bytes, info_bytes, name_bytes, push_zeros as push_zeros_to, zeros, ImageVersion, InfoView, RawImageHead, RawItemInfo,
    MAGIC,
};
use crate::names::{bytes_end_with, name_gt, name_greater, str_ends_with, str_eq};
use crate::sha1sum::{hex_lower, sha1_of, Sha1sum};

verus! {

pub const FILE_TYPE_GENERIC: u32 = 0;

pub const FILE_TYPE_SPARSE: u32 = 254;

/// The first four bytes of an Android sparse image.
pub open spec fn sparse_magic() -> Seq<u8> {
    seq![0x3au8, 0xffu8, 0x26u8, 0xedu8]
}

pub open spec fn file_type_of(data: Seq<u8>) -> u32 {
    if data.len() >= 4 && data.subrange(0, 4) == sparse_magic() {
        FILE_TYPE_SPARSE
    } else {
        FILE_TYPE_GENERIC
    }
}

/// `n` rounded up to a multiple of `align`.
pub open spec fn align_up(n: int, align: int) -> int {
    (n + align - 1) / align * align
}

/// The body of the verify record for a digest: `sha1sum ` and 40 hex digits.
pub open spec fn verify_payload(digest: Seq<u8>) -> Seq<u8> {
    verify_prefix() + hex_lower(digest)
}

/// The item table being built, with offsets still relative to the start of
/// the bodies, the digest of each record, and the bodies.
pub struct LayoutView {
    pub infos: Seq<InfoView>,
    pub digests: Seq<Seq<u8>>,
    pub body: Seq<u8>,
}

/// A record that a later item may not share contents with: an `_ENC.USB`
/// item, which is stored encrypted.
pub open spec fn is_enc_usb(info: InfoView) -> bool {
    info.main_type == "USB"@ && bytes_end_with(name_bytes(info.sub_type), name_bytes("_ENC"@))
}

/// The first record from `k` on whose digest is `digest`, where that record
/// may be shared.
pub open spec fn first_backup_from(st: LayoutView, digest: Seq<u8>, k: int) -> Option<int>
    decreases st.infos.len() - k,
{
    if k < 0 || k >= st.infos.len() || k >= st.digests.len() {
        None
    } else if st.digests[k] == digest && !is_enc_usb(st.infos[k]) {
        Some(k)
    } else {
        first_backup_from(st, digest, k + 1)
    }
}

/// Whether an item with `digest` is stored as a backup, the id of the record
/// it shares, and that record's offset.
pub open spec fn backup_of(st: LayoutView, digest: Seq<u8>) -> (u16, u16, u64) {
    match first_backup_from(st, digest, 0) {
        Some(k) => (1u16, (k % 65536) as u16, st.infos[k].offset_in_image),
        None => (0u16, 0u16, 0u64),
    }
}

/// Room for one more item: its body with padding and a verify record, and
/// two more records.
pub open spec fn room_for(st: LayoutView, it: ItemView, align: u32) -> bool {
    st.body.len() + align + it.data.len() + 48 <= usize::MAX && st.infos.len() + 2 <= u32::MAX
}

/// The layout after appending one item, or why it cannot be.
pub open spec fn append_spec(st: LayoutView, it: ItemView, align: u32) -> Result<LayoutView, ImageFault> {
    match it.digest {
        None => Err(ImageFault::IllegalVerify),
        Some(d) => {
            if !room_for(st, it, align) {
                Err(ImageFault::TooLarge)
            } else {
                let (is_backup, backup_id, backup_offset) = backup_of(st, d);
                if is_backup != 0 && backup_offset + it.data.len() > u64::MAX {
                    Err(ImageFault::TooLarge)
                } else {
                let offset: int = if is_backup == 0 {
                    align_up(st.body.len() as int, align as int)
                } else {
                    backup_offset as int
                };
                let body = if is_backup == 0 {
                    st.body + zeros((offset - st.body.len()) as nat) + it.data
                } else {
                    st.body
                };
                let info = InfoView {
                    item_id: st.infos.len() as u32,
                    file_type: file_type_of(it.data),
                    current_offset_in_item: 0,
                    offset_in_image: offset as u64,
                    item_size: it.data.len() as u64,
                    main_type: it.extension,
                    sub_type: it.stem,
                    verify: if it.extension == "PARTITION"@ {
                        1
                    } else {
                        0
                    },
                    is_backup_item: is_backup,
                    backup_item_id: backup_id,
                };
                let infos = st.infos.push(info);
                let digests = st.digests.push(d);
                if it.extension == "PARTITION"@ {
                    let payload = verify_payload(d);
                    let verify_info = InfoView {
                        item_id: infos.len() as u32,
                        file_type: FILE_TYPE_GENERIC,
                        current_offset_in_item: 0,
                        offset_in_image: (offset + it.data.len()) as u64,
                        item_size: 48,
                        main_type: "VERIFY"@,
                        sub_type: it.stem,
                        verify: 0,
                        is_backup_item: is_backup,
                        backup_item_id: if is_backup == 0 {
                            0
                        } else {
                            ((backup_id + 1) % 65536) as u16
                        },
                    };
                    Ok(
                        LayoutView {
                            infos: infos.push(verify_info),
                            digests: digests.push(sha1_of(payload)),
                            body: if is_backup == 0 {
                                body + payload
                            } else {
                                body
                            },
                        },
                    )
                } else {
                    Ok(LayoutView { infos, digests, body })
                }
                }
            }
        },
    }
}

fn align_up_exec(n: usize, align: usize) -> (r: usize)
    requires
        align > 0,
        n + align - 1 <= usize::MAX,
    ensures
        r == align_up(n as int, align as int),
        n <= r <= n + align - 1,
        r % align == 0,
{
    let x: usize = n + (align - 1);
    proof {
        lemma_fundamental_div_mod(x as int, align as int);
        vstd::arithmetic::div_mod::lemma_mod_pos_bound(x as int, align as int);
        assert((x as int / align as int) * align as int == align as int * (x as int / align as int)) by (nonlinear_arith);
        lemma_mod_multiples_basic(x as int / align as int, align as int);
        assert(x as int / align as int >= 0) by (nonlinear_arith)
            requires
                x >= 0,
                align > 0,
        ;
    }
    x / align * align
}

fn has_sparse_magic(data: &[u8]) -> (r: bool)
    ensures
        r == (data@.len() >= 4 && data@.subrange(0, 4) == sparse_magic()),
{
    if data.len() < 4 {
        return false;
    }
    let r = data[0] == 0x3a && data[1] == 0xff && data[2] == 0x26 && data[3] == 0xed;
    assert(r == (data@.subrange(0, 4) =~= sparse_magic()));
    r
}

/// `sha1sum ` followed by the digest in lowercase hex.
fn verify_content(sha1sum: &Sha1sum) -> (r: Vec<u8>)
    ensures
        r@ == verify_payload(sha1sum@),
        r@.len() == 48,
{
    let mut out: Vec<u8> = vec![0x73, 0x68, 0x61, 0x31, 0x73, 0x75, 0x6d, 0x20];
    let mut hex = sha1sum.to_hex();
    out.append(&mut hex);
    assert(out@ =~= verify_payload(sha1sum@));
    out
}

/// An image being written: its header, its table so far with the digest of
/// each record, and the bodies; `data_head_infos` receives the header and
/// table when they are done.
pub struct ImageToWrite {
    pub head: RawImageHead,
    pub infos: Vec<RawItemInfo>,
    pub sha1sums: Vec<Sha1sum>,
    pub data_head_infos: Vec<u8>,
    pub data_body: Vec<u8>,
}

impl View for ImageToWrite {
    type V = LayoutView;

    open spec fn view(&self) -> LayoutView {
        LayoutView {
            infos: self.infos@.map_values(|i: RawItemInfo| i@),
            digests: self.sha1sums@.map_values(|d: Sha1sum| d@),
            body: self.data_body@,
        }
    }
}

impl ImageToWrite {
    pub open spec fn wf(&self) -> bool {
        &&& self.infos@.len() == self.sha1sums@.len()
        &&& self.infos@.len() <= u32::MAX
        &&& self.head.item_count == self.infos@.len()
    }

    /// Looks for an earlier record with the same digest whose body can be
    /// shared: whether there is one, its id, and its offset.
    pub fn find_backup(&self, sha1sum: &Sha1sum) -> (r: (u16, u16, u64))
        requires
            self.wf(),
        ensures
            r == backup_of(self@, sha1sum@),
    {
        let mut id: usize = 0;
        while id < self.infos.len()
            invariant
                self.wf(),
                id <= self@.infos.len(),
                first_backup_from(self@, sha1sum@, 0) == first_backup_from(self@, sha1sum@, id as int),
            decreases self@.infos.len() - id,
        {
            let info = &self.infos[id];
            assert(self@.infos[id as int] == info@);
            assert(self@.digests[id as int] == self.sha1sums@[id as int]@);
            if *sha1sum == self.sha1sums[id] && !(str_eq(info.item_main_type.as_str(), "USB")
                && str_ends_with(info.item_sub_type.as_str(), "_ENC")) {
                return (1, (id % 65536) as u16, info.offset_in_image);
            }
            id = id + 1;
        }
        (0, 0, 0)
    }

    /// Appends one item, and its verify record where it is a partition.
    pub fn append_item(&mut self, item: &Item) -> (r: Result<(), ImageError>)
        requires
            old(self).wf(),
            old(self).head.item_align_size > 0,
        ensures
            final(self).wf(),
            match append_spec(old(self)@, item@, old(self).head.item_align_size) {
                Ok(st) => r is Ok && final(self)@ == st && final(self).head == (RawImageHead {
                    item_count: st.infos.len() as u32,
                    ..old(self).head
                }),
                Err(f) => r matches Err(e) && e@ == f,
            },
            r is Ok ==> final(self).data_head_infos == old(self).data_head_infos,
            r is Err ==> *final(self) == *old(self),
    {
        let sha1sum = match &item.sha1sum {
            Some(sha1sum) => *sha1sum,
            None => {
                return Err(ImageError::IllegalVerify);
            },
        };
        let align_size = self.head.item_align_size as usize;
        let data_len = item.data.len();
        if data_len > usize::MAX - 48 || align_size > usize::MAX - 48 - data_len
            || self.data_body.len() > usize::MAX - 48 - data_len - align_size
            || self.infos.len() > 0xffff_fffd {
            return Err(ImageError::TooLarge);
        }
        let (is_backup_item, backup_item_id, backup_offset) = self.find_backup(&sha1sum);
        if is_backup_item != 0 && backup_offset > u64::MAX - data_len as u64 {
            return Err(ImageError::TooLarge);
        }
        let ghost before = self@;
        let offset: u64;
        if is_backup_item == 0 {
            let body_len = self.data_body.len();
            let aligned = align_up_exec(body_len, align_size);
            push_zeros_to(&mut self.data_body, aligned - body_len);
            let mut copy = slice_to_vec(item.data.as_slice());
            self.data_body.append(&mut copy);
            offset = aligned as u64;
        } else {
            offset = backup_offset;
        }
        let is_partition = str_eq(item.extension.as_str(), "PARTITION");
        let info = RawItemInfo {
            item_id: self.infos.len() as u32,
            file_type: if has_sparse_magic(item.data.as_slice()) {
                FILE_TYPE_SPARSE
            } else {
                FILE_TYPE_GENERIC
            },
            current_offset_in_item: 0,
            offset_in_image: offset,
            item_size: data_len as u64,
            item_main_type: item.extension.clone(),
            item_sub_type: item.stem.clone(),
            verify: if is_partition {
                1
            } else {
                0
            },
            is_backup_item,
            backup_item_id,
        };
        let ghost info_view = info@;
        self.infos.push(info);
        self.sha1sums.push(sha1sum);
        self.head.item_count = self.head.item_count + 1;
        assert(self@.infos =~= before.infos.push(info_view));
        assert(self@.digests =~= before.digests.push(sha1sum@));
        if is_partition {
            let mut content = verify_content(&sha1sum);
            let verify_sha1sum = Sha1sum::from_data(content.as_slice());
            let verify_info = RawItemInfo {
                item_id: self.infos.len() as u32,
                file_type: FILE_TYPE_GENERIC,
                current_offset_in_item: 0,
                offset_in_image: offset + data_len as u64,
                item_size: 48,
                item_main_type: "VERIFY".to_owned(),
                item_sub_type: item.stem.clone(),
                verify: 0,
                is_backup_item,
                backup_item_id: if is_backup_item == 0 {
                    0
                } else {
                    backup_item_id.wrapping_add(1)
                },
            };
            let ghost verify_view = verify_info@;
            let ghost mid = self@;
            self.infos.push(verify_info);
            self.sha1sums.push(verify_sha1sum);
            self.head.item_count = self.head.item_count + 1;
            assert(self@.infos =~= mid.infos.push(verify_view));
            assert(self@.digests =~= mid.digests.push(verify_sha1sum@));
            if is_backup_item == 0 {
                self.data_body.append(&mut content);
            }
        }
        Ok(())
    }
}

// ---------------------------------------------------------------------------
// Order of the items
// ---------------------------------------------------------------------------

/// The reserved slot of a `USB` item: `DDR`, `DDR_ENC`, `UBOOT`, `UBOOT_ENC`.
pub open spec fn usb_slot(stem: Seq<char>) -> Option<int> {
    if stem == "DDR"@ {
        Some(0)
    } else if stem == "DDR_ENC"@ {
        Some(1)
    } else if stem == "UBOOT"@ {
        Some(2)
    } else if stem == "UBOOT_ENC"@ {
        Some(3)
    } else {
        None
    }
}

/// The first `n` items sorted into the four `USB` slots and the rest, or
/// the first `USB` item that has no slot or finds its slot taken.
pub open spec fn classify(items: Seq<ItemView>, n: nat) -> Result<(Seq<Option<usize>>, Seq<usize>), ImageFault>
    decreases n,
{
    if n == 0 {
        Ok((seq![None, None, None, None], Seq::empty()))
    } else {
        match classify(items, (n - 1) as nat) {
            Err(e) => Err(e),
            Ok((slots, generic)) => {
                let i = (n - 1) as usize;
                let it = items[n - 1];
                if it.extension == "USB"@ {
                    match usb_slot(it.stem) {
                        None => Err(ImageFault::UnexpectedItem(it.stem, "USB"@)),
                        Some(k) => if slots[k] is Some {
                            Err(ImageFault::DuplicatedItem(it.stem, "USB"@))
                        } else {
                            Ok((slots.update(k, Some(i)), generic))
                        },
                    }
                } else {
                    Ok((slots, generic.push(i)))
                }
            },
        }
    }
}

pub open spec fn item_gt(items: Seq<ItemView>, a: usize, b: usize) -> bool {
    name_gt(items[a as int].stem, items[a as int].extension, items[b as int].stem, items[b as int].extension)
}

/// The first position from `j` on in `sorted` whose item sorts after item
/// `x`, or the end.
pub open spec fn first_greater(items: Seq<ItemView>, sorted: Seq<usize>, x: usize, j: int) -> int
    decreases sorted.len() - j,
{
    if j < 0 || j >= sorted.len() {
        sorted.len() as int
    } else if item_gt(items, sorted[j], x) {
        j
    } else {
        first_greater(items, sorted, x, j + 1)
    }
}

/// The indices `idx` ordered by the names of their items, stem first, then
/// extension; indices of equal names keep their order.
pub open spec fn sort_by_name(items: Seq<ItemView>, idx: Seq<usize>) -> Seq<usize>
    decreases idx.len(),
{
    if idx.len() == 0 {
        Seq::empty()
    } else {
        let sorted = sort_by_name(items, idx.drop_last());
        sorted.insert(first_greater(items, sorted, idx.last(), 0), idx.last())
    }
}

pub open spec fn opt_seq(o: Option<usize>) -> Seq<usize> {
    match o {
        Some(i) => seq![i],
        None => Seq::empty(),
    }
}

/// The order in which the items are written: `DDR.USB`, `DDR_ENC.USB` if
/// present, `UBOOT.USB`, `UBOOT_ENC.USB` if present, then all others by name.
pub open spec fn emission_order(items: Seq<ItemView>) -> Result<Seq<usize>, ImageFault> {
    match classify(items, items.len()) {
        Err(e) => Err(e),
        Ok((slots, generic)) => {
            if slots[0] is None {
                Err(ImageFault::MissingItem("DDR"@, "USB"@))
            } else if slots[2] is None {
                Err(ImageFault::MissingItem("UBOOT"@, "USB"@))
            } else {
                Ok(
                    opt_seq(slots[0]) + opt_seq(slots[1]) + opt_seq(slots[2]) + opt_seq(slots[3])
                        + sort_by_name(items, generic),
                )
            }
        },
    }
}

// ---------------------------------------------------------------------------
// The whole image
// ---------------------------------------------------------------------------

pub open spec fn empty_layout() -> LayoutView {
    LayoutView { infos: Seq::empty(), digests: Seq::empty(), body: Seq::empty() }
}

/// The layout after appending the first `n` items of `order`.
pub open spec fn layout_items(items: Seq<ItemView>, order: Seq<usize>, align: u32, n: nat) -> Result<LayoutView, ImageFault>
    decreases n,
{
    if n == 0 {
        Ok(empty_layout())
    } else {
        match layout_items(items, order, align, (n - 1) as nat) {
            Err(e) => Err(e),
            Ok(st) => append_spec(st, items[order[n - 1] as int], align),
        }
    }
}

/// Bytes taken by the header and a table of `n` records.
pub open spec fn table_offset(ver: ImageVersion, n: nat) -> int {
    (64 + ver.record_size() * n) as int
}

pub open spec fn shift_offset(info: InfoView, by: int) -> InfoView {
    InfoView { offset_in_image: (info.offset_in_image + by) as u64, ..info }
}

pub open spec fn records_bytes(infos: Seq<InfoView>, width: nat) -> Seq<u8>
    decreases infos.len(),
{
    if infos.len() == 0 {
        Seq::empty()
    } else {
        records_bytes(infos.drop_last(), width) + info_bytes(infos.last(), width)
    }
}

/// Whether the finished layout fits: the file in memory, and every offset,
/// moved past the header and table, in 64 bits.
pub open spec fn layout_fits(st: LayoutView, ver: ImageVersion) -> bool {
    &&& table_offset(ver, st.infos.len()) + st.body.len() <= usize::MAX
    &&& forall|k: int|
        0 <= k < st.infos.len() ==> #[trigger] st.infos[k].offset_in_image + table_offset(
            ver,
            st.infos.len(),
        ) <= u64::MAX
}

/// Header `h` once the table is done: the size of the whole file and the
/// version filled in.
pub open spec fn finished_head(h: RawImageHead, st: LayoutView, ver: ImageVersion) -> RawImageHead {
    RawImageHead {
        image_size: (st.body.len() + table_offset(ver, st.infos.len())) as u64,
        version: ver.raw(),
        ..h
    }
}

/// The header of a finished image.
pub open spec fn encoded_head(st: LayoutView, ver: ImageVersion, align: u32) -> RawImageHead {
    RawImageHead {
        crc: image_crc(st, ver, align),
        version: ver.raw(),
        magic: MAGIC,
        image_size: (st.body.len() + table_offset(ver, st.infos.len())) as u64,
        item_align_size: align,
        item_count: st.infos.len() as u32,
    }
}

/// A fresh header, finished, with the table after it, is [`table_bytes`].
proof fn lemma_finished_table(h: RawImageHead, st: LayoutView, ver: ImageVersion)
    requires
        h.crc == 0,
        h.magic == MAGIC,
        h.item_count == st.infos.len(),
    ensures
        head_bytes(finished_head(h, st, ver)) + records_bytes(
            st.infos.map_values(|i: InfoView| shift_offset(i, table_offset(ver, st.infos.len()))),
            ver.name_width(),
        ) == table_bytes(st, ver, h.item_align_size),
{
    assert(finished_head(h, st, ver) == RawImageHead {
        crc: 0,
        version: ver.raw(),
        magic: MAGIC,
        image_size: (st.body.len() + table_offset(ver, st.infos.len())) as u64,
        item_align_size: h.item_align_size,
        item_count: st.infos.len() as u32,
    });
}

/// The header, with the checksum field zero, and the table, with offsets
/// counted from the start of the file.
pub open spec fn table_bytes(st: LayoutView, ver: ImageVersion, align: u32) -> Seq<u8> {
    let off = table_offset(ver, st.infos.len());
    head_bytes(
        RawImageHead {
            crc: 0,
            version: ver.raw(),
            magic: MAGIC,
            image_size: (st.body.len() + off) as u64,
            item_align_size: align,
            item_count: st.infos.len() as u32,
        },
    ) + records_bytes(st.infos.map_values(|i: InfoView| shift_offset(i, off)), ver.name_width())
}

/// The checksum of a finished image: over everything but its first 4 bytes.
pub open spec fn image_crc(st: LayoutView, ver: ImageVersion, align: u32) -> u32 {
    let head = table_bytes(st, ver, align);
    crc32_of(head.subrange(4, head.len() as int) + st.body)
}

/// The bytes of a finished image.
pub open spec fn image_bytes(st: LayoutView, ver: ImageVersion, align: u32) -> Seq<u8> {
    let head = table_bytes(st, ver, align);
    crate::layout::u32_le(image_crc(st, ver, align)) + head.subrange(4, head.len() as int) + st.body
}

/// The laid-out items of an image, or why they cannot be laid out.
pub open spec fn layout_image(img: ImageView) -> Result<LayoutView, ImageFault> {
    match emission_order(img.items) {
        Err(e) => Err(e),
        Ok(order) => layout_items(img.items, order, img.align, order.len()),
    }
}

/// What an image encodes to.
pub open spec fn encode_image(img: ImageView) -> Result<Seq<u8>, ImageFault> {
    match layout_image(img) {
        Err(e) => Err(e),
        Ok(st) => if !layout_fits(st, img.version) {
            Err(ImageFault::TooLarge)
        } else {
            Ok(image_bytes(st, img.version, img.align))
        },
    }
}

/// Once the ordering fails, it stays failed with the same error.
proof fn lemma_classify_error_persists(items: Seq<ItemView>, m: nat, n: nat)
    requires
        m <= n,
        classify(items, m) is Err,
    ensures
        classify(items, n) == classify(items, m),
    decreases n - m,
{
    if m < n {
        lemma_classify_error_persists(items, m, (n - 1) as nat);
    }
}

/// Once the layout fails, it stays failed with the same error.
proof fn lemma_layout_error_persists(items: Seq<ItemView>, order: Seq<usize>, align: u32, m: nat, n: nat)
    requires
        m <= n,
        layout_items(items, order, align, m) is Err,
    ensures
        layout_items(items, order, align, n) == layout_items(items, order, align, m),
    decreases n - m,
{
    if m < n {
        lemma_layout_error_persists(items, order, align, m, (n - 1) as nat);
    }
}

/// The indices `idx` ordered as [`sort_by_name`] says.
fn sort_indices(items: &Vec<Item>, idx: &Vec<usize>) -> (r: Vec<usize>)
    requires
        forall|k: int| 0 <= k < idx@.len() ==> #[trigger] idx@[k] < items@.len(),
    ensures
        r@ == sort_by_name(items@.map_values(|it: Item| it@), idx@),
        forall|m: int| 0 <= m < r@.len() ==> #[trigger] r@[m] < items@.len(),
{
    let ghost views = items@.map_values(|it: Item| it@);
    let mut sorted: Vec<usize> = Vec::new();
    let mut k: usize = 0;
    assert(idx@.subrange(0, 0) =~= Seq::<usize>::empty());
    while k < idx.len()
        invariant
            k <= idx@.len(),
            views == items@.map_values(|it: Item| it@),
            forall|m: int| 0 <= m < idx@.len() ==> #[trigger] idx@[m] < items@.len(),
            forall|m: int| 0 <= m < sorted@.len() ==> #[trigger] sorted@[m] < items@.len(),
            sorted@ == sort_by_name(views, idx@.subrange(0, k as int)),
        decreases idx@.len() - k,
    {
        let x = idx[k];
        let mut j: usize = 0;
        while j < sorted.len() && !name_greater(
            items[sorted[j]].stem.as_str(),
            items[sorted[j]].extension.as_str(),
            items[x].stem.as_str(),
            items[x].extension.as_str(),
        )
            invariant
                j <= sorted@.len(),
                x < items@.len(),
                views == items@.map_values(|it: Item| it@),
                forall|m: int| 0 <= m < sorted@.len() ==> #[trigger] sorted@[m] < items@.len(),
                first_greater(views, sorted@, x, 0) == first_greater(views, sorted@, x, j as int),
            decreases sorted@.len() - j,
        {
            assert(views[sorted@[j as int] as int] == items@[sorted@[j as int] as int]@);
            assert(views[x as int] == items@[x as int]@);
            j = j + 1;
        }
        proof {
            if j < sorted@.len() {
                assert(views[sorted@[j as int] as int] == items@[sorted@[j as int] as int]@);
                assert(views[x as int] == items@[x as int]@);
            }
            assert(idx@.subrange(0, k + 1).drop_last() =~= idx@.subrange(0, k as int));
        }
        sorted.insert(j, x);
        k = k + 1;
    }
    assert(idx@.subrange(0, k as int) =~= idx@);
    sorted
}

impl ImageToWrite {
    /// Writes the header and the table, moving every offset past them.
    pub fn finalize(&mut self, version: &ImageVersion) -> (r: Result<(), ImageError>)
        requires
            old(self).wf(),
        ensures
            !layout_fits(old(self)@, *version) ==> (r matches Err(e) && e@ == ImageFault::TooLarge)
                && *final(self) == *old(self),
            layout_fits(old(self)@, *version) ==> {
                &&& r is Ok
                &&& final(self).wf()
                &&& final(self).head == finished_head(old(self).head, old(self)@, *version)
                &&& final(self)@.infos == old(self)@.infos.map_values(
                    |i: InfoView| shift_offset(i, table_offset(*version, old(self)@.infos.len())),
                )
                &&& final(self).sha1sums == old(self).sha1sums
                &&& final(self).data_body == old(self).data_body
                &&& final(self).data_head_infos@ == head_bytes(final(self).head) + records_bytes(
                    final(self)@.infos,
                    version.name_width(),
                )
            },
    {
        let ghost st = self@;
        let size_info = version.size_raw_info();
        let width = version.size_item_type();
        let count = self.infos.len();
        assert(size_info as u64 * count as u64 <= 576 * 0xffff_ffffu64) by (nonlinear_arith)
            requires
                size_info <= 576,
                count <= 0xffff_ffffu32,
        ;
        let offset: u64 = 64 + size_info as u64 * count as u64;
        assert(offset as int == table_offset(*version, st.infos.len()));
        if offset > usize::MAX as u64 || self.data_body.len() > usize::MAX - offset as usize {
            return Err(ImageError::TooLarge);
        }
        let mut k: usize = 0;
        while k < self.infos.len()
            invariant
                k <= self@.infos.len(),
                self@ == st,
                st == old(self)@,
                offset as int == table_offset(*version, st.infos.len()),
                forall|j: int| 0 <= j < k ==> #[trigger] st.infos[j].offset_in_image + offset <= u64::MAX,
            decreases self@.infos.len() - k,
        {
            assert(st.infos[k as int] == self.infos@[k as int]@);
            if self.infos[k].offset_in_image > u64::MAX - offset {
                assert(st.infos[k as int].offset_in_image + table_offset(*version, st.infos.len()) > u64::MAX);
                assert(!layout_fits(st, *version));
                return Err(ImageError::TooLarge);
            }
            k = k + 1;
        }
        let ghost shifted = st.infos.map_values(|i: InfoView| shift_offset(i, offset as int));
        let mut k: usize = 0;
        while k < self.infos.len()
            invariant
                k <= self.infos@.len(),
                self.infos@.len() == st.infos.len(),
                shifted.len() == st.infos.len(),
                st == old(self)@,
                shifted == st.infos.map_values(|i: InfoView| shift_offset(i, offset as int)),
                self.sha1sums == old(self).sha1sums,
                self.data_body == old(self).data_body,
                self.head == old(self).head,
                forall|j: int| 0 <= j < st.infos.len() ==> #[trigger] st.infos[j].offset_in_image + offset <= u64::MAX,
                forall|j: int| 0 <= j < k ==> #[trigger] self.infos@[j]@ == shifted[j],
                forall|j: int| k <= j < self.infos@.len() ==> #[trigger] self.infos@[j] == old(self).infos@[j],
            decreases self.infos@.len() - k,
        {
            assert(st.infos[k as int] == old(self).infos@[k as int]@);
            assert(self.infos@[k as int] == old(self).infos@[k as int]);
            assert(st.infos[k as int].offset_in_image + offset <= u64::MAX);
            let moved = self.infos[k].offset_in_image + offset;
            self.infos[k].offset_in_image = moved;
            k = k + 1;
        }
        self.head.image_size = self.data_body.len() as u64 + offset;
        self.head.version = version.to_raw();
        self.data_head_infos.clear();
        self.head.write(&mut self.data_head_infos);
        let ghost head_part = self.data_head_infos@;
        assert(self.head == finished_head(old(self).head, st, *version));
        assert(head_part == head_bytes(self.head));
        let mut k: usize = 0;
        assert(shifted.subrange(0, 0) =~= Seq::<InfoView>::empty());
        while k < self.infos.len()
            invariant
                k <= self.infos@.len(),
                self.infos@.len() == st.infos.len(),
                shifted.len() == st.infos.len(),
                width == version.name_width(),
                width >= 1,
                forall|j: int| 0 <= j < self.infos@.len() ==> #[trigger] self.infos@[j]@ == shifted[j],
                self.data_head_infos@ == head_part + records_bytes(shifted.subrange(0, k as int), width as nat),
                self.data_body == old(self).data_body,
                self.sha1sums == old(self).sha1sums,
                self.head == finished_head(old(self).head, st, *version),
                head_part == head_bytes(self.head),
                st == old(self)@,
            decreases self.infos@.len() - k,
        {
            self.infos[k].write(width, &mut self.data_head_infos);
            assert(shifted.subrange(0, k + 1).drop_last() =~= shifted.subrange(0, k as int));
            k = k + 1;
        }
        assert(shifted.subrange(0, k as int) =~= shifted);
        assert(self@.infos =~= shifted);
        Ok(())
    }

    /// The order in which an image's items are written, as indices.
    pub fn item_order(image: &Image) -> (r: Result<Vec<usize>, ImageError>)
        ensures
            match emission_order(image@.items) {
                Err(f) => r matches Err(e) && e@ == f,
                Ok(order) => r matches Ok(v) && v@ == order,
            },
            r matches Ok(v) ==> forall|m: int| 0 <= m < v@.len() ==> #[trigger] v@[m] < image@.items.len(),
    {
        let ghost items = image@.items;
        let mut ddr_usb: Option<usize> = None;
        let mut ddr_enc_usb: Option<usize> = None;
        let mut uboot_usb: Option<usize> = None;
        let mut uboot_enc_usb: Option<usize> = None;
        let mut generic: Vec<usize> = Vec::new();
        let mut i: usize = 0;
        while i < image.items.len()
            invariant
                i <= image@.items.len(),
                items == image@.items,
                forall|m: int| 0 <= m < generic@.len() ==> #[trigger] generic@[m] < i,
                ddr_usb matches Some(v) ==> v < i,
                ddr_enc_usb matches Some(v) ==> v < i,
                uboot_usb matches Some(v) ==> v < i,
                uboot_enc_usb matches Some(v) ==> v < i,
                classify(items, i as nat) == Ok::<(Seq<Option<usize>>, Seq<usize>), ImageFault>(
                    (seq![ddr_usb, ddr_enc_usb, uboot_usb, uboot_enc_usb], generic@),
                ),
            decreases image@.items.len() - i,
        {
            let item = &image.items[i];
            assert(items[i as int] == item@);
            if str_eq(item.extension.as_str(), "USB") {
                let stem = item.stem.as_str();
                let slot: usize = if str_eq(stem, "DDR") {
                    0
                } else if str_eq(stem, "DDR_ENC") {
                    1
                } else if str_eq(stem, "UBOOT") {
                    2
                } else if str_eq(stem, "UBOOT_ENC") {
                    3
                } else {
                    proof {
                        lemma_classify_error_persists(items, (i + 1) as nat, items.len());
                    }
                    return Err(ImageError::UnexpectedItem { stem: item.stem.clone(), extension: "USB".to_owned() });
                };
                let taken = if slot == 0 {
                    ddr_usb.is_some()
                } else if slot == 1 {
                    ddr_enc_usb.is_some()
                } else if slot == 2 {
                    uboot_usb.is_some()
                } else {
                    uboot_enc_usb.is_some()
                };
                if taken {
                    proof {
                        lemma_classify_error_persists(items, (i + 1) as nat, items.len());
                    }
                    return Err(ImageError::DuplicatedItem { stem: item.stem.clone(), extension: "USB".to_owned() });
                }
                let ghost old_slots = seq![ddr_usb, ddr_enc_usb, uboot_usb, uboot_enc_usb];
                assert(usb_slot(item@.stem) == Some(slot as int));
                if slot == 0 {
                    ddr_usb = Some(i);
                } else if slot == 1 {
                    ddr_enc_usb = Some(i);
                } else if slot == 2 {
                    uboot_usb = Some(i);
                } else {
                    uboot_enc_usb = Some(i);
                }
                assert(seq![ddr_usb, ddr_enc_usb, uboot_usb, uboot_enc_usb] =~= old_slots.update(
                    slot as int,
                    Some(i),
                ));
            } else {
                generic.push(i);
            }
            i = i + 1;
        }
        assert(i == items.len());
        let ddr = match ddr_usb {
            Some(k) => k,
            None => {
                return Err(ImageError::MissingItem { stem: "DDR".to_owned(), extension: "USB".to_owned() });
            },
        };
        let uboot = match uboot_usb {
            Some(k) => k,
            None => {
                return Err(ImageError::MissingItem { stem: "UBOOT".to_owned(), extension: "USB".to_owned() });
            },
        };
        let sorted = sort_indices(&image.items, &generic);
        let mut order: Vec<usize> = Vec::new();
        order.push(ddr);
        match ddr_enc_usb {
            Some(k) => order.push(k),
            None => {},
        }
        order.push(uboot);
        match uboot_enc_usb {
            Some(k) => order.push(k),
            None => {},
        }
        let ghost head_order = order@;
        let mut rest = sorted;
        order.append(&mut rest);
        assert(order@ =~= opt_seq(ddr_usb) + opt_seq(ddr_enc_usb) + opt_seq(uboot_usb) + opt_seq(uboot_enc_usb) + sort_by_name(items, generic@));
        assert(emission_order(items) == Ok::<Seq<usize>, ImageFault>(order@));
        Ok(order)
    }

    /// Appends the items of `image` in `order`.
    pub fn layout_in_order(image: &Image, order: &Vec<usize>) -> (r: Result<ImageToWrite, ImageError>)
        requires
            image.align > 0,
            emission_order(image@.items) == Ok::<Seq<usize>, ImageFault>(order@),
            forall|m: int| 0 <= m < order@.len() ==> #[trigger] order@[m] < image@.items.len(),
        ensures
            match layout_items(image@.items, order@, image.align, order@.len()) {
                Err(f) => r matches Err(e) && e@ == f,
                Ok(st) => r matches Ok(w) && w@ == st && w.wf() && w.head.crc == 0 && w.head.magic == MAGIC
                    && w.head.item_align_size == image.align,
            },
    {
        let ghost items = image@.items;
        let mut image_to_write = ImageToWrite {
            head: RawImageHead::new(&image.version, image.align),
            infos: Vec::new(),
            sha1sums: Vec::new(),
            data_head_infos: Vec::new(),
            data_body: Vec::new(),
        };
        assert(image_to_write@.infos =~= empty_layout().infos);
        assert(image_to_write@.digests =~= empty_layout().digests);
        assert(image_to_write@.body =~= empty_layout().body);
        let mut k: usize = 0;
        while k < order.len()
            invariant
                k <= order@.len(),
                items == image@.items,
                image.align > 0,
                emission_order(items) == Ok::<Seq<usize>, ImageFault>(order@),
                forall|m: int| 0 <= m < order@.len() ==> #[trigger] order@[m] < items.len(),
                image_to_write.wf(),
                image_to_write.head.crc == 0,
                image_to_write.head.magic == MAGIC,
                image_to_write.head.item_align_size == image.align,
                layout_items(items, order@, image.align, k as nat) == Ok::<LayoutView, ImageFault>(image_to_write@),
            decreases order@.len() - k,
        {
            let item = &image.items[order[k]];
            assert(items[order@[k as int] as int] == item@);
            match image_to_write.append_item(item) {
                Ok(()) => {},
                Err(e) => {
                    proof {
                        lemma_layout_error_persists(items, order@, image.align, (k + 1) as nat, order@.len());
                    }
                    return Err(e);
                },
            }
            k = k + 1;
        }
        Ok(image_to_write)
    }

    /// Lays out an image: its items in order, then the header, table and
    /// checksum.
    #[verifier::rlimit(100)]
    pub fn try_from_image(image: &Image) -> (r: Result<ImageToWrite, ImageError>)
        requires
            image.align > 0,
        ensures
            match layout_image(image@) {
                Err(f) => r matches Err(e) && e@ == f,
                Ok(st) => if !layout_fits(st, image.version) {
                    r matches Err(e) && e@ == ImageFault::TooLarge
                } else {
                    r matches Ok(w) && {
                        &&& w.data_head_infos@ + w.data_body@ == image_bytes(st, image.version, image.align)
                        &&& w.wf()
                        &&& w.head == encoded_head(st, image.version, image.align)
                        &&& w@.infos == st.infos.map_values(
                            |i: InfoView| shift_offset(i, table_offset(image.version, st.infos.len())),
                        )
                        &&& w@.digests == st.digests
                        &&& w.data_body@ == st.body
                    }
                },
            },
    {
        let ghost items = image@.items;
        let order = Self::item_order(image)?;
        let mut image_to_write = Self::layout_in_order(image, &order)?;
        let ghost st = image_to_write@;
        let ghost h0 = image_to_write.head;
        image_to_write.finalize(&image.version)?;
        proof {
            lemma_finished_table(h0, st, image.version);
        }
        let mut crc32_hasher = Crc32Hasher::new();
        let head_len = image_to_write.data_head_infos.len();
        crc32_hasher.update(&image_to_write.data_head_infos.as_slice()[4..head_len]);
        crc32_hasher.update(image_to_write.data_body.as_slice());
        let crc = crc32_hasher.value;
        proof {
            crate::crc32::lemma_crc_update_concat(
                crate::crc32::CRC32_INIT,
                image_to_write.data_head_infos@.subrange(4, head_len as int),
                image_to_write.data_body@,
            );
        }
        image_to_write.head.crc = crc;
        image_to_write.data_head_infos.set(0, (crc & 0xff) as u8);
        image_to_write.data_head_infos.set(1, ((crc >> 8) & 0xff) as u8);
        image_to_write.data_head_infos.set(2, ((crc >> 16) & 0xff) as u8);
        image_to_write.data_head_infos.set(3, ((crc >> 24) & 0xff) as u8);
        Ok(image_to_write)
    }
}

impl Image {
    /// Encodes the image into the bytes of an image file.
    pub fn encode(&self) -> (r: Result<Vec<u8>, ImageError>)
        requires
            self.align > 0,
        ensures
            result_view(r) == encode_image(self@),
    {
        let mut image_to_write = ImageToWrite::try_from_image(self)?;
        let mut out = image_to_write.data_head_infos;
        out.append(&mut image_to_write.data_body);
        Ok(out)
    }
}

} // verus!
