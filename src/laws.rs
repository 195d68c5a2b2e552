//! Properties of the codec as a whole, stated over the specifications of
//! encoding and decoding.

use vstd::arithmetic::div_mod::{lemma_fundamental_div_mod, lemma_mod_multiples_basic, lemma_mod_pos_bound};
use vstd::prelude::*;

use crate::crc32::crc32_of;
use crate::decode::{decode_image, decode_records, record_in, record_start};
use crate::encode::{
    align_up, append_spec, backup_of, classify, emission_order, encode_image, first_backup_from,
    is_enc_usb, layout_items,
    image_bytes, image_crc, layout_image, table_bytes, usb_slot, LayoutView,
};
use crate::error::ImageFault;
use crate::image::{ImageView, ItemView};
use crate::layout::{head_at, u32_at, u32_le, zeros, ImageVersion, MAGIC};

verus! {

/// The first four bytes of an encoded image hold, little-endian, the checksum
/// of all the bytes after them.
pub proof fn lemma_checksum_field(img: ImageView)
    requires
        encode_image(img) is Ok,
    ensures
        ({
            let bytes = encode_image(img)->Ok_0;
            bytes.len() >= 4 && u32_at(bytes, 0) == crc32_of(bytes.subrange(4, bytes.len() as int))
        }),
{
    let st = layout_image(img)->Ok_0;
    let bytes = image_bytes(st, img.version, img.align);
    let head = table_bytes(st, img.version, img.align);
    let crc = image_crc(st, img.version, img.align);
    assert(head.len() >= 64);
    assert(bytes.subrange(4, bytes.len() as int) =~= head.subrange(4, head.len() as int) + st.body);
    assert(bytes.subrange(0, 4) =~= u32_le(crc));
    crate::readback::lemma_u32_read(bytes, 0, crc);
}

/// Encoding is a function of the image: two images that hold the same
/// version, alignment and items encode to the same bytes, checksum included.
pub proof fn lemma_encode_deterministic(a: ImageView, b: ImageView)
    requires
        a.version == b.version,
        a.align == b.align,
        a.items == b.items,
    ensures
        encode_image(a) == encode_image(b),
{
    assert(a == b);
}

/// An item whose digest an earlier shareable record already has is stored as
/// a backup of the first such record: its record says so and points at that
/// record's body, and no byte is added to the bodies.
pub proof fn lemma_repeated_contents_stored_once(st: LayoutView, it: ItemView, align: u32, k: int)
    requires
        it.digest is Some,
        first_backup_from(st, it.digest->Some_0, 0) == Some(k),
        append_spec(st, it, align) is Ok,
    ensures
        ({
            let next = append_spec(st, it, align)->Ok_0;
            &&& next.infos[st.infos.len() as int].is_backup_item == 1
            &&& next.infos[st.infos.len() as int].offset_in_image == st.infos[k].offset_in_image
            &&& next.body == st.body
        }),
{
}

/// The body of an item that is not a backup starts at the next multiple of
/// the alignment, the bytes skipped to get there are zero, and the bodies
/// before it are kept.
pub proof fn lemma_bodies_aligned(st: LayoutView, it: ItemView, align: u32)
    requires
        align > 0,
        append_spec(st, it, align) is Ok,
        backup_of(st, it.digest->Some_0).0 == 0,
    ensures
        ({
            let next = append_spec(st, it, align)->Ok_0;
            let off = next.infos[st.infos.len() as int].offset_in_image as int;
            &&& off % (align as int) == 0
            &&& st.body.len() <= off < st.body.len() + align
            &&& next.body.subrange(0, st.body.len() as int) == st.body
            &&& next.body.subrange(st.body.len() as int, off) == zeros((off - st.body.len()) as nat)
            &&& next.body.subrange(off, off + it.data.len()) == it.data
        }),
{
    let n = st.body.len() as int;
    let a = align as int;
    let x = n + a - 1;
    lemma_fundamental_div_mod(x, a);
    lemma_mod_pos_bound(x, a);
    assert((x / a) * a == a * (x / a)) by (nonlinear_arith);
    assert(x / a >= 0) by (nonlinear_arith)
        requires
            x >= 0,
            a > 0,
    ;
    lemma_mod_multiples_basic(x / a, a);
    let off = align_up(n, a);
    let next = append_spec(st, it, align)->Ok_0;
    let grown = st.body + zeros((off - n) as nat) + it.data;
    assert(grown.subrange(0, n) =~= st.body);
    assert(grown.subrange(n, off) =~= zeros((off - n) as nat));
    assert(grown.subrange(off, off + it.data.len()) =~= it.data);
    if next.body != grown {
        assert(next.body.subrange(0, grown.len() as int) =~= grown);
    }
    assert(next.body.subrange(0, n) =~= grown.subrange(0, n));
    assert(next.body.subrange(n, off) =~= grown.subrange(n, off));
    assert(next.body.subrange(off, off + it.data.len()) =~= grown.subrange(off, off + it.data.len()));
}

/// Failure of the reader at some record is the failure of the whole file.
proof fn lemma_decode_fails_from(file: Seq<u8>, m: nat)
    requires
        file.len() >= 64,
        head_at(file).magic == MAGIC,
        ImageVersion::from_raw(head_at(file).version) is Some,
        m <= head_at(file).item_count,
        decode_records(file, ImageVersion::from_raw(head_at(file).version)->Some_0, m) is Err,
    ensures
        decode_image(file) == Err::<ImageView, ImageFault>(
            decode_records(file, ImageVersion::from_raw(head_at(file).version)->Some_0, m)->Err_0,
        ),
{
    let ver = ImageVersion::from_raw(head_at(file).version)->Some_0;
    crate::decode::lemma_decode_error_persists(file, ver, m, head_at(file).item_count as nat);
}

/// A record that asks for verification must be followed by a `VERIFY`
/// record: where the next record is of another main type, the file does not
/// decode, and the error is `UnmatchedVerify`.
pub proof fn lemma_verify_record_must_follow(file: Seq<u8>, i: nat)
    requires
        file.len() >= 64,
        head_at(file).magic == MAGIC,
        ImageVersion::from_raw(head_at(file).version) is Some,
        i + 2 <= head_at(file).item_count,
        ({
            let ver = ImageVersion::from_raw(head_at(file).version)->Some_0;
            let r = record_in(file, ver, i as int);
            let next = record_in(file, ver, i + 1int);
            &&& decode_records(file, ver, i) matches Ok((_, pending)) && pending is None
            &&& record_start(ver, i + 1int) + ver.record_size() <= file.len()
            &&& r.offset_in_image + r.item_size <= file.len()
            &&& next.offset_in_image + next.item_size <= file.len()
            &&& r.verify != 0
            &&& next.main_type != "VERIFY"@
        }),
    ensures
        decode_image(file) == Err::<ImageView, ImageFault>(ImageFault::UnmatchedVerify),
{
    let ver = ImageVersion::from_raw(head_at(file).version)->Some_0;
    match ver {
        ImageVersion::V1 => assert(record_start(ver, i as int) + 128 == record_start(ver, i + 1int)),
        ImageVersion::V2 => assert(record_start(ver, i as int) + 576 == record_start(ver, i + 1int)),
    }
    assert(decode_records(file, ver, i + 1) is Ok);
    assert(decode_records(file, ver, (i + 2) as nat) == Err::<(Seq<ItemView>, Option<ItemView>), ImageFault>(
        ImageFault::UnmatchedVerify,
    ));
    lemma_decode_fails_from(file, (i + 2) as nat);
}

/// A record that asks for verification as the last record of the table
/// leaves the file undecodable with `UnmatchedVerify`.
pub proof fn lemma_last_record_cannot_ask_verify(file: Seq<u8>)
    requires
        file.len() >= 64,
        head_at(file).magic == MAGIC,
        ImageVersion::from_raw(head_at(file).version) is Some,
        head_at(file).item_count >= 1,
        ({
            let ver = ImageVersion::from_raw(head_at(file).version)->Some_0;
            let i = head_at(file).item_count - 1;
            let r = record_in(file, ver, i);
            &&& decode_records(file, ver, i as nat) matches Ok((_, pending)) && pending is None
            &&& record_start(ver, i) + ver.record_size() <= file.len()
            &&& r.offset_in_image + r.item_size <= file.len()
            &&& r.verify != 0
        }),
    ensures
        decode_image(file) == Err::<ImageView, ImageFault>(ImageFault::UnmatchedVerify),
{
    let ver = ImageVersion::from_raw(head_at(file).version)->Some_0;
    let n = head_at(file).item_count as nat;
    assert(decode_records(file, ver, n) matches Ok((_, pending)) && pending is Some);
}

/// A `USB` item takes one of the four reserved slots.
pub open spec fn usb_items_well_named(items: Seq<ItemView>) -> bool {
    &&& forall|i: int| 0 <= i < items.len() && #[trigger] items[i].extension == "USB"@ ==> usb_slot(items[i].stem) is Some
    &&& forall|i: int, j: int|
        0 <= i < j < items.len() && #[trigger] items[i].extension == "USB"@ && #[trigger] items[j].extension == "USB"@
            ==> items[i].stem != items[j].stem
}

proof fn lemma_classify_slots(items: Seq<ItemView>, n: nat)
    requires
        n <= items.len(),
        usb_items_well_named(items),
    ensures
        classify(items, n) is Ok,
        classify(items, n)->Ok_0.0.len() == 4,
        forall|k: int| 0 <= k < 4 ==> (#[trigger] classify(items, n)->Ok_0.0[k] is Some <==> exists|i: int|
            0 <= i < n && items[i].extension == "USB"@ && usb_slot(#[trigger] items[i].stem) == Some(k)),
    decreases n,
{
    if n > 0 {
        let m = (n - 1) as nat;
        lemma_classify_slots(items, m);
        let it = items[m as int];
        let slots = classify(items, m)->Ok_0.0;
        if it.extension == "USB"@ {
            let k = usb_slot(it.stem)->Some_0;
            if slots[k] is Some {
                let i = choose|i: int| 0 <= i < m && items[i].extension == "USB"@ && usb_slot(#[trigger] items[i].stem) == Some(k);
                assert(items[i].stem == it.stem);
            }
            let next = classify(items, n)->Ok_0.0;
            assert(next == slots.update(k, Some((n - 1) as usize)));
            assert forall|j: int| 0 <= j < 4 implies (#[trigger] next[j] is Some <==> exists|i: int|
                0 <= i < n && items[i].extension == "USB"@ && usb_slot(#[trigger] items[i].stem) == Some(j)) by {
                if j != k {
                    assert(next[j] == slots[j]);
                }
                if j == k {
                    assert(items[m as int].extension == "USB"@ && usb_slot(items[m as int].stem) == Some(j));
                } else if next[j] is Some {
                    let i = choose|i: int| 0 <= i < m && items[i].extension == "USB"@ && usb_slot(#[trigger] items[i].stem) == Some(j);
                    assert(0 <= i < n);
                } else if exists|i: int| 0 <= i < n && items[i].extension == "USB"@ && usb_slot(#[trigger] items[i].stem) == Some(j) {
                    let i = choose|i: int| 0 <= i < n && items[i].extension == "USB"@ && usb_slot(#[trigger] items[i].stem) == Some(j);
                    assert(i != m);
                }
            }
        } else {
            let next = classify(items, n)->Ok_0.0;
            assert(next == slots);
            assert forall|j: int| 0 <= j < 4 implies (#[trigger] next[j] is Some <==> exists|i: int|
                0 <= i < n && items[i].extension == "USB"@ && usb_slot(#[trigger] items[i].stem) == Some(j)) by {
                if exists|i: int| 0 <= i < n && items[i].extension == "USB"@ && usb_slot(#[trigger] items[i].stem) == Some(j) {
                    let i = choose|i: int| 0 <= i < n && items[i].extension == "USB"@ && usb_slot(#[trigger] items[i].stem) == Some(j);
                    assert(i != m);
                }
            }
        }
    }
}

/// An image with a `DDR.USB` item, well-named `USB` items and no `UBOOT.USB`
/// item cannot be encoded: the error names `UBOOT.USB` as missing.
pub proof fn lemma_uboot_required(img: ImageView, d: int)
    requires
        usb_items_well_named(img.items),
        0 <= d < img.items.len(),
        img.items[d].stem == "DDR"@ && img.items[d].extension == "USB"@,
        forall|i: int| 0 <= i < img.items.len() ==> !(#[trigger] img.items[i].stem == "UBOOT"@ && img.items[i].extension == "USB"@),
    ensures
        encode_image(img) == Err::<Seq<u8>, ImageFault>(ImageFault::MissingItem("UBOOT"@, "USB"@)),
{
    let items = img.items;
    lemma_classify_slots(items, items.len());
    let slots = classify(items, items.len())->Ok_0.0;
    assert(usb_slot(items[d].stem) == Some(0int));
    assert(slots[0] is Some);
    if slots[2] is Some {
        let i = choose|i: int| 0 <= i < items.len() && items[i].extension == "USB"@ && usb_slot(#[trigger] items[i].stem) == Some(2int);
        assert(items[i].stem == "UBOOT"@);
    }
    assert(emission_order(items) == Err::<Seq<usize>, ImageFault>(ImageFault::MissingItem("UBOOT"@, "USB"@)));
}

/// Record `k` is the verify record written right after a partition.
pub open spec fn follows_partition(st: LayoutView, k: int) -> bool {
    k > 0 && st.infos[k - 1].verify != 0
}

/// Record `j` is an earlier record that record `k` may share contents with.
pub open spec fn shareable_for(st: LayoutView, j: int, k: int) -> bool {
    0 <= j < k && st.digests[j] == st.digests[k] && !is_enc_usb(st.infos[j])
}

/// Where every item record of a layout stands: not a backup, at a multiple
/// of the alignment; a backup exactly when an earlier shareable record has
/// its digest, and then at the offset of the first such record.
pub open spec fn placed(st: LayoutView, align: u32, k: int) -> bool {
    !follows_partition(st, k) ==> {
        &&& st.infos[k].is_backup_item == 0 ==> st.infos[k].offset_in_image as int % align as int == 0
        &&& (st.infos[k].is_backup_item != 0 <==> exists|j: int| #[trigger] shareable_for(st, j, k))
        &&& st.infos[k].is_backup_item != 0 ==> exists|j: int|
            #[trigger] shareable_for(st, j, k) && st.infos[k].offset_in_image == st.infos[j].offset_in_image
                && forall|i: int| 0 <= i < j ==> !#[trigger] shareable_for(st, i, k)
    }
}

proof fn lemma_first_backup(st: LayoutView, d: Seq<u8>, j: int)
    requires
        0 <= j,
        st.infos.len() == st.digests.len(),
        forall|i: int| 0 <= i < j ==> !(st.digests[i] == d && !is_enc_usb(st.infos[i])),
    ensures
        match first_backup_from(st, d, j) {
            Some(k) => j <= k < st.infos.len() && st.digests[k] == d && !is_enc_usb(st.infos[k])
                && forall|i: int| 0 <= i < k ==> !(st.digests[i] == d && !is_enc_usb(st.infos[i])),
            None => forall|i: int| 0 <= i < st.infos.len() ==> !(st.digests[i] == d && !is_enc_usb(st.infos[i])),
        },
    decreases st.infos.len() - j,
{
    if j < st.infos.len() && !(st.digests[j] == d && !is_enc_usb(st.infos[j])) {
        lemma_first_backup(st, d, j + 1);
    }
}

proof fn lemma_layout_placed(items: Seq<ItemView>, order: Seq<usize>, align: u32, n: nat)
    requires
        align > 0,
        n <= order.len(),
        layout_items(items, order, align, n) is Ok,
    ensures
        ({
            let st = layout_items(items, order, align, n)->Ok_0;
            &&& st.infos.len() == st.digests.len()
            &&& st.infos.len() > 0 ==> st.infos.last().verify == 0
            &&& forall|k: int| 0 <= k < st.infos.len() ==> #[trigger] placed(st, align, k)
        }),
    decreases n,
{
    if n > 0 {
        let p = (n - 1) as nat;
        lemma_layout_placed(items, order, align, p);
        let prev = layout_items(items, order, align, p)->Ok_0;
        let it = items[order[p as int] as int];
        let next = layout_items(items, order, align, n)->Ok_0;
        assert(next == append_spec(prev, it, align)->Ok_0);
        let l = prev.infos.len() as int;
        let d = it.digest->Some_0;
        lemma_first_backup(prev, d, 0);
        assert forall|k: int| 0 <= k < l implies next.infos[k] == prev.infos[k] && next.digests[k] == prev.digests[k] by {
            if it.extension == "PARTITION"@ {
                assert(next.infos[k] == prev.infos.push(next.infos[l]).push(next.infos[l + 1])[k]);
                assert(next.digests[k] == prev.digests.push(next.digests[l]).push(next.digests[l + 1])[k]);
            } else {
                assert(next.infos[k] == prev.infos.push(next.infos[l])[k]);
                assert(next.digests[k] == prev.digests.push(next.digests[l])[k]);
            }
        }
        assert forall|k: int| 0 <= k < next.infos.len() implies #[trigger] placed(next, align, k) by {
            if k < l {
                assert(placed(prev, align, k));
                assert forall|j: int| shareable_for(next, j, k) <==> shareable_for(prev, j, k) by {
                    if 0 <= j < k {
                        assert(next.infos[j] == prev.infos[j]);
                    }
                }
                if k > 0 {
                    assert(next.infos[k - 1] == prev.infos[k - 1]);
                }
            } else if k == l {
                assert(!follows_partition(next, k));
                assert forall|j: int| shareable_for(next, j, k) <==> (0 <= j < l && prev.digests[j] == d && !is_enc_usb(prev.infos[j])) by {
                    if 0 <= j < k {
                        assert(next.infos[j] == prev.infos[j]);
                    }
                }
                if backup_of(prev, d).0 == 0 {
                    lemma_bodies_aligned(prev, it, align);
                } else {
                    let j = first_backup_from(prev, d, 0)->Some_0;
                    assert(shareable_for(next, j, k));
                    assert forall|i: int| 0 <= i < j implies !#[trigger] shareable_for(next, i, k) by {}
                }
            } else {
                assert(follows_partition(next, k));
            }
        }
    }
}

/// In an encoded image, every item record that is not a backup has its
/// body at a multiple of the alignment, counted from the start of the
/// bodies; a record is a backup exactly when an earlier record that may be
/// shared has its digest, and then it points at the first such record, whose
/// bytes are not written again.
pub proof fn lemma_image_records_placed(img: ImageView)
    requires
        img.align > 0,
        layout_image(img) is Ok,
    ensures
        forall|k: int|
            0 <= k < layout_image(img)->Ok_0.infos.len() ==> #[trigger] placed(layout_image(img)->Ok_0, img.align, k),
{
    let order = emission_order(img.items)->Ok_0;
    lemma_layout_placed(img.items, order, img.align, order.len());
}

} // verus!
