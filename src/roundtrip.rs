//! The round trip: an image whose digests are those of its items, whose
//! names fit their fields, and whose contents the digests tell apart,
//! decodes from its encoding to its items in the order they were written.

use vstd::prelude::*;

use crate::decode::{body_of, decode_image, decode_records, record_in, record_start, verify_prefix};
use crate::encode::{
    align_up, append_spec, backup_of, emission_order, empty_layout, encode_image, first_backup_from,
    image_bytes, image_crc, is_enc_usb, layout_fits, layout_image, layout_items, shift_offset,
    table_bytes, table_offset, verify_payload, LayoutView,
};
use crate::error::ImageFault;
use crate::image::{ImageView, ItemView};
use crate::layout::ImageVersion;
use crate::readback::{lemma_image_records_fit, lemma_order_bounds, lemma_table_bytes_read, names_fit, record_fits};
use crate::layout::{name_bytes, zeros};
use crate::names::bytes_end_with;
use crate::sha1sum::{all_hex_digits, hex_decode, hex_digit_lower, hex_digit_value, hex_lower, is_hex_digit, sha1_of};

verus! {

proof fn lemma_hex_digit(n: u8)
    requires
        n < 16,
    ensures
        is_hex_digit(hex_digit_lower(n)),
        hex_digit_value(hex_digit_lower(n)) == n,
{
}

/// Lowercase hex decodes back to the bytes it was made from.
pub proof fn lemma_hex_round_trip(d: Seq<u8>)
    ensures
        hex_lower(d).len() == 2 * d.len(),
        all_hex_digits(hex_lower(d)),
        hex_decode(hex_lower(d)) == d,
    decreases d.len(),
{
    if d.len() > 0 {
        let rest = d.drop_last();
        lemma_hex_round_trip(rest);
        let b = d.last();
        let hi: u8 = b >> 4;
        let lo: u8 = b & 0xf;
        assert(hi < 16 && lo < 16 && hi * 16 + lo == b) by (bit_vector)
            requires
                hi == b >> 4,
                lo == b & 0xf,
        ;
        lemma_hex_digit(hi);
        lemma_hex_digit(lo);
        let h = hex_lower(d);
        let p = hex_lower(rest);
        assert(h == p + seq![hex_digit_lower(hi), hex_digit_lower(lo)]);
        assert forall|k: int| 0 <= k < h.len() implies is_hex_digit(#[trigger] h[k]) by {
            if k < p.len() {
                assert(h[k] == p[k]);
            }
        }
        assert forall|i: int| 0 <= i < d.len() implies #[trigger] hex_decode(h)[i] == d[i] by {
            if i < rest.len() {
                assert(h[2 * i] == p[2 * i]);
                assert(h[2 * i + 1] == p[2 * i + 1]);
                assert(hex_decode(p)[i] == rest[i]);
            } else {
                assert(h[2 * i] == hex_digit_lower(hi));
                assert(h[2 * i + 1] == hex_digit_lower(lo));
            }
        }
        assert(hex_decode(h) =~= d);
    }
}

pub proof fn lemma_payload_shape(d: Seq<u8>)
    requires
        d.len() == 20,
    ensures
        verify_payload(d).len() == 48,
        verify_payload(d).subrange(0, 8) == verify_prefix(),
        all_hex_digits(verify_payload(d).subrange(8, 48)),
        hex_decode(verify_payload(d).subrange(8, 48)) == d,
{
    lemma_hex_round_trip(d);
    assert(verify_payload(d).subrange(0, 8) =~= verify_prefix());
    assert(verify_payload(d).subrange(8, 48) =~= hex_lower(d));
}

pub open spec fn is_partition(it: ItemView) -> bool {
    it.extension == "PARTITION"@
}

/// A `USB` item stored encrypted, whose contents are never shared.
pub open spec fn is_enc_item(it: ItemView) -> bool {
    it.extension == "USB"@ && bytes_end_with(name_bytes(it.stem), name_bytes("_ENC"@))
}

/// Bytes the encoder may store for `items`: an item's data, or the verify
/// record of a partition.
pub open spec fn is_content(items: Seq<ItemView>, c: Seq<u8>) -> bool {
    exists|i: int|
        0 <= i < items.len() && (c == #[trigger] items[i].data || (is_partition(items[i]) && c
            == verify_payload(sha1_of(items[i].data))))
}

pub open spec fn is_partition_data(items: Seq<ItemView>, c: Seq<u8>) -> bool {
    exists|i: int| 0 <= i < items.len() && is_partition(items[i]) && c == #[trigger] items[i].data
}

/// What the round trip asks of an image's items: each carries the 20-byte
/// digest of its data; the digests tell stored contents apart; and no
/// partition shares its bytes with another kind of item (but an `_ENC.USB`
/// one) or with a verify record.
pub open spec fn contents_distinct(items: Seq<ItemView>) -> bool {
    &&& forall|i: int|
        0 <= i < items.len() ==> #[trigger] items[i].digest == Some(sha1_of(items[i].data))
            && sha1_of(items[i].data).len() == 20
    &&& forall|a: Seq<u8>, b: Seq<u8>|
        is_content(items, a) && is_content(items, b) && #[trigger] sha1_of(a) == #[trigger] sha1_of(b)
            ==> a == b
    &&& forall|i: int, j: int|
        0 <= i < items.len() && 0 <= j < items.len() && is_partition(#[trigger] items[i])
            && !is_partition(#[trigger] items[j]) && !is_enc_item(items[j]) ==> items[i].data
            != items[j].data
    &&& forall|i: int, j: int|
        0 <= i < items.len() && 0 <= j < items.len() && is_partition(#[trigger] items[i])
            && is_partition(#[trigger] items[j]) ==> items[i].data != verify_payload(
            sha1_of(items[j].data),
        )
}

/// The bytes that record `k` points to.
pub open spec fn content(st: LayoutView, k: int) -> Seq<u8> {
    st.body.subrange(
        st.infos[k].offset_in_image as int,
        st.infos[k].offset_in_image + st.infos[k].item_size,
    )
}

pub open spec fn record_ok(st: LayoutView, items: Seq<ItemView>, k: int) -> bool {
    &&& st.infos[k].offset_in_image + st.infos[k].item_size <= st.body.len()
    &&& is_content(items, content(st, k))
    &&& st.digests[k] == sha1_of(content(st, k))
    &&& (st.infos[k].verify == 0 && !is_enc_usb(st.infos[k])) ==> !is_partition_data(
        items,
        content(st, k),
    )
    &&& st.infos[k].verify != 0 ==> {
        &&& is_partition_data(items, content(st, k))
        &&& k + 1 < st.infos.len()
        &&& st.infos[k + 1].offset_in_image == st.infos[k].offset_in_image + st.infos[k].item_size
        &&& st.infos[k + 1].item_size == 48
        &&& content(st, k + 1) == verify_payload(sha1_of(content(st, k)))
    }
}

/// Every record points inside the bodies, at contents its digest names.
pub open spec fn layout_ok(st: LayoutView, items: Seq<ItemView>) -> bool {
    &&& st.infos.len() == st.digests.len()
    &&& st.infos.len() <= u32::MAX
    &&& forall|k: int| 0 <= k < st.infos.len() ==> #[trigger] record_ok(st, items, k)
}

/// `next` continues `st`: earlier records, digests and bodies are kept.
pub open spec fn extends(next: LayoutView, st: LayoutView) -> bool {
    &&& st.infos.len() <= next.infos.len()
    &&& st.digests.len() <= next.digests.len()
    &&& st.body.len() <= next.body.len()
    &&& forall|k: int| 0 <= k < st.infos.len() ==> #[trigger] next.infos[k] == st.infos[k]
    &&& forall|k: int| 0 <= k < st.digests.len() ==> #[trigger] next.digests[k] == st.digests[k]
    &&& next.body.subrange(0, st.body.len() as int) == st.body
}

proof fn lemma_content_kept(st: LayoutView, next: LayoutView, k: int)
    requires
        extends(next, st),
        0 <= k < st.infos.len(),
        st.infos[k].offset_in_image + st.infos[k].item_size <= st.body.len(),
    ensures
        content(next, k) == content(st, k),
{
    let a = st.infos[k].offset_in_image as int;
    let b = a + st.infos[k].item_size;
    assert(next.infos[k] == st.infos[k]);
    assert(next.body.subrange(a, b) =~= next.body.subrange(0, st.body.len() as int).subrange(a, b));
}

/// Appending item `i` keeps the layout sound, and its records read as that
/// item and, for a partition, its verify record.
pub proof fn lemma_append_ok(st: LayoutView, items: Seq<ItemView>, i: int, align: u32)
    requires
        layout_ok(st, items),
        contents_distinct(items),
        0 <= i < items.len(),
        align > 0,
        append_spec(st, items[i], align) is Ok,
    ensures
        ({
            let next = append_spec(st, items[i], align)->Ok_0;
            let n = st.infos.len() as int;
            &&& layout_ok(next, items)
            &&& extends(next, st)
            &&& next.infos.len() == n + if is_partition(items[i]) { 2int } else { 1int }
            &&& content(next, n) == items[i].data
            &&& is_partition(items[i]) ==> content(next, n + 1) == verify_payload(sha1_of(items[i].data))
        }),
{
    let it = items[i];
    let d = it.digest->Some_0;
    let next = append_spec(st, it, align)->Ok_0;
    let n = st.infos.len() as int;
    let (is_backup, backup_id, backup_offset) = backup_of(st, d);
    assert(is_content(items, it.data));
    if is_partition(it) {
        assert(is_content(items, verify_payload(sha1_of(it.data))));
        lemma_payload_shape(d);
    }
    assert(next.infos.len() <= u32::MAX);
    if is_backup == 0 {
        let nb = st.body.len() as int;
        let a = align as int;
        let x = nb + a - 1;
        vstd::arithmetic::div_mod::lemma_fundamental_div_mod(x, a);
        vstd::arithmetic::div_mod::lemma_mod_pos_bound(x, a);
        assert((x / a) * a == a * (x / a)) by (nonlinear_arith);
        let off = align_up(nb, a);
        let grown = st.body + zeros((off - nb) as nat) + it.data;
        assert(grown.subrange(off, off + it.data.len()) =~= it.data);
        assert(grown.subrange(0, nb) =~= st.body);
        if is_partition(it) {
            let full = grown + verify_payload(d);
            assert(next.body == full);
            assert(full.subrange(0, grown.len() as int) =~= grown);
            assert(full.subrange(off, off + it.data.len()) =~= it.data);
            assert(full.subrange(off + it.data.len(), off + it.data.len() + 48) =~= verify_payload(d));
            assert(full.subrange(0, nb) =~= st.body);
        } else {
            assert(next.body == grown);
        }
        assert(content(next, n) == it.data);
    } else {
        let k = first_backup_from(st, d, 0)->Some_0;
        lemma_first_backup_found(st, d, 0);
        assert(record_ok(st, items, k));
        assert(sha1_of(content(st, k)) == sha1_of(it.data));
        assert(content(st, k) == it.data);
        assert(next.body == st.body);
        assert(st.body.subrange(0, st.body.len() as int) =~= st.body);
        if is_partition(it) {
            if st.infos[k].verify == 0 {
                assert(is_partition_data(items, content(st, k)));
            }
        }
        assert(content(next, n) =~= content(st, k));
    }
    assert forall|k: int| 0 <= k < n implies #[trigger] next.infos[k] == st.infos[k] by {
        if is_partition(it) {
            assert(next.infos[k] == st.infos.push(next.infos[n]).push(next.infos[n + 1])[k]);
        } else {
            assert(next.infos[k] == st.infos.push(next.infos[n])[k]);
        }
    }
    assert forall|k: int| 0 <= k < st.digests.len() implies #[trigger] next.digests[k] == st.digests[k] by {
        if is_partition(it) {
            assert(next.digests[k] == st.digests.push(next.digests[n]).push(next.digests[n + 1])[k]);
        } else {
            assert(next.digests[k] == st.digests.push(next.digests[n])[k]);
        }
    }
    assert(next.body.subrange(0, st.body.len() as int) == st.body);
    assert(extends(next, st));
    assert(next.infos[n].offset_in_image + next.infos[n].item_size <= next.body.len());
    assert(is_content(items, content(next, n)));
    assert(next.digests[n] == sha1_of(content(next, n)));
    if is_partition(it) {
        assert(next.infos[n].verify == 1);
        assert(is_partition(items[i]) && content(next, n) == items[i].data);
        assert(is_partition_data(items, content(next, n)));
        if is_backup == 0 {
            assert(content(next, n + 1) == verify_payload(d));
        } else {
            let k = first_backup_from(st, d, 0)->Some_0;
            lemma_first_backup_found(st, d, 0);
            assert(record_ok(st, items, k));
            assert(st.infos[k].verify != 0);
            assert(record_ok(st, items, k + 1));
            assert(next.infos[n + 1].offset_in_image == st.infos[k + 1].offset_in_image);
            assert(content(next, n + 1) == content(st, k + 1));
        }
        assert(content(next, n + 1) == verify_payload(sha1_of(content(next, n))));
        assert(next.infos[n + 1].offset_in_image + next.infos[n + 1].item_size <= next.body.len());
        assert(is_content(items, content(next, n + 1)));
        assert(next.digests[n + 1] == sha1_of(content(next, n + 1)));
        if is_partition_data(items, content(next, n + 1)) {
            let j = choose|j: int| 0 <= j < items.len() && is_partition(items[j]) && content(next, n + 1) == #[trigger] items[j].data;
            assert(items[j].data != verify_payload(sha1_of(items[i].data)));
        }
        assert(record_ok(next, items, n + 1));
    } else {
        assert(next.infos[n].verify == 0);
        if !is_enc_usb(next.infos[n]) && is_partition_data(items, content(next, n)) {
            let j = choose|j: int| 0 <= j < items.len() && is_partition(items[j]) && content(next, n) == #[trigger] items[j].data;
            assert(!is_enc_item(items[i]));
            assert(items[j].data != items[i].data);
        }
    }
    assert(record_ok(next, items, n));
    assert forall|k: int| 0 <= k < next.infos.len() implies #[trigger] record_ok(next, items, k) by {
        if k < n {
            assert(record_ok(st, items, k));
            lemma_content_kept(st, next, k);
            if st.infos[k].verify != 0 {
                assert(record_ok(st, items, k + 1));
                lemma_content_kept(st, next, k + 1);
            }
        }
    }
}

proof fn lemma_first_backup_found(st: LayoutView, d: Seq<u8>, j: int)
    requires
        0 <= j,
        first_backup_from(st, d, j) is Some,
    ensures
        ({
            let k = first_backup_from(st, d, j)->Some_0;
            j <= k < st.infos.len() && k < st.digests.len() && st.digests[k] == d && !is_enc_usb(st.infos[k])
        }),
    decreases st.infos.len() - j,
{
    if j < st.infos.len() && j < st.digests.len() && !(st.digests[j] == d && !is_enc_usb(st.infos[j])) {
        lemma_first_backup_found(st, d, j + 1);
    }
}

proof fn lemma_extends_trans(a: LayoutView, b: LayoutView, c: LayoutView)
    requires
        extends(b, a),
        extends(c, b),
    ensures
        extends(c, a),
{
    assert forall|k: int| 0 <= k < a.infos.len() implies #[trigger] c.infos[k] == a.infos[k] by {
        assert(c.infos[k] == b.infos[k]);
    }
    assert forall|k: int| 0 <= k < a.digests.len() implies #[trigger] c.digests[k] == a.digests[k] by {
        assert(c.digests[k] == b.digests[k]);
    }
    assert(c.body.subrange(0, a.body.len() as int) =~= c.body.subrange(0, b.body.len() as int).subrange(0, a.body.len() as int));
}

/// The layout after `m` items is sound, and the layout after `n >= m` items
/// continues it.
proof fn lemma_layout_grows(items: Seq<ItemView>, order: Seq<usize>, align: u32, m: nat, n: nat)
    requires
        contents_distinct(items),
        align > 0,
        forall|x: int| 0 <= x < order.len() ==> #[trigger] order[x] < items.len(),
        m <= n <= order.len(),
        layout_items(items, order, align, n) is Ok,
    ensures
        layout_items(items, order, align, m) is Ok,
        layout_ok(layout_items(items, order, align, n)->Ok_0, items),
        layout_ok(layout_items(items, order, align, m)->Ok_0, items),
        extends(layout_items(items, order, align, n)->Ok_0, layout_items(items, order, align, m)->Ok_0),
    decreases n,
{
    let st_n = layout_items(items, order, align, n)->Ok_0;
    if n == 0 {
        assert(st_n.body.subrange(0, 0) =~= st_n.body);
        assert(layout_ok(st_n, items));
    } else {
        let p = (n - 1) as nat;
        if m == n {
            lemma_layout_grows(items, order, align, p, p);
        } else {
            lemma_layout_grows(items, order, align, m, p);
        }
        let prev = layout_items(items, order, align, p)->Ok_0;
        lemma_append_ok(prev, items, order[p as int] as int, align);
        if m == n {
            assert(st_n.body.subrange(0, st_n.body.len() as int) =~= st_n.body);
        } else {
            lemma_extends_trans(layout_items(items, order, align, m)->Ok_0, prev, st_n);
        }
    }
}

/// What an item reads back as: its digest is kept for a partition only,
/// since only a partition is written with a verify record.
pub open spec fn as_decoded(it: ItemView) -> ItemView {
    ItemView { digest: if is_partition(it) { it.digest } else { None }, ..it }
}

/// What the round trip asks of an image.
pub open spec fn round_trip_ready(img: ImageView) -> bool {
    &&& img.items.len() <= usize::MAX
    &&& img.align > 0
    &&& names_fit(img.items, img.version)
    &&& contents_distinct(img.items)
    &&& encode_image(img) is Ok
}

/// Record `k` of an encoded image, read from the file, with the bytes it
/// points to.
proof fn lemma_read_record(img: ImageView, k: int)
    requires
        img.items.len() <= usize::MAX,
        names_fit(img.items, img.version),
        encode_image(img) is Ok,
        0 <= k < layout_image(img)->Ok_0.infos.len(),
        layout_ok(layout_image(img)->Ok_0, img.items),
    ensures
        ({
            let file = encode_image(img)->Ok_0;
            let st = layout_image(img)->Ok_0;
            let info = record_in(file, img.version, k);
            &&& record_start(img.version, k) + img.version.record_size() <= file.len()
            &&& info == shift_offset(st.infos[k], table_offset(img.version, st.infos.len()))
            &&& info.offset_in_image + info.item_size <= file.len()
            &&& body_of(file, info) == content(st, k)
            &&& info.main_type == st.infos[k].main_type
            &&& info.sub_type == st.infos[k].sub_type
            &&& info.verify == st.infos[k].verify
            &&& info.item_size == st.infos[k].item_size
        }),
{
    let st = layout_image(img)->Ok_0;
    let ver = img.version;
    let crc = image_crc(st, ver, img.align);
    lemma_image_records_fit(img);
    assert(record_fits(st.infos[k], ver.name_width()));
    assert(layout_fits(st, ver));
    assert(encode_image(img)->Ok_0 == image_bytes(st, ver, img.align));
    assert(record_ok(st, img.items, k));
    lemma_body_read(st, ver, img.align, k);
}

#[verifier::rlimit(100)]
proof fn lemma_body_read(st: LayoutView, ver: ImageVersion, align: u32, k: int)
    requires
        0 <= k < st.infos.len(),
        layout_fits(st, ver),
        record_fits(st.infos[k], ver.name_width()),
        st.infos[k].offset_in_image + st.infos[k].item_size <= st.body.len(),
    ensures
        ({
            let file = image_bytes(st, ver, align);
            let info = record_in(file, ver, k);
            &&& record_start(ver, k) + ver.record_size() <= file.len()
            &&& info == shift_offset(st.infos[k], table_offset(ver, st.infos.len()))
            &&& info.offset_in_image + info.item_size <= file.len()
            &&& body_of(file, info) == content(st, k)
            &&& info.main_type == st.infos[k].main_type
            &&& info.sub_type == st.infos[k].sub_type
            &&& info.verify == st.infos[k].verify
            &&& info.item_size == st.infos[k].item_size
        }),
{
    let crc = image_crc(st, ver, align);
    lemma_table_bytes_read(st, ver, align, crc, k);
    let file = image_bytes(st, ver, align);
    let head = table_bytes(st, ver, align);
    let t = table_offset(ver, st.infos.len());
    assert(st.infos[k].offset_in_image + t <= u64::MAX);
    let info = shift_offset(st.infos[k], t);
    assert(info.offset_in_image == st.infos[k].offset_in_image + t);
    let a = st.infos[k].offset_in_image as int;
    let b = a + st.infos[k].item_size;
    lemma_tail_read(crate::layout::u32_le(crc), head.subrange(4, head.len() as int), st.body, a, b);
}

proof fn lemma_tail_read(c: Seq<u8>, h: Seq<u8>, body: Seq<u8>, a: int, b: int)
    requires
        c.len() == 4,
        0 <= a <= b <= body.len(),
    ensures
        (c + h + body).subrange(4 + h.len() + a, 4 + h.len() + b) == body.subrange(a, b),
{
    assert((c + h + body).subrange(4 + h.len() + a, 4 + h.len() + b) =~= body.subrange(a, b));
}

/// Decoding the first records of an encoded image gives its first items.
#[verifier::rlimit(100)]
proof fn lemma_decode_prefix(img: ImageView, m: nat)
    requires
        round_trip_ready(img),
        m <= emission_order(img.items)->Ok_0.len(),
    ensures
        ({
            let order = emission_order(img.items)->Ok_0;
            let file = encode_image(img)->Ok_0;
            let st = layout_items(img.items, order, img.align, m)->Ok_0;
            decode_records(file, img.version, st.infos.len()) == Ok::<(Seq<ItemView>, Option<ItemView>), ImageFault>((
                order.subrange(0, m as int).map_values(|j: usize| as_decoded(img.items[j as int])),
                None,
            ))
        }),
    decreases m,
{
    let items = img.items;
    let order = emission_order(items)->Ok_0;
    let file = encode_image(img)->Ok_0;
    let ver = img.version;
    let n = order.len();
    lemma_order_bounds(items);
    lemma_layout_grows(items, order, img.align, m, n);
    let fin = layout_image(img)->Ok_0;
    assert(fin == layout_items(items, order, img.align, n)->Ok_0);
    if m == 0 {
        assert(order.subrange(0, 0).map_values(|j: usize| as_decoded(items[j as int])) =~= Seq::<ItemView>::empty());
    } else {
        let p = (m - 1) as nat;
        lemma_decode_prefix(img, p);
        lemma_layout_grows(items, order, img.align, p, m);
        let prev = layout_items(items, order, img.align, p)->Ok_0;
        let next = layout_items(items, order, img.align, m)->Ok_0;
        let i = order[p as int] as int;
        let it = items[i];
        lemma_append_ok(prev, items, i, img.align);
        lemma_extends_trans(prev, next, fin);
        let l = prev.infos.len() as int;
        let before = order.subrange(0, p as int).map_values(|j: usize| as_decoded(items[j as int]));
        assert(order.subrange(0, m as int).map_values(|j: usize| as_decoded(items[j as int])) =~= before.push(as_decoded(it)));
        assert(record_ok(next, items, l));
        lemma_content_kept(next, fin, l);
        lemma_read_record(img, l);
        let info = record_in(file, ver, l);
        assert(next.infos[l].main_type == it.extension);
        assert(next.infos[l].sub_type == it.stem);
        assert(next.infos[l].item_size == it.data.len() as u64);
        assert(body_of(file, info) == it.data);
        if is_partition(it) {
            assert(next.infos[l].verify == 1);
            let pending = ItemView { data: it.data, stem: it.stem, extension: it.extension, digest: None };
            assert(decode_records(file, ver, (l + 1) as nat) == Ok::<(Seq<ItemView>, Option<ItemView>), ImageFault>((before, Some(pending))));
            assert(record_ok(next, items, l + 1));
            lemma_content_kept(next, fin, l + 1);
            lemma_read_record(img, l + 1);
            let vinfo = record_in(file, ver, l + 1);
            assert(next.infos[l + 1].main_type == "VERIFY"@);
            assert(next.infos[l + 1].sub_type == it.stem);
            assert(next.infos[l + 1].verify == 0);
            let d = sha1_of(it.data);
            assert(it.digest == Some(d) && d.len() == 20);
            lemma_payload_shape(d);
            assert(body_of(file, vinfo) == verify_payload(d));
            assert(as_decoded(it) == ItemView { digest: Some(hex_decode(verify_payload(d).subrange(8, 48))), ..pending });
        } else {
            assert(next.infos[l].verify == 0);
            assert(as_decoded(it) == ItemView { data: it.data, stem: it.stem, extension: it.extension, digest: None });
        }
    }
}

/// Decoding an encoded image gives back its items, in the order they were
/// written (`DDR.USB`, `DDR_ENC.USB`, `UBOOT.USB`, `UBOOT_ENC.USB`, then by
/// name), with the same names and bytes, each partition with its digest and
/// every other item without one, and the same version and alignment; for
/// an image whose names fit their fields and whose contents the digests
/// tell apart.
#[verifier::rlimit(100)]
pub proof fn lemma_round_trip(img: ImageView)
    requires
        round_trip_ready(img),
    ensures
        decode_image(encode_image(img)->Ok_0) == Ok::<ImageView, ImageFault>(ImageView {
            version: img.version,
            align: img.align,
            items: emission_order(img.items)->Ok_0.map_values(|j: usize| as_decoded(img.items[j as int])),
        }),
{
    let items = img.items;
    let order = emission_order(items)->Ok_0;
    let file = encode_image(img)->Ok_0;
    let n = order.len();
    lemma_order_bounds(items);
    lemma_decode_prefix(img, n);
    let fin = layout_image(img)->Ok_0;
    assert(n >= 1);
    lemma_layout_grows(items, order, img.align, 1, n);
    lemma_layout_grows(items, order, img.align, 0, 1);
    lemma_append_ok(empty_layout(), items, order[0] as int, img.align);
    assert(fin.infos.len() >= 1);
    let crc = image_crc(fin, img.version, img.align);
    lemma_image_records_fit(img);
    assert(record_fits(fin.infos[0], img.version.name_width()));
    lemma_table_bytes_read(fin, img.version, img.align, crc, 0);
    assert(order.subrange(0, n as int) =~= order);
}

} // verus!
