//! Reading back what was written: every record of an encoded image's table,
//! and its header, decode to the values the encoder put there.

use vstd::prelude::*;
use vstd::utf8::*;

use crate::decode::{record_in, record_start};
use crate::encode::{
    append_spec, classify, emission_order, encode_image, first_greater, layout_image,
    layout_items, opt_seq, records_bytes, shift_offset, sort_by_name, table_bytes, table_offset,
    LayoutView,
};
use crate::image::{ImageView, ItemView};
use crate::layout::{
    c_string, head_at, head_bytes, info_at, info_bytes, kept_len, lemma_c_string_prefix,
    lenient_utf8, name_bytes, name_field, u16_at, u16_le, u32_at, u32_le, u64_at, u64_le,
    zeros, ImageVersion, InfoView, RawImageHead, MAGIC,
};

verus! {

/// A name that a field of `width` bytes holds whole: shorter than the field,
/// so that a NUL follows, and free of NUL itself.
pub open spec fn name_fits(name: Seq<char>, width: nat) -> bool {
    &&& name_bytes(name).len() < width
    &&& forall|i: int| 0 <= i < name_bytes(name).len() ==> #[trigger] name_bytes(name)[i] != 0
}

/// Every item's stem and extension fit the name fields of `ver`.
pub open spec fn names_fit(items: Seq<ItemView>, ver: ImageVersion) -> bool {
    forall|i: int|
        0 <= i < items.len() ==> name_fits(#[trigger] items[i].stem, ver.name_width())
            && name_fits(items[i].extension, ver.name_width())
}

proof fn lemma_u16_read(s: Seq<u8>, off: int, v: u16)
    requires
        0 <= off,
        off + 2 <= s.len(),
        s.subrange(off, off + 2) == u16_le(v),
    ensures
        u16_at(s, off) == v,
{
    assert(s[off] == s.subrange(off, off + 2)[0]);
    assert(s[off + 1] == s.subrange(off, off + 2)[1]);
    assert(((((v & 0xff) as u8) as u16) | ((((v >> 8) & 0xff) as u8) as u16) << 8) == v)
        by (bit_vector);
}

pub proof fn lemma_u32_read(s: Seq<u8>, off: int, v: u32)
    requires
        0 <= off,
        off + 4 <= s.len(),
        s.subrange(off, off + 4) == u32_le(v),
    ensures
        u32_at(s, off) == v,
{
    let t = s.subrange(off, off + 4);
    assert(s[off] == t[0] && s[off + 1] == t[1] && s[off + 2] == t[2] && s[off + 3] == t[3]);
    assert(((((v & 0xff) as u8) as u32) | ((((v >> 8) & 0xff) as u8) as u32) << 8 | ((((v >> 16)
        & 0xff) as u8) as u32) << 16 | ((((v >> 24) & 0xff) as u8) as u32) << 24) == v)
        by (bit_vector);
}

proof fn lemma_u64_read(s: Seq<u8>, off: int, v: u64)
    requires
        0 <= off,
        off + 8 <= s.len(),
        s.subrange(off, off + 8) == u64_le(v),
    ensures
        u64_at(s, off) == v,
{
    let t = s.subrange(off, off + 8);
    assert(s[off] == t[0] && s[off + 1] == t[1] && s[off + 2] == t[2] && s[off + 3] == t[3]);
    assert(s[off + 4] == t[4] && s[off + 5] == t[5] && s[off + 6] == t[6] && s[off + 7] == t[7]);
    assert(((((v & 0xff) as u8) as u64) | ((((v >> 8) & 0xff) as u8) as u64) << 8 | ((((v >> 16)
        & 0xff) as u8) as u64) << 16 | ((((v >> 24) & 0xff) as u8) as u64) << 24 | ((((v >> 32)
        & 0xff) as u8) as u64) << 32 | ((((v >> 40) & 0xff) as u8) as u64) << 40 | ((((v >> 48)
        & 0xff) as u8) as u64) << 48 | ((((v >> 56) & 0xff) as u8) as u64) << 56) == v)
        by (bit_vector);
}

proof fn lemma_name_field_len(name: Seq<char>, width: nat)
    requires
        width >= 1,
    ensures
        name_field(name, width).len() == width,
{
}

proof fn lemma_name_field_read(name: Seq<char>, width: nat)
    requires
        name_fits(name, width),
    ensures
        lenient_utf8(c_string(name_field(name, width))) == name,
{
    let nb = name_bytes(name);
    let field = name_field(name, width);
    assert(kept_len(name, width) == nb.len());
    assert(field =~= nb + zeros((width - nb.len()) as nat));
    assert forall|j: int| 0 <= j < nb.len() implies field[j] != 0 by {
        assert(field[j] == nb[j]);
    }
    lemma_c_string_prefix(field, nb.len() as int);
    assert(field.subrange(0, nb.len() as int) =~= nb);
    encode_utf8_valid_utf8(name);
    encode_utf8_decode_utf8(name);
}

/// A record written with names that fit reads back unchanged.
proof fn lemma_info_read(x: InfoView, width: nat)
    requires
        width >= 1,
        name_fits(x.main_type, width),
        name_fits(x.sub_type, width),
    ensures
        info_bytes(x, width).len() == 64 + 2 * width,
        info_at(info_bytes(x, width), width) == x,
{
    let w = width as int;
    let b = info_bytes(x, width);
    lemma_name_field_len(x.main_type, width);
    lemma_name_field_len(x.sub_type, width);
    assert(b.subrange(0, 4) =~= u32_le(x.item_id));
    assert(b.subrange(4, 8) =~= u32_le(x.file_type));
    assert(b.subrange(8, 16) =~= u64_le(x.current_offset_in_item));
    assert(b.subrange(16, 24) =~= u64_le(x.offset_in_image));
    assert(b.subrange(24, 32) =~= u64_le(x.item_size));
    assert(b.subrange(32, 32 + w) =~= name_field(x.main_type, width));
    assert(b.subrange(32 + w, 32 + 2 * w) =~= name_field(x.sub_type, width));
    assert(b.subrange(32 + 2 * w, 36 + 2 * w) =~= u32_le(x.verify));
    assert(b.subrange(36 + 2 * w, 38 + 2 * w) =~= u16_le(x.is_backup_item));
    assert(b.subrange(38 + 2 * w, 40 + 2 * w) =~= u16_le(x.backup_item_id));
    lemma_u32_read(b, 0, x.item_id);
    lemma_u32_read(b, 4, x.file_type);
    lemma_u64_read(b, 8, x.current_offset_in_item);
    lemma_u64_read(b, 16, x.offset_in_image);
    lemma_u64_read(b, 24, x.item_size);
    lemma_u32_read(b, 32 + 2 * w, x.verify);
    lemma_u16_read(b, 36 + 2 * w, x.is_backup_item);
    lemma_u16_read(b, 38 + 2 * w, x.backup_item_id);
    lemma_name_field_read(x.main_type, width);
    lemma_name_field_read(x.sub_type, width);
}

/// Record `i` of a written table is the bytes of the `i`-th record.
proof fn lemma_records_layout(infos: Seq<InfoView>, width: nat, i: int)
    requires
        width >= 1,
        0 <= i < infos.len(),
    ensures
        records_bytes(infos, width).len() == infos.len() * (64 + 2 * width),
        records_bytes(infos, width).subrange(
            i * (64 + 2 * width),
            i * (64 + 2 * width) + 64 + 2 * width,
        ) == info_bytes(infos[i], width),
    decreases infos.len(),
{
    let r = 64 + 2 * width;
    let n = infos.len() as int;
    let front = records_bytes(infos.drop_last(), width);
    lemma_name_field_len(infos.last().main_type, width);
    lemma_name_field_len(infos.last().sub_type, width);
    assert(info_bytes(infos.last(), width).len() == r);
    if n == 1 {
        assert(front.len() == 0);
        assert(records_bytes(infos, width) =~= info_bytes(infos.last(), width));
    } else {
        if i < n - 1 {
            lemma_records_layout(infos.drop_last(), width, i);
        } else {
            lemma_records_layout(infos.drop_last(), width, 0);
        }
    }
    assert(front.len() == (n - 1) * r);
    assert((n - 1) * r + r == n * r) by (nonlinear_arith);
    let all = records_bytes(infos, width);
    if i < n - 1 {
        assert(i * r + r <= (n - 1) * r) by (nonlinear_arith)
            requires
                i < n - 1,
                r > 0,
        ;
        assert(i * r >= 0) by (nonlinear_arith)
            requires
                i >= 0,
                r > 0,
        ;
        assert(all.subrange(i * r, i * r + r) =~= front.subrange(i * r, i * r + r));
        assert(infos.drop_last()[i] == infos[i]);
    } else {
        assert(i * r == (n - 1) * r);
        assert(all.subrange(i * r, i * r + r) =~= info_bytes(infos.last(), width));
    }
}

/// The header and record `i` of a finished table read back as written.
pub proof fn lemma_table_bytes_read(st: LayoutView, ver: ImageVersion, align: u32, crc: u32, i: int)
    requires
        0 <= i < st.infos.len(),
        name_fits(st.infos[i].main_type, ver.name_width()),
        name_fits(st.infos[i].sub_type, ver.name_width()),
    ensures
        ({
            let head = table_bytes(st, ver, align);
            let file = u32_le(crc) + head.subrange(4, head.len() as int) + st.body;
            let off = table_offset(ver, st.infos.len());
            &&& head.len() == off
            &&& file.len() >= 64
            &&& head_at(file).version == ver.raw()
            &&& head_at(file).magic == MAGIC
            &&& head_at(file).item_count == st.infos.len() as u32
            &&& head_at(file).item_align_size == align
            &&& record_start(ver, i) + ver.record_size() <= file.len()
            &&& record_in(file, ver, i) == shift_offset(st.infos[i], off)
        }),
{
    let w = ver.name_width();
    let r = ver.record_size() as int;
    let head = table_bytes(st, ver, align);
    let file = u32_le(crc) + head.subrange(4, head.len() as int) + st.body;
    let off = table_offset(ver, st.infos.len());
    let shifted = st.infos.map_values(|x: InfoView| shift_offset(x, off));
    let h = RawImageHead {
        crc: 0,
        version: ver.raw(),
        magic: MAGIC,
        image_size: (st.body.len() + off) as u64,
        item_align_size: align,
        item_count: st.infos.len() as u32,
    };
    let hb = head_bytes(h);
    let recs = records_bytes(shifted, w);
    assert(hb.len() == 64);
    assert(head =~= hb + recs);
    lemma_records_layout(shifted, w, i);
    assert(r == 64 + 2 * w);
    assert(recs.len() == st.infos.len() * r);
    assert(head.len() == off);
    assert(file.len() == head.len() + st.body.len());
    assert(forall|j: int| 4 <= j < head.len() ==> file[j] == head[j]);
    assert(file.subrange(4, 8) =~= u32_le(ver.raw()));
    assert(file.subrange(8, 12) =~= u32_le(MAGIC));
    assert(file.subrange(20, 24) =~= u32_le(align));
    assert(file.subrange(24, 28) =~= u32_le(st.infos.len() as u32));
    lemma_u32_read(file, 4, ver.raw());
    lemma_u32_read(file, 8, MAGIC);
    lemma_u32_read(file, 20, align);
    lemma_u32_read(file, 24, st.infos.len() as u32);
    assert(i * r + r <= st.infos.len() * r) by (nonlinear_arith)
        requires
            i < st.infos.len(),
            r > 0,
    ;
    assert(i * r >= 0) by (nonlinear_arith)
        requires
            i >= 0,
            r > 0,
    ;
    assert(record_start(ver, i) == 64 + i * r);
    assert(file.subrange(64 + i * r, 64 + i * r + r) =~= recs.subrange(i * r, i * r + r));
    assert(shifted[i] == shift_offset(st.infos[i], off));
    lemma_info_read(shifted[i], w);
}

proof fn lemma_classify_bounds(items: Seq<ItemView>, n: nat)
    requires
        n <= items.len(),
        items.len() <= usize::MAX,
        classify(items, n) is Ok,
    ensures
        classify(items, n)->Ok_0.0.len() == 4,
        forall|k: int| 0 <= k < 4 ==> (#[trigger] classify(items, n)->Ok_0.0[k] matches Some(v) ==> v < n),
        forall|m: int| 0 <= m < classify(items, n)->Ok_0.1.len() ==> #[trigger] classify(items, n)->Ok_0.1[m] < n,
    decreases n,
{
    if n > 0 {
        lemma_classify_bounds(items, (n - 1) as nat);
    }
}

proof fn lemma_sort_bounds(items: Seq<ItemView>, idx: Seq<usize>, bound: int)
    requires
        forall|m: int| 0 <= m < idx.len() ==> #[trigger] idx[m] < bound,
    ensures
        sort_by_name(items, idx).len() == idx.len(),
        forall|m: int| 0 <= m < sort_by_name(items, idx).len() ==> #[trigger] sort_by_name(items, idx)[m] < bound,
    decreases idx.len(),
{
    if idx.len() > 0 {
        let rest = idx.drop_last();
        lemma_sort_bounds(items, rest, bound);
        let sorted = sort_by_name(items, rest);
        let p = first_greater(items, sorted, idx.last(), 0);
        lemma_first_greater_range(items, sorted, idx.last(), 0);
        let out = sorted.insert(p, idx.last());
        assert forall|m: int| 0 <= m < out.len() implies #[trigger] out[m] < bound by {
            if m < p {
                assert(out[m] == sorted[m]);
            } else if m > p {
                assert(out[m] == sorted[m - 1]);
            }
        }
    }
}

proof fn lemma_first_greater_range(items: Seq<ItemView>, sorted: Seq<usize>, x: usize, j: int)
    requires
        0 <= j,
    ensures
        0 <= first_greater(items, sorted, x, j) <= sorted.len(),
    decreases sorted.len() - j,
{
    if j < sorted.len() {
        lemma_first_greater_range(items, sorted, x, j + 1);
    }
}

/// Every index in the order of emission names an item.
pub proof fn lemma_order_bounds(items: Seq<ItemView>)
    requires
        items.len() <= usize::MAX,
        emission_order(items) is Ok,
    ensures
        forall|m: int| 0 <= m < emission_order(items)->Ok_0.len() ==> #[trigger] emission_order(items)->Ok_0[m] < items.len(),
{
    let n = items.len();
    lemma_classify_bounds(items, n);
    let (slots, generic) = classify(items, n)->Ok_0;
    lemma_sort_bounds(items, generic, n as int);
    let order = emission_order(items)->Ok_0;
    let sorted = sort_by_name(items, generic);
    assert(slots[0] matches Some(v) ==> v < n);
    assert(slots[1] matches Some(v) ==> v < n);
    assert(slots[2] matches Some(v) ==> v < n);
    assert(slots[3] matches Some(v) ==> v < n);
    let head = opt_seq(slots[0]) + opt_seq(slots[1]) + opt_seq(slots[2]) + opt_seq(slots[3]);
    assert(forall|m: int| 0 <= m < head.len() ==> #[trigger] head[m] < n);
    assert forall|m: int| 0 <= m < order.len() implies #[trigger] order[m] < n by {
        if m >= head.len() {
            assert(order[m] == sorted[m - head.len()]);
        } else {
            assert(order[m] == head[m]);
        }
    }
}

proof fn lemma_verify_name_fits(width: nat)
    requires
        width >= 32,
    ensures
        name_fits("VERIFY"@, width),
{
    reveal_strlit("VERIFY");
    let v = "VERIFY"@;
    assert(is_ascii_chars(v));
    is_ascii_chars_encode_utf8(v);
    assert forall|i: int| 0 <= i < name_bytes(v).len() implies #[trigger] name_bytes(v)[i] != 0 by {
        assert(v[i] as u8 == name_bytes(v)[i]);
    }
}

/// Every record's names fit the name fields.
pub open spec fn records_fit(st: LayoutView, width: nat) -> bool {
    forall|k: int| 0 <= k < st.infos.len() ==> #[trigger] record_fits(st.infos[k], width)
}

pub open spec fn record_fits(info: InfoView, width: nat) -> bool {
    name_fits(info.main_type, width) && name_fits(info.sub_type, width)
}

/// Laying out items whose names fit gives records whose names fit.
proof fn lemma_layout_names_fit(items: Seq<ItemView>, order: Seq<usize>, ver: ImageVersion, align: u32, n: nat)
    requires
        n <= order.len(),
        names_fit(items, ver),
        forall|m: int| 0 <= m < order.len() ==> #[trigger] order[m] < items.len(),
        layout_items(items, order, align, n) is Ok,
    ensures
        records_fit(layout_items(items, order, align, n)->Ok_0, ver.name_width()),
    decreases n,
{
    if n > 0 {
        lemma_layout_names_fit(items, order, ver, align, (n - 1) as nat);
        lemma_verify_name_fits(ver.name_width());
        let prev = layout_items(items, order, align, (n - 1) as nat)->Ok_0;
        let it = items[order[n - 1] as int];
        assert(name_fits(it.stem, ver.name_width()) && name_fits(it.extension, ver.name_width()));
        let st = layout_items(items, order, align, n)->Ok_0;
        assert(st == append_spec(prev, it, align)->Ok_0);
        assert forall|k: int| 0 <= k < st.infos.len() implies #[trigger] record_fits(st.infos[k], ver.name_width()) by {
            if k < prev.infos.len() {
                assert(st.infos[k] == prev.infos[k]);
                assert(record_fits(prev.infos[k], ver.name_width()));
            }
        }
    }
}

pub proof fn lemma_image_records_fit(img: ImageView)
    requires
        img.items.len() <= usize::MAX,
        names_fit(img.items, img.version),
        layout_image(img) is Ok,
    ensures
        records_fit(layout_image(img)->Ok_0, img.version.name_width()),
{
    let order = emission_order(img.items)->Ok_0;
    lemma_order_bounds(img.items);
    lemma_layout_names_fit(img.items, order, img.version, img.align, order.len());
}

/// What is written can be read: the header of an encoded image names its
/// version, alignment and record count, and each record of its table reads
/// back as the encoder wrote it, offsets counted from the start of the file,
/// where every item's stem and extension fit the name fields.
pub proof fn lemma_encoded_table_reads_back(img: ImageView, i: int)
    requires
        img.items.len() <= usize::MAX,
        names_fit(img.items, img.version),
        encode_image(img) is Ok,
        0 <= i < layout_image(img)->Ok_0.infos.len(),
    ensures
        ({
            let file = encode_image(img)->Ok_0;
            let st = layout_image(img)->Ok_0;
            &&& head_at(file).magic == MAGIC
            &&& head_at(file).version == img.version.raw()
            &&& head_at(file).item_count == st.infos.len() as u32
            &&& head_at(file).item_align_size == img.align
            &&& record_start(img.version, i) + img.version.record_size() <= file.len()
            &&& record_in(file, img.version, i) == shift_offset(st.infos[i], table_offset(img.version, st.infos.len()))
        }),
{
    let st = layout_image(img)->Ok_0;
    lemma_image_records_fit(img);
    assert(record_fits(st.infos[i], img.version.name_width()));
    let crc = crate::encode::image_crc(st, img.version, img.align);
    lemma_table_bytes_read(st, img.version, img.align, crc, i);
}

} // verus!
