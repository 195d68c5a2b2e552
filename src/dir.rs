//! Building an image from the files of a directory: each file named
//! `<stem>.<extension>` becomes an item; the two `USB` loaders come first and
//! the rest follow by name.

use vstd::prelude::*;
use vstd::string::StringSliceAdditionalSpecFns;
use vstd::utf8::*;

use crate::error::{result_view, ImageError, ImageFault};
use crate::image::{Image, ImageView, Item, ItemView};
use crate::layout::{name_bytes, ImageVersion};
use crate::names::{name_gt, name_greater, str_eq};

verus! {

/// The position of the first `.` from `i` on.
pub open spec fn first_dot_from(b: Seq<u8>, i: int) -> Option<int>
    decreases b.len() - i,
{
    if i < 0 || i >= b.len() {
        None
    } else if b[i] == 0x2e {
        Some(i)
    } else {
        first_dot_from(b, i + 1)
    }
}

/// A file name split at its first `.` into stem and extension.
pub open spec fn split_file_name(name: Seq<char>) -> Option<(Seq<char>, Seq<char>)> {
    let b = name_bytes(name);
    match first_dot_from(b, 0) {
        None => None,
        Some(p) => Some(
            (decode_utf8(b.subrange(0, p)), decode_utf8(b.subrange(p + 1, b.len() as int))),
        ),
    }
}

/// Splits a file name at its first `.`.
pub fn split_once_dot(name: &str) -> (r: Option<(String, String)>)
    ensures
        match split_file_name(name@) {
            None => r is None,
            Some((s, e)) => r matches Some(p) && p.0@ == s && p.1@ == e,
        },
{
    let bytes = name.as_bytes();
    let mut p: usize = 0;
    while p < bytes.len() && bytes[p] != 0x2e
        invariant
            p <= bytes@.len(),
            bytes@ == name_bytes(name@),
            first_dot_from(bytes@, 0) == first_dot_from(bytes@, p as int),
        decreases bytes@.len() - p,
    {
        p = p + 1;
    }
    if p == bytes.len() {
        return None;
    }
    proof {
        encode_utf8_valid_utf8(name@);
        is_char_boundary_iff_is_leading_byte(bytes@, p as int);
    }
    let (stem, rest) = name.split_at(p);
    proof {
        encode_utf8_decode_utf8(stem@);
        encode_utf8_decode_utf8(rest@);
        encode_utf8_valid_utf8(rest@);
        assert(rest.spec_bytes()[0] == 0x2e);
        reveal_with_fuel(is_char_boundary, 2);
    }
    let (_, extension) = rest.split_at(1);
    proof {
        encode_utf8_decode_utf8(extension@);
        assert(extension.spec_bytes() =~= bytes@.subrange(p + 1, bytes@.len() as int));
    }
    Some((stem.to_owned(), extension.to_owned()))
}

/// The slot of one of the five files every image needs: `DDR.USB`,
/// `UBOOT.USB`, `aml_sdc_burn.ini`, `meson1.dtb`, `platform.conf`.
pub open spec fn essential_slot(it: ItemView) -> Option<int> {
    if it.stem == "DDR"@ && it.extension == "USB"@ {
        Some(0)
    } else if it.stem == "UBOOT"@ && it.extension == "USB"@ {
        Some(1)
    } else if it.stem == "aml_sdc_burn"@ && it.extension == "ini"@ {
        Some(2)
    } else if it.stem == "meson1"@ && it.extension == "dtb"@ {
        Some(3)
    } else if it.stem == "platform"@ && it.extension == "conf"@ {
        Some(4)
    } else {
        None
    }
}

pub open spec fn entry_item(name: Seq<char>, data: Seq<u8>) -> Option<ItemView> {
    match split_file_name(name) {
        None => None,
        Some((s, e)) => Some(ItemView { data, stem: s, extension: e, digest: None }),
    }
}

/// The first `n` files sorted into the five essential slots (a later file
/// of the same name replacing an earlier one) and the other items.
pub open spec fn gather(names: Seq<Seq<char>>, datas: Seq<Seq<u8>>, n: nat) -> (Seq<Option<ItemView>>, Seq<ItemView>)
    decreases n,
{
    if n == 0 {
        (seq![None, None, None, None, None], Seq::empty())
    } else {
        let (slots, generic) = gather(names, datas, (n - 1) as nat);
        match entry_item(names[n - 1], datas[n - 1]) {
            None => (slots, generic),
            Some(it) => match essential_slot(it) {
                Some(k) => (slots.update(k, Some(it)), generic),
                None => (slots, generic.push(it)),
            },
        }
    }
}

/// The first position from `j` on whose item sorts after `x`, or the end.
pub open spec fn first_after(sorted: Seq<ItemView>, x: ItemView, j: int) -> int
    decreases sorted.len() - j,
{
    if j < 0 || j >= sorted.len() {
        sorted.len() as int
    } else if name_gt(sorted[j].stem, sorted[j].extension, x.stem, x.extension) {
        j
    } else {
        first_after(sorted, x, j + 1)
    }
}

/// Items ordered by name, stem first, then extension; items of equal names
/// keep their order.
pub open spec fn sort_items(s: Seq<ItemView>) -> Seq<ItemView>
    decreases s.len(),
{
    if s.len() == 0 {
        Seq::empty()
    } else {
        let sorted = sort_items(s.drop_last());
        sorted.insert(first_after(sorted, s.last(), 0), s.last())
    }
}

/// The image that a directory's files make, or the essential file missing.
pub open spec fn import_image(names: Seq<Seq<char>>, datas: Seq<Seq<u8>>) -> Result<ImageView, ImageFault> {
    let (slots, generic) = gather(names, datas, names.len());
    if slots[0] is None {
        Err(ImageFault::MissingItem("DDR"@, "USB"@))
    } else if slots[1] is None {
        Err(ImageFault::MissingItem("UBOOT"@, "USB"@))
    } else if slots[2] is None {
        Err(ImageFault::MissingItem("aml_sdc_burn"@, "ini"@))
    } else if slots[3] is None {
        Err(ImageFault::MissingItem("meson1"@, "dtb"@))
    } else if slots[4] is None {
        Err(ImageFault::MissingItem("platform"@, "conf"@))
    } else {
        Ok(
            ImageView {
                version: ImageVersion::V2,
                align: 4,
                items: seq![slots[0]->Some_0, slots[1]->Some_0] + sort_items(
                    generic + seq![slots[2]->Some_0, slots[3]->Some_0, slots[4]->Some_0],
                ),
            },
        )
    }
}

pub open spec fn slot_view(o: Option<Item>) -> Option<ItemView> {
    match o {
        Some(it) => Some(it@),
        None => None,
    }
}

/// Sorts items by name, keeping items of equal names in their order.
fn sort_by_name_stable(items: Vec<Item>) -> (r: Vec<Item>)
    ensures
        r@.map_values(|it: Item| it@) == sort_items(items@.map_values(|it: Item| it@)),
{
    let ghost all = items@.map_values(|it: Item| it@);
    let mut rest = items;
    let mut sorted: Vec<Item> = Vec::new();
    let ghost mut k: int = 0;
    assert(all.subrange(0, 0) =~= Seq::<ItemView>::empty());
    assert(sorted@.map_values(|it: Item| it@) =~= Seq::<ItemView>::empty());
    while rest.len() > 0
        invariant
            0 <= k,
            k + rest@.len() == all.len(),
            forall|m: int| 0 <= m < rest@.len() ==> #[trigger] rest@[m]@ == all[k + m],
            sorted@.map_values(|it: Item| it@) == sort_items(all.subrange(0, k)),
        decreases rest@.len(),
    {
        let x = rest.remove(0);
        assert(x@ == all[k]);
        let ghost sv = sorted@.map_values(|it: Item| it@);
        let mut j: usize = 0;
        while j < sorted.len() && !name_greater(
            sorted[j].stem.as_str(),
            sorted[j].extension.as_str(),
            x.stem.as_str(),
            x.extension.as_str(),
        )
            invariant
                j <= sorted@.len(),
                sv == sorted@.map_values(|it: Item| it@),
                first_after(sv, x@, 0) == first_after(sv, x@, j as int),
            decreases sorted@.len() - j,
        {
            assert(sv[j as int] == sorted@[j as int]@);
            j = j + 1;
        }
        proof {
            if j < sorted@.len() {
                assert(sv[j as int] == sorted@[j as int]@);
            }
            assert(all.subrange(0, k + 1).drop_last() =~= all.subrange(0, k));
        }
        let ghost xv = x@;
        sorted.insert(j, x);
        assert(sorted@.map_values(|it: Item| it@) =~= sv.insert(j as int, xv));
        proof {
            k = k + 1;
        }
    }
    assert(all.subrange(0, k) =~= all);
    sorted
}

impl Image {
    /// Builds an image from a directory's files, given as (file name,
    /// contents) pairs; names without a `.` are skipped.
    pub fn from_files(files: Vec<(String, Vec<u8>)>) -> (r: Result<Image, ImageError>)
        ensures
            result_view(r) == import_image(
                files@.map_values(|f: (String, Vec<u8>)| f.0@),
                files@.map_values(|f: (String, Vec<u8>)| f.1@),
            ),
    {
        let ghost names = files@.map_values(|f: (String, Vec<u8>)| f.0@);
        let ghost datas = files@.map_values(|f: (String, Vec<u8>)| f.1@);
        let ghost n = files@.len();
        let mut rest = files;
        let mut ddr_usb: Option<Item> = None;
        let mut uboot_usb: Option<Item> = None;
        let mut aml_sdc_burn_ini: Option<Item> = None;
        let mut meson1_dtb: Option<Item> = None;
        let mut platform_conf: Option<Item> = None;
        let mut generic_items: Vec<Item> = Vec::new();
        let ghost mut k: int = 0;
        assert(generic_items@.map_values(|it: Item| it@) =~= Seq::<ItemView>::empty());
        while rest.len() > 0
            invariant
                0 <= k,
                k + rest@.len() == n,
                names.len() == n,
                datas.len() == n,
                forall|m: int| 0 <= m < rest@.len() ==> #[trigger] rest@[m].0@ == names[k + m] && rest@[m].1@ == datas[k + m],
                gather(names, datas, k as nat) == (
                    seq![slot_view(ddr_usb), slot_view(uboot_usb), slot_view(aml_sdc_burn_ini), slot_view(meson1_dtb), slot_view(platform_conf)],
                    generic_items@.map_values(|it: Item| it@),
                ),
            decreases rest@.len(),
        {
            let (file_name, data) = rest.remove(0);
            assert(file_name@ == names[k] && data@ == datas[k]);
            let ghost slots = seq![slot_view(ddr_usb), slot_view(uboot_usb), slot_view(aml_sdc_burn_ini), slot_view(meson1_dtb), slot_view(platform_conf)];
            let ghost gv = generic_items@.map_values(|it: Item| it@);
            match split_once_dot(file_name.as_str()) {
                None => {},
                Some((stem, extension)) => {
                    let item = Item { data, extension, stem, sha1sum: None };
                    let ghost iv = item@;
                    let s = item.stem.as_str();
                    let e = item.extension.as_str();
                    if str_eq(s, "DDR") && str_eq(e, "USB") {
                        ddr_usb = Some(item);
                        assert(seq![slot_view(ddr_usb), slot_view(uboot_usb), slot_view(aml_sdc_burn_ini), slot_view(meson1_dtb), slot_view(platform_conf)] =~= slots.update(0, Some(iv)));
                    } else if str_eq(s, "UBOOT") && str_eq(e, "USB") {
                        uboot_usb = Some(item);
                        assert(seq![slot_view(ddr_usb), slot_view(uboot_usb), slot_view(aml_sdc_burn_ini), slot_view(meson1_dtb), slot_view(platform_conf)] =~= slots.update(1, Some(iv)));
                    } else if str_eq(s, "aml_sdc_burn") && str_eq(e, "ini") {
                        aml_sdc_burn_ini = Some(item);
                        assert(seq![slot_view(ddr_usb), slot_view(uboot_usb), slot_view(aml_sdc_burn_ini), slot_view(meson1_dtb), slot_view(platform_conf)] =~= slots.update(2, Some(iv)));
                    } else if str_eq(s, "meson1") && str_eq(e, "dtb") {
                        meson1_dtb = Some(item);
                        assert(seq![slot_view(ddr_usb), slot_view(uboot_usb), slot_view(aml_sdc_burn_ini), slot_view(meson1_dtb), slot_view(platform_conf)] =~= slots.update(3, Some(iv)));
                    } else if str_eq(s, "platform") && str_eq(e, "conf") {
                        platform_conf = Some(item);
                        assert(seq![slot_view(ddr_usb), slot_view(uboot_usb), slot_view(aml_sdc_burn_ini), slot_view(meson1_dtb), slot_view(platform_conf)] =~= slots.update(4, Some(iv)));
                    } else {
                        generic_items.push(item);
                        assert(generic_items@.map_values(|it: Item| it@) =~= gv.push(iv));
                    }
                },
            }
            proof {
                k = k + 1;
            }
        }
        let ddr = match ddr_usb {
            Some(it) => it,
            None => {
                return Err(ImageError::MissingItem { stem: "DDR".to_owned(), extension: "USB".to_owned() });
            },
        };
        let uboot = match uboot_usb {
            Some(it) => it,
            None => {
                return Err(ImageError::MissingItem { stem: "UBOOT".to_owned(), extension: "USB".to_owned() });
            },
        };
        let ini = match aml_sdc_burn_ini {
            Some(it) => it,
            None => {
                return Err(ImageError::MissingItem { stem: "aml_sdc_burn".to_owned(), extension: "ini".to_owned() });
            },
        };
        let dtb = match meson1_dtb {
            Some(it) => it,
            None => {
                return Err(ImageError::MissingItem { stem: "meson1".to_owned(), extension: "dtb".to_owned() });
            },
        };
        let conf = match platform_conf {
            Some(it) => it,
            None => {
                return Err(ImageError::MissingItem { stem: "platform".to_owned(), extension: "conf".to_owned() });
            },
        };
        let ghost gv = generic_items@.map_values(|it: Item| it@);
        let ghost tail = seq![ini@, dtb@, conf@];
        generic_items.push(ini);
        generic_items.push(dtb);
        generic_items.push(conf);
        assert(generic_items@.map_values(|it: Item| it@) =~= gv + tail);
        let mut sorted = sort_by_name_stable(generic_items);
        let mut items: Vec<Item> = Vec::new();
        let ghost head = seq![ddr@, uboot@];
        items.push(ddr);
        items.push(uboot);
        let ghost sv = sorted@.map_values(|it: Item| it@);
        assert(items@.map_values(|it: Item| it@) =~= head);
        items.append(&mut sorted);
        assert(items@.map_values(|it: Item| it@) =~= head + sv);
        Ok(Image { version: ImageVersion::V2, align: 4, items })
    }
}

} // verus!
