use ampack::dir::split_once_dot;
use ampack::error::ImageError;
use ampack::image::{sort_items_by_name, sort_ref_items_by_name, Image, Item};
use ampack::layout::{bytes_fill_from_str, string_from_slice_u8_c_string, ImageVersion, RawImageHead};
use std::cmp::Ordering;

fn file(name: &str, data: &[u8]) -> (String, Vec<u8>) {
    (name.to_string(), data.to_vec())
}

fn essentials() -> Vec<(String, Vec<u8>)> {
    vec![
        file("platform.conf", b"p"),
        file("UBOOT.USB", b"u"),
        file("zz.PARTITION", b"z"),
        file("meson1.dtb", b"m"),
        file("README", b"skipped"),
        file("DDR.USB", b"d"),
        file("aml_sdc_burn.ini", b"a"),
        file("boot.PARTITION", b"b"),
    ]
}

#[test]
fn import_orders_items() {
    let image = Image::from_files(essentials()).unwrap();
    assert_eq!(image.version, ImageVersion::V2);
    assert_eq!(image.align, 4);
    let names: Vec<String> = image.items.iter().map(|i| format!("{}.{}", i.stem, i.extension)).collect();
    assert_eq!(
        names,
        vec!["DDR.USB", "UBOOT.USB", "aml_sdc_burn.ini", "boot.PARTITION", "meson1.dtb", "platform.conf", "zz.PARTITION"]
    );
    assert_eq!(image.items[0].data, b"d".to_vec());
    assert!(image.items.iter().all(|i| i.sha1sum.is_none()));
}

#[test]
fn import_reports_missing_essentials() {
    let mut files = essentials();
    files.retain(|f| f.0 != "meson1.dtb");
    assert!(matches!(Image::from_files(files), Err(ImageError::MissingItem { stem, extension }) if stem == "meson1" && extension == "dtb"));
    let mut files = essentials();
    files.retain(|f| f.0 != "UBOOT.USB");
    assert!(matches!(Image::from_files(files), Err(ImageError::MissingItem { stem, .. }) if stem == "UBOOT"));
}

#[test]
fn import_then_encode_and_decode() {
    let mut image = Image::from_files(essentials()).unwrap();
    image.fill_verify();
    let decoded = Image::decode(&image.encode().unwrap()).unwrap();
    assert_eq!(decoded.items.len(), 7);
    assert!(decoded.find_essentials().is_ok());
}

#[test]
fn split_at_first_dot() {
    let (stem, ext) = split_once_dot("a.b.c").unwrap();
    assert_eq!(stem, "a");
    assert_eq!(ext, "b.c");
    let (stem, ext) = split_once_dot("é.x").unwrap();
    assert_eq!(stem, "é");
    assert_eq!(ext, "x");
    let (stem, ext) = split_once_dot("tail.").unwrap();
    assert_eq!(stem, "tail");
    assert_eq!(ext, "");
    assert!(split_once_dot("none").is_none());
}

#[test]
fn name_field_is_truncated_and_terminated() {
    let mut field = [0u8; 4];
    bytes_fill_from_str(&mut field, "abcdef");
    assert_eq!(field, [b'a', b'b', b'c', 0]);
    let mut field = [0u8; 8];
    bytes_fill_from_str(&mut field, "ab");
    assert_eq!(field, [b'a', b'b', 0, 0, 0, 0, 0, 0]);
}

#[test]
fn name_field_is_read_up_to_nul_leniently() {
    assert_eq!(string_from_slice_u8_c_string(b"boot\0junk"), "boot");
    assert_eq!(string_from_slice_u8_c_string(b"full"), "full");
    assert_eq!(string_from_slice_u8_c_string(b"a\xffb\0"), "a\u{fffd}b");
}

#[test]
fn items_order_by_stem_then_extension() {
    let a = Item::new("boot".to_string(), "PARTITION".to_string(), vec![]);
    let b = Item::new("boot".to_string(), "VERIFY".to_string(), vec![]);
    let c = Item::new("Boot".to_string(), "zzz".to_string(), vec![]);
    assert_eq!(sort_items_by_name(&a, &b), Ordering::Less);
    assert_eq!(sort_items_by_name(&b, &a), Ordering::Greater);
    assert_eq!(sort_items_by_name(&a, &a), Ordering::Equal);
    assert_eq!(sort_ref_items_by_name(&&c, &&a), Ordering::Less);
}

#[test]
fn new_header() {
    let head = RawImageHead::new(&ImageVersion::V1, 8);
    assert_eq!(head.version, 1);
    assert_eq!(head.magic, 0x27b5_1956);
    assert_eq!(head.item_align_size, 8);
    assert_eq!(head.item_count, 0);
    let mut out = Vec::new();
    head.write(&mut out);
    assert_eq!(out.len(), 64);
    assert_eq!(RawImageHead::parse(&out), head);
}
