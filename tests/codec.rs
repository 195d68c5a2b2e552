use ampack::crc32::Crc32Hasher;
use ampack::encode::ImageToWrite;
use ampack::error::ImageError;
use ampack::image::{Image, Item};
use ampack::layout::{ImageVersion, RawImageHead, RawItemInfo, MAGIC};
use ampack::sha1sum::Sha1sum;

fn item(stem: &str, extension: &str, data: &[u8]) -> Item {
    Item::new(stem.to_string(), extension.to_string(), data.to_vec())
}

fn scenario_image() -> Image {
    let payload: Vec<u8> = (0u8..16).collect();
    let mut image = Image {
        version: ImageVersion::V2,
        align: 4,
        items: vec![
            item("boot_b", "PARTITION", &payload),
            item("UBOOT", "USB", b"uboot"),
            item("boot", "PARTITION", &payload),
            item("DDR", "USB", b"ddr!!"),
        ],
    };
    image.fill_verify();
    image
}

fn record(bytes: &[u8], version: ImageVersion, index: usize) -> RawItemInfo {
    let size = version.size_raw_info();
    let start = 64 + size * index;
    RawItemInfo::parse(&bytes[start..start + size], version.size_item_type())
}

fn names(image: &Image) -> Vec<String> {
    image.items.iter().map(|i| format!("{}.{}", i.stem, i.extension)).collect()
}

#[test]
fn crc_has_no_final_complement() {
    let crc = Crc32Hasher::from_reader(b"123456789");
    assert_eq!(crc.value, 0x340b_c6d9);
    assert_eq!(crc.value, !0xcbf4_3926u32);
}

#[test]
fn crc_of_nothing_is_initial_state() {
    assert_eq!(Crc32Hasher::from_reader(b"").value, 0xffff_ffff);
}

#[test]
fn crc_updates_compose() {
    let mut crc = Crc32Hasher::new();
    crc.update(b"12345");
    crc.update(b"6789");
    assert_eq!(crc.value, Crc32Hasher::from_reader(b"123456789").value);
}

#[test]
fn sha1_of_abc() {
    let d = Sha1sum::from_data(b"abc");
    assert_eq!(d.to_hex(), b"a9993e364706816aba3e25717850c26c9cd0d89d".to_vec());
}

#[test]
fn hex_digest_round_trip_and_case() {
    let d = Sha1sum::from_hex(b"A9993E364706816ABA3E25717850C26C9CD0D89D").unwrap();
    assert!(d == Sha1sum::from_data(b"abc"));
    assert!(matches!(Sha1sum::from_hex(b"zz993e364706816aba3e25717850c26c9cd0d89d"), Err(ImageError::InvalidDigest)));
    assert!(matches!(Sha1sum::from_hex(b"a999"), Err(ImageError::InvalidDigest)));
}

#[test]
fn scenario_partition_backup() {
    let image = scenario_image();
    let bytes = image.encode().unwrap();
    let v = ImageVersion::V2;
    let head = RawImageHead::parse(&bytes);
    assert_eq!(head.magic, MAGIC);
    assert_eq!(head.item_count, 6);
    let table = 64 + 6 * 576;
    assert_eq!(head.image_size as usize, bytes.len());
    let boot = record(&bytes, v, 2);
    let boot_verify = record(&bytes, v, 3);
    let boot_b = record(&bytes, v, 4);
    let boot_b_verify = record(&bytes, v, 5);
    assert_eq!(boot.item_sub_type, "boot");
    assert_eq!(boot_b.item_sub_type, "boot_b");
    assert_eq!(boot_b.is_backup_item, 1);
    assert_eq!(boot_b.backup_item_id, 2);
    assert_eq!(boot_b.offset_in_image, boot.offset_in_image);
    assert_eq!(boot_b_verify.item_main_type, "VERIFY");
    assert_eq!(boot_b_verify.is_backup_item, 1);
    assert_eq!(boot_b_verify.backup_item_id, 3);
    assert_eq!(boot_b_verify.offset_in_image, boot_verify.offset_in_image);
    // DDR 5 bytes, 3 of padding, UBOOT 5 bytes, 3 of padding, one copy of
    // the 16-byte partition and one 48-byte verify record.
    assert_eq!(bytes.len() - table, 8 + 8 + 16 + 48);
    let decoded = Image::decode(&bytes).unwrap();
    assert_eq!(names(&decoded), vec!["DDR.USB", "UBOOT.USB", "boot.PARTITION", "boot_b.PARTITION"]);
    let d2 = decoded.items[2].sha1sum.unwrap();
    let d3 = decoded.items[3].sha1sum.unwrap();
    assert!(d2 == d3);
    assert_eq!(decoded.items[3].data, (0u8..16).collect::<Vec<u8>>());
}

#[test]
fn round_trip_keeps_names_bytes_and_partition_digests() {
    let mut image = scenario_image();
    image.items.push(item("aml_sdc_burn", "ini", b"[ini]"));
    image.items.push(item("zeta", "bin", b"z"));
    image.items.push(item("alpha", "bin", b"aaaaaaa"));
    image.fill_verify();
    for align in [4u32, 8, 512] {
        image.align = align;
        let decoded = Image::decode(&image.encode().unwrap()).unwrap();
        assert_eq!(decoded.align, align);
        assert_eq!(
            names(&decoded),
            vec!["DDR.USB", "UBOOT.USB", "alpha.bin", "aml_sdc_burn.ini", "boot.PARTITION", "boot_b.PARTITION", "zeta.bin"]
        );
        for it in decoded.items.iter() {
            let original = image.items.iter().find(|o| o.stem == it.stem && o.extension == it.extension).unwrap();
            assert_eq!(it.data, original.data);
            if it.extension == "PARTITION" {
                assert!(it.sha1sum.unwrap() == original.sha1sum.unwrap());
            } else {
                assert!(it.sha1sum.is_none());
            }
        }
        assert!(decoded.verify().is_ok());
    }
}

#[test]
fn round_trip_version_one() {
    let mut image = scenario_image();
    image.version = ImageVersion::V1;
    let bytes = image.encode().unwrap();
    let head = RawImageHead::parse(&bytes);
    assert_eq!(head.version, 1);
    assert_eq!(record(&bytes, ImageVersion::V1, 0).item_sub_type, "DDR");
    let decoded = Image::decode(&bytes).unwrap();
    assert_eq!(decoded.version, ImageVersion::V1);
    assert_eq!(decoded.items.len(), 4);
}

#[test]
fn encoding_is_deterministic() {
    let a = scenario_image().encode().unwrap();
    let b = scenario_image().encode().unwrap();
    assert_eq!(a, b);
    let stored = u32::from_le_bytes([a[0], a[1], a[2], a[3]]);
    assert_eq!(stored, Crc32Hasher::from_reader(&a[4..]).value);
}

#[test]
fn dedup_stores_one_copy() {
    let image = scenario_image();
    let bytes = image.encode().unwrap();
    let boot = record(&bytes, ImageVersion::V2, 2);
    let boot_b = record(&bytes, ImageVersion::V2, 4);
    assert_eq!(boot.is_backup_item, 0);
    assert_eq!(boot_b.is_backup_item, 1);
    assert_eq!(boot_b.offset_in_image, boot.offset_in_image);
    let body = &bytes[64 + 6 * 576..];
    let payload: Vec<u8> = (0u8..16).collect();
    let copies = body.windows(16).filter(|w| *w == payload.as_slice()).count();
    assert_eq!(copies, 1);
}

#[test]
fn verify_record_must_follow_partition() {
    let bytes = scenario_image().encode().unwrap();
    let mut broken = bytes.clone();
    // main type of the record after boot.PARTITION: "VERIFY" -> "XERIFY"
    broken[64 + 3 * 576 + 32] = b'X';
    assert!(matches!(Image::decode(&broken), Err(ImageError::UnmatchedVerify)));
}

#[test]
fn trailing_partition_without_verify() {
    let bytes = scenario_image().encode().unwrap();
    let mut cut = bytes.clone();
    // keep DDR, UBOOT and boot.PARTITION only
    cut[24..28].copy_from_slice(&3u32.to_le_bytes());
    assert!(matches!(Image::decode(&cut), Err(ImageError::UnmatchedVerify)));
}

#[test]
fn verify_record_with_bad_prefix_is_illegal() {
    let bytes = scenario_image().encode().unwrap();
    let boot_verify = record(&bytes, ImageVersion::V2, 3);
    let mut broken = bytes.clone();
    broken[boot_verify.offset_in_image as usize] = b'S';
    assert!(matches!(Image::decode(&broken), Err(ImageError::IllegalVerify)));
}

#[test]
fn verify_record_with_bad_hex_is_invalid_digest() {
    let bytes = scenario_image().encode().unwrap();
    let boot_verify = record(&bytes, ImageVersion::V2, 3);
    let mut broken = bytes.clone();
    broken[boot_verify.offset_in_image as usize + 8] = b'g';
    assert!(matches!(Image::decode(&broken), Err(ImageError::InvalidDigest)));
}

#[test]
fn bodies_are_aligned_and_padding_is_zero() {
    let mut image = scenario_image();
    image.align = 8;
    let bytes = image.encode().unwrap();
    let table = 64 + 6 * 576;
    let ddr = record(&bytes, ImageVersion::V2, 0);
    let uboot = record(&bytes, ImageVersion::V2, 1);
    let boot = record(&bytes, ImageVersion::V2, 2);
    for r in [&ddr, &uboot, &boot] {
        assert_eq!((r.offset_in_image as usize - table) % 8, 0);
    }
    assert_eq!(uboot.offset_in_image as usize - table, 8);
    assert_eq!(boot.offset_in_image as usize - table, 16);
    assert!(bytes[table + 5..table + 8].iter().all(|b| *b == 0));
    assert!(bytes[table + 13..table + 16].iter().all(|b| *b == 0));
}

#[test]
fn missing_uboot_is_reported() {
    let mut image = Image { version: ImageVersion::V2, align: 4, items: vec![item("DDR", "USB", b"d")] };
    image.fill_verify();
    match image.encode() {
        Err(ImageError::MissingItem { stem, extension }) => {
            assert_eq!(stem, "UBOOT");
            assert_eq!(extension, "USB");
        }
        other => panic!("unexpected {:?}", other),
    }
}

#[test]
fn missing_ddr_is_reported_first() {
    let mut image = Image { version: ImageVersion::V2, align: 4, items: vec![item("x", "bin", b"d")] };
    image.fill_verify();
    assert!(matches!(image.encode(), Err(ImageError::MissingItem { stem, .. }) if stem == "DDR"));
}

#[test]
fn unexpected_usb_item() {
    let mut image = scenario_image();
    image.items.push(item("FOO", "USB", b"f"));
    image.fill_verify();
    assert!(matches!(image.encode(), Err(ImageError::UnexpectedItem { stem, extension }) if stem == "FOO" && extension == "USB"));
}

#[test]
fn duplicated_usb_item() {
    let mut image = scenario_image();
    image.items.push(item("DDR", "USB", b"again"));
    image.fill_verify();
    assert!(matches!(image.encode(), Err(ImageError::DuplicatedItem { stem, .. }) if stem == "DDR"));
}

#[test]
fn encoding_needs_digests() {
    let mut image = scenario_image();
    image.clear_verify();
    assert!(image.items.iter().all(|i| i.sha1sum.is_none()));
    assert!(matches!(image.encode(), Err(ImageError::IllegalVerify)));
}

#[test]
fn enc_usb_is_never_shared() {
    let mut image = Image {
        version: ImageVersion::V2,
        align: 4,
        items: vec![
            item("DDR", "USB", b"same"),
            item("DDR_ENC", "USB", b"enc!"),
            item("UBOOT", "USB", b"enc!"),
        ],
    };
    image.fill_verify();
    let bytes = image.encode().unwrap();
    // DDR_ENC.USB comes second and UBOOT.USB, with the same bytes, is stored again
    assert_eq!(record(&bytes, ImageVersion::V2, 1).item_sub_type, "DDR_ENC");
    assert_eq!(record(&bytes, ImageVersion::V2, 2).is_backup_item, 0);
}

#[test]
fn sparse_images_are_marked() {
    let mut image = scenario_image();
    image.items.push(item("system", "PARTITION", &[0x3a, 0xff, 0x26, 0xed, 1, 2]));
    image.fill_verify();
    let bytes = image.encode().unwrap();
    let system = record(&bytes, ImageVersion::V2, 6);
    assert_eq!(system.item_sub_type, "system");
    assert_eq!(system.file_type, 254);
    assert_eq!(record(&bytes, ImageVersion::V2, 0).file_type, 0);
}

#[test]
fn decode_rejects_bad_headers() {
    let bytes = scenario_image().encode().unwrap();
    let mut bad_magic = bytes.clone();
    bad_magic[8] ^= 1;
    assert!(matches!(Image::decode(&bad_magic), Err(ImageError::InvalidMagic { .. })));
    let mut bad_version = bytes.clone();
    bad_version[4] = 3;
    assert!(matches!(Image::decode(&bad_version), Err(ImageError::InvalidVersion { version: 3 })));
    assert!(matches!(Image::decode(&bytes[..10]), Err(ImageError::Truncated)));
    assert!(matches!(Image::decode(&bytes[..bytes.len() - 1]), Err(ImageError::Truncated)));
}

#[test]
fn verify_detects_tampering() {
    let mut image = scenario_image();
    assert!(image.verify().is_ok());
    image.items[0].data[0] ^= 0xff;
    assert!(matches!(image.verify(), Err(ImageError::IllegalVerify)));
}

#[test]
fn check_digests_against_computed() {
    let image = scenario_image();
    let computed = image.compute_digests();
    assert!(image.check_digests(&computed).is_ok());
    let mut wrong = computed.clone();
    wrong[1] = Sha1sum::from_data(b"other");
    assert!(image.check_digests(&wrong).is_err());
}

#[test]
fn fill_verify_keeps_existing_digests() {
    let mut image = scenario_image();
    let marker = Sha1sum::from_data(b"marker");
    image.items[0].sha1sum = Some(marker);
    image.items[1].sha1sum = None;
    image.fill_verify();
    assert!(image.items[0].sha1sum.unwrap() == marker);
    assert!(image.items[1].sha1sum.unwrap() == Sha1sum::from_data(&image.items[1].data));
}

#[test]
fn find_item_and_essentials() {
    let mut image = scenario_image();
    assert_eq!(image.find_item("boot", "PARTITION").unwrap().stem, "boot");
    assert!(matches!(image.find_item("nope", "bin"), Err(ImageError::MissingItem { .. })));
    assert!(matches!(image.find_essentials(), Err(ImageError::MissingItem { stem, .. }) if stem == "aml_sdc_burn"));
    image.items.push(item("aml_sdc_burn", "ini", b""));
    image.items.push(item("meson1", "dtb", b""));
    image.items.push(item("platform", "conf", b""));
    assert!(image.find_essentials().is_ok());
    image.items.push(item("meson1", "dtb", b"2"));
    assert!(matches!(image.find_essentials(), Err(ImageError::DuplicatedItem { stem, .. }) if stem == "meson1"));
}

#[test]
fn alignment_guess() {
    let mut image = scenario_image();
    assert_eq!(image.guess_align_size(), 4);
    image.items.push(item("super", "PARTITION", b"s"));
    assert_eq!(image.guess_align_size(), 4);
    image.items.push(item("system_a", "PARTITION", b"a"));
    assert_eq!(image.guess_align_size(), 8);
}

#[test]
fn set_version_and_rounded_alignment() {
    let mut image = scenario_image();
    image.set_ver_align(ImageVersion::V1, 5);
    assert_eq!(image.version, ImageVersion::V1);
    assert_eq!(image.align, 8);
    image.set_ver_align(ImageVersion::V2, 4);
    assert_eq!(image.align, 4);
}

#[test]
fn version_numbers() {
    assert_eq!(ImageVersion::V1.size_raw_info(), 128);
    assert_eq!(ImageVersion::V2.size_raw_info(), 576);
    assert_eq!(ImageVersion::try_from_raw(2).unwrap(), ImageVersion::V2);
    assert!(matches!(ImageVersion::try_from_raw(7), Err(ImageError::InvalidVersion { version: 7 })));
    assert_eq!(ImageVersion::default(), ImageVersion::V2);
}

#[test]
fn appending_counts_records_and_finalize_fills_header() {
    let image = scenario_image();
    let mut w = ImageToWrite {
        head: RawImageHead::new(&ImageVersion::V1, 4),
        infos: Vec::new(),
        sha1sums: Vec::new(),
        data_head_infos: Vec::new(),
        data_body: Vec::new(),
    };
    let ddr = image.items.iter().find(|i| i.stem == "DDR").unwrap();
    let boot = image.items.iter().find(|i| i.stem == "boot").unwrap();
    w.append_item(ddr).unwrap();
    assert_eq!(w.head.item_count, 1);
    w.append_item(boot).unwrap();
    assert_eq!(w.head.item_count, 3);
    assert_eq!(w.infos.len(), 3);
    let bare = Item::new("x".to_string(), "bin".to_string(), vec![1]);
    let body_before = w.data_body.clone();
    assert!(matches!(w.append_item(&bare), Err(ImageError::IllegalVerify)));
    assert_eq!(w.head.item_count, 3);
    assert_eq!(w.data_body, body_before);
    let relative = w.infos[1].offset_in_image;
    w.finalize(&ImageVersion::V1).unwrap();
    let table = 64 + 3 * 128;
    assert_eq!(w.data_head_infos.len(), table);
    assert_eq!(w.head.image_size as usize, table + w.data_body.len());
    assert_eq!(w.head.version, 1);
    assert_eq!(w.infos[1].offset_in_image, relative + table as u64);
}
