//! Reading an image file: the header, then each item table record with its
//! body, pairing every record that asks for verification with the `VERIFY`
//! record that must follow it.

use vstd::prelude::*;
use vstd::slice::slice_to_vec;

use crate::error::{result_view, ImageError, ImageFault};
use crate::image::{Image, ImageView, Item, ItemView};
use crate::layout::{head_at, info_at, ImageVersion, InfoView, RawImageHead, RawItemInfo, MAGIC};
use crate::names::str_eq;
use crate::sha1sum::{all_hex_digits, hex_decode, Sha1sum};

verus! {

/// The 8 bytes `sha1sum ` that open the body of a verify record.
pub open spec fn verify_prefix() -> Seq<u8> {
    seq![0x73u8, 0x68u8, 0x61u8, 0x31u8, 0x73u8, 0x75u8, 0x6du8, 0x20u8]
}

/// Where record `i` of the item table starts.
pub open spec fn record_start(ver: ImageVersion, i: int) -> int {
    64 + ver.record_size() * i
}

/// Record `i` of the item table, which must lie within `file`.
pub open spec fn record_in(file: Seq<u8>, ver: ImageVersion, i: int) -> InfoView {
    info_at(
        file.subrange(record_start(ver, i), record_start(ver, i) + ver.record_size()),
        ver.name_width(),
    )
}

/// The body that a record points to, which must lie within `file`.
pub open spec fn body_of(file: Seq<u8>, info: InfoView) -> Seq<u8> {
    file.subrange(info.offset_in_image as int, info.offset_in_image + info.item_size)
}

/// One step of the reader: the items read so far, the item waiting for its
/// verify record, and the next record with its body.
pub open spec fn decode_step(
    items: Seq<ItemView>,
    pending: Option<ItemView>,
    info: InfoView,
    data: Seq<u8>,
) -> Result<(Seq<ItemView>, Option<ItemView>), ImageFault> {
    match pending {
        Some(p) => {
            if info.sub_type != p.stem || info.main_type != "VERIFY"@ {
                Err(ImageFault::UnmatchedVerify)
            } else if !(info.item_size == 48 && data.subrange(0, 8) == verify_prefix()
                && info.verify == 0) {
                Err(ImageFault::IllegalVerify)
            } else if !all_hex_digits(data.subrange(8, 48)) {
                Err(ImageFault::InvalidDigest)
            } else {
                Ok(
                    (
                        items.push(ItemView { digest: Some(hex_decode(data.subrange(8, 48))), ..p }),
                        None,
                    ),
                )
            }
        },
        None => {
            let item = ItemView {
                data,
                stem: info.sub_type,
                extension: info.main_type,
                digest: None,
            };
            if info.verify == 0 {
                Ok((items.push(item), None))
            } else {
                Ok((items, Some(item)))
            }
        },
    }
}

/// The reader's state after the first `n` records of the table.
pub open spec fn decode_records(file: Seq<u8>, ver: ImageVersion, n: nat) -> Result<
    (Seq<ItemView>, Option<ItemView>),
    ImageFault,
>
    decreases n,
{
    if n == 0 {
        Ok((Seq::empty(), None))
    } else {
        match decode_records(file, ver, (n - 1) as nat) {
            Err(e) => Err(e),
            Ok((items, pending)) => {
                let i = n - 1;
                if record_start(ver, i) + ver.record_size() > file.len() {
                    Err(ImageFault::Truncated)
                } else {
                    let info = record_in(file, ver, i);
                    if info.offset_in_image + info.item_size > file.len() {
                        Err(ImageFault::Truncated)
                    } else {
                        decode_step(items, pending, info, body_of(file, info))
                    }
                }
            },
        }
    }
}

/// What a file decodes to.
pub open spec fn decode_image(file: Seq<u8>) -> Result<ImageView, ImageFault> {
    if file.len() < 64 {
        Err(ImageFault::Truncated)
    } else {
        let h = head_at(file);
        if h.magic != MAGIC {
            Err(ImageFault::InvalidMagic(h.magic))
        } else {
            match ImageVersion::from_raw(h.version) {
                None => Err(ImageFault::InvalidVersion(h.version)),
                Some(ver) => match decode_records(file, ver, h.item_count as nat) {
                    Err(e) => Err(e),
                    Ok((items, pending)) => {
                        if pending is Some {
                            Err(ImageFault::UnmatchedVerify)
                        } else {
                            Ok(ImageView { version: ver, align: h.item_align_size, items })
                        }
                    },
                },
            }
        }
    }
}

/// Once the reader fails, it stays failed with the same error.
pub proof fn lemma_decode_error_persists(file: Seq<u8>, ver: ImageVersion, m: nat, n: nat)
    requires
        m <= n,
        decode_records(file, ver, m) is Err,
    ensures
        decode_records(file, ver, n) == decode_records(file, ver, m),
    decreases n - m,
{
    if m < n {
        lemma_decode_error_persists(file, ver, m, (n - 1) as nat);
    }
}

pub open spec fn pending_view(p: Option<Item>) -> Option<ItemView> {
    match p {
        Some(it) => Some(it@),
        None => None,
    }
}

fn has_verify_prefix(data: &[u8]) -> (r: bool)
    ensures
        r == (data@.len() >= 8 && data@.subrange(0, 8) == verify_prefix()),
{
    if data.len() < 8 {
        return false;
    }
    let r = data[0] == 0x73 && data[1] == 0x68 && data[2] == 0x61 && data[3] == 0x31 && data[4]
        == 0x73 && data[5] == 0x75 && data[6] == 0x6d && data[7] == 0x20;
    assert(r == (data@.subrange(0, 8) =~= verify_prefix()));
    r
}

impl Image {
    /// Decodes a whole image file.
    pub fn decode(file: &[u8]) -> (r: Result<Image, ImageError>)
        ensures
            result_view(r) == decode_image(file@),
    {
        if file.len() < 64 {
            return Err(ImageError::Truncated);
        }
        let header = RawImageHead::parse(file);
        if header.magic != MAGIC {
            return Err(ImageError::InvalidMagic { magic: header.magic });
        }
        let version = ImageVersion::try_from_raw(header.version)?;
        let size_info = version.size_raw_info();
        let width = version.size_item_type();
        let mut items: Vec<Item> = Vec::new();
        let mut need_verify: Option<Item> = None;
        let mut item_id: u32 = 0;
        assert(items@.map_values(|it: Item| it@) =~= Seq::<ItemView>::empty());
        while item_id < header.item_count
            invariant
                file@.len() >= 64,
                header == head_at(file@),
                header.magic == MAGIC,
                ImageVersion::from_raw(header.version) == Some(version),
                size_info == version.record_size(),
                width == version.name_width(),
                item_id <= header.item_count,
                decode_records(file@, version, item_id as nat) == Ok::<
                    (Seq<ItemView>, Option<ItemView>),
                    ImageFault,
                >((items@.map_values(|it: Item| it@), pending_view(need_verify))),
            decreases header.item_count - item_id,
        {
            proof {
                assert(decode_records(file@, version, (item_id + 1) as nat) == match decode_records(file@, version, item_id as nat) {
                    Err(e) => Err(e),
                    Ok((its, pend)) => {
                        if record_start(version, item_id as int) + version.record_size() > file@.len() {
                            Err(ImageFault::Truncated)
                        } else {
                            let info = record_in(file@, version, item_id as int);
                            if info.offset_in_image + info.item_size > file@.len() {
                                Err(ImageFault::Truncated)
                            } else {
                                decode_step(its, pend, info, body_of(file@, info))
                            }
                        }
                    },
                });
            }
            assert(size_info as u64 * item_id as u64 <= 576 * 0xffff_ffffu64) by (nonlinear_arith)
                requires
                    size_info <= 576,
                    item_id <= 0xffff_ffffu32,
            ;
            let start: u64 = 64 + size_info as u64 * item_id as u64;
            assert(start as int == record_start(version, item_id as int));
            if start + size_info as u64 > file.len() as u64 {
                proof {
                    assert(decode_records(file@, version, (item_id + 1) as nat) == Err::<
                        (Seq<ItemView>, Option<ItemView>),
                        ImageFault,
                    >(ImageFault::Truncated));
                    lemma_decode_error_persists(file@, version, (item_id + 1) as nat, header.item_count as nat);
                }
                return Err(ImageError::Truncated);
            }
            let start = start as usize;
            let record = &file[start..start + size_info];
            let item_info = RawItemInfo::parse(record, width);
            assert(item_info@ == record_in(file@, version, item_id as int));
            if item_info.offset_in_image > file.len() as u64 || item_info.item_size > file.len() as u64
                - item_info.offset_in_image {
                proof {
                    assert(decode_records(file@, version, (item_id + 1) as nat) == Err::<
                        (Seq<ItemView>, Option<ItemView>),
                        ImageFault,
                    >(ImageFault::Truncated));
                    lemma_decode_error_persists(file@, version, (item_id + 1) as nat, header.item_count as nat);
                }
                return Err(ImageError::Truncated);
            }
            let offset = item_info.offset_in_image as usize;
            let size = item_info.item_size as usize;
            let data = slice_to_vec(&file[offset..offset + size]);
            let ghost before = items@.map_values(|it: Item| it@);
            assert(data@ == body_of(file@, item_info@));
            assert(decode_records(file@, version, (item_id + 1) as nat) == decode_step(
                before,
                pending_view(need_verify),
                item_info@,
                data@,
            ));
            match need_verify {
                Some(pending) => {
                    if !(item_info.item_sub_type == pending.stem) || !str_eq(
                        item_info.item_main_type.as_str(),
                        "VERIFY",
                    ) {
                        proof {
                            lemma_decode_error_persists(file@, version, (item_id + 1) as nat, header.item_count as nat);
                        }
                        return Err(ImageError::UnmatchedVerify);
                    }
                    if !(item_info.item_size == 48 && has_verify_prefix(data.as_slice())
                        && item_info.verify == 0) {
                        proof {
                            lemma_decode_error_persists(file@, version, (item_id + 1) as nat, header.item_count as nat);
                        }
                        return Err(ImageError::IllegalVerify);
                    }
                    let sha1sum = match Sha1sum::from_hex(&data.as_slice()[8..48]) {
                        Ok(d) => d,
                        Err(e) => {
                        proof {
                            lemma_decode_error_persists(file@, version, (item_id + 1) as nat, header.item_count as nat);
                        }
                            return Err(e);
                        },
                    };
                    let item = Item {
                        data: pending.data,
                        extension: pending.extension,
                        stem: pending.stem,
                        sha1sum: Some(sha1sum),
                    };
                    let ghost pushed = item@;
                    items.push(item);
                    assert(items@.map_values(|it: Item| it@) =~= before.push(pushed));
                    need_verify = None;
                },
                None => {
                    let item = Item {
                        data,
                        extension: item_info.item_main_type,
                        stem: item_info.item_sub_type,
                        sha1sum: None,
                    };
                    if item_info.verify == 0 {
                        let ghost pushed = item@;
                        items.push(item);
                        assert(items@.map_values(|it: Item| it@) =~= before.push(pushed));
                    } else {
                        need_verify = Some(item);
                    }
                },
            }
            item_id = item_id + 1;
        }
        if need_verify.is_some() {
            return Err(ImageError::UnmatchedVerify);
        }
        Ok(Image { version, align: header.item_align_size, items })
    }
}

} // verus!
