//! The item store: an image as an ordered sequence of named items, each with
//! an optional digest, and the operations that look items up and fill,
//! clear or check their digests.

use vstd::prelude::*;

use crate::error::{ImageError, ImageFault};
use crate::layout::{name_bytes, ImageVersion};
use crate::names::{bytes_end_with, name_gt, name_greater, str_ends_with, str_eq};
use crate::sha1sum::{sha1_of, Sha1sum};

verus! {

/// One named payload of an image.
#[derive(Debug)]
pub struct Item {
    pub data: Vec<u8>,
    /// The main type, such as `USB` or `PARTITION`.
    pub extension: String,
    /// The sub type, such as `DDR` or `boot`.
    pub stem: String,
    pub sha1sum: Option<Sha1sum>,
}

pub struct ItemView {
    pub data: Seq<u8>,
    pub stem: Seq<char>,
    pub extension: Seq<char>,
    pub digest: Option<Seq<u8>>,
}

pub open spec fn digest_view(d: Option<Sha1sum>) -> Option<Seq<u8>> {
    match d {
        Some(s) => Some(s@),
        None => None,
    }
}

impl View for Item {
    type V = ItemView;

    open spec fn view(&self) -> ItemView {
        ItemView {
            data: self.data@,
            stem: self.stem@,
            extension: self.extension@,
            digest: digest_view(self.sha1sum),
        }
    }
}

impl Item {
    pub fn new(stem: String, extension: String, data: Vec<u8>) -> (r: Self)
        ensures
            r@ == (ItemView { data: data@, stem: stem@, extension: extension@, digest: None }),
    {
        Item { data, extension, stem, sha1sum: None }
    }
}

/// An image: its format version, the alignment of item bodies, and its items.
#[derive(Debug)]
pub struct Image {
    pub version: ImageVersion,
    pub align: u32,
    pub items: Vec<Item>,
}

pub struct ImageView {
    pub version: ImageVersion,
    pub align: u32,
    pub items: Seq<ItemView>,
}

impl View for Image {
    type V = ImageView;

    open spec fn view(&self) -> ImageView {
        ImageView {
            version: self.version,
            align: self.align,
            items: self.items@.map_values(|i: Item| i@),
        }
    }
}

pub open spec fn is_named(it: ItemView, stem: Seq<char>, extension: Seq<char>) -> bool {
    it.stem == stem && it.extension == extension
}

/// How many of `items` are named `stem.extension`.
pub open spec fn count_named(items: Seq<ItemView>, stem: Seq<char>, extension: Seq<char>) -> nat
    decreases items.len(),
{
    if items.len() == 0 {
        0
    } else {
        count_named(items.drop_last(), stem, extension) + if is_named(
            items.last(),
            stem,
            extension,
        ) {
            1nat
        } else {
            0nat
        }
    }
}

/// What looking up `stem.extension` among `items` gives: the one item so
/// named, or the error for none or several.
pub open spec fn lookup_fault(items: Seq<ItemView>, stem: Seq<char>, extension: Seq<char>) -> Option<ImageFault> {
    if count_named(items, stem, extension) == 0 {
        Some(ImageFault::MissingItem(stem, extension))
    } else if count_named(items, stem, extension) > 1 {
        Some(ImageFault::DuplicatedItem(stem, extension))
    } else {
        None
    }
}

/// The stored digest, where there is one, is that of the data.
pub open spec fn digest_matches(it: ItemView) -> bool {
    match it.digest {
        Some(d) => d == sha1_of(it.data),
        None => true,
    }
}

/// The stored digest, where there is one, is `computed`.
pub open spec fn digest_agrees(it: ItemView, computed: Seq<u8>) -> bool {
    match it.digest {
        Some(d) => d == computed,
        None => true,
    }
}

/// The item with a digest: its own, or else `computed`.
pub open spec fn with_digest(it: ItemView, computed: Seq<u8>) -> ItemView {
    ItemView {
        digest: match it.digest {
            Some(d) => Some(d),
            None => Some(computed),
        },
        ..it
    }
}

pub open spec fn without_digest(it: ItemView) -> ItemView {
    ItemView { digest: None, ..it }
}

/// The alignment advised for an image's items: 8 where there is exactly one
/// `super.PARTITION` and some partition's stem ends in `_a` (the layout of
/// Android 11 and later), else 4.
pub open spec fn guessed_align(items: Seq<ItemView>) -> u32 {
    let has_slot_a = exists|i: int| 0 <= i < items.len() && is_slot_a_partition(#[trigger] items[i]);
    if count_named(items, "super"@, "PARTITION"@) == 1 && has_slot_a {
        8
    } else {
        4
    }
}

/// A partition whose stem ends in `_a`.
pub open spec fn is_slot_a_partition(it: ItemView) -> bool {
    it.extension == "PARTITION"@ && bytes_end_with(name_bytes(it.stem), name_bytes("_a"@))
}

/// Orders two items by name: stem first, then extension.
pub fn sort_items_by_name(some: &Item, other: &Item) -> (r: core::cmp::Ordering)
    ensures
        (r == core::cmp::Ordering::Greater) == name_gt(some.stem@, some.extension@, other.stem@, other.extension@),
        (r == core::cmp::Ordering::Less) == (!name_gt(some.stem@, some.extension@, other.stem@, other.extension@)
            && name_gt(other.stem@, other.extension@, some.stem@, some.extension@)),
{
    if name_greater(some.stem.as_str(), some.extension.as_str(), other.stem.as_str(), other.extension.as_str()) {
        core::cmp::Ordering::Greater
    } else if name_greater(other.stem.as_str(), other.extension.as_str(), some.stem.as_str(), some.extension.as_str()) {
        core::cmp::Ordering::Less
    } else {
        core::cmp::Ordering::Equal
    }
}

/// [`sort_items_by_name`] on references to items.
pub fn sort_ref_items_by_name(some: &&Item, other: &&Item) -> (r: core::cmp::Ordering)
    ensures
        (r == core::cmp::Ordering::Greater) == name_gt(some.stem@, some.extension@, other.stem@, other.extension@),
        (r == core::cmp::Ordering::Less) == (!name_gt(some.stem@, some.extension@, other.stem@, other.extension@)
            && name_gt(other.stem@, other.extension@, some.stem@, some.extension@)),
{
    sort_items_by_name(*some, *other)
}

impl Image {
    /// The one item named `stem.extension`.
    pub fn find_item(&self, stem: &str, extension: &str) -> (r: Result<&Item, ImageError>)
        ensures
            match lookup_fault(self@.items, stem@, extension@) {
                Some(f) => r matches Err(e) && e@ == f,
                None => r matches Ok(it) && is_named(it@, stem@, extension@) && exists|k: int|
                    0 <= k < self@.items.len() && self@.items[k] == it@,
            },
    {
        let mut result: Option<usize> = None;
        let mut i: usize = 0;
        while i < self.items.len()
            invariant
                i <= self@.items.len(),
                count_named(self@.items.subrange(0, i as int), stem@, extension@) <= 1,
                match result {
                    None => count_named(self@.items.subrange(0, i as int), stem@, extension@)
                        == 0,
                    Some(k) => count_named(self@.items.subrange(0, i as int), stem@, extension@)
                        == 1 && k < i && is_named(self@.items[k as int], stem@, extension@),
                },
            decreases self@.items.len() - i,
        {
            let item = &self.items[i];
            assert(self@.items.subrange(0, i + 1).drop_last() =~= self@.items.subrange(0, i as int));
            assert(self@.items[i as int] == item@);
            if str_eq(item.stem.as_str(), stem) && str_eq(item.extension.as_str(), extension) {
                if result.is_some() {
                    proof {
                        self.lemma_count_grows(i as int + 1, stem@, extension@);
                    }
                    return Err(
                        ImageError::DuplicatedItem {
                            stem: stem.to_owned(),
                            extension: extension.to_owned(),
                        },
                    );
                }
                result = Some(i);
            }
            i = i + 1;
        }
        assert(self@.items.subrange(0, i as int) =~= self@.items);
        match result {
            Some(k) => Ok(&self.items[k]),
            None => Err(
                ImageError::MissingItem { stem: stem.to_owned(), extension: extension.to_owned() },
            ),
        }
    }

    /// Counting over a longer prefix never gives fewer.
    proof fn lemma_count_grows(&self, n: int, stem: Seq<char>, extension: Seq<char>)
        requires
            0 <= n <= self@.items.len(),
        ensures
            count_named(self@.items, stem, extension) >= count_named(
                self@.items.subrange(0, n),
                stem,
                extension,
            ),
        decreases self@.items.len() - n,
    {
        if n < self@.items.len() {
            self.lemma_count_grows(n + 1, stem, extension);
            assert(self@.items.subrange(0, n + 1).drop_last() =~= self@.items.subrange(0, n));
        } else {
            assert(self@.items.subrange(0, n) =~= self@.items);
        }
    }

    /// The five items that every image holds: `DDR.USB`, `UBOOT.USB`,
    /// `aml_sdc_burn.ini`, `meson1.dtb` and `platform.conf`, each exactly once.
    pub fn find_essentials(&self) -> (r: Result<(&Item, &Item, &Item, &Item, &Item), ImageError>)
        ensures
            r is Ok <==> (lookup_fault(self@.items, "DDR"@, "USB"@) is None && lookup_fault(
                self@.items,
                "UBOOT"@,
                "USB"@,
            ) is None && lookup_fault(self@.items, "aml_sdc_burn"@, "ini"@) is None
                && lookup_fault(self@.items, "meson1"@, "dtb"@) is None && lookup_fault(
                self@.items,
                "platform"@,
                "conf"@,
            ) is None),
            r matches Ok(t) ==> is_named(t.0@, "DDR"@, "USB"@) && is_named(t.1@, "UBOOT"@, "USB"@)
                && is_named(t.2@, "aml_sdc_burn"@, "ini"@) && is_named(t.3@, "meson1"@, "dtb"@)
                && is_named(t.4@, "platform"@, "conf"@),
            r matches Err(e) ==> Some(e@) == (if lookup_fault(self@.items, "DDR"@, "USB"@) is Some {
                lookup_fault(self@.items, "DDR"@, "USB"@)
            } else if lookup_fault(self@.items, "UBOOT"@, "USB"@) is Some {
                lookup_fault(self@.items, "UBOOT"@, "USB"@)
            } else if lookup_fault(self@.items, "aml_sdc_burn"@, "ini"@) is Some {
                lookup_fault(self@.items, "aml_sdc_burn"@, "ini"@)
            } else if lookup_fault(self@.items, "meson1"@, "dtb"@) is Some {
                lookup_fault(self@.items, "meson1"@, "dtb"@)
            } else {
                lookup_fault(self@.items, "platform"@, "conf"@)
            }),
    {
        let ddr = self.find_item("DDR", "USB")?;
        let uboot = self.find_item("UBOOT", "USB")?;
        let ini = self.find_item("aml_sdc_burn", "ini")?;
        let dtb = self.find_item("meson1", "dtb")?;
        let conf = self.find_item("platform", "conf")?;
        Ok((ddr, uboot, ini, dtb, conf))
    }

    /// Checks every stored digest against digests computed elsewhere, one
    /// for each item in order.
    pub fn check_digests(&self, computed: &Vec<Sha1sum>) -> (r: Result<(), ImageError>)
        requires
            computed@.len() == self@.items.len(),
        ensures
            r is Ok <==> forall|i: int|
                0 <= i < self@.items.len() ==> digest_agrees(
                    #[trigger] self@.items[i],
                    computed@[i]@,
                ),
            r matches Err(e) ==> e is IllegalVerify,
    {
        let mut i: usize = 0;
        while i < self.items.len()
            invariant
                i <= self@.items.len(),
                computed@.len() == self@.items.len(),
                forall|j: int| 0 <= j < i ==> digest_agrees(#[trigger] self@.items[j], computed@[j]@),
            decreases self@.items.len() - i,
        {
            let item = &self.items[i];
            assert(self@.items[i as int] == item@);
            match &item.sha1sum {
                Some(recorded) => {
                    if !(*recorded == computed[i]) {
                        return Err(ImageError::IllegalVerify);
                    }
                },
                None => {},
            }
            i = i + 1;
        }
        Ok(())
    }

    /// The digest of each item's data, in order.
    pub fn compute_digests(&self) -> (r: Vec<Sha1sum>)
        ensures
            r@.len() == self@.items.len(),
            forall|i: int| 0 <= i < r@.len() ==> #[trigger] r@[i]@ == sha1_of(self@.items[i].data),
    {
        let mut out: Vec<Sha1sum> = Vec::new();
        let mut i: usize = 0;
        while i < self.items.len()
            invariant
                i <= self@.items.len(),
                out@.len() == i,
                forall|j: int| 0 <= j < i ==> #[trigger] out@[j]@ == sha1_of(self@.items[j].data),
            decreases self@.items.len() - i,
        {
            assert(self@.items[i as int] == self.items[i as int]@);
            out.push(Sha1sum::from_data(self.items[i].data.as_slice()));
            i = i + 1;
        }
        out
    }

    /// Recomputes the digest of every item that has one and compares.
    pub fn verify(&self) -> (r: Result<(), ImageError>)
        ensures
            r is Ok <==> forall|i: int|
                0 <= i < self@.items.len() ==> digest_matches(#[trigger] self@.items[i]),
            r matches Err(e) ==> e is IllegalVerify,
    {
        let computed = self.compute_digests();
        let r = self.check_digests(&computed);
        assert(forall|i: int| 0 <= i < self@.items.len() ==> digest_agrees(
            #[trigger] self@.items[i], computed@[i]@) == digest_matches(self@.items[i]));
        r
    }

    /// Drops every digest.
    pub fn clear_verify(&mut self)
        ensures
            final(self)@.version == old(self)@.version,
            final(self)@.align == old(self)@.align,
            final(self)@.items == old(self)@.items.map_values(|it: ItemView| without_digest(it)),
    {
        let mut i: usize = 0;
        while i < self.items.len()
            invariant
                i <= self@.items.len(),
                self@.items.len() == old(self)@.items.len(),
                self.version == old(self).version,
                self.align == old(self).align,
                forall|j: int| 0 <= j < i ==> #[trigger] self.items@[j]@ == without_digest(old(self).items@[j]@),
                forall|j: int| i <= j < self@.items.len() ==> #[trigger] self.items@[j] == old(self).items@[j],
            decreases self@.items.len() - i,
        {
            self.items[i].sha1sum = None;
            i = i + 1;
        }
        assert(self@.items =~= old(self)@.items.map_values(|it: ItemView| without_digest(it)));
    }

    /// Gives every item without a digest the one computed elsewhere for it.
    pub fn attach_digests(&mut self, computed: &Vec<Sha1sum>)
        requires
            computed@.len() == old(self)@.items.len(),
        ensures
            final(self)@.version == old(self)@.version,
            final(self)@.align == old(self)@.align,
            final(self)@.items.len() == old(self)@.items.len(),
            forall|i: int| 0 <= i < old(self)@.items.len() ==> #[trigger] final(self)@.items[i] == with_digest(old(self)@.items[i], computed@[i]@),
    {
        let mut i: usize = 0;
        while i < self.items.len()
            invariant
                i <= self@.items.len(),
                self@.items.len() == old(self)@.items.len(),
                computed@.len() == old(self)@.items.len(),
                self.version == old(self).version,
                self.align == old(self).align,
                forall|j: int| 0 <= j < i ==> #[trigger] self.items@[j]@ == with_digest(old(self).items@[j]@, computed@[j]@),
                forall|j: int| i <= j < self@.items.len() ==> #[trigger] self.items@[j] == old(self).items@[j],
            decreases self@.items.len() - i,
        {
            if self.items[i].sha1sum.is_none() {
                self.items[i].sha1sum = Some(computed[i]);
            }
            i = i + 1;
        }
        assert forall|j: int| 0 <= j < old(self)@.items.len() implies #[trigger] final(self)@.items[j]
            == with_digest(old(self)@.items[j], computed@[j]@) by {
            assert(self.items@[j]@ == with_digest(old(self).items@[j]@, computed@[j]@));
        }
    }

    /// Gives every item without a digest the digest of its data.
    pub fn fill_verify(&mut self)
        ensures
            final(self)@.version == old(self)@.version,
            final(self)@.align == old(self)@.align,
            final(self)@.items.len() == old(self)@.items.len(),
            forall|i: int| 0 <= i < old(self)@.items.len() ==> #[trigger] final(self)@.items[i] == with_digest(old(self)@.items[i], sha1_of(old(self)@.items[i].data)),
    {
        let computed = self.compute_digests();
        self.attach_digests(&computed);
    }

    /// The alignment that the items suggest; see [`guessed_align`].
    pub fn guess_align_size(&self) -> (r: u32)
        ensures
            r == guessed_align(self@.items),
    {
        let found = self.find_item("super", "PARTITION");
        if found.is_err() {
            return 4;
        }
        let mut i: usize = 0;
        while i < self.items.len()
            invariant
                i <= self@.items.len(),
                count_named(self@.items, "super"@, "PARTITION"@) == 1,
                forall|j: int| 0 <= j < i ==> !is_slot_a_partition(#[trigger] self@.items[j]),
            decreases self@.items.len() - i,
        {
            let item = &self.items[i];
            assert(self@.items[i as int] == item@);
            if str_eq(item.extension.as_str(), "PARTITION") && str_ends_with(item.stem.as_str(), "_a") {
                assert(is_slot_a_partition(self@.items[i as int]));
                return 8;
            }
            i = i + 1;
        }
        4
    }

    /// Sets the version, and the alignment rounded up to a multiple of 4.
    pub fn set_ver_align(&mut self, ver: ImageVersion, align: u8)
        ensures
            final(self)@.version == ver,
            final(self)@.align == (align as int + 3) / 4 * 4,
            final(self)@.items == old(self)@.items,
    {
        self.version = ver;
        self.align = (align as u32 + 3) / 4 * 4;
    }
}

} // verus!
