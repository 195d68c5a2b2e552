//! The image checksum: a table-driven CRC-32 over the reversed polynomial
//! `0xEDB88320`, started at `0xFFFFFFFF` and, unlike the usual CRC-32, never
//! complemented at the end.

use vstd::prelude::*;

verus! {

/// The reversed generator polynomial.
pub const CRC32_POLYNOMIAL: u32 = 0xedb88320;

/// The state a checksum starts from.
pub const CRC32_INIT: u32 = 0xffffffff;

/// `v` after `n` rounds of the bitwise division step.
pub open spec fn crc_table_bits(v: u32, n: nat) -> u32
    decreases n,
{
    if n == 0 {
        v
    } else {
        let w = crc_table_bits(v, (n - 1) as nat);
        if w & 1 == 0 {
            w >> 1
        } else {
            (w >> 1) ^ CRC32_POLYNOMIAL
        }
    }
}

/// Entry `i` of the 256-entry lookup table.
pub open spec fn crc_table_entry(i: u32) -> u32 {
    crc_table_bits(i, 8)
}

/// One byte folded into the running state.
pub open spec fn crc_step(state: u32, byte: u8) -> u32 {
    crc_table_entry((state ^ (byte as u32)) & 0xff) ^ (state >> 8)
}

/// The running state after folding in every byte of `data`, in order.
pub open spec fn crc_update(state: u32, data: Seq<u8>) -> u32
    decreases data.len(),
{
    if data.len() == 0 {
        state
    } else {
        crc_step(crc_update(state, data.drop_last()), data.last())
    }
}

/// The checksum of `data`: the raw final state, with no final complement.
pub open spec fn crc32_of(data: Seq<u8>) -> u32 {
    crc_update(CRC32_INIT, data)
}

/// Hashing `a` and then `b` gives the checksum of `a + b`.
pub proof fn lemma_crc_update_concat(state: u32, a: Seq<u8>, b: Seq<u8>)
    ensures
        crc_update(state, a + b) == crc_update(crc_update(state, a), b),
    decreases b.len(),
{
    if b.len() == 0 {
        assert(a + b =~= a);
    } else {
        assert((a + b).drop_last() =~= a + b.drop_last());
        assert((a + b).last() == b.last());
        lemma_crc_update_concat(state, a, b.drop_last());
    }
}

#[derive(Clone, Copy)]
pub struct Crc32Table {
    pub table: [u32; 256],
}

impl Crc32Table {
    pub open spec fn wf(&self) -> bool {
        forall|i: int| 0 <= i < 256 ==> #[trigger] self.table@[i] == crc_table_entry(i as u32)
    }
}

impl Default for Crc32Table {
    fn default() -> (r: Self)
        ensures
            r.wf(),
    {
        let mut table = [0u32; 256];
        let mut id: u32 = 0;
        while id < 256
            invariant
                id <= 256,
                forall|i: int| 0 <= i < id ==> #[trigger] table@[i] == crc_table_entry(i as u32),
            decreases 256 - id,
        {
            let mut byte: u32 = id;
            let mut round: u32 = 0;
            while round < 8
                invariant
                    round <= 8,
                    byte == crc_table_bits(id, round as nat),
                decreases 8 - round,
            {
                let shifted: u32 = byte >> 1;
                if byte & 1 == 0 {
                    byte = shifted;
                } else {
                    byte = shifted ^ CRC32_POLYNOMIAL;
                }
                round = round + 1;
            }
            table[id as usize] = byte;
            id = id + 1;
        }
        Crc32Table { table }
    }
}

/// A running checksum.
pub struct Crc32Hasher {
    pub value: u32,
    pub table: Crc32Table,
}

impl Crc32Hasher {
    pub open spec fn wf(&self) -> bool {
        self.table.wf()
    }

    pub fn new() -> (r: Self)
        ensures
            r.wf(),
            r.value == CRC32_INIT,
    {
        Self::default()
    }

    /// Folds `data` into the running state.
    pub fn update(&mut self, data: &[u8])
        requires
            old(self).wf(),
        ensures
            final(self).wf(),
            final(self).value == crc_update(old(self).value, data@),
    {
        let ghost start = self.value;
        let mut i: usize = 0;
        while i < data.len()
            invariant
                self.wf(),
                i <= data@.len(),
                self.value == crc_update(start, data@.subrange(0, i as int)),
            decreases data@.len() - i,
        {
            let byte = data[i];
            let current: u32 = self.value;
            let lookup_id: u32 = (current ^ byte as u32) & 0xff;
            assert(((current ^ byte as u32) & 0xff) < 256) by (bit_vector);
            let lookup_value = self.table.table[lookup_id as usize];
            let ghost before = self.value;
            self.value = lookup_value ^ self.value >> 8;
            assert(data@.subrange(0, i + 1).drop_last() =~= data@.subrange(0, i as int));
            assert(self.value == crc_step(before, byte));
            i = i + 1;
        }
        assert(data@.subrange(0, i as int) =~= data@);
    }

    /// The checksum of everything that a reader yielded, given as the bytes
    /// read.
    pub fn from_reader(data: &[u8]) -> (r: Self)
        ensures
            r.wf(),
            r.value == crc32_of(data@),
    {
        let mut crc32 = Self::new();
        crc32.update(data);
        crc32
    }
}

impl Default for Crc32Hasher {
    fn default() -> (r: Self)
        ensures
            r.wf(),
            r.value == CRC32_INIT,
    {
        Crc32Hasher { value: CRC32_INIT, table: Crc32Table::default() }
    }
}

} // verus!
