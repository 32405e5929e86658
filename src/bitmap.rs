//! Dense bitmap blocks of document ids.
use vstd::prelude::*;
use ahash::AHashSet;
use crate::hashed::{id_set_contains, id_set_contents};

verus! {

/// Document ids per bitmap block.
pub const BITS_PER_BLOCK: u32 = 1024;
/// Bytes per bitmap block.
pub const BYTES_PER_BLOCK: usize = 128;

/// Whether bit `j` (bit `j % 8` of byte `j / 8`) of `b` is set.
pub open spec fn has_bit(b: Seq<u8>, j: int) -> bool {
    0 <= j < 8 * b.len() && b[j / 8] & (1u8 << ((j % 8) as u8)) != 0
}

/// `b` with bit `j` set.
pub open spec fn set_bit(b: Seq<u8>, j: int) -> Seq<u8> {
    b.update(j / 8, b[j / 8] | (1u8 << ((j % 8) as u8)))
}

/// A block of all-zero bytes.
pub open spec fn zero_block() -> Seq<u8> {
    Seq::new(BYTES_PER_BLOCK as nat, |i: int| 0u8)
}

/// The block that holds a document id.
pub open spec fn spec_block_num(document_id: u32) -> u32 {
    (document_id / BITS_PER_BLOCK) as u32
}

/// The position of a document id within its block.
pub open spec fn block_bit(document_id: u32) -> int {
    (document_id % BITS_PER_BLOCK) as int
}

/// One block of a set of document ids.
pub struct DenseBitmap {
    pub bitmap: Vec<u8>,
}

impl DenseBitmap {
    pub fn empty() -> (r: DenseBitmap)
        ensures
            r.bitmap@ == zero_block(),
    {
        let r = DenseBitmap { bitmap: vec![0u8; BYTES_PER_BLOCK] };
        assert(r.bitmap@ =~= zero_block());
        r
    }

    /// Adds a document id to the block that holds it.
    pub fn set(&mut self, document_id: u32)
        requires
            old(self).bitmap@.len() == BYTES_PER_BLOCK,
        ensures
            final(self).bitmap@ == set_bit(old(self).bitmap@, block_bit(document_id)),
    {
        let index = document_id % BITS_PER_BLOCK;
        let pos = (index / 8) as usize;
        let bit = (index % 8) as u8;
        let byte = self.bitmap[pos] | (1u8 << bit);
        self.bitmap.set(pos, byte);
    }

    pub fn block_num(document_id: u32) -> (r: u32)
        ensures
            r == spec_block_num(document_id),
    {
        document_id / BITS_PER_BLOCK
    }
}

/// The global id of bit `j` of block `block_num`.
pub open spec fn global_id(block_num: u32, j: int) -> int {
    block_num * BITS_PER_BLOCK + j
}

/// Whether bit `j` of a stored block is free for allocation: clear, its id
/// fits in 32 bits and is not reserved.
pub open spec fn free_bit(bytes: Seq<u8>, block_num: u32, reserved: Set<u32>, j: int) -> bool {
    &&& 0 <= j < 8 * bytes.len()
    &&& !has_bit(bytes, j)
    &&& global_id(block_num, j) <= u32::MAX
    &&& !reserved.contains(global_id(block_num, j) as u32)
}

/// The lowest free id of a stored block, skipping reserved ids.
pub fn next_available_index(bytes: &Vec<u8>, block_num: u32, reserved_ids: &AHashSet<u32>) -> (r:
    Option<u32>)
    ensures
        match r {
            Some(id) => exists|j: int|
                free_bit(bytes@, block_num, id_set_contents(*reserved_ids), j) && id == global_id(block_num, j)
                    && forall|k: int| 0 <= k < j ==> !free_bit(bytes@, block_num, id_set_contents(*reserved_ids), k),
            None => forall|j: int| !free_bit(bytes@, block_num, id_set_contents(*reserved_ids), j),
        },
{
    let ghost res = id_set_contents(*reserved_ids);
    let n = bytes.len();
    assert(block_num as u64 * 1024 <= 0x3ff_ffff_fc00) by (nonlinear_arith)
        requires
            block_num <= u32::MAX,
    ;
    let base: u64 = block_num as u64 * BITS_PER_BLOCK as u64;
    let mut pos: usize = 0;
    while pos < n
        invariant
            n == bytes@.len(),
            pos <= n,
            base == block_num * BITS_PER_BLOCK,
            res == id_set_contents(*reserved_ids),
            forall|k: int| 0 <= k < 8 * pos ==> !free_bit(bytes@, block_num, res, k),
        decreases n - pos,
    {
        if pos >= 0x2000_0000 {
            // every id from here on is beyond 32 bits
            assert forall|j: int| !free_bit(bytes@, block_num, res, j) by {
                if j >= 8 * pos {
                    assert(global_id(block_num, j) > u32::MAX);
                }
            }
            return None;
        }
        let byte = bytes[pos];
        let mut bit: u8 = 0;
        while bit < 8
            invariant
                n == bytes@.len(),
                pos < n,
                pos < 0x2000_0000,
                bit <= 8,
                byte == bytes@[pos as int],
                base == block_num * BITS_PER_BLOCK,
                res == id_set_contents(*reserved_ids),
                forall|k: int| 0 <= k < 8 * pos + bit ==> !free_bit(bytes@, block_num, res, k),
            decreases 8 - bit,
        {
            let ghost j: int = 8 * pos + bit;
            assert(j / 8 == pos && j % 8 == bit) by (nonlinear_arith)
                requires
                    j == 8 * pos + bit,
                    bit < 8,
            ;
            if byte & (1u8 << bit) == 0 {
                let offset: u64 = pos as u64 * 8 + bit as u64;
                let index: u64 = base + offset;
                if index <= u32::MAX as u64 {
                    if !id_set_contains(reserved_ids, index as u32) {
                        assert(free_bit(bytes@, block_num, res, j));
                        return Some(index as u32);
                    }
                }
            }
            bit = bit + 1;
        }
        pos = pos + 1;
    }
    None
}

} // verus!
