//! An in-memory block device, the reference implementation of
//! `BlockDeviceIo`. It never fails, which makes it the natural backing
//! store for exercising the engine.

use vstd::prelude::*;

use crate::sector::{BlockDeviceIo, FsErr, BLOCK_MAX_SIZE, BLOCK_MIN_SIZE};

verus! {

pub struct MemBlockDevice {
    block_size: usize,
    data: Vec<Vec<u8>>,
}

impl MemBlockDevice {
    /// A zero-filled device of `block_count` blocks of `block_size` bytes.
    pub fn new(block_size: usize, block_count: u32) -> (r: Self)
        requires
            BLOCK_MIN_SIZE <= block_size <= BLOCK_MAX_SIZE,
        ensures
            r.inv(),
            r.block_size_spec() == block_size,
            r.blocks().len() == block_count,
            forall|i: int, j: int|
                0 <= i < block_count && 0 <= j < block_size ==> r.blocks()[i][j] == 0u8,
    {
        let mut data: Vec<Vec<u8>> = Vec::new();
        let mut i: u32 = 0;
        while i < block_count
            invariant
                i <= block_count,
                data.len() == i,
                forall|k: int|
                    0 <= k < i ==> (#[trigger] data@[k]).len() == block_size,
                forall|k: int, j: int|
                    0 <= k < i && 0 <= j < block_size ==> data@[k]@[j] == 0u8,
            decreases block_count - i,
        {
            let block: Vec<u8> = vec![0u8; block_size];
            data.push(block);
            i += 1;
        }
        MemBlockDevice { block_size, data }
    }
}

impl BlockDeviceIo for MemBlockDevice {
    closed spec fn blocks(&self) -> Seq<Seq<u8>> {
        self.data@.map_values(|b: Vec<u8>| b@)
    }

    closed spec fn block_size_spec(&self) -> nat {
        self.block_size as nat
    }

    closed spec fn inv(&self) -> bool {
        &&& BLOCK_MIN_SIZE <= self.block_size <= BLOCK_MAX_SIZE
        &&& self.data.len() <= u32::MAX
        &&& forall|i: int|
            0 <= i < self.data.len() ==> (#[trigger] self.data@[i]).len() == self.block_size
    }

    proof fn lemma_shape(&self) {
    }

    fn block_size(&self) -> (r: u32) {
        self.block_size as u32
    }

    fn block_count(&self) -> (r: u32) {
        self.data.len() as u32
    }

    fn read(&self, block: u32, data: &mut Vec<u8>) -> (r: Result<(), FsErr>) {
        let src = &self.data[block as usize];
        let len = data.len();
        let mut i: usize = 0;
        while i < len
            invariant
                i <= len,
                data.len() == len,
                src.len() == len,
                forall|j: int| 0 <= j < i ==> data@[j] == src@[j],
            decreases len - i,
        {
            let b = src[i];
            data[i] = b;
            i += 1;
        }
        proof {
            assert(data@ =~= src@);
        }
        Ok(())
    }

    fn write(&mut self, block: u32, data: &Vec<u8>) -> (r: Result<(), FsErr>) {
        let mut copy: Vec<u8> = Vec::new();
        let len = data.len();
        let mut i: usize = 0;
        while i < len
            invariant
                i <= len,
                data.len() == len,
                copy@ == data@.subrange(0, i as int),
            decreases len - i,
        {
            copy.push(data[i]);
            i += 1;
        }
        proof {
            assert(copy@ =~= data@);
        }
        self.data[block as usize] = copy;
        proof {
            assert(self.blocks() =~= old(self).blocks().update(block as int, data@));
        }
        Ok(())
    }
}

} // verus!
