//! Single-slot write-back block cache over a raw block device, and the
//! byte-range facade (`Sector`) that the table engine and the stream share.

use vstd::prelude::*;

verus! {

/// The one error surface crossing every public operation of this crate.
#[derive(Copy, Clone, Eq, PartialEq, Structural, Debug)]
pub enum FsErr {
    BadBlockSize,
    PartitionOutOfStorageSpace,
    ReadError,
    WriteError,
    OutOfRange,
    DirEntryNotFile,
    FileOrFolderDesntExist,
    FatTableError,
    NoFreeCluster,
    BadCount,
    NegativeSeek,
    EndOfFile,
    UnExpectedEndOfFile,
    EndOfStream,
}

pub const BLOCK_MIN_SIZE: usize = 512;
pub const BLOCK_MAX_SIZE: usize = 4096;

/// Raw fixed-size block device: whole-block, block-aligned transfers only.
/// Implementors state their storage as a sequence of blocks (`blocks`) and
/// must prove the contracts below; `inv` is the implementor's own
/// well-formedness condition.
pub trait BlockDeviceIo: Sized {
    spec fn blocks(&self) -> Seq<Seq<u8>>;

    spec fn block_size_spec(&self) -> nat;

    spec fn inv(&self) -> bool;

    proof fn lemma_shape(&self)
        requires
            self.inv(),
        ensures
            self.blocks().len() <= u32::MAX,
            forall|i: int|
                0 <= i < self.blocks().len() ==> (#[trigger] self.blocks()[i]).len()
                    == self.block_size_spec(),
    ;

    fn block_size(&self) -> (r: u32)
        requires
            self.inv(),
        ensures
            r as nat == self.block_size_spec(),
    ;

    fn block_count(&self) -> (r: u32)
        requires
            self.inv(),
        ensures
            r as nat == self.blocks().len(),
    ;

    fn read(&self, block: u32, data: &mut Vec<u8>) -> (r: Result<(), FsErr>)
        requires
            self.inv(),
            block < self.blocks().len(),
            old(data).len() == self.block_size_spec(),
        ensures
            final(data).len() == old(data).len(),
            r is Ok ==> final(data)@ == self.blocks()[block as int],
            r is Err ==> r->Err_0 == FsErr::ReadError,
    ;

    fn write(&mut self, block: u32, data: &Vec<u8>) -> (r: Result<(), FsErr>)
        requires
            old(self).inv(),
            block < old(self).blocks().len(),
            data.len() == old(self).block_size_spec(),
        ensures
            final(self).inv(),
            final(self).block_size_spec() == old(self).block_size_spec(),
            final(self).blocks().len() == old(self).blocks().len(),
            r is Ok ==> final(self).blocks() == old(self).blocks().update(
                block as int,
                data@,
            ),
            r is Err ==> r->Err_0 == FsErr::WriteError && final(self).blocks() == old(self).blocks(),
    ;
}

/// `s` with the range starting at `off` replaced by `v`.
pub open spec fn splice(s: Seq<u8>, off: int, v: Seq<u8>) -> Seq<u8> {
    s.subrange(0, off) + v + s.subrange(off + v.len(), s.len() as int)
}

pub proof fn lemma_splice_len(s: Seq<u8>, off: int, v: Seq<u8>)
    requires
        0 <= off,
        off + v.len() <= s.len(),
    ensures
        splice(s, off, v).len() == s.len(),
        forall|i: int| 0 <= i < off ==> splice(s, off, v)[i] == s[i],
        forall|i: int| off <= i < off + v.len() ==> splice(s, off, v)[i] == v[i - off],
        forall|i: int| off + v.len() <= i < s.len() ==> splice(s, off, v)[i] == s[i],
{
}

/// Law: cache coherency. After a write of `src` at `offset` into block
/// `number` (the relation `get_mut` establishes), the same block reads back
/// with exactly those bytes in that range, the rest of the block keeps its
/// old bytes, and every other block is untouched -- however many other
/// blocks pass through the slot in between, since `get` and `flush` leave
/// the logical contents unchanged.
pub proof fn lemma_cache_coherency(
    blocks: Seq<Seq<u8>>,
    number: int,
    offset: int,
    src: Seq<u8>,
)
    requires
        0 <= number < blocks.len(),
        0 <= offset,
        offset + src.len() <= blocks[number].len(),
    ensures
        blocks.update(number, splice(blocks[number], offset, src))[number].subrange(
            offset,
            offset + src.len(),
        ) == src,
        forall|j: int|
            0 <= j < offset ==> blocks.update(number, splice(blocks[number], offset, src))[
                number
            ][j] == blocks[number][j],
        forall|j: int|
            offset + src.len() <= j < blocks[number].len() ==> blocks.update(
                number,
                splice(blocks[number], offset, src),
            )[number][j] == blocks[number][j],
        forall|b: int|
            0 <= b < blocks.len() && b != number ==> blocks.update(
                number,
                splice(blocks[number], offset, src),
            )[b] == blocks[b],
{
    lemma_splice_len(blocks[number], offset, src);
    assert(splice(blocks[number], offset, src).subrange(offset, offset + src.len()) =~= src);
}

/// Single-slot write-back cache: at most one block is resident; `dirty`
/// records whether it must be written back before the slot is reused.
pub struct BlockDeviceCache<D: BlockDeviceIo> {
    io: D,
    block_size: usize,
    block_count: u32,
    cached_block: u32,
    loaded: bool,
    data: Vec<u8>,
    dirty: bool,
}

impl<D: BlockDeviceIo> BlockDeviceCache<D> {
    pub closed spec fn inv(&self) -> bool {
        &&& self.io.inv()
        &&& self.block_size as nat == self.io.block_size_spec()
        &&& BLOCK_MIN_SIZE <= self.block_size <= BLOCK_MAX_SIZE
        &&& self.block_count as nat == self.io.blocks().len()
        &&& self.data.len() == self.block_size
        &&& self.dirty ==> self.loaded
        &&& self.loaded ==> self.cached_block < self.block_count
        &&& (self.loaded && !self.dirty) ==> self.data@ == self.io.blocks()[
            self.cached_block as int
        ]
    }

    /// The logical contents: the device's blocks, with the resident slot
    /// taking precedence over the device copy.
    pub closed spec fn blocks(&self) -> Seq<Seq<u8>> {
        if self.loaded {
            self.io.blocks().update(self.cached_block as int, self.data@)
        } else {
            self.io.blocks()
        }
    }

    pub closed spec fn block_size_spec(&self) -> nat {
        self.block_size as nat
    }

    pub closed spec fn device_blocks(&self) -> Seq<Seq<u8>> {
        self.io.blocks()
    }

    pub closed spec fn dirty_spec(&self) -> bool {
        self.dirty
    }

    pub proof fn lemma_blocks_shape(&self)
        requires
            self.inv(),
        ensures
            self.blocks().len() <= u32::MAX,
            self.blocks().len() == self.device_blocks().len(),
            forall|i: int|
                0 <= i < self.blocks().len() ==> (#[trigger] self.blocks()[i]).len()
                    == self.block_size_spec(),
            BLOCK_MIN_SIZE <= self.block_size_spec() <= BLOCK_MAX_SIZE,
    {
        self.io.lemma_shape();
    }

    pub fn new(io: D) -> (r: Self)
        requires
            io.inv(),
            BLOCK_MIN_SIZE <= io.block_size_spec() <= BLOCK_MAX_SIZE,
        ensures
            r.inv(),
            r.blocks() == io.blocks(),
            r.device_blocks() == io.blocks(),
            r.block_size_spec() == io.block_size_spec(),
            !r.dirty_spec(),
    {
        let block_size = io.block_size() as usize;
        let block_count = io.block_count();
        let data: Vec<u8> = vec![0u8; block_size];
        Self { io, block_size, block_count, cached_block: 0, loaded: false, data, dirty: false }
    }

    pub fn block_size(&self) -> (r: u32)
        requires
            self.inv(),
        ensures
            r as nat == self.block_size_spec(),
    {
        self.block_size as u32
    }

    /// Makes `number` the resident block: flushes the current slot if needed,
    /// then loads `number` from the device.
    fn sync(&mut self, number: u32) -> (r: Result<(), FsErr>)
        requires
            old(self).inv(),
        ensures
            final(self).inv(),
            final(self).blocks() == old(self).blocks(),
            final(self).block_size_spec() == old(self).block_size_spec(),
            final(self).block_size == old(self).block_size,
            final(self).block_count == old(self).block_count,
            r is Ok ==> final(self).loaded && final(self).cached_block == number && final(self).data@ == final(self).blocks()[number as int],
            !old(self).dirty ==> !final(self).dirty,
            (old(self).loaded && number == old(self).cached_block) ==> r is Ok && *final(self)
                == *old(self),
            (r is Ok && !(old(self).loaded && number == old(self).cached_block)) ==> !final(self).dirty && final(self).device_blocks() == old(self).blocks(),
            (r == Err::<(), FsErr>(FsErr::OutOfRange)) <==> number >= old(self).block_count,
            r is Err ==> (r->Err_0 == FsErr::OutOfRange || r->Err_0 == FsErr::ReadError
                || r->Err_0 == FsErr::WriteError),
    {
        proof {
            old(self).lemma_blocks_shape();
        }
        if self.loaded && number == self.cached_block {
            return Ok(());
        }
        if number >= self.block_count {
            return Err(FsErr::OutOfRange);
        }
        self.flush()?;
        proof {
            self.lemma_blocks_shape();
        }
        // If the device read fails the slot contents are unspecified, so the
        // slot is marked empty before the transfer.
        self.loaded = false;
        let r = self.io.read(number, &mut self.data);
        match r {
            Ok(()) => {
                self.cached_block = number;
                self.loaded = true;
                proof {
                    assert(self.blocks() =~= self.io.blocks());
                }
                Ok(())
            },
            Err(e) => Err(e),
        }
    }

    /// A copy of the current contents of block `number`.
    pub fn get(&mut self, number: u32) -> (r: Result<Vec<u8>, FsErr>)
        requires
            old(self).inv(),
        ensures
            final(self).inv(),
            final(self).blocks() == old(self).blocks(),
            final(self).block_size_spec() == old(self).block_size_spec(),
            !old(self).dirty_spec() ==> !final(self).dirty_spec(),
            r matches Ok(v) ==> number < final(self).blocks().len() && v@ == final(self).blocks()[number as int],
            (r == Err::<Vec<u8>, FsErr>(FsErr::OutOfRange)) <==> number as nat >= old(self).blocks().len(),
            r is Err ==> (r->Err_0 == FsErr::OutOfRange || r->Err_0 == FsErr::ReadError
                || r->Err_0 == FsErr::WriteError),
    {
        proof {
            old(self).lemma_blocks_shape();
        }
        match self.sync(number) {
            Ok(()) => {},
            Err(e) => {
                return Err(e);
            },
        }
        let mut out: Vec<u8> = Vec::new();
        let mut i: usize = 0;
        while i < self.block_size
            invariant
                self.inv(),
                self.loaded,
                i <= self.block_size,
                self.data.len() == self.block_size,
                out@ == self.data@.subrange(0, i as int),
            decreases self.block_size - i,
        {
            out.push(self.data[i]);
            i += 1;
        }
        proof {
            assert(out@ =~= self.data@);
        }
        Ok(out)
    }

    /// Mutable access to block `number`: overwrites the byte range at
    /// `offset` with `src` in the resident slot and marks it dirty.
    pub fn get_mut(&mut self, number: u32, offset: usize, src: &Vec<u8>) -> (r: Result<
        (),
        FsErr,
    >)
        requires
            old(self).inv(),
            offset + src.len() <= old(self).block_size_spec(),
        ensures
            final(self).inv(),
            final(self).block_size_spec() == old(self).block_size_spec(),
            final(self).blocks().len() == old(self).blocks().len(),
            r is Ok ==> number < old(self).blocks().len() && final(self).blocks() == old(self).blocks().update(
                number as int,
                splice(old(self).blocks()[number as int], offset as int, src@),
            ),
            r is Err ==> final(self).blocks() == old(self).blocks(),
            (r == Err::<(), FsErr>(FsErr::OutOfRange)) <==> number as nat >= old(self).blocks().len(),
            r is Err ==> (r->Err_0 == FsErr::OutOfRange || r->Err_0 == FsErr::ReadError
                || r->Err_0 == FsErr::WriteError),
    {
        proof {
            old(self).lemma_blocks_shape();
        }
        match self.sync(number) {
            Ok(()) => {},
            Err(e) => {
                return Err(e);
            },
        }
        let ghost pre = *self;
        let mut i: usize = 0;
        while i < src.len()
            invariant
                i <= src.len(),
                pre.inv(),
                pre.loaded,
                pre.cached_block == number,
                offset + src.len() <= pre.data.len(),
                self.io == pre.io,
                self.block_size == pre.block_size,
                self.block_count == pre.block_count,
                self.cached_block == pre.cached_block,
                self.loaded == pre.loaded,
                self.dirty == pre.dirty,
                self.data.len() == pre.data.len(),
                forall|j: int| 0 <= j < offset ==> self.data@[j] == pre.data@[j],
                forall|j: int|
                    offset <= j < offset + i ==> self.data@[j] == src@[j - offset],
                forall|j: int|
                    offset + i <= j < pre.data.len() ==> self.data@[j] == pre.data@[j],
            decreases src.len() - i,
        {
            self.data[offset + i] = src[i];
            i += 1;
        }
        self.dirty = true;
        proof {
            lemma_splice_len(pre.data@, offset as int, src@);
            assert(self.data@ =~= splice(pre.data@, offset as int, src@));
            assert(pre.data@ == old(self).blocks()[number as int]);
            assert(self.blocks() =~~= old(self).blocks().update(
                number as int,
                splice(old(self).blocks()[number as int], offset as int, src@),
            ));
        }
        Ok(())
    }

    /// Writes the resident block back to the device if it is dirty; with a
    /// clean slot the device is not touched at all.
    pub fn flush(&mut self) -> (r: Result<(), FsErr>)
        requires
            old(self).inv(),
        ensures
            final(self).inv(),
            final(self).blocks() == old(self).blocks(),
            final(self).block_size_spec() == old(self).block_size_spec(),
            r is Ok ==> !final(self).dirty_spec() && final(self).device_blocks() == final(self).blocks(),
            !old(self).dirty_spec() ==> r is Ok && *final(self) == *old(self),
            r is Err ==> r->Err_0 == FsErr::WriteError && final(self).device_blocks() == old(self).device_blocks() && final(self).dirty_spec(),
    {
        proof {
            old(self).lemma_blocks_shape();
        }
        if self.dirty {
            let r = self.io.write(self.cached_block, &self.data);
            match r {
                Ok(()) => {
                    self.dirty = false;
                    proof {
                        assert(self.io.blocks() =~= self.blocks());
                        assert(self.blocks() =~= old(self).blocks());
                    }
                    Ok(())
                },
                Err(e) => Err(e),
            }
        } else {
            proof {
                if self.loaded {
                    assert(self.blocks() =~= self.io.blocks());
                }
            }
            Ok(())
        }
    }
}

/// Byte-range read/write within one block, delegating to the cache. The
/// cache is owned exclusively here; the table engine and the stream reach it
/// only through a `&mut` borrow of the filesystem, which makes the
/// single-writer discipline static.
pub struct Sector<D: BlockDeviceIo> {
    cache: BlockDeviceCache<D>,
}

impl<D: BlockDeviceIo> Sector<D> {
    pub closed spec fn inv(&self) -> bool {
        self.cache.inv()
    }

    pub closed spec fn blocks(&self) -> Seq<Seq<u8>> {
        self.cache.blocks()
    }

    pub closed spec fn block_size_spec(&self) -> nat {
        self.cache.block_size_spec()
    }

    pub closed spec fn device_blocks(&self) -> Seq<Seq<u8>> {
        self.cache.device_blocks()
    }

    pub closed spec fn dirty_spec(&self) -> bool {
        self.cache.dirty_spec()
    }

    pub proof fn lemma_shape(&self)
        requires
            self.inv(),
        ensures
            self.blocks().len() <= u32::MAX,
            forall|i: int|
                0 <= i < self.blocks().len() ==> (#[trigger] self.blocks()[i]).len()
                    == self.block_size_spec(),
            BLOCK_MIN_SIZE <= self.block_size_spec() <= BLOCK_MAX_SIZE,
    {
        self.cache.lemma_blocks_shape();
    }

    pub fn new(io: D) -> (r: Self)
        requires
            io.inv(),
            BLOCK_MIN_SIZE <= io.block_size_spec() <= BLOCK_MAX_SIZE,
        ensures
            r.inv(),
            r.blocks() == io.blocks(),
            r.block_size_spec() == io.block_size_spec(),
            !r.dirty_spec(),
    {
        Self { cache: BlockDeviceCache::new(io) }
    }

    /// Copies `buff.len()` bytes out of block `sector` starting at `offset`;
    /// the range must lie within one block.
    pub fn read(&mut self, sector: u32, offset: usize, buff: &mut Vec<u8>) -> (r: Result<
        (),
        FsErr,
    >)
        requires
            old(self).inv(),
            offset + old(buff).len() <= old(self).block_size_spec(),
        ensures
            final(self).inv(),
            final(self).blocks() == old(self).blocks(),
            final(self).block_size_spec() == old(self).block_size_spec(),
            !old(self).dirty_spec() ==> !final(self).dirty_spec(),
            final(buff).len() == old(buff).len(),
            r is Ok ==> sector < final(self).blocks().len() && final(buff)@ == final(self).blocks()[sector as int].subrange(
                offset as int,
                offset + old(buff).len(),
            ),
            (r == Err::<(), FsErr>(FsErr::OutOfRange)) <==> sector as nat >= old(self).blocks().len(),
            r is Err ==> (r->Err_0 == FsErr::OutOfRange || r->Err_0 == FsErr::ReadError
                || r->Err_0 == FsErr::WriteError),
    {
        proof {
            old(self).lemma_shape();
        }
        match self.cache.sync(sector) {
            Ok(()) => {},
            Err(e) => {
                return Err(e);
            },
        }
        let len = buff.len();
        let mut i: usize = 0;
        while i < len
            invariant
                self.cache.inv(),
                self.cache.loaded,
                self.cache.cached_block == sector,
                self.cache.data@ == self.cache.blocks()[sector as int],
                i <= len,
                buff.len() == len,
                offset + len <= self.cache.data.len(),
                forall|j: int|
                    0 <= j < i ==> buff@[j] == self.cache.data@[offset + j],
            decreases len - i,
        {
            let b = self.cache.data[offset + i];
            buff[i] = b;
            i += 1;
        }
        proof {
            assert(buff@ =~= self.blocks()[sector as int].subrange(
                offset as int,
                offset + len,
            ));
        }
        Ok(())
    }

    /// Writes `buff` into block `sector` at `offset`; the range must lie
    /// within one block.
    pub fn write(&mut self, sector: u32, offset: usize, buff: &Vec<u8>) -> (r: Result<
        (),
        FsErr,
    >)
        requires
            old(self).inv(),
            offset + buff.len() <= old(self).block_size_spec(),
        ensures
            final(self).inv(),
            final(self).block_size_spec() == old(self).block_size_spec(),
            final(self).blocks().len() == old(self).blocks().len(),
            r is Ok ==> sector < old(self).blocks().len() && final(self).blocks() == old(self).blocks().update(
                sector as int,
                splice(old(self).blocks()[sector as int], offset as int, buff@),
            ),
            r is Err ==> final(self).blocks() == old(self).blocks(),
            (r == Err::<(), FsErr>(FsErr::OutOfRange)) <==> sector as nat >= old(self).blocks().len(),
            r is Err ==> (r->Err_0 == FsErr::OutOfRange || r->Err_0 == FsErr::ReadError
                || r->Err_0 == FsErr::WriteError),
    {
        self.cache.get_mut(sector, offset, buff)
    }

    /// Forwards to the cache's flush.
    pub fn flush(&mut self) -> (r: Result<(), FsErr>)
        requires
            old(self).inv(),
        ensures
            final(self).inv(),
            final(self).blocks() == old(self).blocks(),
            final(self).block_size_spec() == old(self).block_size_spec(),
            r is Ok ==> !final(self).dirty_spec() && final(self).device_blocks() == final(self).blocks(),
            !old(self).dirty_spec() ==> r is Ok && *final(self) == *old(self),
            r is Err ==> r->Err_0 == FsErr::WriteError,
    {
        self.cache.flush()
    }
}

} // verus!
