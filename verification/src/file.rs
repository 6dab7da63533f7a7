//! A stream bounded by a known byte length: end-of-file detection and
//! read/write loops that absorb the stream's short transfers.

use vstd::prelude::*;

use crate::fs::{cfg_eq, chain_resized, lemma_raw_entry_congruence, Fs};
use crate::sector::{BlockDeviceIo, FsErr};
use crate::stream::{
    chain_valid, lemma_stream_byte_same_table, reserved_not_free, stream_byte, SeekFrom, Stream,
};

verus! {

pub struct File {
    pub stream: Stream,
    pub size: u32,
}

impl File {
    pub open spec fn wf<D: BlockDeviceIo>(&self, fs: &Fs<D>) -> bool {
        self.stream.wf(fs)
    }

    pub fn new(stream: Stream, size: u32) -> (r: File)
        ensures
            r.stream == stream,
            r.size == size,
    {
        File { stream, size }
    }

    /// Reads up to `buff.len()` bytes at the current position, but never past
    /// the file's length. Short transfers at sector and cluster boundaries
    /// are absorbed by looping; an error surfaces only when nothing at all
    /// was read.
    pub fn read<D: BlockDeviceIo>(&mut self, fs: &mut Fs<D>, buff: &mut Vec<u8>) -> (r: Result<
        usize,
        FsErr,
    >)
        requires
            old(fs).wf(),
            old(self).wf(old(fs)),
        ensures
            final(fs).wf(),
            cfg_eq(old(fs), final(fs)),
            final(fs).blocks() == old(fs).blocks(),
            final(self).wf(final(fs)),
            final(self).size == old(self).size,
            final(self).stream.first_cluster == old(self).stream.first_cluster,
            final(buff).len() == old(buff).len(),
            (r == Err::<usize, FsErr>(FsErr::EndOfFile)) <==> old(self).stream.global_offset
                >= old(self).size,
            r is Err ==> final(self).stream.global_offset == old(self).stream.global_offset,
            r is Err ==> final(buff)@ == old(buff)@,
            r matches Ok(n) ==> (forall|i: int|
                0 <= i < n ==> final(buff)@[i] == stream_byte(
                    old(fs),
                    old(self).stream.first_cluster as int,
                    old(self).stream.global_offset + i,
                )),
            r matches Ok(n) ==> ({
                let pos = old(self).stream.global_offset as int;
                let want = if old(buff).len() <= old(self).size - pos {
                    old(buff).len() as int
                } else {
                    old(self).size - pos
                };
                &&& pos < old(self).size
                &&& n <= want
                &&& (want > 0 ==> n > 0)
                &&& (n == 0 ==> want == 0)
                &&& final(self).stream.global_offset == pos + n
            }),
            r is Err ==> (r->Err_0 == FsErr::EndOfFile || r->Err_0 == FsErr::FatTableError
                || r->Err_0 == FsErr::EndOfStream || r->Err_0 == FsErr::ReadError || r->Err_0
                == FsErr::WriteError),
    {
        broadcast use lemma_raw_entry_congruence;

        let ghost first = self.stream.first_cluster as int;
        // End of file is decided by the byte position alone, before any chain
        // walk: a cursor standing exactly at the length must not surface a
        // table error from the walk.
        if self.stream.global_offset >= self.size {
            return Err(FsErr::EndOfFile);
        }
        let pos = match self.stream.seek(fs, SeekFrom::Current(0)) {
            Ok(p) => p,
            Err(e) => {
                return Err(e);
            },
        };
        let remaining_in_file = self.size - pos;
        let bytes_to_read: usize = if buff.len() <= remaining_in_file as usize {
            buff.len()
        } else {
            remaining_in_file as usize
        };
        let mut bytes_read: usize = 0;
        loop
            invariant
                old(fs).wf(),
                fs.wf(),
                cfg_eq(old(fs), fs),
                fs.blocks() == old(fs).blocks(),
                forall|c2: int| #[trigger] fs.entry(c2) == old(fs).entry(c2),
                self.stream.wf(fs),
                self.stream.pos_ok(fs),
                self.size == old(self).size,
                first == old(self).stream.first_cluster as int,
                self.stream.first_cluster == old(self).stream.first_cluster,
                buff.len() == old(buff).len(),
                bytes_read <= bytes_to_read,
                bytes_to_read <= buff.len(),
                pos == old(self).stream.global_offset,
                pos < self.size,
                bytes_to_read <= self.size - pos,
                self.stream.global_offset == pos + bytes_read,
                bytes_read == 0 ==> buff@ == old(buff)@,
                forall|i: int|
                    0 <= i < bytes_read ==> buff@[i] == stream_byte(
                        old(fs),
                        first,
                        pos + i,
                    ),
            ensures
                fs.wf(),
                cfg_eq(old(fs), fs),
                fs.blocks() == old(fs).blocks(),
                self.stream.wf(fs),
                self.size == old(self).size,
                self.stream.first_cluster == old(self).stream.first_cluster,
                buff.len() == old(buff).len(),
                bytes_read <= bytes_to_read,
                self.stream.global_offset == pos + bytes_read,
                bytes_read > 0 || bytes_to_read == 0,
                forall|i: int|
                    0 <= i < bytes_read ==> buff@[i] == stream_byte(
                        old(fs),
                        first,
                        pos + i,
                    ),
            decreases bytes_to_read - bytes_read,
        {
            if bytes_read >= bytes_to_read {
                break;
            }
            let want = bytes_to_read - bytes_read;
            let mut tmp: Vec<u8> = vec![0u8; want];
            let ghost call_fs = *fs;
            let ghost g_cur = self.stream.global_offset as int;
            match self.stream.read(fs, &mut tmp) {
                Ok(len) => {
                    let ghost buff_pre = buff@;
                    let mut i: usize = 0;
                    while i < len
                        invariant
                            i <= len,
                            len <= tmp.len(),
                            bytes_read + tmp.len() <= buff.len(),
                            buff.len() == buff_pre.len(),
                            forall|j: int|
                                bytes_read <= j < bytes_read + i ==> buff@[j] == tmp@[
                                    j - bytes_read
                                ],
                            forall|j: int|
                                (0 <= j < bytes_read || bytes_read + i <= j < buff.len())
                                    ==> buff@[j] == buff_pre[j],
                        decreases len - i,
                    {
                        let b = tmp[i];
                        buff[bytes_read + i] = b;
                        i = i + 1;
                    }
                    proof {
                        assert forall|j: int|
                            0 <= j < bytes_read + len implies buff@[j] == stream_byte(
                            old(fs),
                            first,
                            pos + j,
                        ) by {
                            if j >= bytes_read {
                                assert(buff@[j] == tmp@[j - bytes_read]);
                                assert(tmp@[j - bytes_read] == stream_byte(
                                    &call_fs,
                                    first,
                                    g_cur + (j - bytes_read),
                                ));
                                assert(g_cur + (j - bytes_read) == pos + j);
                                lemma_stream_byte_same_table(
                                    old(fs),
                                    &call_fs,
                                    first,
                                    pos + j,
                                );
                                assert(stream_byte(&call_fs, first, pos + j) == stream_byte(
                                    old(fs),
                                    first,
                                    pos + j,
                                ));
                            } else {
                                assert(buff@[j] == buff_pre[j]);
                                assert(buff_pre[j] == stream_byte(old(fs), first, pos + j));
                            }
                        }
                    }
                    bytes_read = bytes_read + len;
                },
                Err(e) => {
                    if bytes_read == 0 {
                        return Err(e);
                    }
                    break;
                },
            }
        }
        Ok(bytes_read)
    }

    /// Writes the whole buffer, transparently retrying across the stream's
    /// zero-byte chain-extension results; an error surfaces only when
    /// nothing at all was written.
    pub fn write<D: BlockDeviceIo>(&mut self, fs: &mut Fs<D>, buff: &Vec<u8>) -> (r: Result<
        usize,
        FsErr,
    >)
        requires
            old(fs).wf(),
            old(self).wf(old(fs)),
            reserved_not_free(old(fs)),
            old(self).stream.global_offset + buff.len() <= u32::MAX,
        ensures
            final(fs).wf(),
            cfg_eq(old(fs), final(fs)),
            final(self).wf(final(fs)),
            final(self).size == old(self).size,
            final(self).stream.first_cluster == old(self).stream.first_cluster,
            r matches Ok(n) ==> n <= buff.len() && (buff.len() > 0 ==> n > 0) && final(self).stream.global_offset == old(self).stream.global_offset + n,
            r is Err ==> final(self).stream.global_offset == old(self).stream.global_offset,
            (old(self).stream.pos_ok(old(fs)) && (exists|m: int|
                chain_valid(old(fs), old(self).stream.first_cluster as int, m))) ==> (r
                matches Ok(n) ==> (forall|i: int|
                0 <= i < n ==> stream_byte(
                    final(fs),
                    old(self).stream.first_cluster as int,
                    old(self).stream.global_offset + i,
                ) == buff@[i])),
            (old(self).stream.pos_ok(old(fs)) && (exists|n: int|
                chain_valid(old(fs), old(self).stream.first_cluster as int, n))) ==> (r
                == Ok::<usize, FsErr>(buff.len()) ==> (forall|i: int|
                0 <= i < buff.len() ==> stream_byte(
                    final(fs),
                    old(self).stream.first_cluster as int,
                    old(self).stream.global_offset + i,
                ) == buff@[i]) && final(self).stream.pos_ok(final(fs)) && (exists|n: int|
                chain_valid(final(fs), old(self).stream.first_cluster as int, n))),
            r is Err ==> (r->Err_0 == FsErr::FatTableError || r->Err_0 == FsErr::NoFreeCluster
                || r->Err_0 == FsErr::ReadError || r->Err_0 == FsErr::WriteError),
    {
        let ghost first = self.stream.first_cluster as int;
        let ghost g0 = self.stream.global_offset as int;
        let ghost coherent = self.stream.pos_ok(fs) && (exists|n: int|
            chain_valid(fs, first, n));
        let ghost mut clean: bool = true;
        let mut bytes_written: usize = 0;
        loop
            invariant_except_break
                clean,
                reserved_not_free(fs),
                coherent && clean ==> self.stream.pos_ok(fs) && (exists|n: int|
                    chain_valid(fs, first, n)) && (forall|i: int|
                    0 <= i < bytes_written ==> stream_byte(fs, first, g0 + i) == buff@[i]),
            invariant
                fs.wf(),
                cfg_eq(old(fs), fs),
                self.stream.wf(fs),
                self.size == old(self).size,
                first == old(self).stream.first_cluster as int,
                g0 == old(self).stream.global_offset as int,
                coherent == (old(self).stream.pos_ok(old(fs)) && (exists|n: int|
                    chain_valid(old(fs), first, n))),
                self.stream.first_cluster == old(self).stream.first_cluster,
                bytes_written <= buff.len(),
                self.stream.global_offset == old(self).stream.global_offset + bytes_written,
                old(self).stream.global_offset + buff.len() <= u32::MAX,
            ensures
                fs.wf(),
                cfg_eq(old(fs), fs),
                self.stream.wf(fs),
                self.size == old(self).size,
                self.stream.first_cluster == old(self).stream.first_cluster,
                bytes_written <= buff.len(),
                self.stream.global_offset == old(self).stream.global_offset + bytes_written,
                bytes_written > 0 || buff.len() == 0,
                !clean ==> bytes_written < buff.len(),
                coherent && clean ==> self.stream.pos_ok(fs) && (exists|n: int|
                    chain_valid(fs, first, n)),
                coherent ==> (forall|i: int|
                    0 <= i < bytes_written ==> stream_byte(fs, first, g0 + i) == buff@[i]),
            decreases 2 * (buff.len() - bytes_written) + (if self.stream.offset >= fs.sector_size
                as usize {
                1int
            } else {
                0int
            }),
        {
            if bytes_written >= buff.len() {
                break;
            }
            let mut rest: Vec<u8> = Vec::new();
            let mut i: usize = bytes_written;
            while i < buff.len()
                invariant
                    bytes_written <= i <= buff.len(),
                    rest@ == buff@.subrange(bytes_written as int, i as int),
                decreases buff.len() - i,
            {
                rest.push(buff[i]);
                i = i + 1;
            }
            let ghost call_fs = *fs;
            let ghost g_cur = self.stream.global_offset as int;
            match self.stream.write(fs, &rest) {
                Ok(len) => {
                    proof {
                        if coherent {
                            assert forall|i: int|
                                0 <= i < bytes_written + len implies stream_byte(
                                fs,
                                first,
                                g0 + i,
                            ) == buff@[i] by {
                                if i < bytes_written {
                                    assert(stream_byte(&call_fs, first, g0 + i) == buff@[i]);
                                    assert(g0 + i < g_cur);
                                    assert(stream_byte(fs, first, g0 + i) == stream_byte(
                                        &call_fs,
                                        first,
                                        g0 + i,
                                    ));
                                } else {
                                    assert(stream_byte(fs, first, g_cur + (i - bytes_written))
                                        == rest@[i - bytes_written]);
                                    assert(rest@[i - bytes_written] == buff@[i]);
                                }
                            }
                        }
                    }
                    bytes_written = bytes_written + len;
                },
                Err(e) => {
                    proof {
                        if coherent {
                            // The failing call's contract keeps every byte
                            // below its cursor, and everything written so far
                            // lies below it.
                            assert forall|i: int|
                                0 <= i < bytes_written implies stream_byte(fs, first, g0 + i)
                                == buff@[i] by {
                                assert(stream_byte(&call_fs, first, g0 + i) == buff@[i]);
                                assert(g0 + i < g_cur);
                                assert(stream_byte(fs, first, g0 + i) == stream_byte(
                                    &call_fs,
                                    first,
                                    g0 + i,
                                ));
                            }
                        }
                        clean = false;
                    }
                    if bytes_written == 0 {
                        return Err(e);
                    }
                    break;
                },
            }
        }
        Ok(bytes_written)
    }

    /// Moves the position; `End` is resolved against the file's length here,
    /// since the stream itself is unbounded.
    pub fn seek<D: BlockDeviceIo>(&mut self, fs: &mut Fs<D>, offset: SeekFrom) -> (r: Result<
        (),
        FsErr,
    >)
        requires
            old(fs).wf(),
            old(self).wf(old(fs)),
            offset matches SeekFrom::Current(d) ==> old(self).stream.global_offset + d
                <= u32::MAX,
            offset matches SeekFrom::End(d) ==> old(self).size + d <= u32::MAX,
        ensures
            final(fs).wf(),
            cfg_eq(old(fs), final(fs)),
            final(fs).blocks() == old(fs).blocks(),
            final(self).wf(final(fs)),
            final(self).size == old(self).size,
            final(self).stream.first_cluster == old(self).stream.first_cluster,
            r is Ok ==> ({
                let target = (match offset {
                    SeekFrom::Start(n) => n as int,
                    SeekFrom::Current(d) => old(self).stream.global_offset + d,
                    SeekFrom::End(d) => old(self).size + d,
                });
                &&& 0 <= target <= u32::MAX
                &&& final(self).stream.global_offset == target
                &&& old(fs).skip_ok(
                    old(self).stream.first_cluster as int,
                    target / (old(fs).cluster_size as int),
                )
                &&& final(self).stream.cluster as int == old(fs).skip_to(
                    old(self).stream.first_cluster as int,
                    target / (old(fs).cluster_size as int),
                )
                &&& final(self).stream.sector as int == (target % (old(fs).cluster_size as int))
                    / (old(fs).sector_size as int)
                &&& final(self).stream.offset as int == target % (old(fs).sector_size as int)
                &&& final(self).stream.pos_ok(final(fs))
            }),
            (r == Err::<(), FsErr>(FsErr::NegativeSeek)) <==> (match offset {
                SeekFrom::Start(_) => false,
                SeekFrom::Current(d) => old(self).stream.global_offset + d < 0,
                SeekFrom::End(d) => old(self).size + d < 0,
            }),
            r is Err ==> (r->Err_0 == FsErr::NegativeSeek || r->Err_0 == FsErr::FatTableError
                || r->Err_0 == FsErr::ReadError || r->Err_0 == FsErr::WriteError),
    {
        match offset {
            SeekFrom::End(d) => {
                let t: i64 = self.size as i64 + d as i64;
                if t < 0 {
                    return Err(FsErr::NegativeSeek);
                }
                match self.stream.seek(fs, SeekFrom::Start(t as u32)) {
                    Ok(_) => Ok(()),
                    Err(e) => Err(e),
                }
            },
            pos => {
                match self.stream.seek(fs, pos) {
                    Ok(_) => Ok(()),
                    Err(e) => Err(e),
                }
            },
        }
    }

    /// Grows or shrinks the file to `size` bytes, keeping the backing
    /// chain's cluster count consistent with the new length (at least one
    /// cluster is always kept).
    pub fn resize<D: BlockDeviceIo>(&mut self, fs: &mut Fs<D>, size: u32) -> (r: Result<
        (),
        FsErr,
    >)
        requires
            old(fs).wf(),
            old(self).wf(old(fs)),
            !(old(fs).entry(0) is Free),
        ensures
            final(fs).wf(),
            cfg_eq(old(fs), final(fs)),
            final(self).stream == old(self).stream,
            r is Ok ==> final(self).size == size,
            r is Err ==> final(self).size == old(self).size,
            r is Ok ==> ({
                let clusters = if size == 0 {
                    1int
                } else {
                    (size + old(fs).cluster_size - 1) / (old(fs).cluster_size as int)
                };
                forall|n: int|
                    old(fs).chain_ok(old(self).stream.first_cluster as int, n) && old(fs).chain_distinct(old(self).stream.first_cluster as int, n) ==> chain_resized(
                        old(fs),
                        final(fs),
                        old(self).stream.first_cluster as int,
                        n,
                        clusters,
                    )
            }),
            r is Err ==> (r->Err_0 == FsErr::NoFreeCluster || r->Err_0 == FsErr::FatTableError
                || r->Err_0 == FsErr::ReadError || r->Err_0 == FsErr::WriteError),
    {
        let cs64: u64 = fs.cluster_size as u64;
        proof {
            assert((fs.cluster_size as int) >= 512) by (nonlinear_arith)
                requires
                    (fs.cluster_size as int) == (fs.sector_size as int) * (
                    fs.sectors_in_cluster as int),
                    (fs.sector_size as int) >= 512,
                    (fs.sectors_in_cluster as int) >= 1,
            ;
        }
        let clusters64: u64 = if size == 0 {
            1
        } else {
            (size as u64 + cs64 - 1) / cs64
        };
        proof {
            if size > 0 {
                assert((size as int + cs64 - 1) / (cs64 as int) >= 1 && (size as int + cs64 - 1)
                    / (cs64 as int) <= u32::MAX) by (nonlinear_arith)
                    requires
                        1 <= (size as int) <= u32::MAX,
                        512 <= (cs64 as int) <= u32::MAX,
                ;
            }
        }
        let clusters = clusters64 as u32;
        match self.stream.set_len(fs, clusters) {
            Ok(()) => {
                self.size = size;
                Ok(())
            },
            Err(e) => Err(e),
        }
    }

    /// Flushes the shared cache; the file value is consumed.
    pub fn close<D: BlockDeviceIo>(self, fs: &mut Fs<D>) -> (r: Result<(), FsErr>)
        requires
            old(fs).wf(),
        ensures
            final(fs).wf(),
            cfg_eq(old(fs), final(fs)),
            final(fs).blocks() == old(fs).blocks(),
            r is Ok ==> final(fs).sector.device_blocks() == final(fs).blocks(),
            r is Err ==> r->Err_0 == FsErr::WriteError,
    {
        fs.sector.flush()
    }
}

} // verus!
