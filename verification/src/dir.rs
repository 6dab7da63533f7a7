//! Directory record iteration: raw 32-byte records from a stream, with
//! deleted and long-name continuation slots filtered out.

use vstd::prelude::*;

use crate::fs::{cfg_eq, lemma_raw_entry_congruence, Fs};
use crate::sector::{BlockDeviceIo, FsErr};
use crate::stream::{lemma_stream_byte_same_table, stream_byte, Stream};

verus! {

pub const DIR_RECORD_SIZE: usize = 32;

pub const ATTR_LONG_FILE_NAME: u8 = 0x0F;

/// One raw directory record; only the status byte and the attribute byte
/// are ever interpreted here, the rest passes through untouched.
pub struct DirEntry {
    pub data: Vec<u8>,
}

impl DirEntry {
    pub open spec fn wf(&self) -> bool {
        self.data.len() == DIR_RECORD_SIZE
    }

    pub fn new(data: Vec<u8>) -> (r: DirEntry)
        requires
            data.len() == DIR_RECORD_SIZE,
        ensures
            r.data == data,
            r.wf(),
    {
        DirEntry { data }
    }
}

/// Forward-only, non-restartable walk over a directory's records: once the
/// sequence has ended, `done` latches and no further record is ever yielded.
pub struct DirIterator {
    pub stream: Stream,
    pub done: bool,
}

/// A record slot that iteration must skip: a deleted entry or a long-name
/// continuation record, recognized by its first byte and attribute nibble.
pub open spec fn skipped_record<D: BlockDeviceIo>(fs: &Fs<D>, first: int, g: int) -> bool {
    stream_byte(fs, first, g) == 0xE5 || (stream_byte(fs, first, g + 11) as int) % 16 == 15
}

impl DirIterator {
    pub fn new(stream: Stream) -> (r: DirIterator)
        ensures
            r.stream == stream,
            !r.done,
    {
        DirIterator { stream, done: false }
    }

    /// The next live record: a short read or a record starting with zero
    /// ends the sequence for good, as does any stream error; deleted slots
    /// (first byte `0xE5`) and long-name continuation records (attribute
    /// low bits all set) are skipped. When the cursor is coherent, the
    /// yielded record is exactly the 32 stream bytes just before the new
    /// position, and everything between the old and the new record start
    /// was a skipped slot.
    pub fn next<D: BlockDeviceIo>(&mut self, fs: &mut Fs<D>) -> (r: Option<DirEntry>)
        requires
            old(fs).wf(),
            old(self).stream.wf(old(fs)),
        ensures
            final(fs).wf(),
            cfg_eq(old(fs), final(fs)),
            final(fs).blocks() == old(fs).blocks(),
            final(self).stream.wf(final(fs)),
            final(self).stream.first_cluster == old(self).stream.first_cluster,
            old(self).stream.pos_ok(old(fs)) ==> final(self).stream.pos_ok(final(fs)),
            old(self).done ==> r is None && *final(self) == *old(self) && *final(fs) == *old(
                fs,
            ),
            r is None ==> final(self).done,
            r is Some ==> !final(self).done && !old(self).done,
            r matches Some(e) ==> e.data.len() == DIR_RECORD_SIZE && e.data@[0] != 0
                && e.data@[0] != 0xE5 && (e.data@[11] as int) % 16 != 15,
            (old(self).stream.pos_ok(old(fs)) && !old(self).done) ==> (r matches Some(e) ==> ({
                let g0 = old(self).stream.global_offset as int;
                let g1 = final(self).stream.global_offset - 32;
                &&& g0 <= g1
                &&& (g1 - g0) % 32 == 0
                &&& (forall|i: int|
                    0 <= i < 32 ==> e.data@[i] == stream_byte(
                        old(fs),
                        old(self).stream.first_cluster as int,
                        g1 + i,
                    ))
                &&& (forall|m: int|
                    0 <= m && g0 + 32 * m < g1 ==> #[trigger] skipped_record(
                        old(fs),
                        old(self).stream.first_cluster as int,
                        g0 + 32 * m,
                    ))
            })),
    {
        broadcast use lemma_raw_entry_congruence;

        if self.done {
            return None;
        }
        let ghost first = self.stream.first_cluster as int;
        let ghost g0 = self.stream.global_offset as int;
        let ghost coherent = self.stream.pos_ok(fs);
        let ghost mut skips: int = 0;
        loop
            invariant
                old(fs).wf(),
                fs.wf(),
                cfg_eq(old(fs), fs),
                fs.blocks() == old(fs).blocks(),
                forall|c2: int| #[trigger] fs.entry(c2) == old(fs).entry(c2),
                self.stream.wf(fs),
                self.stream.first_cluster == old(self).stream.first_cluster,
                first == old(self).stream.first_cluster as int,
                g0 == old(self).stream.global_offset as int,
                coherent == old(self).stream.pos_ok(old(fs)),
                !self.done,
                !old(self).done,
                coherent ==> self.stream.pos_ok(fs) && 0 <= skips
                    && self.stream.global_offset as int == g0 + 32 * skips && (forall|m: int|
                    0 <= m < skips ==> #[trigger] skipped_record(old(fs), first, g0 + 32 * m)),
            ensures
                fs.wf(),
                cfg_eq(old(fs), fs),
                fs.blocks() == old(fs).blocks(),
                self.stream.wf(fs),
                self.stream.first_cluster == old(self).stream.first_cluster,
            decreases u32::MAX - self.stream.global_offset,
        {
            if self.stream.global_offset >= u32::MAX - DIR_RECORD_SIZE as u32 {
                // A directory this large cannot exist; treat it as ended.
                self.done = true;
                return None;
            }
            let mut data: Vec<u8> = vec![0u8; DIR_RECORD_SIZE];
            let ghost call_fs = *fs;
            let ghost g_cur = self.stream.global_offset as int;
            match self.stream.read(fs, &mut data) {
                Ok(count) => {
                    if count != DIR_RECORD_SIZE {
                        // End of the directory's allocated region.
                        self.done = true;
                        return None;
                    }
                    proof {
                        if coherent {
                            assert forall|i: int|
                                0 <= i < 32 implies data@[i] == stream_byte(
                                old(fs),
                                first,
                                g_cur + i,
                            ) by {
                                assert(data@[i] == stream_byte(&call_fs, first, g_cur + i));
                                lemma_stream_byte_same_table(old(fs), &call_fs, first, g_cur + i);
                            }
                        }
                    }
                    let status = data[0];
                    if status == 0 {
                        // Canonical end-of-directory marker.
                        self.done = true;
                        return None;
                    }
                    if status == 0xE5 {
                        // Deleted slot.
                        proof {
                            skips = skips + 1;
                        }
                        continue;
                    }
                    let attr = data[11];
                    if (attr & ATTR_LONG_FILE_NAME) == ATTR_LONG_FILE_NAME {
                        // Long-filename continuation record.
                        proof {
                            let a = data@[11];
                            assert((a & 0x0F) == 0x0F ==> (a as int) % 16 == 15) by (bit_vector);
                            skips = skips + 1;
                        }
                        continue;
                    }
                    proof {
                        let a = data@[11];
                        assert((a & 0x0F) != 0x0F ==> (a as int) % 16 != 15) by (bit_vector);
                        if coherent {
                            assert((g_cur - g0) % 32 == 0) by (nonlinear_arith)
                                requires
                                    g_cur - g0 == 32 * skips,
                            ;
                            assert forall|m: int|
                                0 <= m && g0 + 32 * m < g_cur implies #[trigger] skipped_record(
                                old(fs),
                                first,
                                g0 + 32 * m,
                            ) by {
                                assert(m < skips) by (nonlinear_arith)
                                    requires
                                        g0 + 32 * m < g_cur,
                                        g_cur == g0 + 32 * skips,
                                ;
                            }
                        }
                    }
                    return Some(DirEntry::new(data));
                },
                Err(_) => {
                    self.done = true;
                    return None;
                },
            }
        }
    }
}

} // verus!
