//! Byte-addressed cursor over one cluster chain: bounded read/write that
//! stops at sector and cluster boundaries, auto-extension on writes past the
//! end, and absolute/relative seeking.

use vstd::prelude::*;

use crate::fs::{
    cfg_eq, chain_extended, chain_resized, lemma_chain_positions_distinct,
    lemma_data_write_preserves_entries,
    lemma_raw_entry_congruence, lemma_skip_entries, lemma_skip_frame, lemma_skip_in_range,
    lemma_skip_prefix, lemma_skip_snoc, lemma_skip_split, lemma_skip_transitive,
    table_only_changed, ClusterValue, Fs,
};
use crate::sector::lemma_splice_len;
use vstd::arithmetic::div_mod::lemma_div_is_ordered;
use vstd::arithmetic::div_mod::{lemma_fundamental_div_mod, lemma_fundamental_div_mod_converse};
use crate::sector::{splice, BlockDeviceIo, FsErr};

verus! {

#[derive(Copy, Clone, Eq, PartialEq, Structural, Debug)]
pub enum SeekFrom {
    Start(u32),
    Current(i32),
    End(i32),
}

/// Cursor over a chain: current cluster, sector within it, offset within the
/// sector, and the global byte offset which seeking recomputes from.
pub struct Stream {
    pub first_cluster: u32,
    pub cluster: u32,
    pub sector: u32,
    pub offset: usize,
    pub global_offset: u32,
}

/// Clusters 0 and 1 are reserved by the on-disk format and never free, so
/// fresh allocations always land in the data area.
pub open spec fn reserved_not_free<D: BlockDeviceIo>(fs: &Fs<D>) -> bool {
    forall|c: int| 0 <= c < 2 ==> !((#[trigger] fs.entry(c)) is Free)
}

/// The byte of the chain starting at `first` at global offset `g`: cluster
/// number `g / cluster_size` along the chain, then the in-cluster sector and
/// the in-sector offset.
pub open spec fn stream_byte<D: BlockDeviceIo>(fs: &Fs<D>, first: int, g: int) -> u8 {
    let cs = fs.cluster_size as int;
    let s = fs.sector_size as int;
    fs.blocks()[fs.data_sector(fs.skip_to(first, g / cs)) + (g % cs) / s][g % s]
}

impl Stream {
    /// The cursor agrees with the global offset: the current cluster is the
    /// one reached after `k` links, and the global offset decomposes into
    /// whole clusters, whole sectors and the in-sector offset.
    pub open spec fn pos_ok<D: BlockDeviceIo>(&self, fs: &Fs<D>) -> bool {
        exists|k: int|
            #![trigger fs.skip_to(self.first_cluster as int, k)]
            0 <= k && fs.skip_ok(self.first_cluster as int, k) && self.cluster as int
                == fs.skip_to(self.first_cluster as int, k) && self.global_offset as int == k * (
            fs.cluster_size as int) + (self.sector as int) * (fs.sector_size as int)
                + self.offset

    }

    pub open spec fn wf<D: BlockDeviceIo>(&self, fs: &Fs<D>) -> bool {
        &&& 2 <= self.cluster < fs.table_clusters_count
        &&& 2 <= self.first_cluster < fs.table_clusters_count
        &&& self.sector < fs.sectors_in_cluster
        &&& self.offset <= fs.sector_size
    }

    /// Where the cursor stands after the lazy sector advance: unchanged while
    /// inside a sector, else the next sector of the cluster, else the first
    /// sector of the successor cluster. `None` when the chain ends or is
    /// corrupt.
    pub open spec fn advanced<D: BlockDeviceIo>(&self, fs: &Fs<D>) -> Option<(u32, u32)> {
        if self.offset < fs.sector_size {
            Some((self.cluster, self.sector))
        } else if self.sector + 1 < fs.sectors_in_cluster {
            Some((self.cluster, (self.sector + 1) as u32))
        } else {
            match fs.entry(self.cluster as int) {
                ClusterValue::Next(x) => if 2 <= x < fs.table_clusters_count {
                    Some((x, 0u32))
                } else {
                    None
                },
                _ => None,
            }
        }
    }

    pub open spec fn offset_after<D: BlockDeviceIo>(&self, fs: &Fs<D>) -> int {
        if self.offset < fs.sector_size {
            self.offset as int
        } else {
            0
        }
    }

    /// How many bytes a single transfer moves: the request, clipped to the
    /// end of the current sector.
    pub open spec fn chunk_len<D: BlockDeviceIo>(&self, fs: &Fs<D>, want: int) -> int {
        if want <= fs.sector_size - self.offset_after(fs) {
            want
        } else {
            fs.sector_size - self.offset_after(fs)
        }
    }

    pub fn new(first_cluster: u32) -> (r: Stream)
        ensures
            r.first_cluster == first_cluster,
            r.cluster == first_cluster,
            r.sector == 0,
            r.offset == 0,
            r.global_offset == 0,
    {
        Stream { first_cluster, cluster: first_cluster, sector: 0, offset: 0, global_offset: 0 }
    }

    /// A fresh cursor at the head of its chain satisfies the position
    /// coherence that the byte-exact contracts are stated under.
    pub proof fn lemma_start_pos_ok<D: BlockDeviceIo>(&self, fs: &Fs<D>)
        requires
            self.cluster == self.first_cluster,
            self.sector == 0,
            self.offset == 0,
            self.global_offset == 0,
            0 <= self.first_cluster < fs.table_clusters_count,
        ensures
            self.pos_ok(fs),
    {
        assert(fs.skip_to(self.first_cluster as int, 0) == self.first_cluster as int);
        assert(fs.skip_ok(self.first_cluster as int, 0));
    }

    /// The shared pre-transfer step: move the cursor past a finished sector,
    /// following the chain when the cluster is exhausted.
    pub fn go_to_next_sector_if_necessary<D: BlockDeviceIo>(&mut self, fs: &mut Fs<D>) -> (r:
        Result<(), FsErr>)
        requires
            old(fs).wf(),
            old(self).wf(old(fs)),
        ensures
            final(fs).wf(),
            cfg_eq(old(fs), final(fs)),
            final(fs).blocks() == old(fs).blocks(),
            forall|c2: int| #[trigger] final(fs).entry(c2) == old(fs).entry(c2),
            final(self).wf(final(fs)),
            final(self).first_cluster == old(self).first_cluster,
            final(self).global_offset == old(self).global_offset,
            r is Ok ==> old(self).advanced(old(fs)) == Some(
                (final(self).cluster, final(self).sector),
            ) && final(self).offset == old(self).offset_after(old(fs)) && final(self).offset
                < final(fs).sector_size,
            old(self).offset < old(fs).sector_size ==> r is Ok && *final(self) == *old(self)
                && *final(fs) == *old(fs),
            (old(self).offset >= old(fs).sector_size && old(self).sector + 1 < old(
                fs,
            ).sectors_in_cluster) ==> r is Ok && *final(fs) == *old(fs),
            (old(self).offset >= old(fs).sector_size && old(self).sector + 1 >= old(
                fs,
            ).sectors_in_cluster && old(fs).entry(old(self).cluster as int) is Last) ==> (r
                == Err::<(), FsErr>(FsErr::EndOfStream) || r->Err_0 == FsErr::ReadError
                || r->Err_0 == FsErr::WriteError),
            (old(self).offset >= old(fs).sector_size && old(self).sector + 1 >= old(
                fs,
            ).sectors_in_cluster && (old(fs).entry(old(self).cluster as int) matches
                ClusterValue::Next(x) && 2 <= x < old(fs).table_clusters_count)) ==> (r is Ok
                || r->Err_0 == FsErr::ReadError || r->Err_0 == FsErr::WriteError),
            (old(self).offset >= old(fs).sector_size && old(self).sector + 1 >= old(
                fs,
            ).sectors_in_cluster && !(old(fs).entry(old(self).cluster as int) is Last) && !(
            old(fs).entry(old(self).cluster as int) matches ClusterValue::Next(x) && 2 <= x
                < old(fs).table_clusters_count)) ==> (r == Err::<(), FsErr>(
                FsErr::FatTableError,
            ) || r->Err_0 == FsErr::ReadError || r->Err_0 == FsErr::WriteError),
            old(self).pos_ok(old(fs)) ==> final(self).pos_ok(final(fs)),
            r is Err ==> *final(self) == *old(self),
            (r == Err::<(), FsErr>(FsErr::EndOfStream) || r == Err::<(), FsErr>(
                FsErr::FatTableError,
            )) ==> old(self).advanced(old(fs)) is None,
            (r == Err::<(), FsErr>(FsErr::EndOfStream)) ==> old(fs).entry(
                old(self).cluster as int,
            ) is Last,
            r is Err ==> (r->Err_0 == FsErr::EndOfStream || r->Err_0 == FsErr::FatTableError
                || r->Err_0 == FsErr::ReadError || r->Err_0 == FsErr::WriteError),
    {
        let ghost first = self.first_cluster as int;
        let ghost cs = fs.cluster_size as int;
        let ghost su = fs.sector_size as int;
        if self.offset < fs.sector_size as usize {
            return Ok(());
        }
        if self.sector + 1 < fs.sectors_in_cluster {
            self.sector = self.sector + 1;
            self.offset = 0;
            proof {
                if old(self).pos_ok(fs) {
                    let k = choose|k: int|
                        0 <= k && fs.skip_ok(first, k) && old(self).cluster as int
                            == #[trigger] fs.skip_to(first, k) && old(self).global_offset as int
                            == k * cs + (old(self).sector as int) * su + old(self).offset;
                    let osec = old(self).sector as int;
                    assert(osec * su + su == (osec + 1) * su) by (nonlinear_arith);
                    assert(self.global_offset as int == k * cs + (self.sector as int) * su
                        + self.offset);
                }
            }
            return Ok(());
        }
        let ghost pre_fs = *fs;
        match fs.table_get(self.cluster) {
            Ok(ClusterValue::Next(next)) => {
                if next < 2 || next >= fs.table_clusters_count {
                    proof {
                        if old(self).pos_ok(&pre_fs) {
                            lemma_pos_ok_same_table(&pre_fs, fs, *old(self));
                        }
                    }
                    return Err(FsErr::FatTableError);
                }
                self.cluster = next;
                self.sector = 0;
                self.offset = 0;
                proof {
                    if old(self).pos_ok(&pre_fs) {
                        lemma_pos_ok_same_table(&pre_fs, fs, *old(self));
                        let k = choose|k: int|
                            0 <= k && fs.skip_ok(first, k) && old(self).cluster as int
                                == #[trigger] fs.skip_to(first, k) && old(
                            self,
                            ).global_offset as int == k * cs + (old(self).sector as int) * su
                                + old(self).offset;
                        lemma_skip_snoc(fs, first, k, next);
                        let g = self.global_offset as int;
                        let osec = old(self).sector as int;
                        let sc2 = fs.sectors_in_cluster as int;
                        assert(g == (k + 1) * cs + 0 * su + 0) by (nonlinear_arith)
                            requires
                                cs == su * sc2,
                                g == k * cs + osec * su + su,
                                osec + 1 == sc2,
                        ;
                        assert(fs.skip_to(first, k + 1) == self.cluster as int);
                    }
                }
                Ok(())
            },
            Ok(ClusterValue::Last) => {
                proof {
                    if old(self).pos_ok(&pre_fs) {
                        lemma_pos_ok_same_table(&pre_fs, fs, *old(self));
                    }
                }
                Err(FsErr::EndOfStream)
            },
            Ok(_) => {
                proof {
                    if old(self).pos_ok(&pre_fs) {
                        lemma_pos_ok_same_table(&pre_fs, fs, *old(self));
                    }
                }
                Err(FsErr::FatTableError)
            },
            Err(e) => {
                proof {
                    if old(self).pos_ok(&pre_fs) {
                        lemma_pos_ok_same_table(&pre_fs, fs, *old(self));
                    }
                }
                Err(e)
            },
        }
    }

    /// Reads at most one sector's worth of bytes at the cursor into the
    /// front of `buf`, returning how many were copied; the caller loops.
    pub fn read<D: BlockDeviceIo>(&mut self, fs: &mut Fs<D>, buf: &mut Vec<u8>) -> (r: Result<
        usize,
        FsErr,
    >)
        requires
            old(fs).wf(),
            old(self).wf(old(fs)),
            old(self).global_offset + old(buf).len() <= u32::MAX,
        ensures
            final(fs).wf(),
            cfg_eq(old(fs), final(fs)),
            final(fs).blocks() == old(fs).blocks(),
            forall|c2: int| #[trigger] final(fs).entry(c2) == old(fs).entry(c2),
            final(self).wf(final(fs)),
            final(self).first_cluster == old(self).first_cluster,
            final(buf).len() == old(buf).len(),
            r matches Ok(len) ==> old(self).advanced(old(fs)) == Some(
                (final(self).cluster, final(self).sector),
            ) && len == old(self).chunk_len(old(fs), old(buf).len() as int) && final(self).offset
                == old(self).offset_after(old(fs)) + len && final(self).global_offset == old(self).global_offset + len && final(buf)@.subrange(0, len as int) == old(fs).blocks()[
                old(fs).data_sector(final(self).cluster as int) + final(self).sector
            ].subrange(
                old(self).offset_after(old(fs)),
                old(self).offset_after(old(fs)) + len,
            ) && final(buf)@.subrange(len as int, final(buf).len() as int) == old(buf)@.subrange(len as int, old(buf).len() as int),
            old(self).pos_ok(old(fs)) ==> final(self).pos_ok(final(fs)),
            old(self).pos_ok(old(fs)) ==> (r matches Ok(len) ==> forall|i: int|
                0 <= i < len ==> final(buf)@[i] == stream_byte(
                    old(fs),
                    old(self).first_cluster as int,
                    old(self).global_offset + i,
                )),
            r is Err ==> final(self).global_offset == old(self).global_offset,
            r is Err ==> final(buf)@ == old(buf)@,
            (r == Err::<usize, FsErr>(FsErr::EndOfStream)) ==> *final(self) == *old(self)
                && old(self).advanced(old(fs)) is None && old(fs).entry(
                old(self).cluster as int,
            ) is Last,
            (old(self).offset >= old(fs).sector_size && old(self).sector + 1 >= old(
                fs,
            ).sectors_in_cluster && old(fs).entry(old(self).cluster as int) is Last) ==> (r
                == Err::<usize, FsErr>(FsErr::EndOfStream) || r->Err_0 == FsErr::ReadError
                || r->Err_0 == FsErr::WriteError),
            r is Err ==> (r->Err_0 == FsErr::EndOfStream || r->Err_0 == FsErr::FatTableError
                || r->Err_0 == FsErr::ReadError || r->Err_0 == FsErr::WriteError),
    {
        broadcast use lemma_raw_entry_congruence;

        self.go_to_next_sector_if_necessary(fs)?;
        let ghost adv = *self;
        let ghost adv_fs = *fs;
        let s_usize = fs.sector_size as usize;
        let len = if buf.len() <= s_usize - self.offset {
            buf.len()
        } else {
            s_usize - self.offset
        };
        let abs = fs.cluster_to_sector(self.cluster) + self.sector;
        let mut tmp: Vec<u8> = vec![0u8; len];
        proof {
            fs.sector.lemma_shape();
        }
        match fs.sector.read(abs, self.offset, &mut tmp) {
            Ok(()) => {},
            Err(e) => {
                proof {
                    if old(self).pos_ok(old(fs)) {
                        assert forall|c2: int| (#[trigger] fs.entry(c2)) == adv_fs.entry(
                            c2,
                        ) by {}
                        lemma_pos_ok_same_table(&adv_fs, fs, adv);
                    }
                }
                return Err(e);
            },
        }
        let ghost pre_buf = buf@;
        let mut i: usize = 0;
        while i < len
            invariant
                i <= len,
                tmp.len() == len,
                buf.len() == pre_buf.len(),
                len <= pre_buf.len(),
                forall|j: int| 0 <= j < i ==> buf@[j] == tmp@[j],
                forall|j: int| i <= j < pre_buf.len() ==> buf@[j] == pre_buf[j],
            decreases len - i,
        {
            let b = tmp[i];
            buf[i] = b;
            i = i + 1;
        }
        proof {
            assert(buf@.subrange(0, len as int) =~= tmp@);
            assert(buf@.subrange(len as int, buf.len() as int) =~= pre_buf.subrange(
                len as int,
                pre_buf.len() as int,
            ));
        }
        let ghost read_fs = *fs;
        self.offset = self.offset + len;
        self.global_offset = self.global_offset + len as u32;
        proof {
            if old(self).pos_ok(old(fs)) {
                let first = self.first_cluster as int;
                let cs = old(fs).cluster_size as int;
                let su = old(fs).sector_size as int;
                let g = old(self).global_offset as int;
                // The advanced cursor's witness also decomposes every byte
                // position this transfer covered.
                let k = choose|k: int|
                    0 <= k && adv_fs.skip_ok(first, k) && adv.cluster as int
                        == #[trigger] adv_fs.skip_to(first, k) && adv.global_offset as int == k
                        * cs + (adv.sector as int) * su + adv.offset;
                assert forall|ii: int|
                    0 <= ii < k implies old(fs).entry(#[trigger] adv_fs.skip_to(first, ii))
                    == adv_fs.entry(adv_fs.skip_to(first, ii)) by {}
                lemma_skip_frame(&adv_fs, old(fs), first, k);
                assert forall|i: int|
                    0 <= i < len implies buf@[i] == stream_byte(old(fs), first, g + i) by {
                    lemma_pos_decompose(&adv_fs, k, adv.sector as int, adv.offset + i, g + i);
                    assert(old(fs).skip_to(first, (g + i) / cs) == adv.cluster as int);
                    assert(stream_byte(old(fs), first, g + i) == old(fs).blocks()[
                        old(fs).data_sector(adv.cluster as int) + adv.sector as int
                    ][adv.offset + i]);
                    assert(buf@[i] == adv_fs.blocks()[abs as int].subrange(
                        adv.offset as int,
                        adv.offset + len,
                    )[i]);
                }
                // The cursor stays coherent: same witness, offset advanced.
                assert forall|c2: int| (#[trigger] fs.entry(c2)) == adv_fs.entry(c2) by {}
                assert(adv_fs.skip_ok(first, k) ==> fs.skip_ok(first, k) && fs.skip_to(
                    first,
                    k,
                ) == adv_fs.skip_to(first, k)) by {
                    assert forall|ii: int|
                        0 <= ii < k implies fs.entry(#[trigger] adv_fs.skip_to(first, ii))
                        == adv_fs.entry(adv_fs.skip_to(first, ii)) by {}
                    lemma_skip_frame(&adv_fs, fs, first, k);
                }
                assert(self.global_offset as int == k * cs + (self.sector as int) * su
                    + self.offset);
                assert(fs.skip_to(first, k) == self.cluster as int);
            }
        }
        Ok(len)
    }

    /// Writes at most one sector's worth of bytes at the cursor from the
    /// front of `buf`. Hitting the end of the chain grows it by exactly one
    /// cluster and returns zero so the caller retries.
    pub fn write<D: BlockDeviceIo>(&mut self, fs: &mut Fs<D>, buf: &Vec<u8>) -> (r: Result<
        usize,
        FsErr,
    >)
        requires
            old(fs).wf(),
            old(self).wf(old(fs)),
            old(self).global_offset + buf.len() <= u32::MAX,
            reserved_not_free(old(fs)),
        ensures
            final(fs).wf(),
            cfg_eq(old(fs), final(fs)),
            final(self).wf(final(fs)),
            final(self).first_cluster == old(self).first_cluster,
            r matches Ok(len) ==> (if old(self).advanced(old(fs)) is Some {
                &&& old(self).advanced(old(fs)) == Some(
                    (final(self).cluster, final(self).sector),
                )
                &&& len == old(self).chunk_len(old(fs), buf.len() as int)
                &&& final(self).offset == old(self).offset_after(old(fs)) + len
                &&& final(self).global_offset == old(self).global_offset + len
                &&& final(fs).blocks() == old(fs).blocks().update(
                    old(fs).data_sector(final(self).cluster as int) + final(self).sector,
                    splice(
                        old(fs).blocks()[old(fs).data_sector(final(self).cluster as int) + final(self).sector],
                        old(self).offset_after(old(fs)),
                        buf@.subrange(0, len as int),
                    ),
                )
                &&& forall|c2: int|
                    0 <= c2 < final(fs).table_clusters_count ==> (#[trigger] final(fs).entry(c2))
                        == old(fs).entry(c2)
            } else {
                &&& len == 0
                &&& old(fs).entry(old(self).cluster as int) is Last
                &&& exists|cs: Seq<u32>|
                    chain_extended(old(fs), final(fs), old(self).cluster as int, cs) && cs.len()
                        == 1 && cs[0] == final(self).cluster
                &&& final(self).sector == 0
                &&& final(self).offset == 0
                &&& final(self).global_offset == old(self).global_offset
            }),
            r is Ok ==> reserved_not_free(final(fs)),
            (old(self).pos_ok(old(fs)) && r is Ok) ==> final(self).pos_ok(final(fs)),
            old(self).pos_ok(old(fs)) ==> (r matches Ok(len) ==> forall|i: int|
                0 <= i < len ==> stream_byte(
                    final(fs),
                    old(self).first_cluster as int,
                    old(self).global_offset + i,
                ) == buf@[i]),
            (old(self).pos_ok(old(fs)) && (exists|n: int|
                chain_valid(old(fs), old(self).first_cluster as int, n)) && r is Ok) ==> (
            forall|g: int|
                0 <= g < old(self).global_offset ==> stream_byte(
                    final(fs),
                    old(self).first_cluster as int,
                    g,
                ) == stream_byte(old(fs), old(self).first_cluster as int, g)) && (exists|n: int|
                chain_valid(final(fs), old(self).first_cluster as int, n)),
            r is Err ==> final(self).global_offset == old(self).global_offset,
            r is Err ==> table_only_changed(old(fs), final(fs)),
            (old(self).pos_ok(old(fs)) && (exists|n: int|
                chain_valid(old(fs), old(self).first_cluster as int, n)) && r is Err) ==> (
            forall|g: int|
                0 <= g < old(self).global_offset ==> stream_byte(
                    final(fs),
                    old(self).first_cluster as int,
                    g,
                ) == stream_byte(old(fs), old(self).first_cluster as int, g)),
            r is Err ==> (r->Err_0 == FsErr::FatTableError || r->Err_0 == FsErr::NoFreeCluster
                || r->Err_0 == FsErr::ReadError || r->Err_0 == FsErr::WriteError),
    {
        broadcast use lemma_raw_entry_congruence;

        match self.go_to_next_sector_if_necessary(fs) {
            Ok(()) => {},
            Err(FsErr::EndOfStream) => {
                let ghost pre_fs = *fs;
                let next = match fs.table_chain_extend(self.cluster, 1) {
                    Ok(n) => n,
                    Err(e) => {
                        proof {
                            let first = old(self).first_cluster as int;
                            // The failed extension wrote table blocks only.
                            assert forall|b: int|
                                0 <= b < old(fs).blocks().len() && !(old(fs).table_first_sector
                                    <= b < old(fs).table_end_sector()) implies #[trigger] fs.blocks()[b] == old(fs).blocks()[b] by {
                                assert(pre_fs.blocks()[b] == old(fs).blocks()[b]);
                            }
                            if old(self).pos_ok(old(fs)) && (exists|n: int|
                                chain_valid(old(fs), first, n)) {
                                let csz = old(fs).cluster_size as int;
                                let su = old(fs).sector_size as int;
                                let sc2 = old(fs).sectors_in_cluster as int;
                                lemma_pos_ok_same_table(old(fs), &pre_fs, *old(self));
                                let k = choose|k: int|
                                    0 <= k && pre_fs.skip_ok(first, k) && old(
                                    self,
                                    ).cluster as int == #[trigger] pre_fs.skip_to(first, k)
                                        && old(self).global_offset as int == k * csz + (old(
                                    self,
                                    ).sector as int) * su + old(self).offset;
                                // Prefix entries are links: neither free nor
                                // the terminal, so the failed extension left
                                // them alone.
                                assert forall|ii: int|
                                    0 <= ii < k implies fs.entry(
                                    #[trigger] pre_fs.skip_to(first, ii),
                                ) == pre_fs.entry(pre_fs.skip_to(first, ii)) by {
                                    lemma_skip_entries(&pre_fs, first, k, ii);
                                    let ecl = pre_fs.skip_to(first, ii);
                                    assert(ecl != old(self).cluster as int) by {
                                        if ecl == old(self).cluster as int {
                                            assert(pre_fs.entry(ecl) is Next);
                                        }
                                    }
                                }
                                lemma_skip_frame(&pre_fs, fs, first, k);
                                let n = choose|n: int| chain_valid(old(fs), first, n);
                                assert forall|ii: int|
                                    0 <= ii < n implies pre_fs.entry(
                                    #[trigger] old(fs).skip_to(first, ii),
                                ) == old(fs).entry(old(fs).skip_to(first, ii)) by {}
                                lemma_skip_frame(old(fs), &pre_fs, first, n);
                                assert(pre_fs.chain_ok(first, n)) by {
                                    assert(pre_fs.skip_to(first, n) == old(fs).skip_to(
                                        first,
                                        n,
                                    ));
                                }
                                lemma_pos_le_chain(&pre_fs, first, k, n);
                                let g1 = old(self).global_offset as int;
                                let osec = old(self).sector as int;
                                let ooff = old(self).offset as int;
                                assert(g1 == (k + 1) * csz) by (nonlinear_arith)
                                    requires
                                        csz == su * sc2,
                                        g1 == k * csz + osec * su + ooff,
                                        osec + 1 == sc2,
                                        ooff == su,
                                ;
                                assert forall|g2: int|
                                    0 <= g2 < old(self).global_offset implies stream_byte(
                                    fs,
                                    first,
                                    g2,
                                ) == stream_byte(old(fs), first, g2) by {
                                    lemma_byte_coords(old(fs), g2);
                                    let kg = g2 / csz;
                                    let sg = (g2 % csz) / su;
                                    assert((k + 1) * csz - 1 == k * csz + (csz - 1))
                                        by (nonlinear_arith);
                                    lemma_fundamental_div_mod_converse(
                                        (k + 1) * csz - 1,
                                        csz,
                                        k,
                                        csz - 1,
                                    );
                                    lemma_div_is_ordered(g2, (k + 1) * csz - 1, csz);
                                    assert(kg <= k);
                                    lemma_skip_prefix(old(fs), first, kg, n);
                                    let clg = old(fs).skip_to(first, kg);
                                    assert(pre_fs.skip_to(first, kg) == clg);
                                    assert(fs.skip_to(first, kg) == clg);
                                    assert(clg >= 2);
                                    lemma_skip_in_range(old(fs), first, kg);
                                    let bg = old(fs).data_sector(clg) + sg;
                                    let da = old(fs).data_area_first_sector as int;
                                    let sc3 = old(fs).sectors_in_cluster as int;
                                    let nclu = old(fs).table_clusters_count as int;
                                    let blen = old(fs).blocks().len() as int;
                                    let tes = old(fs).table_end_sector();
                                    assert(bg >= tes && 0 <= bg < blen) by (nonlinear_arith)
                                        requires
                                            bg == da + (clg - 2) * sc3 + sg,
                                            2 <= clg < nclu,
                                            0 <= sg < sc3,
                                            da + (nclu - 2) * sc3 <= blen,
                                            tes <= da,
                                            0 <= da,
                                    ;
                                    assert(fs.blocks()[bg] == old(fs).blocks()[bg]);
                                }
                            }
                        }
                        return Err(e);
                    },
                };
                proof {
                    let cs = choose|cs: Seq<u32>|
                        chain_extended(&pre_fs, fs, old(self).cluster as int, cs) && cs.len() == 1
                            && cs[0] == next;
                    assert forall|j: int| (#[trigger] old(fs).entry(j)) == pre_fs.entry(j) by {}
                    assert(chain_extended(old(fs), fs, old(self).cluster as int, cs));
                    assert(pre_fs.entry(cs[0] as int) is Free);
                    assert(next >= 2);
                    assert forall|c: int|
                        0 <= c < 2 implies !((#[trigger] fs.entry(c)) is Free) by {
                        assert(!(pre_fs.entry(c) is Free));
                        assert(!cs.contains(c as u32)) by {
                            if cs.contains(c as u32) {
                                let j = choose|j: int| 0 <= j < cs.len() && cs[j] == c as u32;
                                assert(pre_fs.entry(cs[j] as int) is Free);
                                assert(cs[j] >= 2);
                            }
                        }
                        assert(c != old(self).cluster as int);
                        assert(fs.entry(c) == pre_fs.entry(c));
                    }
                }
                self.cluster = next;
                self.sector = 0;
                self.offset = 0;
                proof {
                    let first = self.first_cluster as int;
                    let csz = pre_fs.cluster_size as int;
                    let su = pre_fs.sector_size as int;
                    let sc2 = pre_fs.sectors_in_cluster as int;
                    let ex = choose|ex: Seq<u32>|
                        chain_extended(&pre_fs, fs, old(self).cluster as int, ex) && ex.len()
                            == 1 && ex[0] == next;
                    if old(self).pos_ok(old(fs)) {
                        lemma_pos_ok_same_table(old(fs), &pre_fs, *old(self));
                        let k = choose|k: int|
                            0 <= k && pre_fs.skip_ok(first, k) && old(self).cluster as int
                                == #[trigger] pre_fs.skip_to(first, k) && old(
                            self,
                            ).global_offset as int == k * csz + (old(self).sector as int) * su
                                + old(self).offset;
                        // The prefix links are untouched: their entries are
                        // `Next`, so they are neither the rewritten terminal
                        // (whose entry was `Last`) nor the fresh cluster
                        // (which was `Free`).
                        assert forall|ii: int|
                            0 <= ii < k implies fs.entry(#[trigger] pre_fs.skip_to(first, ii))
                            == pre_fs.entry(pre_fs.skip_to(first, ii)) by {
                            lemma_skip_entries(&pre_fs, first, k, ii);
                            let e = pre_fs.skip_to(first, ii);
                            assert(e != old(self).cluster as int);
                            assert(!ex.contains(e as u32)) by {
                                if ex.contains(e as u32) {
                                    let j = choose|j: int|
                                        0 <= j < ex.len() && ex[j] == e as u32;
                                    assert(pre_fs.entry(ex[j] as int) is Free);
                                }
                            }
                        }
                        lemma_skip_frame(&pre_fs, fs, first, k);
                        assert(fs.entry(fs.skip_to(first, k)) == ClusterValue::Next(next));
                        lemma_skip_snoc(fs, first, k, next);
                        let g = self.global_offset as int;
                        let osec = old(self).sector as int;
                        assert(g == (k + 1) * csz + 0 * su + 0) by (nonlinear_arith)
                            requires
                                csz == su * sc2,
                                g == k * csz + osec * su + su,
                                osec + 1 == sc2,
                        ;
                        assert(fs.skip_to(first, k + 1) == self.cluster as int);
                        if exists|n: int| chain_valid(old(fs), first, n) {
                            let n = choose|n: int| chain_valid(old(fs), first, n);
                            assert forall|ii: int|
                                0 <= ii < n implies pre_fs.entry(
                                #[trigger] old(fs).skip_to(first, ii),
                            ) == old(fs).entry(old(fs).skip_to(first, ii)) by {}
                            lemma_skip_frame(old(fs), &pre_fs, first, n);
                            lemma_pos_le_chain(&pre_fs, first, k, n);
                            // The cursor stands at the terminal: any earlier
                            // position holds a link, not `Last`.
                            assert(k == n) by {
                                if k < n {
                                    lemma_skip_entries(&pre_fs, first, n, k);
                                }
                            }
                            // The grown chain is valid with one more link.
                            assert(fs.entry(fs.skip_to(first, k + 1)) is Last);
                            assert forall|ii: int|
                                0 <= ii <= k + 1 implies #[trigger] fs.skip_to(first, ii)
                                >= 2 by {
                                if ii <= k {
                                    assert(fs.skip_to(first, ii) == pre_fs.skip_to(first, ii));
                                }
                            }
                            assert(chain_valid(fs, first, k + 1));
                            // Bytes strictly below the cursor live in data
                            // blocks, which a table update never touches.
                            assert forall|g2: int|
                                0 <= g2 < old(self).global_offset implies stream_byte(
                                fs,
                                first,
                                g2,
                            ) == stream_byte(old(fs), first, g2) by {
                                lemma_byte_coords(old(fs), g2);
                                let kg = g2 / csz;
                                let sg = (g2 % csz) / su;
                                assert((k + 1) * csz - 1 == k * csz + (csz - 1))
                                    by (nonlinear_arith);
                                lemma_fundamental_div_mod_converse(
                                    (k + 1) * csz - 1,
                                    csz,
                                    k,
                                    csz - 1,
                                );
                                lemma_div_is_ordered(g2, (k + 1) * csz - 1, csz);
                                assert(kg <= k);
                                lemma_skip_prefix(&pre_fs, first, kg, k);
                                assert forall|ii: int|
                                    0 <= ii < kg implies fs.entry(
                                    #[trigger] pre_fs.skip_to(first, ii),
                                ) == pre_fs.entry(pre_fs.skip_to(first, ii)) by {
                                    lemma_skip_entries(&pre_fs, first, k, ii);
                                    let e = pre_fs.skip_to(first, ii);
                                    assert(e != old(self).cluster as int);
                                    assert(!ex.contains(e as u32)) by {
                                        if ex.contains(e as u32) {
                                            let j = choose|j: int|
                                                0 <= j < ex.len() && ex[j] == e as u32;
                                            assert(pre_fs.entry(ex[j] as int) is Free);
                                        }
                                    }
                                }
                                lemma_skip_frame(&pre_fs, fs, first, kg);
                                assert forall|ii: int|
                                    0 <= ii < kg implies old(fs).entry(
                                    #[trigger] old(fs).skip_to(first, ii),
                                ) == pre_fs.entry(pre_fs.skip_to(first, ii)) by {
                                    assert(old(fs).skip_to(first, ii) == pre_fs.skip_to(
                                        first,
                                        ii,
                                    ));
                                }
                                let clg = pre_fs.skip_to(first, kg);
                                assert(old(fs).skip_to(first, kg) == clg);
                                assert(clg >= 2);
                                lemma_skip_in_range(&pre_fs, first, kg);
                                let bg = pre_fs.data_sector(clg) + sg;
                                lemma_skip_in_range(&pre_fs, first, kg);
                                let da = pre_fs.data_area_first_sector as int;
                                let sc3 = pre_fs.sectors_in_cluster as int;
                                let nclu = pre_fs.table_clusters_count as int;
                                let blen = pre_fs.blocks().len() as int;
                                assert(bg >= pre_fs.table_end_sector() && 0 <= bg < blen)
                                    by (nonlinear_arith)
                                    requires
                                        bg == da + (clg - 2) * sc3 + sg,
                                        2 <= clg < nclu,
                                        0 <= sg < sc3,
                                        da + (nclu - 2) * sc3 <= blen,
                                        pre_fs.table_end_sector() <= da,
                                        0 <= da,
                                ;
                                assert(fs.blocks()[bg] == pre_fs.blocks()[bg]);
                                assert(pre_fs.blocks() == old(fs).blocks());
                            }
                        }
                    }
                }
                return Ok(0);
            },
            Err(e) => {
                proof {
                    let first = old(self).first_cluster as int;
                    assert forall|g: int|
                        0 <= g < old(self).global_offset implies stream_byte(fs, first, g)
                        == stream_byte(old(fs), first, g) by {
                        lemma_stream_byte_same_table(old(fs), fs, first, g);
                    }
                }
                return Err(e);
            },
        }
        let ghost adv = *self;
        let s_usize = fs.sector_size as usize;
        let len = if buf.len() <= s_usize - self.offset {
            buf.len()
        } else {
            s_usize - self.offset
        };
        let abs = fs.cluster_to_sector(self.cluster) + self.sector;
        let mut tmp: Vec<u8> = Vec::new();
        let mut i: usize = 0;
        while i < len
            invariant
                i <= len,
                len <= buf.len(),
                tmp@ == buf@.subrange(0, i as int),
            decreases len - i,
        {
            tmp.push(buf[i]);
            i = i + 1;
        }
        proof {
            assert(tmp@ =~= buf@.subrange(0, len as int));
            fs.sector.lemma_shape();
        }
        let ghost mid_fs = *fs;
        match fs.sector.write(abs, self.offset, &tmp) {
            Ok(()) => {},
            Err(e) => {
                proof {
                    let first = old(self).first_cluster as int;
                    assert(fs.blocks() == old(fs).blocks());
                    assert forall|c2: int| #[trigger] fs.entry(c2) == old(fs).entry(c2) by {}
                    assert forall|g: int|
                        0 <= g < old(self).global_offset implies stream_byte(fs, first, g)
                        == stream_byte(old(fs), first, g) by {
                        lemma_stream_byte_same_table(old(fs), fs, first, g);
                    }
                }
                return Err(e);
            },
        }
        proof {
            lemma_data_write_preserves_entries(
                &mid_fs,
                fs,
                abs as int,
                splice(mid_fs.blocks()[abs as int], self.offset as int, tmp@),
            );
        }
        self.offset = self.offset + len;
        self.global_offset = self.global_offset + len as u32;
        proof {
            if old(self).pos_ok(old(fs)) {
                let first = self.first_cluster as int;
                let csz = old(fs).cluster_size as int;
                let su = old(fs).sector_size as int;
                let g = old(self).global_offset as int;
                // `mid_fs` is the advanced state; its cursor witness covers
                // every byte this transfer touched.
                let scw = old(fs).sectors_in_cluster as int;
                assert(csz >= 512) by (nonlinear_arith)
                    requires
                        csz == su * scw,
                        su >= 512,
                        scw >= 1,
                ;
                let k = choose|k: int|
                    0 <= k && mid_fs.skip_ok(first, k) && adv.cluster as int
                        == #[trigger] mid_fs.skip_to(first, k) && adv.global_offset as int == k
                        * csz + (adv.sector as int) * su + adv.offset;
                assert forall|ii: int|
                    0 <= ii < k implies old(fs).entry(#[trigger] mid_fs.skip_to(first, ii))
                    == mid_fs.entry(mid_fs.skip_to(first, ii)) by {}
                lemma_skip_frame(&mid_fs, old(fs), first, k);
                assert forall|ii: int|
                    0 <= ii < k implies fs.entry(#[trigger] mid_fs.skip_to(first, ii))
                    == mid_fs.entry(mid_fs.skip_to(first, ii)) by {
                    lemma_skip_entries(&mid_fs, first, k, ii);
                }
                lemma_skip_frame(&mid_fs, fs, first, k);
                lemma_splice_len(mid_fs.blocks()[abs as int], adv.offset as int, tmp@);
                // The written bytes read back from their positions.
                assert forall|i: int|
                    0 <= i < len implies stream_byte(fs, first, g + i) == buf@[i] by {
                    lemma_pos_decompose(&mid_fs, k, adv.sector as int, adv.offset + i, g + i);
                    assert(fs.skip_to(first, (g + i) / csz) == adv.cluster as int);
                    assert(stream_byte(fs, first, g + i) == fs.blocks()[abs as int][adv.offset
                        + i]);
                }
                // The cursor stays coherent with the same witness.
                assert(self.global_offset as int == k * csz + (self.sector as int) * su
                    + self.offset);
                assert(fs.skip_to(first, k) == self.cluster as int);
                if exists|n: int| chain_valid(old(fs), first, n) {
                    let n = choose|n: int| chain_valid(old(fs), first, n);
                    lemma_pos_le_chain(old(fs), first, k, n);
                    // The chain itself is untouched by a data write.
                    assert forall|ii: int|
                        0 <= ii < n implies fs.entry(#[trigger] old(fs).skip_to(first, ii))
                        == old(fs).entry(old(fs).skip_to(first, ii)) by {
                        lemma_skip_entries(old(fs), first, n, ii);
                    }
                    lemma_skip_frame(old(fs), fs, first, n);
                    lemma_skip_in_range(old(fs), first, n);
                    assert(chain_valid(fs, first, n)) by {
                        assert forall|ii: int|
                            0 <= ii <= n implies #[trigger] fs.skip_to(first, ii) >= 2 by {
                            assert(fs.skip_to(first, ii) == old(fs).skip_to(first, ii));
                        }
                    }
                    // Bytes strictly below the old position are untouched.
                    lemma_pos_decompose(&mid_fs, k, adv.sector as int, adv.offset as int, g);
                    assert forall|g2: int|
                        0 <= g2 < old(self).global_offset implies stream_byte(fs, first, g2)
                        == stream_byte(old(fs), first, g2) by {
                        lemma_byte_coords(old(fs), g2);
                        let kg = g2 / csz;
                        let sg = (g2 % csz) / su;
                        let og = g2 % su;
                        lemma_div_is_ordered(g2, g, csz);
                        assert(kg <= k);
                        lemma_skip_prefix(old(fs), first, kg, n);
                        let clg = old(fs).skip_to(first, kg);
                        assert(fs.skip_to(first, kg) == clg);
                        assert(clg >= 2);
                        lemma_skip_in_range(old(fs), first, kg);
                        let bg = old(fs).data_sector(clg) + sg;
                        let da = old(fs).data_area_first_sector as int;
                        let sc3 = old(fs).sectors_in_cluster as int;
                        let nclu = old(fs).table_clusters_count as int;
                        let blen = old(fs).blocks().len() as int;
                        assert(0 <= bg < blen) by (nonlinear_arith)
                            requires
                                bg == da + (clg - 2) * sc3 + sg,
                                2 <= clg < nclu,
                                0 <= sg < sc3,
                                da + (nclu - 2) * sc3 <= blen,
                                0 <= da,
                        ;
                        if bg != abs as int {
                            assert(fs.blocks()[bg] == old(fs).blocks()[bg]);
                        } else {
                            // Same device sector: by chain distinctness this
                            // is the cursor's own sector, and the byte lies
                            // strictly before the written range.
                            let cl2 = mid_fs.skip_to(first, k);
                            assert(old(fs).skip_to(first, k) == cl2);
                            assert(2 <= cl2) by {
                                assert(cl2 == adv.cluster as int);
                            }
                            if !(clg == cl2 && sg == adv.sector as int) {
                                lemma_data_block_inj(
                                    old(fs),
                                    clg,
                                    sg,
                                    cl2,
                                    adv.sector as int,
                                );
                                assert(false);
                            }
                            assert(clg == cl2 && sg == adv.sector as int);
                            assert(kg == k) by {
                                if kg < k {
                                    lemma_chain_positions_distinct(old(fs), first, n, kg, k);
                                }
                            }
                            assert(og < adv.offset) by (nonlinear_arith)
                                requires
                                    g2 < g,
                                    g2 == kg * csz + sg * su + og,
                                    g == k * csz + (adv.sector as int) * su + adv.offset,
                                    kg == k,
                                    sg == adv.sector as int,
                            ;
                            assert(fs.blocks()[abs as int][og] == mid_fs.blocks()[abs as int][
                                og
                            ]);
                            assert(mid_fs.blocks() == old(fs).blocks());
                        }
                    }
                }
            }
        }
        Ok(len)
    }

    /// Flushes the shared cache through to the device.
    pub fn flush<D: BlockDeviceIo>(&mut self, fs: &mut Fs<D>) -> (r: Result<(), FsErr>)
        requires
            old(fs).wf(),
        ensures
            final(fs).wf(),
            cfg_eq(old(fs), final(fs)),
            final(fs).blocks() == old(fs).blocks(),
            *final(self) == *old(self),
            r is Ok ==> final(fs).sector.device_blocks() == final(fs).blocks(),
            r is Err ==> r->Err_0 == FsErr::WriteError,
    {
        fs.sector.flush()
    }

    /// The absolute position a seek aims at; meaningful for `Start` and
    /// `Current` only.
    pub open spec fn seek_target(pos: SeekFrom, global: u32) -> int {
        match pos {
            SeekFrom::Start(n) => n as int,
            SeekFrom::Current(d) => global + d,
            SeekFrom::End(_) => 0,
        }
    }

    /// Recomputes the cursor for an absolute or relative position by
    /// walking the chain from its first cluster. `End` seeking needs the
    /// length that only the file layer knows, so it is resolved there.
    pub fn seek<D: BlockDeviceIo>(&mut self, fs: &mut Fs<D>, pos: SeekFrom) -> (r: Result<
        u32,
        FsErr,
    >)
        requires
            old(fs).wf(),
            old(self).wf(old(fs)),
            !(pos is End),
            pos matches SeekFrom::Current(d) ==> old(self).global_offset + d <= u32::MAX,
        ensures
            final(fs).wf(),
            cfg_eq(old(fs), final(fs)),
            final(fs).blocks() == old(fs).blocks(),
            forall|c2: int| #[trigger] final(fs).entry(c2) == old(fs).entry(c2),
            final(self).wf(final(fs)),
            final(self).first_cluster == old(self).first_cluster,
            r matches Ok(p) ==> ({
                let target = Stream::seek_target(pos, old(self).global_offset);
                &&& 0 <= target <= u32::MAX
                &&& p == target
                &&& old(fs).skip_ok(
                    old(self).first_cluster as int,
                    target / (old(fs).cluster_size as int),
                )
                &&& final(self).cluster as int == old(fs).skip_to(
                    old(self).first_cluster as int,
                    target / (old(fs).cluster_size as int),
                )
                &&& final(self).sector as int == (target % (old(fs).cluster_size as int)) / (
                old(fs).sector_size as int)
                &&& final(self).offset as int == target % (old(fs).sector_size as int)
                &&& final(self).global_offset == target
            }),
            r is Ok ==> final(self).pos_ok(final(fs)),
            (r == Err::<u32, FsErr>(FsErr::NegativeSeek)) <==> (pos matches SeekFrom::Current(d)
                && old(self).global_offset + d < 0),
            (0 <= Stream::seek_target(pos, old(self).global_offset) < old(fs).cluster_size)
                ==> r is Ok,
            r is Err ==> *final(self) == *old(self),
            r is Err ==> (r->Err_0 == FsErr::NegativeSeek || r->Err_0 == FsErr::FatTableError
                || r->Err_0 == FsErr::ReadError || r->Err_0 == FsErr::WriteError),
    {
        broadcast use lemma_raw_entry_congruence;

        proof {
            assert((fs.cluster_size as int) >= 512) by (nonlinear_arith)
                requires
                    (fs.cluster_size as int) == (fs.sector_size as int) * (
                    fs.sectors_in_cluster as int),
                    (fs.sector_size as int) >= 512,
                    (fs.sectors_in_cluster as int) >= 1,
            ;
        }
        let new_pos: u32 = match pos {
            SeekFrom::Start(start) => start,
            SeekFrom::Current(current) => {
                let g: i64 = self.global_offset as i64 + current as i64;
                if g < 0 {
                    return Err(FsErr::NegativeSeek);
                }
                g as u32
            },
            SeekFrom::End(_) => {
                proof {
                    assert(false);
                }
                0
            },
        };
        let skip_count = new_pos / fs.cluster_size;
        proof {
            if new_pos < fs.cluster_size {
                assert((new_pos as int) / (fs.cluster_size as int) == 0) by (nonlinear_arith)
                    requires
                        0 <= (new_pos as int) < (fs.cluster_size as int),
                ;
            }
        }
        let ghost pre_fs = *fs;
        let cluster = match fs.table_chain_skip(self.first_cluster, skip_count) {
            Ok(c) => c,
            Err(e) => {
                return Err(e);
            },
        };
        if cluster < 2 {
            return Err(FsErr::FatTableError);
        }
        proof {
            lemma_skip_in_range(&pre_fs, self.first_cluster as int, skip_count as int);
            assert((new_pos as int) % (fs.cluster_size as int) < (fs.cluster_size as int));
            assert(((new_pos as int) % (fs.cluster_size as int)) / (fs.sector_size as int) < (
            fs.sectors_in_cluster as int)) by (nonlinear_arith)
                requires
                    0 <= (new_pos as int) % (fs.cluster_size as int) < (fs.cluster_size as int),
                    (fs.cluster_size as int) == (fs.sector_size as int) * (
                    fs.sectors_in_cluster as int),
                    (fs.sector_size as int) >= 1,
                    (fs.sectors_in_cluster as int) >= 1,
            ;
        }
        self.cluster = cluster;
        self.sector = (new_pos % fs.cluster_size) / fs.sector_size;
        self.offset = (new_pos % fs.sector_size) as usize;
        self.global_offset = new_pos;
        proof {
            let first = self.first_cluster as int;
            let cs = fs.cluster_size as int;
            let su = fs.sector_size as int;
            let sc2 = fs.sectors_in_cluster as int;
            let t = new_pos as int;
            let k = t / cs;
            lemma_fundamental_div_mod(t, cs);
            lemma_fundamental_div_mod(t % cs, su);
            assert(t == k * cs + ((t % cs) / su) * su + (t % cs) % su) by (nonlinear_arith)
                requires
                    t == cs * k + t % cs,
                    t % cs == su * ((t % cs) / su) + (t % cs) % su,
            ;
            assert(t == su * (sc2 * k + (t % cs) / su) + (t % cs) % su) by (nonlinear_arith)
                requires
                    cs == su * sc2,
                    t == k * cs + ((t % cs) / su) * su + (t % cs) % su,
            ;
            assert(0 <= sc2 * k + (t % cs) / su) by (nonlinear_arith)
                requires
                    0 <= k,
                    0 <= sc2,
                    0 <= (t % cs) / su,
            ;
            assert(su * (sc2 * k + (t % cs) / su) == (sc2 * k + (t % cs) / su) * su)
                by (nonlinear_arith);
            lemma_fundamental_div_mod_converse(t, su, sc2 * k + (t % cs) / su, (t % cs) % su);
            assert forall|ii: int|
                0 <= ii < k implies fs.entry(#[trigger] pre_fs.skip_to(first, ii))
                == pre_fs.entry(pre_fs.skip_to(first, ii)) by {}
            lemma_skip_frame(&pre_fs, fs, first, k);
            assert(fs.skip_to(first, k) == self.cluster as int);
            assert(self.global_offset as int == k * cs + (self.sector as int) * su
                + self.offset);
        }
        Ok(self.global_offset)
    }

    /// Forwards to the table engine's chain resize, anchored at this
    /// stream's first cluster.
    pub fn set_len<D: BlockDeviceIo>(&mut self, fs: &mut Fs<D>, cluster_count: u32) -> (r:
        Result<(), FsErr>)
        requires
            old(fs).wf(),
            old(self).wf(old(fs)),
            !(old(fs).entry(0) is Free),
        ensures
            final(fs).wf(),
            cfg_eq(old(fs), final(fs)),
            *final(self) == *old(self),
            (r == Err::<(), FsErr>(FsErr::BadCount)) <==> cluster_count == 0,
            r is Ok ==> forall|n: int|
                old(fs).chain_ok(old(self).first_cluster as int, n) && old(fs).chain_distinct(
                    old(self).first_cluster as int,
                    n,
                ) ==> chain_resized(
                    old(fs),
                    final(fs),
                    old(self).first_cluster as int,
                    n,
                    cluster_count as int,
                ),
            r is Err ==> (r->Err_0 == FsErr::BadCount || r->Err_0 == FsErr::NoFreeCluster
                || r->Err_0 == FsErr::FatTableError || r->Err_0 == FsErr::ReadError || r->Err_0
                == FsErr::WriteError),
    {
        fs.table_chain_set_len(self.first_cluster, cluster_count)
    }
}


/// Position coherence does not depend on the cache state: it transfers to
/// any state with the same configuration and the same decoded table.
pub proof fn lemma_pos_ok_same_table<D: BlockDeviceIo>(pre: &Fs<D>, post: &Fs<D>, st: Stream)
    requires
        cfg_eq(pre, post),
        forall|c2: int| #[trigger] post.entry(c2) == pre.entry(c2),
        st.pos_ok(pre),
    ensures
        st.pos_ok(post),
{
    let first = st.first_cluster as int;
    let k = choose|k: int|
        0 <= k && pre.skip_ok(first, k) && st.cluster as int == #[trigger] pre.skip_to(first, k)
            && st.global_offset as int == k * (pre.cluster_size as int) + (st.sector as int) * (
        pre.sector_size as int) + st.offset;
    assert forall|i: int|
        0 <= i < k implies post.entry(#[trigger] pre.skip_to(first, i)) == pre.entry(
        pre.skip_to(first, i),
    ) by {}
    lemma_skip_frame(pre, post, first, k);
    assert(post.skip_to(first, k) == pre.skip_to(first, k));
}

/// The arithmetic heart of the cursor: a position given as whole clusters,
/// whole sectors and an in-sector offset decomposes back into exactly those
/// parts.
pub proof fn lemma_pos_decompose<D: BlockDeviceIo>(
    fs: &Fs<D>,
    k: int,
    sector: int,
    offset: int,
    g: int,
)
    requires
        fs.wf(),
        0 <= k,
        0 <= sector < fs.sectors_in_cluster,
        0 <= offset < fs.sector_size,
        g == k * (fs.cluster_size as int) + sector * (fs.sector_size as int) + offset,
    ensures
        g / (fs.cluster_size as int) == k,
        (g % (fs.cluster_size as int)) / (fs.sector_size as int) == sector,
        g % (fs.sector_size as int) == offset,
{
    let cs = fs.cluster_size as int;
    let s = fs.sector_size as int;
    let sc = fs.sectors_in_cluster as int;
    assert(0 <= sector * s + offset < cs) by (nonlinear_arith)
        requires
            0 <= sector < sc,
            0 <= offset < s,
            cs == s * sc,
            s >= 1,
    ;
    lemma_fundamental_div_mod_converse(g, cs, k, sector * s + offset);
    lemma_fundamental_div_mod_converse(sector * s + offset, s, sector, offset);
    assert(g == s * (k * sc + sector) + offset) by (nonlinear_arith)
        requires
            cs == s * sc,
            g == k * cs + sector * s + offset,
    ;
    assert(0 <= k * sc + sector) by (nonlinear_arith)
        requires
            0 <= k,
            0 <= sector,
            0 <= sc,
    ;
    lemma_fundamental_div_mod_converse(g, s, k * sc + sector, offset);
}


/// A duplicate-free chain entirely inside the data area: what a healthy
/// file's allocation looks like. The byte-preservation contracts are stated
/// under this hypothesis, since on a corrupt (cyclic) table two positions
/// can alias one block.
pub open spec fn chain_valid<D: BlockDeviceIo>(fs: &Fs<D>, first: int, n: int) -> bool {
    &&& 0 <= n
    &&& fs.chain_ok(first, n)
    &&& forall|i: int| 0 <= i <= n ==> #[trigger] fs.skip_to(first, i) >= 2
}

/// A coherent cursor never stands past the end of a well-formed chain.
proof fn lemma_pos_le_chain<D: BlockDeviceIo>(fs: &Fs<D>, first: int, k: int, n: int)
    requires
        0 <= k,
        fs.skip_ok(first, k),
        fs.chain_ok(first, n),
    ensures
        k <= n,
{
    if k > n {
        lemma_skip_entries(fs, first, k, n);
    }
}

/// Distinct (cluster, sector) pairs map to distinct device sectors.
proof fn lemma_data_block_inj<D: BlockDeviceIo>(fs: &Fs<D>, c1: int, s1: int, c2: int, s2: int)
    requires
        fs.wf(),
        2 <= c1,
        2 <= c2,
        0 <= s1 < fs.sectors_in_cluster,
        0 <= s2 < fs.sectors_in_cluster,
        !(c1 == c2 && s1 == s2),
    ensures
        fs.data_sector(c1) + s1 != fs.data_sector(c2) + s2,
{
    let sc = fs.sectors_in_cluster as int;
    assert((c1 - 2) * sc + s1 != (c2 - 2) * sc + s2) by (nonlinear_arith)
        requires
            0 <= s1 < sc,
            0 <= s2 < sc,
            2 <= c1,
            2 <= c2,
            !(c1 == c2 && s1 == s2),
    ;
}

/// Any nonnegative position decomposes into whole clusters, whole sectors
/// and an in-sector offset.
proof fn lemma_byte_coords<D: BlockDeviceIo>(fs: &Fs<D>, g: int)
    requires
        fs.wf(),
        0 <= g,
    ensures
        g == (g / (fs.cluster_size as int)) * (fs.cluster_size as int) + ((g % (
        fs.cluster_size as int)) / (fs.sector_size as int)) * (fs.sector_size as int) + g % (
        fs.sector_size as int),
        0 <= g / (fs.cluster_size as int),
        0 <= (g % (fs.cluster_size as int)) / (fs.sector_size as int)
            < fs.sectors_in_cluster,
        0 <= g % (fs.sector_size as int) < fs.sector_size,
{
    let cs = fs.cluster_size as int;
    let su = fs.sector_size as int;
    let sc = fs.sectors_in_cluster as int;
    assert(cs >= 512) by (nonlinear_arith)
        requires
            cs == su * sc,
            su >= 512,
            sc >= 1,
    ;
    lemma_fundamental_div_mod(g, cs);
    lemma_fundamental_div_mod(g % cs, su);
    assert(0 <= g / cs) by (nonlinear_arith)
        requires
            0 <= g,
            cs >= 1,
            g == cs * (g / cs) + g % cs,
            0 <= g % cs < cs,
    ;
    assert((g % cs) / su < sc && 0 <= (g % cs) / su) by (nonlinear_arith)
        requires
            0 <= g % cs < cs,
            cs == su * sc,
            g % cs == su * ((g % cs) / su) + (g % cs) % su,
            0 <= (g % cs) % su < su,
            su >= 1,
    ;
    assert(g == (g / cs) * cs + ((g % cs) / su) * su + (g % cs) % su) by (nonlinear_arith)
        requires
            g == cs * (g / cs) + g % cs,
            g % cs == su * ((g % cs) / su) + (g % cs) % su,
    ;
    assert(g == su * (sc * (g / cs) + (g % cs) / su) + (g % cs) % su) by (nonlinear_arith)
        requires
            cs == su * sc,
            g == (g / cs) * cs + ((g % cs) / su) * su + (g % cs) % su,
    ;
    assert(0 <= sc * (g / cs) + (g % cs) / su) by (nonlinear_arith)
        requires
            0 <= g / cs,
            0 <= sc,
            0 <= (g % cs) / su,
    ;
    lemma_fundamental_div_mod_converse(g, su, sc * (g / cs) + (g % cs) / su, (g % cs) % su);
}


/// Walks agree between two states whose decoded tables agree everywhere.
proof fn lemma_skip_same_entries<D: BlockDeviceIo>(a: &Fs<D>, b: &Fs<D>, c: int, m: int)
    requires
        cfg_eq(a, b),
        forall|c2: int| #[trigger] b.entry(c2) == a.entry(c2),
        0 <= m,
    ensures
        b.skip_to(c, m) == a.skip_to(c, m),
        b.skip_ok(c, m) == a.skip_ok(c, m),
    decreases m,
{
    if m > 0 {
        match a.entry(c) {
            ClusterValue::Next(x) => {
                lemma_skip_same_entries(a, b, x as int, m - 1);
            },
            _ => {},
        }
    }
}

/// `stream_byte` does not depend on the cache state: it transfers to any
/// state with the same configuration, bytes and decoded table.
pub proof fn lemma_stream_byte_same_table<D: BlockDeviceIo>(
    a: &Fs<D>,
    b: &Fs<D>,
    first: int,
    g: int,
)
    requires
        a.wf(),
        cfg_eq(a, b),
        a.blocks() == b.blocks(),
        forall|c2: int| #[trigger] b.entry(c2) == a.entry(c2),
        0 <= g,
    ensures
        stream_byte(b, first, g) == stream_byte(a, first, g),
{
    lemma_byte_coords(a, g);
    lemma_skip_same_entries(a, b, first, g / (a.cluster_size as int));
}

} // verus!
