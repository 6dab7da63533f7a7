//! The cluster allocation table engine: bit-exact addressing and
//! encoding/decoding of table entries for the three on-disk variants, and
//! chain creation, traversal, extension and deletion on top of it.

use vstd::prelude::*;
use vstd::arithmetic::div_mod::{
    lemma_fundamental_div_mod, lemma_fundamental_div_mod_converse, lemma_div_is_ordered,
};
use vstd::set_lib::{lemma_int_range, lemma_len_subset, set_int_range};

use crate::sector::{BlockDeviceIo, FsErr, Sector, splice};

verus! {

/// The three on-disk table encodings.
#[derive(Copy, Clone, Eq, PartialEq, Structural, Debug)]
pub enum FatType {
    Fat32,
    Fat16,
    Fat12,
}

/// The decoded meaning of one table entry.
#[derive(Copy, Clone, Eq, PartialEq, Structural, Debug)]
pub enum ClusterValue {
    Next(u32),
    Last,
    Free,
    Bad,
}

/// The reserved raw value marking a bad cluster; every raw value above it
/// marks the last cluster of a chain.
pub open spec fn bad_marker(ft: FatType) -> int {
    match ft {
        FatType::Fat32 => 0x0FFF_FFF7,
        FatType::Fat16 => 0xFFF7,
        FatType::Fat12 => 0xFF7,
    }
}

pub open spec fn decode_value(ft: FatType, v: int) -> ClusterValue {
    if v == 0 {
        ClusterValue::Free
    } else if v == bad_marker(ft) {
        ClusterValue::Bad
    } else if v > bad_marker(ft) {
        ClusterValue::Last
    } else {
        ClusterValue::Next(v as u32)
    }
}

pub open spec fn encode_value(ft: FatType, v: ClusterValue) -> int {
    match v {
        ClusterValue::Free => 0,
        ClusterValue::Bad => bad_marker(ft),
        ClusterValue::Last => bad_marker(ft) + 1,
        ClusterValue::Next(n) => n as int,
    }
}

/// Whether a value can be stored in the given variant without aliasing a
/// sentinel: a link must name a cluster between 1 and the bad marker.
pub open spec fn value_fits(ft: FatType, v: ClusterValue) -> bool {
    match v {
        ClusterValue::Next(n) => 1 <= n < bad_marker(ft),
        _ => true,
    }
}

/// Law: for every variant, decoding an encoded in-range value returns it
/// unchanged.
pub proof fn lemma_value_round_trip(ft: FatType, v: ClusterValue)
    requires
        value_fits(ft, v),
    ensures
        decode_value(ft, encode_value(ft, v)) == v,
{
}

/// Byte index, within the table area, where the entry of cluster `c` starts.
pub open spec fn entry_base_at(ft: FatType, c: int) -> int {
    match ft {
        FatType::Fat32 => 4 * c,
        FatType::Fat16 => 2 * c,
        FatType::Fat12 => c + c / 2,
    }
}

/// Number of bytes read to obtain one entry (the FAT12 entry shares its two
/// bytes with a neighbour).
pub open spec fn entry_width_of(ft: FatType) -> int {
    match ft {
        FatType::Fat32 => 4,
        FatType::Fat16 => 2,
        FatType::Fat12 => 2,
    }
}

/// Total number of table-area bytes the engine may touch.
pub open spec fn table_span(ft: FatType, count: int) -> int {
    entry_base_at(ft, count - 1) + entry_width_of(ft)
}

/// The engine: variant, table geometry and data-area mapping over a shared
/// single-block cache.
pub struct Fs<D: BlockDeviceIo> {
    pub sector: Sector<D>,
    pub fat_type: FatType,
    pub table_clusters_count: u32,
    pub table_first_sector: u32,
    pub sector_size: u32,
    pub cluster_size: u32,
    pub sectors_in_cluster: u32,
    pub data_area_first_sector: u32,
    pub root_cluster: u32,
}

/// The configuration (everything but the stored bytes) is the same in both
/// states.
pub open spec fn cfg_eq<D: BlockDeviceIo>(a: &Fs<D>, b: &Fs<D>) -> bool {
    &&& a.fat_type == b.fat_type
    &&& a.table_clusters_count == b.table_clusters_count
    &&& a.table_first_sector == b.table_first_sector
    &&& a.sector_size == b.sector_size
    &&& a.cluster_size == b.cluster_size
    &&& a.sectors_in_cluster == b.sectors_in_cluster
    &&& a.data_area_first_sector == b.data_area_first_sector
    &&& a.root_cluster == b.root_cluster
    &&& a.blocks().len() == b.blocks().len()
}

/// Only blocks of the table area differ between the two states; every data
/// block is untouched.
pub open spec fn table_only_changed<D: BlockDeviceIo>(pre: &Fs<D>, post: &Fs<D>) -> bool {
    forall|b: int|
        0 <= b < pre.blocks().len() && !(pre.table_first_sector <= b
            < pre.table_end_sector()) ==> post.blocks()[b] == pre.blocks()[b]
}

/// The entry of cluster `c` now decodes to `v`; every other entry decodes as
/// before.
pub open spec fn table_updated<D: BlockDeviceIo>(
    pre: &Fs<D>,
    post: &Fs<D>,
    c: int,
    v: ClusterValue,
) -> bool {
    &&& post.entry(c) == v
    &&& forall|c2: int|
        0 <= c2 < pre.table_clusters_count && c2 != c ==> (#[trigger] post.entry(c2))
            == pre.entry(c2)
}

impl<D: BlockDeviceIo> Fs<D> {
    pub open spec fn blocks(&self) -> Seq<Seq<u8>> {
        self.sector.blocks()
    }

    pub open spec fn entry_base(&self, c: int) -> int {
        entry_base_at(self.fat_type, c)
    }

    pub open spec fn table_byte_span(&self) -> int {
        table_span(self.fat_type, self.table_clusters_count as int)
    }

    /// First sector past the table area.
    pub open spec fn table_end_sector(&self) -> int {
        self.table_first_sector + (self.table_byte_span() + self.sector_size - 1) / (
        self.sector_size as int)
    }

    pub open spec fn tbyte_sector(&self, i: int) -> int {
        self.table_first_sector + i / (self.sector_size as int)
    }

    pub open spec fn tbyte_offset(&self, i: int) -> int {
        i % (self.sector_size as int)
    }

    /// Byte `i` of the table area.
    pub open spec fn tbyte(&self, i: int) -> u8 {
        self.blocks()[self.tbyte_sector(i)][self.tbyte_offset(i)]
    }

    /// The raw (undecoded) table value of cluster `c`, read bit-exactly from
    /// the stored bytes.
    #[verifier::opaque]
    pub open spec fn raw_entry(&self, c: int) -> int {
        let b = self.entry_base(c);
        match self.fat_type {
            FatType::Fat32 => ((self.tbyte(b) as int) + 0x100 * (self.tbyte(b + 1) as int)
                + 0x10000 * (self.tbyte(b + 2) as int) + 0x100_0000 * (self.tbyte(b + 3) as int))
                % 0x1000_0000,
            FatType::Fat16 => (self.tbyte(b) as int) + 0x100 * (self.tbyte(b + 1) as int),
            FatType::Fat12 => {
                let p = (self.tbyte(b) as int) + 0x100 * (self.tbyte(b + 1) as int);
                if c % 2 == 0 {
                    p % 0x1000
                } else {
                    p / 0x10
                }
            },
        }
    }

    /// The decoded table entry of cluster `c`: the mathematical model every
    /// table contract speaks of.
    pub open spec fn entry(&self, c: int) -> ClusterValue {
        decode_value(self.fat_type, self.raw_entry(c))
    }

    pub open spec fn wf(&self) -> bool {
        &&& self.sector.inv()
        &&& self.sector_size as nat == self.sector.block_size_spec()
        &&& self.sector_size % 4 == 0
        &&& 512 <= self.sector_size <= 4096
        &&& 1 <= self.sectors_in_cluster
        &&& (self.cluster_size as int) == (self.sector_size as int) * (
        self.sectors_in_cluster as int)
        &&& 1 <= self.table_clusters_count <= bad_marker(self.fat_type)
        &&& (self.table_first_sector as int) * (self.sector_size as int)
            + self.table_byte_span() <= self.blocks().len() * (self.sector_size as int)
        &&& self.table_end_sector() <= self.data_area_first_sector
        &&& 2 <= self.root_cluster < self.table_clusters_count
        &&& (self.data_area_first_sector as int) + (self.table_clusters_count - 2) * (
        self.sectors_in_cluster as int) <= self.blocks().len()
        &&& self.blocks().len() <= u32::MAX
    }

    /// First device sector of the data cluster `c`: the standard FAT
    /// data-region mapping, in which clusters 0 and 1 are reserved and
    /// cluster 2 is the first data cluster.
    pub open spec fn data_sector(&self, c: int) -> int {
        self.data_area_first_sector + (c - 2) * (self.sectors_in_cluster as int)
    }
}

/// Two states with the same configuration and the same stored bytes decode
/// every entry alike.
pub broadcast proof fn lemma_raw_entry_congruence<D: BlockDeviceIo>(a: Fs<D>, b: Fs<D>, c: int)
    ensures
        (a.fat_type == b.fat_type && a.table_first_sector == b.table_first_sector
            && a.sector_size == b.sector_size && a.blocks() == b.blocks()) ==> #[trigger] a.raw_entry(
            c,
        ) == #[trigger] b.raw_entry(c),
{
    reveal(Fs::raw_entry);
}


proof fn lemma_push_contains(vs: Seq<u32>, x: u32, y: u32)
    ensures
        vs.push(x).contains(y) <==> (vs.contains(y) || y == x),
{
    if vs.contains(y) {
        let k = choose|k: int| 0 <= k < vs.len() && vs[k] == y;
        assert(vs.push(x)[k] == y);
    }
    if y == x {
        assert(vs.push(x)[vs.len() as int] == y);
    }
    if vs.push(x).contains(y) && y != x {
        let k = choose|k: int| 0 <= k < vs.push(x).len() && vs.push(x)[k] == y;
        if k < vs.len() {
            assert(vs[k] == y);
        }
    }
}

proof fn lemma_div2_shift(c: int)
    requires
        c >= 0,
    ensures
        (c + 2) / 2 == c / 2 + 1,
        c % 2 == 0 ==> (c + 1) / 2 == c / 2,
        c % 2 == 1 ==> (c + 1) / 2 == c / 2 + 1,
{
    lemma_fundamental_div_mod(c, 2);
    lemma_fundamental_div_mod_converse(c + 2, 2, c / 2 + 1, c % 2);
    if c % 2 == 0 {
        lemma_fundamental_div_mod_converse(c + 1, 2, c / 2, 1);
    } else {
        lemma_fundamental_div_mod_converse(c + 1, 2, c / 2 + 1, 0);
    }
}

/// The byte range of an entry lies within the table area.
proof fn lemma_entry_bytes_in_span<D: BlockDeviceIo>(fs: &Fs<D>, c: int)
    requires
        fs.wf(),
        0 <= c < fs.table_clusters_count,
    ensures
        0 <= fs.entry_base(c),
        fs.entry_base(c) + entry_width_of(fs.fat_type) <= fs.table_byte_span(),
{
    let last = fs.table_clusters_count - 1;
    match fs.fat_type {
        FatType::Fat32 => {},
        FatType::Fat16 => {},
        FatType::Fat12 => {
            lemma_div_is_ordered(c, last, 2);
            assert(c / 2 >= 0) by {
                lemma_fundamental_div_mod(c, 2);
            }
        },
    }
}

/// Where table byte `i` lives, and that this is inside both the table area
/// and the device.
proof fn lemma_table_byte_in_range<D: BlockDeviceIo>(fs: &Fs<D>, i: int)
    requires
        fs.wf(),
        0 <= i < fs.table_byte_span(),
    ensures
        fs.table_first_sector <= fs.tbyte_sector(i) < fs.table_end_sector(),
        fs.tbyte_sector(i) < fs.blocks().len(),
        0 <= fs.tbyte_offset(i) < fs.sector_size,
{
    let s = fs.sector_size as int;
    let span = fs.table_byte_span();
    let first = fs.table_first_sector as int;
    let len = fs.blocks().len() as int;
    lemma_fundamental_div_mod(i, s);
    assert(i / s >= 0 && i % s >= 0) by (nonlinear_arith)
        requires
            i >= 0,
            s > 0,
            i == s * (i / s) + i % s,
            0 <= i % s < s,
    ;
    assert(first + i / s < len) by (nonlinear_arith)
        requires
            i == s * (i / s) + i % s,
            0 <= i % s < s,
            0 <= i < span,
            first * s + span <= len * s,
            s > 0,
            first >= 0,
    ;
    // The end sector is one past the sector of the last byte.
    lemma_fundamental_div_mod(span - 1, s);
    assert(span - 1 + s == ((span - 1) / s + 1) * s + (span - 1) % s) by (nonlinear_arith)
        requires
            span - 1 == s * ((span - 1) / s) + (span - 1) % s,
    ;
    lemma_fundamental_div_mod_converse(span - 1 + s, s, (span - 1) / s + 1, (span - 1) % s);
    lemma_div_is_ordered(i, span - 1, s);
}

/// Two distinct table byte indexes live at distinct (sector, offset) pairs.
proof fn lemma_tbyte_distinct<D: BlockDeviceIo>(fs: &Fs<D>, i: int, j: int)
    requires
        fs.wf(),
        0 <= i,
        0 <= j,
        i != j,
    ensures
        fs.tbyte_sector(i) != fs.tbyte_sector(j) || fs.tbyte_offset(i) != fs.tbyte_offset(j),
{
    let s = fs.sector_size as int;
    if fs.tbyte_sector(i) == fs.tbyte_sector(j) && fs.tbyte_offset(i) == fs.tbyte_offset(j) {
        lemma_fundamental_div_mod(i, s);
        lemma_fundamental_div_mod(j, s);
        assert(false);
    }
}

/// After one stored byte changes, exactly that table byte differs; the rest
/// of the table area and every non-table block is as before.
proof fn lemma_table_byte_update<D: BlockDeviceIo>(pre: &Fs<D>, post: &Fs<D>, i: int, v: u8)
    requires
        pre.wf(),
        cfg_eq(pre, post),
        0 <= i < pre.table_byte_span(),
        post.blocks() == pre.blocks().update(
            pre.tbyte_sector(i),
            pre.blocks()[pre.tbyte_sector(i)].update(pre.tbyte_offset(i), v),
        ),
    ensures
        post.tbyte(i) == v,
        forall|j: int|
            0 <= j < pre.table_byte_span() && j != i ==> post.tbyte(j) == pre.tbyte(j),
        table_only_changed(pre, post),
{
    lemma_table_byte_in_range(pre, i);
    pre.sector.lemma_shape();
    assert forall|j: int|
        0 <= j < pre.table_byte_span() && j != i implies post.tbyte(j) == pre.tbyte(j) by {
        lemma_table_byte_in_range(pre, j);
        lemma_tbyte_distinct(pre, i, j);
    }
}

/// An entry whose bytes are unchanged decodes as before.
proof fn lemma_entry_same_bytes<D: BlockDeviceIo>(pre: &Fs<D>, post: &Fs<D>, c: int)
    requires
        pre.wf(),
        cfg_eq(pre, post),
        0 <= c < pre.table_clusters_count,
        forall|j: int|
            pre.entry_base(c) <= j < pre.entry_base(c) + entry_width_of(pre.fat_type)
                ==> post.tbyte(j) == pre.tbyte(j),
    ensures
        post.raw_entry(c) == pre.raw_entry(c),
        post.entry(c) == pre.entry(c),
{
    reveal(Fs::raw_entry);
    let b = pre.entry_base(c);
    assert(post.tbyte(b) == pre.tbyte(b));
    assert(post.tbyte(b + 1) == pre.tbyte(b + 1));
    if pre.fat_type == FatType::Fat32 {
        assert(post.tbyte(b + 2) == pre.tbyte(b + 2));
        assert(post.tbyte(b + 3) == pre.tbyte(b + 3));
    }
}

/// Little-endian reconstruction of a 32-bit value from four bytes.
pub fn u32_from_bytes(bytes: &Vec<u8>) -> (r: u32)
    requires
        bytes.len() == 4,
    ensures
        r as int == (bytes@[0] as int) + 0x100 * (bytes@[1] as int) + 0x10000 * (
        bytes@[2] as int) + 0x100_0000 * (bytes@[3] as int),
{
    let b0 = bytes[0];
    let b1 = bytes[1];
    let b2 = bytes[2];
    let b3 = bytes[3];
    let r = (b0 as u32) | ((b1 as u32) << 8) | ((b2 as u32) << 16) | ((b3 as u32) << 24);
    proof {
        let x0 = b0 as u32;
        let x1 = b1 as u32;
        let x2 = b2 as u32;
        let x3 = b3 as u32;
        assert((x0 | (x1 << 8) | (x2 << 16) | (x3 << 24)) == x0 + 0x100 * x1 + 0x10000 * x2
            + 0x100_0000 * x3) by (bit_vector)
            requires
                x0 < 0x100,
                x1 < 0x100,
                x2 < 0x100,
                x3 < 0x100,
        ;
    }
    r
}

fn decode_cluster_value(ft: FatType, val: u32) -> (r: ClusterValue)
    ensures
        r == decode_value(ft, val as int),
{
    let bad: u32 = match ft {
        FatType::Fat32 => 0x0FFF_FFF7,
        FatType::Fat16 => 0xFFF7,
        FatType::Fat12 => 0xFF7,
    };
    if val == 0 {
        ClusterValue::Free
    } else if val == bad {
        ClusterValue::Bad
    } else if val > bad {
        ClusterValue::Last
    } else {
        ClusterValue::Next(val)
    }
}

fn encode_cluster_value(ft: FatType, value: ClusterValue) -> (r: u32)
    requires
        value_fits(ft, value),
    ensures
        r as int == encode_value(ft, value),
        r as int <= bad_marker(ft) + 1,
{
    let bad: u32 = match ft {
        FatType::Fat32 => 0x0FFF_FFF7,
        FatType::Fat16 => 0xFFF7,
        FatType::Fat12 => 0xFF7,
    };
    match value {
        ClusterValue::Free => 0,
        ClusterValue::Bad => bad,
        ClusterValue::Last => bad + 1,
        ClusterValue::Next(n) => n,
    }
}

impl<D: BlockDeviceIo> Fs<D> {
    /// Sector and in-sector offset of a FAT32 entry.
    pub fn fat32_cluster_to_sector_and_offset(&self, cluster: u32) -> (r: (u32, usize))
        requires
            self.wf(),
            cluster < self.table_clusters_count,
            self.fat_type == FatType::Fat32,
        ensures
            r.0 == self.tbyte_sector(4 * (cluster as int)),
            r.1 == self.tbyte_offset(4 * (cluster as int)),
    {
        proof {
            lemma_entry_bytes_in_span(self, cluster as int);
            lemma_table_byte_in_range(self, 4 * (cluster as int));
        }
        let b: u64 = 4 * (cluster as u64);
        let s: u64 = self.sector_size as u64;
        let sec: u32 = (self.table_first_sector as u64 + b / s) as u32;
        let off: usize = (b % s) as usize;
        (sec, off)
    }

    /// Sector and in-sector offset of a FAT16 entry.
    pub fn fat16_cluster_to_sector_and_offset(&self, cluster: u32) -> (r: (u32, usize))
        requires
            self.wf(),
            cluster < self.table_clusters_count,
            self.fat_type == FatType::Fat16,
        ensures
            r.0 == self.tbyte_sector(2 * (cluster as int)),
            r.1 == self.tbyte_offset(2 * (cluster as int)),
    {
        proof {
            lemma_entry_bytes_in_span(self, cluster as int);
            lemma_table_byte_in_range(self, 2 * (cluster as int));
        }
        let b: u64 = 2 * (cluster as u64);
        let s: u64 = self.sector_size as u64;
        let sec: u32 = (self.table_first_sector as u64 + b / s) as u32;
        let off: usize = (b % s) as usize;
        (sec, off)
    }

    /// Sector and in-sector offset of the first byte of a FAT12 entry.
    pub fn fat12_cluster_to_sector_and_offset(&self, cluster: u32) -> (r: (u32, usize))
        requires
            self.wf(),
            cluster < self.table_clusters_count,
            self.fat_type == FatType::Fat12,
        ensures
            r.0 == self.tbyte_sector((cluster as int) + (cluster as int) / 2),
            r.1 == self.tbyte_offset((cluster as int) + (cluster as int) / 2),
    {
        proof {
            lemma_entry_bytes_in_span(self, cluster as int);
            lemma_table_byte_in_range(self, (cluster as int) + (cluster as int) / 2);
        }
        let b: u64 = cluster as u64 + (cluster as u64) / 2;
        let s: u64 = self.sector_size as u64;
        let sec: u32 = (self.table_first_sector as u64 + b / s) as u32;
        let off: usize = (b % s) as usize;
        (sec, off)
    }

    /// Reads table byte `i` through the cache.
    fn read_table_byte(&mut self, i: u64) -> (r: Result<u8, FsErr>)
        requires
            old(self).wf(),
            i < old(self).table_byte_span(),
        ensures
            final(self).wf(),
            cfg_eq(old(self), final(self)),
            final(self).blocks() == old(self).blocks(),
            forall|c2: int| #[trigger] final(self).entry(c2) == old(self).entry(c2),
            r matches Ok(b) ==> b == old(self).tbyte(i as int),
            r is Err ==> (r->Err_0 == FsErr::ReadError || r->Err_0 == FsErr::WriteError),
    {
        broadcast use lemma_raw_entry_congruence;

        proof {
            lemma_table_byte_in_range(self, i as int);
            self.sector.lemma_shape();
        }
        let s: u64 = self.sector_size as u64;
        let sec: u32 = (self.table_first_sector as u64 + i / s) as u32;
        let off: usize = (i % s) as usize;
        let mut buf: Vec<u8> = vec![0u8];
        match self.sector.read(sec, off, &mut buf) {
            Ok(()) => {
                proof {
                    assert(buf@ == old(self).blocks()[sec as int].subrange(
                        off as int,
                        off as int + 1,
                    ));
                }
                Ok(buf[0])
            },
            Err(e) => Err(e),
        }
    }

    /// Writes table byte `i` through the cache.
    fn write_table_byte(&mut self, i: u64, v: u8) -> (r: Result<(), FsErr>)
        requires
            old(self).wf(),
            i < old(self).table_byte_span(),
        ensures
            final(self).wf(),
            cfg_eq(old(self), final(self)),
            r is Ok ==> final(self).tbyte(i as int) == v && (forall|j: int|
                0 <= j < old(self).table_byte_span() && j != i ==> final(self).tbyte(j) == old(self).tbyte(j)) && table_only_changed(old(self), final(self)),
            r is Err ==> final(self).blocks() == old(self).blocks() && (r->Err_0
                == FsErr::ReadError || r->Err_0 == FsErr::WriteError),
    {
        proof {
            lemma_table_byte_in_range(self, i as int);
            self.sector.lemma_shape();
        }
        let s: u64 = self.sector_size as u64;
        let sec: u32 = (self.table_first_sector as u64 + i / s) as u32;
        let off: usize = (i % s) as usize;
        let buf: Vec<u8> = vec![v];
        match self.sector.write(sec, off, &buf) {
            Ok(()) => {
                proof {
                    let row = old(self).blocks()[sec as int];
                    assert(splice(row, off as int, buf@) =~= row.update(off as int, v));
                    lemma_table_byte_update(old(self), self, i as int, v);
                }
                Ok(())
            },
            Err(e) => Err(e),
        }
    }

    /// Decodes the table entry of `cluster`, per the variant's bit-exact
    /// on-disk layout.
    pub fn table_get(&mut self, cluster: u32) -> (r: Result<ClusterValue, FsErr>)
        requires
            old(self).wf(),
            cluster < old(self).table_clusters_count,
        ensures
            final(self).wf(),
            cfg_eq(old(self), final(self)),
            final(self).blocks() == old(self).blocks(),
            forall|c2: int| #[trigger] final(self).entry(c2) == old(self).entry(c2),
            r matches Ok(v) ==> v == old(self).entry(cluster as int),
            r is Err ==> (r->Err_0 == FsErr::ReadError || r->Err_0 == FsErr::WriteError),
    {
        broadcast use lemma_raw_entry_congruence;

        proof {
            lemma_entry_bytes_in_span(self, cluster as int);
        }
        match self.fat_type {
            FatType::Fat32 => {
                let b: u64 = 4 * (cluster as u64);
                let b0 = self.read_table_byte(b)?;
                let b1 = self.read_table_byte(b + 1)?;
                let b2 = self.read_table_byte(b + 2)?;
                let b3 = self.read_table_byte(b + 3)?;
                let mut bytes: Vec<u8> = Vec::new();
                bytes.push(b0);
                bytes.push(b1);
                bytes.push(b2);
                bytes.push(b3);
                let word = u32_from_bytes(&bytes);
                let val = word & 0x0FFF_FFFF;
                proof {
                    assert(word & 0x0FFF_FFFF == word % 0x1000_0000) by (bit_vector);
                    assert(old(self).raw_entry(cluster as int) == val as int) by {
                        reveal(Fs::raw_entry);
                    }
                }
                Ok(decode_cluster_value(FatType::Fat32, val))
            },
            FatType::Fat16 => {
                let b: u64 = 2 * (cluster as u64);
                let b0 = self.read_table_byte(b)?;
                let b1 = self.read_table_byte(b + 1)?;
                let val = (b0 as u32) | ((b1 as u32) << 8);
                proof {
                    let x0 = b0 as u32;
                    let x1 = b1 as u32;
                    assert((x0 | (x1 << 8)) == x0 + 0x100 * x1) by (bit_vector)
                        requires
                            x0 < 0x100,
                            x1 < 0x100,
                    ;
                    assert(old(self).raw_entry(cluster as int) == val as int) by {
                        reveal(Fs::raw_entry);
                    }
                }
                Ok(decode_cluster_value(FatType::Fat16, val))
            },
            FatType::Fat12 => {
                let b: u64 = cluster as u64 + (cluster as u64) / 2;
                let b0 = self.read_table_byte(b)?;
                let b1 = self.read_table_byte(b + 1)?;
                let p = (b0 as u32) | ((b1 as u32) << 8);
                let val = if cluster % 2 == 0 {
                    p & 0x0FFF
                } else {
                    p >> 4
                };
                proof {
                    let x0 = b0 as u32;
                    let x1 = b1 as u32;
                    assert((x0 | (x1 << 8)) == x0 + 0x100 * x1) by (bit_vector)
                        requires
                            x0 < 0x100,
                            x1 < 0x100,
                    ;
                    assert(p & 0x0FFF == p % 0x1000) by (bit_vector);
                    assert(p < 0x10000 ==> (p >> 4) == p / 0x10) by (bit_vector);
                    assert(old(self).raw_entry(cluster as int) == val as int) by {
                        reveal(Fs::raw_entry);
                    }
                }
                Ok(decode_cluster_value(FatType::Fat12, val))
            },
        }
    }

    /// Encodes `value` into the table entry of `cluster`, read-modify-writing
    /// the shared byte pair for FAT12 so the neighbouring entry keeps its
    /// nibble.
    pub fn table_set(&mut self, cluster: u32, value: ClusterValue) -> (r: Result<(), FsErr>)
        requires
            old(self).wf(),
            cluster < old(self).table_clusters_count,
            value_fits(old(self).fat_type, value),
        ensures
            final(self).wf(),
            cfg_eq(old(self), final(self)),
            table_only_changed(old(self), final(self)),
            r is Ok ==> table_updated(old(self), final(self), cluster as int, value),
            r is Ok ==> final(self).raw_entry(cluster as int) == encode_value(
                old(self).fat_type,
                value,
            ),
            r is Err ==> (r->Err_0 == FsErr::ReadError || r->Err_0 == FsErr::WriteError)
                && (forall|c2: int|
                0 <= c2 < old(self).table_clusters_count && c2 != cluster ==> (#[trigger] final(self).entry(c2)) == old(self).entry(c2)),
    {
        broadcast use lemma_raw_entry_congruence;

        proof {
            lemma_entry_bytes_in_span(self, cluster as int);
        }
        let ghost pre = *self;
        let c = cluster;
        match self.fat_type {
            FatType::Fat32 => {
                let val = encode_cluster_value(FatType::Fat32, value);
                let b: u64 = 4 * (c as u64);
                let x0: u32 = val & 0xFF;
                let x1: u32 = (val >> 8) & 0xFF;
                let x2: u32 = (val >> 16) & 0xFF;
                let x3: u32 = (val >> 24) & 0xFF;
                proof {
                    assert(x0 < 0x100 && x1 < 0x100 && x2 < 0x100 && x3 < 0x100 && x0 + 0x100
                        * x1 + 0x10000 * x2 + 0x100_0000 * x3 == val) by (bit_vector)
                        requires
                            x0 == val & 0xFF,
                            x1 == (val >> 8) & 0xFF,
                            x2 == (val >> 16) & 0xFF,
                            x3 == (val >> 24) & 0xFF,
                    ;
                }
                let r0 = self.write_table_byte(b, x0 as u8);
                if let Err(e) = r0 {
                    proof {
                        lemma_set_frame(&pre, self, c as int);
                    }
                    return Err(e);
                }
                let r1 = self.write_table_byte(b + 1, x1 as u8);
                if let Err(e) = r1 {
                    proof {
                        lemma_set_frame(&pre, self, c as int);
                    }
                    return Err(e);
                }
                let r2 = self.write_table_byte(b + 2, x2 as u8);
                if let Err(e) = r2 {
                    proof {
                        lemma_set_frame(&pre, self, c as int);
                    }
                    return Err(e);
                }
                let r3 = self.write_table_byte(b + 3, x3 as u8);
                if let Err(e) = r3 {
                    proof {
                        lemma_set_frame(&pre, self, c as int);
                    }
                    return Err(e);
                }
                proof {
                    lemma_set_frame(&pre, self, c as int);
                    assert(val < 0x1000_0000 ==> val % 0x1000_0000 == val) by (bit_vector);
                    assert(self.raw_entry(c as int) == val) by {
                        reveal(Fs::raw_entry);
                    }
                    lemma_value_round_trip(FatType::Fat32, value);
                }
                Ok(())
            },
            FatType::Fat16 => {
                let val = encode_cluster_value(FatType::Fat16, value);
                let b: u64 = 2 * (c as u64);
                let x0: u32 = val & 0xFF;
                let x1: u32 = (val >> 8) & 0xFF;
                proof {
                    assert(x0 < 0x100 && x1 < 0x100 && (val < 0x10000 ==> x0 + 0x100 * x1
                        == val)) by (bit_vector)
                        requires
                            x0 == val & 0xFF,
                            x1 == (val >> 8) & 0xFF,
                    ;
                }
                let r0 = self.write_table_byte(b, x0 as u8);
                if let Err(e) = r0 {
                    proof {
                        lemma_set_frame(&pre, self, c as int);
                    }
                    return Err(e);
                }
                let r1 = self.write_table_byte(b + 1, x1 as u8);
                if let Err(e) = r1 {
                    proof {
                        lemma_set_frame(&pre, self, c as int);
                    }
                    return Err(e);
                }
                proof {
                    lemma_set_frame(&pre, self, c as int);
                    assert(self.raw_entry(c as int) == val) by {
                        reveal(Fs::raw_entry);
                    }
                    lemma_value_round_trip(FatType::Fat16, value);
                }
                Ok(())
            },
            FatType::Fat12 => {
                let val = encode_cluster_value(FatType::Fat12, value);
                let b: u64 = c as u64 + (c as u64) / 2;
                let b0 = self.read_table_byte(b)?;
                let b1 = self.read_table_byte(b + 1)?;
                let n0: u32;
                let n1: u32;
                if c % 2 == 0 {
                    n0 = val & 0xFF;
                    n1 = ((b1 as u32) & 0xF0) | ((val >> 8) & 0x0F);
                    proof {
                        let o1 = b1 as u32;
                        assert(n0 < 0x100 && n1 < 0x100 && n1 / 0x10 == o1 / 0x10 && (val
                            < 0x1000 ==> (n0 + 0x100 * n1) % 0x1000 == val)) by (bit_vector)
                            requires
                                n0 == val & 0xFF,
                                n1 == (o1 & 0xF0) | ((val >> 8) & 0x0F),
                                o1 < 0x100,
                        ;
                    }
                } else {
                    n0 = ((b0 as u32) & 0x0F) | ((val & 0x0F) << 4);
                    n1 = (val >> 4) & 0xFF;
                    proof {
                        let o0 = b0 as u32;
                        assert(n0 < 0x100 && n1 < 0x100 && n0 % 0x10 == o0 % 0x10 && (val
                            < 0x1000 ==> (n0 + 0x100 * n1) / 0x10 == val)) by (bit_vector)
                            requires
                                n0 == (o0 & 0x0F) | ((val & 0x0F) << 4),
                                n1 == (val >> 4) & 0xFF,
                                o0 < 0x100,
                        ;
                    }
                }
                let r0 = self.write_table_byte(b, n0 as u8);
                if let Err(e) = r0 {
                    proof {
                        lemma_fat12_frame(&pre, self, c as int);
                    }
                    return Err(e);
                }
                let ghost mid = *self;
                let r1 = self.write_table_byte(b + 1, n1 as u8);
                proof {
                    assert(mid.tbyte(b as int) == n0 as u8);
                    assert(mid.tbyte(b + 1 as int) == pre.tbyte(b + 1 as int));
                    assert forall|j: int|
                        0 <= j < pre.table_byte_span() && j != b && j != b + 1 implies
                        mid.tbyte(j) == pre.tbyte(j) by {}
                }
                if let Err(e) = r1 {
                    proof {
                        assert(self.blocks() == mid.blocks());
                        assert forall|j: int|
                            0 <= j < pre.table_byte_span() && j != b implies self.tbyte(j)
                            == mid.tbyte(j) by {}
                        lemma_fat12_frame(&pre, self, c as int);
                    }
                    return Err(e);
                }
                proof {
                    assert(self.tbyte(b + 1 as int) == n1 as u8);
                    assert(self.tbyte(b as int) == mid.tbyte(b as int));
                    assert forall|j: int|
                        0 <= j < pre.table_byte_span() && j != b && j != b + 1 implies
                        self.tbyte(j) == pre.tbyte(j) by {}
                    lemma_fat12_frame(&pre, self, c as int);
                    assert(self.raw_entry(c as int) == val) by {
                        reveal(Fs::raw_entry);
                    }
                    lemma_value_round_trip(FatType::Fat12, value);
                }
                Ok(())
            },
        }
    }
}

/// With every table byte outside one FAT32/FAT16 entry unchanged, every
/// other entry decodes as before.
proof fn lemma_set_frame<D: BlockDeviceIo>(pre: &Fs<D>, post: &Fs<D>, c: int)
    requires
        pre.wf(),
        cfg_eq(pre, post),
        0 <= c < pre.table_clusters_count,
        pre.fat_type == FatType::Fat32 || pre.fat_type == FatType::Fat16,
        forall|j: int|
            0 <= j < pre.table_byte_span() && !(pre.entry_base(c) <= j < pre.entry_base(c)
                + entry_width_of(pre.fat_type)) ==> post.tbyte(j) == pre.tbyte(j),
    ensures
        forall|c2: int|
            0 <= c2 < pre.table_clusters_count && c2 != c ==> post.entry(c2) == pre.entry(c2),
{
    assert forall|c2: int|
        0 <= c2 < pre.table_clusters_count && c2 != c implies post.entry(c2) == pre.entry(
        c2,
    ) by {
        lemma_entry_bytes_in_span(pre, c2);
        lemma_entry_bytes_in_span(pre, c);
        assert forall|j: int|
            pre.entry_base(c2) <= j < pre.entry_base(c2) + entry_width_of(pre.fat_type)
                implies post.tbyte(j) == pre.tbyte(j) by {
        }
        lemma_entry_same_bytes(pre, post, c2);
    }
}

/// With the two bytes of one FAT12 entry rewritten so that the shared
/// nibble keeps its value, and every other table byte unchanged, every
/// other entry decodes as before.
proof fn lemma_fat12_frame<D: BlockDeviceIo>(pre: &Fs<D>, post: &Fs<D>, c: int)
    requires
        pre.wf(),
        cfg_eq(pre, post),
        0 <= c < pre.table_clusters_count,
        pre.fat_type == FatType::Fat12,
        forall|j: int|
            0 <= j < pre.table_byte_span() && j != pre.entry_base(c) && j != pre.entry_base(c)
                + 1 ==> post.tbyte(j) == pre.tbyte(j),
        c % 2 == 0 ==> (post.tbyte(pre.entry_base(c) + 1) as int) / 16 == (pre.tbyte(
            pre.entry_base(c) + 1,
        ) as int) / 16,
        c % 2 != 0 ==> (post.tbyte(pre.entry_base(c)) as int) % 16 == (pre.tbyte(
            pre.entry_base(c),
        ) as int) % 16,
    ensures
        forall|c2: int|
            0 <= c2 < pre.table_clusters_count && c2 != c ==> post.entry(c2) == pre.entry(c2),
{
    let b = pre.entry_base(c);
    lemma_entry_bytes_in_span(pre, c);
    assert forall|c2: int|
        0 <= c2 < pre.table_clusters_count && c2 != c implies post.entry(c2) == pre.entry(
        c2,
    ) by {
        reveal(Fs::raw_entry);
        let b2 = pre.entry_base(c2);
        lemma_entry_bytes_in_span(pre, c2);
        lemma_fundamental_div_mod(c, 2);
        lemma_fundamental_div_mod(c2, 2);
        if c2 >= c + 2 {
            lemma_div2_shift(c);
            lemma_div_is_ordered(c + 2, c2, 2);
            assert(b2 >= b + 3);
            lemma_entry_same_bytes(pre, post, c2);
        } else if c2 <= c - 2 {
            lemma_div2_shift(c2);
            lemma_div_is_ordered(c2 + 2, c, 2);
            assert(b2 + 1 <= b - 2);
            lemma_entry_same_bytes(pre, post, c2);
        } else if c2 == c + 1 && c % 2 == 0 {
            // The odd neighbour reads the high nibble of the shared byte.
            lemma_div2_shift(c);
            assert(b2 == b + 1);
            let o = pre.tbyte(b + 1) as int;
            let n = post.tbyte(b + 1) as int;
            let t = pre.tbyte(b + 2) as int;
            assert(post.tbyte(b + 2) == pre.tbyte(b + 2));
            lemma_fundamental_div_mod(o, 16);
            lemma_fundamental_div_mod(n, 16);
            lemma_fundamental_div_mod_converse(o + 0x100 * t, 16, o / 16 + 16 * t, o % 16);
            lemma_fundamental_div_mod_converse(n + 0x100 * t, 16, n / 16 + 16 * t, n % 16);
            assert(post.raw_entry(c2) == pre.raw_entry(c2));
        } else if c2 == c + 1 {
            // c odd: the even neighbour's bytes end just before this entry.
            lemma_div2_shift(c);
            assert(b2 == b + 2);
            lemma_entry_same_bytes(pre, post, c2);
        } else if c2 == c - 1 && c % 2 != 0 {
            // The even neighbour reads the low nibble of the shared byte.
            lemma_div2_shift(c - 1);
            assert(b2 == b - 1);
            let o = pre.tbyte(b) as int;
            let n = post.tbyte(b) as int;
            let t = pre.tbyte(b - 1) as int;
            assert(post.tbyte(b - 1) == pre.tbyte(b - 1));
            lemma_fundamental_div_mod(o, 16);
            lemma_fundamental_div_mod(n, 16);
            lemma_fundamental_div_mod_converse(
                t + 0x100 * o,
                0x1000,
                o / 16,
                t + 0x100 * (o % 16),
            );
            lemma_fundamental_div_mod_converse(
                t + 0x100 * n,
                0x1000,
                n / 16,
                t + 0x100 * (n % 16),
            );
            assert(post.raw_entry(c2) == pre.raw_entry(c2));
        } else {
            // c even, c2 == c - 1: its bytes end two before this entry.
            assert(c2 == c - 1 && c % 2 == 0);
            lemma_div2_shift(c - 2);
            assert(b2 + 1 == b - 1);
            lemma_entry_same_bytes(pre, post, c2);
        }
    }
}


impl<D: BlockDeviceIo> Fs<D> {
    /// Following `n` links from `c` stays on `Next` entries inside the table.
    pub open spec fn skip_ok(&self, c: int, n: int) -> bool
        decreases n,
    {
        &&& 0 <= c < self.table_clusters_count
        &&& (n > 0 ==> match self.entry(c) {
            ClusterValue::Next(x) => self.skip_ok(x as int, n - 1),
            _ => false,
        })
    }

    /// The cluster reached after following `n` links from `c`.
    pub open spec fn skip_to(&self, c: int, n: int) -> int
        decreases n,
    {
        if n <= 0 {
            c
        } else {
            match self.entry(c) {
                ClusterValue::Next(x) => self.skip_to(x as int, n - 1),
                _ => -1,
            }
        }
    }

    /// A well-formed chain: `n` links from `c` end on a `Last` entry, so the
    /// chain consists of `n + 1` clusters.
    pub open spec fn chain_ok(&self, c: int, n: int) -> bool {
        n >= 0 && self.skip_ok(c, n) && self.entry(self.skip_to(c, n)) is Last
    }

    /// No cluster appears twice among the first `n + 1` chain positions.
    pub open spec fn chain_distinct(&self, c: int, n: int) -> bool {
        forall|i: int, j: int|
            0 <= i < j <= n ==> #[trigger] self.skip_to(c, i) != #[trigger] self.skip_to(c, j)
    }
}

pub proof fn lemma_skip_prefix<D: BlockDeviceIo>(fs: &Fs<D>, c: int, m: int, n: int)
    requires
        fs.skip_ok(c, n),
        0 <= m <= n,
    ensures
        fs.skip_ok(c, m),
    decreases m,
{
    if m > 0 {
        match fs.entry(c) {
            ClusterValue::Next(x) => {
                lemma_skip_prefix(fs, x as int, m - 1, n - 1);
            },
            _ => {},
        }
    }
}

/// Every position strictly before the end of a valid walk holds a link.
pub proof fn lemma_skip_entries<D: BlockDeviceIo>(fs: &Fs<D>, c: int, n: int, i: int)
    requires
        fs.skip_ok(c, n),
        0 <= i < n,
    ensures
        fs.entry(fs.skip_to(c, i)) is Next,
        0 <= fs.skip_to(c, i) < fs.table_clusters_count,
    decreases i,
{
    if i > 0 {
        match fs.entry(c) {
            ClusterValue::Next(x) => {
                lemma_skip_entries(fs, x as int, n - 1, i - 1);
            },
            _ => {},
        }
    }
}

/// The landing cluster of a valid walk lies inside the table.
pub proof fn lemma_skip_in_range<D: BlockDeviceIo>(fs: &Fs<D>, c: int, n: int)
    requires
        0 <= n,
        fs.skip_ok(c, n),
    ensures
        0 <= fs.skip_to(c, n) < fs.table_clusters_count,
    decreases n,
{
    if n > 0 {
        match fs.entry(c) {
            ClusterValue::Next(x) => {
                lemma_skip_in_range(fs, x as int, n - 1);
            },
            _ => {},
        }
    }
}

/// Extending a valid walk by the link at its end.
pub proof fn lemma_skip_snoc<D: BlockDeviceIo>(fs: &Fs<D>, c: int, n: int, x: u32)
    requires
        n >= 0,
        fs.skip_ok(c, n),
        fs.entry(fs.skip_to(c, n)) == ClusterValue::Next(x),
        x < fs.table_clusters_count,
    ensures
        fs.skip_ok(c, n + 1),
        fs.skip_to(c, n + 1) == x as int,
    decreases n,
{
    reveal_with_fuel(Fs::skip_ok, 3);
    reveal_with_fuel(Fs::skip_to, 3);
    if n > 0 {
        match fs.entry(c) {
            ClusterValue::Next(y) => {
                lemma_skip_snoc(fs, y as int, n - 1, x);
            },
            _ => {},
        }
    }
}

/// Splitting a walk: after `m` of `m + k` links one stands at the start of
/// the remaining `k`.
pub proof fn lemma_skip_split<D: BlockDeviceIo>(fs: &Fs<D>, c: int, m: int, k: int)
    requires
        0 <= m,
        0 <= k,
        fs.skip_ok(c, m + k),
    ensures
        fs.skip_ok(c, m),
        fs.skip_ok(fs.skip_to(c, m), k),
        fs.skip_to(fs.skip_to(c, m), k) == fs.skip_to(c, m + k),
    decreases m,
{
    lemma_skip_prefix(fs, c, m, m + k);
    if m > 0 {
        match fs.entry(c) {
            ClusterValue::Next(x) => {
                lemma_skip_split(fs, x as int, m - 1, k);
            },
            _ => {},
        }
    }
}

/// Composing two walks.
pub proof fn lemma_skip_transitive<D: BlockDeviceIo>(fs: &Fs<D>, c: int, m: int, k: int)
    requires
        0 <= m,
        0 <= k,
        fs.skip_ok(c, m),
        fs.skip_ok(fs.skip_to(c, m), k),
    ensures
        fs.skip_ok(c, m + k),
        fs.skip_to(c, m + k) == fs.skip_to(fs.skip_to(c, m), k),
    decreases m,
{
    if m > 0 {
        match fs.entry(c) {
            ClusterValue::Next(x) => {
                lemma_skip_transitive(fs, x as int, m - 1, k);
            },
            _ => {},
        }
    }
}

/// A walk is insensitive to table changes outside the clusters it visits.
pub proof fn lemma_skip_frame<D: BlockDeviceIo>(pre: &Fs<D>, post: &Fs<D>, c: int, n: int)
    requires
        0 <= n,
        cfg_eq(pre, post),
        pre.skip_ok(c, n),
        forall|i: int|
            0 <= i < n ==> post.entry(#[trigger] pre.skip_to(c, i)) == pre.entry(
                pre.skip_to(c, i),
            ),
    ensures
        post.skip_ok(c, n),
        forall|i: int| 0 <= i <= n ==> #[trigger] post.skip_to(c, i) == pre.skip_to(c, i),
    decreases n,
{
    if n > 0 {
        assert(pre.skip_to(c, 0) == c);
        match pre.entry(c) {
            ClusterValue::Next(x) => {
                assert(post.entry(c) == pre.entry(c));
                assert forall|i: int|
                    0 <= i < n - 1 implies post.entry(#[trigger] pre.skip_to(x as int, i))
                    == pre.entry(pre.skip_to(x as int, i)) by {
                    assert(pre.skip_to(c, i + 1) == pre.skip_to(x as int, i));
                }
                lemma_skip_frame(pre, post, x as int, n - 1);
                assert forall|i: int|
                    0 <= i <= n implies #[trigger] post.skip_to(c, i) == pre.skip_to(c, i) by {
                    if i > 0 {
                        assert(post.skip_to(x as int, i - 1) == pre.skip_to(x as int, i - 1));
                    }
                }
            },
            _ => {},
        }
    }
}

proof fn lemma_links_walk<D: BlockDeviceIo>(fs: &Fs<D>, cs: Seq<u32>, i: int)
    requires
        cs.len() >= 1,
        0 <= i < cs.len(),
        forall|k: int| 0 <= k < cs.len() ==> (#[trigger] cs[k]) < fs.table_clusters_count,
        forall|k: int|
            0 <= k < cs.len() - 1 ==> fs.entry(#[trigger] cs[k] as int) == ClusterValue::Next(
                cs[k + 1],
            ),
    ensures
        fs.skip_ok(cs[0] as int, i),
        fs.skip_to(cs[0] as int, i) == cs[i] as int,
    decreases i,
{
    if i > 0 {
        lemma_links_walk(fs, cs, i - 1);
        assert(fs.entry(cs[i - 1] as int) == ClusterValue::Next(cs[i]));
        lemma_skip_snoc(fs, cs[0] as int, i - 1, cs[i]);
    }
}

/// A run of clusters linked in order, ending on `Last`, is a valid chain
/// whose walk visits exactly those clusters.
#[verifier::rlimit(60)]
pub proof fn lemma_links_chain<D: BlockDeviceIo>(fs: &Fs<D>, cs: Seq<u32>)
    requires
        cs.len() >= 1,
        forall|i: int| 0 <= i < cs.len() ==> (#[trigger] cs[i]) < fs.table_clusters_count,
        forall|i: int|
            0 <= i < cs.len() - 1 ==> fs.entry(#[trigger] cs[i] as int) == ClusterValue::Next(
                cs[i + 1],
            ),
        fs.entry(cs[cs.len() - 1] as int) is Last,
    ensures
        forall|i: int| 0 <= i < cs.len() ==> #[trigger] fs.skip_ok(cs[0] as int, i),
        forall|i: int|
            0 <= i < cs.len() ==> #[trigger] fs.skip_to(cs[0] as int, i) == cs[i] as int,
        fs.chain_ok(cs[0] as int, cs.len() - 1),
{
    assert forall|i: int| 0 <= i < cs.len() implies #[trigger] fs.skip_ok(
        cs[0] as int,
        i,
    ) by {
        lemma_links_walk(fs, cs, i);
    }
    assert forall|i: int|
        0 <= i < cs.len() implies #[trigger] fs.skip_to(cs[0] as int, i) == cs[i] as int by {
        lemma_links_walk(fs, cs, i);
    }
    lemma_links_walk(fs, cs, cs.len() - 1);
}

/// A chain's length is determined by its first cluster.
pub proof fn lemma_chain_len_unique<D: BlockDeviceIo>(fs: &Fs<D>, c: int, n: int, m: int)
    requires
        fs.chain_ok(c, n),
        fs.chain_ok(c, m),
    ensures
        n == m,
{
    if n < m {
        lemma_skip_entries(fs, c, m, n);
    } else if m < n {
        lemma_skip_entries(fs, c, n, m);
    }
}

/// Law: the positions of a well-formed chain are pairwise distinct -- a
/// repeat would make the walk periodic and the terminal `Last` entry would
/// already appear at an earlier position, where a link is required.
pub proof fn lemma_chain_positions_distinct<D: BlockDeviceIo>(
    fs: &Fs<D>,
    c: int,
    n: int,
    i: int,
    j: int,
)
    requires
        fs.chain_ok(c, n),
        0 <= i < j <= n,
    ensures
        fs.skip_to(c, i) != fs.skip_to(c, j),
{
    if fs.skip_to(c, i) == fs.skip_to(c, j) {
        lemma_skip_split(fs, c, j, n - j);
        lemma_skip_prefix(fs, c, i, n);
        lemma_skip_transitive(fs, c, i, n - j);
        lemma_skip_entries(fs, c, n, i + n - j);
        assert(false);
    }
}

/// A well-formed chain visits distinct clusters, so it can never be longer
/// than the table itself.
pub proof fn lemma_chain_len_bound<D: BlockDeviceIo>(fs: &Fs<D>, c: int, n: int)
    requires
        0 <= n,
        fs.chain_ok(c, n),
    ensures
        n < fs.table_clusters_count,
{
    if n < fs.table_clusters_count {
        return ;
    }
    let cnt = fs.table_clusters_count as int;
    let ps = Seq::new((cnt + 1) as nat, |i: int| fs.skip_to(c, i));
    assert(ps.no_duplicates()) by {
        assert forall|i: int, j: int|
            0 <= i < ps.len() && 0 <= j < ps.len() && i != j implies ps[i] != ps[j] by {
            if i < j {
                lemma_chain_positions_distinct(fs, c, n, i, j);
            } else {
                lemma_chain_positions_distinct(fs, c, n, j, i);
            }
        }
    }
    ps.unique_seq_to_set();
    assert(ps.to_set().subset_of(set_int_range(0, cnt))) by {
        assert forall|x: int| ps.to_set().contains(x) implies set_int_range(0, cnt).contains(
            x,
        ) by {
            let i = choose|i: int| 0 <= i < ps.len() && ps[i] == x;
            lemma_skip_prefix(fs, c, i, n);
            lemma_skip_in_range(fs, c, i);
        }
    }
    lemma_int_range(0, cnt);
    lemma_len_subset(ps.to_set(), set_int_range(0, cnt));
    assert(false);
}

/// The clusters whose table entry currently decodes to `Free`: the pool an
/// allocation can draw from.
pub open spec fn free_clusters<D: BlockDeviceIo>(fs: &Fs<D>) -> Set<int> {
    Set::new(|c: int| 0 <= c < fs.table_clusters_count && fs.entry(c) is Free)
}

/// Relation between the table before and after a successful chain creation:
/// `cs` lists the freshly allocated clusters in ascending order.
pub open spec fn chain_created<D: BlockDeviceIo>(pre: &Fs<D>, post: &Fs<D>, cs: Seq<u32>) -> bool {
    &&& cfg_eq(pre, post)
    &&& cs.len() >= 1
    &&& forall|i: int| 0 <= i < cs.len() ==> (#[trigger] cs[i]) < pre.table_clusters_count
    &&& forall|i: int, j: int| 0 <= i < j < cs.len() ==> cs[i] < cs[j]
    &&& forall|i: int| 0 <= i < cs.len() ==> pre.entry(#[trigger] cs[i] as int) is Free
    // Minimality: with the ascending order above, this says the allocation
    // took exactly the smallest free clusters.
    &&& forall|j: int|
        0 <= j < cs[cs.len() - 1] && !cs.contains(j as u32) ==> !((#[trigger] pre.entry(
            j,
        )) is Free)
    &&& forall|i: int|
        0 <= i < cs.len() - 1 ==> post.entry(#[trigger] cs[i] as int) == ClusterValue::Next(
            cs[i + 1],
        )
    &&& post.entry(cs[cs.len() - 1] as int) is Last
    &&& forall|c2: u32|
        c2 < pre.table_clusters_count && !cs.contains(c2) ==> (#[trigger] post.entry(c2 as int))
            == pre.entry(c2 as int)
}

/// Relation after a successful chain extension at terminal cluster
/// `cluster`.
pub open spec fn chain_extended<D: BlockDeviceIo>(
    pre: &Fs<D>,
    post: &Fs<D>,
    cluster: int,
    cs: Seq<u32>,
) -> bool {
    &&& cfg_eq(pre, post)
    &&& cs.len() >= 1
    &&& forall|i: int| 0 <= i < cs.len() ==> 1 <= (#[trigger] cs[i]) < pre.table_clusters_count
    &&& forall|i: int, j: int| 0 <= i < j < cs.len() ==> cs[i] < cs[j]
    &&& forall|i: int| 0 <= i < cs.len() ==> pre.entry(#[trigger] cs[i] as int) is Free
    &&& forall|j: int|
        0 <= j < cs[cs.len() - 1] && !cs.contains(j as u32) ==> !((#[trigger] pre.entry(
            j,
        )) is Free)
    &&& !cs.contains(cluster as u32)
    &&& post.entry(cluster) == ClusterValue::Next(cs[0])
    &&& forall|i: int|
        0 <= i < cs.len() - 1 ==> post.entry(#[trigger] cs[i] as int) == ClusterValue::Next(
            cs[i + 1],
        )
    &&& post.entry(cs[cs.len() - 1] as int) is Last
    &&& forall|c2: u32|
        c2 < pre.table_clusters_count && !cs.contains(c2) && c2 != cluster ==> (
        #[trigger] post.entry(c2 as int)) == pre.entry(c2 as int)
}

/// Relation after a successful chain deletion starting at `c`: the chain had
/// `n + 1` clusters and exactly those are now free.
pub open spec fn chain_deleted<D: BlockDeviceIo>(pre: &Fs<D>, post: &Fs<D>, c: int, n: int) -> bool {
    &&& cfg_eq(pre, post)
    &&& pre.chain_ok(c, n)
    &&& forall|i: int| 0 <= i <= n ==> post.entry(#[trigger] pre.skip_to(c, i)) is Free
    &&& forall|c2: int|
        0 <= c2 < pre.table_clusters_count && !(exists|i: int|
            0 <= i <= n && #[trigger] pre.skip_to(c, i) == c2) ==> post.entry(c2) == pre.entry(
            c2,
        )
}

/// Relation after a successful chain resize to `count` clusters, stated
/// against any well-formed duplicate-free reading of the original chain as
/// `n + 1` clusters. The surviving prefix consists of the same clusters in
/// the same order; a shrink frees exactly the removed tail and touches no
/// other entry; an exact fit changes no entry at all; a growth appends
/// exactly the missing fresh clusters after the old terminal.
pub open spec fn chain_resized<D: BlockDeviceIo>(
    pre: &Fs<D>,
    post: &Fs<D>,
    c: int,
    n: int,
    count: int,
) -> bool {
    &&& post.chain_ok(c, count - 1)
    &&& forall|i: int|
        0 <= i <= (if count - 1 <= n {
            count - 1
        } else {
            n
        }) ==> #[trigger] post.skip_to(c, i) == pre.skip_to(c, i)
    &&& (count <= n ==> (forall|i: int|
        count <= i <= n ==> post.entry(#[trigger] pre.skip_to(c, i)) is Free) && (forall|c2: int|
        0 <= c2 < pre.table_clusters_count && !(exists|i: int|
            0 <= i <= n && #[trigger] pre.skip_to(c, i) == c2) ==> post.entry(c2) == pre.entry(
            c2,
        )))
    &&& (count == n + 1 ==> forall|c2: int| #[trigger] post.entry(c2) == pre.entry(c2))
    &&& (count > n + 1 ==> exists|cs: Seq<u32>|
        chain_extended(pre, post, pre.skip_to(c, n), cs) && cs.len() == count - n - 1)
}

/// Law: chain conservation. Walking a freshly created chain of `k` clusters
/// visits exactly those `k` clusters and ends on a `Last` entry, and a
/// subsequent successful delete of that chain frees exactly those clusters,
/// leaving every other entry as it was before the creation.
#[verifier::rlimit(60)]
pub proof fn lemma_chain_conservation<D: BlockDeviceIo>(
    pre: Fs<D>,
    mid: Fs<D>,
    post: Fs<D>,
    cs: Seq<u32>,
    n: int,
)
    requires
        chain_created(&pre, &mid, cs),
        chain_deleted(&mid, &post, cs[0] as int, n),
    ensures
        n + 1 == cs.len(),
        forall|i: int|
            0 <= i < cs.len() ==> #[trigger] mid.skip_to(cs[0] as int, i) == cs[i] as int,
        mid.chain_ok(cs[0] as int, cs.len() - 1),
        forall|i: int| 0 <= i < cs.len() ==> post.entry(#[trigger] cs[i] as int) is Free,
        forall|c2: u32|
            c2 < pre.table_clusters_count && !cs.contains(c2) ==> (#[trigger] post.entry(
                c2 as int,
            )) == pre.entry(c2 as int),
{
    lemma_links_chain(&mid, cs);
    lemma_chain_len_unique(&mid, cs[0] as int, n, cs.len() - 1);
    assert forall|i: int| 0 <= i < cs.len() implies post.entry(
        #[trigger] cs[i] as int,
    ) is Free by {
        assert(mid.skip_to(cs[0] as int, i) == cs[i] as int);
    }
    assert forall|c2: u32|
        c2 < pre.table_clusters_count && !cs.contains(c2) implies (#[trigger] post.entry(
        c2 as int,
    )) == pre.entry(c2 as int) by {
        assert forall|i: int| 0 <= i <= n implies #[trigger] mid.skip_to(cs[0] as int, i) != (
        c2 as int) by {
            assert(mid.skip_to(cs[0] as int, i) == cs[i] as int);
            assert(cs[i] != c2);
        }
        assert(mid.entry(c2 as int) == pre.entry(c2 as int));
    }
}

impl<D: BlockDeviceIo> Fs<D> {
    /// Linear scan for the first free cluster at or after `start_cluster`.
    #[verifier::rlimit(60)]
    pub fn table_find_free(&mut self, start_cluster: u32) -> (r: Result<u32, FsErr>)
        requires
            old(self).wf(),
        ensures
            final(self).wf(),
            cfg_eq(old(self), final(self)),
            final(self).blocks() == old(self).blocks(),
            forall|c2: int| #[trigger] final(self).entry(c2) == old(self).entry(c2),
            r matches Ok(cc) ==> start_cluster <= cc < final(self).table_clusters_count
                && final(self).entry(cc as int) is Free && (forall|j: int|
                start_cluster <= j < cc ==> !(final(self).entry(j) is Free)),
            r == Err::<u32, FsErr>(FsErr::NoFreeCluster) ==> forall|j: int|
                start_cluster <= j < final(self).table_clusters_count ==> !(final(
                self).entry(j) is Free),
            r is Err ==> (r->Err_0 == FsErr::NoFreeCluster || r->Err_0 == FsErr::ReadError
                || r->Err_0 == FsErr::WriteError),
    {
        broadcast use lemma_raw_entry_congruence;

        let ghost pre = *self;
        let mut cluster = start_cluster;
        while cluster < self.table_clusters_count
            invariant
                pre == *old(self),
                self.wf(),
                cfg_eq(&pre, self),
                self.blocks() == pre.blocks(),
                start_cluster <= cluster,
                forall|c2: int| #[trigger] self.entry(c2) == pre.entry(c2),
                forall|j: int| start_cluster <= j < cluster ==> !(pre.entry(j) is Free),
            decreases self.table_clusters_count - cluster,
        {
            match self.table_get(cluster) {
                Ok(ClusterValue::Free) => {
                    return Ok(cluster);
                },
                Ok(_) => {},
                Err(e) => {
                    return Err(e);
                },
            }
            cluster = cluster + 1;
        }
        Err(FsErr::NoFreeCluster)
    }

    /// Follows `count` links from `cluster`; fails with a table error on any
    /// sentinel or out-of-range link met on the way.
    #[verifier::rlimit(60)]
    pub fn table_chain_skip(&mut self, cluster: u32, count: u32) -> (r: Result<u32, FsErr>)
        requires
            old(self).wf(),
            cluster < old(self).table_clusters_count,
        ensures
            final(self).wf(),
            cfg_eq(old(self), final(self)),
            final(self).blocks() == old(self).blocks(),
            forall|c2: int| #[trigger] final(self).entry(c2) == old(self).entry(c2),
            r matches Ok(c2) ==> old(self).skip_ok(cluster as int, count as int) && c2 as int
                == old(self).skip_to(cluster as int, count as int),
            r == Err::<u32, FsErr>(FsErr::FatTableError) ==> !old(self).skip_ok(
                cluster as int,
                count as int,
            ),
            count == 0 ==> r == Ok::<u32, FsErr>(cluster),
            r is Err ==> (r->Err_0 == FsErr::FatTableError || r->Err_0 == FsErr::ReadError
                || r->Err_0 == FsErr::WriteError),
    {
        broadcast use lemma_raw_entry_congruence;

        let ghost pre = *self;
        let mut cur = cluster;
        let mut i: u32 = 0;
        while i < count
            invariant
                pre == *old(self),
                self.wf(),
                cfg_eq(&pre, self),
                self.blocks() == pre.blocks(),
                i <= count,
                cur < self.table_clusters_count,
                forall|c2: int| #[trigger] self.entry(c2) == pre.entry(c2),
                pre.skip_ok(cluster as int, i as int),
                cur as int == pre.skip_to(cluster as int, i as int),
            decreases count - i,
        {
            match self.table_get(cur) {
                Ok(ClusterValue::Next(nx)) => {
                    if nx >= self.table_clusters_count {
                        proof {
                            if pre.skip_ok(cluster as int, count as int) {
                                lemma_skip_prefix(&pre, cluster as int, i + 1, count as int);
                                lemma_skip_split(&pre, cluster as int, i as int, 1);
                                assert(pre.skip_ok(cur as int, 1));
                                assert(!pre.skip_ok(nx as int, 0));
                                assert(false);
                            }
                        }
                        return Err(FsErr::FatTableError);
                    }
                    proof {
                        lemma_skip_snoc(&pre, cluster as int, i as int, nx);
                    }
                    cur = nx;
                },
                Ok(_) => {
                    proof {
                        if pre.skip_ok(cluster as int, count as int) {
                            lemma_skip_prefix(&pre, cluster as int, i + 1, count as int);
                            lemma_skip_split(&pre, cluster as int, i as int, 1);
                            assert(pre.skip_ok(cur as int, 1));
                            assert(!(pre.entry(cur as int) is Next));
                            assert(false);
                        }
                    }
                    return Err(FsErr::FatTableError);
                },
                Err(e) => {
                    return Err(e);
                },
            }
            i = i + 1;
        }
        Ok(cur)
    }

    /// Frees every cluster of the chain starting at `cluster`, walking its
    /// links until the terminal entry.
    #[verifier::rlimit(100)]
    pub fn table_chain_delete(&mut self, cluster: u32) -> (r: Result<(), FsErr>)
        requires
            old(self).wf(),
            cluster < old(self).table_clusters_count,
        ensures
            final(self).wf(),
            cfg_eq(old(self), final(self)),
            table_only_changed(old(self), final(self)),
            r is Ok ==> exists|n: int|
                0 <= n && chain_deleted(old(self), final(self), cluster as int, n),
            r == Err::<(), FsErr>(FsErr::FatTableError) ==> forall|n: int|
                !(0 <= n && old(self).chain_ok(cluster as int, n)),
            r is Err ==> (r->Err_0 == FsErr::FatTableError || r->Err_0 == FsErr::ReadError
                || r->Err_0 == FsErr::WriteError),
    {
        broadcast use lemma_raw_entry_congruence;

        let ghost pre = *self;
        let mut cur = cluster;
        let mut i: u32 = 0;
        let ghost mut vs: Seq<u32> = Seq::empty();
        while i < self.table_clusters_count
            invariant
                pre == *old(self),
                self.wf(),
                cfg_eq(&pre, self),
                table_only_changed(&pre, self),
                i <= self.table_clusters_count,
                vs.len() == i,
                cur < self.table_clusters_count,
                cluster < self.table_clusters_count,
                pre.skip_ok(cluster as int, vs.len() as int),
                cur as int == pre.skip_to(cluster as int, vs.len() as int),
                forall|k: int|
                    0 <= k < vs.len() ==> (#[trigger] vs[k]) as int == pre.skip_to(
                        cluster as int,
                        k,
                    ),
                forall|c2: int|
                    0 <= c2 < self.table_clusters_count && !vs.contains(c2 as u32) ==> (
                    #[trigger] self.entry(c2)) == pre.entry(c2),
                forall|k: int|
                    0 <= k < vs.len() ==> self.entry(#[trigger] vs[k] as int) is Free,
            decreases self.table_clusters_count - i,
        {
            let ghost prev = *self;
            let value = match self.table_get(cur) {
                Ok(v) => v,
                Err(e) => {
                    return Err(e);
                },
            };
            let ghost mid = *self;
            match self.table_set(cur, ClusterValue::Free) {
                Ok(()) => {},
                Err(e) => {
                    return Err(e);
                },
            }
            proof {
                assert forall|c2: int|
                    0 <= c2 < self.table_clusters_count && c2 != cur as int implies (
                    #[trigger] self.entry(c2)) == prev.entry(c2) by {
                    assert(mid.entry(c2) == prev.entry(c2));
                }
                assert(self.entry(cur as int) is Free);
                assert(value == prev.entry(cur as int));
            }
            match value {
                ClusterValue::Next(nx) => {
                    if nx >= self.table_clusters_count {
                        proof {
                            assert(!vs.contains(cur));
                            let big = self.table_clusters_count as int;
                            assert forall|n: int|
                                !(0 <= n && pre.chain_ok(cluster as int, n)) by {
                                if 0 <= n && pre.chain_ok(cluster as int, n) {
                                    let ll = vs.len() as int;
                                    if n < ll {
                                        lemma_skip_entries(&pre, cluster as int, ll, n);
                                    } else if n == ll {
                                        assert(pre.entry(pre.skip_to(cluster as int, ll))
                                            is Next);
                                    } else {
                                        lemma_skip_prefix(&pre, cluster as int, ll + 1, n);
                                        lemma_skip_split(&pre, cluster as int, ll, 1);
                                        assert(pre.skip_ok(cur as int, 1));
                                        assert(!pre.skip_ok(nx as int, 0));
                                        assert(false);
                                    }
                                }
                            }
                        }
                        return Err(FsErr::FatTableError);
                    }
                    proof {
                        // A revisited cluster would already read as free.
                        assert(!vs.contains(cur));
                        lemma_skip_snoc(&pre, cluster as int, vs.len() as int, nx);
                        let vs2 = vs.push(cur);
                        assert forall|c2: int|
                            0 <= c2 < self.table_clusters_count && !vs2.contains(c2 as u32)
                            implies (#[trigger] self.entry(c2)) == pre.entry(c2) by {
                            lemma_push_contains(vs, cur, c2 as u32);
                            assert(!vs.contains(c2 as u32));
                            assert(c2 != cur as int);
                            assert(prev.entry(c2) == pre.entry(c2));
                        }
                        assert forall|k: int| 0 <= k < vs2.len() implies self.entry(
                            #[trigger] vs2[k] as int,
                        ) is Free by {
                            if k < vs.len() {
                                assert(vs2[k] == vs[k]);
                                if vs[k] == cur {
                                    assert(vs.contains(cur));
                                }
                                assert(vs[k] != cur);
                                lemma_skip_entries(&pre, cluster as int, vs.len() as int, k);
                                assert(0 <= (vs[k] as int) && (vs[k] as int) < self.table_clusters_count);
                                assert(prev.entry(vs[k] as int) is Free);
                                assert(self.entry(vs[k] as int) == prev.entry(vs[k] as int));
                            } else {
                                assert(vs2[k] == cur);
                            }
                        }
                        vs = vs2;
                    }
                    cur = nx;
                },
                ClusterValue::Last => {
                    proof {
                        assert(!vs.contains(cur));
                        let n = vs.len() as int;
                        assert(pre.chain_ok(cluster as int, n));
                        assert forall|k: int| 0 <= k <= n implies self.entry(
                            #[trigger] pre.skip_to(cluster as int, k),
                        ) is Free by {
                            if k < n {
                                assert(pre.skip_to(cluster as int, k) == vs[k] as int);
                                if vs[k] == cur {
                                    assert(vs.contains(cur));
                                }
                                assert(vs[k] != cur);
                                lemma_skip_entries(&pre, cluster as int, vs.len() as int, k);
                                assert(0 <= (vs[k] as int) && (vs[k] as int) < self.table_clusters_count);
                                assert(prev.entry(vs[k] as int) is Free);
                                assert(self.entry(vs[k] as int) == prev.entry(vs[k] as int));
                            }
                        }
                        assert forall|c2: int|
                            0 <= c2 < pre.table_clusters_count && !(exists|k: int|
                                0 <= k <= n && #[trigger] pre.skip_to(cluster as int, k) == c2)
                            implies self.entry(c2) == pre.entry(c2) by {
                            assert(!vs.contains(c2 as u32)) by {
                                if vs.contains(c2 as u32) {
                                    let k = choose|k: int|
                                        0 <= k < vs.len() && vs[k] == c2 as u32;
                                    assert(pre.skip_to(cluster as int, k) == c2);
                                }
                            }
                            assert(c2 != cur as int);
                            assert(prev.entry(c2) == pre.entry(c2));
                            assert(self.entry(c2) == prev.entry(c2));
                        }
                        assert(chain_deleted(&pre, self, cluster as int, n));
                    }
                    return Ok(());
                },
                _ => {
                    proof {
                        let ll = vs.len() as int;
                        assert forall|n: int|
                            !(0 <= n && pre.chain_ok(cluster as int, n)) by {
                            if 0 <= n && pre.chain_ok(cluster as int, n) {
                                if vs.contains(cur) {
                                    let j = choose|j: int|
                                        0 <= j < vs.len() && vs[j] == cur;
                                    if n < ll {
                                        lemma_skip_entries(&pre, cluster as int, ll, n);
                                    } else {
                                        lemma_chain_positions_distinct(
                                            &pre,
                                            cluster as int,
                                            n,
                                            j,
                                            ll,
                                        );
                                    }
                                } else {
                                    assert(value == pre.entry(cur as int));
                                    if n < ll {
                                        lemma_skip_entries(&pre, cluster as int, ll, n);
                                    } else if n == ll {
                                        assert(pre.entry(pre.skip_to(cluster as int, ll))
                                            is Last);
                                    } else {
                                        lemma_skip_prefix(&pre, cluster as int, ll + 1, n);
                                        lemma_skip_split(&pre, cluster as int, ll, 1);
                                        assert(pre.skip_ok(cur as int, 1));
                                        assert(!(pre.entry(cur as int) is Next));
                                        assert(false);
                                    }
                                }
                            }
                        }
                    }
                    return Err(FsErr::FatTableError);
                },
            }
            i = i + 1;
        }
        proof {
            let cnt = pre.table_clusters_count as int;
            assert forall|n: int| !(0 <= n && pre.chain_ok(cluster as int, n)) by {
                if 0 <= n && pre.chain_ok(cluster as int, n) {
                    if n < cnt {
                        lemma_skip_entries(&pre, cluster as int, cnt, n);
                    } else {
                        lemma_chain_len_bound(&pre, cluster as int, n);
                    }
                }
            }
        }
        Err(FsErr::FatTableError)
    }

    /// Allocates a chain of `count` clusters: repeated first-free search,
    /// each search starting just past the previous cluster, links them in
    /// order and marks the final one `Last`. Returns the first cluster.
    #[verifier::rlimit(100)]
    pub fn table_chain_create(&mut self, count: u32) -> (r: Result<u32, FsErr>)
        requires
            old(self).wf(),
        ensures
            final(self).wf(),
            cfg_eq(old(self), final(self)),
            table_only_changed(old(self), final(self)),
            (r == Err::<u32, FsErr>(FsErr::BadCount)) <==> count == 0,
            r matches Ok(first) ==> exists|cs: Seq<u32>|
                chain_created(old(self), final(self), cs) && cs.len() == count && cs[0] == first,
            r == Err::<u32, FsErr>(FsErr::NoFreeCluster) ==> free_clusters(old(self)).finite()
                && free_clusters(old(self)).len() < count,
            r is Err ==> (forall|c2: int|
                0 <= c2 < old(self).table_clusters_count && !(old(self).entry(c2) is Free)
                    ==> (#[trigger] final(self).entry(c2)) == old(self).entry(c2)),
            r is Err ==> (r->Err_0 == FsErr::BadCount || r->Err_0 == FsErr::NoFreeCluster
                || r->Err_0 == FsErr::ReadError || r->Err_0 == FsErr::WriteError),
    {
        broadcast use lemma_raw_entry_congruence;

        if count == 0 {
            return Err(FsErr::BadCount);
        }
        let ghost pre = *self;
        let first = match self.table_find_free(0) {
            Ok(c) => c,
            Err(e) => {
                proof {
                    if e == FsErr::NoFreeCluster {
                        assert(free_clusters(&pre) =~= Set::<int>::empty()) by {
                            assert forall|c: int|
                                0 <= c < pre.table_clusters_count implies !(
                            #[trigger] pre.entry(c) is Free) by {
                                assert(self.entry(c) == pre.entry(c));
                            }
                        }
                    }
                }
                return Err(e);
            },
        };
        let mut cluster = first;
        let ghost mut cs: Seq<u32> = seq![first];
        proof {
            assert forall|j: int| 0 <= j < first implies !((#[trigger] pre.entry(j)) is Free) by {
                assert(!(self.entry(j) is Free));
            }
        }
        let mut k: u32 = 1;
        while k < count
            invariant
                pre == *old(self),
                self.wf(),
                cfg_eq(&pre, self),
                table_only_changed(&pre, self),
                1 <= k <= count,
                cs.len() == k,
                cs[0] == first,
                cluster == cs[k - 1],
                cluster < self.table_clusters_count,
                forall|i: int| 0 <= i < k ==> (#[trigger] cs[i]) < self.table_clusters_count,
                forall|i: int, j: int| 0 <= i < j < k ==> cs[i] < cs[j],
                forall|i: int| 0 <= i < k ==> pre.entry(#[trigger] cs[i] as int) is Free,
                forall|j: int|
                    0 <= j < cs[k - 1] && !cs.contains(j as u32) ==> !((#[trigger] pre.entry(
                        j,
                    )) is Free),
                forall|i: int|
                    0 <= i < k - 1 ==> self.entry(#[trigger] cs[i] as int)
                        == ClusterValue::Next(cs[i + 1]),
                self.entry(cluster as int) is Free,
                forall|c2: u32|
                    c2 < self.table_clusters_count && !cs.contains(c2) ==> (
                    #[trigger] self.entry(c2 as int)) == pre.entry(c2 as int),
            decreases count - k,
        {
            let ghost prev = *self;
            let next_cluster = match self.table_find_free(cluster + 1) {
                Ok(c) => c,
                Err(e) => {
                    proof {
                        if e == FsErr::NoFreeCluster {
                            broadcast use vstd::seq_lib::seq_to_set_is_finite;

                            // Every cluster free in the original table is one
                            // of the `k` already allocated: below the last one
                            // the search had passed them over, above it the
                            // failed search has just found none, and in that
                            // range the table still reads as it originally did.
                            let ps = Seq::new(k as nat, |i: int| cs[i] as int);
                            assert(ps.no_duplicates()) by {
                                assert forall|i: int, j: int|
                                    0 <= i < ps.len() && 0 <= j < ps.len() && i != j implies
                                    ps[i] != ps[j] by {
                                    if i < j {
                                        assert(cs[i] < cs[j]);
                                    } else {
                                        assert(cs[j] < cs[i]);
                                    }
                                }
                            }
                            ps.unique_seq_to_set();
                            assert(free_clusters(&pre).subset_of(ps.to_set())) by {
                                assert forall|c: int|
                                    free_clusters(&pre).contains(c) implies ps.to_set().contains(
                                    c,
                                ) by {
                                    assert(pre.entry(c) is Free);
                                    if cs.contains(c as u32) {
                                        let j = choose|j: int|
                                            0 <= j < cs.len() && cs[j] == c as u32;
                                        assert(ps[j] == c);
                                        assert(ps.to_set().contains(ps[j]));
                                    } else {
                                        assert(c != cluster as int) by {
                                            assert(cs[k - 1] == cluster);
                                            if c == cluster as int {
                                                assert(cs.contains(cs[k - 1]));
                                            }
                                        }
                                        if c < cluster as int {
                                            assert(!(pre.entry(c) is Free));
                                        } else {
                                            assert(prev.entry(c) == pre.entry(c));
                                            assert(!(self.entry(c) is Free));
                                            assert(self.entry(c) == prev.entry(c));
                                        }
                                        assert(false);
                                    }
                                }
                            }
                            lemma_len_subset(free_clusters(&pre), ps.to_set());
                        }
                        assert forall|c2: int|
                            0 <= c2 < pre.table_clusters_count && !(pre.entry(c2) is Free)
                            implies self.entry(c2) == pre.entry(c2) by {
                            assert(!cs.contains(c2 as u32)) by {
                                if cs.contains(c2 as u32) {
                                    let j = choose|j: int|
                                        0 <= j < cs.len() && cs[j] == c2 as u32;
                                    assert(pre.entry(cs[j] as int) is Free);
                                }
                            }
                            assert(prev.entry(c2) == pre.entry(c2));
                            assert(self.entry(c2) == prev.entry(c2));
                        }
                    }
                    return Err(e);
                },
            };
            let ghost mid = *self;
            proof {
                assert(!cs.contains(next_cluster)) by {
                    if cs.contains(next_cluster) {
                        let j = choose|j: int| 0 <= j < cs.len() && cs[j] == next_cluster;
                        assert(cs[j] <= cs[cs.len() - 1]);
                    }
                }
                // Nothing free lies between the previous cluster and this
                // one: the clusters of the gap were never touched, so the
                // search's verdict speaks of the original table.
                let cs2 = cs.push(next_cluster);
                assert forall|j: int|
                    0 <= j < cs2[cs2.len() - 1] && !cs2.contains(j as u32) implies !((
                    #[trigger] pre.entry(j)) is Free) by {
                    lemma_push_contains(cs, next_cluster, j as u32);
                    assert(!cs.contains(j as u32));
                    if j < cluster {
                        assert(j < cs[k - 1] || j == cs[k - 1]);
                        assert(j != cs[k - 1] as int);
                    } else if j > cluster {
                        assert(prev.entry(j) == pre.entry(j));
                        assert(!(mid.entry(j) is Free));
                    }
                }
            }
            match self.table_set(cluster, ClusterValue::Next(next_cluster)) {
                Ok(()) => {},
                Err(e) => {
                    proof {
                        assert forall|c2: int|
                            0 <= c2 < pre.table_clusters_count && !(pre.entry(c2) is Free)
                            implies self.entry(c2) == pre.entry(c2) by {
                            assert(!cs.contains(c2 as u32)) by {
                                if cs.contains(c2 as u32) {
                                    let j = choose|j: int|
                                        0 <= j < cs.len() && cs[j] == c2 as u32;
                                    assert(pre.entry(cs[j] as int) is Free);
                                }
                            }
                            assert(c2 != cluster as int) by {
                                if c2 == cluster as int {
                                    assert(cs.contains(cs[k - 1]));
                                }
                            }
                            assert(mid.entry(c2) == prev.entry(c2));
                            assert(prev.entry(c2) == pre.entry(c2));
                            assert(self.entry(c2) == mid.entry(c2));
                        }
                    }
                    return Err(e);
                },
            }
            proof {
                let cs2 = cs.push(next_cluster);
                assert forall|c2: int|
                    0 <= c2 < self.table_clusters_count && c2 != cluster as int implies (
                    #[trigger] self.entry(c2)) == prev.entry(c2) by {
                    assert(mid.entry(c2) == prev.entry(c2));
                }
                assert(self.entry(cluster as int) == ClusterValue::Next(next_cluster));
                assert(mid.entry(next_cluster as int) is Free);
                assert(self.entry(next_cluster as int) is Free);
                assert(prev.entry(next_cluster as int) is Free);
                assert(pre.entry(next_cluster as int) is Free) by {
                    assert(!cs.contains(next_cluster));
                    assert(prev.entry(next_cluster as int) == pre.entry(next_cluster as int));
                }
                assert forall|i: int|
                    0 <= i < cs2.len() - 1 implies (#[trigger] self.entry(cs2[i] as int))
                    == ClusterValue::Next(cs2[i + 1]) by {
                    if i < cs.len() - 1 {
                        assert(cs2[i] == cs[i]);
                        assert(cs[i] < cluster);
                        assert(prev.entry(cs[i] as int) == ClusterValue::Next(cs[i + 1]));
                    }
                }
                assert forall|c2: u32|
                    c2 < self.table_clusters_count && !cs2.contains(c2) implies (
                    #[trigger] self.entry(c2 as int)) == pre.entry(c2 as int) by {
                    lemma_push_contains(cs, next_cluster, c2);
                    assert(!cs.contains(c2));
                    assert(c2 != cluster);
                    assert(prev.entry(c2 as int) == pre.entry(c2 as int));
                }
                cs = cs2;
            }
            cluster = next_cluster;
            k = k + 1;
        }
        let ghost prev = *self;
        match self.table_set(cluster, ClusterValue::Last) {
            Ok(()) => {},
            Err(e) => {
                proof {
                    assert forall|c2: int|
                        0 <= c2 < pre.table_clusters_count && !(pre.entry(c2) is Free)
                        implies self.entry(c2) == pre.entry(c2) by {
                        assert(!cs.contains(c2 as u32)) by {
                            if cs.contains(c2 as u32) {
                                let j = choose|j: int|
                                    0 <= j < cs.len() && cs[j] == c2 as u32;
                                assert(pre.entry(cs[j] as int) is Free);
                            }
                        }
                        assert(c2 != cluster as int) by {
                            if c2 == cluster as int {
                                assert(cs.contains(cs[k - 1]));
                            }
                        }
                        assert(prev.entry(c2) == pre.entry(c2));
                        assert(self.entry(c2) == prev.entry(c2));
                    }
                }
                return Err(e);
            },
        }
        proof {
            assert forall|c2: int|
                0 <= c2 < self.table_clusters_count && c2 != cluster as int implies (
                #[trigger] self.entry(c2)) == prev.entry(c2) by {}
            assert(self.entry(cluster as int) is Last);
            assert forall|i: int|
                0 <= i < cs.len() - 1 implies (#[trigger] self.entry(cs[i] as int))
                == ClusterValue::Next(cs[i + 1]) by {
                assert(cs[i] < cs[cs.len() - 1]);
                assert(prev.entry(cs[i] as int) == ClusterValue::Next(cs[i + 1]));
            }
            assert forall|c2: u32|
                c2 < self.table_clusters_count && !cs.contains(c2) implies (
                #[trigger] self.entry(c2 as int)) == pre.entry(c2 as int) by {
                assert(c2 != cluster) by {
                    assert(cs[cs.len() - 1] == cluster);
                }
                assert(prev.entry(c2 as int) == pre.entry(c2 as int));
            }
            assert(chain_created(&pre, self, cs));
        }
        Ok(first)
    }

    /// Creates a fresh chain of `count` clusters and links it after
    /// `cluster`, which must currently be the chain's terminal entry.
    #[verifier::rlimit(60)]
    pub fn table_chain_extend(&mut self, cluster: u32, count: u32) -> (r: Result<u32, FsErr>)
        requires
            old(self).wf(),
            cluster < old(self).table_clusters_count,
            old(self).entry(cluster as int) is Last,
            !(old(self).entry(0) is Free),
        ensures
            final(self).wf(),
            cfg_eq(old(self), final(self)),
            table_only_changed(old(self), final(self)),
            (r == Err::<u32, FsErr>(FsErr::BadCount)) <==> count == 0,
            r matches Ok(first) ==> exists|cs: Seq<u32>|
                chain_extended(old(self), final(self), cluster as int, cs) && cs.len() == count
                    && cs[0] == first,
            r is Err ==> (forall|c2: int|
                0 <= c2 < old(self).table_clusters_count && !(old(self).entry(c2) is Free)
                    && c2 != cluster ==> (#[trigger] final(self).entry(c2)) == old(self).entry(
                    c2,
                )),
            r is Err ==> (r->Err_0 == FsErr::BadCount || r->Err_0 == FsErr::NoFreeCluster
                || r->Err_0 == FsErr::ReadError || r->Err_0 == FsErr::WriteError),
    {
        broadcast use lemma_raw_entry_congruence;

        let ghost pre = *self;
        let extend_cluster = self.table_chain_create(count)?;
        let ghost mid = *self;
        let ghost cs = choose|cs: Seq<u32>|
            chain_created(&pre, &mid, cs) && cs.len() == count && cs[0] == extend_cluster;
        proof {
            assert(!cs.contains(0u32));
            assert(!cs.contains(cluster));
            assert(cs[0] != 0u32);
        }
        match self.table_set(cluster, ClusterValue::Next(extend_cluster)) {
            Ok(()) => {},
            Err(e) => {
                proof {
                    assert forall|c2: int|
                        0 <= c2 < pre.table_clusters_count && !(pre.entry(c2) is Free) && c2
                            != cluster as int implies self.entry(c2) == pre.entry(c2) by {
                        assert(!cs.contains(c2 as u32)) by {
                            if cs.contains(c2 as u32) {
                                let j = choose|j: int|
                                    0 <= j < cs.len() && cs[j] == c2 as u32;
                                assert(pre.entry(cs[j] as int) is Free);
                            }
                        }
                        assert(mid.entry(c2) == pre.entry(c2));
                        assert(self.entry(c2) == mid.entry(c2));
                    }
                }
                return Err(e);
            },
        }
        proof {
            assert(self.entry(cluster as int) == ClusterValue::Next(extend_cluster));
            assert forall|i: int|
                0 <= i < cs.len() implies 1 <= (#[trigger] cs[i])
                    < pre.table_clusters_count by {
                assert(cs[i] != 0u32);
            }
            assert forall|i: int|
                0 <= i < cs.len() - 1 implies (#[trigger] self.entry(cs[i] as int))
                == ClusterValue::Next(cs[i + 1]) by {
                assert(cs[i] != cluster);
                assert(mid.entry(cs[i] as int) == ClusterValue::Next(cs[i + 1]));
            }
            assert(cs[cs.len() - 1] != cluster);
            assert(self.entry(cs[cs.len() - 1] as int) is Last);
            assert forall|c2: u32|
                c2 < pre.table_clusters_count && !cs.contains(c2) && c2 != cluster implies (
                #[trigger] self.entry(c2 as int)) == pre.entry(c2 as int) by {
                assert(mid.entry(c2 as int) == pre.entry(c2 as int));
            }
            assert(chain_extended(&pre, self, cluster as int, cs));
        }
        Ok(extend_cluster)
    }
}


impl<D: BlockDeviceIo> Fs<D> {
    /// Grows or shrinks the chain starting at `cluster` to exactly `count`
    /// clusters: extends from the current terminal, or rewrites the new
    /// terminal to `Last` and deletes the remainder. No-op when the chain
    /// already has `count` clusters.
    #[verifier::rlimit(100)]
    pub fn table_chain_set_len(&mut self, cluster: u32, count: u32) -> (r: Result<(), FsErr>)
        requires
            old(self).wf(),
            cluster < old(self).table_clusters_count,
            !(old(self).entry(0) is Free),
        ensures
            final(self).wf(),
            cfg_eq(old(self), final(self)),
            table_only_changed(old(self), final(self)),
            (r == Err::<(), FsErr>(FsErr::BadCount)) <==> count == 0,
            r == Err::<(), FsErr>(FsErr::FatTableError) ==> forall|n: int|
                !(0 <= n && old(self).chain_ok(cluster as int, n)),
            r is Ok ==> forall|n: int|
                old(self).chain_ok(cluster as int, n) && old(self).chain_distinct(
                    cluster as int,
                    n,
                ) ==> chain_resized(old(self), final(self), cluster as int, n, count as int),
            r is Err ==> (r->Err_0 == FsErr::BadCount || r->Err_0 == FsErr::NoFreeCluster
                || r->Err_0 == FsErr::FatTableError || r->Err_0 == FsErr::ReadError
                || r->Err_0 == FsErr::WriteError),
    {
        broadcast use lemma_raw_entry_congruence;

        if count == 0 {
            return Err(FsErr::BadCount);
        }
        let ghost pre = *self;
        let mut cur = cluster;
        let mut remaining = count - 1;
        while remaining > 0
            invariant
                pre == *old(self),
                self.wf(),
                cfg_eq(&pre, self),
                self.blocks() == pre.blocks(),
                forall|c2: int| #[trigger] self.entry(c2) == pre.entry(c2),
                !(pre.entry(0) is Free),
                0 < count,
                remaining <= count - 1,
                cur < self.table_clusters_count,
                cluster < self.table_clusters_count,
                pre.skip_ok(cluster as int, count - 1 - remaining),
                cur as int == pre.skip_to(cluster as int, count - 1 - remaining),
            decreases remaining,
        {
            let ghost steps = count - 1 - remaining;
            match self.table_get(cur) {
                Ok(ClusterValue::Next(nx)) => {
                    if nx >= self.table_clusters_count {
                        proof {
                            lemma_set_len_no_chain(
                                &pre,
                                cluster as int,
                                cur as int,
                                steps as int,
                                pre.entry(cur as int),
                            );
                        }
                        return Err(FsErr::FatTableError);
                    }
                    proof {
                        lemma_skip_snoc(&pre, cluster as int, steps as int, nx);
                    }
                    cur = nx;
                    remaining = remaining - 1;
                },
                Ok(ClusterValue::Last) => {
                    // The chain is shorter than asked: grow it by the missing
                    // clusters.
                    let ghost walk = *self;
                    match self.table_chain_extend(cur, remaining) {
                        Ok(_) => {},
                        Err(e) => {
                            return Err(e);
                        },
                    }
                    proof {
                        let cs = choose|cs: Seq<u32>|
                            chain_extended(&walk, self, cur as int, cs) && cs.len() == remaining;
                        lemma_set_len_grow(&pre, &walk, self, cluster as int, cur as int, steps as int, cs);
                        assert forall|n: int|
                            pre.chain_ok(cluster as int, n) && pre.chain_distinct(
                                cluster as int,
                                n,
                            ) implies chain_resized(
                            &pre,
                            self,
                            cluster as int,
                            n,
                            count as int,
                        ) by {
                            assert(pre.chain_ok(cluster as int, steps as int));
                            lemma_chain_len_unique(&pre, cluster as int, n, steps as int);
                            assert(chain_extended(
                                &pre,
                                self,
                                pre.skip_to(cluster as int, n),
                                cs,
                            ));
                        }
                    }
                    return Ok(());
                },
                Ok(_) => {
                    proof {
                        lemma_set_len_no_chain(
                            &pre,
                            cluster as int,
                            cur as int,
                            steps as int,
                            pre.entry(cur as int),
                        );
                    }
                    return Err(FsErr::FatTableError);
                },
                Err(e) => {
                    return Err(e);
                },
            }
        }
        let ghost steps = count - 1;
        match self.table_get(cur) {
            Ok(ClusterValue::Last) => {
                proof {
                    assert forall|n: int|
                        pre.chain_ok(cluster as int, n) && pre.chain_distinct(cluster as int, n)
                        implies chain_resized(&pre, self, cluster as int, n, count as int) by {
                        assert(pre.entry(cur as int) is Last);
                        assert(pre.chain_ok(cluster as int, steps as int));
                        lemma_chain_len_unique(&pre, cluster as int, n, steps as int);
                        assert forall|i: int|
                            0 <= i < steps implies (#[trigger] self.entry(
                            pre.skip_to(cluster as int, i),
                        )) == pre.entry(pre.skip_to(cluster as int, i)) by {}
                        lemma_skip_frame(&pre, self, cluster as int, steps as int);
                        assert(self.entry(self.skip_to(cluster as int, steps as int)) is Last);
                    }
                }
                Ok(())
            },
            Ok(ClusterValue::Next(nx)) => {
                if nx >= self.table_clusters_count {
                    proof {
                        lemma_set_len_no_chain(
                            &pre,
                            cluster as int,
                            cur as int,
                            steps as int,
                            pre.entry(cur as int),
                        );
                    }
                    return Err(FsErr::FatTableError);
                }
                let ghost walk = *self;
                match self.table_set(cur, ClusterValue::Last) {
                    Ok(()) => {},
                    Err(e) => {
                        return Err(e);
                    },
                }
                let ghost cut = *self;
                match self.table_chain_delete(nx) {
                    Ok(()) => {},
                    Err(e) => {
                        proof {
                            if e == FsErr::FatTableError {
                                assert forall|n: int|
                                    !(0 <= n && pre.chain_ok(cluster as int, n)) by {
                                    if 0 <= n && pre.chain_ok(cluster as int, n) {
                                        lemma_set_len_tail_chain(
                                            &pre,
                                            &cut,
                                            cluster as int,
                                            cur as int,
                                            nx,
                                            steps as int,
                                            n,
                                        );
                                    }
                                }
                            }
                        }
                        return Err(e);
                    },
                }
                proof {
                    let d = choose|d: int|
                        0 <= d && chain_deleted(&cut, self, nx as int, d);
                    lemma_set_len_shrink(
                        &pre,
                        &cut,
                        self,
                        cluster as int,
                        cur as int,
                        nx,
                        steps as int,
                        d,
                    );
                    assert forall|n: int|
                        pre.chain_ok(cluster as int, n) && pre.chain_distinct(cluster as int, n)
                        implies chain_resized(&pre, self, cluster as int, n, count as int) by {
                        assert(steps < n) by {
                            if n <= steps {
                                lemma_skip_entries(&pre, cluster as int, steps as int, n);
                                if n < steps {
                                } else {
                                    assert(pre.entry(pre.skip_to(cluster as int, n)) is Last);
                                }
                            }
                        }
                    }
                }
                Ok(())
            },
            Ok(_) => {
                proof {
                    lemma_set_len_no_chain(
                        &pre,
                        cluster as int,
                        cur as int,
                        steps as int,
                        pre.entry(cur as int),
                    );
                }
                Err(FsErr::FatTableError)
            },
            Err(e) => Err(e),
        }
    }

    /// First device sector of data cluster `cluster`, per the standard FAT
    /// data-region mapping.
    pub fn cluster_to_sector(&self, cluster: u32) -> (r: u32)
        requires
            self.wf(),
            2 <= cluster < self.table_clusters_count,
        ensures
            r as int == self.data_sector(cluster as int),
            r as int + self.sectors_in_cluster <= self.blocks().len(),
    {
        proof {
            assert((cluster - 2) as int * (self.sectors_in_cluster as int)
                + self.sectors_in_cluster <= (self.table_clusters_count - 2) as int * (
            self.sectors_in_cluster as int)) by (nonlinear_arith)
                requires
                    (cluster as int) < (self.table_clusters_count as int),
                    2 <= (cluster as int),
                    1 <= (self.sectors_in_cluster as int),
            ;
        }
        let off: u64 = ((cluster - 2) as u64) * (self.sectors_in_cluster as u64);
        (self.data_area_first_sector as u64 + off) as u32
    }
}

/// Stitches the walked prefix and the freshly extended tail into one chain
/// of exactly the requested length.
#[verifier::rlimit(100)]
proof fn lemma_set_len_grow<D: BlockDeviceIo>(
    pre: &Fs<D>,
    walk: &Fs<D>,
    post: &Fs<D>,
    cluster: int,
    cur: int,
    steps: int,
    cs: Seq<u32>,
)
    requires
        cfg_eq(pre, walk),
        cfg_eq(walk, post),
        walk.blocks() == pre.blocks(),
        forall|c2: int| #[trigger] walk.entry(c2) == pre.entry(c2),
        0 <= steps,
        pre.skip_ok(cluster, steps),
        cur == pre.skip_to(cluster, steps),
        pre.entry(cur) is Last,
        chain_extended(walk, post, cur, cs),
    ensures
        post.chain_ok(cluster, steps + cs.len()),
        forall|i: int|
            0 <= i <= steps ==> #[trigger] post.skip_to(cluster, i) == pre.skip_to(cluster, i),
        chain_extended(pre, post, cur, cs),
{
    assert(chain_extended(pre, post, cur, cs)) by {
        assert forall|c2: u32|
            c2 < pre.table_clusters_count && !cs.contains(c2) && c2 != cur implies (
        #[trigger] post.entry(c2 as int)) == pre.entry(c2 as int) by {
            assert(post.entry(c2 as int) == walk.entry(c2 as int));
        }
        assert forall|j: int|
            0 <= j < cs[cs.len() - 1] && !cs.contains(j as u32) implies !((#[trigger] pre.entry(
                j,
            )) is Free) by {
            assert(!(walk.entry(j) is Free));
        }
        assert forall|i: int| 0 <= i < cs.len() implies pre.entry(
            #[trigger] cs[i] as int,
        ) is Free by {
            assert(walk.entry(cs[i] as int) is Free);
        }
    }
    assert forall|i: int| 0 <= i < steps implies post.entry(#[trigger] pre.skip_to(cluster, i))
        == pre.entry(pre.skip_to(cluster, i)) by {
        lemma_skip_entries(pre, cluster, steps, i);
        let e = pre.skip_to(cluster, i);
        assert(!(pre.entry(e) is Free));
        assert(!cs.contains(e as u32)) by {
            if cs.contains(e as u32) {
                let j = choose|j: int| 0 <= j < cs.len() && cs[j] == e as u32;
                assert(walk.entry(cs[j] as int) is Free);
            }
        }
        assert(e != cur) by {
            if e == cur {
                assert(pre.entry(e) is Next);
            }
        }
        assert(post.entry(e) == walk.entry(e));
    }
    lemma_skip_frame(pre, post, cluster, steps);
    assert(post.skip_to(cluster, steps) == cur);
    assert(post.entry(cur) == ClusterValue::Next(cs[0]));
    lemma_skip_snoc(post, cluster, steps, cs[0]);
    assert forall|i: int| 0 <= i < cs.len() implies (#[trigger] cs[i]) < post.table_clusters_count by {}
    lemma_links_chain(post, cs);
    lemma_skip_transitive(post, cluster, steps + 1, cs.len() - 1);
    assert(post.skip_to(cluster, steps + cs.len()) == cs[cs.len() - 1] as int);
}

/// After rewriting the walked terminal to `Last` and deleting the old tail,
/// the prefix stands alone as a chain of the requested length.
#[verifier::rlimit(100)]
proof fn lemma_set_len_shrink<D: BlockDeviceIo>(
    pre: &Fs<D>,
    cut: &Fs<D>,
    post: &Fs<D>,
    cluster: int,
    cur: int,
    nx: u32,
    steps: int,
    d: int,
)
    requires
        cfg_eq(pre, cut),
        cfg_eq(cut, post),
        0 <= steps,
        pre.skip_ok(cluster, steps),
        cur == pre.skip_to(cluster, steps),
        pre.entry(cur) == ClusterValue::Next(nx),
        nx < pre.table_clusters_count,
        table_updated(pre, cut, cur, ClusterValue::Last),
        0 <= d,
        chain_deleted(cut, post, nx as int, d),
    ensures
        forall|n: int|
            pre.chain_ok(cluster, n) && pre.chain_distinct(cluster, n) ==> (post.chain_ok(
                cluster,
                steps,
            ) && (forall|i: int|
                0 <= i <= steps ==> #[trigger] post.skip_to(cluster, i) == pre.skip_to(
                    cluster,
                    i,
                )) && (forall|i: int|
                steps + 1 <= i <= n ==> post.entry(#[trigger] pre.skip_to(cluster, i)) is Free)
                && (forall|c2: int|
                0 <= c2 < pre.table_clusters_count && !(exists|i: int|
                    0 <= i <= n && #[trigger] pre.skip_to(cluster, i) == c2) ==> post.entry(c2)
                    == pre.entry(c2))),
{
    assert forall|n: int|
        pre.chain_ok(cluster, n) && pre.chain_distinct(cluster, n) implies (post.chain_ok(
        cluster,
        steps,
    ) && (forall|i: int|
        0 <= i <= steps ==> #[trigger] post.skip_to(cluster, i) == pre.skip_to(cluster, i)) && (
    forall|i: int|
        steps + 1 <= i <= n ==> post.entry(#[trigger] pre.skip_to(cluster, i)) is Free) && (
    forall|c2: int|
        0 <= c2 < pre.table_clusters_count && !(exists|i: int|
            0 <= i <= n && #[trigger] pre.skip_to(cluster, i) == c2) ==> post.entry(c2)
            == pre.entry(c2))) by {
        // The full chain is longer than the walked prefix.
        assert(steps < n) by {
            if n <= steps {
                lemma_skip_entries(pre, cluster, steps, n);
                if n < steps {
                } else {
                    assert(pre.entry(pre.skip_to(cluster, n)) is Last);
                }
            }
        }
        // Prefix entries are untouched by the terminal rewrite: by
        // distinctness no prefix position equals the walked terminal.
        assert forall|i: int|
            0 <= i < steps implies cut.entry(#[trigger] pre.skip_to(cluster, i)) == pre.entry(
            pre.skip_to(cluster, i),
        ) by {
            lemma_skip_entries(pre, cluster, steps, i);
            assert(pre.skip_to(cluster, i) != cur);
        }
        lemma_skip_frame(pre, cut, cluster, steps);
        // The old tail, seen from `cut`, is still a valid chain: its
        // positions are pre-chain positions steps+1 .. n, none equal to cur.
        lemma_skip_split(pre, cluster, steps + 1, n - steps - 1);
        assert(pre.skip_to(cluster, steps + 1) == nx as int) by {
            lemma_skip_snoc(pre, cluster, steps, nx);
        }
        assert forall|i: int|
            0 <= i < n - steps - 1 implies cut.entry(#[trigger] pre.skip_to(nx as int, i))
            == pre.entry(pre.skip_to(nx as int, i)) by {
            lemma_skip_prefix(pre, cluster, steps + 1 + i, n);
            lemma_skip_split_at(pre, cluster, steps + 1, i);
            assert(pre.skip_to(nx as int, i) == pre.skip_to(cluster, steps + 1 + i));
            lemma_skip_entries(pre, cluster, n, steps + 1 + i);
            assert(pre.skip_to(cluster, steps + 1 + i) != pre.skip_to(cluster, steps));
        }
        lemma_skip_frame(pre, cut, nx as int, n - steps - 1);
        assert(cut.chain_ok(nx as int, n - steps - 1)) by {
            assert(cut.skip_to(nx as int, n - steps - 1) == pre.skip_to(
                nx as int,
                n - steps - 1,
            ));
            assert(pre.skip_to(nx as int, n - steps - 1) == pre.skip_to(cluster, n)) by {
                lemma_skip_prefix(pre, cluster, n, n);
                lemma_skip_split_at(pre, cluster, steps + 1, n - steps - 1);
            }
            assert(pre.skip_to(cluster, n) != cur);
            lemma_skip_in_range(pre, cluster, n);
            assert(cut.entry(pre.skip_to(cluster, n)) == pre.entry(pre.skip_to(cluster, n)));
        }
        lemma_chain_len_unique(cut, nx as int, d, n - steps - 1);
        // The delete freed exactly the tail; prefix positions and the new
        // terminal are not tail positions, so they survive.
        assert forall|i: int|
            0 <= i < steps implies post.entry(#[trigger] cut.skip_to(cluster, i)) == cut.entry(
            cut.skip_to(cluster, i),
        ) by {
            assert(cut.skip_to(cluster, i) == pre.skip_to(cluster, i));
            lemma_skip_entries(pre, cluster, steps, i);
            lemma_not_in_tail(pre, cut, cluster, steps, n, i, nx, d);
        }
        lemma_skip_frame(cut, post, cluster, steps);
        assert(post.skip_to(cluster, steps) == cur) by {
            assert(cut.skip_to(cluster, steps) == pre.skip_to(cluster, steps));
        }
        assert(post.entry(cur) is Last) by {
            lemma_skip_in_range(pre, cluster, steps);
            lemma_not_in_tail(pre, cut, cluster, steps, n, steps, nx, d);
            assert(cut.entry(cur) is Last);
        }
        // The freed tail: positions steps+1 .. n of the original chain are
        // exactly the positions of the deleted walk from `nx`.
        assert forall|i: int|
            steps + 1 <= i <= n implies post.entry(#[trigger] pre.skip_to(cluster, i)) is Free by {
            let kk = i - steps - 1;
            assert(cut.skip_to(nx as int, kk) == pre.skip_to(nx as int, kk));
            assert(pre.skip_to(nx as int, kk) == pre.skip_to(cluster, i)) by {
                lemma_skip_prefix(pre, cluster, steps + 1 + kk, n);
                lemma_skip_split_at(pre, cluster, steps + 1, kk);
            }
            assert(post.entry(cut.skip_to(nx as int, kk)) is Free);
        }
        // Everything that is no position of the original chain keeps its
        // entry: it is neither the rewritten terminal nor a deleted tail
        // position.
        assert forall|c2: int|
            0 <= c2 < pre.table_clusters_count && !(exists|i: int|
                0 <= i <= n && #[trigger] pre.skip_to(cluster, i) == c2) implies post.entry(c2)
            == pre.entry(c2) by {
            assert(pre.skip_to(cluster, steps) == cur);
            assert(c2 != cur);
            assert(cut.entry(c2) == pre.entry(c2));
            assert forall|k: int|
                0 <= k <= d implies #[trigger] cut.skip_to(nx as int, k) != c2 by {
                assert(cut.skip_to(nx as int, k) == pre.skip_to(nx as int, k));
                lemma_skip_prefix(pre, cluster, steps + 1 + k, n);
                lemma_skip_split_at(pre, cluster, steps + 1, k);
                assert(pre.skip_to(nx as int, k) == pre.skip_to(cluster, steps + 1 + k));
            }
            assert(post.entry(c2) == cut.entry(c2));
        }
    }
}

/// A prefix position is never a position of the tail that was deleted.
proof fn lemma_not_in_tail<D: BlockDeviceIo>(
    pre: &Fs<D>,
    cut: &Fs<D>,
    cluster: int,
    steps: int,
    n: int,
    i: int,
    nx: u32,
    d: int,
)
    requires
        0 <= i <= steps < n,
        pre.skip_ok(cluster, n),
        pre.chain_distinct(cluster, n),
        tail_link_at(pre, cluster, steps, nx),
        d == n - steps - 1,
        forall|k: int|
            0 <= k <= d ==> #[trigger] cut.skip_to(nx as int, k) == pre.skip_to(nx as int, k),
    ensures
        forall|k: int|
            0 <= k <= d ==> #[trigger] cut.skip_to(nx as int, k) != pre.skip_to(cluster, i),
{
    assert forall|k: int| 0 <= k <= d implies #[trigger] cut.skip_to(nx as int, k)
        != pre.skip_to(cluster, i) by {
        lemma_skip_prefix(pre, cluster, steps + 1 + k, n);
        lemma_skip_split_at(pre, cluster, steps + 1, k);
        assert(pre.skip_to(nx as int, k) == pre.skip_to(cluster, steps + 1 + k));
        assert(pre.skip_to(cluster, steps + 1 + k) != pre.skip_to(cluster, i));
    }
}

/// The link observed at the end of the walked prefix.
pub open spec fn tail_link_at<D: BlockDeviceIo>(
    pre: &Fs<D>,
    cluster: int,
    steps: int,
    nx: u32,
) -> bool {
    pre.skip_to(cluster, steps + 1) == nx as int && pre.skip_ok(cluster, steps + 1)
}

/// Positions compose: position `k` of the walk from position `m` is position
/// `m + k` of the whole walk.
proof fn lemma_skip_split_at<D: BlockDeviceIo>(fs: &Fs<D>, c: int, m: int, k: int)
    requires
        0 <= m,
        0 <= k,
        fs.skip_ok(c, m + k),
    ensures
        fs.skip_ok(fs.skip_to(c, m), k),
        fs.skip_to(fs.skip_to(c, m), k) == fs.skip_to(c, m + k),
{
    lemma_skip_split(fs, c, m, k);
}


/// Writing a data-region block never changes the entry of any cluster in
/// the table.
pub proof fn lemma_data_write_preserves_entries<D: BlockDeviceIo>(
    pre: &Fs<D>,
    post: &Fs<D>,
    b: int,
    row: Seq<u8>,
)
    requires
        pre.wf(),
        cfg_eq(pre, post),
        pre.table_end_sector() <= b < pre.blocks().len(),
        post.blocks() == pre.blocks().update(b, row),
    ensures
        forall|c2: int|
            0 <= c2 < pre.table_clusters_count ==> (#[trigger] post.entry(c2)) == pre.entry(
                c2,
            ),
{
    assert forall|c2: int|
        0 <= c2 < pre.table_clusters_count implies (#[trigger] post.entry(c2)) == pre.entry(
        c2,
    ) by {
        assert forall|j: int|
            0 <= j < pre.table_byte_span() implies post.tbyte(j) == pre.tbyte(j) by {
            lemma_table_byte_in_range(pre, j);
            assert(pre.tbyte_sector(j) != b);
            assert(post.blocks()[pre.tbyte_sector(j)] == pre.blocks()[pre.tbyte_sector(j)]);
        }
        lemma_entry_bytes_in_span(pre, c2);
        lemma_entry_same_bytes(pre, post, c2);
    }
}

/// The device's block size is acceptable as a sector size.
pub open spec fn geometry_size_ok(bs: nat) -> bool {
    512 <= bs <= 4096 && bs % 4 == 0
}

/// Cluster shape and counts are acceptable for the variant.
pub open spec fn geometry_count_ok(ft: FatType, n: u32, sc: u32, rc: u32) -> bool {
    &&& sc >= 1
    &&& 1 <= n <= bad_marker(ft)
    &&& 2 <= rc < n
}

/// Table and data regions fit the device, and a cluster's byte size fits.
pub open spec fn geometry_fit_ok<D: BlockDeviceIo>(
    io: &D,
    ft: FatType,
    n: u32,
    t: u32,
    sc: u32,
    da: u32,
) -> bool {
    let bs = io.block_size_spec() as int;
    let len = io.blocks().len() as int;
    &&& bs * sc <= u32::MAX
    &&& t * bs + table_span(ft, n as int) <= len * bs
    &&& t + (table_span(ft, n as int) + bs - 1) / bs <= da
    &&& da + (n - 2) * sc <= len
}

impl<D: BlockDeviceIo> Fs<D> {
    /// Builds the engine over a device, validating the geometry: block size,
    /// cluster shape, table bounds and data-area bounds.
    pub fn new(
        io: D,
        fat_type: FatType,
        table_clusters_count: u32,
        table_first_sector: u32,
        sectors_in_cluster: u32,
        data_area_first_sector: u32,
        root_cluster: u32,
    ) -> (r: Result<Fs<D>, FsErr>)
        requires
            io.inv(),
        ensures
            r matches Ok(fs) ==> fs.wf() && fs.blocks() == io.blocks() && fs.fat_type == fat_type
                && fs.table_clusters_count == table_clusters_count && fs.table_first_sector
                == table_first_sector && fs.sectors_in_cluster == sectors_in_cluster
                && fs.data_area_first_sector == data_area_first_sector && fs.root_cluster
                == root_cluster && fs.sector_size as nat == io.block_size_spec(),
            r matches Err(e) ==> (e == FsErr::BadBlockSize || e == FsErr::BadCount || e
                == FsErr::OutOfRange),
            (r == Err::<Fs<D>, FsErr>(FsErr::BadBlockSize)) <==> !geometry_size_ok(
                io.block_size_spec(),
            ),
            (r == Err::<Fs<D>, FsErr>(FsErr::BadCount)) <==> (geometry_size_ok(
                io.block_size_spec(),
            ) && !geometry_count_ok(fat_type, table_clusters_count, sectors_in_cluster,
            root_cluster)),
            (r == Err::<Fs<D>, FsErr>(FsErr::OutOfRange)) <==> (geometry_size_ok(
                io.block_size_spec(),
            ) && geometry_count_ok(fat_type, table_clusters_count, sectors_in_cluster,
            root_cluster) && !geometry_fit_ok(
                &io,
                fat_type,
                table_clusters_count,
                table_first_sector,
                sectors_in_cluster,
                data_area_first_sector,
            )),
            r is Ok <==> (geometry_size_ok(io.block_size_spec()) && geometry_count_ok(
                fat_type,
                table_clusters_count,
                sectors_in_cluster,
                root_cluster,
            ) && geometry_fit_ok(
                &io,
                fat_type,
                table_clusters_count,
                table_first_sector,
                sectors_in_cluster,
                data_area_first_sector,
            )),
    {
        proof {
            io.lemma_shape();
        }
        let bs = io.block_size();
        if !(512 <= bs && bs <= 4096 && bs % 4 == 0) {
            return Err(FsErr::BadBlockSize);
        }
        let block_count = io.block_count();
        let bad: u32 = match fat_type {
            FatType::Fat32 => 0x0FFF_FFF7,
            FatType::Fat16 => 0xFFF7,
            FatType::Fat12 => 0xFF7,
        };
        if sectors_in_cluster == 0 || table_clusters_count == 0 || table_clusters_count > bad {
            return Err(FsErr::BadCount);
        }
        if !(2 <= root_cluster && root_cluster < table_clusters_count) {
            return Err(FsErr::BadCount);
        }
        proof {
            assert((bs as int) * (sectors_in_cluster as int) <= 4096 * 0xFFFF_FFFF) by (nonlinear_arith)
                requires
                    (bs as int) <= 4096,
                    0 <= (sectors_in_cluster as int) <= 0xFFFF_FFFF,
                    0 <= (bs as int),
            ;
        }
        let cluster_size64: u64 = (bs as u64) * (sectors_in_cluster as u64);
        if cluster_size64 > 0xFFFF_FFFF {
            return Err(FsErr::OutOfRange);
        }
        let last: u64 = (table_clusters_count - 1) as u64;
        let span: u64 = match fat_type {
            FatType::Fat32 => 4 * last + 4,
            FatType::Fat16 => 2 * last + 2,
            FatType::Fat12 => last + last / 2 + 2,
        };
        let s64: u64 = bs as u64;
        proof {
            assert((table_first_sector as int) * (bs as int) <= 0xFFFF_FFFF * 4096
                && (block_count as int) * (bs as int) <= 0xFFFF_FFFF * 4096) by (nonlinear_arith)
                requires
                    0 <= (table_first_sector as int) <= 0xFFFF_FFFF,
                    0 <= (block_count as int) <= 0xFFFF_FFFF,
                    0 <= (bs as int) <= 4096,
            ;
        }
        if (table_first_sector as u64) * s64 + span > (block_count as u64) * s64 {
            return Err(FsErr::OutOfRange);
        }
        let end: u64 = table_first_sector as u64 + (span + s64 - 1) / s64;
        if end > data_area_first_sector as u64 {
            return Err(FsErr::OutOfRange);
        }
        proof {
            assert(((table_clusters_count - 2) as int) * (sectors_in_cluster as int)
                <= 0xFFFF_FFFF * 0xFFFF_FFFF) by (nonlinear_arith)
                requires
                    0 <= ((table_clusters_count - 2) as int) <= 0xFFFF_FFFF,
                    0 <= (sectors_in_cluster as int) <= 0xFFFF_FFFF,
            ;
        }
        let data_span: u64 = ((table_clusters_count - 2) as u64) * (sectors_in_cluster as u64);
        if data_area_first_sector as u64 + data_span > block_count as u64 {
            return Err(FsErr::OutOfRange);
        }
        let sector = Sector::new(io);
        let fs = Fs {
            sector,
            fat_type,
            table_clusters_count,
            table_first_sector,
            sector_size: bs,
            cluster_size: cluster_size64 as u32,
            sectors_in_cluster,
            data_area_first_sector,
            root_cluster,
        };
        Ok(fs)
    }
}


/// At a walked position whose entry is not a usable link, no well-formed
/// chain can start at the walk's origin.
proof fn lemma_set_len_no_chain<D: BlockDeviceIo>(
    pre: &Fs<D>,
    cluster: int,
    cur: int,
    steps: int,
    v: ClusterValue,
)
    requires
        0 <= steps,
        pre.skip_ok(cluster, steps),
        cur == pre.skip_to(cluster, steps),
        v == pre.entry(cur),
        !(v is Last),
        v matches ClusterValue::Next(x) ==> x >= pre.table_clusters_count,
    ensures
        forall|n: int| !(0 <= n && pre.chain_ok(cluster, n)),
{
    assert forall|n: int| !(0 <= n && pre.chain_ok(cluster, n)) by {
        if 0 <= n && pre.chain_ok(cluster, n) {
            if n < steps {
                lemma_skip_entries(pre, cluster, steps, n);
            } else if n == steps {
                assert(pre.entry(pre.skip_to(cluster, steps)) is Last);
            } else {
                lemma_skip_prefix(pre, cluster, steps + 1, n);
                lemma_skip_split(pre, cluster, steps, 1);
                assert(pre.skip_ok(cur, 1));
                match v {
                    ClusterValue::Next(x) => {
                        assert(!pre.skip_ok(x as int, 0));
                        assert(false);
                    },
                    _ => {
                        assert(false);
                    },
                }
            }
        }
    }
}

/// If the whole chain is well formed, so is its tail after the walked
/// terminal was rewritten to `Last`: the rewrite touched a position the
/// (distinct) tail never revisits.
proof fn lemma_set_len_tail_chain<D: BlockDeviceIo>(
    pre: &Fs<D>,
    cut: &Fs<D>,
    cluster: int,
    cur: int,
    nx: u32,
    steps: int,
    n: int,
)
    requires
        0 <= steps,
        pre.skip_ok(cluster, steps),
        cur == pre.skip_to(cluster, steps),
        pre.entry(cur) == ClusterValue::Next(nx),
        nx < pre.table_clusters_count,
        cfg_eq(pre, cut),
        table_updated(pre, cut, cur, ClusterValue::Last),
        0 <= n,
        pre.chain_ok(cluster, n),
    ensures
        cut.chain_ok(nx as int, n - steps - 1),
        0 <= n - steps - 1,
{
    assert(steps < n) by {
        if n <= steps {
            if n < steps {
                lemma_skip_entries(pre, cluster, steps, n);
            } else {
                assert(pre.entry(pre.skip_to(cluster, n)) is Last);
            }
        }
    }
    lemma_skip_snoc(pre, cluster, steps, nx);
    lemma_skip_split(pre, cluster, steps + 1, n - steps - 1);
    assert(pre.skip_to(cluster, steps + 1) == nx as int);
    assert forall|i: int|
        0 <= i < n - steps - 1 implies cut.entry(#[trigger] pre.skip_to(nx as int, i))
        == pre.entry(pre.skip_to(nx as int, i)) by {
        lemma_skip_prefix(pre, cluster, steps + 1 + i, n);
        lemma_skip_split(pre, cluster, steps + 1, i);
        assert(pre.skip_to(nx as int, i) == pre.skip_to(cluster, steps + 1 + i));
        lemma_skip_entries(pre, cluster, n, steps + 1 + i);
        lemma_chain_positions_distinct(pre, cluster, n, steps, steps + 1 + i);
    }
    lemma_skip_frame(pre, cut, nx as int, n - steps - 1);
    assert(cut.chain_ok(nx as int, n - steps - 1)) by {
        assert(cut.skip_to(nx as int, n - steps - 1) == pre.skip_to(nx as int, n - steps - 1));
        assert(pre.skip_to(nx as int, n - steps - 1) == pre.skip_to(cluster, n));
        assert(pre.skip_to(cluster, n) != cur) by {
            lemma_chain_positions_distinct(pre, cluster, n, steps, n);
        }
        lemma_skip_in_range(pre, cluster, n);
        assert(cut.entry(pre.skip_to(cluster, n)) == pre.entry(pre.skip_to(cluster, n)));
    }
}

} // verus!
