use fat_fs::dir::DirIterator;
use fat_fs::file::File;
use fat_fs::fs::{u32_from_bytes, ClusterValue, FatType, Fs};
use fat_fs::mem_device::MemBlockDevice;
use fat_fs::sector::{BlockDeviceCache, FsErr, Sector};
use fat_fs::stream::{SeekFrom, Stream};

fn make_fs(ft: FatType, clusters: u32) -> Fs<MemBlockDevice> {
    let dev = MemBlockDevice::new(512, 64);
    let mut fs = Fs::new(dev, ft, clusters, 1, 2, 2, 2).expect("geometry");
    // Clusters 0 and 1 are reserved on a formatted volume.
    fs.table_set(0, ClusterValue::Bad).unwrap();
    fs.table_set(1, ClusterValue::Bad).unwrap();
    fs
}

#[test]
fn fat16_round_trip() {
    let mut fs = make_fs(FatType::Fat16, 16);
    for v in [
        ClusterValue::Free,
        ClusterValue::Bad,
        ClusterValue::Last,
        ClusterValue::Next(5),
    ] {
        fs.table_set(3, v).unwrap();
        assert_eq!(fs.table_get(3).unwrap(), v);
    }
}

#[test]
fn fat32_round_trip() {
    let mut fs = make_fs(FatType::Fat32, 16);
    for v in [
        ClusterValue::Free,
        ClusterValue::Bad,
        ClusterValue::Last,
        ClusterValue::Next(0x0ABC_DEF0),
    ] {
        fs.table_set(3, v).unwrap();
        assert_eq!(fs.table_get(3).unwrap(), v);
    }
}

#[test]
fn fat12_round_trip() {
    let mut fs = make_fs(FatType::Fat12, 16);
    for c in 2..10u32 {
        for v in [
            ClusterValue::Free,
            ClusterValue::Bad,
            ClusterValue::Last,
            ClusterValue::Next(0xABC),
        ] {
            fs.table_set(c, v).unwrap();
            assert_eq!(fs.table_get(c).unwrap(), v, "cluster {}", c);
        }
    }
}

#[test]
fn fat12_adjacent_independence() {
    let mut fs = make_fs(FatType::Fat12, 16);
    fs.table_set(4, ClusterValue::Next(0x123)).unwrap();
    fs.table_set(5, ClusterValue::Next(0xABC)).unwrap();
    fs.table_set(3, ClusterValue::Last).unwrap();
    assert_eq!(fs.table_get(4).unwrap(), ClusterValue::Next(0x123));
    assert_eq!(fs.table_get(5).unwrap(), ClusterValue::Next(0xABC));
    fs.table_set(4, ClusterValue::Free).unwrap();
    assert_eq!(fs.table_get(5).unwrap(), ClusterValue::Next(0xABC));
    assert_eq!(fs.table_get(3).unwrap(), ClusterValue::Last);
}

#[test]
fn chain_conservation() {
    let mut fs = make_fs(FatType::Fat16, 16);
    let first = fs.table_chain_create(3).unwrap();
    assert_eq!(first, 2);
    // Walking the chain visits exactly three clusters, ending on Last.
    let c1 = fs.table_chain_skip(first, 1).unwrap();
    let c2 = fs.table_chain_skip(first, 2).unwrap();
    assert_eq!((c1, c2), (3, 4));
    assert_eq!(fs.table_get(c2).unwrap(), ClusterValue::Last);
    assert!(matches!(
        fs.table_chain_skip(first, 3),
        Err(FsErr::FatTableError)
    ));
    // Deleting frees exactly those three clusters.
    fs.table_chain_delete(first).unwrap();
    for c in [2u32, 3, 4] {
        assert_eq!(fs.table_get(c).unwrap(), ClusterValue::Free);
    }
    assert_eq!(fs.table_get(0).unwrap(), ClusterValue::Bad);
}

#[test]
fn cache_coherency() {
    let dev = MemBlockDevice::new(512, 8);
    let mut cache = BlockDeviceCache::new(dev);
    let pattern = vec![0xAAu8, 0xBB, 0xCC, 0xDD];
    cache.get_mut(1, 4, &pattern).unwrap();
    // Evict block 1 by touching another block, then read it back fresh.
    let other = cache.get(2).unwrap();
    assert_eq!(other[0], 0);
    let back = cache.get(1).unwrap();
    assert_eq!(&back[4..8], &[0xAA, 0xBB, 0xCC, 0xDD]);
    assert_eq!(back[0], 0);
    // Flushing a clean slot succeeds and changes nothing.
    cache.flush().unwrap();
    cache.flush().unwrap();
    let again = cache.get(1).unwrap();
    assert_eq!(&again[4..8], &[0xAA, 0xBB, 0xCC, 0xDD]);
}

#[test]
fn sector_range_io() {
    let dev = MemBlockDevice::new(512, 8);
    let mut sector = Sector::new(dev);
    sector.write(3, 100, &vec![1, 2, 3]).unwrap();
    let mut buf = vec![0u8; 3];
    sector.read(3, 100, &mut buf).unwrap();
    assert_eq!(buf, vec![1, 2, 3]);
    assert!(matches!(
        sector.read(99, 0, &mut buf),
        Err(FsErr::OutOfRange)
    ));
    sector.flush().unwrap();
}

fn pattern(len: usize) -> Vec<u8> {
    (0..len).map(|i| (i % 251) as u8).collect()
}

#[test]
fn stream_boundary_crossing() {
    let mut fs = make_fs(FatType::Fat16, 16);
    let first = fs.table_chain_create(2).unwrap();
    let data = pattern(2048);
    let mut file = File::new(Stream::new(first), 2048);
    let written = file.write(&mut fs, &data).unwrap();
    assert_eq!(written, 2048);
    file.seek(&mut fs, SeekFrom::Start(0)).unwrap();
    let mut back = vec![0u8; 2048];
    let mut total = 0usize;
    while total < 2048 {
        let mut chunk = vec![0u8; 2048 - total];
        let n = file.read(&mut fs, &mut chunk).unwrap();
        assert!(n > 0);
        back[total..total + n].copy_from_slice(&chunk[..n]);
        total += n;
    }
    assert_eq!(back, data);
    // The exact sector and cluster boundaries carry the right bytes.
    assert_eq!(back[511], data[511]);
    assert_eq!(back[512], data[512]);
    assert_eq!(back[1023], data[1023]);
    assert_eq!(back[1024], data[1024]);
}

#[test]
fn seek_correctness() {
    let mut fs = make_fs(FatType::Fat16, 16);
    let first = fs.table_chain_create(2).unwrap();
    let data = pattern(2048);
    let mut file = File::new(Stream::new(first), 2048);
    file.write(&mut fs, &data).unwrap();

    let mut stream = Stream::new(first);
    assert!(matches!(
        stream.seek(&mut fs, SeekFrom::Current(-1)),
        Err(FsErr::NegativeSeek)
    ));
    // Seek across the cluster boundary (cluster size is 1024 bytes).
    let p = stream.seek(&mut fs, SeekFrom::Start(1025)).unwrap();
    assert_eq!(p, 1025);
    let mut one = vec![0u8; 1];
    let n = stream.read(&mut fs, &mut one).unwrap();
    assert_eq!(n, 1);
    assert_eq!(one[0], data[1025]);
    // And within the first cluster, across a sector boundary.
    stream.seek(&mut fs, SeekFrom::Start(513)).unwrap();
    stream.read(&mut fs, &mut one).unwrap();
    assert_eq!(one[0], data[513]);
}

#[test]
fn directory_filtering() {
    let mut fs = make_fs(FatType::Fat16, 16);
    let first = fs.table_chain_create(1).unwrap();
    let mut records = vec![0u8; 128];
    records[0] = b'A';
    records[11] = 0x20;
    records[32] = 0xE5;
    records[64] = b'B';
    records[64 + 11] = 0x0F;
    // Record 4 stays zeroed: the canonical end-of-directory marker.
    let mut file = File::new(Stream::new(first), 128);
    file.write(&mut fs, &records).unwrap();

    let mut it = DirIterator::new(Stream::new(first));
    let e = it.next(&mut fs).expect("one live record");
    assert_eq!(e.data[0], b'A');
    assert_eq!(e.data[11], 0x20);
    assert!(it.next(&mut fs).is_none());
    assert!(it.next(&mut fs).is_none());
}

#[test]
fn auto_extend_on_write() {
    let mut fs = make_fs(FatType::Fat16, 16);
    let first = fs.table_chain_create(1).unwrap();
    assert_eq!(fs.table_get(first).unwrap(), ClusterValue::Last);
    let data = pattern(1030);
    let mut file = File::new(Stream::new(first), 0);
    // The zero-byte "chain extended" retry is absorbed: the caller sees the
    // full count.
    let written = file.write(&mut fs, &data).unwrap();
    assert_eq!(written, 1030);
    // Exactly one cluster was added.
    assert_eq!(fs.table_get(first).unwrap(), ClusterValue::Next(3));
    assert_eq!(fs.table_get(3).unwrap(), ClusterValue::Last);
    assert_eq!(fs.table_get(4).unwrap(), ClusterValue::Free);
}

#[test]
fn stream_end_of_stream() {
    let mut fs = make_fs(FatType::Fat16, 16);
    let first = fs.table_chain_create(1).unwrap();
    let mut stream = Stream::new(first);
    let mut buf = vec![0u8; 512];
    assert_eq!(stream.read(&mut fs, &mut buf).unwrap(), 512);
    assert_eq!(stream.read(&mut fs, &mut buf).unwrap(), 512);
    assert!(matches!(
        stream.read(&mut fs, &mut buf),
        Err(FsErr::EndOfStream)
    ));
}

#[test]
fn file_end_of_file() {
    let mut fs = make_fs(FatType::Fat16, 16);
    let first = fs.table_chain_create(1).unwrap();
    let mut file = File::new(Stream::new(first), 0);
    let mut buf = vec![0u8; 8];
    assert!(matches!(
        file.read(&mut fs, &mut buf),
        Err(FsErr::EndOfFile)
    ));
}

#[test]
fn read_at_cluster_aligned_end_of_file() {
    let mut fs = make_fs(FatType::Fat16, 16);
    let first = fs.table_chain_create(1).unwrap();
    let data = pattern(1024);
    let mut file = File::new(Stream::new(first), 1024);
    assert_eq!(file.write(&mut fs, &data).unwrap(), 1024);
    // The cursor stands exactly at the length, on a cluster boundary: the
    // failure is end-of-file, decided before any chain walk, and the buffer
    // stays untouched.
    let mut buf = vec![0u8; 8];
    assert!(matches!(file.read(&mut fs, &mut buf), Err(FsErr::EndOfFile)));
    assert_eq!(buf, vec![0u8; 8]);
}

#[test]
fn set_len_shrink_keeps_prefix_data() {
    let mut fs = make_fs(FatType::Fat16, 16);
    let first = fs.table_chain_create(3).unwrap();
    let data = pattern(3072);
    let mut file = File::new(Stream::new(first), 3072);
    file.write(&mut fs, &data).unwrap();
    // Shrinking to one cluster frees the tail but must not move the chain:
    // the surviving cluster still holds the original first kilobyte.
    file.resize(&mut fs, 1024).unwrap();
    assert_eq!(fs.table_get(first).unwrap(), ClusterValue::Last);
    let mut stream = Stream::new(first);
    let mut buf = vec![0u8; 1024];
    let mut total = 0usize;
    while total < 1024 {
        let mut chunk = vec![0u8; 1024 - total];
        let n = stream.read(&mut fs, &mut chunk).unwrap();
        assert!(n > 0);
        buf[total..total + n].copy_from_slice(&chunk[..n]);
        total += n;
    }
    assert_eq!(&buf[..], &data[..1024]);
}

#[test]
fn allocation_errors() {
    let mut fs = make_fs(FatType::Fat16, 4);
    assert!(matches!(
        fs.table_chain_create(0),
        Err(FsErr::BadCount)
    ));
    // Only clusters 2 and 3 can ever be free.
    assert!(matches!(
        fs.table_chain_create(5),
        Err(FsErr::NoFreeCluster)
    ));
}

#[test]
fn corrupt_chain_errors() {
    let mut fs = make_fs(FatType::Fat16, 16);
    assert!(matches!(
        fs.table_chain_skip(2, 1),
        Err(FsErr::FatTableError)
    ));
    assert!(matches!(
        fs.table_chain_delete(2),
        Err(FsErr::FatTableError)
    ));
}

#[test]
fn geometry_rejected() {
    let dev = MemBlockDevice::new(514, 8);
    assert!(matches!(
        Fs::new(dev, FatType::Fat16, 16, 1, 2, 2, 2),
        Err(FsErr::BadBlockSize)
    ));
    let dev = MemBlockDevice::new(512, 4);
    assert!(matches!(
        Fs::new(dev, FatType::Fat16, 0xFFF0, 1, 1, 2, 2),
        Err(FsErr::OutOfRange)
    ));
    let dev = MemBlockDevice::new(512, 8);
    assert!(matches!(
        Fs::new(dev, FatType::Fat16, 16, 1, 0, 2, 2),
        Err(FsErr::BadCount)
    ));
}

#[test]
fn set_len_grows_and_shrinks() {
    let mut fs = make_fs(FatType::Fat16, 16);
    let first = fs.table_chain_create(1).unwrap();
    fs.table_chain_set_len(first, 3).unwrap();
    let last = fs.table_chain_skip(first, 2).unwrap();
    assert_eq!(fs.table_get(last).unwrap(), ClusterValue::Last);
    fs.table_chain_set_len(first, 1).unwrap();
    assert_eq!(fs.table_get(first).unwrap(), ClusterValue::Last);
    assert_eq!(fs.table_get(3).unwrap(), ClusterValue::Free);
    assert_eq!(fs.table_get(4).unwrap(), ClusterValue::Free);
    assert!(matches!(
        fs.table_chain_set_len(first, 0),
        Err(FsErr::BadCount)
    ));
}

#[test]
fn file_resize() {
    let mut fs = make_fs(FatType::Fat16, 16);
    let first = fs.table_chain_create(1).unwrap();
    let mut file = File::new(Stream::new(first), 0);
    file.resize(&mut fs, 3000).unwrap();
    // 3000 bytes need three 1024-byte clusters.
    let last = fs.table_chain_skip(first, 2).unwrap();
    assert_eq!(fs.table_get(last).unwrap(), ClusterValue::Last);
    file.resize(&mut fs, 100).unwrap();
    assert_eq!(fs.table_get(first).unwrap(), ClusterValue::Last);
    let mut file2 = File::new(Stream::new(first), 0);
    file2.resize(&mut fs, 0).unwrap();
    assert_eq!(fs.table_get(first).unwrap(), ClusterValue::Last);
}

#[test]
fn file_end_seek() {
    let mut fs = make_fs(FatType::Fat16, 16);
    let first = fs.table_chain_create(2).unwrap();
    let data = pattern(2048);
    let mut file = File::new(Stream::new(first), 2048);
    file.write(&mut fs, &data).unwrap();
    file.seek(&mut fs, SeekFrom::End(-1)).unwrap();
    let mut one = vec![0u8; 1];
    let n = file.read(&mut fs, &mut one).unwrap();
    assert_eq!(n, 1);
    assert_eq!(one[0], data[2047]);
    assert!(matches!(
        file.seek(&mut fs, SeekFrom::End(-3000)),
        Err(FsErr::NegativeSeek)
    ));
}

#[test]
fn close_flushes_to_device() {
    let mut fs = make_fs(FatType::Fat16, 16);
    let first = fs.table_chain_create(1).unwrap();
    let mut file = File::new(Stream::new(first), 4);
    file.write(&mut fs, &vec![9, 8, 7, 6]).unwrap();
    file.close(&mut fs).unwrap();
    // After the flush a fresh read still sees the data.
    let mut stream = Stream::new(first);
    let mut buf = vec![0u8; 4];
    assert_eq!(stream.read(&mut fs, &mut buf).unwrap(), 4);
    assert_eq!(buf, vec![9, 8, 7, 6]);
}

#[test]
fn u32_little_endian() {
    assert_eq!(u32_from_bytes(&vec![0x78, 0x56, 0x34, 0x12]), 0x12345678);
    assert_eq!(u32_from_bytes(&vec![0, 0, 0, 0]), 0);
    assert_eq!(u32_from_bytes(&vec![0xFF, 0xFF, 0xFF, 0xFF]), 0xFFFF_FFFF);
}

#[test]
fn addressing_formulas() {
    let fs = make_fs(FatType::Fat16, 16);
    // Entry of cluster 5 in a 512-byte-sector FAT16: byte 10 of sector 1.
    assert_eq!(fs.fat16_cluster_to_sector_and_offset(5), (1, 10));
    let fs = make_fs(FatType::Fat32, 16);
    assert_eq!(fs.fat32_cluster_to_sector_and_offset(5), (1, 20));
    let fs = make_fs(FatType::Fat12, 16);
    assert_eq!(fs.fat12_cluster_to_sector_and_offset(5), (1, 7));
}

#[test]
fn fat12_entry_across_sector_boundary() {
    // With 512-byte sectors, the entry of cluster 341 occupies bytes 511 and
    // 512 of the table: the pair straddles a sector boundary.
    let dev = MemBlockDevice::new(512, 810);
    let mut fs = Fs::new(dev, FatType::Fat12, 400, 1, 2, 3, 2).expect("geometry");
    fs.table_set(0, ClusterValue::Bad).unwrap();
    fs.table_set(1, ClusterValue::Bad).unwrap();
    fs.table_set(340, ClusterValue::Next(0x0AB)).unwrap();
    fs.table_set(342, ClusterValue::Next(0x0CD)).unwrap();
    fs.table_set(341, ClusterValue::Next(0x155)).unwrap();
    assert_eq!(fs.table_get(341).unwrap(), ClusterValue::Next(0x155));
    assert_eq!(fs.table_get(340).unwrap(), ClusterValue::Next(0x0AB));
    assert_eq!(fs.table_get(342).unwrap(), ClusterValue::Next(0x0CD));
}

#[test]
fn find_free_scans_from_start() {
    let mut fs = make_fs(FatType::Fat16, 16);
    assert_eq!(fs.table_find_free(0).unwrap(), 2);
    fs.table_set(2, ClusterValue::Last).unwrap();
    assert_eq!(fs.table_find_free(0).unwrap(), 3);
    assert_eq!(fs.table_find_free(4).unwrap(), 4);
    assert!(matches!(fs.table_find_free(16), Err(FsErr::NoFreeCluster)));
}

#[test]
fn mapping_independent_of_root_cluster() {
    // The data-region mapping subtracts the constant 2, whatever the root
    // directory's cluster is.
    let dev = MemBlockDevice::new(512, 64);
    let mut fs = Fs::new(dev, FatType::Fat16, 16, 1, 2, 2, 5).expect("geometry");
    fs.table_set(0, ClusterValue::Bad).unwrap();
    fs.table_set(1, ClusterValue::Bad).unwrap();
    assert_eq!(fs.cluster_to_sector(2), 2);
    assert_eq!(fs.cluster_to_sector(5), 8);
    let first = fs.table_chain_create(1).unwrap();
    let mut file = File::new(Stream::new(first), 4);
    file.write(&mut fs, &vec![5, 6, 7, 8]).unwrap();
    let mut stream = Stream::new(first);
    let mut buf = vec![0u8; 4];
    stream.read(&mut fs, &mut buf).unwrap();
    assert_eq!(buf, vec![5, 6, 7, 8]);
}

#[test]
fn directory_iteration_latches_after_end() {
    let mut fs = make_fs(FatType::Fat16, 16);
    let first = fs.table_chain_create(1).unwrap();
    let mut records = vec![0u8; 96];
    records[0] = b'A';
    // Record 2 is the 0x00 terminator; record 3 looks valid but lies past
    // the end of the directory and must never be yielded.
    records[64] = b'B';
    let mut file = File::new(Stream::new(first), 96);
    file.write(&mut fs, &records).unwrap();

    let mut it = DirIterator::new(Stream::new(first));
    let e = it.next(&mut fs).expect("first record");
    assert_eq!(e.data[0], b'A');
    assert!(it.next(&mut fs).is_none());
    assert!(it.next(&mut fs).is_none());
    assert!(it.next(&mut fs).is_none());
}
