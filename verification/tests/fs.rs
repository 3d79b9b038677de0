use ferros::drivers::virtio_blk::{read_sector, write_sector, BlkError, Disk};
use ferros::fs::fat::{fill_dir_entry, short_name_83, DirEntry, Fat32, FatError};
use ferros::fs::fat_dir::Node;
use ferros::fs::path::{normalize, path_components, resolve_path, split};
use ferros::fs::vfs::FileSystem;

/// A disk with an empty FAT32 volume: one reserved sector, two FATs of one sector each, clusters
/// of one sector, the root directory in cluster 2.
fn formatted(clusters: u32) -> Disk {
    let total = 3 + clusters;
    let mut sectors = vec![[0u8; 512]; total as usize];
    sectors[0][11..13].copy_from_slice(&512u16.to_le_bytes());
    sectors[0][13] = 1;
    sectors[0][14..16].copy_from_slice(&1u16.to_le_bytes());
    sectors[0][16] = 2;
    sectors[0][32..36].copy_from_slice(&total.to_le_bytes());
    sectors[0][36..40].copy_from_slice(&1u32.to_le_bytes());
    sectors[0][44..48].copy_from_slice(&2u32.to_le_bytes());
    for copy in 1..3 {
        for entry in 0..3 {
            sectors[copy][4 * entry..4 * entry + 4].copy_from_slice(&0x0FFF_FFFFu32.to_le_bytes());
        }
    }
    Disk {
        online: true,
        sectors,
        read_status: vec![0; total as usize],
        answers: Vec::new(),
        used: 0,
        write_status: vec![0; total as usize],
        log: Vec::new(),
    }
}

fn fresh(clusters: u32) -> FileSystem {
    FileSystem::mount(formatted(clusters)).unwrap()
}

/// The entry of a cluster in one copy of the FAT.
fn fat_entry(fs: &FileSystem, copy: usize, cluster: usize) -> u32 {
    let s = &fs.disk.sectors[1 + copy];
    u32::from_le_bytes([s[4 * cluster], s[4 * cluster + 1], s[4 * cluster + 2], s[4 * cluster + 3]])
}

fn free_clusters(fs: &FileSystem, clusters: usize) -> usize {
    (2..2 + clusters).filter(|c| fat_entry(fs, 0, *c) == 0).count()
}

fn names(node: Node) -> Vec<(String, bool)> {
    match node {
        Node::Dir(items) => {
            items.iter().map(|i| (String::from_utf8(i.name.clone()).unwrap(), i.is_dir)).collect()
        },
        Node::File(_) => panic!("a file"),
    }
}

fn refused<T>(r: Result<T, FatError>) -> FatError {
    match r {
        Err(e) => e,
        Ok(_) => panic!("accepted"),
    }
}

#[test]
fn sectors_are_read_and_written() {
    let mut disk = formatted(4);
    let data = [7u8; 512];
    assert_eq!(write_sector(&mut disk, 5, &data), Ok(()));
    let mut back = [0u8; 512];
    assert_eq!(read_sector(&disk, 5, &mut back), Ok(()));
    assert_eq!(back, data);
}

#[test]
fn sector_errors() {
    let mut disk = formatted(4);
    let mut buf = [0u8; 512];
    assert_eq!(read_sector(&disk, 7, &mut buf), Err(BlkError::OutOfRange));
    assert_eq!(write_sector(&mut disk, 7, &buf), Err(BlkError::OutOfRange));
    disk.read_status[3] = 2;
    disk.write_status[3] = 1;
    assert_eq!(read_sector(&disk, 3, &mut buf), Err(BlkError::DeviceError(2)));
    assert_eq!(write_sector(&mut disk, 3, &buf), Err(BlkError::DeviceError(1)));
    disk.online = false;
    assert_eq!(read_sector(&disk, 0, &mut buf), Err(BlkError::NotInitialized));
    assert_eq!(write_sector(&mut disk, 0, &buf), Err(BlkError::NotInitialized));
}

#[test]
fn mount_reads_the_boot_sector() {
    let v = Fat32::mount(&formatted(20)).unwrap();
    assert_eq!(v.sectors_per_cluster, 1);
    assert_eq!(v.fat_start_sector, 1);
    assert_eq!(v.data_start_sector, 3);
    assert_eq!(v.root_cluster, 2);
    assert_eq!(v.cluster_count, 20);
    assert_eq!(v.num_fats, 2);
    assert_eq!(v.fat_size, 1);
    assert!(v.valid_cluster(2) && v.valid_cluster(21));
    assert!(!v.valid_cluster(1) && !v.valid_cluster(22));
}

#[test]
fn mount_refuses_other_volumes() {
    let mut disk = formatted(4);
    disk.sectors[0][12] = 4;
    assert_eq!(refused(Fat32::mount(&disk)), FatError::UnsupportedSectorSize);
    let mut disk = formatted(4);
    disk.sectors[0][22] = 1;
    assert_eq!(refused(Fat32::mount(&disk)), FatError::NotFat32);
    let mut disk = formatted(4);
    disk.sectors[0][17] = 1;
    assert_eq!(refused(Fat32::mount(&disk)), FatError::NotFat32);
    let mut disk = formatted(4);
    disk.sectors[0][13] = 0;
    assert_eq!(refused(Fat32::mount(&disk)), FatError::NotFat32);
    let mut disk = formatted(4);
    disk.online = false;
    assert_eq!(refused(Fat32::mount(&disk)), FatError::Block(BlkError::NotInitialized));
}

#[test]
fn an_unmounted_volume_answers_with_the_mount_error() {
    let mut disk = formatted(4);
    disk.sectors[0][12] = 4;
    let mut fs = FileSystem::mount(disk).unwrap();
    assert_eq!(refused(fs.open(b"a")), FatError::UnsupportedSectorSize);
    assert_eq!(refused(fs.lookup(b"a")), FatError::UnsupportedSectorSize);
    assert_eq!(refused(fs.stat(b"a")), FatError::UnsupportedSectorSize);
    assert_eq!(refused(fs.write_file(b"a", b"x")), FatError::UnsupportedSectorSize);
    assert_eq!(refused(fs.mkdir(b"a")), FatError::UnsupportedSectorSize);
    assert_eq!(refused(fs.unlink(b"a")), FatError::UnsupportedSectorSize);
    assert_eq!(refused(fs.rmdir(b"a")), FatError::UnsupportedSectorSize);
}

#[test]
fn a_data_area_out_of_reach_is_not_mounted() {
    let mut disk = formatted(4);
    disk.sectors[0][36..40].copy_from_slice(&0xFFFF_FFFFu32.to_le_bytes());
    assert!(FileSystem::mount(disk).is_none());
}

#[test]
fn written_file_reads_back() {
    let mut fs = fresh(20);
    let data: Vec<u8> = (0..1300u32).map(|i| (i % 251) as u8).collect();
    assert_eq!(fs.write_file(b"DATA.BIN", &data), Ok(()));
    assert_eq!(fs.open(b"data.bin").unwrap(), data);
    assert_eq!(
        fs.stat(b"/data.bin").unwrap(),
        DirEntry { first_cluster: 3, size: 1300, is_dir: false }
    );
    assert_eq!(free_clusters(&fs, 20), 16);
}

#[test]
fn volume_reads_and_writes_by_name() {
    let mut disk = formatted(8);
    let v = Fat32::mount(&disk).unwrap();
    assert_eq!(v.mkdir(&mut disk, "SUB"), Ok(()));
    assert_eq!(v.write_file(&mut disk, "SUB/NOTE.TXT", b"hi"), Ok(()));
    assert_eq!(v.read_file(&disk, "/sub/note.txt").unwrap(), b"hi");
}

#[test]
fn empty_file_has_no_cluster() {
    let mut fs = fresh(4);
    assert_eq!(fs.write_file(b"E", b""), Ok(()));
    assert_eq!(fs.stat(b"E").unwrap(), DirEntry { first_cluster: 0, size: 0, is_dir: false });
    assert_eq!(fs.open(b"E").unwrap(), Vec::<u8>::new());
    assert_eq!(free_clusters(&fs, 4), 3);
}

#[test]
fn write_keeps_other_files() {
    let mut fs = fresh(20);
    assert_eq!(fs.write_file(b"A.TXT", b"first"), Ok(()));
    assert_eq!(fs.write_file(b"B.TXT", b"second"), Ok(()));
    assert_eq!(fs.write_file(b"A.TXT", &[9u8; 700]), Ok(()));
    assert_eq!(fs.open(b"B.TXT").unwrap(), b"second");
    assert_eq!(fs.open(b"A.TXT").unwrap(), vec![9u8; 700]);
}

#[test]
fn overwriting_frees_the_old_chain() {
    let mut fs = fresh(8);
    assert_eq!(fs.write_file(b"A", &[1u8; 1500]), Ok(()));
    assert_eq!(free_clusters(&fs, 8), 4);
    assert_eq!(fs.write_file(b"A", b"x"), Ok(()));
    assert_eq!(free_clusters(&fs, 8), 6);
    assert_eq!(fs.open(b"A").unwrap(), b"x");
}

#[test]
fn fat_copies_agree() {
    let mut fs = fresh(20);
    assert_eq!(fs.write_file(b"A", &[1u8; 2000]), Ok(()));
    assert_eq!(fs.mkdir(b"D"), Ok(()));
    assert_eq!(fs.unlink(b"A"), Ok(()));
    assert_eq!(fs.disk.sectors[1], fs.disk.sectors[2]);
}

#[test]
fn full_volume_leaks_nothing() {
    let mut fs = fresh(6);
    assert_eq!(fs.write_file(b"A", b"kept"), Ok(()));
    let before = free_clusters(&fs, 6);
    assert_eq!(fs.write_file(b"B", &[0u8; 512 * 5]), Err(FatError::NoSpace));
    assert_eq!(free_clusters(&fs, 6), before);
    assert_eq!(fs.open(b"A").unwrap(), b"kept");
    assert_eq!(refused(fs.open(b"B")), FatError::NotFound);
}

#[test]
fn failed_overwrite_keeps_the_file() {
    let mut fs = fresh(6);
    assert_eq!(fs.write_file(b"A", b"kept"), Ok(()));
    assert_eq!(fs.write_file(b"A", &[0u8; 512 * 5]), Err(FatError::NoSpace));
    assert_eq!(fs.open(b"A").unwrap(), b"kept");
}

#[test]
fn made_directory_is_empty() {
    let mut fs = fresh(8);
    assert_eq!(fs.mkdir(b"DOCS"), Ok(()));
    assert_eq!(
        names(fs.lookup(b"DOCS").unwrap()),
        vec![(".".to_string(), true), ("..".to_string(), true)]
    );
    assert_eq!(refused(fs.stat(b"DOCS/A")), FatError::NotFound);
    assert_eq!(names(fs.lookup(b"/").unwrap()), vec![("DOCS".to_string(), true)]);
    assert!(fs.stat(b"docs").unwrap().is_dir);
    // The first two entries of the new cluster name the directory itself and its parent.
    let cluster = fs.stat(b"DOCS").unwrap().first_cluster as usize;
    let sector = &fs.disk.sectors[3 + cluster - 2];
    assert_eq!(&sector[..11], b".          ");
    assert_eq!(&sector[32..43], b"..         ");
}

#[test]
fn listing_shows_short_names() {
    let mut fs = fresh(8);
    assert_eq!(fs.write_file(b"readme.md", b"1"), Ok(()));
    assert_eq!(fs.mkdir(b"bin"), Ok(()));
    assert_eq!(fs.write_file(b"noext", b"2"), Ok(()));
    assert_eq!(
        names(fs.lookup(b"").unwrap()),
        vec![
            ("README.MD".to_string(), false),
            ("BIN".to_string(), true),
            ("NOEXT".to_string(), false)
        ]
    );
}

#[test]
fn lookup_of_a_file_gives_its_bytes() {
    let mut fs = fresh(8);
    assert_eq!(fs.write_file(b"A", b"abc"), Ok(()));
    match fs.lookup(b"A") {
        Ok(Node::File(data)) => assert_eq!(data, b"abc"),
        _ => panic!("not a file"),
    }
}

#[test]
fn missing_paths_are_not_found() {
    let mut fs = fresh(8);
    assert_eq!(refused(fs.open(b"NOPE")), FatError::NotFound);
    assert_eq!(refused(fs.stat(b"NOPE")), FatError::NotFound);
    assert_eq!(refused(fs.lookup(b"NOPE/X")), FatError::NotFound);
    assert_eq!(fs.unlink(b"NOPE"), Err(FatError::NotFound));
    assert_eq!(fs.rmdir(b"NOPE"), Err(FatError::NotFound));
}

#[test]
fn kinds_of_names_are_told_apart() {
    let mut fs = fresh(8);
    assert_eq!(fs.write_file(b"F", b"1"), Ok(()));
    assert_eq!(fs.mkdir(b"D"), Ok(()));
    assert_eq!(refused(fs.open(b"F/X")), FatError::NotADirectory);
    assert_eq!(fs.rmdir(b"F"), Err(FatError::NotADirectory));
    assert_eq!(fs.unlink(b"D"), Err(FatError::IsADirectory));
    assert_eq!(refused(fs.open(b"D")), FatError::IsADirectory);
    assert_eq!(fs.mkdir(b"F"), Err(FatError::AlreadyExists));
    assert_eq!(fs.mkdir(b"D"), Err(FatError::AlreadyExists));
}

#[test]
fn only_empty_directories_go_away() {
    let mut fs = fresh(8);
    let before = free_clusters(&fs, 8);
    assert_eq!(fs.mkdir(b"D"), Ok(()));
    assert_eq!(fs.write_file(b"D/F", b"1"), Ok(()));
    assert_eq!(fs.rmdir(b"D"), Err(FatError::NotEmpty));
    assert_eq!(fs.unlink(b"D/F"), Ok(()));
    assert_eq!(fs.rmdir(b"D"), Ok(()));
    assert_eq!(refused(fs.stat(b"D")), FatError::NotFound);
    assert_eq!(free_clusters(&fs, 8), before);
}

#[test]
fn removed_entries_are_used_again() {
    let mut fs = fresh(8);
    assert_eq!(fs.write_file(b"A", b"1"), Ok(()));
    assert_eq!(fs.write_file(b"B", b"2"), Ok(()));
    assert_eq!(fs.unlink(b"A"), Ok(()));
    assert_eq!(fs.disk.sectors[3][0], 0xE5);
    assert_eq!(fs.write_file(b"C", b"3"), Ok(()));
    assert_eq!(
        names(fs.lookup(b"/").unwrap()),
        vec![("C".to_string(), false), ("B".to_string(), false)]
    );
}

#[test]
fn file_on_a_broken_chain_is_not_read() {
    let mut fs = fresh(8);
    assert_eq!(fs.write_file(b"A", &[7u8; 1000]), Ok(()));
    let first = fs.stat(b"A").unwrap().first_cluster as usize;
    for copy in 1..3 {
        let end = 0x0FFF_FFFFu32.to_le_bytes();
        fs.disk.sectors[copy][4 * first..4 * first + 4].copy_from_slice(&end);
    }
    assert_eq!(refused(fs.open(b"A")), FatError::BrokenChain);
    fs.disk.sectors[3][26] = 0;
    assert_eq!(refused(fs.open(b"A")), FatError::BrokenChain);
    fs.disk.sectors[3][28..32].copy_from_slice(&0u32.to_le_bytes());
    assert_eq!(fs.open(b"A").unwrap(), b"");
}

#[test]
fn failed_fat_copy_leaks_nothing() {
    let mut fs = fresh(8);
    assert_eq!(fs.write_file(b"A", b"kept"), Ok(()));
    let before = fs.disk.sectors.clone();
    fs.disk.write_status[2] = 1;
    assert_eq!(fs.write_file(b"B", &[1u8; 1500]), Err(FatError::Block(BlkError::DeviceError(1))));
    assert_eq!(fs.mkdir(b"D"), Err(FatError::Block(BlkError::DeviceError(1))));
    assert_eq!(fs.disk.sectors, before);
    fs.disk.write_status[2] = 0;
    // The disk fails when the contents are written, or the entry.
    for lba in [6, 3] {
        fs.disk.write_status[lba] = 1;
        assert!(fs.write_file(b"B", &[1u8; 1500]).is_err());
        fs.disk.write_status[lba] = 0;
        assert_eq!(free_clusters(&fs, 8), 6);
    }
    assert_eq!(fs.open(b"A").unwrap(), b"kept");
    assert_eq!(fs.write_file(b"B", &[1u8; 1500]), Ok(()));
}

#[test]
fn write_is_safe_at_every_step() {
    let mut fs = fresh(12);
    assert_eq!(fs.write_file(b"A", &[1u8; 1100]), Ok(()));
    assert_eq!(fs.write_file(b"B", b"other"), Ok(()));
    let mut sectors = fs.disk.sectors.clone();
    fs.disk.log.clear();
    assert_eq!(fs.write_file(b"A", &[2u8; 700]), Ok(()));
    // Two clusters in two copies of the FAT and their link, the contents, the entry, three clusters
    // freed.
    let log: Vec<usize> = fs.disk.log.iter().map(|c| c.lba).collect();
    assert_eq!(log, [1, 2, 1, 2, 1, 2, 8, 9, 3, 1, 2, 1, 2, 1, 2]);
    for (k, change) in fs.disk.log.iter().enumerate() {
        let mut cut = formatted(12);
        cut.sectors = sectors.clone();
        let cut = FileSystem::mount(cut).unwrap();
        let expected = if k <= 8 { vec![1u8; 1100] } else { vec![2u8; 700] };
        assert_eq!(cut.open(b"A").unwrap(), expected);
        assert_eq!(cut.open(b"B").unwrap(), b"other");
        assert_eq!(sectors[change.lba], change.old);
        sectors[change.lba] = change.new;
    }
    assert_eq!(sectors, fs.disk.sectors);
}

#[test]
fn directory_is_made_safely_at_every_step() {
    let mut fs = fresh(12);
    assert_eq!(fs.write_file(b"A", &[1u8; 1100]), Ok(()));
    let mut sectors = fs.disk.sectors.clone();
    fs.disk.log.clear();
    assert_eq!(fs.mkdir(b"D"), Ok(()));
    // A cluster in two copies of the FAT, the directory itself, its entry.
    let log: Vec<usize> = fs.disk.log.iter().map(|c| c.lba).collect();
    assert_eq!(log, [1, 2, 7, 3]);
    for change in fs.disk.log.iter() {
        let mut cut = formatted(12);
        cut.sectors = sectors.clone();
        let cut = FileSystem::mount(cut).unwrap();
        assert_eq!(cut.open(b"A").unwrap(), vec![1u8; 1100]);
        assert_eq!(refused(cut.stat(b"D")), FatError::NotFound);
        sectors[change.lba] = change.new;
    }
    // Each of the writes is refused in turn.
    for k in 0..4 {
        let mut fs = fresh(12);
        assert_eq!(fs.write_file(b"A", b"kept"), Ok(()));
        fs.disk.answers = [vec![0; k], vec![1]].concat();
        assert_eq!(fs.mkdir(b"D"), Err(FatError::Block(BlkError::DeviceError(1))));
        assert_eq!(free_clusters(&fs, 12), 10);
        assert_eq!(fs.open(b"A").unwrap(), b"kept");
    }
}

#[test]
fn removal_is_safe_at_every_step() {
    let mut fs = fresh(12);
    assert_eq!(fs.write_file(b"A", &[1u8; 700]), Ok(()));
    assert_eq!(fs.write_file(b"B", b"other"), Ok(()));
    let mut sectors = fs.disk.sectors.clone();
    fs.disk.log.clear();
    assert_eq!(fs.unlink(b"A"), Ok(()));
    // The entry, then two clusters in two copies of the FAT.
    let log: Vec<usize> = fs.disk.log.iter().map(|c| c.lba).collect();
    assert_eq!(log, [3, 1, 2, 1, 2]);
    for (k, change) in fs.disk.log.iter().enumerate() {
        let mut cut = formatted(12);
        cut.sectors = sectors.clone();
        let cut = FileSystem::mount(cut).unwrap();
        assert_eq!(cut.open(b"A").is_ok(), k == 0);
        assert_eq!(cut.open(b"B").unwrap(), b"other");
        sectors[change.lba] = change.new;
    }
}

#[test]
fn one_refused_write_leaks_nothing() {
    let answer = Err(FatError::Block(BlkError::DeviceError(1)));
    // Each write before the entry is refused in turn, the entry too.
    for k in 0..9 {
        let mut fs = fresh(12);
        assert_eq!(fs.write_file(b"A", b"kept"), Ok(()));
        fs.disk.answers = [vec![0; k], vec![1]].concat();
        assert_eq!(fs.write_file(b"B", &[2u8; 700]), answer);
        assert_eq!(fs.disk.used, k + 1);
        assert_eq!(free_clusters(&fs, 12), 10);
        assert_eq!(refused(fs.open(b"B")), FatError::NotFound);
        assert_eq!(fs.open(b"A").unwrap(), b"kept");
        assert_eq!(fs.write_file(b"B", &[2u8; 700]), Ok(()));
    }
}

#[test]
fn refused_release_keeps_the_new_file() {
    let mut fs = fresh(12);
    assert_eq!(fs.write_file(b"A", &[1u8; 1100]), Ok(()));
    fs.disk.answers = [vec![0; 9], vec![1]].concat();
    assert_eq!(fs.write_file(b"A", &[2u8; 700]), Ok(()));
    assert_eq!(fs.open(b"A").unwrap(), vec![2u8; 700]);
    // The old clusters are not given back.
    assert_eq!(free_clusters(&fs, 12), 6);
}

#[test]
fn refused_rollback_keeps_the_files() {
    let mut fs = fresh(12);
    assert_eq!(fs.write_file(b"A", &[1u8; 1100]), Ok(()));
    // The second sector of the contents is refused, and so is the first write that frees them.
    fs.disk.answers = vec![0, 0, 0, 0, 0, 0, 0, 1, 1];
    assert!(fs.write_file(b"A", &[2u8; 700]).is_err());
    assert_eq!(fs.open(b"A").unwrap(), vec![1u8; 1100]);
    assert_eq!(free_clusters(&fs, 12), 6);
}

#[test]
fn made_directory_is_not_made_again() {
    let mut fs = fresh(8);
    assert_eq!(fs.write_file(b"A", b"kept"), Ok(()));
    let free = free_clusters(&fs, 8);
    assert_eq!(fs.mkdir(b"D"), Ok(()));
    assert_eq!(free_clusters(&fs, 8), free - 1);
    let after = fs.disk.sectors.clone();
    assert_eq!(fs.mkdir(b"D"), Err(FatError::AlreadyExists));
    assert_eq!(fs.mkdir(b"d"), Err(FatError::AlreadyExists));
    assert_eq!(fs.disk.sectors, after);
    assert_eq!(refused(fs.open(b"D")), FatError::IsADirectory);
    assert_eq!(fs.open(b"A").unwrap(), b"kept");
    let c = fs.stat(b"D").unwrap().first_cluster as usize;
    let sector = &fs.disk.sectors[3 + c - 2];
    assert_eq!((&sector[0..11], &sector[32..43]), (&b".          "[..], &b"..         "[..]));
    assert_eq!((sector[26] as usize, sector[32 + 26]), (c, 0));
    assert!(sector[64..].iter().all(|b| *b == 0));
}

#[test]
fn letter_case_makes_no_difference() {
    let mut fs = fresh(12);
    assert_eq!(fs.mkdir(b"dir"), Ok(()));
    assert_eq!(fs.write_file(b"Dir/hello.Txt", b"hi"), Ok(()));
    assert_eq!(fs.open(b"DIR/HELLO.TXT").unwrap(), b"hi");
    assert_eq!(fs.write_file(b"dIR/HELLO.txt", b""), Ok(()));
    assert_eq!(fs.open(b"dir/hello.txt").unwrap(), b"");
    assert_eq!(fs.unlink(b"DIR/hello.TXT"), Ok(()));
    assert_eq!(refused(fs.open(b"dir/hello.txt")), FatError::NotFound);
}

#[test]
fn removed_path_is_gone_and_others_stay() {
    let mut fs = fresh(12);
    assert_eq!(fs.mkdir(b"D"), Ok(()));
    assert_eq!(fs.write_file(b"D/A", &[1u8; 700]), Ok(()));
    assert_eq!(fs.write_file(b"D/B", b"kept"), Ok(()));
    assert_eq!(fs.mkdir(b"D/E"), Ok(()));
    assert_eq!(fs.unlink(b"D/A"), Ok(()));
    assert_eq!(refused(fs.open(b"D/A")), FatError::NotFound);
    assert_eq!(fs.unlink(b"D/A"), Err(FatError::NotFound));
    assert_eq!(fs.open(b"D/B").unwrap(), b"kept");
    assert_eq!(fs.rmdir(b"D/E"), Ok(()));
    assert_eq!(refused(fs.stat(b"D/E")), FatError::NotFound);
    assert_eq!(fs.rmdir(b"D/E"), Err(FatError::NotFound));
    assert_eq!(fs.open(b"D/B").unwrap(), b"kept");
}

#[test]
fn full_directory_takes_no_more_names() {
    let mut fs = fresh(40);
    for i in 0..16u8 {
        assert_eq!(fs.write_file(&[b'A' + i], b"x"), Ok(()));
    }
    let before = free_clusters(&fs, 40);
    assert_eq!(fs.write_file(b"ONEMORE", b"x"), Err(FatError::DirFull));
    assert_eq!(fs.mkdir(b"ONEMORE"), Err(FatError::DirFull));
    assert_eq!(free_clusters(&fs, 40), before);
    assert_eq!(fs.open(b"P").unwrap(), b"x");
}

#[test]
fn device_errors_come_through() {
    let mut fs = fresh(8);
    assert_eq!(fs.write_file(b"A", b"1"), Ok(()));
    fs.disk.read_status[3] = 1;
    assert_eq!(refused(fs.open(b"A")), FatError::Block(BlkError::DeviceError(1)));
}

#[test]
fn long_and_label_entries_are_passed_over() {
    let mut fs = fresh(8);
    fill_dir_entry(&mut fs.disk.sectors[3][0..32], b"A          ", 0x0F, 0, 0);
    fill_dir_entry(&mut fs.disk.sectors[3][32..64], b"A          ", 0x08, 0, 0);
    assert_eq!(refused(fs.stat(b"A")), FatError::NotFound);
    assert_eq!(fs.write_file(b"A", b"1"), Ok(()));
    assert_eq!(names(fs.lookup(b"/").unwrap()), vec![("A".to_string(), false)]);
}

#[test]
fn directory_entry_layout() {
    let mut e = [0xAAu8; 32];
    fill_dir_entry(&mut e, b"NAME    EXT", 0x20, 0x0001_0203, 0x0405_0607);
    assert_eq!(&e[..11], b"NAME    EXT");
    assert_eq!(e[11], 0x20);
    assert_eq!(&e[20..22], &[0x01, 0x00]);
    assert_eq!(&e[26..28], &[0x03, 0x02]);
    assert_eq!(&e[28..32], &[0x07, 0x06, 0x05, 0x04]);
    assert_eq!(&e[12..20], &[0u8; 8]);
}

#[test]
fn short_names() {
    assert_eq!(&short_name_83(b"readme.txt"), b"README  TXT");
    assert_eq!(&short_name_83(b"bin"), b"BIN        ");
    assert_eq!(&short_name_83(b"averylongname.conf"), b"AVERYLONCON");
}

#[test]
fn paths_are_split_into_components() {
    assert_eq!(split(b"a:b::c", b':'), vec![b"a".to_vec(), b"b".to_vec(), b"".to_vec(), b"c".to_vec()]);
    assert_eq!(
        path_components(b"//usr/./bin/"),
        vec![b"usr".to_vec(), b".".to_vec(), b"bin".to_vec()]
    );
}

#[test]
fn normalized_paths() {
    assert_eq!(normalize(b"/a/./b/../c"), b"/a/c");
    assert_eq!(normalize(b"/../.."), b"/");
    assert_eq!(normalize(b""), b"/");
    let once = normalize(b"//x/y/../z//");
    assert_eq!(once, b"/x/z");
    assert_eq!(normalize(&once), once);
}

#[test]
fn resolved_paths() {
    assert_eq!(resolve_path(b"/home", b"file"), b"/home/file");
    assert_eq!(resolve_path(b"/home", b"/etc/x"), b"/etc/x");
    assert_eq!(resolve_path(b"/other", b"/etc/x"), b"/etc/x");
    assert_eq!(resolve_path(b"/", b"a/../b"), b"/b");
    assert_eq!(resolve_path(b"/home/me", b".."), b"/home");
}
