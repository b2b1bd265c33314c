//! Disks, partition tables, ext2, files in memory and pipes.
use forge_kernel::ahci::{self, AhciPort, DiskError};
use forge_kernel::diskview::{self, DiskJob, DiskStep};
use forge_kernel::ext2::{self, Ext2Fs, Inode};
use forge_kernel::partinfo::{self, TableKind};
use forge_kernel::pipe;
use forge_kernel::vfs;

/// Repeats a read, with every sector that it asks for, until it is settled.
fn settle<T>(
    disk: &[u8],
    port: &mut AhciPort,
    read: impl Fn(&AhciPort) -> Result<T, DiskError>,
) -> Result<T, DiskError> {
    loop {
        match read(port) {
            Err(DiskError::Pending(lba)) => {
                let at = lba as usize * 512;
                let data = if at + 512 <= disk.len() {
                    Some(disk[at..at + 512].to_vec())
                } else {
                    None
                };
                port.supply(lba, data);
            },
            r => return r,
        }
    }
}

fn put(disk: &mut [u8], at: usize, data: &[u8]) {
    disk[at..at + data.len()].copy_from_slice(data);
}

fn put16(disk: &mut [u8], at: usize, v: u16) {
    put(disk, at, &v.to_le_bytes());
}

fn put32(disk: &mut [u8], at: usize, v: u32) {
    put(disk, at, &v.to_le_bytes());
}

fn put64(disk: &mut [u8], at: usize, v: u64) {
    put(disk, at, &v.to_le_bytes());
}

// --- sectors -----------------------------------------------------------------------

#[test]
fn a_read_says_which_sector_it_needs() {
    let mut port = AhciPort::new();
    assert_eq!(ahci::read_sectors(&port, 5, 2), Err(DiskError::Pending(5)));
    port.supply(5, Some(vec![1u8; 512]));
    assert_eq!(ahci::read_sectors(&port, 5, 2), Err(DiskError::Pending(6)));
    port.supply(6, None);
    assert_eq!(ahci::read_sectors(&port, 5, 2), Err(DiskError::Failed(6)));
    port.supply(6, Some(vec![2u8; 512]));
    let v = ahci::read_sectors(&port, 5, 2).unwrap();
    assert_eq!((v[511], v[512], v.len()), (1, 2, 1024));
    assert_eq!(ahci::read_bytes(&port, 5 * 512 + 510, 4), Ok(vec![1, 1, 2, 2]));
    assert_eq!(ahci::read_bytes(&port, 0, 0), Ok(vec![]));
    assert_eq!(ahci::read_bytes(&port, u64::MAX, 1), Err(DiskError::Invalid(ahci::ERR_RANGE)));
    assert_eq!(ahci::read_sectors(&port, u64::MAX, 2), Err(DiskError::Pending(u64::MAX)));
}

// --- partitions --------------------------------------------------------------------

fn mbr_disk() -> Vec<u8> {
    let mut d = vec![0u8; 512 * 400];
    put(&mut d, 510, &[0x55, 0xAA]);
    // FAT32 at sector 2, ext3 at sector 8, btrfs at sector 100.
    for (i, kind, start, count) in [(0, 0x0Cu8, 2u32, 4u32), (1, 0x83, 8, 20), (3, 0x83, 100, 300)] {
        let off = 446 + 16 * i;
        d[off + 4] = kind;
        put32(&mut d, off + 8, start);
        put32(&mut d, off + 12, count);
    }
    put(&mut d, 2 * 512 + 82, b"FAT32   ");
    put(&mut d, 2 * 512 + 510, &[0x55, 0xAA]);
    put16(&mut d, 8 * 512 + 1024 + 56, 0xEF53);
    put32(&mut d, 8 * 512 + 1024 + 92, 0x0004);
    put(&mut d, 100 * 512 + 0x1_0040, b"_BHRfS_M");
    d
}

#[test]
fn an_mbr_lists_its_partitions() {
    let d = mbr_disk();
    let mut port = AhciPort::new();
    let (kind, parts) = settle(&d, &mut port, partinfo::scan).unwrap();
    assert_eq!(kind, TableKind::Mbr);
    assert_eq!(parts.len(), 3);
    assert_eq!((parts[0].index, parts[0].start_lba, parts[0].sector_count), (1, 2, 4));
    assert_eq!((parts[0].mbr_type, parts[0].filesystem), (Some(0x0C), "fat32"));
    assert_eq!((parts[1].index, parts[1].filesystem), (2, "ext3"));
    assert_eq!((parts[2].index, parts[2].filesystem), (4, "btrfs"));
    assert!(parts[2].gpt_name.is_none());
}

#[test]
fn file_systems_are_told_apart() {
    let mut d = vec![0u8; 512 * 200];
    let detect = |d: &[u8]| settle(d, &mut AhciPort::new(), |p| partinfo::detect_filesystem(p, 0));
    assert_eq!(detect(&d), Ok("desconocido"));
    put(&mut d, 510, &[0x55, 0xAA]);
    put(&mut d, 3, b"NTFS    ");
    assert_eq!(detect(&d), Ok("ntfs"));
    put16(&mut d, 1024 + 56, 0xEF53);
    assert_eq!(detect(&d), Ok("ext2"));
    put32(&mut d, 1024 + 96, 0x0040);
    assert_eq!(detect(&d), Ok("ext4"));
    // What cannot be read is not there.
    assert_eq!(detect(&d[0..0]), Ok("desconocido"));
    assert_eq!(
        settle(&d, &mut AhciPort::new(), |p| partinfo::detect_filesystem(p, u64::MAX)),
        Ok("desconocido")
    );
}

#[test]
fn a_disk_without_a_table_is_an_error() {
    let d = vec![0u8; 1024];
    let r = settle(&d, &mut AhciPort::new(), partinfo::scan);
    assert_eq!(r.err(), Some(DiskError::Invalid(partinfo::ERR_NO_MBR)));
    let r = settle(&[], &mut AhciPort::new(), partinfo::scan);
    assert_eq!(r.err(), Some(DiskError::Failed(0)));
}

fn gpt_disk() -> Vec<u8> {
    let mut d = vec![0u8; 512 * 400];
    put(&mut d, 510, &[0x55, 0xAA]);
    d[450] = 0xEE;
    put(&mut d, 512, b"EFI PART");
    put64(&mut d, 512 + 72, 2);
    put32(&mut d, 512 + 80, 4);
    put32(&mut d, 512 + 84, 128);
    let entry = 1024 + 2 * 128;
    d[entry] = 1;
    put64(&mut d, entry + 32, 40);
    put64(&mut d, entry + 40, 59);
    for (i, u) in "datos \u{1F600}".encode_utf16().enumerate() {
        put16(&mut d, entry + 56 + 2 * i, u);
    }
    put16(&mut d, 40 * 512 + 1024 + 56, 0xEF53);
    d
}

#[test]
fn a_gpt_lists_its_partitions() {
    let d = gpt_disk();
    let (kind, parts) = settle(&d, &mut AhciPort::new(), partinfo::scan).unwrap();
    assert_eq!(kind, TableKind::Gpt);
    assert_eq!(parts.len(), 1);
    assert_eq!((parts[0].index, parts[0].start_lba, parts[0].sector_count), (3, 40, 20));
    assert_eq!(parts[0].gpt_name.as_deref(), Some("datos \u{1F600}"));
    assert_eq!((parts[0].mbr_type, parts[0].filesystem), (None, "ext2"));
}

#[test]
fn broken_gpts_are_errors() {
    let scan = |d: &[u8]| settle(d, &mut AhciPort::new(), partinfo::scan).err();
    let mut d = gpt_disk();
    d[512] = 0;
    assert_eq!(scan(&d), Some(DiskError::Invalid(partinfo::ERR_GPT_MAGIC)));
    let mut d = gpt_disk();
    put32(&mut d, 512 + 84, 64);
    assert_eq!(scan(&d), Some(DiskError::Invalid(partinfo::ERR_GPT_ENTRY_SIZE)));
    let mut d = gpt_disk();
    put64(&mut d, 1024 + 2 * 128 + 40, 39);
    assert_eq!(scan(&d), Some(DiskError::Invalid(partinfo::ERR_GPT_RANGE)));
    let mut d = gpt_disk();
    put64(&mut d, 512 + 72, u64::MAX);
    assert_eq!(scan(&d), Some(DiskError::Invalid(ahci::ERR_RANGE)));
    let mut d = gpt_disk();
    put32(&mut d, 512 + 80, 0);
    assert_eq!(scan(&d), None);
}

#[test]
fn a_broken_name_shows_replacements() {
    let mut d = gpt_disk();
    put16(&mut d, 1024 + 2 * 128 + 56, 0xD800);
    put16(&mut d, 1024 + 2 * 128 + 58, 0x0041);
    put16(&mut d, 1024 + 2 * 128 + 60, 0);
    let (_, parts) = settle(&d, &mut AhciPort::new(), partinfo::scan).unwrap();
    assert_eq!(parts[0].gpt_name.as_deref(), Some("\u{FFFD}A"));
}

#[test]
fn knowing_more_changes_no_answer() {
    let d = mbr_disk();
    let mut port = AhciPort::new();
    let (_, parts) = settle(&d, &mut port, partinfo::scan).unwrap();
    for lba in 0..400 {
        port.supply(lba, Some(d[lba as usize * 512..][..512].to_vec()));
    }
    let (_, again) = partinfo::scan(&port).unwrap();
    assert_eq!(parts.len(), again.len());
    assert_eq!(parts[1].filesystem, again[1].filesystem);
}

// --- ext2 --------------------------------------------------------------------------

fn entry(d: &mut [u8], at: usize, inode: u32, rec_len: u16, kind: u8, name: &[u8]) {
    put32(d, at, inode);
    put16(d, at + 4, rec_len);
    d[at + 6] = name.len() as u8;
    d[at + 7] = kind;
    put(d, at + 8, name);
}

fn inode(d: &mut [u8], inum: usize, mode: u16, size: u32, blocks: &[u32]) {
    let at = 5 * 1024 + (inum - 1) * 128;
    put16(d, at, mode);
    put32(d, at + 4, size);
    for (i, b) in blocks.iter().enumerate() {
        put32(d, at + 40 + 4 * i, *b);
    }
}

/// 1 KiB blocks: descriptors in block 2, inodes from block 5 on. The root holds
/// `hola.txt`, `grande` and the directory `sub` with `dentro`.
fn ext2_disk() -> Vec<u8> {
    let mut d = vec![0u8; 1024 * 64];
    put32(&mut d, 1024 + 20, 1);
    put32(&mut d, 1024 + 40, 32);
    put16(&mut d, 1024 + 56, 0xEF53);
    put32(&mut d, 2048 + 8, 5);
    inode(&mut d, 2, 0x41ED, 1024, &[10]);
    inode(&mut d, 11, 0x81A4, 5, &[20]);
    inode(&mut d, 12, 0x41ED, 1024, &[11]);
    inode(&mut d, 13, 0x81A4, 13 * 1024 + 3, &[21, 22, 23, 24, 25, 26, 27, 28, 29, 30, 31, 32, 40]);
    inode(&mut d, 14, 0x81A4, 2, &[33]);
    let root = 10 * 1024;
    entry(&mut d, root, 2, 12, 2, b".");
    entry(&mut d, root + 12, 2, 12, 2, b"..");
    entry(&mut d, root + 24, 11, 20, 1, b"hola.txt");
    entry(&mut d, root + 44, 0, 16, 1, b"borrado");
    entry(&mut d, root + 60, 13, 16, 1, b"grande");
    entry(&mut d, root + 76, 15, 12, 1, &[0xFF, 0xFE]);
    entry(&mut d, root + 88, 12, 1024 - 88, 2, b"sub");
    entry(&mut d, 11 * 1024, 14, 1024, 1, b"dentro");
    put(&mut d, 20 * 1024, b"hola!");
    put(&mut d, 33 * 1024, b"si");
    d[21 * 1024] = b'a';
    put32(&mut d, 40 * 1024, 41);
    put32(&mut d, 40 * 1024 + 4, 42);
    put(&mut d, 41 * 1024 + 1022, b"xy");
    put(&mut d, 42 * 1024, b"fin-");
    d
}

fn mounted(d: &[u8], port: &mut AhciPort) -> Ext2Fs {
    settle(d, port, Ext2Fs::mount).unwrap()
}

fn find(d: &[u8], path: &str) -> Result<Inode, DiskError> {
    let mut port = AhciPort::new();
    let fs = mounted(d, &mut port);
    settle(d, &mut port, |p| fs.resolve(p, path))
}

fn contents(d: &[u8], path: &str) -> Result<Vec<u8>, DiskError> {
    let mut port = AhciPort::new();
    let fs = mounted(d, &mut port);
    let node = settle(d, &mut port, |p| fs.resolve(p, path))?;
    settle(d, &mut port, |p| fs.read_inode_data(p, &node))
}

#[test]
fn a_file_system_is_mounted() {
    let d = ext2_disk();
    let fs = mounted(&d, &mut AhciPort::new());
    assert_eq!(fs, Ext2Fs { block_size: 1024, inodes_per_group: 32, inode_size: 128, bgdt_block: 2 });
    let mount = |d: &[u8]| settle(d, &mut AhciPort::new(), Ext2Fs::mount).err();
    let mut bad = ext2_disk();
    put16(&mut bad, 1024 + 56, 0);
    assert_eq!(mount(&bad), Some(DiskError::Invalid(ext2::ERR_MAGIC)));
    let mut bad = ext2_disk();
    put32(&mut bad, 1024 + 24, 3);
    assert_eq!(mount(&bad), Some(DiskError::Invalid(ext2::ERR_BLOCK_SIZE)));
    let mut bad = ext2_disk();
    put32(&mut bad, 1024 + 20, u32::MAX);
    assert_eq!(mount(&bad), Some(DiskError::Invalid(ext2::ERR_GEOMETRY)));
    // Numbers that place no inode are noticed where an inode is needed.
    let mut bad = ext2_disk();
    put32(&mut bad, 1024 + 40, 0);
    assert_eq!(mounted(&bad, &mut AhciPort::new()).inodes_per_group, 0);
    assert_eq!(find(&bad, "/").err(), Some(DiskError::Invalid(ext2::ERR_GEOMETRY)));
    for size in [0, 2048] {
        let mut bad = ext2_disk();
        put32(&mut bad, 1024 + 76, 1);
        put16(&mut bad, 1024 + 88, size);
        assert_eq!(mounted(&bad, &mut AhciPort::new()).inode_size, size as u32);
        assert_eq!(find(&bad, "/").err(), Some(DiskError::Invalid(ext2::ERR_GEOMETRY)));
    }
    let mut new = ext2_disk();
    put32(&mut new, 1024 + 76, 1);
    put16(&mut new, 1024 + 88, 256);
    assert_eq!(mounted(&new, &mut AhciPort::new()).inode_size, 256);
}

#[test]
fn directories_are_listed() {
    let d = ext2_disk();
    let mut port = AhciPort::new();
    let fs = mounted(&d, &mut port);
    let root = settle(&d, &mut port, |p| fs.resolve(p, "/")).unwrap();
    assert!(root.is_dir());
    let entries = settle(&d, &mut port, |p| fs.read_dir(p, &root)).unwrap();
    let names: Vec<&str> = entries.iter().map(|e| e.name.as_str()).collect();
    assert_eq!(names, [".", "..", "hola.txt", "grande", "sub"]);
    assert_eq!((entries[4].inode, entries[4].is_dir), (12, true));
    assert!(!entries[2].is_dir);
    let file = settle(&d, &mut port, |p| fs.read_inode(p, 11)).unwrap();
    assert_eq!(
        settle(&d, &mut port, |p| fs.read_dir(p, &file)).err(),
        Some(DiskError::Invalid(ext2::ERR_NOT_DIR))
    );
}

#[test]
fn files_are_read_whole() {
    let d = ext2_disk();
    assert_eq!(contents(&d, "/hola.txt"), Ok(b"hola!".to_vec()));
    assert_eq!(contents(&d, "//sub///dentro/"), Ok(b"si".to_vec()));
    let big = contents(&d, "/grande").unwrap();
    assert_eq!(big.len(), 13 * 1024 + 3);
    assert_eq!(big[0], b'a');
    assert_eq!(&big[13 * 1024 - 2..], b"xyfin");
}

#[test]
fn paths_that_lead_nowhere_are_errors() {
    let d = ext2_disk();
    assert_eq!(find(&d, "/nada").err(), Some(DiskError::Invalid(ext2::ERR_NOT_FOUND)));
    assert_eq!(find(&d, "/hola.txt/x").err(), Some(DiskError::Invalid(ext2::ERR_COMPONENT)));
    assert!(find(&d, "").unwrap().is_dir());
}

#[test]
fn inodes_are_checked() {
    let d = ext2_disk();
    let mut port = AhciPort::new();
    let fs = mounted(&d, &mut port);
    let read = |n: u32| settle(&d, &mut AhciPort::new(), |p| fs.read_inode(p, n)).err();
    assert_eq!(read(0), Some(DiskError::Invalid(ext2::ERR_INODE_ZERO)));
    assert!(matches!(read(u32::MAX), Some(DiskError::Failed(_))));
    let odd = Ext2Fs { inode_size: 100, ..fs };
    assert_eq!(
        settle(&d, &mut AhciPort::new(), |p| odd.read_inode(p, 10)).err(),
        Some(DiskError::Invalid(ext2::ERR_INODE_RANGE))
    );
    let far = Ext2Fs { bgdt_block: u32::MAX, ..fs };
    assert_eq!(
        settle(&d, &mut AhciPort::new(), |p| far.read_inode(p, 32 * 32 + 1)).err(),
        Some(DiskError::Invalid(ext2::ERR_GEOMETRY))
    );
}

#[test]
fn files_out_of_reach_are_never_cut_short() {
    let d = ext2_disk();
    let mut port = AhciPort::new();
    let fs = mounted(&d, &mut port);
    let read = |n: &Inode| settle(&d, &mut AhciPort::new(), |p| fs.read_inode_data(p, n)).err();
    let mut block = [20u32; 15];
    assert_eq!(
        read(&Inode { mode: 0x81A4, size: (12 + 256) * 1024 + 1, block }),
        Some(DiskError::Invalid(ext2::ERR_DOUBLE_INDIRECT))
    );
    block[12] = 0;
    assert_eq!(
        read(&Inode { mode: 0x81A4, size: 12 * 1024 + 1, block }),
        Some(DiskError::Invalid(ext2::ERR_NO_INDIRECT))
    );
}

#[test]
fn a_broken_directory_ends_early() {
    let mut d = ext2_disk();
    put16(&mut d, 10 * 1024 + 24 + 4, 4);
    assert_eq!(find(&d, "/hola.txt").err(), Some(DiskError::Invalid(ext2::ERR_NOT_FOUND)));
    let mut d = ext2_disk();
    // The name of the last entry would run out of the block.
    put16(&mut d, 10 * 1024 + 76 + 4, (1024 - 8 - 76) as u16);
    entry(&mut d, 11 * 1024 - 8, 12, 8, 2, b"");
    d[11 * 1024 - 2] = 3;
    assert_eq!(find(&d, "/sub").err(), Some(DiskError::Invalid(ext2::ERR_NOT_FOUND)));
    assert!(find(&d, "/grande").is_ok());
}

// --- files in memory and pipes -------------------------------------------------------

#[test]
fn files_are_written_read_and_listed() {
    let mut fs = vfs::init();
    assert_eq!(vfs::read(&fs, "a"), None);
    vfs::write(&mut fs, "b", b"dos");
    vfs::write(&mut fs, "a", b"uno");
    vfs::write(&mut fs, "\u{F1}", b"");
    vfs::write(&mut fs, "b", b"tres");
    assert_eq!(vfs::read(&fs, "b"), Some(b"tres".to_vec()));
    assert_eq!(vfs::read(&fs, "a"), Some(b"uno".to_vec()));
    assert_eq!(vfs::list(&fs), ["a", "b", "\u{F1}"]);
    assert!(vfs::delete(&mut fs, "a"));
    assert!(!vfs::delete(&mut fs, "a"));
    assert_eq!(vfs::list(&fs), ["b", "\u{F1}"]);
}

#[test]
fn pipes_keep_the_order() {
    let mut r = pipe::init();
    let a = pipe::create(&mut r);
    let b = pipe::create(&mut r);
    assert_ne!(a, b);
    assert_eq!(pipe::write(&mut r, a, b"hola"), Ok(4));
    assert_eq!(pipe::write(&mut r, a, b" que"), Ok(4));
    assert_eq!(pipe::pending(&r, a), Some(8));
    assert_eq!(pipe::read(&mut r, a, 6), Ok(b"hola q".to_vec()));
    assert_eq!(pipe::read(&mut r, a, 6), Ok(b"ue".to_vec()));
    assert_eq!(pipe::read(&mut r, a, 6), Ok(vec![]));
    assert_eq!(pipe::pending(&r, b), Some(0));
    assert!(pipe::close(&mut r, a));
    assert!(!pipe::close(&mut r, a));
    assert_eq!(pipe::write(&mut r, a, b"x"), Err(pipe::ERR_NO_PIPE));
    assert_eq!(pipe::read(&mut r, a, 1), Err(pipe::ERR_NO_PIPE));
    assert_eq!(pipe::pending(&r, a), None);
}

#[test]
fn a_full_pipe_takes_what_fits() {
    let mut r = pipe::init();
    let a = pipe::create(&mut r);
    assert_eq!(pipe::write(&mut r, a, &[1u8; 4000]), Ok(4000));
    assert_eq!(pipe::write(&mut r, a, &[2u8; 200]), Ok(96));
    assert_eq!(pipe::write(&mut r, a, &[3u8; 1]), Ok(0));
    assert_eq!(pipe::pending(&r, a), Some(pipe::PIPE_CAPACITY));
}

// --- what the console shows ----------------------------------------------------------

/// Carries a job out on a disk that can be read.
fn shown(d: &[u8], job: &DiskJob) -> String {
    let mut port = AhciPort::new();
    loop {
        match diskview::run_job(&port, job) {
            DiskStep::Read(lba) => {
                let at = lba as usize * 512;
                port.supply(lba, d.get(at..at + 512).map(|s| s.to_vec()));
            },
            DiskStep::Print(out) => return String::from_utf8(out).unwrap(),
        }
    }
}

#[test]
fn partitions_are_shown() {
    let d = mbr_disk();
    let (_, parts) = settle(&d, &mut AhciPort::new(), partinfo::scan).unwrap();
    let mut want = String::from("tabla MBR\r\n");
    for p in &parts {
        want += &format!(
            "{}: LBA {}, {} sectores, tipo 0x{:02x}, {}\r\n",
            p.index,
            p.start_lba,
            p.sector_count,
            p.mbr_type.unwrap(),
            p.filesystem
        );
    }
    assert!(parts.len() > 1);
    assert_eq!(shown(&d, &DiskJob::Partitions), want);
    let d = gpt_disk();
    let (_, parts) = settle(&d, &mut AhciPort::new(), partinfo::scan).unwrap();
    let line = shown(&d, &DiskJob::Partitions);
    assert!(line.starts_with("tabla GPT\r\n"));
    assert!(line.contains(&format!(", nombre '{}', ", parts[0].gpt_name.as_ref().unwrap())));
    assert_eq!(
        shown(&vec![0u8; 512], &DiskJob::Partitions),
        format!("FALLO: {}\r\n", partinfo::ERR_NO_MBR)
    );
    assert_eq!(shown(&[], &DiskJob::Partitions), "FALLO: no se pudo leer el sector 0\r\n");
}

#[test]
fn directories_and_files_are_shown() {
    let d = ext2_disk();
    assert_eq!(shown(&d, &DiskJob::List("/".to_string())), "./\r\n../\r\nhola.txt\r\ngrande\r\nsub/\r\n");
    assert_eq!(shown(&d, &DiskJob::List("/sub".to_string())), "dentro\r\n");
    assert_eq!(shown(&d, &DiskJob::Show("/hola.txt".to_string())), "hola!\r\n");
    assert_eq!(shown(&d, &DiskJob::Show("/sub/dentro".to_string())), "si\r\n");
    assert_eq!(
        shown(&d, &DiskJob::Show("/nada".to_string())),
        format!("FALLO: {}\r\n", ext2::ERR_NOT_FOUND)
    );
    assert_eq!(
        shown(&d, &DiskJob::List("/hola.txt".to_string())),
        format!("FALLO: {}\r\n", ext2::ERR_NOT_DIR)
    );
}

#[test]
fn paths_join_at_a_slash() {
    let d = ext2_disk();
    assert_eq!(contents(&d, "/sub").is_ok(), true);
    assert_eq!(contents(&d, "/sub/dentro"), contents(&d, "sub//dentro"));
    assert_eq!(contents(&d, "/sub/dentro").unwrap(), b"si");
}
