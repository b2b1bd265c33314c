//! Partition tables (MBR and GPT) and the file systems in them.
//!
//! A file system is recognised by its own signature, not by the type in the
//! partition table, which may be out of date or too general.
use vstd::prelude::*;
use crate::ahci::{self, AhciPort, DiskError, Sectors};
use crate::bytes;
use crate::text;

verus! {

pub const MBR_TYPE_GPT_PROTECTIVE: u8 = 0xEE;

pub const EXT2_MAGIC: u16 = 0xEF53;

/// Bit of the compatible features: a journal.
pub const EXT2_FEATURE_COMPAT_HAS_JOURNAL: u32 = 0x0004;

/// Bits of the incompatible features: extents, 64-bit block numbers.
pub const EXT4_FEATURES: u32 = 0x00C0;

pub const BTRFS_SUPERBLOCK_OFFSET: u64 = 0x1_0040;

pub const ERR_NO_MBR: &'static str =
    "sector 0: sin firma MBR 0x55AA — ¿disco sin particionar o sin formato reconocido?";

pub const ERR_GPT_MAGIC: &'static str = "cabecera GPT: magic \"EFI PART\" no coincide";

pub const ERR_GPT_ENTRY_SIZE: &'static str = "tamaño de entrada GPT inesperado (< 128 bytes)";

pub const ERR_GPT_RANGE: &'static str = "entrada GPT con un rango de sectores inválido";

#[derive(Clone, Copy, PartialEq, Eq, Debug, Structural)]
pub enum TableKind {
    Mbr,
    Gpt,
}

pub struct Partition {
    pub index: u32,
    pub start_lba: u64,
    pub sector_count: u64,
    /// Type byte in an MBR. `None` for GPT.
    pub mbr_type: Option<u8>,
    /// Name in a GPT. `None` for MBR.
    pub gpt_name: Option<String>,
    pub filesystem: &'static str,
}

/// What a [`Partition`] says.
pub struct PartitionInfo {
    pub index: u32,
    pub start_lba: u64,
    pub sector_count: u64,
    pub mbr_type: Option<u8>,
    pub gpt_name: Option<Seq<char>>,
    pub filesystem: &'static str,
}

impl View for Partition {
    type V = PartitionInfo;

    open spec fn view(&self) -> PartitionInfo {
        PartitionInfo {
            index: self.index,
            start_lba: self.start_lba,
            sector_count: self.sector_count,
            mbr_type: self.mbr_type,
            gpt_name: match self.gpt_name {
                Some(s) => Some(s@),
                None => None,
            },
            filesystem: self.filesystem,
        }
    }
}

/// What a list of partitions says.
pub open spec fn infos(s: Seq<Partition>) -> Seq<PartitionInfo> {
    s.map_values(|p: Partition| p@)
}

// --- file systems --------------------------------------------------------------

/// Whether a read gave these bytes.
pub open spec fn gave(r: Result<Seq<u8>, DiskError>, b: Seq<u8>) -> bool {
    r matches Ok(s) && s == b
}

/// The member of the ext family that a superblock describes. `None` if it is
/// none.
pub open spec fn ext_kind(sb: Seq<u8>) -> Option<&'static str> {
    if bytes::le16(sb, 56) != EXT2_MAGIC {
        None
    } else if (bytes::le32(sb, 96) as u32) & EXT4_FEATURES != 0 {
        Some("ext4")
    } else if (bytes::le32(sb, 92) as u32) & EXT2_FEATURE_COMPAT_HAS_JOURNAL != 0 {
        Some("ext3")
    } else {
        Some("ext2")
    }
}

/// The file system that a boot sector describes. `None` if it is none.
pub open spec fn boot_kind(boot: Seq<u8>) -> Option<&'static str> {
    if boot[510] != 0x55 || boot[511] != 0xAA {
        None
    } else if boot.subrange(82, 90) == seq![0x46u8, 0x41, 0x54, 0x33, 0x32, 0x20, 0x20, 0x20] {
        Some("fat32")
    } else if boot.subrange(3, 11) == seq![0x4Eu8, 0x54, 0x46, 0x53, 0x20, 0x20, 0x20, 0x20] {
        Some("ntfs")
    } else {
        None
    }
}

/// Magic of a btrfs superblock: "_BHRfS_M".
pub open spec fn btrfs_magic() -> Seq<u8> {
    seq![0x5Fu8, 0x42, 0x48, 0x52, 0x66, 0x53, 0x5F, 0x4D]
}

/// The file system that starts at a sector. What cannot be read is taken as not
/// being there; only an unknown sector holds the answer up.
pub open spec fn filesystem_at(d: Sectors, start_lba: int) -> Result<&'static str, DiskError> {
    let base = start_lba * 512;
    let sb = ahci::disk_bytes(d, base + 1024, 1024);
    let boot = ahci::disk_bytes(d, base, 512);
    let tree = ahci::disk_bytes(d, base + BTRFS_SUPERBLOCK_OFFSET, 8);
    if ahci::unsettled(sb) {
        Err(sb->Err_0)
    } else if sb is Ok && ext_kind(sb->Ok_0) is Some {
        Ok(ext_kind(sb->Ok_0)->0)
    } else if ahci::unsettled(boot) {
        Err(boot->Err_0)
    } else if boot is Ok && boot_kind(boot->Ok_0) is Some {
        Ok(boot_kind(boot->Ok_0)->0)
    } else if ahci::unsettled(tree) {
        Err(tree->Err_0)
    } else if gave(tree, btrfs_magic()) {
        Ok("btrfs")
    } else {
        Ok("desconocido")
    }
}

/// Reads bytes at an offset from the start of a sector.
fn read_at(port: &AhciPort, start_lba: u64, extra: u64, len: u64) -> (r: Result<
    Vec<u8>,
    DiskError,
>)
    requires
        port.wf(),
        len > 0,
    ensures
        match ahci::disk_bytes(port@, start_lba * 512 + extra, len as int) {
            Ok(s) => r matches Ok(v) && v@ == s,
            Err(e) => r matches Err(e2) && e2 == e,
        },
        r matches Ok(v) ==> v@.len() == len,
{
    if start_lba > (u64::MAX - extra) / 512 {
        return Err(DiskError::Invalid(ahci::ERR_RANGE));
    }
    ahci::read_bytes(port, start_lba * 512 + extra, len)
}

/// Whether eight bytes of `buf` from `off` on are these.
fn eight_at(buf: &Vec<u8>, off: usize, want: &[u8; 8]) -> (r: bool)
    requires
        off + 8 <= buf.len(),
    ensures
        r == (buf@.subrange(off as int, off + 8) == want@),
{
    let mut i: usize = 0;
    while i < 8
        invariant
            i <= 8,
            off + 8 <= buf.len(),
            forall|j: int| 0 <= j < i ==> buf@[off + j] == #[trigger] want@[j],
        decreases 8 - i,
    {
        if buf[off + i] != want[i] {
            assert(buf@.subrange(off as int, off + 8)[i as int] != want@[i as int]);
            return false;
        }
        i += 1;
    }
    assert(buf@.subrange(off as int, off + 8) =~= want@);
    true
}

/// The file system at the start of a partition, or of a disk without partitions
/// (`start_lba` 0).
pub fn detect_filesystem(port: &AhciPort, start_lba: u64) -> (r: Result<&'static str, DiskError>)
    requires
        port.wf(),
    ensures
        r == filesystem_at(port@, start_lba as int),
{
    match read_at(port, start_lba, 1024, 1024) {
        Ok(sb) => {
            let sb = sb.as_slice();
            if bytes::u16_at(sb, 56) == EXT2_MAGIC {
                let feature_compat = bytes::u32_at(sb, 92);
                let feature_incompat = bytes::u32_at(sb, 96);
                if feature_incompat & EXT4_FEATURES != 0 {
                    return Ok("ext4");
                }
                if feature_compat & EXT2_FEATURE_COMPAT_HAS_JOURNAL != 0 {
                    return Ok("ext3");
                }
                return Ok("ext2");
            }
        },
        Err(DiskError::Pending(lba)) => {
            return Err(DiskError::Pending(lba));
        },
        Err(_) => {},
    }
    match read_at(port, start_lba, 0, 512) {
        Ok(boot) => {
            if boot[510] == 0x55 && boot[511] == 0xAA {
                let fat32: [u8; 8] = [0x46, 0x41, 0x54, 0x33, 0x32, 0x20, 0x20, 0x20];
                assert(fat32@ =~= seq![0x46u8, 0x41, 0x54, 0x33, 0x32, 0x20, 0x20, 0x20]);
                if eight_at(&boot, 82, &fat32) {
                    return Ok("fat32");
                }
                let ntfs: [u8; 8] = [0x4E, 0x54, 0x46, 0x53, 0x20, 0x20, 0x20, 0x20];
                assert(ntfs@ =~= seq![0x4Eu8, 0x54, 0x46, 0x53, 0x20, 0x20, 0x20, 0x20]);
                if eight_at(&boot, 3, &ntfs) {
                    return Ok("ntfs");
                }
            }
        },
        Err(DiskError::Pending(lba)) => {
            return Err(DiskError::Pending(lba));
        },
        Err(_) => {},
    }
    match read_at(port, start_lba, BTRFS_SUPERBLOCK_OFFSET, 8) {
        Ok(sb) => {
            let magic: [u8; 8] = [0x5F, 0x42, 0x48, 0x52, 0x66, 0x53, 0x5F, 0x4D];
            assert(magic@ =~= btrfs_magic());
            assert(sb@.subrange(0, 8) =~= sb@);
            if eight_at(&sb, 0, &magic) {
                return Ok("btrfs");
            }
        },
        Err(DiskError::Pending(lba)) => {
            return Err(DiskError::Pending(lba));
        },
        Err(_) => {},
    }
    Ok("desconocido")
}

// --- GPT ---------------------------------------------------------------------------

/// The 16-bit units from `off` on, up to a zero or to `end`.
pub open spec fn name_units(b: Seq<u8>, off: int, end: int) -> Seq<u16>
    decreases end - off,
{
    if off + 2 > end || bytes::le16(b, off) == 0 {
        Seq::empty()
    } else {
        seq![bytes::le16(b, off) as u16] + name_units(b, off + 2, end)
    }
}

/// The name of a GPT entry at `at`.
pub open spec fn entry_name(b: Seq<u8>, at: int) -> Seq<char> {
    text::decode_utf16(name_units(b, at + 56, at + 128), 0)
}

fn decode_gpt_name(array: &[u8], off: usize, end: usize) -> (r: String)
    requires
        off <= end <= array.len(),
    ensures
        r@ == text::decode_utf16(name_units(array@, off as int, end as int), 0),
{
    let mut units: Vec<u16> = Vec::new();
    let mut i: usize = off;
    let len = array.len();
    assert(units@ + name_units(array@, off as int, end as int) =~= name_units(
        array@,
        off as int,
        end as int,
    ));
    while end - i >= 2
        invariant
            off <= i <= end <= len,
            len == array@.len(),
            units@ + name_units(array@, i as int, end as int) == name_units(
                array@,
                off as int,
                end as int,
            ),
        decreases end - i,
    {
        let u = bytes::u16_at(array, i);
        if u == 0 {
            assert(units@ + Seq::<u16>::empty() =~= units@);
            return text::from_utf16(&units);
        }
        let ghost before = units@;
        units.push(u);
        assert(units@ + name_units(array@, i + 2, end as int) =~= before + name_units(
            array@,
            i as int,
            end as int,
        ));
        i += 2;
    }
    assert(units@ + Seq::<u16>::empty() =~= units@);
    text::from_utf16(&units)
}

/// Whether a GPT entry at `at` is in use: its type is not zero.
pub open spec fn entry_used(b: Seq<u8>, at: int) -> bool {
    exists|k: int| 0 <= k < 16 && #[trigger] b[at + k] != 0
}

fn is_used(array: &[u8], at: usize) -> (r: bool)
    requires
        at + 16 <= array.len(),
    ensures
        r == entry_used(array@, at as int),
{
    let mut k: usize = 0;
    while k < 16
        invariant
            k <= 16,
            at + 16 <= array.len(),
            forall|j: int| 0 <= j < k ==> #[trigger] array@[at + j] == 0,
        decreases 16 - k,
    {
        if array[at + k] != 0 {
            assert(array@[at + k] != 0);
            return true;
        }
        k += 1;
    }
    false
}

/// The partitions that the GPT entries from `i` on describe. An entry that ends
/// before it starts is an error.
pub open spec fn gpt_entries(
    d: Sectors,
    b: Seq<u8>,
    entry_size: int,
    count: int,
    i: int,
) -> Result<Seq<PartitionInfo>, DiskError>
    decreases count - i,
{
    let at = i * entry_size;
    if i >= count {
        Ok(Seq::empty())
    } else if !entry_used(b, at) {
        gpt_entries(d, b, entry_size, count, i + 1)
    } else {
        let first = bytes::le64(b, at + 32);
        let last = bytes::le64(b, at + 40);
        if last < first || last - first == u64::MAX {
            Err(DiskError::Invalid(ERR_GPT_RANGE))
        } else {
            match filesystem_at(d, first) {
                Err(e) => Err(e),
                Ok(filesystem) => match gpt_entries(d, b, entry_size, count, i + 1) {
                    Err(e) => Err(e),
                    Ok(rest) => Ok(
                        seq![
                            PartitionInfo {
                                index: (i + 1) as u32,
                                start_lba: first as u64,
                                sector_count: (last - first + 1) as u64,
                                mbr_type: None,
                                gpt_name: Some(entry_name(b, at)),
                                filesystem,
                            },
                        ] + rest,
                    ),
                },
            }
        }
    }
}

/// The partitions of a disk with a GPT.
pub open spec fn gpt_partitions(d: Sectors) -> Result<Seq<PartitionInfo>, DiskError> {
    match ahci::disk_bytes(d, 512, 512) {
        Err(e) => Err(e),
        Ok(h) => {
            let entry_size = bytes::le32(h, 84);
            let count = bytes::le32(h, 80);
            if h.subrange(0, 8) != seq![0x45u8, 0x46, 0x49, 0x20, 0x50, 0x41, 0x52, 0x54] {
                Err(DiskError::Invalid(ERR_GPT_MAGIC))
            } else if entry_size < 128 {
                Err(DiskError::Invalid(ERR_GPT_ENTRY_SIZE))
            } else {
                match ahci::disk_bytes(d, bytes::le64(h, 72) * 512, count * entry_size) {
                    Err(e) => Err(e),
                    Ok(b) => gpt_entries(d, b, entry_size, count, 0),
                }
            }
        },
    }
}

/// A list of partitions, or what stands in the way of it.
pub open spec fn listed(r: Result<Vec<Partition>, DiskError>, want: Result<
    Seq<PartitionInfo>,
    DiskError,
>) -> bool {
    match want {
        Ok(s) => r matches Ok(v) && infos(v@) == s,
        Err(e) => r matches Err(e2) && e2 == e,
    }
}

/// `acc`, followed by what is still to come.
pub open spec fn after(acc: Seq<PartitionInfo>, rest: Result<Seq<PartitionInfo>, DiskError>) -> Result<
    Seq<PartitionInfo>,
    DiskError,
> {
    match rest {
        Ok(s) => Ok(acc + s),
        Err(e) => Err(e),
    }
}

fn scan_gpt(port: &AhciPort) -> (r: Result<Vec<Partition>, DiskError>)
    requires
        port.wf(),
    ensures
        listed(r, gpt_partitions(port@)),
{
    let hdr = match ahci::read_bytes(port, 512, 512) {
        Ok(h) => h,
        Err(e) => {
            return Err(e);
        },
    };
    let magic: [u8; 8] = [0x45, 0x46, 0x49, 0x20, 0x50, 0x41, 0x52, 0x54];
    assert(magic@ =~= seq![0x45u8, 0x46, 0x49, 0x20, 0x50, 0x41, 0x52, 0x54]);
    if !eight_at(&hdr, 0, &magic) {
        return Err(DiskError::Invalid(ERR_GPT_MAGIC));
    }
    let h = hdr.as_slice();
    let part_entry_lba = bytes::u64_at(h, 72);
    let num_entries = bytes::u32_at(h, 80);
    let entry_size = bytes::u32_at(h, 84);
    if entry_size < 128 {
        return Err(DiskError::Invalid(ERR_GPT_ENTRY_SIZE));
    }
    let mut partitions: Vec<Partition> = Vec::new();
    assert(infos(partitions@) =~= Seq::<PartitionInfo>::empty());
    if num_entries == 0 {
        assert(0 * entry_size == 0);
        return Ok(partitions);
    }
    assert(0 < num_entries * entry_size <= 0xFFFF_FFFF * 0xFFFF_FFFF) by (nonlinear_arith)
        requires
            0 < num_entries <= 0xFFFF_FFFF,
            0 < entry_size <= 0xFFFF_FFFF,
    ;
    let array_len = num_entries as u64 * entry_size as u64;
    let bytes_read = match read_at(port, part_entry_lba, 0, array_len) {
        Ok(a) => a,
        Err(e) => {
            return Err(e);
        },
    };
    let array = bytes_read.as_slice();
    let len = array.len();
    let ghost all = gpt_entries(port@, array@, entry_size as int, num_entries as int, 0);
    let mut i: u32 = 0;
    proof {
        if all is Ok {
            assert(Seq::<PartitionInfo>::empty() + all->Ok_0 =~= all->Ok_0);
        }
    }
    while i < num_entries
        invariant
            i <= num_entries,
            port.wf(),
            128 <= entry_size,
            len == array@.len(),
            len == num_entries * entry_size,
            all == gpt_entries(port@, array@, entry_size as int, num_entries as int, 0),
            gpt_partitions(port@) == all,
            after(
                infos(partitions@),
                gpt_entries(port@, array@, entry_size as int, num_entries as int, i as int),
            ) == all,
        decreases num_entries - i,
    {
        assert(0 <= i * entry_size && i * entry_size + entry_size <= num_entries * entry_size)
            by (nonlinear_arith)
            requires
                0 <= i,
                i + 1 <= num_entries,
                entry_size >= 0,
        ;
        let at = (i as u64 * entry_size as u64) as usize;
        if is_used(array, at) {
            let first_lba = bytes::u64_at(array, at + 32);
            let last_lba = bytes::u64_at(array, at + 40);
            if last_lba < first_lba || last_lba - first_lba == u64::MAX {
                return Err(DiskError::Invalid(ERR_GPT_RANGE));
            }
            let name = decode_gpt_name(array, at + 56, at + 128);
            let filesystem = match detect_filesystem(port, first_lba) {
                Ok(f) => f,
                Err(e) => {
                    return Err(e);
                },
            };
            let ghost before = infos(partitions@);
            let p = Partition {
                index: i + 1,
                start_lba: first_lba,
                sector_count: last_lba - first_lba + 1,
                mbr_type: None,
                gpt_name: Some(name),
                filesystem,
            };
            let ghost info = p@;
            partitions.push(p);
            proof {
                assert(infos(partitions@) =~= before.push(info));
                let rest = gpt_entries(
                    port@,
                    array@,
                    entry_size as int,
                    num_entries as int,
                    i + 1,
                );
                if rest is Ok {
                    assert(before + (seq![info] + rest->Ok_0) =~= infos(partitions@)
                        + rest->Ok_0);
                }
            }
        }
        i += 1;
    }
    assert(infos(partitions@) + Seq::<PartitionInfo>::empty() =~= infos(partitions@));
    Ok(partitions)
}

// --- MBR ---------------------------------------------------------------------------

/// The partitions that the MBR entries from `i` on describe.
pub open spec fn mbr_entries(d: Sectors, mbr: Seq<u8>, i: int) -> Result<
    Seq<PartitionInfo>,
    DiskError,
>
    decreases 4 - i,
{
    let off = 446 + 16 * i;
    if i >= 4 {
        Ok(Seq::empty())
    } else if mbr[off + 4] == 0 {
        mbr_entries(d, mbr, i + 1)
    } else {
        match filesystem_at(d, bytes::le32(mbr, off + 8)) {
            Err(e) => Err(e),
            Ok(filesystem) => match mbr_entries(d, mbr, i + 1) {
                Err(e) => Err(e),
                Ok(rest) => Ok(
                    seq![
                        PartitionInfo {
                            index: (i + 1) as u32,
                            start_lba: bytes::le32(mbr, off + 8) as u64,
                            sector_count: bytes::le32(mbr, off + 12) as u64,
                            mbr_type: Some(mbr[off + 4]),
                            gpt_name: None,
                            filesystem,
                        },
                    ] + rest,
                ),
            },
        }
    }
}

fn scan_mbr(port: &AhciPort, mbr: &[u8]) -> (r: Result<Vec<Partition>, DiskError>)
    requires
        port.wf(),
        mbr@.len() == 512,
    ensures
        listed(r, mbr_entries(port@, mbr@, 0)),
{
    let mut partitions: Vec<Partition> = Vec::new();
    let ghost all = mbr_entries(port@, mbr@, 0);
    let mut i: usize = 0;
    proof {
        assert(infos(partitions@) =~= Seq::<PartitionInfo>::empty());
        if all is Ok {
            assert(Seq::<PartitionInfo>::empty() + all->Ok_0 =~= all->Ok_0);
        }
    }
    while i < 4
        invariant
            i <= 4,
            port.wf(),
            mbr@.len() == 512,
            all == mbr_entries(port@, mbr@, 0),
            after(infos(partitions@), mbr_entries(port@, mbr@, i as int)) == all,
        decreases 4 - i,
    {
        let off = 446 + i * 16;
        let ptype = mbr[off + 4];
        if ptype != 0 {
            let start_lba = bytes::u32_at(mbr, off + 8) as u64;
            let sector_count = bytes::u32_at(mbr, off + 12) as u64;
            let filesystem = match detect_filesystem(port, start_lba) {
                Ok(f) => f,
                Err(e) => {
                    return Err(e);
                },
            };
            let ghost before = infos(partitions@);
            let p = Partition {
                index: i as u32 + 1,
                start_lba,
                sector_count,
                mbr_type: Some(ptype),
                gpt_name: None,
                filesystem,
            };
            let ghost info = p@;
            partitions.push(p);
            proof {
                assert(infos(partitions@) =~= before.push(info));
                let rest = mbr_entries(port@, mbr@, i + 1);
                if rest is Ok {
                    assert(before + (seq![info] + rest->Ok_0) =~= infos(partitions@)
                        + rest->Ok_0);
                }
            }
        }
        i += 1;
    }
    assert(infos(partitions@) + Seq::<PartitionInfo>::empty() =~= infos(partitions@));
    Ok(partitions)
}

/// Whether an MBR only guards a GPT: one of its entries says so.
pub open spec fn is_protective(mbr: Seq<u8>) -> bool {
    ||| mbr[450] == MBR_TYPE_GPT_PROTECTIVE
    ||| mbr[466] == MBR_TYPE_GPT_PROTECTIVE
    ||| mbr[482] == MBR_TYPE_GPT_PROTECTIVE
    ||| mbr[498] == MBR_TYPE_GPT_PROTECTIVE
}

/// The kind of partition table of a disk, and its partitions.
pub open spec fn table_of(d: Sectors) -> Result<(TableKind, Seq<PartitionInfo>), DiskError> {
    match ahci::disk_bytes(d, 0, 512) {
        Err(e) => Err(e),
        Ok(mbr) => if mbr[510] != 0x55 || mbr[511] != 0xAA {
            Err(DiskError::Invalid(ERR_NO_MBR))
        } else if is_protective(mbr) {
            match gpt_partitions(d) {
                Ok(s) => Ok((TableKind::Gpt, s)),
                Err(e) => Err(e),
            }
        } else {
            match mbr_entries(d, mbr, 0) {
                Ok(s) => Ok((TableKind::Mbr, s)),
                Err(e) => Err(e),
            }
        },
    }
}

/// Reads the partition table of a disk and identifies the file system of every
/// partition.
pub fn scan(port: &AhciPort) -> (r: Result<(TableKind, Vec<Partition>), DiskError>)
    requires
        port.wf(),
    ensures
        match table_of(port@) {
            Ok((kind, s)) => r matches Ok((k, v)) && k == kind && infos(v@) == s,
            Err(e) => r matches Err(e2) && e2 == e,
        },
{
    let mbr = match ahci::read_bytes(port, 0, 512) {
        Ok(m) => m,
        Err(e) => {
            return Err(e);
        },
    };
    if mbr[510] != 0x55 || mbr[511] != 0xAA {
        return Err(DiskError::Invalid(ERR_NO_MBR));
    }
    let protective = mbr[450] == MBR_TYPE_GPT_PROTECTIVE || mbr[466] == MBR_TYPE_GPT_PROTECTIVE
        || mbr[482] == MBR_TYPE_GPT_PROTECTIVE || mbr[498] == MBR_TYPE_GPT_PROTECTIVE;
    if protective {
        match scan_gpt(port) {
            Ok(p) => Ok((TableKind::Gpt, p)),
            Err(e) => Err(e),
        }
    } else {
        match scan_mbr(port, mbr.as_slice()) {
            Ok(p) => Ok((TableKind::Mbr, p)),
            Err(e) => Err(e),
        }
    }
}

// --- laws --------------------------------------------------------------------------

proof fn lemma_bytes_stay(a: Sectors, b: Sectors, off: int, len: int)
    requires
        ahci::knows_more(a, b),
        !ahci::unsettled(ahci::disk_bytes(a, off, len)),
    ensures
        ahci::disk_bytes(b, off, len) == ahci::disk_bytes(a, off, len),
{
    if len != 0 && off + len <= u64::MAX {
        ahci::law_answers_are_stable(
            a,
            b,
            off / 512,
            ((off % 512 + len + 511) / 512) as nat,
        );
    }
}

/// The file system at a sector stays the same as more sectors become known.
pub proof fn law_filesystem_stays(a: Sectors, b: Sectors, start_lba: int)
    requires
        ahci::knows_more(a, b),
        !ahci::unsettled(filesystem_at(a, start_lba)),
    ensures
        filesystem_at(b, start_lba) == filesystem_at(a, start_lba),
{
    let base = start_lba * 512;
    let sb = ahci::disk_bytes(a, base + 1024, 1024);
    lemma_bytes_stay(a, b, base + 1024, 1024);
    if !(sb is Ok && ext_kind(sb->Ok_0) is Some) {
        let boot = ahci::disk_bytes(a, base, 512);
        lemma_bytes_stay(a, b, base, 512);
        if !(boot is Ok && boot_kind(boot->Ok_0) is Some) {
            lemma_bytes_stay(a, b, base + BTRFS_SUPERBLOCK_OFFSET, 8);
        }
    }
}

proof fn lemma_gpt_entries_stay(
    a: Sectors,
    b: Sectors,
    table: Seq<u8>,
    entry_size: int,
    count: int,
    i: int,
)
    requires
        ahci::knows_more(a, b),
        !ahci::unsettled(gpt_entries(a, table, entry_size, count, i)),
    ensures
        gpt_entries(b, table, entry_size, count, i) == gpt_entries(a, table, entry_size, count, i),
    decreases count - i,
{
    if i < count {
        let at = i * entry_size;
        let first = bytes::le64(table, at + 32);
        let last = bytes::le64(table, at + 40);
        if !entry_used(table, at) {
            lemma_gpt_entries_stay(a, b, table, entry_size, count, i + 1);
        } else if !(last < first || last - first == u64::MAX) {
            law_filesystem_stays(a, b, first);
            if filesystem_at(a, first) is Ok {
                lemma_gpt_entries_stay(a, b, table, entry_size, count, i + 1);
            }
        }
    }
}

proof fn lemma_mbr_entries_stay(a: Sectors, b: Sectors, mbr: Seq<u8>, i: int)
    requires
        ahci::knows_more(a, b),
        !ahci::unsettled(mbr_entries(a, mbr, i)),
    ensures
        mbr_entries(b, mbr, i) == mbr_entries(a, mbr, i),
    decreases 4 - i,
{
    if i < 4 {
        let off = 446 + 16 * i;
        if mbr[off + 4] == 0 {
            lemma_mbr_entries_stay(a, b, mbr, i + 1);
        } else {
            law_filesystem_stays(a, b, bytes::le32(mbr, off + 8));
            if filesystem_at(a, bytes::le32(mbr, off + 8)) is Ok {
                lemma_mbr_entries_stay(a, b, mbr, i + 1);
            }
        }
    }
}

proof fn lemma_gpt_stays(a: Sectors, b: Sectors)
    requires
        ahci::knows_more(a, b),
        !ahci::unsettled(gpt_partitions(a)),
    ensures
        gpt_partitions(b) == gpt_partitions(a),
{
    lemma_bytes_stay(a, b, 512, 512);
    if let Ok(h) = ahci::disk_bytes(a, 512, 512) {
        let entry_size = bytes::le32(h, 84);
        let count = bytes::le32(h, 80);
        let at = bytes::le64(h, 72) * 512;
        let table = ahci::disk_bytes(a, at, count * entry_size);
        if h.subrange(0, 8) == seq![0x45u8, 0x46, 0x49, 0x20, 0x50, 0x41, 0x52, 0x54] && entry_size
            >= 128 {
            lemma_bytes_stay(a, b, at, count * entry_size);
            if table is Ok {
                lemma_gpt_entries_stay(a, b, table->Ok_0, entry_size, count, 0);
            }
        }
    }
}

/// The partitions of a disk stay the same, or the error does, however many more
/// sectors become known once the answer is settled.
pub proof fn law_table_stays(a: Sectors, b: Sectors)
    requires
        ahci::knows_more(a, b),
        !ahci::unsettled(table_of(a)),
    ensures
        table_of(b) == table_of(a),
{
    lemma_bytes_stay(a, b, 0, 512);
    if let Ok(mbr) = ahci::disk_bytes(a, 0, 512) {
        if mbr[510] == 0x55 && mbr[511] == 0xAA {
            if is_protective(mbr) {
                lemma_gpt_stays(a, b);
            } else {
                lemma_mbr_entries_stay(a, b, mbr, 0);
            }
        }
    }
}

// --- what the bytes of the disk mean ---------------------------------------------------

/// The numbers in bytes that were read are those at their place on the disk.
proof fn lemma_numbers_on_disk(b: Seq<u8>, img: spec_fn(int) -> u8, base: int, off: int)
    requires
        forall|k: int| 0 <= k < b.len() ==> #[trigger] b[k] == img(base + k),
        0 <= off,
    ensures
        off + 2 <= b.len() ==> bytes::le16(b, off) == ahci::u16_on(img, base + off),
        off + 4 <= b.len() ==> bytes::le32(b, off) == ahci::u32_on(img, base + off) && 0
            <= ahci::u32_on(img, base + off) <= u32::MAX,
        off + 8 <= b.len() ==> bytes::le64(b, off) == ahci::u64_on(img, base + off),
{
    bytes::law_little_endian_is_positional(b, off);
    if off + 8 <= b.len() {
        assert(b[off] == img(base + off) && b[off + 1] == img(base + (off + 1)) && b[off + 2]
            == img(base + (off + 2)) && b[off + 3] == img(base + (off + 3)) && b[off + 4] == img(
            base + (off + 4),
        ) && b[off + 5] == img(base + (off + 5)) && b[off + 6] == img(base + (off + 6)) && b[off
            + 7] == img(base + (off + 7)));
    } else if off + 4 <= b.len() {
        assert(b[off] == img(base + off) && b[off + 1] == img(base + (off + 1)) && b[off + 2]
            == img(base + (off + 2)) && b[off + 3] == img(base + (off + 3)));
    } else if off + 2 <= b.len() {
        assert(b[off] == img(base + off) && b[off + 1] == img(base + (off + 1)));
    }
}

/// Whether `p` is what entry `i` of an MBR says: type at 4, start at 8, sectors at 12
/// of its sixteen bytes, the first of which is byte 446 of the disk; its file system
/// is the one that starts at that sector.
pub open spec fn is_mbr_entry(
    d: Sectors,
    img: spec_fn(int) -> u8,
    p: PartitionInfo,
    i: int,
) -> bool {
    let e = 446 + 16 * i;
    &&& p.index == i + 1
    &&& p.mbr_type == Some(img(e + 4))
    &&& p.start_lba == ahci::u32_on(img, e + 8)
    &&& p.sector_count == ahci::u32_on(img, e + 12)
    &&& p.gpt_name is None
    &&& filesystem_at(d, ahci::u32_on(img, e + 8)) == Ok::<&'static str, DiskError>(p.filesystem)
}

/// The partitions of an MBR are its entries with a type other than 0, in order, each
/// with the numbers that stand in it.
pub proof fn law_mbr_is_listed(d: Sectors, img: spec_fn(int) -> u8)
    requires
        ahci::shows(d, img),
    ensures
        table_of(d) matches Ok((kind, parts)) ==> kind == TableKind::Mbr ==> {
            &&& forall|n: int|
                0 <= n < parts.len() ==> 1 <= (#[trigger] parts[n]).index <= 4 && img(
                    450 + 16 * (parts[n].index - 1),
                ) != 0 && is_mbr_entry(d, img, parts[n], parts[n].index - 1)
            &&& forall|n: int, k: int|
                0 <= n < k < parts.len() ==> (#[trigger] parts[n]).index < (#[trigger] parts[k]).index
            &&& forall|i: int|
                0 <= i < 4 && #[trigger] img(450 + 16 * i) != 0 ==> exists|n: int|
                    0 <= n < parts.len() && (#[trigger] parts[n]).index == i + 1
        },
{
    ahci::law_bytes_are_of_the_disk(d, img, 0, 512);
    if let Ok((kind, parts)) = table_of(d) {
        if kind == TableKind::Mbr {
            let mbr = ahci::disk_bytes(d, 0, 512)->Ok_0;
            assert forall|k: int| 0 <= k < 512 implies #[trigger] mbr[k] == img(k) by {
                assert(mbr[k] == img(0 + k));
            }
            lemma_mbr_listed(d, img, mbr, 0);
        }
    }
}

proof fn lemma_mbr_listed(d: Sectors, img: spec_fn(int) -> u8, mbr: Seq<u8>, i: int)
    requires
        0 <= i <= 4,
        mbr.len() == 512,
        forall|k: int| 0 <= k < 512 ==> #[trigger] mbr[k] == img(k),
    ensures
        mbr_entries(d, mbr, i) matches Ok(parts) ==> {
            &&& forall|n: int|
                0 <= n < parts.len() ==> i < (#[trigger] parts[n]).index <= 4 && img(
                    450 + 16 * (parts[n].index - 1),
                ) != 0 && is_mbr_entry(d, img, parts[n], parts[n].index - 1)
            &&& forall|n: int, k: int|
                0 <= n < k < parts.len() ==> (#[trigger] parts[n]).index < (#[trigger] parts[k]).index
            &&& forall|j: int|
                i <= j < 4 && #[trigger] img(450 + 16 * j) != 0 ==> exists|n: int|
                    0 <= n < parts.len() && (#[trigger] parts[n]).index == j + 1
        },
        (forall|j: int|
            i <= j < 4 && #[trigger] img(450 + 16 * j) != 0 ==> filesystem_at(
                d,
                ahci::u32_on(img, 446 + 16 * j + 8),
            ) is Ok) ==> mbr_entries(d, mbr, i) is Ok,
    decreases 4 - i,
{
    if i < 4 {
        lemma_mbr_listed(d, img, mbr, i + 1);
        let off = 446 + 16 * i;
        assert forall|k: int| 0 <= k < 512 implies #[trigger] mbr[k] == img(0 + k) by {}
        lemma_numbers_on_disk(mbr, img, 0, off + 8);
        lemma_numbers_on_disk(mbr, img, 0, off + 12);
        assert(mbr[off + 4] == img(450 + 16 * i));
        if let Ok(parts) = mbr_entries(d, mbr, i) {
            let rest = mbr_entries(d, mbr, i + 1)->Ok_0;
            if img(450 + 16 * i) != 0 {
                assert(parts =~= seq![parts[0]] + rest);
                assert(is_mbr_entry(d, img, parts[0], i));
                assert forall|n: int| 0 <= n < parts.len() implies i < (#[trigger] parts[n]).index
                    <= 4 && img(450 + 16 * (parts[n].index - 1)) != 0 && is_mbr_entry(
                    d,
                    img,
                    parts[n],
                    parts[n].index - 1,
                ) by {
                    if n > 0 {
                        assert(parts[n] == rest[n - 1]);
                    }
                }
                assert forall|n: int, k: int|
                    0 <= n < k < parts.len() implies (#[trigger] parts[n]).index < (
                #[trigger] parts[k]).index by {
                    assert(parts[k] == rest[k - 1]);
                    if n > 0 {
                        assert(parts[n] == rest[n - 1]);
                    }
                }
                assert forall|j: int|
                    i <= j < 4 && #[trigger] img(450 + 16 * j) != 0 implies exists|n: int|
                    0 <= n < parts.len() && (#[trigger] parts[n]).index == j + 1 by {
                    if j == i {
                        assert(parts[0].index == j + 1);
                    } else {
                        let n = choose|n: int|
                            0 <= n < rest.len() && (#[trigger] rest[n]).index == j + 1;
                        assert(parts[n + 1].index == j + 1);
                    }
                }
            }
        }
    }
}

/// A disk with a partition table ends its first sector with 0x55 and 0xAA. An entry of
/// type 0xEE among the four makes it a GPT. Once the sector and the file systems were
/// read, an MBR can be listed.
pub proof fn law_kind_of_table(d: Sectors, img: spec_fn(int) -> u8)
    requires
        ahci::shows(d, img),
        ahci::readable(d, 0, 512),
    ensures
        img(510) != 0x55 || img(511) != 0xAA ==> table_of(d) == Err::<
            (TableKind, Seq<PartitionInfo>),
            DiskError,
        >(DiskError::Invalid(ERR_NO_MBR)),
        table_of(d) matches Ok((kind, _)) ==> (kind == TableKind::Gpt <==> (img(450) == 0xEE || img(
            466,
        ) == 0xEE || img(482) == 0xEE || img(498) == 0xEE)),
        img(510) == 0x55 && img(511) == 0xAA && img(450) != 0xEE && img(466) != 0xEE && img(482)
            != 0xEE && img(498) != 0xEE && (forall|j: int|
            0 <= j < 4 && #[trigger] img(450 + 16 * j) != 0 ==> filesystem_at(
                d,
                ahci::u32_on(img, 446 + 16 * j + 8),
            ) is Ok) ==> table_of(d) is Ok,
{
    ahci::law_bytes_are_of_the_disk(d, img, 0, 512);
    let mbr = ahci::disk_bytes(d, 0, 512)->Ok_0;
    assert forall|k: int| 0 <= k < 512 implies #[trigger] mbr[k] == img(k) by {
        assert(mbr[k] == img(0 + k));
    }
    lemma_mbr_listed(d, img, mbr, 0);
}

/// Whether `p` is what entry `i` of a GPT says, whose entries start at byte `table` of
/// the disk, `size` bytes apart: first sector at 32, last sector at 40, a name from 56
/// on; its file system is the one that starts at its first sector.
pub open spec fn is_gpt_entry(
    d: Sectors,
    img: spec_fn(int) -> u8,
    p: PartitionInfo,
    i: int,
    table: int,
    size: int,
) -> bool {
    let e = table + i * size;
    &&& p.index == i + 1
    &&& p.mbr_type is None
    &&& p.start_lba == ahci::u64_on(img, e + 32)
    &&& p.start_lba + p.sector_count == ahci::u64_on(img, e + 40) + 1
    &&& filesystem_at(d, ahci::u64_on(img, e + 32)) == Ok::<&'static str, DiskError>(p.filesystem)
    &&& p.gpt_name matches Some(name) && is_gpt_name(img, name, e + 56)
}

/// Whether a name stands at byte `x` of a disk: its characters in UTF-16, least
/// significant byte first, up to a zero or to 36 units. Only names that are proper
/// UTF-16 are spoken of.
pub open spec fn is_gpt_name(img: spec_fn(int) -> u8, name: Seq<char>, x: int) -> bool {
    forall|want: Seq<char>|
        {
            let units = #[trigger] text::encode_utf16(want);
            &&& units.len() <= 36
            &&& forall|k: int|
                0 <= k < units.len() ==> #[trigger] units[k] != 0 && ahci::u16_on(img, x + 2 * k)
                    == units[k]
            &&& units.len() < 36 ==> ahci::u16_on(img, x + 2 * units.len()) == 0
        } ==> name == want
}

/// Whether entry `i` of a GPT is in use: one of the sixteen bytes of its type is not 0.
pub open spec fn gpt_entry_used(img: spec_fn(int) -> u8, i: int, table: int, size: int) -> bool {
    exists|k: int| 0 <= k < 16 && #[trigger] img(table + i * size + k) != 0
}

/// The partitions of a GPT are its entries in use, in order, each with the numbers
/// and the name that stand in it. The header is the second sector: where the entries
/// start at 72, how many there are at 80, how far apart at 84.
pub proof fn law_gpt_is_listed(d: Sectors, img: spec_fn(int) -> u8)
    requires
        ahci::shows(d, img),
    ensures
        table_of(d) matches Ok((kind, parts)) ==> kind == TableKind::Gpt ==> {
            let (table, count, size) = (
                512 * ahci::u64_on(img, 584),
                ahci::u32_on(img, 592),
                ahci::u32_on(img, 596),
            );
            &&& img(512) == 0x45 && img(513) == 0x46 && img(514) == 0x49 && img(515) == 0x20 && img(
                516,
            ) == 0x50 && img(517) == 0x41 && img(518) == 0x52 && img(519) == 0x54
            &&& size >= 128
            &&& forall|n: int|
                0 <= n < parts.len() ==> 1 <= (#[trigger] parts[n]).index <= count && gpt_entry_used(
                    img,
                    parts[n].index - 1,
                    table,
                    size,
                ) && is_gpt_entry(d, img, parts[n], parts[n].index - 1, table, size)
            &&& forall|n: int, k: int|
                0 <= n < k < parts.len() ==> (#[trigger] parts[n]).index < (#[trigger] parts[k]).index
            &&& forall|i: int|
                0 <= i < count && #[trigger] gpt_entry_used(img, i, table, size) ==> exists|n: int|
                    0 <= n < parts.len() && (#[trigger] parts[n]).index == i + 1
        },
{
    ahci::law_bytes_are_of_the_disk(d, img, 0, 512);
    ahci::law_bytes_are_of_the_disk(d, img, 512, 512);
    if let Ok((kind, parts)) = table_of(d) {
        if kind == TableKind::Gpt {
            let h = ahci::disk_bytes(d, 512, 512)->Ok_0;
            lemma_numbers_on_disk(h, img, 512, 72);
            lemma_numbers_on_disk(h, img, 512, 80);
            lemma_numbers_on_disk(h, img, 512, 84);
            let magic = seq![0x45u8, 0x46, 0x49, 0x20, 0x50, 0x41, 0x52, 0x54];
            let t = h.subrange(0, 8);
            assert(t[0] == h[0] && t[1] == h[1] && t[2] == h[2] && t[3] == h[3] && t[4] == h[4]
                && t[5] == h[5] && t[6] == h[6] && t[7] == h[7]);
            assert(magic[0] == 0x45 && magic[1] == 0x46 && magic[2] == 0x49 && magic[3] == 0x20
                && magic[4] == 0x50 && magic[5] == 0x41 && magic[6] == 0x52 && magic[7] == 0x54);
            assert(h[0] == img(512) && h[1] == img(513) && h[2] == img(514) && h[3]
                == img(515) && h[4] == img(516) && h[5] == img(517) && h[6] == img(
                518,
            ) && h[7] == img(519));
            let (table, count, size) = (
                512 * ahci::u64_on(img, 584),
                ahci::u32_on(img, 592),
                ahci::u32_on(img, 596),
            );
            assert(0 <= count * size) by (nonlinear_arith)
                requires
                    count >= 0,
                    size >= 0,
            ;
            ahci::law_bytes_are_of_the_disk(d, img, table, count * size);
            let b = ahci::disk_bytes(d, table, count * size)->Ok_0;
            lemma_gpt_listed(d, img, b, table, size, count, 0);
        }
    }
}

proof fn lemma_gpt_entry(
    d: Sectors,
    img: spec_fn(int) -> u8,
    b: Seq<u8>,
    table: int,
    size: int,
    count: int,
    i: int,
)
    requires
        0 <= i < count <= u32::MAX,
        size >= 128,
        b.len() == count * size,
        forall|k: int| 0 <= k < b.len() ==> #[trigger] b[k] == img(table + k),
    ensures
        entry_used(b, i * size) == gpt_entry_used(img, i, table, size),
        entry_used(b, i * size) ==> (gpt_entries(d, b, size, count, i) matches Ok(parts)
            ==> gpt_entries(d, b, size, count, i + 1) matches Ok(rest) && parts.len() > 0 && parts
            == seq![parts[0]] + rest && is_gpt_entry(d, img, parts[0], i, table, size)),
{
    let at = i * size;
    assert(0 <= at && at + size <= count * size) by (nonlinear_arith)
        requires
            at == i * size,
            0 <= i < count,
            size >= 0,
    ;
    assert forall|k: int| 0 <= k < 16 implies #[trigger] b[at + k] == img(table + i * size + k) by {
        assert(table + (at + k) == table + i * size + k);
    }
    if gpt_entry_used(img, i, table, size) {
        let k = choose|k: int| 0 <= k < 16 && #[trigger] img(table + i * size + k) != 0;
        assert(b[at + k] != 0);
    }
    if entry_used(b, at) {
        let k = choose|k: int| 0 <= k < 16 && #[trigger] b[at + k] != 0;
        assert(img(table + i * size + k) != 0);
        lemma_numbers_on_disk(b, img, table, at + 32);
        lemma_numbers_on_disk(b, img, table, at + 40);
        if let Ok(parts) = gpt_entries(d, b, size, count, i) {
            let name = entry_name(b, at);
            assert forall|want: Seq<char>|
                {
                    let units = #[trigger] text::encode_utf16(want);
                    &&& units.len() <= 36
                    &&& forall|k: int|
                        0 <= k < units.len() ==> #[trigger] units[k] != 0 && ahci::u16_on(
                            img,
                            table + at + 56 + 2 * k,
                        ) == units[k]
                    &&& units.len() < 36 ==> ahci::u16_on(img, table + at + 56 + 2 * units.len())
                        == 0
                } implies name == want by {
                let units = text::encode_utf16(want);
                lemma_units(b, img, table, at + 56, at + 128, units, 0);
                assert(units.skip(0) =~= units);
                text::law_utf16_reads_back(Seq::empty(), want);
                assert(Seq::<u16>::empty() + units =~= units);
            }
            let rest = gpt_entries(d, b, size, count, i + 1)->Ok_0;
            assert(parts =~= seq![parts[0]] + rest);
        }
    }
}

/// The units of a name from its `n`-th on.
proof fn lemma_units(
    b: Seq<u8>,
    img: spec_fn(int) -> u8,
    table: int,
    off: int,
    end: int,
    units: Seq<u16>,
    n: int,
)
    requires
        0 <= off,
        end == off + 72,
        end <= b.len(),
        forall|k: int| 0 <= k < b.len() ==> #[trigger] b[k] == img(table + k),
        units.len() <= 36,
        0 <= n <= units.len(),
        forall|k: int|
            0 <= k < units.len() ==> #[trigger] units[k] != 0 && ahci::u16_on(
                img,
                table + off + 2 * k,
            ) == units[k],
        units.len() < 36 ==> ahci::u16_on(img, table + off + 2 * units.len()) == 0,
    ensures
        name_units(b, off + 2 * n, end) == units.skip(n),
    decreases units.len() - n,
{
    lemma_numbers_on_disk(b, img, table, off + 2 * n);
    assert(table + (off + 2 * n) == table + off + 2 * n);
    if n < units.len() {
        assert(units[n] != 0);
        lemma_units(b, img, table, off, end, units, n + 1);
        assert(units.skip(n) =~= seq![units[n]] + units.skip(n + 1));
    } else {
        assert(units.skip(n) =~= Seq::<u16>::empty());
    }
}

proof fn lemma_gpt_listed(
    d: Sectors,
    img: spec_fn(int) -> u8,
    b: Seq<u8>,
    table: int,
    size: int,
    count: int,
    i: int,
)
    requires
        0 <= i <= count <= u32::MAX,
        size >= 128,
        b.len() == count * size,
        forall|k: int| 0 <= k < b.len() ==> #[trigger] b[k] == img(table + k),
    ensures
        gpt_entries(d, b, size, count, i) matches Ok(parts) ==> {
            &&& forall|n: int|
                0 <= n < parts.len() ==> i < (#[trigger] parts[n]).index <= count && gpt_entry_used(
                    img,
                    parts[n].index - 1,
                    table,
                    size,
                ) && is_gpt_entry(d, img, parts[n], parts[n].index - 1, table, size)
            &&& forall|n: int, k: int|
                0 <= n < k < parts.len() ==> (#[trigger] parts[n]).index < (#[trigger] parts[k]).index
            &&& forall|j: int|
                i <= j < count && #[trigger] gpt_entry_used(img, j, table, size) ==> exists|n: int|
                    0 <= n < parts.len() && (#[trigger] parts[n]).index == j + 1
        },
    decreases count - i,
{
    if i < count {
        lemma_gpt_listed(d, img, b, table, size, count, i + 1);
        lemma_gpt_entry(d, img, b, table, size, count, i);
        if let Ok(parts) = gpt_entries(d, b, size, count, i) {
            if entry_used(b, i * size) {
                let rest = gpt_entries(d, b, size, count, i + 1)->Ok_0;
                assert forall|n: int| 0 <= n < parts.len() implies i < (#[trigger] parts[n]).index
                    <= count && gpt_entry_used(img, parts[n].index - 1, table, size)
                    && is_gpt_entry(d, img, parts[n], parts[n].index - 1, table, size) by {
                    if n > 0 {
                        assert(parts[n] == rest[n - 1]);
                    }
                }
                assert forall|n: int, k: int|
                    0 <= n < k < parts.len() implies (#[trigger] parts[n]).index < (
                #[trigger] parts[k]).index by {
                    assert(parts[k] == rest[k - 1]);
                    if n > 0 {
                        assert(parts[n] == rest[n - 1]);
                    }
                }
                assert forall|j: int|
                    i <= j < count && #[trigger] gpt_entry_used(
                        img,
                        j,
                        table,
                        size,
                    ) implies exists|n: int|
                    0 <= n < parts.len() && (#[trigger] parts[n]).index == j + 1 by {
                    if j == i {
                        assert(parts[0].index == j + 1);
                    } else {
                        let n = choose|n: int|
                            0 <= n < rest.len() && (#[trigger] rest[n]).index == j + 1;
                        assert(parts[n + 1].index == j + 1);
                    }
                }
            }
        }
    }
}

/// A file system is told by what stands at its place on the disk. The magic of the
/// ext family lies 1080 bytes behind its start; bit 2 of the byte at 1116 is a
/// journal, and bits 6 and 7 of the one at 1120 are what ext4 brought. FAT32 and NTFS
/// have their names at 82 and 3 of a boot sector, btrfs its magic at 0x10040.
pub proof fn law_filesystem_by_signature(d: Sectors, img: spec_fn(int) -> u8, start: int)
    requires
        ahci::shows(d, img),
        0 <= start,
        512 * start + 0x1_0048 <= u64::MAX,
        ahci::readable(d, 512 * start, 512 * start + 0x1_0048),
    ensures
        ({
            let x = 512 * start;
            let ext = img(x + 1080) == 0x53 && img(x + 1081) == 0xEF;
            let boot = !ext && img(x + 510) == 0x55 && img(x + 511) == 0xAA;
            let fat = boot && img(x + 82) == 0x46 && img(x + 83) == 0x41 && img(x + 84) == 0x54
                && img(x + 85) == 0x33 && img(x + 86) == 0x32 && img(x + 87) == 0x20 && img(x + 88)
                == 0x20 && img(x + 89) == 0x20;
            let ntfs = boot && !fat && img(x + 3) == 0x4E && img(x + 4) == 0x54 && img(x + 5)
                == 0x46 && img(x + 6) == 0x53 && img(x + 7) == 0x20 && img(x + 8) == 0x20 && img(
                x + 9,
            ) == 0x20 && img(x + 10) == 0x20;
            let btrfs = !ext && !fat && !ntfs && img(x + 0x1_0040) == 0x5F && img(x + 0x1_0041)
                == 0x42 && img(x + 0x1_0042) == 0x48 && img(x + 0x1_0043) == 0x52 && img(
                x + 0x1_0044,
            ) == 0x66 && img(x + 0x1_0045) == 0x53 && img(x + 0x1_0046) == 0x5F && img(x + 0x1_0047)
                == 0x4D;
            filesystem_at(d, start) == Ok::<&'static str, DiskError>(
                if ext && img(x + 1120) / 64 != 0 {
                    "ext4"
                } else if ext && img(x + 1116) / 4 % 2 == 1 {
                    "ext3"
                } else if ext {
                    "ext2"
                } else if fat {
                    "fat32"
                } else if ntfs {
                    "ntfs"
                } else if btrfs {
                    "btrfs"
                } else {
                    "desconocido"
                },
            )
        }),
{
    let x = 512 * start;
    assert(start * 512 == x);
    assert(ahci::readable(d, x + 1024, x + 1024 + 1024));
    assert(ahci::readable(d, x, x + 512));
    assert(ahci::readable(d, x + 0x1_0040, x + 0x1_0040 + 8));
    ahci::law_bytes_are_of_the_disk(d, img, x + 1024, 1024);
    ahci::law_bytes_are_of_the_disk(d, img, x, 512);
    ahci::law_bytes_are_of_the_disk(d, img, x + 0x1_0040, 8);
    let sb = ahci::disk_bytes(d, x + 1024, 1024)->Ok_0;
    let boot = ahci::disk_bytes(d, x, 512)->Ok_0;
    let tree = ahci::disk_bytes(d, x + 0x1_0040, 8)->Ok_0;
    lemma_ext_kind(sb);
    assert(sb[56] == img(x + 1024 + 56) && sb[57] == img(x + 1024 + 57) && sb[92] == img(
        x + 1024 + 92,
    ) && sb[96] == img(x + 1024 + 96));
    assert(boot[510] == img(x + 510) && boot[511] == img(x + 511));
    lemma_eight(boot, img, x, 82, seq![0x46u8, 0x41, 0x54, 0x33, 0x32, 0x20, 0x20, 0x20]);
    lemma_eight(boot, img, x, 3, seq![0x4Eu8, 0x54, 0x46, 0x53, 0x20, 0x20, 0x20, 0x20]);
    lemma_eight(tree, img, x + 0x1_0040, 0, btrfs_magic());
    assert(tree.subrange(0, 8) =~= tree);
}

proof fn lemma_ext_kind(sb: Seq<u8>)
    requires
        sb.len() == 1024,
    ensures
        ext_kind(sb) == if sb[56] == 0x53 && sb[57] == 0xEF {
            if sb[96] / 64 != 0 {
                Some("ext4")
            } else if sb[92] / 4 % 2 == 1 {
                Some("ext3")
            } else {
                Some("ext2")
            }
        } else {
            None
        },
{
    let f = bytes::le32(sb, 96) as u32;
    let j = bytes::le32(sb, 92) as u32;
    assert((f & 0xC0 != 0) == (f % 256 / 64 != 0)) by (bit_vector);
    assert((j & 4 != 0) == (j % 256 / 4 % 2 == 1)) by (bit_vector);
    assert(f % 256 == sb[96]);
    assert(j % 256 == sb[92]);
}

proof fn lemma_eight(b: Seq<u8>, img: spec_fn(int) -> u8, base: int, off: int, want: Seq<u8>)
    requires
        want.len() == 8,
        0 <= off,
        off + 8 <= b.len(),
        forall|k: int| 0 <= k < b.len() ==> #[trigger] b[k] == img(base + k),
    ensures
        (b.subrange(off, off + 8) == want) <==> (img(base + off) == want[0] && img(base + off + 1)
            == want[1] && img(base + off + 2) == want[2] && img(base + off + 3) == want[3] && img(
            base + off + 4,
        ) == want[4] && img(base + off + 5) == want[5] && img(base + off + 6) == want[6] && img(
            base + off + 7,
        ) == want[7]),
{
    let t = b.subrange(off, off + 8);
    assert(t[0] == img(base + off) && t[1] == img(base + off + 1) && t[2] == img(base + off + 2)
        && t[3] == img(base + off + 3) && t[4] == img(base + off + 4) && t[5] == img(base + off + 5)
        && t[6] == img(base + off + 6) && t[7] == img(base + off + 7)) by {
        assert(b[off] == img(base + off) && b[off + 1] == img(base + (off + 1)) && b[off + 2]
            == img(base + (off + 2)) && b[off + 3] == img(base + (off + 3)) && b[off + 4] == img(
            base + (off + 4),
        ) && b[off + 5] == img(base + (off + 5)) && b[off + 6] == img(base + (off + 6)) && b[off
            + 7] == img(base + (off + 7)));
    }
    if t[0] == want[0] && t[1] == want[1] && t[2] == want[2] && t[3] == want[3] && t[4] == want[4]
        && t[5] == want[5] && t[6] == want[6] && t[7] == want[7] {
        assert(t =~= want);
    }
}

/// A disk whose first sector guards a GPT, whose second one is its header and
/// whose table can be read is understood, if each entry in use ends no earlier
/// than it starts and the file system there is settled.
pub proof fn law_good_gpt_is_understood(d: Sectors, img: spec_fn(int) -> u8)
    requires
        ahci::shows(d, img),
        ahci::readable(d, 0, 1024),
        img(510) == 0x55,
        img(511) == 0xAA,
        img(450) == 0xEE || img(466) == 0xEE || img(482) == 0xEE || img(498) == 0xEE,
        img(512) == 0x45 && img(513) == 0x46 && img(514) == 0x49 && img(515) == 0x20 && img(516)
            == 0x50 && img(517) == 0x41 && img(518) == 0x52 && img(519) == 0x54,
        ahci::u32_on(img, 596) >= 128,
        512 * ahci::u64_on(img, 584) + ahci::u32_on(img, 592) * ahci::u32_on(img, 596) <= u64::MAX,
        ahci::readable(
            d,
            512 * ahci::u64_on(img, 584),
            512 * ahci::u64_on(img, 584) + ahci::u32_on(img, 592) * ahci::u32_on(img, 596),
        ),
        forall|i: int|
            0 <= i < ahci::u32_on(img, 592) && #[trigger] gpt_entry_used(
                img,
                i,
                512 * ahci::u64_on(img, 584),
                ahci::u32_on(img, 596),
            ) ==> {
                let at = 512 * ahci::u64_on(img, 584) + i * ahci::u32_on(img, 596);
                &&& ahci::u64_on(img, at + 32) <= ahci::u64_on(img, at + 40)
                &&& ahci::u64_on(img, at + 40) - ahci::u64_on(img, at + 32) < u64::MAX
                &&& filesystem_at(d, ahci::u64_on(img, at + 32)) is Ok
            },
    ensures
        table_of(d) matches Ok((kind, _)) && kind == TableKind::Gpt,
{
    ahci::law_bytes_are_of_the_disk(d, img, 0, 512);
    ahci::law_bytes_are_of_the_disk(d, img, 512, 512);
    let mbr = ahci::disk_bytes(d, 0, 512)->Ok_0;
    let h = ahci::disk_bytes(d, 512, 512)->Ok_0;
    assert(mbr[510] == img(510) && mbr[511] == img(511) && mbr[450] == img(450)
        && mbr[466] == img(466) && mbr[482] == img(482) && mbr[498] == img(498));
    assert(h[0] == img(512) && h[1] == img(513) && h[2] == img(514) && h[3] == img(515) && h[4] == img(516) && h[5] == img(517) && h[6] == img(518) && h[7] == img(519));
    assert(h.subrange(0, 8) =~= seq![0x45u8, 0x46, 0x49, 0x20, 0x50, 0x41, 0x52, 0x54]);
    let (table, count, size) = (
        512 * ahci::u64_on(img, 584),
        ahci::u32_on(img, 592),
        ahci::u32_on(img, 596),
    );
    lemma_words_on(h, img, 512, 72);
    lemma_words_on(h, img, 512, 80);
    lemma_words_on(h, img, 512, 84);
    assert(0 <= count * size) by (nonlinear_arith)
        requires
            0 <= count,
            0 <= size,
    ;
    assert(bytes::le64(h, 72) * 512 == table && bytes::le32(h, 80) == count && bytes::le32(h, 84)
        == size);
    ahci::law_bytes_are_of_the_disk(d, img, table, count * size);
    let b = ahci::disk_bytes(d, table, count * size)->Ok_0;
    lemma_good_entries(d, img, b, table, count, size, 0);
}

proof fn lemma_words_on(b: Seq<u8>, img: spec_fn(int) -> u8, base: int, x: int)
    requires
        0 <= x,
        forall|k: int| 0 <= k < b.len() ==> #[trigger] b[k] == img(base + k),
    ensures
        x + 8 <= b.len() ==> bytes::le64(b, x) == ahci::u64_on(img, base + x),
        x + 4 <= b.len() ==> bytes::le32(b, x) == ahci::u32_on(img, base + x),
{
    if x + 4 <= b.len() {
        assert(b[x] == img(base + x) && b[x + 1] == img(base + (x + 1)) && b[x + 2] == img(
            base + (x + 2),
        ) && b[x + 3] == img(base + (x + 3)));
    }
    if x + 8 <= b.len() {
        assert(b[x + 4] == img(base + (x + 4)) && b[x + 5] == img(base + (x + 5)) && b[x + 6] == img(
            base + (x + 6),
        ) && b[x + 7] == img(base + (x + 7)));
    }
}

proof fn lemma_good_entries(
    d: Sectors,
    img: spec_fn(int) -> u8,
    b: Seq<u8>,
    table: int,
    count: int,
    size: int,
    i: int,
)
    requires
        0 <= i <= count,
        size >= 128,
        b.len() == count * size,
        forall|k: int| 0 <= k < b.len() ==> #[trigger] b[k] == img(table + k),
        forall|i: int|
            0 <= i < count && #[trigger] gpt_entry_used(img, i, table, size) ==> {
                let at = table + i * size;
                &&& ahci::u64_on(img, at + 32) <= ahci::u64_on(img, at + 40)
                &&& ahci::u64_on(img, at + 40) - ahci::u64_on(img, at + 32) < u64::MAX
                &&& filesystem_at(d, ahci::u64_on(img, at + 32)) is Ok
            },
    ensures
        gpt_entries(d, b, size, count, i) is Ok,
    decreases count - i,
{
    if i < count {
        lemma_good_entries(d, img, b, table, count, size, i + 1);
        let at = i * size;
        assert(0 <= at && at + size <= b.len()) by (nonlinear_arith)
            requires
                0 <= i < count,
                size >= 128,
                at == i * size,
                b.len() == count * size,
        ;
        if entry_used(b, at) {
            let k = choose|k: int| 0 <= k < 16 && #[trigger] b[at + k] != 0;
            assert(b[at + k] == img(table + (at + k)));
            assert(table + (at + k) == table + i * size + k);
            assert(gpt_entry_used(img, i, table, size));
            lemma_words_on(b, img, table, at + 32);
            lemma_words_on(b, img, table, at + 40);
            assert(table + (at + 32) == table + i * size + 32);
            assert(table + (at + 40) == table + i * size + 40);
        }
    }
}

} // verus!
