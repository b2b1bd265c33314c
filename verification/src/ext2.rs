//! Read-only ext2.
//!
//! Mounts the file system that starts at sector 0, resolves absolute paths,
//! lists directories and reads whole files, over the direct blocks of an inode
//! and its single indirect one. A file that needs more than that is an error,
//! never cut short.
use vstd::prelude::*;
use vstd::string::StrSliceExecFns;
use crate::ahci::{self, AhciPort, DiskError, Sectors};
use crate::bytes;
use crate::mb2;
use crate::text;

verus! {

pub const EXT2_MAGIC: u16 = 0xEF53;

pub const ROOT_INODE: u32 = 2;

pub const EXT2_S_IFDIR: u16 = 0x4000;

pub const EXT2_FT_DIR: u8 = 2;

pub const ERR_MAGIC: &'static str =
    "magic ext2 no coincide (0xEF53) — ¿el disco no tiene ext2 en el LBA 0?";

pub const ERR_BLOCK_SIZE: &'static str = "tamaño de bloque > 4096 no soportado en esta versión";

pub const ERR_GEOMETRY: &'static str = "geometría ext2 inválida (¿superbloque corrupto?)";

pub const ERR_INODE_ZERO: &'static str = "inodo 0 no existe (los inodos empiezan en 1)";

pub const ERR_INODE_RANGE: &'static str = "inodo fuera de los límites del bloque leído";

pub const ERR_NO_INDIRECT: &'static str =
    "faltan bloques de datos y el indirecto simple está vacío (inodo corrupto?)";

pub const ERR_DOUBLE_INDIRECT: &'static str =
    "fichero necesita doble/triple indirecto — no soportado en esta versión";

pub const ERR_NOT_DIR: &'static str = "no es un directorio";

pub const ERR_COMPONENT: &'static str = "componente intermedio de la ruta no es un directorio";

pub const ERR_NOT_FOUND: &'static str = "no existe en el ext2";

/// A mounted file system: what it takes to find a block without reading the
/// superblock again.
#[derive(Clone, Copy, PartialEq, Eq, Debug, Structural)]
pub struct Ext2Fs {
    pub block_size: u32,
    pub inodes_per_group: u32,
    pub inode_size: u32,
    /// First block of the group descriptors: the one after the superblock.
    pub bgdt_block: u32,
}

/// The part of an inode that it takes to list and read.
pub struct Inode {
    pub mode: u16,
    pub size: u32,
    pub block: [u32; 15],
}

/// What an [`Inode`] says.
#[verifier::ext_equal]
pub struct InodeInfo {
    pub mode: u16,
    pub size: u32,
    pub block: Seq<u32>,
}

impl View for Inode {
    type V = InodeInfo;

    open spec fn view(&self) -> InodeInfo {
        InodeInfo { mode: self.mode, size: self.size, block: self.block@ }
    }
}

pub struct DirEntry {
    pub inode: u32,
    pub name: String,
    pub is_dir: bool,
}

/// What a [`DirEntry`] says.
pub struct EntryInfo {
    pub inode: u32,
    pub name: Seq<char>,
    pub is_dir: bool,
}

impl View for DirEntry {
    type V = EntryInfo;

    open spec fn view(&self) -> EntryInfo {
        EntryInfo { inode: self.inode, name: self.name@, is_dir: self.is_dir }
    }
}

/// What a list of entries says.
pub open spec fn infos(s: Seq<DirEntry>) -> Seq<EntryInfo> {
    s.map_values(|e: DirEntry| e@)
}

impl InodeInfo {
    /// Whether the inode is a directory.
    pub open spec fn dir(self) -> bool {
        self.mode & 0xF000 == EXT2_S_IFDIR
    }
}

impl Inode {
    pub fn is_dir(&self) -> (r: bool)
        ensures
            r == self@.dir(),
    {
        self.mode & 0xF000 == EXT2_S_IFDIR
    }
}

// --- what is on the disk -----------------------------------------------------------

/// The file system that a superblock describes.
pub open spec fn mounted(sb: Seq<u8>) -> Result<Ext2Fs, DiskError> {
    let log_block_size = bytes::le32(sb, 24);
    let block_size: int = if log_block_size == 0 {
        1024
    } else if log_block_size == 1 {
        2048
    } else {
        4096
    };
    let first_data_block = bytes::le32(sb, 20);
    let inodes_per_group = bytes::le32(sb, 40);
    let inode_size = if bytes::le32(sb, 76) == 0 {
        128
    } else {
        bytes::le16(sb, 88)
    };
    if bytes::le16(sb, 56) != EXT2_MAGIC {
        Err(DiskError::Invalid(ERR_MAGIC))
    } else if log_block_size > 2 {
        Err(DiskError::Invalid(ERR_BLOCK_SIZE))
    } else if first_data_block == u32::MAX {
        Err(DiskError::Invalid(ERR_GEOMETRY))
    } else {
        Ok(
            Ext2Fs {
                block_size: block_size as u32,
                inodes_per_group: inodes_per_group as u32,
                inode_size: inode_size as u32,
                bgdt_block: (first_data_block + 1) as u32,
            },
        )
    }
}

/// The inode in a block.
pub open spec fn inode_in(b: Seq<u8>, off: int) -> InodeInfo {
    InodeInfo {
        mode: bytes::le16(b, off) as u16,
        size: bytes::le32(b, off + 4) as u32,
        block: Seq::new(15, |i: int| bytes::le32(b, off + 40 + 4 * i) as u32),
    }
}

/// The entries of a directory block from `off` on. An entry that does not fit
/// ends the block; one without an inode, or whose name is not UTF-8, is passed
/// over.
pub open spec fn block_entries(b: Seq<u8>, off: int) -> Seq<EntryInfo>
    decreases mb2::left(off, b.len() as int),
{
    let inode = bytes::le32(b, off);
    let rec_len = bytes::le16(b, off + 4);
    let name_len = b[off + 6] as int;
    let name = b.subrange(off + 8, off + 8 + name_len);
    if off < 0 || off + 8 > b.len() || rec_len < 8 {
        Seq::empty()
    } else if inode != 0 && off + 8 + name_len > b.len() {
        Seq::empty()
    } else if inode != 0 && name_len > 0 && vstd::utf8::valid_utf8(name) {
        seq![
            EntryInfo {
                inode: inode as u32,
                name: vstd::utf8::decode_utf8(name),
                is_dir: b[off + 7] == EXT2_FT_DIR,
            },
        ] + block_entries(b, off + rec_len)
    } else {
        block_entries(b, off + rec_len)
    }
}

/// The first entry of that name from `i` on.
pub open spec fn entry_named(s: Seq<EntryInfo>, name: Seq<char>, i: int) -> Option<EntryInfo>
    decreases s.len() - i,
{
    if i >= s.len() {
        None
    } else if s[i].name == name {
        Some(s[i])
    } else {
        entry_named(s, name, i + 1)
    }
}

/// Where the component of a path ends that `i` is in.
pub open spec fn component_end(path: Seq<char>, i: int) -> int
    decreases path.len() - i,
{
    if i >= path.len() || path[i] == '/' {
        i
    } else {
        component_end(path, i + 1)
    }
}

/// A component ends behind its start and inside the path.
pub proof fn lemma_component_end(path: Seq<char>, i: int)
    requires
        0 <= i <= path.len(),
    ensures
        i <= component_end(path, i) <= path.len(),
    decreases path.len() - i,
{
    if i < path.len() && path[i] != '/' {
        lemma_component_end(path, i + 1);
    }
}

impl Ext2Fs {
    pub open spec fn wf(self) -> bool {
        self.block_size == 1024 || self.block_size == 2048 || self.block_size == 4096
    }

    /// Whether a block holds whole inodes.
    pub open spec fn holds_inodes(self) -> bool {
        0 < self.inode_size <= self.block_size
    }

    /// A block of the file system.
    pub open spec fn block_at(self, d: Sectors, n: int) -> Result<Seq<u8>, DiskError> {
        ahci::sectors(
            d,
            n * (self.block_size as int / 512),
            (self.block_size as int / 512) as nat,
        )
    }

    /// The inode of a number: the group descriptor gives the table, the table
    /// the inode.
    pub open spec fn inode_at(self, d: Sectors, inum: int) -> Result<InodeInfo, DiskError> {
        let group = (inum - 1) / self.inodes_per_group as int;
        let index = (inum - 1) % self.inodes_per_group as int;
        let descs_per_block = self.block_size as int / 32;
        let desc_block = self.bgdt_block + group / descs_per_block;
        let inodes_per_block = self.block_size as int / self.inode_size as int;
        let off = (index % inodes_per_block) * self.inode_size;
        if inum == 0 {
            Err(DiskError::Invalid(ERR_INODE_ZERO))
        } else if self.inodes_per_group == 0 || desc_block > u32::MAX {
            Err(DiskError::Invalid(ERR_GEOMETRY))
        } else {
            match self.block_at(d, desc_block) {
                Err(e) => Err(e),
                Ok(desc) => {
                    let table = bytes::le32(desc, (group % descs_per_block) * 32 + 8);
                    let inode_block = table + index / inodes_per_block;
                    if !self.holds_inodes() || inode_block > u32::MAX {
                        Err(DiskError::Invalid(ERR_GEOMETRY))
                    } else {
                        match self.block_at(d, inode_block) {
                            Err(e) => Err(e),
                            Ok(b) => if off + 128 > self.block_size {
                                Err(DiskError::Invalid(ERR_INODE_RANGE))
                            } else {
                                Ok(inode_in(b, off))
                            },
                        }
                    }
                },
            }
        }
    }

    /// How many blocks hold the data of an inode.
    pub open spec fn blocks_needed(self, inode: InodeInfo) -> int {
        (inode.size + self.block_size - 1) / self.block_size as int
    }

    /// The blocks that hold the data of an inode, in order: the direct ones,
    /// then those of the single indirect block.
    pub open spec fn blocks_of(self, d: Sectors, inode: InodeInfo) -> Result<Seq<u32>, DiskError> {
        let needed = self.blocks_needed(inode);
        if needed <= 12 {
            Ok(inode.block.subrange(0, needed))
        } else if inode.block[12] == 0 {
            Err(DiskError::Invalid(ERR_NO_INDIRECT))
        } else {
            match self.block_at(d, inode.block[12] as int) {
                Err(e) => Err(e),
                Ok(b) => if needed > 12 + self.block_size as int / 4 {
                    Err(DiskError::Invalid(ERR_DOUBLE_INDIRECT))
                } else {
                    Ok(
                        inode.block.subrange(0, 12) + Seq::new(
                            (needed - 12) as nat,
                            |i: int| bytes::le32(b, 4 * i) as u32,
                        ),
                    )
                },
            }
        }
    }

    /// What the blocks from the `i`-th on hold, one after the other.
    pub open spec fn joined(self, d: Sectors, blocks: Seq<u32>, i: int) -> Result<
        Seq<u8>,
        DiskError,
    >
        decreases blocks.len() - i,
    {
        if i >= blocks.len() {
            Ok(Seq::empty())
        } else {
            match self.block_at(d, blocks[i] as int) {
                Err(e) => Err(e),
                Ok(b) => match self.joined(d, blocks, i + 1) {
                    Err(e) => Err(e),
                    Ok(rest) => Ok(b + rest),
                },
            }
        }
    }

    /// The data of an inode.
    pub open spec fn data_of(self, d: Sectors, inode: InodeInfo) -> Result<Seq<u8>, DiskError> {
        match self.blocks_of(d, inode) {
            Err(e) => Err(e),
            Ok(blocks) => match self.joined(d, blocks, 0) {
                Err(e) => Err(e),
                Ok(b) => Ok(b.subrange(0, inode.size as int)),
            },
        }
    }

    /// The entries in the direct blocks of a directory from the `i`-th on.
    pub open spec fn entries_from(self, d: Sectors, inode: InodeInfo, i: int) -> Result<
        Seq<EntryInfo>,
        DiskError,
    >
        decreases 12 - i,
    {
        if i >= 12 {
            Ok(Seq::empty())
        } else if inode.block[i] == 0 {
            self.entries_from(d, inode, i + 1)
        } else {
            match self.block_at(d, inode.block[i] as int) {
                Err(e) => Err(e),
                Ok(b) => match self.entries_from(d, inode, i + 1) {
                    Err(e) => Err(e),
                    Ok(rest) => Ok(block_entries(b, 0) + rest),
                },
            }
        }
    }

    /// The entries of a directory.
    pub open spec fn entries_of(self, d: Sectors, inode: InodeInfo) -> Result<
        Seq<EntryInfo>,
        DiskError,
    > {
        if !inode.dir() {
            Err(DiskError::Invalid(ERR_NOT_DIR))
        } else {
            self.entries_from(d, inode, 0)
        }
    }

    /// The inode of that name in a directory.
    pub open spec fn child_of(self, d: Sectors, inode: InodeInfo, name: Seq<char>) -> Result<
        InodeInfo,
        DiskError,
    > {
        if !inode.dir() {
            Err(DiskError::Invalid(ERR_COMPONENT))
        } else {
            match self.entries_of(d, inode) {
                Err(e) => Err(e),
                Ok(s) => match entry_named(s, name, 0) {
                    None => Err(DiskError::Invalid(ERR_NOT_FOUND)),
                    Some(entry) => self.inode_at(d, entry.inode as int),
                },
            }
        }
    }

    /// The inode that the components of a path from `i` on lead to. Slashes only
    /// part the components.
    pub open spec fn walk(self, d: Sectors, current: InodeInfo, path: Seq<char>, i: int) -> Result<
        InodeInfo,
        DiskError,
    >
        decreases path.len() - i,
    {
        if i < 0 || i >= path.len() {
            Ok(current)
        } else if path[i] == '/' {
            self.walk(d, current, path, i + 1)
        } else {
            proof {
                lemma_component_end(path, i + 1);
            }
            let end = component_end(path, i);
            match self.child_of(d, current, path.subrange(i, end)) {
                Err(e) => Err(e),
                Ok(next) => self.walk(d, next, path, end),
            }
        }
    }

    /// The inode that an absolute path names.
    pub open spec fn resolved(self, d: Sectors, path: Seq<char>) -> Result<InodeInfo, DiskError> {
        match self.inode_at(d, ROOT_INODE as int) {
            Err(e) => Err(e),
            Ok(root) => self.walk(d, root, path, 0),
        }
    }
}

// --- reading it --------------------------------------------------------------------

/// A read gave what the disk says.
pub open spec fn answers(r: Result<Vec<u8>, DiskError>, want: Result<Seq<u8>, DiskError>) -> bool {
    match want {
        Ok(s) => r matches Ok(v) && v@ == s,
        Err(e) => r matches Err(e2) && e2 == e,
    }
}

/// The inode that the disk says, or its error.
pub open spec fn finds(r: Result<Inode, DiskError>, want: Result<InodeInfo, DiskError>) -> bool {
    match want {
        Ok(s) => r matches Ok(v) && v@ == s,
        Err(e) => r matches Err(e2) && e2 == e,
    }
}

impl Ext2Fs {
    /// Mounts the file system that starts at sector 0: reads its superblock, at
    /// byte 1024 whatever the block size, and checks it.
    pub fn mount(port: &AhciPort) -> (r: Result<Ext2Fs, DiskError>)
        requires
            port.wf(),
        ensures
            r == (match ahci::sectors(port@, 2, 2) {
                Ok(sb) => mounted(sb),
                Err(e) => Err(e),
            }),
            r matches Ok(fs) ==> fs.wf(),
    {
        let buf = match ahci::read_sectors(port, 2, 2) {
            Ok(b) => b,
            Err(e) => {
                return Err(e);
            },
        };
        let sb = buf.as_slice();
        if bytes::u16_at(sb, 56) != EXT2_MAGIC {
            return Err(DiskError::Invalid(ERR_MAGIC));
        }
        let log_block_size = bytes::u32_at(sb, 24);
        if log_block_size > 2 {
            return Err(DiskError::Invalid(ERR_BLOCK_SIZE));
        }
        let block_size: u32 = if log_block_size == 0 {
            1024
        } else if log_block_size == 1 {
            2048
        } else {
            4096
        };
        let first_data_block = bytes::u32_at(sb, 20);
        let inodes_per_group = bytes::u32_at(sb, 40);
        let rev_level = bytes::u32_at(sb, 76);
        let inode_size = if rev_level == 0 {
            128
        } else {
            bytes::u16_at(sb, 88) as u32
        };
        if first_data_block == u32::MAX {
            return Err(DiskError::Invalid(ERR_GEOMETRY));
        }
        Ok(
            Ext2Fs { block_size, inodes_per_group, inode_size, bgdt_block: first_data_block + 1 },
        )
    }

    /// Reads a whole block.
    fn read_block(&self, port: &AhciPort, block_num: u32) -> (r: Result<Vec<u8>, DiskError>)
        requires
            port.wf(),
            self.wf(),
        ensures
            answers(r, self.block_at(port@, block_num as int)),
            r matches Ok(v) ==> v@.len() == self.block_size,
    {
        let sectors_per_block = self.block_size as u64 / 512;
        assert(block_num * sectors_per_block <= 0xFFFF_FFFF * 8) by (nonlinear_arith)
            requires
                0 <= block_num <= 0xFFFF_FFFF,
                0 <= sectors_per_block <= 8,
        ;
        ahci::read_sectors(port, block_num as u64 * sectors_per_block, sectors_per_block)
    }

    /// Finds the inode of a number and reads it.
    pub fn read_inode(&self, port: &AhciPort, inum: u32) -> (r: Result<Inode, DiskError>)
        requires
            port.wf(),
            self.wf(),
        ensures
            finds(r, self.inode_at(port@, inum as int)),
    {
        if inum == 0 {
            return Err(DiskError::Invalid(ERR_INODE_ZERO));
        }
        if self.inodes_per_group == 0 {
            return Err(DiskError::Invalid(ERR_GEOMETRY));
        }
        let group = (inum - 1) / self.inodes_per_group;
        let index_in_group = (inum - 1) % self.inodes_per_group;
        let descs_per_block = self.block_size / 32;
        if group / descs_per_block > u32::MAX - self.bgdt_block {
            return Err(DiskError::Invalid(ERR_GEOMETRY));
        }
        let desc_buf = match self.read_block(port, self.bgdt_block + group / descs_per_block) {
            Ok(b) => b,
            Err(e) => {
                return Err(e);
            },
        };
        let desc_offset = ((group % descs_per_block) * 32) as usize;
        let inode_table_block = bytes::u32_at(desc_buf.as_slice(), desc_offset + 8);
        if self.inode_size == 0 || self.inode_size > self.block_size {
            return Err(DiskError::Invalid(ERR_GEOMETRY));
        }
        let inodes_per_block = self.block_size / self.inode_size;
        assert(inodes_per_block >= 1 && inodes_per_block * self.inode_size <= self.block_size)
            by (nonlinear_arith)
            requires
                0 < self.inode_size <= self.block_size,
                inodes_per_block == self.block_size / self.inode_size,
        ;
        if index_in_group / inodes_per_block > u32::MAX - inode_table_block {
            return Err(DiskError::Invalid(ERR_GEOMETRY));
        }
        let buf = match self.read_block(port, inode_table_block + index_in_group / inodes_per_block) {
            Ok(b) => b,
            Err(e) => {
                return Err(e);
            },
        };
        let place = index_in_group % inodes_per_block;
        assert(0 <= place * self.inode_size <= inodes_per_block * self.inode_size)
            by (nonlinear_arith)
            requires
                0 <= place < inodes_per_block,
                0 <= self.inode_size,
        ;
        let off = (place * self.inode_size) as usize;
        if off + 128 > buf.len() {
            return Err(DiskError::Invalid(ERR_INODE_RANGE));
        }
        let b = buf.as_slice();
        let mut block: [u32; 15] = [0;15];
        let mut i: usize = 0;
        while i < 15
            invariant
                i <= 15,
                off + 128 <= b@.len() <= 4096,
                forall|j: int|
                    0 <= j < i ==> #[trigger] block@[j] == bytes::le32(b@, off + 40 + 4 * j),
            decreases 15 - i,
        {
            block[i] = bytes::u32_at(b, off + 40 + i * 4);
            i += 1;
        }
        let inode = Inode { mode: bytes::u16_at(b, off), size: bytes::u32_at(b, off + 4), block };
        assert(inode@ =~= inode_in(b@, off as int));
        Ok(inode)
    }

    /// The blocks that hold the data of an inode.
    fn data_blocks(&self, port: &AhciPort, inode: &Inode) -> (r: Result<Vec<u32>, DiskError>)
        requires
            port.wf(),
            self.wf(),
        ensures
            match self.blocks_of(port@, inode@) {
                Ok(s) => r matches Ok(v) && v@ == s,
                Err(e) => r matches Err(e2) && e2 == e,
            },
            r matches Ok(v) ==> v@.len() == self.blocks_needed(inode@),
    {
        let (size, block_size) = (inode.size as u64, self.block_size as u64);
        let count = (size + block_size - 1) / block_size;
        assert(count <= 0x40_0000) by (nonlinear_arith)
            requires
                block_size >= 1024,
                size <= 0xFFFF_FFFF,
                count == (size + block_size - 1) / block_size as int,
        ;
        let needed = count as usize;
        let mut blocks: Vec<u32> = Vec::new();
        let mut i: usize = 0;
        while i < 12 && i < needed
            invariant
                i <= 12,
                i <= needed,
                blocks@ == inode.block@.subrange(0, i as int),
            decreases 12 - i,
        {
            blocks.push(inode.block[i]);
            assert(blocks@ =~= inode.block@.subrange(0, i + 1));
            i += 1;
        }
        if needed <= 12 {
            return Ok(blocks);
        }
        let indirect_ptr = inode.block[12];
        if indirect_ptr == 0 {
            return Err(DiskError::Invalid(ERR_NO_INDIRECT));
        }
        let buf = match self.read_block(port, indirect_ptr) {
            Ok(b) => b,
            Err(e) => {
                return Err(e);
            },
        };
        let indirect = buf.as_slice();
        let ptrs_per_block = (self.block_size / 4) as usize;
        if needed > 12 + ptrs_per_block {
            return Err(DiskError::Invalid(ERR_DOUBLE_INDIRECT));
        }
        let mut k: usize = 0;
        let ghost direct = blocks@;
        assert(blocks@ =~= direct + Seq::new(0, |i: int| bytes::le32(indirect@, 4 * i) as u32));
        while k < needed - 12
            invariant
                12 <= needed <= 12 + ptrs_per_block,
                ptrs_per_block * 4 == self.block_size,
                self.block_size <= 4096,
                k <= needed - 12,
                indirect@.len() == self.block_size,
                blocks@ == direct + Seq::new(
                    k as nat,
                    |i: int| bytes::le32(indirect@, 4 * i) as u32,
                ),
            decreases needed - 12 - k,
        {
            let ghost before = blocks@;
            blocks.push(bytes::u32_at(indirect, k * 4));
            k += 1;
            assert(blocks@ =~= direct + Seq::new(
                k as nat,
                |i: int| bytes::le32(indirect@, 4 * i) as u32,
            ));
        }
        Ok(blocks)
    }

    /// Reads the whole data of an inode: as many bytes as its size says.
    pub fn read_inode_data(&self, port: &AhciPort, inode: &Inode) -> (r: Result<Vec<u8>, DiskError>)
        requires
            port.wf(),
            self.wf(),
        ensures
            answers(r, self.data_of(port@, inode@)),
            r matches Ok(v) ==> v@.len() == inode.size,
    {
        let blocks = match self.data_blocks(port, inode) {
            Ok(b) => b,
            Err(e) => {
                return Err(e);
            },
        };
        let mut data: Vec<u8> = Vec::new();
        let mut i: usize = 0;
        let ghost all = self.joined(port@, blocks@, 0);
        proof {
            if all is Ok {
                assert(data@ + all->Ok_0 =~= all->Ok_0);
            }
        }
        while i < blocks.len()
            invariant
                i <= blocks@.len(),
                port.wf(),
                self.wf(),
                all == self.joined(port@, blocks@, 0),
                data@.len() == i * self.block_size,
                self.blocks_of(port@, inode@) == Ok::<Seq<u32>, DiskError>(blocks@),
                all == (match self.joined(port@, blocks@, i as int) {
                    Ok(rest) => Ok::<Seq<u8>, DiskError>(data@ + rest),
                    Err(e) => Err(e),
                }),
            decreases blocks@.len() - i,
        {
            let mut block_data = match self.read_block(port, blocks[i]) {
                Ok(b) => b,
                Err(e) => {
                    return Err(e);
                },
            };
            let ghost before = data@;
            let ghost b = block_data@;
            data.append(&mut block_data);
            proof {
                let rest = self.joined(port@, blocks@, i + 1);
                if rest is Ok {
                    assert(before + (b + rest->Ok_0) =~= data@ + rest->Ok_0);
                }
                assert((i + 1) * self.block_size == i * self.block_size + self.block_size)
                    by (nonlinear_arith);
            }
            i += 1;
        }
        proof {
            assert(data@ + Seq::<u8>::empty() =~= data@);
            let needed = self.blocks_needed(inode@);
            let (size, bs) = (inode.size as int, self.block_size as int);
            assert(needed * bs >= size) by (nonlinear_arith)
                requires
                    needed == (size + bs - 1) / bs,
                    bs > 0,
            ;
        }
        data.truncate(inode.size as usize);
        Ok(data)
    }
}

/// Appends the entries of a directory block.
fn push_entries(entries: &mut Vec<DirEntry>, block: &[u8])
    requires
        block@.len() <= 4096,
    ensures
        infos(final(entries)@) == infos(old(entries)@) + block_entries(block@, 0),
{
    let mut off: usize = 0;
    let len = block.len();
    let ghost all = infos(entries@) + block_entries(block@, 0);
    while off + 8 <= len
        invariant
            len == block@.len(),
            len <= 4096,
            off <= 4096 + 0x1_0000,
            infos(entries@) + block_entries(block@, off as int) == all,
        ensures
            infos(entries@) == all,
        decreases 0x2_0000 - off,
    {
        let inum = bytes::u32_at(block, off);
        let rec_len = bytes::u16_at(block, off + 4) as usize;
        let name_len = block[off + 6] as usize;
        if rec_len < 8 || (inum != 0 && off + 8 + name_len > len) {
            assert(infos(entries@) + Seq::<EntryInfo>::empty() =~= infos(entries@));
            break;
        }
        let ghost before = infos(entries@);
        if inum != 0 && name_len > 0 {
            let name_bytes = vstd::slice::slice_subrange(block, off + 8, off + 8 + name_len);
            if let Some(name) = text::utf8(name_bytes) {
                let entry = DirEntry {
                    inode: inum,
                    name: name.to_owned(),
                    is_dir: block[off + 7] == EXT2_FT_DIR,
                };
                let ghost info = entry@;
                entries.push(entry);
                proof {
                    assert(infos(entries@) =~= before.push(info));
                    let rest = block_entries(block@, off + rec_len);
                    assert(before + (seq![info] + rest) =~= infos(entries@) + rest);
                }
            }
        }
        off += rec_len;
        proof {
            if off + 8 > len {
                assert(infos(entries@) + Seq::<EntryInfo>::empty() =~= infos(entries@));
            }
        }
    }
}

impl Ext2Fs {
    /// Lists a directory, over its direct blocks.
    pub fn read_dir(&self, port: &AhciPort, dir_inode: &Inode) -> (r: Result<
        Vec<DirEntry>,
        DiskError,
    >)
        requires
            port.wf(),
            self.wf(),
        ensures
            match self.entries_of(port@, dir_inode@) {
                Ok(s) => r matches Ok(v) && infos(v@) == s,
                Err(e) => r matches Err(e2) && e2 == e,
            },
    {
        if !dir_inode.is_dir() {
            return Err(DiskError::Invalid(ERR_NOT_DIR));
        }
        let mut entries: Vec<DirEntry> = Vec::new();
        let mut i: usize = 0;
        let ghost all = self.entries_from(port@, dir_inode@, 0);
        proof {
            assert(infos(entries@) =~= Seq::<EntryInfo>::empty());
            if all is Ok {
                assert(infos(entries@) + all->Ok_0 =~= all->Ok_0);
            }
        }
        while i < 12
            invariant
                i <= 12,
                port.wf(),
                self.wf(),
                all == self.entries_of(port@, dir_inode@),
                all == (match self.entries_from(port@, dir_inode@, i as int) {
                    Ok(rest) => Ok::<Seq<EntryInfo>, DiskError>(infos(entries@) + rest),
                    Err(e) => Err(e),
                }),
            decreases 12 - i,
        {
            let b = dir_inode.block[i];
            if b != 0 {
                let block = match self.read_block(port, b) {
                    Ok(b) => b,
                    Err(e) => {
                        return Err(e);
                    },
                };
                let ghost before = infos(entries@);
                push_entries(&mut entries, block.as_slice());
                proof {
                    let rest = self.entries_from(port@, dir_inode@, i + 1);
                    if rest is Ok {
                        assert(before + (block_entries(block@, 0) + rest->Ok_0) =~= infos(entries@)
                            + rest->Ok_0);
                    }
                }
            }
            i += 1;
        }
        assert(infos(entries@) + Seq::<EntryInfo>::empty() =~= infos(entries@));
        Ok(entries)
    }

    /// Finds the inode that an absolute path names: from the root, component by
    /// component.
    pub fn resolve(&self, port: &AhciPort, path: &str) -> (r: Result<Inode, DiskError>)
        requires
            port.wf(),
            self.wf(),
        ensures
            finds(r, self.resolved(port@, path@)),
    {
        let mut current = match self.read_inode(port, ROOT_INODE) {
            Ok(inode) => inode,
            Err(e) => {
                return Err(e);
            },
        };
        let len = path.unicode_len();
        let mut i: usize = 0;
        while i < len
            invariant
                i <= len,
                len == path@.len(),
                port.wf(),
                self.wf(),
                self.resolved(port@, path@) == self.walk(port@, current@, path@, i as int),
            decreases len - i,
        {
            if path.get_char(i) == '/' {
                i += 1;
            } else {
                let mut end: usize = i + 1;
                while end < len && path.get_char(end) != '/'
                    invariant
                        i < end <= len,
                        len == path@.len(),
                        component_end(path@, end as int) == component_end(path@, i as int),
                    ensures
                        i < end <= len,
                        end == component_end(path@, i as int),
                    decreases len - end,
                {
                    end += 1;
                }
                let component = path.substring_char(i, end);
                if !current.is_dir() {
                    return Err(DiskError::Invalid(ERR_COMPONENT));
                }
                let entries = match self.read_dir(port, &current) {
                    Ok(e) => e,
                    Err(e) => {
                        return Err(e);
                    },
                };
                let inum = match find_entry(&entries, component) {
                    Some(n) => n,
                    None => {
                        return Err(DiskError::Invalid(ERR_NOT_FOUND));
                    },
                };
                current = match self.read_inode(port, inum) {
                    Ok(inode) => inode,
                    Err(e) => {
                        return Err(e);
                    },
                };
                i = end;
            }
        }
        Ok(current)
    }
}

/// The inode of the first entry of that name.
fn find_entry(entries: &Vec<DirEntry>, name: &str) -> (r: Option<u32>)
    ensures
        match entry_named(infos(entries@), name@, 0) {
            Some(e) => r == Some(e.inode),
            None => r is None,
        },
{
    let mut k: usize = 0;
    while k < entries.len()
        invariant
            k <= entries@.len(),
            entry_named(infos(entries@), name@, k as int) == entry_named(
                infos(entries@),
                name@,
                0,
            ),
        decreases entries@.len() - k,
    {
        if text::same_text(entries[k].name.as_str(), name) {
            return Some(entries[k].inode);
        }
        k += 1;
    }
    None
}

// --- laws --------------------------------------------------------------------------

/// A path without components is the root directory.
pub proof fn law_slashes_are_the_root(fs: Ext2Fs, d: Sectors, path: Seq<char>)
    requires
        forall|i: int| 0 <= i < path.len() ==> #[trigger] path[i] == '/',
    ensures
        fs.resolved(d, path) == fs.inode_at(d, ROOT_INODE as int),
{
    if let Ok(root) = fs.inode_at(d, ROOT_INODE as int) {
        lemma_only_slashes(fs, d, root, path, 0);
    }
}

proof fn lemma_only_slashes(fs: Ext2Fs, d: Sectors, at: InodeInfo, path: Seq<char>, i: int)
    requires
        0 <= i,
        forall|i: int| 0 <= i < path.len() ==> #[trigger] path[i] == '/',
    ensures
        fs.walk(d, at, path, i) == Ok::<InodeInfo, DiskError>(at),
    decreases path.len() - i,
{
    if i < path.len() {
        lemma_only_slashes(fs, d, at, path, i + 1);
    }
}

/// Paths go on where they end: what a path leads to that is made of `a`, a slash
/// and `b`, is what `b` leads to from where `a` leads.
pub proof fn law_paths_join(fs: Ext2Fs, d: Sectors, a: Seq<char>, b: Seq<char>)
    ensures
        fs.resolved(d, a + seq!['/'] + b) == match fs.resolved(d, a) {
            Ok(at) => fs.walk(d, at, b, 0),
            Err(e) => Err(e),
        },
{
    if let Ok(root) = fs.inode_at(d, ROOT_INODE as int) {
        lemma_walk_first(fs, d, root, a, b, 0);
    }
}

proof fn lemma_walk_first(
    fs: Ext2Fs,
    d: Sectors,
    at: InodeInfo,
    a: Seq<char>,
    b: Seq<char>,
    i: int,
)
    requires
        0 <= i <= a.len(),
    ensures
        fs.walk(d, at, a + seq!['/'] + b, i) == match fs.walk(d, at, a, i) {
            Ok(next) => fs.walk(d, next, b, 0),
            Err(e) => Err(e),
        },
    decreases a.len() - i,
{
    let p = a + seq!['/'] + b;
    if i == a.len() {
        assert(p[i] == '/');
        lemma_walk_second(fs, d, at, a, b, 0);
    } else if a[i] == '/' {
        assert(p[i] == '/');
        lemma_walk_first(fs, d, at, a, b, i + 1);
    } else {
        assert(p[i] == a[i]);
        lemma_component_end(a, i + 1);
        lemma_same_end(a, b, i);
        let end = component_end(a, i);
        assert(p.subrange(i, end) =~= a.subrange(i, end));
        if let Ok(next) = fs.child_of(d, at, a.subrange(i, end)) {
            lemma_walk_first(fs, d, next, a, b, end);
        }
    }
}

proof fn lemma_walk_second(
    fs: Ext2Fs,
    d: Sectors,
    at: InodeInfo,
    a: Seq<char>,
    b: Seq<char>,
    k: int,
)
    requires
        0 <= k <= b.len(),
    ensures
        fs.walk(d, at, a + seq!['/'] + b, a.len() + 1 + k) == fs.walk(d, at, b, k),
    decreases b.len() - k,
{
    let p = a + seq!['/'] + b;
    let off = a.len() + 1;
    if k < b.len() {
        assert(p[off + k] == b[k]);
        if b[k] == '/' {
            lemma_walk_second(fs, d, at, a, b, k + 1);
        } else {
            lemma_component_end(b, k + 1);
            lemma_later_end(a, b, k);
            let end = component_end(b, k);
            assert(p.subrange(off + k, off + end) =~= b.subrange(k, end));
            if let Ok(next) = fs.child_of(d, at, b.subrange(k, end)) {
                lemma_walk_second(fs, d, next, a, b, end);
            }
        }
    }
}

proof fn lemma_same_end(a: Seq<char>, b: Seq<char>, i: int)
    requires
        0 <= i <= a.len(),
    ensures
        component_end(a + seq!['/'] + b, i) == component_end(a, i),
    decreases a.len() - i,
{
    let p = a + seq!['/'] + b;
    if i == a.len() {
        assert(p[i] == '/');
    } else {
        assert(p[i] == a[i]);
        if a[i] != '/' {
            lemma_same_end(a, b, i + 1);
        }
    }
}

proof fn lemma_later_end(a: Seq<char>, b: Seq<char>, k: int)
    requires
        0 <= k <= b.len(),
    ensures
        component_end(a + seq!['/'] + b, a.len() + 1 + k) == a.len() + 1 + component_end(b, k),
    decreases b.len() - k,
{
    let p = a + seq!['/'] + b;
    if k < b.len() {
        assert(p[a.len() + 1 + k] == b[k]);
        if b[k] != '/' {
            lemma_later_end(a, b, k + 1);
        }
    }
}

/// A block stays the same as more sectors become known.
proof fn lemma_block_stays(fs: Ext2Fs, a: Sectors, b: Sectors, n: int)
    requires
        ahci::knows_more(a, b),
        !ahci::unsettled(fs.block_at(a, n)),
    ensures
        fs.block_at(b, n) == fs.block_at(a, n),
{
    ahci::law_answers_are_stable(
        a,
        b,
        n * (fs.block_size as int / 512),
        (fs.block_size as int / 512) as nat,
    );
}

proof fn lemma_inode_stays(fs: Ext2Fs, a: Sectors, b: Sectors, inum: int)
    requires
        ahci::knows_more(a, b),
        !ahci::unsettled(fs.inode_at(a, inum)),
    ensures
        fs.inode_at(b, inum) == fs.inode_at(a, inum),
{
    let group = (inum - 1) / fs.inodes_per_group as int;
    let index = (inum - 1) % fs.inodes_per_group as int;
    let descs_per_block = fs.block_size as int / 32;
    let desc_block = fs.bgdt_block + group / descs_per_block;
    if inum != 0 && fs.inodes_per_group > 0 && desc_block <= u32::MAX {
        lemma_block_stays(fs, a, b, desc_block);
        if let Ok(desc) = fs.block_at(a, desc_block) {
            let table = bytes::le32(desc, (group % descs_per_block) * 32 + 8);
            let inode_block = table + index / (fs.block_size as int / fs.inode_size as int);
            if fs.holds_inodes() && inode_block <= u32::MAX {
                lemma_block_stays(fs, a, b, inode_block);
            }
        }
    }
}

proof fn lemma_joined_stays(fs: Ext2Fs, a: Sectors, b: Sectors, blocks: Seq<u32>, i: int)
    requires
        ahci::knows_more(a, b),
        !ahci::unsettled(fs.joined(a, blocks, i)),
    ensures
        fs.joined(b, blocks, i) == fs.joined(a, blocks, i),
    decreases blocks.len() - i,
{
    if i < blocks.len() {
        lemma_block_stays(fs, a, b, blocks[i] as int);
        if fs.block_at(a, blocks[i] as int) is Ok {
            lemma_joined_stays(fs, a, b, blocks, i + 1);
        }
    }
}

proof fn lemma_entries_stay(fs: Ext2Fs, a: Sectors, b: Sectors, inode: InodeInfo, i: int)
    requires
        ahci::knows_more(a, b),
        !ahci::unsettled(fs.entries_from(a, inode, i)),
    ensures
        fs.entries_from(b, inode, i) == fs.entries_from(a, inode, i),
    decreases 12 - i,
{
    if i < 12 {
        if inode.block[i] == 0 {
            lemma_entries_stay(fs, a, b, inode, i + 1);
        } else {
            lemma_block_stays(fs, a, b, inode.block[i] as int);
            if fs.block_at(a, inode.block[i] as int) is Ok {
                lemma_entries_stay(fs, a, b, inode, i + 1);
            }
        }
    }
}

proof fn lemma_walk_stays(
    fs: Ext2Fs,
    a: Sectors,
    b: Sectors,
    at: InodeInfo,
    path: Seq<char>,
    i: int,
)
    requires
        ahci::knows_more(a, b),
        0 <= i <= path.len(),
        !ahci::unsettled(fs.walk(a, at, path, i)),
    ensures
        fs.walk(b, at, path, i) == fs.walk(a, at, path, i),
    decreases path.len() - i,
{
    if i < path.len() {
        if path[i] == '/' {
            lemma_walk_stays(fs, a, b, at, path, i + 1);
        } else {
            lemma_component_end(path, i + 1);
            let end = component_end(path, i);
            let name = path.subrange(i, end);
            if at.dir() {
                lemma_entries_stay(fs, a, b, at, 0);
                if let Ok(s) = fs.entries_of(a, at) {
                    if let Some(entry) = entry_named(s, name, 0) {
                        lemma_inode_stays(fs, a, b, entry.inode as int);
                    }
                }
            }
            if let Ok(next) = fs.child_of(a, at, name) {
                lemma_walk_stays(fs, a, b, next, path, end);
            }
        }
    }
}

/// A path leads to the same inode, or fails the same way, however many more
/// sectors become known once the answer is settled.
pub proof fn law_paths_stay(fs: Ext2Fs, a: Sectors, b: Sectors, path: Seq<char>)
    requires
        ahci::knows_more(a, b),
        !ahci::unsettled(fs.resolved(a, path)),
    ensures
        fs.resolved(b, path) == fs.resolved(a, path),
{
    lemma_inode_stays(fs, a, b, ROOT_INODE as int);
    if let Ok(root) = fs.inode_at(a, ROOT_INODE as int) {
        lemma_walk_stays(fs, a, b, root, path, 0);
    }
}

/// The data and the entries of an inode stay the same, however many more sectors
/// become known once the answer is settled.
pub proof fn law_contents_stay(fs: Ext2Fs, a: Sectors, b: Sectors, inode: InodeInfo)
    requires
        ahci::knows_more(a, b),
    ensures
        !ahci::unsettled(fs.data_of(a, inode)) ==> fs.data_of(b, inode) == fs.data_of(a, inode),
        !ahci::unsettled(fs.entries_of(a, inode)) ==> fs.entries_of(b, inode) == fs.entries_of(
            a,
            inode,
        ),
{
    if !ahci::unsettled(fs.data_of(a, inode)) {
        if fs.blocks_needed(inode) > 12 && inode.block[12] != 0 {
            lemma_block_stays(fs, a, b, inode.block[12] as int);
        }
        if let Ok(blocks) = fs.blocks_of(a, inode) {
            lemma_joined_stays(fs, a, b, blocks, 0);
        }
    }
    if inode.dir() && !ahci::unsettled(fs.entries_of(a, inode)) {
        lemma_entries_stay(fs, a, b, inode, 0);
    }
}

// --- what the bytes of the disk mean ---------------------------------------------------

/// A block is read from its place on the disk, and can be once its sectors were.
proof fn lemma_block_on_disk(fs: Ext2Fs, d: Sectors, img: spec_fn(int) -> u8, n: int)
    requires
        fs.wf(),
        ahci::shows(d, img),
        0 <= n <= u32::MAX,
    ensures
        fs.block_at(d, n) matches Ok(b) ==> b.len() == fs.block_size && forall|k: int|
            0 <= k < b.len() ==> #[trigger] b[k] == img(n * fs.block_size + k),
        ahci::readable(d, n * fs.block_size, (n + 1) * fs.block_size) ==> fs.block_at(d, n) is Ok,
{
    let per = fs.block_size as int / 512;
    assert(512 * (n * per) == n * fs.block_size) by (nonlinear_arith)
        requires
            512 * per == fs.block_size,
    ;
    assert(512 * (n * per + per) == (n + 1) * fs.block_size) by (nonlinear_arith)
        requires
            512 * per == fs.block_size,
    ;
    assert(0 <= n * per <= 0xFFFF_FFFF * 8) by (nonlinear_arith)
        requires
            0 <= n <= 0xFFFF_FFFF,
            0 <= per <= 8,
    ;
    ahci::law_sectors_are_of_the_disk(d, img, n * per, per as nat);
    ahci::law_known_sectors_can_be_read(d, n * per, per as nat);
}

/// The 32-bit number in a block is the one at its place on the disk.
proof fn lemma_number_on_disk(b: Seq<u8>, img: spec_fn(int) -> u8, base: int, off: int)
    requires
        0 <= off,
        off + 4 <= b.len(),
        forall|k: int| 0 <= k < b.len() ==> #[trigger] b[k] == img(base + k),
    ensures
        bytes::le32(b, off) == ahci::u32_on(img, base + off),
        bytes::le16(b, off) == ahci::u16_on(img, base + off),
        0 <= ahci::u32_on(img, base + off) <= u32::MAX,
{
    assert(b[off] == img(base + off) && b[off + 1] == img(base + (off + 1)) && b[off + 2] == img(
        base + (off + 2),
    ) && b[off + 3] == img(base + (off + 3)));
    bytes::law_little_endian_is_positional(b, off);
}

/// The number of the block that holds block `q` of a file: direct pointer `q` of the
/// inode for the first twelve, then entry `q - 12` of the indirect block, which
/// pointer 12 names.
pub open spec fn pointer(
    fs: Ext2Fs,
    img: spec_fn(int) -> u8,
    inode: InodeInfo,
    q: int,
) -> int {
    if q < 12 {
        inode.block[q] as int
    } else {
        ahci::u32_on(img, inode.block[12] * fs.block_size + 4 * (q - 12))
    }
}

/// The data of an inode is as long as its size, and byte `p` of it is byte
/// `p % block_size` of the block that holds block `p / block_size` of the file.
pub proof fn law_file_is_its_blocks(
    fs: Ext2Fs,
    d: Sectors,
    img: spec_fn(int) -> u8,
    inode: InodeInfo,
    p: int,
)
    requires
        fs.wf(),
        ahci::shows(d, img),
        inode.block.len() == 15,
        0 <= p < inode.size,
    ensures
        fs.data_of(d, inode) matches Ok(data) ==> data.len() == inode.size && data[p] == img(
            pointer(fs, img, inode, p / fs.block_size as int) * fs.block_size + p
                % fs.block_size as int,
        ),
{
    let bs = fs.block_size as int;
    let q = p / bs;
    let needed = fs.blocks_needed(inode);
    if let Ok(data) = fs.data_of(d, inode) {
        let blocks = fs.blocks_of(d, inode)->Ok_0;
        lemma_pointers(fs, d, img, inode);
        assert(q < needed && needed * bs >= inode.size && needed >= 0) by (nonlinear_arith)
            requires
                q == p / bs,
                needed == (inode.size + bs - 1) / bs,
                0 <= p < inode.size,
                bs >= 1024,
        ;
        assert(q >= 0) by (nonlinear_arith)
            requires
                q == p / bs,
                0 <= p,
                bs >= 1024,
        ;
        lemma_joined_on_disk(fs, d, img, blocks, 0, q, p % bs);
        vstd::arithmetic::div_mod::lemma_fundamental_div_mod(p, bs);
        let all = fs.joined(d, blocks, 0)->Ok_0;
        assert(q * bs + p % bs == p) by (nonlinear_arith)
            requires
                p == bs * q + p % bs,
        ;
        assert(data[p] == all[p]);
        assert(blocks[q] == pointer(fs, img, inode, q));
    }
}

/// The blocks of a file are the ones that its pointers name.
proof fn lemma_pointers(fs: Ext2Fs, d: Sectors, img: spec_fn(int) -> u8, inode: InodeInfo)
    requires
        fs.wf(),
        ahci::shows(d, img),
        inode.block.len() == 15,
    ensures
        fs.blocks_of(d, inode) matches Ok(blocks) ==> blocks.len() == fs.blocks_needed(inode)
            && forall|q: int|
            0 <= q < blocks.len() ==> #[trigger] blocks[q] == pointer(fs, img, inode, q),
{
    let bs = fs.block_size as int;
    let needed = fs.blocks_needed(inode);
    assert(needed >= 0) by (nonlinear_arith)
        requires
            needed == (inode.size + bs - 1) / bs,
            inode.size >= 0,
            bs >= 1024,
    ;
    if let Ok(blocks) = fs.blocks_of(d, inode) {
        if needed > 12 {
            lemma_block_on_disk(fs, d, img, inode.block[12] as int);
            let b = fs.block_at(d, inode.block[12] as int)->Ok_0;
            assert forall|q: int| 0 <= q < blocks.len() implies #[trigger] blocks[q] == pointer(
                fs,
                img,
                inode,
                q,
            ) by {
                if q >= 12 {
                    lemma_number_on_disk(b, img, inode.block[12] * bs, 4 * (q - 12));
                }
            }
        }
    }
}

/// Byte `o` of the `q`-th of some blocks, in what they hold together.
proof fn lemma_joined_on_disk(
    fs: Ext2Fs,
    d: Sectors,
    img: spec_fn(int) -> u8,
    blocks: Seq<u32>,
    i: int,
    q: int,
    o: int,
)
    requires
        fs.wf(),
        ahci::shows(d, img),
        0 <= i <= q < blocks.len(),
        0 <= o < fs.block_size,
    ensures
        fs.joined(d, blocks, i) matches Ok(s) ==> s.len() == (blocks.len() - i) * fs.block_size
            && s[(q - i) * fs.block_size + o] == img(blocks[q] * fs.block_size + o),
    decreases blocks.len() - i,
{
    let bs = fs.block_size as int;
    lemma_block_on_disk(fs, d, img, blocks[i] as int);
    if let Ok(s) = fs.joined(d, blocks, i) {
        let b = fs.block_at(d, blocks[i] as int)->Ok_0;
        let rest = fs.joined(d, blocks, i + 1)->Ok_0;
        assert((blocks.len() - i) * bs == (blocks.len() - i - 1) * bs + bs) by (nonlinear_arith);
        if i < q {
            lemma_joined_on_disk(fs, d, img, blocks, i + 1, q, o);
            let at = (q - i - 1) * bs + o;
            assert((q - i) * bs + o == at + bs) by (nonlinear_arith)
                requires
                    at == (q - i - 1) * bs + o,
            ;
            assert(0 <= (q - i - 1) * bs && (q - i - 1) * bs + bs <= (blocks.len() - i - 1) * bs)
                by (nonlinear_arith)
                requires
                    0 <= q - i - 1,
                    q - i <= blocks.len() - i - 1,
                    bs >= 0,
            ;
            assert(s[at + bs] == rest[at]);
        } else {
            lemma_joined_len(fs, d, img, blocks, i + 1);
            assert((q - i) * bs == 0) by (nonlinear_arith)
                requires
                    q == i,
            ;
            assert(s[o] == b[o]);
        }
    }
}

proof fn lemma_joined_len(
    fs: Ext2Fs,
    d: Sectors,
    img: spec_fn(int) -> u8,
    blocks: Seq<u32>,
    i: int,
)
    requires
        0 <= i <= blocks.len(),
        fs.wf(),
        ahci::shows(d, img),
    ensures
        fs.joined(d, blocks, i) matches Ok(s) ==> s.len() == (blocks.len() - i) * fs.block_size,
    decreases blocks.len() - i,
{
    if i < blocks.len() {
        lemma_block_on_disk(fs, d, img, blocks[i] as int);
        lemma_joined_len(fs, d, img, blocks, i + 1);
        assert((blocks.len() - i) * fs.block_size == (blocks.len() - i - 1) * fs.block_size
            + fs.block_size) by (nonlinear_arith);
    }
}

/// A file whose blocks were all read can be read: up to twelve blocks directly, and
/// as many more as an indirect block has room for. A larger file is refused.
pub proof fn law_known_files_can_be_read(
    fs: Ext2Fs,
    d: Sectors,
    img: spec_fn(int) -> u8,
    inode: InodeInfo,
)
    requires
        fs.wf(),
        ahci::shows(d, img),
        inode.block.len() == 15,
        forall|q: int|
            0 <= q && q * fs.block_size < inode.size ==> ahci::readable(
                d,
                #[trigger] pointer(fs, img, inode, q) * fs.block_size,
                (pointer(fs, img, inode, q) + 1) * fs.block_size,
            ),
        inode.size > 12 * fs.block_size ==> inode.block[12] != 0 && ahci::readable(
            d,
            inode.block[12] * fs.block_size,
            (inode.block[12] + 1) * fs.block_size,
        ),
    ensures
        inode.size <= (12 + fs.block_size as int / 4) * fs.block_size ==> fs.data_of(d, inode) is Ok,
        inode.size > (12 + fs.block_size as int / 4) * fs.block_size ==> fs.data_of(d, inode)
            == Err::<Seq<u8>, DiskError>(DiskError::Invalid(ERR_DOUBLE_INDIRECT)),
{
    let bs = fs.block_size as int;
    let needed = fs.blocks_needed(inode);
    let most = 12 + bs / 4;
    assert((needed <= 12 <==> inode.size <= 12 * bs) && (needed <= most <==> inode.size <= most * bs))
        by (nonlinear_arith)
        requires
            needed == (inode.size + bs - 1) / bs,
            bs >= 1024,
            most > 0,
    ;
    assert forall|q: int| 0 <= q < needed implies #[trigger] (q * bs) < inode.size by {
        assert(q * bs < inode.size) by (nonlinear_arith)
            requires
                needed == (inode.size + bs - 1) / bs,
                q < needed,
                bs >= 1024,
        ;
    }
    if inode.size > 12 * bs {
        lemma_block_on_disk(fs, d, img, inode.block[12] as int);
    }
    lemma_pointers(fs, d, img, inode);
    if needed <= most {
        let blocks = fs.blocks_of(d, inode)->Ok_0;
        assert forall|q: int| 0 <= q < blocks.len() implies #[trigger] fs.block_at(
            d,
            blocks[q] as int,
        ) is Ok by {
            assert(q * bs < inode.size);
            assert(blocks[q] == pointer(fs, img, inode, q));
            lemma_block_on_disk(fs, d, img, blocks[q] as int);
        }
        lemma_joined_ok(fs, d, blocks, 0);
    }
}

proof fn lemma_joined_ok(fs: Ext2Fs, d: Sectors, blocks: Seq<u32>, i: int)
    requires
        0 <= i <= blocks.len(),
        forall|q: int| 0 <= q < blocks.len() ==> #[trigger] fs.block_at(d, blocks[q] as int) is Ok,
    ensures
        fs.joined(d, blocks, i) is Ok,
    decreases blocks.len() - i,
{
    if i < blocks.len() {
        lemma_joined_ok(fs, d, blocks, i + 1);
    }
}

/// A superblock is known by its magic, the 16-bit number 0xEF53 at 56. The 32-bit
/// numbers at 24, 20 and 40 give the size of a block as a power of two times 1024,
/// the block before the group descriptors, and the inodes of a group. The size of an
/// inode is 128 in revision 0, and otherwise the 16-bit number at 88.
pub proof fn law_superblock_is_understood(sb: Seq<u8>)
    requires
        sb.len() == 1024,
        sb[56] == 0x53,
        sb[57] == 0xEF,
        bytes::le32(sb, 20) < u32::MAX,
    ensures
        bytes::le32(sb, 24) <= 2 <==> mounted(sb) is Ok,
        mounted(sb) matches Ok(fs) ==> {
            &&& bytes::le32(sb, 24) == 0 ==> fs.block_size == 1024
            &&& bytes::le32(sb, 24) == 1 ==> fs.block_size == 2048
            &&& bytes::le32(sb, 24) == 2 ==> fs.block_size == 4096
            &&& fs.bgdt_block == bytes::le32(sb, 20) + 1
            &&& fs.inodes_per_group == bytes::le32(sb, 40)
            &&& bytes::le32(sb, 76) == 0 ==> fs.inode_size == 128
            &&& bytes::le32(sb, 76) != 0 ==> fs.inode_size == bytes::le16(sb, 88)
        },
{
}

/// Without the magic nothing is mounted.
pub proof fn law_magic_is_needed(sb: Seq<u8>)
    requires
        !(sb[56] == 0x53 && sb[57] == 0xEF),
    ensures
        mounted(sb) == Err::<Ext2Fs, DiskError>(DiskError::Invalid(ERR_MAGIC)),
{
}

/// Where inode `inum` lies on the disk: in the table of its group, at its place among
/// the inodes of that group. The table starts at the block that the 32-bit number at
/// 8 in the group descriptor names; descriptors have 32 bytes.
pub open spec fn inode_place(fs: Ext2Fs, img: spec_fn(int) -> u8, inum: int) -> int {
    let group = (inum - 1) / fs.inodes_per_group as int;
    ahci::u32_on(img, fs.bgdt_block * fs.block_size + 32 * group + 8) * fs.block_size + (inum - 1)
        % fs.inodes_per_group as int * fs.inode_size
}

/// An inode is read from its place: its mode there, its size 4 bytes further, its
/// fifteen pointers from 40 bytes further on.
pub proof fn law_inode_is_at_its_place(
    fs: Ext2Fs,
    d: Sectors,
    img: spec_fn(int) -> u8,
    inum: int,
)
    requires
        fs.wf(),
        ahci::shows(d, img),
        0 < inum <= u32::MAX,
        fs.inode_size > 0,
        fs.block_size % fs.inode_size == 0,
    ensures
        fs.inode_at(d, inum) matches Ok(inode) ==> {
            let at = inode_place(fs, img, inum);
            &&& inode.mode == ahci::u16_on(img, at)
            &&& inode.size == ahci::u32_on(img, at + 4)
            &&& inode.block.len() == 15
            &&& forall|i: int|
                0 <= i < 15 ==> #[trigger] inode.block[i] == ahci::u32_on(img, at + 40 + 4 * i)
        },
{
    if let Ok(inode) = fs.inode_at(d, inum) {
        let (bs, isz, ipg) = (
            fs.block_size as int,
            fs.inode_size as int,
            fs.inodes_per_group as int,
        );
        let (group, index) = ((inum - 1) / ipg, (inum - 1) % ipg);
        let dpb = bs / 32;
        let desc_block = fs.bgdt_block + group / dpb;
        assert(group >= 0 && index >= 0) by (nonlinear_arith)
            requires
                group == (inum - 1) / ipg,
                index == (inum - 1) % ipg,
                inum > 0,
                ipg > 0,
        ;
        assert(group / dpb >= 0);
        lemma_block_on_disk(fs, d, img, desc_block);
        let desc = fs.block_at(d, desc_block)->Ok_0;
        lemma_number_on_disk(desc, img, desc_block * bs, (group % dpb) * 32 + 8);
        assert(desc_block * bs + (group % dpb) * 32 + 8 == fs.bgdt_block * bs + 32 * group + 8) by {
            assert(desc_block * bs == fs.bgdt_block * bs + (group / dpb) * bs) by (nonlinear_arith)
                requires
                    desc_block == fs.bgdt_block + group / dpb,
            ;
            vstd::arithmetic::div_mod::lemma_fundamental_div_mod(group, dpb);
            assert((group / dpb) * bs + (group % dpb) * 32 == 32 * group) by (nonlinear_arith)
                requires
                    bs == 32 * dpb,
                    group == dpb * (group / dpb) + group % dpb,
            ;
        }
        let table = ahci::u32_on(img, fs.bgdt_block * bs + 32 * group + 8);
        assert(table == bytes::le32(desc, (group % dpb) * 32 + 8));
        let ipb = bs / isz;
        vstd::arithmetic::div_mod::lemma_fundamental_div_mod(bs, isz);
        assert(ipb >= 1) by (nonlinear_arith)
            requires
                bs == isz * ipb,
                bs > 0,
                isz > 0,
        ;
        vstd::arithmetic::div_mod::lemma_fundamental_div_mod(index, ipb);
        vstd::arithmetic::div_mod::lemma_mod_bound(index, ipb);
        vstd::arithmetic::div_mod::lemma_div_pos_is_pos(index, ipb);
        let block = table + index / ipb;
        let off = (index % ipb) * isz;
        assert(off >= 0) by (nonlinear_arith)
            requires
                off == (index % ipb) * isz,
                index % ipb >= 0,
                isz >= 0,
        ;
        lemma_block_on_disk(fs, d, img, block);
        let b = fs.block_at(d, block)->Ok_0;
        let at = inode_place(fs, img, inum);
        assert(block * bs + off == at) by {
            assert(block * bs == table * bs + (index / ipb) * bs) by (nonlinear_arith)
                requires
                    block == table + index / ipb,
            ;
            assert((index / ipb) * bs + (index % ipb) * isz == index * isz) by (nonlinear_arith)
                requires
                    bs == isz * ipb,
                    index == ipb * (index / ipb) + index % ipb,
            ;
        }
        lemma_number_on_disk(b, img, block * bs, off);
        lemma_number_on_disk(b, img, block * bs, off + 4);
        assert forall|i: int| 0 <= i < 15 implies #[trigger] inode.block[i] == ahci::u32_on(
            img,
            at + 40 + 4 * i,
        ) by {
            lemma_number_on_disk(b, img, block * bs, off + 40 + 4 * i);
        }
    }
}

/// Whether an inode is a directory: the highest four bits of its mode are 4.
pub proof fn law_mode_tells_directories(inode: InodeInfo)
    ensures
        inode.dir() <==> inode.mode / 0x1000 == 4,
{
    let m = inode.mode;
    assert((m & 0xF000 == 0x4000) == (m / 0x1000 == 4)) by (bit_vector);
}

/// A directory block as a chain of entries: `at` are the places where they start,
/// the first at 0, each further one as far behind as the 16-bit number at 4 of the
/// one before says, the last at the end of the block. `before[i]` is how many of the
/// entries before entry `i` are in use and have a name that is text.
pub open spec fn entries_laid_out(b: Seq<u8>, at: Seq<int>, before: Seq<int>) -> bool {
    &&& at.len() > 0
    &&& at.len() == before.len()
    &&& at[0] == 0
    &&& before[0] == 0
    &&& at.last() == b.len()
    &&& forall|i: int|
        #![trigger at[i]]
        0 <= i < at.len() - 1 ==> {
            &&& 0 <= at[i]
            &&& bytes::le16(b, at[i] + 4) >= 8 + b[at[i] + 6]
            &&& at[i + 1] == at[i] + bytes::le16(b, at[i] + 4)
            &&& at[i + 1] <= b.len()
            &&& before[i + 1] == before[i] + if entry_shown(b, at[i]) {
                1int
            } else {
                0
            }
        }
}

/// Whether the entry at `e` is in use and has a name that is text.
pub open spec fn entry_shown(b: Seq<u8>, e: int) -> bool {
    &&& bytes::le32(b, e) != 0
    &&& b[e + 6] > 0
    &&& vstd::utf8::valid_utf8(b.subrange(e + 8, e + 8 + b[e + 6]))
}

/// Every entry of a directory block that is in use is listed, in order and none else:
/// the inode is the 32-bit number at its start, the name the bytes from 8 on, as many
/// as the byte at 6 says, and the byte at 7 is 2 for a directory.
pub proof fn law_directory_block_is_listed(b: Seq<u8>, at: Seq<int>, before: Seq<int>)
    requires
        entries_laid_out(b, at, before),
    ensures
        block_entries(b, 0).len() == before.last(),
        forall|i: int|
            #![trigger at[i]]
            0 <= i < at.len() - 1 && entry_shown(b, at[i]) ==> {
                let e = block_entries(b, 0)[before[i]];
                &&& e.inode == bytes::le32(b, at[i])
                &&& e.name == vstd::utf8::decode_utf8(
                    b.subrange(at[i] + 8, at[i] + 8 + b[at[i] + 6]),
                )
                &&& e.is_dir == (b[at[i] + 7] == 2)
            },
{
    lemma_entries_len(b, at, before, 0);
    assert forall|i: int|
        #![trigger at[i]]
        0 <= i < at.len() - 1 && entry_shown(b, at[i]) implies {
        let e = block_entries(b, 0)[before[i]];
        &&& e.inode == bytes::le32(b, at[i])
        &&& e.name == vstd::utf8::decode_utf8(b.subrange(at[i] + 8, at[i] + 8 + b[at[i] + 6]))
        &&& e.is_dir == (b[at[i] + 7] == 2)
    } by {
        lemma_entry_listed(b, at, before, 0, i);
    }
}

proof fn lemma_entry_step(b: Seq<u8>, at: Seq<int>, before: Seq<int>, i: int)
    requires
        entries_laid_out(b, at, before),
        0 <= i < at.len() - 1,
    ensures
        block_entries(b, at[i]) == if entry_shown(b, at[i]) {
            seq![
                EntryInfo {
                    inode: bytes::le32(b, at[i]) as u32,
                    name: vstd::utf8::decode_utf8(
                        b.subrange(at[i] + 8, at[i] + 8 + b[at[i] + 6]),
                    ),
                    is_dir: b[at[i] + 7] == 2,
                },
            ] + block_entries(b, at[i + 1])
        } else {
            block_entries(b, at[i + 1])
        },
{
    assert(at[i] + 8 + b[at[i] + 6] <= at[i + 1]);
}

proof fn lemma_entries_len(b: Seq<u8>, at: Seq<int>, before: Seq<int>, i: int)
    requires
        entries_laid_out(b, at, before),
        0 <= i < at.len(),
    ensures
        before[i] <= before.last(),
        block_entries(b, at[i]).len() == before.last() - before[i],
    decreases at.len() - i,
{
    if i < at.len() - 1 {
        lemma_entry_step(b, at, before, i);
        assert(at[i] >= 0);
        lemma_entries_len(b, at, before, i + 1);
    }
}

proof fn lemma_entry_listed(b: Seq<u8>, at: Seq<int>, before: Seq<int>, i: int, j: int)
    requires
        entries_laid_out(b, at, before),
        0 <= i <= j < at.len() - 1,
        entry_shown(b, at[j]),
    ensures
        before[i] <= before[j],
        before[j] - before[i] < block_entries(b, at[i]).len(),
        block_entries(b, at[i])[before[j] - before[i]] == (EntryInfo {
            inode: bytes::le32(b, at[j]) as u32,
            name: vstd::utf8::decode_utf8(b.subrange(at[j] + 8, at[j] + 8 + b[at[j] + 6])),
            is_dir: b[at[j] + 7] == 2,
        }),
    decreases j - i,
{
    lemma_entry_step(b, at, before, i);
    assert(at[i] >= 0);
    if i < j {
        lemma_entry_listed(b, at, before, i + 1, j);
    }
}

/// A directory is listed block by block, over the twelve direct pointers of its inode
/// that are not zero: its entries are those of these blocks, one block after the
/// other, `first[i]` of them before block `i`.
pub proof fn law_directory_is_its_blocks(
    fs: Ext2Fs,
    d: Sectors,
    inode: InodeInfo,
    first: Seq<int>,
)
    requires
        inode.mode / 0x1000 == 4,
        first.len() == 13,
        first[0] == 0,
        forall|i: int|
            #![trigger inode.block[i]]
            0 <= i < 12 ==> (inode.block[i] == 0 && first[i + 1] == first[i]) || (inode.block[i] != 0
                && fs.block_at(d, inode.block[i] as int) is Ok && first[i + 1] == first[i]
                + block_entries(fs.block_at(d, inode.block[i] as int)->Ok_0, 0).len()),
    ensures
        fs.entries_of(d, inode) matches Ok(s) && s.len() == first[12] && forall|i: int, k: int|
            #![trigger s[first[i] + k]]
            0 <= i < 12 && inode.block[i] != 0 && 0 <= k < block_entries(
                fs.block_at(d, inode.block[i] as int)->Ok_0,
                0,
            ).len() ==> s[first[i] + k] == block_entries(
                fs.block_at(d, inode.block[i] as int)->Ok_0,
                0,
            )[k],
{
    law_mode_tells_directories(inode);
    lemma_blocks_listed(fs, d, inode, first, 0);
    let s = fs.entries_of(d, inode)->Ok_0;
    assert forall|i: int, k: int|
        #![trigger s[first[i] + k]]
        0 <= i < 12 && inode.block[i] != 0 && 0 <= k < block_entries(
            fs.block_at(d, inode.block[i] as int)->Ok_0,
            0,
        ).len() implies s[first[i] + k] == block_entries(
        fs.block_at(d, inode.block[i] as int)->Ok_0,
        0,
    )[k] by {
        lemma_block_listed(fs, d, inode, first, 0, i, k);
    }
}

/// Whether `first[i]` entries come before direct block `i` of a directory.
spec fn counted(fs: Ext2Fs, d: Sectors, inode: InodeInfo, first: Seq<int>) -> bool {
    &&& first.len() == 13
    &&& forall|i: int|
        #![trigger inode.block[i]]
        0 <= i < 12 ==> (inode.block[i] == 0 && first[i + 1] == first[i]) || (inode.block[i] != 0
            && fs.block_at(d, inode.block[i] as int) is Ok && first[i + 1] == first[i]
            + block_entries(fs.block_at(d, inode.block[i] as int)->Ok_0, 0).len())
}

proof fn lemma_blocks_listed(fs: Ext2Fs, d: Sectors, inode: InodeInfo, first: Seq<int>, n: int)
    requires
        0 <= n <= 12,
        counted(fs, d, inode, first),
    ensures
        first[n] <= first[12],
        fs.entries_from(d, inode, n) is Ok,
        fs.entries_from(d, inode, n)->Ok_0.len() == first[12] - first[n],
    decreases 12 - n,
{
    if n < 12 {
        assert(inode.block[n] == inode.block[n]);
        lemma_blocks_listed(fs, d, inode, first, n + 1);
    }
}

proof fn lemma_block_listed(
    fs: Ext2Fs,
    d: Sectors,
    inode: InodeInfo,
    first: Seq<int>,
    n: int,
    i: int,
    k: int,
)
    requires
        0 <= n <= i < 12,
        counted(fs, d, inode, first),
        inode.block[i] != 0,
        0 <= k < block_entries(fs.block_at(d, inode.block[i] as int)->Ok_0, 0).len(),
    ensures
        first[n] <= first[i],
        fs.entries_from(d, inode, n)->Ok_0[first[i] - first[n] + k] == block_entries(
            fs.block_at(d, inode.block[i] as int)->Ok_0,
            0,
        )[k],
    decreases i - n,
{
    lemma_blocks_listed(fs, d, inode, first, n);
    lemma_blocks_listed(fs, d, inode, first, n + 1);
    lemma_blocks_listed(fs, d, inode, first, i + 1);
    assert(inode.block[n] == inode.block[n]);
    let rest = fs.entries_from(d, inode, n + 1)->Ok_0;
    let s = fs.entries_from(d, inode, n)->Ok_0;
    let here = if inode.block[n] != 0 {
        block_entries(fs.block_at(d, inode.block[n] as int)->Ok_0, 0)
    } else {
        Seq::empty()
    };
    assert(s =~= here + rest);
    if i > n {
        lemma_block_listed(fs, d, inode, first, n + 1, i, k);
        assert(s[first[i] - first[n] + k] == rest[first[i] - first[n + 1] + k]);
    } else {
        assert(s[k] == here[k]);
    }
}

/// A name in a directory leads to the inode of the first entry of that name; a name
/// that no entry has leads nowhere.
pub proof fn law_names_lead_to_inodes(
    fs: Ext2Fs,
    d: Sectors,
    inode: InodeInfo,
    name: Seq<char>,
    k: int,
)
    requires
        inode.mode / 0x1000 == 4,
        fs.entries_of(d, inode) is Ok,
    ensures
        ({
            let s = fs.entries_of(d, inode)->Ok_0;
            &&& 0 <= k < s.len() && s[k].name == name && (forall|j: int|
                0 <= j < k ==> (#[trigger] s[j]).name != name) ==> fs.child_of(d, inode, name)
                == fs.inode_at(d, s[k].inode as int)
            &&& (forall|j: int| 0 <= j < s.len() ==> (#[trigger] s[j]).name != name)
                ==> fs.child_of(d, inode, name) == Err::<InodeInfo, DiskError>(
                DiskError::Invalid(ERR_NOT_FOUND),
            )
        }),
{
    law_mode_tells_directories(inode);
    let s = fs.entries_of(d, inode)->Ok_0;
    lemma_named(s, name, 0, k);
}

proof fn lemma_named(s: Seq<EntryInfo>, name: Seq<char>, i: int, k: int)
    requires
        0 <= i <= s.len(),
    ensures
        i <= k < s.len() && s[k].name == name && (forall|j: int|
            i <= j < k ==> (#[trigger] s[j]).name != name) ==> entry_named(s, name, i) == Some(s[k]),
        (forall|j: int| i <= j < s.len() ==> (#[trigger] s[j]).name != name) ==> entry_named(
            s,
            name,
            i,
        ) is None,
    decreases s.len() - i,
{
    if i < s.len() {
        assert(s[i].name == s[i].name);
        lemma_named(s, name, i + 1, k);
    }
}

/// A component of a path is looked up in the directory that was reached.
pub proof fn law_component_is_looked_up(
    fs: Ext2Fs,
    d: Sectors,
    inode: InodeInfo,
    name: Seq<char>,
)
    requires
        name.len() > 0,
        forall|i: int| 0 <= i < name.len() ==> #[trigger] name[i] != '/',
    ensures
        fs.walk(d, inode, name, 0) == fs.child_of(d, inode, name),
{
    assert(name[0] != '/');
    lemma_whole_component(name, 0);
    assert(name.subrange(0, name.len() as int) =~= name);
    if let Ok(next) = fs.child_of(d, inode, name) {
        assert(fs.walk(d, next, name, name.len() as int) == Ok::<InodeInfo, DiskError>(next));
    }
}

proof fn lemma_whole_component(name: Seq<char>, i: int)
    requires
        0 <= i <= name.len(),
        forall|j: int| 0 <= j < name.len() ==> #[trigger] name[j] != '/',
    ensures
        component_end(name, i) == name.len(),
    decreases name.len() - i,
{
    if i < name.len() {
        lemma_whole_component(name, i + 1);
    }
}

/// On a disk that can be read, every inode with a number from 1 on whose place
/// lies on the disk is found; number 0 is none.
pub proof fn law_known_inodes_can_be_read(
    fs: Ext2Fs,
    d: Sectors,
    img: spec_fn(int) -> u8,
    inum: int,
)
    requires
        fs.wf(),
        ahci::shows(d, img),
        ahci::readable(d, 0, 0x1_0000_0000 * fs.block_size),
        0 < inum <= u32::MAX,
        fs.inodes_per_group > 0,
        fs.inode_size >= 128,
        fs.block_size % fs.inode_size == 0,
        fs.bgdt_block * fs.block_size + 32 * ((inum - 1) / fs.inodes_per_group as int)
            < 0x1_0000_0000 * fs.block_size,
        inode_place(fs, img, inum) < 0x1_0000_0000 * fs.block_size,
    ensures
        fs.inode_at(d, inum) is Ok,
        fs.inode_at(d, 0) is Err,
{
    let (bs, isz, ipg) = (
        fs.block_size as int,
        fs.inode_size as int,
        fs.inodes_per_group as int,
    );
    let (group, index) = ((inum - 1) / ipg, (inum - 1) % ipg);
    let dpb = bs / 32;
    let desc_block = fs.bgdt_block + group / dpb;
    vstd::arithmetic::div_mod::lemma_div_pos_is_pos(inum - 1, ipg);
    vstd::arithmetic::div_mod::lemma_mod_bound(inum - 1, ipg);
    vstd::arithmetic::div_mod::lemma_fundamental_div_mod(group, dpb);
    vstd::arithmetic::div_mod::lemma_mod_bound(group, dpb);
    vstd::arithmetic::div_mod::lemma_div_pos_is_pos(group, dpb);
    assert(desc_block < 0x1_0000_0000) by (nonlinear_arith)
        requires
            fs.bgdt_block * bs + 32 * group < 0x1_0000_0000 * bs,
            desc_block == fs.bgdt_block + group / dpb,
            bs == 32 * dpb,
            group == dpb * (group / dpb) + group % dpb,
            group % dpb >= 0,
            bs > 0,
    ;
    lemma_any_block(fs, d, img, desc_block);
    let desc = fs.block_at(d, desc_block)->Ok_0;
    lemma_block_on_disk(fs, d, img, desc_block);
    lemma_number_on_disk(desc, img, desc_block * bs, (group % dpb) * 32 + 8);
    assert(desc_block * bs + (group % dpb) * 32 + 8 == fs.bgdt_block * bs + 32 * group + 8)
        by (nonlinear_arith)
        requires
            desc_block == fs.bgdt_block + group / dpb,
            bs == 32 * dpb,
            group == dpb * (group / dpb) + group % dpb,
    ;
    let table = ahci::u32_on(img, fs.bgdt_block * bs + 32 * group + 8);
    assert(table == bytes::le32(desc, (group % dpb) * 32 + 8));
    let ipb = bs / isz;
    vstd::arithmetic::div_mod::lemma_fundamental_div_mod(bs, isz);
    assert(ipb >= 1 && isz <= bs) by (nonlinear_arith)
        requires
            bs == isz * ipb,
            bs > 0,
            isz > 0,
    ;
    vstd::arithmetic::div_mod::lemma_fundamental_div_mod(index, ipb);
    vstd::arithmetic::div_mod::lemma_mod_bound(index, ipb);
    vstd::arithmetic::div_mod::lemma_div_pos_is_pos(index, ipb);
    let block = table + index / ipb;
    let off = (index % ipb) * isz;
    assert(inode_place(fs, img, inum) == table * bs + index * isz);
    assert(block < 0x1_0000_0000 && off + isz <= bs) by (nonlinear_arith)
        requires
            table * bs + index * isz < 0x1_0000_0000 * bs,
            block == table + index / ipb,
            bs == isz * ipb,
            index == ipb * (index / ipb) + index % ipb,
            0 <= index % ipb < ipb,
            off == (index % ipb) * isz,
            isz > 0,
            bs > 0,
    ;
    lemma_any_block(fs, d, img, block);
}

proof fn lemma_any_block(fs: Ext2Fs, d: Sectors, img: spec_fn(int) -> u8, n: int)
    requires
        fs.wf(),
        ahci::shows(d, img),
        ahci::readable(d, 0, 0x1_0000_0000 * fs.block_size),
        0 <= n < 0x1_0000_0000,
    ensures
        fs.block_at(d, n) is Ok,
{
    let bs = fs.block_size as int;
    lemma_block_on_disk(fs, d, img, n);
    assert(0 <= n * bs && (n + 1) * bs <= 0x1_0000_0000 * bs) by (nonlinear_arith)
        requires
            0 <= n < 0x1_0000_0000,
            bs > 0,
    ;
    assert(ahci::readable(d, n * bs, (n + 1) * bs));
}

/// A path starts at inode 2.
pub proof fn law_root_is_inode_2(fs: Ext2Fs, d: Sectors)
    ensures
        fs.resolved(d, Seq::empty()) == fs.inode_at(d, 2),
{
    law_slashes_are_the_root(fs, d, Seq::empty());
}

} // verus!
