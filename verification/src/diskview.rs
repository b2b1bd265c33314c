//! What the console shows of a disk: its partitions, and the directories and
//! files of an ext2 file system on it.
use vstd::prelude::*;
use crate::ahci::{self, AhciPort, DiskError, Sectors};
use crate::ext2::{self, DirEntry, EntryInfo, Ext2Fs};
use crate::fmt;
use crate::partinfo::{self, Partition, PartitionInfo, TableKind};

verus! {

/// Something to be shown of a disk.
pub enum DiskJob {
    /// The partitions.
    Partitions,
    /// The directory of that path.
    List(String),
    /// The file of that path.
    Show(String),
}

/// What a job says.
pub enum JobInfo {
    Partitions,
    List(Seq<char>),
    Show(Seq<char>),
}

impl View for DiskJob {
    type V = JobInfo;

    open spec fn view(&self) -> JobInfo {
        match self {
            DiskJob::Partitions => JobInfo::Partitions,
            DiskJob::List(path) => JobInfo::List(path@),
            DiskJob::Show(path) => JobInfo::Show(path@),
        }
    }
}

/// How a job goes on.
pub enum DiskStep {
    /// Read this sector, hand it to the disk, and try again.
    Read(u64),
    /// Print this: the job is done.
    Print(Vec<u8>),
}

// --- partitions --------------------------------------------------------------------

/// The type byte of a partition, if it has one.
pub open spec fn type_text(mbr_type: Option<u8>) -> Seq<u8> {
    match mbr_type {
        Some(t) => fmt::text(", tipo 0x"@) + fmt::hex2(t),
        None => Seq::empty(),
    }
}

/// The name of a partition, if it has one.
pub open spec fn name_text(gpt_name: Option<Seq<char>>) -> Seq<u8> {
    match gpt_name {
        Some(n) => fmt::text(", nombre '"@) + fmt::text(n) + fmt::text("'"@),
        None => Seq::empty(),
    }
}

/// A line of the partition list.
pub open spec fn partition_text(p: PartitionInfo) -> Seq<u8> {
    fmt::decimal(p.index as nat) + fmt::text(": LBA "@) + fmt::decimal(p.start_lba as nat)
        + fmt::text(", "@) + fmt::decimal(p.sector_count as nat) + fmt::text(" sectores"@)
        + type_text(p.mbr_type) + name_text(p.gpt_name) + fmt::text(", "@) + fmt::text(p.filesystem@) + fmt::text("\r\n"@)
}

/// The lines of the first `n` partitions.
pub open spec fn partition_lines(s: Seq<PartitionInfo>, n: nat) -> Seq<u8>
    decreases n,
{
    if n == 0 {
        Seq::empty()
    } else {
        partition_lines(s, (n - 1) as nat) + partition_text(s[n - 1])
    }
}

/// The name of a kind of table, on a line.
pub open spec fn table_name(kind: TableKind) -> &'static str {
    match kind {
        TableKind::Mbr => "tabla MBR\r\n",
        TableKind::Gpt => "tabla GPT\r\n",
    }
}

/// What is shown of the partitions of a disk.
pub open spec fn partitions_shown(d: Sectors) -> Result<Seq<u8>, DiskError> {
    match partinfo::table_of(d) {
        Ok((kind, s)) => Ok(fmt::text(table_name(kind)@) + partition_lines(s, s.len())),
        Err(e) => Err(e),
    }
}

fn push_type(out: &mut Vec<u8>, mbr_type: Option<u8>)
    ensures
        final(out)@ == old(out)@ + type_text(mbr_type),
{
    if let Some(t) = mbr_type {
        fmt::push_text(out, ", tipo 0x");
        fmt::push_hex2(out, t);
    }
    assert(out@ =~= old(out)@ + type_text(mbr_type));
}

fn push_name(out: &mut Vec<u8>, p: &Partition)
    ensures
        final(out)@ == old(out)@ + name_text(p@.gpt_name),
{
    if let Some(n) = &p.gpt_name {
        fmt::push_text(out, ", nombre '");
        fmt::push_text(out, n.as_str());
        fmt::push_text(out, "'");
    }
    assert(out@ =~= old(out)@ + name_text(p@.gpt_name));
}

fn push_partition(out: &mut Vec<u8>, p: &Partition)
    ensures
        final(out)@ == old(out)@ + partition_text(p@),
{
    fmt::push_decimal(out, p.index as u64);
    fmt::push_text(out, ": LBA ");
    fmt::push_decimal(out, p.start_lba);
    fmt::push_text(out, ", ");
    fmt::push_decimal(out, p.sector_count);
    fmt::push_text(out, " sectores");
    push_type(out, p.mbr_type);
    push_name(out, p);
    fmt::push_text(out, ", ");
    fmt::push_text(out, p.filesystem);
    fmt::push_text(out, "\r\n");
    assert(out@ =~= old(out)@ + partition_text(p@));
}

/// Shows the partitions of a disk.
pub fn partinfo_report(port: &AhciPort) -> (r: Result<Vec<u8>, DiskError>)
    requires
        port.wf(),
    ensures
        ext2::answers(r, partitions_shown(port@)),
{
    let (kind, parts) = match partinfo::scan(port) {
        Ok(t) => t,
        Err(e) => {
            return Err(e);
        },
    };
    let ghost s = partinfo::infos(parts@);
    let name = match kind {
        TableKind::Mbr => "tabla MBR\r\n",
        TableKind::Gpt => "tabla GPT\r\n",
    };
    let mut out: Vec<u8> = Vec::new();
    fmt::push_text(&mut out, name);
    let mut i: usize = 0;
    assert(out@ =~= fmt::text(name@) + partition_lines(s, 0));
    while i < parts.len()
        invariant
            i <= parts@.len(),
            s == partinfo::infos(parts@),
            out@ == fmt::text(name@) + partition_lines(s, i as nat),
        decreases parts@.len() - i,
    {
        assert(s[i as int] == parts@[i as int]@);
        push_partition(&mut out, &parts[i]);
        i += 1;
        assert(out@ =~= fmt::text(name@) + partition_lines(s, i as nat));
    }
    Ok(out)
}

// --- ext2 --------------------------------------------------------------------------

/// The file system on a disk.
pub open spec fn file_system(d: Sectors) -> Result<Ext2Fs, DiskError> {
    match ahci::sectors(d, 2, 2) {
        Ok(sb) => ext2::mounted(sb),
        Err(e) => Err(e),
    }
}

/// A line of a directory: a slash marks directories.
pub open spec fn entry_text(e: EntryInfo) -> Seq<u8> {
    fmt::text(e.name) + fmt::text(
        if e.is_dir {
            "/\r\n"@
        } else {
            "\r\n"@
        },
    )
}

/// The lines of the first `n` entries.
pub open spec fn entry_lines(s: Seq<EntryInfo>, n: nat) -> Seq<u8>
    decreases n,
{
    if n == 0 {
        Seq::empty()
    } else {
        entry_lines(s, (n - 1) as nat) + entry_text(s[n - 1])
    }
}

/// What is shown of the directory of that path.
pub open spec fn directory_shown(d: Sectors, path: Seq<char>) -> Result<Seq<u8>, DiskError> {
    match file_system(d) {
        Err(e) => Err(e),
        Ok(fs) => match fs.resolved(d, path) {
            Err(e) => Err(e),
            Ok(inode) => match fs.entries_of(d, inode) {
                Err(e) => Err(e),
                Ok(s) => Ok(entry_lines(s, s.len())),
            },
        },
    }
}

/// What is shown of the file of that path: its bytes.
pub open spec fn file_shown(d: Sectors, path: Seq<char>) -> Result<Seq<u8>, DiskError> {
    match file_system(d) {
        Err(e) => Err(e),
        Ok(fs) => match fs.resolved(d, path) {
            Err(e) => Err(e),
            Ok(inode) => match fs.data_of(d, inode) {
                Err(e) => Err(e),
                Ok(b) => Ok(b + fmt::text("\r\n"@)),
            },
        },
    }
}

fn push_entry(out: &mut Vec<u8>, e: &DirEntry)
    ensures
        final(out)@ == old(out)@ + entry_text(e@),
{
    fmt::push_text(out, e.name.as_str());
    if e.is_dir {
        fmt::push_text(out, "/\r\n");
    } else {
        fmt::push_text(out, "\r\n");
    }
    assert(out@ =~= old(out)@ + entry_text(e@));
}

/// Shows the directory of that path.
pub fn directory_report(port: &AhciPort, path: &str) -> (r: Result<Vec<u8>, DiskError>)
    requires
        port.wf(),
    ensures
        ext2::answers(r, directory_shown(port@, path@)),
{
    let fs = match Ext2Fs::mount(port) {
        Ok(fs) => fs,
        Err(e) => {
            return Err(e);
        },
    };
    let inode = match fs.resolve(port, path) {
        Ok(inode) => inode,
        Err(e) => {
            return Err(e);
        },
    };
    let entries = match fs.read_dir(port, &inode) {
        Ok(entries) => entries,
        Err(e) => {
            return Err(e);
        },
    };
    let ghost s = ext2::infos(entries@);
    let mut out: Vec<u8> = Vec::new();
    let mut i: usize = 0;
    assert(out@ =~= entry_lines(s, 0));
    while i < entries.len()
        invariant
            i <= entries@.len(),
            s == ext2::infos(entries@),
            out@ == entry_lines(s, i as nat),
        decreases entries@.len() - i,
    {
        assert(s[i as int] == entries@[i as int]@);
        push_entry(&mut out, &entries[i]);
        i += 1;
        assert(out@ =~= entry_lines(s, i as nat));
    }
    Ok(out)
}

/// Shows the file of that path.
pub fn file_report(port: &AhciPort, path: &str) -> (r: Result<Vec<u8>, DiskError>)
    requires
        port.wf(),
    ensures
        ext2::answers(r, file_shown(port@, path@)),
{
    let fs = match Ext2Fs::mount(port) {
        Ok(fs) => fs,
        Err(e) => {
            return Err(e);
        },
    };
    let inode = match fs.resolve(port, path) {
        Ok(inode) => inode,
        Err(e) => {
            return Err(e);
        },
    };
    match fs.read_inode_data(port, &inode) {
        Ok(data) => {
            let mut out = data;
            fmt::push_text(&mut out, "\r\n");
            Ok(out)
        },
        Err(e) => Err(e),
    }
}

// --- jobs --------------------------------------------------------------------------

/// What is printed of an error.
pub open spec fn error_text(e: DiskError) -> Seq<u8> {
    match e {
        DiskError::Invalid(what) => fmt::text("FALLO: "@) + fmt::text(what@) + fmt::text("\r\n"@),
        DiskError::Failed(lba) => fmt::text("FALLO: no se pudo leer el sector "@) + fmt::decimal(
            lba as nat,
        ) + fmt::text("\r\n"@),
        DiskError::Pending(lba) => fmt::text("FALLO: falta el sector "@) + fmt::decimal(lba as nat)
            + fmt::text("\r\n"@),
    }
}

fn error_report(e: &DiskError) -> (r: Vec<u8>)
    ensures
        r@ == error_text(*e),
{
    let mut out: Vec<u8> = Vec::new();
    match e {
        DiskError::Invalid(what) => {
            fmt::push_text(&mut out, "FALLO: ");
            fmt::push_text(&mut out, what);
        },
        DiskError::Failed(lba) => {
            fmt::push_text(&mut out, "FALLO: no se pudo leer el sector ");
            fmt::push_decimal(&mut out, *lba);
        },
        DiskError::Pending(lba) => {
            fmt::push_text(&mut out, "FALLO: falta el sector ");
            fmt::push_decimal(&mut out, *lba);
        },
    }
    fmt::push_text(&mut out, "\r\n");
    assert(out@ =~= error_text(*e));
    out
}

/// What a job shows of a disk.
pub open spec fn job_shown(d: Sectors, job: JobInfo) -> Result<Seq<u8>, DiskError> {
    match job {
        JobInfo::Partitions => partitions_shown(d),
        JobInfo::List(path) => directory_shown(d, path),
        JobInfo::Show(path) => file_shown(d, path),
    }
}

/// Tries a job with the sectors that are known. It asks for the first one that it
/// misses; once it misses none, it gives what to print.
pub fn run_job(port: &AhciPort, job: &DiskJob) -> (r: DiskStep)
    requires
        port.wf(),
    ensures
        match job_shown(port@, job@) {
            Ok(text) => r matches DiskStep::Print(out) && out@ == text,
            Err(DiskError::Pending(lba)) => r == DiskStep::Read(lba),
            Err(e) => r matches DiskStep::Print(out) && out@ == error_text(e),
        },
{
    let result = match job {
        DiskJob::Partitions => partinfo_report(port),
        DiskJob::List(path) => directory_report(port, path.as_str()),
        DiskJob::Show(path) => file_report(port, path.as_str()),
    };
    match result {
        Ok(out) => DiskStep::Print(out),
        Err(DiskError::Pending(lba)) => DiskStep::Read(lba),
        Err(e) => DiskStep::Print(error_report(&e)),
    }
}

/// What a job shows hangs on the disk alone: once no sector is missing, knowing
/// more of them changes nothing.
pub proof fn law_job_is_settled(a: Sectors, b: Sectors, job: JobInfo)
    requires
        ahci::knows_more(a, b),
        !ahci::unsettled(job_shown(a, job)),
    ensures
        job_shown(b, job) == job_shown(a, job),
{
    match job {
        JobInfo::Partitions => {
            partinfo::law_table_stays(a, b);
        },
        JobInfo::List(path) => {
            lemma_file_system_stays(a, b);
            if let Ok(fs) = file_system(a) {
                ext2::law_paths_stay(fs, a, b, path);
                if let Ok(inode) = fs.resolved(a, path) {
                    ext2::law_contents_stay(fs, a, b, inode);
                }
            }
        },
        JobInfo::Show(path) => {
            lemma_file_system_stays(a, b);
            if let Ok(fs) = file_system(a) {
                ext2::law_paths_stay(fs, a, b, path);
                if let Ok(inode) = fs.resolved(a, path) {
                    ext2::law_contents_stay(fs, a, b, inode);
                }
            }
        },
    }
}

proof fn lemma_file_system_stays(a: Sectors, b: Sectors)
    requires
        ahci::knows_more(a, b),
        !ahci::unsettled(file_system(a)),
    ensures
        file_system(b) == file_system(a),
{
    ahci::law_answers_are_stable(a, b, 2, 2);
}

/// The file system is read from the 1024 bytes at byte 1024 of the disk.
pub proof fn law_superblock_is_at_byte_1024(d: Sectors, img: spec_fn(int) -> u8)
    requires
        ahci::shows(d, img),
        ahci::readable(d, 1024, 2048),
    ensures
        file_system(d) == ext2::mounted(Seq::new(1024, |i: int| img(1024 + i))),
{
    let sb = Seq::new(1024, |i: int| img(1024 + i));
    ahci::law_known_sectors_can_be_read(d, 2, 2);
    ahci::law_sectors_are_of_the_disk(d, img, 2, 2);
    let read = ahci::sectors(d, 2, 2)->Ok_0;
    assert forall|i: int| 0 <= i < 1024 implies read[i] == sb[i] by {
        assert(read[i] == img(512 * 2 + i));
    }
    assert(read =~= sb);
}

/// What is shown of a file is its bytes, all of them and in order, and a line end.
pub proof fn law_file_is_shown_whole(d: Sectors, path: Seq<char>, fs: Ext2Fs, data: Seq<u8>)
    requires
        file_system(d) == Ok::<Ext2Fs, DiskError>(fs),
        fs.resolved(d, path) is Ok,
        fs.data_of(d, fs.resolved(d, path)->Ok_0) == Ok::<Seq<u8>, DiskError>(data),
    ensures
        job_shown(d, JobInfo::Show(path)) matches Ok(out) && out.len() == data.len() + 2 && out.take(
            data.len() as int,
        ) == data && out[data.len() as int] == 0x0D && out[data.len() as int + 1] == 0x0A,
{
    lemma_line_end();
    let out = data + fmt::text("\r\n"@);
    assert(out.take(data.len() as int) =~= data);
}

/// What is shown of a directory is the names of its entries in order, one to a
/// line, with a slash behind those of directories: one entry more adds one line.
pub proof fn law_entries_are_shown_in_order(s: Seq<EntryInfo>, e: EntryInfo)
    ensures
        entry_lines(Seq::empty(), 0) == Seq::<u8>::empty(),
        entry_lines(s.push(e), s.push(e).len()) == entry_lines(s, s.len()) + vstd::utf8::encode_utf8(
            e.name,
        ) + (if e.is_dir {
            seq![0x2Fu8, 0x0D, 0x0A]
        } else {
            seq![0x0Du8, 0x0A]
        }),
{
    lemma_line_end();
    lemma_same_lines(s, e, s.len());
    let lines = entry_lines(s.push(e), s.push(e).len());
    assert(lines == entry_lines(s.push(e), s.len()) + entry_text(e));
    assert(lines =~= entry_lines(s, s.len()) + vstd::utf8::encode_utf8(e.name) + (if e.is_dir {
        seq![0x2Fu8, 0x0D, 0x0A]
    } else {
        seq![0x0Du8, 0x0A]
    }));
}

proof fn lemma_same_lines(s: Seq<EntryInfo>, e: EntryInfo, n: nat)
    requires
        n <= s.len(),
    ensures
        entry_lines(s.push(e), n) == entry_lines(s, n),
    decreases n,
{
    if n > 0 {
        lemma_same_lines(s, e, (n - 1) as nat);
    }
}

proof fn lemma_line_end()
    ensures
        fmt::text("\r\n"@) == seq![0x0Du8, 0x0Au8],
        fmt::text("/\r\n"@) == seq![0x2Fu8, 0x0Du8, 0x0Au8],
{
    reveal_strlit("\r\n");
    reveal_strlit("/\r\n");
    vstd::utf8::is_ascii_chars_encode_utf8("\r\n"@);
    vstd::utf8::is_ascii_chars_encode_utf8("/\r\n"@);
    assert("\r\n"@[0] == '\r' && "\r\n"@[1] == '\n');
    assert("/\r\n"@[0] == '/' && "/\r\n"@[1] == '\r' && "/\r\n"@[2] == '\n');
    assert(fmt::text("\r\n"@) =~= seq![0x0Du8, 0x0Au8]);
    assert(fmt::text("/\r\n"@) =~= seq![0x2Fu8, 0x0Du8, 0x0Au8]);
}

/// Each partition has a line of its own, in order: one more adds one line, which
/// tells its number, its first sector, how many there are and its file system.
pub proof fn law_every_partition_has_a_line(s: Seq<PartitionInfo>, p: PartitionInfo)
    ensures
        partition_lines(Seq::empty(), 0) == Seq::<u8>::empty(),
        partition_lines(s.push(p), s.push(p).len()) == partition_lines(s, s.len()) + partition_text(p),
        exists|number: Seq<u8>, start: Seq<u8>, count: Seq<u8>|
            #![trigger number.len(), start.len(), count.len()]
            fmt::value_of(number) == p.index && fmt::value_of(start) == p.start_lba && fmt::value_of(
                count,
            ) == p.sector_count && partition_text(p) == number + fmt::text(": LBA "@) + start
                + fmt::text(", "@) + count + fmt::text(" sectores"@) + type_text(p.mbr_type)
                + name_text(p.gpt_name) + fmt::text(", "@) + fmt::text(p.filesystem@) + fmt::text(
                "\r\n"@,
            ),
{
    lemma_partition_lines(s, p, s.len());
    assert(s.push(p).len() == s.len() + 1);
    assert(s.push(p)[s.len() as int] == p);
    fmt::law_decimal_reads_back(p.index as nat);
    fmt::law_decimal_reads_back(p.start_lba as nat);
    fmt::law_decimal_reads_back(p.sector_count as nat);
    let (number, start, count) = (
        fmt::decimal(p.index as nat),
        fmt::decimal(p.start_lba as nat),
        fmt::decimal(p.sector_count as nat),
    );
    assert(number.len() > 0 && start.len() > 0 && count.len() > 0);
}

proof fn lemma_partition_lines(s: Seq<PartitionInfo>, p: PartitionInfo, n: nat)
    requires
        n <= s.len(),
    ensures
        partition_lines(s.push(p), n) == partition_lines(s, n),
    decreases n,
{
    if n > 0 {
        lemma_partition_lines(s, p, (n - 1) as nat);
    }
}

} // verus!
