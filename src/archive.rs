//! The full verifier: a candidate that passed the check-byte test is tried
//! on every encrypted entry of the archive, whose decrypted contents must
//! match the declared size and CRC-32.
use vstd::prelude::*;
use std::io::Cursor;
use std::io::Read;
use zip::ZipArchive;

verus! {

/// The standard ZIP CRC-32 (with final inversion) of some bytes.
pub uninterp spec fn zip_crc32(bytes: Seq<u8>) -> u32;

/// Relies on `crc32fast::hash`: the CRC-32 of the bytes, a function of
/// them alone.
#[verifier::external_body]
pub(crate) fn crc32_of(bytes: &[u8]) -> (r: u32)
    ensures
        r == zip_crc32(bytes@),
{
    crc32fast::hash(bytes)
}

/// How many entries zip's reader finds in the central directory of an
/// archive held in memory, or `None` where it cannot parse it.
pub uninterp spec fn zip_entry_count(data: Seq<u8>) -> Option<nat>;

/// Relies on `ZipArchive::new` over an in-memory `Cursor` and on
/// `ZipArchive::len`: the entry count, a function of the bytes alone.
#[verifier::external_body]
pub fn entry_count(data: &[u8]) -> (r: Option<usize>)
    ensures
        r is Some <==> zip_entry_count(data@) is Some,
        r is Some ==> r->Some_0 as nat == zip_entry_count(data@)->Some_0,
{
    ZipArchive::new(Cursor::new(data)).ok().map(|a| a.len())
}

/// What reading one entry with a password gave.
#[derive(Clone, Debug)]
pub enum EntryRead {
    /// The entry opened and its stream was read to the end.
    Read { content: Vec<u8>, declared_crc: u32, declared_size: u64 },
    /// The entry opened but reading its stream failed.
    ReadFailed,
    /// The check byte rejected the password.
    WrongPassword,
    /// The archive or the entry could not be opened.
    Unavailable,
}

/// `EntryRead` as plain values.
pub enum EntryView {
    Read { content: Seq<u8>, declared_crc: u32, declared_size: u64 },
    ReadFailed,
    WrongPassword,
    Unavailable,
}

impl EntryRead {
    pub open spec fn view(&self) -> EntryView {
        match self {
            EntryRead::Read { content, declared_crc, declared_size } => EntryView::Read {
                content: content@,
                declared_crc: *declared_crc,
                declared_size: *declared_size,
            },
            EntryRead::ReadFailed => EntryView::ReadFailed,
            EntryRead::WrongPassword => EntryView::WrongPassword,
            EntryRead::Unavailable => EntryView::Unavailable,
        }
    }
}

/// What zip's reader gives for entry `index` of the archive opened with
/// `password`: the stream read to the end with the declared CRC-32 and
/// size, or how it failed.
pub uninterp spec fn zip_entry_read(data: Seq<u8>, index: nat, password: Seq<u8>) -> EntryView;

/// Relies on `ZipArchive::new` over an in-memory `Cursor` and on
/// `ZipArchive::by_index_decrypt`: opens entry `index` with `password`; the
/// stream it returns is read to the end, and the declared CRC-32 and size
/// are taken from the entry. An entry that is not encrypted opens whatever
/// the password. The result depends on the bytes, index and password alone.
#[verifier::external_body]
fn read_entry(data: &[u8], index: usize, password: &[u8]) -> (r: EntryRead)
    ensures
        r.view() == zip_entry_read(data@, index as nat, password@),
{
    let Ok(mut archive) = ZipArchive::new(Cursor::new(data)) else { return EntryRead::Unavailable };
    let r = match archive.by_index_decrypt(index, password) {
        Ok(Ok(mut file)) => {
            let mut content = Vec::new();
            match file.read_to_end(&mut content) {
                Ok(_) => EntryRead::Read { content, declared_crc: file.crc32(), declared_size: file.size() },
                Err(_) => EntryRead::ReadFailed,
            }
        },
        Ok(Err(_)) => EntryRead::WrongPassword,
        Err(_) => EntryRead::Unavailable,
    };
    r
}

/// One entry as the full verifier saw it: whether the empty password was
/// rejected (the entry is encrypted), and what the candidate gave.
#[derive(Clone, Debug)]
pub struct EntryReport {
    pub encrypted: bool,
    pub read: EntryRead,
}

/// `EntryReport` as plain values.
pub struct ReportView {
    pub encrypted: bool,
    pub read: EntryView,
}

impl EntryReport {
    pub open spec fn view(&self) -> ReportView {
        ReportView { encrypted: self.encrypted, read: self.read.view() }
    }
}

pub open spec fn report_views(v: Seq<EntryReport>) -> Seq<ReportView> {
    v.map_values(|r: EntryReport| r.view())
}

/// The candidate decrypted the entry, and the contents have the declared
/// size and CRC-32.
pub open spec fn entry_confirms(e: EntryView) -> bool {
    match e {
        EntryView::Read { content, declared_crc, declared_size } => content.len() == declared_size
            && zip_crc32(content) == declared_crc,
        _ => false,
    }
}

/// There is an encrypted entry, and the candidate decrypts every one.
pub open spec fn confirms_all(reports: Seq<ReportView>) -> bool {
    &&& exists|i: int| 0 <= i < reports.len() && #[trigger] reports[i].encrypted
    &&& forall|i: int| 0 <= i < reports.len() && #[trigger] reports[i].encrypted ==> entry_confirms(reports[i].read)
}

/// Entry `index` as the full verifier sees it: encrypted where the empty
/// password is rejected; then read with `password` (an entry that is not
/// encrypted keeps what the empty password gave).
pub open spec fn zip_report(data: Seq<u8>, index: nat, password: Seq<u8>) -> ReportView {
    let probe = zip_entry_read(data, index, Seq::empty());
    let encrypted = probe is WrongPassword;
    ReportView {
        encrypted,
        read: if encrypted { zip_entry_read(data, index, password) } else { probe },
    }
}

/// The reports of every entry of the archive, where zip can parse it.
pub open spec fn zip_reports(data: Seq<u8>, password: Seq<u8>) -> Option<Seq<ReportView>> {
    match zip_entry_count(data) {
        Some(n) => Some(Seq::new(n, |i: int| zip_report(data, i as nat, password))),
        None => None,
    }
}

/// The full verifier's answer: the archive parses, it has an encrypted
/// entry, and `password` decrypts every encrypted entry to contents of the
/// declared size and CRC-32. Any failure to open, decrypt or read counts
/// as a rejection.
pub open spec fn zip_accepts(data: Seq<u8>, password: Seq<u8>) -> bool {
    match zip_reports(data, password) {
        Some(reports) => confirms_all(reports),
        None => false,
    }
}

/// Whether the reports confirm the candidate.
pub fn entries_confirm(reports: &Vec<EntryReport>) -> (r: bool)
    ensures
        r == confirms_all(report_views(reports@)),
{
    let ghost rv = report_views(reports@);
    let mut any = false;
    let mut i: usize = 0;
    while i < reports.len()
        invariant
            i <= reports@.len(),
            rv == report_views(reports@),
            any == exists|j: int| 0 <= j < i && #[trigger] rv[j].encrypted,
            forall|j: int| 0 <= j < i && #[trigger] rv[j].encrypted ==> entry_confirms(rv[j].read),
        decreases reports@.len() - i,
    {
        let rep = &reports[i];
        assert(rv[i as int] == rep.view());
        if rep.encrypted {
            let ok = match &rep.read {
                EntryRead::Read { content, declared_crc, declared_size } => {
                    content.len() as u64 == *declared_size && crc32_of(content.as_slice()) == *declared_crc
                },
                _ => false,
            };
            assert(ok == entry_confirms(rv[i as int].read));
            if !ok {
                assert(rv.len() == reports@.len());
                assert(rv[i as int].encrypted);
                assert(!confirms_all(rv));
                return false;
            }
            any = true;
            assert(rv[i as int].encrypted);
        } else {
            assert(!rv[i as int].encrypted);
        }
        i = i + 1;
    }
    any
}

/// Law of the full verifier: an accepted candidate decrypts every encrypted
/// entry, each read to the end with the declared size and CRC-32, and there
/// is at least one such entry.
pub proof fn lemma_accepted_decrypts_all(data: Seq<u8>, password: Seq<u8>, i: int)
    requires
        zip_accepts(data, password),
        0 <= i,
        zip_entry_count(data) is Some,
        i < zip_entry_count(data)->Some_0,
        zip_entry_read(data, i as nat, Seq::empty()) is WrongPassword,
    ensures
        zip_entry_read(data, i as nat, password) is Read,
        zip_entry_read(data, i as nat, password)->Read_content.len() == zip_entry_read(
            data,
            i as nat,
            password,
        )->Read_declared_size,
        zip_crc32(zip_entry_read(data, i as nat, password)->Read_content) == zip_entry_read(
            data,
            i as nat,
            password,
        )->Read_declared_crc,
{
    let reports = zip_reports(data, password)->Some_0;
    assert(reports[i] == zip_report(data, i as nat, password));
    assert(reports[i].encrypted);
}

/// Reads every entry of the archive with the empty password and, for the
/// encrypted ones, with `password`; `None` where zip cannot parse it.
pub fn entry_reports(data: &[u8], password: &[u8]) -> (r: Option<Vec<EntryReport>>)
    ensures
        r is Some <==> zip_reports(data@, password@) is Some,
        r is Some ==> report_views(r->Some_0@) == zip_reports(data@, password@)->Some_0,
{
    let n = match entry_count(data) {
        Some(n) => n,
        None => return None,
    };
    let ghost target = zip_reports(data@, password@)->Some_0;
    let empty: Vec<u8> = Vec::new();
    let mut reports: Vec<EntryReport> = Vec::with_capacity(n);
    let mut i: usize = 0;
    while i < n
        invariant
            i <= n,
            n == zip_entry_count(data@)->Some_0,
            zip_entry_count(data@) is Some,
            target == zip_reports(data@, password@)->Some_0,
            empty@ == Seq::<u8>::empty(),
            report_views(reports@) == target.subrange(0, i as int),
        decreases n - i,
    {
        let probe = read_entry(data, i, empty.as_slice());
        let encrypted = match probe {
            EntryRead::WrongPassword => true,
            _ => false,
        };
        let read = if encrypted {
            read_entry(data, i, password)
        } else {
            probe
        };
        let rep = EntryReport { encrypted, read };
        assert(rep.view() == target[i as int]);
        let ghost prev = reports@;
        reports.push(rep);
        assert(report_views(reports@) =~= report_views(prev).push(target[i as int]));
        i = i + 1;
        assert(report_views(reports@) =~= target.subrange(0, i as int));
    }
    assert(target.subrange(0, n as int) =~= target);
    Some(reports)
}

/// The full verifier: the archive parses, and `password` decrypts every
/// encrypted entry with matching size and CRC-32.
pub fn full_verify(data: &[u8], password: &[u8]) -> (r: bool)
    ensures
        r == zip_accepts(data@, password@),
{
    match entry_reports(data, password) {
        Some(reports) => entries_confirm(&reports),
        None => false,
    }
}

} // verus!
