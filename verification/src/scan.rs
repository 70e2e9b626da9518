use vstd::prelude::*;

use std::io::{Cursor, Read};

use sha2::{Digest, Sha256};
use zip::result::ZipError;
use zip::ZipArchive;

use crate::chars::{char_vec, push_char};
use crate::align::strings_view;
use crate::folder::{
    archive_name, hash_view, is_archive_name, law_archive_suffixes, lookup, path_parts, put_path, split_path, wf, FolderKind, FolderNode,
    Leaf,
};
use crate::names::ends_with_ci;
use crate::text::str_eq;
use vstd::utf8::{decode_utf8, valid_utf8};

verus! {

/// The message for bytes that are not an archive that can be read.
pub open spec fn bad_archive_message() -> Seq<char> {
    "无法作为压缩包打开"@
}

/// The message for an entry or file that cannot be read.
pub open spec fn cannot_open_message() -> Seq<char> {
    "无法打开文件"@
}

/// The message for bytes that are not UTF-8 text.
pub open spec fn not_utf8_message() -> Seq<char> {
    "无法读取文件：不是有效的 UTF-8"@
}

/// `s` without a leading byte order mark.
pub open spec fn strip_bom(s: Seq<char>) -> Seq<char> {
    if s.len() > 0 && s[0] == '\u{feff}' {
        s.drop_first()
    } else {
        s
    }
}

/// The file name of a path given by its `/`-separated parts: the last part,
/// `.` parts skipped; none when that is `..` or there is no part.
pub open spec fn path_file_name(parts: Seq<Seq<char>>) -> Option<Seq<char>>
    decreases parts.len(),
{
    if parts.len() == 0 {
        None
    } else if parts.last() == "."@ {
        path_file_name(parts.drop_last())
    } else if parts.last() == ".."@ {
        None
    } else {
        Some(parts.last())
    }
}

/// Whether the file name of `path` names an archive.
pub fn is_zip_path(path: &str) -> (r: bool)
    ensures
        r == (path_file_name(path_parts(path@)) matches Some(n) && archive_name(n)),
        path_file_name(path_parts(path@)) matches Some(n) && (ends_with_ci(n, ".zip"@) || ends_with_ci(
            n,
            ".jar"@,
        ) || ends_with_ci(n, ".war"@) || ends_with_ci(n, ".ear"@)) ==> r,
{
    proof {
        if let Some(n) = path_file_name(path_parts(path@)) {
            law_archive_suffixes(n);
        }
    }
    let parts = split_path(path);
    let ghost pv = strings_view(parts@);
    let mut i: usize = parts.len();
    assert(pv.take(i as int) == pv);
    while i > 0
        invariant
            i <= parts@.len(),
            pv == strings_view(parts@),
            pv == path_parts(path@),
            path_file_name(pv) == path_file_name(pv.take(i as int)),
        decreases i,
    {
        assert(pv.take(i as int).drop_last() == pv.take(i - 1));
        assert(pv.take(i as int).last() == parts@[i - 1]@);
        if str_eq(parts[i - 1].as_str(), ".") {
            i -= 1;
        } else if str_eq(parts[i - 1].as_str(), "..") {
            return false;
        } else {
            return is_archive_name(parts[i - 1].as_str());
        }
    }
    false
}

/// Decodes UTF-8 bytes.
///
/// Trusted: `std::str::from_utf8`, documented to succeed exactly on valid
/// UTF-8, whose characters the result then holds.
#[verifier::external_body]
fn utf8_decode(bytes: &[u8]) -> (r: Option<String>)
    ensures
        r is Some == valid_utf8(bytes@),
        r matches Some(s) ==> (s@ == decode_utf8(bytes@)),
{
    std::str::from_utf8(bytes).ok().map(|s| s.to_string())
}

/// The text of UTF-8 bytes, without a leading byte order mark.
pub fn decode_text(bytes: &[u8]) -> (r: Result<String, String>)
    ensures
        valid_utf8(bytes@) ==> (r matches Ok(s) && s@ == strip_bom(decode_utf8(bytes@))),
        !valid_utf8(bytes@) ==> (r matches Err(e) && e@ == not_utf8_message()),
{
    match utf8_decode(bytes) {
        None => Err("无法读取文件：不是有效的 UTF-8".to_owned()),
        Some(text) => {
            let chars = char_vec(text.as_str());
            if chars.len() > 0 && chars[0] == '\u{feff}' {
                let mut out = String::new();
                let mut i: usize = 1;
                while i < chars.len()
                    invariant
                        1 <= i <= chars@.len(),
                        out@ == chars@.subrange(1, i as int),
                    decreases chars@.len() - i,
                {
                    push_char(&mut out, chars[i]);
                    assert(chars@.subrange(1, i + 1) == chars@.subrange(1, i as int).push(chars@[i as int]));
                    i += 1;
                }
                assert(chars@.subrange(1, chars@.len() as int) == chars@.drop_first());
                Ok(out)
            } else {
                Ok(text)
            }
        },
    }
}

/// Reads bytes as UTF-8 text: bytes holding a NUL byte, or that are not
/// UTF-8, are refused; a leading byte order mark is dropped.
pub fn bytes_as_utf8(bytes: &[u8]) -> (r: Result<String, String>)
    ensures
        (bytes@.contains(0u8) || !valid_utf8(bytes@)) ==> (r matches Err(e) && e@ == not_utf8_message()),
        (!bytes@.contains(0u8) && valid_utf8(bytes@)) ==> (r matches Ok(s) && s@ == strip_bom(decode_utf8(bytes@))),
{
    let mut i: usize = 0;
    while i < bytes.len()
        invariant
            i <= bytes@.len(),
            forall|k: int| 0 <= k < i ==> bytes@[k] != 0u8,
        decreases bytes@.len() - i,
    {
        if bytes[i] == 0 {
            assert(bytes@[i as int] == 0u8);
            return Err("无法读取文件：不是有效的 UTF-8".to_owned());
        }
        i += 1;
    }
    assert(!bytes@.contains(0u8));
    decode_text(bytes)
}

/// Days from 1970-01-01 to the given date of the proleptic Gregorian
/// calendar.
pub open spec fn days_from_civil_spec(year: int, month: int, day: int) -> int {
    let y = year - if month <= 2 {
        1int
    } else {
        0int
    };
    let era = y / 400;
    let yoe = y - era * 400;
    let mp = if month > 2 {
        month - 3
    } else {
        month + 9
    };
    let doy = (153 * mp + 2) / 5 + day - 1;
    let doe = yoe * 365 + yoe / 4 - yoe / 100 + doy;
    era * 146097 + doe - 719468
}

/// Seconds from the Unix epoch to the given UTC date and time, or none when
/// a field is out of range.
pub open spec fn civil_to_unix_spec(year: u16, month: u8, day: u8, hour: u8, minute: u8, second: u8) -> Option<
    int,
> {
    if !(1 <= month <= 12) || !(1 <= day <= 31) || hour > 23 || minute > 59 || second > 59 {
        None
    } else {
        Some(
            days_from_civil_spec(year as int, month as int, day as int) * 86400 + hour * 3600
                + minute * 60 + second,
        )
    }
}

fn days_from_civil(year: u16, month: u8, day: u8) -> (days: i64)
    requires
        1 <= month <= 12,
        1 <= day <= 31,
    ensures
        days == days_from_civil_spec(year as int, month as int, day as int),
        -719468 - 146097 <= days <= 65536 * 366,
{
    let y: i64 = year as i64 - if month <= 2 {
        1i64
    } else {
        0i64
    };
    let era: i64 = if y >= 0 {
        y / 400
    } else {
        -1
    };
    assert(era == y / 400);
    let yoe: i64 = y - era * 400;
    assert(0 <= yoe < 400);
    let mp: i64 = if month > 2 {
        month as i64 - 3
    } else {
        month as i64 + 9
    };
    let doy: i64 = (153 * mp + 2) / 5 + day as i64 - 1;
    assert(0 <= doy <= 400) by (nonlinear_arith)
        requires
            0 <= mp <= 11,
            1 <= day <= 31,
            doy == (153 * mp + 2) / 5 + day - 1,
    ;
    let doe: i64 = yoe * 365 + yoe / 4 - yoe / 100 + doy;
    assert(0 <= doe <= 146200) by (nonlinear_arith)
        requires
            0 <= yoe < 400,
            0 <= doy <= 400,
            doe == yoe * 365 + yoe / 4 - yoe / 100 + doy,
    ;
    assert(-1 <= era <= 163);
    era * 146097 + doe - 719468
}

/// Seconds from the Unix epoch to a zip timestamp.
pub fn civil_to_unix(year: u16, month: u8, day: u8, hour: u8, minute: u8, second: u8) -> (r: Option<
    i64,
>)
    ensures
        match civil_to_unix_spec(year, month, day, hour, minute, second) {
            Some(t) => r == Some(t as i64),
            None => r is None,
        },
{
    if !(1 <= month && month <= 12) || !(1 <= day && day <= 31) || hour > 23 || minute > 59
        || second > 59 {
        return None;
    }
    let days = days_from_civil(year, month, day);
    Some(days * 86400 + hour as i64 * 3600 + minute as i64 * 60 + second as i64)
}

/// The modification time of an archive entry, when it has a valid one.
pub open spec fn entry_mtime_spec(stamp: Option<(u16, u8, u8, u8, u8, u8)>) -> Option<i64> {
    match stamp {
        None => None,
        Some(t) => match civil_to_unix_spec(t.0, t.1, t.2, t.3, t.4, t.5) {
            Some(s) => Some(s as i64),
            None => None,
        },
    }
}

pub fn entry_mtime(stamp: Option<(u16, u8, u8, u8, u8, u8)>) -> (r: Option<i64>)
    ensures
        r == entry_mtime_spec(stamp),
{
    match stamp {
        None => None,
        Some((year, month, day, hour, minute, second)) => civil_to_unix(year, month, day, hour, minute, second),
    }
}

/// `std::io::Cursor`, known to the verifier as an opaque type.
#[verifier::external_type_specification]
#[verifier::external_body]
#[verifier::reject_recursive_types(T)]
pub struct ExCursor<T>(Cursor<T>);

/// `zip::ZipArchive`, known to the verifier as an opaque type; what an
/// archive holds is given by [`archive_entries`].
#[verifier::external_type_specification]
#[verifier::external_body]
#[verifier::reject_recursive_types(R)]
pub struct ExZipArchive<R>(ZipArchive<R>);

/// `zip::result::ZipError`, known to the verifier as an opaque type.
#[verifier::external_type_specification]
#[verifier::external_body]
pub struct ExZipError(ZipError);

/// An archive read from memory.
pub type MemArchive = ZipArchive<Cursor<Vec<u8>>>;

/// One archive entry: its stored name, whether it is a directory, its
/// timestamp (year, month, day, hour, minute, second) and its uncompressed
/// contents (none when they cannot be read).
pub struct ZipEntry {
    pub name: String,
    pub is_dir: bool,
    pub stamp: Option<(u16, u8, u8, u8, u8, u8)>,
    pub data: Option<Vec<u8>>,
}

pub struct ZipEntryModel {
    pub name: Seq<char>,
    pub is_dir: bool,
    pub stamp: Option<(u16, u8, u8, u8, u8, u8)>,
    pub data: Option<Seq<u8>>,
}

impl View for ZipEntry {
    type V = ZipEntryModel;

    open spec fn view(&self) -> ZipEntryModel {
        ZipEntryModel {
            name: self.name@,
            is_dir: self.is_dir,
            stamp: self.stamp,
            data: match self.data {
                Some(d) => Some(d@),
                None => None,
            },
        }
    }
}

/// The entries of the archive held in `bytes` (each one none when it cannot
/// be opened), or none when the bytes are not an archive.
pub uninterp spec fn zip_listing(bytes: Seq<u8>) -> Option<Seq<Option<ZipEntryModel>>>;

/// The entries an opened archive holds, in archive order.
pub uninterp spec fn archive_entries(a: MemArchive) -> Seq<Option<ZipEntryModel>>;

/// SHA-256 digest of `data`.
pub uninterp spec fn sha256(data: Seq<u8>) -> Seq<u8>;

/// Opens an archive held in memory.
///
/// Trusted: `zip::ZipArchive::new` over a cursor on a copy of the bytes. It
/// succeeds exactly when the bytes hold an archive, and the opened archive
/// holds that archive's entries; what they are is left to the names.
#[verifier::external_body]
fn open_archive(bytes: &[u8]) -> (r: Result<MemArchive, ZipError>)
    ensures
        (r is Ok) == (zip_listing(bytes@) is Some),
        r matches Ok(a) ==> (zip_listing(bytes@) == Some(archive_entries(a))),
{
    ZipArchive::new(Cursor::new(bytes.to_vec()))
}

/// Trusted: `zip::ZipArchive::len`, the number of entries.
#[verifier::external_body]
fn archive_len(a: &MemArchive) -> (n: usize)
    ensures
        n == archive_entries(*a).len(),
{
    a.len()
}

/// Reads entry `index`.
///
/// Trusted: `zip::ZipArchive::by_index` and, on the entry, `name`, `is_dir`,
/// `last_modified` and `read_to_end`. It fails exactly when the entry cannot
/// be opened, returns the entry otherwise, and leaves the archive's entries
/// as they were.
#[verifier::external_body]
fn archive_entry(a: &mut MemArchive, index: usize) -> (r: Result<ZipEntry, ZipError>)
    requires
        index < archive_entries(*old(a)).len(),
    ensures
        archive_entries(*final(a)) == archive_entries(*old(a)),
        match archive_entries(*old(a))[index as int] {
            Some(e) => r matches Ok(x) && x@ == e,
            None => r is Err,
        },
{
    let mut file = a.by_index(index)?;
    let stamp = file.last_modified().map(|t| (t.year(), t.month(), t.day(), t.hour(), t.minute(), t.second()));
    let mut data = Vec::new();
    let data = file.read_to_end(&mut data).ok().map(|_| data);
    Ok(ZipEntry { name: file.name().to_string(), is_dir: file.is_dir(), stamp, data })
}

/// Reads the entry stored under `name`.
///
/// Trusted: `zip::ZipArchive::by_name` and `read_to_end` on the entry. The
/// archive keys its entries by name, so at most one entry has a given name;
/// `by_name` opens that entry as `by_index` does and fails when there is
/// none. So the result is the contents of the entry of that name when it
/// opens and reads, and an error otherwise; the entries stay as they were.
#[verifier::external_body]
fn archive_read_named(a: &mut MemArchive, name: &str) -> (r: Result<Vec<u8>, ZipError>)
    ensures
        archive_entries(*final(a)) == archive_entries(*old(a)),
        named_read(archive_entries(*old(a)), name@, r),
{
    let mut file = a.by_name(name)?;
    let mut out = Vec::new();
    file.read_to_end(&mut out)?;
    Ok(out)
}

/// Some entry of `entries` that opens is stored under `name`.
pub open spec fn has_entry(entries: Seq<Option<ZipEntryModel>>, name: Seq<char>) -> bool {
    exists|i: int| 0 <= i < entries.len() && ((#[trigger] entries[i]) matches Some(e) && e.name == name)
}

/// What reading the entry stored under `name` gives, `E` being the error
/// type: the contents of that entry when it opens and reads, an error when
/// it does not or when no entry that opens has that name.
pub open spec fn named_read<E>(entries: Seq<Option<ZipEntryModel>>, name: Seq<char>, r: Result<Vec<u8>, E>) -> bool {
    &&& forall|i: int|
        0 <= i < entries.len() ==> ((#[trigger] entries[i]) matches Some(e) ==> (e.name == name ==> match e.data {
            Some(d) => r matches Ok(x) && x@ == d,
            None => r is Err,
        }))
    &&& !has_entry(entries, name) ==> r is Err
}

/// A SHA-256 hasher of `sha2`. Verus cannot be given the type of
/// `sha2::Sha256` itself: it is built from generic types whose bounds name
/// traits of `digest` and `typenum`, so it is held here out of the
/// verifier's sight, and [`Sha256Stream`] keeps the bytes it was fed.
#[verifier::external_body]
struct Sha256State {
    inner: Sha256,
}

/// A SHA-256 computation fed in chunks, so that a file can be hashed as it
/// is read. Its model is the bytes fed so far; `len` counts them.
pub struct Sha256Stream {
    hasher: Sha256State,
    len: u64,
    fed: Ghost<Seq<u8>>,
}

impl Sha256Stream {
    /// The bytes fed so far.
    pub closed spec fn fed(&self) -> Seq<u8> {
        self.fed@
    }

    /// The count agrees with the bytes fed.
    pub closed spec fn wf(&self) -> bool {
        self.len == self.fed@.len()
    }

    /// Trusted: `sha2::Sha256::new`, a hasher that has been fed nothing.
    #[verifier::external_body]
    fn start() -> (h: Self)
        ensures
            h.fed@ == Seq::<u8>::empty(),
            h.len == 0,
    {
        Sha256Stream { hasher: Sha256State { inner: Sha256::new() }, len: 0, fed: Ghost(Seq::empty()) }
    }

    /// Trusted: `sha2::Digest::update`, which feeds `chunk` after what the
    /// hasher was fed before; the count is left to the caller.
    #[verifier::external_body]
    fn absorb(&mut self, chunk: &[u8])
        ensures
            final(self).fed@ == old(self).fed@ + chunk@,
            final(self).len == old(self).len,
    {
        self.hasher.inner.update(chunk)
    }

    /// Trusted: `sha2::Digest::finalize`, the SHA-256 digest of everything
    /// the hasher was fed.
    #[verifier::external_body]
    fn digest_of(self) -> (d: [u8; 32])
        ensures
            d@ == sha256(self.fed@),
    {
        self.hasher.inner.finalize().into()
    }

    /// A stream that has been fed nothing.
    pub fn new() -> (h: Self)
        ensures
            h.fed() == Seq::<u8>::empty(),
            h.wf(),
    {
        Self::start()
    }

    /// Feeds `chunk` after the bytes fed before.
    pub fn update(&mut self, chunk: &[u8])
        requires
            old(self).wf(),
            old(self).fed().len() + chunk@.len() <= u64::MAX,
        ensures
            final(self).fed() == old(self).fed() + chunk@,
            final(self).wf(),
    {
        self.absorb(chunk);
        self.len = self.len + chunk.len() as u64;
    }

    /// How many bytes were fed.
    pub fn len(&self) -> (n: u64)
        requires
            self.wf(),
        ensures
            n == self.fed().len(),
    {
        self.len
    }

    /// The SHA-256 digest of the bytes fed.
    pub fn finish(self) -> (d: [u8; 32])
        ensures
            d@ == sha256(self.fed()),
    {
        self.digest_of()
    }
}

/// The node of a folder file named `name` whose contents were fed to `h`,
/// with modification time `mtime`: an archive when the name says so, a
/// plain file otherwise, carrying the digest and the length of the contents.
pub fn scanned_file(name: &str, h: Sha256Stream, mtime: Option<i64>) -> (n: FolderNode)
    requires
        h.wf(),
    ensures
        n.kind == (if archive_name(name@) {
            FolderKind::Archive
        } else {
            FolderKind::File
        }),
        ends_with_ci(name@, ".zip"@) || ends_with_ci(name@, ".jar"@) || ends_with_ci(name@, ".war"@)
            || ends_with_ci(name@, ".ear"@) ==> n.kind == FolderKind::Archive,
        hash_view(n.hash) == Some(sha256(h.fed())),
        n.size == Some(h.fed().len() as u64),
        n.mtime == mtime,
        n.children@.len() == 0,
        wf(n),
{
    proof {
        law_archive_suffixes(name@);
    }
    let size = h.len();
    let hash = h.finish();
    let kind = if is_archive_name(name) {
        FolderKind::Archive
    } else {
        FolderKind::File
    };
    FolderNode::file(kind, hash, size).with_mtime(mtime)
}

/// What a folder scan does with one directory entry.
#[derive(Debug, Clone, Copy, PartialEq, Eq, Structural)]
pub enum EntryAction {
    /// Leave the entry out of the tree.
    Skip,
    /// Scan the entry as a folder of its own.
    Descend,
    /// Hash the entry's contents; failing to open it fails the scan.
    Hash,
    /// Hash the contents of the file a link points to, leaving the entry out
    /// when that file cannot be opened.
    HashIfReadable,
}

/// What a folder scan does with an entry: `is_link` tells whether the entry
/// itself is a symbolic link, `is_dir` whether it is a directory (a link
/// never is), and `is_file` whether what it names, a link being followed,
/// is a regular file. Links to directories are not followed; links to files
/// are read as ordinary files when their target can be read; directories are
/// scanned and regular files hashed; anything else is left out.
pub fn entry_action(is_link: bool, is_dir: bool, is_file: bool) -> (a: EntryAction)
    ensures
        a == (if is_link {
            if is_file {
                EntryAction::HashIfReadable
            } else {
                EntryAction::Skip
            }
        } else if is_dir {
            EntryAction::Descend
        } else if is_file {
            EntryAction::Hash
        } else {
            EntryAction::Skip
        }),
{
    if is_link {
        if is_file {
            EntryAction::HashIfReadable
        } else {
            EntryAction::Skip
        }
    } else if is_dir {
        EntryAction::Descend
    } else if is_file {
        EntryAction::Hash
    } else {
        EntryAction::Skip
    }
}

/// The node of a scanned folder with modification time `mtime`, holding
/// the entries that the scan of its contents put in `nested`.
pub fn scanned_dir(mtime: Option<i64>, nested: FolderNode) -> (n: FolderNode)
    requires
        wf(nested),
    ensures
        n.kind == FolderKind::Dir,
        n.hash is None,
        n.size is None,
        n.mtime == mtime,
        n.children@ == nested.children@,
        wf(n),
{
    FolderNode { kind: FolderKind::Dir, hash: None, size: None, mtime, children: nested.children }
}

/// What a walk of a folder found in it: a folder with its modification time
/// and what the walk found in it, or a file with its modification time and
/// its contents fed to a SHA-256 stream.
pub enum DirEntry {
    Folder(String, Option<i64>, Vec<DirEntry>),
    File(String, Option<i64>, Sha256Stream),
}

/// The name of an entry found by a walk.
pub open spec fn entry_name(e: DirEntry) -> Seq<char> {
    match e {
        DirEntry::Folder(name, _, _) => name@,
        DirEntry::File(name, _, _) => name@,
    }
}

/// Every stream of a walk's findings counts what it was fed.
pub open spec fn entry_ready(e: DirEntry) -> bool
    decreases e,
{
    match e {
        DirEntry::File(_, _, h) => h.wf(),
        DirEntry::Folder(_, _, sub) => forall|i: int| 0 <= i < sub@.len() ==> entry_ready(#[trigger] sub@[i]),
    }
}

/// No entry after `i` has the name of entry `i`.
pub open spec fn last_named(es: Seq<DirEntry>, i: int) -> bool {
    0 <= i < es.len() && forall|j: int| i < j < es.len() ==> entry_name(#[trigger] es[j]) != entry_name(es[i])
}

/// `n` is the node a scan makes of `e`: a file becomes a node carrying the
/// SHA-256 digest and the length of its contents and its time, an archive
/// when its name says so; a folder becomes a directory with its time whose
/// children are its entries by name, the last entry of a name standing for
/// it.
pub open spec fn walk_scanned(e: DirEntry, n: FolderNode) -> bool
    decreases e,
{
    match e {
        DirEntry::File(name, mtime, h) => {
            &&& n.kind == (if archive_name(name@) {
                FolderKind::Archive
            } else {
                FolderKind::File
            })
            &&& hash_view(n.hash) == Some(sha256(h.fed()))
            &&& n.size == Some(h.fed().len() as u64)
            &&& n.mtime == mtime
            &&& n.children@.len() == 0
        },
        DirEntry::Folder(_, mtime, sub) => {
            &&& n.kind == FolderKind::Dir
            &&& n.hash is None
            &&& n.size is None
            &&& n.mtime == mtime
            &&& forall|nm: Seq<char>|
                #![trigger lookup(n.children@, nm)]
                lookup(n.children@, nm) is Some <==> exists|i: int|
                    0 <= i < sub@.len() && entry_name(#[trigger] sub@[i]) == nm
            &&& forall|i: int|
                #![trigger sub@[i]]
                last_named(sub@, i) ==> (lookup(n.children@, entry_name(sub@[i])) matches Some(c)
                    && walk_scanned(sub@[i], c))
        },
    }
}

/// `ch` is the child list a scan makes of the findings `es` of a folder:
/// the names found, each standing for the last entry found under it.
pub open spec fn listed(es: Seq<DirEntry>, ch: Seq<(String, FolderNode)>) -> bool {
    &&& forall|nm: Seq<char>|
        #![trigger lookup(ch, nm)]
        lookup(ch, nm) is Some <==> exists|i: int| 0 <= i < es.len() && entry_name(#[trigger] es[i]) == nm
    &&& forall|i: int|
        #![trigger es[i]]
        last_named(es, i) ==> (lookup(ch, entry_name(es[i])) matches Some(c) && walk_scanned(es[i], c))
}

/// Scans what a walk found in a folder into the folder's tree: each file
/// becomes a node carrying the SHA-256 digest and length of its contents
/// (an archive when its name says so), each folder a directory holding the
/// scan of what was found in it; an entry found later under the same name
/// stands for it.
#[verifier::rlimit(40)]
pub fn scan_dir(entries: Vec<DirEntry>) -> (n: FolderNode)
    requires
        forall|i: int| 0 <= i < entries@.len() ==> entry_ready(#[trigger] entries@[i]),
    ensures
        n.kind == FolderKind::Dir,
        n.hash is None,
        n.size is None,
        n.mtime is None,
        listed(entries@, n.children@),
        wf(n),
    decreases entries,
{
    let ghost es = entries@;
    let mut rest = entries;
    let mut tree = FolderNode::dir();
    let ghost mut k: int = 0;
    assert(es.skip(0) == es);
    while rest.len() > 0
        invariant
            es == entries@,
            0 <= k <= es.len(),
            rest@ == es.skip(k),
            forall|i: int| 0 <= i < es.len() ==> entry_ready(#[trigger] es[i]),
            wf(tree),
            tree.kind == FolderKind::Dir,
            tree.hash is None,
            tree.size is None,
            tree.mtime is None,
            listed(es.take(k), tree.children@),
        decreases rest@.len(),
    {
        let e = rest.remove(0);
        assert(e == es[k]);
        assert(rest@ == es.skip(k + 1));
        let ghost before = tree.children@;
        let ghost name_k = entry_name(e);
        match e {
            DirEntry::File(name, mtime, h) => {
                assert(entry_ready(es[k]));
                let node = scanned_file(name.as_str(), h, mtime);
                tree.insert_child(name, node);
            },
            DirEntry::Folder(name, mtime, sub) => {
                assert(entry_ready(es[k]));
                assert(decreases_to!(entries => entries@));
                assert(decreases_to!(entries@ => entries@[k]));
                let nested = scan_dir(sub);
                let node = scanned_dir(mtime, nested);
                tree.insert_child(name, node);
            },
        }
        proof {
            let t0 = es.take(k);
            let t1 = es.take(k + 1);
            assert(lookup(tree.children@, name_k) matches Some(c) && walk_scanned(es[k], c));
            assert forall|nm: Seq<char>| #![trigger lookup(tree.children@, nm)]
                lookup(tree.children@, nm) is Some <==> exists|i: int| 0 <= i < t1.len() && entry_name(#[trigger] t1[i]) == nm by {
                if nm == name_k {
                    assert(t1[k] == es[k]);
                } else {
                    assert(lookup(tree.children@, nm) == lookup(before, nm));
                    if lookup(before, nm) is Some {
                        let i = choose|i: int| 0 <= i < t0.len() && entry_name(#[trigger] t0[i]) == nm;
                        assert(t1[i] == t0[i]);
                    }
                    if exists|i: int| 0 <= i < t1.len() && entry_name(#[trigger] t1[i]) == nm {
                        let i = choose|i: int| 0 <= i < t1.len() && entry_name(#[trigger] t1[i]) == nm;
                        assert(i != k);
                        assert(t0[i] == t1[i]);
                    }
                }
            }
            assert forall|i: int| #![trigger t1[i]]
                last_named(t1, i) implies (lookup(tree.children@, entry_name(t1[i])) matches Some(c) && walk_scanned(t1[i], c)) by {
                if i == k {
                    assert(t1[i] == es[k]);
                } else {
                    assert(t1[i] == t0[i]);
                    assert(entry_name(t1[k]) != entry_name(t1[i]));
                    assert forall|j: int| i < j < t0.len() implies entry_name(#[trigger] t0[j]) != entry_name(t0[i]) by {
                        assert(t0[j] == t1[j]);
                    }
                    assert(last_named(t0, i));
                    assert(lookup(tree.children@, entry_name(t1[i])) == lookup(before, entry_name(t1[i])));
                }
            }
        }
        proof {
            k = k + 1;
        }
    }
    assert(es.take(k) == es);
    tree
}

/// `s` with every `\` turned into `/`.
pub open spec fn unbackslash(s: Seq<char>) -> Seq<char> {
    s.map_values(|c: char| if c == '\\' { '/' } else { c })
}

/// `s` without its trailing `/` characters.
pub open spec fn trim_slashes(s: Seq<char>) -> Seq<char>
    decreases s.len(),
{
    if s.len() > 0 && s.last() == '/' {
        trim_slashes(s.drop_last())
    } else {
        s
    }
}

fn normalize_name(name: &str) -> (r: String)
    ensures
        r@ == unbackslash(name@),
{
    let chars = char_vec(name);
    let mut out = String::new();
    let mut i: usize = 0;
    while i < chars.len()
        invariant
            i <= chars@.len(),
            chars@ == name@,
            out@ == unbackslash(chars@.take(i as int)),
        decreases chars@.len() - i,
    {
        let c = if chars[i] == '\\' {
            '/'
        } else {
            chars[i]
        };
        push_char(&mut out, c);
        assert(unbackslash(chars@.take(i + 1)) == unbackslash(chars@.take(i as int)).push(c));
        i += 1;
    }
    assert(chars@.take(chars@.len() as int) == chars@);
    out
}

fn trim_trailing_slashes(name: &str) -> (r: String)
    ensures
        r@ == trim_slashes(name@),
{
    let chars = char_vec(name);
    let mut end: usize = chars.len();
    assert(chars@.take(end as int) == name@);
    while end > 0 && chars[end - 1] == '/'
        invariant
            end <= chars@.len(),
            trim_slashes(name@) == trim_slashes(chars@.take(end as int)),
        decreases end,
    {
        assert(chars@.take(end as int).drop_last() == chars@.take(end - 1));
        end -= 1;
    }
    let mut out = String::new();
    let mut i: usize = 0;
    while i < end
        invariant
            i <= end <= chars@.len(),
            out@ == chars@.take(i as int),
        decreases end - i,
    {
        push_char(&mut out, chars[i]);
        assert(chars@.take(i + 1) == chars@.take(i as int).push(chars@[i as int]));
        i += 1;
    }
    out
}

/// What adding entry `e` does to a child list: an entry without a name does
/// nothing; a directory entry makes the directories of its path; a file
/// entry is placed at its path with the SHA-256 and length of its contents,
/// as an archive when its name says so.
pub open spec fn entry_step(old: Seq<(String, FolderNode)>, new: Seq<(String, FolderNode)>, e: ZipEntryModel) -> bool {
    let name = unbackslash(e.name);
    if name.len() == 0 {
        new == old
    } else if e.is_dir || name.last() == '/' {
        put_path(old, new, path_parts(trim_slashes(name)), None)
    } else {
        exists|leaf: Leaf|
            #![trigger put_path(old, new, path_parts(name), Some(leaf))]
            leaf.hash@ == sha256(e.data->0) && leaf.kind == (if archive_name(name) {
                FolderKind::Archive
            } else {
                FolderKind::File
            }) && leaf.size == e.data->0.len() as u64 && leaf.mtime == entry_mtime_spec(e.stamp)
                && put_path(old, new, path_parts(name), Some(leaf))
    }
}

/// Why an entry stops a scan: it cannot be opened, or it is a file whose
/// contents cannot be read.
pub open spec fn entry_error(e: Option<ZipEntryModel>) -> Option<Seq<char>> {
    match e {
        None => Some(bad_archive_message()),
        Some(m) => {
            let name = unbackslash(m.name);
            if name.len() > 0 && !(m.is_dir || name.last() == '/') && m.data is None {
                Some(cannot_open_message())
            } else {
                None
            }
        },
    }
}

/// The first error among the entries, if any.
pub open spec fn scan_error(entries: Seq<Option<ZipEntryModel>>) -> Option<Seq<char>>
    decreases entries.len(),
{
    if entries.len() == 0 {
        None
    } else {
        match scan_error(entries.drop_last()) {
            Some(m) => Some(m),
            None => entry_error(entries.last()),
        }
    }
}

pub open spec fn step_ok(
    steps: Seq<Seq<(String, FolderNode)>>,
    entries: Seq<Option<ZipEntryModel>>,
    k: int,
) -> bool {
    entry_step(steps[k], steps[k + 1], entries[k]->0)
}

/// `children` is what adding the entries in turn to an empty list leaves.
pub open spec fn scanned(entries: Seq<Option<ZipEntryModel>>, children: Seq<(String, FolderNode)>) -> bool {
    exists|steps: Seq<Seq<(String, FolderNode)>>|
        steps.len() == entries.len() + 1 && steps[0].len() == 0 && steps.last() == children
            && forall|k: int| 0 <= k < entries.len() ==> #[trigger] step_ok(steps, entries, k)
}

/// Adds one archive entry to a tree: an entry without a name changes
/// nothing; a directory entry makes the directories of its path; a file
/// entry is placed at its path with the SHA-256 and length of its contents,
/// as an archive when its name says so, and refused when its contents could
/// not be read.
pub fn add_entry(tree: &mut FolderNode, entry: ZipEntry) -> (r: Result<(), String>)
    requires
        wf(*old(tree)),
    ensures
        wf(*final(tree)),
        final(tree).kind == old(tree).kind,
        final(tree).hash == old(tree).hash,
        final(tree).size == old(tree).size,
        final(tree).mtime == old(tree).mtime,
        match entry_error(Some(entry@)) {
            Some(m) => r matches Err(e) && e@ == m && *final(tree) == *old(tree),
            None => r is Ok && entry_step(old(tree).children@, final(tree).children@, entry@),
        },
{
    let ghost before = tree.children@;
    let raw_name = normalize_name(entry.name.as_str());
    let n_chars = char_vec(raw_name.as_str());
    if n_chars.len() == 0 {
        assert(raw_name@.len() == 0);
        return Ok(());
    }
    if entry.is_dir || n_chars[n_chars.len() - 1] == '/' {
        let trimmed = trim_trailing_slashes(raw_name.as_str());
        tree.ensure_dir(trimmed.as_str());
        return Ok(());
    }
    let mtime = entry_mtime(entry.stamp);
    let data = match entry.data {
        Some(d) => d,
        None => {
            return Err("无法打开文件".to_owned());
        },
    };
    let n: usize = data.len();
    assert(n <= u64::MAX);
    let mut stream = Sha256Stream::new();
    stream.update(data.as_slice());
    assert(stream.fed() == data@);
    let size = stream.len();
    let hash = stream.finish();
    let kind = if is_archive_name(raw_name.as_str()) {
        FolderKind::Archive
    } else {
        FolderKind::File
    };
    tree.insert_entry(raw_name.as_str(), kind, hash, size, mtime);
    proof {
        let leaf = Leaf { kind, hash, size, mtime };
        if path_parts(raw_name@).len() == 0 {
            assert(tree.children@ == before);
        }
        assert(put_path(before, tree.children@, path_parts(raw_name@), Some(leaf)));
    }
    Ok(())
}

/// What scanning the archive held in `bytes` gives: bytes that are not an
/// archive are refused, the first entry that stops a scan gives its error,
/// and otherwise the tree is an empty directory to which every entry has
/// been added in turn.
pub open spec fn scan_result(bytes: Seq<u8>, r: Result<FolderNode, String>) -> bool {
    match zip_listing(bytes) {
        None => r matches Err(e) && e@ == bad_archive_message(),
        Some(entries) => match scan_error(entries) {
            Some(m) => r matches Err(e) && e@ == m,
            None => r matches Ok(tree) && wf(tree) && tree.kind == FolderKind::Dir && tree.hash is None
                && tree.size is None && tree.mtime is None && scanned(entries, tree.children@),
        },
    }
}

/// A tree a scan gives is well formed.
pub proof fn lemma_scan_ok_wf(bytes: Seq<u8>, tree: FolderNode)
    requires
        scan_result(bytes, Ok(tree)),
    ensures
        wf(tree),
{
}

/// A scan fails only with one of the two archive messages.
pub proof fn lemma_scan_error_messages(entries: Seq<Option<ZipEntryModel>>)
    ensures
        scan_error(entries) matches Some(m) ==> (m == bad_archive_message() || m
            == cannot_open_message()),
    decreases entries.len(),
{
    if entries.len() > 0 {
        lemma_scan_error_messages(entries.drop_last());
    }
}

/// Scans an archive held in memory into a tree; entries are compared by
/// the SHA-256 of their uncompressed contents, so timestamps do not matter.
pub fn scan_zip_bytes(bytes: &[u8]) -> (r: Result<FolderNode, String>)
    ensures
        scan_result(bytes@, r),
{
    let mut archive = match open_archive(bytes) {
        Ok(a) => a,
        Err(_) => {
            return Err("无法作为压缩包打开".to_owned());
        },
    };
    let ghost entries = archive_entries(archive);
    let mut tree = FolderNode::dir();
    let n = archive_len(&archive);
    let ghost mut steps: Seq<Seq<(String, FolderNode)>> = seq![tree.children@];
    let mut index: usize = 0;
    while index < n
        invariant
            index <= n,
            n == entries.len(),
            archive_entries(archive) == entries,
            zip_listing(bytes@) == Some(entries),
            scan_error(entries.take(index as int)) is None,
            wf(tree),
            tree.kind == FolderKind::Dir,
            tree.hash is None,
            tree.size is None,
            tree.mtime is None,
            steps.len() == index + 1,
            steps[0].len() == 0,
            steps.last() == tree.children@,
            forall|k: int| 0 <= k < index ==> #[trigger] step_ok(steps, entries, k),
        decreases n - index,
    {
        assert(entries.take(index + 1).drop_last() == entries.take(index as int));
        let entry = match archive_entry(&mut archive, index) {
            Ok(e) => e,
            Err(_) => {
                proof {
                    lemma_scan_error_prefix(entries, index + 1);
                }
                return Err("无法作为压缩包打开".to_owned());
            },
        };
        let ghost before = tree.children@;
        let ghost em = entry@;
        match add_entry(&mut tree, entry) {
            Ok(()) => {},
            Err(e) => {
                proof {
                    lemma_scan_error_prefix(entries, index + 1);
                }
                return Err(e);
            },
        }
        assert(entry_step(before, tree.children@, em));
        proof {
            let ghost s0 = steps;
            steps = steps.push(tree.children@);
            assert(step_ok(steps, entries, index as int));
            assert forall|k: int| 0 <= k < index + 1 implies #[trigger] step_ok(steps, entries, k) by {
                if k < index {
                    assert(step_ok(s0, entries, k));
                    assert(steps[k] == s0[k] && steps[k + 1] == s0[k + 1]);
                }
            }
        }
        index += 1;
    }
    proof {
        assert(entries.take(n as int) == entries);
    }
    Ok(tree)
}

proof fn lemma_scan_error_prefix(entries: Seq<Option<ZipEntryModel>>, k: int)
    requires
        0 <= k <= entries.len(),
        scan_error(entries.take(k)) is Some,
    ensures
        scan_error(entries) == scan_error(entries.take(k)),
    decreases entries.len() - k,
{
    if k < entries.len() {
        assert(entries.take(k + 1).drop_last() == entries.take(k));
        lemma_scan_error_prefix(entries, k + 1);
    } else {
        assert(entries.take(k) == entries);
    }
}

/// What reading entry `entry` of the archive held in `bytes` may give: bytes
/// that are not an archive are refused as such; any other failure is one of
/// the two read messages; what is read is the contents of an entry stored
/// under that name.
pub open spec fn entry_read(bytes: Seq<u8>, entry: Seq<char>, r: Result<Vec<u8>, String>) -> bool {
    match zip_listing(bytes) {
        None => r matches Err(e) && e@ == bad_archive_message(),
        Some(entries) => {
            &&& named_read(entries, entry, r)
            &&& r matches Err(e) ==> e@ == cannot_open_message()
        },
    }
}

/// Reads the entry stored under `entry` from an archive held in memory.
pub fn read_zip_bytes_entry(bytes: &[u8], entry: &str) -> (r: Result<Vec<u8>, String>)
    ensures
        entry_read(bytes@, entry@, r),
{
    let mut archive = match open_archive(bytes) {
        Ok(a) => a,
        Err(_) => {
            return Err("无法作为压缩包打开".to_owned());
        },
    };
    let ghost entries = archive_entries(archive);
    match archive_read_named(&mut archive, entry) {
        Ok(d) => Ok(d),
        Err(_) => Err("无法打开文件".to_owned()),
    }
}

} // verus!
