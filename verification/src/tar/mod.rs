//! Tar archives in the ustar format, with pax extended headers for paths
//! that do not fit.
//!
//! An archive is a sequence of entries, each a 512-byte header block followed
//! by its content zero-filled to a multiple of 512 bytes, and ends on two
//! zero blocks.
pub mod header;
pub mod pax;
pub mod utils;

use vstd::prelude::*;
use vstd::string::*;
use vstd::utf8::*;

use crate::tar::header::{header_bytes, is_entry_header, type_byte, TarFileType, TarHeader};
use crate::tar::pax::{
    clamp_time, file_name_of, is_pax_entry_for, pax_key_name, pax_record, path_file_name,
    path_parent, text_or_empty, PaxEntry, PaxHeaderType, PaxKey,
};
use crate::tar::utils::{lemma_encode_utf8_concat, split_path, split_path_bytes};

verus! {

broadcast use vstd::utf8::encode_utf8_valid_utf8;

/// One entry of an archive: its header and its content.
pub struct TarEntry {
    pub header: TarHeader,
    pub content: Vec<u8>,
}

/// Zeros that bring `len` bytes up to a multiple of 512.
pub open spec fn block_padding(len: nat) -> nat {
    ((512 - len % 512) % 512) as nat
}

/// The bytes of an entry: its header block, its content, and zeros up to a
/// multiple of 512.
pub open spec fn entry_bytes(e: TarEntry) -> Seq<u8> {
    header_bytes(e.header) + e.content@ + Seq::new(block_padding(e.content@.len()), |i: int| 0u8)
}

/// The bytes of the entries, one after the other.
pub open spec fn entries_bytes(entries: Seq<TarEntry>) -> Seq<u8>
    decreases entries.len(),
{
    if entries.len() == 0 {
        seq![]
    } else {
        entries_bytes(entries.drop_last()) + entry_bytes(entries.last())
    }
}

/// The bytes of an archive: its entries, then two zero blocks.
pub open spec fn archive_bytes(entries: Seq<TarEntry>) -> Seq<u8> {
    entries_bytes(entries) + Seq::new(1024, |i: int| 0u8)
}

proof fn lemma_entries_bytes_blocks(entries: Seq<TarEntry>)
    ensures
        entries_bytes(entries).len() % 512 == 0,
    decreases entries.len(),
{
    if entries.len() > 0 {
        lemma_entries_bytes_blocks(entries.drop_last());
        let e = entries.last();
        let n = e.content@.len();
        assert((512 + n + block_padding(n)) % 512 == 0) by (nonlinear_arith)
            requires
                block_padding(n) == (512 - n % 512) % 512,
        ;
    }
}

/// An entry takes the fewest whole blocks that hold its header and its
/// content: the header block, the content, then fewer than 512 zeros.
pub proof fn lemma_entry_blocks(e: TarEntry)
    ensures
        entry_bytes(e).len() == 512 * (1 + (e.content@.len() + 511) / 512),
        entry_bytes(e).len() < 512 + e.content@.len() + 512,
        entry_bytes(e).subrange(0, 512) == header_bytes(e.header),
        entry_bytes(e).subrange(512, 512 + e.content@.len() as int) == e.content@,
        forall|i: int|
            512 + e.content@.len() <= i < entry_bytes(e).len() ==> #[trigger] entry_bytes(e)[i]
                == 0,
{
    crate::tar::header::lemma_header_layout(e.header);
    let n = e.content@.len();
    let q = n / 512;
    let r = n % 512;
    assert(n == 512 * q + r) by (nonlinear_arith)
        requires
            q == n / 512,
            r == n % 512,
    ;
    if r == 0 {
        assert((n + 511) / 512 == q) by (nonlinear_arith)
            requires
                n == 512 * q,
        ;
    } else {
        assert((n + 511) / 512 == q + 1) by (nonlinear_arith)
            requires
                n == 512 * q + r,
                0 < r < 512,
        ;
    }
    let b = entry_bytes(e);
    assert(b.subrange(0, 512) =~= header_bytes(e.header));
    assert(b.subrange(512, 512 + n as int) =~= e.content@);
}

impl TarEntry {
    /// The bytes of the entry: header block, content, and zeros up to a
    /// multiple of 512.
    pub fn as_bytes(&self) -> (r: Vec<u8>)
        ensures
            r@ == entry_bytes(*self),
            r@.len() % 512 == 0,
            r@.len() == 512 * (1 + (self.content@.len() + 511) / 512),
            r@.subrange(0, 512) == header_bytes(self.header),
            r@.subrange(512, 512 + self.content@.len() as int) == self.content@,
    {
        proof {
            lemma_entry_blocks(*self);
        }
        let mut result = self.header.as_bytes();
        let ghost head = result@;
        let mut i: usize = 0;
        while i < self.content.len()
            invariant
                i <= self.content@.len(),
                result@ == head + self.content@.take(i as int),
            decreases self.content@.len() - i,
        {
            result.push(self.content[i]);
            i = i + 1;
            assert(result@ =~= head + self.content@.take(i as int));
        }
        assert(self.content@.take(i as int) =~= self.content@);
        let padding_size = (512 - (self.content.len() % 512)) % 512;
        let ghost body = result@;
        let mut k: usize = 0;
        while k < padding_size
            invariant
                k <= padding_size,
                result@ == body + Seq::new(k as nat, |j: int| 0u8),
            decreases padding_size - k,
        {
            result.push(0u8);
            k = k + 1;
            assert(result@ =~= body + Seq::new(k as nat, |j: int| 0u8));
        }
        proof {
            let n = self.content@.len();
            assert((512 + n + block_padding(n)) % 512 == 0) by (nonlinear_arith)
                requires
                    block_padding(n) == (512 - n % 512) % 512,
            ;
        }
        result
    }
}

/// Kinds of files, as the file system reports them.
#[derive(Clone, Copy, Debug, PartialEq, Eq, Structural)]
pub enum FileKind {
    Directory,
    Symlink,
    CharDevice,
    BlockDevice,
    Fifo,
    /// Regular files, and whatever is none of the above.
    Other,
}

/// What an entry records of a file's metadata.
#[derive(Clone, Copy, Debug, PartialEq, Eq, Structural)]
pub struct FileMeta {
    pub kind: FileKind,
    pub mode: u32,
    pub uid: u32,
    pub gid: u32,
    pub mtime: i64,
    pub size: u64,
}

/// The entry type of a file of kind `k`.
pub open spec fn kind_type(k: FileKind) -> TarFileType {
    match k {
        FileKind::Directory => TarFileType::DirType,
        FileKind::Symlink => TarFileType::SymType,
        FileKind::CharDevice => TarFileType::ChrType,
        FileKind::BlockDevice => TarFileType::BlkType,
        FileKind::Fifo => TarFileType::FifoType,
        FileKind::Other => TarFileType::RegType,
    }
}

/// The ustar type byte of each kind of file: `5` for a directory, `2` for a
/// symbolic link, `3` for a character device, `4` for a block device, `6`
/// for a FIFO, and `0` for a regular (or any other) file.
pub proof fn lemma_kind_typeflag(k: FileKind)
    ensures
        type_byte(kind_type(k)) == (match k {
            FileKind::Directory => 53u8,
            FileKind::Symlink => 50u8,
            FileKind::CharDevice => 51u8,
            FileKind::BlockDevice => 52u8,
            FileKind::Fifo => 54u8,
            FileKind::Other => 48u8,
        }),
{
}

/// The size that the header of a file records: only other files have one.
pub open spec fn kind_size(meta: FileMeta) -> u64 {
    match meta.kind {
        FileKind::Other => meta.size,
        _ => 0,
    }
}

/// `s` without its leading `/`.
pub open spec fn trim_leading_slashes(s: Seq<char>) -> Seq<char>
    decreases s.len(),
{
    if s.len() > 0 && s[0] == '/' {
        trim_leading_slashes(s.skip(1))
    } else {
        s
    }
}

/// The name that an entry gets: the path below `root` when `root` starts
/// it (`root` removed once, then the leading `/`), else the file name; the
/// file name too when nothing is left below `root`.
pub open spec fn entry_name(path: Seq<char>, root: Option<Seq<char>>, file_name: Seq<char>) -> Seq<
    char,
> {
    match root {
        Some(r) => if r.len() <= path.len() && path.take(r.len() as int) == r {
            let t = trim_leading_slashes(path.skip(r.len() as int));
            if t.len() == 0 {
                file_name
            } else {
                t
            }
        } else {
            file_name
        },
        None => file_name,
    }
}

/// The name of macOS folder metadata files, which archives leave out.
pub open spec fn ds_store() -> Seq<char> {
    seq!['.', 'D', 'S', '_', 'S', 't', 'o', 'r', 'e']
}

/// Whether `pat` starts `s`.
fn starts_with_chars(s: &str, pat: &str) -> (r: bool)
    ensures
        r == (pat@.len() <= s@.len() && s@.take(pat@.len() as int) == pat@),
{
    let n = pat.unicode_len();
    let len = s.unicode_len();
    if n > len {
        return false;
    }
    let mut i: usize = 0;
    while i < n
        invariant
            i <= n <= len,
            n == pat@.len(),
            len == s@.len(),
            s@.take(i as int) == pat@.take(i as int),
        decreases n - i,
    {
        if s.get_char(i) != pat.get_char(i) {
            assert(s@.take(n as int)[i as int] != pat@[i as int]);
            return false;
        }
        assert(s@.take(i + 1) =~= s@.take(i as int).push(s@[i as int]));
        assert(pat@.take(i + 1) =~= pat@.take(i as int).push(pat@[i as int]));
        i = i + 1;
    }
    assert(pat@.take(n as int) =~= pat@);
    true
}

/// `s` without its leading `/`.
fn trim_start_slashes<'a>(s: &'a str) -> (r: &'a str)
    ensures
        r@ == trim_leading_slashes(s@),
{
    let mut cur = s;
    while cur.unicode_len() > 0 && cur.get_char(0) == '/'
        invariant
            trim_leading_slashes(cur@) == trim_leading_slashes(s@),
        decreases cur@.len(),
    {
        let len = cur.unicode_len();
        cur = cur.substring_char(1, len);
    }
    cur
}

proof fn lemma_trim_leading_slashes_suffix(s: Seq<char>)
    ensures
        trim_leading_slashes(s).len() <= s.len(),
        trim_leading_slashes(s) == s.skip(s.len() - trim_leading_slashes(s).len()),
    decreases s.len(),
{
    if s.len() > 0 && s[0] == '/' {
        let t = s.skip(1);
        lemma_trim_leading_slashes_suffix(t);
        assert(t.skip(t.len() - trim_leading_slashes(t).len()) =~= s.skip(
            s.len() - trim_leading_slashes(t).len(),
        ));
    } else {
        assert(s.skip(0) =~= s);
    }
}

/// A suffix of a text takes no more bytes than the text.
proof fn lemma_suffix_bytes(s: Seq<char>, k: int)
    requires
        0 <= k <= s.len(),
    ensures
        encode_utf8(s.skip(k)).len() <= encode_utf8(s).len(),
{
    assert(s =~= s.take(k) + s.skip(k));
    lemma_encode_utf8_concat(s.take(k), s.skip(k));
}

/// The name that an entry gets (see [`entry_name`]).
fn entry_name_of(file_path: &str, root_path: Option<&str>, file_name: &str) -> (r: String)
    ensures
        r@ == entry_name(
            file_path@,
            match root_path {
                Some(root) => Some(root@),
                None => None,
            },
            file_name@,
        ),
        encode_utf8(r@).len() <= encode_utf8(file_path@).len() || r@ == file_name@,
{
    match root_path {
        Some(root) => {
            if starts_with_chars(file_path, root) {
                // the path below the root: the root removed once
                let below = file_path.substring_char(root.unicode_len(), file_path.unicode_len());
                let trimmed = trim_start_slashes(below);
                proof {
                    let t1 = file_path@.skip(root@.len() as int);
                    assert(below@ =~= t1);
                    lemma_trim_leading_slashes_suffix(t1);
                    let t2 = trim_leading_slashes(t1);
                    assert(t2 =~= file_path@.skip(file_path@.len() - t2.len()));
                    lemma_suffix_bytes(file_path@, file_path@.len() - t2.len());
                }
                if trimmed.unicode_len() == 0 {
                    file_name.to_owned()
                } else {
                    trimmed.to_owned()
                }
            } else {
                file_name.to_owned()
            }
        },
        None => file_name.to_owned(),
    }
}

/// Whether `a` and `b` are the same text.
fn str_eq(a: &str, b: &str) -> (r: bool)
    ensures
        r == (a@ == b@),
{
    if a.unicode_len() != b.unicode_len() {
        return false;
    }
    let r = starts_with_chars(a, b);
    assert(a@.take(b@.len() as int) =~= a@);
    r
}

/// `path` ending on `/`.
pub open spec fn with_trailing_slash(path: Seq<char>) -> Seq<char> {
    if path.len() > 0 && path.last() == '/' {
        path
    } else {
        path.push('/')
    }
}

/// The path under which a directory's own entry is added: `file_path`
/// ending on `/`.
pub fn dir_entry_path(file_path: &str) -> (r: String)
    ensures
        r@ == with_trailing_slash(file_path@),
{
    proof {
        reveal_strlit("/");
    }
    let len = file_path.unicode_len();
    if len > 0 && file_path.get_char(len - 1) == '/' {
        file_path.to_owned()
    } else {
        let mut r = file_path.to_owned();
        r.append("/");
        r
    }
}

/// The root that the names of the entries added for `file_path` are
/// relative to: its parent directory followed by `/`, if it has a parent.
pub fn append_root(file_path: &str) -> (r: Option<String>)
    ensures
        match path_parent(file_path@) {
            Some(p) => r.is_some() && r.unwrap()@ == p.push('/'),
            None => r.is_none(),
        },
{
    proof {
        reveal_strlit("/");
    }
    match crate::tar::pax::parent_of(file_path) {
        Some(parent) => {
            let mut root = parent;
            root.append("/");
            Some(root)
        },
        None => None,
    }
}

/// Whether a file of this name is left out of archives (macOS `.DS_Store`).
pub fn is_ignored_name(file_name: &str) -> (r: bool)
    ensures
        r == (file_name@ == ds_store()),
{
    proof {
        reveal_strlit(".DS_Store");
        assert(".DS_Store"@ =~= ds_store());
    }
    str_eq(file_name, ".DS_Store")
}

/// An archive under construction.
pub struct Tar {
    pub entries: Vec<TarEntry>,
}

impl Tar {
    /// An archive with no entries.
    pub fn new() -> (r: Self)
        ensures
            r.entries@.len() == 0,
    {
        Self { entries: Vec::new() }
    }

    /// Adds the entries for a file that the caller has read: `file_path` is
    /// its path, `root_path` the directory that entry names are relative to,
    /// `meta` its metadata, `uname` and `gname` its owner's names, `content`
    /// its bytes (empty for all but regular files).
    ///
    /// The file name is the final component of `file_path`. A path without
    /// one (such as `/` or one ending in `..`) adds nothing, and `false` is
    /// returned. macOS `.DS_Store` files are left out. When the entry name
    /// does not fit the header, a pax header with the whole name as `path`
    /// record comes first.
    pub fn append_file(
        &mut self,
        file_path: &str,
        root_path: Option<&str>,
        meta: FileMeta,
        uname: String,
        gname: String,
        content: Vec<u8>,
    ) -> (named: bool)
        requires
            encode_utf8(file_path@).len() <= isize::MAX,
        ensures
            named == (path_file_name(file_path@) matches Some(f) && encode_utf8(f).len()
                <= isize::MAX),
            !named ==> final(self).entries@ == old(self).entries@,
            named ==> ({
                let file_name = path_file_name(file_path@).unwrap();
                let name = entry_name(
                    file_path@,
                    match root_path {
                        Some(root) => Some(root@),
                        None => None,
                    },
                    file_name,
                );
                let split = split_path_bytes(encode_utf8(name));
                let old_len = old(self).entries@.len();
                let new = final(self).entries@;
                if file_name == ds_store() {
                    new == old(self).entries@
                } else {
                    &&& new.len() == old_len + (if split.2 {
                        2int
                    } else {
                        1int
                    })
                    &&& new.take(old_len as int) == old(self).entries@
                    &&& split.2 ==> is_pax_entry_for(
                        new[old_len as int],
                        pax_record(pax_key_name(PaxKey::Path), name),
                        meta.uid,
                        meta.gid,
                        meta.mtime,
                        uname@,
                        gname@,
                        PaxHeaderType::PerEntry,
                        text_or_empty(path_file_name(name)),
                        text_or_empty(path_parent(name)),
                    )
                    &&& new.last().content@ == content@
                    &&& new.last().header.typeflag == (match meta.kind {
                        FileKind::Directory => 53u8,
                        FileKind::Symlink => 50u8,
                        FileKind::CharDevice => 51u8,
                        FileKind::BlockDevice => 52u8,
                        FileKind::Fifo => 54u8,
                        FileKind::Other => 48u8,
                    })
                    &&& is_entry_header(
                        new.last().header,
                        split.1,
                        split.0,
                        (meta.mode & 0o7777) as u64,
                        meta.uid as u64,
                        meta.gid as u64,
                        kind_size(meta),
                        clamp_time(meta.mtime),
                        type_byte(kind_type(meta.kind)),
                        encode_utf8(uname@),
                        encode_utf8(gname@),
                    )
                }
            }),
    {
        let file_name = match file_name_of(file_path) {
            Some(f) => f,
            None => return false,
        };
        if file_name.as_str().as_bytes().len() > isize::MAX as usize {
            return false;
        }
        let file_name = file_name.as_str();
        if is_ignored_name(file_name) {
            return true;
        }
        let name_with_path = entry_name_of(file_path, root_path, file_name);
        let (tar_file_type, size) = match meta.kind {
            FileKind::Directory => (TarFileType::DirType, 0u64),
            FileKind::Symlink => (TarFileType::SymType, 0u64),
            FileKind::CharDevice => (TarFileType::ChrType, 0u64),
            FileKind::BlockDevice => (TarFileType::BlkType, 0u64),
            FileKind::Fifo => (TarFileType::FifoType, 0u64),
            FileKind::Other => (TarFileType::RegType, meta.size),
        };
        let splitted_path = split_path(name_with_path.as_str());
        let mtime: u64 = if meta.mtime < 0 {
            0
        } else {
            meta.mtime as u64
        };
        let tar_header = TarHeader::for_entry(
            splitted_path.filename.as_str().as_bytes(),
            splitted_path.prefix.as_str().as_bytes(),
            (meta.mode & 0o7777) as u64,
            meta.uid as u64,
            meta.gid as u64,
            size,
            mtime,
            tar_file_type.as_byte(),
            uname.as_str().as_bytes(),
            gname.as_str().as_bytes(),
        );
        let ghost uname_v = uname@;
        let ghost gname_v = gname@;
        let mut pax_entry = PaxEntry::new(
            name_with_path.clone(),
            meta.uid,
            meta.gid,
            meta.mtime,
            uname,
            gname,
        );
        let ghost name_v = name_with_path@;
        if splitted_path.is_truncated {
            pax_entry.insert(PaxKey::Path, name_with_path);
        }
        let ghost before = self.entries@;
        if pax_entry.entries.len() > 0 {
            proof {
                let es = pax_entry.entries@;
                assert(es.drop_last() =~= Seq::<(PaxKey, String)>::empty());
                assert(crate::tar::pax::pax_content(Seq::<(PaxKey, String)>::empty()) == Seq::<
                    char,
                >::empty());
                assert(es.last().1@ == name_v);
                assert(crate::tar::pax::pax_content(es) =~= pax_record(
                    pax_key_name(PaxKey::Path),
                    name_v,
                ));
            }
            let pax_tar_entry = pax_entry.to_tar_entry();
            self.entries.push(pax_tar_entry);
        }
        self.entries.push(TarEntry { header: tar_header, content });
        proof {
            let name = entry_name(
                file_path@,
                match root_path {
                    Some(root) => Some(root@),
                    None => None,
                },
                file_name@,
            );
            let split = split_path_bytes(encode_utf8(name));
            lemma_kind_typeflag(meta.kind);
            assert(name_v == name);
            assert(splitted_path.is_truncated == split.2);
            assert(self.entries@.take(before.len() as int) =~= before);
            assert(self.entries@.last().content@ == content@);
            assert(is_entry_header(
                self.entries@.last().header,
                split.1,
                split.0,
                (meta.mode & 0o7777) as u64,
                meta.uid as u64,
                meta.gid as u64,
                kind_size(meta),
                clamp_time(meta.mtime),
                type_byte(kind_type(meta.kind)),
                encode_utf8(uname_v),
                encode_utf8(gname_v),
            ));
            if split.2 {
                assert(is_pax_entry_for(
                    self.entries@[before.len() as int],
                    pax_record(pax_key_name(PaxKey::Path), name),
                    meta.uid,
                    meta.gid,
                    meta.mtime,
                    uname_v,
                    gname_v,
                    PaxHeaderType::PerEntry,
                    text_or_empty(path_file_name(name)),
                    text_or_empty(path_parent(name)),
                ));
            }
        }
        true
    }

    /// The bytes of the archive: every entry, then two zero blocks.
    pub fn to_bytes(&self) -> (r: Vec<u8>)
        ensures
            r@ == archive_bytes(self.entries@),
            r@.len() % 512 == 0,
    {
        let mut result: Vec<u8> = Vec::new();
        let mut i: usize = 0;
        while i < self.entries.len()
            invariant
                i <= self.entries@.len(),
                result@ == entries_bytes(self.entries@.take(i as int)),
            decreases self.entries@.len() - i,
        {
            let mut bytes = self.entries[i].as_bytes();
            result.append(&mut bytes);
            assert(self.entries@.take(i + 1).drop_last() =~= self.entries@.take(i as int));
            i = i + 1;
        }
        assert(self.entries@.take(i as int) =~= self.entries@);
        let ghost body = result@;
        let mut k: usize = 0;
        while k < 1024
            invariant
                k <= 1024,
                result@ == body + Seq::new(k as nat, |j: int| 0u8),
            decreases 1024 - k,
        {
            result.push(0u8);
            k = k + 1;
            assert(result@ =~= body + Seq::new(k as nat, |j: int| 0u8));
        }
        proof {
            lemma_entries_bytes_blocks(self.entries@);
        }
        result
    }
}

} // verus!
