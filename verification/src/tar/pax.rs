//! Pax extended headers: `length key=value\n` records carried by an extra
//! entry in front of the entry that they describe.
use vstd::prelude::*;
use vstd::string::*;
use vstd::utf8::*;

use crate::tar::header::{is_entry_header, type_byte, TarFileType, TarHeader};
use crate::tar::utils::{lemma_encode_utf8_concat, split_path, split_path_bytes};
use crate::tar::TarEntry;

verus! {

broadcast use vstd::utf8::encode_utf8_valid_utf8;

/// Keys of pax records.
#[derive(Clone, Copy, Debug, PartialEq, Eq, Structural, Hash)]
pub enum PaxKey {
    Atime,
    Charset,
    Comment,
    Gid,
    Gname,
    Hdrcharset,
    Linkpath,
    Mtime,
    Path,
    Size,
    Uid,
    Uname,
}

/// The name of a key in a record: the variant's name in lower case.
pub open spec fn pax_key_name(k: PaxKey) -> Seq<char> {
    match k {
        PaxKey::Atime => seq!['a', 't', 'i', 'm', 'e'],
        PaxKey::Charset => seq!['c', 'h', 'a', 'r', 's', 'e', 't'],
        PaxKey::Comment => seq!['c', 'o', 'm', 'm', 'e', 'n', 't'],
        PaxKey::Gid => seq!['g', 'i', 'd'],
        PaxKey::Gname => seq!['g', 'n', 'a', 'm', 'e'],
        PaxKey::Hdrcharset => seq!['h', 'd', 'r', 'c', 'h', 'a', 'r', 's', 'e', 't'],
        PaxKey::Linkpath => seq!['l', 'i', 'n', 'k', 'p', 'a', 't', 'h'],
        PaxKey::Mtime => seq!['m', 't', 'i', 'm', 'e'],
        PaxKey::Path => seq!['p', 'a', 't', 'h'],
        PaxKey::Size => seq!['s', 'i', 'z', 'e'],
        PaxKey::Uid => seq!['u', 'i', 'd'],
        PaxKey::Uname => seq!['u', 'n', 'a', 'm', 'e'],
    }
}

impl PaxKey {
    /// The name of the key as it stands in a record.
    pub fn name(&self) -> (r: &'static str)
        ensures
            r@ == pax_key_name(*self),
    {
        match self {
            PaxKey::Atime => {
                proof {
                    reveal_strlit("atime");
                }
                "atime"
            },
            PaxKey::Charset => {
                proof {
                    reveal_strlit("charset");
                }
                "charset"
            },
            PaxKey::Comment => {
                proof {
                    reveal_strlit("comment");
                }
                "comment"
            },
            PaxKey::Gid => {
                proof {
                    reveal_strlit("gid");
                }
                "gid"
            },
            PaxKey::Gname => {
                proof {
                    reveal_strlit("gname");
                }
                "gname"
            },
            PaxKey::Hdrcharset => {
                proof {
                    reveal_strlit("hdrcharset");
                }
                "hdrcharset"
            },
            PaxKey::Linkpath => {
                proof {
                    reveal_strlit("linkpath");
                }
                "linkpath"
            },
            PaxKey::Mtime => {
                proof {
                    reveal_strlit("mtime");
                }
                "mtime"
            },
            PaxKey::Path => {
                proof {
                    reveal_strlit("path");
                }
                "path"
            },
            PaxKey::Size => {
                proof {
                    reveal_strlit("size");
                }
                "size"
            },
            PaxKey::Uid => {
                proof {
                    reveal_strlit("uid");
                }
                "uid"
            },
            PaxKey::Uname => {
                proof {
                    reveal_strlit("uname");
                }
                "uname"
            },
        }
    }
}

/// Whether the records apply to the next entry or to the whole archive.
#[derive(Clone, Copy, Debug, PartialEq, Eq, Structural)]
pub enum PaxHeaderType {
    PerEntry,
    Global,
}

/// The entry type of a pax header.
pub open spec fn pax_type(t: PaxHeaderType) -> TarFileType {
    match t {
        PaxHeaderType::Global => TarFileType::XglType,
        PaxHeaderType::PerEntry => TarFileType::XhdType,
    }
}

/// The ustar type byte of a pax header: `x` for one that describes the
/// next entry, `g` for a global one.
pub proof fn lemma_pax_typeflag(t: PaxHeaderType)
    ensures
        type_byte(pax_type(t)) == (match t {
            PaxHeaderType::PerEntry => 120u8,
            PaxHeaderType::Global => 103u8,
        }),
{
}

// ---------------------------------------------------------------------------
// Decimal numbers
// ---------------------------------------------------------------------------

/// The character of a decimal digit.
pub open spec fn digit_char(d: int) -> char {
    if d == 0 {
        '0'
    } else if d == 1 {
        '1'
    } else if d == 2 {
        '2'
    } else if d == 3 {
        '3'
    } else if d == 4 {
        '4'
    } else if d == 5 {
        '5'
    } else if d == 6 {
        '6'
    } else if d == 7 {
        '7'
    } else if d == 8 {
        '8'
    } else {
        '9'
    }
}

/// `n` in decimal, without leading zeros.
pub open spec fn dec_chars(n: nat) -> Seq<char>
    decreases n,
{
    if n < 10 {
        seq![digit_char(n as int)]
    } else {
        dec_chars(n / 10).push(digit_char((n % 10) as int))
    }
}

/// Number of decimal digits of `n`.
pub open spec fn dec_len(n: nat) -> nat {
    dec_chars(n).len()
}

/// Whether `c` is a decimal digit, `0` to `9`.
pub open spec fn is_digit(c: char) -> bool {
    ('0' as int) <= (c as int) <= ('9' as int)
}

/// The number that a string of decimal digits reads as, most significant
/// digit first.
pub open spec fn dec_value(s: Seq<char>) -> int
    decreases s.len(),
{
    if s.len() == 0 {
        0
    } else {
        dec_value(s.drop_last()) * 10 + ((s.last() as int) - ('0' as int))
    }
}

proof fn lemma_digit_char(d: int)
    requires
        0 <= d < 10,
    ensures
        digit_char(d) as int == ('0' as int) + d,
{
}

/// Writing a number in decimal is undone by reading it back: the text is
/// made of digits, has no leading zero, and reads as the number.
pub proof fn lemma_decimal_reads_back(n: nat)
    ensures
        dec_chars(n).len() >= 1,
        forall|i: int| 0 <= i < dec_chars(n).len() ==> is_digit(#[trigger] dec_chars(n)[i]),
        dec_value(dec_chars(n)) == n,
        dec_chars(n).len() > 1 ==> dec_chars(n)[0] != '0',
    decreases n,
{
    if n < 10 {
        lemma_digit_char(n as int);
        let s = dec_chars(n);
        assert(s.drop_last() =~= Seq::<char>::empty());
        assert(dec_value(s.drop_last()) == 0);
        assert(s.last() == digit_char(n as int));
        assert(dec_value(s) == dec_value(s.drop_last()) * 10 + ((s.last() as int) - ('0' as int)));
    } else {
        lemma_decimal_reads_back(n / 10);
        lemma_digit_char((n % 10) as int);
        let d = dec_chars(n / 10);
        let s = dec_chars(n);
        assert(s == d.push(digit_char((n % 10) as int)));
        assert(s.drop_last() =~= d);
        assert(s.last() == digit_char((n % 10) as int));
        assert(dec_value(s) == dec_value(d) * 10 + ((s.last() as int) - ('0' as int)));
        assert(dec_value(s) == (n / 10) * 10 + n % 10);
        assert(s[0] == d[0]);
        if n / 10 < 10 {
            lemma_digit_char((n / 10) as int);
            assert((s[0] as int) != ('0' as int));
        } else {
            lemma_dec_chars_ascii(n / 100);
            assert(d.len() > 1);
        }
    }
}

/// `10` raised to `k`.
pub open spec fn pow10(k: nat) -> nat
    decreases k,
{
    if k == 0 {
        1
    } else {
        10 * pow10((k - 1) as nat)
    }
}

proof fn lemma_dec_chars_ascii(n: nat)
    ensures
        is_ascii_chars(dec_chars(n)),
        dec_chars(n).len() >= 1,
    decreases n,
{
    if n >= 10 {
        lemma_dec_chars_ascii(n / 10);
    }
}

proof fn lemma_dec_len_monotone(a: nat, b: nat)
    requires
        a <= b,
    ensures
        dec_len(a) <= dec_len(b),
    decreases b,
{
    lemma_dec_chars_ascii(a);
    if b >= 10 {
        lemma_dec_chars_ascii(b / 10);
        if a >= 10 {
            lemma_dec_len_monotone(a / 10, b / 10);
        }
    }
}

proof fn lemma_dec_len_bound(n: nat, k: nat)
    requires
        k >= 1,
        n < pow10(k),
    ensures
        dec_len(n) <= k,
    decreases k,
{
    if n >= 10 {
        if k == 1 {
            assert(pow10(1) == 10) by {
                reveal_with_fuel(pow10, 2);
            }
        } else {
            lemma_dec_len_bound(n / 10, (k - 1) as nat);
        }
    }
}

proof fn lemma_dec_len_usize(n: nat)
    requires
        n <= usize::MAX,
    ensures
        dec_len(n) <= 20,
{
    assert(pow10(20) == 100000000000000000000) by {
        reveal_with_fuel(pow10, 21);
    }
    lemma_dec_len_bound(n, 20);
}

/// The string of one decimal digit.
fn digit_str(d: usize) -> (r: &'static str)
    requires
        d < 10,
    ensures
        r@ == seq![digit_char(d as int)],
{
    if d == 0 {
        proof {
            reveal_strlit("0");
        }
        "0"
    } else if d == 1 {
        proof {
            reveal_strlit("1");
        }
        "1"
    } else if d == 2 {
        proof {
            reveal_strlit("2");
        }
        "2"
    } else if d == 3 {
        proof {
            reveal_strlit("3");
        }
        "3"
    } else if d == 4 {
        proof {
            reveal_strlit("4");
        }
        "4"
    } else if d == 5 {
        proof {
            reveal_strlit("5");
        }
        "5"
    } else if d == 6 {
        proof {
            reveal_strlit("6");
        }
        "6"
    } else if d == 7 {
        proof {
            reveal_strlit("7");
        }
        "7"
    } else if d == 8 {
        proof {
            reveal_strlit("8");
        }
        "8"
    } else {
        proof {
            reveal_strlit("9");
        }
        "9"
    }
}

/// `n` in decimal.
fn decimal_string(n: usize) -> (r: String)
    ensures
        r@ == dec_chars(n as nat),
        forall|i: int| 0 <= i < r@.len() ==> is_digit(#[trigger] r@[i]),
        dec_value(r@) == n,
    decreases n,
{
    proof {
        lemma_decimal_reads_back(n as nat);
    }
    if n < 10 {
        digit_str(n).to_owned()
    } else {
        let mut s = decimal_string(n / 10);
        s.append(digit_str(n % 10));
        s
    }
}

/// Number of decimal digits of `n`.
fn decimal_len(n: usize) -> (r: usize)
    ensures
        r == dec_len(n as nat),
        r <= 20,
{
    proof {
        lemma_dec_len_usize(n as nat);
    }
    let mut count: usize = 1;
    let mut x = n;
    while x >= 10
        invariant
            count + dec_len(x as nat) == dec_len(n as nat) + 1,
            dec_len(n as nat) <= 20,
            count >= 1,
        decreases x,
    {
        proof {
            lemma_dec_chars_ascii(x as nat / 10);
        }
        x = x / 10;
        count = count + 1;
    }
    count
}

// ---------------------------------------------------------------------------
// Records
// ---------------------------------------------------------------------------

/// `n` is a possible length of a record whose part after the length field
/// takes `c` bytes: its digits, a space and the `c` bytes make `n`.
pub open spec fn is_pax_len(c: nat, n: nat) -> bool {
    n == dec_len(n) + c + 1
}

/// The length written at the front of a record whose part after the length
/// field takes `c` bytes: the least length that counts itself.
#[verifier::opaque]
pub open spec fn pax_record_len(c: nat) -> nat {
    choose|n: nat| is_pax_len(c, n) && forall|m: nat| #[trigger] is_pax_len(c, m) ==> n <= m
}

/// `key=value` and a newline.
pub open spec fn pax_line(key: Seq<char>, value: Seq<char>) -> Seq<char> {
    key + seq!['='] + value + seq!['\n']
}

/// A whole record: its length in decimal, a space, `key=value` and a newline.
pub open spec fn pax_record(key: Seq<char>, value: Seq<char>) -> Seq<char> {
    dec_chars(pax_record_len(encode_utf8(pax_line(key, value)).len())) + seq![' '] + pax_line(
        key,
        value,
    )
}

/// The records of all entries, in order.
pub open spec fn pax_content(entries: Seq<(PaxKey, String)>) -> Seq<char>
    decreases entries.len(),
{
    if entries.len() == 0 {
        seq![]
    } else {
        pax_content(entries.drop_last()) + pax_record(
            pax_key_name(entries.last().0),
            entries.last().1@,
        )
    }
}

/// Every value fits in memory.
pub open spec fn entries_fit(entries: Seq<(PaxKey, String)>) -> bool {
    forall|i: int| 0 <= i < entries.len() ==> encode_utf8(#[trigger] entries[i].1@).len() <= isize::MAX
}

/// The length field of a record whose part after the length field takes
/// `content_len` bytes.
fn pax_record_length(content_len: usize) -> (t: usize)
    requires
        content_len <= usize::MAX - 64,
    ensures
        t == pax_record_len(content_len as nat),
        is_pax_len(content_len as nat, t as nat),
{
    let ghost c = content_len as nat;
    let mut line_length: usize = 1;
    let mut total: usize = decimal_len(line_length) + content_len + 1;
    while total != line_length
        invariant
            content_len <= usize::MAX - 64,
            c == content_len,
            total == dec_len(line_length as nat) + c + 1,
            line_length <= total,
            forall|m: nat| #[trigger] is_pax_len(c, m) ==> line_length <= m,
        decreases c + 22 - line_length,
    {
        proof {
            lemma_dec_len_usize(line_length as nat);
            lemma_dec_len_usize(total as nat);
            lemma_dec_len_monotone(line_length as nat, total as nat);
            assert forall|m: nat| #[trigger] is_pax_len(c, m) implies total <= m by {
                lemma_dec_len_monotone(line_length as nat, m);
            }
        }
        line_length = total;
        total = decimal_len(line_length) + content_len + 1;
    }
    proof {
        reveal(pax_record_len);
        let n = line_length as nat;
        assert(is_pax_len(c, n) && forall|m: nat| #[trigger] is_pax_len(c, m) ==> n <= m);
        let t = pax_record_len(c);
        assert(is_pax_len(c, t) && forall|m: nat| #[trigger] is_pax_len(c, m) ==> t <= m);
        assert(t <= n && n <= t);
    }
    line_length
}

proof fn lemma_pax_line_len(key: Seq<char>, value: Seq<char>)
    requires
        is_ascii_chars(key),
    ensures
        encode_utf8(pax_line(key, value)).len() == key.len() + encode_utf8(value).len() + 2,
{
    is_ascii_chars_encode_utf8(key);
    lemma_encode_utf8_concat(key + seq!['='] + value, seq!['\n']);
    lemma_encode_utf8_concat(key + seq!['='], value);
    lemma_encode_utf8_concat(key, seq!['=']);
    is_ascii_chars_encode_utf8(seq!['=']);
    is_ascii_chars_encode_utf8(seq!['\n']);
}

/// One record: `"{length} {key}={value}\n"` where the length counts the
/// whole record in bytes, itself included.
fn pax_record_string(key: &str, value: &str) -> (r: String)
    requires
        is_ascii_chars(key@),
        key@.len() <= 16,
        encode_utf8(value@).len() <= isize::MAX,
    ensures
        r@ == pax_record(key@, value@),
        encode_utf8(r@).len() == pax_record_len(encode_utf8(pax_line(key@, value@)).len()),
{
    let line_content = pax_line_string(key, value);
    let ghost line = pax_line(key@, value@);
    let bytes = line_content.as_str().as_bytes();
    assert(bytes@ == encode_utf8(line));
    let content_len = bytes.len();
    let line_length = pax_record_length(content_len);
    let mut r = decimal_string(line_length);
    proof {
        reveal_strlit(" ");
    }
    r.append(" ");
    r.append(line_content.as_str());
    assert(r@ =~= dec_chars(line_length as nat) + seq![' '] + line);
    proof {
        lemma_dec_chars_ascii(line_length as nat);
        is_ascii_chars_encode_utf8(dec_chars(line_length as nat));
        is_ascii_chars_encode_utf8(seq![' ']);
        lemma_encode_utf8_concat(dec_chars(line_length as nat), seq![' ']);
        lemma_encode_utf8_concat(dec_chars(line_length as nat) + seq![' '], line);
    }
    r
}

/// `key=value` and a newline.
fn pax_line_string(key: &str, value: &str) -> (r: String)
    requires
        is_ascii_chars(key@),
        key@.len() <= 16,
        encode_utf8(value@).len() <= isize::MAX,
    ensures
        r@ == pax_line(key@, value@),
        encode_utf8(r@).len() <= usize::MAX - 64,
{
    proof {
        reveal_strlit("=");
        reveal_strlit("\n");
        lemma_pax_line_len(key@, value@);
    }
    let mut line_content = key.to_owned();
    line_content.append("=");
    line_content.append(value);
    line_content.append("\n");
    assert(line_content@ =~= pax_line(key@, value@));
    line_content
}

/// The length at the front of a record counts the whole record, in bytes.
pub proof fn lemma_pax_record_counts_itself(key: Seq<char>, value: Seq<char>)
    requires
        is_ascii_chars(key),
        key.len() <= 16,
        encode_utf8(value).len() <= isize::MAX,
    ensures
        encode_utf8(pax_record(key, value)).len() == pax_record_len(
            encode_utf8(pax_line(key, value)).len(),
        ),
        ({
            let r = pax_record(key, value);
            let d = dec_chars(pax_record_len(encode_utf8(pax_line(key, value)).len()));
            &&& r == d + seq![' '] + pax_line(key, value)
            &&& d.len() >= 1
            &&& forall|i: int| 0 <= i < d.len() ==> is_digit(#[trigger] d[i])
            &&& dec_value(d) == encode_utf8(r).len()
        }),
{
    let c = encode_utf8(pax_line(key, value)).len();
    lemma_pax_line_len(key, value);
    lemma_pax_len_exists(c);
    reveal(pax_record_len);
    let t = pax_record_len(c);
    lemma_dec_chars_ascii(t);
    is_ascii_chars_encode_utf8(dec_chars(t));
    is_ascii_chars_encode_utf8(seq![' ']);
    lemma_encode_utf8_concat(dec_chars(t), seq![' ']);
    lemma_encode_utf8_concat(dec_chars(t) + seq![' '], pax_line(key, value));
    lemma_decimal_reads_back(t);
}

/// A record length exists for every record that fits in memory.
proof fn lemma_pax_len_exists(c: nat)
    requires
        c <= usize::MAX - 64,
    ensures
        is_pax_len(c, pax_record_len(c)),
        forall|m: nat| #[trigger] is_pax_len(c, m) ==> pax_record_len(c) <= m,
{
    reveal(pax_record_len);
    let n = least_pax_len(c, 1);
    assert(is_pax_len(c, n) && forall|m: nat| #[trigger] is_pax_len(c, m) ==> n <= m);
}

/// The least length that counts itself, searched upwards from `v`.
proof fn least_pax_len(c: nat, v: nat) -> (n: nat)
    requires
        c <= usize::MAX - 64,
        1 <= v <= dec_len(v) + c + 1,
        v <= usize::MAX,
        forall|m: nat| #[trigger] is_pax_len(c, m) ==> v <= m,
    ensures
        is_pax_len(c, n),
        forall|m: nat| #[trigger] is_pax_len(c, m) ==> n <= m,
    decreases c + 22 - v,
{
    lemma_dec_len_usize(v);
    let t = dec_len(v) + c + 1;
    if t == v {
        v
    } else {
        lemma_dec_len_usize(t);
        lemma_dec_len_monotone(v, t);
        assert forall|m: nat| #[trigger] is_pax_len(c, m) implies t <= m by {
            lemma_dec_len_monotone(v, m);
        }
        least_pax_len(c, t)
    }
}

/// A pax header: the records and the metadata of its own entry.
pub struct PaxEntry {
    pub name: String,
    pub uid: u32,
    pub gid: u32,
    pub mtime: i64,
    pub uname: String,
    pub gname: String,
    pub header_type: PaxHeaderType,
    /// The records, each key at most once (see [`keys_distinct`]).
    pub entries: Vec<(PaxKey, String)>,
}

/// Each key occurs in at most one record.
pub open spec fn keys_distinct(entries: Seq<(PaxKey, String)>) -> bool {
    forall|i: int, j: int| 0 <= i < j < entries.len() ==> entries[i].0 != entries[j].0
}

/// Index of the record with key `k`, or `-1`.
pub open spec fn key_index(entries: Seq<(PaxKey, String)>, k: PaxKey) -> int
    decreases entries.len(),
{
    if entries.len() == 0 {
        -1
    } else if entries.last().0 == k && key_index(entries.drop_last(), k) < 0 {
        entries.len() - 1
    } else {
        key_index(entries.drop_last(), k)
    }
}

/// The name of the pax header entry: `PaxHeader/` inserted before the file
/// name of `name`.
pub open spec fn pax_header_name(file_name: Seq<char>, parent: Seq<char>) -> Seq<char> {
    if parent.len() == 0 {
        seq!['P', 'a', 'x', 'H', 'e', 'a', 'd', 'e', 'r', '/'] + file_name
    } else {
        parent + seq!['/', 'P', 'a', 'x', 'H', 'e', 'a', 'd', 'e', 'r', '/'] + file_name
    }
}

/// Clamps a time stamp to zero from below.
pub open spec fn clamp_time(t: i64) -> u64 {
    if t < 0 {
        0
    } else {
        t as u64
    }
}

/// `e` is the tar entry of a pax header with records `records` and the given
/// metadata, whose name has file name `file_name` and parent `parent`.
pub open spec fn is_pax_entry_for(
    e: TarEntry,
    records: Seq<char>,
    uid: u32,
    gid: u32,
    mtime: i64,
    uname: Seq<char>,
    gname: Seq<char>,
    header_type: PaxHeaderType,
    file_name: Seq<char>,
    parent: Seq<char>,
) -> bool {
    let split = split_path_bytes(encode_utf8(pax_header_name(file_name, parent)));
    let content = encode_utf8(records);
    &&& e.content@ == content
    &&& is_entry_header(
        e.header,
        split.1,
        split.0,
        0o644,
        uid as u64,
        gid as u64,
        content.len() as u64,
        clamp_time(mtime),
        type_byte(pax_type(header_type)),
        encode_utf8(uname),
        encode_utf8(gname),
    )
}

/// `e` is the tar entry of pax header `p` whose name has file name
/// `file_name` and parent `parent`.
pub open spec fn is_pax_tar_entry(
    e: TarEntry,
    p: PaxEntry,
    file_name: Seq<char>,
    parent: Seq<char>,
) -> bool {
    is_pax_entry_for(
        e,
        pax_content(p.entries@),
        p.uid,
        p.gid,
        p.mtime,
        p.uname@,
        p.gname@,
        p.header_type,
        file_name,
        parent,
    )
}

/// The final component of `path`, as text, when it has one.
pub uninterp spec fn path_file_name(path: Seq<char>) -> Option<Seq<char>>;

/// `path` without its final component, as text, when it has one.
pub uninterp spec fn path_parent(path: Seq<char>) -> Option<Seq<char>>;

/// Calls `std::path::Path::file_name` on `path` and turns the `OsStr` it
/// returns into a `String` (`None` when there is no file name or it is not
/// UTF-8). Claimed: the result depends on `path` alone, as the name
/// `path_file_name`; nothing is stated of what that name is.
#[verifier::external_body]
pub(crate) fn file_name_of(path: &str) -> (r: Option<String>)
    ensures
        r.is_some() == path_file_name(path@).is_some(),
        r.is_some() ==> r.unwrap()@ == path_file_name(path@).unwrap(),
{
    match std::path::Path::new(path).file_name() {
        Some(name) => match name.to_str() {
            Some(s) => Some(s.to_owned()),
            None => None,
        },
        None => None,
    }
}

/// Calls `std::path::Path::parent` on `path` and turns the `Path` it returns
/// into a `String` (`None` when there is no parent or it is not UTF-8).
/// Claimed: the result depends on `path` alone, as the name `path_parent`;
/// nothing is stated of what that name is.
#[verifier::external_body]
pub(crate) fn parent_of(path: &str) -> (r: Option<String>)
    ensures
        r.is_some() == path_parent(path@).is_some(),
        r.is_some() ==> r.unwrap()@ == path_parent(path@).unwrap(),
{
    match std::path::Path::new(path).parent() {
        Some(p) => match p.to_str() {
            Some(s) => Some(s.to_owned()),
            None => None,
        },
        None => None,
    }
}

/// The text of an optional path part, empty when there is none.
pub open spec fn text_or_empty(t: Option<Seq<char>>) -> Seq<char> {
    match t {
        Some(s) => s,
        None => seq![],
    }
}

impl PaxEntry {
    /// A per-entry pax header with no records.
    pub fn new(
        name: String,
        uid: u32,
        gid: u32,
        mtime: i64,
        uname: String,
        gname: String,
    ) -> (r: Self)
        ensures
            r.name@ == name@,
            r.uid == uid,
            r.gid == gid,
            r.mtime == mtime,
            r.uname@ == uname@,
            r.gname@ == gname@,
            r.header_type == PaxHeaderType::PerEntry,
            r.entries@.len() == 0,
            keys_distinct(r.entries@),
    {
        PaxEntry {
            name,
            uid,
            gid,
            mtime,
            uname,
            gname,
            header_type: PaxHeaderType::PerEntry,
            entries: Vec::new(),
        }
    }

    /// Sets the record of `key` to `value`: replaces the record of that key,
    /// or adds one at the end.
    pub fn insert(&mut self, key: PaxKey, value: String)
        ensures
            final(self).name == old(self).name,
            final(self).uid == old(self).uid,
            final(self).gid == old(self).gid,
            final(self).mtime == old(self).mtime,
            final(self).uname == old(self).uname,
            final(self).gname == old(self).gname,
            final(self).header_type == old(self).header_type,
            key_index(old(self).entries@, key) >= 0 ==> final(self).entries@ == old(
                self,
            ).entries@.update(key_index(old(self).entries@, key), (key, value)),
            key_index(old(self).entries@, key) < 0 ==> final(self).entries@ == old(
                self,
            ).entries@.push((key, value)),
            keys_distinct(old(self).entries@) ==> keys_distinct(final(self).entries@),
    {
        let ghost es = self.entries@;
        let mut i: usize = 0;
        while i < self.entries.len()
            invariant
                i <= self.entries@.len(),
                *self == *old(self),
                self.entries@ == es,
                key_index(es, key) < 0 || i <= key_index(es, key),
            decreases self.entries@.len() - i,
        {
            if self.entries[i].0 == key {
                proof {
                    lemma_key_index_first(es, key, i as int);
                }
                self.entries.set(i, (key, value));
                assert(self.entries@ == es.update(i as int, (key, value)));
                return ;
            }
            proof {
                lemma_key_index_skip(es, key, i as int);
            }
            i = i + 1;
        }
        proof {
            lemma_key_index_range(es, key);
        }
        self.entries.push((key, value));
        assert(self.entries@ == es.push((key, value)));
    }

    /// The records of all entries, in order.
    fn entries_to_content(&self) -> (r: String)
        requires
            entries_fit(self.entries@),
        ensures
            r@ == pax_content(self.entries@),
    {
        let mut content = String::new();
        let mut i: usize = 0;
        while i < self.entries.len()
            invariant
                i <= self.entries@.len(),
                entries_fit(self.entries@),
                content@ == pax_content(self.entries@.take(i as int)),
            decreases self.entries@.len() - i,
        {
            let key = self.entries[i].0.name();
            assert(is_ascii_chars(key@));
            assert(encode_utf8(self.entries@[i as int].1@).len() <= isize::MAX);
            let record = pax_record_string(key, self.entries[i].1.as_str());
            content.append(record.as_str());
            assert(self.entries@.take(i + 1).drop_last() =~= self.entries@.take(i as int));
            i = i + 1;
        }
        assert(self.entries@.take(i as int) =~= self.entries@);
        content
    }

    /// The tar entry of this header, whose name has file name `file_name` and
    /// parent `parent`: named `parent/PaxHeader/file_name` (or
    /// `PaxHeader/file_name`), mode 0644, the records as content.
    pub fn to_tar_entry_with(&self, file_name: &str, parent: &str) -> (r: TarEntry)
        requires
            entries_fit(self.entries@),
        ensures
            is_pax_tar_entry(r, *self, file_name@, parent@),
    {
        let content = self.entries_to_content();
        proof {
            reveal_strlit("PaxHeader/");
            reveal_strlit("/PaxHeader/");
        }
        let parent_bytes = parent.as_bytes();
        let name = if parent_bytes.len() == 0 {
            let mut n = "PaxHeader/".to_owned();
            n.append(file_name);
            n
        } else {
            let mut n = parent.to_owned();
            n.append("/PaxHeader/");
            n.append(file_name);
            n
        };
        assert(name@ =~= pax_header_name(file_name@, parent@));
        let splitted_path = split_path(name.as_str());
        let content_bytes = content.as_str().as_bytes();
        let mtime: u64 = if self.mtime < 0 {
            0
        } else {
            self.mtime as u64
        };
        let header = TarHeader::for_entry(
            splitted_path.filename.as_str().as_bytes(),
            splitted_path.prefix.as_str().as_bytes(),
            0o644,
            self.uid as u64,
            self.gid as u64,
            content_bytes.len() as u64,
            mtime,
            match self.header_type {
                PaxHeaderType::Global => TarFileType::XglType,
                PaxHeaderType::PerEntry => TarFileType::XhdType,
            }.as_byte(),
            self.uname.as_str().as_bytes(),
            self.gname.as_str().as_bytes(),
        );
        let mut bytes: Vec<u8> = Vec::new();
        let mut i: usize = 0;
        while i < content_bytes.len()
            invariant
                i <= content_bytes@.len(),
                bytes@ == content_bytes@.take(i as int),
            decreases content_bytes@.len() - i,
        {
            bytes.push(content_bytes[i]);
            i = i + 1;
            assert(bytes@ =~= content_bytes@.take(i as int));
        }
        assert(content_bytes@.take(i as int) =~= content_bytes@);
        TarEntry { header, content: bytes }
    }

    /// The tar entry of this header: its name is `name` with `PaxHeader/`
    /// inserted before the file name, its content the records.
    pub fn to_tar_entry(&self) -> (r: TarEntry)
        requires
            entries_fit(self.entries@),
        ensures
            is_pax_tar_entry(
                r,
                *self,
                text_or_empty(path_file_name(self.name@)),
                text_or_empty(path_parent(self.name@)),
            ),
    {
        let file_name = match file_name_of(self.name.as_str()) {
            Some(s) => s,
            None => String::new(),
        };
        let parent = match parent_of(self.name.as_str()) {
            Some(s) => s,
            None => String::new(),
        };
        self.to_tar_entry_with(file_name.as_str(), parent.as_str())
    }
}

proof fn lemma_key_index_range(es: Seq<(PaxKey, String)>, k: PaxKey)
    ensures
        -1 <= key_index(es, k) < es.len(),
        key_index(es, k) >= 0 ==> es[key_index(es, k)].0 == k,
        key_index(es, k) < 0 ==> forall|j: int| 0 <= j < es.len() ==> #[trigger] es[j].0 != k,
        key_index(es, k) >= 0 ==> forall|j: int|
            0 <= j < key_index(es, k) ==> #[trigger] es[j].0 != k,
    decreases es.len(),
{
    if es.len() > 0 {
        let d = es.drop_last();
        lemma_key_index_range(d, k);
        assert forall|j: int| 0 <= j < d.len() implies #[trigger] es[j] == d[j] by {}
    }
}

proof fn lemma_key_index_first(es: Seq<(PaxKey, String)>, k: PaxKey, i: int)
    requires
        0 <= i < es.len(),
        es[i].0 == k,
        key_index(es, k) < 0 || i <= key_index(es, k),
    ensures
        key_index(es, k) == i,
{
    lemma_key_index_range(es, k);
}

proof fn lemma_key_index_skip(es: Seq<(PaxKey, String)>, k: PaxKey, i: int)
    requires
        0 <= i < es.len(),
        es[i].0 != k,
        key_index(es, k) < 0 || i <= key_index(es, k),
    ensures
        key_index(es, k) < 0 || i + 1 <= key_index(es, k),
{
    lemma_key_index_range(es, k);
}

} // verus!
