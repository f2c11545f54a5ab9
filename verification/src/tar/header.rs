//! The 512-byte ustar header block.
use vstd::prelude::*;
use vstd::string::*;

use crate::tar::utils::{field_bytes, field_value, fixed_bytes, octal_digits, to_field, to_fixed};

verus! {

/// The type of a tar entry, stored in the header as one byte.
#[derive(Clone, Copy, Debug, PartialEq, Eq, Structural)]
pub enum TarFileType {
    /// regular file
    RegType,
    /// regular file (old)
    ARegType,
    /// link
    LnkType,
    /// symlink
    SymType,
    /// character special
    ChrType,
    /// block special
    BlkType,
    /// directory
    DirType,
    /// FIFO special
    FifoType,
    /// reserved
    ContType,
    /// Extended header referring to the next file in the archive
    XhdType,
    /// Global extended header
    XglType,
}

/// The byte that stands for `t` in the `typeflag` field.
pub open spec fn type_byte(t: TarFileType) -> u8 {
    match t {
        TarFileType::RegType => 48u8,
        TarFileType::ARegType => 0u8,
        TarFileType::LnkType => 49u8,
        TarFileType::SymType => 50u8,
        TarFileType::ChrType => 51u8,
        TarFileType::BlkType => 52u8,
        TarFileType::DirType => 53u8,
        TarFileType::FifoType => 54u8,
        TarFileType::ContType => 55u8,
        TarFileType::XhdType => 120u8,
        TarFileType::XglType => 103u8,
    }
}

impl TarFileType {
    /// The byte that stands for this type in the `typeflag` field.
    pub fn as_byte(&self) -> (r: u8)
        ensures
            r == type_byte(*self),
    {
        match self {
            TarFileType::RegType => 48u8,
            TarFileType::ARegType => 0u8,
            TarFileType::LnkType => 49u8,
            TarFileType::SymType => 50u8,
            TarFileType::ChrType => 51u8,
            TarFileType::BlkType => 52u8,
            TarFileType::DirType => 53u8,
            TarFileType::FifoType => 54u8,
            TarFileType::ContType => 55u8,
            TarFileType::XhdType => 120u8,
            TarFileType::XglType => 103u8,
        }
    }
}

/// A ustar header block. Numeric fields hold octal digits in ASCII.
#[derive(Debug, Clone, Copy)]
pub struct TarHeader {
    /// File name, left-aligned.
    pub name: [u8; 100],
    /// File mode, octal, ended by a space and a NUL.
    pub mode: [u8; 8],
    /// Owner id, octal, ended by a space and a NUL.
    pub uid: [u8; 8],
    /// Group id, octal, ended by a space and a NUL.
    pub gid: [u8; 8],
    /// Content size, octal, ended by a space.
    pub size: [u8; 12],
    /// Modification time, octal, ended by a space.
    pub mtime: [u8; 12],
    /// Checksum of the header, octal, ended by a NUL and a space.
    pub chksum: [u8; 8],
    /// Entry type.
    pub typeflag: u8,
    /// Target of a link.
    pub linkname: [u8; 100],
    /// Always `ustar\0`.
    pub magic: [u8; 6],
    /// Always `00`.
    pub version: [u8; 2],
    /// Owner name.
    pub uname: [u8; 32],
    /// Group name.
    pub gname: [u8; 32],
    /// Device major number.
    pub devmajor: [u8; 8],
    /// Device minor number.
    pub devminor: [u8; 8],
    /// Path prefix, joined to the name with `/`.
    pub prefix: [u8; 155],
    /// Zeros up to 512 bytes.
    pub padding: [u8; 12],
}

/// The 512 bytes of a header whose checksum field holds `chksum`.
pub open spec fn header_bytes_with(h: TarHeader, chksum: Seq<u8>) -> Seq<u8> {
    h.name@ + h.mode@ + h.uid@ + h.gid@ + h.size@ + h.mtime@ + chksum + seq![h.typeflag]
        + h.linkname@ + h.magic@ + h.version@ + h.uname@ + h.gname@ + h.devmajor@ + h.devminor@
        + h.prefix@ + h.padding@
}

/// The 512 bytes of a header, field after field.
pub open spec fn header_bytes(h: TarHeader) -> Seq<u8> {
    header_bytes_with(h, h.chksum@)
}

/// The ustar layout of a header block: each field at its standard offset
/// (name 0, mode 100, uid 108, gid 116, size 124, mtime 136, chksum 148,
/// typeflag 156, linkname 157, magic 257, version 263, uname 265, gname 297,
/// devmajor 329, devminor 337, prefix 345, then zeros from 500 to 512).
pub proof fn lemma_header_layout(h: TarHeader)
    ensures
        header_bytes(h).len() == 512,
        header_bytes(h).subrange(0, 100) == h.name@,
        header_bytes(h).subrange(100, 108) == h.mode@,
        header_bytes(h).subrange(108, 116) == h.uid@,
        header_bytes(h).subrange(116, 124) == h.gid@,
        header_bytes(h).subrange(124, 136) == h.size@,
        header_bytes(h).subrange(136, 148) == h.mtime@,
        header_bytes(h).subrange(148, 156) == h.chksum@,
        header_bytes(h)[156] == h.typeflag,
        header_bytes(h).subrange(157, 257) == h.linkname@,
        header_bytes(h).subrange(257, 263) == h.magic@,
        header_bytes(h).subrange(263, 265) == h.version@,
        header_bytes(h).subrange(265, 297) == h.uname@,
        header_bytes(h).subrange(297, 329) == h.gname@,
        header_bytes(h).subrange(329, 337) == h.devmajor@,
        header_bytes(h).subrange(337, 345) == h.devminor@,
        header_bytes(h).subrange(345, 500) == h.prefix@,
        header_bytes(h).subrange(500, 512) == h.padding@,
{
    let b = header_bytes(h);
    assert(b.len() == 512);
    assert(b.subrange(0, 100) =~= h.name@);
    assert(b.subrange(100, 108) =~= h.mode@);
    assert(b.subrange(108, 116) =~= h.uid@);
    assert(b.subrange(116, 124) =~= h.gid@);
    assert(b.subrange(124, 136) =~= h.size@);
    assert(b.subrange(136, 148) =~= h.mtime@);
    assert(b.subrange(148, 156) =~= h.chksum@);
    assert(b.subrange(157, 257) =~= h.linkname@);
    assert(b.subrange(257, 263) =~= h.magic@);
    assert(b.subrange(263, 265) =~= h.version@);
    assert(b.subrange(265, 297) =~= h.uname@);
    assert(b.subrange(297, 329) =~= h.gname@);
    assert(b.subrange(329, 337) =~= h.devmajor@);
    assert(b.subrange(337, 345) =~= h.devminor@);
    assert(b.subrange(345, 500) =~= h.prefix@);
    assert(b.subrange(500, 512) =~= h.padding@);
}

/// Sum of the bytes of `s`.
pub open spec fn byte_sum(s: Seq<u8>) -> nat
    decreases s.len(),
{
    if s.len() == 0 {
        0
    } else {
        byte_sum(s.drop_last()) + (s.last() as nat)
    }
}

/// The header checksum: the sum of the header's bytes with the checksum field
/// counted as eight spaces.
pub open spec fn header_checksum(h: TarHeader) -> nat {
    byte_sum(header_bytes_with(h, Seq::new(8, |i: int| 32u8)))
}

/// All fields but the checksum are the same.
pub open spec fn same_but_checksum(a: TarHeader, b: TarHeader) -> bool {
    &&& a.name@ == b.name@
    &&& a.mode@ == b.mode@
    &&& a.uid@ == b.uid@
    &&& a.gid@ == b.gid@
    &&& a.size@ == b.size@
    &&& a.mtime@ == b.mtime@
    &&& a.typeflag == b.typeflag
    &&& a.linkname@ == b.linkname@
    &&& a.magic@ == b.magic@
    &&& a.version@ == b.version@
    &&& a.uname@ == b.uname@
    &&& a.gname@ == b.gname@
    &&& a.devmajor@ == b.devmajor@
    &&& a.devminor@ == b.devminor@
    &&& a.prefix@ == b.prefix@
    &&& a.padding@ == b.padding@
}

/// `ustar` followed by a NUL.
pub open spec fn ustar_magic() -> Seq<u8> {
    seq![117u8, 115u8, 116u8, 97u8, 114u8, 0u8]
}

/// `000000 ` followed by a NUL.
pub open spec fn zero_device() -> Seq<u8> {
    seq![48u8, 48u8, 48u8, 48u8, 48u8, 48u8, 32u8, 0u8]
}

/// The header that every entry starts from: all zeros, but for the checksum
/// (spaces), the magic, the version and the device numbers.
pub open spec fn is_default_header(h: TarHeader) -> bool {
    &&& h.name@ == Seq::new(100, |i: int| 0u8)
    &&& h.mode@ == Seq::new(8, |i: int| 0u8)
    &&& h.uid@ == Seq::new(8, |i: int| 0u8)
    &&& h.gid@ == Seq::new(8, |i: int| 0u8)
    &&& h.size@ == Seq::new(12, |i: int| 0u8)
    &&& h.mtime@ == Seq::new(12, |i: int| 0u8)
    &&& h.chksum@ == Seq::new(8, |i: int| 32u8)
    &&& h.typeflag == 0
    &&& h.linkname@ == Seq::new(100, |i: int| 0u8)
    &&& h.magic@ == ustar_magic()
    &&& h.version@ == seq![48u8, 48u8]
    &&& h.uname@ == Seq::new(32, |i: int| 0u8)
    &&& h.gname@ == Seq::new(32, |i: int| 0u8)
    &&& h.devmajor@ == zero_device()
    &&& h.devminor@ == zero_device()
    &&& h.prefix@ == Seq::new(155, |i: int| 0u8)
    &&& h.padding@ == Seq::new(12, |i: int| 0u8)
}

/// `h` is the header of an entry with the given fields: names and prefix cut
/// or zero-filled to their fields, numbers in octal, all other fields as in
/// the default header, and a checksum that matches the other bytes.
pub open spec fn is_entry_header(
    h: TarHeader,
    name: Seq<u8>,
    prefix: Seq<u8>,
    mode: u64,
    uid: u64,
    gid: u64,
    size: u64,
    mtime: u64,
    typeflag: u8,
    uname: Seq<u8>,
    gname: Seq<u8>,
) -> bool {
    &&& h.name@ == fixed_bytes(name, 100)
    &&& h.mode@ == field_bytes(mode, 8, seq![32u8, 0u8])
    &&& h.uid@ == field_bytes(uid, 8, seq![32u8, 0u8])
    &&& h.gid@ == field_bytes(gid, 8, seq![32u8, 0u8])
    &&& h.size@ == field_bytes(size, 12, seq![32u8])
    &&& h.mtime@ == field_bytes(mtime, 12, seq![32u8])
    &&& h.typeflag == typeflag
    &&& h.linkname@ == Seq::new(100, |i: int| 0u8)
    &&& h.magic@ == ustar_magic()
    &&& h.version@ == seq![48u8, 48u8]
    &&& h.uname@ == fixed_bytes(uname, 32)
    &&& h.gname@ == fixed_bytes(gname, 32)
    &&& h.devmajor@ == zero_device()
    &&& h.devminor@ == zero_device()
    &&& h.prefix@ == fixed_bytes(prefix, 155)
    &&& h.padding@ == Seq::new(12, |i: int| 0u8)
    &&& h.chksum@ == octal_digits(header_checksum(h), 6) + seq![0u8, 32u8]
}

/// Appends `src` to `out`.
fn extend_bytes(out: &mut Vec<u8>, src: &[u8])
    ensures
        final(out)@ == old(out)@ + src@,
{
    let ghost start = out@;
    let mut i: usize = 0;
    while i < src.len()
        invariant
            i <= src@.len(),
            out@ == start + src@.take(i as int),
        decreases src@.len() - i,
    {
        out.push(src[i]);
        i = i + 1;
        assert(out@ =~= start + src@.take(i as int));
    }
    assert(src@.take(i as int) =~= src@);
}

proof fn lemma_ascii_literal_bytes()
    ensures
        " \0".spec_bytes() == seq![32u8, 0u8],
        " ".spec_bytes() == seq![32u8],
        "ustar".spec_bytes() == seq![117u8, 115u8, 116u8, 97u8, 114u8],
        "00".spec_bytes() == seq![48u8, 48u8],
        "000000 ".spec_bytes() == seq![48u8, 48u8, 48u8, 48u8, 48u8, 48u8, 32u8],
{
    reveal_strlit(" \0");
    reveal_strlit(" ");
    assert(is_ascii(" \0"));
    assert(is_ascii(" "));
    is_ascii_spec_bytes(" \0");
    is_ascii_spec_bytes(" ");
    assert(" \0".spec_bytes() =~= seq![32u8, 0u8]);
    assert(" ".spec_bytes() =~= seq![32u8]);
    reveal_strlit("ustar");
    reveal_strlit("00");
    reveal_strlit("000000 ");
    assert(is_ascii("ustar"));
    assert(is_ascii("00"));
    assert(is_ascii("000000 "));
    is_ascii_spec_bytes("ustar");
    is_ascii_spec_bytes("00");
    is_ascii_spec_bytes("000000 ");
    assert("ustar".spec_bytes() =~= seq![117u8, 115u8, 116u8, 97u8, 114u8]);
    assert("00".spec_bytes() =~= seq![48u8, 48u8]);
    assert("000000 ".spec_bytes() =~= seq![48u8, 48u8, 48u8, 48u8, 48u8, 48u8, 32u8]);
}

impl Default for TarHeader {
    fn default() -> (r: Self)
        ensures
            is_default_header(r),
    {
        proof {
            lemma_ascii_literal_bytes();
        }
        let r = Self {
            name: [0; 100],
            mode: [0; 8],
            uid: [0; 8],
            gid: [0; 8],
            size: [0; 12],
            mtime: [0; 12],
            chksum: [32u8; 8],
            typeflag: 0,
            linkname: [0; 100],
            magic: to_fixed("ustar".as_bytes()),
            version: to_fixed("00".as_bytes()),
            uname: [0; 32],
            gname: [0; 32],
            devmajor: to_fixed("000000 ".as_bytes()),
            devminor: to_fixed("000000 ".as_bytes()),
            prefix: [0; 155],
            padding: [0; 12],
        };
        assert(r.name@ =~= Seq::new(100, |i: int| 0u8));
        assert(r.mode@ =~= Seq::new(8, |i: int| 0u8));
        assert(r.uid@ =~= Seq::new(8, |i: int| 0u8));
        assert(r.gid@ =~= Seq::new(8, |i: int| 0u8));
        assert(r.size@ =~= Seq::new(12, |i: int| 0u8));
        assert(r.mtime@ =~= Seq::new(12, |i: int| 0u8));
        assert(r.chksum@ =~= Seq::new(8, |i: int| 32u8));
        assert(r.linkname@ =~= Seq::new(100, |i: int| 0u8));
        assert(r.magic@ =~= ustar_magic());
        assert(r.version@ =~= seq![48u8, 48u8]);
        assert(r.uname@ =~= Seq::new(32, |i: int| 0u8));
        assert(r.gname@ =~= Seq::new(32, |i: int| 0u8));
        assert(r.devmajor@ =~= zero_device());
        assert(r.devminor@ =~= zero_device());
        assert(r.prefix@ =~= Seq::new(155, |i: int| 0u8));
        assert(r.padding@ =~= Seq::new(12, |i: int| 0u8));
        r
    }
}

impl TarHeader {
    /// Fills the checksum field: the sum of all header bytes, with the
    /// checksum field counted as eight spaces, in six octal digits followed by
    /// a NUL and a space.
    pub fn calc_checksum(&mut self)
        ensures
            same_but_checksum(*old(self), *final(self)),
            final(self).chksum@ == field_bytes(header_checksum(*old(self)) as u64, 8, seq![0u8, 32u8]),
            final(self).chksum@ == octal_digits(header_checksum(*old(self)), 6) + seq![0u8, 32u8],
    {
        let spaces: [u8; 8] = [32u8; 8];
        self.chksum = to_fixed(spaces.as_slice());
        assert(self.chksum@ =~= Seq::new(8, |i: int| 32u8));
        let bytes = self.as_bytes();
        let mut sum: u64 = 0;
        let mut i: usize = 0;
        while i < bytes.len()
            invariant
                i <= bytes@.len(),
                bytes@.len() == 512,
                sum == byte_sum(bytes@.take(i as int)),
                sum <= 255 * i,
            decreases bytes@.len() - i,
        {
            assert(bytes@.take(i + 1).drop_last() =~= bytes@.take(i as int));
            sum = sum + bytes[i] as u64;
            i = i + 1;
        }
        assert(bytes@.take(i as int) =~= bytes@);
        proof {
            reveal_strlit("\0 ");
            assert(is_ascii("\0 "));
            is_ascii_spec_bytes("\0 ");
            assert("\0 ".spec_bytes() =~= seq![0u8, 32u8]);
            assert(bytes@ =~= header_bytes_with(*old(self), Seq::new(8, |i: int| 32u8)));
        }
        let field = to_field(sum, 8, "\0 ");
        self.chksum = to_fixed(field.as_slice());
        assert(self.chksum@ =~= field@);
        proof {
            assert(field_value(sum, 6) == sum as nat) by {
                assert(crate::tar::utils::pow8(6) == 262144) by {
                    reveal_with_fuel(crate::tar::utils::pow8, 7);
                }
            }
        }
    }

    /// The header of an entry with the given fields, checksum filled in.
    pub fn for_entry(
        name: &[u8],
        prefix: &[u8],
        mode: u64,
        uid: u64,
        gid: u64,
        size: u64,
        mtime: u64,
        typeflag: u8,
        uname: &[u8],
        gname: &[u8],
    ) -> (h: TarHeader)
        ensures
            is_entry_header(h, name@, prefix@, mode, uid, gid, size, mtime, typeflag, uname@, gname@),
    {
        proof {
            lemma_ascii_literal_bytes();
        }
        let mut h = TarHeader::default();
        h.name = to_fixed(name);
        let f = to_field(mode, 8, " \0");
        h.mode = to_fixed(f.as_slice());
        assert(h.mode@ =~= f@);
        let f = to_field(uid, 8, " \0");
        h.uid = to_fixed(f.as_slice());
        assert(h.uid@ =~= f@);
        let f = to_field(gid, 8, " \0");
        h.gid = to_fixed(f.as_slice());
        assert(h.gid@ =~= f@);
        let f = to_field(size, 12, " ");
        h.size = to_fixed(f.as_slice());
        assert(h.size@ =~= f@);
        let f = to_field(mtime, 12, " ");
        h.mtime = to_fixed(f.as_slice());
        assert(h.mtime@ =~= f@);
        h.typeflag = typeflag;
        h.uname = to_fixed(uname);
        h.gname = to_fixed(gname);
        h.prefix = to_fixed(prefix);
        let ghost before = h;
        h.calc_checksum();
        assert(header_bytes_with(h, Seq::new(8, |i: int| 32u8)) =~= header_bytes_with(
            before,
            Seq::new(8, |i: int| 32u8),
        ));
        h
    }

    /// The 512 bytes of the header block.
    pub fn as_bytes(&self) -> (r: Vec<u8>)
        ensures
            r@ == header_bytes(*self),
            r@.len() == 512,
            r@.subrange(0, 100) == self.name@,
            r@.subrange(100, 108) == self.mode@,
            r@.subrange(108, 116) == self.uid@,
            r@.subrange(116, 124) == self.gid@,
            r@.subrange(124, 136) == self.size@,
            r@.subrange(136, 148) == self.mtime@,
            r@.subrange(148, 156) == self.chksum@,
            r@[156] == self.typeflag,
            r@.subrange(157, 257) == self.linkname@,
            r@.subrange(257, 263) == self.magic@,
            r@.subrange(263, 265) == self.version@,
            r@.subrange(265, 297) == self.uname@,
            r@.subrange(297, 329) == self.gname@,
            r@.subrange(329, 337) == self.devmajor@,
            r@.subrange(337, 345) == self.devminor@,
            r@.subrange(345, 500) == self.prefix@,
            r@.subrange(500, 512) == self.padding@,
    {
        proof {
            lemma_header_layout(*self);
        }
        let mut out: Vec<u8> = Vec::new();
        extend_bytes(&mut out, self.name.as_slice());
        extend_bytes(&mut out, self.mode.as_slice());
        extend_bytes(&mut out, self.uid.as_slice());
        extend_bytes(&mut out, self.gid.as_slice());
        extend_bytes(&mut out, self.size.as_slice());
        extend_bytes(&mut out, self.mtime.as_slice());
        extend_bytes(&mut out, self.chksum.as_slice());
        out.push(self.typeflag);
        extend_bytes(&mut out, self.linkname.as_slice());
        extend_bytes(&mut out, self.magic.as_slice());
        extend_bytes(&mut out, self.version.as_slice());
        extend_bytes(&mut out, self.uname.as_slice());
        extend_bytes(&mut out, self.gname.as_slice());
        extend_bytes(&mut out, self.devmajor.as_slice());
        extend_bytes(&mut out, self.devminor.as_slice());
        extend_bytes(&mut out, self.prefix.as_slice());
        extend_bytes(&mut out, self.padding.as_slice());
        assert(out@ =~= header_bytes(*self));
        out
    }
}

} // verus!
