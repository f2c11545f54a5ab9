use file_types::tar::header::{TarFileType, TarHeader};
use file_types::tar::pax::{PaxEntry, PaxKey};
use file_types::tar::{append_root, dir_entry_path, FileKind, FileMeta, Tar, TarEntry};

fn sum(bytes: &[u8]) -> u64 {
    bytes.iter().map(|&b| b as u64).sum()
}

#[test]
fn default_header_fields() {
    let h = TarHeader::default();
    let bytes = h.as_bytes();
    assert_eq!(bytes.len(), 512);
    assert_eq!(&bytes[148..156], b"        ");
    assert_eq!(&bytes[257..263], b"ustar\0");
    assert_eq!(&bytes[263..265], b"00");
    assert_eq!(&bytes[329..337], b"000000 \0");
    assert_eq!(&bytes[337..345], b"000000 \0");
    assert_eq!(sum(&bytes), 1551);
}

#[test]
fn checksum_of_default_header() {
    let mut h = TarHeader::default();
    h.calc_checksum();
    // 8 spaces, "ustar", "00" and the two device fields add up to 0o3017
    assert_eq!(h.chksum, *b"003017\0 ");
    let bytes = h.as_bytes();
    let mut with_spaces = bytes.clone();
    with_spaces[148..156].copy_from_slice(b"        ");
    assert_eq!(sum(&with_spaces), 0o3017);
}

#[test]
fn checksum_counts_the_field_as_spaces() {
    let mut h = TarHeader::default();
    h.name[0] = b'a';
    h.chksum = *b"99999999";
    h.calc_checksum();
    assert_eq!(h.chksum, *b"003160\0 ");
}

#[test]
fn type_bytes() {
    assert_eq!(TarFileType::RegType.as_byte(), b'0');
    assert_eq!(TarFileType::ARegType.as_byte(), 0);
    assert_eq!(TarFileType::DirType.as_byte(), b'5');
    assert_eq!(TarFileType::XhdType.as_byte(), b'x');
    assert_eq!(TarFileType::XglType.as_byte(), b'g');
}

#[test]
fn entry_content_is_padded_to_blocks() {
    let entry = TarEntry { header: TarHeader::default(), content: vec![1, 2, 3] };
    let bytes = entry.as_bytes();
    assert_eq!(bytes.len(), 1024);
    assert_eq!(&bytes[512..515], &[1, 2, 3]);
    assert!(bytes[515..].iter().all(|&b| b == 0));
    let entry = TarEntry { header: TarHeader::default(), content: vec![9; 512] };
    assert_eq!(entry.as_bytes().len(), 1024);
    let entry = TarEntry { header: TarHeader::default(), content: vec![] };
    assert_eq!(entry.as_bytes().len(), 512);
}

#[test]
fn empty_archive_is_two_zero_blocks() {
    let tar = Tar::new();
    let bytes = tar.to_bytes();
    assert_eq!(bytes, vec![0u8; 1024]);
}

fn meta(kind: FileKind, size: u64) -> FileMeta {
    FileMeta { kind, mode: 0o100644, uid: 1000, gid: 100, mtime: 1_700_000_000, size }
}

#[test]
fn append_regular_file() {
    let mut tar = Tar::new();
    assert!(tar.append_file(
        "test/archives/resources/test-text.txt",
        None,
        meta(FileKind::Other, 5),
        "alice".to_string(),
        "users".to_string(),
        b"hello".to_vec(),
    ));
    assert_eq!(tar.entries.len(), 1);
    let h = &tar.entries[0].header;
    assert_eq!(&h.name[..14], b"test-text.txt\0");
    assert_eq!(h.mode, *b"000644 \0");
    assert_eq!(h.uid, *b"001750 \0");
    assert_eq!(h.gid, *b"000144 \0");
    assert_eq!(h.size, *b"00000000005 ");
    assert_eq!(h.mtime, *b"14524770400 ");
    assert_eq!(h.typeflag, b'0');
    assert_eq!(&h.uname[..6], b"alice\0");
    assert_eq!(&h.gname[..6], b"users\0");
    let mut bytes = h.as_bytes();
    let stored = u64::from_str_radix(std::str::from_utf8(&h.chksum[..6]).unwrap(), 8).unwrap();
    bytes[148..156].copy_from_slice(b"        ");
    assert_eq!(sum(&bytes), stored);
    assert_eq!(tar.to_bytes().len(), 512 + 512 + 1024);
}

#[test]
fn append_relative_to_root() {
    let mut tar = Tar::new();
    assert!(tar.append_file(
        "test/archives/resources/sub/file.txt",
        Some("test/archives/"),
        meta(FileKind::Other, 0),
        String::new(),
        String::new(),
        Vec::new(),
    ));
    let h = &tar.entries[0].header;
    assert_eq!(&h.name[..23], b"resources/sub/file.txt\0");
    // a root that does not start the path: the file name is used
    let mut tar = Tar::new();
    assert!(tar.append_file(
        "other/file.txt",
        Some("test/"),
        meta(FileKind::Other, 0),
        String::new(),
        String::new(),
        Vec::new(),
    ));
    assert_eq!(&tar.entries[0].header.name[..9], b"file.txt\0");
    // the root itself: nothing left below it, so the file name
    let mut tar = Tar::new();
    assert!(tar.append_file(
        "test/archives/",
        Some("test/archives/"),
        meta(FileKind::Directory, 0),
        String::new(),
        String::new(),
        Vec::new(),
    ));
    let h = &tar.entries[0].header;
    assert_eq!(&h.name[..9], b"archives\0");
    assert_eq!(h.typeflag, b'5');
    assert_eq!(h.size, *b"00000000000 ");
}

#[test]
fn ds_store_is_left_out() {
    let mut tar = Tar::new();
    assert!(tar.append_file(
        "dir/.DS_Store",
        None,
        meta(FileKind::Other, 3),
        String::new(),
        String::new(),
        vec![1, 2, 3],
    ));
    assert!(tar.entries.is_empty());
}

#[test]
fn negative_time_is_written_as_zero() {
    let mut tar = Tar::new();
    let mut m = meta(FileKind::Fifo, 0);
    m.mtime = -5;
    assert!(tar.append_file("p", None, m, String::new(), String::new(), Vec::new()));
    let h = &tar.entries[0].header;
    assert_eq!(h.mtime, *b"00000000000 ");
    assert_eq!(h.typeflag, b'6');
}

#[test]
fn long_name_gets_a_pax_header() {
    let name = "x".repeat(150);
    let mut tar = Tar::new();
    assert!(tar.append_file(
        &name,
        None,
        meta(FileKind::Other, 0),
        "alice".to_string(),
        "users".to_string(),
        Vec::new(),
    ));
    assert_eq!(tar.entries.len(), 2);
    let pax = &tar.entries[0];
    // "160 path=" + 150 bytes + "\n" is 160 bytes long
    let expected = format!("160 path={}\n", name);
    assert_eq!(pax.content, expected.as_bytes().to_vec());
    assert_eq!(pax.header.typeflag, b'x');
    assert_eq!(pax.header.mode, *b"000644 \0");
    assert_eq!(pax.header.size, *b"00000000240 ");
    assert_eq!(&pax.header.name[..], "x".repeat(100).as_bytes());
    assert_eq!(&pax.header.prefix[..10], b"PaxHeader\0");
    let file = &tar.entries[1];
    assert_eq!(&file.header.name[..], "x".repeat(100).as_bytes());
    assert_eq!(tar.to_bytes().len(), 512 + 512 + 512 + 1024);
}

#[test]
fn pax_entry_with_parent_directory() {
    let mut pax = PaxEntry::new("dir/sub/file.txt".to_string(), 1, 2, 3, String::new(), String::new());
    pax.insert(PaxKey::Path, "a".repeat(3));
    pax.insert(PaxKey::Path, "b".repeat(5));
    assert_eq!(pax.entries.len(), 1);
    pax.insert(PaxKey::Uname, "someone".to_string());
    let entry = pax.to_tar_entry();
    assert_eq!(entry.content, b"14 path=bbbbb\n17 uname=someone\n".to_vec());
    assert_eq!(&entry.header.name[..28], b"dir/sub/PaxHeader/file.txt\0\0");
    assert_eq!(entry.header.typeflag, b'x');
}

#[test]
fn pax_key_names() {
    assert_eq!(PaxKey::Path.name(), "path");
    assert_eq!(PaxKey::Hdrcharset.name(), "hdrcharset");
    assert_eq!(PaxKey::Uname.name(), "uname");
}

#[test]
fn pax_record_length_across_digit_boundary() {
    // "path=" + 91 bytes + "\n" is 97 bytes: two digits would make 100, which
    // has three, so the least length that counts itself is 101
    let mut pax = PaxEntry::new("f".to_string(), 0, 0, 0, String::new(), String::new());
    pax.insert(PaxKey::Path, "y".repeat(91));
    let entry = pax.to_tar_entry();
    let text = String::from_utf8(entry.content.clone()).unwrap();
    assert!(text.starts_with("101 path="));
    assert_eq!(entry.content.len(), 101);
    // 96 bytes after the length: "99 " + 96 = 99
    let mut pax = PaxEntry::new("f".to_string(), 0, 0, 0, String::new(), String::new());
    pax.insert(PaxKey::Path, "y".repeat(90));
    let entry = pax.to_tar_entry();
    let text = String::from_utf8(entry.content.clone()).unwrap();
    assert!(text.starts_with("99 path="));
    assert_eq!(entry.content.len(), 99);
}

#[test]
fn directory_paths_end_on_a_slash() {
    assert_eq!(dir_entry_path("a/b"), "a/b/");
    assert_eq!(dir_entry_path("a/b/"), "a/b/");
    assert_eq!(append_root("test/archives/resources"), Some("test/archives/".to_string()));
    assert_eq!(append_root("file"), Some("/".to_string()));
}

#[test]
fn path_without_file_name_adds_nothing() {
    let mut tar = Tar::new();
    assert!(!tar.append_file("/", None, meta(FileKind::Directory, 0), String::new(), String::new(), Vec::new()));
    assert!(!tar.append_file("a/..", None, meta(FileKind::Directory, 0), String::new(), String::new(), Vec::new()));
    assert!(tar.entries.is_empty());
}

#[test]
fn root_is_removed_once() {
    let mut tar = Tar::new();
    assert!(tar.append_file(
        "x/x/f.txt",
        Some("x/"),
        meta(FileKind::Other, 0),
        String::new(),
        String::new(),
        Vec::new(),
    ));
    assert_eq!(&tar.entries[0].header.name[..8], b"x/f.txt\0");
    let mut tar = Tar::new();
    assert!(tar.append_file(
        "ab//c.txt",
        Some("ab"),
        meta(FileKind::Other, 0),
        String::new(),
        String::new(),
        Vec::new(),
    ));
    assert_eq!(&tar.entries[0].header.name[..6], b"c.txt\0");
}
