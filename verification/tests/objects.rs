use fit::bytemap::ByteMap;
use fit::error::FitError;
use fit::history::cat_file_workflow;
use fit::object::{
    decode_object, encode_object, name_of, object_id, object_path, read_object, write_object,
    ObjectKind,
};
use fit::render::{decimal, hex};
use fit::repo::Repository;
use fit::tree::{create_empty_tree, create_tree_object, get_tree_files, render_tree};
use std::io::Read;

fn b(s: &str) -> Vec<u8> {
    s.as_bytes().to_vec()
}

#[test]
fn decimal_renders_digits() {
    assert_eq!(decimal(0), b("0"));
    assert_eq!(decimal(7), b("7"));
    assert_eq!(decimal(10), b("10"));
    assert_eq!(decimal(1234567890), b("1234567890"));
}

#[test]
fn hex_renders_lowercase_pairs() {
    assert_eq!(hex(&[]), b(""));
    assert_eq!(hex(&[0x00, 0x0f, 0xa0, 0xff, 0x9c]), b("000fa0ff9c"));
}

#[test]
fn kind_names() {
    assert_eq!(name_of(ObjectKind::Blob), b("blob"));
    assert_eq!(name_of(ObjectKind::Tree), b("tree"));
    assert_eq!(name_of(ObjectKind::Commit), b("commit"));
}

#[test]
fn encode_prepends_header() {
    assert_eq!(encode_object(b"hello\n", ObjectKind::Blob), b"blob 6\0hello\n".to_vec());
    assert_eq!(encode_object(b"", ObjectKind::Tree), b"tree 0\0".to_vec());
    assert_eq!(encode_object(b"0123456789ab", ObjectKind::Commit), b"commit 12\x000123456789ab".to_vec());
}

#[test]
fn decode_splits_at_first_nul() {
    assert_eq!(decode_object(b"blob 6\0hello\n"), Some((b("blob"), b("hello\n"))));
    assert_eq!(decode_object(b"tree 0\0"), Some((b("tree"), b(""))));
    assert_eq!(decode_object(b"blob 3\0a\0b"), Some((b("blob"), b"a\0b".to_vec())));
    assert_eq!(decode_object(b"word\0rest"), Some((b("word"), b("rest"))));
    assert_eq!(decode_object(b"no header"), None);
    assert_eq!(decode_object(b""), None);
}

#[test]
fn decode_does_not_check_the_length() {
    assert_eq!(decode_object(b"blob 99\0abc"), Some((b("blob"), b("abc"))));
}

#[test]
fn object_id_is_sha1_in_hex() {
    assert_eq!(object_id(b"blob 6\0hello\n"), b("ce013625030ba8dba906f756967f9e9ca394464a"));
    assert_eq!(object_id(b"tree 0\0"), b("4b825dc642cb6eb9a060e54bf8d69288fbee4904"));
    assert_eq!(object_id(b""), b("da39a3ee5e6b4b0d3255bfef95601890afd80709"));
}

#[test]
fn put_then_get_gives_the_object_back() {
    let mut objects = ByteMap::new();
    let hash = write_object(&mut objects, b"hello\n", ObjectKind::Blob).unwrap();
    assert_eq!(hash, b("ce013625030ba8dba906f756967f9e9ca394464a"));
    assert_eq!(hash.len(), 40);
    assert_eq!(read_object(&objects, &hash).unwrap(), Some((b("blob"), b("hello\n"))));
}

#[test]
fn put_is_idempotent() {
    let mut objects = ByteMap::new();
    let first = write_object(&mut objects, b"same", ObjectKind::Blob).unwrap();
    let stored = objects.get(&first).cloned();
    let second = write_object(&mut objects, b"same", ObjectKind::Blob).unwrap();
    assert_eq!(first, second);
    assert_eq!(objects.len(), 1);
    assert_eq!(objects.get(&first).cloned(), stored);
}

#[test]
fn kind_is_part_of_the_identity() {
    let mut objects = ByteMap::new();
    let blob = write_object(&mut objects, b"", ObjectKind::Blob).unwrap();
    let tree = write_object(&mut objects, b"", ObjectKind::Tree).unwrap();
    assert_ne!(blob, tree);
    assert_eq!(blob, b("e69de29bb2d1d6434b8b29ae775ad8c2e48c5391"));
    assert_eq!(objects.len(), 2);
    assert_eq!(read_object(&objects, &blob).unwrap(), Some((b("blob"), b(""))));
    assert_eq!(read_object(&objects, &tree).unwrap(), Some((b("tree"), b(""))));
}

#[test]
fn later_puts_leave_stored_bytes_alone() {
    let mut objects = ByteMap::new();
    let first = write_object(&mut objects, b"one", ObjectKind::Blob).unwrap();
    let stored = objects.get(&first).cloned().unwrap();
    write_object(&mut objects, b"two", ObjectKind::Blob).unwrap();
    write_object(&mut objects, b"three", ObjectKind::Commit).unwrap();
    assert_eq!(objects.get(&first).cloned().unwrap(), stored);
}

#[test]
fn stored_form_is_a_zlib_stream_of_the_raw_form() {
    let mut objects = ByteMap::new();
    let content = b"aaaaaaaaaaaaaaaaaaaaaaaaaaaaaaaaaaaaaaaaaaaaaaaaaaaaaaaaaaaaaaaa";
    let hash = write_object(&mut objects, content, ObjectKind::Blob).unwrap();
    let stored = objects.get(&hash).cloned().unwrap();
    let raw = encode_object(content, ObjectKind::Blob);
    assert_ne!(stored, raw);
    assert!(stored.len() < raw.len());
    assert_eq!(stored[0], 0x78);
    let mut inflated = Vec::new();
    flate2::read::ZlibDecoder::new(&stored[..]).read_to_end(&mut inflated).unwrap();
    assert_eq!(inflated, raw);
}

#[test]
fn get_of_absent_hash_is_none() {
    let objects = ByteMap::new();
    assert_eq!(read_object(&objects, b"ce013625030ba8dba906f756967f9e9ca394464a").unwrap(), None);
    assert_eq!(read_object(&objects, b"").unwrap(), None);
    assert_eq!(read_object(&objects, b"c").unwrap(), None);
}

#[test]
fn get_of_garbage_is_io_error() {
    let mut objects = ByteMap::new();
    objects.insert(b("abc"), b("this is no zlib stream"));
    assert_eq!(read_object(&objects, b"abc"), Err(FitError::Io));
}

#[test]
fn get_of_stream_without_header_is_invalid_data() {
    let mut objects = ByteMap::new();
    let mut encoder =
        flate2::write::ZlibEncoder::new(Vec::new(), flate2::Compression::default());
    std::io::Write::write_all(&mut encoder, b"no nul byte here").unwrap();
    objects.insert(b("abc"), encoder.finish().unwrap());
    assert_eq!(read_object(&objects, b"abc"), Err(FitError::InvalidData));
}

#[test]
fn cat_file_reads_kind_and_payload() {
    let mut repo = Repository::new(ByteMap::new());
    let hash = write_object(&mut repo.objects, b"text", ObjectKind::Blob).unwrap();
    assert_eq!(cat_file_workflow(&repo, &hash).unwrap(), Some((b("blob"), b("text"))));
    assert_eq!(cat_file_workflow(&repo, b"0000").unwrap(), None);
}

#[test]
fn empty_tree_has_the_known_hash() {
    let mut objects = ByteMap::new();
    let hash = create_empty_tree(&mut objects).unwrap();
    assert_eq!(hash, b("4b825dc642cb6eb9a060e54bf8d69288fbee4904"));
    assert_eq!(read_object(&objects, &hash).unwrap(), Some((b("tree"), b(""))));
}

#[test]
fn tree_rows_are_byte_exact() {
    let mut index = ByteMap::new();
    index.insert(b("a.txt"), b("ce013625030ba8dba906f756967f9e9ca394464a"));
    index.insert(b("dir/b.txt"), b("e69de29bb2d1d6434b8b29ae775ad8c2e48c5391"));
    assert_eq!(
        render_tree(&index),
        b("100644 blob ce013625030ba8dba906f756967f9e9ca394464a a.txt\n100644 blob e69de29bb2d1d6434b8b29ae775ad8c2e48c5391 dir/b.txt\n")
    );
    assert_eq!(render_tree(&ByteMap::new()), b(""));
}

#[test]
fn tree_round_trip() {
    let mut objects = ByteMap::new();
    let mut index = ByteMap::new();
    index.insert(b("a.txt"), b("ce013625030ba8dba906f756967f9e9ca394464a"));
    index.insert(b("dir/b.txt"), b("e69de29bb2d1d6434b8b29ae775ad8c2e48c5391"));
    let hash = create_tree_object(&mut objects, &index).unwrap();
    let files = get_tree_files(&objects, &hash).unwrap();
    assert_eq!(files.len(), 2);
    assert_eq!(files.get(b"a.txt").cloned(), Some(b("ce013625030ba8dba906f756967f9e9ca394464a")));
    assert_eq!(
        files.get(b"dir/b.txt").cloned(),
        Some(b("e69de29bb2d1d6434b8b29ae775ad8c2e48c5391"))
    );
    assert_eq!(files.key_at(0), &b("a.txt"));
    assert_eq!(files.key_at(1), &b("dir/b.txt"));
}

#[test]
fn tree_files_errors() {
    let mut objects = ByteMap::new();
    assert_eq!(get_tree_files(&objects, b"missing").err(), Some(FitError::NotFound));
    let bad = write_object(&mut objects, b"100644 blob onlythree\n", ObjectKind::Tree).unwrap();
    assert_eq!(get_tree_files(&objects, &bad).err(), Some(FitError::InvalidData));
}

#[test]
fn object_files_fan_out_by_the_first_two_digits() {
    assert_eq!(
        object_path(b"ce013625030ba8dba906f756967f9e9ca394464a"),
        Some((b("ce"), b("013625030ba8dba906f756967f9e9ca394464a")))
    );
    assert_eq!(object_path(b"ab"), Some((b("ab"), b(""))));
    assert_eq!(object_path(b"a"), None);
    assert_eq!(object_path(b""), None);
}
