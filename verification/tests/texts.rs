use fit::bytes::{bytes_eq, copy_range, find_byte, is_space, skip, starts_with};
use fit::text::{join, split_lines, split_tokens, trim};

fn b(s: &str) -> Vec<u8> {
    s.as_bytes().to_vec()
}

fn list(items: &[&str]) -> Vec<Vec<u8>> {
    items.iter().map(|s| b(s)).collect()
}

#[test]
fn space_bytes() {
    for c in [b' ', b'\t', b'\n', 0x0b, 0x0c, b'\r'] {
        assert!(is_space(c));
    }
    for c in [b'a', b'0', 0u8, 8u8, 14u8, 31u8, 33u8, 0xa0, 0xff] {
        assert!(!is_space(c));
    }
}

#[test]
fn equality_and_prefix() {
    assert!(bytes_eq(b"abc", b"abc"));
    assert!(bytes_eq(b"", b""));
    assert!(!bytes_eq(b"abc", b"abd"));
    assert!(!bytes_eq(b"abc", b"ab"));
    assert!(starts_with(b"parent abc", b"parent "));
    assert!(starts_with(b"abc", b""));
    assert!(starts_with(b"abc", b"abc"));
    assert!(!starts_with(b"ab", b"abc"));
    assert!(!starts_with(b"xbc", b"ab"));
}

#[test]
fn find_and_skip() {
    assert_eq!(find_byte(b"a\nb\n", b'\n', 0), 1);
    assert_eq!(find_byte(b"a\nb\n", b'\n', 2), 3);
    assert_eq!(find_byte(b"abc", b'\n', 0), 3);
    assert_eq!(find_byte(b"abc", b'a', 3), 3);
    assert_eq!(skip(b"  ab cd", true, 0), 2);
    assert_eq!(skip(b"  ab cd", false, 2), 4);
    assert_eq!(skip(b"ab", false, 0), 2);
    assert_eq!(skip(b"ab", true, 0), 0);
    assert_eq!(copy_range(b"hello", 1, 3), b("el"));
}

#[test]
fn lines_split_at_line_feeds() {
    assert_eq!(split_lines(b""), list(&[]));
    assert_eq!(split_lines(b"a"), list(&["a"]));
    assert_eq!(split_lines(b"a\n"), list(&["a"]));
    assert_eq!(split_lines(b"a\nb"), list(&["a", "b"]));
    assert_eq!(split_lines(b"a\n\nb\n"), list(&["a", "", "b"]));
    assert_eq!(split_lines(b"\n"), list(&[""]));
    assert_eq!(split_lines(b"\n\n"), list(&["", ""]));
}

#[test]
fn lines_drop_a_carriage_return_before_the_line_feed() {
    assert_eq!(split_lines(b"a\r\nb\r\n"), list(&["a", "b"]));
    assert_eq!(split_lines(b"a\rb\n"), list(&["a\rb"]));
    assert_eq!(split_lines(b"a\r\r\n"), list(&["a\r"]));
}

#[test]
fn tokens_are_runs_without_white_space() {
    assert_eq!(split_tokens(b""), list(&[]));
    assert_eq!(split_tokens(b"   \t\n"), list(&[]));
    assert_eq!(split_tokens(b"abc"), list(&["abc"]));
    assert_eq!(split_tokens(b"  a  bb\tccc \r"), list(&["a", "bb", "ccc"]));
    assert_eq!(
        split_tokens(b"100644 blob ce01 a.txt"),
        list(&["100644", "blob", "ce01", "a.txt"])
    );
}

#[test]
fn trim_strips_both_ends() {
    assert_eq!(trim(b""), b(""));
    assert_eq!(trim(b" \n\t "), b(""));
    assert_eq!(trim(b"abc"), b("abc"));
    assert_eq!(trim(b"  a b \n"), b("a b"));
    assert_eq!(trim(b"ref: refs/heads/master\n"), b("ref: refs/heads/master"));
}

#[test]
fn join_puts_the_separator_between() {
    assert_eq!(join(&list(&[]), b"\n"), b(""));
    assert_eq!(join(&list(&["a"]), b"\n"), b("a"));
    assert_eq!(join(&list(&["a", "b", "c"]), b"\n"), b("a\nb\nc"));
    assert_eq!(join(&list(&["a", "", "c"]), b", "), b("a, , c"));
}

#[test]
fn lines_of_joined_hashes_are_the_hashes() {
    let hashes = list(&["aa11", "bb22", "cc33"]);
    assert_eq!(split_lines(&join(&hashes, b"\n")), hashes);
}
