use git_transport::object::{
    compute_object_id, decimal_digits, find_byte_from, find_message_start, parse_header_line,
    parse_id_line, parse_tree_entry, starts_with_at, Commit, ObjectType,
};
use git_transport::text::{bytes_equal, char_is_white_space, text_equal, trim_str};

type Id = git_transport::hash::Hash;

const HEX: &str = "95d09f2b10159347eece71399a7e2e907ea3df4f";

#[test]
fn id_is_read_from_and_written_as_forty_digits() {
    let id = Id::new_from_str(HEX).unwrap();
    assert_eq!(id.bytes[0], 0x95);
    assert_eq!(id.bytes[19], 0x4f);
    assert_eq!(id.to_plain_str(), HEX);
    assert_eq!(id.to_hex(), HEX.as_bytes().to_vec());
    assert_eq!(Id::from_hex(&id.to_hex()), Some(id));
}

#[test]
fn id_is_read_in_either_case_and_written_in_lower_case() {
    let upper = HEX.to_uppercase();
    let id = Id::new_from_str(&upper).unwrap();
    assert_eq!(id.to_plain_str(), HEX);
}

#[test]
fn id_needs_exactly_forty_hexadecimal_digits() {
    assert_eq!(Id::new_from_str(""), None);
    assert_eq!(Id::new_from_str(&HEX[..39]), None);
    assert_eq!(Id::new_from_str(&format!("{}0", HEX)), None);
    assert_eq!(Id::new_from_str(&format!("{}g", &HEX[..39])), None);
    assert_eq!(Id::new_from_str(&format!("+{}", &HEX[..39])), None);
    assert_eq!(Id::new_from_str(&format!("{}\u{e9}", &HEX[..38])), None);
}

#[test]
fn id_of_data_is_its_sha1() {
    assert_eq!(Id::new(b"hello world").to_plain_str(), "2aae6c35c94fcfb415dbe95f408b9ce91ee846ed");
    assert_eq!(Id::new(b"").to_plain_str(), "da39a3ee5e6b4b0d3255bfef95601890afd80709");
}

#[test]
fn ids_compare_by_their_bytes() {
    let a = Id::new(b"a");
    let b = Id::new(b"b");
    assert!(a.same(&a));
    assert!(!a.same(&b));
    assert!(Id::zero().is_zero());
    assert!(!a.is_zero());
    assert_eq!(Id::zero().bytes, [0u8; 20]);
}

#[test]
fn length_in_the_header_is_decimal() {
    assert_eq!(decimal_digits(0), b"0".to_vec());
    assert_eq!(decimal_digits(9), b"9".to_vec());
    assert_eq!(decimal_digits(10), b"10".to_vec());
    assert_eq!(decimal_digits(65535), b"65535".to_vec());
    assert_eq!(decimal_digits(1203), b"1203".to_vec());
    let data = vec![b'x'; 1203];
    let mut framed = b"blob 1203\0".to_vec();
    framed.extend_from_slice(&data);
    assert_eq!(compute_object_id(ObjectType::Blob, &data), Id::new(&framed));
}

#[test]
fn type_name_goes_into_the_id() {
    let data = b"same bytes";
    let mut ids = vec![
        compute_object_id(ObjectType::Commit, data),
        compute_object_id(ObjectType::Tree, data),
        compute_object_id(ObjectType::Blob, data),
        compute_object_id(ObjectType::Tag, data),
        compute_object_id(ObjectType::OfsDelta, data),
        compute_object_id(ObjectType::RefDelta, data),
    ];
    assert_eq!(ids[3], Id::new(b"tag 10\0same bytes"));
    assert_eq!(ids[0], Id::new(b"commit 10\0same bytes"));
    ids.sort_by_key(|id| id.bytes);
    ids.dedup();
    assert_eq!(ids.len(), 6);
}

#[test]
fn bytes_are_searched_from_a_place() {
    assert_eq!(find_byte_from(b"a b c", b' ', 0), 1);
    assert_eq!(find_byte_from(b"a b c", b' ', 2), 3);
    assert_eq!(find_byte_from(b"a b c", b' ', 4), 5);
    assert_eq!(find_byte_from(b"a b c", b'x', 0), 5);
    assert_eq!(find_byte_from(b"a b c", b'a', 9), 5);
    assert!(starts_with_at(b"tree abc", 0, b"tree "));
    assert!(starts_with_at(b"tree abc", 5, b"abc"));
    assert!(!starts_with_at(b"tree abc", 6, b"abc"));
    assert!(!starts_with_at(b"tree abc", 100, b""));
    assert!(starts_with_at(b"tree abc", 8, b""));
}

#[test]
fn tree_entry_is_mode_name_and_twenty_bytes() {
    let id = Id::new(b"x");
    let mut raw = b"100644 a b.txt\0".to_vec();
    raw.extend_from_slice(&id.bytes);
    raw.extend_from_slice(b"rest");
    let (item, next) = parse_tree_entry(&raw, 0).unwrap();
    assert_eq!(item.mode, b"100644".to_vec());
    assert_eq!(item.name, b"a b.txt".to_vec());
    assert_eq!(item.id, id);
    assert_eq!(next, 35);
    assert!(parse_tree_entry(&raw[..34], 0).is_none());
    assert!(parse_tree_entry(&raw, 35).is_none());
    assert!(parse_tree_entry(&raw, 1000).is_none());
}

#[test]
fn id_line_is_keyword_digits_and_newline() {
    let line = format!("tree {}\nrest", HEX).into_bytes();
    assert_eq!(parse_id_line(&line, 0, "tree "), Id::new_from_str(HEX));
    assert_eq!(parse_id_line(&line, 0, "parent "), None);
    assert_eq!(parse_id_line(&line, 1, "tree "), None);
    assert_eq!(parse_id_line(&line[..45], 0, "tree "), None);
    let no_newline = format!("tree {} rest", HEX).into_bytes();
    assert_eq!(parse_id_line(&no_newline, 0, "tree "), None);
}

#[test]
fn commit_says_who_made_it_and_why() {
    let text = format!(
        "tree {}\nparent {}\nauthor A U Thor <a@example.com> 1700000000 +0100\ncommitter C O Mitter <c@example.com> 1700000001 +0000\ngpgsig -----BEGIN-----\n abc\n -----END-----\n\nsubject\n\nbody\n",
        HEX, HEX
    );
    let commit = Commit::new_from_data(text.clone().into_bytes()).unwrap();
    assert_eq!(commit.tree_id.to_plain_str(), HEX);
    assert_eq!(commit.parent_ids.len(), 1);
    assert_eq!(commit.author, b"A U Thor <a@example.com> 1700000000 +0100".to_vec());
    assert_eq!(commit.committer, b"C O Mitter <c@example.com> 1700000001 +0000".to_vec());
    assert_eq!(commit.message, b"subject\n\nbody\n".to_vec());
    assert_eq!(commit.raw, text.into_bytes());
}

#[test]
fn commit_without_author_or_message_reads_them_as_empty() {
    let text = format!("tree {}\n", HEX);
    let commit = Commit::new_from_data(text.into_bytes()).unwrap();
    assert!(commit.parent_ids.is_empty());
    assert!(commit.author.is_empty());
    assert!(commit.committer.is_empty());
    assert!(commit.message.is_empty());
    let text = format!("tree {}\nauthor someone", HEX);
    let commit = Commit::new_from_data(text.into_bytes()).unwrap();
    assert_eq!(commit.author, b"someone".to_vec());
    assert!(commit.message.is_empty());
}

#[test]
fn commit_with_a_new_tree_keeps_all_else() {
    let other = Id::new(b"other tree");
    let text = format!("tree {}\nparent {}\nauthor a\ncommitter c\n\nmessage\n", HEX, HEX);
    let commit = Commit::new_from_data(text.into_bytes()).unwrap();
    let raw = commit.raw_with_tree(&other);
    let expected =
        format!("tree {}\nparent {}\nauthor a\ncommitter c\n\nmessage\n", other.to_plain_str(), HEX);
    assert_eq!(raw, expected.into_bytes());
    let child = Commit::new_from_data(raw).unwrap();
    assert_eq!(child.tree_id, other);
    assert_eq!(child.parent_ids, commit.parent_ids);
    assert_eq!(child.author, commit.author);
    assert_eq!(child.committer, commit.committer);
    assert_eq!(child.message, commit.message);
    assert_ne!(child.id, commit.id);
}

#[test]
fn header_lines_and_message_start() {
    let raw = b"author a b\ncommitter c\nextra x\n\nmsg";
    assert_eq!(parse_header_line(raw, 0, "author "), Some((b"a b".to_vec(), 11)));
    assert_eq!(parse_header_line(raw, 11, "committer "), Some((b"c".to_vec(), 23)));
    assert_eq!(parse_header_line(raw, 11, "author "), None);
    assert_eq!(parse_header_line(b"author x", 0, "author "), Some((b"x".to_vec(), 8)));
    assert_eq!(find_message_start(raw, 23), 32);
    assert_eq!(find_message_start(raw, 0), 32);
    assert_eq!(find_message_start(b"\nmsg", 0), 1);
    assert_eq!(find_message_start(b"no empty line\nat all", 0), 20);
    assert_eq!(find_message_start(b"abc", 7), 3);
}

#[test]
fn white_space_is_trimmed_at_both_ends() {
    assert_eq!(trim_str("  a b \n"), "a b");
    assert_eq!(trim_str("\u{2003}x\u{feff}\u{85}"), "x\u{feff}");
    assert_eq!(trim_str(" \t\r\n"), "");
    assert_eq!(trim_str(""), "");
    assert_eq!(trim_str("HEAD\0caps"), "HEAD\0caps");
    for c in ['\u{9}', '\u{b}', ' ', '\u{a0}', '\u{1680}', '\u{2000}', '\u{200a}', '\u{2028}', '\u{3000}'] {
        assert!(char_is_white_space(c));
        assert!(c.is_whitespace());
    }
    for c in ['a', '\0', '\u{200b}', '\u{feff}', '\u{180e}'] {
        assert!(!char_is_white_space(c));
        assert!(!c.is_whitespace());
    }
}

#[test]
fn white_space_is_what_the_standard_library_trims() {
    for code in 0u32..0x3100 {
        if let Some(c) = char::from_u32(code) {
            assert_eq!(char_is_white_space(c), c.is_whitespace());
        }
    }
    for s in [" a ", "\u{a0}b\u{2009}", "c", "", " \u{3000} "] {
        assert_eq!(trim_str(s), s.trim());
    }
}

#[test]
fn texts_and_bytes_are_compared_whole() {
    assert!(text_equal("abc", "abc"));
    assert!(!text_equal("abc", "abd"));
    assert!(!text_equal("abc", "ab"));
    assert!(bytes_equal(b"", b""));
    assert!(!bytes_equal(b"a", b""));
}
