use linesearch::paths::{check_path, handle_path, is_hidden, is_text_file, PathAction, PathType, SNIFF_LEN};

#[test]
fn check_path_tells_the_types_apart() {
    assert_eq!(check_path(false, false, false), PathType::NotFound);
    assert_eq!(check_path(false, true, true), PathType::NotFound);
    assert_eq!(check_path(true, true, false), PathType::File);
    assert_eq!(check_path(true, true, true), PathType::File);
    assert_eq!(check_path(true, false, true), PathType::Directory);
    assert_eq!(check_path(true, false, false), PathType::Other);
}

#[test]
fn is_hidden_looks_for_a_leading_dot() {
    assert!(is_hidden(Some(".git")));
    assert!(is_hidden(Some(".")));
    assert!(is_hidden(Some(".é")));
    assert!(!is_hidden(Some("a.txt")));
    assert!(!is_hidden(Some("é.")));
    assert!(!is_hidden(Some("")));
    assert!(!is_hidden(None));
}

#[test]
fn is_text_file_takes_utf8_for_text() {
    assert!(is_text_file(b""));
    assert!(is_text_file(b"hello\nworld\n"));
    assert!(is_text_file("Grüße, 日本語".as_bytes()));
    assert!(!is_text_file(&[0xff, 0xfe, 0x00]));
    assert!(!is_text_file(&[b'a', 0xc3]));
    assert!(!is_text_file(&[0xed, 0xa0, 0x80]));
    assert!(!is_text_file(&[0xc0, 0xaf]));
}

#[test]
fn is_text_file_looks_at_the_start_only() {
    let mut bytes = vec![b'a'; SNIFF_LEN];
    bytes.push(0xff);
    assert!(is_text_file(&bytes));
    bytes[SNIFF_LEN - 1] = 0xff;
    assert!(!is_text_file(&bytes));
}

#[test]
fn is_text_file_minds_a_character_cut_in_two() {
    let mut bytes = vec![b'a'; SNIFF_LEN - 1];
    bytes.extend_from_slice("é".as_bytes());
    assert_eq!(bytes.len(), SNIFF_LEN + 1);
    assert!(!is_text_file(&bytes));
    assert!(!is_text_file(&bytes[..SNIFF_LEN]));
    assert!(is_text_file(&bytes[1..]));
}

#[test]
fn handle_path_inspects_files_and_descends_into_directories() {
    for nested in [false, true] {
        for include_hidden in [false, true] {
            assert_eq!(handle_path(PathType::File, false, include_hidden, nested), PathAction::Inspect);
            assert_eq!(
                handle_path(PathType::Directory, false, include_hidden, nested),
                PathAction::Descend
            );
            for hidden in [false, true] {
                assert_eq!(
                    handle_path(PathType::NotFound, hidden, include_hidden, nested),
                    PathAction::Skip
                );
                assert_eq!(handle_path(PathType::Other, hidden, include_hidden, nested), PathAction::Skip);
            }
        }
    }
}

#[test]
fn handle_path_passes_over_hidden_entries() {
    assert_eq!(handle_path(PathType::File, true, false, false), PathAction::Skip);
    assert_eq!(handle_path(PathType::File, true, false, true), PathAction::Skip);
    assert_eq!(handle_path(PathType::Directory, true, false, true), PathAction::Skip);
    // a hidden directory that was named itself is searched
    assert_eq!(handle_path(PathType::Directory, true, false, false), PathAction::Descend);
}

#[test]
fn handle_path_takes_hidden_entries_when_asked() {
    assert_eq!(handle_path(PathType::File, true, true, false), PathAction::Inspect);
    assert_eq!(handle_path(PathType::File, true, true, true), PathAction::Inspect);
    assert_eq!(handle_path(PathType::Directory, true, true, true), PathAction::Descend);
}
