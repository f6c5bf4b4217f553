use cutr::count;
use cutr::FileInfo;

#[test]
fn test_count() {
    let text = "I don't want the world. I just want your half.\r\n";
    let info = count(text);
    let expected = FileInfo { num_lines: 1, num_words: 10, num_chars: 48, num_bytes: 48 };
    assert_eq!(info, expected);
}

#[test]
fn test_count_empty() {
    let info = count("");
    let expected = FileInfo { num_lines: 0, num_words: 0, num_chars: 0, num_bytes: 0 };
    assert_eq!(info, expected);
}

#[test]
fn test_count_unterminated_last_line() {
    let info = count("one\ntwo");
    let expected = FileInfo { num_lines: 2, num_words: 2, num_chars: 7, num_bytes: 7 };
    assert_eq!(info, expected);
}

#[test]
fn test_count_multibyte_characters() {
    let info = count("á\n");
    let expected = FileInfo { num_lines: 1, num_words: 1, num_chars: 2, num_bytes: 3 };
    assert_eq!(info, expected);
}

#[test]
fn test_count_runs_of_whitespace() {
    let info = count("  a \t b  \n\n");
    let expected = FileInfo { num_lines: 2, num_words: 2, num_chars: 11, num_bytes: 11 };
    assert_eq!(info, expected);
}
