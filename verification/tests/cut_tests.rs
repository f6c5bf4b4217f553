use csv::StringRecord;
use cutr::extract_bytes;
use cutr::extract_chars;
use cutr::extract_fields;
use cutr::is_numeric;
use cutr::parse_pos;
use cutr::Extract;
use cutr::PosRange;

fn pr(start: usize, end: usize) -> PosRange {
    PosRange { start, end }
}

#[test]
fn test_extract_fields() {
    let rec = StringRecord::from(vec!["Captain", "Sham", "12345"]);
    assert_eq!(extract_fields(&rec, &[pr(0, 1)]), &["Captain"]);
    assert_eq!(extract_fields(&rec, &[pr(1, 2)]), &["Sham"]);
    assert_eq!(extract_fields(&rec, &[pr(0, 1), pr(2, 3)]), &["Captain", "12345"]);
    assert_eq!(extract_fields(&rec, &[pr(0, 1), pr(3, 4)]), &["Captain"]);
    assert_eq!(extract_fields(&rec, &[pr(1, 2), pr(0, 1)]), &["Sham", "Captain"])
}

#[test]
fn test_extract_chars() {
    assert_eq!(extract_chars("", &[pr(0, 1)]), "".to_string());
    assert_eq!(extract_chars("ábc", &[pr(0, 1)]), "á".to_string());
    assert_eq!(extract_chars("ábc", &[pr(0, 1), pr(2, 3)]), "ác".to_string());
    assert_eq!(extract_chars("ábc", &[pr(0, 3)]), "ábc".to_string());
    assert_eq!(extract_chars("ábc", &[pr(2, 3), pr(1, 2)]), "cb".to_string());
    assert_eq!(extract_chars("ábc", &[pr(0, 1), pr(1, 2), pr(4, 5)]), "áb".to_string());
}

#[test]
fn test_extract_bytes() {
    assert_eq!(extract_bytes("ábc", &[pr(0, 1)]), "\u{fffd}".to_string());
    assert_eq!(extract_bytes("ábc", &[pr(0, 2)]), "á".to_string());
    assert_eq!(extract_bytes("ábc", &[pr(0, 3)]), "áb".to_string());
    assert_eq!(extract_bytes("ábc", &[pr(0, 4)]), "ábc".to_string());
    assert_eq!(extract_bytes("ábc", &[pr(3, 4), pr(2, 3)]), "cb".to_string());
    assert_eq!(extract_bytes("ábc", &[pr(0, 2), pr(5, 6)]), "á".to_string());
}

#[test]
fn test_parse_pos() {
    assert!(parse_pos("").is_err());

    let res = parse_pos("0");
    assert!(res.is_err());
    assert_eq!(res.unwrap_err().message(), "illegal list value: \"0\"");

    let res = parse_pos("0-1");
    assert!(res.is_err());
    assert_eq!(res.unwrap_err().message(), "illegal list value: \"0\"");

    let res = parse_pos("+1");
    assert!(res.is_err());
    assert_eq!(res.unwrap_err().message(), "illegal list value: \"+1\"");

    let res = parse_pos("+1-2");
    assert!(res.is_err());
    assert_eq!(res.unwrap_err().message(), "illegal list value: \"+1-2\"");

    let res = parse_pos("1-+2");
    assert!(res.is_err());
    assert_eq!(res.unwrap_err().message(), "illegal list value: \"1-+2\"");

    let res = parse_pos("a");
    assert!(res.is_err());
    assert_eq!(res.unwrap_err().message(), "illegal list value: \"a\"");

    let res = parse_pos("1,a");
    assert!(res.is_err());
    assert_eq!(res.unwrap_err().message(), "illegal list value: \"a\"");

    let res = parse_pos("1-a");
    assert!(res.is_err());
    assert_eq!(res.unwrap_err().message(), "illegal list value: \"1-a\"");

    let res = parse_pos("a-1");
    assert!(res.is_err());
    assert_eq!(res.unwrap_err().message(), "illegal list value: \"a-1\"");

    let res = parse_pos("-");
    assert!(res.is_err());

    let res = parse_pos(",");
    assert!(res.is_err());

    let res = parse_pos("1,");
    assert!(res.is_err());

    let res = parse_pos("1-");
    assert!(res.is_err());

    let res = parse_pos("1-1-1");
    assert!(res.is_err());

    let res = parse_pos("1-1-a");
    assert!(res.is_err());

    let res = parse_pos("1-1");
    assert!(res.is_err());
    assert_eq!(
        res.unwrap_err().message(),
        "First number in range (1) must be lower than the second number (1)"
    );

    let res = parse_pos("1");
    assert!(res.is_ok());
    assert_eq!(res.unwrap(), vec![pr(0, 1)]);

    let res = parse_pos("01");
    assert!(res.is_ok());
    assert_eq!(res.unwrap(), vec![pr(0, 1)]);

    let res = parse_pos("1,3");
    assert!(res.is_ok());
    assert_eq!(res.unwrap(), vec![pr(0, 1), pr(2, 3)]);

    let res = parse_pos("001,0003");
    assert!(res.is_ok());
    assert_eq!(res.unwrap(), vec![pr(0, 1), pr(2, 3)]);

    let res = parse_pos("1-3");
    assert!(res.is_ok());
    assert_eq!(res.unwrap(), vec![pr(0, 3)]);

    let res = parse_pos("0001-03");
    assert!(res.is_ok());
    assert_eq!(res.unwrap(), vec![pr(0, 3)]);

    let res = parse_pos("1,7,3-5");
    assert!(res.is_ok());
    assert_eq!(res.unwrap(), vec![pr(0, 1), pr(6, 7), pr(2, 5)]);

    let res = parse_pos("15,19-20");
    assert!(res.is_ok());
    assert_eq!(res.unwrap(), vec![pr(14, 15), pr(18, 20)]);
}

#[test]
fn test_parse_pos_deterministic() {
    let first = parse_pos("1,7,3-5").unwrap();
    let second = parse_pos("1,7,3-5").unwrap();
    assert_eq!(first, second);
    assert_eq!(first, vec![pr(0, 1), pr(6, 7), pr(2, 5)]);
}

#[test]
fn test_parse_pos_rejects_oversized_number() {
    let res = parse_pos("99999999999999999999999999");
    assert!(res.is_err());
    assert_eq!(
        res.unwrap_err().message(),
        "illegal list value: \"99999999999999999999999999\""
    );
}

#[test]
fn test_parse_pos_oversized_end_cites_its_token() {
    let res = parse_pos("1-99999999999999999999999999");
    assert!(res.is_err());
    assert_eq!(
        res.unwrap_err().message(),
        "illegal list value: \"99999999999999999999999999\""
    );
}

#[test]
fn test_parse_pos_oversized_start_cites_its_token() {
    let res = parse_pos("99999999999999999999999999-5");
    assert!(res.is_err());
    assert_eq!(
        res.unwrap_err().message(),
        "illegal list value: \"99999999999999999999999999\""
    );
}

#[test]
fn test_parse_pos_not_ascending_message() {
    let res = parse_pos("20-15");
    assert!(res.is_err());
    assert_eq!(
        res.unwrap_err().message(),
        "First number in range (20) must be lower than the second number (15)"
    );
}

#[test]
fn test_extract_chars_full_cover_reproduces_line() {
    let line = "hello, wörld";
    let n: usize = line.chars().count();
    assert_eq!(extract_chars(line, &[pr(0, n)]), line);
}

#[test]
fn test_extract_bytes_full_cover_reproduces_line() {
    let line = "hello, wörld";
    let n: usize = line.len();
    assert_eq!(extract_bytes(line, &[pr(0, n)]), line);
}

#[test]
fn test_extract_fields_full_cover_reproduces_record() {
    let rec = StringRecord::from(vec!["a", "bb", "ccc"]);
    assert_eq!(extract_fields(&rec, &[pr(0, 3)]), &["a", "bb", "ccc"]);
}

#[test]
fn test_extract_with_empty_range_list() {
    assert_eq!(extract_chars("abc", &[]), "");
    assert_eq!(extract_bytes("abc", &[]), "");
    let rec = StringRecord::from(vec!["a", "b"]);
    assert!(extract_fields(&rec, &[]).is_empty());
}

#[test]
fn test_is_numeric() {
    assert!(is_numeric("123"));
    assert!(is_numeric("007"));
    assert!(is_numeric(""));
    assert!(!is_numeric("+1"));
    assert!(!is_numeric("1a"));
}

#[test]
fn test_extract_mode_carries_its_list() {
    let ext = Extract::Chars(parse_pos("1,3").unwrap());
    match ext {
        Extract::Chars(list) => assert_eq!(list, vec![pr(0, 1), pr(2, 3)]),
        _ => panic!("expected the character mode"),
    }
}

#[test]
fn test_extract_overlapping_ranges_repeat_content() {
    assert_eq!(extract_chars("abc", &[pr(0, 2), pr(1, 3)]), "abbc");
    let rec = StringRecord::from(vec!["x", "y"]);
    assert_eq!(extract_fields(&rec, &[pr(0, 2), pr(0, 1)]), &["x", "y", "x"]);
}
