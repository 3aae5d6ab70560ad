use linecount::counts::count_lines;
use linecount::counts::extension_of;
use linecount::counts::CodeInfo;

fn counts(text: &str) -> (u64, u64) {
    let info = count_lines(text.as_bytes());
    (info.lines, info.blanks)
}

#[test]
fn empty_input_has_no_lines() {
    assert_eq!(counts(""), (0, 0));
}

#[test]
fn lone_terminator_is_one_blank_line() {
    assert_eq!(counts("\n"), (1, 1));
    assert_eq!(counts("\n\n"), (2, 2));
}

#[test]
fn unterminated_last_line_counts_but_is_not_blank() {
    assert_eq!(counts("a"), (1, 0));
    assert_eq!(counts("a\nb"), (2, 0));
}

#[test]
fn blank_lines_between_content() {
    assert_eq!(counts("x\n\ny\n"), (3, 1));
    assert_eq!(counts("a\n\nb"), (3, 1));
    assert_eq!(counts("\nabc\n\n\n"), (4, 3));
}

#[test]
fn whitespace_only_line_is_not_blank() {
    assert_eq!(counts(" \n\t\n"), (2, 0));
    assert_eq!(counts("\r\n"), (1, 0));
}

#[test]
fn code_info_new_and_add() {
    let mut a = CodeInfo::new();
    assert_eq!(a, CodeInfo { lines: 0, blanks: 0 });
    a.add(CodeInfo { lines: 3, blanks: 1 });
    a.add(CodeInfo { lines: 4, blanks: 2 });
    assert_eq!(a, CodeInfo { lines: 7, blanks: 3 });
}

#[test]
fn extension_after_last_dot() {
    assert_eq!(extension_of("a.txt"), Some("txt".to_string()));
    assert_eq!(extension_of("archive.tar.gz"), Some("gz".to_string()));
    assert_eq!(extension_of("name."), Some("".to_string()));
    assert_eq!(extension_of("é.rs"), Some("rs".to_string()));
}

#[test]
fn no_extension() {
    assert_eq!(extension_of("README"), None);
    assert_eq!(extension_of(".bashrc"), None);
    assert_eq!(extension_of(""), None);
    assert_eq!(extension_of(".."), None);
    assert_eq!(extension_of("."), None);
}
