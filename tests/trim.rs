use moss_trim::text::{chars_of, contains, split_lines};
use moss_trim::trim::trim_results;

#[test]
fn keeps_matching_row_and_table_end() {
    let doc = "<TR>keep</TR>\n<TR>drop</TR>\n</TABLE>\nfooter";
    assert_eq!(trim_results(doc, "keep"), "<TR>keep</TR>\n</TABLE>\nfooter\n");
}

#[test]
fn no_markers_gives_empty_output() {
    assert_eq!(trim_results("alpha\nbeta\ngamma\n", "alpha"), "");
    assert_eq!(trim_results("just text", ""), "");
}

#[test]
fn empty_document_gives_empty_output() {
    assert_eq!(trim_results("", "x"), "");
}

#[test]
fn all_rows_matching_keeps_input() {
    let doc = "<TR>a x\ncell one\n</TR>\n<TR>b x</TR>\n";
    assert_eq!(trim_results(doc, "x"), doc);
}

#[test]
fn second_run_changes_nothing() {
    let doc = "<TR>a x</TR>\n<TR>b</TR>\nbetween\n<TR>c x\nmore\n</TR>\n</TABLE>\ntail\n";
    let once = trim_results(doc, "x");
    assert_eq!(once, "<TR>a x</TR>\n<TR>c x\nmore\n</TR>\n</TABLE>\ntail\n");
    let twice = trim_results(&once, "x");
    assert_eq!(twice, once);
}

#[test]
fn lines_after_table_end_are_kept() {
    let doc = "<TR>one</TR>\n</TABLE>\n<TR>row after</TR>\nplain\n</TR>\n";
    for pat in ["one", "zzz", "row", ""] {
        let out = trim_results(doc, pat);
        assert!(out.ends_with("</TABLE>\n<TR>row after</TR>\nplain\n</TR>\n"));
    }
}

#[test]
fn absent_substring_keeps_only_table_end_on() {
    let doc = "<TR>a</TR>\nloose\n<TR>b\nc</TR>\n</TABLE>\nafter\n";
    assert_eq!(trim_results(doc, "zzz"), "</TABLE>\nafter\n");
}

#[test]
fn absent_substring_without_table_end_gives_nothing() {
    assert_eq!(trim_results("<TR>a</TR>\n<TR>b</TR>\n", "zzz"), "");
}

#[test]
fn table_end_inside_kept_row_is_written_twice() {
    let doc = "<TR>keep\n</TABLE>\nfooter";
    assert_eq!(trim_results(doc, "keep"), "<TR>keep\n</TABLE>\n</TABLE>\nfooter\n");
}

#[test]
fn table_end_after_closed_row_is_written_once() {
    let doc = "<TR>keep</TR>\n</TABLE>\n";
    assert_eq!(trim_results(doc, "keep"), "<TR>keep</TR>\n</TABLE>\n");
}

#[test]
fn row_is_judged_by_its_opening_line_only() {
    let doc = "<TR>\nkeep\n</TR>\n<TR>keep\nother\n</TR>\n";
    assert_eq!(trim_results(doc, "keep"), "<TR>keep\nother\n</TR>\n");
}

#[test]
fn lines_between_rows_are_dropped() {
    let doc = "head\n<TR>x</TR>\nbetween\n<TR>x</TR>\n";
    assert_eq!(trim_results(doc, "x"), "<TR>x</TR>\n<TR>x</TR>\n");
}

#[test]
fn empty_substring_keeps_every_row() {
    let doc = "<TR>a</TR>\nloose\n<TR>b</TR>\n";
    assert_eq!(trim_results(doc, ""), "<TR>a</TR>\n<TR>b</TR>\n");
}

#[test]
fn crlf_line_endings_are_dropped() {
    let doc = "<TR>keep\r\n</TR>\r\n<TR>no\r\n</TR>\r\n</TABLE>\r\nend\r";
    assert_eq!(trim_results(doc, "keep"), "<TR>keep\n</TR>\n</TABLE>\nend\r\n");
}

#[test]
fn non_ascii_text_is_kept_intact() {
    let doc = "<TR>été ü</TR>\n<TR>x</TR>\n";
    assert_eq!(trim_results(doc, "é ü"), "<TR>été ü</TR>\n");
}

#[test]
fn contains_finds_substrings() {
    let s = chars_of("abcabd");
    assert!(contains(&s, &chars_of("abd")));
    assert!(contains(&s, &chars_of("")));
    assert!(contains(&s, &chars_of("abcabd")));
    assert!(!contains(&s, &chars_of("abcabdx")));
    assert!(!contains(&s, &chars_of("acb")));
    assert!(!contains(&chars_of(""), &chars_of("a")));
}

#[test]
fn split_lines_follows_line_endings() {
    let lines = split_lines(&chars_of("a\r\n\nb\rc\nlast\r"));
    let got: Vec<String> = lines.iter().map(|l| l.iter().collect()).collect();
    assert_eq!(got, vec!["a", "", "b\rc", "last\r"]);
    assert!(split_lines(&chars_of("")).is_empty());
    assert_eq!(split_lines(&chars_of("x\n")).len(), 1);
    assert_eq!(split_lines(&chars_of("\n")), vec![Vec::<char>::new()]);
}

#[test]
fn chars_of_keeps_every_character() {
    assert_eq!(chars_of("aé\n"), vec!['a', 'é', '\n']);
}
