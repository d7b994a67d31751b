use oj::client::{contest_choice, entered_file_name, menu_choice, parse_usize, MenuChoice};

fn s(x: &str) -> String {
    x.to_string()
}

#[test]
fn menu_lines_are_read_without_surrounding_whitespace() {
    assert_eq!(menu_choice(&s("1\n")), Some(MenuChoice::SubmitOne));
    assert_eq!(menu_choice(&s("  2 \r\n")), Some(MenuChoice::SubmitMany));
    assert_eq!(menu_choice(&s("3")), Some(MenuChoice::RankList));
    assert_eq!(menu_choice(&s("\t4\n")), Some(MenuChoice::NewUser));
    assert_eq!(menu_choice(&s("5\n")), None);
    assert_eq!(menu_choice(&s("1 2\n")), None);
    assert_eq!(menu_choice(&s("\n")), None);
}

#[test]
fn a_blank_line_ends_the_file_list() {
    assert_eq!(entered_file_name(&s("  job.json \n")), Some(s("job.json")));
    assert_eq!(entered_file_name(&s(" \t\n")), None);
    assert_eq!(entered_file_name(&s("")), None);
}

#[test]
fn numbers_are_read_as_std_reads_them() {
    assert_eq!(parse_usize(&s("0")), Some(0));
    assert_eq!(parse_usize(&s("+17")), Some(17));
    assert_eq!(parse_usize(&s("007")), Some(7));
    assert_eq!(parse_usize(&s("18446744073709551615")), Some(18446744073709551615));
    assert_eq!(parse_usize(&s("18446744073709551616")), None);
    assert_eq!(parse_usize(&s("")), None);
    assert_eq!(parse_usize(&s("+")), None);
    assert_eq!(parse_usize(&s("-1")), None);
    assert_eq!(parse_usize(&s("1a")), None);
    for text in ["12", "+3", "99999", "abc", "", "4 5"] {
        assert_eq!(parse_usize(&s(text)), text.parse::<usize>().ok());
    }
}

#[test]
fn the_contest_line_falls_back_to_a_large_id() {
    assert_eq!(contest_choice(&s(" 12\n")), 12);
    assert_eq!(contest_choice(&s("first\n")), 1000000);
    assert_eq!(contest_choice(&s("\n")), 1000000);
}
