use git_mob_tool::git_config::add_args;
use git_mob_tool::git_config::get_args;
use git_mob_tool::git_config::list_args;
use git_mob_tool::git_config::parse_get_output;
use git_mob_tool::git_config::parse_list_line;
use git_mob_tool::git_config::remove_args;
use git_mob_tool::git_config::render_list_output;
use git_mob_tool::git_config::split_lines;

#[test]
fn invocation_arguments_are_exact() {
    assert_eq!(get_args("lm"), vec!["config", "--global", "coauthors.lm"]);
    assert_eq!(
        add_args("lm", "Leo Messi <leo.messi@example.com>"),
        vec![
            "config",
            "--global",
            "--replace-all",
            "coauthors.lm",
            "Leo Messi <leo.messi@example.com>",
        ]
    );
    assert_eq!(
        remove_args("lm"),
        vec!["config", "--global", "--unset-all", "coauthors.lm"]
    );
    assert_eq!(
        list_args(),
        vec!["config", "--global", "--get-regexp", "^coauthors\\."]
    );
}

#[test]
fn get_output_with_trailing_newline_is_trimmed() {
    assert_eq!(
        parse_get_output(true, "Leo Messi <leo.messi@example.com>\n"),
        Some("Leo Messi <leo.messi@example.com>".to_owned())
    );
}

#[test]
fn get_output_without_trailing_newline_is_kept() {
    assert_eq!(
        parse_get_output(true, "Leo Messi <leo.messi@example.com>"),
        Some("Leo Messi <leo.messi@example.com>".to_owned())
    );
}

#[test]
fn failed_or_empty_get_output_means_absent() {
    assert_eq!(parse_get_output(false, "anything"), None);
    assert_eq!(parse_get_output(true, ""), None);
}

#[test]
fn split_lines_on_terminated_output() {
    assert_eq!(split_lines("a\nb\n"), vec!["a", "b"]);
}

#[test]
fn split_lines_edge_cases() {
    assert_eq!(split_lines(""), Vec::<String>::new());
    assert_eq!(split_lines("a"), vec!["a"]);
    assert_eq!(split_lines("\n\n"), vec!["", ""]);
}

#[test]
fn list_line_renders_full_or_key_only() {
    let line = "coauthors.lm Leo Messi <leo.messi@example.com>";
    assert_eq!(
        parse_list_line(line, true),
        Some("lm Leo Messi <leo.messi@example.com>".to_owned())
    );
    assert_eq!(parse_list_line(line, false), Some("lm".to_owned()));
}

#[test]
fn malformed_list_lines_name_no_entry() {
    assert_eq!(parse_list_line("user.name Cata Diaz", true), None);
    assert_eq!(parse_list_line("coauthors.nospace", true), None);
    assert_eq!(parse_list_line("coauthors.", true), None);
    assert_eq!(parse_list_line("", true), None);
}

#[test]
fn whole_listing_output_is_rendered_in_order() {
    let stdout = "coauthors.lm Leo Messi <leo.messi@example.com>\ncoauthors.em Emi Martinez <emi.martinez@example.com>\n";
    assert_eq!(
        render_list_output(stdout, true),
        vec![
            "lm Leo Messi <leo.messi@example.com>".to_owned(),
            "em Emi Martinez <emi.martinez@example.com>".to_owned(),
        ]
    );
    assert_eq!(
        render_list_output(stdout, false),
        vec!["lm".to_owned(), "em".to_owned()]
    );
    assert_eq!(render_list_output("", true), Vec::<String>::new());
}
