use gitcat::order::str_lt;
use gitcat::paths::split_str;
use gitcat::render::render_tree;
use gitcat::report::{
    assemble_report, check_git_repo, count_nonempty_lines, find_readme, git_command_result,
    parse_file_list, root_name, trim_str, usize_to_string, CmdOutcome, ReadmeSection,
};
use gitcat::tree::build_tree;

fn outcome(success: bool, stdout: &str, stderr: &str) -> CmdOutcome {
    CmdOutcome {
        success,
        stdout: String::from(stdout),
        stderr: String::from(stderr),
    }
}

#[test]
fn end_to_end_report_with_readme() {
    let files = vec![String::from("README.md"), String::from("src/main.ext")];
    let root = build_tree(&files);
    let tree_lines = render_tree(&root, "");
    assert!(find_readme(&files));
    let readme = ReadmeSection::Content(String::from("Hello from the readme."));
    let report = assemble_report("demo", &tree_lines, files.len(), 0, 0, &readme);
    assert_eq!(
        report,
        vec![
            String::from("demo"),
            String::from("├── README.md"),
            String::from("└── src"),
            String::from("    └── main.ext"),
            String::from(""),
            String::from("● 2 tracked file(s)"),
            String::from("● 0 untracked file(s)"),
            String::from("● 0 gitignored file(s)"),
            String::from(""),
            String::from("─── README.md (as rendered on GitHub) ───"),
            String::from("Hello from the readme."),
        ]
    );
}

#[test]
fn end_to_end_failure_outside_repository() {
    let probe = outcome(false, "", "fatal: not a git repository\n");
    let checked = check_git_repo(probe);
    assert!(checked.is_err());
    assert_eq!(
        checked.unwrap_err(),
        "git rev-parse --is-inside-work-tree failed: fatal: not a git repository"
    );
}

#[test]
fn check_git_repo_passes_inside_repository() {
    let probe = outcome(true, "true\n", "");
    assert!(check_git_repo(probe).is_ok());
}

#[test]
fn command_result_returns_stdout_on_success() {
    let r = git_command_result("ls-files", outcome(true, "a.txt\nb.txt\n", ""));
    assert_eq!(r.unwrap(), "a.txt\nb.txt\n");
}

#[test]
fn command_result_names_subcommand_on_failure() {
    let r = git_command_result("ls-files --others", outcome(false, "", "  boom \n"));
    assert_eq!(r.unwrap_err(), "git ls-files --others failed: boom");
}

#[test]
fn report_without_readme_section() {
    let files = vec![String::from("a.txt")];
    let root = build_tree(&files);
    let tree_lines = render_tree(&root, "");
    let report = assemble_report("demo", &tree_lines, 1, 2, 3, &ReadmeSection::Off);
    assert_eq!(
        report,
        vec![
            String::from("demo"),
            String::from("└── a.txt"),
            String::from(""),
            String::from("● 1 tracked file(s)"),
            String::from("● 2 untracked file(s)"),
            String::from("● 3 gitignored file(s)"),
        ]
    );
}

#[test]
fn report_notes_missing_readme() {
    let files = vec![String::from("a.txt")];
    let root = build_tree(&files);
    let tree_lines = render_tree(&root, "");
    assert!(!find_readme(&files));
    let report = assemble_report("demo", &tree_lines, 1, 0, 0, &ReadmeSection::Missing);
    assert_eq!(report[report.len() - 2], "");
    assert_eq!(report[report.len() - 1], "No README.md found in tracked files.");
}

#[test]
fn readme_match_is_exact_and_case_sensitive() {
    let files = vec![
        String::from("readme.md"),
        String::from("docs/README.md"),
        String::from("README.markdown"),
    ];
    assert!(!find_readme(&files));
}

#[test]
fn parse_file_list_drops_blank_lines() {
    let files = parse_file_list("a.txt\n\nsrc/b.txt\n");
    assert_eq!(files, vec![String::from("a.txt"), String::from("src/b.txt")]);
}

#[test]
fn count_nonempty_lines_ignores_blanks() {
    assert_eq!(count_nonempty_lines(""), 0);
    assert_eq!(count_nonempty_lines("\n\n"), 0);
    assert_eq!(count_nonempty_lines("one\ntwo\n\nthree\n"), 3);
}

#[test]
fn root_name_takes_last_segment() {
    assert_eq!(root_name("/home/user/project\n"), "project");
    assert_eq!(root_name("solo"), "solo");
    assert_eq!(root_name("/\n"), ".");
    assert_eq!(root_name(""), ".");
}

#[test]
fn trim_strips_surrounding_whitespace() {
    assert_eq!(trim_str("  hello \t\n"), "hello");
    assert_eq!(trim_str("\n\t "), "");
    assert_eq!(trim_str("kept inner  spaces"), "kept inner  spaces");
}

#[test]
fn counts_render_in_decimal() {
    assert_eq!(usize_to_string(0), "0");
    assert_eq!(usize_to_string(7), "7");
    assert_eq!(usize_to_string(42), "42");
    assert_eq!(usize_to_string(1203), "1203");
}

#[test]
fn split_collapses_empty_segments() {
    let segs = split_str("a//b/", '/');
    assert_eq!(segs, vec![String::from("a"), String::from("b")]);
    let none = split_str("///", '/');
    assert!(none.is_empty());
}

#[test]
fn string_order_is_by_character_code() {
    assert!(str_lt("README.md", "src"));
    assert!(str_lt("a", "ab"));
    assert!(!str_lt("ab", "a"));
    assert!(!str_lt("same", "same"));
    assert!(str_lt("", "x"));
}
