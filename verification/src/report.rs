//! Interpreting what the external version-control tool reports, and
//! assembling the final report: heading, rendered tree, summary counts and
//! the optional readme section.
use vstd::prelude::*;

use crate::paths::{seg_views, split_nonempty, split_str};
use crate::render::{line_views, RenderLine};

verus! {

/// What a finished invocation of the external tool left behind.
pub struct CmdOutcome {
    pub success: bool,
    pub stdout: String,
    pub stderr: String,
}

/// The whitespace characters stripped from the ends of captured text:
/// blank, tab, newline and carriage return.
pub open spec fn is_space(c: char) -> bool {
    c == ' ' || c == '\t' || c == '\n' || c == '\r'
}

/// `s` without leading and trailing whitespace.
pub open spec fn trimmed(s: Seq<char>) -> Seq<char>
    decreases s.len(),
{
    if s.len() == 0 {
        s
    } else if is_space(s[0]) {
        trimmed(s.drop_first())
    } else if is_space(s.last()) {
        trimmed(s.drop_last())
    } else {
        s
    }
}

proof fn lemma_trimmed_all_space(s: Seq<char>)
    requires
        forall|j: int| 0 <= j < s.len() ==> is_space(#[trigger] s[j]),
    ensures
        trimmed(s) == Seq::<char>::empty(),
    decreases s.len(),
{
    if s.len() > 0 {
        lemma_trimmed_all_space(s.drop_first());
    } else {
        assert(s =~= Seq::<char>::empty());
    }
}

proof fn lemma_trimmed_subrange(s: Seq<char>, a: int, b: int)
    requires
        0 <= a <= b < s.len(),
        forall|j: int| 0 <= j < a ==> is_space(#[trigger] s[j]),
        forall|j: int| b < j < s.len() ==> is_space(#[trigger] s[j]),
        !is_space(s[a]),
        !is_space(s[b]),
    ensures
        trimmed(s) == s.subrange(a, b + 1),
    decreases s.len(),
{
    if a > 0 {
        lemma_trimmed_subrange(s.drop_first(), a - 1, b - 1);
        assert(s.drop_first().subrange(a - 1, b) =~= s.subrange(a, b + 1));
    } else if b < s.len() - 1 {
        assert(s.drop_last()[a] == s[a]);
        assert(s.drop_last()[b] == s[b]);
        lemma_trimmed_subrange(s.drop_last(), a, b);
        assert(s.drop_last().subrange(a, b + 1) =~= s.subrange(a, b + 1));
    } else {
        assert(s.subrange(0, b + 1) =~= s);
    }
}

fn is_space_ch(c: char) -> (r: bool)
    ensures
        r == is_space(c),
{
    c == ' ' || c == '\t' || c == '\n' || c == '\r'
}

fn first_non_space(s: &str) -> (a: usize)
    ensures
        a <= s@.len(),
        forall|j: int| 0 <= j < a ==> is_space(#[trigger] s@[j]),
        a < s@.len() ==> !is_space(s@[a as int]),
{
    let n = s.unicode_len();
    let mut a: usize = 0;
    while a < n
        invariant
            a <= n,
            n == s@.len(),
            forall|j: int| 0 <= j < a ==> is_space(#[trigger] s@[j]),
        decreases n - a,
    {
        if !is_space_ch(s.get_char(a)) {
            return a;
        }
        a = a + 1;
    }
    a
}

fn after_last_non_space(s: &str) -> (b: usize)
    ensures
        b <= s@.len(),
        forall|j: int| b <= j < s@.len() ==> is_space(#[trigger] s@[j]),
        b > 0 ==> !is_space(s@[b - 1]),
{
    let n = s.unicode_len();
    let mut b: usize = n;
    while b > 0
        invariant
            b <= n,
            n == s@.len(),
            forall|j: int| b <= j < s@.len() ==> is_space(#[trigger] s@[j]),
        decreases b,
    {
        if !is_space_ch(s.get_char(b - 1)) {
            return b;
        }
        b = b - 1;
    }
    b
}

/// `s` without leading and trailing whitespace, as a fresh string.
pub fn trim_str(s: &str) -> (r: String)
    ensures
        r@ == trimmed(s@),
{
    let a = first_non_space(s);
    let b = after_last_non_space(s);
    if a >= b {
        proof {
            assert forall|j: int| 0 <= j < s@.len() implies is_space(#[trigger] s@[j]) by {
                if !(j < a as int) {
                    assert(b as int <= j);
                }
            }
            lemma_trimmed_all_space(s@);
        }
        String::new()
    } else {
        proof {
            lemma_trimmed_subrange(s@, a as int, b - 1);
        }
        s.substring_char(a, b).to_owned()
    }
}

/// The result of one query through the external version-control tool: the
/// captured standard output on success; on failure, a message naming the
/// failing subcommand and carrying the trimmed error stream.
pub fn git_command_result(subcommand: &str, outcome: CmdOutcome) -> (r: Result<String, String>)
    ensures
        r is Ok <==> outcome.success,
        outcome.success ==> (r matches Ok(out) && out@ == outcome.stdout@),
        !outcome.success ==> (r matches Err(m) && m@ == "git "@ + subcommand@ + " failed: "@
            + trimmed(outcome.stderr@)),
{
    if outcome.success {
        Ok(outcome.stdout)
    } else {
        let mut m = String::new();
        m.append("git ");
        m.append(subcommand);
        m.append(" failed: ");
        let t = trim_str(outcome.stderr.as_str());
        m.append(t.as_str());
        proof {
            assert(m@ =~= "git "@ + subcommand@ + " failed: "@ + trimmed(outcome.stderr@));
        }
        Err(m)
    }
}

/// Decides, from the probe's outcome, whether the current directory is
/// inside a repository: succeeds exactly when the probe succeeded.
pub fn check_git_repo(probe: CmdOutcome) -> (r: Result<(), String>)
    ensures
        r is Ok <==> probe.success,
        !probe.success ==> (r matches Err(m) && m@ == "git "@
            + "rev-parse --is-inside-work-tree"@ + " failed: "@ + trimmed(probe.stderr@)),
{
    match git_command_result("rev-parse --is-inside-work-tree", probe) {
        Ok(_) => Ok(()),
        Err(m) => Err(m),
    }
}

/// The non-empty lines of captured output, in order.
pub fn parse_file_list(out: &str) -> (files: Vec<String>)
    ensures
        seg_views(files@) == split_nonempty(out@, '\n'),
{
    split_str(out, '\n')
}

/// How many non-empty lines the captured output holds.
pub fn count_nonempty_lines(out: &str) -> (c: usize)
    ensures
        c == split_nonempty(out@, '\n').len(),
{
    let lines = split_str(out, '\n');
    lines.len()
}

/// The last path segment of the repository's top-level directory, the
/// captured path trimmed first; "." when no segment can be extracted.
pub fn root_name(toplevel: &str) -> (r: String)
    ensures
        split_nonempty(trimmed(toplevel@), '/').len() > 0 ==> r@ == split_nonempty(
            trimmed(toplevel@),
            '/',
        ).last(),
        split_nonempty(trimmed(toplevel@), '/').len() == 0 ==> r@ == "."@,
{
    let t = trim_str(toplevel);
    let segs = split_str(t.as_str(), '/');
    if segs.len() > 0 {
        let last = segs.len() - 1;
        let name = segs[last].clone();
        name
    } else {
        String::from_str(".")
    }
}

/// Whether the exact path `README.md` is among the listed files.
pub fn find_readme(files: &Vec<String>) -> (r: bool)
    ensures
        r == exists|t: int| 0 <= t < files@.len() && (#[trigger] files@[t])@ == "README.md"@,
{
    let needle = String::from_str("README.md");
    let n = files.len();
    let mut i: usize = 0;
    while i < n
        invariant
            i <= n,
            n == files@.len(),
            needle@ == "README.md"@,
            forall|t: int| 0 <= t < i ==> (#[trigger] files@[t])@ != "README.md"@,
        decreases n - i,
    {
        if files[i] == needle {
            return true;
        }
        i = i + 1;
    }
    false
}

/// The decimal digit characters of `n`, most significant first.
pub open spec fn dec_str(n: nat) -> Seq<char>
    decreases n,
{
    if n < 10 {
        seq![digit_char(n)]
    } else {
        dec_str(n / 10).push(digit_char(n % 10))
    }
}

/// The character of one decimal digit.
pub open spec fn digit_char(d: nat) -> char {
    if d == 0 {
        '0'
    } else if d == 1 {
        '1'
    } else if d == 2 {
        '2'
    } else if d == 3 {
        '3'
    } else if d == 4 {
        '4'
    } else if d == 5 {
        '5'
    } else if d == 6 {
        '6'
    } else if d == 7 {
        '7'
    } else if d == 8 {
        '8'
    } else {
        '9'
    }
}

fn push_decimal(s: &mut String, n: usize)
    ensures
        final(s)@ == old(s)@ + dec_str(n as nat),
    decreases n,
{
    if n >= 10 {
        push_decimal(s, n / 10);
    }
    let d = n % 10;
    let ds: &str = if d == 0 {
        "0"
    } else if d == 1 {
        "1"
    } else if d == 2 {
        "2"
    } else if d == 3 {
        "3"
    } else if d == 4 {
        "4"
    } else if d == 5 {
        "5"
    } else if d == 6 {
        "6"
    } else if d == 7 {
        "7"
    } else if d == 8 {
        "8"
    } else {
        "9"
    };
    s.append(ds);
    proof {
        reveal_strlit("0");
        reveal_strlit("1");
        reveal_strlit("2");
        reveal_strlit("3");
        reveal_strlit("4");
        reveal_strlit("5");
        reveal_strlit("6");
        reveal_strlit("7");
        reveal_strlit("8");
        reveal_strlit("9");
        assert(ds@ =~= seq![digit_char((n % 10) as nat)]);
        if n < 10 {
            assert(dec_str(n as nat) =~= seq![digit_char(n as nat)]);
            assert(s@ =~= old(s)@ + dec_str(n as nat));
        } else {
            assert(s@ =~= old(s)@ + dec_str(n as nat));
        }
    }
}

/// The decimal rendering of a count.
pub fn usize_to_string(n: usize) -> (s: String)
    ensures
        s@ == dec_str(n as nat),
{
    let mut s = String::new();
    push_decimal(&mut s, n);
    proof {
        assert(s@ =~= dec_str(n as nat));
    }
    s
}

/// The readme portion of the report: not asked for, a notice that no readme
/// is among the listed files, or the readme's verbatim content.
pub enum ReadmeSection {
    Off,
    Missing,
    Content(String),
}

/// One summary line: a marker glyph, a count and a label.
pub open spec fn summary_line(n: nat, label: Seq<char>) -> Seq<char> {
    "● "@ + dec_str(n) + label
}

/// The text of each rendered tree line.
pub open spec fn line_texts(tree: Seq<(Seq<char>, Seq<char>, bool)>) -> Seq<Seq<char>> {
    tree.map_values(|t: (Seq<char>, Seq<char>, bool)| (t.0 + t.1))
}

/// The full report, line by line: the heading, the rendered tree, a blank
/// line, three summary counts, and the readme section when asked for.
pub open spec fn report_lines(
    heading: Seq<char>,
    tree: Seq<(Seq<char>, Seq<char>, bool)>,
    n_tracked: nat,
    n_untracked: nat,
    n_ignored: nat,
    readme: ReadmeSection,
) -> Seq<Seq<char>> {
    seq![heading] + line_texts(tree) + seq![
        Seq::<char>::empty(),
        summary_line(n_tracked, " tracked file(s)"@),
        summary_line(n_untracked, " untracked file(s)"@),
        summary_line(n_ignored, " gitignored file(s)"@),
    ] + match readme {
        ReadmeSection::Off => Seq::<Seq<char>>::empty(),
        ReadmeSection::Missing => seq![
            Seq::<char>::empty(),
            "No README.md found in tracked files."@,
        ],
        ReadmeSection::Content(c) => seq![
            Seq::<char>::empty(),
            "─── README.md (as rendered on GitHub) ───"@,
            c@,
        ],
    }
}

/// Composes the final report from the heading, the rendered tree lines, the
/// three counts and the readme section.
pub fn assemble_report(
    heading: &str,
    tree: &Vec<RenderLine>,
    n_tracked: usize,
    n_untracked: usize,
    n_ignored: usize,
    readme: &ReadmeSection,
) -> (lines: Vec<String>)
    ensures
        lines@.map_values(|l: String| l@) == report_lines(
            heading@,
            line_views(tree@),
            n_tracked as nat,
            n_untracked as nat,
            n_ignored as nat,
            *readme,
        ),
{
    let ghost lv = |l: String| l@;
    let mut out: Vec<String> = Vec::new();
    out.push(String::from_str(heading));
    proof {
        assert(out@.map_values(lv) =~= seq![heading@]);
    }
    let n = tree.len();
    let mut k: usize = 0;
    while k < n
        invariant
            k <= n,
            n == tree@.len(),
            lv == (|l: String| l@),
            out@.map_values(lv) == seq![heading@] + line_texts(
                line_views(tree@).subrange(0, k as int),
            ),
        decreases n - k,
    {
        let ghost before = out@;
        out.push(tree[k].text());
        proof {
            let tv = line_views(tree@);
            assert(out@.map_values(lv) =~= before.map_values(lv).push(tv[k as int].0
                + tv[k as int].1));
            assert(line_texts(tv.subrange(0, k + 1)) =~= line_texts(tv.subrange(0, k as int)).push(
                tv[k as int].0 + tv[k as int].1,
            ));
            assert(out@.map_values(lv) =~= seq![heading@] + line_texts(tv.subrange(0, k + 1)));
        }
        k = k + 1;
    }
    proof {
        assert(line_views(tree@).subrange(0, n as int) =~= line_views(tree@));
    }
    let ghost after_tree = seq![heading@] + line_texts(line_views(tree@));
    out.push(String::new());
    let mut l1 = String::from_str("● ");
    push_decimal(&mut l1, n_tracked);
    l1.append(" tracked file(s)");
    out.push(l1);
    let mut l2 = String::from_str("● ");
    push_decimal(&mut l2, n_untracked);
    l2.append(" untracked file(s)");
    out.push(l2);
    let mut l3 = String::from_str("● ");
    push_decimal(&mut l3, n_ignored);
    l3.append(" gitignored file(s)");
    out.push(l3);
    proof {
        assert(out@.map_values(lv) =~= after_tree + seq![
            Seq::<char>::empty(),
            summary_line(n_tracked as nat, " tracked file(s)"@),
            summary_line(n_untracked as nat, " untracked file(s)"@),
            summary_line(n_ignored as nat, " gitignored file(s)"@),
        ]);
    }
    let ghost before_readme = out@.map_values(lv);
    match readme {
        ReadmeSection::Off => {},
        ReadmeSection::Missing => {
            out.push(String::new());
            out.push(String::from_str("No README.md found in tracked files."));
            proof {
                assert(out@.map_values(lv) =~= before_readme + seq![
                    Seq::<char>::empty(),
                    "No README.md found in tracked files."@,
                ]);
            }
        },
        ReadmeSection::Content(c) => {
            out.push(String::new());
            out.push(String::from_str("─── README.md (as rendered on GitHub) ───"));
            out.push(c.clone());
            proof {
                assert(out@.map_values(lv) =~= before_readme + seq![
                    Seq::<char>::empty(),
                    "─── README.md (as rendered on GitHub) ───"@,
                    c@,
                ]);
            }
        },
    }
    proof {
        assert(out@.map_values(lv) =~= report_lines(
            heading@,
            line_views(tree@),
            n_tracked as nat,
            n_untracked as nat,
            n_ignored as nat,
            *readme,
        ));
        assert(out@.map_values(|l: String| l@) == out@.map_values(lv));
    }
    out
}

} // verus!
