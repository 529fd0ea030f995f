//! The git-config backing of the co-author store. Every store operation maps
//! to one invocation of the external `git config` program; this module
//! computes each invocation's arguments and reads the captured output back
//! into plain values. Launching the process itself is I/O and stands outside
//! the library.

use vstd::prelude::*;

use crate::coauthor_repo::render_entry;
use vstd::string::StrSliceExecFns;
use vstd::string::StringExecFns;

verus! {

/// The position of the first occurrence of `c` in `s`, or `s`'s length when
/// `c` does not occur.
pub open spec fn first_index_of(s: Seq<char>, c: char) -> int
    decreases s.len(),
{
    if s.len() == 0 {
        0
    } else if s[0] == c {
        0
    } else {
        1 + first_index_of(s.drop_first(), c)
    }
}

/// `first_index_of` points at the first occurrence: nothing before it is `c`,
/// and it lies on `c` unless `c` does not occur at all.
pub proof fn lemma_first_index_of(s: Seq<char>, c: char)
    ensures
        0 <= first_index_of(s, c) <= s.len(),
        forall|j: int| 0 <= j < first_index_of(s, c) ==> s[j] != c,
        first_index_of(s, c) < s.len() ==> s[first_index_of(s, c)] == c,
    decreases s.len(),
{
    if s.len() > 0 && s[0] != c {
        lemma_first_index_of(s.drop_first(), c);
        assert forall|j: int| 0 <= j < first_index_of(s, c) implies s[j] != c by {
            if j > 0 {
                assert(s.drop_first()[j - 1] != c);
            }
        }
    }
}

/// A position that lies on `c`, with no `c` before it, is `first_index_of`.
pub proof fn lemma_first_index_of_is(s: Seq<char>, c: char, i: int)
    requires
        0 <= i <= s.len(),
        forall|j: int| 0 <= j < i ==> s[j] != c,
        i < s.len() ==> s[i] == c,
    ensures
        i < s.len() ==> first_index_of(s, c) == i,
        i == s.len() ==> first_index_of(s, c) == s.len(),
{
    lemma_first_index_of(s, c);
    let fi = first_index_of(s, c);
    if i < s.len() {
        if fi < i {
            assert(s[fi] == c);
        }
        if fi > i {
            assert(s[i] != c);
        }
    } else {
        if fi < i {
            assert(s[fi] == c);
        }
    }
}

/// The lines of a captured output, in order: a newline ends a line, the
/// characters after the last newline form a final line, and empty output has
/// no lines at all.
pub open spec fn lines_of(s: Seq<char>) -> Seq<Seq<char>>
    decreases s.len(),
    via lines_of_decreases
{
    if s.len() == 0 {
        Seq::empty()
    } else {
        let i = first_index_of(s, '\n');
        if i == s.len() {
            seq![s]
        } else {
            seq![s.subrange(0, i)] + lines_of(s.subrange(i + 1, s.len() as int))
        }
    }
}

#[via_fn]
proof fn lines_of_decreases(s: Seq<char>) {
    lemma_first_index_of(s, '\n');
}

/// The captured output of a lookup with its one trailing newline removed.
pub open spec fn trim_newline(s: Seq<char>) -> Seq<char> {
    if s.len() > 0 && s.last() == '\n' {
        s.drop_last()
    } else {
        s
    }
}

/// What the outcome of a lookup invocation means: a failed exit or empty
/// output is absence, not an error; otherwise the stored identity is the
/// captured output without its trailing newline.
pub open spec fn get_result_of(exit_ok: bool, outp: Seq<char>) -> Option<Seq<char>> {
    if !exit_ok || outp.len() == 0 {
        None
    } else {
        Some(trim_newline(outp))
    }
}

/// The full configuration key of one co-author key: the section prefix
/// followed by the key.
pub fn full_config_key(key: &str) -> (r: String)
    ensures
        r@ == "coauthors."@ + key@,
{
    let mut s = String::from_str("coauthors.");
    s.append(key);
    s
}

/// The arguments of the invocation that looks one key up.
pub fn get_args(key: &str) -> (r: Vec<String>)
    ensures
        r.deep_view() == seq!["config"@, "--global"@, "coauthors."@ + key@],
{
    let mut r: Vec<String> = Vec::new();
    r.push(String::from_str("config"));
    r.push(String::from_str("--global"));
    r.push(full_config_key(key));
    proof {
        assert(r.deep_view() =~= seq!["config"@, "--global"@, "coauthors."@ + key@]);
    }
    r
}

/// The arguments of the invocation that writes, or overwrites, one entry.
pub fn add_args(key: &str, coauthor: &str) -> (r: Vec<String>)
    ensures
        r.deep_view() == seq![
            "config"@,
            "--global"@,
            "--replace-all"@,
            "coauthors."@ + key@,
            coauthor@,
        ],
{
    let mut r: Vec<String> = Vec::new();
    r.push(String::from_str("config"));
    r.push(String::from_str("--global"));
    r.push(String::from_str("--replace-all"));
    r.push(full_config_key(key));
    r.push(coauthor.to_owned());
    proof {
        assert(r.deep_view() =~= seq![
            "config"@,
            "--global"@,
            "--replace-all"@,
            "coauthors."@ + key@,
            coauthor@,
        ]);
    }
    r
}

/// The arguments of the invocation that deletes one entry.
pub fn remove_args(key: &str) -> (r: Vec<String>)
    ensures
        r.deep_view() == seq!["config"@, "--global"@, "--unset-all"@, "coauthors."@ + key@],
{
    let mut r: Vec<String> = Vec::new();
    r.push(String::from_str("config"));
    r.push(String::from_str("--global"));
    r.push(String::from_str("--unset-all"));
    r.push(full_config_key(key));
    proof {
        assert(r.deep_view() =~= seq![
            "config"@,
            "--global"@,
            "--unset-all"@,
            "coauthors."@ + key@,
        ]);
    }
    r
}

/// The arguments of the invocation that reads every entry of the section.
pub fn list_args() -> (r: Vec<String>)
    ensures
        r.deep_view() == seq!["config"@, "--global"@, "--get-regexp"@, "^coauthors\\."@],
{
    let mut r: Vec<String> = Vec::new();
    r.push(String::from_str("config"));
    r.push(String::from_str("--global"));
    r.push(String::from_str("--get-regexp"));
    r.push(String::from_str("^coauthors\\."));
    proof {
        assert(r.deep_view() =~= seq!["config"@, "--global"@, "--get-regexp"@, "^coauthors\\."@]);
    }
    r
}

/// Reads the outcome of a lookup invocation: absent on a failed exit or
/// empty output, otherwise the identity without its trailing newline.
pub fn parse_get_output(exit_ok: bool, stdout: &str) -> (r: Option<String>)
    ensures
        r is Some <==> get_result_of(exit_ok, stdout@) is Some,
        r matches Some(v) ==> v@ == get_result_of(exit_ok, stdout@).unwrap(),
{
    if !exit_ok {
        return None;
    }
    let n = stdout.unicode_len();
    if n == 0 {
        return None;
    }
    let c = stdout.get_char(n - 1);
    if c == '\n' {
        let v = stdout.substring_char(0, n - 1).to_owned();
        assert(v@ =~= trim_newline(stdout@));
        Some(v)
    } else {
        Some(stdout.to_owned())
    }
}

/// The position of the first occurrence of `c` in `s`, or `s`'s length.
fn find_char(s: &str, c: char) -> (r: usize)
    ensures
        r == first_index_of(s@, c),
{
    let n = s.unicode_len();
    let mut i: usize = 0;
    while i < n
        invariant
            n == s@.len(),
            i <= n,
            forall|j: int| 0 <= j < i ==> s@[j] != c,
        decreases n - i,
    {
        if s.get_char(i) == c {
            proof {
                lemma_first_index_of_is(s@, c, i as int);
            }
            return i;
        }
        i += 1;
    }
    proof {
        lemma_first_index_of_is(s@, c, n as int);
    }
    n
}

/// Splits a captured output into its lines.
pub fn split_lines(stdout: &str) -> (r: Vec<String>)
    ensures
        r.deep_view() == lines_of(stdout@),
{
    let n = stdout.unicode_len();
    let mut r: Vec<String> = Vec::new();
    let mut start: usize = 0;
    let mut i: usize = 0;
    proof {
        assert(stdout@.subrange(0, n as int) =~= stdout@);
        assert(r.deep_view() + lines_of(stdout@.subrange(0, n as int)) =~= lines_of(stdout@));
    }
    while i < n
        invariant
            n == stdout@.len(),
            start <= i <= n,
            forall|j: int| start <= j < i ==> stdout@[j] != '\n',
            r.deep_view() + lines_of(stdout@.subrange(start as int, n as int)) == lines_of(
                stdout@,
            ),
        decreases n - i,
    {
        if stdout.get_char(i) == '\n' {
            let ghost seg = stdout@.subrange(start as int, n as int);
            proof {
                assert(forall|j: int| 0 <= j < i - start ==> seg[j] != '\n');
                lemma_first_index_of_is(seg, '\n', i - start);
                assert(seg.subrange(0, i - start) =~= stdout@.subrange(start as int, i as int));
                assert(seg.subrange(i - start + 1, seg.len() as int) =~= stdout@.subrange(
                    i + 1,
                    n as int,
                ));
                assert(lines_of(seg) == seq![seg.subrange(0, i - start)] + lines_of(
                    seg.subrange(i - start + 1, seg.len() as int),
                ));
            }
            let line = stdout.substring_char(start, i).to_owned();
            r.push(line);
            proof {
                assert(r.deep_view() + lines_of(stdout@.subrange(i + 1, n as int)) =~= lines_of(
                    stdout@,
                ));
            }
            start = i + 1;
        }
        i += 1;
    }
    let ghost seg = stdout@.subrange(start as int, n as int);
    proof {
        lemma_first_index_of_is(seg, '\n', n - start);
    }
    if start < n {
        let line = stdout.substring_char(start, n).to_owned();
        r.push(line);
    }
    proof {
        assert(r.deep_view() =~= lines_of(stdout@));
    }
    r
}

/// What one line of the listing output names: after the `coauthors.` prefix
/// the key runs to the first space, and the identity follows it. A line
/// without that prefix, or without a space after it, names no entry.
pub open spec fn parsed_list_line(line: Seq<char>) -> Option<(Seq<char>, Seq<char>)> {
    if line.len() <= "coauthors."@.len() || line.subrange(0, "coauthors."@.len() as int)
        != "coauthors."@ {
        None
    } else {
        let rest = line.subrange("coauthors."@.len() as int, line.len() as int);
        let sp = first_index_of(rest, ' ');
        if sp == rest.len() {
            None
        } else {
            Some((rest.subrange(0, sp), rest.subrange(sp + 1, rest.len() as int)))
        }
    }
}

/// Reads one line of the listing output into its display form: the full
/// `key identity` line when `full` is set, the key alone otherwise.
pub fn parse_list_line(line: &str, full: bool) -> (r: Option<String>)
    ensures
        r is Some <==> parsed_list_line(line@) is Some,
        r matches Some(v) ==> v@ == render_entry(parsed_list_line(line@).unwrap(), full),
{
    proof {
        reveal_strlit("coauthors.");
        reveal_strlit(" ");
    }
    let n = line.unicode_len();
    if n <= 10 {
        return None;
    }
    let prefix = line.substring_char(0, 10).to_owned();
    let expected = String::from_str("coauthors.");
    if prefix == expected {
        let rest = line.substring_char(10, n);
        let rlen = rest.unicode_len();
        let sp = find_char(rest, ' ');
        proof {
            lemma_first_index_of(rest@, ' ');
        }
        if sp == rlen {
            return None;
        }
        if full {
            proof {
                assert(render_entry(parsed_list_line(line@).unwrap(), true) =~= rest@);
            }
            Some(rest.to_owned())
        } else {
            let key = rest.substring_char(0, sp);
            Some(key.to_owned())
        }
    } else {
        None
    }
}

/// The display lines read from a whole listing output: one line per entry
/// named, in order; lines that name no entry are passed over.
pub open spec fn rendered_lines(lns: Seq<Seq<char>>, full: bool) -> Seq<Seq<char>>
    decreases lns.len(),
{
    if lns.len() == 0 {
        Seq::empty()
    } else {
        let rest = rendered_lines(lns.drop_first(), full);
        match parsed_list_line(lns.first()) {
            Some(e) => seq![render_entry(e, full)] + rest,
            None => rest,
        }
    }
}

/// Reads a whole listing output into its display lines.
pub fn render_list_output(stdout: &str, full: bool) -> (r: Vec<String>)
    ensures
        r.deep_view() == rendered_lines(lines_of(stdout@), full),
{
    let lns = split_lines(stdout);
    let n = lns.len();
    let mut r: Vec<String> = Vec::new();
    let mut i: usize = 0;
    proof {
        assert(lns.deep_view().subrange(0, n as int) =~= lines_of(stdout@));
        assert(r.deep_view() + rendered_lines(lns.deep_view().subrange(0, n as int), full)
            =~= rendered_lines(lines_of(stdout@), full));
    }
    while i < n
        invariant
            n == lns@.len(),
            i <= n,
            lns.deep_view() == lines_of(stdout@),
            r.deep_view() + rendered_lines(lns.deep_view().subrange(i as int, n as int), full)
                == rendered_lines(lines_of(stdout@), full),
        decreases n - i,
    {
        let ghost pre = lns.deep_view().subrange(i as int, n as int);
        proof {
            assert(pre.drop_first() =~= lns.deep_view().subrange(i + 1, n as int));
            assert(pre.first() == lns.deep_view()[i as int]);
        }
        let ln: &String = &lns[i];
        match parse_list_line(ln.as_str(), full) {
            Some(v) => {
                r.push(v);
            },
            None => {
            },
        }
        proof {
            assert(r.deep_view() + rendered_lines(
                lns.deep_view().subrange(i + 1, n as int),
                full,
            ) =~= rendered_lines(lines_of(stdout@), full));
        }
        i += 1;
    }
    proof {
        assert(r.deep_view() =~= rendered_lines(lines_of(stdout@), full));
    }
    r
}

} // verus!
