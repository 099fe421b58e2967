//! Git: the arguments of each git command SAM runs, and the reading of
//! their output. Running a command is left to the caller, which hands the
//! output back.
use vstd::prelude::*;
use crate::error::SamError;
use crate::text::{
    chars_of, contains_string, find_char, is_ws, is_ws_char, lines, lines_of, sort_dedup,
    sort_strings, sorted_listing, split_char, split_on, str_eq, string_from_chars, string_from_range,
    trim, trim_str,
};

verus! {

/// The default depth of directory listings.
pub const DEFAULT_MAX_DEPTH: usize = 4;

/// Owned copies of string slices.
pub fn to_strings(parts: &Vec<&str>) -> (r: Vec<String>)
    ensures
        r.deep_view() == parts.deep_view(),
{
    let mut r: Vec<String> = Vec::new();
    let mut i: usize = 0;
    while i < parts.len()
        invariant
            i <= parts@.len(),
            r.deep_view() == parts.deep_view().take(i as int),
        decreases parts@.len() - i,
    {
        let ghost before = r.deep_view();
        assert(parts.deep_view()[i as int] == parts@[i as int]@);
        r.push(String::from_str(parts[i]));
        assert(r.deep_view() =~= before.push(parts@[i as int]@));
        assert(parts.deep_view().take(i + 1) =~= parts.deep_view().take(i as int).push(
            parts@[i as int]@,
        ));
        i = i + 1;
    }
    assert(parts.deep_view().take(i as int) =~= parts.deep_view());
    r
}

/// Appends copies of strings.
fn extend_strings(r: &mut Vec<String>, more: &Vec<String>)
    ensures
        final(r).deep_view() == old(r).deep_view() + more.deep_view(),
{
    let ghost start = r.deep_view();
    let mut i: usize = 0;
    while i < more.len()
        invariant
            i <= more@.len(),
            r.deep_view() == start + more.deep_view().take(i as int),
        decreases more@.len() - i,
    {
        let ghost before = r.deep_view();
        r.push(more[i].clone());
        assert(r.deep_view() =~= before.push(more@[i as int]@));
        assert(more.deep_view().take(i + 1) =~= more.deep_view().take(i as int).push(
            more@[i as int]@,
        ));
        i = i + 1;
    }
    assert(more.deep_view().take(i as int) =~= more.deep_view());
}

/// The outcome of a git command: its output, trimmed, when it succeeded;
/// else a `GitError` with its error output, trimmed.
pub fn run_git_result(success: bool, stdout: &str, stderr: &str) -> (r: Result<String, SamError>)
    ensures
        success ==> (r matches Ok(out) && out@ == trim(stdout@)),
        !success ==> (r matches Err(SamError::GitError(m)) && m@ == trim(stderr@)),
{
    if success {
        Ok(trim_str(stdout))
    } else {
        Err(SamError::GitError(trim_str(stderr)))
    }
}

/// The arguments of a blobless, sparse clone of `url` into `dest_name`.
pub fn clone_args(url: &str, dest_name: &str) -> (r: Vec<String>)
    ensures
        r.deep_view() == seq!["clone"@, "--filter=blob:none"@, "--sparse"@, url@, dest_name@],
{
    let r = to_strings(&vec!["clone", "--filter=blob:none", "--sparse", url, dest_name]);
    assert(r.deep_view() =~= seq!["clone"@, "--filter=blob:none"@, "--sparse"@, url@, dest_name@]);
    r
}

/// The arguments that turn on sparse checkout in no-cone mode.
pub fn init_sparse() -> (r: Vec<String>)
    ensures
        r.deep_view() == seq!["sparse-checkout"@, "init"@, "--no-cone"@],
{
    let r = to_strings(&vec!["sparse-checkout", "init", "--no-cone"]);
    assert(r.deep_view() =~= seq!["sparse-checkout"@, "init"@, "--no-cone"@]);
    r
}

/// The arguments that replace the sparse-checkout patterns by `patterns`.
pub fn set_sparse(patterns: &Vec<String>) -> (r: Vec<String>)
    ensures
        r.deep_view() == seq!["sparse-checkout"@, "set"@] + patterns.deep_view(),
{
    let mut r = to_strings(&vec!["sparse-checkout", "set"]);
    assert(r.deep_view() =~= seq!["sparse-checkout"@, "set"@]);
    extend_strings(&mut r, patterns);
    r
}

/// The patterns actually added: `.sam` is added too unless it is there, so
/// that the profiles and settings stay on disk.
pub open spec fn with_sam_dir(patterns: Seq<Seq<char>>) -> Seq<Seq<char>> {
    if patterns.contains(".sam"@) {
        patterns
    } else {
        patterns.push(".sam"@)
    }
}

/// The arguments that add `patterns` to sparse checkout, never removing
/// any; `.sam` is always among them.
pub fn add_sparse(patterns: &Vec<String>) -> (r: Vec<String>)
    ensures
        r.deep_view() == seq!["sparse-checkout"@, "add"@] + with_sam_dir(patterns.deep_view()),
{
    let mut all = patterns.clone();
    assert(all.deep_view() =~= patterns.deep_view());
    if !contains_string(&all, ".sam") {
        let ghost before = all.deep_view();
        all.push(String::from_str(".sam"));
        assert(all.deep_view() =~= before.push(".sam"@));
    }
    let mut r = to_strings(&vec!["sparse-checkout", "add"]);
    assert(r.deep_view() =~= seq!["sparse-checkout"@, "add"@]);
    extend_strings(&mut r, &all);
    r
}

/// The arguments that list the sparse-checkout patterns.
pub fn list_sparse_args() -> (r: Vec<String>)
    ensures
        r.deep_view() == seq!["sparse-checkout"@, "list"@],
{
    let r = to_strings(&vec!["sparse-checkout", "list"]);
    assert(r.deep_view() =~= seq!["sparse-checkout"@, "list"@]);
    r
}

/// The non-empty lines of `s`.
pub open spec fn nonempty_lines(s: Seq<char>) -> Seq<Seq<char>> {
    lines(s).filter(|l: Seq<char>| l.len() > 0)
}

/// The non-empty lines of a text.
pub fn nonempty_lines_of(s: &str) -> (r: Vec<String>)
    ensures
        r.deep_view() == nonempty_lines(s@),
{
    let ls = lines_of(s);
    let ghost lv = ls.deep_view();
    let mut r: Vec<String> = Vec::new();
    let mut i: usize = 0;
    proof {
        reveal(Seq::filter);
        assert(lv.take(0) =~= Seq::<Seq<char>>::empty());
    }
    while i < ls.len()
        invariant
            lv == ls.deep_view(),
            lv == lines(s@),
            i <= lv.len(),
            r.deep_view() == lv.take(i as int).filter(|l: Seq<char>| l.len() > 0),
        decreases lv.len() - i,
    {
        let ghost before = r.deep_view();
        proof {
            reveal(Seq::filter);
            assert(lv.take(i + 1).drop_last() =~= lv.take(i as int));
        }
        if !ls[i].as_str().is_empty() {
            r.push(ls[i].clone());
            assert(r.deep_view() =~= before.push(lv[i as int]));
        }
        i = i + 1;
    }
    assert(lv.take(i as int) =~= lv);
    r
}

/// The sparse-checkout patterns in the output of `sparse-checkout list`.
pub fn list_sparse(output: &str) -> (r: Vec<String>)
    ensures
        r.deep_view() == nonempty_lines(output@),
{
    nonempty_lines_of(output)
}

/// The domains still hydrated when `pattern` is dehydrated: all of them
/// but `pattern`.
pub open spec fn remaining_domains(hydrated: Seq<Seq<char>>, pattern: Seq<char>) -> Seq<Seq<char>> {
    hydrated.filter(differs_from(pattern))
}

/// The test "is not `p`".
pub open spec fn differs_from(p: Seq<char>) -> spec_fn(Seq<char>) -> bool {
    |d: Seq<char>| d != p
}

/// The arguments that dehydrate `pattern`: the sparse checkout is set anew
/// to `.sam` and the hydrated domains other than `pattern`.
pub fn remove_sparse(hydrated: &Vec<String>, pattern: &str) -> (r: Vec<String>)
    ensures
        r.deep_view() == seq!["sparse-checkout"@, "set"@, ".sam"@] + remaining_domains(
            hydrated.deep_view(),
            pattern@,
        ),
{
    let ghost hv = hydrated.deep_view();
    let mut patterns: Vec<String> = Vec::new();
    patterns.push(String::from_str(".sam"));
    assert(patterns.deep_view() =~= seq![".sam"@]);
    let mut i: usize = 0;
    proof {
        reveal(Seq::filter);
        assert(hv.take(0) =~= Seq::<Seq<char>>::empty());
    }
    while i < hydrated.len()
        invariant
            hv == hydrated.deep_view(),
            i <= hv.len(),
            patterns.deep_view() == seq![".sam"@] + hv.take(i as int).filter(differs_from(pattern@)),
        decreases hv.len() - i,
    {
        let ghost before = patterns.deep_view();
        proof {
            reveal(Seq::filter);
            assert(hv.take(i + 1).drop_last() =~= hv.take(i as int));
        }
        if !str_eq(hydrated[i].as_str(), pattern) {
            patterns.push(hydrated[i].clone());
            assert(patterns.deep_view() =~= before.push(hv[i as int]));
        } else {
            assert(hv[i as int] == pattern@);
        }
        proof {
            assert(seq![".sam"@] + hv.take(i + 1).filter(differs_from(pattern@))
                =~= patterns.deep_view());
        }
        i = i + 1;
    }
    assert(hv.take(i as int) =~= hv);
    let r = set_sparse(&patterns);
    assert(r.deep_view() =~= seq!["sparse-checkout"@, "set"@, ".sam"@] + remaining_domains(
        hv,
        pattern@,
    ));
    r
}

/// The arguments that re-materialize the files of `domain`.
pub fn checkout_domain(domain: &str) -> (r: Vec<String>)
    ensures
        r.deep_view() == seq!["checkout"@, "HEAD"@, "--"@, domain@],
{
    let r = to_strings(&vec!["checkout", "HEAD", "--", domain]);
    assert(r.deep_view() =~= seq!["checkout"@, "HEAD"@, "--"@, domain@]);
    r
}

/// The arguments that turn sparse checkout off.
pub fn disable_sparse() -> (r: Vec<String>)
    ensures
        r.deep_view() == seq!["sparse-checkout"@, "disable"@],
{
    let r = to_strings(&vec!["sparse-checkout", "disable"]);
    assert(r.deep_view() =~= seq!["sparse-checkout"@, "disable"@]);
    r
}

/// The arguments that ask whether a directory is inside a work tree.
pub fn is_worktree_args() -> (r: Vec<String>)
    ensures
        r.deep_view() == seq!["rev-parse"@, "--is-inside-work-tree"@],
{
    let r = to_strings(&vec!["rev-parse", "--is-inside-work-tree"]);
    assert(r.deep_view() =~= seq!["rev-parse"@, "--is-inside-work-tree"@]);
    r
}

/// The arguments that print the top-level directory of the repository.
pub fn top_level_args() -> (r: Vec<String>)
    ensures
        r.deep_view() == seq!["rev-parse"@, "--show-toplevel"@],
{
    let r = to_strings(&vec!["rev-parse", "--show-toplevel"]);
    assert(r.deep_view() =~= seq!["rev-parse"@, "--show-toplevel"@]);
    r
}

/// The arguments that list a domain's path in the tree of `HEAD`.
pub fn domain_exists_args(domain: &str) -> (r: Vec<String>)
    ensures
        r.deep_view() == seq!["ls-tree"@, "--name-only"@, "HEAD"@, domain@],
{
    let r = to_strings(&vec!["ls-tree", "--name-only", "HEAD", domain]);
    assert(r.deep_view() =~= seq!["ls-tree"@, "--name-only"@, "HEAD"@, domain@]);
    r
}

/// Whether the domain exists in the tree: git listed something. A git
/// failure means it does not; any other error is passed on.
pub fn domain_exists(result: Result<String, SamError>) -> (r: Result<bool, SamError>)
    ensures
        match result {
            Ok(out) => r == Ok::<bool, SamError>(out@.len() > 0),
            Err(SamError::GitError(_)) => r == Ok::<bool, SamError>(false),
            Err(e) => r == Err::<bool, SamError>(e),
        },
{
    match result {
        Ok(out) => Ok(!out.as_str().is_empty()),
        Err(SamError::GitError(_)) => Ok(false),
        Err(e) => Err(e),
    }
}

/// The arguments that list the files of a domain in the tree of `HEAD`.
pub fn count_tree_files_args(domain: &str) -> (r: Vec<String>)
    ensures
        r.deep_view() == seq!["ls-tree"@, "-r"@, "--name-only"@, "HEAD"@, domain@],
{
    let r = to_strings(&vec!["ls-tree", "-r", "--name-only", "HEAD", domain]);
    assert(r.deep_view() =~= seq!["ls-tree"@, "-r"@, "--name-only"@, "HEAD"@, domain@]);
    r
}

/// The number of files listed: the number of lines of the output.
pub fn count_tree_files(output: &str) -> (r: usize)
    ensures
        r == if output@.len() == 0 { 0 } else { lines(output@).len() },
{
    if output.is_empty() {
        return 0;
    }
    lines_of(output).len()
}

/// `s` without any trailing `c` (`str::trim_end_matches` with a character).
pub open spec fn trim_end_char(s: Seq<char>, c: char) -> Seq<char>
    decreases s.len(),
{
    if s.len() > 0 && s.last() == c {
        trim_end_char(s.drop_last(), c)
    } else {
        s
    }
}

/// The part of `s` after its last `c`, or all of `s` without one
/// (`str::rsplit(c).next()`).
pub open spec fn after_last(s: Seq<char>, c: char) -> Seq<char>
    decreases s.len(),
{
    if s.len() == 0 {
        s
    } else if s.last() == c {
        Seq::empty()
    } else {
        after_last(s.drop_last(), c).push(s.last())
    }
}

/// `s` without any number of trailing `.git` (`str::trim_end_matches(".git")`).
pub open spec fn strip_git_suffix(s: Seq<char>) -> Seq<char>
    decreases s.len(),
{
    if s.len() >= 4 && s.subrange(s.len() - 4, s.len() as int) == seq!['.', 'g', 'i', 't'] {
        strip_git_suffix(s.take(s.len() - 4))
    } else {
        s
    }
}

/// The directory name for a clone of `url`: the last path segment, after
/// any `host:` part, without trailing slashes or `.git`.
pub open spec fn dir_name_of_url(url: Seq<char>) -> Seq<char> {
    strip_git_suffix(after_last(after_last(after_last(trim_end_char(url, '/'), '/'), ':'), '/'))
}

proof fn lemma_trim_end_char_at(s: Seq<char>, c: char, k: int)
    requires
        0 <= k <= s.len(),
        forall|j: int| k <= j < s.len() ==> s[j] == c,
        k == 0 || s[k - 1] != c,
    ensures
        trim_end_char(s, c) == s.take(k),
    decreases s.len() - k,
{
    if k < s.len() {
        assert(s.drop_last().take(k) =~= s.take(k));
        lemma_trim_end_char_at(s.drop_last(), c, k);
    } else {
        assert(s.take(k) =~= s);
    }
}

proof fn lemma_after_last_at(s: Seq<char>, c: char, k: int)
    requires
        0 <= k <= s.len(),
        forall|j: int| k <= j < s.len() ==> s[j] != c,
        k == 0 || s[k - 1] == c,
    ensures
        after_last(s, c) == s.skip(k),
    decreases s.len() - k,
{
    if k < s.len() {
        lemma_after_last_at(s.drop_last(), c, k);
        assert(s.drop_last().skip(k).push(s.last()) =~= s.skip(k));
    } else {
        assert(s.skip(k) =~= Seq::<char>::empty());
        if s.len() > 0 {
            assert(s.last() == c);
        }
    }
}

/// The part of a string after its last `c`.
fn after_last_str(s: &str, c: char) -> (r: String)
    ensures
        r@ == after_last(s@, c),
{
    let cs = chars_of(s);
    let mut k: usize = cs.len();
    while k > 0 && cs[k - 1] != c
        invariant
            cs@ == s@,
            k <= cs@.len(),
            forall|j: int| k <= j < cs@.len() ==> cs@[j] != c,
        decreases k,
    {
        k = k - 1;
    }
    proof {
        lemma_after_last_at(cs@, c, k as int);
        assert(cs@.skip(k as int) =~= cs@.subrange(k as int, cs@.len() as int));
    }
    string_from_range(&cs, k, cs.len())
}

/// The directory name for a clone of `url`, as in `git@host:org/repo.git`,
/// `https://host/org/repo.git` or `https://host/org/repo` giving `repo`.
pub fn dir_from_url(url: &str) -> (r: String)
    ensures
        r@ == dir_name_of_url(url@),
{
    let cs = chars_of(url);
    let mut k: usize = cs.len();
    while k > 0 && cs[k - 1] == '/'
        invariant
            cs@ == url@,
            k <= cs@.len(),
            forall|j: int| k <= j < cs@.len() ==> cs@[j] == '/',
        decreases k,
    {
        k = k - 1;
    }
    proof {
        lemma_trim_end_char_at(cs@, '/', k as int);
        assert(cs@.take(k as int) =~= cs@.subrange(0, k as int));
    }
    let trimmed = string_from_range(&cs, 0, k);
    let a = after_last_str(trimmed.as_str(), '/');
    let b = after_last_str(a.as_str(), ':');
    let name = after_last_str(b.as_str(), '/');
    let ns = chars_of(name.as_str());
    let mut hi: usize = ns.len();
    assert(ns@.take(hi as int) =~= ns@);
    while hi >= 4 && ns[hi - 4] == '.' && ns[hi - 3] == 'g' && ns[hi - 2] == 'i' && ns[hi - 1] == 't'
        invariant
            hi <= ns@.len(),
            strip_git_suffix(ns@) == strip_git_suffix(ns@.take(hi as int)),
        decreases hi,
    {
        proof {
            let t = ns@.take(hi as int);
            assert(t.subrange(t.len() - 4, t.len() as int) =~= seq!['.', 'g', 'i', 't']);
            assert(t.take(t.len() - 4) =~= ns@.take(hi - 4));
        }
        hi = hi - 4;
    }
    proof {
        let t = ns@.take(hi as int);
        if t.len() >= 4 && t.subrange(t.len() - 4, t.len() as int) == seq!['.', 'g', 'i', 't'] {
            assert(t.subrange(t.len() - 4, t.len() as int)[0] == ns@[hi - 4]);
            assert(t.subrange(t.len() - 4, t.len() as int)[1] == ns@[hi - 3]);
            assert(t.subrange(t.len() - 4, t.len() as int)[2] == ns@[hi - 2]);
            assert(t.subrange(t.len() - 4, t.len() as int)[3] == ns@[hi - 1]);
        }
        assert(ns@.take(ns@.len() as int) =~= ns@);
        assert(t =~= ns@.subrange(0, hi as int));
    }
    string_from_range(&ns, 0, hi)
}

/// The arguments that list every directory of the tree of `HEAD`.
pub fn list_all_dirs_args() -> (r: Vec<String>)
    ensures
        r.deep_view() == seq!["ls-tree"@, "-r"@, "-d"@, "--name-only"@, "HEAD"@],
{
    let r = to_strings(&vec!["ls-tree", "-r", "-d", "--name-only", "HEAD"]);
    assert(r.deep_view() =~= seq!["ls-tree"@, "-r"@, "-d"@, "--name-only"@, "HEAD"@]);
    r
}

/// Whether a path has a component starting with a dot after its first one.
pub open spec fn has_hidden_part(l: Seq<char>) -> bool {
    exists|i: int| 0 <= i < l.len() - 1 && #[trigger] l[i] == '/' && l[i + 1] == '.'
}

/// Whether a listed directory is kept: not empty, not hidden at any level,
/// and at most `max_depth` components deep.
pub open spec fn listed_dir(l: Seq<char>, max_depth: nat) -> bool {
    &&& l.len() > 0
    &&& l[0] != '.'
    &&& !has_hidden_part(l)
    &&& split_on(l, '/').len() <= max_depth
}

/// Whether a path is kept in a directory listing.
fn is_listed_dir(l: &str, max_depth: usize) -> (r: bool)
    ensures
        r == listed_dir(l@, max_depth as nat),
{
    let cs = chars_of(l);
    if cs.len() == 0 || cs[0] == '.' {
        return false;
    }
    let mut i: usize = 0;
    while i < cs.len() - 1
        invariant
            cs@ == l@,
            cs@.len() > 0,
            i <= cs@.len(),
            forall|j: int| 0 <= j < i && j < cs@.len() - 1 ==> !(#[trigger] cs@[j] == '/' && cs@[j + 1] == '.'),
        decreases cs@.len() - i,
    {
        if cs[i] == '/' && cs[i + 1] == '.' {
            return false;
        }
        i = i + 1;
    }
    let parts = split_char(l, '/');
    parts.len() <= max_depth
}

/// The directories of the tree, as `ls-tree -r -d --name-only HEAD` lists
/// them, that are kept at `max_depth`, sorted.
pub fn list_all_dirs(output: &str, max_depth: usize) -> (r: Vec<String>)
    ensures
        r.deep_view() == lines(output@).filter(|l: Seq<char>| listed_dir(l, max_depth as nat)).sort_by(
            crate::text::lex_leq(),
        ),
{
    let ls = lines_of(output);
    let ghost lv = ls.deep_view();
    let ghost pred = |l: Seq<char>| listed_dir(l, max_depth as nat);
    let mut kept: Vec<String> = Vec::new();
    let mut i: usize = 0;
    proof {
        reveal(Seq::filter);
        assert(lv.take(0) =~= Seq::<Seq<char>>::empty());
    }
    while i < ls.len()
        invariant
            lv == ls.deep_view(),
            lv == lines(output@),
            pred == (|l: Seq<char>| listed_dir(l, max_depth as nat)),
            i <= lv.len(),
            kept.deep_view() == lv.take(i as int).filter(pred),
        decreases lv.len() - i,
    {
        let ghost before = kept.deep_view();
        proof {
            reveal(Seq::filter);
            assert(lv.take(i + 1).drop_last() =~= lv.take(i as int));
        }
        if is_listed_dir(ls[i].as_str(), max_depth) {
            kept.push(ls[i].clone());
            assert(kept.deep_view() =~= before.push(lv[i as int]));
        }
        i = i + 1;
    }
    assert(lv.take(i as int) =~= lv);
    sort_strings(&kept)
}

/// The directories of the tree at the default depth.
pub fn list_top_level_dirs(output: &str) -> (r: Vec<String>)
    ensures
        r.deep_view() == lines(output@).filter(
            |l: Seq<char>| listed_dir(l, DEFAULT_MAX_DEPTH as nat),
        ).sort_by(crate::text::lex_leq()),
{
    list_all_dirs(output, DEFAULT_MAX_DEPTH)
}

/// The arguments that list the entries directly under `dir` in `HEAD`.
pub fn dir_has_files_args(dir: &str) -> (r: Vec<String>)
    ensures
        r.deep_view() == seq!["ls-tree"@, "HEAD:"@ + dir@],
{
    let mut spec_arg = String::from_str("HEAD:");
    spec_arg.append(dir);
    let mut r = to_strings(&vec!["ls-tree"]);
    let ghost before = r.deep_view();
    assert(before =~= seq!["ls-tree"@]);
    r.push(spec_arg);
    assert(r.deep_view() =~= before.push("HEAD:"@ + dir@));
    assert(r.deep_view() =~= seq!["ls-tree"@, "HEAD:"@ + dir@]);
    r
}

/// A field separator of `ls-tree` lines for `dir_has_files`.
pub open spec fn is_field_sep(c: char) -> bool {
    c == ' ' || c == '\t'
}

/// Position of the first separator in `s`, or `s.len()`.
pub open spec fn find_sep(s: Seq<char>) -> nat
    decreases s.len(),
{
    if s.len() == 0 {
        0
    } else if is_field_sep(s[0]) {
        0
    } else {
        1 + find_sep(s.drop_first())
    }
}

proof fn lemma_find_sep(s: Seq<char>, q: int)
    requires
        0 <= q <= s.len(),
        forall|j: int| 0 <= j < q ==> !is_field_sep(s[j]),
        q == s.len() || is_field_sep(s[q]),
    ensures
        find_sep(s) == q,
    decreases q,
{
    if q > 0 {
        lemma_find_sep(s.drop_first(), q - 1);
    }
}

/// Whether an `ls-tree` line describes a file: split at spaces and tabs
/// into at least three fields, its second field is `blob`.
pub open spec fn is_blob_line(line: Seq<char>) -> bool {
    let a = find_sep(line);
    let rest = line.skip(a + 1int);
    let b = find_sep(rest);
    &&& a < line.len()
    &&& b < rest.len()
    &&& rest.take(b as int) == "blob"@
}

/// Whether an `ls-tree` line describes a file.
fn blob_line(line: &str) -> (r: bool)
    ensures
        r == is_blob_line(line@),
{
    let cs = chars_of(line);
    let n = cs.len();
    let mut a: usize = 0;
    while a < n && cs[a] != ' ' && cs[a] != '\t'
        invariant
            cs@ == line@,
            n == cs@.len(),
            a <= n,
            forall|j: int| 0 <= j < a ==> !is_field_sep(cs@[j]),
        decreases n - a,
    {
        a = a + 1;
    }
    proof {
        lemma_find_sep(cs@, a as int);
    }
    if a == n {
        return false;
    }
    let mut b: usize = a + 1;
    while b < n && cs[b] != ' ' && cs[b] != '\t'
        invariant
            cs@ == line@,
            n == cs@.len(),
            a < n,
            a + 1 <= b <= n,
            forall|j: int| a + 1 <= j < b ==> !is_field_sep(cs@[j]),
        decreases n - b,
    {
        b = b + 1;
    }
    let ghost rest = cs@.skip(a + 1);
    proof {
        assert forall|j: int| 0 <= j < b - (a + 1) implies !is_field_sep(rest[j]) by {
            assert(rest[j] == cs@[j + a + 1]);
        }
        lemma_find_sep(rest, b - (a + 1));
    }
    if b == n {
        return false;
    }
    let field = string_from_range(&cs, a + 1, b);
    assert(field@ =~= rest.take(b - (a + 1)));
    str_eq(field.as_str(), "blob")
}

/// Whether a directory holds files directly, from `ls-tree HEAD:<dir>`:
/// some line of the output is a `blob`.
pub fn dir_has_files(output: &str) -> (r: bool)
    ensures
        r == exists|i: int| 0 <= i < lines(output@).len() && is_blob_line(#[trigger] lines(output@)[i]),
{
    let ls = lines_of(output);
    let mut i: usize = 0;
    while i < ls.len()
        invariant
            ls.deep_view() == lines(output@),
            i <= ls@.len(),
            forall|j: int| 0 <= j < i ==> !is_blob_line(#[trigger] lines(output@)[j]),
        decreases ls@.len() - i,
    {
        assert(ls.deep_view()[i as int] == ls@[i as int]@);
        if blob_line(ls[i].as_str()) {
            return true;
        }
        i = i + 1;
    }
    false
}

/// The words of `s` after a word `cur` begun before it: the maximal runs
/// of characters that are not white space.
pub open spec fn words_from(s: Seq<char>, cur: Seq<char>) -> Seq<Seq<char>>
    decreases s.len(),
{
    let done: Seq<Seq<char>> = if cur.len() > 0 {
        seq![cur]
    } else {
        Seq::empty()
    };
    if s.len() == 0 {
        done
    } else if is_ws(s[0]) {
        done + words_from(s.drop_first(), Seq::empty())
    } else {
        words_from(s.drop_first(), cur.push(s[0]))
    }
}

/// The words of `s` (`str::split_whitespace`).
pub open spec fn words(s: Seq<char>) -> Seq<Seq<char>> {
    words_from(s, Seq::empty())
}

/// The words of a string (`str::split_whitespace`).
pub fn split_whitespace_str(s: &str) -> (r: Vec<String>)
    ensures
        r.deep_view() == words(s@),
{
    let cs = chars_of(s);
    let mut r: Vec<String> = Vec::new();
    let mut cur: Vec<char> = Vec::new();
    let mut i: usize = 0;
    assert(cs@.skip(0) =~= cs@);
    while i < cs.len()
        invariant
            cs@ == s@,
            i <= cs@.len(),
            words(s@) == r.deep_view() + words_from(cs@.skip(i as int), cur@),
        decreases cs@.len() - i,
    {
        let ghost t = cs@.skip(i as int);
        assert(t.drop_first() =~= cs@.skip(i + 1));
        assert(t[0] == cs@[i as int]);
        if is_ws_char(cs[i]) {
            if cur.len() > 0 {
                let w = string_from_chars(cur.as_slice());
                let ghost before = r.deep_view();
                r.push(w);
                assert(r.deep_view() =~= before.push(cur@));
                assert(words(s@) =~= r.deep_view() + words_from(cs@.skip(i + 1), Seq::empty()));
            } else {
                assert(words(s@) =~= r.deep_view() + words_from(cs@.skip(i + 1), Seq::empty()));
            }
            cur = Vec::new();
            assert(cur@ =~= Seq::<char>::empty());
        } else {
            cur.push(cs[i]);
        }
        i = i + 1;
    }
    assert(cs@.skip(i as int).len() == 0);
    if cur.len() > 0 {
        let w = string_from_chars(cur.as_slice());
        let ghost before = r.deep_view();
        r.push(w);
        assert(r.deep_view() =~= before.push(cur@));
    }
    assert(words(s@) =~= r.deep_view());
    r
}

/// One entry of `git ls-tree`.
#[derive(Debug, Clone)]
pub struct TreeEntry {
    pub mode: String,
    pub kind: String,
    pub hash: String,
    pub path: String,
}

/// The text of an entry: mode, kind, hash and path.
pub open spec fn entry_text(e: TreeEntry) -> (Seq<char>, Seq<char>, Seq<char>, Seq<char>) {
    (e.mode@, e.kind@, e.hash@, e.path@)
}

/// The entry a `<mode> <type> <hash>\t<name>` line describes, under
/// `path`; none for a line without a tab or with fewer than three fields
/// before it.
pub open spec fn entry_of_line(path: Seq<char>, line: Seq<char>) -> Option<
    (Seq<char>, Seq<char>, Seq<char>, Seq<char>),
> {
    let k = find_char(line, '\t');
    let w = words(line.take(k as int));
    let name = line.skip(k + 1int);
    if k >= line.len() || w.len() < 3 {
        None
    } else {
        Some((w[0], w[1], w[2], if path.len() == 0 { name } else { path + "/"@ + name }))
    }
}

/// The entries described by the lines `ls`, in order.
pub open spec fn entries_of(path: Seq<char>, ls: Seq<Seq<char>>) -> Seq<
    (Seq<char>, Seq<char>, Seq<char>, Seq<char>),
>
    decreases ls.len(),
{
    if ls.len() == 0 {
        Seq::empty()
    } else {
        let rest = entries_of(path, ls.drop_last());
        match entry_of_line(path, ls.last()) {
            Some(e) => rest.push(e),
            None => rest,
        }
    }
}

/// The arguments that list the entries directly under `path` (the root
/// when empty) in `HEAD`.
pub fn list_tree_entries_args(path: &str) -> (r: Vec<String>)
    ensures
        r.deep_view() == seq![
            "ls-tree"@,
            if path@.len() == 0 { "HEAD"@ } else { "HEAD:"@ + path@ },
        ],
{
    let mut tree = String::from_str("HEAD");
    if !path.is_empty() {
        tree = String::from_str("HEAD:");
        tree.append(path);
    }
    let mut r = to_strings(&vec!["ls-tree"]);
    let ghost before = r.deep_view();
    assert(before =~= seq!["ls-tree"@]);
    r.push(tree);
    assert(r.deep_view() =~= before.push(if path@.len() == 0 { "HEAD"@ } else { "HEAD:"@ + path@ }));
    r
}

/// The entry described by one line.
fn parse_entry_line(path: &str, line: &str) -> (r: Option<TreeEntry>)
    ensures
        match r {
            Some(e) => entry_of_line(path@, line@) == Some(entry_text(e)),
            None => entry_of_line(path@, line@) is None,
        },
{
    let cs = chars_of(line);
    let mut k: usize = 0;
    while k < cs.len() && cs[k] != '\t'
        invariant
            cs@ == line@,
            k <= cs@.len(),
            forall|j: int| 0 <= j < k ==> cs@[j] != '\t',
        decreases cs@.len() - k,
    {
        k = k + 1;
    }
    proof {
        crate::text::lemma_find_char_at(cs@, '\t', k as int);
    }
    if k == cs.len() {
        return None;
    }
    let meta = string_from_range(&cs, 0, k);
    let name = string_from_range(&cs, k + 1, cs.len());
    assert(meta@ =~= line@.take(k as int));
    assert(name@ =~= line@.skip(k + 1));
    let w = split_whitespace_str(meta.as_str());
    if w.len() < 3 {
        return None;
    }
    let full = if path.is_empty() {
        name
    } else {
        let mut f = String::from_str(path);
        f.append("/");
        f.append(name.as_str());
        f
    };
    assert(w.deep_view()[0] == w@[0]@);
    assert(w.deep_view()[1] == w@[1]@);
    assert(w.deep_view()[2] == w@[2]@);
    Some(TreeEntry { mode: w[0].clone(), kind: w[1].clone(), hash: w[2].clone(), path: full })
}

/// The entries under `path` listed in the output of `ls-tree HEAD:<path>`.
pub fn list_tree_entries(path: &str, output: &str) -> (r: Vec<TreeEntry>)
    ensures
        r@.map_values(|e: TreeEntry| entry_text(e)) == entries_of(path@, lines(output@)),
{
    let ls = lines_of(output);
    let ghost lv = ls.deep_view();
    let mut entries: Vec<TreeEntry> = Vec::new();
    let mut i: usize = 0;
    assert(lv.take(0) =~= Seq::<Seq<char>>::empty());
    assert(entries@.map_values(|e: TreeEntry| entry_text(e)) =~= Seq::empty());
    while i < ls.len()
        invariant
            lv == ls.deep_view(),
            lv == lines(output@),
            i <= lv.len(),
            entries@.map_values(|e: TreeEntry| entry_text(e)) == entries_of(path@, lv.take(i as int)),
        decreases lv.len() - i,
    {
        let ghost before = entries@;
        assert(lv.take(i + 1).drop_last() =~= lv.take(i as int));
        assert(lv.take(i + 1).last() == ls@[i as int]@);
        match parse_entry_line(path, ls[i].as_str()) {
            Some(e) => {
                entries.push(e);
                assert(entries@.map_values(|e: TreeEntry| entry_text(e)) =~= before.map_values(
                    |e: TreeEntry| entry_text(e),
                ).push(entry_text(entries@[before.len() as int])));
            },
            None => {},
        }
        i = i + 1;
    }
    assert(lv.take(i as int) =~= lv);
    entries
}

/// The arguments of the three commands that list changed files: unstaged
/// changes, staged changes, and commits not yet pushed upstream.
pub fn changed_files_args() -> (r: Vec<Vec<String>>)
    ensures
        r@.len() == 3,
        r@[0].deep_view() == seq!["diff"@, "--name-only"@],
        r@[1].deep_view() == seq!["diff"@, "--cached"@, "--name-only"@],
        r@[2].deep_view() == seq!["log"@, "@{upstream}..HEAD"@, "--name-only"@, "--format="@],
{
    let a = to_strings(&vec!["diff", "--name-only"]);
    let b = to_strings(&vec!["diff", "--cached", "--name-only"]);
    let c = to_strings(&vec!["log", "@{upstream}..HEAD", "--name-only", "--format="]);
    assert(a.deep_view() =~= seq!["diff"@, "--name-only"@]);
    assert(b.deep_view() =~= seq!["diff"@, "--cached"@, "--name-only"@]);
    assert(c.deep_view() =~= seq!["log"@, "@{upstream}..HEAD"@, "--name-only"@, "--format="@]);
    let mut r: Vec<Vec<String>> = Vec::new();
    r.push(a);
    r.push(b);
    r.push(c);
    r
}

/// The files named by one command's output; none when it failed.
pub open spec fn files_named(output: Option<String>) -> Set<Seq<char>> {
    match output {
        Some(o) => nonempty_lines(o@).to_set(),
        None => Set::empty(),
    }
}

/// Appends the non-empty lines of an output that is there.
fn push_lines(all: &mut Vec<String>, output: &Option<String>)
    ensures
        final(all).deep_view().to_set() == old(all).deep_view().to_set().union(files_named(*output)),
{
    match output {
        Some(o) => {
            let ls = nonempty_lines_of(o.as_str());
            let ghost before = all.deep_view();
            extend_strings(all, &ls);
            assert(all.deep_view().to_set() =~= before.to_set().union(ls.deep_view().to_set())) by {
                assert forall|x: Seq<char>| #[trigger] all.deep_view().to_set().contains(x) <==> (
                before.to_set().contains(x) || ls.deep_view().to_set().contains(x)) by {
                    let a = all.deep_view();
                    if a.contains(x) {
                        let k = choose|k: int| 0 <= k < a.len() && a[k] == x;
                        if k < before.len() {
                            assert(before[k] == x);
                        } else {
                            assert(ls.deep_view()[k - before.len()] == x);
                        }
                    }
                    if before.contains(x) {
                        let k = choose|k: int| 0 <= k < before.len() && before[k] == x;
                        assert(a[k] == x);
                    }
                    if ls.deep_view().contains(x) {
                        let k = choose|k: int| 0 <= k < ls.deep_view().len() && ls.deep_view()[k] == x;
                        assert(a[k + before.len()] == x);
                    }
                }
            }
        },
        None => {
            assert(all.deep_view().to_set() =~= all.deep_view().to_set().union(Set::empty()));
        },
    }
}

/// The changed files, from the outputs of the three commands of
/// `changed_files_args` (none for one that failed): every file named by
/// any of them, once, sorted.
pub fn changed_files(unstaged: Option<String>, staged: Option<String>, unpushed: Option<String>) -> (r:
    Vec<String>)
    ensures
        sorted_listing(
            r.deep_view(),
            files_named(unstaged).union(files_named(staged)).union(files_named(unpushed)),
        ),
{
    let mut all: Vec<String> = Vec::new();
    assert(all.deep_view().to_set() =~= Set::empty());
    push_lines(&mut all, &unstaged);
    push_lines(&mut all, &staged);
    push_lines(&mut all, &unpushed);
    assert(all.deep_view().to_set() =~= files_named(unstaged).union(files_named(staged)).union(
        files_named(unpushed),
    ));
    sort_dedup(&all)
}

/// A string without any trailing `c` (`str::trim_end_matches`).
pub fn trim_end_char_str(s: &str, c: char) -> (r: String)
    ensures
        r@ == trim_end_char(s@, c),
{
    let cs = chars_of(s);
    let mut k: usize = cs.len();
    while k > 0 && cs[k - 1] == c
        invariant
            cs@ == s@,
            k <= cs@.len(),
            forall|j: int| k <= j < cs@.len() ==> cs@[j] == c,
        decreases k,
    {
        k = k - 1;
    }
    proof {
        lemma_trim_end_char_at(cs@, c, k as int);
        assert(cs@.take(k as int) =~= cs@.subrange(0, k as int));
    }
    string_from_range(&cs, 0, k)
}

/// Adding to sparse checkout never drops a pattern, and always keeps `.sam`:
/// the patterns come first, in order, and `.sam` is among the result.
pub proof fn lemma_add_sparse_keeps_patterns(patterns: Seq<Seq<char>>)
    ensures
        patterns.is_prefix_of(with_sam_dir(patterns)),
        with_sam_dir(patterns).contains(".sam"@),
        with_sam_dir(patterns).len() <= patterns.len() + 1,
{
    if patterns.contains(".sam"@) {
        assert(patterns =~= patterns.subrange(0, patterns.len() as int));
    } else {
        assert(patterns =~= patterns.push(".sam"@).subrange(0, patterns.len() as int));
        assert(patterns.push(".sam"@)[patterns.len() as int] == ".sam"@);
    }
}

/// Dehydrating `pattern` removes exactly it: it is no longer among the
/// hydrated domains, and every other hydrated domain stays.
pub proof fn lemma_remaining_domains(hydrated: Seq<Seq<char>>, pattern: Seq<char>)
    ensures
        !remaining_domains(hydrated, pattern).contains(pattern),
        forall|x: Seq<char>|
            x != pattern ==> (#[trigger] remaining_domains(hydrated, pattern).contains(x)
                <==> hydrated.contains(x)),
{
    let pred = differs_from(pattern);
    let r = hydrated.filter(pred);
    if r.contains(pattern) {
        let k = choose|k: int| 0 <= k < r.len() && r[k] == pattern;
        hydrated.lemma_filter_pred(pred, k);
    }
    assert forall|x: Seq<char>| x != pattern implies (#[trigger] remaining_domains(
        hydrated,
        pattern,
    ).contains(x) <==> hydrated.contains(x)) by {
        if hydrated.contains(x) {
            let k = choose|k: int| 0 <= k < hydrated.len() && hydrated[k] == x;
            hydrated.lemma_filter_contains(pred, k);
        }
        if r.contains(x) {
            hydrated.lemma_filter_contains_rev(pred, x);
        }
    }
}

/// Every listed directory is visible at every level and at most
/// `max_depth` deep, and the listing is sorted.
pub proof fn lemma_listed_dirs(output: Seq<char>, max_depth: nat)
    ensures
        ({
            let r = lines(output).filter(|l: Seq<char>| listed_dir(l, max_depth)).sort_by(
                crate::text::lex_leq(),
            );
            &&& forall|i: int| 0 <= i < r.len() ==> #[trigger] listed_dir(r[i], max_depth)
            &&& vstd::relations::sorted_by(r, crate::text::lex_leq())
        }),
{
    broadcast use vstd::seq_lib::group_to_multiset_ensures;

    let pred = |l: Seq<char>| listed_dir(l, max_depth);
    let f = lines(output).filter(pred);
    crate::text::lemma_lex_le_total_ordering();
    f.lemma_sort_by_ensures(crate::text::lex_leq());
    let r = f.sort_by(crate::text::lex_leq());
    assert forall|i: int| 0 <= i < r.len() implies #[trigger] listed_dir(r[i], max_depth) by {
        assert(r.to_multiset().count(r[i]) > 0);
        assert(f.contains(r[i]));
        let k = choose|k: int| 0 <= k < f.len() && f[k] == r[i];
        lines(output).lemma_filter_pred(pred, k);
    }
}

/// A listed directory is dropped as hidden exactly when it or one of its
/// components begins with a dot: a non-empty path within the depth limit
/// that starts with another character, and in which no `/` is followed by
/// a dot, is kept, whatever dots occur inside its components.
pub proof fn lemma_listed_dir_components(l: Seq<char>, max_depth: nat)
    ensures
        listed_dir(l, max_depth) <==> (l.len() > 0 && l[0] != '.' && (forall|i: int|
            0 <= i < l.len() - 1 && #[trigger] l[i] == '/' ==> l[i + 1] != '.') && split_on(l, '/').len()
            <= max_depth),
{
}

} // verus!
