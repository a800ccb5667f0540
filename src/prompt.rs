//! Prompt rendering: the branch label, the displayed working directory and
//! the substitution of both into the `PS1` template.
use vstd::prelude::*;

verus! {

/// Every non-overlapping occurrence of `pat` in `s`, scanned from the left,
/// replaced by `w`.
pub open spec fn replace_all(s: Seq<char>, pat: Seq<char>, w: Seq<char>) -> Seq<char>
    decreases s.len(),
{
    if s.len() == 0 {
        s
    } else if 0 < pat.len() <= s.len() && s.subrange(0, pat.len() as int) == pat {
        w + replace_all(s.subrange(pat.len() as int, s.len() as int), pat, w)
    } else {
        seq![s[0]] + replace_all(s.subrange(1, s.len() as int), pat, w)
    }
}

/// `pat` occurs in `s` at position `i`.
pub open spec fn occurs_at(s: Seq<char>, pat: Seq<char>, i: int) -> bool {
    0 <= i && i + pat.len() <= s.len() && s.subrange(i, i + pat.len()) == pat
}

/// `pat` occurs somewhere in `s`.
pub open spec fn contains(s: Seq<char>, pat: Seq<char>) -> bool {
    exists|i: int| occurs_at(s, pat, i)
}

pub open spec fn cwd_token() -> Seq<char> {
    "{display_cwd}"@
}

pub open spec fn branch_token() -> Seq<char> {
    "{git_branch}"@
}

/// The template with both placeholders filled in: first the directory, then
/// the branch.
pub open spec fn fill(template: Seq<char>, cwd: Seq<char>, branch: Seq<char>) -> Seq<char> {
    replace_all(replace_all(template, cwd_token(), cwd), branch_token(), branch)
}

pub open spec fn head_ref_prefix() -> Seq<char> {
    "ref: refs/heads/"@
}

/// What a git `HEAD` names: the branch of a symbolic reference, or else a
/// commit hash cut to seven characters followed by `...` when it is longer.
pub open spec fn branch_name(head: Seq<char>) -> Seq<char> {
    if occurs_at(head, head_ref_prefix(), 0) {
        head.subrange(head_ref_prefix().len() as int, head.len() as int)
    } else if head.len() > 7 {
        head.subrange(0, 7) + "..."@
    } else {
        head
    }
}

/// The branch part of the prompt: the name in parentheses inside a
/// repository, nothing outside one.
pub open spec fn branch_label(is_repo: bool, head: Seq<char>) -> Seq<char> {
    if is_repo {
        "("@ + branch_name(head) + ")"@
    } else {
        Seq::empty()
    }
}

pub open spec fn slash_of(c: char) -> char {
    if c == '\\' {
        '/'
    } else {
        c
    }
}

/// Every backslash turned into a forward slash.
pub open spec fn forward_slashes(s: Seq<char>) -> Seq<char> {
    s.map_values(|c: char| slash_of(c))
}

pub open spec fn is_separator(c: char) -> bool {
    c == '/' || c == '\\'
}

/// `cwd` is the home directory or lies under it: it starts with the home
/// directory, and that prefix ends with a separator, at the end of `cwd`,
/// or where a separator follows in `cwd`.
pub open spec fn under_home(cwd: Seq<char>, home: Seq<char>) -> bool {
    &&& occurs_at(cwd, home, 0)
    &&& (home.len() > 0 && is_separator(home.last()) || cwd.len() == home.len() || is_separator(
        cwd[home.len() as int],
    ))
}

/// The working directory as shown: under home, the home prefix replaced by
/// `~` (with forward slashes in the rest); elsewhere the directory as it is.
pub open spec fn display_cwd(cwd: Seq<char>, home: Seq<char>) -> Seq<char> {
    if under_home(cwd, home) {
        "~"@ + forward_slashes(cwd.subrange(home.len() as int, cwd.len() as int))
    } else {
        cwd
    }
}

pub open spec fn blue(s: Seq<char>) -> Seq<char> {
    "\x1b[34m"@ + s + "\x1b[0m"@
}

pub open spec fn green(s: Seq<char>) -> Seq<char> {
    "\x1b[32m"@ + s + "\x1b[0m"@
}

/// The two forms of one prompt: `plain` for line accounting, `colored` for
/// the terminal.
pub struct RenderedPrompt {
    pub plain: String,
    pub colored: String,
}

/// Whether `pat` occurs in `s` at position `i`.
fn occurs_at_exec(s: &str, i: usize, pat: &str) -> (r: bool)
    requires
        i <= s@.len(),
    ensures
        r == occurs_at(s@, pat@, i as int),
{
    let n = s.unicode_len();
    let m = pat.unicode_len();
    if m > n - i {
        return false;
    }
    let mut j: usize = 0;
    while j < m
        invariant
            n == s@.len(),
            m == pat@.len(),
            i + m <= n,
            j <= m,
            forall|k: int| 0 <= k < j ==> s@[i + k] == pat@[k],
        decreases m - j,
    {
        if s.get_char(i + j) != pat.get_char(j) {
            assert(s@.subrange(i as int, i + m)[j as int] != pat@[j as int]);
            return false;
        }
        j = j + 1;
    }
    assert(s@.subrange(i as int, i + m) =~= pat@);
    true
}

/// `s` with every occurrence of the non-empty `pat` replaced by `w`.
pub fn replace_str(s: &str, pat: &str, w: &str) -> (r: String)
    requires
        pat@.len() > 0,
    ensures
        r@ == replace_all(s@, pat@, w@),
{
    let n = s.unicode_len();
    let m = pat.unicode_len();
    let mut r = String::new();
    let mut i: usize = 0;
    assert(s@.subrange(0, n as int) =~= s@);
    assert(r@ + replace_all(s@, pat@, w@) =~= replace_all(s@, pat@, w@));
    while i < n
        invariant
            n == s@.len(),
            m == pat@.len(),
            m > 0,
            i <= n,
            r@ + replace_all(s@.subrange(i as int, n as int), pat@, w@) == replace_all(
                s@,
                pat@,
                w@,
            ),
        decreases n - i,
    {
        let ghost rest = s@.subrange(i as int, n as int);
        let ghost before = r@;
        if occurs_at_exec(s, i, pat) {
            assert(rest.subrange(0, m as int) =~= s@.subrange(i as int, i + m));
            assert(rest.subrange(m as int, rest.len() as int) =~= s@.subrange(i + m, n as int));
            r.append(w);
            let ghost tail = replace_all(s@.subrange(i + m, n as int), pat@, w@);
            assert(before + (w@ + tail) =~= (before + w@) + tail);
            i = i + m;
        } else {
            proof {
                if m <= rest.len() {
                    assert(rest.subrange(0, m as int) =~= s@.subrange(i as int, i + m));
                }
            }
            assert(rest.subrange(1, rest.len() as int) =~= s@.subrange(i + 1, n as int));
            let one = s.substring_char(i, i + 1);
            assert(one@ =~= seq![rest[0]]);
            r.append(one);
            let ghost tail = replace_all(s@.subrange(i + 1, n as int), pat@, w@);
            assert(before + (one@ + tail) =~= (before + one@) + tail);
            i = i + 1;
        }
    }
    assert(s@.subrange(n as int, n as int) =~= Seq::<char>::empty());
    assert(r@ + Seq::<char>::empty() =~= r@);
    r
}

/// The template with `{display_cwd}` and `{git_branch}` filled in.
pub fn replace_placeholders(ps1: &str, display_cwd: &str, git_branch: &str) -> (r: String)
    ensures
        r@ == fill(ps1@, display_cwd@, git_branch@),
{
    proof {
        reveal_strlit("{display_cwd}");
        reveal_strlit("{git_branch}");
    }
    let once = replace_str(ps1, "{display_cwd}", display_cwd);
    replace_str(once.as_str(), "{git_branch}", git_branch)
}

/// The label for a git `HEAD` reference (see `branch_label`).
pub fn git_branch_label(is_repo: bool, head: &str) -> (r: String)
    ensures
        r@ == branch_label(is_repo, head@),
{
    if !is_repo {
        return String::new();
    }
    let prefix = "ref: refs/heads/";
    let n = head.unicode_len();
    let mut r = String::from_str("(");
    if occurs_at_exec(head, 0, prefix) {
        proof {
            reveal_strlit("ref: refs/heads/");
        }
        r.append(head.substring_char(16, n));
    } else if n > 7 {
        r.append(head.substring_char(0, 7));
        r.append("...");
    } else {
        r.append(head);
    }
    r.append(")");
    r
}

fn is_separator_exec(c: char) -> (r: bool)
    ensures
        r == is_separator(c),
{
    c == '/' || c == '\\'
}

/// The working directory as the prompt shows it (see `display_cwd`).
pub fn display_cwd_of(cwd: &str, home: &str) -> (r: String)
    ensures
        r@ == display_cwd(cwd@, home@),
{
    let n = cwd.unicode_len();
    let h = home.unicode_len();
    if !occurs_at_exec(cwd, 0, home) {
        return String::from_str(cwd);
    }
    let home_ends_in_separator = h > 0 && is_separator_exec(home.get_char(h - 1));
    if !home_ends_in_separator && n != h && !is_separator_exec(cwd.get_char(h)) {
        return String::from_str(cwd);
    }
    let ghost rest = cwd@.subrange(h as int, n as int);
    let mut r = String::from_str("~");
    let mut i: usize = h;
    while i < n
        invariant
            n == cwd@.len(),
            h <= i <= n,
            rest == cwd@.subrange(h as int, n as int),
            r@ == "~"@ + forward_slashes(rest.subrange(0, i - h)),
        decreases n - i,
    {
        let ghost before = r@;
        if cwd.get_char(i) == '\\' {
            r.append("/");
            proof {
                reveal_strlit("/");
            }
        } else {
            r.append(cwd.substring_char(i, i + 1));
        }
        assert(forward_slashes(rest.subrange(0, i + 1 - h)) =~= forward_slashes(
            rest.subrange(0, i - h),
        ).push(slash_of(cwd@[i as int])));
        assert(r@ =~= "~"@ + forward_slashes(rest.subrange(0, i + 1 - h)));
        i = i + 1;
    }
    assert(rest.subrange(0, n - h) =~= rest);
    r
}

/// Whether the cached branch is looked up again before this prompt: not
/// after a directory change, which keeps the cached value.
pub fn refreshes_branch(last_command_cd: bool) -> (r: bool)
    ensures
        r == !last_command_cd,
{
    !last_command_cd
}

/// Both prompts from one template: the plain one, and the colored one where
/// the directory is blue and the branch green.
pub fn render_prompt(ps1: &str, cwd: &str, home: &str, is_repo: bool, head: &str) -> (r:
    RenderedPrompt)
    ensures
        r.plain@ == fill(ps1@, display_cwd(cwd@, home@), branch_label(is_repo, head@)),
        r.colored@ == fill(
            ps1@,
            blue(display_cwd(cwd@, home@)),
            green(branch_label(is_repo, head@)),
        ),
{
    let shown_cwd = display_cwd_of(cwd, home);
    let branch = git_branch_label(is_repo, head);
    let plain = replace_placeholders(ps1, shown_cwd.as_str(), branch.as_str());
    let mut blue_cwd = String::from_str("\x1b[34m");
    blue_cwd.append(shown_cwd.as_str());
    blue_cwd.append("\x1b[0m");
    let mut green_branch = String::from_str("\x1b[32m");
    green_branch.append(branch.as_str());
    green_branch.append("\x1b[0m");
    let colored = replace_placeholders(ps1, blue_cwd.as_str(), green_branch.as_str());
    RenderedPrompt { plain, colored }
}

/// Where `pat` does not occur, replacing it changes nothing.
pub proof fn lemma_replace_absent(s: Seq<char>, pat: Seq<char>, w: Seq<char>)
    requires
        !contains(s, pat),
    ensures
        replace_all(s, pat, w) == s,
    decreases s.len(),
{
    if s.len() > 0 {
        let tail = s.subrange(1, s.len() as int);
        assert(!occurs_at(s, pat, 0));
        assert(!contains(tail, pat)) by {
            if contains(tail, pat) {
                let i = choose|i: int| occurs_at(tail, pat, i);
                assert(s.subrange(i + 1, i + 1 + pat.len()) =~= tail.subrange(i, i + pat.len()));
                assert(occurs_at(s, pat, i + 1));
            }
        }
        lemma_replace_absent(tail, pat, w);
        assert(seq![s[0]] + tail =~= s);
    }
}

/// A template without placeholders is shown as it is.
pub proof fn lemma_fill_plain_template(t: Seq<char>, cwd: Seq<char>, branch: Seq<char>)
    requires
        !contains(t, cwd_token()),
        !contains(t, branch_token()),
    ensures
        fill(t, cwd, branch) == t,
{
    lemma_replace_absent(t, cwd_token(), cwd);
    lemma_replace_absent(t, branch_token(), branch);
}

/// Filling in a prompt that holds no placeholder any more leaves it as it
/// is: substitution done twice is substitution done once.
pub proof fn lemma_fill_idempotent(t: Seq<char>, cwd: Seq<char>, branch: Seq<char>)
    requires
        !contains(fill(t, cwd, branch), cwd_token()),
        !contains(fill(t, cwd, branch), branch_token()),
    ensures
        fill(fill(t, cwd, branch), cwd, branch) == fill(t, cwd, branch),
{
    lemma_fill_plain_template(fill(t, cwd, branch), cwd, branch);
}

/// A commit hash longer than seven characters is shown as its first seven
/// followed by `...`, in parentheses.
pub proof fn lemma_hash_label(head: Seq<char>)
    requires
        head.len() > 7,
        !occurs_at(head, head_ref_prefix(), 0),
    ensures
        branch_label(true, head) == "("@ + head.subrange(0, 7) + "...)"@,
{
    reveal_strlit("...)");
    reveal_strlit("...");
    reveal_strlit(")");
    assert("("@ + (head.subrange(0, 7) + "..."@) + ")"@ =~= "("@ + head.subrange(0, 7) + "...)"@);
}

/// A directory right under home is shown as `~/` and its name, whatever
/// the home directory is.
pub proof fn lemma_cwd_under_home(home: Seq<char>, name: Seq<char>)
    requires
        forall|i: int| 0 <= i < name.len() ==> name[i] != '\\',
    ensures
        display_cwd(home + "/"@ + name, home) == "~/"@ + name,
{
    reveal_strlit("/");
    reveal_strlit("~");
    reveal_strlit("~/");
    let cwd = home + "/"@ + name;
    assert(cwd.subrange(0, home.len() as int) =~= home);
    assert(cwd[home.len() as int] == '/');
    let rest = cwd.subrange(home.len() as int, cwd.len() as int);
    assert(rest =~= "/"@ + name);
    assert(forward_slashes(rest) =~= rest);
    assert("~"@ + ("/"@ + name) =~= "~/"@ + name);
}

} // verus!
