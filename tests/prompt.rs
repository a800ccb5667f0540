use shell::prompt::{
    display_cwd_of, git_branch_label, refreshes_branch, render_prompt, replace_placeholders,
    replace_str,
};

#[test]
fn placeholders_are_replaced_exactly() {
    let r = replace_placeholders("{display_cwd}{git_branch}$ ", "~/proj", "(main)");
    assert_eq!(r, "~/proj(main)$ ");
}

#[test]
fn every_occurrence_is_replaced() {
    let r = replace_placeholders("[{display_cwd}] {display_cwd} {git_branch}", "a", "b");
    assert_eq!(r, "[a] a b");
}

#[test]
fn unknown_placeholders_stay_verbatim() {
    let r = replace_placeholders("{user}@{display_cwd} {host}> ", "/tmp", "");
    assert_eq!(r, "{user}@/tmp {host}> ");
}

#[test]
fn template_without_placeholders_is_unchanged() {
    assert_eq!(replace_placeholders("plain> ", "x", "y"), "plain> ");
}

#[test]
fn substitution_twice_equals_once() {
    let once = replace_placeholders("{display_cwd} on {git_branch} $ ", "~/src", "(dev)");
    let twice = replace_placeholders(&once, "~/src", "(dev)");
    assert_eq!(once, twice);
}

#[test]
fn replace_matches_std_replace() {
    let cases = [("aaaa", "aa", "b"), ("abcabc", "bc", "XY"), ("", "x", "y"), ("xyz", "q", "r")];
    for (s, p, w) in cases {
        assert_eq!(replace_str(s, p, w), s.replace(p, w));
    }
}

#[test]
fn symbolic_ref_gives_branch_name() {
    assert_eq!(git_branch_label(true, "ref: refs/heads/main"), "(main)");
    assert_eq!(git_branch_label(true, "ref: refs/heads/feature/x"), "(feature/x)");
}

#[test]
fn detached_hash_is_cut_to_seven() {
    let hash = "0123456789abcdef0123456789abcdef01234567";
    assert_eq!(hash.len(), 40);
    assert_eq!(git_branch_label(true, hash), format!("({}...)", &hash[0..7]));
    assert_eq!(git_branch_label(true, hash), "(0123456...)");
}

#[test]
fn short_hash_is_kept_whole() {
    assert_eq!(git_branch_label(true, "abc1234"), "(abc1234)");
    assert_eq!(git_branch_label(true, "abc12345"), "(abc1234...)");
}

#[test]
fn no_repository_gives_no_label() {
    assert_eq!(git_branch_label(false, "ref: refs/heads/main"), "");
}

#[test]
fn home_prefix_becomes_tilde() {
    assert_eq!(display_cwd_of("/home/ann/proj", "/home/ann"), "~/proj");
    assert_eq!(display_cwd_of("/home/ann", "/home/ann"), "~");
}

#[test]
fn backslashes_become_slashes_under_home() {
    assert_eq!(display_cwd_of("C:\\Users\\ann\\proj\\src", "C:\\Users\\ann"), "~/proj/src");
}

#[test]
fn outside_home_is_verbatim() {
    assert_eq!(display_cwd_of("/var\\log", "/home/ann"), "/var\\log");
}

#[test]
fn branch_refresh_skipped_after_cd() {
    assert!(refreshes_branch(false));
    assert!(!refreshes_branch(true));
}

#[test]
fn rendered_prompts_differ_only_in_color() {
    let r = render_prompt(
        "{display_cwd}{git_branch}$ ",
        "/home/ann/proj",
        "/home/ann",
        true,
        "ref: refs/heads/main",
    );
    assert_eq!(r.plain, "~/proj(main)$ ");
    assert_eq!(r.colored, "\x1b[34m~/proj\x1b[0m\x1b[32m(main)\x1b[0m$ ");
}

#[test]
fn rendered_prompt_outside_repository() {
    let r = render_prompt("{display_cwd} {git_branch}> ", "/opt", "/home/ann", false, "");
    assert_eq!(r.plain, "/opt > ");
    assert_eq!(r.colored, "\x1b[34m/opt\x1b[0m \x1b[32m\x1b[0m> ");
}

#[test]
fn sibling_of_home_is_not_under_home() {
    assert_eq!(display_cwd_of("/home/u2", "/home/u"), "/home/u2");
    assert_eq!(display_cwd_of("/home/u2/x", "/home/u"), "/home/u2/x");
}

#[test]
fn home_with_trailing_separator() {
    assert_eq!(display_cwd_of("/home/u/\\proj", "/home/u/"), "~/proj");
    assert_eq!(display_cwd_of("/home/u/proj", "/home/u/"), "~proj");
    assert_eq!(display_cwd_of("/home/u/", "/home/u/"), "~");
    assert_eq!(display_cwd_of("/home/u", "/home/u/"), "/home/u");
    assert_eq!(display_cwd_of("/tmp", "/"), "~tmp");
}
