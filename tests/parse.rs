use labelexim::repo::parse_github_repo;

#[test]
fn parses_https_form() {
    assert_eq!(parse_github_repo("https://github.com/rust-lang/rust"), Some(("rust-lang", "rust")));
    assert_eq!(parse_github_repo("https://github.com/rust-lang/rust.git"), Some(("rust-lang", "rust")));
    assert_eq!(parse_github_repo("https://github.com/foo/bar.js.git"), Some(("foo", "bar.js")));
}

#[test]
fn parses_ssh_form() {
    assert_eq!(parse_github_repo("git@github.com:serde-rs/json.git"), Some(("serde-rs", "json")));
    assert_eq!(parse_github_repo("git@github.com:serde-rs/json"), Some(("serde-rs", "json")));
}

#[test]
fn parses_shorthand() {
    assert_eq!(parse_github_repo("owner/repo_name-1.x"), Some(("owner", "repo_name-1.x")));
    // The shorthand keeps a trailing `.git`.
    assert_eq!(parse_github_repo("abc/x.git"), Some(("abc", "x.git")));
}

#[test]
fn strips_only_one_git_suffix() {
    assert_eq!(parse_github_repo("https://github.com/abc/x.git.git"), Some(("abc", "x.git")));
    assert_eq!(parse_github_repo("https://github.com/abc/.git"), Some(("abc", ".git")));
}

#[test]
fn rejects_other_strings() {
    for bad in [
        "",
        "owner",
        "owner/",
        "/repo",
        "ab/repo",
        "a/repo",
        "-abc/repo",
        "abc-/repo",
        "abc/re/po",
        "abc/re po",
        "http://github.com/abc/repo",
        "https://gitlab.com/abc/repo",
        "https://github.com/abc",
        "git@github.com/abc/repo",
    ] {
        assert_eq!(parse_github_repo(bad), None, "{}", bad);
    }
}
