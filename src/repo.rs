use vstd::prelude::*;

verus! {

pub open spec fn is_alnum(c: char) -> bool {
    ('0' <= c && c <= '9') || ('a' <= c && c <= 'z') || ('A' <= c && c <= 'Z')
}

pub open spec fn is_owner_char(c: char) -> bool {
    is_alnum(c) || c == '-'
}

pub open spec fn is_repo_char(c: char) -> bool {
    is_alnum(c) || c == '.' || c == '_' || c == '-'
}

/// An owner: an alphanumeric first and last character around at least one
/// alphanumeric or hyphen character.
pub open spec fn valid_owner(o: Seq<char>) -> bool {
    &&& o.len() >= 3
    &&& is_alnum(o[0])
    &&& is_alnum(o[o.len() - 1])
    &&& forall|i: int| 0 <= i < o.len() ==> #[trigger] is_owner_char(o[i])
}

/// A repository name: one or more alphanumeric, `.`, `_` or `-` characters.
pub open spec fn valid_repo(r: Seq<char>) -> bool {
    r.len() >= 1 && forall|i: int| 0 <= i < r.len() ==> #[trigger] is_repo_char(r[i])
}

/// `t` is an owner, a slash at position `k`, and a repository name.
pub open spec fn splits_at(t: Seq<char>, k: int) -> bool {
    &&& 0 <= k < t.len()
    &&& t[k] == '/'
    &&& valid_owner(t.take(k))
    &&& valid_repo(t.skip(k + 1))
}

pub open spec fn git_suffix() -> Seq<char> {
    seq!['.', 'g', 'i', 't']
}

/// A repository name without one trailing `.git`, where something is left
/// before it.
pub open spec fn strip_git(r: Seq<char>) -> Seq<char> {
    if r.len() > 4 && r.skip(r.len() - 4) == git_suffix() {
        r.take(r.len() - 4)
    } else {
        r
    }
}

/// Owner and repository of `t` read as `owner/repo`, the repository name
/// losing a trailing `.git` when `strip` is set.
pub open spec fn form_ref(t: Seq<char>, strip: bool) -> Option<(Seq<char>, Seq<char>)> {
    if exists|k: int| splits_at(t, k) {
        let k = choose|k: int| splits_at(t, k);
        let tail = t.skip(k + 1);
        Some((t.take(k), if strip { strip_git(tail) } else { tail }))
    } else {
        None
    }
}

/// The reference a string denotes: the first of the HTTPS URL, the SSH
/// address and the bare `owner/repo` shorthand that it matches.
pub open spec fn parse_ref(s: Seq<char>) -> Option<(Seq<char>, Seq<char>)> {
    let https = "https://github.com/"@;
    let ssh = "git@github.com:"@;
    if https.is_prefix_of(s) && form_ref(s.skip(https.len() as int), true).is_some() {
        form_ref(s.skip(https.len() as int), true)
    } else if ssh.is_prefix_of(s) && form_ref(s.skip(ssh.len() as int), true).is_some() {
        form_ref(s.skip(ssh.len() as int), true)
    } else {
        form_ref(s, false)
    }
}

/// The slash that separates owner and repository is the only one.
pub proof fn lemma_split_unique(t: Seq<char>, k1: int, k2: int)
    requires
        splits_at(t, k1),
        splits_at(t, k2),
    ensures
        k1 == k2,
{
    if k1 < k2 {
        assert(is_owner_char(t.take(k2)[k1]));
    } else if k2 < k1 {
        assert(is_owner_char(t.take(k1)[k2]));
    }
}

proof fn lemma_form_of(owner: Seq<char>, tail: Seq<char>, strip: bool)
    requires
        valid_owner(owner),
        valid_repo(tail),
    ensures
        form_ref(owner + seq!['/'] + tail, strip) == Some(
            (owner, if strip { strip_git(tail) } else { tail }),
        ),
{
    let t = owner + seq!['/'] + tail;
    let k = owner.len() as int;
    assert(t.take(k) =~= owner);
    assert(t.skip(k + 1) =~= tail);
    assert(splits_at(t, k));
    let kc = choose|j: int| splits_at(t, j);
    lemma_split_unique(t, kc, k);
}

proof fn lemma_after_prefix(p: Seq<char>, rest: Seq<char>)
    ensures
        p.is_prefix_of(p + rest),
        (p + rest).skip(p.len() as int) == rest,
{
    assert((p + rest).subrange(0, p.len() as int) =~= p);
    assert((p + rest).skip(p.len() as int) =~= rest);
}

proof fn lemma_dotted(repo: Seq<char>)
    requires
        valid_repo(repo),
    ensures
        valid_repo(repo + git_suffix()),
        strip_git(repo + git_suffix()) == repo,
{
    let dotted = repo + git_suffix();
    assert forall|i: int| 0 <= i < dotted.len() implies #[trigger] is_repo_char(dotted[i]) by {
        if i >= repo.len() {
            assert(dotted[i] == git_suffix()[i - repo.len()]);
        }
    }
    assert(dotted.skip(dotted.len() - 4) =~= git_suffix());
    assert(dotted.take(dotted.len() - 4) =~= repo);
}

proof fn lemma_https_form(owner: Seq<char>, tail: Seq<char>)
    requires
        valid_owner(owner),
        valid_repo(tail),
    ensures
        parse_ref("https://github.com/"@ + owner + seq!['/'] + tail) == Some(
            (owner, strip_git(tail)),
        ),
{
    let https = "https://github.com/"@;
    let plain = owner + seq!['/'] + tail;
    lemma_form_of(owner, tail, true);
    lemma_after_prefix(https, plain);
    assert(https + owner + seq!['/'] + tail =~= https + plain);
}

proof fn lemma_ssh_form(owner: Seq<char>, tail: Seq<char>)
    requires
        valid_owner(owner),
        valid_repo(tail),
    ensures
        parse_ref("git@github.com:"@ + owner + seq!['/'] + tail) == Some((owner, strip_git(tail))),
{
    let https = "https://github.com/"@;
    let ssh = "git@github.com:"@;
    let plain = owner + seq!['/'] + tail;
    let s = ssh + plain;
    lemma_form_of(owner, tail, true);
    lemma_after_prefix(ssh, plain);
    assert(ssh + owner + seq!['/'] + tail =~= s);
    reveal_strlit("https://github.com/");
    reveal_strlit("git@github.com:");
    assert(s[0] == 'g');
    if https.is_prefix_of(s) {
        assert(s[0] == https[0]);
    }
}

proof fn lemma_short_form(owner: Seq<char>, repo: Seq<char>)
    requires
        valid_owner(owner),
        valid_repo(repo),
    ensures
        parse_ref(owner + seq!['/'] + repo) == Some((owner, repo)),
{
    let https = "https://github.com/"@;
    let ssh = "git@github.com:"@;
    let plain = owner + seq!['/'] + repo;
    lemma_form_of(owner, repo, false);
    // The shorthand holds no colon, which both URL prefixes do.
    reveal_strlit("https://github.com/");
    reveal_strlit("git@github.com:");
    assert forall|i: int| 0 <= i < plain.len() implies #[trigger] plain[i] != ':' by {
        if i < owner.len() {
            assert(is_owner_char(owner[i]));
        } else if i > owner.len() {
            assert(is_repo_char(repo[i - owner.len() - 1]));
        }
    }
    if https.is_prefix_of(plain) {
        assert(plain[5] == https[5]);
    }
    if ssh.is_prefix_of(plain) {
        assert(plain[14] == ssh[14]);
    }
}

/// Each accepted form yields exactly the owner and repository written in
/// it. The URL forms drop one trailing `.git`; the shorthand keeps it.
pub proof fn lemma_parse_forms(owner: Seq<char>, repo: Seq<char>)
    requires
        valid_owner(owner),
        valid_repo(repo),
    ensures
        parse_ref("https://github.com/"@ + owner + seq!['/'] + repo) == Some(
            (owner, strip_git(repo)),
        ),
        parse_ref("https://github.com/"@ + owner + seq!['/'] + repo + git_suffix()) == Some(
            (owner, repo),
        ),
        parse_ref("git@github.com:"@ + owner + seq!['/'] + repo) == Some((owner, strip_git(repo))),
        parse_ref("git@github.com:"@ + owner + seq!['/'] + repo + git_suffix()) == Some(
            (owner, repo),
        ),
        parse_ref(owner + seq!['/'] + repo) == Some((owner, repo)),
{
    let dotted = repo + git_suffix();
    lemma_dotted(repo);
    lemma_https_form(owner, repo);
    lemma_https_form(owner, dotted);
    lemma_ssh_form(owner, repo);
    lemma_ssh_form(owner, dotted);
    lemma_short_form(owner, repo);
    assert("https://github.com/"@ + owner + seq!['/'] + repo + git_suffix()
        =~= "https://github.com/"@ + owner + seq!['/'] + dotted);
    assert("git@github.com:"@ + owner + seq!['/'] + repo + git_suffix() =~= "git@github.com:"@
        + owner + seq!['/'] + dotted);
}

fn is_alnum_char(c: char) -> (r: bool)
    ensures
        r == is_alnum(c),
{
    ('0' <= c && c <= '9') || ('a' <= c && c <= 'z') || ('A' <= c && c <= 'Z')
}

fn starts_with(s: &str, p: &str) -> (r: bool)
    ensures
        r == p@.is_prefix_of(s@),
{
    let n = s.unicode_len();
    let m = p.unicode_len();
    if m > n {
        return false;
    }
    let mut i: usize = 0;
    while i < m
        invariant
            m <= n,
            n == s@.len(),
            m == p@.len(),
            i <= m,
            forall|j: int| 0 <= j < i ==> p@[j] == s@[j],
        decreases m - i,
    {
        if s.get_char(i) != p.get_char(i) {
            assert(p@ != s@.subrange(0, m as int) ==> !p@.is_prefix_of(s@));
            assert(p@[i as int] != s@.subrange(0, m as int)[i as int]);
            return false;
        }
        i = i + 1;
    }
    assert(p@ =~= s@.subrange(0, m as int));
    true
}

/// Whether every character of `s` in `from..to` passes the owner test
/// (`repo` unset) or the repository test (`repo` set).
fn all_chars(s: &str, from: usize, to: usize, repo: bool) -> (r: bool)
    requires
        from <= to <= s@.len(),
    ensures
        r == forall|i: int|
            from <= i < to ==> (if repo {
                is_repo_char(#[trigger] s@[i])
            } else {
                is_owner_char(s@[i])
            }),
{
    let mut i = from;
    while i < to
        invariant
            from <= i <= to <= s@.len(),
            forall|j: int|
                from <= j < i ==> (if repo {
                    is_repo_char(#[trigger] s@[j])
                } else {
                    is_owner_char(s@[j])
                }),
        decreases to - i,
    {
        let c = s.get_char(i);
        let ok = if repo {
            is_alnum_char(c) || c == '.' || c == '_' || c == '-'
        } else {
            is_alnum_char(c) || c == '-'
        };
        if !ok {
            return false;
        }
        i = i + 1;
    }
    true
}

/// Reads `owner/repo` from the characters of `s` from `start` on.
fn split_ref<'a>(s: &'a str, start: usize, strip: bool) -> (r: Option<(&'a str, &'a str)>)
    requires
        start <= s@.len(),
    ensures
        match r {
            Some((o, p)) => form_ref(s@.skip(start as int), strip) == Some((o@, p@)),
            None => form_ref(s@.skip(start as int), strip).is_none(),
        },
{
    let ghost t = s@.skip(start as int);
    let n = s.unicode_len();
    let mut k = start;
    while k < n && s.get_char(k) != '/'
        invariant
            start <= k <= n,
            n == s@.len(),
            forall|j: int| start <= j < k ==> s@[j] != '/',
        decreases n - k,
    {
        k = k + 1;
    }
    let ghost kk = k - start;
    if k == n {
        assert forall|j: int| !splits_at(t, j) by {
            if 0 <= j < t.len() {
                assert(t[j] == s@[start + j]);
            }
        }
        return None;
    }
    assert(t[kk] == '/');
    let ok = k - start >= 3 && is_alnum_char(s.get_char(start)) && is_alnum_char(s.get_char(k - 1))
        && all_chars(s, start, k, false) && k + 1 < n && all_chars(s, k + 1, n, true);
    proof {
        assert(t.take(kk) =~= s@.subrange(start as int, k as int));
        assert(t.skip(kk + 1) =~= s@.subrange(k + 1, n as int));
    }
    if !ok {
        assert forall|j: int| !splits_at(t, j) by {
            if splits_at(t, j) {
                if j < kk {
                    assert(t[j] == s@[start + j]);
                }
                if j > kk {
                    assert(is_owner_char(t.take(j)[kk]));
                }
                assert(j == kk);
                let o = t.take(kk);
                let p = t.skip(kk + 1);
                assert(o[0] == s@[start as int]);
                assert(o[o.len() - 1] == s@[k - 1]);
                assert forall|i: int| start <= i < k implies is_owner_char(s@[i]) by {
                    assert(o[i - start] == s@[i]);
                }
                assert forall|i: int| k + 1 <= i < n implies is_repo_char(s@[i]) by {
                    assert(p[i - k - 1] == s@[i]);
                }
            }
        }
        return None;
    }
    assert(splits_at(t, kk));
    let mut end = n;
    if strip && n - (k + 1) > 4 && s.get_char(n - 4) == '.' && s.get_char(n - 3) == 'g'
        && s.get_char(n - 2) == 'i' && s.get_char(n - 1) == 't' {
        end = n - 4;
    }
    let owner = s.substring_char(start, k);
    let repo = s.substring_char(k + 1, end);
    proof {
        let tail = t.skip(kk + 1);
        let kc = choose|j: int| splits_at(t, j);
        lemma_split_unique(t, kc, kk);
        if strip {
            let ends = tail.len() > 4 && tail.skip(tail.len() - 4) == git_suffix();
            if tail.len() > 4 {
                assert(tail.skip(tail.len() - 4) =~= s@.subrange(n - 4, n as int));
                if s@.subrange(n - 4, n as int) == git_suffix() {
                    assert(s@[n - 4] == s@.subrange(n - 4, n as int)[0]);
                    assert(s@[n - 3] == s@.subrange(n - 4, n as int)[1]);
                    assert(s@[n - 2] == s@.subrange(n - 4, n as int)[2]);
                    assert(s@[n - 1] == s@.subrange(n - 4, n as int)[3]);
                }
                if end == n - 4 {
                    assert(s@.subrange(n - 4, n as int) =~= git_suffix());
                }
            }
            assert(strip_git(tail) =~= s@.subrange(k + 1, end as int));
        } else {
            assert(tail =~= s@.subrange(k + 1, end as int));
        }
    }
    Some((owner, repo))
}

/// Reads the owner and repository from `https://github.com/owner/repo`,
/// `git@github.com:owner/repo` (each with an optional `.git`), or
/// `owner/repo`, trying the forms in that order.
pub fn parse_github_repo<'a>(s: &'a str) -> (r: Option<(&'a str, &'a str)>)
    ensures
        match r {
            Some((owner, repo)) => parse_ref(s@) == Some((owner@, repo@)),
            None => parse_ref(s@).is_none(),
        },
{
    let https = "https://github.com/";
    if starts_with(s, https) {
        if let Some(found) = split_ref(s, https.unicode_len(), true) {
            return Some(found);
        }
    }
    let ssh = "git@github.com:";
    if starts_with(s, ssh) {
        if let Some(found) = split_ref(s, ssh.unicode_len(), true) {
            return Some(found);
        }
    }
    assert(s@.skip(0) =~= s@);
    split_ref(s, 0, false)
}

} // verus!
