//! Resolving the URLs that a playlist names against the playlist's own URL.

use vstd::prelude::*;
use crate::text::{
    chars_of, concat, lemma_index_of_from_found, lemma_last_index_of_found, copy_range, find_char_from, index_of_from, last_index_of, rfind_char,
    starts_with, starts_with_spec, string_of,
};

verus! {

/// The scheme prefix of an absolute `http` URL.
pub open spec fn http_scheme() -> Seq<char> {
    seq!['h', 't', 't', 'p', ':', '/', '/']
}

/// The scheme prefix of an absolute `https` URL.
pub open spec fn https_scheme() -> Seq<char> {
    seq!['h', 't', 't', 'p', 's', ':', '/', '/']
}

/// `s` is an absolute URL: it starts with `http://` or `https://`.
pub open spec fn is_absolute_url(s: Seq<char>) -> bool {
    starts_with_spec(s, http_scheme()) || starts_with_spec(s, https_scheme())
}

/// The origin of `base`: what comes before its third `/`
/// (`"https://host/a/b"` gives `"https://host"`), or all of `base` when it
/// has fewer than three. This is `base.split('/').take(3).join("/")`.
pub open spec fn url_origin(base: Seq<char>) -> Seq<char> {
    match index_of_from(base, '/', 0) {
        None => base,
        Some(a) => match index_of_from(base, '/', a + 1) {
            None => base,
            Some(b) => match index_of_from(base, '/', b + 1) {
                None => base,
                Some(c) => base.subrange(0, c),
            },
        },
    }
}

/// The directory of `base`: what comes before its last `/`, or all of
/// `base` when it has none.
pub open spec fn url_dir(base: Seq<char>) -> Seq<char> {
    match last_index_of(base, '/') {
        Some(i) => base.subrange(0, i),
        None => base,
    }
}

/// `relative` resolved against `base`: kept as it is when it is an absolute
/// URL (`http://` or `https://`), appended to the origin of `base` when it starts with `/`, and
/// otherwise appended, after a `/`, to the directory of `base`.
pub open spec fn resolve_url_spec(base: Seq<char>, relative: Seq<char>) -> Seq<char> {
    if is_absolute_url(relative) {
        relative
    } else if starts_with_spec(relative, seq!['/']) {
        url_origin(base) + relative
    } else {
        url_dir(base) + seq!['/'] + relative
    }
}

/// A prefix of `s` at least as long as `pre` keeps the `pre` that `s`
/// starts with, and so does any extension of `s`.
proof fn lemma_keeps_prefix(s: Seq<char>, pre: Seq<char>, n: int, tail: Seq<char>)
    requires
        starts_with_spec(s, pre),
        pre.len() <= n <= s.len(),
    ensures
        starts_with_spec(s.subrange(0, n), pre),
        starts_with_spec(s + tail, pre),
{
    assert(s.subrange(0, n).subrange(0, pre.len() as int) =~= s.subrange(0, pre.len() as int));
    assert((s + tail).subrange(0, pre.len() as int) =~= s.subrange(0, pre.len() as int));
}

/// Where `s` holds `c`, its last index of `c` is there or later.
proof fn lemma_last_index_at_least(s: Seq<char>, c: char, j: int)
    requires
        0 <= j < s.len(),
        s[j] == c,
    ensures
        last_index_of(s, c) matches Some(i) && j <= i,
    decreases s.len(),
{
    if s.last() != c {
        lemma_last_index_at_least(s.drop_last(), c, j);
    }
}

/// A base that starts with `pre` (`http://` or `https://`) gives every
/// relative URL a resolution that starts with `pre` too.
proof fn lemma_resolved_keeps_scheme(base: Seq<char>, relative: Seq<char>, pre: Seq<char>)
    requires
        pre == http_scheme() || pre == https_scheme(),
        starts_with_spec(base, pre),
        !is_absolute_url(relative),
    ensures
        starts_with_spec(resolve_url_spec(base, relative), pre),
{
    let p = pre.len() as int;
    assert forall|j: int| 0 <= j < p implies base[j] == pre[j] by {
        assert(base[j] == base.subrange(0, p)[j]);
    }
    assert(forall|j: int| 0 <= j < p - 2 ==> #[trigger] pre[j] != '/');
    assert(pre[p - 1] == '/');
    if starts_with_spec(relative, seq!['/']) {
        lemma_index_of_from_found(base, '/', 0);
        if let Some(a) = index_of_from(base, '/', 0) {
            assert(a >= p - 2) by {
                if a < p - 2 {
                    assert(base[a] == pre[a]);
                }
            }
            lemma_index_of_from_found(base, '/', a + 1);
            if let Some(b) = index_of_from(base, '/', a + 1) {
                lemma_index_of_from_found(base, '/', b + 1);
                if let Some(c) = index_of_from(base, '/', b + 1) {
                    lemma_keeps_prefix(base, pre, c, relative);
                }
            }
        }
        lemma_keeps_prefix(url_origin(base), pre, pre.len() as int, relative);
    } else {
        assert(base[p - 1] == '/');
        lemma_last_index_at_least(base, '/', p - 1);
        let i = last_index_of(base, '/')->0;
        lemma_last_index_of_found(base, '/');
        let d = url_dir(base);
        if i >= p {
            lemma_keeps_prefix(base, pre, i, seq![]);
            lemma_keeps_prefix(d, pre, p, seq!['/']);
            lemma_keeps_prefix(d + seq!['/'], pre, p, relative);
        } else {
            assert(d + seq!['/'] =~= pre);
            assert((d + seq!['/'] + relative).subrange(0, p) =~= pre);
        }
    }
}

/// Law: against a base that is an absolute URL, every resolved URL is an
/// absolute URL, so resolving it again leaves it unchanged.
pub proof fn lemma_resolve_absolute(base: Seq<char>, relative: Seq<char>)
    requires
        is_absolute_url(base),
    ensures
        is_absolute_url(resolve_url_spec(base, relative)),
        resolve_url_spec(base, resolve_url_spec(base, relative)) == resolve_url_spec(
            base,
            relative,
        ),
{
    if !is_absolute_url(relative) {
        if starts_with_spec(base, http_scheme()) {
            lemma_resolved_keeps_scheme(base, relative, http_scheme());
        } else {
            lemma_resolved_keeps_scheme(base, relative, https_scheme());
        }
    }
}

/// Resolves `relative` (an absolute `http://` or `https://` URL, a path
/// from the host's root, or a path relative to the playlist's directory) against `base`, the URL of
/// the playlist that names it.
pub fn resolve_url(base: &str, relative: &str) -> (r: String)
    ensures
        r@ == resolve_url_spec(base@, relative@),
{
    let b = chars_of(base);
    let rel = chars_of(relative);
    let http = chars_of("http://");
    let https = chars_of("https://");
    let slash = chars_of("/");
    proof {
        reveal_strlit("http://");
        reveal_strlit("https://");
        reveal_strlit("/");
        assert(http@ =~= http_scheme());
        assert(https@ =~= https_scheme());
        assert(slash@ =~= seq!['/']);
    }
    if starts_with(&rel, &http) || starts_with(&rel, &https) {
        return string_of(rel.as_slice());
    }
    if starts_with(&rel, &slash) {
        let mut cut = b.len();
        if let Some(a) = find_char_from(&b, '/', 0) {
            if let Some(x) = find_char_from(&b, '/', a + 1) {
                if let Some(y) = find_char_from(&b, '/', x + 1) {
                    cut = y;
                }
            }
        }
        let origin = copy_range(&b, 0, cut);
        assert(b@.subrange(0, b@.len() as int) =~= b@);
        assert(origin@ == url_origin(b@));
        let joined = concat(&origin, &rel);
        return string_of(joined.as_slice());
    }
    let dir = match rfind_char(&b, '/') {
        Some(i) => copy_range(&b, 0, i),
        None => {
            assert(b@.subrange(0, b@.len() as int) =~= b@);
            copy_range(&b, 0, b.len())
        },
    };
    let with_slash = concat(&dir, &slash);
    let joined = concat(&with_slash, &rel);
    string_of(joined.as_slice())
}

} // verus!
