//! Checks on the server's answer to a playlist request.

use vstd::prelude::*;
use crate::text::{chars_of, starts_with, starts_with_spec, string_of, trim_start, trim_start_spec};

verus! {

/// Why a playlist response is refused.
#[derive(Debug)]
pub enum PlaylistResponseError {
    /// Status 403: the server refuses access; headers may be missing.
    Forbidden,
    /// Status 404: the address is wrong or the file does not exist.
    NotFound,
    /// Any other status outside 200..=299.
    Status(u16),
    /// A `Content-Type` that no playlist is served with.
    ContentType(String),
    /// The body does not begin with `#EXTM3U`.
    MissingHeader,
}

/// A success status (`StatusCode::is_success`).
pub open spec fn is_success_status(code: u16) -> bool {
    200 <= code <= 299
}

/// The code of `c` with an ASCII capital turned into its small letter.
pub open spec fn lower_code(c: char) -> u32 {
    if 'A' <= c && c <= 'Z' {
        ((c as u32) + 32) as u32
    } else {
        c as u32
    }
}

/// `p` occurs in the ASCII-lower-cased `s` at position `i`.
pub open spec fn occurs_at_ci(s: Seq<char>, p: Seq<char>, i: int) -> bool {
    0 <= i && i + p.len() <= s.len() && forall|j: int|
        0 <= j < p.len() ==> lower_code(#[trigger] s[i + j]) == (p[j] as u32)
}

/// `p` (written in small letters) occurs in `s` with case ignored.
///
/// `str::to_lowercase` followed by `contains` is what is meant; for the
/// needles below that is the same as lower-casing ASCII letters only: the
/// only characters beyond ASCII that lower-case into ASCII are U+212A
/// (to `k`, in no needle) and U+0130 (to `i` followed by U+0307, which no
/// needle has after an `i`).
pub open spec fn contains_ci(s: Seq<char>, p: Seq<char>) -> bool {
    exists|i: int| occurs_at_ci(s, p, i)
}

pub open spec fn needle_mpegurl() -> Seq<char> {
    seq!['m', 'p', 'e', 'g', 'u', 'r', 'l']
}

pub open spec fn needle_m3u8() -> Seq<char> {
    seq!['m', '3', 'u', '8']
}

pub open spec fn needle_plain() -> Seq<char> {
    seq!['p', 'l', 'a', 'i', 'n']
}

pub open spec fn needle_text() -> Seq<char> {
    seq!['t', 'e', 'x', 't']
}

pub open spec fn needle_octet_stream() -> Seq<char> {
    seq![
        'a', 'p', 'p', 'l', 'i', 'c', 'a', 't', 'i', 'o', 'n', '/', 'o', 'c', 't', 'e', 't', '-',
        's', 't', 'r', 'e', 'a', 'm',
    ]
}

/// A content type that a playlist may be served with.
pub open spec fn playlist_content_type(ct: Seq<char>) -> bool {
    ||| contains_ci(ct, needle_mpegurl())
    ||| contains_ci(ct, needle_m3u8())
    ||| contains_ci(ct, needle_plain())
    ||| contains_ci(ct, needle_text())
    ||| contains_ci(ct, needle_octet_stream())
}

/// The header line that opens every playlist.
pub open spec fn extm3u() -> Seq<char> {
    seq!['#', 'E', 'X', 'T', 'M', '3', 'U']
}

/// The body, after leading white space, begins with `#EXTM3U`.
pub open spec fn has_playlist_header(text: Seq<char>) -> bool {
    starts_with_spec(trim_start_spec(text), extm3u())
}

/// `p` occurs in `s` at `at` with ASCII case ignored.
fn occurs_at_ci_exec(s: &Vec<char>, p: &Vec<char>, at: usize) -> (r: bool)
    ensures
        r == occurs_at_ci(s@, p@, at as int),
{
    if at > s.len() || p.len() > s.len() - at {
        return false;
    }
    let mut k: usize = 0;
    while k < p.len()
        invariant
            k <= p.len(),
            at + p.len() <= s.len(),
            forall|j: int| 0 <= j < k ==> lower_code(#[trigger] s@[at + j]) == (p@[j] as u32),
        decreases p.len() - k,
    {
        let c = s[at + k];
        let code: u32 = if 'A' <= c && c <= 'Z' {
            c as u32 + 32
        } else {
            c as u32
        };
        if code != p[k] as u32 {
            assert(lower_code(s@[at + k as int]) != (p@[k as int] as u32));
            return false;
        }
        k += 1;
    }
    true
}

/// `p` occurs in `s` with ASCII case ignored.
fn contains_ci_exec(s: &Vec<char>, p: &Vec<char>) -> (r: bool)
    ensures
        r == contains_ci(s@, p@),
{
    if p.len() > s.len() {
        return false;
    }
    if p.len() == 0 {
        assert(occurs_at_ci(s@, p@, 0));
        return true;
    }
    let mut i: usize = 0;
    while i <= s.len() - p.len()
        invariant
            0 < p.len() <= s.len(),
            i <= s.len() - p.len() + 1,
            forall|j: int| 0 <= j < i ==> !occurs_at_ci(s@, p@, j),
        decreases s.len() - p.len() + 1 - i,
    {
        if occurs_at_ci_exec(s, p, i) {
            return true;
        }
        i += 1;
    }
    assert forall|j: int| !occurs_at_ci(s@, p@, j) by {
        if 0 <= j && j + p@.len() <= s@.len() {
            assert(j < i);
        }
    }
    false
}

/// Checks a playlist response: its status must be a success, its
/// `Content-Type`, when it has one, must name a playlist or text type
/// (`mpegurl`, `m3u8`, `plain`, `text` or `application/octet-stream`, case
/// ignored), and its body must begin with `#EXTM3U` after leading white
/// space. The first check that fails gives the error.
pub fn validate_m3u8_response(status: u16, text: &str, content_type: Option<&str>) -> (r: Result<
    (),
    PlaylistResponseError,
>)
    ensures
        !is_success_status(status) ==> (if status == 403 {
            r matches Err(PlaylistResponseError::Forbidden)
        } else if status == 404 {
            r matches Err(PlaylistResponseError::NotFound)
        } else {
            r matches Err(PlaylistResponseError::Status(c)) && c == status
        }),
        is_success_status(status) ==> match content_type {
            Some(ct) if !playlist_content_type(ct@) => r matches Err(
                PlaylistResponseError::ContentType(x),
            ) && x@ == ct@,
            _ => if has_playlist_header(text@) {
                r is Ok
            } else {
                r matches Err(PlaylistResponseError::MissingHeader)
            },
        },
{
    if !(200 <= status && status <= 299) {
        if status == 403 {
            return Err(PlaylistResponseError::Forbidden);
        } else if status == 404 {
            return Err(PlaylistResponseError::NotFound);
        } else {
            return Err(PlaylistResponseError::Status(status));
        }
    }
    if let Some(ct) = content_type {
        let c = chars_of(ct);
        let n1 = chars_of("mpegurl");
        let n2 = chars_of("m3u8");
        let n3 = chars_of("plain");
        let n4 = chars_of("text");
        let n5 = chars_of("application/octet-stream");
        proof {
            reveal_strlit("mpegurl");
            reveal_strlit("m3u8");
            reveal_strlit("plain");
            reveal_strlit("text");
            reveal_strlit("application/octet-stream");
            assert(n1@ =~= needle_mpegurl());
            assert(n2@ =~= needle_m3u8());
            assert(n3@ =~= needle_plain());
            assert(n4@ =~= needle_text());
            assert(n5@ =~= needle_octet_stream());
        }
        let ok = contains_ci_exec(&c, &n1) || contains_ci_exec(&c, &n2) || contains_ci_exec(
            &c,
            &n3,
        ) || contains_ci_exec(&c, &n4) || contains_ci_exec(&c, &n5);
        if !ok {
            return Err(PlaylistResponseError::ContentType(string_of(c.as_slice())));
        }
    }
    let body = chars_of(text);
    let lead = trim_start(&body);
    let header = chars_of("#EXTM3U");
    proof {
        reveal_strlit("#EXTM3U");
        assert(header@ =~= extm3u());
    }
    if !starts_with(&lead, &header) {
        return Err(PlaylistResponseError::MissingHeader);
    }
    Ok(())
}

} // verus!
