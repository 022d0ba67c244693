//! Custom request headers: which of the user's headers are sent.
//!
//! The headers are sent as a `reqwest` `HeaderMap`, whose entries are
//! `HeaderName` and `HeaderValue` values: outside types with no view that a
//! contract could speak of. The library therefore keeps the headers as a
//! list of (name, value) texts, with the one property it relies on from a
//! `HeaderMap` stated and kept as an invariant: each name occurs once, and
//! setting a name again replaces its value. The caller turns the list into a
//! `HeaderMap` with `HeaderName::from_bytes` and `HeaderValue::from_str`,
//! which accept every entry of it.

use vstd::prelude::*;
use std::collections::HashMap;
use reqwest::header::{HeaderName, HeaderValue};
use crate::text::chars_of;

verus! {

/// Options of a download: the custom headers to send with every request.
#[derive(Debug, Clone)]
pub struct DownloadOptions {
    pub headers: HashMap<String, String>,
}

impl DownloadOptions {
    /// Options with no custom header.
    pub fn new() -> (r: Self)
        ensures
            r.headers@ == Map::<String, String>::empty(),
    {
        Self { headers: HashMap::new() }
    }
}

/// A `tchar` of RFC 9110: a character allowed in a header name.
pub open spec fn is_token_char(c: char) -> bool {
    ||| 'a' <= c && c <= 'z'
    ||| 'A' <= c && c <= 'Z'
    ||| '0' <= c && c <= '9'
    ||| c == '!' || c == '#' || c == '$' || c == '%' || c == '&' || c == '\''
    ||| c == '*' || c == '+' || c == '-' || c == '.' || c == '^' || c == '_'
    ||| c == '`' || c == '|' || c == '~'
}

/// `c` with an ASCII capital turned into its small letter.
pub open spec fn ascii_lower_char(c: char) -> char {
    if 'A' <= c && c <= 'Z' {
        (((c as u32) + 32) as u32) as char
    } else {
        c
    }
}

/// The name a header is sent under: the key in small letters, if it is
/// 1 to 65535 token characters; no name otherwise.
pub open spec fn header_name_spec(key: Seq<char>) -> Option<Seq<char>> {
    if 1 <= key.len() <= 65535 && (forall|i: int| 0 <= i < key.len() ==> is_token_char(#[trigger] key[i])) {
        Some(key.map_values(|c: char| ascii_lower_char(c)))
    } else {
        None
    }
}

/// A header value may hold every character but the control characters
/// other than tab (that is, every byte from 32 up but 127, and tab).
pub open spec fn header_value_ok(v: Seq<char>) -> bool {
    forall|i: int|
        0 <= i < v.len() ==> ((#[trigger] v[i] as u32) >= 32 && (v[i] as u32) != 127) || v[i]
            == '\t'
}

/// Calls `reqwest::header::HeaderName::from_bytes` on the key's bytes and
/// gives the name's text.
///
/// Trusted: from the `http` crate's source, `from_bytes` maps each byte
/// through its `HEADER_CHARS` table, which keeps the token characters,
/// turns ASCII capitals into small letters and sends every other byte
/// (each byte of a non-ASCII character among them) to 0; a 0, an empty
/// input or one longer than 65535 bytes is refused.
#[verifier::external_body]
fn canonical_header_name(key: &str) -> (r: Option<String>)
    ensures
        match header_name_spec(key@) {
            Some(n) => r matches Some(s) && s@ == n,
            None => r is None,
        },
{
    HeaderName::from_bytes(key.as_bytes()).ok().map(|n| n.as_str().to_string())
}

/// Calls `reqwest::header::HeaderValue::from_str` and tells whether it
/// accepted the value.
///
/// Trusted: from the `http` crate's source, a value is refused exactly when
/// one of its bytes is below 32 and not a tab, or is 127; the bytes of
/// non-ASCII characters are all 128 or more.
#[verifier::external_body]
fn header_value_valid(value: &str) -> (r: bool)
    ensures
        r == header_value_ok(value@),
{
    HeaderValue::from_str(value).is_ok()
}

/// Calls `HashMap::iter` and copies each entry.
///
/// Trusted: std documents that the iteration visits every entry once, in
/// an arbitrary order; nothing is claimed of that order. (vstd specifies
/// `HashMap::iter` only for key types with a known hash model, which
/// `String` is not, so the walk cannot be a verified loop.)
#[verifier::external_body]
fn header_entries(headers: &HashMap<String, String>) -> (r: Vec<(String, String)>)
    ensures
        r@.len() == headers@.len(),
        forall|i: int|
            0 <= i < r@.len() ==> headers@.contains_key(#[trigger] r@[i].0) && headers@[r@[i].0]
                == r@[i].1,
        forall|k: String| #[trigger] headers@.contains_key(k) ==> exists|i: int| 0 <= i < r@.len() && r@[i].0 == k,
{
    headers.iter().map(|(k, v)| (k.clone(), v.clone())).collect()
}

/// A header entry by its text.
pub open spec fn entry_view(p: (String, String)) -> (Seq<char>, Seq<char>) {
    (p.0@, p.1@)
}

pub open spec fn entries_view(s: Seq<(String, String)>) -> Seq<(Seq<char>, Seq<char>)> {
    s.map_values(|p: (String, String)| entry_view(p))
}

/// The headers sent for the given entries, taken in order: an entry with a
/// valid name and value sets the value of its (small-letter) name, so a
/// later entry of the same name wins; other entries are left out.
pub open spec fn valid_headers(entries: Seq<(Seq<char>, Seq<char>)>) -> Map<Seq<char>, Seq<char>>
    decreases entries.len(),
{
    if entries.len() == 0 {
        Map::empty()
    } else {
        let before = valid_headers(entries.drop_last());
        let (k, v) = entries.last();
        match header_name_spec(k) {
            Some(n) => if header_value_ok(v) {
                before.insert(n, v)
            } else {
                before
            },
            None => before,
        }
    }
}

/// `out` lists `m` with each name once.
pub open spec fn lists_map(out: Seq<(Seq<char>, Seq<char>)>, m: Map<Seq<char>, Seq<char>>) -> bool {
    &&& forall|i: int, j: int| 0 <= i < j < out.len() ==> (#[trigger] out[i]).0 != (#[trigger] out[j]).0
    &&& forall|i: int| 0 <= i < out.len() ==> m.contains_key((#[trigger] out[i]).0) && m[out[i].0] == out[i].1
    &&& forall|n: Seq<char>| #[trigger] m.contains_key(n) ==> exists|i: int| 0 <= i < out.len() && out[i].0 == n
}

/// Where `name` stands among the entries, if it does.
fn position_of_name(out: &Vec<(String, String)>, name: &String) -> (r: Option<usize>)
    ensures
        match r {
            Some(j) => j < out@.len() && out@[j as int].0@ == name@,
            None => forall|q: int| 0 <= q < out@.len() ==> (#[trigger] out@[q]).0@ != name@,
        },
{
    let nc = chars_of(name.as_str());
    let mut j: usize = 0;
    while j < out.len()
        invariant
            nc@ == name@,
            j <= out.len(),
            forall|q: int| 0 <= q < j ==> (#[trigger] out@[q]).0@ != name@,
        decreases out.len() - j,
    {
        let oc = chars_of(out[j].0.as_str());
        if crate::text::eq_chars(&nc, &oc) {
            return Some(j);
        }
        j += 1;
    }
    None
}

/// The headers a request carries for a list of user headers, in the order
/// given: each name in small letters and once, with the value of the last
/// valid entry of that name; entries whose name or value is invalid are
/// skipped.
pub fn select_valid_headers(entries: &Vec<(String, String)>) -> (r: Vec<(String, String)>)
    ensures
        lists_map(entries_view(r@), valid_headers(entries_view(entries@))),
{
    let ghost ev = entries_view(entries@);
    let mut out: Vec<(String, String)> = Vec::new();
    let mut i: usize = 0;
    assert(ev.subrange(0, 0) =~= Seq::<(Seq<char>, Seq<char>)>::empty());
    while i < entries.len()
        invariant
            ev == entries_view(entries@),
            i <= entries.len(),
            lists_map(entries_view(out@), valid_headers(ev.subrange(0, i as int))),
        decreases entries.len() - i,
    {
        let ghost pre = ev.subrange(0, i as int);
        let ghost m = valid_headers(pre);
        assert(ev.subrange(0, i + 1).drop_last() =~= pre);
        assert(ev[i as int] == entry_view(entries@[i as int]));
        let (key, value) = &entries[i];
        let name = canonical_header_name(key.as_str());
        let value_ok = header_value_valid(value.as_str());
        match name {
            Some(n) => {
                if value_ok {
                    let pos = position_of_name(&out, &n);
                    if let Some(j) = pos {
                        let ghost before_set = entries_view(out@);
                        let ghost old_out_vec = out@;
                        out.set(j, (n, value.clone()));
                        assert(entries_view(out@) =~= before_set.update(j as int, (n@, value@)));
                        assert(lists_map(entries_view(out@), m.insert(n@, value@))) by {
                            let o = entries_view(out@);
                            assert(before_set[j as int] == entry_view(old_out_vec[j as int]));
                            assert(before_set[j as int].0 == n@);
                            assert forall|a: int, b: int| 0 <= a < b < o.len() implies (#[trigger] o[a]).0
                                != (#[trigger] o[b]).0 by {
                                assert(before_set[a].0 != before_set[b].0);
                            }
                            assert forall|a: int| 0 <= a < o.len() implies m.insert(n@, value@).contains_key(
                                (#[trigger] o[a]).0,
                            ) && m.insert(n@, value@)[o[a].0] == o[a].1 by {
                                if a != j {
                                    assert(before_set[a].0 != before_set[j as int].0);
                                }
                            }
                            assert forall|n2: Seq<char>| #[trigger] m.insert(n@, value@).contains_key(n2)
                                implies exists|q: int| 0 <= q < o.len() && o[q].0 == n2 by {
                                if n2 == n@ {
                                    assert(o[j as int].0 == n2);
                                } else {
                                    let q = choose|q: int| 0 <= q < before_set.len() && before_set[q].0 == n2;
                                    assert(q != j);
                                    assert(o[q].0 == n2);
                                }
                            }
                        }
                    } else {
                        let ghost before_push = entries_view(out@);
                        out.push((n, value.clone()));
                        assert(entries_view(out@) =~= before_push.push((n@, value@)));
                        assert(lists_map(entries_view(out@), m.insert(n@, value@))) by {
                            let o = entries_view(out@);
                            assert forall|n2: Seq<char>| #[trigger] m.insert(n@, value@).contains_key(n2)
                                implies exists|q: int| 0 <= q < o.len() && o[q].0 == n2 by {
                                if n2 == n@ {
                                    assert(o[o.len() - 1].0 == n2);
                                } else {
                                    let q = choose|q: int| 0 <= q < before_push.len() && before_push[q].0 == n2;
                                    assert(o[q].0 == n2);
                                }
                            }
                        }
                    }
                }
            },
            None => {},
        }
        i += 1;
    }
    assert(ev.subrange(0, i as int) =~= ev);
    out
}

/// The headers that `headers` contributes to every request: each valid
/// entry under its name in small letters. Entries whose name or value is
/// invalid are skipped. When two keys differ only in case, the one that
/// the map's iteration yields last wins; the iteration order is not
/// known, so the contract says which entry may win.
pub fn preprocess_headers(headers: &HashMap<String, String>) -> (r: Vec<(String, String)>)
    ensures
        forall|i: int, j: int| 0 <= i < j < r@.len() ==> (#[trigger] r@[i]).0@ != (#[trigger] r@[j]).0@,
        forall|i: int|
            0 <= i < r@.len() ==> exists|k: String|
                #[trigger] headers@.contains_key(k) && header_name_spec(k@) == Some((#[trigger] r@[i]).0@)
                    && header_value_ok(headers@[k]@) && headers@[k]@ == r@[i].1@,
        forall|k: String|
            #[trigger] headers@.contains_key(k) && header_name_spec(k@) is Some && header_value_ok(
                headers@[k]@,
            ) ==> exists|i: int| 0 <= i < r@.len() && Some(r@[i].0@) == header_name_spec(k@),
{
    let entries = header_entries(headers);
    let r = select_valid_headers(&entries);
    proof {
        lemma_valid_headers_origin(entries_view(entries@));
        let ev = entries_view(entries@);
        let m = valid_headers(ev);
        let rv = entries_view(r@);
        assert forall|i: int, j: int| 0 <= i < j < r@.len() implies (#[trigger] r@[i]).0@ != (#[trigger] r@[j]).0@ by {
            assert(rv[i].0 == r@[i].0@);
            assert(rv[j].0 == r@[j].0@);
        }
        assert forall|i: int| 0 <= i < r@.len() implies exists|k: String|
            #[trigger] headers@.contains_key(k) && header_name_spec(k@) == Some((#[trigger] r@[i]).0@)
                && header_value_ok(headers@[k]@) && headers@[k]@ == r@[i].1@ by {
            assert(rv[i] == entry_view(r@[i]));
            assert(m.contains_key(rv[i].0));
            let p = choose|p: int| 0 <= p < ev.len() && header_name_spec(ev[p].0) == Some(rv[i].0)
                && header_value_ok(ev[p].1) && ev[p].1 == m[rv[i].0];
            assert(ev[p] == entry_view(entries@[p]));
            let k = entries@[p].0;
            assert(headers@.contains_key(k));
        }
        assert forall|k: String|
            #[trigger] headers@.contains_key(k) && header_name_spec(k@) is Some && header_value_ok(
                headers@[k]@,
            ) implies exists|i: int| 0 <= i < r@.len() && Some(r@[i].0@) == header_name_spec(k@) by {
            let p = choose|p: int| 0 <= p < entries@.len() && entries@[p].0 == k;
            assert(ev[p] == entry_view(entries@[p]));
            let n = header_name_spec(k@)->0;
            assert(m.contains_key(n));
            let q = choose|q: int| 0 <= q < rv.len() && rv[q].0 == n;
            assert(rv[q] == entry_view(r@[q]));
        }
    }
    r
}

/// Every header that the entries produce comes from an entry with that
/// name and value, and every valid entry produces its name.
proof fn lemma_valid_headers_origin(entries: Seq<(Seq<char>, Seq<char>)>)
    ensures
        forall|n: Seq<char>| #[trigger] valid_headers(entries).contains_key(n) ==> exists|p: int|
            0 <= p < entries.len() && header_name_spec(entries[p].0) == Some(n) && header_value_ok(
                entries[p].1,
            ) && entries[p].1 == valid_headers(entries)[n],
        forall|p: int|
            0 <= p < entries.len() && header_name_spec((#[trigger] entries[p]).0) is Some
                && header_value_ok(entries[p].1) ==> valid_headers(entries).contains_key(
                header_name_spec(entries[p].0)->0,
            ),
    decreases entries.len(),
{
    if entries.len() > 0 {
        let pre = entries.drop_last();
        lemma_valid_headers_origin(pre);
        let m = valid_headers(entries);
        let mp = valid_headers(pre);
        assert forall|n: Seq<char>| #[trigger] m.contains_key(n) implies exists|p: int|
            0 <= p < entries.len() && header_name_spec(entries[p].0) == Some(n) && header_value_ok(
                entries[p].1,
            ) && entries[p].1 == m[n] by {
            let last = (entries.len() - 1) as int;
            if header_name_spec(entries[last].0) == Some(n) && header_value_ok(entries[last].1) {
            } else {
                assert(mp.contains_key(n));
                let p = choose|p: int| 0 <= p < pre.len() && header_name_spec(pre[p].0) == Some(n)
                    && header_value_ok(pre[p].1) && pre[p].1 == mp[n];
                assert(entries[p] == pre[p]);
            }
        }
        assert forall|p: int|
            0 <= p < entries.len() && header_name_spec((#[trigger] entries[p]).0) is Some
                && header_value_ok(entries[p].1) implies m.contains_key(
                header_name_spec(entries[p].0)->0,
            ) by {
            if p < entries.len() - 1 {
                assert(entries[p] == pre[p]);
            }
        }
    }
}

} // verus!
