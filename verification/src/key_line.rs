//! The `#EXT-X-KEY:` tag of a media playlist.

use vstd::prelude::*;
use crate::text::{
    chars_of, copy_range, eq_chars, find_char_from, index_of_from, split_char, split_spec,
    string_of, strip_prefix_all, strip_prefix_repeated, trim, trim_char, trim_char_spec,
    trim_spec, views,
};

verus! {

/// An `#EXT-X-KEY` line with an attribute that has no `=`.
#[derive(Debug, Clone, Copy, PartialEq, Eq, Structural)]
pub enum KeyLineError {
    InvalidKeyLine,
}

/// The tag that opens a key line.
pub open spec fn key_tag() -> Seq<char> {
    seq!['#', 'E', 'X', 'T', '-', 'X', '-', 'K', 'E', 'Y', ':']
}

pub open spec fn method_name() -> Seq<char> {
    seq!['M', 'E', 'T', 'H', 'O', 'D']
}

pub open spec fn uri_name() -> Seq<char> {
    seq!['U', 'R', 'I']
}

pub open spec fn iv_name() -> Seq<char> {
    seq!['I', 'V']
}

/// The attribute list of a key line: the line without any number of
/// leading tags, trimmed.
pub open spec fn key_content(line: Seq<char>) -> Seq<char> {
    trim_spec(strip_prefix_all(line, key_tag()))
}

/// The comma-separated attributes of a key line.
pub open spec fn key_parts(line: Seq<char>) -> Seq<Seq<char>> {
    split_spec(key_content(line), ',')
}

/// Every attribute holds an `=`.
pub open spec fn all_have_value(parts: Seq<Seq<char>>) -> bool {
    forall|k: int| 0 <= k < parts.len() ==> (#[trigger] index_of_from(parts[k], '=', 0)) is Some
}

/// The name of an attribute: what precedes its first `=`, trimmed.
pub open spec fn attr_name(part: Seq<char>) -> Seq<char> {
    trim_spec(part.subrange(0, index_of_from(part, '=', 0)->0))
}

/// The value of an attribute: what follows its first `=`, trimmed, then
/// stripped of surrounding double quotes.
pub open spec fn attr_value(part: Seq<char>) -> Seq<char> {
    trim_char_spec(
        trim_spec(part.subrange(index_of_from(part, '=', 0)->0 + 1, part.len() as int)),
        '"',
    )
}

/// The first `=` of a name without `=` followed by `=` is the one after
/// the name.
proof fn lemma_first_eq(n: Seq<char>, v: Seq<char>, from: int)
    requires
        forall|i: int| 0 <= i < n.len() ==> #[trigger] n[i] != '=',
        0 <= from <= n.len(),
    ensures
        index_of_from(n + seq!['='] + v, '=', from) == Some(n.len() as int),
    decreases n.len() - from,
{
    let part = n + seq!['='] + v;
    if from < n.len() {
        assert(part[from] == n[from]);
        lemma_first_eq(n, v, from + 1);
    } else {
        assert(part[from] == '=');
    }
}

/// Law: an attribute splits at its first `=`: for a name `n` without `=`
/// and any value `v` (which may itself hold `=`), `n=v` is the attribute
/// `n`, trimmed, with the value `v`, trimmed and unquoted.
pub proof fn lemma_attr_split(n: Seq<char>, v: Seq<char>)
    requires
        forall|i: int| 0 <= i < n.len() ==> #[trigger] n[i] != '=',
    ensures
        attr_name(n + seq!['='] + v) == trim_spec(n),
        attr_value(n + seq!['='] + v) == trim_char_spec(trim_spec(v), '"'),
{
    let part = n + seq!['='] + v;
    lemma_first_eq(n, v, 0);
    assert(part.subrange(0, n.len() as int) =~= n);
    assert(part.subrange(n.len() as int + 1, part.len() as int) =~= v);
}

/// The value of the last attribute called `name`, if any.
pub open spec fn last_attr(parts: Seq<Seq<char>>, name: Seq<char>) -> Option<Seq<char>>
    decreases parts.len(),
{
    if parts.len() == 0 {
        None
    } else if attr_name(parts.last()) == name {
        Some(attr_value(parts.last()))
    } else {
        last_attr(parts.drop_last(), name)
    }
}

/// A value or the empty text.
pub open spec fn or_empty(v: Option<Seq<char>>) -> Seq<char> {
    match v {
        Some(s) => s,
        None => Seq::<char>::empty(),
    }
}

/// What a key line says: its `METHOD` and `URI` (empty when absent) and its
/// `IV` (if present), each the last one given; `None` when some attribute
/// has no `=`.
pub open spec fn parse_key_spec(line: Seq<char>) -> Option<(Seq<char>, Seq<char>, Option<Seq<char>>)> {
    let parts = key_parts(line);
    if all_have_value(parts) {
        Some(
            (
                or_empty(last_attr(parts, method_name())),
                or_empty(last_attr(parts, uri_name())),
                last_attr(parts, iv_name()),
            ),
        )
    } else {
        None
    }
}

/// The chosen value of one attribute name, as characters.
fn chosen_text(v: &Option<Vec<char>>) -> (r: String)
    ensures
        r@ == or_empty(match v {
            Some(x) => Some(x@),
            None => None,
        }),
{
    match v {
        Some(x) => string_of(x.as_slice()),
        None => string_of(&[]),
    }
}

/// Parses an `#EXT-X-KEY:` line into its method, key URI and IV attribute:
/// `METHOD=AES-128,URI="key.php",IV=0X1122` gives
/// `("AES-128", "key.php", Some("0X1122"))`. Attribute names are matched
/// exactly and a later attribute of the same name overrides an earlier one;
/// other attributes are ignored.
pub fn parse_ext_x_key(line: &str) -> (r: Result<(String, String, Option<String>), KeyLineError>)
    ensures
        match parse_key_spec(line@) {
            Some((m, u, iv)) => r matches Ok((rm, ru, riv)) && rm@ == m && ru@ == u && match riv {
                Some(x) => iv == Some(x@),
                None => iv is None,
            },
            None => r == Err::<(String, String, Option<String>), KeyLineError>(
                KeyLineError::InvalidKeyLine,
            ),
        },
{
    let chars = chars_of(line);
    let tag = chars_of("#EXT-X-KEY:");
    let m_name = chars_of("METHOD");
    let u_name = chars_of("URI");
    let i_name = chars_of("IV");
    proof {
        reveal_strlit("#EXT-X-KEY:");
        reveal_strlit("METHOD");
        reveal_strlit("URI");
        reveal_strlit("IV");
        assert(tag@ =~= key_tag());
        assert(m_name@ =~= method_name());
        assert(u_name@ =~= uri_name());
        assert(i_name@ =~= iv_name());
    }
    let stripped = strip_prefix_repeated(&chars, &tag);
    let content = trim(&stripped);
    let parts = split_char(&content, ',');
    let ghost ps = key_parts(line@);
    let mut method: Option<Vec<char>> = None;
    let mut uri: Option<Vec<char>> = None;
    let mut iv: Option<Vec<char>> = None;
    let mut i: usize = 0;
    while i < parts.len()
        invariant
            views(parts@) == ps,
            ps == key_parts(line@),
            i <= parts.len(),
            m_name@ == method_name(),
            u_name@ == uri_name(),
            i_name@ == iv_name(),
            forall|k: int| 0 <= k < i ==> (#[trigger] index_of_from(ps[k], '=', 0)) is Some,
            (match method {
                Some(x) => Some(x@),
                None => None,
            }) == last_attr(ps.subrange(0, i as int), method_name()),
            (match uri {
                Some(x) => Some(x@),
                None => None,
            }) == last_attr(ps.subrange(0, i as int), uri_name()),
            (match iv {
                Some(x) => Some(x@),
                None => None,
            }) == last_attr(ps.subrange(0, i as int), iv_name()),
        decreases parts.len() - i,
    {
        let part = &parts[i];
        assert(views(parts@)[i as int] == part@);
        let eq = match find_char_from(part, '=', 0) {
            Some(e) => e,
            None => {
                assert(!all_have_value(ps));
                return Err(KeyLineError::InvalidKeyLine);
            },
        };
        let name_raw = copy_range(part, 0, eq);
        let name = trim(&name_raw);
        let value_raw = copy_range(part, eq + 1, part.len());
        let value_trimmed = trim(&value_raw);
        let value = trim_char(&value_trimmed, '"');
        let ghost pre = ps.subrange(0, i as int);
        let ghost next = ps.subrange(0, i + 1);
        assert(next.drop_last() =~= pre);
        assert(next.last() == part@);
        assert(name@ == attr_name(part@));
        assert(value@ == attr_value(part@));
        if eq_chars(&name, &m_name) {
            method = Some(copy_range(&value, 0, value.len()));
            assert(value@.subrange(0, value@.len() as int) =~= value@);
        }
        if eq_chars(&name, &u_name) {
            uri = Some(copy_range(&value, 0, value.len()));
            assert(value@.subrange(0, value@.len() as int) =~= value@);
        }
        if eq_chars(&name, &i_name) {
            iv = Some(copy_range(&value, 0, value.len()));
            assert(value@.subrange(0, value@.len() as int) =~= value@);
        }
        i += 1;
    }
    assert(ps.subrange(0, i as int) =~= ps);
    let m = chosen_text(&method);
    let u = chosen_text(&uri);
    let v = match &iv {
        Some(x) => Some(string_of(x.as_slice())),
        None => None,
    };
    Ok((m, u, v))
}

} // verus!
