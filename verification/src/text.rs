//! Character-sequence primitives shared by the parsers.
//!
//! Every parser of this crate reads text as a sequence of `char`s, with the
//! meaning that `str`'s own methods give it: `trim` removes Unicode white
//! space, `lines` splits at `\n` and drops a `\r` before it, and so on.
//! Each executable helper here is tied to a spec function that states that
//! meaning directly.

use vstd::prelude::*;

verus! {

// ---------------------------------------------------------------------
// Specifications
// ---------------------------------------------------------------------

/// The Unicode `White_Space` property, which `char::is_whitespace` tests.
pub open spec fn is_ws(c: char) -> bool {
    let u = c as u32;
    ||| 0x09 <= u <= 0x0D
    ||| u == 0x20
    ||| u == 0x85
    ||| u == 0xA0
    ||| u == 0x1680
    ||| 0x2000 <= u <= 0x200A
    ||| u == 0x2028
    ||| u == 0x2029
    ||| u == 0x202F
    ||| u == 0x205F
    ||| u == 0x3000
}

/// `s` without its leading white space (`str::trim_start`).
pub open spec fn trim_start_spec(s: Seq<char>) -> Seq<char>
    decreases s.len(),
{
    if s.len() > 0 && is_ws(s[0]) {
        trim_start_spec(s.drop_first())
    } else {
        s
    }
}

/// `s` without its trailing white space (`str::trim_end`).
pub open spec fn trim_end_spec(s: Seq<char>) -> Seq<char>
    decreases s.len(),
{
    if s.len() > 0 && is_ws(s.last()) {
        trim_end_spec(s.drop_last())
    } else {
        s
    }
}

/// `s` without leading and trailing white space (`str::trim`).
pub open spec fn trim_spec(s: Seq<char>) -> Seq<char> {
    trim_end_spec(trim_start_spec(s))
}

/// `s` begins with `p`.
pub open spec fn starts_with_spec(s: Seq<char>, p: Seq<char>) -> bool {
    p.len() <= s.len() && s.subrange(0, p.len() as int) == p
}

/// `p` occurs in `s` at position `i`.
pub open spec fn occurs_at(s: Seq<char>, p: Seq<char>, i: int) -> bool {
    0 <= i && i + p.len() <= s.len() && s.subrange(i, i + p.len()) == p
}

/// `p` occurs somewhere in `s` (`str::contains`).
pub open spec fn contains_spec(s: Seq<char>, p: Seq<char>) -> bool {
    exists|i: int| occurs_at(s, p, i)
}

/// `s` without every leading `c`.
pub open spec fn trim_char_start(s: Seq<char>, c: char) -> Seq<char>
    decreases s.len(),
{
    if s.len() > 0 && s[0] == c {
        trim_char_start(s.drop_first(), c)
    } else {
        s
    }
}

/// `s` without every trailing `c`.
pub open spec fn trim_char_end(s: Seq<char>, c: char) -> Seq<char>
    decreases s.len(),
{
    if s.len() > 0 && s.last() == c {
        trim_char_end(s.drop_last(), c)
    } else {
        s
    }
}

/// `s` without every leading and trailing `c`.
pub open spec fn trim_char_spec(s: Seq<char>, c: char) -> Seq<char> {
    trim_char_end(trim_char_start(s, c), c)
}

/// `s` with `p` removed from its front as many times as it is there.
pub open spec fn strip_prefix_all(s: Seq<char>, p: Seq<char>) -> Seq<char>
    decreases s.len(),
{
    if p.len() > 0 && starts_with_spec(s, p) {
        strip_prefix_all(s.subrange(p.len() as int, s.len() as int), p)
    } else {
        s
    }
}

/// The first index at or after `from` where `s` holds `c`.
pub open spec fn index_of_from(s: Seq<char>, c: char, from: int) -> Option<int>
    decreases s.len() - from,
{
    if from < 0 || from >= s.len() {
        None
    } else if s[from] == c {
        Some(from)
    } else {
        index_of_from(s, c, from + 1)
    }
}

/// The last index where `s` holds `c`.
pub open spec fn last_index_of(s: Seq<char>, c: char) -> Option<int>
    decreases s.len(),
{
    if s.len() == 0 {
        None
    } else if s.last() == c {
        Some(s.len() - 1)
    } else {
        last_index_of(s.drop_last(), c)
    }
}

/// The pieces of `s` between occurrences of `c` (`str::split` on a char).
pub open spec fn split_spec(s: Seq<char>, c: char) -> Seq<Seq<char>>
    decreases s.len(),
{
    if s.len() == 0 {
        seq![Seq::<char>::empty()]
    } else {
        let rest = split_spec(s.drop_last(), c);
        if s.last() == c {
            rest.push(Seq::<char>::empty())
        } else {
            rest.update(rest.len() - 1, rest.last().push(s.last()))
        }
    }
}

/// `l` without one trailing carriage return.
pub open spec fn strip_cr(l: Seq<char>) -> Seq<char> {
    if l.len() > 0 && l.last() == '\r' {
        l.drop_last()
    } else {
        l
    }
}

/// Each piece without one trailing carriage return.
pub open spec fn strip_cr_all(p: Seq<Seq<char>>) -> Seq<Seq<char>> {
    p.map_values(|l: Seq<char>| strip_cr(l))
}

/// The lines of `s` as `str::lines` yields them: split at `\n`, a `\r`
/// right before a `\n` dropped, and no empty line after a final `\n`.
pub open spec fn lines_spec(s: Seq<char>) -> Seq<Seq<char>> {
    let p = split_spec(s, '\n');
    let body = strip_cr_all(p.drop_last());
    if p.last().len() == 0 {
        body
    } else {
        body.push(p.last())
    }
}

/// The value of a decimal digit.
pub open spec fn digit_value(c: char) -> nat {
    ((c as u32) - ('0' as u32)) as nat
}

pub open spec fn is_digit(c: char) -> bool {
    '0' <= c && c <= '9'
}

/// The character of a decimal digit.
pub open spec fn digit_char(d: nat) -> char {
    (d + ('0' as u32)) as char
}

/// The value of a run of decimal digits.
pub open spec fn decimal_value(s: Seq<char>) -> nat
    decreases s.len(),
{
    if s.len() == 0 {
        0
    } else {
        decimal_value(s.drop_last()) * 10 + digit_value(s.last())
    }
}

/// The decimal writing of `n`, as `Display` for integers gives it.
pub open spec fn decimal_spec(n: nat) -> Seq<char>
    decreases n,
{
    if n < 10 {
        seq![digit_char(n)]
    } else {
        decimal_spec(n / 10).push(digit_char(n % 10))
    }
}

/// The digits that `str::parse` reads for an unsigned type: all of `s`
/// but one leading `+`.
pub open spec fn unsigned_digits(s: Seq<char>) -> Seq<char> {
    if s.len() > 0 && s[0] == '+' {
        s.drop_first()
    } else {
        s
    }
}

/// Every character of `d` is a decimal digit.
pub open spec fn all_digits(d: Seq<char>) -> bool {
    forall|i: int| 0 <= i < d.len() ==> is_digit(#[trigger] d[i])
}

/// What `str::parse::<u64>` returns: an optional `+`, then at least one
/// decimal digit and nothing else, with a value that fits in 64 bits.
pub open spec fn parse_u64_spec(s: Seq<char>) -> Option<u64> {
    let d = unsigned_digits(s);
    if d.len() > 0 && all_digits(d) && decimal_value(d) <= u64::MAX {
        Some(decimal_value(d) as u64)
    } else {
        None
    }
}

/// The views of a sequence of character vectors.
pub open spec fn views(v: Seq<Vec<char>>) -> Seq<Seq<char>> {
    v.map_values(|x: Vec<char>| x@)
}

// ---------------------------------------------------------------------
// Lemmas
// ---------------------------------------------------------------------

/// A run of digits is worth at least any of its prefixes.
pub proof fn lemma_decimal_value_prefix(s: Seq<char>, i: int)
    requires
        0 <= i <= s.len(),
    ensures
        decimal_value(s.subrange(0, i)) <= decimal_value(s),
    decreases s.len(),
{
    if i < s.len() {
        lemma_decimal_value_prefix(s.drop_last(), i);
        assert(s.drop_last().subrange(0, i) =~= s.subrange(0, i));
    } else {
        assert(s.subrange(0, i) =~= s);
    }
}

/// A found index is in range and holds the character.
pub proof fn lemma_index_of_from_found(s: Seq<char>, c: char, from: int)
    ensures
        index_of_from(s, c, from) matches Some(i) ==> from <= i < s.len() && s[i] == c,
    decreases s.len() - from,
{
    if 0 <= from < s.len() && s[from] != c {
        lemma_index_of_from_found(s, c, from + 1);
    }
}

/// A found last index is in range and holds the character.
pub proof fn lemma_last_index_of_found(s: Seq<char>, c: char)
    ensures
        last_index_of(s, c) matches Some(i) ==> 0 <= i < s.len() && s[i] == c,
    decreases s.len(),
{
    if s.len() > 0 && s.last() != c {
        lemma_last_index_of_found(s.drop_last(), c);
    }
}

/// The result of `split_spec` is never empty.
pub proof fn lemma_split_nonempty(s: Seq<char>, c: char)
    ensures
        split_spec(s, c).len() >= 1,
    decreases s.len(),
{
    if s.len() > 0 {
        lemma_split_nonempty(s.drop_last(), c);
    }
}

/// Appending text without `c` to `s` extends the last piece of its split
/// at `c` and adds no piece.
pub proof fn lemma_split_append_plain(s: Seq<char>, t: Seq<char>, c: char)
    requires
        forall|i: int| 0 <= i < t.len() ==> #[trigger] t[i] != c,
    ensures
        split_spec(s + t, c) == split_spec(s, c).update(
            split_spec(s, c).len() - 1,
            split_spec(s, c).last() + t,
        ),
        split_spec(s + t, c).len() == split_spec(s, c).len(),
    decreases t.len(),
{
    lemma_split_nonempty(s, c);
    let p = split_spec(s, c);
    if t.len() == 0 {
        assert(s + t =~= s);
        assert(p.last() + t =~= p.last());
        assert(p.update(p.len() - 1, p.last()) =~= p);
    } else {
        let u = t.drop_last();
        lemma_split_append_plain(s, u, c);
        assert((s + t).drop_last() =~= s + u);
        assert((s + t).last() == t.last());
        let q = split_spec(s + u, c);
        assert(q.last() == p.last() + u);
        assert((p.last() + u).push(t.last()) =~= p.last() + t);
        assert(t[t.len() - 1] != c);
        assert(q.len() == p.len());
        assert(q.update(q.len() - 1, q.last().push(t.last())) =~= p.update(
            p.len() - 1,
            p.last() + t,
        ));
    }
}

/// Two runs without `c`, joined by one `c`, split at `c` into those two
/// runs.
pub proof fn lemma_split_two(a: Seq<char>, b: Seq<char>, c: char)
    requires
        forall|i: int| 0 <= i < a.len() ==> #[trigger] a[i] != c,
        forall|i: int| 0 <= i < b.len() ==> #[trigger] b[i] != c,
    ensures
        split_spec(a + seq![c] + b, c) == seq![a, b],
{
    let e = Seq::<char>::empty();
    assert(split_spec(e, c) =~= seq![e]);
    lemma_split_append_plain(e, a, c);
    assert(e + a =~= a);
    assert(seq![e].update(0, e + a) =~= seq![a]);
    let ac = a + seq![c];
    assert(ac.drop_last() =~= a);
    assert(ac.last() == c);
    assert(split_spec(ac, c) =~= seq![a, e]);
    lemma_split_append_plain(ac, b, c);
    assert(e + b =~= b);
    assert(seq![a, e].update(1, e + b) =~= seq![a, b]);
}

/// Text that neither begins nor ends with white space is its own trim.
pub proof fn lemma_trim_unchanged(s: Seq<char>)
    requires
        s.len() > 0,
        !is_ws(s[0]),
        !is_ws(s.last()),
    ensures
        trim_spec(s) == s,
{
    assert(trim_start_spec(s) == s);
    assert(trim_end_spec(s) == s);
}

// ---------------------------------------------------------------------
// Executable helpers
// ---------------------------------------------------------------------

/// Copies the characters of `s` into a vector.
pub fn chars_of(s: &str) -> (r: Vec<char>)
    ensures
        r@ == s@,
{
    let mut r: Vec<char> = Vec::new();
    for c in it: s.chars()
        invariant
            r@ == it.seq().take(it.index()),
            it.seq() == s@,
    {
        r.push(c);
    }
    r
}

/// Builds a `String` from characters (`FromIterator<char>` for `String`).
///
/// Trusted: std documents that collecting chars yields the string made of
/// exactly those chars, in order.
#[verifier::external_body]
pub(crate) fn string_of(cs: &[char]) -> (r: String)
    ensures
        r@ == cs@,
{
    cs.iter().collect()
}

/// `char::is_whitespace`.
pub fn is_ws_char(c: char) -> (r: bool)
    ensures
        r == is_ws(c),
{
    let u = c as u32;
    (0x09 <= u && u <= 0x0D) || u == 0x20 || u == 0x85 || u == 0xA0 || u == 0x1680 || (0x2000
        <= u && u <= 0x200A) || u == 0x2028 || u == 0x2029 || u == 0x202F || u == 0x205F || u
        == 0x3000
}

/// A copy of `s[from..to]`.
pub fn copy_range(s: &Vec<char>, from: usize, to: usize) -> (r: Vec<char>)
    requires
        from <= to <= s.len(),
    ensures
        r@ == s@.subrange(from as int, to as int),
{
    let mut r: Vec<char> = Vec::new();
    let mut i = from;
    while i < to
        invariant
            from <= i <= to <= s.len(),
            r@ == s@.subrange(from as int, i as int),
        decreases to - i,
    {
        r.push(s[i]);
        i += 1;
    }
    r
}

/// The concatenation of `a` and `b`.
pub fn concat(a: &Vec<char>, b: &Vec<char>) -> (r: Vec<char>)
    ensures
        r@ == a@ + b@,
{
    let mut r = copy_range(a, 0, a.len());
    let mut i: usize = 0;
    while i < b.len()
        invariant
            i <= b.len(),
            r@ == a@ + b@.subrange(0, i as int),
        decreases b.len() - i,
    {
        r.push(b[i]);
        i += 1;
    }
    r
}

/// `s.trim_start()`.
pub fn trim_start(s: &Vec<char>) -> (r: Vec<char>)
    ensures
        r@ == trim_start_spec(s@),
{
    let mut i: usize = 0;
    assert(s@.subrange(0, s@.len() as int) =~= s@);
    while i < s.len() && is_ws_char(s[i])
        invariant
            i <= s.len(),
            trim_start_spec(s@) == trim_start_spec(s@.subrange(i as int, s@.len() as int)),
        decreases s.len() - i,
    {
        assert(s@.subrange(i as int, s@.len() as int).drop_first() =~= s@.subrange(
            i + 1,
            s@.len() as int,
        ));
        i += 1;
    }
    copy_range(s, i, s.len())
}

/// `s.trim_end()`.
pub fn trim_end(s: &Vec<char>) -> (r: Vec<char>)
    ensures
        r@ == trim_end_spec(s@),
{
    let mut j: usize = s.len();
    assert(s@.subrange(0, s@.len() as int) =~= s@);
    while j > 0 && is_ws_char(s[j - 1])
        invariant
            j <= s.len(),
            trim_end_spec(s@) == trim_end_spec(s@.subrange(0, j as int)),
        decreases j,
    {
        assert(s@.subrange(0, j as int).drop_last() =~= s@.subrange(0, j - 1));
        j -= 1;
    }
    assert(s@.subrange(0, s@.len() as int) =~= s@);
    copy_range(s, 0, j)
}

/// `s.trim()`.
pub fn trim(s: &Vec<char>) -> (r: Vec<char>)
    ensures
        r@ == trim_spec(s@),
{
    let t = trim_start(s);
    trim_end(&t)
}

/// `p` occurs in `s` at position `at`.
pub fn occurs_at_exec(s: &Vec<char>, p: &Vec<char>, at: usize) -> (r: bool)
    ensures
        r == occurs_at(s@, p@, at as int),
{
    if at > s.len() || p.len() > s.len() - at {
        return false;
    }
    let mut k: usize = 0;
    while k < p.len()
        invariant
            k <= p.len(),
            at + p.len() <= s.len(),
            forall|j: int| 0 <= j < k ==> s@[at + j] == p@[j],
        decreases p.len() - k,
    {
        if s[at + k] != p[k] {
            assert(s@.subrange(at as int, at + p@.len())[k as int] != p@[k as int]);
            return false;
        }
        k += 1;
    }
    assert(s@.subrange(at as int, at + p@.len()) =~= p@);
    true
}

/// `s.starts_with(p)`.
pub fn starts_with(s: &Vec<char>, p: &Vec<char>) -> (r: bool)
    ensures
        r == starts_with_spec(s@, p@),
{
    occurs_at_exec(s, p, 0)
}

/// `s.contains(p)`.
pub fn contains(s: &Vec<char>, p: &Vec<char>) -> (r: bool)
    ensures
        r == contains_spec(s@, p@),
{
    if p.len() > s.len() {
        return false;
    }
    if p.len() == 0 {
        assert(s@.subrange(0, 0) =~= p@);
        assert(occurs_at(s@, p@, 0));
        return true;
    }
    let mut i: usize = 0;
    while i <= s.len() - p.len()
        invariant
            0 < p.len() <= s.len(),
            i <= s.len() - p.len() + 1,
            forall|j: int| 0 <= j < i ==> !occurs_at(s@, p@, j),
        decreases s.len() - p.len() + 1 - i,
    {
        if occurs_at_exec(s, p, i) {
            return true;
        }
        i += 1;
    }
    assert forall|j: int| !occurs_at(s@, p@, j) by {
        if 0 <= j && j + p@.len() <= s@.len() {
            assert(j < i);
        }
    }
    false
}

/// The first index at or after `from` holding `c`.
pub fn find_char_from(s: &Vec<char>, c: char, from: usize) -> (r: Option<usize>)
    ensures
        match r {
            Some(i) => index_of_from(s@, c, from as int) == Some(i as int) && from <= i < s.len()
                && s@[i as int] == c,
            None => index_of_from(s@, c, from as int) is None,
        },
{
    proof {
        lemma_index_of_from_found(s@, c, from as int);
    }
    let mut i = from;
    while i < s.len()
        invariant
            from <= i,
            index_of_from(s@, c, from as int) == index_of_from(s@, c, i as int),
        decreases s.len() - i,
    {
        if s[i] == c {
            return Some(i);
        }
        i += 1;
    }
    None
}

/// The last index holding `c`.
pub fn rfind_char(s: &Vec<char>, c: char) -> (r: Option<usize>)
    ensures
        match r {
            Some(i) => last_index_of(s@, c) == Some(i as int) && i < s.len() && s@[i as int] == c,
            None => last_index_of(s@, c) is None,
        },
{
    proof {
        lemma_last_index_of_found(s@, c);
    }
    let mut j: usize = s.len();
    assert(s@.subrange(0, j as int) =~= s@);
    while j > 0
        invariant
            j <= s.len(),
            last_index_of(s@, c) == last_index_of(s@.subrange(0, j as int), c),
        decreases j,
    {
        assert(s@.subrange(0, j as int).drop_last() =~= s@.subrange(0, j - 1));
        if s[j - 1] == c {
            return Some(j - 1);
        }
        j -= 1;
    }
    None
}

/// `s.split(c)`, each piece copied.
pub fn split_char(s: &Vec<char>, c: char) -> (r: Vec<Vec<char>>)
    ensures
        views(r@) == split_spec(s@, c),
{
    let mut done: Vec<Vec<char>> = Vec::new();
    let mut cur: Vec<char> = Vec::new();
    let mut i: usize = 0;
    assert(s@.subrange(0, 0) =~= Seq::<char>::empty());
    assert(views(done@).push(cur@) =~= split_spec(s@.subrange(0, 0), c));
    while i < s.len()
        invariant
            i <= s.len(),
            views(done@).push(cur@) == split_spec(s@.subrange(0, i as int), c),
        decreases s.len() - i,
    {
        let ghost before = s@.subrange(0, i as int);
        assert(s@.subrange(0, i + 1).drop_last() =~= before);
        if s[i] == c {
            let old_cur = cur;
            done.push(old_cur);
            cur = Vec::new();
            assert(views(done@).push(cur@) =~= split_spec(before, c).push(Seq::<char>::empty()));
        } else {
            let ghost old_done = done@;
            cur.push(s[i]);
            let ghost pieces = split_spec(before, c);
            assert(views(done@).push(cur@) =~= pieces.update(
                pieces.len() - 1,
                pieces.last().push(s@[i as int]),
            ));
        }
        i += 1;
    }
    assert(s@.subrange(0, s@.len() as int) =~= s@);
    done.push(cur);
    assert(views(done@) =~= split_spec(s@, c));
    done
}

/// `l` without one trailing `\r`.
pub fn strip_cr_exec(l: &Vec<char>) -> (r: Vec<char>)
    ensures
        r@ == strip_cr(l@),
{
    if l.len() > 0 && l[l.len() - 1] == '\r' {
        copy_range(l, 0, l.len() - 1)
    } else {
        copy_range(l, 0, l.len())
    }
}

/// `s.lines()`, each line copied.
pub fn lines_of(s: &Vec<char>) -> (r: Vec<Vec<char>>)
    ensures
        views(r@) == lines_spec(s@),
{
    let pieces = split_char(s, '\n');
    proof {
        lemma_split_nonempty(s@, '\n');
    }
    let n = pieces.len();
    let ghost p = split_spec(s@, '\n');
    let mut r: Vec<Vec<char>> = Vec::new();
    let mut i: usize = 0;
    while i + 1 < n
        invariant
            n == pieces@.len(),
            n >= 1,
            views(pieces@) == p,
            i + 1 <= n,
            views(r@) == strip_cr_all(p.subrange(0, i as int)),
        decreases n - i,
    {
        let line = strip_cr_exec(&pieces[i]);
        let ghost old_r = r@;
        r.push(line);
        assert(views(pieces@)[i as int] == pieces@[i as int]@);
        assert(views(r@) =~= views(old_r).push(line@));
        assert(strip_cr_all(p.subrange(0, i + 1)) =~= strip_cr_all(p.subrange(0, i as int)).push(
            strip_cr(p[i as int]),
        ));
        i += 1;
    }
    assert(p.subrange(0, i as int) =~= p.drop_last());
    assert(views(pieces@)[n - 1] == pieces@[n - 1]@);
    if pieces[n - 1].len() > 0 {
        let last = copy_range(&pieces[n - 1], 0, pieces[n - 1].len());
        assert(last@ =~= p.last());
        let ghost old_r = r@;
        r.push(last);
        assert(views(r@) =~= views(old_r).push(last@));
        assert(views(r@) == strip_cr_all(p.drop_last()).push(p.last()));
    } else {
        assert(views(r@) == strip_cr_all(p.drop_last()));
    }
    assert(lines_spec(s@) == (if p.last().len() == 0 {
        strip_cr_all(p.drop_last())
    } else {
        strip_cr_all(p.drop_last()).push(p.last())
    }));
    r
}

/// `a == b` on character vectors.
pub fn eq_chars(a: &Vec<char>, b: &Vec<char>) -> (r: bool)
    ensures
        r == (a@ == b@),
{
    if a.len() != b.len() {
        return false;
    }
    let mut i: usize = 0;
    while i < a.len()
        invariant
            a.len() == b.len(),
            i <= a.len(),
            forall|j: int| 0 <= j < i ==> a@[j] == b@[j],
        decreases a.len() - i,
    {
        if a[i] != b[i] {
            return false;
        }
        i += 1;
    }
    assert(a@ =~= b@);
    true
}

/// `s` without every leading `c` and every trailing `c`
/// (`str::trim_matches` with a char).
pub fn trim_char(s: &Vec<char>, c: char) -> (r: Vec<char>)
    ensures
        r@ == trim_char_spec(s@, c),
{
    let mut i: usize = 0;
    assert(s@.subrange(0, s@.len() as int) =~= s@);
    while i < s.len() && s[i] == c
        invariant
            i <= s.len(),
            trim_char_start(s@, c) == trim_char_start(s@.subrange(i as int, s@.len() as int), c),
        decreases s.len() - i,
    {
        assert(s@.subrange(i as int, s@.len() as int).drop_first() =~= s@.subrange(
            i + 1,
            s@.len() as int,
        ));
        i += 1;
    }
    let t = copy_range(s, i, s.len());
    let mut j: usize = t.len();
    assert(t@.subrange(0, t@.len() as int) =~= t@);
    while j > 0 && t[j - 1] == c
        invariant
            j <= t.len(),
            trim_char_end(t@, c) == trim_char_end(t@.subrange(0, j as int), c),
        decreases j,
    {
        assert(t@.subrange(0, j as int).drop_last() =~= t@.subrange(0, j - 1));
        j -= 1;
    }
    copy_range(&t, 0, j)
}

/// `s` with `p` removed from its front as many times as it is there
/// (`str::trim_start_matches` with a string).
pub fn strip_prefix_repeated(s: &Vec<char>, p: &Vec<char>) -> (r: Vec<char>)
    ensures
        r@ == strip_prefix_all(s@, p@),
{
    let mut cur = copy_range(s, 0, s.len());
    assert(s@.subrange(0, s@.len() as int) =~= s@);
    if p.len() == 0 {
        return cur;
    }
    while starts_with(&cur, p)
        invariant
            p@.len() > 0,
            strip_prefix_all(s@, p@) == strip_prefix_all(cur@, p@),
        decreases cur@.len(),
    {
        cur = copy_range(&cur, p.len(), cur.len());
    }
    cur
}

/// The decimal writing of `n`.
pub fn decimal_chars(n: u64) -> (r: Vec<char>)
    ensures
        r@ == decimal_spec(n as nat),
    decreases n,
{
    let d = (n % 10) as u32;
    let c = if d == 0 {
        '0'
    } else if d == 1 {
        '1'
    } else if d == 2 {
        '2'
    } else if d == 3 {
        '3'
    } else if d == 4 {
        '4'
    } else if d == 5 {
        '5'
    } else if d == 6 {
        '6'
    } else if d == 7 {
        '7'
    } else if d == 8 {
        '8'
    } else {
        '9'
    };
    assert(c == digit_char((n % 10) as nat));
    if n < 10 {
        let mut r: Vec<char> = Vec::new();
        r.push(c);
        assert(r@ =~= seq![digit_char(n as nat)]);
        r
    } else {
        let mut r = decimal_chars(n / 10);
        r.push(c);
        r
    }
}

/// `s.parse::<u64>().ok()`.
pub fn parse_u64(s: &Vec<char>) -> (r: Option<u64>)
    ensures
        r == parse_u64_spec(s@),
{
    let start: usize = if s.len() > 0 && s[0] == '+' {
        1
    } else {
        0
    };
    let ghost d = unsigned_digits(s@);
    assert(d =~= s@.subrange(start as int, s@.len() as int));
    if start >= s.len() {
        return None;
    }
    let mut v: u64 = 0;
    let mut i: usize = start;
    while i < s.len()
        invariant
            start <= i <= s.len(),
            d == s@.subrange(start as int, s@.len() as int),
            d == unsigned_digits(s@),
            forall|k: int| 0 <= k < i - start ==> is_digit(#[trigger] d[k]),
            v == decimal_value(d.subrange(0, i - start)),
        decreases s.len() - i,
    {
        let c = s[i];
        if !('0' <= c && c <= '9') {
            assert(!is_digit(d[i - start]));
            assert(!all_digits(d));
            return None;
        }
        let dv = (c as u32 - '0' as u32) as u64;
        let ghost next = d.subrange(0, i + 1 - start);
        assert(next.drop_last() =~= d.subrange(0, i - start));
        assert(decimal_value(next) == v * 10 + dv);
        if v > (u64::MAX - dv) / 10 {
            proof {
                assert(v * 10 + dv > u64::MAX) by (nonlinear_arith)
                    requires
                        v > (u64::MAX - dv) / 10,
                        dv <= 9,
                ;
                lemma_decimal_value_prefix(d, i + 1 - start);
                assert(decimal_value(d) > u64::MAX);
            }
            return None;
        }
        proof {
            assert(v * 10 + dv <= u64::MAX) by (nonlinear_arith)
                requires
                    v <= (u64::MAX - dv) / 10,
                    dv <= 9,
            ;
        }
        v = v * 10 + dv;
        i += 1;
    }
    assert(d.subrange(0, i - start) =~= d);
    Some(v)
}

} // verus!
