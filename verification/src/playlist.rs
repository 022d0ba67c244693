//! Reading playlists: picking a variant stream out of a master playlist and
//! turning a media playlist into the segments to fetch.

use vstd::prelude::*;
use crate::text::{
    chars_of, contains, contains_spec, copy_range, lines_of, lines_spec, parse_u64,
    parse_u64_spec, split_char, split_spec, starts_with, starts_with_spec, string_of, trim,
    trim_spec, views, is_ws, lemma_split_two, lemma_trim_unchanged,
};
use crate::url::{resolve_url, resolve_url_spec};
use crate::hex::{hex_bytes, hex_to_bytes};
use crate::key_line::{key_tag, parse_ext_x_key, parse_key_spec, KeyLineError};
use crate::text::{concat, decimal_chars, decimal_spec};

verus! {

// ---------------------------------------------------------------------
// Master playlists
// ---------------------------------------------------------------------

/// The tag of a variant stream in a master playlist.
pub open spec fn stream_inf_tag() -> Seq<char> {
    seq!['#', 'E', 'X', 'T', '-', 'X', '-', 'S', 'T', 'R', 'E', 'A', 'M', '-', 'I', 'N', 'F']
}

/// The attribute prefix that carries a variant's bandwidth.
pub open spec fn bandwidth_prefix() -> Seq<char> {
    seq!['B', 'A', 'N', 'D', 'W', 'I', 'D', 'T', 'H', '=']
}

/// Some line of `text` starts with `#EXT-X-STREAM-INF`.
pub open spec fn is_master_spec(text: Seq<char>) -> bool {
    exists|i: int|
        0 <= i < lines_spec(text).len() && starts_with_spec(
            #[trigger] lines_spec(text)[i],
            stream_inf_tag(),
        )
}

/// The first of `parts`, from index `k` on, that starts with `BANDWIDTH=`
/// once trimmed.
pub open spec fn first_bandwidth_part(parts: Seq<Seq<char>>, k: int) -> Option<Seq<char>>
    decreases parts.len() - k,
{
    if k < 0 || k >= parts.len() {
        None
    } else if starts_with_spec(trim_spec(parts[k]), bandwidth_prefix()) {
        Some(parts[k])
    } else {
        first_bandwidth_part(parts, k + 1)
    }
}

/// The attribute list of a line that starts with `#EXT-X-STREAM-INF`:
/// what follows the tag and its `:`.
pub open spec fn stream_inf_attrs(line: Seq<char>) -> Seq<char> {
    let rest = line.subrange(stream_inf_tag().len() as int, line.len() as int);
    if rest.len() > 0 && rest[0] == ':' {
        rest.drop_first()
    } else {
        rest
    }
}

/// The bandwidth that a `#EXT-X-STREAM-INF` line announces: the number
/// after `BANDWIDTH=` in the first comma-separated attribute that starts
/// with it (wherever it stands in the list), or 0 when there is no such
/// attribute or it is no number.
pub open spec fn line_bandwidth(line: Seq<char>) -> u64 {
    match first_bandwidth_part(split_spec(stream_inf_attrs(line), ','), 0) {
        Some(p) => {
            let t = trim_spec(p);
            match parse_u64_spec(t.subrange(bandwidth_prefix().len() as int, t.len() as int)) {
                Some(v) => v,
                None => 0,
            }
        },
        None => 0,
    }
}

/// Law: the bandwidth of a stream tag is read from the first attribute
/// whose trimmed text starts with `BANDWIDTH=`, whatever attribute comes
/// before it: for an attribute `a` that does not itself start so (such as
/// `AVERAGE-BANDWIDTH=...`), the line `#EXT-X-STREAM-INF:a,BANDWIDTH=d`
/// announces the number `d`, or 0 when `d` is no number.
pub proof fn lemma_bandwidth_after_other(a: Seq<char>, d: Seq<char>)
    requires
        forall|i: int| 0 <= i < a.len() ==> #[trigger] a[i] != ',',
        forall|i: int| 0 <= i < d.len() ==> #[trigger] d[i] != ',',
        !starts_with_spec(trim_spec(a), bandwidth_prefix()),
        d.len() == 0 || !is_ws(d.last()),
    ensures
        line_bandwidth(stream_inf_tag() + seq![':'] + a + seq![','] + bandwidth_prefix() + d)
            == match parse_u64_spec(d) {
            Some(v) => v,
            None => 0,
        },
{
    let b = bandwidth_prefix() + d;
    let line = stream_inf_tag() + seq![':'] + a + seq![','] + b;
    assert(line =~= stream_inf_tag() + seq![':'] + (a + seq![','] + b));
    let rest = line.subrange(stream_inf_tag().len() as int, line.len() as int);
    assert(rest =~= seq![':'] + (a + seq![','] + b));
    assert(stream_inf_attrs(line) =~= a + seq![','] + b);
    assert forall|i: int| 0 <= i < b.len() implies #[trigger] b[i] != ',' by {
        if i >= 10 {
            assert(b[i] == d[i - 10]);
        }
    }
    lemma_split_two(a, b, ',');
    let parts = seq![a, b];
    assert(b[0] == 'B');
    assert(b.last() == '=' || b.last() == d.last());
    lemma_trim_unchanged(b);
    assert(b.subrange(0, 10) =~= bandwidth_prefix());
    assert(first_bandwidth_part(parts, 1) == Some(b));
    assert(first_bandwidth_part(parts, 0) == Some(b));
    assert(b.subrange(10, b.len() as int) =~= d);
    assert(trim_spec(b) == b);
    assert(line_bandwidth(line) == match parse_u64_spec(d) {
        Some(v) => v,
        None => 0,
    });
    assert(line =~= stream_inf_tag() + seq![':'] + a + seq![','] + bandwidth_prefix() + d);
}

/// A line that names a stream: not empty and not a tag or comment.
pub open spec fn is_uri_line(l: Seq<char>) -> bool {
    l.len() > 0 && l[0] != '#'
}

/// The scan of a master playlist: the best bandwidth so far, its URI, and
/// the bandwidth announced for the URI line to come.
pub struct VariantScan {
    pub best: u64,
    pub uri: Seq<char>,
    pub pending: u64,
}

/// One line of the scan. A stream tag sets the pending bandwidth; a URI
/// line becomes the best when its pending bandwidth beats the best so far,
/// and clears the pending bandwidth.
pub open spec fn variant_step(st: VariantScan, line: Seq<char>) -> VariantScan {
    let l = trim_spec(line);
    if starts_with_spec(l, stream_inf_tag()) {
        VariantScan { pending: line_bandwidth(l), ..st }
    } else if is_uri_line(l) {
        if st.pending > st.best {
            VariantScan { best: st.pending, uri: l, pending: 0 }
        } else {
            VariantScan { pending: 0, ..st }
        }
    } else {
        st
    }
}

pub open spec fn variant_start() -> VariantScan {
    VariantScan { best: 0, uri: Seq::<char>::empty(), pending: 0 }
}

/// The scan over the first lines of a playlist.
pub open spec fn variant_scan(lines: Seq<Seq<char>>) -> VariantScan {
    lines.fold_left(variant_start(), |st: VariantScan, l: Seq<char>| variant_step(st, l))
}

/// Why no variant stream could be chosen.
#[derive(Debug, Clone, Copy, PartialEq, Eq, Structural)]
pub enum MasterPlaylistError {
    /// No URI line follows a stream tag with a positive bandwidth.
    NoVariant,
}

/// Law: the chosen bandwidth is at least the bandwidth announced for every
/// URI line of the playlist, so no stream with a higher announced bandwidth
/// is passed over.
pub proof fn lemma_best_variant_is_max(lines: Seq<Seq<char>>, j: int)
    requires
        0 <= j < lines.len(),
        is_uri_line(trim_spec(lines[j])),
        !starts_with_spec(trim_spec(lines[j]), stream_inf_tag()),
    ensures
        variant_scan(lines.subrange(0, j)).pending <= variant_scan(lines).best,
    decreases lines.len(),
{
    if j == lines.len() - 1 {
        assert(lines.drop_last() =~= lines.subrange(0, j));
    } else {
        lemma_best_variant_is_max(lines.drop_last(), j);
        assert(lines.drop_last().subrange(0, j) =~= lines.subrange(0, j));
    }
}

proof fn lemma_best_has_uri(lines: Seq<Seq<char>>)
    ensures
        variant_scan(lines).best > 0 ==> variant_scan(lines).uri.len() > 0,
    decreases lines.len(),
{
    if lines.len() > 0 {
        lemma_best_has_uri(lines.drop_last());
    }
}

/// Law: a variant is found whenever some stream line is announced with a
/// bandwidth above 0; so `NoVariant` comes only when none is.
pub proof fn lemma_variant_found(lines: Seq<Seq<char>>, j: int)
    requires
        0 <= j < lines.len(),
        is_uri_line(trim_spec(lines[j])),
        !starts_with_spec(trim_spec(lines[j]), stream_inf_tag()),
        variant_scan(lines.subrange(0, j)).pending > 0,
    ensures
        variant_scan(lines).uri.len() > 0,
{
    lemma_best_variant_is_max(lines, j);
    lemma_best_has_uri(lines);
}

/// `text` is a master playlist: some line starts with `#EXT-X-STREAM-INF`.
pub fn is_master_playlist(text: &str) -> (r: bool)
    ensures
        r == is_master_spec(text@),
{
    let cs = chars_of(text);
    let lines = lines_of(&cs);
    let tag = chars_of("#EXT-X-STREAM-INF");
    proof {
        reveal_strlit("#EXT-X-STREAM-INF");
        assert(tag@ =~= stream_inf_tag());
    }
    let mut i: usize = 0;
    while i < lines.len()
        invariant
            views(lines@) == lines_spec(text@),
            tag@ == stream_inf_tag(),
            i <= lines.len(),
            forall|k: int| 0 <= k < i ==> !starts_with_spec(#[trigger] lines_spec(text@)[k], stream_inf_tag()),
        decreases lines.len() - i,
    {
        assert(views(lines@)[i as int] == lines@[i as int]@);
        if starts_with(&lines[i], &tag) {
            return true;
        }
        i += 1;
    }
    false
}

/// The bandwidth that a trimmed `#EXT-X-STREAM-INF` line announces.
fn bandwidth_of(line: &Vec<char>) -> (r: u64)
    requires
        starts_with_spec(line@, stream_inf_tag()),
    ensures
        r == line_bandwidth(line@),
{
    let n = 17usize;
    assert(stream_inf_tag().len() == 17);
    let attrs = if n < line.len() && line[n] == ':' {
        copy_range(line, n + 1, line.len())
    } else {
        copy_range(line, n, line.len())
    };
    proof {
        let rest = line@.subrange(17, line@.len() as int);
        if n < line.len() && line@[17] == ':' {
            assert(rest.drop_first() =~= attrs@);
        } else {
            assert(rest =~= attrs@);
        }
    }
    let parts = split_char(&attrs, ',');
    let prefix = chars_of("BANDWIDTH=");
    proof {
        reveal_strlit("BANDWIDTH=");
        assert(prefix@ =~= bandwidth_prefix());
    }
    let ghost ps = split_spec(stream_inf_attrs(line@), ',');
    let mut k: usize = 0;
    while k < parts.len()
        invariant
            views(parts@) == ps,
            ps == split_spec(stream_inf_attrs(line@), ','),
            prefix@ == bandwidth_prefix(),
            k <= parts.len(),
            first_bandwidth_part(ps, 0) == first_bandwidth_part(ps, k as int),
        decreases parts.len() - k,
    {
        assert(views(parts@)[k as int] == parts@[k as int]@);
        let t = trim(&parts[k]);
        if starts_with(&t, &prefix) {
            assert(first_bandwidth_part(ps, k as int) == Some(ps[k as int]));
            let digits = copy_range(&t, prefix.len(), t.len());
            assert(prefix@.len() == 10);

            return match parse_u64(&digits) {
                Some(v) => v,
                None => 0,
            };
        }
        k += 1;
    }
    assert(first_bandwidth_part(ps, k as int) is None);
    0
}

/// Picks the variant stream of a master playlist with the highest
/// announced bandwidth (the first of equals), and resolves its URI against
/// `playlist_url`. A variant whose bandwidth is absent, unreadable or 0 is
/// never picked; the error comes only when no variant announces more
/// than 0. Returns the bandwidth and the resolved URL.
pub fn select_best_variant(text: &str, playlist_url: &str) -> (r: Result<
    (u64, String),
    MasterPlaylistError,
>)
    ensures
        ({
            let st = variant_scan(lines_spec(text@));
            if st.uri.len() == 0 {
                r == Err::<(u64, String), MasterPlaylistError>(MasterPlaylistError::NoVariant)
            } else {
                r matches Ok((bw, u)) && bw == st.best && u@ == resolve_url_spec(
                    playlist_url@,
                    st.uri,
                )
            }
        }),
{
    let cs = chars_of(text);
    let lines = lines_of(&cs);
    let tag = chars_of("#EXT-X-STREAM-INF");
    proof {
        reveal_strlit("#EXT-X-STREAM-INF");
        assert(tag@ =~= stream_inf_tag());
    }
    let ghost ls = lines_spec(text@);
    let mut best: u64 = 0;
    let mut uri: Vec<char> = Vec::new();
    let mut pending: u64 = 0;
    let mut i: usize = 0;
    while i < lines.len()
        invariant
            views(lines@) == ls,
            tag@ == stream_inf_tag(),
            i <= lines.len(),
            variant_scan(ls.subrange(0, i as int)) == (VariantScan {
                best: best,
                uri: uri@,
                pending: pending,
            }),
        decreases lines.len() - i,
    {
        assert(views(lines@)[i as int] == lines@[i as int]@);
        assert(ls.subrange(0, i + 1).drop_last() =~= ls.subrange(0, i as int));
        let l = trim(&lines[i]);
        if starts_with(&l, &tag) {
            pending = bandwidth_of(&l);
        } else if l.len() > 0 && l[0] != '#' {
            if pending > best {
                best = pending;
                uri = l;
            }
            pending = 0;
        }
        i += 1;
    }
    assert(ls.subrange(0, i as int) =~= ls);
    if uri.len() == 0 {
        return Err(MasterPlaylistError::NoVariant);
    }
    let raw = string_of(uri.as_slice());
    Ok((best, resolve_url(playlist_url, raw.as_str())))
}

// ---------------------------------------------------------------------
// Media playlists
// ---------------------------------------------------------------------

/// A step of a media playlist, in playlist order.
#[derive(Debug)]
pub enum PlanStep {
    /// An AES-128 key tag: fetch the key at `key_url`; `iv` is the IV the
    /// tag gives, if it gives a readable one.
    UseKey { key_url: String, iv: Option<Vec<u8>> },
    /// A key tag with another method: later segments are not encrypted.
    ClearKey,
    /// A segment: its number, its URL and the file it is saved to.
    Segment { index: usize, url: String, path: String },
}

/// A step as the contracts speak of it.
pub enum StepModel {
    UseKey { key_url: Seq<char>, iv: Option<Seq<u8>> },
    ClearKey,
    Segment { index: nat, url: Seq<char>, path: Seq<char> },
}

pub open spec fn bytes_view(o: Option<Vec<u8>>) -> Option<Seq<u8>> {
    match o {
        Some(v) => Some(v@),
        None => None,
    }
}

impl View for PlanStep {
    type V = StepModel;

    open spec fn view(&self) -> StepModel {
        match self {
            PlanStep::UseKey { key_url, iv } => StepModel::UseKey {
                key_url: key_url@,
                iv: bytes_view(*iv),
            },
            PlanStep::ClearKey => StepModel::ClearKey,
            PlanStep::Segment { index, url, path } => StepModel::Segment {
                index: *index as nat,
                url: url@,
                path: path@,
            },
        }
    }
}

pub open spec fn steps_view(s: Seq<PlanStep>) -> Seq<StepModel> {
    s.map_values(|x: PlanStep| x@)
}

/// The steps of a media playlist, and the malformed key tag that ended
/// the reading, if one did.
#[derive(Debug)]
pub struct MediaPlan {
    pub steps: Vec<PlanStep>,
    pub error: Option<KeyLineError>,
}

/// The file a segment is saved to: `<dir>/part_<index>.ts`.
pub open spec fn segment_path(dir: Seq<char>, index: nat) -> Seq<char> {
    dir + seq!['/', 'p', 'a', 'r', 't', '_'] + decimal_spec(index) + seq!['.', 't', 's']
}

/// The extension that marks a segment line.
pub open spec fn ts_ext() -> Seq<char> {
    seq!['.', 't', 's']
}

/// `m.to_uppercase() == "AES-128"`: the characters that upper-case to
/// `A`, `E` and `S` are the letters themselves in either case and, for `S`,
/// also U+017F (long s); digits and `-` have no case.
pub open spec fn is_aes128(m: Seq<char>) -> bool {
    &&& m.len() == 7
    &&& (m[0] == 'A' || m[0] == 'a')
    &&& (m[1] == 'E' || m[1] == 'e')
    &&& (m[2] == 'S' || m[2] == 's' || m[2] == '\u{17F}')
    &&& m[3] == '-'
    &&& m[4] == '1'
    &&& m[5] == '2'
    &&& m[6] == '8'
}

/// The IV bytes of an `IV` attribute: hex digits after an optional `0x`
/// or `0X`.
pub open spec fn iv_from_attr(iv: Option<Seq<char>>) -> Option<Seq<u8>> {
    match iv {
        Some(raw) => {
            let hex = if starts_with_spec(raw, seq!['0', 'x']) || starts_with_spec(raw, seq!['0', 'X']) {
                raw.subrange(2, raw.len() as int)
            } else {
                raw
            };
            hex_bytes(hex)
        },
        None => None,
    }
}

/// Law: an IV is read only from an `IV` attribute: without one there is
/// none (the segment's number then gives it); `0x` or `0X` before the hex
/// digits is dropped, and hex digits without it are read as they stand.
pub proof fn lemma_iv_from_attr(h: Seq<char>)
    ensures
        iv_from_attr(None) is None,
        iv_from_attr(Some(seq!['0', 'x'] + h)) == hex_bytes(h),
        iv_from_attr(Some(seq!['0', 'X'] + h)) == hex_bytes(h),
        !starts_with_spec(h, seq!['0', 'x']) && !starts_with_spec(h, seq!['0', 'X'])
            ==> iv_from_attr(Some(h)) == hex_bytes(h),
{
    let lx = seq!['0', 'x'] + h;
    let ux = seq!['0', 'X'] + h;
    assert(lx.subrange(0, 2) =~= seq!['0', 'x']);
    assert(lx.subrange(2, lx.len() as int) =~= h);
    assert(ux.subrange(0, 2) =~= seq!['0', 'X']);
    assert(ux.subrange(2, ux.len() as int) =~= h);
}

/// The reading of a media playlist so far.
pub struct PlanModel {
    pub steps: Seq<StepModel>,
    pub next: nat,
    pub error: Option<KeyLineError>,
}

/// One line of a media playlist. Once a malformed key tag has been met,
/// nothing more is read. A key tag names the key for the segments after
/// it; a line that is no tag and holds `.ts` is the next segment.
pub open spec fn plan_step(st: PlanModel, line: Seq<char>, base: Seq<char>, dir: Seq<char>) -> PlanModel {
    let l = trim_spec(line);
    if st.error is Some {
        st
    } else if starts_with_spec(l, key_tag()) {
        match parse_key_spec(l) {
            None => PlanModel { error: Some(KeyLineError::InvalidKeyLine), ..st },
            Some((m, u, iv)) => if is_aes128(m) {
                PlanModel {
                    steps: st.steps.push(
                        StepModel::UseKey { key_url: resolve_url_spec(base, u), iv: iv_from_attr(iv) },
                    ),
                    ..st
                }
            } else {
                PlanModel { steps: st.steps.push(StepModel::ClearKey), ..st }
            },
        }
    } else if !starts_with_spec(l, seq!['#']) && contains_spec(l, ts_ext()) {
        PlanModel {
            steps: st.steps.push(
                StepModel::Segment {
                    index: st.next,
                    url: resolve_url_spec(base, l),
                    path: segment_path(dir, st.next),
                },
            ),
            next: st.next + 1,
            ..st
        }
    } else {
        st
    }
}

/// Law: an AES-128 key tag adds one key step, for the key at its `URI`
/// resolved against the playlist's URL; the step has an IV exactly when
/// the tag has an `IV` attribute that reads as hex.
pub proof fn lemma_key_tag_step(
    st: PlanModel,
    line: Seq<char>,
    base: Seq<char>,
    dir: Seq<char>,
    m: Seq<char>,
    u: Seq<char>,
    iv: Option<Seq<char>>,
)
    requires
        st.error is None,
        starts_with_spec(trim_spec(line), key_tag()),
        parse_key_spec(trim_spec(line)) == Some((m, u, iv)),
        is_aes128(m),
    ensures
        plan_step(st, line, base, dir).steps.drop_last() == st.steps,
        plan_step(st, line, base, dir).steps.len() == st.steps.len() + 1,
        plan_step(st, line, base, dir).next == st.next,
        plan_step(st, line, base, dir).steps.last() matches StepModel::UseKey { key_url, iv: b }
            && key_url == resolve_url_spec(base, u) && (iv is None ==> b is None) && (b is Some
            ==> iv is Some),
{
    lemma_iv_from_attr(Seq::<char>::empty());
    assert(plan_step(st, line, base, dir).steps.drop_last() =~= st.steps);
}

pub open spec fn plan_start() -> PlanModel {
    PlanModel { steps: Seq::empty(), next: 0, error: None }
}

/// The reading of the given lines of a media playlist.
pub open spec fn plan_lines(lines: Seq<Seq<char>>, base: Seq<char>, dir: Seq<char>) -> PlanModel {
    lines.fold_left(plan_start(), |st: PlanModel, l: Seq<char>| plan_step(st, l, base, dir))
}

/// The number of segment steps among `steps`.
pub open spec fn segment_count(steps: Seq<StepModel>) -> nat
    decreases steps.len(),
{
    if steps.len() == 0 {
        0
    } else {
        segment_count(steps.drop_last()) + if steps.last() is Segment {
            1nat
        } else {
            0nat
        }
    }
}

/// Segments are numbered from 0 in playlist order, and each is saved to
/// `part_<number>.ts` in `dir`.
pub open spec fn numbered_in_order(steps: Seq<StepModel>, dir: Seq<char>) -> bool {
    forall|k: int|
        0 <= k < steps.len() ==> (#[trigger] steps[k] matches StepModel::Segment { index, path, .. }
            ==> index == segment_count(steps.subrange(0, k)) && path == segment_path(dir, index))
}

/// Law: the segments of a media playlist are numbered 0, 1, 2, ... in the
/// order the playlist lists them, and the next number is their count.
pub proof fn lemma_plan_numbering(lines: Seq<Seq<char>>, base: Seq<char>, dir: Seq<char>)
    ensures
        numbered_in_order(plan_lines(lines, base, dir).steps, dir),
        plan_lines(lines, base, dir).next == segment_count(plan_lines(lines, base, dir).steps),
    decreases lines.len(),
{
    if lines.len() > 0 {
        lemma_plan_numbering(lines.drop_last(), base, dir);
        let prev = plan_lines(lines.drop_last(), base, dir);
        let cur = plan_lines(lines, base, dir);
        assert(cur == plan_step(prev, lines.last(), base, dir));
        if cur.steps.len() > prev.steps.len() {
            assert(cur.steps.drop_last() =~= prev.steps);
            assert forall|k: int| 0 <= k < cur.steps.len() implies (#[trigger] cur.steps[k] matches StepModel::Segment { index, path, .. }
                ==> index == segment_count(cur.steps.subrange(0, k)) && path == segment_path(dir, index)) by {
                if k < prev.steps.len() {
                    assert(cur.steps.subrange(0, k) =~= prev.steps.subrange(0, k));
                    assert(cur.steps[k] == prev.steps[k]);
                } else {
                    assert(cur.steps.subrange(0, k) =~= prev.steps);
                }
            }
        } else {
            assert(cur.steps =~= prev.steps);
        }
    }
}

/// `dir/part_<index>.ts`.
fn segment_path_exec(dir: &Vec<char>, index: usize) -> (r: String)
    ensures
        r@ == segment_path(dir@, index as nat),
{
    let mid = chars_of("/part_");
    let ext = chars_of(".ts");
    proof {
        reveal_strlit("/part_");
        reveal_strlit(".ts");
    }
    let num = decimal_chars(index as u64);
    let a = concat(dir, &mid);
    let b = concat(&a, &num);
    let c = concat(&b, &ext);
    assert(c@ =~= segment_path(dir@, index as nat));
    string_of(c.as_slice())
}

/// The upper-cased method is `AES-128`.
fn is_aes128_exec(m: &Vec<char>) -> (r: bool)
    ensures
        r == is_aes128(m@),
{
    m.len() == 7 && (m[0] == 'A' || m[0] == 'a') && (m[1] == 'E' || m[1] == 'e') && (m[2] == 'S'
        || m[2] == 's' || m[2] == '\u{17F}') && m[3] == '-' && m[4] == '1' && m[5] == '2' && m[6]
        == '8'
}

/// The IV bytes of an `IV` attribute, if readable.
fn iv_bytes(iv: &Option<String>) -> (r: Option<Vec<u8>>)
    ensures
        bytes_view(r) == iv_from_attr(match iv {
            Some(s) => Some(s@),
            None => None,
        }),
{
    match iv {
        Some(raw) => {
            let cs = chars_of(raw.as_str());
            let zx = chars_of("0x");
            let zx_upper = chars_of("0X");
            proof {
                reveal_strlit("0x");
                reveal_strlit("0X");
                assert(zx@ =~= seq!['0', 'x']);
                assert(zx_upper@ =~= seq!['0', 'X']);
            }
            let hex = if starts_with(&cs, &zx) || starts_with(&cs, &zx_upper) {
                copy_range(&cs, 2, cs.len())
            } else {
                assert(cs@.subrange(0, cs@.len() as int) =~= cs@);
                copy_range(&cs, 0, cs.len())
            };
            let hs = string_of(hex.as_slice());
            match hex_to_bytes(hs.as_str()) {
                Ok(b) => Some(b),
                Err(_) => None,
            }
        },
        None => None,
    }
}

/// Reads a media playlist into its steps: for every key tag (method
/// `AES-128`, upper-cased) the key URL resolved against `base_url` and the
/// IV it gives, for every other key tag a step that drops the key, and for
/// every line that is not a tag and holds `.ts` a segment, numbered from 0,
/// with its URL resolved against `base_url` and its file
/// `<temp_dir>/part_<number>.ts`. Lines are trimmed first. A malformed key
/// tag ends the reading: the steps before it stand and the error is given.
pub fn plan_media_playlist(text: &str, base_url: &str, temp_dir: &str) -> (r: MediaPlan)
    ensures
        ({
            let m = plan_lines(lines_spec(text@), base_url@, temp_dir@);
            steps_view(r.steps@) == m.steps && r.error == m.error
        }),
{
    let cs = chars_of(text);
    let lines = lines_of(&cs);
    let dir = chars_of(temp_dir);
    let tag = chars_of("#EXT-X-KEY:");
    let hash = chars_of("#");
    let ext = chars_of(".ts");
    proof {
        reveal_strlit("#EXT-X-KEY:");
        reveal_strlit("#");
        reveal_strlit(".ts");
        assert(tag@ =~= key_tag());
        assert(hash@ =~= seq!['#']);
        assert(ext@ =~= ts_ext());
    }
    let ghost ls = lines_spec(text@);
    let mut steps: Vec<PlanStep> = Vec::new();
    let mut next: usize = 0;
    let mut error: Option<KeyLineError> = None;
    let mut i: usize = 0;
    assert(steps_view(steps@) =~= Seq::<StepModel>::empty());
    assert(ls.subrange(0, 0) =~= Seq::<Seq<char>>::empty());
    while i < lines.len()
        invariant
            views(lines@) == ls,
            ls == lines_spec(text@),
            dir@ == temp_dir@,
            tag@ == key_tag(),
            hash@ == seq!['#'],
            ext@ == ts_ext(),
            i <= lines.len(),
            next <= i,
            plan_lines(ls.subrange(0, i as int), base_url@, temp_dir@) == (PlanModel {
                steps: steps_view(steps@),
                next: next as nat,
                error: error,
            }),
        decreases lines.len() - i,
    {
        assert(views(lines@)[i as int] == lines@[i as int]@);
        assert(ls.subrange(0, i + 1).drop_last() =~= ls.subrange(0, i as int));
        let ghost before = steps_view(steps@);
        if error.is_none() {
            let l = trim(&lines[i]);
            if starts_with(&l, &tag) {
                let ls_str = string_of(l.as_slice());
                match parse_ext_x_key(ls_str.as_str()) {
                    Err(e) => {
                        error = Some(e);
                    },
                    Ok((m, u, iv)) => {
                        let mc = chars_of(m.as_str());
                        if is_aes128_exec(&mc) {
                            let key_url = resolve_url(base_url, u.as_str());
                            let ivb = iv_bytes(&iv);
                            steps.push(PlanStep::UseKey { key_url, iv: ivb });
                        } else {
                            steps.push(PlanStep::ClearKey);
                        }
                        assert(steps_view(steps@) =~= before.push(steps@.last()@));
                    },
                }
            } else if !starts_with(&l, &hash) && contains(&l, &ext) {
                let ls_str = string_of(l.as_slice());
                let url = resolve_url(base_url, ls_str.as_str());
                let path = segment_path_exec(&dir, next);
                steps.push(PlanStep::Segment { index: next, url, path });
                assert(steps_view(steps@) =~= before.push(steps@.last()@));
                next = next + 1;
            }
        }
        i += 1;
    }
    assert(ls.subrange(0, i as int) =~= ls);
    MediaPlan { steps, error }
}

// ---------------------------------------------------------------------
// Segments with their keys
// ---------------------------------------------------------------------

/// The key of an encrypted segment: the AES-128 key and, if the playlist
/// gives one, the IV; without it the IV derives from the segment number.
#[derive(Debug, Clone)]
pub struct EncryptionInfo {
    pub key: Vec<u8>,
    pub iv: Option<Vec<u8>>,
}

pub struct KeyModel {
    pub key: Seq<u8>,
    pub iv: Option<Seq<u8>>,
}

impl View for EncryptionInfo {
    type V = KeyModel;

    open spec fn view(&self) -> KeyModel {
        KeyModel { key: self.key@, iv: bytes_view(self.iv) }
    }
}

/// A segment to fetch: its number, URL, file, and key if encrypted.
#[derive(Debug)]
pub struct SegmentTask {
    pub index: usize,
    pub url: String,
    pub path: String,
    pub encryption: Option<EncryptionInfo>,
}

pub struct SegmentModel {
    pub index: nat,
    pub url: Seq<char>,
    pub path: Seq<char>,
    pub key: Option<KeyModel>,
}

pub open spec fn key_view(e: Option<EncryptionInfo>) -> Option<KeyModel> {
    match e {
        Some(k) => Some(k@),
        None => None,
    }
}

impl View for SegmentTask {
    type V = SegmentModel;

    open spec fn view(&self) -> SegmentModel {
        SegmentModel {
            index: self.index as nat,
            url: self.url@,
            path: self.path@,
            key: key_view(self.encryption),
        }
    }
}

pub open spec fn tasks_view(s: Seq<SegmentTask>) -> Seq<SegmentModel> {
    s.map_values(|x: SegmentTask| x@)
}

pub open spec fn keys_view(s: Seq<Vec<u8>>) -> Seq<Seq<u8>> {
    s.map_values(|x: Vec<u8>| x@)
}

/// The number of key-fetching steps among `steps`.
pub open spec fn key_count(steps: Seq<StepModel>) -> nat
    decreases steps.len(),
{
    if steps.len() == 0 {
        0
    } else {
        key_count(steps.drop_last()) + if steps.last() is UseKey {
            1nat
        } else {
            0nat
        }
    }
}

/// Assigning keys so far: the segments, the key in force, and how many
/// fetched keys have been used.
pub struct BuildModel {
    pub segments: Seq<SegmentModel>,
    pub current: Option<KeyModel>,
    pub used: nat,
}

/// One step: a key step puts the next fetched key (with the step's IV) in
/// force, a clearing step removes it, and a segment takes the key in force.
pub open spec fn build_step(st: BuildModel, step: StepModel, keys: Seq<Seq<u8>>) -> BuildModel {
    match step {
        StepModel::UseKey { iv, .. } => BuildModel {
            current: Some(KeyModel { key: keys[st.used as int], iv: iv }),
            used: st.used + 1,
            ..st
        },
        StepModel::ClearKey => BuildModel { current: None, ..st },
        StepModel::Segment { index, url, path } => BuildModel {
            segments: st.segments.push(
                SegmentModel { index: index, url: url, path: path, key: st.current },
            ),
            ..st
        },
    }
}

pub open spec fn build_start() -> BuildModel {
    BuildModel { segments: Seq::empty(), current: None, used: 0 }
}

/// The segments that `steps` give with `keys` fetched for their key steps.
pub open spec fn build_from(steps: Seq<StepModel>, keys: Seq<Seq<u8>>) -> BuildModel {
    steps.fold_left(build_start(), |st: BuildModel, s: StepModel| build_step(st, s, keys))
}

proof fn lemma_build_counts(steps: Seq<StepModel>, keys: Seq<Seq<u8>>)
    ensures
        build_from(steps, keys).used == key_count(steps),
        build_from(steps, keys).segments.len() == segment_count(steps),
    decreases steps.len(),
{
    if steps.len() > 0 {
        lemma_build_counts(steps.drop_last(), keys);
    }
}

/// Law: when the steps number their segments in order, so do the segments
/// built from them: the `k`-th has number `k` and file `part_<k>.ts`.
pub proof fn lemma_built_segments_numbered(steps: Seq<StepModel>, keys: Seq<Seq<u8>>, dir: Seq<char>)
    requires
        numbered_in_order(steps, dir),
    ensures
        ({
            let segs = build_from(steps, keys).segments;
            &&& segs.len() == segment_count(steps)
            &&& forall|k: int| 0 <= k < segs.len() ==> (#[trigger] segs[k]).index == k && segs[k].path
                == segment_path(dir, k as nat)
        }),
    decreases steps.len(),
{
    lemma_build_counts(steps, keys);
    if steps.len() > 0 {
        let pre = steps.drop_last();
        assert forall|k: int| 0 <= k < pre.len() implies (#[trigger] pre[k] matches StepModel::Segment { index, path, .. }
            ==> index == segment_count(pre.subrange(0, k)) && path == segment_path(dir, index)) by {
            assert(pre[k] == steps[k]);
            assert(pre.subrange(0, k) =~= steps.subrange(0, k));
        }
        lemma_built_segments_numbered(pre, keys, dir);
        lemma_build_counts(pre, keys);
        let n = (steps.len() - 1) as int;
        assert(steps.subrange(0, n) =~= pre);
        assert(steps[n] == steps.last());
    }
}

/// Law: for a media playlist, the segments built from its steps are
/// numbered 0, 1, 2, ... and the `k`-th is saved to
/// `<temp_dir>/part_<k>.ts`.
pub proof fn lemma_playlist_segments_numbered(
    text: Seq<char>,
    base: Seq<char>,
    dir: Seq<char>,
    keys: Seq<Seq<u8>>,
)
    ensures
        ({
            let steps = plan_lines(lines_spec(text), base, dir).steps;
            let segs = build_from(steps, keys).segments;
            forall|k: int| 0 <= k < segs.len() ==> (#[trigger] segs[k]).index == k && segs[k].path
                == segment_path(dir, k as nat)
        }),
{
    lemma_plan_numbering(lines_spec(text), base, dir);
    lemma_built_segments_numbered(plan_lines(lines_spec(text), base, dir).steps, keys, dir);
}

/// The key in force just before step `p`: found by looking back from
/// there for the nearest key step. A key-fetching step puts its fetched
/// key (the next of `keys`, counting key steps) with its own IV in force;
/// a clearing step, or no key step at all, leaves no key.
pub open spec fn key_in_force(steps: Seq<StepModel>, keys: Seq<Seq<u8>>, p: int) -> Option<KeyModel>
    decreases p,
{
    if p <= 0 {
        None
    } else {
        match steps[p - 1] {
            StepModel::UseKey { iv, .. } => Some(
                KeyModel { key: keys[key_count(steps.subrange(0, p - 1)) as int], iv: iv },
            ),
            StepModel::ClearKey => None,
            StepModel::Segment { .. } => key_in_force(steps, keys, p - 1),
        }
    }
}

/// The key in force before `p` depends only on the steps before `p`.
proof fn lemma_key_in_force_prefix(steps: Seq<StepModel>, keys: Seq<Seq<u8>>, p: int, n: int)
    requires
        0 <= p <= n <= steps.len(),
    ensures
        key_in_force(steps.subrange(0, n), keys, p) == key_in_force(steps, keys, p),
    decreases p,
{
    if p > 0 {
        let pre = steps.subrange(0, n);
        assert(pre[p - 1] == steps[p - 1]);
        assert(pre.subrange(0, p - 1) =~= steps.subrange(0, p - 1));
        lemma_key_in_force_prefix(steps, keys, p - 1, n);
    }
}

/// Counting segments step by step.
proof fn lemma_segment_count_prefix(s: Seq<StepModel>, i: int)
    requires
        0 <= i < s.len(),
    ensures
        segment_count(s.subrange(0, i + 1)) == segment_count(s.subrange(0, i as int)) + if s[i] is Segment {
            1nat
        } else {
            0nat
        },
        segment_count(s.subrange(0, i + 1)) <= segment_count(s),
    decreases s.len(),
{
    assert(s.subrange(0, i + 1).drop_last() =~= s.subrange(0, i));
    if i + 1 < s.len() {
        lemma_segment_count_prefix(s.drop_last(), i);
        assert(s.drop_last().subrange(0, i + 1) =~= s.subrange(0, i + 1));
        assert(s.drop_last().subrange(0, i) =~= s.subrange(0, i));
    } else {
        assert(s.subrange(0, i + 1) =~= s);
    }
}

/// Law: every segment step becomes a built segment, in order, and that
/// segment carries the key in force where the step stands: the fetched key
/// of the nearest key step before it, with that step's IV, or no key when
/// that step clears the key or there is none.
pub proof fn lemma_segment_keys(steps: Seq<StepModel>, keys: Seq<Seq<u8>>)
    ensures
        build_from(steps, keys).current == key_in_force(steps, keys, steps.len() as int),
        build_from(steps, keys).segments.len() == segment_count(steps),
        forall|p: int|
            0 <= p < steps.len() ==> (#[trigger] steps[p] matches StepModel::Segment {
                index,
                url,
                path,
            } ==> segment_count(steps.subrange(0, p)) < segment_count(steps) && build_from(
                steps,
                keys,
            ).segments[segment_count(steps.subrange(0, p)) as int] == (SegmentModel {
                index: index,
                url: url,
                path: path,
                key: key_in_force(steps, keys, p),
            })),
    decreases steps.len(),
{
    lemma_build_counts(steps, keys);
    if steps.len() > 0 {
        let n = steps.len() - 1;
        let pre = steps.drop_last();
        lemma_segment_keys(pre, keys);
        lemma_build_counts(pre, keys);
        assert(steps.subrange(0, n) =~= pre);
        lemma_key_in_force_prefix(steps, keys, n, n);
        let b = build_from(pre, keys);
        let c = build_from(steps, keys);
        assert(c == build_step(b, steps.last(), keys));
        assert forall|p: int|
            0 <= p < steps.len() implies (#[trigger] steps[p] matches StepModel::Segment {
                index,
                url,
                path,
            } ==> segment_count(steps.subrange(0, p)) < segment_count(steps) && c.segments[segment_count(
                steps.subrange(0, p),
            ) as int] == (SegmentModel {
                index: index,
                url: url,
                path: path,
                key: key_in_force(steps, keys, p),
            })) by {
            if p < n {
                assert(pre[p] == steps[p]);
                assert(pre.subrange(0, p) =~= steps.subrange(0, p));
                lemma_key_in_force_prefix(steps, keys, p, n);
                if steps[p] is Segment {
                    lemma_segment_count_prefix(pre, p);
                    assert(c.segments.subrange(0, b.segments.len() as int) =~= b.segments);
                }
            }
        }
    }
}

/// Law: a segment under a key step, with only segments between them,
/// carries that step's fetched key and IV.
pub proof fn lemma_key_in_force_after_key(steps: Seq<StepModel>, keys: Seq<Seq<u8>>, j: int, p: int)
    requires
        0 <= j < p <= steps.len(),
        steps[j] is UseKey,
        forall|q: int| j < q < p ==> (#[trigger] steps[q]) is Segment,
    ensures
        key_in_force(steps, keys, p) == Some(
            KeyModel {
                key: keys[key_count(steps.subrange(0, j)) as int],
                iv: steps[j]->UseKey_iv,
            },
        ),
    decreases p - j,
{
    if p - 1 > j {
        assert(steps[p - 1] is Segment);
        lemma_key_in_force_after_key(steps, keys, j, p - 1);
    }
}

/// Law: a segment with no key step before it, or under a clearing step
/// with only segments between them, carries no key.
pub proof fn lemma_key_in_force_cleared(steps: Seq<StepModel>, keys: Seq<Seq<u8>>, j: int, p: int)
    requires
        -1 <= j < p <= steps.len(),
        j >= 0 ==> steps[j] is ClearKey,
        forall|q: int| j < q < p ==> (#[trigger] steps[q]) is Segment,
    ensures
        key_in_force(steps, keys, p) is None,
    decreases p - j,
{
    if p - 1 > j {
        assert(steps[p - 1] is Segment);
        lemma_key_in_force_cleared(steps, keys, j, p - 1);
    } else if p > 0 {
        assert(p - 1 == j);
    }
}

/// A copy of some bytes.
fn copy_bytes(b: &Vec<u8>) -> (r: Vec<u8>)
    ensures
        r@ == b@,
{
    let mut r: Vec<u8> = Vec::new();
    let mut i: usize = 0;
    while i < b.len()
        invariant
            i <= b.len(),
            r@ == b@.subrange(0, i as int),
        decreases b.len() - i,
    {
        r.push(b[i]);
        i += 1;
    }
    assert(r@ =~= b@);
    r
}

fn copy_opt_bytes(b: &Option<Vec<u8>>) -> (r: Option<Vec<u8>>)
    ensures
        bytes_view(r) == bytes_view(*b),
{
    match b {
        Some(v) => Some(copy_bytes(v)),
        None => None,
    }
}

fn copy_key(k: &Option<EncryptionInfo>) -> (r: Option<EncryptionInfo>)
    ensures
        key_view(r) == key_view(*k),
{
    match k {
        Some(e) => Some(EncryptionInfo { key: copy_bytes(&e.key), iv: copy_opt_bytes(&e.iv) }),
        None => None,
    }
}

/// The segments of a media playlist's steps, each with the key in force
/// where it stands. `keys` holds the fetched keys, one per key step, in
/// order.
pub fn build_segments(steps: &Vec<PlanStep>, keys: &Vec<Vec<u8>>) -> (r: Vec<SegmentTask>)
    requires
        keys.len() == key_count(steps_view(steps@)),
    ensures
        tasks_view(r@) == build_from(steps_view(steps@), keys_view(keys@)).segments,
{
    let ghost sv = steps_view(steps@);
    let ghost kv = keys_view(keys@);
    let mut out: Vec<SegmentTask> = Vec::new();
    let mut current: Option<EncryptionInfo> = None;
    let mut used: usize = 0;
    let mut i: usize = 0;
    assert(sv.subrange(0, 0) =~= Seq::<StepModel>::empty());
    assert(tasks_view(out@) =~= Seq::<SegmentModel>::empty());
    while i < steps.len()
        invariant
            sv == steps_view(steps@),
            kv == keys_view(keys@),
            keys.len() == key_count(sv),
            i <= steps.len(),
            used == key_count(sv.subrange(0, i as int)),
            build_from(sv.subrange(0, i as int), kv) == (BuildModel {
                segments: tasks_view(out@),
                current: key_view(current),
                used: used as nat,
            }),
        decreases steps.len() - i,
    {
        let ghost pre = sv.subrange(0, i as int);
        assert(sv.subrange(0, i + 1).drop_last() =~= pre);
        assert(sv[i as int] == steps@[i as int]@);
        proof {
            lemma_key_count_prefix(sv, i as int);
        }
        match &steps[i] {
            PlanStep::UseKey { iv, .. } => {
                assert(kv[used as int] == keys@[used as int]@);
                current = Some(EncryptionInfo { key: copy_bytes(&keys[used]), iv: copy_opt_bytes(iv) });
                used = used + 1;
            },
            PlanStep::ClearKey => {
                current = None;
            },
            PlanStep::Segment { index, url, path } => {
                let ghost before = tasks_view(out@);
                out.push(SegmentTask {
                    index: *index,
                    url: url.clone(),
                    path: path.clone(),
                    encryption: copy_key(&current),
                });
                assert(tasks_view(out@) =~= before.push(out@.last()@));
            },
        }
        i += 1;
    }
    assert(sv.subrange(0, i as int) =~= sv);
    out
}

/// A prefix that stops before a key step leaves a key to use for it.
proof fn lemma_key_count_prefix(s: Seq<StepModel>, i: int)
    requires
        0 <= i < s.len(),
    ensures
        key_count(s.subrange(0, i + 1)) == key_count(s.subrange(0, i as int)) + if s[i] is UseKey {
            1nat
        } else {
            0nat
        },
        key_count(s.subrange(0, i + 1)) <= key_count(s),
    decreases s.len(),
{
    assert(s.subrange(0, i + 1).drop_last() =~= s.subrange(0, i));
    if i + 1 < s.len() {
        lemma_key_count_prefix(s.drop_last(), i);
        assert(s.drop_last().subrange(0, i + 1) =~= s.subrange(0, i + 1));
        assert(s.drop_last().subrange(0, i) =~= s.subrange(0, i));
    } else {
        assert(s.subrange(0, i + 1) =~= s);
    }
}

} // verus!
