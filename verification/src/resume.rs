//! Resuming and retrying: the manifest of finished segments, which
//! segments a round still has to fetch, and when to retry.

use vstd::prelude::*;
use rand::rngs::{OsRng, SmallRng};
use rand::{Rng, SeedableRng};
use crate::segment::DownloadResult;
use crate::text::{
    chars_of, concat, eq_chars, lines_of, lines_spec, split_spec, strip_cr, strip_cr_all,
    string_of, trim, trim_spec, views,
};

verus! {

/// How many times one segment is tried in a round.
pub const MAX_SEGMENT_ATTEMPTS: usize = 15;

/// How many rounds a download makes before it gives up.
pub const MAX_ROUNDS: usize = 5;

// ---------------------------------------------------------------------
// The manifest
// ---------------------------------------------------------------------

/// The lines of the manifest that are not blank, as they are written.
pub open spec fn nonblank_lines(ls: Seq<Seq<char>>) -> Seq<Seq<char>>
    decreases ls.len(),
{
    if ls.len() == 0 {
        Seq::empty()
    } else if trim_spec(ls.last()).len() > 0 {
        nonblank_lines(ls.drop_last()).push(ls.last())
    } else {
        nonblank_lines(ls.drop_last())
    }
}

/// The names a manifest records, in order: its lines that are not blank.
pub open spec fn manifest_names(text: Seq<char>) -> Seq<Seq<char>> {
    nonblank_lines(lines_spec(text))
}

/// The manifest line recorded for a finished segment's file name.
pub open spec fn manifest_record(name: Seq<char>) -> Seq<char> {
    name.push('\n')
}

/// A manifest that records `names`, one line each, in order.
pub open spec fn manifest_of(names: Seq<Seq<char>>) -> Seq<char>
    decreases names.len(),
{
    if names.len() == 0 {
        Seq::empty()
    } else {
        manifest_of(names.drop_last()) + manifest_record(names.last())
    }
}

/// A name that a manifest line can hold and give back: not blank, without
/// a line break, and not ending in a carriage return.
pub open spec fn recordable(name: Seq<char>) -> bool {
    &&& trim_spec(name).len() > 0
    &&& forall|i: int| 0 <= i < name.len() ==> #[trigger] name[i] != '\n'
    &&& !(name.len() > 0 && name.last() == '\r')
}

proof fn lemma_split_manifest(names: Seq<Seq<char>>)
    requires
        forall|k: int| 0 <= k < names.len() ==> recordable(#[trigger] names[k]),
    ensures
        split_spec(manifest_of(names), '\n') == names.push(Seq::<char>::empty()),
    decreases names.len(),
{
    if names.len() == 0 {
        assert(split_spec(Seq::<char>::empty(), '\n') =~= seq![Seq::<char>::empty()]);
    } else {
        let pre = names.drop_last();
        let n = names.last();
        assert forall|k: int| 0 <= k < pre.len() implies recordable(#[trigger] pre[k]) by {
            assert(pre[k] == names[k]);
        }
        assert(recordable(names[names.len() - 1]));
        lemma_split_manifest(pre);
        let s = manifest_of(pre);
        crate::text::lemma_split_append_plain(s, n, '\n');
        let whole = manifest_of(names);
        assert(whole =~= (s + n).push('\n'));
        assert(whole.drop_last() =~= s + n);
        assert(seq![Seq::<char>::empty()].last() + n =~= n);
        let ps = pre.push(Seq::<char>::empty());
        assert(ps.update(ps.len() - 1, ps.last() + n) =~= names);
        assert(names.push(Seq::<char>::empty()) =~= split_spec(s + n, '\n').push(
            Seq::<char>::empty(),
        ));
    }
}

proof fn lemma_nonblank_all(ls: Seq<Seq<char>>)
    requires
        forall|k: int| 0 <= k < ls.len() ==> trim_spec(#[trigger] ls[k]).len() > 0,
    ensures
        nonblank_lines(ls) == ls,
    decreases ls.len(),
{
    if ls.len() > 0 {
        let pre = ls.drop_last();
        assert forall|k: int| 0 <= k < pre.len() implies trim_spec(#[trigger] pre[k]).len() > 0 by {
            assert(pre[k] == ls[k]);
        }
        lemma_nonblank_all(pre);
        assert(trim_spec(ls[ls.len() - 1]).len() > 0);
        assert(pre.push(ls.last()) =~= ls);
    }
}

/// Law: a manifest written one record per finished segment reads back as
/// exactly the names recorded, in order; so the count of finished
/// segments read from it is the number of records written.
pub proof fn lemma_manifest_roundtrip(names: Seq<Seq<char>>)
    requires
        forall|k: int| 0 <= k < names.len() ==> recordable(#[trigger] names[k]),
    ensures
        manifest_names(manifest_of(names)) == names,
{
    lemma_split_manifest(names);
    let p = names.push(Seq::<char>::empty());
    assert(p.drop_last() =~= names);
    assert(strip_cr_all(names) =~= names) by {
        assert forall|k: int| 0 <= k < names.len() implies strip_cr(names[k]) == names[k] by {
            assert(recordable(names[k]));
        }
    }
    assert(lines_spec(manifest_of(names)) == names);
    assert forall|k: int| 0 <= k < names.len() implies trim_spec(#[trigger] names[k]).len() > 0 by {
        assert(recordable(names[k]));
    }
    lemma_nonblank_all(names);
}

pub open spec fn strings_view(s: Seq<String>) -> Seq<Seq<char>> {
    s.map_values(|x: String| x@)
}

/// The names that a manifest records: its lines that are not blank, each
/// as it stands.
pub fn manifest_entries(text: &str) -> (r: Vec<String>)
    ensures
        strings_view(r@) == manifest_names(text@),
{
    let cs = chars_of(text);
    let lines = lines_of(&cs);
    let ghost ls = lines_spec(text@);
    let mut out: Vec<String> = Vec::new();
    let mut i: usize = 0;
    assert(ls.subrange(0, 0) =~= Seq::<Seq<char>>::empty());
    assert(strings_view(out@) =~= Seq::<Seq<char>>::empty());
    while i < lines.len()
        invariant
            views(lines@) == ls,
            i <= lines.len(),
            strings_view(out@) == nonblank_lines(ls.subrange(0, i as int)),
        decreases lines.len() - i,
    {
        assert(ls.subrange(0, i + 1).drop_last() =~= ls.subrange(0, i as int));
        assert(views(lines@)[i as int] == lines@[i as int]@);
        let t = trim(&lines[i]);
        if t.len() > 0 {
            let ghost before = strings_view(out@);
            out.push(string_of(lines[i].as_slice()));
            assert(strings_view(out@) =~= before.push(lines@[i as int]@));
        }
        i += 1;
    }
    assert(ls.subrange(0, i as int) =~= ls);
    out
}

/// How many of the segments (given by their file names, `None` for a
/// path with none) the manifest records as finished. Each segment counts
/// once, however often its name is recorded, and names of no segment do
/// not count.
pub open spec fn recorded_count(names: Seq<Option<Seq<char>>>, recorded: Seq<Seq<char>>) -> nat
    decreases names.len(),
{
    if names.len() == 0 {
        0
    } else {
        recorded_count(names.drop_last(), recorded) + match names.last() {
            Some(n) => if recorded.contains(n) {
                1nat
            } else {
                0nat
            },
            None => 0nat,
        }
    }
}

pub open spec fn opt_strings_view(s: Seq<Option<String>>) -> Seq<Option<Seq<char>>> {
    s.map_values(|x: Option<String>| match x {
        Some(v) => Some(v@),
        None => None,
    })
}

proof fn lemma_recorded_count_bound(names: Seq<Option<Seq<char>>>, recorded: Seq<Seq<char>>)
    ensures
        recorded_count(names, recorded) <= names.len(),
    decreases names.len(),
{
    if names.len() > 0 {
        lemma_recorded_count_bound(names.drop_last(), recorded);
    }
}

/// Law: when the count reaches the number of segments, every segment has
/// a file name and the manifest records it; so a download is taken as
/// complete only when each of its segments has been saved.
pub proof fn lemma_all_recorded(names: Seq<Option<Seq<char>>>, recorded: Seq<Seq<char>>)
    requires
        recorded_count(names, recorded) >= names.len(),
    ensures
        forall|k: int|
            0 <= k < names.len() ==> ((#[trigger] names[k]) matches Some(n) && recorded.contains(n)),
    decreases names.len(),
{
    if names.len() > 0 {
        let pre = names.drop_last();
        lemma_recorded_count_bound(pre, recorded);
        lemma_all_recorded(pre, recorded);
        assert forall|k: int| 0 <= k < names.len() implies ((#[trigger] names[k]) matches Some(n)
            && recorded.contains(n)) by {
            if k < names.len() - 1 {
                assert(names[k] == pre[k]);
            }
        }
    }
}

/// How many of the segments, given by their file names, the manifest text
/// records as finished; each segment counts once.
pub fn completed_segments(manifest: &str, segment_names: &Vec<Option<String>>) -> (r: usize)
    ensures
        r == recorded_count(opt_strings_view(segment_names@), manifest_names(manifest@)),
        r <= segment_names.len(),
{
    let recorded = manifest_entries(manifest);
    let ghost rec = manifest_names(manifest@);
    let ghost nv = opt_strings_view(segment_names@);
    let mut count: usize = 0;
    let mut i: usize = 0;
    while i < segment_names.len()
        invariant
            strings_view(recorded@) == rec,
            nv == opt_strings_view(segment_names@),
            i <= segment_names.len(),
            count == recorded_count(nv.subrange(0, i as int), rec),
            count <= i,
        decreases segment_names.len() - i,
    {
        assert(nv.subrange(0, i + 1).drop_last() =~= nv.subrange(0, i as int));
        match &segment_names[i] {
            Some(n) => {
                let listed = is_listed(n.as_str(), &recorded);
                if listed {
                    count = count + 1;
                }
            },
            None => {},
        }
        i += 1;
    }
    assert(nv.subrange(0, i as int) =~= nv);
    count
}

/// `name` is among `names`.
fn is_listed(name: &str, names: &Vec<String>) -> (r: bool)
    ensures
        r == strings_view(names@).contains(name@),
{
    let n = chars_of(name);
    let ghost cv = strings_view(names@);
    let mut listed = false;
    let mut i: usize = 0;
    while i < names.len()
        invariant
            cv == strings_view(names@),
            n@ == name@,
            i <= names.len(),
            listed == exists|j: int| 0 <= j < i && cv[j] == n@,
        decreases names.len() - i,
    {
        assert(cv[i as int] == names@[i as int]@);
        let c = chars_of(names[i].as_str());
        if eq_chars(&c, &n) {
            listed = true;
        }
        i += 1;
    }
    listed
}

/// The manifest line to append when a segment is saved under `name`.
pub fn manifest_line(name: &str) -> (r: String)
    ensures
        r@ == manifest_record(name@),
{
    let n = chars_of(name);
    let nl = chars_of("\n");
    proof {
        reveal_strlit("\n");
    }
    let c = concat(&n, &nl);
    assert(c@ =~= manifest_record(name@));
    string_of(c.as_slice())
}

// ---------------------------------------------------------------------
// Planning a round
// ---------------------------------------------------------------------

/// What a round does with one segment.
#[derive(Debug, Clone, Copy, PartialEq, Eq, Structural)]
pub enum ResumeState {
    /// Its path has no file name: it is left out of the round.
    Unnamed,
    /// The manifest lists it and its file holds this many bytes.
    AlreadyDone(u64),
    /// It has to be fetched.
    Pending,
}

/// A segment's state from its file name, the names the manifest lists and
/// the size of its file (if it could be read): finished when listed with a
/// non-empty file, to fetch otherwise.
pub open spec fn resume_state_spec(name: Option<Seq<char>>, completed: Seq<Seq<char>>, size: Option<u64>) -> ResumeState {
    match name {
        None => ResumeState::Unnamed,
        Some(n) => if completed.contains(n) {
            match size {
                Some(s) if s > 0 => ResumeState::AlreadyDone(s),
                _ => ResumeState::Pending,
            }
        } else {
            ResumeState::Pending
        },
    }
}

/// Decides what a round does with a segment whose file has `name`
/// (`None` when its path has none), given the names of the manifest and
/// the size of the segment's file.
pub fn resume_state(name: Option<&str>, completed: &Vec<String>, size: Option<u64>) -> (r: ResumeState)
    ensures
        r == resume_state_spec(
            match name {
                Some(n) => Some(n@),
                None => None,
            },
            strings_view(completed@),
            size,
        ),
{
    let listed = match name {
        None => {
            return ResumeState::Unnamed;
        },
        Some(n) => is_listed(n, completed),
    };
    if listed {
        match size {
            Some(s) => if s > 0 {
                ResumeState::AlreadyDone(s)
            } else {
                ResumeState::Pending
            },
            None => ResumeState::Pending,
        }
    } else {
        ResumeState::Pending
    }
}

// ---------------------------------------------------------------------
// Retrying a segment
// ---------------------------------------------------------------------

/// What to do after one attempt at a segment.
#[derive(Debug, Clone, Copy, PartialEq, Eq, Structural)]
pub enum AttemptNext {
    /// The segment was saved: record it in the manifest and count it.
    Record,
    /// The download was cancelled: stop.
    Stop,
    /// Wait this many seconds (plus a random jitter) and try again.
    Retry { base_delay_secs: u64 },
    /// The last attempt failed: leave the segment to the next round.
    GiveUp,
}

pub open spec fn pow2(n: nat) -> nat
    decreases n,
{
    if n == 0 {
        1
    } else {
        2 * pow2((n - 1) as nat)
    }
}

/// The back-off before the next attempt: 2^(attempt-1) seconds, at most 10.
pub open spec fn backoff_secs(attempt: nat) -> nat {
    let p = pow2((attempt - 1) as nat);
    if p < 10 {
        p
    } else {
        10
    }
}

proof fn lemma_pow2_monotone(a: nat, b: nat)
    requires
        a <= b,
    ensures
        pow2(a) <= pow2(b),
    decreases b,
{
    if a < b {
        lemma_pow2_monotone(a, (b - 1) as nat);
    }
}

/// Law: the back-off never shrinks from one attempt to the next and never
/// exceeds 10 seconds.
pub proof fn lemma_backoff_monotone(a: nat)
    requires
        a >= 1,
    ensures
        backoff_secs(a) <= backoff_secs(a + 1) <= 10,
{
    lemma_pow2_monotone((a - 1) as nat, a);
}

/// What an attempt at a segment leads to: `result` is how the attempt
/// ended, or `None` when it failed with an error.
pub open spec fn attempt_next_spec(attempt: nat, result: Option<DownloadResult>) -> AttemptNext {
    match result {
        Some(DownloadResult::Success(_)) => AttemptNext::Record,
        Some(DownloadResult::Cancelled(_)) => AttemptNext::Stop,
        _ => if attempt < MAX_SEGMENT_ATTEMPTS {
            AttemptNext::Retry { base_delay_secs: backoff_secs(attempt) as u64 }
        } else {
            AttemptNext::GiveUp
        },
    }
}

/// Law: an attempt leads to recording the segment in the manifest exactly
/// when it saved the segment; an empty answer, a cancellation or an error
/// never does, whatever the attempt's number.
pub proof fn lemma_record_only_on_success(attempt: nat, result: Option<DownloadResult>)
    ensures
        (attempt_next_spec(attempt, result) == AttemptNext::Record) <==> (result matches Some(
            DownloadResult::Success(_),
        )),
{
}

/// Decides what follows attempt number `attempt` (from 1) at a segment:
/// a saved segment is recorded, a cancelled one stops, and an empty answer
/// or an error is retried after a back-off until the last attempt.
pub fn next_after_attempt(attempt: usize, result: Option<&DownloadResult>) -> (r: AttemptNext)
    requires
        1 <= attempt <= MAX_SEGMENT_ATTEMPTS,
    ensures
        r == attempt_next_spec(
            attempt as nat,
            match result {
                Some(d) => Some(*d),
                None => None,
            },
        ),
{
    match result {
        Some(DownloadResult::Success(_)) => AttemptNext::Record,
        Some(DownloadResult::Cancelled(_)) => AttemptNext::Stop,
        _ => if attempt < MAX_SEGMENT_ATTEMPTS {
            AttemptNext::Retry { base_delay_secs: backoff_base(attempt) }
        } else {
            AttemptNext::GiveUp
        },
    }
}

/// `min(2^(attempt-1), 10)`.
fn backoff_base(attempt: usize) -> (r: u64)
    requires
        1 <= attempt <= MAX_SEGMENT_ATTEMPTS,
    ensures
        r == backoff_secs(attempt as nat),
{
    let mut p: u64 = 1;
    let mut k: usize = 1;
    while k < attempt
        invariant
            1 <= k <= attempt <= MAX_SEGMENT_ATTEMPTS,
            p == pow2((k - 1) as nat),
            p <= 16384,
        decreases attempt - k,
    {
        proof {
            lemma_pow2_monotone((k - 1) as nat, 13);
            assert(pow2(13) == 8192) by {
                reveal_with_fuel(pow2, 14);
            }
        }
        p = p * 2;
        k += 1;
    }
    if p < 10 {
        p
    } else {
        10
    }
}

/// Calls `SmallRng::from_rng(OsRng)` and then `gen_range(0..1000)`.
///
/// Trusted: `from_rng` returns an error, rather than panicking, when the
/// system gives no entropy; otherwise the result is a random number below
/// 1000 (`gen_range` panics only on an empty range).
#[verifier::external_body]
fn random_jitter_millis() -> (r: Option<u64>)
    ensures
        r matches Some(v) ==> v < 1000,
{
    match SmallRng::from_rng(OsRng) {
        Ok(mut rng) => Some(rng.gen_range(0..1000)),
        Err(_) => None,
    }
}

/// The wait before the next attempt, in milliseconds: the back-off in
/// whole seconds plus a random jitter below one second (none when the
/// system gives no entropy).
pub fn backoff_delay_millis(base_delay_secs: u64) -> (r: u64)
    requires
        base_delay_secs <= 10,
    ensures
        base_delay_secs * 1000 <= r < base_delay_secs * 1000 + 1000,
{
    let jitter = match random_jitter_millis() {
        Some(j) => j,
        None => 0,
    };
    base_delay_secs * 1000 + jitter
}

/// Whether attempt number `attempt` at a segment is made: not once the
/// download is cancelled, and at most `MAX_SEGMENT_ATTEMPTS` times.
pub fn should_attempt(cancelled: bool, attempt: usize) -> (r: bool)
    ensures
        r == (!cancelled && 1 <= attempt <= MAX_SEGMENT_ATTEMPTS),
{
    !cancelled && 1 <= attempt && attempt <= MAX_SEGMENT_ATTEMPTS
}

// ---------------------------------------------------------------------
// Rounds
// ---------------------------------------------------------------------

/// What follows a round of downloads.
#[derive(Debug, Clone, Copy, PartialEq, Eq, Structural)]
pub enum RoundNext {
    /// The user cancelled: stop.
    Cancelled,
    /// Every segment is finished: go on to merging.
    Complete,
    /// Too many rounds failed: mark the download cancelled and stop.
    GiveUp,
    /// Wait and run another round; this many rounds have failed so far.
    Retry { failed_rounds: usize },
}

/// Why a download cannot start.
#[derive(Debug, Clone, Copy, PartialEq, Eq, Structural)]
pub enum DownloadError {
    /// The playlist lists no `.ts` segment.
    NoSegments,
}

/// A download needs at least one segment.
pub fn check_segment_count(count: usize) -> (r: Result<(), DownloadError>)
    ensures
        r is Err <==> count == 0,
        r matches Err(e) ==> e == DownloadError::NoSegments,
{
    if count == 0 {
        Err(DownloadError::NoSegments)
    } else {
        Ok(())
    }
}

/// After the rounds, the segments are merged unless the download was
/// cancelled (by the user, or after too many failed rounds).
pub fn should_merge(cancelled: bool) -> (r: bool)
    ensures
        r == !cancelled,
{
    !cancelled
}

/// What follows a round, from the cancellation flag, the number of
/// segments the manifest records as finished (each once), the number of segments and the
/// number of rounds that failed before this one.
pub open spec fn round_next_spec(cancelled: bool, completed: nat, total: nat, failed: nat) -> RoundNext {
    if cancelled {
        RoundNext::Cancelled
    } else if completed >= total {
        RoundNext::Complete
    } else if failed + 1 >= MAX_ROUNDS {
        RoundNext::GiveUp
    } else {
        RoundNext::Retry { failed_rounds: (failed + 1) as usize }
    }
}

/// Decides what follows a round. A new round runs only while fewer than
/// `MAX_ROUNDS` rounds have failed, so a download runs at most
/// `MAX_ROUNDS` rounds.
pub fn next_after_round(cancelled: bool, completed: usize, total: usize, failed_rounds: usize) -> (r: RoundNext)
    requires
        failed_rounds < MAX_ROUNDS,
    ensures
        r == round_next_spec(cancelled, completed as nat, total as nat, failed_rounds as nat),
        r matches RoundNext::Retry { failed_rounds: f } ==> f == failed_rounds + 1 && f < MAX_ROUNDS,
{
    if cancelled {
        RoundNext::Cancelled
    } else if completed >= total {
        RoundNext::Complete
    } else if failed_rounds + 1 >= MAX_ROUNDS {
        RoundNext::GiveUp
    } else {
        RoundNext::Retry { failed_rounds: failed_rounds + 1 }
    }
}

} // verus!
