//! Ingestion: turning the upstream listing of a shard into its file
//! content, and the decisions of a run: its arguments and output directory,
//! how the keys are split among workers, when a fetch is retried, and the
//! run's result.

use crate::hex::{hex_of, is_hex_byte, is_hex_digit};
use crate::lookup::{is_sorted_shard, record_at, record_count, record_value, record_value_at};
use crate::record::{line_to_sha1t48, record_of, RECORD_SIZE};
use crate::store::{ascii_chars, is_fetch_plan, prefix_string};
use vstd::arithmetic::power2::{lemma2_to64, lemma_pow2_strictly_increases, lemma_pow2_unfold, pow2};
use vstd::prelude::*;

verus! {

/// The number of hex digits that an upstream line starts with: the part of
/// a 40-digit SHA-1 hash after the shard's five.
pub const HASH_LINE_DIGITS: usize = 35;

/// `line` starts with the remainder of a hash. Other lines (empty, short or
/// malformed) are skipped.
pub open spec fn is_hash_line(line: Seq<u8>) -> bool {
    line.len() >= HASH_LINE_DIGITS && forall|i: int|
        0 <= i < HASH_LINE_DIGITS ==> #[trigger] is_hex_digit(line[i])
}

/// The index of the first newline in `body` at or after `start`, or the
/// length of `body` when there is none.
pub open spec fn line_end(body: Seq<u8>, start: int) -> int
    decreases body.len() - start,
{
    if start >= body.len() {
        body.len() as int
    } else if body[start] == 0x0a {
        start
    } else {
        line_end(body, start + 1)
    }
}

/// A line ends at or after its start, and within the body.
pub proof fn lemma_line_end_bounds(body: Seq<u8>, start: int)
    requires
        0 <= start,
    ensures
        start <= body.len() ==> start <= line_end(body, start),
        line_end(body, start) <= body.len(),
    decreases body.len() - start,
{
    if start < body.len() && body[start] != 0x0a {
        lemma_line_end_bounds(body, start + 1);
    }
}

/// The values of the records that the lines of `body` from index `start`
/// on give for the shard `prefix`, in the order of the lines.
pub open spec fn line_values(prefix: u32, body: Seq<u8>, start: int) -> Seq<u64>
    decreases body.len() + 1 - start,
{
    if start < 0 || start >= body.len() {
        Seq::empty()
    } else {
        proof {
            lemma_line_end_bounds(body, start);
        }
        let end = line_end(body, start);
        let line = body.subrange(start, end);
        let rest = line_values(prefix, body, end + 1);
        if is_hash_line(line) {
            seq![record_value(record_of(prefix, line)) as u64] + rest
        } else {
            rest
        }
    }
}

/// The values of the records in the shard content `s`, in order.
pub open spec fn record_values(s: Seq<u8>) -> Seq<u64> {
    Seq::new(record_count(s) as nat, |i: int| record_value(record_at(s, i)) as u64)
}

/// `contents` is the shard file for `prefix` built from the upstream listing
/// `body`: one record for each hash line, in ascending order.
pub open spec fn is_shard_for(prefix: u32, body: Seq<u8>, contents: Seq<u8>) -> bool {
    &&& contents.len() == RECORD_SIZE * line_values(prefix, body, 0).len()
    &&& is_sorted_shard(contents)
    &&& record_values(contents).to_multiset() == line_values(prefix, body, 0).to_multiset()
}

/// The values `s` are in ascending order.
pub open spec fn is_ascending(s: Seq<u64>) -> bool {
    forall|i: int, j: int| 0 <= i < j < s.len() ==> s[i] <= s[j]
}

/// Tells whether `body[start..end]` is a hash line.
fn is_hash_line_at(body: &[u8], start: usize, end: usize) -> (r: bool)
    requires
        start <= end <= body@.len(),
    ensures
        r == is_hash_line(body@.subrange(start as int, end as int)),
{
    if end - start < HASH_LINE_DIGITS {
        return false;
    }
    let mut i: usize = 0;
    while i < HASH_LINE_DIGITS
        invariant
            start + HASH_LINE_DIGITS <= end <= body@.len(),
            i <= HASH_LINE_DIGITS,
            forall|j: int| 0 <= j < i ==> #[trigger] is_hex_digit(body@[start + j]),
        decreases HASH_LINE_DIGITS - i,
    {
        if !is_hex_byte(body[start + i]) {
            assert(body@.subrange(start as int, end as int)[i as int] == body@[start + i]);
            return false;
        }
        i = i + 1;
    }
    let ghost line = body@.subrange(start as int, end as int);
    assert forall|j: int| 0 <= j < HASH_LINE_DIGITS implies #[trigger] is_hex_digit(line[j]) by {
        assert(line[j] == body@[start + j]);
    }
    true
}

/// Inserts `x` into the ascending values `v`, after the values not above it.
fn insert_sorted(v: &mut Vec<u64>, x: u64)
    requires
        is_ascending(old(v)@),
    ensures
        is_ascending(final(v)@),
        final(v)@.to_multiset() == old(v)@.to_multiset().insert(x),
        forall|j: int|
            0 <= j < final(v)@.len() ==> #[trigger] final(v)@[j] == x || old(v)@.contains(
                final(v)@[j],
            ),
{
    let mut p = v.len();
    while p > 0 && v[p - 1] > x
        invariant
            p <= v@.len(),
            v@ == old(v)@,
            forall|j: int| p <= j < v@.len() ==> #[trigger] v@[j] > x,
        decreases p,
    {
        p = p - 1;
    }
    let ghost before = v@;
    v.insert(p, x);
    proof {
        vstd::seq_lib::to_multiset_insert(before, p as int, x);
        assert forall|i: int, j: int| 0 <= i < j < v@.len() implies v@[i] <= v@[j] by {
            if j < p {
            } else if i < p && j == p {
                assert(before[i] <= before[p - 1]);
            } else if i < p {
                assert(v@[j] == before[j - 1]);
            } else if i == p {
                assert(v@[j] == before[j - 1]);
            } else {
                assert(v@[i] == before[i - 1] && v@[j] == before[j - 1]);
            }
        }
        assert forall|j: int| 0 <= j < v@.len() implies #[trigger] v@[j] == x || before.contains(
            v@[j],
        ) by {
            if j < p {
                assert(before[j] == v@[j]);
            } else if j > p {
                assert(before[j - 1] == v@[j]);
            }
        }
    }
}

/// The six big-endian bytes of a value below 2^48 spell that value.
proof fn lemma_record_bytes(v: u64)
    requires
        v < 0x1_0000_0000_0000,
    ensures
        ((v >> 40u64) & 0xFF) * 0x100_0000_0000 + ((v >> 32u64) & 0xFF) * 0x1_0000_0000 + ((v
            >> 24u64) & 0xFF) * 0x100_0000 + ((v >> 16u64) & 0xFF) * 0x1_0000 + ((v >> 8u64)
            & 0xFF) * 0x100 + (v & 0xFF) == v,
        (v >> 40u64) & 0xFF < 256,
        (v >> 32u64) & 0xFF < 256,
        (v >> 24u64) & 0xFF < 256,
        (v >> 16u64) & 0xFF < 256,
        (v >> 8u64) & 0xFF < 256,
        v & 0xFF < 256,
{
    assert((v >> 40u64) & 0xFF < 256 && (v >> 32u64) & 0xFF < 256 && (v >> 24u64) & 0xFF < 256
        && (v >> 16u64) & 0xFF < 256 && (v >> 8u64) & 0xFF < 256 && v & 0xFF < 256)
        by (bit_vector);
    assert(((v >> 40u64) & 0xFF) * 0x100_0000_0000 + ((v >> 32u64) & 0xFF) * 0x1_0000_0000 + ((v
        >> 24u64) & 0xFF) * 0x100_0000 + ((v >> 16u64) & 0xFF) * 0x1_0000 + ((v >> 8u64) & 0xFF)
        * 0x100 + (v & 0xFF) == v) by (bit_vector)
        requires
            v < 0x1_0000_0000_0000,
    ;
}

/// Writes ascending record values as consecutive 6-byte big-endian records.
fn serialize_records(values: &Vec<u64>) -> (r: Vec<u8>)
    requires
        forall|i: int| 0 <= i < values@.len() ==> #[trigger] values@[i] < 0x1_0000_0000_0000,
    ensures
        r@.len() == RECORD_SIZE * values@.len(),
        record_values(r@) == values@,
{
    let mut out: Vec<u8> = Vec::new();
    let mut i: usize = 0;
    while i < values.len()
        invariant
            i <= values@.len(),
            out@.len() == RECORD_SIZE * i,
            forall|j: int| 0 <= j < values@.len() ==> #[trigger] values@[j] < 0x1_0000_0000_0000,
            forall|j: int|
                0 <= j < i ==> record_value(#[trigger] record_at(out@, j)) == values@[j] as int,
        decreases values@.len() - i,
    {
        let v = values[i];
        let ghost before = out@;
        out.push(((v >> 40u64) & 0xFF) as u8);
        out.push(((v >> 32u64) & 0xFF) as u8);
        out.push(((v >> 24u64) & 0xFF) as u8);
        out.push(((v >> 16u64) & 0xFF) as u8);
        out.push(((v >> 8u64) & 0xFF) as u8);
        out.push((v & 0xFF) as u8);
        proof {
            lemma_record_bytes(v);
            assert forall|j: int| 0 <= j < i + 1 implies record_value(
                #[trigger] record_at(out@, j),
            ) == values@[j] as int by {
                if j < i {
                    assert(record_at(out@, j) =~= record_at(before, j));
                } else {
                    assert(record_at(out@, j) =~= seq![
                        ((v >> 40u64) & 0xFF) as u8,
                        ((v >> 32u64) & 0xFF) as u8,
                        ((v >> 24u64) & 0xFF) as u8,
                        ((v >> 16u64) & 0xFF) as u8,
                        ((v >> 8u64) & 0xFF) as u8,
                        (v & 0xFF) as u8,
                    ]);
                }
            }
        }
        i = i + 1;
    }
    assert(record_values(out@) =~= values@);
    out
}

/// Builds the content of the shard file for `prefix` from the upstream
/// listing `body`: one 6-byte record per hash line, sorted ascending. The
/// source lists a shard in order already, so sorting here is a safeguard
/// that costs one comparison per record on such input; empty and malformed
/// lines are skipped.
pub fn shard_file_contents(prefix: u32, body: &[u8]) -> (r: Vec<u8>)
    ensures
        is_shard_for(prefix, body@, r@),
{
    let mut values: Vec<u64> = Vec::new();
    let ghost mut seen: Seq<u64> = Seq::empty();
    let mut start: usize = 0;
    while start < body.len()
        invariant
            start <= body@.len(),
            seen + line_values(prefix, body@, start as int) == line_values(prefix, body@, 0),
            values@.to_multiset() == seen.to_multiset(),
            is_ascending(values@),
            forall|j: int| 0 <= j < values@.len() ==> #[trigger] values@[j] < 0x1_0000_0000_0000,
        decreases body@.len() - start,
    {
        let mut end = start;
        while end < body.len() && body[end] != 0x0a
            invariant
                start <= end <= body@.len(),
                line_end(body@, start as int) == line_end(body@, end as int),
            decreases body@.len() - end,
        {
            end = end + 1;
        }
        let ghost rest = line_values(prefix, body@, end + 1);
        if is_hash_line_at(body, start, end) {
            let mut record = [0u8;6];
            let line = &body[start..end];
            assert(line@ == body@.subrange(start as int, end as int));
            line_to_sha1t48(prefix, line, &mut record);
            let v = record_value_at(record.as_slice(), 0);
            assert(record_at(record@, 0) =~= record@);
            let ghost old_values = values@;
            insert_sorted(&mut values, v);
            proof {
                vstd::seq_lib::to_multiset_build(seen, v);
                assert(seen.push(v) + rest =~= seen + (seq![v] + rest));
                seen = seen.push(v);
                assert forall|j: int| 0 <= j < values@.len() implies #[trigger] values@[j]
                    < 0x1_0000_0000_0000 by {
                    if values@[j] != v {
                        let k = choose|k: int| 0 <= k < old_values.len() && old_values[k] == values@[j];
                    }
                }
            }
        }
        start = if end < body.len() {
            end + 1
        } else {
            end
        };
    }
    assert(seen + line_values(prefix, body@, start as int) =~= seen);
    let out = serialize_records(&values);
    proof {
        assert forall|i: int, j: int| 0 <= i < j < record_count(out@) implies record_value(
            #[trigger] record_at(out@, i),
        ) <= record_value(#[trigger] record_at(out@, j)) by {
            assert(record_values(out@)[i] == values@[i]);
            assert(record_values(out@)[j] == values@[j]);
        }
        vstd::seq_lib::to_multiset_len(values@);
        vstd::seq_lib::to_multiset_len(seen);
    }
    out
}

/// The number of times one shard is fetched before its job fails.
pub const MAX_RETRIES: u32 = 10;

/// The delay before the second fetch; each later retry doubles it.
pub const RETRY_BASE_DELAY_MS: u64 = 100;

/// The exponent at which the backoff stops growing.
pub const MAX_BACKOFF_EXPONENT: u32 = 10;

/// What went wrong in a run.
#[derive(Debug, PartialEq, Eq)]
pub enum Error {
    /// The request for a shard, or reading its body, failed.
    HttpRequest { prefix: String, message: String },
    /// The source answered a shard's request with a status other than success.
    HttpStatus { prefix: String, status: u16 },
    /// Reading or writing local files failed.
    Io { message: String },
    /// The output directory exists and neither resuming nor overwriting was asked for.
    FileExists { path: String },
    /// Resuming and overwriting were both asked for.
    InvalidArgs,
    /// A shard's fetches all failed.
    MaxRetriesExceeded { prefix: String, retries: u32 },
}

/// What one fetch of a shard's listing gave.
pub enum FetchOutcome {
    /// The source answered with success, and this is the body.
    Body(Vec<u8>),
    /// The source answered with this status, which is not a success.
    Status(u16),
    /// The request or the reading of the body failed, with this message.
    RequestFailed(String),
}

/// What a download job asks for next.
pub enum JobStep {
    /// Wait this long, then fetch again.
    Retry { delay_ms: u64 },
    /// Write these bytes as the shard's file; the job is done.
    Write { contents: Vec<u8> },
    /// The job failed with this error.
    Fail(Error),
}

/// The wait before fetch number `attempt` (counted from 0, so the first
/// retry is attempt 1): 100 ms doubled `attempt` times, at most ten times.
pub open spec fn retry_delay(attempt: nat) -> nat {
    RETRY_BASE_DELAY_MS as nat * pow2(
        if attempt < MAX_BACKOFF_EXPONENT {
            attempt
        } else {
            MAX_BACKOFF_EXPONENT as nat
        },
    )
}

/// The longest wait between two fetches.
pub open spec fn max_retry_delay() -> nat {
    retry_delay(MAX_BACKOFF_EXPONENT as nat)
}

/// The error that a failed fetch of the shard `prefix` stands for.
pub open spec fn is_fetch_error(prefix: u32, outcome: FetchOutcome, e: Error) -> bool {
    match outcome {
        FetchOutcome::Status(code) => e matches Error::HttpStatus { prefix: p, status } && p@
            == ascii_chars(hex_of(prefix)) && status == code,
        FetchOutcome::RequestFailed(m) => e matches Error::HttpRequest { prefix: p, message } && p@
            == ascii_chars(hex_of(prefix)) && message@ == m@,
        FetchOutcome::Body(_) => false,
    }
}

/// `step` is what a job for `prefix` does after its fetch number `fetches`
/// (counted from 1) gave `outcome`: a body is converted and written; a
/// failure is retried after the backoff delay while fetches remain, and
/// fails the job with that failure once none do.
pub open spec fn is_next_step(prefix: u32, fetches: nat, outcome: FetchOutcome, step: JobStep) -> bool {
    match outcome {
        FetchOutcome::Body(body) => step matches JobStep::Write { contents } && is_shard_for(
            prefix,
            body@,
            contents@,
        ),
        _ => if fetches < MAX_RETRIES {
            step == JobStep::Retry { delay_ms: retry_delay(fetches) as u64 }
        } else {
            step matches JobStep::Fail(e) && is_fetch_error(prefix, outcome, e)
        },
    }
}

/// The delay before fetch number `attempt` (counted from 0).
pub fn retry_delay_ms(attempt: u32) -> (r: u64)
    ensures
        r == retry_delay(attempt as nat),
{
    let exponent = if attempt < MAX_BACKOFF_EXPONENT {
        attempt
    } else {
        MAX_BACKOFF_EXPONENT
    };
    let mut factor: u64 = 1;
    let mut i: u32 = 0;
    proof {
        lemma2_to64();
    }
    while i < exponent
        invariant
            i <= exponent <= MAX_BACKOFF_EXPONENT,
            factor == pow2(i as nat),
            pow2(10) == 1024,
        decreases exponent - i,
    {
        proof {
            lemma_pow2_unfold((i + 1) as nat);
            if i < 9 {
                lemma_pow2_strictly_increases(i as nat, 9);
            }
            lemma2_to64();
        }
        factor = factor * 2;
        i = i + 1;
    }
    proof {
        if exponent < 10 {
            lemma_pow2_strictly_increases(exponent as nat, 10);
        }
    }
    RETRY_BASE_DELAY_MS * factor
}

/// The download of one shard: fetch its listing, retrying failures with
/// exponential backoff, and write it once fetched.
pub struct DownloadJob {
    prefix: u32,
    fetches: u32,
}

impl DownloadJob {
    /// The shard this job downloads.
    pub closed spec fn spec_prefix(&self) -> u32 {
        self.prefix
    }

    /// The number of fetches whose outcome the job has been given.
    pub closed spec fn spec_fetches(&self) -> nat {
        self.fetches as nat
    }

    /// A job for the shard `prefix` that has not fetched yet.
    pub fn new(prefix: u32) -> (r: Self)
        ensures
            r.spec_prefix() == prefix,
            r.spec_fetches() == 0,
    {
        DownloadJob { prefix, fetches: 0 }
    }

    /// The shard this job downloads.
    pub fn prefix(&self) -> (r: u32)
        ensures
            r == self.spec_prefix(),
    {
        self.prefix
    }

    /// The number of fetches whose outcome the job has been given.
    pub fn fetches(&self) -> (r: u32)
        ensures
            r == self.spec_fetches(),
    {
        self.fetches
    }

    /// Takes the outcome of the job's next fetch and says what to do. A job
    /// whose fetches are all spent takes no more outcomes: it fails with
    /// `MaxRetriesExceeded`.
    pub fn on_fetch(&mut self, outcome: FetchOutcome) -> (r: JobStep)
        ensures
            final(self).spec_prefix() == old(self).spec_prefix(),
            old(self).spec_fetches() < MAX_RETRIES ==> {
                &&& final(self).spec_fetches() == old(self).spec_fetches() + 1
                &&& is_next_step(old(self).spec_prefix(), final(self).spec_fetches(), outcome, r)
            },
            old(self).spec_fetches() >= MAX_RETRIES ==> {
                &&& final(self).spec_fetches() == old(self).spec_fetches()
                &&& r matches JobStep::Fail(Error::MaxRetriesExceeded { prefix, retries })
                &&& prefix@ == ascii_chars(hex_of(old(self).spec_prefix()))
                &&& retries == MAX_RETRIES
            },
    {
        if self.fetches >= MAX_RETRIES {
            return JobStep::Fail(
                Error::MaxRetriesExceeded { prefix: prefix_string(self.prefix), retries: MAX_RETRIES },
            );
        }
        self.fetches = self.fetches + 1;
        match outcome {
            FetchOutcome::Body(body) => {
                JobStep::Write { contents: shard_file_contents(self.prefix, body.as_slice()) }
            },
            FetchOutcome::Status(status) => {
                if self.fetches < MAX_RETRIES {
                    JobStep::Retry { delay_ms: retry_delay_ms(self.fetches) }
                } else {
                    JobStep::Fail(Error::HttpStatus { prefix: prefix_string(self.prefix), status })
                }
            },
            FetchOutcome::RequestFailed(message) => {
                if self.fetches < MAX_RETRIES {
                    JobStep::Retry { delay_ms: retry_delay_ms(self.fetches) }
                } else {
                    JobStep::Fail(
                        Error::HttpRequest { prefix: prefix_string(self.prefix), message },
                    )
                }
            },
        }
    }
}

/// Backoff delays never decrease from one attempt to a later one, and never
/// exceed the cap.
pub proof fn lemma_retry_delay_monotonic(a: nat, b: nat)
    requires
        a <= b,
    ensures
        retry_delay(a) <= retry_delay(b) <= max_retry_delay(),
{
    let ea: nat = if a < 10 { a } else { 10 };
    let eb: nat = if b < 10 { b } else { 10 };
    if ea < eb {
        lemma_pow2_strictly_increases(ea, eb);
    }
    if eb < 10 {
        lemma_pow2_strictly_increases(eb, 10);
    }
}

/// A job whose fetches fail fewer times than its budget and then succeed:
/// given the outcomes of its fetches (all failures but the last, which is a
/// body) and the steps it answered them with, every failure is answered by a
/// retry after the backoff delay for that attempt, those delays never
/// decrease and never pass the cap, and the last fetch, number
/// `outcomes.len()`, writes the shard.
pub proof fn lemma_retry_then_write(prefix: u32, outcomes: Seq<FetchOutcome>, steps: Seq<JobStep>)
    requires
        1 <= outcomes.len() <= MAX_RETRIES,
        steps.len() == outcomes.len(),
        forall|i: int| 0 <= i < outcomes.len() - 1 ==> !(#[trigger] outcomes[i] is Body),
        (outcomes.last() is Body),
        forall|i: int|
            0 <= i < steps.len() ==> #[trigger] is_next_step(
                prefix,
                (i + 1) as nat,
                outcomes[i],
                steps[i],
            ),
    ensures
        forall|i: int|
            0 <= i < steps.len() - 1 ==> #[trigger] steps[i] == (JobStep::Retry {
                delay_ms: retry_delay((i + 1) as nat) as u64,
            }),
        forall|i: int, j: int|
            0 <= i <= j < steps.len() - 1 ==> retry_delay(#[trigger] (i + 1) as nat) <= retry_delay(
                #[trigger] (j + 1) as nat,
            ) <= max_retry_delay(),
        (steps.last() matches JobStep::Write { contents } && is_shard_for(
            prefix,
            outcomes.last()->Body_0@,
            contents@,
        )),
{
    assert forall|i: int| 0 <= i < steps.len() - 1 implies #[trigger] steps[i] == JobStep::Retry {
        delay_ms: retry_delay((i + 1) as nat) as u64,
    } by {
        assert(is_next_step(prefix, (i + 1) as nat, outcomes[i], steps[i]));
    }
    assert forall|i: int, j: int| 0 <= i <= j < steps.len() - 1 implies retry_delay(
        #[trigger] (i + 1) as nat,
    ) <= retry_delay(#[trigger] (j + 1) as nat) <= max_retry_delay() by {
        lemma_retry_delay_monotonic((i + 1) as nat, (j + 1) as nat);
    }
    let last = steps.len() - 1;
    assert(is_next_step(prefix, (last + 1) as nat, outcomes[last], steps[last]));
}

/// Rejects asking both to resume and to overwrite. This needs nothing but
/// the two flags, so a run checks it before it touches the network or the
/// disk.
pub fn check_args(resume: bool, force: bool) -> (r: Result<(), Error>)
    ensures
        resume && force ==> r == Err::<(), Error>(Error::InvalidArgs),
        !(resume && force) ==> (r is Ok),
{
    if resume && force {
        Err(Error::InvalidArgs)
    } else {
        Ok(())
    }
}

/// What a run does with its output directory before fetching.
pub struct OutputPlan {
    /// Delete the directory's present content first.
    pub remove_existing: bool,
    /// Scan the directory for shards that are already there, and skip them.
    pub scan_existing: bool,
}

/// Decides what to do with the output directory `output`, given whether it
/// exists: a present directory is only used when resuming (its shards are
/// kept and skipped) or overwriting (it is emptied first).
pub fn plan_output(resume: bool, force: bool, output_exists: bool, output: &str) -> (r: Result<
    OutputPlan,
    Error,
>)
    ensures
        resume && force ==> r == Err::<OutputPlan, Error>(Error::InvalidArgs),
        !resume && !force && output_exists ==> (r matches Err(Error::FileExists { path }) && path@
            == output@),
        !(resume && force) && (resume || force || !output_exists) ==> (r matches Ok(plan)
            && plan.remove_existing == (force && output_exists) && plan.scan_existing == resume),
{
    if let Err(e) = check_args(resume, force) {
        return Err(e);
    }
    if output_exists && !resume && !force {
        return Err(Error::FileExists { path: output.to_owned() });
    }
    Ok(OutputPlan { remove_existing: force && output_exists, scan_existing: resume })
}

/// The number of keys in each worker's chunk: `n` keys shared among
/// `workers`, rounded up.
pub open spec fn chunk_len(n: nat, workers: nat) -> nat
    recommends
        workers > 0,
{
    if n % workers == 0 {
        n / workers
    } else {
        n / workers + 1
    }
}

/// The keys that each chunk holds.
pub open spec fn chunk_views(chunks: Seq<Vec<u32>>) -> Seq<Seq<u32>> {
    chunks.map_values(|c: Vec<u32>| c@)
}

/// `chunks` splits `keys` among at most `workers` workers: read one after
/// another they are `keys`, and each holds between one key and the chunk
/// length.
pub open spec fn is_chunking(keys: Seq<u32>, workers: nat, chunks: Seq<Seq<u32>>) -> bool {
    &&& chunks.flatten() == keys
    &&& chunks.len() <= workers
    &&& forall|c: int|
        0 <= c < chunks.len() ==> 1 <= #[trigger] chunks[c].len() <= chunk_len(keys.len(), workers)
    &&& forall|c: int|
        0 <= c < chunks.len() ==> c * chunk_len(keys.len(), workers) + #[trigger] chunks[c].len()
            <= keys.len() && chunks[c] == keys.subrange(
            c * chunk_len(keys.len(), workers),
            c * chunk_len(keys.len(), workers) + chunks[c].len(),
        )
}

/// Splits `keys` into consecutive chunks of `ceil(len / workers)` keys, the
/// last possibly shorter, one chunk per worker.
pub fn partition_keys(keys: &Vec<u32>, workers: usize) -> (r: Vec<Vec<u32>>)
    requires
        workers > 0,
    ensures
        is_chunking(keys@, workers as nat, chunk_views(r@)),
{
    let n = keys.len();
    let q = n / workers;
    proof {
        vstd::arithmetic::div_mod::lemma_fundamental_div_mod(n as int, workers as int);
        if n % workers != 0 {
            assert(q < usize::MAX) by (nonlinear_arith)
                requires
                    n == workers * q + n % workers,
                    0 < n % workers < workers,
                    q >= 0,
                    n <= usize::MAX,
            ;
        }
    }
    let size = if n % workers == 0 {
        q
    } else {
        q + 1
    };
    proof {
        assert(n <= workers * size) by (nonlinear_arith)
            requires
                n == workers * (n / workers) + n % workers,
                0 <= n % workers < workers,
                size == chunk_len(n as nat, workers as nat),
        ;
        assert(size > 0 || n == 0) by (nonlinear_arith)
            requires
                n <= workers * size,
                size >= 0,
        ;
    }
    let mut chunks: Vec<Vec<u32>> = Vec::new();
    let mut start: usize = 0;
    while start < n
        invariant
            n == keys@.len(),
            start <= n,
            workers > 0,
            size == chunk_len(n as nat, workers as nat),
            n <= workers * size,
            size > 0 || n == 0,
            chunk_views(chunks@).flatten() == keys@.subrange(0, start as int),
            start < n ==> start == chunks@.len() * size,
            chunks@.len() <= workers,
            forall|c: int|
                0 <= c < chunks@.len() ==> 1 <= #[trigger] chunks@[c]@.len() <= size,
            forall|c: int|
                0 <= c < chunks@.len() ==> c * size + #[trigger] chunks@[c]@.len() <= start
                    && chunks@[c]@ == keys@.subrange(c * size, c * size + chunks@[c]@.len()),
        decreases n - start,
    {
        let end = if n - start <= size {
            n
        } else {
            start + size
        };
        let mut chunk: Vec<u32> = Vec::new();
        let mut i = start;
        while i < end
            invariant
                start <= i <= end <= n,
                n == keys@.len(),
                chunk@ == keys@.subrange(start as int, i as int),
            decreases end - i,
        {
            chunk.push(keys[i]);
            proof {
                assert(keys@.subrange(start as int, i + 1) =~= keys@.subrange(
                    start as int,
                    i as int,
                ).push(keys@[i as int]));
            }
            i = i + 1;
        }
        proof {
            let k = chunks@.len();
            assert(k < workers) by (nonlinear_arith)
                requires
                    start == k * size,
                    start < n,
                    n <= workers * size,
            ;
            if end < n {
                assert(end == (k + 1) * size) by (nonlinear_arith)
                    requires
                        end == start + size,
                        start == k * size,
                ;
            }
            let before = chunk_views(chunks@);
            vstd::seq_lib::lemma_flatten_concat(before, seq![chunk@]);
            seq![chunk@].lemma_flatten_one_element();
            assert(keys@.subrange(0, end as int) =~= keys@.subrange(0, start as int)
                + keys@.subrange(start as int, end as int));
        }
        let ghost before = chunks@;
        chunks.push(chunk);
        proof {
            assert(chunk_views(chunks@) =~= chunk_views(before) + seq![chunks@[before.len() as int]@]);
            assert(chunks@[before.len() as int]@ == keys@.subrange(start as int, end as int));
        }
        start = end;
    }
    assert(keys@.subrange(0, n as int) =~= keys@);
    assert forall|c: int| 0 <= c < chunks@.len() implies #[trigger] chunk_views(chunks@)[c]
        == chunks@[c]@ by {}
    chunks
}

/// A value of a flattened sequence lies in one of its pieces.
proof fn lemma_flatten_member(chunks: Seq<Seq<u32>>, k: u32)
    requires
        chunks.flatten().contains(k),
    ensures
        exists|c: int| 0 <= c < chunks.len() && #[trigger] chunks[c].contains(k),
    decreases chunks.len(),
{
    let first = chunks.first();
    let rest = chunks.drop_first();
    let t = choose|t: int| 0 <= t < chunks.flatten().len() && chunks.flatten()[t] == k;
    if t < first.len() {
        assert(first[t] == k);
        assert(chunks[0].contains(k));
    } else {
        assert(rest.flatten()[t - first.len()] == k);
        lemma_flatten_member(rest, k);
        let c = choose|c: int| 0 <= c < rest.len() && #[trigger] rest[c].contains(k);
        assert(chunks[c + 1] == rest[c]);
    }
}

/// A resumed run over the keys 0 to `limit`, with the shards `existing`
/// already present, fetches exactly the requested keys that are not present:
/// each of them is owned by exactly one worker's chunk, and no chunk holds a
/// present key or one beyond the limit. Every shard that the run writes is a
/// whole number of records, so once the workers are done every requested key
/// has a shard of valid size.
pub proof fn lemma_resume_plan(
    limit: u32,
    existing: Seq<u32>,
    keys: Seq<u32>,
    workers: nat,
    chunks: Seq<Seq<u32>>,
)
    requires
        is_fetch_plan(limit, existing, keys),
        is_chunking(keys, workers, chunks),
    ensures
        forall|k: u32|
            k <= limit && !existing.contains(k) ==> exists|c: int|
                0 <= c < chunks.len() && #[trigger] chunks[c].contains(k),
        forall|c: int, k: u32|
            0 <= c < chunks.len() && #[trigger] chunks[c].contains(k) ==> k <= limit
                && !existing.contains(k),
        forall|c1: int, c2: int, k: u32|
            0 <= c1 < chunks.len() && 0 <= c2 < chunks.len() && #[trigger] chunks[c1].contains(k)
                && #[trigger] chunks[c2].contains(k) ==> c1 == c2,
        forall|prefix: u32, body: Seq<u8>, contents: Seq<u8>|
            #[trigger] is_shard_for(prefix, body, contents) ==> contents.len() % RECORD_SIZE as nat
                == 0 && is_sorted_shard(contents),
{
    let size = chunk_len(keys.len(), workers);
    assert forall|k: u32| k <= limit && !existing.contains(k) implies exists|c: int|
        0 <= c < chunks.len() && #[trigger] chunks[c].contains(k) by {
        assert(keys.contains(k));
        lemma_flatten_member(chunks, k);
    }
    assert forall|c: int, k: u32| 0 <= c < chunks.len() && #[trigger] chunks[c].contains(
        k,
    ) implies k <= limit && !existing.contains(k) by {
        let i = choose|i: int| 0 <= i < chunks[c].len() && chunks[c][i] == k;
        assert(keys[c * size + i] == k);
        assert(keys.contains(k));
    }
    assert forall|c1: int, c2: int, k: u32|
        0 <= c1 < chunks.len() && 0 <= c2 < chunks.len() && #[trigger] chunks[c1].contains(k)
            && #[trigger] chunks[c2].contains(k) implies c1 == c2 by {
        let i1 = choose|i: int| 0 <= i < chunks[c1].len() && chunks[c1][i] == k;
        let i2 = choose|i: int| 0 <= i < chunks[c2].len() && chunks[c2][i] == k;
        let t1 = c1 * size + i1;
        let t2 = c2 * size + i2;
        assert(keys[t1] == k);
        assert(keys[t2] == k);
        if t1 < t2 {
            assert(keys[t1] < keys[t2]);
        } else if t2 < t1 {
            assert(keys[t2] < keys[t1]);
        }
        assert(c1 == c2) by (nonlinear_arith)
            requires
                c1 * size + i1 == c2 * size + i2,
                0 <= i1 < size,
                0 <= i2 < size,
                c1 >= 0,
                c2 >= 0,
        ;
    }
    assert forall|prefix: u32, body: Seq<u8>, contents: Seq<u8>|
        #[trigger] is_shard_for(prefix, body, contents) implies contents.len() % RECORD_SIZE as nat
        == 0 && is_sorted_shard(contents) by {
        let n = line_values(prefix, body, 0).len();
        vstd::arithmetic::div_mod::lemma_mod_multiples_basic(n as int, RECORD_SIZE as int);
    }
}

/// The result of a run, gathered from its workers' results in the order in
/// which they finish: the first failure is kept, later ones are dropped.
pub struct RunOutcome {
    first_error: Option<Error>,
}

impl RunOutcome {
    /// The first failure recorded so far.
    pub closed spec fn spec_first_error(&self) -> Option<Error> {
        self.first_error
    }

    /// An outcome with no result recorded.
    pub fn new() -> (r: Self)
        ensures
            r.spec_first_error() is None,
    {
        RunOutcome { first_error: None }
    }

    /// Records a worker's result.
    pub fn record(&mut self, result: Result<(), Error>)
        ensures
            old(self).spec_first_error() is Some ==> final(self).spec_first_error() == old(
                self,
            ).spec_first_error(),
            old(self).spec_first_error() is None ==> final(self).spec_first_error() == match result {
                Ok(_) => None::<Error>,
                Err(e) => Some(e),
            },
    {
        if self.first_error.is_none() {
            if let Err(e) = result {
                self.first_error = Some(e);
            }
        }
    }

    /// The run's result: success when no worker failed, else the first
    /// failure.
    pub fn finish(self) -> (r: Result<(), Error>)
        ensures
            self.spec_first_error() is None ==> (r is Ok),
            self.spec_first_error() matches Some(e) ==> r == Err::<(), Error>(e),
    {
        match self.first_error {
            None => Ok(()),
            Some(e) => Err(e),
        }
    }
}

} // verus!
