//! What a process that runs a plan hands back.
use vstd::prelude::*;
use vstd::utf8::encode_utf8;
use crate::benchmark::runs::RunResult;
use crate::common::measure::MeasureError;
use crate::duration::{Duration, NANOS_PER_SEC};
use crate::text::decimal;

verus! {

/// The error of reading or writing JSON.
#[verifier::external_type_specification]
#[verifier::external_body]
pub struct ExJsonError(serde_json::Error);

/// The cardinality, seconds and nanoseconds that a JSON text holds, where it holds a cardinality
/// and a span of time.
pub uninterp spec fn run_in_json(bytes: Seq<u8>) -> Option<(u64, u64, u32)>;

/// Reads a cardinality and a span of time from JSON.
///
/// `serde_json::from_slice`, for a pair of a `u64` and a `std::time::Duration`: that the bytes
/// alone decide what it gives, and that the nanoseconds of a span do not make up a second.
#[verifier::external_body]
fn read_run(bytes: &[u8]) -> (r: Result<(u64, u64, u32), serde_json::Error>)
    ensures
        match r {
            Ok(run) => run_in_json(bytes@) == Some(run) && run.2 < NANOS_PER_SEC,
            Err(_) => run_in_json(bytes@) is None,
        },
{
    let run: (u64, std::time::Duration) = serde_json::from_slice(bytes)?;
    Ok((run.0, run.1.as_secs(), run.1.subsec_nanos()))
}

/// The JSON text of a cardinality and a span of time.
pub open spec fn run_text(card: u64, secs: u64, nanos: u32) -> Seq<char> {
    "["@ + decimal(card as nat) + ",{\"secs\":"@ + decimal(secs as nat) + ",\"nanos\":"@ + decimal(
        nanos as nat,
    ) + "}]"@
}

/// Writes a cardinality and a span of time as JSON.
///
/// `serde_json::to_string`, for a pair of a `u64` and a `std::time::Duration`: that it succeeds,
/// the text, and that the bytes of the text are read back as what was written.
#[verifier::external_body]
fn write_run(card: u64, secs: u64, nanos: u32) -> (r: Result<String, serde_json::Error>)
    requires
        nanos < NANOS_PER_SEC,
    ensures
        match r {
            Ok(text) => {
                &&& text@ == run_text(card, secs, nanos)
                &&& run_in_json(encode_utf8(text@)) == Some((card, secs, nanos))
            },
            Err(_) => false,
        },
{
    serde_json::to_string(&(card, std::time::Duration::new(secs, nanos)))
}

/// How a process ended.
#[derive(Clone, Copy, Debug, PartialEq, Eq, Structural)]
pub enum Exit {
    /// It reported success.
    Success,
    /// It reported a failure, or was killed from outside.
    Failure,
    /// It had not ended when its time was over, and was stopped.
    TimedOut,
}

/// Whether `r` is the run that was read.
pub open spec fn is_run(r: RunResult, parsed: Option<(u64, u64, u32)>) -> bool {
    match parsed {
        Some((card, secs, nanos)) => if card <= usize::MAX {
            r matches Ok((c, d)) && c == card && d@ == secs * NANOS_PER_SEC + nanos
        } else {
            r matches Err(e) && e == MeasureError::Timeout
        },
        None => r matches Err(e) && e == MeasureError::Timeout,
    }
}

/// The run that was read from a process's output; without one, the plan counts as timed out.
pub fn parsed_run(parsed: Option<(u64, u64, u32)>) -> (r: RunResult)
    requires
        parsed matches Some(run) ==> run.2 < NANOS_PER_SEC,
    ensures
        is_run(r, parsed),
{
    match parsed {
        Some((card, secs, nanos)) => {
            if card <= usize::MAX as u64 {
                Ok((card as usize, Duration::new(secs, nanos)))
            } else {
                Err(MeasureError::Timeout)
            }
        },
        None => Err(MeasureError::Timeout),
    }
}

/// What a run came to, by how its process ended and by what it left in its output file.
pub fn run_result(exit: Exit, output: &Vec<u8>) -> (r: RunResult)
    ensures
        match exit {
            Exit::Success => is_run(r, run_in_json(output@)),
            Exit::Failure => r matches Err(e) && e == MeasureError::Died,
            Exit::TimedOut => r matches Err(e) && e == MeasureError::Timeout,
        },
{
    match exit {
        Exit::Success => {
            match read_run(output.as_slice()) {
                Ok(run) => parsed_run(Some(run)),
                Err(_) => parsed_run(None),
            }
        },
        Exit::Failure => Err(MeasureError::Died),
        Exit::TimedOut => Err(MeasureError::Timeout),
    }
}

/// What a process that ran a plan leaves in its output file. Reading it back gives what the plan
/// gave.
pub fn run_output(card: usize, time: Duration) -> (r: String)
    ensures
        r@ == run_text(
            card as u64,
            (time@ / NANOS_PER_SEC as nat) as u64,
            (time@ % NANOS_PER_SEC as nat) as u32,
        ),
        forall|back: RunResult|
            is_run(back, run_in_json(encode_utf8(r@))) ==> back == Ok::<
                (usize, Duration),
                MeasureError,
            >((card, time)),
{
    let secs: u64 = time.as_secs();
    let nanos: u32 = time.subsec_nanos();
    let r: String = write_run(card as u64, secs, nanos).unwrap();
    proof {
        assert(time@ == secs * NANOS_PER_SEC + nanos);
        assert forall|back: RunResult| is_run(back, run_in_json(encode_utf8(r@))) implies back
            == Ok::<(usize, Duration), MeasureError>((card, time)) by {
            Duration::lemma_same(back->Ok_0.1, time);
        }
    }
    r
}

/// All rows of a query's result, by the number of rows in each of its batches.
pub open spec fn total_rows(counts: Seq<usize>) -> nat
    decreases counts.len(),
{
    if counts.len() == 0 {
        0
    } else {
        total_rows(counts.drop_last()) + counts.last() as nat
    }
}

/// The cardinality of a query's result, by the number of rows in each of its batches.
pub fn cardinality(counts: &Vec<usize>) -> (r: usize)
    requires
        total_rows(counts@) <= usize::MAX,
    ensures
        r == total_rows(counts@),
{
    let mut r: usize = 0;
    let mut i: usize = 0;
    assert(counts@.take(0) =~= Seq::<usize>::empty());
    while i < counts.len()
        invariant
            i <= counts.len(),
            total_rows(counts@) <= usize::MAX,
            r == total_rows(counts@.take(i as int)),
        decreases counts.len() - i,
    {
        proof {
            lemma_total_rows_monotone(counts@, i + 1);
            assert(counts@.take(i + 1).drop_last() =~= counts@.take(i as int));
        }
        r = r + counts[i];
        i = i + 1;
    }
    assert(counts@.take(i as int) =~= counts@);
    r
}

proof fn lemma_total_rows_monotone(counts: Seq<usize>, n: int)
    requires
        0 <= n <= counts.len(),
    ensures
        total_rows(counts.take(n)) <= total_rows(counts),
    decreases counts.len() - n,
{
    if n == counts.len() {
        assert(counts.take(n) =~= counts);
    } else {
        lemma_total_rows_monotone(counts, n + 1);
        assert(counts.take(n + 1).drop_last() =~= counts.take(n));
    }
}

/// The rows of two lists of batches are those of each, added up.
pub proof fn lemma_total_rows_joined(a: Seq<usize>, b: Seq<usize>)
    ensures
        total_rows(a + b) == total_rows(a) + total_rows(b),
        forall|n: usize| total_rows(#[trigger] seq![n]) == n,
        total_rows(Seq::empty()) == 0,
    decreases b.len(),
{
    assert forall|n: usize| total_rows(#[trigger] seq![n]) == n by {
        assert(seq![n].drop_last() =~= Seq::<usize>::empty());
        assert(total_rows(seq![n].drop_last()) == 0);
    }
    if b.len() == 0 {
        assert(a + b =~= a);
    } else {
        lemma_total_rows_joined(a, b.drop_last());
        assert((a + b).drop_last() =~= a + b.drop_last());
        assert((a + b).last() == b.last());
    }
}

/// A run that was read gives its cardinality and its time, where the cardinality can be counted.
/// All else counts as a time out.
pub proof fn lemma_is_run(r: RunResult, parsed: Option<(u64, u64, u32)>)
    requires
        is_run(r, parsed),
    ensures
        r matches Ok((card, time)) ==> (parsed matches Some((c, secs, nanos)) && card == c && time@
            == secs * NANOS_PER_SEC + nanos),
        r is Err ==> r == Err::<(usize, Duration), MeasureError>(MeasureError::Timeout),
        r is Ok <==> (parsed matches Some((c, _, _)) && c <= usize::MAX),
{
}

} // verus!
