//! The decisions of the embedding pipeline: batches, retries and splits on
//! timeouts, and the per-chunk fallback for inputs the model cannot take.
use vstd::prelude::*;
use crate::chunker::{chunk_text, chunks_of};
use crate::document::{spells, to_ascii_lower};
use crate::text::{chars_of, parse_unsigned, parsed_unsigned, trim, trim_chars, views};

verus! {

/// Texts per embedding request unless configured otherwise.
pub const DEFAULT_BATCH: u64 = 4;

/// Longest text, in characters, that is skipped rather than split when the
/// model refuses it, unless configured otherwise.
pub const DEFAULT_FALLBACK_CHARS: u64 = 800;

/// Seconds an HTTP call may take unless configured otherwise.
pub const DEFAULT_TIMEOUT_SECS: u64 = 300;

/// Pause before the one retry of a single text, in milliseconds.
pub const RETRY_PAUSE_MS: u64 = 400;

/// A positive number read from a setting, or the default when the setting is
/// absent, not a number, or zero.
pub open spec fn positive_or(raw: Option<Seq<char>>, default: u64) -> nat {
    match raw {
        Some(s) => match parsed_unsigned(s) {
            Some(n) if n > 0 => n,
            _ => default as nat,
        },
        None => default as nat,
    }
}

pub fn positive_setting(raw: Option<&str>, default: u64) -> (r: u64)
    ensures
        r as nat == positive_or(
            match raw {
                Some(s) => Some(s@),
                None => None,
            },
            default,
        ),
{
    match raw {
        Some(s) => match parse_unsigned(s) {
            Some(n) => if n > 0 {
                n
            } else {
                default
            },
            None => default,
        },
        None => default,
    }
}

/// How the vectors of the pieces of a split text are combined.
#[derive(Clone, Copy, Debug, PartialEq, Eq, Structural)]
pub enum FallbackStrategy {
    /// The coordinate-wise mean of the pieces' vectors.
    Average,
    /// The first piece's vector.
    First,
}

/// `first` (any case, surrounding whitespace ignored) selects the first
/// piece; anything else, or nothing, averages.
pub open spec fn strategy_of(raw: Option<Seq<char>>) -> FallbackStrategy {
    match raw {
        Some(s) => if crate::document::ascii_lower(trim(s, false)) == "first"@ {
            FallbackStrategy::First
        } else {
            FallbackStrategy::Average
        },
        None => FallbackStrategy::Average,
    }
}

pub fn fallback_strategy(raw: Option<&str>) -> (r: FallbackStrategy)
    ensures
        r == strategy_of(
            match raw {
                Some(s) => Some(s@),
                None => None,
            },
        ),
{
    match raw {
        Some(s) => {
            let v = to_ascii_lower(&trim_chars(&chars_of(s), false));
            if spells(&v, "first") {
                FallbackStrategy::First
            } else {
                FallbackStrategy::Average
            }
        },
        None => FallbackStrategy::Average,
    }
}

/// The batches `[start, end)` that cover `n` texts in order, each of `size`
/// texts but the last.
pub open spec fn batches(n: nat, size: nat, start: nat) -> Seq<(int, int)>
    decreases n - start,
{
    if start >= n || size == 0 {
        seq![]
    } else {
        let end = if start + size < n {
            start + size
        } else {
            n
        };
        seq![(start as int, end as int)] + batches(n, size, end as nat)
    }
}

/// Splits `n` texts into consecutive batches of `size`.
pub fn batch_ranges(n: usize, size: usize) -> (r: Vec<(usize, usize)>)
    requires
        size > 0,
    ensures
        r@.map_values(|b: (usize, usize)| (b.0 as int, b.1 as int)) == batches(
            n as nat,
            size as nat,
            0,
        ),
{
    let mut out: Vec<(usize, usize)> = Vec::new();
    let mut start: usize = 0;
    while start < n
        invariant
            start <= n,
            size > 0,
            batches(n as nat, size as nat, 0) == out@.map_values(
                |b: (usize, usize)| (b.0 as int, b.1 as int),
            ) + batches(n as nat, size as nat, start as nat),
        decreases n - start,
    {
        let end = if size < n - start {
            start + size
        } else {
            n
        };
        let ghost before = out@.map_values(|b: (usize, usize)| (b.0 as int, b.1 as int));
        out.push((start, end));
        assert(out@.map_values(|b: (usize, usize)| (b.0 as int, b.1 as int)) =~= before.push(
            (start as int, end as int),
        ));
        assert(batches(n as nat, size as nat, start as nat) =~= seq![(start as int, end as int)]
            + batches(n as nat, size as nat, end as nat));
        assert(before + batches(n as nat, size as nat, start as nat) =~= before.push(
            (start as int, end as int),
        ) + batches(n as nat, size as nat, end as nat));
        start = end;
    }
    assert(out@.map_values(|b: (usize, usize)| (b.0 as int, b.1 as int)) + batches(
        n as nat,
        size as nat,
        start as nat,
    ) =~= out@.map_values(|b: (usize, usize)| (b.0 as int, b.1 as int)));
    out
}

/// How an embedding request failed.
#[derive(Clone, Copy, Debug, PartialEq, Eq, Structural)]
pub enum FailureKind {
    /// The request ran out of time.
    Timeout,
    /// The server refused the input as too long.
    TooLong,
    /// Anything else.
    Other,
}

/// What to do after a failed request for a batch.
#[derive(Clone, Copy, Debug, PartialEq, Eq, Structural)]
pub enum RetryAction {
    /// Embed the two halves `[0, mid)` and `[mid, len)` separately.
    Split(usize),
    /// Wait `RETRY_PAUSE_MS` and send the same request again.
    Retry,
    /// Give up on the batch and embed its texts one by one.
    PerChunk,
    /// Fail the document with the error.
    Fail,
}

/// A timed-out batch of several texts is halved; a single text that timed out
/// is tried once more after a pause; a second timeout, or a refusal as too
/// long, sends the texts to the per-chunk fallback; other errors fail.
pub open spec fn retry_spec(kind: FailureKind, batch_len: nat, attempts: nat) -> RetryAction {
    match kind {
        FailureKind::Timeout => if batch_len > 1 {
            RetryAction::Split((batch_len / 2) as usize)
        } else if attempts < 2 {
            RetryAction::Retry
        } else {
            RetryAction::PerChunk
        },
        FailureKind::TooLong => RetryAction::PerChunk,
        FailureKind::Other => RetryAction::Fail,
    }
}

/// The action after a failure; `attempts` counts the requests made for this
/// batch so far, the failed one included.
pub fn retry_action(kind: FailureKind, batch_len: usize, attempts: u32) -> (r: RetryAction)
    ensures
        r == retry_spec(kind, batch_len as nat, attempts as nat),
{
    match kind {
        FailureKind::Timeout => if batch_len > 1 {
            RetryAction::Split(batch_len / 2)
        } else if attempts < 2 {
            RetryAction::Retry
        } else {
            RetryAction::PerChunk
        },
        FailureKind::TooLong => RetryAction::PerChunk,
        FailureKind::Other => RetryAction::Fail,
    }
}

/// Whether a reply can be used for a batch: it holds at least one vector per
/// text (further vectors are ignored); otherwise the batch goes to the
/// per-chunk fallback.
pub fn reply_covers_batch(requested: usize, returned: usize) -> (r: bool)
    ensures
        r == (returned >= requested),
{
    returned >= requested
}

/// What the per-chunk fallback does with one text the model refused.
#[derive(Clone, Debug)]
pub enum FallbackPlan {
    /// Leave the chunk without a vector.
    Skip,
    /// Embed these pieces one by one and combine their vectors.
    Pieces(Vec<String>),
}

/// A text of at most `cap` characters is skipped; a longer one is cut into
/// pieces of `cap` characters without overlap, and skipped when that gives a
/// single piece.
pub open spec fn fallback_spec(text: Seq<char>, cap: nat) -> Option<Seq<Seq<char>>> {
    if text.len() <= cap {
        None
    } else {
        let ps = chunks_of(text, cap, 0);
        if ps.len() <= 1 {
            None
        } else {
            Some(ps)
        }
    }
}

pub fn fallback_plan(text: &str, cap: usize) -> (r: FallbackPlan)
    ensures
        match r {
            FallbackPlan::Skip => fallback_spec(text@, cap as nat) is None,
            FallbackPlan::Pieces(ps) => fallback_spec(text@, cap as nat) == Some(views(ps@)),
        },
{
    if chars_of(text).len() <= cap {
        return FallbackPlan::Skip;
    }
    let ps = chunk_text(text, cap, 0);
    if ps.len() <= 1 {
        FallbackPlan::Skip
    } else {
        FallbackPlan::Pieces(ps)
    }
}

} // verus!
