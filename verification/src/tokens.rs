//! The tokens of a line.
//!
//! A line is cut where a separator follows a character that is none, or the
//! other way round. What lies between two cuts is a token: a run of
//! separators, or a run of other characters.

use crate::text::is_separator;
use vstd::prelude::*;
use vstd::seq_lib::lemma_flatten_concat;

verus! {

/// The index just past the run of like characters that begins at `start`:
/// a run holds separators only, or no separator at all, and is as long as
/// the line allows.
pub open spec fn run_end(line: Seq<char>, start: int) -> int
    decreases line.len() - start,
{
    if 0 <= start && start + 1 < line.len() && is_separator(line[start + 1]) == is_separator(
        line[start],
    ) {
        run_end(line, start + 1)
    } else {
        start + 1
    }
}

/// A run is not empty and ends within the line.
pub proof fn lemma_run_end_bounds(line: Seq<char>, start: int)
    requires
        0 <= start < line.len(),
    ensures
        start < run_end(line, start) <= line.len(),
    decreases line.len() - start,
{
    if start + 1 < line.len() && is_separator(line[start + 1]) == is_separator(line[start]) {
        lemma_run_end_bounds(line, start + 1);
    }
}

/// The tokens of the part of `line` that begins at `start`, where a token
/// begins: one token for each run.
pub open spec fn tokens_from(line: Seq<char>, start: int) -> Seq<Seq<char>>
    decreases line.len() - start,
{
    if 0 <= start < line.len() {
        let end = run_end(line, start);
        proof {
            lemma_run_end_bounds(line, start);
        }
        seq![line.subrange(start, end)] + tokens_from(line, end)
    } else {
        Seq::empty()
    }
}

/// The tokens of a line: its runs of separators and the runs of other
/// characters between them, in order. An empty line has no token.
pub open spec fn tokens(line: Seq<char>) -> Seq<Seq<char>> {
    tokens_from(line, 0)
}

/// Whether all characters of a token are of one kind: separators, or not.
pub open spec fn uniform(token: Seq<char>) -> bool {
    forall|k: int| 0 <= k < token.len() ==> is_separator(#[trigger] token[k]) == is_separator(token[0])
}

/// A run holds characters of one kind and ends where the line ends or the
/// kind changes.
pub proof fn lemma_run_end(line: Seq<char>, start: int)
    requires
        0 <= start < line.len(),
    ensures
        forall|k: int|
            start <= k < run_end(line, start) ==> is_separator(#[trigger] line[k]) == is_separator(
                line[start],
            ),
        run_end(line, start) < line.len() ==> is_separator(line[run_end(line, start)])
            != is_separator(line[start]),
    decreases line.len() - start,
{
    if start + 1 < line.len() && is_separator(line[start + 1]) == is_separator(line[start]) {
        lemma_run_end(line, start + 1);
    }
}

/// The tokens from a token's start on are not empty, each holds characters
/// of one kind, the first begins with the character at `start`, and each
/// is of the other kind than the one before it.
pub proof fn lemma_tokens_from_are_runs(line: Seq<char>, start: int)
    requires
        0 <= start <= line.len(),
    ensures
        start < line.len() ==> tokens_from(line, start).len() > 0 && tokens_from(
            line,
            start,
        )[0].len() > 0 && tokens_from(line, start)[0][0] == line[start],
        forall|t: int|
            0 <= t < tokens_from(line, start).len() ==> (#[trigger] tokens_from(line, start)[t]).len()
                > 0 && uniform(tokens_from(line, start)[t]),
        forall|t: int|
            0 < t < tokens_from(line, start).len() ==> is_separator(
                (#[trigger] tokens_from(line, start)[t])[0],
            ) != is_separator(tokens_from(line, start)[t - 1][0]),
    decreases line.len() - start,
{
    if start < line.len() {
        let end = run_end(line, start);
        let all = tokens_from(line, start);
        let rest = tokens_from(line, end);
        lemma_run_end_bounds(line, start);
        lemma_run_end(line, start);
        lemma_tokens_from_are_runs(line, end);
        assert(all[0] == line.subrange(start, end));
        assert forall|t: int| 0 <= t < all.len() implies (#[trigger] all[t]).len() > 0 && uniform(
            all[t],
        ) by {
            if t > 0 {
                assert(all[t] == rest[t - 1]);
            }
        }
        assert forall|t: int| 0 < t < all.len() implies is_separator((#[trigger] all[t])[0])
            != is_separator(all[t - 1][0]) by {
            assert(all[t] == rest[t - 1]);
            if t > 1 {
                assert(all[t - 1] == rest[t - 2]);
            }
        }
    }
}

/// The tokens of a line are its runs: none is empty, each holds separators
/// only or no separator at all, and separator runs and other runs take
/// turns, so that every run is as long as it can be.
pub proof fn lemma_tokens_are_runs(line: Seq<char>)
    ensures
        forall|t: int|
            0 <= t < tokens(line).len() ==> (#[trigger] tokens(line)[t]).len() > 0 && uniform(
                tokens(line)[t],
            ),
        forall|t: int|
            0 < t < tokens(line).len() ==> is_separator((#[trigger] tokens(line)[t])[0])
                != is_separator(tokens(line)[t - 1][0]),
{
    lemma_tokens_from_are_runs(line, 0);
}

/// The tokens of a line, joined in order, are the line.
pub proof fn lemma_tokens_partition(line: Seq<char>)
    ensures
        tokens(line).flatten() == line,
{
    lemma_tokens_from_partition(line, 0);
}

/// The tokens from a token's start on, joined in order, are the rest of the
/// line.
pub proof fn lemma_tokens_from_partition(line: Seq<char>, start: int)
    requires
        0 <= start <= line.len(),
    ensures
        tokens_from(line, start).flatten() == line.skip(start),
    decreases line.len() - start,
{
    if start < line.len() {
        let end = run_end(line, start);
        lemma_run_end_bounds(line, start);
        lemma_tokens_from_partition(line, end);
        lemma_flatten_concat(seq![line.subrange(start, end)], tokens_from(line, end));
        seq![line.subrange(start, end)].lemma_flatten_one_element();
        assert(line.subrange(start, end) + line.skip(end) =~= line.skip(start));
    } else {
        assert(line.skip(start) =~= Seq::<char>::empty());
    }
}

} // verus!
