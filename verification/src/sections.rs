//! How a coalesced edit script cuts two lines into sections, and what the
//! sections weigh.

use crate::align::{all_noop, coalesce, taken_from_first, taken_from_second, Operation};
use crate::text::{trimmed, weight};
use vstd::prelude::*;
use vstd::seq_lib::lemma_flatten_concat;

verus! {

/// The text of the tokens from index `from` up to index `to`.
pub open spec fn span(tokens: Seq<Seq<char>>, from: int, to: int) -> Seq<char> {
    tokens.subrange(from, to).flatten()
}

/// The number of tokens that the runs consume on the side that skips the
/// runs of `skipped`: the first sequence skips insertions, the second
/// deletions.
pub open spec fn taken(runs: Seq<(Operation, nat)>, skipped: Operation) -> nat
    decreases runs.len(),
{
    if runs.len() == 0 {
        0
    } else {
        taken(runs.drop_last(), skipped) + if runs.last().0 == skipped {
            0nat
        } else {
            runs.last().1
        }
    }
}

/// The sections into which the runs cut one line, each with its label: a
/// run of `NoOp` gives a section labelled `kept`, any other run that the
/// side does not skip one labelled `changed`.
pub open spec fn sections<L>(
    runs: Seq<(Operation, nat)>,
    tokens: Seq<Seq<char>>,
    skipped: Operation,
    kept: L,
    changed: L,
) -> Seq<(L, Seq<char>)>
    decreases runs.len(),
{
    if runs.len() == 0 {
        Seq::empty()
    } else {
        let before = runs.drop_last();
        let run = runs.last();
        let done = sections(before, tokens, skipped, kept, changed);
        if run.0 == skipped {
            done
        } else {
            let from = taken(before, skipped) as int;
            done.push(
                (
                    if run.0 == Operation::NoOp {
                        kept
                    } else {
                        changed
                    },
                    span(tokens, from, from + run.1),
                ),
            )
        }
    }
}

/// The texts of the sections, joined in order.
pub open spec fn joined<L>(sections: Seq<(L, Seq<char>)>) -> Seq<char> {
    sections.map_values(|section: (L, Seq<char>)| section.1).flatten()
}

/// The text that a run is measured by: for an insertion the tokens it adds
/// to the second sequence, for every other run the tokens it takes from the
/// first.
pub open spec fn run_text(
    before: Seq<(Operation, nat)>,
    run: (Operation, nat),
    x: Seq<Seq<char>>,
    y: Seq<Seq<char>>,
) -> Seq<char> {
    if run.0 == Operation::Insertion {
        let from = taken(before, Operation::Deletion) as int;
        span(y, from, from + run.1)
    } else {
        let from = taken(before, Operation::Insertion) as int;
        span(x, from, from + run.1)
    }
}

/// The weight of the runs that change something.
pub open spec fn changed_weight(
    runs: Seq<(Operation, nat)>,
    x: Seq<Seq<char>>,
    y: Seq<Seq<char>>,
) -> nat
    decreases runs.len(),
{
    if runs.len() == 0 {
        0
    } else {
        changed_weight(runs.drop_last(), x, y) + if runs.last().0 == Operation::NoOp {
            0nat
        } else {
            weight(run_text(runs.drop_last(), runs.last(), x, y))
        }
    }
}

/// The weight of all runs.
pub open spec fn total_weight(
    runs: Seq<(Operation, nat)>,
    x: Seq<Seq<char>>,
    y: Seq<Seq<char>>,
) -> nat
    decreases runs.len(),
{
    if runs.len() == 0 {
        0
    } else {
        total_weight(runs.drop_last(), x, y) + weight(
            run_text(runs.drop_last(), runs.last(), x, y),
        )
    }
}

/// Whether every run that changes something covers white space only.
pub open spec fn changes_are_blank(
    runs: Seq<(Operation, nat)>,
    x: Seq<Seq<char>>,
    y: Seq<Seq<char>>,
) -> bool
    decreases runs.len(),
{
    runs.len() == 0 || {
        &&& changes_are_blank(runs.drop_last(), x, y)
        &&& runs.last().0 != Operation::NoOp ==> trimmed(
            run_text(runs.drop_last(), runs.last(), x, y),
        ).len() == 0
    }
}

/// Consecutive spans join into one.
pub proof fn lemma_span_split(tokens: Seq<Seq<char>>, from: int, mid: int, to: int)
    requires
        0 <= from <= mid <= to <= tokens.len(),
    ensures
        span(tokens, from, to) == span(tokens, from, mid) + span(tokens, mid, to),
{
    assert(tokens.subrange(from, to) =~= tokens.subrange(from, mid) + tokens.subrange(mid, to));
    lemma_flatten_concat(tokens.subrange(from, mid), tokens.subrange(mid, to));
}

/// The span of all tokens is their concatenation.
pub proof fn lemma_span_all(tokens: Seq<Seq<char>>)
    ensures
        span(tokens, 0, tokens.len() as int) == tokens.flatten(),
{
    assert(tokens.subrange(0, tokens.len() as int) =~= tokens);
}

/// A span sits in the concatenation of all tokens right after the span of
/// the tokens before it.
pub proof fn lemma_span_position(tokens: Seq<Seq<char>>, from: int, to: int)
    requires
        0 <= from <= to <= tokens.len(),
    ensures
        span(tokens, 0, from).len() + span(tokens, from, to).len() == span(tokens, 0, to).len(),
        span(tokens, 0, to).len() <= tokens.flatten().len(),
        span(tokens, from, to) == tokens.flatten().subrange(
            span(tokens, 0, from).len() as int,
            span(tokens, 0, to).len() as int,
        ),
{
    lemma_span_split(tokens, 0, from, to);
    lemma_span_split(tokens, 0, to, tokens.len() as int);
    lemma_span_all(tokens);
    assert(span(tokens, from, to) =~= tokens.flatten().subrange(
        span(tokens, 0, from).len() as int,
        span(tokens, 0, to).len() as int,
    ));
}

/// A span grows by the token that follows it.
pub proof fn lemma_span_extend(tokens: Seq<Seq<char>>, from: int, to: int)
    requires
        0 <= from <= to < tokens.len(),
    ensures
        span(tokens, from, to + 1) == span(tokens, from, to) + tokens[to],
{
    lemma_span_split(tokens, from, to, to + 1);
    assert(tokens.subrange(to, to + 1) =~= seq![tokens[to]]);
    seq![tokens[to]].lemma_flatten_one_element();
}

/// Coalescing a script does not change how many tokens it consumes.
pub proof fn lemma_taken_coalesced(ops: Seq<Operation>)
    ensures
        taken(coalesce(ops), Operation::Insertion) == taken_from_first(ops),
        taken(coalesce(ops), Operation::Deletion) == taken_from_second(ops),
    decreases ops.len(),
{
    if ops.len() > 0 {
        let before = coalesce(ops.drop_last());
        let runs = coalesce(ops);
        lemma_taken_coalesced(ops.drop_last());
        if before.len() > 0 && before.last().0 == ops.last() {
            assert(runs.drop_last() =~= before.drop_last());
        } else {
            assert(runs.drop_last() =~= before);
        }
    }
}

/// The first runs of a script consume no more tokens than all of them.
pub proof fn lemma_taken_prefix(runs: Seq<(Operation, nat)>, k: int, skipped: Operation)
    requires
        0 <= k <= runs.len(),
    ensures
        taken(runs.take(k), skipped) <= taken(runs, skipped),
    decreases runs.len(),
{
    if k < runs.len() {
        assert(runs.drop_last().take(k) =~= runs.take(k));
        lemma_taken_prefix(runs.drop_last(), k, skipped);
    } else {
        assert(runs.take(k) =~= runs);
    }
}

/// The sections of a line, joined, are the text of the tokens consumed.
pub proof fn lemma_sections_joined<L>(
    runs: Seq<(Operation, nat)>,
    tokens: Seq<Seq<char>>,
    skipped: Operation,
    kept: L,
    changed: L,
)
    requires
        taken(runs, skipped) <= tokens.len(),
    ensures
        joined(sections(runs, tokens, skipped, kept, changed)) == span(
            tokens,
            0,
            taken(runs, skipped) as int,
        ),
    decreases runs.len(),
{
    let texts = |section: (L, Seq<char>)| section.1;
    if runs.len() == 0 {
        assert(tokens.subrange(0, 0) =~= Seq::<Seq<char>>::empty());
        assert(sections(runs, tokens, skipped, kept, changed).map_values(texts) =~= Seq::<
            Seq<char>,
        >::empty());
    } else {
        let before = runs.drop_last();
        let run = runs.last();
        let done = sections(before, tokens, skipped, kept, changed);
        lemma_sections_joined(before, tokens, skipped, kept, changed);
        if run.0 != skipped {
            let from = taken(before, skipped) as int;
            let text = span(tokens, from, from + run.1);
            let all = sections(runs, tokens, skipped, kept, changed);
            assert(all.map_values(texts) =~= done.map_values(texts) + seq![text]);
            lemma_flatten_concat(done.map_values(texts), seq![text]);
            seq![text].lemma_flatten_one_element();
            lemma_span_split(tokens, 0, from, from + run.1);
        }
    }
}

/// Runs that keep every token change no weight.
pub proof fn lemma_unchanged_weighs_nothing(
    runs: Seq<(Operation, nat)>,
    x: Seq<Seq<char>>,
    y: Seq<Seq<char>>,
)
    requires
        all_noop(runs),
    ensures
        changed_weight(runs, x, y) == 0,
        changes_are_blank(runs, x, y),
    decreases runs.len(),
{
    if runs.len() > 0 {
        lemma_unchanged_weighs_nothing(runs.drop_last(), x, y);
    }
}

/// Where no run that changes something covers white space only, the
/// changes are blank exactly when there is no change at all.
pub proof fn lemma_blank_changes(runs: Seq<(Operation, nat)>, x: Seq<Seq<char>>, y: Seq<Seq<char>>)
    requires
        forall|k: int|
            0 <= k < runs.len() && (#[trigger] runs[k]).0 != Operation::NoOp ==> trimmed(
                run_text(runs.take(k), runs[k], x, y),
            ).len() > 0,
    ensures
        changes_are_blank(runs, x, y) <==> all_noop(runs),
    decreases runs.len(),
{
    if runs.len() > 0 {
        let before = runs.drop_last();
        assert forall|k: int|
            0 <= k < before.len() && (#[trigger] before[k]).0 != Operation::NoOp implies trimmed(
            run_text(before.take(k), before[k], x, y),
        ).len() > 0 by {
            assert(before.take(k) =~= runs.take(k));
            assert(before[k] == runs[k]);
        }
        lemma_blank_changes(before, x, y);
        assert(runs.take(runs.len() - 1) =~= before);
        if all_noop(runs) {
            lemma_unchanged_weighs_nothing(runs, x, y);
        }
        if changes_are_blank(runs, x, y) {
            assert(runs[runs.len() - 1] == runs.last());
            assert forall|k: int| 0 <= k < runs.len() implies (#[trigger] runs[k]).0
                == Operation::NoOp by {
                if k < before.len() {
                    assert(before[k] == runs[k]);
                }
            }
        }
    }
}

} // verus!
