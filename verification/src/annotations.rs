//! What edit inference returns: every line of the block, annotated.

use crate::align::{lemma_script_total, script, Operation};
use crate::distance::Ratio;
use crate::pairing::{homolog, line_runs, partner};
use crate::sections::{
    joined, lemma_sections_joined, lemma_span_all, lemma_taken_coalesced, sections,
};
use crate::tokens::{lemma_tokens_partition, tokens};
use vstd::prelude::*;

verus! {

/// Minus line `i`, annotated: cut into sections against its homolog where
/// it has one, and otherwise whole and labelled as unchanged.
pub open spec fn minus_annotation<L>(
    minus_lines: Seq<Seq<char>>,
    plus_lines: Seq<Seq<char>>,
    noop_deletion: L,
    deletion: L,
    limit: Ratio,
    i: int,
) -> Seq<(L, Seq<char>)> {
    match homolog(minus_lines, plus_lines, limit, i) {
        Some(j) => sections(
            line_runs(minus_lines[i], plus_lines[j]),
            tokens(minus_lines[i]),
            Operation::Insertion,
            noop_deletion,
            deletion,
        ),
        None => seq![(noop_deletion, minus_lines[i])],
    }
}

/// Plus line `j`, annotated: cut into sections against the minus line that
/// it is paired with where there is one, and otherwise whole and labelled
/// as unchanged.
pub open spec fn plus_annotation<L>(
    minus_lines: Seq<Seq<char>>,
    plus_lines: Seq<Seq<char>>,
    noop_insertion: L,
    insertion: L,
    limit: Ratio,
    j: int,
) -> Seq<(L, Seq<char>)> {
    match partner(minus_lines, plus_lines, limit, j, minus_lines.len()) {
        Some(i) => sections(
            line_runs(minus_lines[i], plus_lines[j]),
            tokens(plus_lines[j]),
            Operation::Deletion,
            noop_insertion,
            insertion,
        ),
        None => seq![(noop_insertion, plus_lines[j])],
    }
}

/// All minus lines, annotated, in their order.
pub open spec fn minus_annotations<L>(
    minus_lines: Seq<Seq<char>>,
    plus_lines: Seq<Seq<char>>,
    noop_deletion: L,
    deletion: L,
    limit: Ratio,
) -> Seq<Seq<(L, Seq<char>)>> {
    Seq::new(
        minus_lines.len(),
        |i: int| minus_annotation(minus_lines, plus_lines, noop_deletion, deletion, limit, i),
    )
}

/// All plus lines, annotated, in their order.
pub open spec fn plus_annotations<L>(
    minus_lines: Seq<Seq<char>>,
    plus_lines: Seq<Seq<char>>,
    noop_insertion: L,
    insertion: L,
    limit: Ratio,
) -> Seq<Seq<(L, Seq<char>)>> {
    Seq::new(
        plus_lines.len(),
        |j: int| plus_annotation(minus_lines, plus_lines, noop_insertion, insertion, limit, j),
    )
}

/// The sections of either line of a pair, joined, are that line.
pub proof fn lemma_pair_reconstructs<L>(minus: Seq<char>, plus: Seq<char>, kept: L, changed: L)
    ensures
        joined(sections(line_runs(minus, plus), tokens(minus), Operation::Insertion, kept, changed))
            == minus,
        joined(sections(line_runs(minus, plus), tokens(plus), Operation::Deletion, kept, changed))
            == plus,
{
    let x = tokens(minus);
    let y = tokens(plus);
    lemma_script_total(x, y, x.len(), y.len());
    lemma_taken_coalesced(script(x, y, x.len(), y.len()));
    lemma_sections_joined(line_runs(minus, plus), x, Operation::Insertion, kept, changed);
    lemma_sections_joined(line_runs(minus, plus), y, Operation::Deletion, kept, changed);
    lemma_span_all(x);
    lemma_span_all(y);
    lemma_tokens_partition(minus);
    lemma_tokens_partition(plus);
}

/// A line that is annotated whole is itself when its one section is joined.
pub proof fn lemma_whole_line_reconstructs<L>(label: L, line: Seq<char>)
    ensures
        joined(seq![(label, line)]) == line,
{
    let texts = seq![(label, line)].map_values(|section: (L, Seq<char>)| section.1);
    assert(texts =~= seq![line]);
    seq![line].lemma_flatten_one_element();
}

/// Every annotated line reconstructs the line it annotates: its sections,
/// joined in order, are exactly that line.
pub proof fn lemma_annotated_lines_reconstruct<L>(
    minus_lines: Seq<Seq<char>>,
    plus_lines: Seq<Seq<char>>,
    noop_deletion: L,
    deletion: L,
    noop_insertion: L,
    insertion: L,
    limit: Ratio,
)
    ensures
        forall|i: int|
            0 <= i < minus_lines.len() ==> joined(
                #[trigger] minus_annotation(
                    minus_lines,
                    plus_lines,
                    noop_deletion,
                    deletion,
                    limit,
                    i,
                ),
            ) == minus_lines[i],
        forall|j: int|
            0 <= j < plus_lines.len() ==> joined(
                #[trigger] plus_annotation(
                    minus_lines,
                    plus_lines,
                    noop_insertion,
                    insertion,
                    limit,
                    j,
                ),
            ) == plus_lines[j],
{
    assert forall|i: int| 0 <= i < minus_lines.len() implies joined(
        #[trigger] minus_annotation(minus_lines, plus_lines, noop_deletion, deletion, limit, i),
    ) == minus_lines[i] by {
        match homolog(minus_lines, plus_lines, limit, i) {
            Some(j) => {
                lemma_pair_reconstructs(minus_lines[i], plus_lines[j], noop_deletion, deletion);
            },
            None => {
                lemma_whole_line_reconstructs(noop_deletion, minus_lines[i]);
            },
        }
    }
    assert forall|j: int| 0 <= j < plus_lines.len() implies joined(
        #[trigger] plus_annotation(
            minus_lines,
            plus_lines,
            noop_insertion,
            insertion,
            limit,
            j,
        ),
    ) == plus_lines[j] by {
        match partner(minus_lines, plus_lines, limit, j, minus_lines.len()) {
            Some(i) => {
                lemma_pair_reconstructs(minus_lines[i], plus_lines[j], noop_insertion, insertion);
            },
            None => {
                lemma_whole_line_reconstructs(noop_insertion, plus_lines[j]);
            },
        }
    }
}

} // verus!
