//! Edit inference: tokenizing lines, annotating a pair of lines, and pairing
//! the minus lines of a block with its plus lines.

use crate::align::{coalesce, lemma_script_total, run_views, Alignment, Operation};
use crate::annotations::{
    lemma_annotated_lines_reconstruct, minus_annotation, minus_annotations, plus_annotation,
    plus_annotations,
};
use crate::distance::{fraction, Distance, Ratio};
use crate::pairing::{
    first_homolog, homolog, homologous, lemma_first_homolog_found, lemma_homolog_position,
    lemma_partner_none, lemma_partner_settled, line_runs, partner, passed,
};
use crate::sections::{
    changed_weight, changes_are_blank, joined, lemma_sections_joined, lemma_span_all,
    lemma_span_extend, lemma_span_position, lemma_taken_coalesced, lemma_taken_prefix, sections,
    span, taken, total_weight,
};
use crate::text::{chars_of, is_separator_char, views, weigh};
use crate::tokens::{lemma_run_end_bounds, lemma_tokens_partition, run_end, tokens, tokens_from};
use vstd::prelude::*;
use vstd::string::StrSliceExecFns;

verus! {

/// Splits a line into tokens, the units that lines are aligned by: the
/// runs of separators and the runs of other characters between them, in
/// order. The tokens, joined, are the line.
pub fn tokenize<'a>(line: &'a str) -> (pieces: Vec<&'a str>)
    ensures
        views(pieces@) == tokens(line@),
        views(pieces@).flatten() == line@,
{
    proof {
        lemma_tokens_partition(line@);
    }
    let chars = chars_of(line);
    let n = chars.len();
    let mut pieces: Vec<&'a str> = Vec::new();
    let mut start: usize = 0;
    let mut i: usize = 0;
    assert(views(pieces@) =~= Seq::<Seq<char>>::empty());
    while i < n
        invariant
            start <= i <= n,
            n == chars.len(),
            chars@ == line@,
            start == i ==> i == 0,
            start < i ==> run_end(line@, start as int) == run_end(line@, i - 1),
            views(pieces@) + tokens_from(line@, start as int) == tokens(line@),
        decreases n - i,
    {
        if i > start && is_separator_char(chars[i]) != is_separator_char(chars[i - 1]) {
            let piece = line.substring_char(start, i);
            proof {
                lemma_run_end_bounds(line@, start as int);
                assert(views(pieces@.push(piece)) =~= views(pieces@) + seq![piece@]);
                assert(views(pieces@.push(piece)) + tokens_from(line@, i as int) =~= views(pieces@)
                    + tokens_from(line@, start as int));
            }
            pieces.push(piece);
            start = i;
        }
        i += 1;
    }
    if start < n {
        let piece = line.substring_char(start, n);
        proof {
            assert(views(pieces@.push(piece)) =~= views(pieces@) + seq![piece@]);
            assert(tokens_from(line@, n as int) =~= Seq::<Seq<char>>::empty());
            assert(views(pieces@.push(piece)) =~= views(pieces@) + tokens_from(line@, start as int));
        }
        pieces.push(piece);
    } else {
        assert(views(pieces@) + tokens_from(line@, start as int) =~= views(pieces@));
    }
    pieces
}

/// Labelled sections as they are held in memory, seen as labelled texts.
pub open spec fn section_views<L>(sections: Seq<(L, &str)>) -> Seq<(L, Seq<char>)> {
    sections.map_values(|section: (L, &str)| (section.0, section.1@))
}

/// Cuts the next `n` tokens out of `line` as one section and moves both
/// offsets past them.
fn take_section<'a>(
    n: usize,
    line_offset: &mut usize,
    tokens_offset: &mut usize,
    tokens: &Vec<&'a str>,
    line: &'a str,
) -> (section: &'a str)
    requires
        *old(tokens_offset) + n <= tokens.len(),
        views(tokens@).flatten() == line@,
        *old(line_offset) == span(views(tokens@), 0, *old(tokens_offset) as int).len(),
    ensures
        *final(tokens_offset) == *old(tokens_offset) + n,
        section@ == span(
            views(tokens@),
            *old(tokens_offset) as int,
            *old(tokens_offset) + n,
        ),
        *final(line_offset) == *old(line_offset) + section@.len(),
        *final(line_offset) == span(views(tokens@), 0, *final(tokens_offset) as int).len(),
{
    let ghost texts = views(tokens@);
    let from: usize = *tokens_offset;
    let start: usize = *line_offset;
    let line_length = line.unicode_len();
    let mut length: usize = 0;
    let mut k: usize = 0;
    proof {
        assert(texts.subrange(from as int, from as int) =~= Seq::<Seq<char>>::empty());
    }
    while k < n
        invariant
            k <= n,
            from + n <= tokens.len(),
            texts == views(tokens@),
            texts.flatten() == line@,
            line_length == line@.len(),
            start == span(texts, 0, from as int).len(),
            length == span(texts, from as int, from + k).len(),
        decreases n - k,
    {
        proof {
            lemma_span_extend(texts, from as int, from + k);
            lemma_span_position(texts, from as int, from + k + 1);
            assert(texts[from + k] == tokens@[from + k]@);
        }
        length += tokens[from + k].unicode_len();
        k += 1;
    }
    proof {
        lemma_span_position(texts, from as int, from + n);
    }
    *tokens_offset = from + n;
    *line_offset = start + length;
    line.substring_char(start, start + length)
}

/// Cuts two lines into labelled sections along a coalesced edit script
/// between their tokens, and measures how far apart the lines are.
///
/// The script has to consume the tokens of both lines, all of them and no
/// more. Every run becomes one section on each side that it consumes: a run
/// of `NoOp` a section labelled `noop_deletion` on the minus side and one
/// labelled `noop_insertion` on the plus side, a `Deletion` a section
/// labelled `deletion` on the minus side, an `Insertion` one labelled
/// `insertion` on the plus side, and a `Substitution` one of each. The
/// sections of each line, joined, are that line.
///
/// A run of `NoOp` adds the weight of its minus section to the distance's
/// denominator only; its plus section is not weighed. Any other run adds the
/// weight of its text to both parts, a `Substitution` that of its minus
/// section. So the distance lies between zero and one, and it is zero
/// exactly when no run that changes something holds anything but white
/// space. Where nothing has any weight the distance is zero.
pub fn annotate_runs<'a, Annotation: Copy>(
    runs: &Vec<(Operation, usize)>,
    x: &Vec<&'a str>,
    y: &Vec<&'a str>,
    noop_deletion: Annotation,
    deletion: Annotation,
    noop_insertion: Annotation,
    insertion: Annotation,
    minus_line: &'a str,
    plus_line: &'a str,
) -> (annotated: (Vec<(Annotation, &'a str)>, Vec<(Annotation, &'a str)>, Distance))
    requires
        taken(run_views(runs@), Operation::Insertion) == x@.len(),
        taken(run_views(runs@), Operation::Deletion) == y@.len(),
        views(x@).flatten() == minus_line@,
        views(y@).flatten() == plus_line@,
    ensures
        section_views(annotated.0@) == sections(
            run_views(runs@),
            views(x@),
            Operation::Insertion,
            noop_deletion,
            deletion,
        ),
        section_views(annotated.1@) == sections(
            run_views(runs@),
            views(y@),
            Operation::Deletion,
            noop_insertion,
            insertion,
        ),
        joined(section_views(annotated.0@)) == minus_line@,
        joined(section_views(annotated.1@)) == plus_line@,
        annotated.2.wf(),
        annotated.2.parts() == fraction(
            changed_weight(run_views(runs@), views(x@), views(y@)),
            total_weight(run_views(runs@), views(x@), views(y@)),
        ),
        annotated.2.numer == 0 <==> changes_are_blank(run_views(runs@), views(x@), views(y@)),
{
    let ghost xs = views(x@);
    let ghost ys = views(y@);
    let ghost all = run_views(runs@);
    proof {
        assert(all.take(0) =~= Seq::<(Operation, nat)>::empty());
        assert(xs.subrange(0, 0) =~= Seq::<Seq<char>>::empty());
        assert(ys.subrange(0, 0) =~= Seq::<Seq<char>>::empty());
    }
    let mut annotated_minus_line: Vec<(Annotation, &'a str)> = Vec::new();
    let mut annotated_plus_line: Vec<(Annotation, &'a str)> = Vec::new();
    let mut x_offset: usize = 0;
    let mut y_offset: usize = 0;
    let mut minus_line_offset: usize = 0;
    let mut plus_line_offset: usize = 0;
    let mut d_numer: u128 = 0;
    let mut d_denom: u128 = 0;
    let mut k: usize = 0;
    assert(section_views(annotated_minus_line@) =~= Seq::<(Annotation, Seq<char>)>::empty());
    assert(section_views(annotated_plus_line@) =~= Seq::<(Annotation, Seq<char>)>::empty());
    while k < runs.len()
        invariant
            k <= runs.len(),
            all == run_views(runs@),
            xs == views(x@),
            ys == views(y@),
            xs.flatten() == minus_line@,
            ys.flatten() == plus_line@,
            taken(all, Operation::Insertion) == xs.len(),
            taken(all, Operation::Deletion) == ys.len(),
            x_offset == taken(all.take(k as int), Operation::Insertion),
            y_offset == taken(all.take(k as int), Operation::Deletion),
            minus_line_offset == span(xs, 0, x_offset as int).len(),
            plus_line_offset == span(ys, 0, y_offset as int).len(),
            section_views(annotated_minus_line@) == sections(
                all.take(k as int),
                xs,
                Operation::Insertion,
                noop_deletion,
                deletion,
            ),
            section_views(annotated_plus_line@) == sections(
                all.take(k as int),
                ys,
                Operation::Deletion,
                noop_insertion,
                insertion,
            ),
            d_numer == changed_weight(all.take(k as int), xs, ys),
            d_denom == total_weight(all.take(k as int), xs, ys),
            d_numer <= d_denom <= minus_line_offset + plus_line_offset,
            d_numer == 0 <==> changes_are_blank(all.take(k as int), xs, ys),
        decreases runs.len() - k,
    {
        let (op, n) = runs[k];
        let ghost before = all.take(k as int);
        let ghost minus_before = section_views(annotated_minus_line@);
        let ghost plus_before = section_views(annotated_plus_line@);
        proof {
            assert(all.take(k + 1).drop_last() =~= before);
            assert(all.take(k + 1).last() == (op, n as nat));
            lemma_taken_prefix(all, k + 1, Operation::Insertion);
            lemma_taken_prefix(all, k + 1, Operation::Deletion);
        }
        match op {
            Operation::Deletion => {
                let minus_section = take_section(
                    n,
                    &mut minus_line_offset,
                    &mut x_offset,
                    x,
                    minus_line,
                );
                let n_d = weigh(minus_section);
                d_denom += n_d as u128;
                d_numer += n_d as u128;
                annotated_minus_line.push((deletion, minus_section));
                assert(section_views(annotated_minus_line@) =~= minus_before.push(
                    (deletion, minus_section@),
                ));
            },
            Operation::NoOp => {
                let minus_section = take_section(
                    n,
                    &mut minus_line_offset,
                    &mut x_offset,
                    x,
                    minus_line,
                );
                let n_d = weigh(minus_section);
                d_denom += n_d as u128;
                let plus_section = take_section(n, &mut plus_line_offset, &mut y_offset, y, plus_line);
                annotated_minus_line.push((noop_deletion, minus_section));
                annotated_plus_line.push((noop_insertion, plus_section));
                assert(section_views(annotated_minus_line@) =~= minus_before.push(
                    (noop_deletion, minus_section@),
                ));
                assert(section_views(annotated_plus_line@) =~= plus_before.push(
                    (noop_insertion, plus_section@),
                ));
            },
            Operation::Substitution => {
                let minus_section = take_section(
                    n,
                    &mut minus_line_offset,
                    &mut x_offset,
                    x,
                    minus_line,
                );
                let n_d = weigh(minus_section);
                d_denom += n_d as u128;
                d_numer += n_d as u128;
                let plus_section = take_section(n, &mut plus_line_offset, &mut y_offset, y, plus_line);
                annotated_minus_line.push((deletion, minus_section));
                annotated_plus_line.push((insertion, plus_section));
                assert(section_views(annotated_minus_line@) =~= minus_before.push(
                    (deletion, minus_section@),
                ));
                assert(section_views(annotated_plus_line@) =~= plus_before.push(
                    (insertion, plus_section@),
                ));
            },
            Operation::Insertion => {
                let plus_section = take_section(n, &mut plus_line_offset, &mut y_offset, y, plus_line);
                let n_d = weigh(plus_section);
                d_denom += n_d as u128;
                d_numer += n_d as u128;
                annotated_plus_line.push((insertion, plus_section));
                assert(section_views(annotated_plus_line@) =~= plus_before.push(
                    (insertion, plus_section@),
                ));
            },
        }
        k += 1;
    }
    proof {
        assert(all.take(k as int) =~= all);
        lemma_sections_joined(all, xs, Operation::Insertion, noop_deletion, deletion);
        lemma_sections_joined(all, ys, Operation::Deletion, noop_insertion, insertion);
        lemma_span_all(xs);
        lemma_span_all(ys);
    }
    let distance = Distance::new(d_numer, d_denom);
    (annotated_minus_line, annotated_plus_line, distance)
}

/// Cuts two aligned lines into labelled sections along the alignment's
/// coalesced edit script, and measures how far apart the lines are.
pub fn annotate<'a, Annotation: Copy>(
    alignment: Alignment<'a>,
    noop_deletion: Annotation,
    deletion: Annotation,
    noop_insertion: Annotation,
    insertion: Annotation,
    minus_line: &'a str,
    plus_line: &'a str,
) -> (annotated: (Vec<(Annotation, &'a str)>, Vec<(Annotation, &'a str)>, Distance))
    requires
        alignment.wf(),
        alignment.first().flatten() == minus_line@,
        alignment.second().flatten() == plus_line@,
    ensures
        section_views(annotated.0@) == sections(
            coalesce(alignment.script()),
            alignment.first(),
            Operation::Insertion,
            noop_deletion,
            deletion,
        ),
        section_views(annotated.1@) == sections(
            coalesce(alignment.script()),
            alignment.second(),
            Operation::Deletion,
            noop_insertion,
            insertion,
        ),
        joined(section_views(annotated.0@)) == minus_line@,
        joined(section_views(annotated.1@)) == plus_line@,
        annotated.2.wf(),
        annotated.2.parts() == fraction(
            changed_weight(coalesce(alignment.script()), alignment.first(), alignment.second()),
            total_weight(coalesce(alignment.script()), alignment.first(), alignment.second()),
        ),
        annotated.2.numer == 0 <==> changes_are_blank(
            coalesce(alignment.script()),
            alignment.first(),
            alignment.second(),
        ),
{
    let runs = alignment.coalesced_operations();
    proof {
        lemma_script_total(
            alignment.first(),
            alignment.second(),
            alignment.first().len(),
            alignment.second().len(),
        );
        lemma_taken_coalesced(alignment.script());
    }
    annotate_runs(
        &runs,
        alignment.x(),
        alignment.y(),
        noop_deletion,
        deletion,
        noop_insertion,
        insertion,
        minus_line,
        plus_line,
    )
}

/// The texts of a list of lines.
pub open spec fn line_texts(lines: Seq<String>) -> Seq<Seq<char>> {
    lines.map_values(|line: String| line@)
}

/// Annotated lines as they are held in memory, seen as lists of labelled
/// texts.
pub open spec fn line_views<L>(lines: Seq<Vec<(L, &str)>>) -> Seq<Seq<(L, Seq<char>)>> {
    lines.map_values(|line: Vec<(L, &str)>| section_views(line@))
}

/// A line annotated whole, under one label.
fn unpaired<'a, L: Copy>(label: L, line: &'a str) -> (annotated: Vec<(L, &'a str)>)
    ensures
        section_views(annotated@) == seq![(label, line@)],
{
    let mut annotated: Vec<(L, &'a str)> = Vec::new();
    annotated.push((label, line));
    assert(section_views(annotated@) =~= seq![(label, line@)]);
    annotated
}

/// Looks for the first plus line at or after index `from` that is
/// homologous to `minus_line`, and returns its index with both lines
/// annotated against each other.
fn find_homolog<'a, L: Copy>(
    minus_line: &'a str,
    plus_lines: &'a Vec<String>,
    from: usize,
    noop_deletion: L,
    deletion: L,
    noop_insertion: L,
    insertion: L,
    limit: Ratio,
) -> (found: Option<(usize, Vec<(L, &'a str)>, Vec<(L, &'a str)>)>)
    requires
        from <= plus_lines.len(),
    ensures
        match found {
            Some((j, minus, plus)) => {
                &&& j < plus_lines.len()
                &&& first_homolog(minus_line@, line_texts(plus_lines@), from as int, limit) == Some(
                    j as int,
                )
                &&& section_views(minus@) == sections(
                    line_runs(minus_line@, plus_lines@[j as int]@),
                    tokens(minus_line@),
                    Operation::Insertion,
                    noop_deletion,
                    deletion,
                )
                &&& section_views(plus@) == sections(
                    line_runs(minus_line@, plus_lines@[j as int]@),
                    tokens(plus_lines@[j as int]@),
                    Operation::Deletion,
                    noop_insertion,
                    insertion,
                )
            },
            None => first_homolog(minus_line@, line_texts(plus_lines@), from as int, limit) is None,
        },
{
    let ghost texts = line_texts(plus_lines@);
    let mut candidate: usize = from;
    while candidate < plus_lines.len()
        invariant
            from <= candidate <= plus_lines.len(),
            texts == line_texts(plus_lines@),
            forall|c: int| from <= c < candidate ==> !homologous(minus_line@, #[trigger] texts[c], limit),
        decreases plus_lines.len() - candidate,
    {
        let plus_line = plus_lines[candidate].as_str();
        let alignment = Alignment::new(tokenize(minus_line), tokenize(plus_line));
        proof {
            lemma_tokens_partition(minus_line@);
            lemma_tokens_partition(plus_line@);
            assert(texts[candidate as int] == plus_line@);
        }
        let (annotated_minus_line, annotated_plus_line, distance) = annotate(
            alignment,
            noop_deletion,
            deletion,
            noop_insertion,
            insertion,
            minus_line,
            plus_line,
        );
        if distance.is_within(limit) {
            proof {
                lemma_first_homolog_found(minus_line@, texts, from as int, limit, candidate as int);
            }
            return Some((candidate, annotated_minus_line, annotated_plus_line));
        }
        candidate += 1;
    }
    proof {
        lemma_first_homolog_found(minus_line@, texts, from as int, limit, candidate as int);
    }
    None
}

/// Infers the edits that turned a block of minus lines into a block of plus
/// lines.
///
/// The minus lines are taken in order. Each is paired with the first plus
/// line, among those that no earlier minus line has passed, whose distance
/// from it is at most `max_line_distance`; the plus lines skipped on the way
/// to it are passed and stay unpaired. Both lines of a pair are cut into
/// sections against each other. A line without a partner is annotated whole:
/// a minus line as `noop_deletion`, a plus line as `noop_insertion`.
///
/// Returns one annotated line for every minus line and one for every plus
/// line, each list in the order of its input. The sections of an annotated
/// line, joined in order, are the line.
pub fn infer_edits<'a, EditOperation>(
    minus_lines: &'a Vec<String>,
    plus_lines: &'a Vec<String>,
    noop_deletion: EditOperation,
    deletion: EditOperation,
    noop_insertion: EditOperation,
    insertion: EditOperation,
    max_line_distance: Ratio,
) -> (edits: (Vec<Vec<(EditOperation, &'a str)>>, Vec<Vec<(EditOperation, &'a str)>>))
    where
        EditOperation: Copy,
        EditOperation: PartialEq,
    ensures
        line_views(edits.0@) == minus_annotations(
            line_texts(minus_lines@),
            line_texts(plus_lines@),
            noop_deletion,
            deletion,
            max_line_distance,
        ),
        line_views(edits.1@) == plus_annotations(
            line_texts(minus_lines@),
            line_texts(plus_lines@),
            noop_insertion,
            insertion,
            max_line_distance,
        ),
        edits.0@.len() == minus_lines@.len(),
        edits.1@.len() == plus_lines@.len(),
        forall|i: int|
            0 <= i < minus_lines@.len() ==> joined(#[trigger] line_views(edits.0@)[i])
                == minus_lines@[i]@,
        forall|j: int|
            0 <= j < plus_lines@.len() ==> joined(#[trigger] line_views(edits.1@)[j])
                == plus_lines@[j]@,
{
    let ghost ms = line_texts(minus_lines@);
    let ghost ps = line_texts(plus_lines@);
    let ghost limit = max_line_distance;
    let mut annotated_minus_lines: Vec<Vec<(EditOperation, &'a str)>> = Vec::new();
    let mut annotated_plus_lines: Vec<Vec<(EditOperation, &'a str)>> = Vec::new();
    let mut emitted: usize = 0;
    let mut k: usize = 0;
    while k < minus_lines.len()
        invariant
            k <= minus_lines.len(),
            emitted <= plus_lines.len(),
            ms == line_texts(minus_lines@),
            ps == line_texts(plus_lines@),
            limit == max_line_distance,
            emitted == passed(ms, ps, limit, k as nat),
            annotated_minus_lines@.len() == k,
            annotated_plus_lines@.len() == emitted,
            forall|i: int|
                0 <= i < k ==> section_views((#[trigger] annotated_minus_lines@[i])@)
                    == minus_annotation(ms, ps, noop_deletion, deletion, limit, i),
            forall|j: int|
                0 <= j < emitted ==> section_views((#[trigger] annotated_plus_lines@[j])@)
                    == plus_annotation(ms, ps, noop_insertion, insertion, limit, j),
        decreases minus_lines.len() - k,
    {
        let minus_line = minus_lines[k].as_str();
        assert(ms[k as int] == minus_line@);
        let found = find_homolog(
            minus_line,
            plus_lines,
            emitted,
            noop_deletion,
            deletion,
            noop_insertion,
            insertion,
            max_line_distance,
        );
        match found {
            Some((j, annotated_minus_line, annotated_plus_line)) => {
                proof {
                    assert(ps[j as int] == plus_lines@[j as int]@);
                    assert(homolog(ms, ps, limit, k as int) == Some(j as int));
                    lemma_homolog_position(ms, ps, limit, k as int);
                    assert forall|c: int| emitted <= c < j implies partner(
                        ms,
                        ps,
                        limit,
                        c,
                        ms.len(),
                    ) is None by {
                        lemma_partner_none(ms, ps, limit, c, k as nat);
                        lemma_partner_settled(ms, ps, limit, c, (k + 1) as nat, ms.len());
                    }
                    lemma_partner_settled(ms, ps, limit, j as int, (k + 1) as nat, ms.len());
                }
                while emitted < j
                    invariant
                        emitted <= j < plus_lines.len(),
                        ps == line_texts(plus_lines@),
                        annotated_plus_lines@.len() == emitted,
                        forall|c: int|
                            emitted <= c < j ==> partner(ms, ps, limit, c, ms.len()) is None,
                        forall|c: int|
                            0 <= c < emitted ==> section_views(
                                (#[trigger] annotated_plus_lines@[c])@,
                            ) == plus_annotation(ms, ps, noop_insertion, insertion, limit, c),
                    decreases j - emitted,
                {
                    let plus_line = plus_lines[emitted].as_str();
                    assert(ps[emitted as int] == plus_line@);
                    annotated_plus_lines.push(unpaired(noop_insertion, plus_line));
                    emitted += 1;
                }
                annotated_minus_lines.push(annotated_minus_line);
                annotated_plus_lines.push(annotated_plus_line);
                emitted += 1;
            },
            None => {
                annotated_minus_lines.push(unpaired(noop_deletion, minus_line));
            },
        }
        k += 1;
    }
    proof {
        assert forall|c: int| emitted <= c < ps.len() implies partner(ms, ps, limit, c, ms.len())
            is None by {
            lemma_partner_none(ms, ps, limit, c, ms.len());
        }
    }
    while emitted < plus_lines.len()
        invariant
            emitted <= plus_lines.len(),
            ps == line_texts(plus_lines@),
            annotated_plus_lines@.len() == emitted,
            forall|c: int| emitted <= c < ps.len() ==> partner(ms, ps, limit, c, ms.len()) is None,
            forall|c: int|
                0 <= c < emitted ==> section_views((#[trigger] annotated_plus_lines@[c])@)
                    == plus_annotation(ms, ps, noop_insertion, insertion, limit, c),
        decreases plus_lines.len() - emitted,
    {
        let plus_line = plus_lines[emitted].as_str();
        assert(ps[emitted as int] == plus_line@);
        annotated_plus_lines.push(unpaired(noop_insertion, plus_line));
        emitted += 1;
    }
    proof {
        assert(line_views(annotated_minus_lines@) =~= minus_annotations(
            ms,
            ps,
            noop_deletion,
            deletion,
            limit,
        ));
        assert(line_views(annotated_plus_lines@) =~= plus_annotations(
            ms,
            ps,
            noop_insertion,
            insertion,
            limit,
        ));
        lemma_annotated_lines_reconstruct(
            ms,
            ps,
            noop_deletion,
            deletion,
            noop_insertion,
            insertion,
            limit,
        );
    }
    (annotated_minus_lines, annotated_plus_lines)
}

} // verus!
