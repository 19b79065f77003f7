//! Alignment of two token sequences by edit distance.
//!
//! The alignment is the classic dynamic programme over prefixes: the cost
//! of aligning two prefixes is the least number of tokens that have to be
//! deleted, inserted or substituted to turn one into the other. Where
//! several steps cost the same, pairing two tokens is preferred to deleting
//! one, and deleting to inserting, which makes the edit script unique.

use crate::text::{same_text, views};
use vstd::prelude::*;

verus! {

/// One step of an edit script.
#[derive(Clone, Copy, Debug, PartialEq, Eq, Structural)]
pub enum Operation {
    /// A token of the first sequence is kept: it equals its partner.
    NoOp,
    /// A token of the first sequence is replaced by a different one.
    Substitution,
    /// A token of the first sequence has no partner.
    Deletion,
    /// A token of the second sequence has no partner.
    Insertion,
}

/// What pairing the last tokens of two non-empty prefixes costs.
pub open spec fn pairing_cost(x: Seq<Seq<char>>, y: Seq<Seq<char>>, i: nat, j: nat) -> nat {
    if x[i - 1] == y[j - 1] {
        0
    } else {
        1
    }
}

/// The edit distance between the first `i` tokens of `x` and the first `j`
/// tokens of `y`.
pub open spec fn cost(x: Seq<Seq<char>>, y: Seq<Seq<char>>, i: nat, j: nat) -> nat
    decreases i + j,
{
    if i == 0 {
        j
    } else if j == 0 {
        i
    } else {
        let paired = cost(x, y, (i - 1) as nat, (j - 1) as nat) + pairing_cost(x, y, i, j);
        let deleted = cost(x, y, (i - 1) as nat, j) + 1;
        let inserted = cost(x, y, i, (j - 1) as nat) + 1;
        if paired <= deleted && paired <= inserted {
            paired
        } else if deleted <= inserted {
            deleted
        } else {
            inserted
        }
    }
}

/// The last step of the edit script between two prefixes that are not both
/// empty.
pub open spec fn last_step(x: Seq<Seq<char>>, y: Seq<Seq<char>>, i: nat, j: nat) -> Operation {
    if i == 0 {
        Operation::Insertion
    } else if j == 0 {
        Operation::Deletion
    } else {
        let paired = cost(x, y, (i - 1) as nat, (j - 1) as nat) + pairing_cost(x, y, i, j);
        let deleted = cost(x, y, (i - 1) as nat, j) + 1;
        let inserted = cost(x, y, i, (j - 1) as nat) + 1;
        if paired <= deleted && paired <= inserted {
            if x[i - 1] == y[j - 1] {
                Operation::NoOp
            } else {
                Operation::Substitution
            }
        } else if deleted <= inserted {
            Operation::Deletion
        } else {
            Operation::Insertion
        }
    }
}

/// The edit script that turns the first `i` tokens of `x` into the first
/// `j` tokens of `y`.
pub open spec fn script(x: Seq<Seq<char>>, y: Seq<Seq<char>>, i: nat, j: nat) -> Seq<Operation>
    decreases i + j,
{
    if i == 0 && j == 0 {
        Seq::empty()
    } else {
        match last_step(x, y, i, j) {
            Operation::NoOp => script(x, y, (i - 1) as nat, (j - 1) as nat).push(Operation::NoOp),
            Operation::Substitution => script(x, y, (i - 1) as nat, (j - 1) as nat).push(
                Operation::Substitution,
            ),
            Operation::Deletion => script(x, y, (i - 1) as nat, j).push(Operation::Deletion),
            Operation::Insertion => script(x, y, i, (j - 1) as nat).push(Operation::Insertion),
        }
    }
}

/// The number of tokens of the first sequence that a script consumes.
pub open spec fn taken_from_first(ops: Seq<Operation>) -> nat
    decreases ops.len(),
{
    if ops.len() == 0 {
        0
    } else {
        taken_from_first(ops.drop_last()) + if ops.last() == Operation::Insertion {
            0nat
        } else {
            1nat
        }
    }
}

/// The number of tokens of the second sequence that a script consumes.
pub open spec fn taken_from_second(ops: Seq<Operation>) -> nat
    decreases ops.len(),
{
    if ops.len() == 0 {
        0
    } else {
        taken_from_second(ops.drop_last()) + if ops.last() == Operation::Deletion {
            0nat
        } else {
            1nat
        }
    }
}

/// The number of steps of a script that change something.
pub open spec fn changes(ops: Seq<Operation>) -> nat
    decreases ops.len(),
{
    if ops.len() == 0 {
        0
    } else {
        changes(ops.drop_last()) + if ops.last() == Operation::NoOp {
            0nat
        } else {
            1nat
        }
    }
}

/// Whether step `k` of a script is faithful to the two sequences: a `NoOp`
/// pairs two equal tokens and a `Substitution` two different ones.
pub open spec fn faithful_at(
    ops: Seq<Operation>,
    x: Seq<Seq<char>>,
    y: Seq<Seq<char>>,
    k: int,
) -> bool {
    let a = taken_from_first(ops.take(k)) as int;
    let b = taken_from_second(ops.take(k)) as int;
    &&& ops[k] == Operation::NoOp ==> a < x.len() && b < y.len() && x[a] == y[b]
    &&& ops[k] == Operation::Substitution ==> a < x.len() && b < y.len() && x[a] != y[b]
}

/// Whether every step of a script is faithful to the two sequences.
pub open spec fn faithful(ops: Seq<Operation>, x: Seq<Seq<char>>, y: Seq<Seq<char>>) -> bool {
    forall|k: int| 0 <= k < ops.len() ==> #[trigger] faithful_at(ops, x, y, k)
}

/// A script that is faithful stays so without its last step.
pub proof fn lemma_faithful_prefix(ops: Seq<Operation>, x: Seq<Seq<char>>, y: Seq<Seq<char>>)
    requires
        ops.len() > 0,
        faithful(ops, x, y),
    ensures
        faithful(ops.drop_last(), x, y),
        faithful_at(ops, x, y, ops.len() - 1),
        ops.take(ops.len() - 1) == ops.drop_last(),
{
    let before = ops.drop_last();
    assert forall|k: int| 0 <= k < before.len() implies #[trigger] faithful_at(before, x, y, k) by {
        assert(faithful_at(ops, x, y, k));
        assert(ops.take(k) =~= before.take(k));
    }
    assert(ops.take(ops.len() - 1) =~= before);
}

/// A script that is faithful stays so with one more faithful step.
pub proof fn lemma_faithful_push(
    before: Seq<Operation>,
    op: Operation,
    x: Seq<Seq<char>>,
    y: Seq<Seq<char>>,
)
    requires
        faithful(before, x, y),
        faithful_at(before.push(op), x, y, before.len() as int),
    ensures
        faithful(before.push(op), x, y),
{
    let ops = before.push(op);
    assert forall|k: int| 0 <= k < ops.len() implies #[trigger] faithful_at(ops, x, y, k) by {
        if k < before.len() {
            assert(faithful_at(before, x, y, k));
            assert(ops.take(k) =~= before.take(k));
        }
    }
}

/// The edit distance between two prefixes is at most the length of the
/// longer one.
pub proof fn lemma_cost_bound(x: Seq<Seq<char>>, y: Seq<Seq<char>>, i: nat, j: nat)
    ensures
        cost(x, y, i, j) <= if i <= j {
            j
        } else {
            i
        },
    decreases i + j,
{
    if i > 0 && j > 0 {
        lemma_cost_bound(x, y, (i - 1) as nat, (j - 1) as nat);
    }
}

/// The edit script between two prefixes consumes exactly those prefixes,
/// changes as many tokens as the edit distance says, and is faithful.
pub proof fn lemma_script_total(x: Seq<Seq<char>>, y: Seq<Seq<char>>, i: nat, j: nat)
    requires
        i <= x.len(),
        j <= y.len(),
    ensures
        taken_from_first(script(x, y, i, j)) == i,
        taken_from_second(script(x, y, i, j)) == j,
        changes(script(x, y, i, j)) == cost(x, y, i, j),
        faithful(script(x, y, i, j), x, y),
    decreases i + j,
{
    if i > 0 || j > 0 {
        let op = last_step(x, y, i, j);
        let (pi, pj) = match op {
            Operation::NoOp => ((i - 1) as nat, (j - 1) as nat),
            Operation::Substitution => ((i - 1) as nat, (j - 1) as nat),
            Operation::Deletion => ((i - 1) as nat, j),
            Operation::Insertion => (i, (j - 1) as nat),
        };
        let before = script(x, y, pi, pj);
        lemma_script_total(x, y, pi, pj);
        assert(script(x, y, i, j) == before.push(op));
        assert(before.push(op).drop_last() =~= before);
        assert(before.push(op).take(before.len() as int) =~= before);
        lemma_faithful_push(before, op, x, y);
    }
}

/// Every step of the table costs at most one more than the entry it comes
/// from, and pairing two equal tokens costs nothing.
pub proof fn lemma_cost_steps(x: Seq<Seq<char>>, y: Seq<Seq<char>>, i: nat, j: nat)
    ensures
        i > 0 ==> cost(x, y, i, j) <= cost(x, y, (i - 1) as nat, j) + 1,
        j > 0 ==> cost(x, y, i, j) <= cost(x, y, i, (j - 1) as nat) + 1,
        i > 0 && j > 0 ==> cost(x, y, i, j) <= cost(x, y, (i - 1) as nat, (j - 1) as nat)
            + pairing_cost(x, y, i, j),
{
}

/// No faithful script changes fewer tokens than the edit distance between
/// the prefixes that it consumes: the edit script is a shortest one.
pub proof fn lemma_script_is_minimal(x: Seq<Seq<char>>, y: Seq<Seq<char>>, ops: Seq<Operation>)
    requires
        taken_from_first(ops) <= x.len(),
        taken_from_second(ops) <= y.len(),
        faithful(ops, x, y),
    ensures
        cost(x, y, taken_from_first(ops), taken_from_second(ops)) <= changes(ops),
    decreases ops.len(),
{
    if ops.len() > 0 {
        let before = ops.drop_last();
        lemma_faithful_prefix(ops, x, y);
        lemma_script_is_minimal(x, y, before);
        lemma_cost_steps(x, y, taken_from_first(ops), taken_from_second(ops));
    }
}

/// Between a sequence and itself the edit distance is zero, and the edit
/// script keeps every token.
pub proof fn lemma_script_of_same(x: Seq<Seq<char>>, i: nat)
    requires
        i <= x.len(),
    ensures
        cost(x, x, i, i) == 0,
        script(x, x, i, i).len() == i,
        forall|k: int| 0 <= k < i ==> #[trigger] script(x, x, i, i)[k] == Operation::NoOp,
    decreases i,
{
    if i > 0 {
        lemma_script_of_same(x, (i - 1) as nat);
    }
}

/// A script with every run of equal steps written once, with its length.
pub open spec fn coalesce(ops: Seq<Operation>) -> Seq<(Operation, nat)>
    decreases ops.len(),
{
    if ops.len() == 0 {
        Seq::empty()
    } else {
        let runs = coalesce(ops.drop_last());
        if runs.len() > 0 && runs.last().0 == ops.last() {
            runs.drop_last().push((ops.last(), runs.last().1 + 1))
        } else {
            runs.push((ops.last(), 1nat))
        }
    }
}

/// The script that a sequence of runs stands for: every run written out
/// step by step.
pub open spec fn expand(runs: Seq<(Operation, nat)>) -> Seq<Operation>
    decreases runs.len(),
{
    if runs.len() == 0 {
        Seq::empty()
    } else {
        expand(runs.drop_last()) + Seq::new(runs.last().1, |k: int| runs.last().0)
    }
}

/// Coalescing is run-length encoding: the runs, written out, are the
/// script; no run is empty; and no run continues the one before it.
pub proof fn lemma_coalesce(ops: Seq<Operation>)
    ensures
        expand(coalesce(ops)) == ops,
        forall|r: int| 0 <= r < coalesce(ops).len() ==> (#[trigger] coalesce(ops)[r]).1 > 0,
        forall|r: int|
            0 < r < coalesce(ops).len() ==> (#[trigger] coalesce(ops)[r]).0 != coalesce(ops)[r
                - 1].0,
        ops.len() > 0 ==> coalesce(ops).len() > 0 && coalesce(ops).last().0 == ops.last(),
    decreases ops.len(),
{
    if ops.len() > 0 {
        let op = ops.last();
        let before = coalesce(ops.drop_last());
        let runs = coalesce(ops);
        lemma_coalesce(ops.drop_last());
        if before.len() > 0 && before.last().0 == op {
            let count = before.last().1;
            assert(runs.drop_last() =~= before.drop_last());
            assert(Seq::new(count + 1, |k: int| op) =~= Seq::new(count, |k: int| op).push(op));
            assert(expand(runs) =~= expand(before).push(op));
            assert forall|r: int| 0 < r < runs.len() implies (#[trigger] runs[r]).0 != runs[r
                - 1].0 by {
                assert(runs[r].0 == before[r].0);
                assert(runs[r - 1] == before[r - 1]);
            }
        } else {
            assert(runs.drop_last() =~= before);
            assert(Seq::new(1, |k: int| op) =~= seq![op]);
            assert(expand(runs) =~= expand(before).push(op));
            assert forall|r: int| 0 < r < runs.len() implies (#[trigger] runs[r]).0 != runs[r
                - 1].0 by {
                if r < before.len() {
                    assert(runs[r] == before[r]);
                    assert(runs[r - 1] == before[r - 1]);
                }
            }
        }
        assert(expand(before).push(op) =~= ops);
    }
}

/// Whether every run keeps its tokens.
pub open spec fn all_noop(runs: Seq<(Operation, nat)>) -> bool {
    forall|k: int| 0 <= k < runs.len() ==> (#[trigger] runs[k]).0 == Operation::NoOp
}

/// A script that keeps every token has no run that does otherwise.
pub proof fn lemma_coalesce_unchanged(ops: Seq<Operation>)
    requires
        forall|k: int| 0 <= k < ops.len() ==> #[trigger] ops[k] == Operation::NoOp,
    ensures
        all_noop(coalesce(ops)),
    decreases ops.len(),
{
    if ops.len() > 0 {
        lemma_coalesce_unchanged(ops.drop_last());
    }
}

/// Runs as they are held in memory, seen as runs of any length.
pub open spec fn run_views(runs: Seq<(Operation, usize)>) -> Seq<(Operation, nat)> {
    runs.map_values(|run: (Operation, usize)| (run.0, run.1 as nat))
}

/// `ops` read from its last step to its first.
pub open spec fn backwards(ops: Seq<Operation>) -> Seq<Operation> {
    Seq::new(ops.len(), |k: int| ops[ops.len() - 1 - k])
}

/// Writes every run of equal steps once, with its length.
pub fn run_length_encode(ops: &Vec<Operation>) -> (runs: Vec<(Operation, usize)>)
    ensures
        run_views(runs@) == coalesce(ops@),
{
    let mut runs: Vec<(Operation, usize)> = Vec::new();
    let mut k: usize = 0;
    assert(ops@.take(0) =~= Seq::<Operation>::empty());
    assert(run_views(runs@) =~= coalesce(ops@.take(0)));
    while k < ops.len()
        invariant
            k <= ops.len(),
            run_views(runs@) == coalesce(ops@.take(k as int)),
            forall|r: int| 0 <= r < runs@.len() ==> (#[trigger] runs@[r]).1 <= k,
        decreases ops.len() - k,
    {
        let op = ops[k];
        let ghost before = runs@;
        proof {
            assert(ops@.take(k + 1).drop_last() =~= ops@.take(k as int));
            assert(ops@.take(k + 1).last() == op);
            if before.len() > 0 {
                assert(run_views(before).last() == (before.last().0, before.last().1 as nat));
            }
        }
        let n = runs.len();
        if n > 0 && runs[n - 1].0 == op {
            let count = runs[n - 1].1;
            runs.pop();
            runs.push((op, count + 1));
            assert(run_views(runs@) =~= run_views(before).drop_last().push(
                (op, (count + 1) as nat),
            ));
        } else {
            runs.push((op, 1));
            assert(run_views(runs@) =~= run_views(before).push((op, 1nat)));
        }
        k += 1;
    }
    assert(ops@.take(k as int) =~= ops@);
    runs
}

/// One cell of the table: the edit distance between two prefixes and the
/// last step of their edit script.
#[derive(Clone, Copy)]
struct Cell {
    cost: usize,
    operation: Operation,
}

/// Two token sequences together with the table of the edit distances
/// between their non-empty prefixes.
pub struct Alignment<'a> {
    x: Vec<&'a str>,
    y: Vec<&'a str>,
    table: Vec<Vec<Cell>>,
}

/// Whether a cell holds what belongs at column `i` of row `j`: the entry
/// for the first `i + 1` tokens of `x` and the first `j + 1` tokens of `y`.
spec fn cell_holds(cell: Cell, x: Seq<Seq<char>>, y: Seq<Seq<char>>, i: int, j: int) -> bool {
    &&& cell.cost == cost(x, y, (i + 1) as nat, (j + 1) as nat)
    &&& cell.operation == last_step(x, y, (i + 1) as nat, (j + 1) as nat)
}

/// Whether the first `upto` cells of a row are filled for row `j`.
spec fn row_holds(row: Seq<Cell>, x: Seq<Seq<char>>, y: Seq<Seq<char>>, j: int, upto: int) -> bool {
    forall|i: int| 0 <= i < upto ==> cell_holds(#[trigger] row[i], x, y, i, j)
}

/// The cell for the first `i + 1` tokens of `x` and the first `j + 1`
/// tokens of `y`, from the costs of the three entries that it can come from
/// and whether the last tokens of the two prefixes are equal.
fn best_cell(
    diagonal: usize,
    left: usize,
    above: usize,
    same: bool,
    Ghost(x): Ghost<Seq<Seq<char>>>,
    Ghost(y): Ghost<Seq<Seq<char>>>,
    Ghost(i): Ghost<int>,
    Ghost(j): Ghost<int>,
) -> (cell: Cell)
    requires
        0 <= i < usize::MAX,
        0 <= j < usize::MAX,
        diagonal == cost(x, y, i as nat, j as nat),
        left == cost(x, y, i as nat, (j + 1) as nat),
        above == cost(x, y, (i + 1) as nat, j as nat),
        same == (x[i] == y[j]),
    ensures
        cell_holds(cell, x, y, i, j),
{
    proof {
        lemma_cost_bound(x, y, i as nat, j as nat);
        lemma_cost_bound(x, y, (i + 1) as nat, (j + 1) as nat);
    }
    let paired: u128 = diagonal as u128 + if same {
        0u128
    } else {
        1u128
    };
    let deleted: u128 = left as u128 + 1;
    let inserted: u128 = above as u128 + 1;
    if paired <= deleted && paired <= inserted {
        Cell {
            cost: paired as usize,
            operation: if same {
                Operation::NoOp
            } else {
                Operation::Substitution
            },
        }
    } else if deleted <= inserted {
        Cell { cost: deleted as usize, operation: Operation::Deletion }
    } else {
        Cell { cost: inserted as usize, operation: Operation::Insertion }
    }
}

/// Fills row `j` of the table, given the row above it (which row 0 does
/// not have).
fn fill_row(x: &Vec<&str>, y: &Vec<&str>, j: usize, above: &Vec<Cell>) -> (row: Vec<Cell>)
    requires
        j < y.len(),
        j > 0 ==> above@.len() == x.len() && row_holds(
            above@,
            views(x@),
            views(y@),
            j - 1,
            x.len() as int,
        ),
    ensures
        row@.len() == x.len(),
        row_holds(row@, views(x@), views(y@), j as int, x.len() as int),
{
    let nx = x.len();
    let ghost xs = views(x@);
    let ghost ys = views(y@);
    let mut row: Vec<Cell> = Vec::new();
    let mut i: usize = 0;
    while i < nx
        invariant
            i <= nx,
            nx == x.len(),
            j < y.len(),
            xs == views(x@),
            ys == views(y@),
            j > 0 ==> above@.len() == nx && row_holds(above@, xs, ys, j - 1, nx as int),
            row@.len() == i,
            row_holds(row@, xs, ys, j as int, i as int),
        decreases nx - i,
    {
        let diagonal: usize = if i == 0 {
            j
        } else if j == 0 {
            i
        } else {
            assert(cell_holds(above@[i - 1], xs, ys, i - 1, j - 1));
            above[i - 1].cost
        };
        let over: usize = if j == 0 {
            i + 1
        } else {
            assert(cell_holds(above@[i as int], xs, ys, i as int, j - 1));
            above[i].cost
        };
        let left: usize = if i == 0 {
            j + 1
        } else {
            assert(cell_holds(row@[i - 1], xs, ys, i - 1, j as int));
            row[i - 1].cost
        };
        let same = same_text(x[i], y[j]);
        assert(xs[i as int] == x@[i as int]@);
        assert(ys[j as int] == y@[j as int]@);
        let cell = best_cell(
            diagonal,
            left,
            over,
            same,
            Ghost(xs),
            Ghost(ys),
            Ghost(i as int),
            Ghost(j as int),
        );
        let ghost before = row@;
        row.push(cell);
        assert forall|c: int| 0 <= c < i + 1 implies cell_holds(
            #[trigger] row@[c],
            xs,
            ys,
            c,
            j as int,
        ) by {
            if c < i {
                assert(row@[c] == before[c]);
            }
        }
        i += 1;
    }
    row
}

impl<'a> Alignment<'a> {
    /// The first token sequence.
    pub closed spec fn first(&self) -> Seq<Seq<char>> {
        views(self.x@)
    }

    /// The second token sequence.
    pub closed spec fn second(&self) -> Seq<Seq<char>> {
        views(self.y@)
    }

    /// The tokens of the first sequence.
    pub fn x(&self) -> (tokens: &Vec<&'a str>)
        ensures
            views(tokens@) == self.first(),
    {
        &self.x
    }

    /// The tokens of the second sequence.
    pub fn y(&self) -> (tokens: &Vec<&'a str>)
        ensures
            views(tokens@) == self.second(),
    {
        &self.y
    }

    /// The table has a row for every token of `y`, a column for every token
    /// of `x`, and every cell holds what belongs there.
    pub closed spec fn wf(&self) -> bool {
        &&& self.table@.len() == self.y@.len()
        &&& forall|j: int|
            0 <= j < self.table@.len() ==> {
                &&& (#[trigger] self.table@[j])@.len() == self.x@.len()
                &&& row_holds(self.table@[j]@, self.first(), self.second(), j, self.x@.len() as int)
            }
    }

    /// The edit script that turns `x` into `y`.
    pub open spec fn script(&self) -> Seq<Operation> {
        script(self.first(), self.second(), self.first().len(), self.second().len())
    }

    /// Aligns two token sequences.
    pub fn new(x: Vec<&'a str>, y: Vec<&'a str>) -> (alignment: Self)
        ensures
            alignment.wf(),
            alignment.first() == views(x@),
            alignment.second() == views(y@),
    {
        let ny = y.len();
        let mut table: Vec<Vec<Cell>> = Vec::new();
        let mut j: usize = 0;
        while j < ny
            invariant
                j <= ny,
                ny == y.len(),
                table@.len() == j,
                forall|r: int|
                    0 <= r < j ==> {
                        &&& (#[trigger] table@[r])@.len() == x.len()
                        &&& row_holds(table@[r]@, views(x@), views(y@), r, x.len() as int)
                    },
            decreases ny - j,
        {
            let row = if j == 0 {
                fill_row(&x, &y, j, &Vec::new())
            } else {
                fill_row(&x, &y, j, &table[j - 1])
            };
            table.push(row);
            j += 1;
        }
        Alignment { x, y, table }
    }

    /// The edit script that turns `x` into `y`, step by step.
    pub fn operations(&self) -> (ops: Vec<Operation>)
        requires
            self.wf(),
        ensures
            ops@ == self.script(),
    {
        let ghost xs = self.first();
        let ghost ys = self.second();
        let mut reversed: Vec<Operation> = Vec::new();
        let mut i: usize = self.x.len();
        let mut j: usize = self.y.len();
        assert(self.script() =~= script(xs, ys, i as nat, j as nat) + backwards(reversed@));
        while i > 0 || j > 0
            invariant
                self.wf(),
                xs == self.first(),
                ys == self.second(),
                i <= self.x@.len(),
                j <= self.y@.len(),
                self.script() == script(xs, ys, i as nat, j as nat) + backwards(reversed@),
            decreases i + j,
        {
            let ghost before = reversed@;
            let ghost pi = i;
            let ghost pj = j;
            let op = if i == 0 {
                Operation::Insertion
            } else if j == 0 {
                Operation::Deletion
            } else {
                assert(row_holds(self.table@[j - 1]@, xs, ys, j - 1, self.x@.len() as int));
                self.table[j - 1][i - 1].operation
            };
            assert(op == last_step(xs, ys, i as nat, j as nat));
            reversed.push(op);
            match op {
                Operation::NoOp => {
                    i -= 1;
                    j -= 1;
                },
                Operation::Substitution => {
                    i -= 1;
                    j -= 1;
                },
                Operation::Deletion => {
                    i -= 1;
                },
                Operation::Insertion => {
                    j -= 1;
                },
            }
            assert(script(xs, ys, pi as nat, pj as nat) == script(xs, ys, i as nat, j as nat).push(
                op,
            ));
            assert(backwards(reversed@) =~= seq![op] + backwards(before));
            assert(script(xs, ys, i as nat, j as nat) + backwards(reversed@) =~= script(
                xs,
                ys,
                pi as nat,
                pj as nat,
            ) + backwards(before));
        }
        assert(script(xs, ys, 0, 0) + backwards(reversed@) =~= backwards(reversed@));
        let mut ops: Vec<Operation> = Vec::new();
        let mut k: usize = reversed.len();
        while k > 0
            invariant
                k <= reversed.len(),
                ops@.len() == reversed.len() - k,
                forall|n: int| 0 <= n < ops@.len() ==> ops@[n] == reversed@[reversed.len() - 1 - n],
            decreases k,
        {
            k -= 1;
            ops.push(reversed[k]);
        }
        assert(ops@ =~= backwards(reversed@));
        ops
    }

    /// The edit script that turns `x` into `y`, run by run.
    pub fn coalesced_operations(&self) -> (runs: Vec<(Operation, usize)>)
        requires
            self.wf(),
        ensures
            run_views(runs@) == coalesce(self.script()),
    {
        let ops = self.operations();
        run_length_encode(&ops)
    }

    /// The number of steps of the edit script that change a token, and the
    /// number of all its steps.
    pub fn distance_parts(&self) -> (parts: (usize, usize))
        requires
            self.wf(),
        ensures
            parts.0 == changes(self.script()),
            parts.1 == self.script().len(),
    {
        let ops = self.operations();
        let mut changed: usize = 0;
        let mut k: usize = 0;
        assert(ops@.take(0) =~= Seq::<Operation>::empty());
        while k < ops.len()
            invariant
                k <= ops.len(),
                changed <= k,
                changed == changes(ops@.take(k as int)),
            decreases ops.len() - k,
        {
            assert(ops@.take(k + 1).drop_last() =~= ops@.take(k as int));
            if ops[k] != Operation::NoOp {
                changed += 1;
            }
            k += 1;
        }
        assert(ops@.take(k as int) =~= ops@);
        (changed, ops.len())
    }
}

} // verus!
