//! Which minus line is paired with which plus line.
//!
//! The pairing is greedy and keeps the order of both sides: the minus lines
//! are taken in order, and each is paired with the first plus line, among
//! those that no earlier minus line has passed, whose distance from it is
//! within the limit.

use crate::align::{coalesce, lemma_coalesce_unchanged, lemma_script_of_same, script, Operation};
use crate::distance::{at_most, fraction, Ratio};
use crate::tokens::tokens;
use crate::sections::{changed_weight, lemma_unchanged_weighs_nothing, total_weight};
use vstd::prelude::*;

verus! {

/// The coalesced edit script between the tokens of two lines.
pub open spec fn line_runs(minus: Seq<char>, plus: Seq<char>) -> Seq<(Operation, nat)> {
    let x = tokens(minus);
    let y = tokens(plus);
    coalesce(script(x, y, x.len(), y.len()))
}

/// The distance between two lines, as numerator and denominator.
pub open spec fn line_distance(minus: Seq<char>, plus: Seq<char>) -> (nat, nat) {
    let runs = line_runs(minus, plus);
    fraction(
        changed_weight(runs, tokens(minus), tokens(plus)),
        total_weight(runs, tokens(minus), tokens(plus)),
    )
}

/// Whether two lines are close enough to count as one line, edited.
pub open spec fn homologous(minus: Seq<char>, plus: Seq<char>, limit: Ratio) -> bool {
    at_most(line_distance(minus, plus).0, line_distance(minus, plus).1, limit)
}

/// The first plus line at or after index `from` that is homologous to
/// `minus`, if there is one.
pub open spec fn first_homolog(
    minus: Seq<char>,
    plus_lines: Seq<Seq<char>>,
    from: int,
    limit: Ratio,
) -> Option<int>
    decreases plus_lines.len() - from,
{
    if from < 0 || from >= plus_lines.len() {
        None
    } else if homologous(minus, plus_lines[from], limit) {
        Some(from)
    } else {
        first_homolog(minus, plus_lines, from + 1, limit)
    }
}

/// The number of plus lines that are passed once the first `k` minus lines
/// have been dealt with: those up to and including the last one paired.
pub open spec fn passed(
    minus_lines: Seq<Seq<char>>,
    plus_lines: Seq<Seq<char>>,
    limit: Ratio,
    k: nat,
) -> int
    decreases k,
{
    if k == 0 {
        0
    } else {
        let before = passed(minus_lines, plus_lines, limit, (k - 1) as nat);
        match first_homolog(minus_lines[k - 1], plus_lines, before, limit) {
            Some(j) => j + 1,
            None => before,
        }
    }
}

/// The plus line that minus line `i` is paired with, if any.
pub open spec fn homolog(
    minus_lines: Seq<Seq<char>>,
    plus_lines: Seq<Seq<char>>,
    limit: Ratio,
    i: int,
) -> Option<int> {
    first_homolog(minus_lines[i], plus_lines, passed(minus_lines, plus_lines, limit, i as nat), limit)
}

/// The minus line, among the first `k`, that plus line `j` is paired with,
/// if any.
pub open spec fn partner(
    minus_lines: Seq<Seq<char>>,
    plus_lines: Seq<Seq<char>>,
    limit: Ratio,
    j: int,
    k: nat,
) -> Option<int>
    decreases k,
{
    if k == 0 {
        None
    } else if homolog(minus_lines, plus_lines, limit, k - 1) == Some(j) {
        Some(k - 1)
    } else {
        partner(minus_lines, plus_lines, limit, j, (k - 1) as nat)
    }
}

/// What the first homolog is: a homologous plus line at or after `from`
/// with no homologous plus line between `from` and it.
pub proof fn lemma_first_homolog(
    minus: Seq<char>,
    plus_lines: Seq<Seq<char>>,
    from: int,
    limit: Ratio,
)
    requires
        0 <= from,
    ensures
        match first_homolog(minus, plus_lines, from, limit) {
            Some(j) => {
                &&& from <= j < plus_lines.len()
                &&& homologous(minus, plus_lines[j], limit)
                &&& forall|c: int| from <= c < j ==> !homologous(minus, #[trigger] plus_lines[c], limit)
            },
            None => forall|c: int|
                from <= c < plus_lines.len() ==> !homologous(minus, #[trigger] plus_lines[c], limit),
        },
    decreases plus_lines.len() - from,
{
    if from < plus_lines.len() && !homologous(minus, plus_lines[from], limit) {
        lemma_first_homolog(minus, plus_lines, from + 1, limit);
    }
}

/// The first plus line found homologous is the first homolog.
pub proof fn lemma_first_homolog_found(
    minus: Seq<char>,
    plus_lines: Seq<Seq<char>>,
    from: int,
    limit: Ratio,
    j: int,
)
    requires
        0 <= from <= j,
        j < plus_lines.len() ==> homologous(minus, plus_lines[j], limit),
        forall|c: int| from <= c < j && c < plus_lines.len() ==> !homologous(
            minus,
            #[trigger] plus_lines[c],
            limit,
        ),
    ensures
        first_homolog(minus, plus_lines, from, limit) == if j < plus_lines.len() {
            Some(j)
        } else {
            None
        },
    decreases plus_lines.len() - from,
{
    if from < plus_lines.len() && from < j {
        lemma_first_homolog_found(minus, plus_lines, from + 1, limit, j);
    }
}

/// The plus lines passed grow with the minus lines dealt with, and never
/// exceed the plus lines there are.
pub proof fn lemma_passed_grows(
    minus_lines: Seq<Seq<char>>,
    plus_lines: Seq<Seq<char>>,
    limit: Ratio,
    k1: nat,
    k2: nat,
)
    requires
        k1 <= k2,
    ensures
        0 <= passed(minus_lines, plus_lines, limit, k1) <= passed(
            minus_lines,
            plus_lines,
            limit,
            k2,
        ) <= plus_lines.len(),
    decreases k2,
{
    if k2 > 0 {
        let before = passed(minus_lines, plus_lines, limit, (k2 - 1) as nat);
        if k1 < k2 {
            lemma_passed_grows(minus_lines, plus_lines, limit, k1, (k2 - 1) as nat);
        } else {
            lemma_passed_grows(minus_lines, plus_lines, limit, (k2 - 1) as nat, (k2 - 1) as nat);
        }
        lemma_first_homolog(minus_lines[k2 - 1], plus_lines, before, limit);
    }
}

/// A paired minus line's homolog lies among the plus lines that it passes.
pub proof fn lemma_homolog_position(
    minus_lines: Seq<Seq<char>>,
    plus_lines: Seq<Seq<char>>,
    limit: Ratio,
    i: int,
)
    requires
        0 <= i,
        homolog(minus_lines, plus_lines, limit, i) is Some,
    ensures
        passed(minus_lines, plus_lines, limit, i as nat) <= homolog(
            minus_lines,
            plus_lines,
            limit,
            i,
        )->0 < plus_lines.len(),
        passed(minus_lines, plus_lines, limit, (i + 1) as nat) == homolog(
            minus_lines,
            plus_lines,
            limit,
            i,
        )->0 + 1,
{
    lemma_passed_grows(minus_lines, plus_lines, limit, i as nat, i as nat);
    lemma_first_homolog(
        minus_lines[i],
        plus_lines,
        passed(minus_lines, plus_lines, limit, i as nat),
        limit,
    );
}

/// Pairing keeps the order of the lines: if a minus line is paired with a
/// plus line, every later minus line that is paired is paired with a later
/// plus line.
pub proof fn lemma_pairing_is_monotonic(
    minus_lines: Seq<Seq<char>>,
    plus_lines: Seq<Seq<char>>,
    limit: Ratio,
    i1: int,
    i2: int,
)
    requires
        0 <= i1 < i2,
        homolog(minus_lines, plus_lines, limit, i1) is Some,
        homolog(minus_lines, plus_lines, limit, i2) is Some,
    ensures
        homolog(minus_lines, plus_lines, limit, i1)->0 < homolog(
            minus_lines,
            plus_lines,
            limit,
            i2,
        )->0,
{
    lemma_homolog_position(minus_lines, plus_lines, limit, i1);
    lemma_homolog_position(minus_lines, plus_lines, limit, i2);
    lemma_passed_grows(minus_lines, plus_lines, limit, (i1 + 1) as nat, i2 as nat);
}

/// No plus line is paired with two minus lines.
pub proof fn lemma_pairing_is_one_to_one(
    minus_lines: Seq<Seq<char>>,
    plus_lines: Seq<Seq<char>>,
    limit: Ratio,
    i1: int,
    i2: int,
)
    requires
        0 <= i1,
        0 <= i2,
        homolog(minus_lines, plus_lines, limit, i1) is Some,
        homolog(minus_lines, plus_lines, limit, i1) == homolog(minus_lines, plus_lines, limit, i2),
    ensures
        i1 == i2,
{
    if i1 < i2 {
        lemma_pairing_is_monotonic(minus_lines, plus_lines, limit, i1, i2);
    } else if i2 < i1 {
        lemma_pairing_is_monotonic(minus_lines, plus_lines, limit, i2, i1);
    }
}

/// A plus line that the first `k` minus lines have not passed is paired
/// with none of them.
pub proof fn lemma_partner_none(
    minus_lines: Seq<Seq<char>>,
    plus_lines: Seq<Seq<char>>,
    limit: Ratio,
    j: int,
    k: nat,
)
    requires
        passed(minus_lines, plus_lines, limit, k) <= j,
    ensures
        partner(minus_lines, plus_lines, limit, j, k) is None,
    decreases k,
{
    if k > 0 {
        lemma_passed_grows(minus_lines, plus_lines, limit, (k - 1) as nat, k);
        if homolog(minus_lines, plus_lines, limit, k - 1) is Some {
            lemma_homolog_position(minus_lines, plus_lines, limit, k - 1);
        }
        lemma_partner_none(minus_lines, plus_lines, limit, j, (k - 1) as nat);
    }
}

/// Whether a plus line that the first `k` minus lines have passed is
/// paired, and with which minus line, is settled by those: no later minus
/// line is paired with it.
pub proof fn lemma_partner_settled(
    minus_lines: Seq<Seq<char>>,
    plus_lines: Seq<Seq<char>>,
    limit: Ratio,
    j: int,
    k: nat,
    n: nat,
)
    requires
        k <= n,
        j < passed(minus_lines, plus_lines, limit, k),
    ensures
        partner(minus_lines, plus_lines, limit, j, n) == partner(
            minus_lines,
            plus_lines,
            limit,
            j,
            k,
        ),
    decreases n,
{
    if k < n {
        lemma_passed_grows(minus_lines, plus_lines, limit, k, (n - 1) as nat);
        if homolog(minus_lines, plus_lines, limit, n - 1) is Some {
            lemma_homolog_position(minus_lines, plus_lines, limit, n - 1);
        }
        lemma_partner_settled(minus_lines, plus_lines, limit, j, k, (n - 1) as nat);
    }
}

/// A plus line's partner is a minus line whose homolog it is.
pub proof fn lemma_partner(
    minus_lines: Seq<Seq<char>>,
    plus_lines: Seq<Seq<char>>,
    limit: Ratio,
    j: int,
    k: nat,
)
    ensures
        match partner(minus_lines, plus_lines, limit, j, k) {
            Some(i) => 0 <= i < k && homolog(minus_lines, plus_lines, limit, i) == Some(j),
            None => forall|i: int|
                0 <= i < k ==> #[trigger] homolog(minus_lines, plus_lines, limit, i) != Some(j),
        },
    decreases k,
{
    if k > 0 {
        lemma_partner(minus_lines, plus_lines, limit, j, (k - 1) as nat);
    }
}

/// Whether limit `high` is at least limit `low`, for two limits with
/// positive denominators.
pub open spec fn raised(low: Ratio, high: Ratio) -> bool {
    &&& low.denom > 0
    &&& high.denom > 0
    &&& low.numer * high.denom <= high.numer * low.denom
}

/// A fraction that is within a limit is within every higher limit.
pub proof fn lemma_at_most_raised(numer: nat, denom: nat, low: Ratio, high: Ratio)
    requires
        raised(low, high),
        at_most(numer, denom, low),
    ensures
        at_most(numer, denom, high),
{
    let n = numer as int;
    let d = denom as int;
    let ln = low.numer as int;
    let ld = low.denom as int;
    let hn = high.numer as int;
    let hd = high.denom as int;
    assert(n * hd <= hn * d) by (nonlinear_arith)
        requires
            n * ld <= ln * d,
            ln * hd <= hn * ld,
            ld > 0,
            hd > 0,
            d >= 0,
            n >= 0,
    {
        assert((n * ld) * hd <= (ln * d) * hd);
        assert((ln * hd) * d <= (hn * ld) * d);
        assert((n * hd) * ld <= (hn * d) * ld);
    }
}

/// Two lines that are homologous under a limit are homologous under every
/// higher limit.
pub proof fn lemma_homologous_raised(minus: Seq<char>, plus: Seq<char>, low: Ratio, high: Ratio)
    requires
        raised(low, high),
        homologous(minus, plus, low),
    ensures
        homologous(minus, plus, high),
{
    lemma_at_most_raised(line_distance(minus, plus).0, line_distance(minus, plus).1, low, high);
}

/// A search that finds a homolog under a limit finds one under every
/// higher limit, and no later one, provided it starts no later.
pub proof fn lemma_first_homolog_raised(
    minus: Seq<char>,
    plus_lines: Seq<Seq<char>>,
    from_low: int,
    from_high: int,
    low: Ratio,
    high: Ratio,
)
    requires
        raised(low, high),
        0 <= from_high <= from_low,
        first_homolog(minus, plus_lines, from_low, low) is Some,
    ensures
        first_homolog(minus, plus_lines, from_high, high) is Some,
        first_homolog(minus, plus_lines, from_high, high)->0 <= first_homolog(
            minus,
            plus_lines,
            from_low,
            low,
        )->0,
{
    let j = first_homolog(minus, plus_lines, from_low, low)->0;
    lemma_first_homolog(minus, plus_lines, from_low, low);
    lemma_first_homolog(minus, plus_lines, from_high, high);
    lemma_homologous_raised(minus, plus_lines[j], low, high);
}

/// Raising the limit keeps a minus line paired, with the same plus line or
/// an earlier one, as long as the earlier minus lines have passed no more
/// plus lines under the higher limit than under the lower one. (Where they
/// have passed more, a plus line that the minus line was paired with may
/// already be taken: the pairing is greedy.)
pub proof fn lemma_raising_limit_keeps_pairs(
    minus_lines: Seq<Seq<char>>,
    plus_lines: Seq<Seq<char>>,
    low: Ratio,
    high: Ratio,
    i: int,
)
    requires
        raised(low, high),
        0 <= i,
        passed(minus_lines, plus_lines, high, i as nat) <= passed(
            minus_lines,
            plus_lines,
            low,
            i as nat,
        ),
        homolog(minus_lines, plus_lines, low, i) is Some,
    ensures
        homolog(minus_lines, plus_lines, high, i) is Some,
        homolog(minus_lines, plus_lines, high, i)->0 <= homolog(minus_lines, plus_lines, low, i)->0,
{
    lemma_passed_grows(minus_lines, plus_lines, high, i as nat, i as nat);
    lemma_first_homolog_raised(
        minus_lines[i],
        plus_lines,
        passed(minus_lines, plus_lines, low, i as nat),
        passed(minus_lines, plus_lines, high, i as nat),
        low,
        high,
    );
}

/// Raising the limit never unpairs the first minus line.
pub proof fn lemma_raising_limit_keeps_first_pair(
    minus_lines: Seq<Seq<char>>,
    plus_lines: Seq<Seq<char>>,
    low: Ratio,
    high: Ratio,
)
    requires
        raised(low, high),
        homolog(minus_lines, plus_lines, low, 0) is Some,
    ensures
        homolog(minus_lines, plus_lines, high, 0) is Some,
        homolog(minus_lines, plus_lines, high, 0)->0 <= homolog(minus_lines, plus_lines, low, 0)->0,
{
    lemma_raising_limit_keeps_pairs(minus_lines, plus_lines, low, high, 0);
}

/// Where none of the first `k` minus lines is paired, no plus line is
/// passed.
pub proof fn lemma_passed_nothing(
    minus_lines: Seq<Seq<char>>,
    plus_lines: Seq<Seq<char>>,
    limit: Ratio,
    k: nat,
)
    requires
        forall|i: int| 0 <= i < k ==> #[trigger] homolog(minus_lines, plus_lines, limit, i) is None,
    ensures
        passed(minus_lines, plus_lines, limit, k) == 0,
    decreases k,
{
    if k > 0 {
        lemma_passed_nothing(minus_lines, plus_lines, limit, (k - 1) as nat);
        assert(homolog(minus_lines, plus_lines, limit, k - 1) is None);
    }
}

/// Raising the limit never leaves a block without pairs that had one:
/// where a minus line is paired under the lower limit, that line or an
/// earlier one is paired under the higher limit.
pub proof fn lemma_raising_limit_keeps_some_pair(
    minus_lines: Seq<Seq<char>>,
    plus_lines: Seq<Seq<char>>,
    low: Ratio,
    high: Ratio,
    i: int,
)
    requires
        raised(low, high),
        0 <= i,
        homolog(minus_lines, plus_lines, low, i) is Some,
    ensures
        exists|earlier: int|
            0 <= earlier <= i && #[trigger] homolog(minus_lines, plus_lines, high, earlier) is Some,
{
    if forall|earlier: int|
        0 <= earlier < i ==> #[trigger] homolog(minus_lines, plus_lines, high, earlier) is None {
        lemma_passed_nothing(minus_lines, plus_lines, high, i as nat);
        lemma_passed_grows(minus_lines, plus_lines, low, i as nat, i as nat);
        lemma_raising_limit_keeps_pairs(minus_lines, plus_lines, low, high, i);
        assert(homolog(minus_lines, plus_lines, high, i) is Some);
    }
}

/// A line is at distance zero from itself, and so homologous to itself
/// under every limit that is not negative.
pub proof fn lemma_same_line_is_homologous(line: Seq<char>, limit: Ratio)
    requires
        limit.numer >= 0,
    ensures
        line_distance(line, line).0 == 0,
        homologous(line, line, limit),
{
    let x = tokens(line);
    lemma_script_of_same(x, x.len());
    lemma_coalesce_unchanged(script(x, x, x.len(), x.len()));
    lemma_unchanged_weighs_nothing(line_runs(line, line), x, x);
    let denom = line_distance(line, line).1 as int;
    let numer = limit.numer as int;
    assert(0 <= numer * denom) by (nonlinear_arith)
        requires
            numer >= 0,
            denom >= 0,
    ;
}

} // verus!
