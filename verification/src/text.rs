//! Characters, strings and the few facts about Unicode text that the rest
//! of the library relies on.

use unicode_segmentation::UnicodeSegmentation;
use vstd::prelude::*;
use vstd::utf8::{encode_utf8, encode_utf8_decode_utf8};

verus! {

/// The views of a sequence of string slices.
pub open spec fn views(pieces: Seq<&str>) -> Seq<Seq<char>> {
    pieces.map_values(|piece: &str| piece@)
}

/// The characters that delimit tokens.
pub open spec fn is_separator(c: char) -> bool {
    c == ' ' || c == ',' || c == ';' || c == '.' || c == ':' || c == '(' || c == ')' || c == '['
        || c == ']' || c == '<' || c == '>'
}

/// Every separator is an ASCII character: none is part of a longer
/// character, and none combines with the character before it.
pub proof fn lemma_separators_are_ascii(c: char)
    requires
        is_separator(c),
    ensures
        (c as u32) < 128,
{
}

/// Decides whether a character is a separator.
pub fn is_separator_char(c: char) -> (b: bool)
    ensures
        b == is_separator(c),
{
    c == ' ' || c == ',' || c == ';' || c == '.' || c == ':' || c == '(' || c == ')' || c == '['
        || c == ']' || c == '<' || c == '>'
}

/// Whether two string slices hold the same text.
pub fn same_text(a: &str, b: &str) -> (same: bool)
    ensures
        same == (a@ == b@),
{
    let a_bytes = a.as_bytes();
    let b_bytes = b.as_bytes();
    proof {
        encode_utf8_decode_utf8(a@);
        encode_utf8_decode_utf8(b@);
    }
    if a_bytes.len() != b_bytes.len() {
        return false;
    }
    let mut i: usize = 0;
    while i < a_bytes.len()
        invariant
            i <= a_bytes.len(),
            a_bytes.len() == b_bytes.len(),
            a_bytes@ == encode_utf8(a@),
            b_bytes@ == encode_utf8(b@),
            forall|k: int| 0 <= k < i ==> a_bytes@[k] == b_bytes@[k],
        decreases a_bytes.len() - i,
    {
        if a_bytes[i] != b_bytes[i] {
            return false;
        }
        i += 1;
    }
    assert(a_bytes@ =~= b_bytes@);
    true
}

/// The characters of a string slice, in order.
pub fn chars_of(s: &str) -> (chars: Vec<char>)
    ensures
        chars@ == s@,
{
    broadcast use vstd::string::group_string_axioms;

    let mut chars: Vec<char> = Vec::new();
    for c in it: s.chars()
        invariant
            it.seq() == s@,
            chars@ == s@.take(it.index()),
    {
        chars.push(c);
        assert(s@.take(it.index() + 1) =~= s@.take(it.index()).push(c));
    }
    assert(s@.take(s@.len() as int) =~= s@);
    chars
}

/// Whether a character is white space in the sense of the Unicode property
/// `White_Space`, as `char::is_whitespace` decides it.
pub uninterp spec fn white_space(c: char) -> bool;

/// Calls `char::is_whitespace`. The contract only gives the answer its
/// name, so that two questions about the same character agree.
#[verifier::external_body]
fn is_white_space(c: char) -> (b: bool)
    ensures
        b == white_space(c),
{
    c.is_whitespace()
}

/// The number of white-space characters at the start of `s`.
pub open spec fn leading_space(s: Seq<char>) -> nat
    decreases s.len(),
{
    if s.len() > 0 && white_space(s.first()) {
        1 + leading_space(s.drop_first())
    } else {
        0
    }
}

/// The number of white-space characters at the end of `s`.
pub open spec fn trailing_space(s: Seq<char>) -> nat
    decreases s.len(),
{
    if s.len() > 0 && white_space(s.last()) {
        1 + trailing_space(s.drop_last())
    } else {
        0
    }
}

/// `s` without its leading and trailing white space.
pub open spec fn trimmed(s: Seq<char>) -> Seq<char> {
    let rest = s.skip(leading_space(s) as int);
    rest.take(rest.len() - trailing_space(rest))
}

/// The leading white space ends at the first character that is none.
pub proof fn lemma_leading_space(s: Seq<char>, a: int)
    requires
        0 <= a <= s.len(),
        forall|k: int| 0 <= k < a ==> white_space(#[trigger] s[k]),
        a < s.len() ==> !white_space(s[a]),
    ensures
        leading_space(s) == a,
    decreases s.len(),
{
    if a > 0 {
        let rest = s.drop_first();
        assert forall|k: int| 0 <= k < a - 1 implies white_space(#[trigger] rest[k]) by {
            assert(rest[k] == s[k + 1]);
        }
        lemma_leading_space(rest, a - 1);
    }
}

/// The trailing white space begins after the last character that is none.
pub proof fn lemma_trailing_space(s: Seq<char>, b: int)
    requires
        0 <= b <= s.len(),
        forall|k: int| b <= k < s.len() ==> white_space(#[trigger] s[k]),
        b > 0 ==> !white_space(s[b - 1]),
    ensures
        trailing_space(s) == s.len() - b,
    decreases s.len(),
{
    if b < s.len() {
        let rest = s.drop_last();
        assert forall|k: int| b <= k < rest.len() implies white_space(#[trigger] rest[k]) by {
            assert(rest[k] == s[k]);
        }
        lemma_trailing_space(rest, b);
    }
}

/// Trimming does not lengthen a text.
pub proof fn lemma_trimmed_len(s: Seq<char>)
    ensures
        trimmed(s).len() <= s.len(),
{
    lemma_leading_space_bound(s);
    let rest = s.skip(leading_space(s) as int);
    lemma_trailing_space_bound(rest);
}

/// A text has no more leading white space than characters.
pub proof fn lemma_leading_space_bound(s: Seq<char>)
    ensures
        leading_space(s) <= s.len(),
    decreases s.len(),
{
    if s.len() > 0 && white_space(s.first()) {
        lemma_leading_space_bound(s.drop_first());
    }
}

/// A text has no more trailing white space than characters.
pub proof fn lemma_trailing_space_bound(s: Seq<char>)
    ensures
        trailing_space(s) <= s.len(),
    decreases s.len(),
{
    if s.len() > 0 && white_space(s.last()) {
        lemma_trailing_space_bound(s.drop_last());
    }
}

/// `s` without its leading and trailing white space, as a slice of `s`.
pub fn trim<'a>(s: &'a str) -> (r: &'a str)
    ensures
        r@ == trimmed(s@),
{
    let chars = chars_of(s);
    let n = chars.len();
    let mut a: usize = 0;
    while a < n && is_white_space(chars[a])
        invariant
            a <= n,
            n == chars.len(),
            forall|k: int| 0 <= k < a ==> white_space(#[trigger] chars@[k]),
        decreases n - a,
    {
        a += 1;
    }
    let mut b: usize = n;
    while b > a && is_white_space(chars[b - 1])
        invariant
            a <= b <= n,
            n == chars.len(),
            forall|k: int| b <= k < n ==> white_space(#[trigger] chars@[k]),
        decreases b,
    {
        b -= 1;
    }
    proof {
        lemma_leading_space(s@, a as int);
        let rest = s@.skip(a as int);
        assert forall|k: int| b - a <= k < rest.len() implies white_space(#[trigger] rest[k]) by {
            assert(rest[k] == chars@[k + a]);
        }
        lemma_trailing_space(rest, b - a);
        assert(rest.take(b - a) =~= s@.subrange(a as int, b as int));
    }
    s.substring_char(a, b)
}

/// The extended grapheme clusters of `s`, in order, as the Unicode text
/// segmentation rules delimit them.
pub uninterp spec fn grapheme_clusters(s: Seq<char>) -> Seq<Seq<char>>;

/// Calls `UnicodeSegmentation::graphemes` for extended clusters and
/// collects what it yields. The contract names the result and states what
/// the iterator's source shows of every string: each cluster is a non-empty
/// slice that starts where the one before it ended, and the last one ends
/// where the string ends.
#[verifier::external_body]
fn split_graphemes<'a>(s: &'a str) -> (pieces: Vec<&'a str>)
    ensures
        views(pieces@) == grapheme_clusters(s@),
        views(pieces@).flatten() == s@,
        forall|i: int| 0 <= i < pieces@.len() ==> (#[trigger] pieces@[i])@.len() > 0,
{
    s.graphemes(true).collect()
}

/// What a section of a line weighs in the distance between two lines: the
/// number of grapheme clusters that are left of it once the white space
/// around it is trimmed.
pub open spec fn weight(section: Seq<char>) -> nat {
    grapheme_clusters(trimmed(section)).len()
}

/// A sequence of non-empty pieces is no longer than their concatenation.
pub proof fn lemma_pieces_len(pieces: Seq<Seq<char>>)
    requires
        forall|i: int| 0 <= i < pieces.len() ==> (#[trigger] pieces[i]).len() > 0,
    ensures
        pieces.len() <= pieces.flatten().len(),
        pieces.len() == 0 <==> pieces.flatten().len() == 0,
    decreases pieces.len(),
{
    if pieces.len() > 0 {
        lemma_pieces_len(pieces.drop_first());
    }
}

/// Computes the weight of a section. A section weighs nothing exactly when
/// it holds nothing but white space, and never more than its length.
pub fn weigh(section: &str) -> (n: usize)
    ensures
        n == weight(section@),
        n <= section@.len(),
        n == 0 <==> trimmed(section@).len() == 0,
{
    let pieces = split_graphemes(trim(section));
    proof {
        lemma_pieces_len(views(pieces@));
        lemma_trimmed_len(section@);
    }
    pieces.len()
}

} // verus!
