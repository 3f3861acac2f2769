//! The mathematical model of the formatter: what one pass over a text
//! emits, and how the indentation level evolves.

use vstd::prelude::*;

verus! {

/// One indent unit: four spaces.
pub open spec fn tab() -> Seq<char> {
    seq![' ', ' ', ' ', ' ']
}

/// The characters that open a bracketed group.
pub open spec fn is_opener(c: char) -> bool {
    c == '(' || c == '[' || c == '{'
}

/// The characters that close a bracketed group.  The kind is never
/// matched against its opener: any closer ends the innermost group.
pub open spec fn is_closer(c: char) -> bool {
    c == ')' || c == ']' || c == '}'
}

/// The characters the formatter reacts to; everything else passes through.
pub open spec fn is_structural(c: char) -> bool {
    is_opener(c) || is_closer(c) || c == ','
}

/// `level` copies of the indent unit.
pub open spec fn indent(level: nat) -> Seq<char>
    decreases level,
{
    if level == 0 {
        Seq::empty()
    } else {
        indent((level - 1) as nat) + tab()
    }
}

/// The indentation level after one character, seen at `level`.  A closer
/// met with the level already at zero is outside the formatter's
/// contract; the level is clamped there so that the function stays total.
pub open spec fn level_step(c: char, level: nat) -> nat {
    if is_opener(c) {
        level + 1
    } else if is_closer(c) {
        if level > 0 {
            (level - 1) as nat
        } else {
            0
        }
    } else {
        level
    }
}

/// The indentation level after a whole text, starting from `level`.
pub open spec fn level_after(s: Seq<char>, level: nat) -> nat
    decreases s.len(),
{
    if s.len() == 0 {
        level
    } else {
        level_step(s.last(), level_after(s.drop_last(), level))
    }
}

/// What the formatter emits for one character seen at `level`:
/// an opener starts a line one level deeper, a closer breaks the line
/// and returns to the enclosing level before printing itself, a comma
/// breaks the line at the current level, anything else is copied.
pub open spec fn emitted(c: char, level: nat) -> Seq<char> {
    if is_opener(c) {
        seq![c, '\n'] + indent(level + 1)
    } else if is_closer(c) {
        seq!['\n'] + indent(if level > 0 { (level - 1) as nat } else { 0 }) + seq![c]
    } else if c == ',' {
        seq![c, '\n'] + indent(level)
    } else {
        seq![c]
    }
}

/// The whole output of the pass over `s`, started at `level`.
pub open spec fn pretty_from(s: Seq<char>, level: nat) -> Seq<char>
    decreases s.len(),
{
    if s.len() == 0 {
        Seq::empty()
    } else {
        pretty_from(s.drop_last(), level) + emitted(
            s.last(),
            level_after(s.drop_last(), level),
        )
    }
}

/// The formatter's result on a whole text.
pub open spec fn prettified(s: Seq<char>) -> Seq<char> {
    pretty_from(s, 0)
}

/// How many opening brackets `s` holds.
pub open spec fn opener_count(s: Seq<char>) -> nat
    decreases s.len(),
{
    if s.len() == 0 {
        0
    } else {
        opener_count(s.drop_last()) + if is_opener(s.last()) {
            1nat
        } else {
            0nat
        }
    }
}

/// How many closing brackets `s` holds.
pub open spec fn closer_count(s: Seq<char>) -> nat
    decreases s.len(),
{
    if s.len() == 0 {
        0
    } else {
        closer_count(s.drop_last()) + if is_closer(s.last()) {
            1nat
        } else {
            0nat
        }
    }
}

/// The characters the formatter inserts on its own: line breaks and the
/// spaces of the indent units.
pub open spec fn is_blank(c: char) -> bool {
    c == ' ' || c == '\n'
}

/// The characters of `s` that satisfy `pred`, in their original order.
pub open spec fn kept(s: Seq<char>, pred: spec_fn(char) -> bool) -> Seq<char>
    decreases s.len(),
{
    if s.len() == 0 {
        Seq::empty()
    } else if pred(s.last()) {
        kept(s.drop_last(), pred).push(s.last())
    } else {
        kept(s.drop_last(), pred)
    }
}

/// Keeps everything the formatter never inserts on its own.
pub open spec fn non_blank_pred() -> spec_fn(char) -> bool {
    |c: char| !is_blank(c)
}

/// Keeps the characters the formatter reacts to.
pub open spec fn structural_pred() -> spec_fn(char) -> bool {
    |c: char| is_structural(c)
}

/// `a` can be read off `b` left to right, skipping characters of `b`
/// but never reordering: `a` is a subsequence of `b`.
pub open spec fn subseq_of(a: Seq<char>, b: Seq<char>) -> bool
    decreases a.len() + b.len(),
{
    if a.len() == 0 {
        true
    } else if b.len() == 0 {
        false
    } else if a.first() == b.first() {
        subseq_of(a.drop_first(), b.drop_first())
    } else {
        subseq_of(a, b.drop_first())
    }
}

/// No closer is ever met with the running level at zero: before every
/// closer there are strictly more openers than closers, counting from
/// `level`.
pub open spec fn well_leveled_from(s: Seq<char>, level: nat) -> bool {
    forall|i: int|
        0 <= i < s.len() && is_closer(#[trigger] s[i]) ==> level_after(s.take(i), level) > 0
}

/// A text the formatter accepts: no closer underflows a level of zero.
pub open spec fn well_leveled(s: Seq<char>) -> bool {
    well_leveled_from(s, 0)
}

} // verus!
