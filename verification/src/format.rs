//! The executable formatter: a single pass with one level counter.

use crate::model::{
    emitted, indent, is_closer, level_after, level_step, pretty_from, prettified, tab,
    well_leveled,
};
use vstd::prelude::*;
use vstd::string::{StrSliceExecFns, StringExecFns};

verus! {

/// Relies on String::push: appends exactly one character at the end.
#[verifier::external_body]
fn push_char(output: &mut String, c: char)
    ensures
        final(output)@ == old(output)@ + seq![c],
{
    output.push(c);
}

/// Appends `level` indent units to `output`.
fn push_indent(level: usize, output: &mut String)
    ensures
        final(output)@ == old(output)@ + indent(level as nat),
{
    let ghost out0: Seq<char> = output@;
    proof {
        assert(out0 + indent(0) =~= out0);
    }
    let mut j: usize = 0;
    while j < level
        invariant
            j <= level,
            output@ == out0 + indent(j as nat),
        decreases level - j,
    {
        output.append("    ");
        proof {
            reveal_strlit("    ");
            assert("    "@ =~= tab());
            assert(out0 + indent(j as nat) + tab() =~= out0 + indent((j + 1) as nat));
        }
        j = j + 1;
    }
}

/// Emits an opening bracket: the bracket, a line break, and the new,
/// one-deeper indentation.
pub fn open(tab_level: &mut usize, output: &mut String, opener: char)
    requires
        *old(tab_level) < usize::MAX,
    ensures
        *final(tab_level) == *old(tab_level) + 1,
        final(output)@ == old(output)@ + seq![opener, '\n'] + indent((*old(tab_level) + 1) as nat),
{
    let ghost out0: Seq<char> = output@;
    let ghost lvl0: nat = *tab_level as nat;
    push_char(output, opener);
    push_char(output, '\n');
    *tab_level += 1;
    push_indent(*tab_level, output);
    proof {
        assert(output@ =~= out0 + seq![opener, '\n'] + indent((lvl0 + 1) as nat));
    }
}

/// Emits a closing bracket: a line break, the enclosing, one-shallower
/// indentation, then the bracket.
pub fn close(tab_level: &mut usize, output: &mut String, closer: char)
    requires
        *old(tab_level) > 0,
    ensures
        *final(tab_level) == *old(tab_level) - 1,
        final(output)@ == old(output)@ + seq!['\n'] + indent((*old(tab_level) - 1) as nat)
            + seq![closer],
{
    let ghost out0: Seq<char> = output@;
    let ghost lvl0: nat = *tab_level as nat;
    push_char(output, '\n');
    *tab_level -= 1;
    push_indent(*tab_level, output);
    push_char(output, closer);
    proof {
        assert(output@ =~= out0 + seq!['\n'] + indent((lvl0 - 1) as nat) + seq![closer]);
    }
}

/// Emits a comma: the comma, a line break, and the current indentation.
pub fn comma(tab_level: &usize, output: &mut String)
    ensures
        final(output)@ == old(output)@ + seq![',', '\n'] + indent(*tab_level as nat),
{
    let ghost out0: Seq<char> = output@;
    push_char(output, ',');
    push_char(output, '\n');
    push_indent(*tab_level, output);
    proof {
        assert(output@ =~= out0 + seq![',', '\n'] + indent(*tab_level as nat));
    }
}

/// Inserts line breaks and indentation around brackets and commas:
/// each opener starts a new line one level deeper, each closer returns
/// to the enclosing level, each comma breaks the line at the current
/// level, and every other character is copied unchanged.
pub fn prettify(s: String) -> (r: String)
    requires
        well_leveled(s@),
    ensures
        r@ == prettified(s@),
{
    let mut output: String = String::new();
    let mut tab_level: usize = 0;
    let n: usize = s.as_str().unicode_len();
    proof {
        assert(s@.take(0) =~= Seq::<char>::empty());
    }
    let mut i: usize = 0;
    while i < n
        invariant
            n as nat == s@.len(),
            i <= n,
            tab_level <= i,
            well_leveled(s@),
            tab_level as nat == level_after(s@.take(i as int), 0),
            output@ == pretty_from(s@.take(i as int), 0),
        decreases n - i,
    {
        let c: char = s.as_str().get_char(i);
        let ghost pre: Seq<char> = s@.take(i as int);
        let ghost cur: Seq<char> = s@.take(i as int + 1);
        let ghost out0: Seq<char> = output@;
        let ghost lvl0: nat = tab_level as nat;
        proof {
            assert(cur.drop_last() =~= pre);
            assert(cur.last() == s@[i as int]);
        }
        match c {
            '(' | '[' | '{' => {
                open(&mut tab_level, &mut output, c);
                proof {
                    assert(output@ =~= out0 + emitted(c, lvl0));
                }
            },
            ')' | ']' | '}' => {
                proof {
                    assert(is_closer(s@[i as int]));
                }
                close(&mut tab_level, &mut output, c);
                proof {
                    assert(output@ =~= out0 + emitted(c, lvl0));
                }
            },
            ',' => {
                comma(&tab_level, &mut output);
                proof {
                    assert(output@ =~= out0 + emitted(c, lvl0));
                }
            },
            _ => {
                push_char(&mut output, c);
                proof {
                    assert(output@ =~= out0 + emitted(c, lvl0));
                }
            },
        }
        proof {
            assert(tab_level as nat == level_step(c, lvl0));
            assert(pretty_from(cur, 0) == pretty_from(pre, 0) + emitted(c, level_after(pre, 0)));
        }
        i = i + 1;
    }
    proof {
        assert(s@.take(n as int) =~= s@);
    }
    output
}

/// Decides whether the formatter accepts a text: true exactly when no
/// closing bracket is met with the running level already at zero.
pub fn is_well_leveled(s: &str) -> (r: bool)
    ensures
        r == well_leveled(s@),
{
    let n: usize = s.unicode_len();
    proof {
        assert(s@.take(0) =~= Seq::<char>::empty());
    }
    let mut level: usize = 0;
    let mut i: usize = 0;
    while i < n
        invariant
            n as nat == s@.len(),
            i <= n,
            level <= i,
            level as nat == level_after(s@.take(i as int), 0),
            forall|j: int|
                0 <= j < i && is_closer(#[trigger] s@[j]) ==> level_after(s@.take(j), 0) > 0,
        decreases n - i,
    {
        let c: char = s.get_char(i);
        let ghost pre: Seq<char> = s@.take(i as int);
        let ghost cur: Seq<char> = s@.take(i as int + 1);
        proof {
            assert(cur.drop_last() =~= pre);
            assert(cur.last() == s@[i as int]);
        }
        match c {
            '(' | '[' | '{' => {
                level += 1;
            },
            ')' | ']' | '}' => {
                if level == 0 {
                    proof {
                        assert(is_closer(s@[i as int]));
                        assert(!well_leveled(s@));
                    }
                    return false;
                }
                level -= 1;
            },
            _ => {},
        }
        i = i + 1;
    }
    proof {
        assert(s@.take(n as int) =~= s@);
    }
    true
}

} // verus!
