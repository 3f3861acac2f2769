//! Properties of the formatter, stated over the model and proved once
//! and for all: conservation of the indentation level, preservation of
//! the input, and stability of the structure under a second pass.

use crate::model::{
    closer_count, emitted, indent, is_blank, is_closer, is_opener, is_structural, kept,
    level_after, level_step,
    non_blank_pred, opener_count, pretty_from, prettified, structural_pred, subseq_of, tab,
    well_leveled, well_leveled_from,
};
use vstd::prelude::*;

verus! {

/// Processing a concatenation tracks the level through the first part.
pub proof fn lemma_level_after_append(a: Seq<char>, b: Seq<char>, level: nat)
    ensures
        level_after(a + b, level) == level_after(b, level_after(a, level)),
    decreases b.len(),
{
    if b.len() == 0 {
        assert(a + b =~= a);
    } else {
        assert((a + b).drop_last() =~= a + b.drop_last());
        lemma_level_after_append(a, b.drop_last(), level);
    }
}

/// A well-leveled text stays well-leveled when its last character is
/// dropped.
pub proof fn lemma_well_leveled_drop_last(s: Seq<char>, level: nat)
    requires
        s.len() > 0,
        well_leveled_from(s, level),
    ensures
        well_leveled_from(s.drop_last(), level),
{
    assert forall|j: int|
        0 <= j < s.drop_last().len() && is_closer(#[trigger] s.drop_last()[j]) implies level_after(
        s.drop_last().take(j),
        level,
    ) > 0 by {
        assert(s.drop_last()[j] == s[j]);
        assert(s.drop_last().take(j) =~= s.take(j));
    }
}

/// Along a well-leveled text the level tracks the bracket counts
/// exactly: what stands open is what was opened and not yet closed.
pub proof fn lemma_level_counts(s: Seq<char>, level: nat)
    requires
        well_leveled_from(s, level),
    ensures
        level_after(s, level) + closer_count(s) == level + opener_count(s),
    decreases s.len(),
{
    if s.len() > 0 {
        lemma_well_leveled_drop_last(s, level);
        lemma_level_counts(s.drop_last(), level);
        if is_closer(s.last()) {
            assert(is_closer(s[s.len() - 1]));
            assert(s.take(s.len() - 1) =~= s.drop_last());
        }
    }
}

/// Level conservation: a well-leveled text with as many opening as
/// closing brackets brings the indentation level back to zero at the
/// end of the pass.
pub proof fn lemma_level_conservation(s: Seq<char>)
    requires
        well_leveled(s),
        opener_count(s) == closer_count(s),
    ensures
        level_after(s, 0) == 0,
{
    lemma_level_counts(s, 0);
}

/// The indent units are blank throughout.
pub proof fn lemma_indent_blank(k: nat)
    ensures
        forall|i: int| 0 <= i < indent(k).len() ==> is_blank(#[trigger] indent(k)[i]),
    decreases k,
{
    if k > 0 {
        lemma_indent_blank((k - 1) as nat);
        assert forall|i: int| 0 <= i < indent(k).len() implies is_blank(
            #[trigger] indent(k)[i],
        ) by {
            if i < indent((k - 1) as nat).len() {
                assert(indent(k)[i] == indent((k - 1) as nat)[i]);
            } else {
                assert(indent(k)[i] == tab()[i - indent((k - 1) as nat).len()]);
            }
        }
    }
}

/// A run of blanks leaves the level alone.
pub proof fn lemma_level_after_blank(s: Seq<char>, m: nat)
    requires
        forall|i: int| 0 <= i < s.len() ==> is_blank(#[trigger] s[i]),
    ensures
        level_after(s, m) == m,
    decreases s.len(),
{
    if s.len() > 0 {
        assert(is_blank(s[s.len() - 1]));
        assert forall|i: int| 0 <= i < s.drop_last().len() implies is_blank(
            #[trigger] s.drop_last()[i],
        ) by {
            assert(s.drop_last()[i] == s[i]);
        }
        lemma_level_after_blank(s.drop_last(), m);
    }
}

/// One emitted chunk moves the level exactly as its character alone
/// would: the inserted blanks leave the level untouched.
pub proof fn lemma_emitted_level(c: char, level: nat, m: nat)
    ensures
        level_after(emitted(c, level), m) == level_step(c, m),
{
    lemma_indent_blank(level + 1);
    lemma_indent_blank(level);
    lemma_indent_blank(if level > 0 {
        (level - 1) as nat
    } else {
        0
    });
    assert(seq![c].drop_last() =~= Seq::<char>::empty());
    assert(level_after(Seq::<char>::empty(), m) == m);
    assert(level_after(seq![c], m) == level_step(c, m));
    if is_opener(c) {
        lemma_level_after_append(seq![c, '\n'], indent(level + 1), m);
        assert(seq![c, '\n'].drop_last() =~= seq![c]);
        assert(level_after(seq![c, '\n'], m) == level_step(c, m));
        lemma_level_after_blank(indent(level + 1), level_step(c, m));
        assert(emitted(c, level) == seq![c, '\n'] + indent(level + 1));
    } else if is_closer(c) {
        let low: nat = if level > 0 {
            (level - 1) as nat
        } else {
            0
        };
        lemma_level_after_append(seq!['\n'] + indent(low), seq![c], m);
        assert forall|i: int| 0 <= i < (seq!['\n'] + indent(low)).len() implies is_blank(
            #[trigger] (seq!['\n'] + indent(low))[i],
        ) by {
            if i > 0 {
                assert((seq!['\n'] + indent(low))[i] == indent(low)[i - 1]);
            }
        }
        lemma_level_after_blank(seq!['\n'] + indent(low), m);
        assert(emitted(c, level) == seq!['\n'] + indent(low) + seq![c]);
        assert(level_after(emitted(c, level), m) == level_after(
            seq![c],
            level_after(seq!['\n'] + indent(low), m),
        ));
    } else if c == ',' {
        lemma_level_after_append(seq![c, '\n'], indent(level), m);
        assert(seq![c, '\n'].drop_last() =~= seq![c]);
        assert(level_after(seq![c, '\n'], m) == level_step(c, m));
        lemma_level_after_blank(indent(level), level_step(c, m));
        assert(emitted(c, level) == seq![c, '\n'] + indent(level));
    } else {
        assert(emitted(c, level) == seq![c]);
    }
}

/// The whole pass conserves the level trace: from any starting level,
/// the output moves the level exactly as the input does.
pub proof fn lemma_levels_preserved(s: Seq<char>, level: nat, m: nat)
    ensures
        level_after(pretty_from(s, level), m) == level_after(s, m),
    decreases s.len(),
{
    if s.len() > 0 {
        let run: nat = level_after(s.drop_last(), level);
        lemma_levels_preserved(s.drop_last(), level, m);
        lemma_level_after_append(pretty_from(s.drop_last(), level), emitted(s.last(), run), m);
        lemma_emitted_level(s.last(), run, level_after(s.drop_last(), m));
    }
}

/// A concatenation is well-leveled exactly when both parts are, the
/// second from the level the first one reached.
pub proof fn lemma_well_leveled_split(a: Seq<char>, b: Seq<char>, level: nat)
    ensures
        well_leveled_from(a + b, level) <==> (well_leveled_from(a, level) && well_leveled_from(
            b,
            level_after(a, level),
        )),
{
    if well_leveled_from(a + b, level) {
        assert forall|i: int| 0 <= i < a.len() && is_closer(#[trigger] a[i]) implies level_after(
            a.take(i),
            level,
        ) > 0 by {
            assert(is_closer((a + b)[i]));
            assert((a + b).take(i) =~= a.take(i));
        }
        assert forall|i: int| 0 <= i < b.len() && is_closer(#[trigger] b[i]) implies level_after(
            b.take(i),
            level_after(a, level),
        ) > 0 by {
            assert(is_closer((a + b)[a.len() + i]));
            assert((a + b).take(a.len() + i) =~= a + b.take(i));
            lemma_level_after_append(a, b.take(i), level);
        }
    }
    if well_leveled_from(a, level) && well_leveled_from(b, level_after(a, level)) {
        assert forall|i: int|
            0 <= i < (a + b).len() && is_closer(#[trigger] (a + b)[i]) implies level_after(
            (a + b).take(i),
            level,
        ) > 0 by {
            if i < a.len() {
                assert(is_closer(a[i]));
                assert((a + b).take(i) =~= a.take(i));
            } else {
                assert(is_closer(b[i - a.len()]));
                assert((a + b).take(i) =~= a + b.take(i - a.len()));
                lemma_level_after_append(a, b.take(i - a.len()), level);
            }
        }
    }
}

/// An emitted chunk is well-leveled wherever its character alone is:
/// its closer, if any, comes after nothing but blanks.
pub proof fn lemma_emitted_well_leveled(c: char, level: nat, m: nat)
    requires
        is_closer(c) ==> m > 0,
    ensures
        well_leveled_from(emitted(c, level), m),
{
    lemma_indent_blank(level + 1);
    lemma_indent_blank(level);
    let low: nat = if level > 0 {
        (level - 1) as nat
    } else {
        0
    };
    lemma_indent_blank(low);
    if is_opener(c) {
        let out = seq![c, '\n'] + indent(level + 1);
        assert forall|i: int| 0 <= i < out.len() && is_closer(#[trigger] out[i]) implies
            level_after(out.take(i), m) > 0 by {
            if i >= 2 {
                assert(out[i] == indent(level + 1)[i - 2]);
            }
        }
    } else if is_closer(c) {
        let head = seq!['\n'] + indent(low);
        let out = head + seq![c];
        assert forall|i: int| 0 <= i < head.len() implies is_blank(#[trigger] head[i]) by {
            if i > 0 {
                assert(head[i] == indent(low)[i - 1]);
            }
        }
        assert forall|i: int| 0 <= i < out.len() && is_closer(#[trigger] out[i]) implies
            level_after(out.take(i), m) > 0 by {
            if i < head.len() {
                assert(out[i] == head[i]);
                assert(is_blank(head[i]));
            } else {
                assert(out.take(i) =~= head);
                lemma_level_after_blank(head, m);
            }
        }
    } else if c == ',' {
        let out = seq![c, '\n'] + indent(level);
        assert forall|i: int| 0 <= i < out.len() && is_closer(#[trigger] out[i]) implies
            level_after(out.take(i), m) > 0 by {
            if i >= 2 {
                assert(out[i] == indent(level)[i - 2]);
            }
        }
    } else {
        let out = seq![c];
        assert forall|i: int| 0 <= i < out.len() && is_closer(#[trigger] out[i]) implies
            level_after(out.take(i), m) > 0 by {
            assert(out[i] == c);
        }
    }
}

/// The output of a pass over a well-leveled text is well-leveled again:
/// the formatter's own result may be fed back to it.
pub proof fn lemma_pretty_well_leveled(s: Seq<char>, level: nat)
    requires
        well_leveled_from(s, level),
    ensures
        well_leveled_from(pretty_from(s, level), level),
    decreases s.len(),
{
    if s.len() > 0 {
        let run: nat = level_after(s.drop_last(), level);
        lemma_well_leveled_drop_last(s, level);
        lemma_pretty_well_leveled(s.drop_last(), level);
        if is_closer(s.last()) {
            assert(is_closer(s[s.len() - 1]));
            assert(s.take(s.len() - 1) =~= s.drop_last());
        }
        lemma_levels_preserved(s.drop_last(), level, level);
        lemma_emitted_well_leveled(s.last(), run, run);
        lemma_well_leveled_split(
            pretty_from(s.drop_last(), level),
            emitted(s.last(), run),
            level,
        );
    }
}

/// The kept projection distributes over concatenation.
pub proof fn lemma_kept_append(a: Seq<char>, b: Seq<char>, pred: spec_fn(char) -> bool)
    ensures
        kept(a + b, pred) == kept(a, pred) + kept(b, pred),
    decreases b.len(),
{
    if b.len() == 0 {
        assert(a + b =~= a);
        assert(kept(a, pred) + kept(b, pred) =~= kept(a, pred));
    } else {
        assert((a + b).drop_last() =~= a + b.drop_last());
        lemma_kept_append(a, b.drop_last(), pred);
        if pred(b.last()) {
            assert(kept(a, pred) + kept(b.drop_last(), pred).push(b.last()) =~= (kept(a, pred)
                + kept(b.drop_last(), pred)).push(b.last()));
        }
    }
}

/// A projection that drops blanks sees nothing of an indent run.
pub proof fn lemma_kept_indent(k: nat, pred: spec_fn(char) -> bool)
    requires
        !pred(' '),
    ensures
        kept(indent(k), pred) == Seq::<char>::empty(),
    decreases k,
{
    if k > 0 {
        lemma_kept_indent((k - 1) as nat, pred);
        lemma_kept_append(indent((k - 1) as nat), tab(), pred);
        assert(tab().drop_last() =~= seq![' ', ' ', ' ']);
        assert(seq![' ', ' ', ' '].drop_last() =~= seq![' ', ' ']);
        assert(seq![' ', ' '].drop_last() =~= seq![' ']);
        assert(seq![' '].drop_last() =~= Seq::<char>::empty());
        assert(kept(Seq::<char>::empty(), pred) == Seq::<char>::empty());
        assert(kept(seq![' '], pred) == Seq::<char>::empty());
        assert(kept(seq![' ', ' '], pred) == Seq::<char>::empty());
        assert(kept(seq![' ', ' ', ' '], pred) == Seq::<char>::empty());
        assert(kept(tab(), pred) == Seq::<char>::empty());
        assert(kept(indent((k - 1) as nat), pred) + Seq::<char>::empty() =~= kept(
            indent((k - 1) as nat),
            pred,
        ));
    }
}

/// Through a projection blind to blanks, an emitted chunk is exactly
/// its character.
pub proof fn lemma_kept_emitted(c: char, level: nat, pred: spec_fn(char) -> bool)
    requires
        !pred(' '),
        !pred('\n'),
    ensures
        kept(emitted(c, level), pred) == kept(seq![c], pred),
{
    let low: nat = if level > 0 {
        (level - 1) as nat
    } else {
        0
    };
    assert(seq![c].drop_last() =~= Seq::<char>::empty());
    if is_opener(c) {
        lemma_kept_append(seq![c, '\n'], indent(level + 1), pred);
        lemma_kept_indent(level + 1, pred);
        assert(seq![c, '\n'].drop_last() =~= seq![c]);
        assert(kept(seq![c, '\n'], pred) == kept(seq![c], pred));
        assert(kept(seq![c], pred) + Seq::<char>::empty() =~= kept(seq![c], pred));
    } else if is_closer(c) {
        let head = seq!['\n'] + indent(low);
        lemma_kept_append(head, seq![c], pred);
        lemma_kept_append(seq!['\n'], indent(low), pred);
        lemma_kept_indent(low, pred);
        assert(seq!['\n'].drop_last() =~= Seq::<char>::empty());
        assert(kept(Seq::<char>::empty(), pred) == Seq::<char>::empty());
        assert(kept(seq!['\n'], pred) == Seq::<char>::empty());
        assert(kept(head, pred) =~= Seq::<char>::empty());
        assert(Seq::<char>::empty() + kept(seq![c], pred) =~= kept(seq![c], pred));
    } else if c == ',' {
        lemma_kept_append(seq![c, '\n'], indent(level), pred);
        lemma_kept_indent(level, pred);
        assert(seq![c, '\n'].drop_last() =~= seq![c]);
        assert(kept(seq![c, '\n'], pred) == kept(seq![c], pred));
        assert(kept(seq![c], pred) + Seq::<char>::empty() =~= kept(seq![c], pred));
    } else {
        assert(emitted(c, level) == seq![c]);
    }
}

/// Through a projection blind to blanks, the whole output is exactly
/// the input: the pass inserts blanks and nothing else, and loses and
/// reorders nothing.
pub proof fn lemma_kept_pretty(s: Seq<char>, level: nat, pred: spec_fn(char) -> bool)
    requires
        !pred(' '),
        !pred('\n'),
    ensures
        kept(pretty_from(s, level), pred) == kept(s, pred),
    decreases s.len(),
{
    if s.len() > 0 {
        let run: nat = level_after(s.drop_last(), level);
        lemma_kept_pretty(s.drop_last(), level, pred);
        lemma_kept_append(pretty_from(s.drop_last(), level), emitted(s.last(), run), pred);
        lemma_kept_emitted(s.last(), run, pred);
        assert(s.drop_last() + seq![s.last()] =~= s);
        lemma_kept_append(s.drop_last(), seq![s.last()], pred);
    }
}

/// A subsequence of a tail is a subsequence of the whole.
pub proof fn lemma_subseq_widen(a: Seq<char>, b: Seq<char>)
    requires
        b.len() > 0,
        subseq_of(a, b.drop_first()),
    ensures
        subseq_of(a, b),
    decreases a.len() + b.len(),
{
    if a.len() > 0 && a.first() == b.first() {
        lemma_subseq_drop_first(a, b.drop_first());
    }
}

/// Dropping the first character keeps a subsequence a subsequence.
pub proof fn lemma_subseq_drop_first(a: Seq<char>, b: Seq<char>)
    requires
        a.len() > 0,
        subseq_of(a, b),
    ensures
        subseq_of(a.drop_first(), b),
    decreases a.len() + b.len(),
{
    if a.first() == b.first() {
        lemma_subseq_widen(a.drop_first(), b);
    } else {
        lemma_subseq_drop_first(a, b.drop_first());
        lemma_subseq_widen(a.drop_first(), b);
    }
}

/// A subsequence stays one when anything is pasted in front of the
/// larger sequence.
pub proof fn lemma_subseq_prepend(a: Seq<char>, b: Seq<char>, front: Seq<char>)
    requires
        subseq_of(a, b),
    ensures
        subseq_of(a, front + b),
    decreases front.len(),
{
    if front.len() == 0 {
        assert(front + b =~= b);
    } else {
        lemma_subseq_prepend(a, b, front.drop_first());
        assert((front + b).drop_first() =~= front.drop_first() + b);
        lemma_subseq_widen(a, front + b);
    }
}

/// Subsequences concatenate: read each part off its own side.
pub proof fn lemma_subseq_append(a: Seq<char>, b: Seq<char>, c: Seq<char>, d: Seq<char>)
    requires
        subseq_of(a, b),
        subseq_of(c, d),
    ensures
        subseq_of(a + c, b + d),
    decreases a.len() + b.len(),
{
    if a.len() == 0 {
        assert(a + c =~= c);
        lemma_subseq_prepend(c, d, b);
    } else {
        assert((a + c).first() == a.first());
        assert((b + d).first() == b.first());
        assert((a + c).drop_first() =~= a.drop_first() + c);
        assert((b + d).drop_first() =~= b.drop_first() + d);
        if a.first() == b.first() {
            lemma_subseq_append(a.drop_first(), b.drop_first(), c, d);
        } else {
            lemma_subseq_append(a, b.drop_first(), c, d);
        }
    }
}

/// The character an emitted chunk is for can be read off the chunk.
pub proof fn lemma_subseq_emitted(c: char, level: nat)
    ensures
        subseq_of(seq![c], emitted(c, level)),
{
    let low: nat = if level > 0 {
        (level - 1) as nat
    } else {
        0
    };
    assert(seq![c].drop_first() =~= Seq::<char>::empty());
    assert(subseq_of(Seq::<char>::empty(), Seq::<char>::empty()));
    if is_opener(c) || c == ',' {
        let rest = if is_opener(c) {
            indent(level + 1)
        } else {
            indent(level)
        };
        assert(emitted(c, level) == seq![c, '\n'] + rest);
        assert((seq![c, '\n'] + rest).first() == c);
        assert(subseq_of(Seq::<char>::empty(), (seq![c, '\n'] + rest).drop_first()));
    } else if is_closer(c) {
        assert(subseq_of(seq![c], seq![c]));
        lemma_subseq_prepend(seq![c], seq![c], seq!['\n'] + indent(low));
    } else {
        assert(emitted(c, level) == seq![c]);
        assert(subseq_of(Seq::<char>::empty(), seq![c].drop_first()));
    }
}

/// Every character of the input can be read off the output, in its
/// original relative order: the pass loses nothing.
pub proof fn lemma_subseq_pretty(s: Seq<char>, level: nat)
    ensures
        subseq_of(s, pretty_from(s, level)),
    decreases s.len(),
{
    if s.len() > 0 {
        let run: nat = level_after(s.drop_last(), level);
        lemma_subseq_pretty(s.drop_last(), level);
        lemma_subseq_emitted(s.last(), run);
        lemma_subseq_append(
            s.drop_last(),
            pretty_from(s.drop_last(), level),
            seq![s.last()],
            emitted(s.last(), run),
        );
        assert(s.drop_last() + seq![s.last()] =~= s);
    }
}

/// A pass over a text without structural characters copies it.
pub proof fn lemma_pretty_passthrough(s: Seq<char>, level: nat)
    requires
        forall|i: int| 0 <= i < s.len() ==> !is_structural(#[trigger] s[i]),
    ensures
        pretty_from(s, level) == s,
    decreases s.len(),
{
    if s.len() > 0 {
        assert(!is_structural(s[s.len() - 1]));
        assert forall|i: int| 0 <= i < s.drop_last().len() implies !is_structural(
            #[trigger] s.drop_last()[i],
        ) by {
            assert(s.drop_last()[i] == s[i]);
        }
        lemma_pretty_passthrough(s.drop_last(), level);
        assert(emitted(s.last(), level_after(s.drop_last(), level)) == seq![s.last()]);
        assert(s.drop_last() + seq![s.last()] =~= s);
    }
}

/// A text without structural characters is returned unchanged.
pub proof fn lemma_passthrough(s: Seq<char>)
    requires
        forall|i: int| 0 <= i < s.len() ==> !is_structural(#[trigger] s[i]),
    ensures
        prettified(s) == s,
{
    lemma_pretty_passthrough(s, 0);
}

/// No data loss: every character of the input appears unchanged and in
/// its original relative order in the output, and, blanks aside, the
/// output holds nothing but the input — what the formatter adds is
/// line breaks and indent spaces only.
pub proof fn lemma_no_data_loss(s: Seq<char>)
    ensures
        subseq_of(s, prettified(s)),
        kept(prettified(s), non_blank_pred()) == kept(s, non_blank_pred()),
{
    lemma_subseq_pretty(s, 0);
    lemma_kept_pretty(s, 0, non_blank_pred());
}

/// A second pass over the output is governed by exactly the rules the
/// first one followed: the output of a well-leveled text is
/// well-leveled again, it shows the same structural characters in the
/// same order, and it drives the level counter exactly as the input
/// did — in particular both passes end at the same level.
pub proof fn lemma_second_pass_same_structure(s: Seq<char>)
    requires
        well_leveled(s),
    ensures
        well_leveled(prettified(s)),
        kept(prettified(s), structural_pred()) == kept(s, structural_pred()),
        forall|m: nat| #[trigger] level_after(prettified(s), m) == level_after(s, m),
{
    lemma_pretty_well_leveled(s, 0);
    lemma_kept_pretty(s, 0, structural_pred());
    assert forall|m: nat| #[trigger] level_after(prettified(s), m) == level_after(s, m) by {
        lemma_levels_preserved(s, 0, m);
    }
}

} // verus!

