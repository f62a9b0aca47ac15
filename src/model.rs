//! The mathematical model of an indentation stack: the text of each open
//! level, outermost first, and the effect of one line on it.
use vstd::prelude::*;

use crate::error::IndentError;

verus! {

/// The texts of `levels` laid end to end.
pub open spec fn joined(levels: Seq<Seq<char>>) -> Seq<char>
    decreases levels.len(),
{
    if levels.len() == 0 {
        Seq::empty()
    } else {
        joined(levels.drop_last()) + levels.last()
    }
}

/// The full indentation text of depth `n`: the first `n` levels together.
pub open spec fn text_at(levels: Seq<Seq<char>>, n: int) -> Seq<char> {
    joined(levels.take(n))
}

/// Every level adds some text to the one around it.
pub open spec fn levels_wf(levels: Seq<Seq<char>>) -> bool {
    forall|i: int| 0 <= i < levels.len() ==> #[trigger] levels[i].len() > 0
}

/// `input` is exactly the text of the shallower depth `n`: it closes the
/// levels from `n` on.
pub open spec fn closes_to(levels: Seq<Seq<char>>, input: Seq<char>, n: int) -> bool {
    0 <= n < levels.len() && input == text_at(levels, n)
}

/// `input` continues the full current text with something more.
pub open spec fn opens(levels: Seq<Seq<char>>, input: Seq<char>) -> bool {
    joined(levels).is_prefix_of(input) && joined(levels).len() < input.len()
}

/// The text that `input` adds after the full current text.
pub open spec fn added_text(levels: Seq<Seq<char>>, input: Seq<char>) -> Seq<char> {
    input.skip(joined(levels).len() as int)
}

/// Whether a new level that adds `added` is allowed by the unit in force.
pub open spec fn unit_admits(strict: bool, unit: Option<Seq<char>>, added: Seq<char>) -> bool {
    match unit {
        Some(u) => !strict || u == added,
        None => true,
    }
}

/// One line's effect: the classification of `input`, and the levels and
/// unit afterwards, given the levels and unit before.
pub open spec fn step(
    levels: Seq<Seq<char>>,
    unit: Option<Seq<char>>,
    strict: bool,
    input: Seq<char>,
) -> (Result<int, IndentError>, Seq<Seq<char>>, Option<Seq<char>>) {
    if exists|n: int| closes_to(levels, input, n) {
        let n = choose|n: int| closes_to(levels, input, n);
        (Ok(n - levels.len()), levels.take(n), unit)
    } else if input == joined(levels) {
        (Ok(0), levels, unit)
    } else if opens(levels, input) {
        let added = added_text(levels, input);
        if unit_admits(strict, unit, added) {
            let new_unit = if strict && unit is None {
                Some(added)
            } else {
                unit
            };
            (Ok(1), levels.push(added), new_unit)
        } else {
            (Err(IndentError::InconsistentIndent), levels, unit)
        }
    } else {
        (Err(IndentError::MixedIndent), levels, unit)
    }
}

/// The levels and unit after feeding `inputs`, one line after another.
pub open spec fn replay(
    levels: Seq<Seq<char>>,
    unit: Option<Seq<char>>,
    strict: bool,
    inputs: Seq<Seq<char>>,
) -> (Seq<Seq<char>>, Option<Seq<char>>)
    decreases inputs.len(),
{
    if inputs.len() == 0 {
        (levels, unit)
    } else {
        let before = replay(levels, unit, strict, inputs.drop_last());
        let after = step(before.0, before.1, strict, inputs.last());
        (after.1, after.2)
    }
}

/// Adding one more level appends its text.
pub proof fn lemma_text_at_next(levels: Seq<Seq<char>>, n: int)
    requires
        0 <= n < levels.len(),
    ensures
        text_at(levels, n + 1) == text_at(levels, n) + levels[n],
{
    assert(levels.take(n + 1).drop_last() =~= levels.take(n));
}

/// A shallower depth's text is a prefix of a deeper one's, and shorter when
/// every level adds text.
pub proof fn lemma_text_at_prefix(levels: Seq<Seq<char>>, m: int, n: int)
    requires
        0 <= m <= n <= levels.len(),
    ensures
        text_at(levels, m).is_prefix_of(text_at(levels, n)),
        levels_wf(levels) && m < n ==> text_at(levels, m).len() < text_at(levels, n).len(),
    decreases n - m,
{
    if m < n {
        lemma_text_at_prefix(levels, m, n - 1);
        lemma_text_at_next(levels, n - 1);
        let a = text_at(levels, m);
        let b = text_at(levels, n - 1);
        let c = text_at(levels, n);
        assert(a =~= c.subrange(0, a.len() as int)) by {
            assert(a =~= b.subrange(0, a.len() as int));
            assert(b =~= c.subrange(0, b.len() as int));
        }
    }
}

/// The full text is the text of the deepest level.
pub proof fn lemma_text_at_all(levels: Seq<Seq<char>>)
    ensures
        text_at(levels, levels.len() as int) == joined(levels),
{
    assert(levels.take(levels.len() as int) =~= levels);
}

/// Prefixes compose.
pub proof fn lemma_prefix_trans(a: Seq<char>, b: Seq<char>, c: Seq<char>)
    requires
        a.is_prefix_of(b),
        b.is_prefix_of(c),
    ensures
        a.is_prefix_of(c),
{
    assert(a =~= c.subrange(0, a.len() as int)) by {
        assert(a =~= b.subrange(0, a.len() as int));
        assert(b =~= c.subrange(0, b.len() as int));
    }
}

/// With every level adding text, at most one depth has a given text.
pub proof fn lemma_closes_unique(levels: Seq<Seq<char>>, input: Seq<char>, m: int, n: int)
    requires
        levels_wf(levels),
        closes_to(levels, input, m),
        closes_to(levels, input, n),
    ensures
        m == n,
{
    if m < n {
        lemma_text_at_prefix(levels, m, n);
    } else if n < m {
        lemma_text_at_prefix(levels, n, m);
    }
}

/// A line that opens a level is not the text of any depth, shallower or current.
proof fn lemma_opens_excludes(levels: Seq<Seq<char>>, input: Seq<char>)
    requires
        opens(levels, input),
    ensures
        !exists|n: int| closes_to(levels, input, n),
        input != joined(levels),
{
    lemma_text_at_all(levels);
    assert forall|n: int| !closes_to(levels, input, n) by {
        if 0 <= n < levels.len() {
            lemma_text_at_prefix(levels, n, levels.len() as int);
        }
    }
}

/// A line leaves every level adding text.
pub proof fn lemma_step_wf(
    levels: Seq<Seq<char>>,
    unit: Option<Seq<char>>,
    strict: bool,
    input: Seq<char>,
)
    requires
        levels_wf(levels),
    ensures
        levels_wf(step(levels, unit, strict, input).1),
{
}

/// A line whose indentation is exactly the current full text changes
/// nothing and is classified as no change.
pub proof fn lemma_same_text_no_change(
    levels: Seq<Seq<char>>,
    unit: Option<Seq<char>>,
    strict: bool,
    input: Seq<char>,
)
    requires
        levels_wf(levels),
        input == joined(levels),
    ensures
        step(levels, unit, strict, input) == (Ok::<int, IndentError>(0), levels, unit),
{
    lemma_text_at_all(levels);
    assert forall|n: int| !closes_to(levels, input, n) by {
        if 0 <= n < levels.len() {
            lemma_text_at_prefix(levels, n, levels.len() as int);
        }
    }
}

/// After lines that each open one level, starting from no level, an empty
/// indentation closes all of them at once and leaves no level; when indents
/// may differ, the tracker is then as a new one.
pub proof fn lemma_indents_then_dedent(strict: bool, inputs: Seq<Seq<char>>)
    requires
        forall|j: int|
            0 <= j < inputs.len() ==> {
                let before = #[trigger] replay(Seq::empty(), None, strict, inputs.take(j));
                step(before.0, before.1, strict, inputs[j]).0 == Ok::<int, IndentError>(1)
            },
    ensures
        ({
            let st = replay(Seq::empty(), None, strict, inputs);
            &&& step(st.0, st.1, strict, Seq::empty()) == (
                Ok::<int, IndentError>(-inputs.len()),
                Seq::<Seq<char>>::empty(),
                st.1,
            )
            &&& !strict ==> st.1 == None::<Seq<char>>
        }),
{
    lemma_indents_depth(strict, inputs, inputs.len() as int);
    assert(inputs.take(inputs.len() as int) =~= inputs);
    let st = replay(Seq::empty(), None, strict, inputs);
    if inputs.len() > 0 {
        assert(text_at(st.0, 0) =~= Seq::<char>::empty());
        assert(closes_to(st.0, Seq::empty(), 0));
        let m = choose|m: int| closes_to(st.0, Seq::empty(), m);
        lemma_closes_unique(st.0, Seq::empty(), m, 0);
        assert(st.0.take(0) =~= Seq::<Seq<char>>::empty());
    } else {
        assert(st.0 =~= Seq::<Seq<char>>::empty());
    }
}

/// The first `k` of lines that each open one level leave `k` levels.
proof fn lemma_indents_depth(strict: bool, inputs: Seq<Seq<char>>, k: int)
    requires
        0 <= k <= inputs.len(),
        forall|j: int|
            0 <= j < inputs.len() ==> {
                let before = #[trigger] replay(Seq::empty(), None, strict, inputs.take(j));
                step(before.0, before.1, strict, inputs[j]).0 == Ok::<int, IndentError>(1)
            },
    ensures
        ({
            let st = replay(Seq::empty(), None, strict, inputs.take(k));
            &&& st.0.len() == k
            &&& levels_wf(st.0)
            &&& !strict ==> st.1 == None::<Seq<char>>
        }),
    decreases k,
{
    if k > 0 {
        lemma_indents_depth(strict, inputs, k - 1);
        assert(inputs.take(k).drop_last() =~= inputs.take(k - 1));
        let before = replay(Seq::empty(), None, strict, inputs.take(k - 1));
        lemma_step_wf(before.0, before.1, strict, inputs[k - 1]);
    } else {
        assert(inputs.take(0) =~= Seq::<Seq<char>>::empty());
    }
}

/// A refused line leaves the levels and unit as they were, so the next line
/// is classified as if the refused one had never come.
pub proof fn lemma_error_changes_nothing(
    levels: Seq<Seq<char>>,
    unit: Option<Seq<char>>,
    strict: bool,
    input: Seq<char>,
    next: Seq<char>,
)
    requires
        step(levels, unit, strict, input).0 is Err,
    ensures
        step(levels, unit, strict, input).1 == levels,
        step(levels, unit, strict, input).2 == unit,
        ({
            let after = step(levels, unit, strict, input);
            step(after.1, after.2, strict, next) == step(levels, unit, strict, next)
        }),
{
}

/// In strict mode the first indent fixes the unit; after that an indent
/// succeeds exactly when it adds the unit, and fails with
/// `InconsistentIndent` otherwise.
pub proof fn lemma_strict_unit(
    levels: Seq<Seq<char>>,
    unit: Option<Seq<char>>,
    input: Seq<char>,
)
    requires
        opens(levels, input),
    ensures
        unit is None ==> step(levels, unit, true, input) == (
            Ok::<int, IndentError>(1),
            levels.push(added_text(levels, input)),
            Some(added_text(levels, input)),
        ),
        unit is Some && unit == Some(added_text(levels, input)) ==> step(levels, unit, true, input)
            == (Ok::<int, IndentError>(1), levels.push(added_text(levels, input)), unit),
        unit is Some && unit != Some(added_text(levels, input)) ==> step(levels, unit, true, input)
            == (Err::<int, IndentError>(IndentError::InconsistentIndent), levels, unit),
{
    lemma_opens_excludes(levels, input);
}

/// When indents may differ, any continuation of the current full text opens
/// a level holding what it adds.
pub proof fn lemma_lenient_indent(
    levels: Seq<Seq<char>>,
    unit: Option<Seq<char>>,
    input: Seq<char>,
)
    requires
        opens(levels, input),
    ensures
        step(levels, unit, false, input) == (
            Ok::<int, IndentError>(1),
            levels.push(added_text(levels, input)),
            unit,
        ),
{
    lemma_opens_excludes(levels, input);
}

} // verus!
