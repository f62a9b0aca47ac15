use vstd::prelude::*;

use crate::error::IndentError;
use crate::model::{
    closes_to, joined, lemma_closes_unique, lemma_prefix_trans, lemma_text_at_all,
    lemma_text_at_next, lemma_text_at_prefix, levels_wf, step, text_at,
};

verus! {

/// Stores the indentation state of an off-side parser.
///
/// The state starts with no open level: an empty indentation.
#[derive(Debug)]
pub struct IndentStack {
    /// The text each open level adds, outermost first.
    stack: Vec<String>,
    /// The text the first indent added, kept when indents must be consistent.
    std_indent: Option<String>,
    /// When false, every indent must add the same text as the first one.
    pub allow_inconsistent_indents: bool,
}

impl IndentStack {
    /// The text of each open level, outermost first.
    pub closed spec fn levels(&self) -> Seq<Seq<char>> {
        self.stack@.map_values(|s: String| s@)
    }

    /// The text of the first indent, once one was accepted in strict mode.
    pub closed spec fn unit(&self) -> Option<Seq<char>> {
        match self.std_indent {
            Some(s) => Some(s@),
            None => None,
        }
    }

    /// Whether every indent must reuse the first indent's text.
    pub closed spec fn strict(&self) -> bool {
        !self.allow_inconsistent_indents
    }

    /// Every open level adds some text to the one around it.
    pub open spec fn wf(&self) -> bool {
        levels_wf(self.levels())
    }

    /// A tracker with no open level that tolerates indents of differing text.
    pub fn default_inconsistent_indents() -> (r: Self)
        ensures
            r.wf(),
            r.levels() == Seq::<Seq<char>>::empty(),
            r.unit() == None::<Seq<char>>,
            !r.strict(),
    {
        let r = IndentStack { stack: Vec::new(), std_indent: None, allow_inconsistent_indents: true };
        assert(r.levels() =~= Seq::<Seq<char>>::empty());
        r
    }

    /// Applies the leading whitespace `input` of the next line.
    ///
    /// Returns `Ok(1)` when the line opens a new level, `Ok(0)` when the
    /// depth is unchanged, and `Ok(-k)` when it closes `k` levels. On an
    /// error the tracker is left as it was. The depth must fit in the
    /// result's type, as it does for any stack that memory can hold.
    pub fn accept(&mut self, input: &str) -> (r: Result<isize, IndentError>)
        requires
            old(self).wf(),
            old(self).levels().len() <= isize::MAX,
        ensures
            final(self).wf(),
            final(self).strict() == old(self).strict(),
            ({
                let s = step(old(self).levels(), old(self).unit(), old(self).strict(), input@);
                &&& final(self).levels() == s.1
                &&& final(self).unit() == s.2
                &&& match r {
                    Ok(d) => s.0 == Ok::<int, IndentError>(d as int),
                    Err(e) => s.0 == Err::<int, IndentError>(e),
                }
            }),
            r is Err ==> *final(self) == *old(self),
            input@ == joined(old(self).levels()) ==> r == Ok::<isize, IndentError>(0)
                && *final(self) == *old(self),
    {
        let ghost levels = self.levels();
        let input_len = input.unicode_len();
        let n = self.stack.len();
        let mut offset: usize = 0;
        let mut i: usize = 0;
        while i < n
            invariant
                *self == *old(self),
                levels == self.levels(),
                levels_wf(levels),
                n == levels.len(),
                n <= isize::MAX,
                input_len == input@.len(),
                i <= n,
                offset == text_at(levels, i as int).len(),
                text_at(levels, i as int).is_prefix_of(input@),
                forall|j: int| 0 <= j < i ==> input@ != #[trigger] text_at(levels, j),
            decreases n - i,
        {
            proof {
                lemma_text_at_next(levels, i as int);
            }
            if offset == input_len {
                proof {
                    assert(input@ =~= text_at(levels, i as int));
                    assert(closes_to(levels, input@, i as int));
                    let m = choose|m: int| closes_to(levels, input@, m);
                    lemma_closes_unique(levels, input@, m, i as int);
                    lemma_text_at_prefix(levels, i as int, n as int);
                    lemma_text_at_all(levels);
                }
                let popped = n - i;
                self.stack.truncate(i);
                assert(self.levels() =~= levels.take(i as int));
                return Ok(-(popped as isize));
            }
            let level_len = self.stack[i].as_str().unicode_len();
            if input_len - offset < level_len {
                proof {
                    self.lemma_refuse_from(input@, i as int);
                }
                return Err(IndentError::MixedIndent);
            }
            let piece = input.substring_char(offset, offset + level_len).to_owned();
            if !(piece == self.stack[i]) {
                proof {
                    let next = text_at(levels, i as int + 1);
                    if next.is_prefix_of(input@) {
                        assert(piece@ =~= next.subrange(offset as int, next.len() as int));
                        assert(piece@ =~= levels[i as int]);
                    }
                    self.lemma_refuse_from(input@, i as int);
                }
                return Err(IndentError::MixedIndent);
            }
            proof {
                let next = text_at(levels, i as int + 1);
                assert(next =~= input@.subrange(0, next.len() as int));
            }
            offset = offset + level_len;
            i = i + 1;
        }
        proof {
            lemma_text_at_all(levels);
            assert(!exists|m: int| closes_to(levels, input@, m));
        }
        if offset == input_len {
            assert(input@ =~= joined(levels));
            return Ok(0);
        }
        let added = input.substring_char(offset, input_len).to_owned();
        assert(added@ =~= input@.skip(joined(levels).len() as int));
        if !self.allow_inconsistent_indents {
            match &self.std_indent {
                Some(unit) => {
                    if !(added == *unit) {
                        return Err(IndentError::InconsistentIndent);
                    }
                },
                None => {
                    self.std_indent = Some(added.clone());
                },
            }
        }
        self.stack.push(added);
        assert(self.levels() =~= levels.push(added@));
        Ok(1)
    }

    /// Once the level `i` fails to match `input` after the levels before it
    /// did, no depth's text is `input` and the full text is no prefix of it.
    proof fn lemma_refuse_from(&self, input: Seq<char>, i: int)
        requires
            self.wf(),
            0 <= i < self.levels().len(),
            text_at(self.levels(), i).is_prefix_of(input),
            input != text_at(self.levels(), i),
            forall|j: int| 0 <= j < i ==> input != #[trigger] text_at(self.levels(), j),
            !text_at(self.levels(), i + 1).is_prefix_of(input),
        ensures
            !exists|m: int| closes_to(self.levels(), input, m),
            !joined(self.levels()).is_prefix_of(input),
    {
        let levels = self.levels();
        assert forall|m: int| !closes_to(levels, input, m) by {
            if i < m < levels.len() && closes_to(levels, input, m) {
                lemma_text_at_prefix(levels, i + 1, m);
            }
        }
        if joined(levels).is_prefix_of(input) {
            lemma_text_at_prefix(levels, i + 1, levels.len() as int);
            lemma_text_at_all(levels);
            lemma_prefix_trans(text_at(levels, i + 1), joined(levels), input);
        }
    }
}

impl Default for IndentStack {
    /// A tracker with no open level in which every indent must add the text
    /// the first one added.
    fn default() -> (r: Self)
        ensures
            r.wf(),
            r.levels() == Seq::<Seq<char>>::empty(),
            r.unit() == None::<Seq<char>>,
            r.strict(),
    {
        let r = IndentStack { stack: Vec::new(), std_indent: None, allow_inconsistent_indents: false };
        assert(r.levels() =~= Seq::<Seq<char>>::empty());
        r
    }
}

} // verus!
