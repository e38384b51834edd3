//! Maximal runs: the longest prefix of a text whose characters all belong to
//! one class. Every token of the format is cut from the input as such a run.

use vstd::prelude::*;
use crate::chars::CharClass;

verus! {

/// The length of the longest prefix of `s` made of characters of `class`.
pub open spec fn run_len(s: Seq<char>, class: CharClass) -> nat
    decreases s.len(),
{
    if s.len() > 0 && class.contains(s[0]) {
        1 + run_len(s.drop_first(), class)
    } else {
        0
    }
}

/// The longest prefix of `s` made of characters of `class`.
pub open spec fn run(s: Seq<char>, class: CharClass) -> Seq<char> {
    s.take(run_len(s, class) as int)
}

/// What is left of `s` behind its longest prefix of characters of `class`.
pub open spec fn after_run(s: Seq<char>, class: CharClass) -> Seq<char> {
    s.skip(run_len(s, class) as int)
}

/// Whether every character of `s` belongs to `class`.
pub open spec fn all_in(s: Seq<char>, class: CharClass) -> bool {
    forall|i: int| 0 <= i < s.len() ==> class.contains(#[trigger] s[i])
}

/// A run is a prefix, it stays inside the class, and it stops only at the end
/// of the text or in front of a character outside the class.
pub proof fn lemma_run_len(s: Seq<char>, class: CharClass)
    ensures
        run_len(s, class) <= s.len(),
        all_in(run(s, class), class),
        run_len(s, class) < s.len() ==> !class.contains(s[run_len(s, class) as int]),
    decreases s.len(),
{
    if s.len() > 0 && class.contains(s[0]) {
        lemma_run_len(s.drop_first(), class);
        let n = run_len(s, class);
        assert forall|i: int| 0 <= i < n implies class.contains(#[trigger] run(s, class)[i]) by {
            if i > 0 {
                assert(run(s, class)[i] == run(s.drop_first(), class)[i - 1]);
            }
        }
    }
}

/// The run is the only prefix that stays inside the class and cannot be
/// extended.
pub proof fn lemma_run_len_unique(s: Seq<char>, class: CharClass, n: int)
    requires
        0 <= n <= s.len(),
        all_in(s.take(n), class),
        n < s.len() ==> !class.contains(s[n]),
    ensures
        run_len(s, class) == n,
    decreases s.len(),
{
    if n > 0 {
        assert(s.take(n)[0] == s[0]);
        let t = s.drop_first();
        assert forall|i: int| 0 <= i < n - 1 implies class.contains(#[trigger] t.take(n - 1)[i]) by {
            assert(t.take(n - 1)[i] == s.take(n)[i + 1]);
        }
        lemma_run_len_unique(t, class, n - 1);
    }
}

/// Behind a run no further run of the same class begins.
pub proof fn lemma_after_run_idempotent(s: Seq<char>, class: CharClass)
    ensures
        run_len(after_run(s, class), class) == 0,
        after_run(after_run(s, class), class) == after_run(s, class),
{
    lemma_run_len(s, class);
}

/// A prefix made of characters of the class is swallowed by the run.
pub proof fn lemma_run_len_prefix(prefix: Seq<char>, s: Seq<char>, class: CharClass)
    requires
        all_in(prefix, class),
    ensures
        run_len(prefix + s, class) == prefix.len() + run_len(s, class),
        after_run(prefix + s, class) == after_run(s, class),
    decreases prefix.len(),
{
    if prefix.len() > 0 {
        assert((prefix + s).drop_first() =~= prefix.drop_first() + s);
        lemma_run_len_prefix(prefix.drop_first(), s, class);
        lemma_run_len(s, class);
    }
}

} // verus!
