//! Questions about a text that the caller answers.
//!
//! Some decisions rest on what another part of the program says of a text:
//! whether it is a valid name, which address it spells. Such an answer comes
//! through a function that the caller hands in, and a contract speaks of it
//! as [`answer`].

use vstd::prelude::*;

verus! {

/// Whether `f` may say `r` of a text that reads `s`.
pub open spec fn may_say<R, F: Fn(&str) -> R>(f: F, s: Seq<char>, r: R) -> bool {
    exists|t: &str| t@ == s && #[trigger] call_ensures(f, (t,), r)
}

/// Whether `f` takes every text and always says the same of it.
pub open spec fn settled<R, F: Fn(&str) -> R>(f: F) -> bool {
    &&& forall|t: &str| #[trigger] call_requires(f, (t,))
    &&& forall|t: &str, u: &str, a: R, b: R| #[trigger]
        call_ensures(f, (t,), a) && #[trigger] call_ensures(f, (u,), b) && t@ == u@ ==> a == b
}

/// What `f` says of a text that reads `s`.
pub open spec fn answer<R, F: Fn(&str) -> R>(f: F, s: Seq<char>) -> R {
    choose|r: R| may_say(f, s, r)
}

/// What was said of a text is the answer.
pub proof fn lemma_answer<R, F: Fn(&str) -> R>(f: F, t: &str, r: R)
    requires
        settled(f),
        call_ensures(f, (t,), r),
    ensures
        answer(f, t@) == r,
{
    assert(may_say(f, t@, r));
    let a = answer(f, t@);
    assert(may_say(f, t@, a));
}

/// Asks `f` about `t`.
pub fn ask<R, F: Fn(&str) -> R>(f: &F, t: &str) -> (r: R)
    requires
        settled(*f),
    ensures
        r == answer(*f, t@),
        may_say(*f, t@, r),
{
    let r = f(t);
    proof {
        lemma_answer(*f, t, r);
        assert(may_say(*f, t@, r));
    }
    r
}

} // verus!
