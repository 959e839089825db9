//! The reply-sampling policy: scan a bounded number of generated
//! candidates and pick the first one whose length fits the acceptance
//! window, falling back to a fixed string.

use vstd::prelude::*;
use crate::model::Model;

verus! {

/// Inclusive lower bound of the acceptance window, in characters.
pub const REPLY_MIN_LEN: usize = 20;

/// Exclusive upper bound of the acceptance window, in characters.
pub const REPLY_MAX_LEN: usize = 100;

/// How many candidates are drawn from a model before giving up.
pub const REPLY_ATTEMPTS: usize = 500;

/// The reply sent when no candidate of acceptable length turns up.
pub const FALLBACK_REPLY: &'static str = "oh noes :(";

/// Whether a candidate's length lies in the acceptance window.
pub open spec fn acceptable(s: Seq<char>) -> bool {
    REPLY_MIN_LEN <= s.len() < REPLY_MAX_LEN
}

/// The first candidate of acceptable length, if any.
pub open spec fn first_acceptable(cands: Seq<Seq<char>>) -> Option<Seq<char>>
    decreases cands.len(),
{
    if cands.len() == 0 {
        Option::None
    } else if acceptable(cands.first()) {
        Option::Some(cands.first())
    } else {
        first_acceptable(cands.drop_first())
    }
}

/// Deterministic selection over an already-drawn candidate sequence: the
/// first candidate of acceptable length, or the fallback.
pub fn select_from(cands: &Vec<String>) -> (r: String)
    ensures
        match first_acceptable(cands.deep_view()) {
            Option::Some(s) => r@ == s,
            Option::None => r@ == FALLBACK_REPLY@,
        },
{
    let n = cands.len();
    let mut i: usize = 0;
    proof {
        assert(cands.deep_view().skip(0) =~= cands.deep_view());
    }
    while i < n
        invariant
            i <= n,
            n == cands.len(),
            first_acceptable(cands.deep_view()) == first_acceptable(
                cands.deep_view().skip(i as int),
            ),
        decreases n - i,
    {
        let l = cands[i].as_str().unicode_len();
        if REPLY_MIN_LEN <= l && l < REPLY_MAX_LEN {
            proof {
                assert(cands.deep_view().skip(i as int).first() == cands.deep_view()[i as int]);
            }
            return cands[i].clone();
        }
        proof {
            assert(cands.deep_view().skip(i as int).drop_first() =~= cands.deep_view().skip(
                i + 1 as int,
            ));
            assert(cands.deep_view().skip(i as int).first() == cands.deep_view()[i as int]);
        }
        i = i + 1;
    }
    proof {
        assert(cands.deep_view().skip(n as int) =~= Seq::<Seq<char>>::empty());
    }
    FALLBACK_REPLY.to_owned()
}

/// Draw up to `REPLY_ATTEMPTS` candidates from the model, in order, and
/// return the first of acceptable length; the fallback when the model is
/// empty or no candidate within the bound fits. A non-fallback reply is
/// an utterance the model itself can produce; and when a trained model
/// can only ever produce acceptable utterances, the fallback is
/// impossible: the very first draw is returned.
pub fn select_reply(model: &Model) -> (r: String)
    requires
        model.wf(),
    ensures
        (acceptable(r@) && model.spec_support().contains(r@)) || r@ == FALLBACK_REPLY@,
        (model.spec_feed_count() > 0 && (forall|s: Seq<char>|
            model.spec_support().contains(s) ==> acceptable(s))) ==> (acceptable(r@)
            && model.spec_support().contains(r@)),
{
    if model.is_empty() {
        return FALLBACK_REPLY.to_owned();
    }
    let mut i: usize = 0;
    while i < REPLY_ATTEMPTS
        invariant
            model.wf(),
            model.spec_feed_count() > 0,
            (forall|s: Seq<char>| model.spec_support().contains(s) ==> acceptable(s)) ==> i == 0,
        decreases REPLY_ATTEMPTS - i,
    {
        let cand = model.generate();
        let l = cand.as_str().unicode_len();
        if REPLY_MIN_LEN <= l && l < REPLY_MAX_LEN {
            return cand;
        }
        proof {
            if forall|s: Seq<char>| model.spec_support().contains(s) ==> acceptable(s) {
                assert(model.spec_support().contains(cand@));
                assert(acceptable(cand@));
                assert(false);
            }
        }
        i = i + 1;
    }
    FALLBACK_REPLY.to_owned()
}

} // verus!
