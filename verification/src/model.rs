//! The per-identity generative model: a thin verified shell around a
//! markov chain, with a ghost record of everything fed into it.

use vstd::prelude::*;
use crate::wire::{RawChain, raw_safe, spec_raw_safe};

verus! {

/// The underlying markov chain over words, held opaquely: its generics
/// carry a trait bound of its own crate that cannot be declared here, so
/// the whole collection sits behind this shell and its wrappers.
#[verifier::external_body]
pub struct MarkovChain {
    c: markov::Chain<String>,
}

/// How many feeding operations a markov chain has received. Each feed
/// adds exactly one edge out of the chain's start state, so this tally
/// is determined by the chain value itself.
pub uninterp spec fn mchain_feed_count(c: MarkovChain) -> nat;

/// Whether a chain satisfies the structural invariant that makes the
/// emptiness check and sampling safe: a positive order, the start state
/// present, every drawable token leading to a present, drawable state,
/// and from every drawable state an end-of-utterance follower reachable.
/// Feeding establishes and preserves it; an arbitrary decoded value
/// need not satisfy it. Its wire-level mirror is `spec_raw_safe`.
pub uninterp spec fn mchain_wf(c: MarkovChain) -> bool;

/// Whether a byte string is a decodable chain encoding.
pub uninterp spec fn mchain_decodes(b: Seq<u8>) -> bool;

/// Whether the chain a byte string decodes to satisfies the structural
/// invariant; meaningful only when the bytes decode at all.
pub uninterp spec fn mchain_wire_safe(b: Seq<u8>) -> bool;

/// The set of strings a chain's sampling can produce.
pub uninterp spec fn mchain_support(c: MarkovChain) -> Set<Seq<char>>;

/// The sampling support of the chain a byte string decodes to.
pub uninterp spec fn mchain_wire_support(b: Seq<u8>) -> Set<Seq<char>>;

/// Relies on `markov::Chain::new`: a fresh chain into which nothing has
/// been fed.
#[verifier::external_body]
pub(crate) fn mchain_new() -> (r: MarkovChain)
    ensures
        mchain_feed_count(r) == 0,
        mchain_wf(r),
{
    MarkovChain { c: markov::Chain::new() }
}

/// Relies on `markov::Chain::feed_str`: splits the text on single spaces
/// and feeds the token sequence as one observation. The token sequence
/// of a string is never empty, so every call feeds exactly once.
#[verifier::external_body]
pub(crate) fn mchain_feed_str(c: &mut MarkovChain, msg: &str)
    requires
        mchain_wf(*old(c)),
    ensures
        mchain_feed_count(*final(c)) == mchain_feed_count(*old(c)) + 1,
        mchain_wf(*final(c)),
{
    c.c.feed_str(msg);
}

/// Relies on `markov::Chain::is_empty`: true exactly when nothing has
/// been fed into the chain.
#[verifier::external_body]
pub(crate) fn mchain_is_empty(c: &MarkovChain) -> (r: bool)
    requires
        mchain_wf(*c),
    ensures
        r == (mchain_feed_count(*c) == 0),
{
    c.c.is_empty()
}

/// Relies on `markov::Chain::generate_str`: one randomly generated
/// utterance, drawn from the chain's support. The walk needs a sound
/// chain with at least one fed observation to draw from; beyond
/// membership in the support, nothing can be promised about the text.
/// One idealization is knowingly asserted: on a sound chain an end is
/// reachable from every state, yet a cyclic chain permits arbitrarily
/// long walks, so the draw returns only with probability one; this
/// contract treats that almost-sure return as total.
#[verifier::external_body]
pub(crate) fn mchain_generate_str(c: &MarkovChain) -> (r: String)
    requires
        mchain_wf(*c),
        mchain_feed_count(*c) > 0,
    ensures
        mchain_support(*c).contains(r@),
{
    c.c.generate_str()
}

/// Relies on `bincode::serialize`: the chain in bincode's stable binary
/// encoding. Serializing this map shape into memory cannot fail, the
/// bytes decode back, and what they decode to is the chain itself, so
/// its wire-level safety and support are the chain's own.
#[verifier::external_body]
pub(crate) fn mchain_encode(c: &MarkovChain) -> (r: Option<Vec<u8>>)
    requires
        mchain_wf(*c),
    ensures
        match r {
            Option::Some(b) => mchain_decodes(b@) && mchain_wire_safe(b@) && mchain_wire_support(
                b@,
            ) == mchain_support(*c),
            Option::None => false,
        },
{
    bincode::serialize(&c.c).ok()
}

/// Relies on `bincode::deserialize`: the chain a byte string decodes
/// to; an undecodable byte string as absence. When the wire-level
/// safety check holds of the bytes, the decoded chain is sound and its
/// support is the wire's.
#[verifier::external_body]
pub(crate) fn mchain_decode(bytes: &[u8]) -> (r: Option<MarkovChain>)
    ensures
        r is Some <==> mchain_decodes(bytes@),
        match r {
            Option::Some(c) => mchain_wire_safe(bytes@) ==> (mchain_wf(c) && mchain_support(c)
                == mchain_wire_support(bytes@)),
            Option::None => true,
        },
{
    match bincode::deserialize(bytes) {
        Result::Ok(c) => Option::Some(MarkovChain { c }),
        Result::Err(_) => Option::None,
    }
}

/// Relies on `bincode::deserialize`: the same bytes read into the
/// chain's plain wire shape, for verified code to inspect. A struct's
/// encoding is its fields in order, and a map and a sequence of pairs
/// share one encoding, so this succeeds exactly when decoding the chain
/// itself succeeds, and the mirror's structural safety is the wire's.
#[verifier::external_body]
pub(crate) fn mchain_decode_raw(bytes: &[u8]) -> (r: Option<RawChain>)
    ensures
        r is Some <==> mchain_decodes(bytes@),
        match r {
            Option::Some(raw) => spec_raw_safe(raw.deep_view()) == mchain_wire_safe(bytes@),
            Option::None => true,
        },
{
    bincode::deserialize(bytes).ok()
}

/// A generative model for one identity, with the ghost history of the
/// messages that trained it.
pub struct Model {
    nick: String,
    c: MarkovChain,
    hist: Ghost<Seq<Seq<char>>>,
}

impl Model {
    /// The identity this model is keyed by.
    pub closed spec fn spec_nick(&self) -> Seq<char> {
        self.nick@
    }

    /// The messages fed into this model, in order.
    pub closed spec fn spec_hist(&self) -> Seq<Seq<char>> {
        self.hist@
    }

    pub closed spec fn spec_feed_count(&self) -> nat {
        mchain_feed_count(self.c)
    }

    /// The set of utterances this model's sampling can produce.
    pub closed spec fn spec_support(&self) -> Set<Seq<char>> {
        mchain_support(self.c)
    }

    /// The ghost history accounts for every feeding operation, and the
    /// chain is structurally sound, so sampling from it is safe.
    pub closed spec fn wf(&self) -> bool {
        mchain_feed_count(self.c) == self.hist@.len() && mchain_wf(self.c)
    }

    /// The identity this model is keyed by.
    pub fn nick_str(&self) -> (r: &String)
        ensures
            r@ == self.spec_nick(),
    {
        &self.nick
    }

    /// A fresh, untrained model for the given identity.
    pub fn new(n: &str) -> (r: Model)
        ensures
            r.spec_nick() == n@,
            r.spec_hist() == Seq::<Seq<char>>::empty(),
            r.wf(),
    {
        Model { nick: n.to_owned(), c: mchain_new(), hist: Ghost(Seq::empty()) }
    }

    /// Feed one message as one independent training observation.
    pub fn feed(&mut self, msg: &str)
        requires
            old(self).wf(),
        ensures
            final(self).wf(),
            final(self).spec_nick() == old(self).spec_nick(),
            final(self).spec_hist() == old(self).spec_hist().push(msg@),
    {
        mchain_feed_str(&mut self.c, msg);
        proof {
            self.hist@ = self.hist@.push(msg@);
        }
    }

    /// Whether the model has seen no training observation at all.
    pub fn is_empty(&self) -> (r: bool)
        requires
            self.wf(),
        ensures
            r == (self.spec_feed_count() == 0),
            r == (self.spec_hist().len() == 0),
    {
        mchain_is_empty(&self.c)
    }

    /// One generated candidate utterance, out of the model's support.
    pub(crate) fn generate(&self) -> (r: String)
        requires
            self.wf(),
            self.spec_feed_count() > 0,
        ensures
            self.spec_support().contains(r@),
    {
        mchain_generate_str(&self.c)
    }

    /// Whether this model is persisted at all: identities whose
    /// normalized name is empty are kept while building but never
    /// written out.
    pub fn persistable(&self) -> (r: bool)
        ensures
            r == (self.spec_nick().len() != 0),
    {
        self.nick.as_str().unicode_len() > 0
    }

    /// The model in its persistent binary encoding: a byte string that
    /// decodes back, passes the structural safety check, and denotes a
    /// chain with exactly this model's sampling support.
    pub fn encode(&self) -> (r: Vec<u8>)
        requires
            self.wf(),
        ensures
            mchain_decodes(r@),
            mchain_wire_safe(r@),
            mchain_wire_support(r@) == self.spec_support(),
    {
        match mchain_encode(&self.c) {
            Option::Some(b) => b,
            Option::None => {
                proof {
                    assert(false);
                }
                Vec::new()
            },
        }
    }

    /// The model a persisted byte string decodes to, keyed by the given
    /// identity: present exactly when the bytes are a decodable chain
    /// encoding that passes the structural safety check, in which case
    /// the loaded model samples from the support the bytes denote. The
    /// training history behind the bytes is unknown; only its length is
    /// accounted for.
    pub fn decode(n: &str, bytes: &[u8]) -> (r: Option<Model>)
        ensures
            r is Some <==> (mchain_decodes(bytes@) && mchain_wire_safe(bytes@)),
            match r {
                Option::Some(m) => m.spec_nick() == n@ && m.wf() && m.spec_support()
                    == mchain_wire_support(bytes@),
                Option::None => true,
            },
    {
        match mchain_decode_raw(bytes) {
            Option::Some(raw) => {
                if !raw_safe(&raw) {
                    return Option::None;
                }
                match mchain_decode(bytes) {
                    Option::Some(c) => {
                        proof {
                            let w = Seq::new(mchain_feed_count(c), |i: int| Seq::<char>::empty());
                            assert(w.len() == mchain_feed_count(c));
                        }
                        let ghost h = choose|h: Seq<Seq<char>>| h.len() == mchain_feed_count(c);
                        Option::Some(Model { nick: n.to_owned(), c, hist: Ghost(h) })
                    },
                    Option::None => {
                        proof {
                            assert(false);
                        }
                        Option::None
                    },
                }
            },
            Option::None => Option::None,
        }
    }
}

} // verus!
