//! The persisted chain's wire shape, read back as plain values, and the
//! structural safety check a loaded chain must pass before the library
//! will sample from it.
//!
//! The binary encoding of a chain is its follower map and its order,
//! in that field order; a map and a sequence of key-value pairs share
//! one wire encoding, so the same bytes parse into this mirror of plain
//! values, which verified code can inspect.

use vstd::prelude::*;
use crate::log_parse::str_eq;

verus! {

/// One follower of a state: the token drawn next (`None` marks the end
/// of an utterance) and its positive draw weight.
pub type RawFollower = (Option<String>, usize);

/// One state of the chain: its key (the last `order` tokens) and its
/// follower table.
pub type RawState = (Vec<Option<String>>, Vec<RawFollower>);

/// The whole chain as laid out on the wire: the states and the order.
pub type RawChain = (Vec<RawState>, usize);

/// The spec-level view of a state key.
pub type KeyView = Seq<Option<Seq<char>>>;

/// The spec-level view of the wire shape.
pub type RawView = (Seq<(KeyView, Seq<(Option<Seq<char>>, usize)>)>, usize);

/// The start state's key: `order` empty slots.
pub open spec fn is_start_key(k: KeyView, order: int) -> bool {
    k.len() == order && (forall|j: int| 0 <= j < k.len() ==> k[j] is None)
}

/// The state the walk moves to after drawing token `t` in state `k`.
pub open spec fn succ_key(k: KeyView, t: Option<Seq<char>>) -> KeyView {
    k.skip(1).push(t)
}

/// The spec-level view of one state.
pub type StateView = (KeyView, Seq<(Option<Seq<char>>, usize)>);

/// Every key is exactly `order` tokens long.
pub open spec fn keys_len_ok(sv: Seq<StateView>, order: int) -> bool {
    forall|i: int| 0 <= i < sv.len() ==> (#[trigger] sv[i]).0.len() == order
}

/// No two states share a key.
pub open spec fn keys_distinct(sv: Seq<StateView>) -> bool {
    forall|i: int, j: int| 0 <= i < j < sv.len() ==> sv[i].0 != sv[j].0
}

/// The start state is present.
pub open spec fn has_start(sv: Seq<StateView>, order: int) -> bool {
    exists|i: int| 0 <= i < sv.len() && is_start_key((#[trigger] sv[i]).0, order)
}

/// Some state holds the successor of state `i` after follower `f`, with
/// a non-empty follower table to draw from.
pub open spec fn has_succ(sv: Seq<StateView>, i: int, f: int) -> bool {
    exists|j: int|
        0 <= j < sv.len() && (#[trigger] sv[j]).0 == succ_key(sv[i].0, sv[i].1[f].0) && sv[j].1.len()
            >= 1
}

/// Follower `f` of state `i` is sound: its weight is positive, and if it
/// is a token the walk can continue from, its successor state exists.
pub open spec fn follower_ok(sv: Seq<StateView>, i: int, f: int) -> bool {
    sv[i].1[f].1 >= 1 && (sv[i].1[f].0 is Some ==> has_succ(sv, i, f))
}

/// All followers of state `i` are sound.
pub open spec fn followers_ok(sv: Seq<StateView>, i: int) -> bool {
    forall|f: int| 0 <= f < sv[i].1.len() ==> follower_ok(sv, i, f)
}

/// State `i` can stop emitting within `steps` draws: some follower is
/// an end-of-utterance marker, or some drawable follower leads to a
/// state that can stop within one draw fewer.
pub open spec fn can_end_within(sv: Seq<StateView>, i: int, steps: nat) -> bool
    decreases steps, 0int,
{
    0 <= i < sv.len() && exists|f: int|
        0 <= f < sv[i].1.len() && ((#[trigger] sv[i].1[f]).0 is None || (steps > 0 && sv[i].1[f].0
            is Some && can_step(sv, i, f, (steps - 1) as nat)))
}

/// Drawing follower `f` in state `i` moves to a state that can stop
/// within `steps` draws.
pub open spec fn can_step(sv: Seq<StateView>, i: int, f: int, steps: nat) -> bool
    decreases steps, 1int,
{
    exists|j: int|
        0 <= j < sv.len() && (#[trigger] sv[j]).0 == succ_key(sv[i].0, sv[i].1[f].0)
            && can_end_within(sv, j, steps)
}

/// A path that stops can be shortened below the number of states, so
/// `sv.len()` draws are enough to decide reachability of an end.
pub open spec fn can_end(sv: Seq<StateView>, i: int) -> bool {
    can_end_within(sv, i, sv.len())
}

/// Every state the walk can draw from can also reach an end.
pub open spec fn all_can_end(sv: Seq<StateView>) -> bool {
    forall|i: int| 0 <= i < sv.len() && (#[trigger] sv[i]).1.len() >= 1 ==> can_end(sv, i)
}

/// Being able to stop within some bound implies being able to stop
/// within any larger bound.
pub proof fn lemma_within_mono(sv: Seq<StateView>, i: int, s1: nat, s2: nat)
    requires
        s1 <= s2,
        can_end_within(sv, i, s1),
    ensures
        can_end_within(sv, i, s2),
    decreases s1,
{
    let f = choose|f: int|
        0 <= f < sv[i].1.len() && ((#[trigger] sv[i].1[f]).0 is None || (s1 > 0 && sv[i].1[f].0
            is Some && can_step(sv, i, f, (s1 - 1) as nat)));
    if sv[i].1[f].0 is None {
        assert(can_end_within(sv, i, s2));
    } else {
        let j = choose|j: int|
            0 <= j < sv.len() && (#[trigger] sv[j]).0 == succ_key(sv[i].0, sv[i].1[f].0)
                && can_end_within(sv, j, (s1 - 1) as nat);
        lemma_within_mono(sv, j, (s1 - 1) as nat, (s2 - 1) as nat);
        assert(can_step(sv, i, f, (s2 - 1) as nat));
        assert(can_end_within(sv, i, s2));
    }
}

/// The structural invariant a chain must satisfy for sampling to be
/// safe: a positive order, full-length distinct keys, the start state
/// present, every drawable token leading to a present, drawable state,
/// and from every drawable state an end-of-utterance follower reachable,
/// so a walk is never forced to run forever. Every chain built by
/// feeding satisfies this; a foreign byte string need not.
pub open spec fn spec_raw_safe(v: RawView) -> bool {
    &&& v.1 >= 1
    &&& keys_len_ok(v.0, v.1 as int)
    &&& keys_distinct(v.0)
    &&& has_start(v.0, v.1 as int)
    &&& forall|i: int| 0 <= i < v.0.len() ==> followers_ok(v.0, i)
    &&& all_can_end(v.0)
}

fn opt_str_eq(a: &Option<String>, b: &Option<String>) -> (r: bool)
    ensures
        r == (a.deep_view() == b.deep_view()),
{
    match (a, b) {
        (Option::None, Option::None) => true,
        (Option::Some(x), Option::Some(y)) => str_eq(x.as_str(), y.as_str()),
        _ => false,
    }
}

fn key_eq(a: &Vec<Option<String>>, b: &Vec<Option<String>>) -> (r: bool)
    ensures
        r == (a.deep_view() == b.deep_view()),
{
    let n = a.len();
    if n != b.len() {
        proof {
            assert(a.deep_view().len() != b.deep_view().len());
        }
        return false;
    }
    let mut i: usize = 0;
    while i < n
        invariant
            i <= n,
            n == a@.len() == b@.len(),
            forall|j: int| 0 <= j < i ==> a.deep_view()[j] == b.deep_view()[j],
        decreases n - i,
    {
        if !opt_str_eq(&a[i], &b[i]) {
            proof {
                assert(a.deep_view()[i as int] != b.deep_view()[i as int]);
            }
            return false;
        }
        i = i + 1;
    }
    proof {
        assert(a.deep_view() =~= b.deep_view());
    }
    true
}

fn key_is_start(k: &Vec<Option<String>>, order: usize) -> (r: bool)
    ensures
        r == is_start_key(k.deep_view(), order as int),
{
    let n = k.len();
    if n != order {
        return false;
    }
    let mut i: usize = 0;
    while i < n
        invariant
            i <= n,
            n == k@.len(),
            n == order,
            forall|j: int| 0 <= j < i ==> k.deep_view()[j] is None,
        decreases n - i,
    {
        if k[i].is_some() {
            proof {
                assert(!(k.deep_view()[i as int] is None));
            }
            return false;
        }
        i = i + 1;
    }
    true
}

fn key_is_succ(c: &Vec<Option<String>>, k: &Vec<Option<String>>, t: &Option<String>) -> (r: bool)
    requires
        k@.len() >= 1,
    ensures
        r == (c.deep_view() == succ_key(k.deep_view(), t.deep_view())),
{
    let n = k.len();
    let ghost s = succ_key(k.deep_view(), t.deep_view());
    proof {
        assert(s.len() == n);
    }
    if c.len() != n {
        return false;
    }
    let mut i: usize = 0;
    while i < n - 1
        invariant
            i <= n - 1,
            n == k@.len() == c@.len(),
            n >= 1,
            s == succ_key(k.deep_view(), t.deep_view()),
            s.len() == n,
            forall|j: int| 0 <= j < i ==> c.deep_view()[j] == s[j],
        decreases n - i,
    {
        if !opt_str_eq(&c[i], &k[i + 1]) {
            proof {
                assert(s[i as int] == k.deep_view().skip(1)[i as int]);
                assert(c.deep_view()[i as int] != s[i as int]);
            }
            return false;
        }
        proof {
            assert(s[i as int] == k.deep_view().skip(1)[i as int]);
        }
        i = i + 1;
    }
    if !opt_str_eq(&c[n - 1], t) {
        proof {
            assert(s[n - 1] == t.deep_view());
        }
        return false;
    }
    proof {
        assert(s[n - 1] == t.deep_view());
        assert(c.deep_view() =~= s);
    }
    true
}

fn check_keys_len(states: &Vec<RawState>, order: usize) -> (r: bool)
    ensures
        r == keys_len_ok(states.deep_view(), order as int),
{
    let n = states.len();
    let mut i: usize = 0;
    while i < n
        invariant
            i <= n,
            n == states@.len(),
            forall|j: int| 0 <= j < i ==> (#[trigger] states.deep_view()[j]).0.len() == order,
        decreases n - i,
    {
        if states[i].0.len() != order {
            proof {
                assert(states.deep_view()[i as int].0.len() != order as int);
            }
            return false;
        }
        proof {
            assert(states.deep_view()[i as int].0.len() == order as int);
        }
        i = i + 1;
    }
    true
}

fn check_keys_distinct(states: &Vec<RawState>) -> (r: bool)
    ensures
        r == keys_distinct(states.deep_view()),
{
    let n = states.len();
    let mut i: usize = 0;
    while i < n
        invariant
            i <= n,
            n == states@.len(),
            forall|p: int, q: int|
                0 <= p < q < n && p < i ==> states.deep_view()[p].0 != states.deep_view()[q].0,
        decreases n - i,
    {
        let mut j: usize = i + 1;
        while j < n
            invariant
                i < j <= n,
                i < n,
                n == states@.len(),
                forall|q: int|
                    i < q < j ==> states.deep_view()[i as int].0 != states.deep_view()[q].0,
            decreases n - j,
        {
            if key_eq(&states[i].0, &states[j].0) {
                proof {
                    assert(states.deep_view()[i as int].0 == states.deep_view()[j as int].0);
                }
                return false;
            }
            proof {
                assert(states.deep_view()[i as int].0 != states.deep_view()[j as int].0);
            }
            j = j + 1;
        }
        i = i + 1;
    }
    true
}

fn check_has_start(states: &Vec<RawState>, order: usize) -> (r: bool)
    ensures
        r == has_start(states.deep_view(), order as int),
{
    let n = states.len();
    let mut i: usize = 0;
    while i < n
        invariant
            i <= n,
            n == states@.len(),
            forall|j: int|
                0 <= j < i ==> !is_start_key((#[trigger] states.deep_view()[j]).0, order as int),
        decreases n - i,
    {
        if key_is_start(&states[i].0, order) {
            proof {
                assert(is_start_key(states.deep_view()[i as int].0, order as int));
            }
            return true;
        }
        proof {
            assert(!is_start_key(states.deep_view()[i as int].0, order as int));
        }
        i = i + 1;
    }
    proof {
        if has_start(states.deep_view(), order as int) {
            let j = choose|j: int|
                0 <= j < states.deep_view().len() && is_start_key(
                    (#[trigger] states.deep_view()[j]).0,
                    order as int,
                );
        }
    }
    false
}

fn find_succ(states: &Vec<RawState>, i: usize, f: usize) -> (r: bool)
    requires
        i < states@.len(),
        f < states@[i as int].1@.len(),
        states.deep_view()[i as int].0.len() >= 1,
    ensures
        r == has_succ(states.deep_view(), i as int, f as int),
{
    let ghost sv = states.deep_view();
    let n = states.len();
    let k = &states[i].0;
    let t = &states[i].1[f].0;
    proof {
        assert(k.deep_view() == sv[i as int].0);
        assert(states@[i as int].1.deep_view() == sv[i as int].1);
        assert(t.deep_view() == sv[i as int].1[f as int].0);
        assert(k@.len() == sv[i as int].0.len());
    }
    let mut j: usize = 0;
    while j < n
        invariant
            j <= n,
            n == states@.len(),
            sv == states.deep_view(),
            i < n,
            k == &states@[i as int].0,
            t == &states@[i as int].1@[f as int].0,
            k.deep_view() == sv[i as int].0,
            t.deep_view() == sv[i as int].1[f as int].0,
            k@.len() >= 1,
            forall|q: int|
                0 <= q < j ==> !((#[trigger] sv[q]).0 == succ_key(
                    sv[i as int].0,
                    sv[i as int].1[f as int].0,
                ) && sv[q].1.len() >= 1),
        decreases n - j,
    {
        if states[j].1.len() >= 1 && key_is_succ(&states[j].0, k, t) {
            proof {
                assert(states.deep_view()[j as int].0 == succ_key(
                    sv[i as int].0,
                    sv[i as int].1[f as int].0,
                ));
                assert(states.deep_view()[j as int].1.len() >= 1);
                assert(has_succ(sv, i as int, f as int));
            }
            return true;
        }
        proof {
            assert(!(sv[j as int].0 == succ_key(sv[i as int].0, sv[i as int].1[f as int].0)
                && sv[j as int].1.len() >= 1));
        }
        j = j + 1;
    }
    proof {
        if has_succ(sv, i as int, f as int) {
            let q = choose|q: int|
                0 <= q < sv.len() && (#[trigger] sv[q]).0 == succ_key(
                    sv[i as int].0,
                    sv[i as int].1[f as int].0,
                ) && sv[q].1.len() >= 1;
        }
    }
    false
}

fn check_followers(states: &Vec<RawState>, order: usize) -> (r: bool)
    requires
        order >= 1,
        keys_len_ok(states.deep_view(), order as int),
    ensures
        r == (forall|i: int|
            0 <= i < states.deep_view().len() ==> followers_ok(states.deep_view(), i)),
{
    let ghost sv = states.deep_view();
    let n = states.len();
    let mut i: usize = 0;
    while i < n
        invariant
            i <= n,
            n == states@.len(),
            sv == states.deep_view(),
            order >= 1,
            keys_len_ok(sv, order as int),
            forall|p: int| 0 <= p < i ==> followers_ok(sv, p),
        decreases n - i,
    {
        let m = states[i].1.len();
        proof {
            assert(sv[i as int].1 == states@[i as int].1.deep_view());
            assert(sv[i as int].1.len() == m);
        }
        let mut f: usize = 0;
        while f < m
            invariant
                f <= m,
                i < n,
                n == states@.len(),
                m == states@[i as int].1@.len(),
                sv == states.deep_view(),
                sv[i as int].1.len() == m,
                order >= 1,
                keys_len_ok(sv, order as int),
                forall|g: int| 0 <= g < f ==> follower_ok(sv, i as int, g),
            decreases m - f,
        {
            proof {
                assert(sv[i as int].1[f as int] == (#[trigger] states@[i as int].1@[f as int]).deep_view());
            }
            if states[i].1[f].1 < 1 {
                proof {
                    assert(sv[i as int].1[f as int].1 < 1);
                    assert(!follower_ok(sv, i as int, f as int));
                    assert(!followers_ok(sv, i as int));
                    assert(!(forall|p: int| 0 <= p < sv.len() ==> followers_ok(sv, p)));
                }
                return false;
            }
            if states[i].1[f].0.is_some() {
                proof {
                    assert(sv[i as int].0.len() == order as int);
                }
                if !find_succ(states, i, f) {
                    proof {
                        assert(sv[i as int].1[f as int].0 is Some);
                        assert(!follower_ok(sv, i as int, f as int));
                        assert(!followers_ok(sv, i as int));
                        assert(!(forall|p: int| 0 <= p < sv.len() ==> followers_ok(sv, p)));
                    }
                    return false;
                }
            }
            proof {
                assert(follower_ok(sv, i as int, f as int));
            }
            f = f + 1;
        }
        i = i + 1;
    }
    true
}

/// Whether some state's key holds the successor of state `i` after its
/// drawable follower `f`, and is marked.
pub open spec fn step_marked(sv: Seq<StateView>, marks: Seq<bool>, i: int, f: int) -> bool {
    exists|j: int|
        0 <= j < sv.len() && (#[trigger] sv[j]).0 == succ_key(sv[i].0, sv[i].1[f].0) && marks[j]
}

/// Whether some drawable follower of state `i` leads to a marked state.
pub open spec fn any_step_marked(sv: Seq<StateView>, marks: Seq<bool>, i: int) -> bool {
    exists|f: int|
        0 <= f < sv[i].1.len() && (#[trigger] sv[i].1[f]).0 is Some && step_marked(sv, marks, i, f)
}

/// One propagation round turns "can stop within `t`" marks into "can
/// stop within `t + 1`" marks.
proof fn lemma_round(sv: Seq<StateView>, marks: Seq<bool>, i: int, t: nat)
    requires
        marks.len() == sv.len(),
        forall|j: int| 0 <= j < sv.len() ==> marks[j] == can_end_within(sv, j, t),
        0 <= i < sv.len(),
    ensures
        (marks[i] || any_step_marked(sv, marks, i)) == can_end_within(sv, i, t + 1),
{
    if marks[i] {
        lemma_within_mono(sv, i, t, t + 1);
    }
    if any_step_marked(sv, marks, i) {
        let f = choose|f: int|
            0 <= f < sv[i].1.len() && (#[trigger] sv[i].1[f]).0 is Some && step_marked(
                sv,
                marks,
                i,
                f,
            );
        let j = choose|j: int|
            0 <= j < sv.len() && (#[trigger] sv[j]).0 == succ_key(sv[i].0, sv[i].1[f].0)
                && marks[j];
        assert(can_end_within(sv, j, t));
        assert(can_step(sv, i, f, t));
        assert(can_end_within(sv, i, t + 1));
    }
    if can_end_within(sv, i, t + 1) && !marks[i] && !any_step_marked(sv, marks, i) {
        let f = choose|f: int|
            0 <= f < sv[i].1.len() && ((#[trigger] sv[i].1[f]).0 is None || (t + 1 > 0
                && sv[i].1[f].0 is Some && can_step(sv, i, f, t)));
        if sv[i].1[f].0 is None {
            assert(can_end_within(sv, i, t));
            assert(false);
        } else {
            let j = choose|j: int|
                0 <= j < sv.len() && (#[trigger] sv[j]).0 == succ_key(sv[i].0, sv[i].1[f].0)
                    && can_end_within(sv, j, t);
            assert(marks[j]);
            assert(step_marked(sv, marks, i, f));
            assert(any_step_marked(sv, marks, i));
            assert(false);
        }
    }
}

fn has_none_follower(states: &Vec<RawState>, i: usize) -> (r: bool)
    requires
        i < states@.len(),
    ensures
        r == can_end_within(states.deep_view(), i as int, 0),
{
    let ghost sv = states.deep_view();
    let m = states[i].1.len();
    proof {
        assert(sv[i as int].1.len() == m);
    }
    let mut f: usize = 0;
    while f < m
        invariant
            f <= m,
            i < states@.len(),
            m == states@[i as int].1@.len(),
            sv == states.deep_view(),
            sv[i as int].1.len() == m,
            forall|g: int| 0 <= g < f ==> !((#[trigger] sv[i as int].1[g]).0 is None),
        decreases m - f,
    {
        proof {
            assert(sv[i as int].1[f as int] == (#[trigger] states@[i as int].1@[f as int]).deep_view());
        }
        if states[i].1[f].0.is_none() {
            proof {
                assert(sv[i as int].1[f as int].0 is None);
                assert(can_end_within(sv, i as int, 0));
            }
            return true;
        }
        f = f + 1;
    }
    proof {
        if can_end_within(sv, i as int, 0) {
            let g = choose|g: int|
                0 <= g < sv[i as int].1.len() && ((#[trigger] sv[i as int].1[g]).0 is None || (
                0nat > 0 && sv[i as int].1[g].0 is Some && can_step(
                    sv,
                    i as int,
                    g,
                    (0nat - 1) as nat,
                )));
            assert(sv[i as int].1[g].0 is None);
        }
    }
    false
}

fn step_scan(states: &Vec<RawState>, marks: &Vec<bool>, i: usize) -> (r: bool)
    requires
        i < states@.len(),
        marks@.len() == states@.len(),
        states.deep_view()[i as int].0.len() >= 1,
    ensures
        r == any_step_marked(states.deep_view(), marks@, i as int),
{
    let ghost sv = states.deep_view();
    let n = states.len();
    let m = states[i].1.len();
    proof {
        assert(sv[i as int].1.len() == m);
    }
    let mut f: usize = 0;
    while f < m
        invariant
            f <= m,
            i < n,
            n == states@.len(),
            n == marks@.len(),
            m == states@[i as int].1@.len(),
            sv == states.deep_view(),
            sv[i as int].1.len() == m,
            sv[i as int].0.len() >= 1,
            forall|g: int|
                0 <= g < f ==> !((#[trigger] sv[i as int].1[g]).0 is Some && step_marked(
                    sv,
                    marks@,
                    i as int,
                    g,
                )),
        decreases m - f,
    {
        proof {
            assert(sv[i as int].1[f as int] == (#[trigger] states@[i as int].1@[f as int]).deep_view());
        }
        if states[i].1[f].0.is_some() {
            let mut j: usize = 0;
            while j < n
                invariant
                    j <= n,
                    i < n,
                    f < m,
                    n == states@.len(),
                    n == marks@.len(),
                    m == states@[i as int].1@.len(),
                    sv == states.deep_view(),
                    sv[i as int].1.len() == m,
                    sv[i as int].0.len() >= 1,
                    sv[i as int].1[f as int].0 is Some,
                    forall|q: int|
                        0 <= q < j ==> !((#[trigger] sv[q]).0 == succ_key(
                            sv[i as int].0,
                            sv[i as int].1[f as int].0,
                        ) && marks@[q]),
                decreases n - j,
            {
                if marks[j] && key_is_succ(&states[j].0, &states[i].0, &states[i].1[f].0) {
                    proof {
                        assert(sv[j as int].0 == succ_key(
                            sv[i as int].0,
                            sv[i as int].1[f as int].0,
                        ));
                        assert(step_marked(sv, marks@, i as int, f as int));
                        assert(any_step_marked(sv, marks@, i as int));
                    }
                    return true;
                }
                proof {
                    assert(!(sv[j as int].0 == succ_key(sv[i as int].0, sv[i as int].1[f as int].0)
                        && marks@[j as int]));
                }
                j = j + 1;
            }
            proof {
                if step_marked(sv, marks@, i as int, f as int) {
                    let q = choose|q: int|
                        0 <= q < sv.len() && (#[trigger] sv[q]).0 == succ_key(
                            sv[i as int].0,
                            sv[i as int].1[f as int].0,
                        ) && marks@[q];
                }
                assert(!step_marked(sv, marks@, i as int, f as int));
            }
        }
        f = f + 1;
    }
    proof {
        if any_step_marked(sv, marks@, i as int) {
            let g = choose|g: int|
                0 <= g < sv[i as int].1.len() && (#[trigger] sv[i as int].1[g]).0 is Some
                    && step_marked(sv, marks@, i as int, g);
        }
    }
    false
}

fn check_can_end(states: &Vec<RawState>, order: usize) -> (r: bool)
    requires
        order >= 1,
        keys_len_ok(states.deep_view(), order as int),
    ensures
        r == all_can_end(states.deep_view()),
{
    let ghost sv = states.deep_view();
    let n = states.len();
    let mut mark: Vec<bool> = Vec::new();
    let mut i: usize = 0;
    while i < n
        invariant
            i <= n,
            n == states@.len(),
            sv == states.deep_view(),
            mark@.len() == i,
            forall|j: int| 0 <= j < i ==> mark@[j] == can_end_within(sv, j, 0),
        decreases n - i,
    {
        let b = has_none_follower(states, i);
        mark.push(b);
        i = i + 1;
    }
    let mut t: usize = 0;
    while t < n
        invariant
            t <= n,
            n == states@.len(),
            sv == states.deep_view(),
            order >= 1,
            keys_len_ok(sv, order as int),
            mark@.len() == n,
            forall|j: int| 0 <= j < n ==> mark@[j] == can_end_within(sv, j, t as nat),
        decreases n - t,
    {
        let mut next: Vec<bool> = Vec::new();
        let mut i: usize = 0;
        while i < n
            invariant
                i <= n,
                t < n,
                n == states@.len(),
                sv == states.deep_view(),
                order >= 1,
                keys_len_ok(sv, order as int),
                mark@.len() == n,
                forall|j: int| 0 <= j < n ==> mark@[j] == can_end_within(sv, j, t as nat),
                next@.len() == i,
                forall|j: int| 0 <= j < i ==> next@[j] == can_end_within(sv, j, (t + 1) as nat),
            decreases n - i,
        {
            proof {
                assert(sv[i as int].0.len() == order as int);
            }
            let b = mark[i] || step_scan(states, &mark, i);
            proof {
                lemma_round(sv, mark@, i as int, t as nat);
            }
            next.push(b);
            i = i + 1;
        }
        mark = next;
        t = t + 1;
    }
    let mut i: usize = 0;
    while i < n
        invariant
            i <= n,
            n == states@.len(),
            sv == states.deep_view(),
            mark@.len() == n,
            forall|j: int| 0 <= j < n ==> mark@[j] == can_end_within(sv, j, n as nat),
            forall|j: int| 0 <= j < i && (#[trigger] sv[j]).1.len() >= 1 ==> can_end(sv, j),
        decreases n - i,
    {
        if states[i].1.len() >= 1 && !mark[i] {
            proof {
                assert(sv[i as int].1.len() >= 1);
                assert(sv.len() == n);
                assert(!can_end(sv, i as int));
                assert(!all_can_end(sv));
            }
            return false;
        }
        proof {
            if sv[i as int].1.len() >= 1 {
                assert(mark@[i as int]);
                assert(can_end(sv, i as int));
            }
        }
        i = i + 1;
    }
    true
}

/// Whether a decoded wire value satisfies the structural invariant, so
/// that sampling from the chain it denotes cannot go wrong.
pub fn raw_safe(raw: &RawChain) -> (r: bool)
    ensures
        r == spec_raw_safe(raw.deep_view()),
{
    let states = &raw.0;
    let order = raw.1;
    proof {
        assert(raw.deep_view() == (states.deep_view(), order));
    }
    if order < 1 {
        return false;
    }
    if !check_keys_len(states, order) {
        return false;
    }
    if !check_keys_distinct(states) {
        return false;
    }
    if !check_has_start(states, order) {
        return false;
    }
    if !check_followers(states, order) {
        return false;
    }
    if !check_can_end(states, order) {
        return false;
    }
    true
}

} // verus!
