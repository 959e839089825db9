//! The model builder: consume the log parser to completion and
//! accumulate one generative model per identity.

use vstd::prelude::*;
use crate::log_parse::{Parser, ParseRes, line_result, EntryModel, str_eq};
use crate::model::Model;

verus! {

/// The records the given lines parse to, in order.
pub open spec fn entries_of(lines: Seq<Seq<char>>) -> Seq<EntryModel>
    decreases lines.len(),
{
    if lines.len() == 0 {
        Seq::empty()
    } else {
        let rest = entries_of(lines.drop_last());
        match line_result(lines.last()) {
            Option::Some(e) => rest.push(e),
            Option::None => rest,
        }
    }
}

/// The messages among `entries` attributed to `nick`, in order.
pub open spec fn msgs_for(entries: Seq<EntryModel>, nick: Seq<char>) -> Seq<Seq<char>>
    decreases entries.len(),
{
    if entries.len() == 0 {
        Seq::empty()
    } else {
        let rest = msgs_for(entries.drop_last(), nick);
        if entries.last().nick == nick {
            rest.push(entries.last().msg)
        } else {
            rest
        }
    }
}

/// Whether some entry of `entries` is attributed to `nick`.
pub open spec fn has_nick(entries: Seq<EntryModel>, nick: Seq<char>) -> bool {
    exists|i: int| 0 <= i < entries.len() && (#[trigger] entries[i]).nick == nick
}

/// An identity no entry is attributed to has no messages.
pub proof fn lemma_msgs_for_absent(entries: Seq<EntryModel>, nick: Seq<char>)
    requires
        !has_nick(entries, nick),
    ensures
        msgs_for(entries, nick) == Seq::<Seq<char>>::empty(),
    decreases entries.len(),
{
    if entries.len() > 0 {
        assert(entries[entries.len() - 1].nick != nick);
        assert forall|i: int|
            0 <= i < entries.drop_last().len() implies (#[trigger] entries.drop_last()[i]).nick
            != nick by {
            assert(entries.drop_last()[i] == entries[i]);
        }
        lemma_msgs_for_absent(entries.drop_last(), nick);
    } else {
        assert(msgs_for(entries, nick) =~= Seq::<Seq<char>>::empty());
    }
}

/// Consume the parser from the first line to the end and build the
/// models: one per identity that the log attributes a message to, each
/// model's history being exactly those messages in log order, and no
/// identity appearing twice.
pub fn build_models(parser: &mut Parser) -> (r: Vec<Model>)
    requires
        old(parser).wf(),
        old(parser).spec_pos() == 0,
    ensures
        forall|k: int| 0 <= k < r@.len() ==> (#[trigger] r@[k]).wf(),
        forall|k: int|
            0 <= k < r@.len() ==> (#[trigger] r@[k]).spec_hist() == msgs_for(
                entries_of(old(parser).spec_lines()),
                r@[k].spec_nick(),
            ),
        forall|k1: int, k2: int|
            0 <= k1 < k2 < r@.len() ==> r@[k1].spec_nick() != r@[k2].spec_nick(),
        forall|n2: Seq<char>| #[trigger]
            has_nick(entries_of(old(parser).spec_lines()), n2) == (exists|k: int|
                0 <= k < r@.len() && (#[trigger] r@[k]).spec_nick() == n2),
{
    let ghost lines = old(parser).spec_lines();
    let mut models: Vec<Model> = Vec::new();
    let mut done = false;
    proof {
        assert(lines.take(0) =~= Seq::<Seq<char>>::empty());
    }
    while !done
        invariant
            parser.wf(),
            parser.spec_lines() == lines,
            done ==> parser.spec_pos() == lines.len(),
            forall|k: int| 0 <= k < models@.len() ==> (#[trigger] models@[k]).wf(),
            forall|k: int|
                0 <= k < models@.len() ==> (#[trigger] models@[k]).spec_hist() == msgs_for(
                    entries_of(lines.take(parser.spec_pos() as int)),
                    models@[k].spec_nick(),
                ),
            forall|k1: int, k2: int|
                0 <= k1 < k2 < models@.len() ==> models@[k1].spec_nick() != models@[k2].spec_nick(),
            forall|n2: Seq<char>| #[trigger]
                has_nick(entries_of(lines.take(parser.spec_pos() as int)), n2) == (exists|k: int|
                    0 <= k < models@.len() && (#[trigger] models@[k]).spec_nick() == n2),
        decreases lines.len() - parser.spec_pos() + (if done {
            0int
        } else {
            1int
        }),
    {
        let ghost p0 = parser.spec_pos();
        let ghost ent0 = entries_of(lines.take(p0 as int));
        let res = parser.next_entry();
        match res {
            ParseRes::Done => {
                done = true;
            },
            ParseRes::Skip => {
                proof {
                    let tp1 = lines.take(p0 + 1 as int);
                    assert(tp1.drop_last() =~= lines.take(p0 as int));
                    assert(tp1.last() == lines[p0 as int]);
                    assert(entries_of(tp1) == ent0);
                }
            },
            ParseRes::Yield(e) => {
                let ghost ent1 = entries_of(lines.take(p0 + 1 as int));
                proof {
                    let tp1 = lines.take(p0 + 1 as int);
                    assert(tp1.drop_last() =~= lines.take(p0 as int));
                    assert(tp1.last() == lines[p0 as int]);
                    assert(ent1 == ent0.push(e@));
                    assert(ent1.drop_last() =~= ent0);
                    assert forall|n2: Seq<char>| #[trigger]
                        has_nick(ent1, n2) == (has_nick(ent0, n2) || n2 == e@.nick) by {
                        if has_nick(ent1, n2) {
                            let i = choose|i: int| 0 <= i < ent1.len() && ent1[i].nick == n2;
                            if i < ent0.len() {
                                assert(ent1[i] == ent0[i]);
                            }
                        }
                        if has_nick(ent0, n2) {
                            let i = choose|i: int| 0 <= i < ent0.len() && ent0[i].nick == n2;
                            assert(ent1[i] == ent0[i]);
                            assert(ent1[i].nick == n2);
                        }
                        if n2 == e@.nick {
                            assert(ent1[ent1.len() - 1].nick == n2);
                        }
                    }
                    assert forall|n2: Seq<char>| n2 != e@.nick implies #[trigger] msgs_for(
                        ent1,
                        n2,
                    ) == msgs_for(ent0, n2) by {
                        assert(ent1.last() == e@);
                    }
                    assert(msgs_for(ent1, e@.nick) == msgs_for(ent0, e@.nick).push(e@.msg));
                }
                let n = models.len();
                let mut k: usize = 0;
                let mut found = false;
                while k < n
                    invariant
                        k <= n,
                        n == models.len(),
                        !found ==> forall|j: int|
                            0 <= j < k ==> (#[trigger] models@[j]).spec_nick() != e.nick@,
                        found ==> k < n && models@[k as int].spec_nick() == e.nick@,
                    ensures
                        found ==> k < n && models@[k as int].spec_nick() == e.nick@,
                        !found ==> forall|j: int|
                            0 <= j < n ==> (#[trigger] models@[j]).spec_nick() != e.nick@,
                    decreases n - k + (if found {
                            0int
                        } else {
                            1int
                        }),
                {
                    if str_eq(models[k].nick_str().as_str(), e.nick.as_str()) {
                        found = true;
                        break ;
                    }
                    k = k + 1;
                }
                if found {
                    let ghost s0 = models@;
                    let mut m = models.remove(k);
                    m.feed(e.msg.as_str());
                    models.insert(k, m);
                    proof {
                        assert(models@ =~= s0.update(k as int, models@[k as int]));
                        let mk = models@[k as int];
                        assert(mk.spec_nick() == e.nick@);
                        assert(mk.spec_hist() == msgs_for(ent0, mk.spec_nick()).push(e@.msg));
                        assert(e@.nick == e.nick@);
                        assert(mk.spec_hist() == msgs_for(ent1, mk.spec_nick()));
                        assert forall|kk: int|
                            0 <= kk < models@.len() implies (#[trigger] models@[kk]).spec_hist()
                            == msgs_for(ent1, models@[kk].spec_nick()) by {
                            if kk != k {
                                assert(models@[kk] == s0[kk]);
                                assert(s0[kk].spec_nick() != e@.nick);
                            }
                        }
                        assert forall|n2: Seq<char>| #[trigger]
                            has_nick(ent1, n2) == (exists|kk: int|
                                0 <= kk < models@.len() && (#[trigger] models@[kk]).spec_nick()
                                    == n2) by {
                            if has_nick(ent1, n2) {
                                if n2 == e@.nick {
                                    assert(models@[k as int].spec_nick() == n2);
                                } else {
                                    let kk = choose|kk: int|
                                        0 <= kk < s0.len() && (#[trigger] s0[kk]).spec_nick()
                                            == n2;
                                    assert(models@[kk].spec_nick() == n2);
                                }
                            }
                            if exists|kk: int|
                                0 <= kk < models@.len() && (#[trigger] models@[kk]).spec_nick()
                                    == n2 {
                                let kk = choose|kk: int|
                                    0 <= kk < models@.len() && (#[trigger] models@[kk]).spec_nick()
                                        == n2;
                                assert(s0[kk].spec_nick() == n2);
                            }
                        }
                    }
                } else {
                    let ghost s0 = models@;
                    let mut m = Model::new(e.nick.as_str());
                    m.feed(e.msg.as_str());
                    proof {
                        assert(e@.nick == e.nick@);
                        if has_nick(ent0, e@.nick) {
                            let kk = choose|kk: int|
                                0 <= kk < models@.len() && (#[trigger] models@[kk]).spec_nick()
                                    == e@.nick;
                            assert(models@[kk].spec_nick() != e.nick@);
                            assert(false);
                        }
                        lemma_msgs_for_absent(ent0, e@.nick);
                        assert(m.spec_hist() =~= msgs_for(ent1, e@.nick));
                    }
                    models.push(m);
                    proof {
                        assert(models@ == s0.push(m));
                        assert forall|kk: int|
                            0 <= kk < models@.len() implies (#[trigger] models@[kk]).spec_hist()
                            == msgs_for(ent1, models@[kk].spec_nick()) by {
                            if kk < s0.len() {
                                assert(models@[kk] == s0[kk]);
                                assert(s0[kk].spec_nick() != e@.nick);
                            } else {
                                assert(models@[kk] == m);
                            }
                        }
                        assert forall|n2: Seq<char>| #[trigger]
                            has_nick(ent1, n2) == (exists|kk: int|
                                0 <= kk < models@.len() && (#[trigger] models@[kk]).spec_nick()
                                    == n2) by {
                            if has_nick(ent1, n2) {
                                if n2 == e@.nick {
                                    assert(models@[s0.len() as int].spec_nick() == n2);
                                } else {
                                    let kk = choose|kk: int|
                                        0 <= kk < s0.len() && (#[trigger] s0[kk]).spec_nick()
                                            == n2;
                                    assert(models@[kk].spec_nick() == n2);
                                }
                            }
                            if exists|kk: int|
                                0 <= kk < models@.len() && (#[trigger] models@[kk]).spec_nick()
                                    == n2 {
                                let kk = choose|kk: int|
                                    0 <= kk < models@.len() && (#[trigger] models@[kk]).spec_nick()
                                        == n2;
                                if kk < s0.len() {
                                    assert(s0[kk].spec_nick() == n2);
                                } else {
                                    assert(n2 == e@.nick);
                                }
                            }
                        }
                    }
                }
            },
        }
    }
    proof {
        assert(lines.take(parser.spec_pos() as int) =~= lines);
    }
    models
}

} // verus!
