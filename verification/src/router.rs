//! Command recognition for the inbound message stream: a message either
//! carries a model query for some identity, or is ignored.

use vstd::prelude::*;
use crate::log_parse::{spec_normalize, spec_trim_ws, normalize_nick, trim_ws};

verus! {

/// The literal prefix that marks an inbound message as a command.
pub const CMD_PREFIX: &'static str = "!charlie";

/// Whether a message line is a command: it starts with the prefix.
pub open spec fn spec_is_cmd(line: Seq<char>) -> bool {
    line.len() >= CMD_PREFIX@.len() && line.subrange(0, CMD_PREFIX@.len() as int) == CMD_PREFIX@
}

/// The command's target identity: the text after the prefix, trimmed,
/// then normalized exactly as the log parser normalizes identities.
pub open spec fn spec_cmd_target(line: Seq<char>) -> Seq<char> {
    spec_normalize(spec_trim_ws(line.subrange(CMD_PREFIX@.len() as int, line.len() as int)))
}

/// What to do with one inbound message.
pub enum RouteAction {
    /// Not a command: no side effect at all.
    Ignore,
    /// A command: look up the model for this normalized identity and
    /// answer with a reply from it.
    Query(String),
}

/// Recognize a command and extract its normalized target identity.
pub fn route_inbound(line: &str) -> (r: RouteAction)
    ensures
        match r {
            RouteAction::Ignore => !spec_is_cmd(line@),
            RouteAction::Query(nick) => spec_is_cmd(line@) && nick@ == spec_cmd_target(line@),
        },
{
    let n = line.unicode_len();
    let p = CMD_PREFIX.unicode_len();
    if n < p {
        return RouteAction::Ignore;
    }
    let mut i: usize = 0;
    while i < p
        invariant
            i <= p,
            p == CMD_PREFIX@.len(),
            p <= n,
            n == line@.len(),
            forall|j: int| 0 <= j < i ==> line@[j] == CMD_PREFIX@[j],
        decreases p - i,
    {
        if line.get_char(i) != CMD_PREFIX.get_char(i) {
            proof {
                assert(line@.subrange(0, p as int)[i as int] != CMD_PREFIX@[i as int]);
            }
            return RouteAction::Ignore;
        }
        i = i + 1;
    }
    proof {
        assert(line@.subrange(0, p as int) =~= CMD_PREFIX@);
    }
    let rest = line.substring_char(p, n);
    let trimmed = trim_ws(rest);
    RouteAction::Query(normalize_nick(trimmed))
}

} // verus!
