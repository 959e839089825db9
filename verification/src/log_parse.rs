//! Streaming chat-log parsing: line tokenization, identity normalization,
//! and the record type the rest of the library consumes.

use vstd::prelude::*;

verus! {

/// ASCII whitespace, as used to delimit log-line fields.
pub open spec fn is_ws_char(c: char) -> bool {
    c == ' ' || c == '\t' || c == '\n' || c == '\r' || c == '\u{c}'
}

/// Decoration characters that surround a raw identity token in logs
/// (channel-operator and bracket decorations).
pub open spec fn is_decor_char(c: char) -> bool {
    c == '@' || c == '>' || c == '<'
}

/// Characters removed from both ends of an identity during normalization.
pub open spec fn is_strip_char(c: char) -> bool {
    is_ws_char(c) || is_decor_char(c)
}

/// Index of the first character at or after `i` that is not stripped
/// (or `s.len()` if every remaining character is stripped).
pub open spec fn first_unstripped(s: Seq<char>, i: int) -> int
    decreases s.len() - i,
{
    if i < 0 || i >= s.len() {
        s.len() as int
    } else if is_strip_char(s[i]) {
        first_unstripped(s, i + 1)
    } else {
        i
    }
}

/// Exclusive end of the last non-stripped character strictly before `i`
/// (or `0` if every earlier character is stripped).
pub open spec fn last_unstripped(s: Seq<char>, i: int) -> int
    decreases i,
{
    if i <= 0 || i > s.len() {
        0
    } else if is_strip_char(s[i - 1]) {
        last_unstripped(s, i - 1)
    } else {
        i
    }
}

/// ASCII lowercasing of one character.
pub open spec fn lower_char(c: char) -> char {
    if 65 <= c as u32 && c as u32 <= 90 {
        ((c as u32 + 32) as char)
    } else {
        c
    }
}

/// What remains of `s` after stripping whitespace and decoration from
/// both ends.
pub open spec fn spec_strip(s: Seq<char>) -> Seq<char> {
    let lo = first_unstripped(s, 0);
    let hi = last_unstripped(s, s.len() as int);
    if lo <= hi {
        s.subrange(lo, hi)
    } else {
        Seq::empty()
    }
}

/// The normalized form of a raw identity: stripped at both ends, then
/// ASCII-lowercased.
pub open spec fn spec_normalize(s: Seq<char>) -> Seq<char> {
    spec_strip(s).map_values(|c: char| lower_char(c))
}

/// Relies on `String::push`: appends exactly one character at the end.
#[verifier::external_body]
fn push_char(s: &mut String, c: char)
    ensures
        final(s)@ == old(s)@.push(c),
{
    s.push(c);
}

fn is_strip_exec(c: char) -> (r: bool)
    ensures
        r == is_strip_char(c),
{
    c == ' ' || c == '\t' || c == '\n' || c == '\r' || c == '\u{c}' || c == '@' || c == '>'
        || c == '<'
}

fn lower_char_exec(c: char) -> (r: char)
    ensures
        r == lower_char(c),
{
    let u = c as u32;
    if 65 <= u && u <= 90 {
        ((c as u8) + 32) as char
    } else {
        c
    }
}

/// Compares two string slices character by character.
pub fn str_eq(a: &str, b: &str) -> (r: bool)
    ensures
        r == (a@ == b@),
{
    let n = a.unicode_len();
    let m = b.unicode_len();
    if n != m {
        proof {
            assert(a@.len() != b@.len());
        }
        return false;
    }
    let mut i: usize = 0;
    while i < n
        invariant
            i <= n,
            n == a@.len(),
            n == b@.len(),
            forall|j: int| 0 <= j < i ==> a@[j] == b@[j],
        decreases n - i,
    {
        if a.get_char(i) != b.get_char(i) {
            return false;
        }
        i = i + 1;
    }
    proof {
        assert(a@ =~= b@);
    }
    true
}

/// Normalize a raw identity token: strip surrounding whitespace and
/// decoration characters, then lowercase.
pub fn normalize_nick(s: &str) -> (r: String)
    ensures
        r@ == spec_normalize(s@),
{
    let n = s.unicode_len();
    let mut lo: usize = 0;
    while lo < n && is_strip_exec(s.get_char(lo))
        invariant
            lo <= n,
            n == s@.len(),
            first_unstripped(s@, 0) == first_unstripped(s@, lo as int),
        decreases n - lo,
    {
        lo = lo + 1;
    }
    let mut hi: usize = n;
    while hi > lo && is_strip_exec(s.get_char(hi - 1))
        invariant
            lo <= hi <= n,
            n == s@.len(),
            lo < n ==> !is_strip_char(s@[lo as int]),
            lo < n ==> hi > lo,
            last_unstripped(s@, n as int) == last_unstripped(s@, hi as int),
        decreases hi,
    {
        hi = hi - 1;
    }
    let ghost lo0 = first_unstripped(s@, 0);
    let ghost hi0 = last_unstripped(s@, s@.len() as int);
    proof {
        lemma_last_unstripped_props(s@, s@.len() as int);
        if lo < n {
            assert(lo0 == lo);
        } else {
            assert(lo0 == n);
        }
        if hi > lo {
            assert(hi0 == hi);
        }
    }
    let mut out = String::new();
    let mut i: usize = lo;
    while i < hi
        invariant
            lo <= i <= hi <= n,
            n == s@.len(),
            out@ == s@.subrange(lo as int, i as int).map_values(|c: char| lower_char(c)),
        decreases hi - i,
    {
        let c = lower_char_exec(s.get_char(i));
        push_char(&mut out, c);
        proof {
            assert(s@.subrange(lo as int, i + 1 as int) =~= s@.subrange(lo as int, i as int).push(
                s@[i as int],
            ));
            assert(s@.subrange(lo as int, i + 1 as int).map_values(|c: char| lower_char(c)) =~= s@
                .subrange(lo as int, i as int).map_values(|c: char| lower_char(c)).push(
                lower_char(s@[i as int]),
            ));
        }
        i = i + 1;
    }
    proof {
        if lo < n {
            assert(out@ == s@.subrange(lo0, hi0).map_values(|c: char| lower_char(c)));
        } else {
            assert(lo0 == n);
            assert(hi0 <= n);
            assert(lo0 > hi0 || (lo0 == hi0 && hi0 == n));
            if lo0 <= hi0 {
                assert(s@.subrange(lo0, hi0) =~= Seq::<char>::empty());
            }
            assert(spec_strip(s@) =~= Seq::<char>::empty());
            assert(out@ =~= Seq::<char>::empty().map_values(|c: char| lower_char(c)));
        }
    }
    out
}

/// Index of the first non-whitespace character at or after `i`
/// (or `s.len()` if only whitespace remains).
pub open spec fn skip_ws(s: Seq<char>, i: int) -> int
    decreases s.len() - i,
{
    if i < 0 || i >= s.len() {
        s.len() as int
    } else if is_ws_char(s[i]) {
        skip_ws(s, i + 1)
    } else {
        i
    }
}

/// Index of the first whitespace character at or after `i`
/// (or `s.len()` if the token runs to the end).
pub open spec fn skip_tok(s: Seq<char>, i: int) -> int
    decreases s.len() - i,
{
    if i < 0 || i >= s.len() {
        s.len() as int
    } else if !is_ws_char(s[i]) {
        skip_tok(s, i + 1)
    } else {
        i
    }
}

/// Exclusive end of the last non-whitespace character strictly before `i`
/// (or `0` if every earlier character is whitespace).
pub open spec fn last_non_ws(s: Seq<char>, i: int) -> int
    decreases i,
{
    if i <= 0 || i > s.len() {
        0
    } else if is_ws_char(s[i - 1]) {
        last_non_ws(s, i - 1)
    } else {
        i
    }
}

pub proof fn lemma_last_non_ws_le(s: Seq<char>, i: int)
    requires
        0 <= i <= s.len(),
    ensures
        0 <= last_non_ws(s, i) <= i,
    decreases i,
{
    if i > 0 && is_ws_char(s[i - 1]) {
        lemma_last_non_ws_le(s, i - 1);
    }
}

/// What remains of a line after trimming whitespace at both ends.
pub open spec fn spec_trim_ws(s: Seq<char>) -> Seq<char> {
    let lo = skip_ws(s, 0);
    let hi = last_non_ws(s, s.len() as int);
    if lo <= hi {
        s.subrange(lo, hi)
    } else {
        Seq::empty()
    }
}

/// The four whitespace-delimited fields of a log line: date, time, raw
/// identity, and the rest of the line as the message. `None` when the
/// line has fewer than four fields.
pub open spec fn spec_fields(s: Seq<char>) -> Option<(Seq<char>, Seq<char>, Seq<char>, Seq<char>)> {
    let d0 = skip_ws(s, 0);
    let d1 = skip_tok(s, d0);
    let t0 = skip_ws(s, d1);
    let t1 = skip_tok(s, t0);
    let n0 = skip_ws(s, t1);
    let n1 = skip_tok(s, n0);
    let m0 = skip_ws(s, n1);
    if m0 >= s.len() {
        None
    } else {
        Some(
            (
                s.subrange(d0, d1),
                s.subrange(t0, t1),
                s.subrange(n0, n1),
                s.subrange(m0, s.len() as int),
            ),
        )
    }
}

/// Join, part and action markers: a line whose identity field normalizes
/// to one of these is not attributed to any identity.
pub open spec fn is_marker(s: Seq<char>) -> bool {
    s == "-->"@ || s == "<--"@ || s == "--"@
}

/// The mathematical model of one parsed log record.
pub ghost struct EntryModel {
    pub date: Seq<char>,
    pub time: Seq<char>,
    pub nick: Seq<char>,
    pub msg: Seq<char>,
}

/// The record a well-formed, unfiltered log line parses to: fields split
/// on whitespace runs, identity normalized, marker lines filtered out.
pub open spec fn spec_entry(line: Seq<char>) -> Option<EntryModel> {
    match spec_fields(line) {
        Option::None => Option::None,
        Option::Some((d, t, n, m)) => {
            let nn = spec_normalize(n);
            if is_marker(nn) {
                Option::None
            } else {
                Option::Some(EntryModel { date: d, time: t, nick: nn, msg: m })
            }
        },
    }
}

/// The outcome of parsing one full line, whitespace-trimmed first.
pub open spec fn line_result(l: Seq<char>) -> Option<EntryModel> {
    spec_entry(spec_trim_ws(l))
}

pub proof fn lemma_first_unstripped_props(s: Seq<char>, i: int)
    requires
        0 <= i <= s.len(),
    ensures
        i <= first_unstripped(s, i) <= s.len(),
        first_unstripped(s, i) < s.len() ==> !is_strip_char(s[first_unstripped(s, i)]),
    decreases s.len() - i,
{
    if i < s.len() && is_strip_char(s[i]) {
        lemma_first_unstripped_props(s, i + 1);
    }
}

pub proof fn lemma_last_unstripped_props(s: Seq<char>, i: int)
    requires
        0 <= i <= s.len(),
    ensures
        0 <= last_unstripped(s, i) <= i,
        last_unstripped(s, i) > 0 ==> !is_strip_char(s[last_unstripped(s, i) - 1]),
    decreases i,
{
    if i > 0 && is_strip_char(s[i - 1]) {
        lemma_last_unstripped_props(s, i - 1);
    }
}

pub proof fn lemma_lower_char_idem(c: char)
    ensures
        lower_char(lower_char(c)) == lower_char(c),
{
}

pub proof fn lemma_lower_char_strip(c: char)
    ensures
        is_strip_char(lower_char(c)) == is_strip_char(c),
{
}

/// Normalization is idempotent: normalizing an already normalized
/// identity changes nothing, whatever the input was.
pub proof fn lemma_normalize_idempotent(s: Seq<char>)
    ensures
        spec_normalize(spec_normalize(s)) == spec_normalize(s),
{
    let t = spec_strip(s);
    let n1 = spec_normalize(s);
    let lo = first_unstripped(s, 0);
    let hi = last_unstripped(s, s.len() as int);
    lemma_first_unstripped_props(s, 0);
    lemma_last_unstripped_props(s, s.len() as int);
    if t.len() == 0 {
        assert(n1 =~= Seq::<char>::empty());
        assert(first_unstripped(n1, 0) == 0);
        assert(last_unstripped(n1, 0) == 0);
        assert(spec_strip(n1) =~= Seq::<char>::empty());
        assert(spec_normalize(n1) =~= n1);
    } else {
        assert(lo <= hi);
        assert(t == s.subrange(lo, hi));
        assert(lo < hi);
        assert(t[0] == s[lo]);
        assert(!is_strip_char(t[0]));
        assert(t[t.len() - 1] == s[hi - 1]);
        assert(!is_strip_char(t[t.len() - 1]));
        assert(n1.len() == t.len());
        assert(n1[0] == lower_char(t[0]));
        lemma_lower_char_strip(t[0]);
        assert(!is_strip_char(n1[0]));
        assert(n1[n1.len() - 1] == lower_char(t[t.len() - 1]));
        lemma_lower_char_strip(t[t.len() - 1]);
        assert(!is_strip_char(n1[n1.len() - 1]));
        assert(first_unstripped(n1, 0) == 0);
        assert(last_unstripped(n1, n1.len() as int) == n1.len());
        assert(spec_strip(n1) =~= n1);
        assert forall|i: int| 0 <= i < n1.len() implies lower_char(n1[i]) == n1[i] by {
            assert(n1[i] == lower_char(t[i]));
            lemma_lower_char_idem(t[i]);
        }
        assert(spec_normalize(n1) =~= n1);
    }
}

/// The number of whitespace-delimited fields on a line: the count of
/// maximal non-whitespace runs.
pub open spec fn spec_num_fields(s: Seq<char>) -> nat {
    spec_num_fields_at(s, 0, true)
}

pub open spec fn spec_num_fields_at(s: Seq<char>, i: int, after_ws: bool) -> nat
    decreases s.len() - i,
{
    if i < 0 || i >= s.len() {
        0
    } else if !is_ws_char(s[i]) && after_ws {
        (1 + spec_num_fields_at(s, i + 1, false)) as nat
    } else {
        spec_num_fields_at(s, i + 1, is_ws_char(s[i]))
    }
}

pub proof fn lemma_skip_ws_props(s: Seq<char>, i: int)
    requires
        0 <= i <= s.len(),
    ensures
        i <= skip_ws(s, i) <= s.len(),
        skip_ws(s, i) < s.len() ==> !is_ws_char(s[skip_ws(s, i)]),
    decreases s.len() - i,
{
    if i < s.len() && is_ws_char(s[i]) {
        lemma_skip_ws_props(s, i + 1);
    }
}

pub proof fn lemma_skip_tok_props(s: Seq<char>, i: int)
    requires
        0 <= i <= s.len(),
    ensures
        i <= skip_tok(s, i) <= s.len(),
        skip_tok(s, i) < s.len() ==> is_ws_char(s[skip_tok(s, i)]),
    decreases s.len() - i,
{
    if i < s.len() && !is_ws_char(s[i]) {
        lemma_skip_tok_props(s, i + 1);
    }
}

proof fn lemma_nf_ws(s: Seq<char>, i: int)
    requires
        0 <= i <= s.len(),
    ensures
        spec_num_fields_at(s, i, true) == spec_num_fields_at(s, skip_ws(s, i), true),
    decreases s.len() - i,
{
    if i < s.len() && is_ws_char(s[i]) {
        lemma_nf_ws(s, i + 1);
    }
}

proof fn lemma_nf_tok(s: Seq<char>, i: int)
    requires
        0 <= i <= s.len(),
    ensures
        spec_num_fields_at(s, i, false) == spec_num_fields_at(s, skip_tok(s, i), true),
    decreases s.len() - i,
{
    if i < s.len() && !is_ws_char(s[i]) {
        lemma_nf_tok(s, i + 1);
    }
}

proof fn lemma_nf_start_tok(s: Seq<char>, i: int)
    requires
        0 <= i < s.len(),
        !is_ws_char(s[i]),
    ensures
        spec_num_fields_at(s, i, true) == 1 + spec_num_fields_at(s, skip_tok(s, i), true),
{
    lemma_nf_tok(s, i + 1);
}

/// A line splits into four fields exactly when it has at least four
/// whitespace-delimited fields.
pub proof fn lemma_fields_iff(s: Seq<char>)
    ensures
        spec_fields(s) is Some <==> spec_num_fields(s) >= 4,
{
    let len = s.len() as int;
    let d0 = skip_ws(s, 0);
    let d1 = skip_tok(s, d0);
    let t0 = skip_ws(s, d1);
    let t1 = skip_tok(s, t0);
    let n0 = skip_ws(s, t1);
    let n1 = skip_tok(s, n0);
    let m0 = skip_ws(s, n1);
    lemma_skip_ws_props(s, 0);
    lemma_skip_tok_props(s, d0);
    lemma_skip_ws_props(s, d1);
    lemma_skip_tok_props(s, t0);
    lemma_skip_ws_props(s, t1);
    lemma_skip_tok_props(s, n0);
    lemma_skip_ws_props(s, n1);
    lemma_nf_ws(s, 0);
    if d0 >= len {
    } else {
        lemma_nf_start_tok(s, d0);
        lemma_nf_ws(s, d1);
        if t0 >= len {
        } else {
            lemma_nf_start_tok(s, t0);
            lemma_nf_ws(s, t1);
            if n0 >= len {
            } else {
                lemma_nf_start_tok(s, n0);
                lemma_nf_ws(s, n1);
                if m0 >= len {
                } else {
                    lemma_nf_start_tok(s, m0);
                }
            }
        }
    }
}

/// A line with fewer than four whitespace-delimited fields yields no
/// record: it is skipped.
pub proof fn lemma_few_fields_skipped(line: Seq<char>)
    requires
        spec_num_fields(line) < 4,
    ensures
        spec_entry(line) is None,
{
    lemma_fields_iff(line);
}

/// A line whose third field normalizes to a join, part or action marker
/// yields no record: it is skipped.
pub proof fn lemma_marker_line_skipped(
    line: Seq<char>,
    d: Seq<char>,
    t: Seq<char>,
    n: Seq<char>,
    m: Seq<char>,
)
    requires
        spec_fields(line) == Option::Some((d, t, n, m)),
        is_marker(spec_normalize(n)),
    ensures
        spec_entry(line) is None,
{
}

/// One normalized log record: who said what, and when.
pub struct Entry {
    pub date: String,
    pub time: String,
    pub nick: String,
    pub msg: String,
}

impl View for Entry {
    type V = EntryModel;

    open spec fn view(&self) -> EntryModel {
        EntryModel { date: self.date@, time: self.time@, nick: self.nick@, msg: self.msg@ }
    }
}

fn skip_ws_exec(s: &str, i: usize, n: usize) -> (r: usize)
    requires
        i <= n,
        n == s@.len(),
    ensures
        r == skip_ws(s@, i as int),
        i <= r <= n,
        r < n ==> !is_ws_char(s@[r as int]),
{
    let mut j: usize = i;
    while j < n && is_ws_exec(s.get_char(j))
        invariant
            i <= j <= n,
            n == s@.len(),
            skip_ws(s@, i as int) == skip_ws(s@, j as int),
        decreases n - j,
    {
        j = j + 1;
    }
    j
}

fn skip_tok_exec(s: &str, i: usize, n: usize) -> (r: usize)
    requires
        i <= n,
        n == s@.len(),
    ensures
        r == skip_tok(s@, i as int),
        i <= r <= n,
{
    let mut j: usize = i;
    while j < n && !is_ws_exec(s.get_char(j))
        invariant
            i <= j <= n,
            n == s@.len(),
            skip_tok(s@, i as int) == skip_tok(s@, j as int),
        decreases n - j,
    {
        j = j + 1;
    }
    j
}

fn is_ws_exec(c: char) -> (r: bool)
    ensures
        r == is_ws_char(c),
{
    c == ' ' || c == '\t' || c == '\n' || c == '\r' || c == '\u{c}'
}

/// Trim whitespace from both ends of a line.
pub fn trim_ws(s: &str) -> (r: &str)
    ensures
        r@ == spec_trim_ws(s@),
{
    let n = s.unicode_len();
    let lo = skip_ws_exec(s, 0, n);
    let mut hi: usize = n;
    while hi > lo && is_ws_exec(s.get_char(hi - 1))
        invariant
            lo <= hi <= n,
            n == s@.len(),
            lo == skip_ws(s@, 0),
            lo < n ==> !is_ws_char(s@[lo as int]),
            lo < n ==> hi > lo,
            last_non_ws(s@, n as int) == last_non_ws(s@, hi as int),
        decreases hi,
    {
        hi = hi - 1;
    }
    proof {
        let hi0 = last_non_ws(s@, s@.len() as int);
        lemma_last_non_ws_le(s@, s@.len() as int);
        if lo < n {
            assert(hi > lo);
            assert(hi0 == hi);
        } else {
            assert(lo == n && hi == n);
            if hi0 >= lo {
                assert(hi0 == n);
                assert(s@.subrange(lo as int, hi0) =~= Seq::<char>::empty());
            }
            assert(spec_trim_ws(s@) =~= Seq::<char>::empty());
            assert(s@.subrange(lo as int, hi as int) =~= Seq::<char>::empty());
        }
    }
    s.substring_char(lo, hi)
}

impl Entry {
    /// Parse one already-trimmed log line into a record, `None` when the
    /// line is malformed (fewer than four fields) or filtered (marker).
    pub fn from_line(line: &str) -> (r: Option<Entry>)
        ensures
            match r {
                Option::Some(e) => spec_entry(line@) == Option::Some(e@),
                Option::None => spec_entry(line@) is None,
            },
    {
        let n = line.unicode_len();
        let d0 = skip_ws_exec(line, 0, n);
        let d1 = skip_tok_exec(line, d0, n);
        let t0 = skip_ws_exec(line, d1, n);
        let t1 = skip_tok_exec(line, t0, n);
        let n0 = skip_ws_exec(line, t1, n);
        let n1 = skip_tok_exec(line, n0, n);
        let m0 = skip_ws_exec(line, n1, n);
        if m0 >= n {
            return Option::None;
        }
        let date = line.substring_char(d0, d1).to_owned();
        let time = line.substring_char(t0, t1).to_owned();
        let nick = normalize_nick(line.substring_char(n0, n1));
        let msg = line.substring_char(m0, n).to_owned();
        if str_eq(nick.as_str(), "-->") || str_eq(nick.as_str(), "<--") || str_eq(
            nick.as_str(),
            "--",
        ) {
            Option::None
        } else {
            Option::Some(Entry { date, time, nick, msg })
        }
    }
}

/// The outcome of one parsing step.
pub enum ParseRes {
    /// The source is exhausted.
    Done,
    /// The line was malformed or filtered; parsing continues.
    Skip,
    /// The line parsed to a record.
    Yield(Entry),
}

/// A streaming parser over an in-memory sequence of log lines.
pub struct Parser {
    lines: Vec<String>,
    pos: usize,
}

impl Parser {
    /// The lines this parser was built over.
    pub closed spec fn spec_lines(&self) -> Seq<Seq<char>> {
        self.lines.deep_view()
    }

    /// How many lines have been consumed so far.
    pub closed spec fn spec_pos(&self) -> nat {
        self.pos as nat
    }

    pub open spec fn wf(&self) -> bool {
        self.spec_pos() <= self.spec_lines().len()
    }

    /// A parser positioned at the first of the given lines.
    pub fn new(lines: Vec<String>) -> (r: Parser)
        ensures
            r.spec_lines() == lines.deep_view(),
            r.spec_pos() == 0,
            r.wf(),
    {
        Parser { lines, pos: 0 }
    }

    /// Consume one line: `Done` past the end, otherwise `Skip` or
    /// `Yield` exactly as `line_result` says of the line.
    pub fn next_entry(&mut self) -> (r: ParseRes)
        requires
            old(self).wf(),
        ensures
            final(self).wf(),
            final(self).spec_lines() == old(self).spec_lines(),
            old(self).spec_pos() == old(self).spec_lines().len() ==> (r is Done
                && final(self).spec_pos() == old(self).spec_pos()),
            old(self).spec_pos() < old(self).spec_lines().len() ==> {
                &&& final(self).spec_pos() == old(self).spec_pos() + 1
                &&& match r {
                    ParseRes::Done => false,
                    ParseRes::Skip => line_result(
                        old(self).spec_lines()[old(self).spec_pos() as int],
                    ) is None,
                    ParseRes::Yield(e) => line_result(
                        old(self).spec_lines()[old(self).spec_pos() as int],
                    ) == Option::Some(e@),
                }
            },
    {
        if self.pos == self.lines.len() {
            return ParseRes::Done;
        }
        let line: &String = &self.lines[self.pos];
        let trimmed = trim_ws(line.as_str());
        let res = Entry::from_line(trimmed);
        self.pos = self.pos + 1;
        match res {
            Option::Some(e) => ParseRes::Yield(e),
            Option::None => ParseRes::Skip,
        }
    }
}

} // verus!
