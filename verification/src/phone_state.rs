//! The phone's call state and the rules that move it: what the engine
//! reports, what the history gets out of it, which call is recorded or
//! answered on its own. Reports and events go in through methods; the
//! calls to show and the rows to write come out of them.
use vstd::prelude::*;
use crate::text::{
    chars_of, find, first_word, first_word_chars, is, lemma_find, lower, lowered, parse_u16,
    parse_u16_chars, same, slice, sort_texts, sorted_texts, split, split_chars, starts, text_views,
    trim, trimmed, upper, uppered,
};
use crate::message::message;
use crate::text::{lemma_push_contains, lemma_sorted_texts_distinct, owned};

verus! {

// ---------------------------------------------------------------------
// Calls and history rows
// ---------------------------------------------------------------------

/// One call as the engine reports it, with the line the window shows it on.
#[derive(Clone, Debug)]
pub struct CallInfo {
    pub id: String,
    pub peer: String,
    pub name: String,
    pub state: String,
    pub held: bool,
    pub duration: u32,
    pub codec: String,
    pub secure: bool,
    pub transport: String,
    pub line: u8,
}

pub struct CallView {
    pub id: Seq<char>,
    pub peer: Seq<char>,
    pub name: Seq<char>,
    pub state: Seq<char>,
    pub held: bool,
    pub duration: u32,
    pub codec: Seq<char>,
    pub secure: bool,
    pub transport: Seq<char>,
    pub line: u8,
}

impl View for CallInfo {
    type V = CallView;

    open spec fn view(&self) -> CallView {
        CallView {
            id: self.id@,
            peer: self.peer@,
            name: self.name@,
            state: self.state@,
            held: self.held,
            duration: self.duration,
            codec: self.codec@,
            secure: self.secure,
            transport: self.transport@,
            line: self.line,
        }
    }
}

impl CallInfo {
    /// A copy with the same contents.
    pub fn copy(&self) -> (r: CallInfo)
        ensures
            r@ == self@,
    {
        CallInfo {
            id: self.id.clone(),
            peer: self.peer.clone(),
            name: self.name.clone(),
            state: self.state.clone(),
            held: self.held,
            duration: self.duration,
            codec: self.codec.clone(),
            secure: self.secure,
            transport: self.transport.clone(),
            line: self.line,
        }
    }
}

/// The views of a list of calls.
pub open spec fn call_views(calls: Seq<CallInfo>) -> Seq<CallView> {
    calls.map_values(|c: CallInfo| c@)
}

/// A copy of a list of calls.
pub fn copy_calls(calls: &[CallInfo]) -> (r: Vec<CallInfo>)
    ensures
        call_views(r@) == call_views(calls@),
{
    let mut r: Vec<CallInfo> = Vec::new();
    let mut i: usize = 0;
    while i < calls.len()
        invariant
            i <= calls.len(),
            call_views(r@) == call_views(calls@.take(i as int)),
        decreases calls.len() - i,
    {
        r.push(calls[i].copy());
        assert(call_views(calls@.take(i + 1)) =~= call_views(calls@.take(i as int)).push(
            calls@[i as int]@,
        ));
        i += 1;
    }
    assert(calls@.take(calls.len() as int) =~= calls@);
    r
}

/// One row of the call history.
#[derive(Clone, Debug)]
pub struct CallHistory {
    pub ended_at: u64,
    pub direction: String,
    pub peer: String,
    pub name: String,
    pub duration: u32,
    /// The file in `recordings/` that holds this call, if it was recorded.
    pub recording: String,
    /// How a call that was never talked on ended; empty for one that was.
    pub outcome: String,
}

pub struct HistoryView {
    pub ended_at: u64,
    pub direction: Seq<char>,
    pub peer: Seq<char>,
    pub name: Seq<char>,
    pub duration: u32,
    pub recording: Seq<char>,
    pub outcome: Seq<char>,
}

impl View for CallHistory {
    type V = HistoryView;

    open spec fn view(&self) -> HistoryView {
        HistoryView {
            ended_at: self.ended_at,
            direction: self.direction@,
            peer: self.peer@,
            name: self.name@,
            duration: self.duration,
            recording: self.recording@,
            outcome: self.outcome@,
        }
    }
}

pub open spec fn history_views(rows: Seq<CallHistory>) -> Seq<HistoryView> {
    rows.map_values(|r: CallHistory| r@)
}

// ---------------------------------------------------------------------
// How a call ended
// ---------------------------------------------------------------------

/// The number a SIP answer starts with, such as 486 in `486 Busy Here`, or 0.
pub open spec fn answer_code(reason: Seq<char>) -> u16 {
    match first_word(reason) {
        Some(w) => match parse_u16(w) {
            Some(n) => n,
            None => 0,
        },
        None => 0,
    }
}

/// The first field that reads `cause=` followed by a number.
pub open spec fn first_cause(fields: Seq<Seq<char>>) -> Option<u16>
    decreases fields.len(),
{
    if fields.len() == 0 {
        None
    } else {
        let f = lower(fields[0]);
        if "cause="@.is_prefix_of(f) && parse_u16(trim(f.skip(6))) is Some {
            parse_u16(trim(f.skip(6)))
        } else {
            first_cause(fields.drop_first())
        }
    }
}

/// Whether one comma-separated part of the closing words is a `Reason`
/// saying another phone took the call.
pub open spec fn part_says_elsewhere(part: Seq<char>) -> bool {
    let fields = split(part, ';').map_values(|f: Seq<char>| trim(f));
    let protocol = upper(fields[0]);
    let cause = first_cause(fields.drop_first());
    (protocol == "SIP"@ && cause == Some(200u16)) || (protocol == "Q.850"@ && cause == Some(26u16))
}

/// Whether the closing words say another phone took the call: a `Reason`
/// header (RFC 3326) of `SIP;cause=200` or `Q.850;cause=26`, after a comma.
pub open spec fn says_elsewhere(reason: Seq<char>) -> bool {
    exists|i: int| 0 <= i < split(reason, ',').len() && part_says_elsewhere(
        #[trigger] split(reason, ',')[i],
    )
}

/// What happened to a call that closed without being talked on, from the
/// state it was in and the engine's closing words.
pub open spec fn outcome(state: Seq<char>, incoming: bool, reason: Seq<char>, dnd: bool) -> Seq<
    char,
> {
    if state == "ESTABLISHED"@ {
        seq![]
    } else if incoming {
        if dnd || "Busy Here"@.is_prefix_of(reason) {
            "HISTORY_REFUSED"@
        } else if says_elsewhere(reason) {
            "HISTORY_ELSEWHERE"@
        } else {
            "HISTORY_MISSED"@
        }
    } else {
        let code = answer_code(reason);
        if code == 486 || code == 600 {
            "HISTORY_BUSY"@
        } else if code == 404 || code == 484 || code == 604 {
            "HISTORY_NOT_FOUND"@
        } else if code == 480 || code == 502 || code == 503 {
            "HISTORY_UNAVAILABLE"@
        } else if code == 403 || code == 603 {
            "HISTORY_DECLINED"@
        } else if code == 408 {
            "HISTORY_NO_ANSWER"@
        } else if code == 0 || code == 487 {
            "HISTORY_CANCELLED"@
        } else {
            "HISTORY_FAILED"@
        }
    }
}

/// The first `cause=` number among the fields, lower-cased.
fn cause_of(fields: &Vec<Vec<char>>, from: usize) -> (r: Option<u16>)
    requires
        from <= fields.len(),
    ensures
        r == first_cause(fields@.map_values(|f: Vec<char>| f@).skip(from as int)),
    decreases fields.len() - from,
{
    let ghost all = fields@.map_values(|f: Vec<char>| f@);
    let ghost rest = all.skip(from as int);
    if from == fields.len() {
        assert(rest.len() == 0);
        return None;
    }
    let f = lowered(&fields[from]);
    assert(rest[0] == fields@[from as int]@);
    let prefix = chars_of("cause=");
    proof {
        reveal_strlit("cause=");
    }
    if starts(&f, &prefix) {
        let tail = slice(&f, 6, f.len());
        let t = trimmed(&tail);
        assert(tail@ =~= f@.skip(6));
        let n = parse_u16_chars(&t);
        if n.is_some() {
            return n;
        }
    }
    assert(rest.drop_first() =~= all.skip(from + 1));
    cause_of(fields, from + 1)
}

/// Whether one part of the closing words says another phone took the call.
fn part_elsewhere(part: &[char]) -> (r: bool)
    ensures
        r == part_says_elsewhere(part@),
{
    let raw = split_chars(part, ';');
    let mut fields: Vec<Vec<char>> = Vec::new();
    let mut i: usize = 0;
    while i < raw.len()
        invariant
            i <= raw.len(),
            fields@.map_values(|f: Vec<char>| f@) == raw@.map_values(|p: Vec<char>| p@).take(
                i as int,
            ).map_values(|f: Seq<char>| trim(f)),
        decreases raw.len() - i,
    {
        let t = trimmed(&raw[i]);
        let ghost old_fields = fields@;
        fields.push(t);
        let ghost pieces = raw@.map_values(|p: Vec<char>| p@);
        assert(pieces.take(i + 1) =~= pieces.take(i as int).push(raw@[i as int]@));
        assert(fields@.map_values(|f: Vec<char>| f@) =~= old_fields.map_values(|f: Vec<char>| f@).push(t@));
        assert(fields@.map_values(|f: Vec<char>| f@) =~= raw@.map_values(|p: Vec<char>| p@).take(
            i + 1,
        ).map_values(|f: Seq<char>| trim(f)));
        i += 1;
    }
    let ghost pieces = raw@.map_values(|p: Vec<char>| p@);
    assert(pieces.take(raw.len() as int) =~= pieces);
    assert(pieces.len() >= 1) by {
        lemma_split_nonempty(part@, ';');
    }
    let protocol = uppered(&fields[0]);
    let cause = cause_of(&fields, 1);
    assert(fields@.map_values(|f: Vec<char>| f@).skip(1) =~= fields@.map_values(
        |f: Vec<char>| f@,
    ).drop_first());
    let sip = chars_of("SIP");
    let q850 = chars_of("Q.850");
    let is_sip = same(&protocol, &sip);
    let is_q850 = same(&protocol, &q850);
    (is_sip && cause == Some(200u16)) || (is_q850 && cause == Some(26u16))
}

pub proof fn lemma_split_nonempty(s: Seq<char>, sep: char)
    ensures
        split(s, sep).len() >= 1,
    decreases s.len(),
{
    lemma_find(s, sep);
    if let Some(i) = find(s, sep) {
        lemma_split_nonempty(s.skip(i + 1), sep);
    }
}

/// Whether the closing words say another phone took the call.
pub fn answered_elsewhere(reason: &str) -> (r: bool)
    ensures
        r == says_elsewhere(reason@),
{
    let v = chars_of(reason);
    let parts = split_chars(&v, ',');
    let ghost pieces = parts@.map_values(|p: Vec<char>| p@);
    let mut i: usize = 0;
    while i < parts.len()
        invariant
            i <= parts.len(),
            pieces == split(reason@, ','),
            pieces == parts@.map_values(|p: Vec<char>| p@),
            forall|j: int| 0 <= j < i ==> !part_says_elsewhere(#[trigger] pieces[j]),
        decreases parts.len() - i,
    {
        if part_elsewhere(&parts[i]) {
            assert(part_says_elsewhere(pieces[i as int]));
            return true;
        }
        i += 1;
    }
    false
}

/// Names what happened to a call that closed without being talked on.
pub fn call_outcome(state: &str, incoming: bool, reason: &str, dnd: bool) -> (r: String)
    ensures
        r@ == outcome(state@, incoming, reason@, dnd),
{
    if is(state, "ESTABLISHED") {
        return String::new();
    }
    let why = chars_of(reason);
    if incoming {
        let busy = chars_of("Busy Here");
        return if dnd || starts(&why, &busy) {
            message("HISTORY_REFUSED")
        } else if answered_elsewhere(reason) {
            message("HISTORY_ELSEWHERE")
        } else {
            message("HISTORY_MISSED")
        };
    }
    let code: u16 = match first_word_chars(&why) {
        Some(w) => match parse_u16_chars(&w) {
            Some(n) => n,
            None => 0,
        },
        None => 0,
    };
    if code == 486 || code == 600 {
        message("HISTORY_BUSY")
    } else if code == 404 || code == 484 || code == 604 {
        message("HISTORY_NOT_FOUND")
    } else if code == 480 || code == 502 || code == 503 {
        message("HISTORY_UNAVAILABLE")
    } else if code == 403 || code == 603 {
        message("HISTORY_DECLINED")
    } else if code == 408 {
        message("HISTORY_NO_ANSWER")
    } else if code == 0 || code == 487 {
        message("HISTORY_CANCELLED")
    } else {
        message("HISTORY_FAILED")
    }
}


// ---------------------------------------------------------------------
// What is kept about each call
// ---------------------------------------------------------------------

/// What is known about one call beyond what the engine reports about it.
struct CallRecord {
    /// The history direction, once it is known.
    direction: Option<String>,
    /// The line the window shows the call on.
    line: Option<u8>,
    /// The recording file the call was put in, if it was recorded.
    recording: Option<String>,
    /// The engine's closing words, until the history has taken them.
    closing: Option<String>,
    /// The history direction and peer the engine announced the call with,
    /// kept until the call shows up in a report or makes its row without.
    announced: Option<(String, String)>,
    /// Whether the automatic answer already claimed the call.
    auto_answered: bool,
}

pub struct RecordView {
    pub direction: Option<Seq<char>>,
    pub line: Option<u8>,
    pub recording: Option<Seq<char>>,
    pub closing: Option<Seq<char>>,
    pub announced: Option<(Seq<char>, Seq<char>)>,
    pub auto_answered: bool,
}

pub open spec fn text_view(t: Option<String>) -> Option<Seq<char>> {
    match t {
        Some(s) => Some(s@),
        None => None,
    }
}

impl View for CallRecord {
    type V = RecordView;

    closed spec fn view(&self) -> RecordView {
        RecordView {
            direction: text_view(self.direction),
            line: self.line,
            recording: text_view(self.recording),
            closing: text_view(self.closing),
            announced: match self.announced {
                Some((d, p)) => Some((d@, p@)),
                None => None,
            },
            auto_answered: self.auto_answered,
        }
    }
}

fn copy_text(t: &Option<String>) -> (r: Option<String>)
    ensures
        text_view(r) == text_view(*t),
{
    match t {
        Some(s) => Some(s.clone()),
        None => None,
    }
}

impl CallRecord {
    fn empty() -> (r: CallRecord)
        ensures
            r@ == no_record(),
    {
        CallRecord {
            direction: None,
            line: None,
            recording: None,
            closing: None,
            announced: None,
            auto_answered: false,
        }
    }

    fn copy(&self) -> (r: CallRecord)
        ensures
            r@ == self@,
    {
        CallRecord {
            direction: copy_text(&self.direction),
            line: self.line,
            recording: copy_text(&self.recording),
            closing: copy_text(&self.closing),
            announced: match &self.announced {
                Some((d, p)) => Some((d.clone(), p.clone())),
                None => None,
            },
            auto_answered: self.auto_answered,
        }
    }
}

/// A record with nothing known yet.
pub open spec fn no_record() -> RecordView {
    RecordView {
        direction: None,
        line: None,
        recording: None,
        closing: None,
        announced: None,
        auto_answered: false,
    }
}

/// The record of a call, or an empty one.
pub open spec fn record_of(m: Map<Seq<char>, RecordView>, id: Seq<char>) -> RecordView {
    if m.contains_key(id) {
        m[id]
    } else {
        no_record()
    }
}

type Entries = Vec<(String, CallRecord)>;

spec fn keys_unique(v: Seq<(String, CallRecord)>) -> bool {
    forall|i: int, j: int|
        0 <= i < v.len() && 0 <= j < v.len() && i != j ==> (#[trigger] v[i]).0@ != (
        #[trigger] v[j]).0@
}

spec fn has_key(v: Seq<(String, CallRecord)>, k: Seq<char>) -> bool {
    exists|i: int| 0 <= i < v.len() && (#[trigger] v[i]).0@ == k
}

spec fn map_of(v: Seq<(String, CallRecord)>) -> Map<Seq<char>, RecordView> {
    Map::new(
        |k: Seq<char>| has_key(v, k),
        |k: Seq<char>| v[choose|i: int| 0 <= i < v.len() && (#[trigger] v[i]).0@ == k].1@,
    )
}

proof fn lemma_map_of(v: Seq<(String, CallRecord)>, i: int)
    requires
        keys_unique(v),
        0 <= i < v.len(),
    ensures
        map_of(v).contains_key(v[i].0@),
        map_of(v)[v[i].0@] == v[i].1@,
{
    let k = v[i].0@;
    assert(has_key(v, k));
    let j = choose|j: int| 0 <= j < v.len() && (#[trigger] v[j]).0@ == k;
    assert(j == i);
}

/// The index of the record of `id`, if there is one.
fn find_record(v: &Entries, id: &String) -> (r: Option<usize>)
    requires
        keys_unique(v@),
    ensures
        r matches Some(i) ==> i < v@.len() && v@[i as int].0@ == id@,
        r is None ==> !map_of(v@).contains_key(id@),
{
    let mut i: usize = 0;
    while i < v.len()
        invariant
            i <= v.len(),
            forall|j: int| 0 <= j < i ==> (#[trigger] v@[j]).0@ != id@,
        decreases v.len() - i,
    {
        if v[i].0 == *id {
            return Some(i);
        }
        i += 1;
    }
    None
}

/// A copy of the record of `id`, or an empty one.
fn get_record(v: &Entries, id: &String) -> (r: CallRecord)
    requires
        keys_unique(v@),
    ensures
        r@ == record_of(map_of(v@), id@),
{
    match find_record(v, id) {
        Some(i) => {
            proof {
                lemma_map_of(v@, i as int);
            }
            v[i].1.copy()
        },
        None => CallRecord::empty(),
    }
}

/// Puts the record of `id` in place of whatever was there.
fn put_record(v: &mut Entries, id: String, r: CallRecord)
    requires
        keys_unique(old(v)@),
    ensures
        keys_unique(final(v)@),
        map_of(final(v)@) == map_of(old(v)@).insert(id@, r@),
{
    let ghost k = id@;
    let ghost rv = r@;
    match find_record(v, &id) {
        Some(i) => {
            let ghost before = v@;
            v.set(i, (id, r));
            proof {
                let after = v@;
                assert forall|a: int, b: int|
                    0 <= a < after.len() && 0 <= b < after.len() && a != b implies (
                    #[trigger] after[a]).0@ != (#[trigger] after[b]).0@ by {
                    if a != i && b != i {
                        assert(after[a] == before[a] && after[b] == before[b]);
                    } else if a == i {
                        assert(after[b] == before[b]);
                        assert(before[i as int].0@ == k);
                    } else {
                        assert(after[a] == before[a]);
                        assert(before[i as int].0@ == k);
                    }
                }
                assert(map_of(after) =~= map_of(before).insert(k, rv)) by {
                    assert forall|x: Seq<char>| #[trigger] map_of(after).contains_key(x) <==> map_of(
                        before,
                    ).insert(k, rv).contains_key(x) by {
                        if has_key(after, x) {
                            let j = choose|j: int| 0 <= j < after.len() && (#[trigger] after[j]).0@
                                == x;
                            if j != i {
                                assert(before[j] == after[j]);
                                assert(has_key(before, x));
                            }
                        }
                        if has_key(before, x) {
                            let j = choose|j: int| 0 <= j < before.len() && (#[trigger] before[j]).0@
                                == x;
                            if j != i {
                                assert(before[j] == after[j]);
                            }
                            assert(has_key(after, x));
                        }
                        if x == k {
                            assert(after[i as int].0@ == k);
                            assert(has_key(after, x));
                        }
                    }
                    assert forall|x: Seq<char>| #[trigger] map_of(after).contains_key(x) implies map_of(
                        after,
                    )[x] == map_of(before).insert(k, rv)[x] by {
                        let j = choose|j: int| 0 <= j < after.len() && (#[trigger] after[j]).0@ == x;
                        lemma_map_of(after, j);
                        if j != i {
                            assert(before[j] == after[j]);
                            lemma_map_of(before, j);
                        }
                    }
                }
            }
        },
        None => {
            let ghost before = v@;
            v.push((id, r));
            proof {
                let after = v@;
                let n = before.len() as int;
                assert forall|a: int, b: int|
                    0 <= a < after.len() && 0 <= b < after.len() && a != b implies (
                    #[trigger] after[a]).0@ != (#[trigger] after[b]).0@ by {
                    if a < n && b < n {
                        assert(after[a] == before[a] && after[b] == before[b]);
                    } else if a == n {
                        assert(after[b] == before[b]);
                        assert(!has_key(before, k));
                    } else {
                        assert(after[a] == before[a]);
                        assert(!has_key(before, k));
                    }
                }
                assert(map_of(after) =~= map_of(before).insert(k, rv)) by {
                    assert forall|x: Seq<char>| #[trigger] map_of(after).contains_key(x) <==> map_of(
                        before,
                    ).insert(k, rv).contains_key(x) by {
                        if has_key(after, x) {
                            let j = choose|j: int| 0 <= j < after.len() && (#[trigger] after[j]).0@
                                == x;
                            if j != n {
                                assert(before[j] == after[j]);
                                assert(has_key(before, x));
                            }
                        }
                        if has_key(before, x) {
                            let j = choose|j: int| 0 <= j < before.len() && (#[trigger] before[j]).0@
                                == x;
                            assert(before[j] == after[j]);
                            assert(has_key(after, x));
                        }
                        if x == k {
                            assert(after[n].0@ == k);
                            assert(has_key(after, x));
                        }
                    }
                    assert forall|x: Seq<char>| #[trigger] map_of(after).contains_key(x) implies map_of(
                        after,
                    )[x] == map_of(before).insert(k, rv)[x] by {
                        let j = choose|j: int| 0 <= j < after.len() && (#[trigger] after[j]).0@ == x;
                        lemma_map_of(after, j);
                        if j != n {
                            assert(before[j] == after[j]);
                            lemma_map_of(before, j);
                        }
                    }
                }
            }
        },
    }
}

/// Takes the entry at `i` out.
fn remove_at(v: &mut Entries, i: usize) -> (r: (String, CallRecord))
    requires
        keys_unique(old(v)@),
        i < old(v)@.len(),
    ensures
        keys_unique(final(v)@),
        r.0@ == old(v)@[i as int].0@,
        r.1@ == old(v)@[i as int].1@,
        r.1@ == map_of(old(v)@)[r.0@],
        map_of(old(v)@).contains_key(r.0@),
        map_of(final(v)@) == map_of(old(v)@).remove(r.0@),
        final(v)@ == old(v)@.remove(i as int),
{
    let ghost before = v@;
    proof {
        lemma_map_of(before, i as int);
    }
    let r = v.remove(i);
    proof {
        let after = v@;
        let k = r.0@;
        assert(after =~= before.remove(i as int));
        assert forall|a: int, b: int|
            0 <= a < after.len() && 0 <= b < after.len() && a != b implies (
            #[trigger] after[a]).0@ != (#[trigger] after[b]).0@ by {
            let a0 = if a < i { a } else { a + 1 };
            let b0 = if b < i { b } else { b + 1 };
            assert(after[a] == before[a0]);
            assert(after[b] == before[b0]);
        }
        assert(map_of(after) =~= map_of(before).remove(k)) by {
            assert forall|x: Seq<char>| #[trigger] map_of(after).contains_key(x) <==> map_of(
                before,
            ).remove(k).contains_key(x) by {
                if has_key(after, x) {
                    let j = choose|j: int| 0 <= j < after.len() && (#[trigger] after[j]).0@ == x;
                    let j0 = if j < i { j } else { j + 1 };
                    assert(after[j] == before[j0]);
                    assert(has_key(before, x));
                }
                if has_key(before, x) && x != k {
                    let j = choose|j: int| 0 <= j < before.len() && (#[trigger] before[j]).0@ == x;
                    assert(j != i);
                    let j1 = if j < i { j } else { j - 1 };
                    assert(after[j1] == before[j]);
                    assert(has_key(after, x));
                }
            }
            assert forall|x: Seq<char>| #[trigger] map_of(after).contains_key(x) implies map_of(
                after,
            )[x] == map_of(before).remove(k)[x] by {
                let j = choose|j: int| 0 <= j < after.len() && (#[trigger] after[j]).0@ == x;
                lemma_map_of(after, j);
                let j0 = if j < i { j } else { j + 1 };
                assert(after[j] == before[j0]);
                lemma_map_of(before, j0);
            }
        }
    }
    r
}

/// Takes the record of `id` out, or gives an empty one when there is none.
fn take_record(v: &mut Entries, id: &String) -> (r: CallRecord)
    requires
        keys_unique(old(v)@),
    ensures
        keys_unique(final(v)@),
        r@ == record_of(map_of(old(v)@), id@),
        map_of(final(v)@) == map_of(old(v)@).remove(id@),
{
    match find_record(v, id) {
        Some(i) => {
            let (_, r) = remove_at(v, i);
            r
        },
        None => {
            assert(map_of(v@) =~= map_of(v@).remove(id@));
            CallRecord::empty()
        },
    }
}


// ---------------------------------------------------------------------
// The rules, stated over the views
// ---------------------------------------------------------------------

pub open spec fn call_ids(calls: Seq<CallView>) -> Seq<Seq<char>> {
    calls.map_values(|c: CallView| c.id)
}

/// What a report says of a call's direction: an incoming call is one, an
/// outgoing one is one unless something else was known first.
pub open spec fn with_direction(r: RecordView, state: Seq<char>) -> RecordView {
    if state == "INCOMING"@ {
        RecordView { direction: Some("HISTORY_INCOMING"@), ..r }
    } else if state == "OUTGOING"@ || state == "RINGING"@ || state == "EARLY"@ {
        if r.direction is None {
            RecordView { direction: Some("HISTORY_OUTGOING"@), ..r }
        } else {
            r
        }
    } else {
        r
    }
}

/// Each call of the report gets a record, and its direction as far as known.
pub open spec fn mark_directions(m: Map<Seq<char>, RecordView>, calls: Seq<CallView>) -> Map<
    Seq<char>,
    RecordView,
>
    decreases calls.len(),
{
    if calls.len() == 0 {
        m
    } else {
        let m0 = mark_directions(m, calls.drop_last());
        let c = calls.last();
        m0.insert(c.id, with_direction(record_of(m0, c.id), c.state))
    }
}

pub open spec fn closing_text(r: RecordView) -> Seq<char> {
    match r.closing {
        Some(t) => t,
        None => seq![],
    }
}

/// The history row of a call that was in a report and is not any more.
pub open spec fn row_for(old: CallView, r: RecordView, now: u64, dnd: bool) -> HistoryView {
    HistoryView {
        ended_at: now,
        direction: match r.direction {
            Some(d) => d,
            None => "HISTORY_CALL"@,
        },
        peer: old.peer,
        name: old.name,
        duration: old.duration,
        recording: match r.recording {
            Some(f) => f,
            None => seq![],
        },
        outcome: outcome(old.state, old.state == "INCOMING"@, closing_text(r), dnd),
    }
}

/// The calls of the last report that this one no longer has: each takes its
/// record with it and makes its row, in the order of the last report.
pub open spec fn gone(
    m: Map<Seq<char>, RecordView>,
    olds: Seq<CallView>,
    current: Seq<Seq<char>>,
    now: u64,
    dnd: bool,
) -> (Map<Seq<char>, RecordView>, Seq<HistoryView>)
    decreases olds.len(),
{
    if olds.len() == 0 {
        (m, seq![])
    } else {
        let (m0, rows) = gone(m, olds.drop_last(), current, now, dnd);
        let old = olds.last();
        if current.contains(old.id) {
            (m0, rows)
        } else {
            (m0.remove(old.id), rows.push(row_for(old, record_of(m0, old.id), now, dnd)))
        }
    }
}

/// A call that was announced and closed without ever being in a report.
pub open spec fn is_instant(
    m: Map<Seq<char>, RecordView>,
    k: Seq<char>,
    prev: Seq<Seq<char>>,
    cur: Seq<Seq<char>>,
) -> bool {
    &&& m.contains_key(k)
    &&& m[k].announced is Some
    &&& m[k].closing is Some
    &&& !prev.contains(k)
    &&& !cur.contains(k)
}

/// The row of such a call, made from its announcement and closing words.
pub open spec fn instant_row(r: RecordView, now: u64, dnd: bool) -> HistoryView {
    let (direction, peer) = match r.announced {
        Some(a) => a,
        None => (seq![], seq![]),
    };
    let incoming = direction == "HISTORY_INCOMING"@;
    HistoryView {
        ended_at: now,
        direction: direction,
        peer: peer,
        name: seq![],
        duration: 0,
        recording: seq![],
        outcome: outcome(
            if incoming {
                "INCOMING"@
            } else {
                "OUTGOING"@
            },
            incoming,
            closing_text(r),
            dnd,
        ),
    }
}

/// Whether a record stays: its call is in this report, or it is an
/// announcement of a call not yet seen whose closing has not come.
pub open spec fn keeps(k: Seq<char>, r: RecordView, prev: Seq<Seq<char>>, cur: Seq<Seq<char>>) -> bool {
    cur.contains(k) || (!prev.contains(k) && r.announced is Some && r.closing is None)
}

pub open spec fn retained(
    m: Map<Seq<char>, RecordView>,
    prev: Seq<Seq<char>>,
    cur: Seq<Seq<char>>,
) -> Map<Seq<char>, RecordView> {
    Map::new(|k: Seq<char>| m.contains_key(k) && keeps(k, m[k], prev, cur), |k: Seq<char>| m[k])
}

/// The lines some record holds.
pub open spec fn taken_lines(m: Map<Seq<char>, RecordView>) -> Set<u8> {
    Set::new(|l: u8| exists|k: Seq<char>| m.contains_key(k) && (#[trigger] m[k]).line == Some(l))
}

/// The lowest line from `from` up to 8 that is not taken, or 8.
pub open spec fn free_line(taken: Set<u8>, from: u8) -> u8
    decreases 9 - from,
{
    if from > 8 {
        8
    } else if !taken.contains(from) {
        from
    } else {
        free_line(taken, (from + 1) as u8)
    }
}

/// A call keeps the line it has; a new one takes the lowest free.
pub open spec fn assign_lines(m: Map<Seq<char>, RecordView>, calls: Seq<CallView>) -> (
    Map<Seq<char>, RecordView>,
    Seq<CallView>,
)
    decreases calls.len(),
{
    if calls.len() == 0 {
        (m, seq![])
    } else {
        let (m0, shown) = assign_lines(m, calls.drop_last());
        let c = calls.last();
        let r = record_of(m0, c.id);
        let line = match r.line {
            Some(l) => l,
            None => free_line(taken_lines(m0), 1),
        };
        (m0.insert(c.id, RecordView { line: Some(line), ..r }), shown.push(CallView { line, ..c }))
    }
}

/// The incoming calls the automatic answer has not claimed yet.
pub open spec fn answer_ids(m: Map<Seq<char>, RecordView>, calls: Seq<CallView>) -> Seq<Seq<char>>
    decreases calls.len(),
{
    if calls.len() == 0 {
        seq![]
    } else {
        let ids = answer_ids(m, calls.drop_last());
        let c = calls.last();
        if c.state == "INCOMING"@ && !(m.contains_key(c.id) && m[c.id].auto_answered) {
            ids.push(c.id)
        } else {
            ids
        }
    }
}

/// The automatic answer claims the calls it takes.
pub open spec fn claim(m: Map<Seq<char>, RecordView>, ids: Seq<Seq<char>>) -> Map<
    Seq<char>,
    RecordView,
>
    decreases ids.len(),
{
    if ids.len() == 0 {
        m
    } else {
        let m0 = claim(m, ids.drop_last());
        let id = ids.last();
        m0.insert(id, RecordView { auto_answered: true, ..record_of(m0, id) })
    }
}

/// The phone as the contracts see it.
pub struct PhoneView {
    /// The calls as of the last report, lines assigned.
    pub calls: Seq<CallView>,
    /// What is kept about each call, by id.
    pub records: Map<Seq<char>, RecordView>,
    /// Which engine process the calls belong to.
    pub generation: u64,
    /// Whether something that needs the phone quiet is going on.
    pub maintenance: bool,
}

/// What one report changed, as the contracts see it.
pub struct AppliedView {
    pub calls: Seq<CallView>,
    pub ended: Seq<HistoryView>,
    pub answer: Seq<Seq<char>>,
}

/// The order the instant calls make their rows in: by id.
pub open spec fn instant_order(
    m: Map<Seq<char>, RecordView>,
    prev: Seq<Seq<char>>,
    cur: Seq<Seq<char>>,
    order: Seq<Seq<char>>,
) -> bool {
    &&& sorted_texts(order)
    &&& forall|k: Seq<char>| #[trigger] order.contains(k) <==> is_instant(m, k, prev, cur)
}

/// The records once the report's calls are marked and the gone calls have
/// made their rows.
pub open spec fn after_gone(
    pre: PhoneView,
    calls: Seq<CallView>,
    now: u64,
    dnd: bool,
) -> (Map<Seq<char>, RecordView>, Seq<HistoryView>) {
    gone(mark_directions(pre.records, calls), pre.calls, call_ids(calls), now, dnd)
}

/// The phone and what changed, after a report of the current engine, given
/// the order in which the instant calls make their rows.
pub open spec fn after_report(
    pre: PhoneView,
    calls: Seq<CallView>,
    dnd: bool,
    auto_answer: bool,
    now: u64,
    order: Seq<Seq<char>>,
) -> (PhoneView, AppliedView) {
    let prev = call_ids(pre.calls);
    let cur = call_ids(calls);
    let (m2, gone_rows) = after_gone(pre, calls, now, dnd);
    let rows = gone_rows + order.map_values(|k: Seq<char>| instant_row(m2[k], now, dnd));
    let m3 = m2.remove_keys(order.to_set());
    let m4 = retained(m3, prev, cur);
    let (m5, shown) = assign_lines(m4, calls);
    let answer = if auto_answer {
        answer_ids(m5, shown)
    } else {
        seq![]
    };
    let m6 = claim(m5, answer);
    (
        PhoneView {
            calls: shown,
            records: m6,
            generation: pre.generation,
            maintenance: pre.maintenance,
        },
        AppliedView { calls: shown, ended: rows, answer },
    )
}

/// A report of the current engine moves the phone from `pre` to `post` and
/// changes `applied`: the instant calls take the one order they can have.
pub open spec fn reported(
    pre: PhoneView,
    calls: Seq<CallView>,
    dnd: bool,
    auto_answer: bool,
    now: u64,
    post: PhoneView,
    applied: AppliedView,
) -> bool {
    exists|order: Seq<Seq<char>>|
        instant_order(after_gone(pre, calls, now, dnd).0, call_ids(pre.calls), call_ids(calls), order)
            && (post, applied) == #[trigger] after_report(pre, calls, dnd, auto_answer, now, order)
}

/// The rows of the calls of the last report, when the engine is gone.
pub open spec fn rows_at_exit(
    m: Map<Seq<char>, RecordView>,
    calls: Seq<CallView>,
    now: u64,
    dnd: bool,
) -> Seq<HistoryView> {
    calls.map_values(|c: CallView| row_for(c, record_of(m, c.id), now, dnd))
}


// ---------------------------------------------------------------------
// The steps of a report, on the records
// ---------------------------------------------------------------------

/// Whether one of the calls has the id.
fn has_id(calls: &Vec<CallInfo>, id: &String) -> (r: bool)
    ensures
        r == call_ids(call_views(calls@)).contains(id@),
{
    let ghost ids = call_ids(call_views(calls@));
    let mut i: usize = 0;
    while i < calls.len()
        invariant
            i <= calls.len(),
            ids == call_ids(call_views(calls@)),
            forall|j: int| 0 <= j < i ==> ids[j] != id@,
        decreases calls.len() - i,
    {
        if calls[i].id == *id {
            assert(ids[i as int] == id@);
            return true;
        }
        i += 1;
    }
    false
}

fn mark_report(v: &mut Entries, calls: &Vec<CallInfo>)
    requires
        keys_unique(old(v)@),
    ensures
        keys_unique(final(v)@),
        map_of(final(v)@) == mark_directions(map_of(old(v)@), call_views(calls@)),
{
    let ghost m = map_of(v@);
    let ghost cv = call_views(calls@);
    let mut i: usize = 0;
    assert(cv.take(0) =~= Seq::<CallView>::empty());
    while i < calls.len()
        invariant
            i <= calls.len(),
            cv == call_views(calls@),
            keys_unique(v@),
            map_of(v@) == mark_directions(m, cv.take(i as int)),
        decreases calls.len() - i,
    {
        let c = &calls[i];
        let mut r = get_record(v, &c.id);
        let ghost r0 = r@;
        if is(c.state.as_str(), "INCOMING") {
            r.direction = Some(message("HISTORY_INCOMING"));
        } else if is(c.state.as_str(), "OUTGOING") || is(c.state.as_str(), "RINGING") || is(
            c.state.as_str(),
            "EARLY",
        ) {
            if r.direction.is_none() {
                r.direction = Some(message("HISTORY_OUTGOING"));
            }
        }
        assert(r@ == with_direction(r0, c.state@));
        put_record(v, c.id.clone(), r);
        assert(cv.take(i + 1).drop_last() =~= cv.take(i as int));
        assert(cv.take(i + 1).last() == c@);
        i += 1;
    }
    assert(cv.take(calls.len() as int) =~= cv);
}

fn make_row(old: &CallInfo, r: &CallRecord, now: u64, dnd: bool) -> (h: CallHistory)
    ensures
        h@ == row_for(old@, r@, now, dnd),
{
    let none = String::new();
    let closing = match &r.closing {
        Some(t) => t.as_str(),
        None => none.as_str(),
    };
    let incoming = is(old.state.as_str(), "INCOMING");
    CallHistory {
        ended_at: now,
        direction: match &r.direction {
            Some(d) => d.clone(),
            None => message("HISTORY_CALL"),
        },
        peer: old.peer.clone(),
        name: old.name.clone(),
        duration: old.duration,
        recording: match &r.recording {
            Some(f) => f.clone(),
            None => String::new(),
        },
        outcome: call_outcome(old.state.as_str(), incoming, closing, dnd),
    }
}

fn collect_gone(v: &mut Entries, olds: &Vec<CallInfo>, calls: &Vec<CallInfo>, now: u64, dnd: bool) -> (rows: Vec<CallHistory>)
    requires
        keys_unique(old(v)@),
    ensures
        keys_unique(final(v)@),
        (map_of(final(v)@), history_views(rows@)) == gone(
            map_of(old(v)@),
            call_views(olds@),
            call_ids(call_views(calls@)),
            now,
            dnd,
        ),
{
    let ghost m = map_of(v@);
    let ghost ov = call_views(olds@);
    let ghost cur = call_ids(call_views(calls@));
    let mut rows: Vec<CallHistory> = Vec::new();
    let mut i: usize = 0;
    assert(ov.take(0) =~= Seq::<CallView>::empty());
    assert(history_views(rows@) =~= Seq::<HistoryView>::empty());
    while i < olds.len()
        invariant
            i <= olds.len(),
            ov == call_views(olds@),
            cur == call_ids(call_views(calls@)),
            keys_unique(v@),
            (map_of(v@), history_views(rows@)) == gone(m, ov.take(i as int), cur, now, dnd),
        decreases olds.len() - i,
    {
        let old = &olds[i];
        assert(ov.take(i + 1).drop_last() =~= ov.take(i as int));
        assert(ov.take(i + 1).last() == old@);
        if !has_id(calls, &old.id) {
            let r = take_record(v, &old.id);
            let row = make_row(old, &r, now, dnd);
            let ghost before = rows@;
            rows.push(row);
            assert(history_views(rows@) =~= history_views(before).push(row@));
        }
        i += 1;
    }
    assert(ov.take(olds.len() as int) =~= ov);
    rows
}

/// The ids of the calls that came and went between two reports, in order.
fn instant_ids(v: &Entries, olds: &Vec<CallInfo>, calls: &Vec<CallInfo>) -> (r: Vec<String>)
    requires
        keys_unique(v@),
    ensures
        instant_order(
            map_of(v@),
            call_ids(call_views(olds@)),
            call_ids(call_views(calls@)),
            text_views(r@),
        ),
{
    let ghost m = map_of(v@);
    let ghost prev = call_ids(call_views(olds@));
    let ghost cur = call_ids(call_views(calls@));
    let mut found: Vec<String> = Vec::new();
    let mut i: usize = 0;
    while i < v.len()
        invariant
            i <= v.len(),
            keys_unique(v@),
            m == map_of(v@),
            prev == call_ids(call_views(olds@)),
            cur == call_ids(call_views(calls@)),
            text_views(found@).no_duplicates(),
            forall|k: Seq<char>|
                #[trigger] text_views(found@).contains(k) <==> (exists|j: int|
                    0 <= j < i && (#[trigger] v@[j]).0@ == k && is_instant(m, k, prev, cur)),
        decreases v.len() - i,
    {
        let (id, r) = (&v[i].0, &v[i].1);
        proof {
            lemma_map_of(v@, i as int);
        }
        let ghost before = found@;
        if r.announced.is_some() && r.closing.is_some() && !has_id(olds, id) && !has_id(calls, id) {
            proof {
                assert(!text_views(before).contains(id@)) by {
                    if text_views(before).contains(id@) {
                        let j = choose|j: int|
                            0 <= j < i && (#[trigger] v@[j]).0@ == id@ && is_instant(m, id@, prev, cur);
                        assert(v@[j].0@ != v@[i as int].0@);
                    }
                }
            }
            found.push(id.clone());
            proof {
                assert(text_views(found@) =~= text_views(before).push(id@));
                assert forall|k: Seq<char>|
                    #[trigger] text_views(found@).contains(k) <==> (exists|j: int|
                        0 <= j < i + 1 && (#[trigger] v@[j]).0@ == k && is_instant(m, k, prev, cur)) by {
                    if text_views(found@).contains(k) && k != id@ {
                        assert(text_views(before).contains(k)) by {
                            let q = choose|q: int| 0 <= q < text_views(found@).len() && text_views(found@)[q] == k;
                            assert(text_views(before)[q] == k);
                        }
                    }
                    if k == id@ {
                        assert(text_views(found@)[before.len() as int] == k);
                        assert(v@[i as int].0@ == k);
                    }
                    if exists|j: int| 0 <= j < i + 1 && (#[trigger] v@[j]).0@ == k && is_instant(m, k, prev, cur) {
                        let j = choose|j: int| 0 <= j < i + 1 && (#[trigger] v@[j]).0@ == k && is_instant(m, k, prev, cur);
                        if j < i {
                            assert(text_views(before).contains(k));
                            let q = choose|q: int| 0 <= q < text_views(before).len() && text_views(before)[q] == k;
                            assert(text_views(found@)[q] == k);
                        } else {
                            assert(text_views(found@)[before.len() as int] == k);
                        }
                    }
                }
            }
        } else {
            proof {
                assert forall|k: Seq<char>|
                    #[trigger] text_views(found@).contains(k) <==> (exists|j: int|
                        0 <= j < i + 1 && (#[trigger] v@[j]).0@ == k && is_instant(m, k, prev, cur)) by {
                    if exists|j: int| 0 <= j < i + 1 && (#[trigger] v@[j]).0@ == k && is_instant(m, k, prev, cur) {
                        let j = choose|j: int| 0 <= j < i + 1 && (#[trigger] v@[j]).0@ == k && is_instant(m, k, prev, cur);
                        if j == i {
                            assert(m[k] == v@[i as int].1@);
                        }
                    }
                }
            }
        }
        i += 1;
    }
    proof {
        assert forall|k: Seq<char>| #[trigger] text_views(found@).contains(k) <==> is_instant(m, k, prev, cur) by {
            if is_instant(m, k, prev, cur) {
                assert(has_key(v@, k));
                let j = choose|j: int| 0 <= j < v@.len() && (#[trigger] v@[j]).0@ == k;
                assert(v@[j].0@ == k);
            }
        }
    }
    sort_texts(found)
}

/// The rows of the instant calls, each taking its record with it.
fn take_instant(v: &mut Entries, order: &Vec<String>, now: u64, dnd: bool) -> (rows: Vec<CallHistory>)
    requires
        keys_unique(old(v)@),
        text_views(order@).no_duplicates(),
        forall|k: Seq<char>| #[trigger] text_views(order@).contains(k) ==> map_of(old(v)@).contains_key(k),
    ensures
        keys_unique(final(v)@),
        map_of(final(v)@) == map_of(old(v)@).remove_keys(text_views(order@).to_set()),
        history_views(rows@) == text_views(order@).map_values(
            |k: Seq<char>| instant_row(map_of(old(v)@)[k], now, dnd),
        ),
{
    let ghost m = map_of(v@);
    let ghost ov = text_views(order@);
    let mut rows: Vec<CallHistory> = Vec::new();
    let mut j: usize = 0;
    assert(m.remove_keys(ov.take(0).to_set()) =~= m);
    assert(history_views(rows@) =~= ov.take(0).map_values(|k: Seq<char>| instant_row(m[k], now, dnd)));
    while j < order.len()
        invariant
            j <= order.len(),
            ov == text_views(order@),
            ov.no_duplicates(),
            forall|k: Seq<char>| #[trigger] ov.contains(k) ==> m.contains_key(k),
            keys_unique(v@),
            map_of(v@) == m.remove_keys(ov.take(j as int).to_set()),
            history_views(rows@) == ov.take(j as int).map_values(
                |k: Seq<char>| instant_row(m[k], now, dnd),
            ),
        decreases order.len() - j,
    {
        let id = &order[j];
        assert(ov[j as int] == id@);
        assert(ov.contains(id@));
        assert(!ov.take(j as int).contains(id@)) by {
            if ov.take(j as int).contains(id@) {
                let q = choose|q: int| 0 <= q < j && #[trigger] ov.take(j as int)[q] == id@;
                assert(ov[q] == ov[j as int]);
            }
        }
        let r = take_record(v, id);
        assert(r@ == m[id@]);
        let row = instant_row_of(&r, now, dnd);
        let ghost before = rows@;
        rows.push(row);
        proof {
            assert(ov.take(j + 1) =~= ov.take(j as int).push(id@));
            assert forall|x: Seq<char>| ov.take(j + 1).to_set().contains(x) <==> ov.take(j as int).to_set().insert(id@).contains(x) by {
                if ov.take(j + 1).contains(x) {
                    let q = choose|q: int| 0 <= q < j + 1 && #[trigger] ov.take(j + 1)[q] == x;
                    if q < j {
                        assert(ov.take(j as int)[q] == x);
                    }
                }
                if ov.take(j as int).contains(x) {
                    let q = choose|q: int| 0 <= q < j && #[trigger] ov.take(j as int)[q] == x;
                    assert(ov.take(j + 1)[q] == x);
                }
                if x == id@ {
                    assert(ov.take(j + 1)[j as int] == x);
                }
            }
            assert(ov.take(j + 1).to_set() =~= ov.take(j as int).to_set().insert(id@));
            assert(m.remove_keys(ov.take(j as int).to_set()).remove(id@) =~= m.remove_keys(
                ov.take(j + 1).to_set(),
            ));
            assert(history_views(rows@) =~= history_views(before).push(row@));
            assert(ov.take(j + 1).map_values(|k: Seq<char>| instant_row(m[k], now, dnd)) =~= ov.take(
                j as int,
            ).map_values(|k: Seq<char>| instant_row(m[k], now, dnd)).push(instant_row(m[id@], now, dnd)));
        }
        j += 1;
    }
    assert(ov.take(order.len() as int) =~= ov);
    rows
}

fn instant_row_of(r: &CallRecord, now: u64, dnd: bool) -> (h: CallHistory)
    ensures
        h@ == instant_row(r@, now, dnd),
{
    let (direction, peer) = match &r.announced {
        Some((d, p)) => (d.clone(), p.clone()),
        None => (String::new(), String::new()),
    };
    let incoming = is(direction.as_str(), "HISTORY_INCOMING");
    let none = String::new();
    let closing = match &r.closing {
        Some(t) => t.as_str(),
        None => none.as_str(),
    };
    let outcome = if incoming {
        call_outcome("INCOMING", incoming, closing, dnd)
    } else {
        call_outcome("OUTGOING", incoming, closing, dnd)
    };
    CallHistory {
        ended_at: now,
        direction,
        peer,
        name: String::new(),
        duration: 0,
        recording: String::new(),
        outcome,
    }
}


spec fn dropped(orig: Seq<(String, CallRecord)>, from: int, prev: Seq<Seq<char>>, cur: Seq<Seq<char>>) -> Set<Seq<char>> {
    Set::new(
        |k: Seq<char>|
            exists|j: int|
                from <= j < orig.len() && (#[trigger] orig[j]).0@ == k && !keeps(k, orig[j].1@, prev, cur),
    )
}

fn retain_records(v: &mut Entries, olds: &Vec<CallInfo>, calls: &Vec<CallInfo>)
    requires
        keys_unique(old(v)@),
    ensures
        keys_unique(final(v)@),
        map_of(final(v)@) == retained(
            map_of(old(v)@),
            call_ids(call_views(olds@)),
            call_ids(call_views(calls@)),
        ),
{
    let ghost m = map_of(v@);
    let ghost orig = v@;
    let ghost prev = call_ids(call_views(olds@));
    let ghost cur = call_ids(call_views(calls@));
    let mut i: usize = v.len();
    assert(m.remove_keys(dropped(orig, orig.len() as int, prev, cur)) =~= m);
    while i > 0
        invariant
            i <= v.len(),
            i <= orig.len(),
            keys_unique(v@),
            keys_unique(orig),
            m == map_of(orig),
            prev == call_ids(call_views(olds@)),
            cur == call_ids(call_views(calls@)),
            v@.subrange(0, i as int) == orig.subrange(0, i as int),
            map_of(v@) == m.remove_keys(dropped(orig, i as int, prev, cur)),
        decreases i,
    {
        i -= 1;
        assert(v@[i as int] == orig.subrange(0, i + 1)[i as int]);
        let keep = has_id(calls, &v[i].0) || (!has_id(olds, &v[i].0) && v[i].1.announced.is_some()
            && v[i].1.closing.is_none());
        let ghost k = orig[i as int].0@;
        assert(keep == keeps(k, orig[i as int].1@, prev, cur));
        let ghost before = v@;
        if !keep {
            remove_at(v, i);
            assert(dropped(orig, i as int, prev, cur) =~= dropped(orig, i + 1, prev, cur).insert(k));
            assert(m.remove_keys(dropped(orig, i + 1, prev, cur)).remove(k) =~= m.remove_keys(
                dropped(orig, i as int, prev, cur),
            ));
            assert(v@.subrange(0, i as int) =~= before.subrange(0, i as int));
        } else {
            assert forall|x: Seq<char>| dropped(orig, i as int, prev, cur).contains(x) <==> dropped(
                orig,
                i + 1,
                prev,
                cur,
            ).contains(x) by {
                if dropped(orig, i as int, prev, cur).contains(x) {
                    let j = choose|j: int|
                        i <= j < orig.len() && (#[trigger] orig[j]).0@ == x && !keeps(
                            x,
                            orig[j].1@,
                            prev,
                            cur,
                        );
                    assert(j != i);
                }
            }
            assert(dropped(orig, i as int, prev, cur) =~= dropped(orig, i + 1, prev, cur));
        }
        assert(v@.subrange(0, i as int) =~= orig.subrange(0, i as int));
    }
    proof {
        let d = dropped(orig, 0, prev, cur);
        assert(map_of(v@) =~= retained(m, prev, cur)) by {
            assert forall|x: Seq<char>| #[trigger] m.contains_key(x) implies (d.contains(x) <==> !keeps(
                x,
                m[x],
                prev,
                cur,
            )) by {
                assert(has_key(orig, x));
                let j = choose|j: int| 0 <= j < orig.len() && (#[trigger] orig[j]).0@ == x;
                lemma_map_of(orig, j);
                if d.contains(x) {
                    let q = choose|q: int|
                        0 <= q < orig.len() && (#[trigger] orig[q]).0@ == x && !keeps(
                            x,
                            orig[q].1@,
                            prev,
                            cur,
                        );
                    assert(q == j);
                }
            }
        }
    }
}

/// The lines the records hold, as a list.
fn lines_of(v: &Entries) -> (r: Vec<u8>)
    requires
        keys_unique(v@),
    ensures
        forall|l: u8| #[trigger] r@.contains(l) <==> taken_lines(map_of(v@)).contains(l),
{
    let ghost m = map_of(v@);
    let mut r: Vec<u8> = Vec::new();
    let mut i: usize = 0;
    while i < v.len()
        invariant
            i <= v.len(),
            keys_unique(v@),
            m == map_of(v@),
            forall|l: u8| #[trigger] r@.contains(l) <==> exists|j: int| 0 <= j < i && (#[trigger] v@[j]).1@.line == Some(l),
        decreases v.len() - i,
    {
        let ghost before = r@;
        match v[i].1.line {
            Some(l) => {
                r.push(l);
                assert forall|x: u8| #[trigger] r@.contains(x) <==> exists|j: int| 0 <= j < i + 1 && (#[trigger] v@[j]).1@.line == Some(x) by {
                    if r@.contains(x) && x != l {
                        let q = choose|q: int| 0 <= q < r@.len() && r@[q] == x;
                        assert(before[q] == x);
                        assert(before.contains(x));
                    }
                    if exists|j: int| 0 <= j < i + 1 && (#[trigger] v@[j]).1@.line == Some(x) {
                        let j = choose|j: int| 0 <= j < i + 1 && (#[trigger] v@[j]).1@.line == Some(x);
                        if j < i {
                            assert(before.contains(x));
                            let q = choose|q: int| 0 <= q < before.len() && before[q] == x;
                            assert(r@[q] == x);
                        } else {
                            assert(r@[before.len() as int] == x);
                        }
                    }
                }
            },
            None => {
                assert forall|x: u8| #[trigger] r@.contains(x) <==> exists|j: int| 0 <= j < i + 1 && (#[trigger] v@[j]).1@.line == Some(x) by {
                    if exists|j: int| 0 <= j < i + 1 && (#[trigger] v@[j]).1@.line == Some(x) {
                        let j = choose|j: int| 0 <= j < i + 1 && (#[trigger] v@[j]).1@.line == Some(x);
                        assert(j != i);
                    }
                }
            },
        }
        i += 1;
    }
    proof {
        assert forall|l: u8| #[trigger] r@.contains(l) <==> taken_lines(m).contains(l) by {
            if r@.contains(l) {
                let j = choose|j: int| 0 <= j < v@.len() && (#[trigger] v@[j]).1@.line == Some(l);
                lemma_map_of(v@, j);
                assert(m.contains_key(v@[j].0@) && m[v@[j].0@].line == Some(l));
            }
            if taken_lines(m).contains(l) {
                let k = choose|k: Seq<char>| m.contains_key(k) && (#[trigger] m[k]).line == Some(l);
                assert(has_key(v@, k));
                let j = choose|j: int| 0 <= j < v@.len() && (#[trigger] v@[j]).0@ == k;
                lemma_map_of(v@, j);
            }
        }
    }
    r
}

/// The lowest line, from 1 to 8, that is not taken; 8 when all are.
fn lowest_free(taken: &Vec<u8>, t: Ghost<Set<u8>>) -> (r: u8)
    requires
        forall|l: u8| #[trigger] taken@.contains(l) <==> t@.contains(l),
    ensures
        r == free_line(t@, 1),
{
    let mut i: u8 = 1;
    while i <= 8
        invariant
            1 <= i <= 9,
            forall|l: u8| #[trigger] taken@.contains(l) <==> t@.contains(l),
            free_line(t@, 1) == free_line(t@, i),
        decreases 9 - i,
    {
        let mut held = false;
        let mut j: usize = 0;
        while j < taken.len()
            invariant
                j <= taken.len(),
                held == taken@.take(j as int).contains(i),
            decreases taken.len() - j,
        {
            assert(taken@.take(j + 1) =~= taken@.take(j as int).push(taken@[j as int]));
            proof {
                lemma_push_contains(taken@.take(j as int), taken@[j as int], i);
            }
            if taken[j] == i {
                held = true;
            }
            j += 1;
        }
        assert(taken@.take(taken.len() as int) =~= taken@);
        if !held {
            return i;
        }
        i += 1;
    }
    8
}

fn assign(v: &mut Entries, calls: &Vec<CallInfo>) -> (shown: Vec<CallInfo>)
    requires
        keys_unique(old(v)@),
    ensures
        keys_unique(final(v)@),
        (map_of(final(v)@), call_views(shown@)) == assign_lines(map_of(old(v)@), call_views(calls@)),
{
    let ghost m = map_of(v@);
    let ghost cv = call_views(calls@);
    let mut shown: Vec<CallInfo> = Vec::new();
    let mut i: usize = 0;
    assert(cv.take(0) =~= Seq::<CallView>::empty());
    assert(call_views(shown@) =~= Seq::<CallView>::empty());
    while i < calls.len()
        invariant
            i <= calls.len(),
            cv == call_views(calls@),
            keys_unique(v@),
            (map_of(v@), call_views(shown@)) == assign_lines(m, cv.take(i as int)),
        decreases calls.len() - i,
    {
        let c = &calls[i];
        let taken = lines_of(v);
        let mut r = get_record(v, &c.id);
        let ghost r0 = r@;
        let line = match r.line {
            Some(l) => l,
            None => lowest_free(&taken, Ghost(taken_lines(map_of(v@)))),
        };
        r.line = Some(line);
        put_record(v, c.id.clone(), r);
        let mut s = c.copy();
        s.line = line;
        let ghost before = shown@;
        shown.push(s);
        assert(call_views(shown@) =~= call_views(before).push(s@));
        assert(cv.take(i + 1).drop_last() =~= cv.take(i as int));
        assert(cv.take(i + 1).last() == c@);
        i += 1;
    }
    assert(cv.take(calls.len() as int) =~= cv);
    shown
}

fn answers(v: &Entries, shown: &Vec<CallInfo>) -> (ids: Vec<String>)
    requires
        keys_unique(v@),
    ensures
        text_views(ids@) == answer_ids(map_of(v@), call_views(shown@)),
{
    let ghost m = map_of(v@);
    let ghost cv = call_views(shown@);
    let mut ids: Vec<String> = Vec::new();
    let mut i: usize = 0;
    assert(cv.take(0) =~= Seq::<CallView>::empty());
    assert(text_views(ids@) =~= Seq::<Seq<char>>::empty());
    while i < shown.len()
        invariant
            i <= shown.len(),
            cv == call_views(shown@),
            keys_unique(v@),
            m == map_of(v@),
            text_views(ids@) == answer_ids(m, cv.take(i as int)),
        decreases shown.len() - i,
    {
        let c = &shown[i];
        let claimed = match find_record(v, &c.id) {
            Some(k) => {
                proof {
                    lemma_map_of(v@, k as int);
                }
                v[k].1.auto_answered
            },
            None => false,
        };
        assert(cv.take(i + 1).drop_last() =~= cv.take(i as int));
        assert(cv.take(i + 1).last() == c@);
        if is(c.state.as_str(), "INCOMING") && !claimed {
            let ghost before = ids@;
            ids.push(c.id.clone());
            assert(text_views(ids@) =~= text_views(before).push(c.id@));
        }
        i += 1;
    }
    assert(cv.take(shown.len() as int) =~= cv);
    ids
}

fn claim_all(v: &mut Entries, ids: &Vec<String>)
    requires
        keys_unique(old(v)@),
    ensures
        keys_unique(final(v)@),
        map_of(final(v)@) == claim(map_of(old(v)@), text_views(ids@)),
{
    let ghost m = map_of(v@);
    let ghost iv = text_views(ids@);
    let mut i: usize = 0;
    assert(iv.take(0) =~= Seq::<Seq<char>>::empty());
    while i < ids.len()
        invariant
            i <= ids.len(),
            iv == text_views(ids@),
            keys_unique(v@),
            map_of(v@) == claim(m, iv.take(i as int)),
        decreases ids.len() - i,
    {
        let mut r = get_record(v, &ids[i]);
        r.auto_answered = true;
        put_record(v, ids[i].clone(), r);
        assert(iv.take(i + 1).drop_last() =~= iv.take(i as int));
        assert(iv.take(i + 1).last() == ids@[i as int]@);
        i += 1;
    }
    assert(iv.take(ids.len() as int) =~= iv);
}


// ---------------------------------------------------------------------
// The phone
// ---------------------------------------------------------------------

/// What one report from the engine changed.
pub struct Applied {
    /// The calls as the window shows them, with their lines.
    pub calls: Vec<CallInfo>,
    /// The history rows for the calls that ended since the last report, in
    /// the order the tab shows them.
    pub ended: Vec<CallHistory>,
    /// The incoming calls the automatic answer takes this time.
    pub answer: Vec<String>,
}

impl View for Applied {
    type V = AppliedView;

    open spec fn view(&self) -> AppliedView {
        AppliedView {
            calls: call_views(self.calls@),
            ended: history_views(self.ended@),
            answer: text_views(self.answer@),
        }
    }
}

/// The calls of the engine process that runs now, and what is known of them.
pub struct PhoneState {
    /// The calls as of the last report, lines assigned.
    calls: Vec<CallInfo>,
    records: Entries,
    /// Which engine process the calls belong to. A report from an earlier
    /// generation is stale and changes nothing.
    generation: u64,
    /// Something that needs the phone quiet (a settings change, a device
    /// calibration) is going on. Begun only while no call is up.
    maintenance: bool,
}

impl View for PhoneState {
    type V = PhoneView;

    closed spec fn view(&self) -> PhoneView {
        PhoneView {
            calls: call_views(self.calls@),
            records: map_of(self.records@),
            generation: self.generation,
            maintenance: self.maintenance,
        }
    }
}

impl Default for PhoneState {
    fn default() -> (r: PhoneState)
        ensures
            r@.calls == Seq::<CallView>::empty(),
            r@.records == Map::<Seq<char>, RecordView>::empty(),
            r@.generation == 0,
            !r@.maintenance,
    {
        PhoneState::new()
    }
}

impl PhoneState {
    #[verifier::type_invariant]
    spec fn records_by_id(self) -> bool {
        keys_unique(self.records@)
    }

    /// A phone with no engine yet.
    pub fn new() -> (r: PhoneState)
        ensures
            r@.calls == Seq::<CallView>::empty(),
            r@.records == Map::<Seq<char>, RecordView>::empty(),
            r@.generation == 0,
            !r@.maintenance,
    {
        let r = PhoneState { calls: Vec::new(), records: Vec::new(), generation: 0, maintenance: false };
        assert(map_of(r.records@) =~= Map::<Seq<char>, RecordView>::empty());
        assert(call_views(r.calls@) =~= Seq::<CallView>::empty());
        r
    }

    /// A new engine process: the calls of the old one are gone with it, and
    /// its reports, should any still arrive, are told apart by generation.
    pub fn new_engine(&mut self) -> (g: u64)
        requires
            old(self)@.generation < u64::MAX,
        ensures
            final(self)@ == (PhoneView {
                calls: Seq::empty(),
                records: Map::empty(),
                generation: (old(self)@.generation + 1) as u64,
                maintenance: old(self)@.maintenance,
            }),
            g == final(self)@.generation,
    {
        proof {
            use_type_invariant(&*self);
        }
        self.calls = Vec::new();
        self.records = Vec::new();
        self.generation = self.generation + 1;
        assert(map_of(self.records@) =~= Map::<Seq<char>, RecordView>::empty());
        assert(call_views(self.calls@) =~= Seq::<CallView>::empty());
        self.generation
    }

    pub fn generation(&self) -> (g: u64)
        ensures
            g == self@.generation,
    {
        self.generation
    }

    /// The calls as of the last report.
    pub fn calls(&self) -> (r: &[CallInfo])
        ensures
            call_views(r@) == self@.calls,
    {
        self.calls.as_slice()
    }

    /// The engine's closing words for a call, kept for its history row.
    pub fn note_closed(&mut self, id: &str, reason: &str)
        ensures
            final(self)@ == (PhoneView {
                records: old(self)@.records.insert(
                    id@,
                    RecordView { closing: Some(reason@), ..record_of(old(self)@.records, id@) },
                ),
                ..old(self)@
            }),
    {
        proof {
            use_type_invariant(&*self);
        }
        let key = owned(id);
        let mut v: Entries = Vec::new();
        std::mem::swap(&mut v, &mut self.records);
        let mut r = get_record(&v, &key);
        r.closing = Some(owned(reason));
        put_record(&mut v, key, r);
        self.records = v;
    }

    /// The engine announced a call, before any report shows it.
    pub fn note_announced(&mut self, id: &str, direction_code: &str, peer: &str)
        ensures
            final(self)@ == (PhoneView {
                records: old(self)@.records.insert(
                    id@,
                    RecordView {
                        announced: Some((direction_code@, peer@)),
                        ..record_of(old(self)@.records, id@)
                    },
                ),
                ..old(self)@
            }),
    {
        proof {
            use_type_invariant(&*self);
        }
        let key = owned(id);
        let mut v: Entries = Vec::new();
        std::mem::swap(&mut v, &mut self.records);
        let mut r = get_record(&v, &key);
        r.announced = Some((message(direction_code), owned(peer)));
        put_record(&mut v, key, r);
        self.records = v;
    }

    /// A call was dialled from this line; the report that follows shows it there.
    pub fn note_dialled(&mut self, id: &str, line: u8)
        ensures
            final(self)@ == (PhoneView {
                records: old(self)@.records.insert(
                    id@,
                    RecordView { line: Some(line), ..record_of(old(self)@.records, id@) },
                ),
                ..old(self)@
            }),
    {
        proof {
            use_type_invariant(&*self);
        }
        let key = owned(id);
        let mut v: Entries = Vec::new();
        std::mem::swap(&mut v, &mut self.records);
        let mut r = get_record(&v, &key);
        r.line = Some(line);
        put_record(&mut v, key, r);
        self.records = v;
    }

    /// A call went into this recording file, so its history row can point at it.
    pub fn note_recording(&mut self, id: &str, file: &str)
        ensures
            final(self)@ == (PhoneView {
                records: old(self)@.records.insert(
                    id@,
                    RecordView { recording: Some(file@), ..record_of(old(self)@.records, id@) },
                ),
                ..old(self)@
            }),
    {
        proof {
            use_type_invariant(&*self);
        }
        let key = owned(id);
        let mut v: Entries = Vec::new();
        std::mem::swap(&mut v, &mut self.records);
        let mut r = get_record(&v, &key);
        r.recording = Some(owned(file));
        put_record(&mut v, key, r);
        self.records = v;
    }

    /// Maintenance (a settings change, a calibration) starts only while no
    /// call is up, and marks the phone so until it ends.
    pub fn begin_maintenance(&mut self) -> (r: Result<(), ()>)
        ensures
            old(self)@.calls.len() > 0 ==> r is Err && final(self)@ == old(self)@,
            old(self)@.calls.len() == 0 ==> r is Ok && final(self)@ == (PhoneView {
                maintenance: true,
                ..old(self)@
            }),
    {
        proof {
            use_type_invariant(&*self);
        }
        if self.calls.len() > 0 {
            return Err(());
        }
        self.maintenance = true;
        Ok(())
    }

    pub fn end_maintenance(&mut self)
        ensures
            final(self)@ == (PhoneView { maintenance: false, ..old(self)@ }),
    {
        proof {
            use_type_invariant(&*self);
        }
        self.maintenance = false;
    }

    /// Whether nothing is remembered of any call: no record waits for a
    /// report or a row.
    pub fn remembers_nothing(&self) -> (b: bool)
        ensures
            b == (self@.records == Map::<Seq<char>, RecordView>::empty()),
    {
        proof {
            use_type_invariant(self);
            if self.records@.len() > 0 {
                lemma_map_of(self.records@, 0);
                assert(!(map_of(self.records@) =~= Map::<Seq<char>, RecordView>::empty()));
            } else {
                assert(map_of(self.records@) =~= Map::<Seq<char>, RecordView>::empty());
            }
        }
        self.records.len() == 0
    }

    pub fn in_maintenance(&self) -> (b: bool)
        ensures
            b == self@.maintenance,
    {
        self.maintenance
    }

    /// Takes one report of the engine's calls. Returns what changed, or None
    /// for a report of an earlier engine, which is ignored whole.
    pub fn apply_report(
        &mut self,
        generation: u64,
        calls: Vec<CallInfo>,
        dnd: bool,
        auto_answer: bool,
        now: u64,
    ) -> (r: Option<Applied>)
        ensures
            generation != old(self)@.generation ==> r is None && final(self)@ == old(self)@,
            generation == old(self)@.generation ==> r is Some && reported(
                old(self)@,
                call_views(calls@),
                dnd,
                auto_answer,
                now,
                final(self)@,
                r->Some_0@,
            ),
    {
        proof {
            use_type_invariant(&*self);
        }
        if generation != self.generation {
            return None;
        }
        let ghost pre = self@;
        let ghost cv = call_views(calls@);
        let mut v: Entries = Vec::new();
        std::mem::swap(&mut v, &mut self.records);
        mark_report(&mut v, &calls);
        let mut ended = collect_gone(&mut v, &self.calls, &calls, now, dnd);
        let ghost m2 = map_of(v@);
        assert((m2, history_views(ended@)) == after_gone(pre, cv, now, dnd));
        let order = instant_ids(&v, &self.calls, &calls);
        let ghost ov = text_views(order@);
        proof {
            lemma_sorted_texts_distinct(ov);
        }
        let instant = take_instant(&mut v, &order, now, dnd);
        let ghost gone_rows = history_views(ended@);
        let mut j: usize = 0;
        while j < instant.len()
            invariant
                j <= instant.len(),
                history_views(ended@) == gone_rows + history_views(instant@).take(j as int),
            decreases instant.len() - j,
        {
            let ghost before = ended@;
            ended.push(instant[j].clone_row());
            assert(history_views(instant@).take(j + 1) =~= history_views(instant@).take(j as int).push(
                instant@[j as int]@,
            ));
            assert(history_views(ended@) =~= history_views(before).push(instant@[j as int]@));
            j += 1;
        }
        assert(history_views(instant@).take(instant.len() as int) =~= history_views(instant@));
        retain_records(&mut v, &self.calls, &calls);
        let shown = assign(&mut v, &calls);
        let answer = if auto_answer {
            answers(&v, &shown)
        } else {
            Vec::new()
        };
        assert(!auto_answer ==> text_views(answer@) =~= Seq::<Seq<char>>::empty());
        claim_all(&mut v, &answer);
        self.calls = copy_calls(&shown);
        self.records = v;
        let applied = Applied { calls: shown, ended, answer };
        assert(after_report(pre, cv, dnd, auto_answer, now, ov) == (self@, applied@));
        Some(applied)
    }

    /// The engine is gone without being asked: the calls of the last report
    /// get their rows (their closing words never came), and the bookkeeping
    /// is emptied.
    pub fn engine_gone(&mut self, dnd: bool, now: u64) -> (rows: Vec<CallHistory>)
        ensures
            history_views(rows@) == rows_at_exit(old(self)@.records, old(self)@.calls, now, dnd),
            final(self)@ == (PhoneView {
                calls: Seq::empty(),
                records: Map::empty(),
                ..old(self)@
            }),
    {
        proof {
            use_type_invariant(&*self);
        }
        let ghost cv = call_views(self.calls@);
        let ghost m = map_of(self.records@);
        let mut rows: Vec<CallHistory> = Vec::new();
        let mut i: usize = 0;
        while i < self.calls.len()
            invariant
                i <= self.calls.len(),
                keys_unique(self.records@),
                cv == call_views(self.calls@),
                m == map_of(self.records@),
                history_views(rows@) == rows_at_exit(m, cv.take(i as int), now, dnd),
            decreases self.calls.len() - i,
        {
            let r = get_record(&self.records, &self.calls[i].id);
            let row = make_row(&self.calls[i], &r, now, dnd);
            let ghost before = rows@;
            rows.push(row);
            assert(history_views(rows@) =~= history_views(before).push(row@));
            assert(rows_at_exit(m, cv.take(i + 1), now, dnd) =~= rows_at_exit(m, cv.take(i as int), now, dnd).push(row@));
            i += 1;
        }
        assert(cv.take(cv.len() as int) =~= cv);
        self.calls = Vec::new();
        self.records = Vec::new();
        assert(map_of(self.records@) =~= Map::<Seq<char>, RecordView>::empty());
        assert(call_views(self.calls@) =~= Seq::<CallView>::empty());
        rows
    }
}

impl CallHistory {
    /// A copy with the same contents.
    pub fn clone_row(&self) -> (r: CallHistory)
        ensures
            r@ == self@,
    {
        CallHistory {
            ended_at: self.ended_at,
            direction: self.direction.clone(),
            peer: self.peer.clone(),
            name: self.name.clone(),
            duration: self.duration,
            recording: self.recording.clone(),
            outcome: self.outcome.clone(),
        }
    }
}


// ---------------------------------------------------------------------
// The call the automatic recording follows
// ---------------------------------------------------------------------

pub open spec fn recordable(c: CallView) -> bool {
    c.state == "ESTABLISHED"@ && !c.held
}

/// The established, unheld call on the lowest line; of two on one line,
/// the one listed first.
pub open spec fn lowest_recordable(calls: Seq<CallView>) -> Option<CallView>
    decreases calls.len(),
{
    if calls.len() == 0 {
        None
    } else {
        let best = lowest_recordable(calls.drop_last());
        let c = calls.last();
        if recordable(c) {
            match best {
                None => Some(c),
                Some(b) => if c.line < b.line {
                    Some(c)
                } else {
                    best
                },
            }
        } else {
            best
        }
    }
}

pub open spec fn recording_target(enabled: bool, calls: Seq<CallView>) -> Option<Seq<char>> {
    if !enabled {
        None
    } else {
        match lowest_recordable(calls) {
            Some(c) => Some(c.id),
            None => None,
        }
    }
}

/// The call the automatic recording follows: the established, unheld call
/// on the lowest line, or none.
pub fn automatic_recording_target(enabled: bool, calls: &[CallInfo]) -> (r: Option<String>)
    ensures
        text_view(r) == recording_target(enabled, call_views(calls@)),
{
    if !enabled {
        return None;
    }
    let ghost cv = call_views(calls@);
    let mut best: Option<usize> = None;
    let mut i: usize = 0;
    assert(cv.take(0) =~= Seq::<CallView>::empty());
    while i < calls.len()
        invariant
            i <= calls.len(),
            cv == call_views(calls@),
            match best {
                None => lowest_recordable(cv.take(i as int)) is None,
                Some(b) => b < i && lowest_recordable(cv.take(i as int)) == Some(cv[b as int]),
            },
        decreases calls.len() - i,
    {
        let c = &calls[i];
        assert(cv.take(i + 1).drop_last() =~= cv.take(i as int));
        assert(cv.take(i + 1).last() == c@);
        if is(c.state.as_str(), "ESTABLISHED") && !c.held {
            match best {
                None => {
                    best = Some(i);
                },
                Some(b) => {
                    if c.line < calls[b].line {
                        best = Some(i);
                    }
                },
            }
        }
        i += 1;
    }
    assert(cv.take(calls.len() as int) =~= cv);
    match best {
        Some(b) => Some(calls[b].id.clone()),
        None => None,
    }
}

// ---------------------------------------------------------------------
// What every report keeps
// ---------------------------------------------------------------------

/// Each call of the last report has its line in its record.
pub open spec fn lines_recorded(s: PhoneView) -> bool {
    forall|i: int|
        0 <= i < s.calls.len() ==> record_of(s.records, #[trigger] s.calls[i].id).line == Some(
            s.calls[i].line,
        )
}

proof fn lemma_mark_keeps(m: Map<Seq<char>, RecordView>, calls: Seq<CallView>, k: Seq<char>)
    ensures
        record_of(mark_directions(m, calls), k).line == record_of(m, k).line,
        record_of(mark_directions(m, calls), k).auto_answered == record_of(m, k).auto_answered,
    decreases calls.len(),
{
    if calls.len() > 0 {
        lemma_mark_keeps(m, calls.drop_last(), k);
    }
}

proof fn lemma_gone_keeps(
    m: Map<Seq<char>, RecordView>,
    olds: Seq<CallView>,
    cur: Seq<Seq<char>>,
    now: u64,
    dnd: bool,
    k: Seq<char>,
)
    requires
        cur.contains(k),
    ensures
        record_of(gone(m, olds, cur, now, dnd).0, k) == record_of(m, k),
    decreases olds.len(),
{
    if olds.len() > 0 {
        lemma_gone_keeps(m, olds.drop_last(), cur, now, dnd, k);
    }
}

proof fn lemma_assign(m: Map<Seq<char>, RecordView>, calls: Seq<CallView>)
    ensures
        assign_lines(m, calls).1.len() == calls.len(),
        forall|j: int| 0 <= j < calls.len() ==> (#[trigger] assign_lines(m, calls).1[j]).id == calls[j].id,
        forall|j: int|
            0 <= j < calls.len() ==> record_of(assign_lines(m, calls).0, calls[j].id).line == Some(
                #[trigger] assign_lines(m, calls).1[j].line,
            ),
        forall|j: int|
            0 <= j < calls.len() && (#[trigger] record_of(m, calls[j].id)).line is Some ==> assign_lines(
                m,
                calls,
            ).1[j].line == record_of(m, calls[j].id).line->0,
        forall|k: Seq<char>|
            #[trigger] record_of(m, k).line is Some ==> record_of(assign_lines(m, calls).0, k).line
                == record_of(m, k).line,
        forall|k: Seq<char>|
            #[trigger] record_of(assign_lines(m, calls).0, k).auto_answered == record_of(m, k).auto_answered,
        forall|k: Seq<char>|
            !call_ids(calls).contains(k) ==> #[trigger] record_of(assign_lines(m, calls).0, k)
                == record_of(m, k) && assign_lines(m, calls).0.contains_key(k) == m.contains_key(k),
    decreases calls.len(),
{
    if calls.len() > 0 {
        let init = calls.drop_last();
        lemma_assign(m, init);
        let (m0, shown0) = assign_lines(m, init);
        let c = calls.last();
        let n = init.len() as int;
        let (m1, shown1) = assign_lines(m, calls);
        assert forall|j: int| 0 <= j < calls.len() implies record_of(m1, calls[j].id).line == Some(
            #[trigger] shown1[j].line,
        ) by {
            if j < n {
                assert(calls[j] == init[j]);
                if calls[j].id != c.id {
                } else {
                    assert(record_of(m0, c.id).line == Some(shown0[j].line));
                }
            }
        }
        assert forall|j: int|
            0 <= j < calls.len() && (#[trigger] record_of(m, calls[j].id)).line is Some implies shown1[j].line
                == record_of(m, calls[j].id).line->0 by {
            if j < n {
                assert(calls[j] == init[j]);
            }
        }
        assert(call_ids(calls) =~= call_ids(init).push(c.id));
        assert forall|k: Seq<char>| !call_ids(calls).contains(k) implies #[trigger] record_of(m1, k)
            == record_of(m, k) && m1.contains_key(k) == m.contains_key(k) by {
            lemma_push_contains(call_ids(init), c.id, k);
            assert(!call_ids(init).contains(k));
            assert(k != c.id);
            assert(record_of(assign_lines(m, init).0, k) == record_of(m, k));
            assert(m1 == m0.insert(c.id, RecordView { line: Some(m1[c.id].line->0), ..record_of(m0, c.id) }));
        }
        assert forall|k: Seq<char>| #[trigger] record_of(m1, k).auto_answered == record_of(m, k).auto_answered by {
            assert(record_of(m0, k).auto_answered == record_of(m, k).auto_answered);
        }
        assert forall|k: Seq<char>| #[trigger] record_of(m, k).line is Some implies record_of(m1, k).line
                == record_of(m, k).line by {
            assert(record_of(m0, k).line == record_of(m, k).line);
        }
    }
}

proof fn lemma_answer_ids(m: Map<Seq<char>, RecordView>, calls: Seq<CallView>, k: Seq<char>)
    requires
        answer_ids(m, calls).contains(k),
    ensures
        !(m.contains_key(k) && m[k].auto_answered),
        call_ids(calls).contains(k),
    decreases calls.len(),
{
    let init = calls.drop_last();
    let ids = answer_ids(m, init);
    let c = calls.last();
    let n = init.len() as int;
    assert(call_ids(calls)[n] == c.id);
    if ids.contains(k) {
        lemma_answer_ids(m, init, k);
        let q = choose|q: int| 0 <= q < call_ids(init).len() && call_ids(init)[q] == k;
        assert(call_ids(calls)[q] == k);
    } else {
        lemma_push_contains(ids, c.id, k);
    }
}

proof fn lemma_claim(m: Map<Seq<char>, RecordView>, ids: Seq<Seq<char>>, k: Seq<char>)
    ensures
        ids.contains(k) ==> record_of(claim(m, ids), k).auto_answered,
        record_of(m, k).auto_answered ==> record_of(claim(m, ids), k).auto_answered,
        record_of(claim(m, ids), k).line == record_of(m, k).line,
        !ids.contains(k) ==> record_of(claim(m, ids), k) == record_of(m, k),
        !ids.contains(k) ==> claim(m, ids).contains_key(k) == m.contains_key(k),
    decreases ids.len(),
{
    if ids.len() > 0 {
        let init = ids.drop_last();
        lemma_claim(m, init, k);
        lemma_push_contains(init, ids.last(), k);
        assert(init.push(ids.last()) =~= ids);
    }
}

/// What a report keeps of the records of the calls it shows: the line and
/// whether the automatic answer claimed it.
proof fn lemma_report_keeps(
    pre: PhoneView,
    calls: Seq<CallView>,
    dnd: bool,
    now: u64,
    order: Seq<Seq<char>>,
    k: Seq<char>,
)
    requires
        instant_order(after_gone(pre, calls, now, dnd).0, call_ids(pre.calls), call_ids(calls), order),
        call_ids(calls).contains(k),
    ensures
        ({
            let prev = call_ids(pre.calls);
            let cur = call_ids(calls);
            let m4 = retained(
                after_gone(pre, calls, now, dnd).0.remove_keys(order.to_set()),
                prev,
                cur,
            );
            &&& record_of(m4, k).line == record_of(pre.records, k).line
            &&& record_of(m4, k).auto_answered == record_of(pre.records, k).auto_answered
        }),
{
    let prev = call_ids(pre.calls);
    let cur = call_ids(calls);
    let m1 = mark_directions(pre.records, calls);
    let m2 = after_gone(pre, calls, now, dnd).0;
    let m3 = m2.remove_keys(order.to_set());
    let m4 = retained(m3, prev, cur);
    lemma_mark_keeps(pre.records, calls, k);
    lemma_gone_keeps(m1, pre.calls, cur, now, dnd, k);
    assert(!order.contains(k)) by {
        if order.contains(k) {
            assert(is_instant(m2, k, prev, cur));
        }
    }
    assert(record_of(m3, k) == record_of(m2, k));
    assert(record_of(m4, k) == record_of(m3, k));
}

/// A call that stays from one report to the next keeps its line, provided
/// each call of the first report had its line in its record; and after any
/// report of the current engine each call it shows has its line recorded.
pub proof fn law_a_call_keeps_its_line(
    pre: PhoneView,
    calls: Seq<CallView>,
    dnd: bool,
    auto_answer: bool,
    now: u64,
    post: PhoneView,
    applied: AppliedView,
)
    requires
        reported(pre, calls, dnd, auto_answer, now, post, applied),
        lines_recorded(pre),
    ensures
        lines_recorded(post),
        post.calls == applied.calls,
        applied.calls.len() == calls.len(),
        forall|i: int, j: int|
            0 <= i < pre.calls.len() && 0 <= j < calls.len() && (#[trigger] pre.calls[i]).id == (
            #[trigger] calls[j]).id ==> applied.calls[j].line == pre.calls[i].line,
{
    let order = choose|order: Seq<Seq<char>>|
        instant_order(after_gone(pre, calls, now, dnd).0, call_ids(pre.calls), call_ids(calls), order)
            && (post, applied) == #[trigger] after_report(pre, calls, dnd, auto_answer, now, order);
    let prev = call_ids(pre.calls);
    let cur = call_ids(calls);
    let m4 = retained(after_gone(pre, calls, now, dnd).0.remove_keys(order.to_set()), prev, cur);
    let (m5, shown) = assign_lines(m4, calls);
    let answer = if auto_answer {
        answer_ids(m5, shown)
    } else {
        seq![]
    };
    lemma_assign(m4, calls);
    assert forall|i: int| 0 <= i < post.calls.len() implies record_of(
        post.records,
        #[trigger] post.calls[i].id,
    ).line == Some(post.calls[i].line) by {
        lemma_claim(m5, answer, shown[i].id);
    }
    assert forall|i: int, j: int|
        0 <= i < pre.calls.len() && 0 <= j < calls.len() && (#[trigger] pre.calls[i]).id == (
        #[trigger] calls[j]).id implies applied.calls[j].line == pre.calls[i].line by {
        assert(cur[j] == calls[j].id);
        lemma_report_keeps(pre, calls, dnd, now, order, calls[j].id);
        assert(record_of(pre.records, pre.calls[i].id).line == Some(pre.calls[i].line));
    }
}

/// A call dialled from a line is shown on that line by the report that
/// follows.
pub proof fn law_a_dialled_call_is_shown_on_its_line(
    pre: PhoneView,
    id: Seq<char>,
    line: u8,
    calls: Seq<CallView>,
    dnd: bool,
    auto_answer: bool,
    now: u64,
    post: PhoneView,
    applied: AppliedView,
    j: int,
)
    requires
        reported(
            PhoneView {
                records: pre.records.insert(id, RecordView { line: Some(line), ..record_of(pre.records, id) }),
                ..pre
            },
            calls,
            dnd,
            auto_answer,
            now,
            post,
            applied,
        ),
        0 <= j < calls.len(),
        calls[j].id == id,
    ensures
        applied.calls[j].line == line,
{
    let dialled = PhoneView {
        records: pre.records.insert(id, RecordView { line: Some(line), ..record_of(pre.records, id) }),
        ..pre
    };
    let order = choose|order: Seq<Seq<char>>|
        instant_order(
            after_gone(dialled, calls, now, dnd).0,
            call_ids(dialled.calls),
            call_ids(calls),
            order,
        ) && (post, applied) == #[trigger] after_report(dialled, calls, dnd, auto_answer, now, order);
    let prev = call_ids(dialled.calls);
    let cur = call_ids(calls);
    let m4 = retained(after_gone(dialled, calls, now, dnd).0.remove_keys(order.to_set()), prev, cur);
    assert(cur[j] == id);
    lemma_report_keeps(dialled, calls, dnd, now, order, id);
    lemma_assign(m4, calls);
}

/// A call the automatic answer takes is one the report shows, and its record
/// says it was taken.
proof fn lemma_answered_is_claimed(
    pre: PhoneView,
    calls: Seq<CallView>,
    dnd: bool,
    auto_answer: bool,
    now: u64,
    post: PhoneView,
    applied: AppliedView,
    id: Seq<char>,
)
    requires
        reported(pre, calls, dnd, auto_answer, now, post, applied),
        applied.answer.contains(id),
    ensures
        record_of(post.records, id).auto_answered,
        call_ids(calls).contains(id),
{
    let order = choose|order: Seq<Seq<char>>|
        instant_order(after_gone(pre, calls, now, dnd).0, call_ids(pre.calls), call_ids(calls), order)
            && (post, applied) == #[trigger] after_report(pre, calls, dnd, auto_answer, now, order);
    let m4 = retained(
        after_gone(pre, calls, now, dnd).0.remove_keys(order.to_set()),
        call_ids(pre.calls),
        call_ids(calls),
    );
    let (m5, shown) = assign_lines(m4, calls);
    let answer = if auto_answer {
        answer_ids(m5, shown)
    } else {
        seq![]
    };
    lemma_claim(m5, answer, id);
    lemma_assign(m4, calls);
    if auto_answer {
        lemma_answer_ids(m5, shown, id);
        let q = choose|q: int| 0 <= q < call_ids(shown).len() && call_ids(shown)[q] == id;
        assert(shown[q].id == calls[q].id);
        assert(call_ids(calls)[q] == id);
    }
}

/// A call whose record says the automatic answer took it, and which the
/// report still shows, is not taken again and stays marked.
proof fn lemma_claimed_stays(
    pre: PhoneView,
    calls: Seq<CallView>,
    dnd: bool,
    auto_answer: bool,
    now: u64,
    post: PhoneView,
    applied: AppliedView,
    id: Seq<char>,
)
    requires
        reported(pre, calls, dnd, auto_answer, now, post, applied),
        record_of(pre.records, id).auto_answered,
        call_ids(calls).contains(id),
    ensures
        record_of(post.records, id).auto_answered,
        !applied.answer.contains(id),
{
    let order = choose|order: Seq<Seq<char>>|
        instant_order(after_gone(pre, calls, now, dnd).0, call_ids(pre.calls), call_ids(calls), order)
            && (post, applied) == #[trigger] after_report(pre, calls, dnd, auto_answer, now, order);
    lemma_report_keeps(pre, calls, dnd, now, order, id);
    let m4 = retained(
        after_gone(pre, calls, now, dnd).0.remove_keys(order.to_set()),
        call_ids(pre.calls),
        call_ids(calls),
    );
    lemma_assign(m4, calls);
    let (m5, shown) = assign_lines(m4, calls);
    assert(record_of(m5, id).auto_answered);
    let answer = if auto_answer {
        answer_ids(m5, shown)
    } else {
        seq![]
    };
    lemma_claim(m5, answer, id);
    if auto_answer && applied.answer.contains(id) {
        lemma_answer_ids(m5, shown, id);
    }
}

/// The automatic answer takes each incoming call once: a call it took is
/// not taken again by the next report that still shows it.
pub proof fn law_an_answered_call_is_not_answered_again(
    s0: PhoneView,
    calls1: Seq<CallView>,
    dnd1: bool,
    auto1: bool,
    now1: u64,
    s1: PhoneView,
    a1: AppliedView,
    calls2: Seq<CallView>,
    dnd2: bool,
    auto2: bool,
    now2: u64,
    s2: PhoneView,
    a2: AppliedView,
    id: Seq<char>,
)
    requires
        reported(s0, calls1, dnd1, auto1, now1, s1, a1),
        reported(s1, calls2, dnd2, auto2, now2, s2, a2),
        a1.answer.contains(id),
        call_ids(calls2).contains(id),
    ensures
        !a2.answer.contains(id),
{
    lemma_answered_is_claimed(s0, calls1, dnd1, auto1, now1, s1, a1, id);
    lemma_claimed_stays(s1, calls2, dnd2, auto2, now2, s2, a2, id);
}

/// A run of reports of one engine: each moves the phone from one state to
/// the next.
pub open spec fn report_run(
    states: Seq<PhoneView>,
    calls: Seq<Seq<CallView>>,
    dnd: Seq<bool>,
    auto_answer: Seq<bool>,
    now: Seq<u64>,
    applied: Seq<AppliedView>,
) -> bool {
    &&& states.len() == calls.len() + 1
    &&& dnd.len() == calls.len()
    &&& auto_answer.len() == calls.len()
    &&& now.len() == calls.len()
    &&& applied.len() == calls.len()
    &&& forall|k: int|
        0 <= k < calls.len() ==> reported(
            states[k],
            #[trigger] calls[k],
            dnd[k],
            auto_answer[k],
            now[k],
            states[k + 1],
            applied[k],
        )
}

/// A call that has left a report does not come back in a later one.
pub open spec fn leaves_for_good(calls: Seq<Seq<CallView>>, id: Seq<char>) -> bool {
    forall|a: int, b: int, c: int|
        #![trigger calls[a], calls[b], calls[c]]
        0 <= a < b < c < calls.len() && call_ids(calls[a]).contains(id) && !call_ids(
            calls[b],
        ).contains(id) ==> !call_ids(calls[c]).contains(id)
}

proof fn lemma_claim_lasts(
    states: Seq<PhoneView>,
    calls: Seq<Seq<CallView>>,
    dnd: Seq<bool>,
    auto_answer: Seq<bool>,
    now: Seq<u64>,
    applied: Seq<AppliedView>,
    id: Seq<char>,
    i: int,
    j: int,
    k: int,
)
    requires
        report_run(states, calls, dnd, auto_answer, now, applied),
        leaves_for_good(calls, id),
        0 <= i < k <= j < calls.len(),
        applied[i].answer.contains(id),
        call_ids(calls[j]).contains(id),
    ensures
        record_of(states[k].records, id).auto_answered,
    decreases k - i,
{
    assert(reported(states[i], calls[i], dnd[i], auto_answer[i], now[i], states[i + 1], applied[i]));
    lemma_answered_is_claimed(states[i], calls[i], dnd[i], auto_answer[i], now[i], states[i + 1], applied[i], id);
    if k > i + 1 {
        let p = k - 1;
        lemma_claim_lasts(states, calls, dnd, auto_answer, now, applied, id, i, j, p);
        if !call_ids(calls[p]).contains(id) {
            assert(calls[i] == calls[i] && calls[p] == calls[p] && calls[j] == calls[j]);
            assert(!call_ids(calls[j]).contains(id));
        }
        assert(reported(states[p], calls[p], dnd[p], auto_answer[p], now[p], states[p + 1], applied[p]));
        lemma_claimed_stays(states[p], calls[p], dnd[p], auto_answer[p], now[p], states[p + 1], applied[p], id);
    }
}

/// Over any run of reports of one engine the automatic answer takes a call
/// at most once, as long as a call that has left a report does not come
/// back (the engine never reuses an id): no call is in the answer of two
/// reports. While the automatic answer is off a report takes no call.
pub proof fn law_a_call_is_answered_at_most_once(
    states: Seq<PhoneView>,
    calls: Seq<Seq<CallView>>,
    dnd: Seq<bool>,
    auto_answer: Seq<bool>,
    now: Seq<u64>,
    applied: Seq<AppliedView>,
    id: Seq<char>,
    i: int,
    j: int,
)
    requires
        report_run(states, calls, dnd, auto_answer, now, applied),
        leaves_for_good(calls, id),
        0 <= i < j < calls.len(),
    ensures
        !(applied[i].answer.contains(id) && applied[j].answer.contains(id)),
        !auto_answer[i] ==> applied[i].answer.len() == 0,
{
    assert(reported(states[i], calls[i], dnd[i], auto_answer[i], now[i], states[i + 1], applied[i]));
    assert(reported(states[j], calls[j], dnd[j], auto_answer[j], now[j], states[j + 1], applied[j]));
    if applied[i].answer.contains(id) && applied[j].answer.contains(id) {
        lemma_answered_is_claimed(states[j], calls[j], dnd[j], auto_answer[j], now[j], states[j + 1], applied[j], id);
        lemma_claim_lasts(states, calls, dnd, auto_answer, now, applied, id, i, j, j);
        lemma_claimed_stays(states[j], calls[j], dnd[j], auto_answer[j], now[j], states[j + 1], applied[j], id);
    }
}

/// The ids the automatic answer took in the first `k` reports of a run.
pub open spec fn answered_before(applied: Seq<AppliedView>, k: int) -> Set<Seq<char>> {
    Set::new(|id: Seq<char>| exists|i: int| 0 <= i < k && (#[trigger] applied[i]).answer.contains(id))
}

/// The incoming calls of a report, in its order, but for those already taken.
pub open spec fn incoming_untaken(calls: Seq<CallView>, taken: Set<Seq<char>>) -> Seq<Seq<char>>
    decreases calls.len(),
{
    if calls.len() == 0 {
        seq![]
    } else {
        let ids = incoming_untaken(calls.drop_last(), taken);
        let c = calls.last();
        if c.state == "INCOMING"@ && !taken.contains(c.id) {
            ids.push(c.id)
        } else {
            ids
        }
    }
}

/// Putting calls on lines changes nothing of them but the line.
proof fn lemma_assign_shape(m: Map<Seq<char>, RecordView>, calls: Seq<CallView>)
    ensures
        assign_lines(m, calls).1.len() == calls.len(),
        forall|j: int|
            0 <= j < calls.len() ==> (#[trigger] assign_lines(m, calls).1[j]) == (CallView {
                line: assign_lines(m, calls).1[j].line,
                ..calls[j]
            }),
    decreases calls.len(),
{
    if calls.len() > 0 {
        let init = calls.drop_last();
        lemma_assign_shape(m, init);
        let shown1 = assign_lines(m, calls).1;
        assert forall|j: int| 0 <= j < calls.len() implies (#[trigger] shown1[j]) == (CallView {
            line: shown1[j].line,
            ..calls[j]
        }) by {
            if j < init.len() {
                assert(shown1[j] == assign_lines(m, init).1[j]);
                assert(calls[j] == init[j]);
            }
        }
    }
}

/// The answer a report gives is its incoming calls that the records do not
/// mark as taken.
proof fn lemma_answer_ids_untaken(
    m: Map<Seq<char>, RecordView>,
    shown: Seq<CallView>,
    calls: Seq<CallView>,
    taken: Set<Seq<char>>,
)
    requires
        shown.len() == calls.len(),
        forall|j: int| 0 <= j < calls.len() ==> (#[trigger] shown[j]).id == calls[j].id && shown[j].state == calls[j].state,
        forall|j: int|
            0 <= j < calls.len() ==> record_of(m, (#[trigger] calls[j]).id).auto_answered == taken.contains(
                calls[j].id,
            ),
    ensures
        answer_ids(m, shown) == incoming_untaken(calls, taken),
    decreases calls.len(),
{
    if calls.len() > 0 {
        let n = calls.len() - 1;
        assert(shown[n].id == calls[n].id && shown[n].state == calls[n].state);
        assert(record_of(m, calls[n].id).auto_answered == taken.contains(calls[n].id));
        lemma_answer_ids_untaken(m, shown.drop_last(), calls.drop_last(), taken);
    }
}

/// A record marked as taken after a report was taken by that report, or
/// was marked before it.
proof fn lemma_claim_source(
    pre: PhoneView,
    calls: Seq<CallView>,
    dnd: bool,
    auto_answer: bool,
    now: u64,
    post: PhoneView,
    applied: AppliedView,
    id: Seq<char>,
)
    requires
        reported(pre, calls, dnd, auto_answer, now, post, applied),
        record_of(post.records, id).auto_answered,
    ensures
        applied.answer.contains(id) || record_of(pre.records, id).auto_answered,
{
    let order = choose|order: Seq<Seq<char>>|
        instant_order(after_gone(pre, calls, now, dnd).0, call_ids(pre.calls), call_ids(calls), order)
            && (post, applied) == #[trigger] after_report(pre, calls, dnd, auto_answer, now, order);
    let prev = call_ids(pre.calls);
    let cur = call_ids(calls);
    let m1 = mark_directions(pre.records, calls);
    let m2 = after_gone(pre, calls, now, dnd).0;
    let m3 = m2.remove_keys(order.to_set());
    let m4 = retained(m3, prev, cur);
    let (m5, shown) = assign_lines(m4, calls);
    let answer = if auto_answer {
        answer_ids(m5, shown)
    } else {
        seq![]
    };
    lemma_claim(m5, answer, id);
    lemma_assign(m4, calls);
    if !answer.contains(id) {
        assert(record_of(m4, id).auto_answered);
        lemma_gone_rows(m1, pre.calls, cur, now, dnd);
        lemma_mark_keeps(pre.records, calls, id);
        assert(m4.contains_key(id));
        assert(m3.contains_key(id) && m3[id] == m4[id]);
        assert(m2.contains_key(id) && m2[id] == m3[id]);
        assert(m1.contains_key(id) && m1[id] == m2[id]);
    }
}

/// Over a run that starts with nothing taken, a record is marked as taken
/// only for a call an earlier report took.
proof fn lemma_claim_origin(
    states: Seq<PhoneView>,
    calls: Seq<Seq<CallView>>,
    dnd: Seq<bool>,
    auto_answer: Seq<bool>,
    now: Seq<u64>,
    applied: Seq<AppliedView>,
    id: Seq<char>,
    k: int,
)
    requires
        report_run(states, calls, dnd, auto_answer, now, applied),
        forall|x: Seq<char>| !(#[trigger] record_of(states[0].records, x)).auto_answered,
        0 <= k <= calls.len(),
        record_of(states[k].records, id).auto_answered,
    ensures
        answered_before(applied, k).contains(id),
    decreases k,
{
    assert(!record_of(states[0].records, id).auto_answered);
    if k > 0 {
        let p = k - 1;
        assert(reported(states[p], calls[p], dnd[p], auto_answer[p], now[p], states[p + 1], applied[p]));
        lemma_claim_source(states[p], calls[p], dnd[p], auto_answer[p], now[p], states[p + 1], applied[p], id);
        if applied[p].answer.contains(id) {
            assert(answered_before(applied, k).contains(id));
        } else {
            lemma_claim_origin(states, calls, dnd, auto_answer, now, applied, id, p);
            let i = choose|i: int| 0 <= i < p && (#[trigger] applied[i]).answer.contains(id);
            assert(answered_before(applied, k).contains(id));
        }
    }
}

proof fn lemma_answer_in_run(
    states: Seq<PhoneView>,
    calls: Seq<Seq<CallView>>,
    dnd: Seq<bool>,
    auto_answer: Seq<bool>,
    now: Seq<u64>,
    applied: Seq<AppliedView>,
    k: int,
)
    requires
        report_run(states, calls, dnd, auto_answer, now, applied),
        forall|x: Seq<char>| !(#[trigger] record_of(states[0].records, x)).auto_answered,
        forall|x: Seq<char>| #[trigger] leaves_for_good(calls, x),
        0 <= k < calls.len(),
    ensures
        applied[k].answer == if auto_answer[k] {
            incoming_untaken(calls[k], answered_before(applied, k))
        } else {
            seq![]
        },
{
    let pre = states[k];
    let cs = calls[k];
    assert(reported(pre, cs, dnd[k], auto_answer[k], now[k], states[k + 1], applied[k]));
    let order = choose|order: Seq<Seq<char>>|
        instant_order(after_gone(pre, cs, now[k], dnd[k]).0, call_ids(pre.calls), call_ids(cs), order)
            && (states[k + 1], applied[k]) == #[trigger] after_report(
            pre,
            cs,
            dnd[k],
            auto_answer[k],
            now[k],
            order,
        );
    let cur = call_ids(cs);
    let m4 = retained(
        after_gone(pre, cs, now[k], dnd[k]).0.remove_keys(order.to_set()),
        call_ids(pre.calls),
        cur,
    );
    let (m5, shown) = assign_lines(m4, cs);
    let taken = answered_before(applied, k);
    lemma_assign(m4, cs);
    lemma_assign_shape(m4, cs);
    assert forall|j: int| 0 <= j < cs.len() implies record_of(m5, (#[trigger] cs[j]).id).auto_answered
        == taken.contains(cs[j].id) by {
        let id = cs[j].id;
        assert(cur[j] == id);
        lemma_report_keeps(pre, cs, dnd[k], now[k], order, id);
        assert(leaves_for_good(calls, id));
        if taken.contains(id) {
            let i = choose|i: int| 0 <= i < k && (#[trigger] applied[i]).answer.contains(id);
            lemma_claim_lasts(states, calls, dnd, auto_answer, now, applied, id, i, k, k);
        }
        if record_of(pre.records, id).auto_answered {
            lemma_claim_origin(states, calls, dnd, auto_answer, now, applied, id, k);
        }
    }
    if auto_answer[k] {
        lemma_answer_ids_untaken(m5, shown, cs, taken);
    }
}

/// Over any run of reports of one engine that starts with no call taken (as
/// after `new` or `new_engine`), in which a call that has left a report does
/// not come back, each report's answer is, while the automatic answer is
/// on, its incoming calls in report order but for those an earlier report
/// took, and nothing while it is off: no call is answered twice.
pub proof fn law_each_report_answers_the_calls_not_yet_taken(
    states: Seq<PhoneView>,
    calls: Seq<Seq<CallView>>,
    dnd: Seq<bool>,
    auto_answer: Seq<bool>,
    now: Seq<u64>,
    applied: Seq<AppliedView>,
)
    requires
        report_run(states, calls, dnd, auto_answer, now, applied),
        forall|x: Seq<char>| !(#[trigger] record_of(states[0].records, x)).auto_answered,
        forall|x: Seq<char>| #[trigger] leaves_for_good(calls, x),
    ensures
        forall|k: int|
            0 <= k < calls.len() ==> (#[trigger] applied[k]).answer == if auto_answer[k] {
                incoming_untaken(calls[k], answered_before(applied, k))
            } else {
                seq![]
            },
{
    assert forall|k: int| 0 <= k < calls.len() implies (#[trigger] applied[k]).answer == if auto_answer[k] {
        incoming_untaken(calls[k], answered_before(applied, k))
    } else {
        seq![]
    } by {
        lemma_answer_in_run(states, calls, dnd, auto_answer, now, applied, k);
    }
}

/// The lines the records hold are among the eight the phone shows.
pub open spec fn lines_in_range(s: PhoneView) -> bool {
    forall|k: Seq<char>|
        #[trigger] s.records.contains_key(k) && s.records[k].line is Some ==> 1 <= s.records[k].line->0
            <= 8
}

/// The calls of the last report that this one no longer has, in the order
/// of the last report.
pub open spec fn departed(olds: Seq<CallView>, current: Seq<Seq<char>>) -> Seq<CallView>
    decreases olds.len(),
{
    if olds.len() == 0 {
        seq![]
    } else if current.contains(olds.last().id) {
        departed(olds.drop_last(), current)
    } else {
        departed(olds.drop_last(), current).push(olds.last())
    }
}

proof fn lemma_free_line(taken: Set<u8>, from: u8)
    requires
        1 <= from,
    ensures
        1 <= free_line(taken, from) <= 8,
    decreases 9 - from,
{
    if from <= 8 && taken.contains(from) {
        lemma_free_line(taken, (from + 1) as u8);
    }
}

/// What the gone calls leave of the records, and their rows.
proof fn lemma_gone_rows(
    m: Map<Seq<char>, RecordView>,
    olds: Seq<CallView>,
    current: Seq<Seq<char>>,
    now: u64,
    dnd: bool,
)
    ensures
        forall|k: Seq<char>|
            #[trigger] gone(m, olds, current, now, dnd).0.contains_key(k) ==> m.contains_key(k)
                && gone(m, olds, current, now, dnd).0[k] == m[k],
        gone(m, olds, current, now, dnd).1.len() == departed(olds, current).len(),
        forall|i: int|
            0 <= i < departed(olds, current).len() ==> {
                let row = #[trigger] gone(m, olds, current, now, dnd).1[i];
                let c = departed(olds, current)[i];
                &&& row.ended_at == now
                &&& row.peer == c.peer
                &&& row.name == c.name
                &&& row.duration == c.duration
            },
    decreases olds.len(),
{
    if olds.len() > 0 {
        lemma_gone_rows(m, olds.drop_last(), current, now, dnd);
    }
}

/// Assigning lines keeps them among the eight and changes nothing else of a call.
proof fn lemma_assign_range(m: Map<Seq<char>, RecordView>, calls: Seq<CallView>)
    requires
        forall|k: Seq<char>| #[trigger] record_of(m, k).line is Some ==> 1 <= record_of(m, k).line->0 <= 8,
    ensures
        assign_lines(m, calls).1.len() == calls.len(),
        forall|j: int|
            0 <= j < calls.len() ==> 1 <= (#[trigger] assign_lines(m, calls).1[j]).line <= 8
                && assign_lines(m, calls).1[j] == (CallView {
                line: assign_lines(m, calls).1[j].line,
                ..calls[j]
            }),
        forall|k: Seq<char>|
            #[trigger] record_of(assign_lines(m, calls).0, k).line is Some ==> 1 <= record_of(
                assign_lines(m, calls).0,
                k,
            ).line->0 <= 8,
    decreases calls.len(),
{
    if calls.len() > 0 {
        let init = calls.drop_last();
        lemma_assign_range(m, init);
        let (m0, shown0) = assign_lines(m, init);
        let c = calls.last();
        let r = record_of(m0, c.id);
        lemma_free_line(taken_lines(m0), 1);
        let (m1, shown1) = assign_lines(m, calls);
        assert forall|j: int| 0 <= j < calls.len() implies 1 <= (#[trigger] shown1[j]).line <= 8
            && shown1[j] == (CallView { line: shown1[j].line, ..calls[j] }) by {
            if j < init.len() {
                assert(shown1[j] == shown0[j]);
                assert(calls[j] == init[j]);
            }
        }
        assert forall|k: Seq<char>| #[trigger] record_of(m1, k).line is Some implies 1 <= record_of(
            m1,
            k,
        ).line->0 <= 8 by {
            if k != c.id {
                assert(record_of(m1, k) == record_of(m0, k));
            }
        }
    }
}

/// Where a report puts its calls: each call as reported, with a line among
/// the eight; a call whose record holds a line (one the last report showed
/// it on, or one it was dialled from) on that line; and what the phone keeps
/// of them after the report. The history rows begin with one row for each
/// call the last report had and this one has not, in the last report's
/// order, and every row is stamped with the time of the report.
pub proof fn law_a_report_puts_each_call_on_a_line(
    pre: PhoneView,
    calls: Seq<CallView>,
    dnd: bool,
    auto_answer: bool,
    now: u64,
    post: PhoneView,
    applied: AppliedView,
)
    requires
        reported(pre, calls, dnd, auto_answer, now, post, applied),
        lines_recorded(pre),
        lines_in_range(pre),
    ensures
        post.calls == applied.calls,
        applied.calls.len() == calls.len(),
        forall|j: int|
            0 <= j < calls.len() ==> (#[trigger] applied.calls[j]) == (CallView {
                line: applied.calls[j].line,
                ..calls[j]
            }) && 1 <= applied.calls[j].line <= 8,
        forall|j: int|
            0 <= j < calls.len() && (#[trigger] record_of(pre.records, calls[j].id)).line is Some
                ==> applied.calls[j].line == record_of(pre.records, calls[j].id).line->0,
        forall|i: int, j: int|
            0 <= i < pre.calls.len() && 0 <= j < calls.len() && (#[trigger] pre.calls[i]).id == (
            #[trigger] calls[j]).id ==> applied.calls[j].line == pre.calls[i].line,
        lines_recorded(post),
        lines_in_range(post),
        applied.ended.len() >= departed(pre.calls, call_ids(calls)).len(),
        forall|i: int|
            0 <= i < departed(pre.calls, call_ids(calls)).len() ==> {
                let row = #[trigger] applied.ended[i];
                let c = departed(pre.calls, call_ids(calls))[i];
                row.peer == c.peer && row.name == c.name && row.duration == c.duration
            },
        forall|i: int| 0 <= i < applied.ended.len() ==> (#[trigger] applied.ended[i]).ended_at == now,
{
    law_a_call_keeps_its_line(pre, calls, dnd, auto_answer, now, post, applied);
    let order = choose|order: Seq<Seq<char>>|
        instant_order(after_gone(pre, calls, now, dnd).0, call_ids(pre.calls), call_ids(calls), order)
            && (post, applied) == #[trigger] after_report(pre, calls, dnd, auto_answer, now, order);
    let prev = call_ids(pre.calls);
    let cur = call_ids(calls);
    let m1 = mark_directions(pre.records, calls);
    let (m2, gone_rows) = after_gone(pre, calls, now, dnd);
    let m3 = m2.remove_keys(order.to_set());
    let m4 = retained(m3, prev, cur);
    let (m5, shown) = assign_lines(m4, calls);
    let answer = if auto_answer {
        answer_ids(m5, shown)
    } else {
        seq![]
    };
    lemma_gone_rows(m1, pre.calls, cur, now, dnd);
    assert forall|k: Seq<char>| #[trigger] record_of(m4, k).line is Some implies record_of(m4, k).line
        == record_of(pre.records, k).line && 1 <= record_of(m4, k).line->0 <= 8 by {
        lemma_mark_keeps(pre.records, calls, k);
        assert(m4.contains_key(k));
        assert(m3.contains_key(k) && m3[k] == m4[k]);
        assert(m2.contains_key(k) && m2[k] == m3[k]);
        assert(m1.contains_key(k) && m1[k] == m2[k]);
        assert(record_of(pre.records, k).line is Some);
        assert(pre.records.contains_key(k));
    }
    lemma_assign(m4, calls);
    lemma_assign_range(m4, calls);
    assert forall|j: int|
        0 <= j < calls.len() && (#[trigger] record_of(pre.records, calls[j].id)).line is Some implies applied.calls[j].line
        == record_of(pre.records, calls[j].id).line->0 by {
        assert(cur[j] == calls[j].id);
        lemma_report_keeps(pre, calls, dnd, now, order, calls[j].id);
    }
    assert forall|k: Seq<char>| #[trigger] post.records.contains_key(k) && post.records[k].line is Some implies 1
        <= post.records[k].line->0 <= 8 by {
        lemma_claim(m5, answer, k);
        assert(record_of(post.records, k).line == record_of(m5, k).line);
    }
    let instant = order.map_values(|k: Seq<char>| instant_row(m2[k], now, dnd));
    assert(applied.ended == gone_rows + instant);
    assert forall|i: int| 0 <= i < applied.ended.len() implies (#[trigger] applied.ended[i]).ended_at == now by {
        if i >= gone_rows.len() {
            assert(applied.ended[i] == instant[i - gone_rows.len()]);
        } else {
            assert(applied.ended[i] == gone_rows[i]);
        }
    }
    assert forall|i: int| 0 <= i < departed(pre.calls, cur).len() implies {
        let row = #[trigger] applied.ended[i];
        let c = departed(pre.calls, cur)[i];
        row.peer == c.peer && row.name == c.name && row.duration == c.duration
    } by {
        assert(applied.ended[i] == gone_rows[i]);
    }
}

/// The lines taken when a report comes to its `j`-th call: those of the
/// records it keeps for calls it does not show, those the calls from the
/// `j`-th on already had, and those of the calls before it.
pub open spec fn held_lines(
    pre: PhoneView,
    calls: Seq<CallView>,
    post: PhoneView,
    applied: AppliedView,
    j: int,
) -> Set<u8> {
    Set::new(
        |l: u8|
            (exists|k: Seq<char>|
                #![trigger post.records[k]]
                post.records.contains_key(k) && !call_ids(calls).contains(k) && post.records[k].line
                    == Some(l)) || (exists|i: int|
                j <= i < calls.len() && (#[trigger] record_of(pre.records, calls[i].id)).line == Some(l))
                || (exists|i: int| 0 <= i < j && (#[trigger] applied.calls[i]).line == l),
    )
}

/// The calls a report shows first are put on their lines first.
proof fn lemma_assign_prefix(m: Map<Seq<char>, RecordView>, calls: Seq<CallView>, n: int)
    requires
        0 <= n <= calls.len(),
    ensures
        assign_lines(m, calls.take(n)).1 == assign_lines(m, calls).1.take(n),
    decreases calls.len(),
{
    lemma_assign(m, calls);
    lemma_assign(m, calls.take(n));
    if n == calls.len() {
        assert(calls.take(n) =~= calls);
        assert(assign_lines(m, calls).1.take(n) =~= assign_lines(m, calls).1);
    } else {
        let init = calls.drop_last();
        assert(calls.take(n) =~= init.take(n));
        lemma_assign_prefix(m, init, n);
        let shown0 = assign_lines(m, init).1;
        assert(assign_lines(m, calls).1.take(n) =~= shown0.take(n));
    }
}

/// A call new to the phone, with no line it was dialled from, takes the
/// lowest of the eight lines that nothing holds when the report comes to it
/// (see `held_lines`), or the last line when all are held. The ids of a
/// report are its calls', each once.
pub proof fn law_a_new_call_takes_the_lowest_free_line(
    pre: PhoneView,
    calls: Seq<CallView>,
    dnd: bool,
    auto_answer: bool,
    now: u64,
    post: PhoneView,
    applied: AppliedView,
    j: int,
)
    requires
        reported(pre, calls, dnd, auto_answer, now, post, applied),
        call_ids(calls).no_duplicates(),
        0 <= j < calls.len(),
        record_of(pre.records, calls[j].id).line is None,
    ensures
        applied.calls[j].line == free_line(held_lines(pre, calls, post, applied, j), 1),
{
    let order = choose|order: Seq<Seq<char>>|
        instant_order(after_gone(pre, calls, now, dnd).0, call_ids(pre.calls), call_ids(calls), order)
            && (post, applied) == #[trigger] after_report(pre, calls, dnd, auto_answer, now, order);
    let prev = call_ids(pre.calls);
    let cur = call_ids(calls);
    let m4 = retained(after_gone(pre, calls, now, dnd).0.remove_keys(order.to_set()), prev, cur);
    let (m5, shown) = assign_lines(m4, calls);
    let answer = if auto_answer {
        answer_ids(m5, shown)
    } else {
        seq![]
    };
    let first = calls.take(j);
    let upto = calls.take(j + 1);
    let m0 = assign_lines(m4, first).0;
    lemma_assign(m4, calls);
    lemma_assign(m4, first);
    lemma_assign_prefix(m4, calls, j);
    lemma_assign_prefix(m4, calls, j + 1);
    assert(upto.drop_last() =~= first);
    assert(upto.last() == calls[j]);
    let id = calls[j].id;
    assert(cur[j] == id);
    // The call's id is not among the first ones, so its record is the one kept.
    assert(!call_ids(first).contains(id)) by {
        if call_ids(first).contains(id) {
            let q = choose|q: int| 0 <= q < call_ids(first).len() && call_ids(first)[q] == id;
            assert(cur[q] == id);
        }
    }
    lemma_report_keeps(pre, calls, dnd, now, order, id);
    assert(record_of(m0, id) == record_of(m4, id));
    assert(shown[j] == assign_lines(m4, upto).1[j]);
    let held = held_lines(pre, calls, post, applied, j);
    assert(taken_lines(m0) =~= held) by {
        assert forall|l: u8| #[trigger] taken_lines(m0).contains(l) implies held.contains(l) by {
            let k = choose|k: Seq<char>| m0.contains_key(k) && (#[trigger] m0[k]).line == Some(l);
            if call_ids(first).contains(k) {
                let q = choose|q: int| 0 <= q < call_ids(first).len() && call_ids(first)[q] == k;
                assert(first[q].id == k);
                assert(applied.calls[q] == shown[q]);
                assert(assign_lines(m4, first).1[q] == shown[q]);
            } else if cur.contains(k) {
                let q = choose|q: int| 0 <= q < cur.len() && cur[q] == k;
                if q < j {
                    assert(call_ids(first)[q] == k);
                }
                lemma_report_keeps(pre, calls, dnd, now, order, k);
                assert(record_of(pre.records, calls[q].id).line == Some(l));
            } else {
                lemma_claim(m5, answer, k);
                assert(!answer.contains(k)) by {
                    if answer.contains(k) {
                        lemma_answer_ids(m5, shown, k);
                        let q = choose|q: int| 0 <= q < call_ids(shown).len() && call_ids(shown)[q] == k;
                        assert(shown[q].id == calls[q].id);
                        assert(cur[q] == k);
                    }
                }
                assert(post.records.contains_key(k) && post.records[k] == m4[k]);
            }
        }
        assert forall|l: u8| #[trigger] held.contains(l) implies taken_lines(m0).contains(l) by {
            if exists|k: Seq<char>|
                #![trigger post.records[k]]
                post.records.contains_key(k) && !cur.contains(k) && post.records[k].line == Some(l) {
                let k = choose|k: Seq<char>|
                    #![trigger post.records[k]]
                    post.records.contains_key(k) && !cur.contains(k) && post.records[k].line == Some(l);
                lemma_claim(m5, answer, k);
                assert(!answer.contains(k)) by {
                    if answer.contains(k) {
                        lemma_answer_ids(m5, shown, k);
                        let q = choose|q: int| 0 <= q < call_ids(shown).len() && call_ids(shown)[q] == k;
                        assert(shown[q].id == calls[q].id);
                        assert(cur[q] == k);
                    }
                }
                assert(!call_ids(first).contains(k)) by {
                    if call_ids(first).contains(k) {
                        let q = choose|q: int| 0 <= q < call_ids(first).len() && call_ids(first)[q] == k;
                        assert(cur[q] == k);
                    }
                }
                assert(m0.contains_key(k) && m0[k] == m4[k]);
            } else if exists|i: int|
                j <= i < calls.len() && (#[trigger] record_of(pre.records, calls[i].id)).line == Some(l) {
                let i = choose|i: int|
                    j <= i < calls.len() && (#[trigger] record_of(pre.records, calls[i].id)).line == Some(l);
                let k = calls[i].id;
                assert(cur[i] == k);
                lemma_report_keeps(pre, calls, dnd, now, order, k);
                assert(!call_ids(first).contains(k)) by {
                    if call_ids(first).contains(k) {
                        let q = choose|q: int| 0 <= q < call_ids(first).len() && call_ids(first)[q] == k;
                        assert(cur[q] == k);
                    }
                }
                assert(record_of(m0, k) == record_of(m4, k));
                assert(m0.contains_key(k) && m0[k].line == Some(l));
            } else {
                let i = choose|i: int| 0 <= i < j && (#[trigger] applied.calls[i]).line == l;
                assert(first[i] == calls[i]);
                assert(assign_lines(m4, first).1[i] == shown[i]);
                assert(record_of(m0, first[i].id).line == Some(l));
                assert(m0.contains_key(first[i].id) && m0[first[i].id].line == Some(l));
            }
        }
    }
}

/// Noting the line a new call was dialled from, one of the eight, keeps
/// every line where the laws on lines want it.
pub proof fn law_a_dialled_line_keeps_the_lines_in_order(pre: PhoneView, id: Seq<char>, line: u8)
    requires
        lines_recorded(pre),
        lines_in_range(pre),
        !call_ids(pre.calls).contains(id),
        1 <= line <= 8,
    ensures
        ({
            let noted = PhoneView {
                records: pre.records.insert(id, RecordView { line: Some(line), ..record_of(pre.records, id) }),
                ..pre
            };
            lines_recorded(noted) && lines_in_range(noted)
        }),
{
    let noted = PhoneView {
        records: pre.records.insert(id, RecordView { line: Some(line), ..record_of(pre.records, id) }),
        ..pre
    };
    assert forall|i: int| 0 <= i < noted.calls.len() implies record_of(
        noted.records,
        #[trigger] noted.calls[i].id,
    ).line == Some(noted.calls[i].line) by {
        assert(call_ids(pre.calls)[i] == pre.calls[i].id);
        assert(pre.calls[i].id != id);
        assert(record_of(pre.records, pre.calls[i].id).line == Some(pre.calls[i].line));
    }
}

/// Over any run of reports of one engine that starts with each call's line
/// recorded and every line among the eight (as a new phone does), every
/// report puts each call, unchanged but for its line, on one of the eight
/// lines; a call the last report showed stays on its line; and a call whose
/// record holds a line is shown on it.
pub proof fn law_every_report_of_a_run_keeps_the_lines(
    states: Seq<PhoneView>,
    calls: Seq<Seq<CallView>>,
    dnd: Seq<bool>,
    auto_answer: Seq<bool>,
    now: Seq<u64>,
    applied: Seq<AppliedView>,
    k: int,
)
    requires
        report_run(states, calls, dnd, auto_answer, now, applied),
        lines_recorded(states[0]),
        lines_in_range(states[0]),
        0 <= k < calls.len(),
    ensures
        lines_recorded(states[k]),
        lines_in_range(states[k]),
        states[k + 1].calls == applied[k].calls,
        applied[k].calls.len() == calls[k].len(),
        forall|j: int|
            0 <= j < calls[k].len() ==> (#[trigger] applied[k].calls[j]) == (CallView {
                line: applied[k].calls[j].line,
                ..calls[k][j]
            }) && 1 <= applied[k].calls[j].line <= 8,
        forall|j: int|
            0 <= j < calls[k].len() && (#[trigger] record_of(states[k].records, calls[k][j].id)).line is Some
                ==> applied[k].calls[j].line == record_of(states[k].records, calls[k][j].id).line->0,
        forall|i: int, j: int|
            0 <= i < states[k].calls.len() && 0 <= j < calls[k].len() && (#[trigger] states[k].calls[i]).id
                == (#[trigger] calls[k][j]).id ==> applied[k].calls[j].line == states[k].calls[i].line,
    decreases k,
{
    if k > 0 {
        law_every_report_of_a_run_keeps_the_lines(states, calls, dnd, auto_answer, now, applied, k - 1);
        let p = k - 1;
        assert(reported(states[p], calls[p], dnd[p], auto_answer[p], now[p], states[p + 1], applied[p]));
        law_a_report_puts_each_call_on_a_line(states[p], calls[p], dnd[p], auto_answer[p], now[p], states[p + 1], applied[p]);
    }
    assert(reported(states[k], calls[k], dnd[k], auto_answer[k], now[k], states[k + 1], applied[k]));
    law_a_report_puts_each_call_on_a_line(states[k], calls[k], dnd[k], auto_answer[k], now[k], states[k + 1], applied[k]);
}

/// Nothing lingers: after a report, a record belongs to a call it shows or
/// to an announced call that has not been seen and has not closed.
pub proof fn law_nothing_lingers(
    pre: PhoneView,
    calls: Seq<CallView>,
    dnd: bool,
    auto_answer: bool,
    now: u64,
    post: PhoneView,
    applied: AppliedView,
    k: Seq<char>,
)
    requires
        reported(pre, calls, dnd, auto_answer, now, post, applied),
        post.records.contains_key(k),
    ensures
        call_ids(calls).contains(k) || (post.records[k].announced is Some
            && post.records[k].closing is None && !call_ids(pre.calls).contains(k)),
{
    let order = choose|order: Seq<Seq<char>>|
        instant_order(after_gone(pre, calls, now, dnd).0, call_ids(pre.calls), call_ids(calls), order)
            && (post, applied) == #[trigger] after_report(pre, calls, dnd, auto_answer, now, order);
    let prev = call_ids(pre.calls);
    let cur = call_ids(calls);
    let m4 = retained(after_gone(pre, calls, now, dnd).0.remove_keys(order.to_set()), prev, cur);
    let (m5, shown) = assign_lines(m4, calls);
    let answer = if auto_answer {
        answer_ids(m5, shown)
    } else {
        seq![]
    };
    if !cur.contains(k) {
        lemma_assign(m4, calls);
        assert(!answer.contains(k)) by {
            if answer.contains(k) {
                lemma_answer_ids(m5, shown, k);
                let q = choose|q: int| 0 <= q < call_ids(shown).len() && call_ids(shown)[q] == k;
                assert(shown[q].id == calls[q].id);
                assert(cur[q] == k);
            }
        }
        lemma_claim(m5, answer, k);
        assert(record_of(post.records, k) == record_of(m4, k));
        assert(m4.contains_key(k));
    }
}

/// How an outgoing call that was never talked on is named follows the SIP
/// answer that ended it, whatever the do-not-disturb switch says: a busy
/// answer (486, 600) is busy; 404, 484 and 604 say the number does not
/// exist; 480, 502 and 503 that it cannot be reached now; 403 and 603 that
/// it was declined; 408 that nobody answered; a cancel (487, or no answer
/// code at all) that the caller gave up; anything else that it failed. A
/// call that was talked on has no such name, and an incoming call under do
/// not disturb was refused.
pub proof fn law_an_unanswered_call_is_named_by_how_it_ended(
    state: Seq<char>,
    reason: Seq<char>,
    dnd: bool,
)
    ensures
        outcome("ESTABLISHED"@, false, reason, dnd).len() == 0,
        outcome("ESTABLISHED"@, true, reason, dnd).len() == 0,
        state != "ESTABLISHED"@ ==> outcome(state, true, reason, true) == "HISTORY_REFUSED"@,
        state != "ESTABLISHED"@ && "Busy Here"@.is_prefix_of(reason) ==> outcome(state, true, reason, dnd)
            == "HISTORY_REFUSED"@,
        state != "ESTABLISHED"@ && !dnd && !"Busy Here"@.is_prefix_of(reason) ==> outcome(
            state,
            true,
            reason,
            dnd,
        ) == (if says_elsewhere(reason) {
            "HISTORY_ELSEWHERE"@
        } else {
            "HISTORY_MISSED"@
        }),
        state != "ESTABLISHED"@ ==> outcome(state, false, reason, true) == outcome(state, false, reason, false),
        state != "ESTABLISHED"@ ==> {
            let code = answer_code(reason);
            let name = outcome(state, false, reason, dnd);
            &&& (code == 487 || code == 0) ==> name == "HISTORY_CANCELLED"@
            &&& (code == 486 || code == 600) ==> name == "HISTORY_BUSY"@
            &&& (code == 404 || code == 484 || code == 604) ==> name == "HISTORY_NOT_FOUND"@
            &&& (code == 480 || code == 502 || code == 503) ==> name == "HISTORY_UNAVAILABLE"@
            &&& (code == 403 || code == 603) ==> name == "HISTORY_DECLINED"@
            &&& code == 408 ==> name == "HISTORY_NO_ANSWER"@
            &&& !(code == 0 || code == 403 || code == 404 || code == 408 || code == 480 || code == 484
                || code == 486 || code == 487 || code == 502 || code == 503 || code == 600 || code == 603
                || code == 604) ==> name == "HISTORY_FAILED"@
        },
{
}

} // verus!
