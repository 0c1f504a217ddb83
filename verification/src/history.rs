//! The call history tab and the recordings it points at: rows newest first,
//! the file they are appended to oldest first, and the names recordings get.
use vstd::prelude::*;
use crate::phone_state::{CallHistory, CallInfo, CallView, HistoryView, call_views, history_views};
use crate::text::{
    chars_of, is_alphanumeric, lower, owned, replace, replaced, string_of, text_views, trim,
    trim_str,
};

verus! {

// ---------------------------------------------------------------------
// The rows
// ---------------------------------------------------------------------

/// How many rows the tab keeps.
pub const HISTORY_LIMIT: usize = 1000;

/// The first rows, as many as the tab keeps.
pub open spec fn at_most<A>(s: Seq<A>, n: nat) -> Seq<A> {
    if s.len() > n {
        s.take(n as int)
    } else {
        s
    }
}

/// The call history and its file: one call per line, oldest first, appended
/// as calls end. The tab shows it newest first. Past twice the limit the file
/// is written afresh with its last lines. Nothing else writes it.
pub struct History {
    rows: Vec<CallHistory>,
    sequence: u64,
    file_lines: usize,
}

impl History {
    #[verifier::type_invariant]
    spec fn well_formed(self) -> bool {
        self.rows@.len() <= HISTORY_LIMIT
    }

    pub closed spec fn rows_view(self) -> Seq<HistoryView> {
        history_views(self.rows@)
    }

    pub closed spec fn sequence_view(self) -> nat {
        self.sequence as nat
    }

    pub closed spec fn file_lines_view(self) -> nat {
        self.file_lines as nat
    }

    /// The rows of the file, oldest first, as the tab shows them: newest
    /// first, as many as it keeps. `file_lines` is how many lines the file has.
    pub fn from_file(oldest_first: Vec<CallHistory>, file_lines: usize) -> (r: Self)
        ensures
            r.rows_view() == at_most(history_views(oldest_first@).reverse(), HISTORY_LIMIT as nat),
            r.sequence_view() == 0,
            r.file_lines_view() == file_lines,
    {
        let mut rows: Vec<CallHistory> = Vec::new();
        let ghost all = history_views(oldest_first@).reverse();
        let mut i: usize = oldest_first.len();
        while i > 0 && rows.len() < HISTORY_LIMIT
            invariant
                i <= oldest_first.len(),
                rows@.len() == oldest_first.len() - i,
                rows@.len() <= HISTORY_LIMIT,
                all == history_views(oldest_first@).reverse(),
                history_views(rows@) == all.take(rows@.len() as int),
            decreases i,
        {
            let row = oldest_first[i - 1].clone_row();
            let ghost before = history_views(rows@);
            rows.push(row);
            assert(history_views(rows@) =~= all.take(rows@.len() as int));
            i -= 1;
        }
        assert(history_views(rows@) =~= at_most(all, HISTORY_LIMIT as nat));
        History { rows, sequence: 0, file_lines }
    }

    pub fn rows(&self) -> (r: &[CallHistory])
        ensures
            history_views(r@) == self.rows_view(),
    {
        self.rows.as_slice()
    }

    pub fn sequence(&self) -> (r: u64)
        ensures
            r == self.sequence_view(),
    {
        self.sequence
    }

    pub fn file_lines(&self) -> (r: usize)
        ensures
            r == self.file_lines_view(),
    {
        self.file_lines
    }

    /// The calls that ended since the last look, in the order the tab shows
    /// them, once the file has them. They go in front, the oldest rows go
    /// past the limit, and the window is told by a new number. Says whether
    /// the file has grown past twice the limit and is to keep its last lines.
    pub fn add(&mut self, ended: Vec<CallHistory>) -> (shorten: bool)
        requires
            old(self).sequence_view() < u64::MAX,
            old(self).file_lines_view() + ended@.len() <= usize::MAX,
        ensures
            final(self).rows_view() == at_most(
                history_views(ended@) + old(self).rows_view(),
                HISTORY_LIMIT as nat,
            ),
            final(self).sequence_view() == old(self).sequence_view() + 1,
            final(self).file_lines_view() == old(self).file_lines_view() + ended@.len(),
            shorten == (final(self).file_lines_view() > 2 * HISTORY_LIMIT),
    {
        proof {
            use_type_invariant(&*self);
        }
        let ghost all = history_views(ended@) + history_views(self.rows@);
        let mut rows: Vec<CallHistory> = Vec::new();
        let mut i: usize = 0;
        while i < ended.len() && rows.len() < HISTORY_LIMIT
            invariant
                i <= ended.len(),
                rows@.len() == i,
                rows@.len() <= HISTORY_LIMIT,
                all == history_views(ended@) + history_views(self.rows@),
                history_views(rows@) == all.take(i as int),
            decreases ended.len() - i,
        {
            rows.push(ended[i].clone_row());
            assert(history_views(rows@) =~= all.take(i + 1));
            i += 1;
        }
        let mut j: usize = 0;
        while j < self.rows.len() && rows.len() < HISTORY_LIMIT
            invariant
                j <= self.rows.len(),
                rows@.len() <= HISTORY_LIMIT,
                i == ended.len() || rows@.len() == HISTORY_LIMIT,
                i <= ended.len(),
                rows@.len() == i + j,
                all == history_views(ended@) + history_views(self.rows@),
                history_views(rows@) == all.take(rows@.len() as int),
            decreases self.rows.len() - j,
        {
            proof {
                if rows@.len() < HISTORY_LIMIT {
                    assert(i == ended.len());
                }
            }
            rows.push(self.rows[j].clone_row());
            assert(history_views(rows@) =~= all.take(rows@.len() as int));
            j += 1;
        }
        assert(history_views(rows@) =~= at_most(all, HISTORY_LIMIT as nat));
        self.rows = rows;
        self.sequence = self.sequence + 1;
        self.file_lines = self.file_lines + ended.len();
        self.file_lines > 2 * HISTORY_LIMIT
    }

    /// The file was written afresh and holds this many lines now.
    pub fn kept(&mut self, lines: usize)
        ensures
            final(self).rows_view() == old(self).rows_view(),
            final(self).sequence_view() == old(self).sequence_view(),
            final(self).file_lines_view() == lines,
    {
        proof {
            use_type_invariant(&*self);
        }
        self.file_lines = lines;
    }

    /// Throws the rows away, here and in the file's bookkeeping.
    pub fn clear(&mut self)
        requires
            old(self).sequence_view() < u64::MAX,
        ensures
            final(self).rows_view().len() == 0,
            final(self).sequence_view() == old(self).sequence_view() + 1,
            final(self).file_lines_view() == 0,
    {
        proof {
            use_type_invariant(&*self);
        }
        self.rows = Vec::new();
        assert(history_views(self.rows@) =~= Seq::<HistoryView>::empty());
        self.sequence = self.sequence + 1;
        self.file_lines = 0;
    }
}

/// The rows as the tab shows them: a recording is named only while its file
/// is still there to be played. `present` says, row by row, whether the
/// file a row names is there.
pub fn shown_rows(rows: &[CallHistory], present: &[bool]) -> (r: Vec<CallHistory>)
    requires
        present@.len() == rows@.len(),
    ensures
        r@.len() == rows@.len(),
        forall|i: int|
            0 <= i < rows@.len() ==> (#[trigger] r@[i])@ == (if rows@[i].recording@.len() > 0
                && !present@[i] {
                HistoryView { recording: Seq::empty(), ..rows@[i]@ }
            } else {
                rows@[i]@
            }),
{
    let mut r: Vec<CallHistory> = Vec::new();
    let mut i: usize = 0;
    while i < rows.len()
        invariant
            i <= rows.len(),
            present@.len() == rows@.len(),
            r@.len() == i,
            forall|k: int|
                0 <= k < i ==> (#[trigger] r@[k])@ == (if rows@[k].recording@.len() > 0
                    && !present@[k] {
                    HistoryView { recording: Seq::empty(), ..rows@[k]@ }
                } else {
                    rows@[k]@
                }),
        decreases rows.len() - i,
    {
        let mut row = rows[i].clone_row();
        if chars_of(row.recording.as_str()).len() > 0 && !present[i] {
            row.recording = String::new();
        }
        r.push(row);
        i += 1;
    }
    r
}

/// Calls that end are shown first, in the order they were handed over, above
/// the rows there were; the tab never holds more than its limit.
pub proof fn law_new_rows_come_first(ended: Seq<HistoryView>, rows: Seq<HistoryView>)
    requires
        rows.len() <= HISTORY_LIMIT,
        ended.len() <= HISTORY_LIMIT,
    ensures
        at_most(ended + rows, HISTORY_LIMIT as nat).take(ended.len() as int) == ended,
        at_most(ended + rows, HISTORY_LIMIT as nat).len() <= HISTORY_LIMIT,
        ended.len() + rows.len() <= HISTORY_LIMIT ==> at_most(ended + rows, HISTORY_LIMIT as nat)
            == ended + rows,
{
    assert(at_most(ended + rows, HISTORY_LIMIT as nat).take(ended.len() as int) =~= ended);
}

/// The file and the tab agree: the calls that end go to the end of the file,
/// oldest first, and to the top of the tab, so that the tab read from the
/// longer file after a restart is the tab as it was.
pub proof fn law_the_file_and_the_tab_agree(file: Seq<HistoryView>, ended: Seq<HistoryView>)
    ensures
        at_most((file + ended.reverse()).reverse(), HISTORY_LIMIT as nat) == at_most(
            ended + at_most(file.reverse(), HISTORY_LIMIT as nat),
            HISTORY_LIMIT as nat,
        ),
{
    let l = HISTORY_LIMIT as int;
    let all = (file + ended.reverse()).reverse();
    assert(all =~= ended + file.reverse()) by {
        assert forall|i: int| 0 <= i < all.len() implies all[i] == (ended + file.reverse())[i] by {
            if i < ended.len() {
                assert(all[i] == (file + ended.reverse())[file.len() + ended.len() - 1 - i]);
            }
        }
    }
    let short = ended + at_most(file.reverse(), HISTORY_LIMIT as nat);
    if all.len() > l {
        assert(at_most(all, HISTORY_LIMIT as nat) =~= at_most(short, HISTORY_LIMIT as nat));
    } else {
        assert(short =~= all);
    }
}

// ---------------------------------------------------------------------
// The names of recordings
// ---------------------------------------------------------------------

pub open spec fn stamp_char(c: char) -> char {
    if c == 'T' {
        '_'
    } else if c == ':' {
        '-'
    } else {
        c
    }
}

/// The text without the copies of `c` in front of it.
pub open spec fn without_leading(s: Seq<char>, c: char) -> Seq<char>
    decreases s.len(),
{
    if s.len() > 0 && s[0] == c {
        without_leading(s.drop_first(), c)
    } else {
        s
    }
}

/// The text before the first `@`, `;` or `>`.
pub open spec fn user_end(s: Seq<char>) -> int
    decreases s.len(),
{
    if s.len() == 0 || s[0] == '@' || s[0] == ';' || s[0] == '>' {
        0
    } else {
        1 + user_end(s.drop_first())
    }
}

pub open spec fn user_char(c: char) -> bool {
    is_alphanumeric(c) || c == '+' || c == '#' || c == '_' || c == '.' || c == '-'
}

/// The characters a file name can take from a user part.
pub open spec fn user_chars(s: Seq<char>) -> Seq<char>
    decreases s.len(),
{
    if s.len() == 0 {
        s
    } else if user_char(s.last()) {
        user_chars(s.drop_last()).push(s.last())
    } else {
        user_chars(s.drop_last())
    }
}

/// The user part of a peer's address, without its scheme.
pub open spec fn user_part(peer: Seq<char>) -> Seq<char> {
    let u = without_leading(trim(peer), '<');
    let u = if "sip:"@.is_prefix_of(u) {
        u.skip(4)
    } else if "sips:"@.is_prefix_of(u) {
        u.skip(5)
    } else {
        u
    };
    u.take(user_end(u))
}

/// What a recording is called: when it started and whom the call was with.
pub open spec fn recording_name_spec(stamp: Seq<char>, peer: Seq<char>) -> Seq<char> {
    let time = stamp.take(if stamp.len() < 19 {
        stamp.len() as int
    } else {
        19
    }).map_values(|c: char| stamp_char(c));
    let kept = user_chars(user_part(peer));
    let user = kept.take(if kept.len() < 40 {
        kept.len() as int
    } else {
        40
    });
    let user = if user.len() == 0 {
        "call"@
    } else {
        user
    };
    time + seq!['_'] + user + ".wav"@
}

proof fn lemma_user_end(s: Seq<char>, e: int)
    requires
        0 <= e <= s.len(),
        forall|i: int| 0 <= i < e ==> !(s[i] == '@' || s[i] == ';' || s[i] == '>'),
        e == s.len() || s[e] == '@' || s[e] == ';' || s[e] == '>',
    ensures
        user_end(s) == e,
    decreases e,
{
    if e > 0 {
        let t = s.drop_first();
        assert forall|i: int| 0 <= i < e - 1 implies !(t[i] == '@' || t[i] == ';' || t[i] == '>') by {
            assert(t[i] == s[i + 1]);
        }
        lemma_user_end(t, e - 1);
    }
}

proof fn lemma_without_leading(s: Seq<char>, c: char, a: int)
    requires
        0 <= a <= s.len(),
        forall|i: int| 0 <= i < a ==> s[i] == c,
        a == s.len() || s[a] != c,
    ensures
        without_leading(s, c) == s.skip(a),
    decreases a,
{
    if a == 0 {
        assert(s.skip(0) =~= s);
    } else {
        let t = s.drop_first();
        assert forall|i: int| 0 <= i < a - 1 implies t[i] == c by {
            assert(t[i] == s[i + 1]);
        }
        lemma_without_leading(t, c, a - 1);
        assert(t.skip(a - 1) =~= s.skip(a));
    }
}

/// What a recording is called: when it started, and whom the call was with,
/// so that the folder reads like the history. `2026-09-23_14-30-12_1002.wav`.
pub fn recording_name(stamp: &str, peer: &str) -> (r: String)
    ensures
        r@ == recording_name_spec(stamp@, peer@),
{
    let s = chars_of(stamp);
    let mut out: Vec<char> = Vec::new();
    let n = if s.len() < 19 {
        s.len()
    } else {
        19
    };
    let mut i: usize = 0;
    while i < n
        invariant
            i <= n <= s.len(),
            s@ == stamp@,
            out@ == s@.take(i as int).map_values(|c: char| stamp_char(c)),
        decreases n - i,
    {
        let c = s[i];
        out.push(if c == 'T' { '_' } else if c == ':' { '-' } else { c });
        assert(out@ =~= s@.take(i + 1).map_values(|c: char| stamp_char(c)));
        i += 1;
    }
    out.push('_');
    // The user part of the peer.
    let p = chars_of(trim_str(peer));
    let mut a: usize = 0;
    while a < p.len() && p[a] == '<'
        invariant
            a <= p.len(),
            forall|k: int| 0 <= k < a ==> p@[k] == '<',
        decreases p.len() - a,
    {
        a += 1;
    }
    proof {
        lemma_without_leading(p@, '<', a as int);
    }
    let u0 = crate::text::slice(&p, a, p.len());
    assert(u0@ =~= without_leading(trim(peer@), '<'));
    let u1 = if crate::text::starts(&u0, &chars_of("sip:")) {
        proof {
            reveal_strlit("sip:");
        }
        crate::text::slice(&u0, 4, u0.len())
    } else if crate::text::starts(&u0, &chars_of("sips:")) {
        proof {
            reveal_strlit("sips:");
        }
        crate::text::slice(&u0, 5, u0.len())
    } else {
        crate::text::slice(&u0, 0, u0.len())
    };
    assert(u1@ =~= (if "sip:"@.is_prefix_of(u0@) {
        u0@.skip(4)
    } else if "sips:"@.is_prefix_of(u0@) {
        u0@.skip(5)
    } else {
        u0@
    }));
    let mut e: usize = 0;
    while e < u1.len() && !(u1[e] == '@' || u1[e] == ';' || u1[e] == '>')
        invariant
            e <= u1.len(),
            forall|k: int| 0 <= k < e ==> !(u1@[k] == '@' || u1@[k] == ';' || u1@[k] == '>'),
        decreases u1.len() - e,
    {
        e += 1;
    }
    proof {
        lemma_user_end(u1@, e as int);
    }
    let ghost user = u1@.take(e as int);
    assert(user =~= user_part(peer@));
    let mut kept: Vec<char> = Vec::new();
    let mut k: usize = 0;
    while k < e && kept.len() < 40
        invariant
            k <= e <= u1.len(),
            user == u1@.take(e as int),
            kept@ == user_chars(user.take(k as int)),
            kept@.len() <= 40,
        decreases e - k,
    {
        assert(user.take(k + 1).drop_last() =~= user.take(k as int));
        let c = u1[k];
        if crate::text::alphanumeric(c) || c == '+' || c == '#' || c == '_' || c == '.' || c == '-' {
            kept.push(c);
        }
        k += 1;
    }
    proof {
        lemma_user_chars_grow(user, k as int);
        let w = user_chars(user);
        if k == e {
            assert(user.take(k as int) =~= user);
        }
        assert(kept@ =~= w.take(kept@.len() as int));
    }
    if kept.len() == 0 {
        crate::text::extend_str(&mut out, "call");
    } else {
        crate::text::extend(&mut out, &kept);
    }
    crate::text::extend_str(&mut out, ".wav");
    assert(out@ =~= recording_name_spec(stamp@, peer@));
    string_of(&out)
}

proof fn lemma_user_chars_grow(s: Seq<char>, k: int)
    requires
        0 <= k <= s.len(),
    ensures
        user_chars(s.take(k)).len() <= user_chars(s).len(),
        user_chars(s.take(k)).is_prefix_of(user_chars(s)),
    decreases s.len() - k,
{
    if k < s.len() {
        lemma_user_chars_grow(s, k + 1);
        assert(s.take(k + 1).drop_last() =~= s.take(k));
    } else {
        assert(s.take(k) =~= s);
    }
}

/// A name the history can give for a recording: a WAV in the recordings
/// folder itself, not a path that leads elsewhere.
pub open spec fn plain_recording_spec(name: Seq<char>) -> bool {
    &&& name.len() > 0
    &&& ".wav"@.is_suffix_of(name)
    &&& !name.contains('/')
    &&& !name.contains('\\')
    &&& !name.contains(':')
    &&& name[0] != '.'
}

/// Whether a name from the history names a file in the recordings folder.
pub fn plain_recording(name: &str) -> (r: bool)
    ensures
        r == plain_recording_spec(name@),
{
    let v = chars_of(name);
    if v.len() == 0 {
        return false;
    }
    let suffix = chars_of(".wav");
    let ends = v.len() >= suffix.len() && crate::text::has_at(&v, v.len() - suffix.len(), &suffix);
    proof {
        if ".wav"@.is_suffix_of(name@) {
            assert(v@.subrange(v.len() - suffix@.len(), v.len() as int) =~= suffix@);
        }
        if ends {
            assert(".wav"@ =~= name@.subrange(name@.len() - 4, name@.len() as int)) by {
                reveal_strlit(".wav");
            }
        }
    }
    ends && !crate::text::has_char(&v, '/') && !crate::text::has_char(&v, '\\')
        && !crate::text::has_char(&v, ':') && v[0] != '.'
}

/// The name a recording gets when the one it wanted is taken: the count
/// goes before the extension, as in `..._1002-2.wav`.
pub open spec fn numbered_spec(wanted: Seq<char>, count: nat) -> Seq<char> {
    replace(wanted, ".wav"@, "-"@ + crate::text::decimal(count) + ".wav"@)
}

pub fn numbered_name(wanted: &str, count: u64) -> (r: String)
    ensures
        r@ == numbered_spec(wanted@, count as nat),
{
    let mut rep = chars_of("-");
    crate::text::push_decimal(&mut rep, count);
    crate::text::extend_str(&mut rep, ".wav");
    let pat = chars_of(".wav");
    proof {
        reveal_strlit(".wav");
    }
    string_of(&replaced(&chars_of(wanted), &pat, &rep))
}

// ---------------------------------------------------------------------
// The automatic answer
// ---------------------------------------------------------------------

pub open spec fn to_answer(c: CallView, answered: Seq<Seq<char>>) -> bool {
    c.state == "INCOMING"@ && !answered.contains(c.id)
}

/// The incoming calls not answered yet, in order.
pub open spec fn answer_targets_spec(
    enabled: bool,
    calls: Seq<CallView>,
    answered: Seq<Seq<char>>,
) -> Seq<Seq<char>>
    decreases calls.len(),
{
    if !enabled || calls.len() == 0 {
        Seq::empty()
    } else if to_answer(calls.last(), answered) {
        answer_targets_spec(enabled, calls.drop_last(), answered).push(calls.last().id)
    } else {
        answer_targets_spec(enabled, calls.drop_last(), answered)
    }
}

/// The calls the automatic answer takes: each incoming call once.
pub fn automatic_answer_targets(enabled: bool, calls: &[CallInfo], answered: &[String]) -> (r: Vec<
    String,
>)
    ensures
        text_views(r@) == answer_targets_spec(enabled, call_views(calls@), text_views(answered@)),
{
    let mut r: Vec<String> = Vec::new();
    if !enabled {
        assert(text_views(r@) =~= Seq::<Seq<char>>::empty());
        return r;
    }
    let mut i: usize = 0;
    assert(text_views(r@) =~= Seq::<Seq<char>>::empty());
    while i < calls.len()
        invariant
            i <= calls.len(),
            enabled,
            text_views(r@) == answer_targets_spec(
                enabled,
                call_views(calls@).take(i as int),
                text_views(answered@),
            ),
        decreases calls.len() - i,
    {
        let ghost cv = call_views(calls@);
        assert(cv.take(i + 1).drop_last() =~= cv.take(i as int));
        assert(cv.take(i + 1).last() == calls@[i as int]@);
        let c = &calls[i];
        if crate::text::is(c.state.as_str(), "INCOMING") {
            let mut seen = false;
            let mut k: usize = 0;
            while k < answered.len()
                invariant
                    k <= answered.len(),
                    seen == text_views(answered@).take(k as int).contains(c.id@),
                decreases answered.len() - k,
            {
                proof {
                    crate::text::lemma_push_contains(text_views(answered@).take(k as int), answered@[k as int]@, c.id@);
                    assert(text_views(answered@).take(k + 1) =~= text_views(answered@).take(k as int).push(answered@[k as int]@));
                }
                if crate::text::is(answered[k].as_str(), c.id.as_str()) {
                    seen = true;
                }
                k += 1;
            }
            assert(text_views(answered@).take(answered.len() as int) =~= text_views(answered@));
            if !seen {
                let ghost before = text_views(r@);
                r.push(c.id.clone());
                assert(text_views(r@) =~= before.push(c.id@));
            }
        }
        i += 1;
    }
    assert(call_views(calls@).take(calls.len() as int) =~= call_views(calls@));
    r
}

/// A call the automatic answer has taken is not taken again: once the
/// targets are added to what was answered, nothing is left to answer.
pub proof fn law_each_incoming_call_is_answered_once(
    enabled: bool,
    calls: Seq<CallView>,
    answered: Seq<Seq<char>>,
)
    ensures
        answer_targets_spec(
            enabled,
            calls,
            answered + answer_targets_spec(enabled, calls, answered),
        ).len() == 0,
{
    lemma_targets_answered(enabled, calls, answered, answer_targets_spec(enabled, calls, answered));
}

pub(crate) proof fn lemma_targets_contained(enabled: bool, calls: Seq<CallView>, answered: Seq<Seq<char>>, i: int)
    requires
        enabled,
        0 <= i < calls.len(),
        to_answer(calls[i], answered),
    ensures
        answer_targets_spec(enabled, calls, answered).contains(calls[i].id),
    decreases calls.len(),
{
    let t = answer_targets_spec(enabled, calls, answered);
    if i == calls.len() - 1 {
        assert(t.last() == calls[i].id);
        assert(t[t.len() - 1] == calls[i].id);
    } else {
        lemma_targets_contained(enabled, calls.drop_last(), answered, i);
        let prev = answer_targets_spec(enabled, calls.drop_last(), answered);
        let k = choose|k: int| 0 <= k < prev.len() && prev[k] == calls[i].id;
        if to_answer(calls.last(), answered) {
            assert(t[k] == prev[k]);
        }
    }
}

proof fn lemma_targets_answered(
    enabled: bool,
    calls: Seq<CallView>,
    answered: Seq<Seq<char>>,
    all: Seq<Seq<char>>,
)
    requires
        all == answer_targets_spec(enabled, calls, answered),
    ensures
        answer_targets_spec(enabled, calls, answered + all).len() == 0,
    decreases calls.len(),
{
    if enabled && calls.len() > 0 {
        let prefix = calls.drop_last();
        let pall = answer_targets_spec(enabled, prefix, answered);
        // The targets of the prefix are among all the targets.
        assert forall|i: int| 0 <= i < prefix.len() && to_answer(prefix[i], answered) implies all.contains(
            prefix[i].id,
        ) by {
            lemma_targets_contained(enabled, calls, answered, i);
            assert(calls[i] == prefix[i]);
        }
        lemma_nothing_left(enabled, prefix, answered, all);
        let c = calls.last();
        if c.state == "INCOMING"@ {
            if !answered.contains(c.id) {
                lemma_targets_contained(enabled, calls, answered, calls.len() - 1);
            }
            let k = if answered.contains(c.id) {
                choose|k: int| 0 <= k < answered.len() && answered[k] == c.id
            } else {
                answered.len() + choose|k: int| 0 <= k < all.len() && all[k] == c.id
            };
            assert((answered + all)[k] == c.id);
        }
    }
}

pub(crate) proof fn lemma_nothing_left(
    enabled: bool,
    calls: Seq<CallView>,
    answered: Seq<Seq<char>>,
    all: Seq<Seq<char>>,
)
    requires
        forall|i: int| 0 <= i < calls.len() && to_answer(calls[i], answered) ==> all.contains(calls[i].id),
    ensures
        answer_targets_spec(enabled, calls, answered + all).len() == 0,
    decreases calls.len(),
{
    if enabled && calls.len() > 0 {
        let prefix = calls.drop_last();
        assert forall|i: int| 0 <= i < prefix.len() && to_answer(prefix[i], answered) implies all.contains(
            prefix[i].id,
        ) by {
            assert(calls[i] == prefix[i]);
        }
        lemma_nothing_left(enabled, prefix, answered, all);
        let c = calls.last();
        if c.state == "INCOMING"@ {
            if answered.contains(c.id) {
                let k = choose|k: int| 0 <= k < answered.len() && answered[k] == c.id;
                assert((answered + all)[k] == c.id);
            } else {
                assert(to_answer(calls[calls.len() - 1], answered));
                let k = choose|k: int| 0 <= k < all.len() && all[k] == c.id;
                assert((answered + all)[answered.len() + k] == c.id);
            }
        }
    }
}

// ---------------------------------------------------------------------
// Explorer
// ---------------------------------------------------------------------

/// A path as Explorer takes it: backslashes only, and without the verbatim
/// prefix some Windows file system calls use.
pub open spec fn explorer_spec(path: Seq<char>) -> Seq<char> {
    let text = path.map_values(|c: char| if c == '/' { '\\' } else { c });
    if "\\\\?\\UNC\\"@.is_prefix_of(text) {
        "\\\\"@ + text.skip(8)
    } else if "\\\\?\\"@.is_prefix_of(text) {
        text.skip(4)
    } else {
        text
    }
}

/// Explorer interprets forward slashes as switches and does not support the
/// verbatim path prefix used by some Windows file system calls.
pub fn explorer_path(path: &str) -> (r: String)
    ensures
        r@ == explorer_spec(path@),
{
    let v = chars_of(path);
    let mut text: Vec<char> = Vec::new();
    let mut i: usize = 0;
    while i < v.len()
        invariant
            i <= v.len(),
            v@ == path@,
            text@ == path@.take(i as int).map_values(|c: char| if c == '/' { '\\' } else { c }),
        decreases v.len() - i,
    {
        text.push(if v[i] == '/' { '\\' } else { v[i] });
        assert(text@ =~= path@.take(i + 1).map_values(|c: char| if c == '/' { '\\' } else { c }));
        i += 1;
    }
    assert(path@.take(v.len() as int) =~= path@);
    proof {
        reveal_strlit("\\\\?\\UNC\\");
        reveal_strlit("\\\\?\\");
        reveal_strlit("\\\\");
    }
    if crate::text::starts(&text, &chars_of("\\\\?\\UNC\\")) {
        let mut out = chars_of("\\\\");
        let rest = crate::text::slice(&text, 8, text.len());
        crate::text::extend(&mut out, &rest);
        string_of(&out)
    } else if crate::text::starts(&text, &chars_of("\\\\?\\")) {
        string_of(&crate::text::slice(&text, 4, text.len()))
    } else {
        string_of(&text)
    }
}

} // verus!
