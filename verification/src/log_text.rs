//! What goes into a log line and what a line tells the window: the engine's
//! colours taken out, control characters kept out, the time written the way
//! a reader elsewhere understands it, and the lines of the engine that say
//! something the window shows.
use vstd::prelude::*;
use crate::message::{json_message_text, message, message_with, str_views};
use crate::text::{
    chars_of, clean, clean_spec, contains_text, has_text, is_alphabetic, push_decimal, decimal,
    string_of, trim, trim_str,
};

verus! {

// ---------------------------------------------------------------------
// The engine's colours
// ---------------------------------------------------------------------

/// How many characters an escape sequence takes after its `ESC [`: up to and
/// including the first ASCII letter, or all that is left.
pub open spec fn escape_len(t: Seq<char>) -> nat
    decreases t.len(),
{
    if t.len() == 0 {
        0
    } else if is_alphabetic(t[0]) {
        1
    } else {
        1 + escape_len(t.drop_first())
    }
}

pub proof fn lemma_escape_len(t: Seq<char>)
    ensures
        escape_len(t) <= t.len(),
    decreases t.len(),
{
    if t.len() > 0 {
        lemma_escape_len(t.drop_first());
    }
}

/// The text without the terminal's escape sequences.
pub open spec fn plain(s: Seq<char>) -> Seq<char>
    decreases s.len(),
{
    if s.len() == 0 {
        s
    } else if s.len() > 1 && s[0] == '\x1b' && s[1] == '[' {
        proof {
            lemma_escape_len(s.skip(2));
        }
        plain(s.skip(2 + escape_len(s.skip(2)) as int))
    } else {
        seq![s[0]] + plain(s.drop_first())
    }
}

/// The engine colours its warnings for a terminal; the log wants the words.
pub fn without_colour(line: &str) -> (r: String)
    ensures
        r@ == plain(line@),
{
    let v = chars_of(line);
    let mut out: Vec<char> = Vec::new();
    let mut i: usize = 0;
    assert(v@.skip(0) =~= v@);
    while i < v.len()
        invariant
            i <= v.len(),
            v@ == line@,
            out@ + plain(v@.skip(i as int)) == plain(line@),
        decreases v.len() - i,
    {
        let ghost t = v@.skip(i as int);
        if i + 1 < v.len() && v[i] == '\x1b' && v[i + 1] == '[' {
            let mut j = i + 2;
            let ghost u = v@.skip(i + 2);
            assert(t.skip(2) =~= u);
            while j < v.len() && !crate::text::alphabetic(v[j])
                invariant
                    i + 2 <= j <= v.len(),
                    u == v@.skip(i + 2),
                    escape_len(u) == (j - (i + 2)) + escape_len(v@.skip(j as int)),
                decreases v.len() - j,
            {
                assert(v@.skip(j as int)[0] == v@[j as int]);
                assert(v@.skip(j as int).drop_first() =~= v@.skip(j + 1));
                j += 1;
            }
            if j < v.len() {
                assert(v@.skip(j as int)[0] == v@[j as int]);
                j += 1;
            }
            proof {
                lemma_escape_len(u);
            }
            assert(v@.skip(j as int) =~= t.skip(2 + escape_len(u) as int));
            i = j;
        } else {
            assert(t[0] == v@[i as int]);
            assert(t.drop_first() =~= v@.skip(i + 1));
            let ghost before = out@;
            out.push(v[i]);
            assert(out@ + plain(v@.skip(i + 1)) =~= before + plain(t));
            i += 1;
        }
    }
    assert(v@.skip(i as int) =~= Seq::<char>::empty());
    assert(out@ + Seq::<char>::empty() =~= out@);
    string_of(&out)
}

// ---------------------------------------------------------------------
// What the log's lines are made of
// ---------------------------------------------------------------------

/// A line from the app or the window: no control characters, at most 300
/// of the rest, and nothing at all when only white space is left.
pub open spec fn app_line(text: Seq<char>) -> Option<Seq<char>> {
    let c = clean_spec(text, 300);
    if trim(c).len() == 0 {
        None
    } else {
        Some(c)
    }
}

/// What the app and the window hand the log, once it is fit to be a line.
pub fn app_line_of(text: &str) -> (r: Option<String>)
    ensures
        match r {
            Some(t) => app_line(text@) == Some(t@),
            None => app_line(text@) is None,
        },
{
    let c = clean(text, 300);
    if chars_of(trim_str(c.as_str())).len() == 0 {
        None
    } else {
        Some(c)
    }
}

/// Every command that arrives through a browser link is recorded: it comes
/// from outside the app and explains what happened afterwards.
pub fn protocol_line(command: &str) -> (r: String)
    ensures
        r@ == "protocol "@ + clean_spec(command@, 100),
{
    let mut v = chars_of("protocol ");
    let c = clean(command, 100);
    crate::text::extend_str(&mut v, c.as_str());
    string_of(&v)
}

/// The text with its line breaks turned into spaces.
pub open spec fn one_line_spec(s: Seq<char>) -> Seq<char> {
    s.map_values(|c: char| if c == '\r' || c == '\n' { ' ' } else { c })
}

/// A panic stays on one line so its time is next to it.
pub fn one_line(text: &str) -> (r: String)
    ensures
        r@ == one_line_spec(text@),
{
    let v = chars_of(text);
    let mut out: Vec<char> = Vec::new();
    let mut i: usize = 0;
    while i < v.len()
        invariant
            i <= v.len(),
            v@ == text@,
            out@ == one_line_spec(text@.take(i as int)),
        decreases v.len() - i,
    {
        let c = v[i];
        out.push(if c == '\r' || c == '\n' { ' ' } else { c });
        assert(out@ =~= one_line_spec(text@.take(i + 1)));
        i += 1;
    }
    assert(text@.take(v.len() as int) =~= text@);
    string_of(&out)
}

/// One line from a process that is not the app: the link handler, when it
/// has nothing to hand a link to.
pub fn foreign_line(body: &str) -> (r: String)
    ensures
        r@ == clean_spec(body@, 300),
{
    clean(body, 300)
}

// ---------------------------------------------------------------------
// What a line of the engine tells the window
// ---------------------------------------------------------------------

/// What a log line changes in what the window shows: whether echo
/// cancellation is running, whether the microphone has fallen back to
/// silence, and the error in the banner.
pub struct LogEffects {
    pub aec_active: Option<bool>,
    pub microphone_fallback: Option<bool>,
    pub error: Option<String>,
}

pub open spec fn audio_failure(s: Seq<char>) -> bool {
    (has_text(s, "ksip_audio:"@) || has_text(s, "wasapi/src:"@) || has_text(s, "wasapi/play:"@))
        && has_text(s, "failed"@) && !has_text(s, "using silence"@)
}

pub open spec fn recording_problem(s: Seq<char>) -> bool {
    has_text(s, "postlab: receive WAV closed"@) && !has_text(s, "0 dropped samples, error=0"@)
}

pub open spec fn aec_effect(s: Seq<char>) -> Option<bool> {
    if audio_failure(s) {
        Some(false)
    } else if has_text(s, "Google WebRTC ADM + APM initialized (processing enabled)"@) {
        Some(true)
    } else {
        None
    }
}

pub open spec fn fallback_effect(s: Seq<char>) -> Option<bool> {
    if has_text(s, "ksip: microphone input recovered"@) {
        Some(false)
    } else if has_text(s, "ksip: microphone fallback active"@) {
        Some(true)
    } else {
        None
    }
}

/// The error a line puts in the banner: the last rule that applies wins.
pub open spec fn error_effect(s: Seq<char>) -> Option<Seq<char>> {
    if has_text(s, "tls_add_ca() failed"@) {
        Some("TRUST_STORE_UNUSABLE"@)
    } else if recording_problem(s) {
        Some("RECORDING_WRITE_PROBLEM"@)
    } else if audio_failure(s) {
        Some(json_message_text("AUDIO_DEVICE_INIT_FAILED_DETAIL"@, seq![s]))
    } else {
        None
    }
}

/// What a log line changes in what the window shows.
pub fn log_effects(s: &str) -> (r: LogEffects)
    ensures
        r.aec_active == aec_effect(s@),
        r.microphone_fallback == fallback_effect(s@),
        match r.error {
            Some(e) => error_effect(s@) == Some(e@),
            None => error_effect(s@) is None,
        },
{
    let mut aec_active: Option<bool> = None;
    let mut microphone_fallback: Option<bool> = None;
    let mut error: Option<String> = None;
    if contains_text(s, "Google WebRTC ADM + APM initialized (processing enabled)") {
        aec_active = Some(true);
    }
    if contains_text(s, "ksip: microphone fallback active") {
        microphone_fallback = Some(true);
    }
    if contains_text(s, "ksip: microphone input recovered") {
        microphone_fallback = Some(false);
    }
    if (contains_text(s, "ksip_audio:") || contains_text(s, "wasapi/src:") || contains_text(
        s,
        "wasapi/play:",
    )) && contains_text(s, "failed") && !contains_text(s, "using silence") {
        let values = [s];
        assert(str_views(values@) =~= seq![s@]);
        error = Some(message_with("AUDIO_DEVICE_INIT_FAILED_DETAIL", &values));
        aec_active = Some(false);
    }
    if contains_text(s, "postlab: receive WAV closed") && !contains_text(
        s,
        "0 dropped samples, error=0",
    ) {
        error = Some(message("RECORDING_WRITE_PROBLEM"));
    }
    // The engine only warns when it cannot load the trust list, and then
    // fails every TLS registration with nothing else to show for it.
    if contains_text(s, "tls_add_ca() failed") {
        error = Some(message("TRUST_STORE_UNUSABLE"));
    }
    LogEffects { aec_active, microphone_fallback, error }
}

// ---------------------------------------------------------------------
// The error banner of the polling loop
// ---------------------------------------------------------------------

/// The error the polling loop last put in the banner, so that it can take
/// it away again once polling works, and leave any other error alone.
pub struct PollingError {
    pub reported: String,
}

impl PollingError {
    pub fn new() -> (r: Self)
        ensures
            r.reported@.len() == 0,
    {
        PollingError { reported: String::new() }
    }

    /// The polling loop reports an error; it is shown, and logged unless it
    /// is the one already reported. Says whether to log it.
    pub fn report(&mut self, error: &str) -> (log: bool)
        ensures
            log == (old(self).reported@ != error@),
            final(self).reported@ == error@,
    {
        let log = !crate::text::is(self.reported.as_str(), error);
        self.reported = crate::text::owned(error);
        log
    }

    /// Polling works again. Says whether the banner, which shows `shown`,
    /// is to be cleared: only when it still shows what polling reported.
    pub fn clear(&mut self, shown: &str) -> (clear: bool)
        ensures
            clear == (old(self).reported@.len() > 0 && old(self).reported@ == shown@),
            final(self).reported@.len() == 0,
    {
        if chars_of(self.reported.as_str()).len() == 0 {
            return false;
        }
        let clear = crate::text::is(self.reported.as_str(), shown);
        self.reported = String::new();
        clear
    }
}

// ---------------------------------------------------------------------
// The time of a line
// ---------------------------------------------------------------------

/// The decimal digits of `n`, with zeros in front to make `width` of them.
pub open spec fn padded(n: nat, width: nat) -> Seq<char> {
    let d = decimal(n);
    if d.len() < width {
        Seq::new((width - d.len()) as nat, |i: int| '0') + d
    } else {
        d
    }
}

/// Appends `n` with zeros in front to make `width` digits.
fn push_padded(out: &mut Vec<char>, n: u64, width: usize)
    ensures
        final(out)@ == old(out)@ + padded(n as nat, width as nat),
{
    let mut digits: Vec<char> = Vec::new();
    push_decimal(&mut digits, n);
    assert(digits@ =~= decimal(n as nat));
    let mut k: usize = digits.len();
    let ghost start = out@;
    while k < width
        invariant
            digits.len() <= k <= width || (k == digits.len() && k >= width),
            out@ == start + Seq::new((k - digits.len()) as nat, |i: int| '0'),
        decreases width - k,
    {
        out.push('0');
        assert(out@ =~= start + Seq::new((k + 1 - digits.len()) as nat, |i: int| '0'));
        k += 1;
    }
    crate::text::extend(out, &digits);
    proof {
        if digits.len() >= width {
            assert(Seq::new((k - digits.len()) as nat, |i: int| '0') =~= Seq::<char>::empty());
            assert(start + Seq::<char>::empty() =~= start);
        }
        assert(out@ =~= start + padded(n as nat, width as nat));
    }
}

/// A local time and its offset from UTC in minutes, written the RFC 3339
/// way: `2026-09-21T09:12:54+09:00`.
pub open spec fn stamp_spec(
    year: u16,
    month: u16,
    day: u16,
    hour: u16,
    minute: u16,
    second: u16,
    offset: int,
) -> Seq<char> {
    let a = if offset < 0 {
        -offset
    } else {
        offset
    };
    padded(year as nat, 4) + seq!['-'] + padded(month as nat, 2) + seq!['-'] + padded(
        day as nat,
        2,
    ) + seq!['T'] + padded(hour as nat, 2) + seq![':'] + padded(minute as nat, 2) + seq![':']
        + padded(second as nat, 2) + seq![
        if offset < 0 {
            '-'
        } else {
            '+'
        },
    ] + padded((a / 60) as nat, 2) + seq![':'] + padded((a % 60) as nat, 2)
}

/// Local wall clock for a log line, from the parts Windows gives.
pub fn stamp_text(
    year: u16,
    month: u16,
    day: u16,
    hour: u16,
    minute: u16,
    second: u16,
    offset: i64,
) -> (r: String)
    requires
        offset > i64::MIN,
    ensures
        r@ == stamp_spec(year, month, day, hour, minute, second, offset as int),
{
    let a: u64 = if offset < 0 {
        (-offset) as u64
    } else {
        offset as u64
    };
    let mut v: Vec<char> = Vec::new();
    push_padded(&mut v, year as u64, 4);
    v.push('-');
    push_padded(&mut v, month as u64, 2);
    v.push('-');
    push_padded(&mut v, day as u64, 2);
    v.push('T');
    push_padded(&mut v, hour as u64, 2);
    v.push(':');
    push_padded(&mut v, minute as u64, 2);
    v.push(':');
    push_padded(&mut v, second as u64, 2);
    v.push(if offset < 0 { '-' } else { '+' });
    push_padded(&mut v, a / 60, 2);
    v.push(':');
    push_padded(&mut v, a % 60, 2);
    assert(v@ =~= stamp_spec(year, month, day, hour, minute, second, offset as int));
    string_of(&v)
}

/// How far local time is ahead of UTC, in minutes, from what Windows says of
/// the time zone: the kind of time in force (`TIME_ZONE_ID_INVALID` when it
/// could not tell, `TIME_ZONE_ID_DAYLIGHT` for summer time), and the biases,
/// which say how many minutes local time is behind UTC.
pub open spec fn utc_offset_spec(kind: u32, bias: i32, standard_bias: i32, daylight_bias: i32) -> int {
    if kind == 0xFFFF_FFFF {
        0
    } else if kind == 2 {
        -(bias + daylight_bias)
    } else {
        -(bias + standard_bias)
    }
}

pub fn utc_offset(kind: u32, bias: i32, standard_bias: i32, daylight_bias: i32) -> (r: i64)
    ensures
        r == utc_offset_spec(kind, bias, standard_bias, daylight_bias),
{
    if kind == 0xFFFF_FFFF {
        0
    } else if kind == 2 {
        -(bias as i64 + daylight_bias as i64)
    } else {
        -(bias as i64 + standard_bias as i64)
    }
}

// ---------------------------------------------------------------------
// The file, byte by byte
// ---------------------------------------------------------------------

/// How many line ends the bytes hold.
pub open spec fn newlines(b: Seq<u8>) -> nat
    decreases b.len(),
{
    if b.len() == 0 {
        0
    } else {
        newlines(b.drop_last()) + if b.last() == 10 {
            1nat
        } else {
            0nat
        }
    }
}

/// A file as it is: how many lines it holds and how many bytes.
pub fn file_stock(bytes: &[u8]) -> (r: (usize, u64))
    ensures
        r.0 == newlines(bytes@),
        r.1 == bytes@.len(),
{
    let mut count: usize = 0;
    let mut i: usize = 0;
    while i < bytes.len()
        invariant
            i <= bytes.len(),
            count == newlines(bytes@.take(i as int)),
            count <= i,
        decreases bytes.len() - i,
    {
        assert(bytes@.take(i + 1).drop_last() =~= bytes@.take(i as int));
        if bytes[i] == 10 {
            count += 1;
        }
        i += 1;
    }
    assert(bytes@.take(bytes.len() as int) =~= bytes@);
    (count, bytes.len() as u64)
}

/// Where the kept part of a file starts when only its last `limit` lines
/// stay, and how many lines it then holds. The last line ends with the last
/// line end; the kept lines start after the line end that closes the line
/// before the first of them.
pub open spec fn kept_start(b: Seq<u8>, limit: nat, start: nat, lines: nat) -> bool {
    if newlines(b) <= limit {
        start == 0 && lines == newlines(b)
    } else {
        &&& 0 < start <= b.len()
        &&& b[start - 1] == 10
        &&& newlines(b.skip(start as int)) == limit
        &&& lines == limit
    }
}

proof fn lemma_newlines_split(b: Seq<u8>, k: int)
    requires
        0 <= k <= b.len(),
    ensures
        newlines(b) == newlines(b.take(k)) + newlines(b.skip(k)),
    decreases b.len() - k,
{
    if k < b.len() {
        lemma_newlines_split(b, k + 1);
        assert(b.take(k + 1).drop_last() =~= b.take(k));
        let s = b.skip(k);
        let s1 = b.skip(k + 1);
        lemma_newlines_front(s);
        assert(s.drop_first() =~= s1);
    } else {
        assert(b.take(k) =~= b);
        assert(b.skip(k) =~= Seq::<u8>::empty());
    }
}

proof fn lemma_newlines_front(s: Seq<u8>)
    requires
        s.len() > 0,
    ensures
        newlines(s) == newlines(s.drop_first()) + if s[0] == 10 {
            1nat
        } else {
            0nat
        },
    decreases s.len(),
{
    if s.len() > 1 {
        lemma_newlines_front(s.drop_last());
        assert(s.drop_last().drop_first() =~= s.drop_first().drop_last());
    } else {
        assert(s.drop_first() =~= Seq::<u8>::empty());
        assert(s.drop_last() =~= Seq::<u8>::empty());
    }
}

/// Where the last `limit` lines of the file start, and how many lines stay.
pub fn last_lines_start(bytes: &[u8], limit: usize) -> (r: (usize, usize))
    ensures
        kept_start(bytes@, limit as nat, r.0 as nat, r.1 as nat),
{
    let mut count: usize = 0;
    let mut i: usize = bytes.len();
    assert(bytes@.skip(bytes.len() as int) =~= Seq::<u8>::empty());
    while i > 0
        invariant
            i <= bytes.len(),
            count == newlines(bytes@.skip(i as int)),
            count <= limit,
        decreases i,
    {
        proof {
            lemma_newlines_front(bytes@.skip(i - 1));
            assert(bytes@.skip(i - 1).drop_first() =~= bytes@.skip(i as int));
        }
        if bytes[i - 1] == 10 {
            if count == limit {
                proof {
                    lemma_newlines_split(bytes@, i as int);
                }
                return (i, limit);
            }
            count += 1;
        }
        i -= 1;
    }
    assert(bytes@.skip(0) =~= bytes@);
    (0, count)
}

/// Where the first line end of `b` is, if it has one.
pub open spec fn first_end(b: Seq<u8>) -> Option<int>
    decreases b.len(),
{
    if b.len() == 0 {
        None
    } else if b[0] == 10 {
        Some(0)
    } else {
        match first_end(b.drop_first()) {
            Some(i) => Some(i + 1),
            None => None,
        }
    }
}

pub proof fn lemma_first_end(b: Seq<u8>)
    ensures
        first_end(b) matches Some(i) ==> 0 <= i < b.len() && b[i] == 10 && forall|j: int|
            0 <= j < i ==> b[j] != 10,
        first_end(b) is None ==> forall|j: int| 0 <= j < b.len() ==> b[j] != 10,
    decreases b.len(),
{
    if b.len() > 0 {
        lemma_first_end(b.drop_first());
        if b[0] != 10 {
            assert forall|j: int| 0 < j < b.len() implies b[j] == b.drop_first()[j - 1] by {}
        }
    }
}

/// The whole lines in what was read of a file, each without its line end,
/// the empty ones left out. A line still being written is not among them.
pub open spec fn whole_lines(b: Seq<u8>) -> Seq<Seq<u8>>
    decreases b.len(),
{
    match first_end(b) {
        None => Seq::empty(),
        Some(i) => {
            proof {
                lemma_first_end(b);
            }
            (if i == 0 {
                Seq::empty()
            } else {
                seq![b.take(i)]
            }) + whole_lines(b.skip(i + 1))
        },
    }
}

/// How many bytes the whole lines take: up to and including the last line end.
pub open spec fn whole_end(b: Seq<u8>) -> nat
    decreases b.len(),
{
    match first_end(b) {
        None => 0,
        Some(i) => {
            proof {
                lemma_first_end(b);
            }
            (i + 1 + whole_end(b.skip(i + 1))) as nat
        },
    }
}

/// The whole lines in what was read of a file, and how many bytes they take.
pub fn whole_lines_of(bytes: &[u8]) -> (r: (Vec<Vec<u8>>, usize))
    ensures
        r.0@.map_values(|l: Vec<u8>| l@) == whole_lines(bytes@),
        r.1 == whole_end(bytes@),
{
    let mut lines: Vec<Vec<u8>> = Vec::new();
    let mut start: usize = 0;
    let mut i: usize = 0;
    assert(bytes@.skip(0) =~= bytes@);
    assert(lines@.map_values(|l: Vec<u8>| l@) =~= Seq::<Seq<u8>>::empty());
    while i < bytes.len()
        invariant
            start <= i <= bytes.len(),
            forall|j: int| start <= j < i ==> bytes@[j] != 10,
            lines@.map_values(|l: Vec<u8>| l@) + whole_lines(bytes@.skip(start as int)) == whole_lines(
                bytes@,
            ),
            start + whole_end(bytes@.skip(start as int)) == whole_end(bytes@),
        decreases bytes.len() - i,
    {
        if bytes[i] == 10 {
            let ghost t = bytes@.skip(start as int);
            proof {
                lemma_first_end(t);
                assert(t[i - start] == 10);
                assert forall|j: int| 0 <= j < i - start implies t[j] != 10 by {
                    assert(t[j] == bytes@[j + start]);
                }
                let k = first_end(t)->0;
                assert(k == i - start) by {
                    if k < i - start {
                        assert(t[k] == bytes@[k + start]);
                    }
                }
                assert(t.skip(k + 1) =~= bytes@.skip(i + 1));
            }
            if i > start {
                let mut line: Vec<u8> = Vec::new();
                let mut j = start;
                while j < i
                    invariant
                        start <= j <= i,
                        i < bytes.len(),
                        line@ == bytes@.subrange(start as int, j as int),
                    decreases i - j,
                {
                    line.push(bytes[j]);
                    assert(line@ =~= bytes@.subrange(start as int, j + 1));
                    j += 1;
                }
                assert(line@ =~= t.take(i - start));
                let ghost before = lines@.map_values(|l: Vec<u8>| l@);
                lines.push(line);
                assert(lines@.map_values(|l: Vec<u8>| l@) =~= before.push(t.take(i - start)));
                assert(before.push(t.take(i - start)) + whole_lines(bytes@.skip(i + 1)) =~= before
                    + whole_lines(t));
            } else {
                assert(Seq::<Seq<u8>>::empty() + whole_lines(bytes@.skip(i + 1)) =~= whole_lines(t));
            }
            start = i + 1;
        }
        i += 1;
    }
    proof {
        let t = bytes@.skip(start as int);
        lemma_first_end(t);
        assert forall|j: int| 0 <= j < t.len() implies t[j] != 10 by {
            assert(t[j] == bytes@[j + start]);
        }
        assert(lines@.map_values(|l: Vec<u8>| l@) + Seq::<Seq<u8>>::empty() =~= lines@.map_values(
            |l: Vec<u8>| l@,
        ));
    }
    (lines, start)
}

} // verus!
