//! The log tab and the bookkeeping of its file: lines are numbered as they
//! arrive, the window asks for what came after the last number it saw, and
//! the file is appended to with what it does not have yet.
use vstd::prelude::*;
use crate::message::{is_code, is_code_spec, split, split_spec, string_views};
use crate::text::{chars_of, owned, string_of};

verus! {

/// How many lines the tab keeps.
pub const LOG_LIMIT: usize = 1000;

/// Which layer a line came from. It is written into the line so that a
/// support log shows at a glance whether the app or the engine said it.
pub const LOG_APP: &'static str = "app";
pub const LOG_ENGINE: &'static str = "engine";
pub const LOG_EVENT: &'static str = "event";
pub const LOG_UI: &'static str = "ui";

/// One line of the log. The parts are kept apart so that the window can
/// present them as it likes, and so that a reader can sort and search them.
#[derive(Debug)]
pub struct LogLine {
    /// Local time with its offset from UTC (RFC 3339), because a log is often
    /// read on another machine, in another month, in another country.
    pub time: String,
    pub src: String,
    /// A line the engine wrote, in its own words.
    pub text: String,
    /// The name of what the app itself reported, and the values that go with
    /// it. The window turns these into a sentence in the language it shows.
    pub code: String,
    pub args: Vec<String>,
}

pub struct LogLineView {
    pub time: Seq<char>,
    pub src: Seq<char>,
    pub text: Seq<char>,
    pub code: Seq<char>,
    pub args: Seq<Seq<char>>,
}

impl View for LogLine {
    type V = LogLineView;

    open spec fn view(&self) -> LogLineView {
        LogLineView {
            time: self.time@,
            src: self.src@,
            text: self.text@,
            code: self.code@,
            args: string_views(self.args@),
        }
    }
}

pub open spec fn line_views(v: Seq<LogLine>) -> Seq<LogLineView> {
    v.map_values(|l: LogLine| l@)
}

pub open spec fn opt_line_views(v: Seq<Option<LogLine>>) -> Seq<Option<LogLineView>> {
    v.map_values(
        |l: Option<LogLine>|
            match l {
                Some(x) => Some(x@),
                None => None,
            },
    )
}

/// The line a body makes: a message of the library is kept as its name and
/// values, prose as its text.
pub open spec fn line_of(time: Seq<char>, src: Seq<char>, body: Seq<char>, l: LogLine) -> bool {
    let (code, args) = if is_code_spec(body) {
        split_spec(body)
    } else {
        (Seq::empty(), Seq::empty())
    };
    &&& l.time@ == time
    &&& l.src@ == src
    &&& l.code@ == code
    &&& string_views(l.args@) == args
    &&& l.text@ == if code.len() == 0 {
        body
    } else {
        Seq::empty()
    }
}

/// The same texts, one by one.
pub fn copy_texts(v: &Vec<String>) -> (r: Vec<String>)
    ensures
        r@ == v@,
{
    let mut r: Vec<String> = Vec::new();
    let mut i: usize = 0;
    while i < v.len()
        invariant
            i <= v.len(),
            r@ == v@.take(i as int),
        decreases v.len() - i,
    {
        r.push(v[i].clone());
        assert(r@ =~= v@.take(i + 1));
        i += 1;
    }
    assert(v@.take(v.len() as int) =~= v@);
    r
}

impl LogLine {
    pub fn new(time: String, src: &str, body: String) -> (r: Self)
        ensures
            line_of(time@, src@, body@, r),
    {
        let (code, args) = if is_code(body.as_str()) {
            split(body.as_str())
        } else {
            let none: Vec<String> = Vec::new();
            assert(string_views(none@) =~= Seq::<Seq<char>>::empty());
            (String::new(), none)
        };
        let text = if chars_of(code.as_str()).len() == 0 {
            body
        } else {
            String::new()
        };
        LogLine { time, src: owned(src), text, code, args }
    }

    /// The same line, part by part.
    pub fn copy(&self) -> (r: Self)
        ensures
            r@ == self@,
    {
        LogLine {
            time: self.time.clone(),
            src: self.src.clone(),
            text: self.text.clone(),
            code: self.code.clone(),
            args: copy_texts(&self.args),
        }
    }
}

/// The lines the window asks for, and the number of the line before the first.
pub struct LogPage {
    pub from: u64,
    pub entries: Vec<LogLine>,
}

/// The log as the window and the file see it: the last lines, the number of
/// the last line, how many lines at the back the file does not have yet,
/// and the file as it was last seen, in lines and in bytes.
pub struct LogsView {
    pub entries: Seq<LogLineView>,
    pub sequence: nat,
    pub unwritten: nat,
    pub file_lines: nat,
    pub offset: nat,
}

/// The log tab and its file. The tab holds this run's last lines; the file is
/// one JSON object per line and is only ever appended to, except when it has
/// grown to twice the limit and is written afresh with its own last lines.
/// Another process appends to it too: the link handler, when there is
/// nothing to hand a link to. Those lines are picked up from the file.
pub struct Logs {
    entries: Vec<LogLine>,
    sequence: u64,
    unwritten: usize,
    file_lines: usize,
    offset: u64,
}

impl View for Logs {
    type V = LogsView;

    closed spec fn view(&self) -> LogsView {
        LogsView {
            entries: line_views(self.entries@),
            sequence: self.sequence as nat,
            unwritten: self.unwritten as nat,
            file_lines: self.file_lines as nat,
            offset: self.offset as nat,
        }
    }
}

/// How many lines the log file is shortened to: ten times as many while
/// detailed logging is on. It is shortened once it holds twice as many.
pub open spec fn file_limit_spec(detail: bool) -> nat {
    if detail {
        (10 * LOG_LIMIT) as nat
    } else {
        LOG_LIMIT as nat
    }
}

/// How many lines the log file is shortened to.
pub fn file_limit(detail: bool) -> (r: usize)
    ensures
        r == file_limit_spec(detail),
{
    if detail {
        10 * LOG_LIMIT
    } else {
        LOG_LIMIT
    }
}

/// The lines after the tab's first one has been let go of, until they fit.
pub open spec fn kept<A>(e: Seq<A>) -> Seq<A> {
    if e.len() > LOG_LIMIT {
        e.skip(e.len() - LOG_LIMIT)
    } else {
        e
    }
}

pub open spec fn min(a: nat, b: nat) -> nat {
    if a < b {
        a
    } else {
        b
    }
}

/// The log after one more line.
pub open spec fn pushed(l: LogsView, line: LogLineView) -> LogsView {
    let e = kept(l.entries.push(line));
    LogsView { entries: e, sequence: l.sequence + 1, unwritten: min(l.unwritten + 1, e.len()), ..l }
}

/// The log after more lines, one after the other.
pub open spec fn pushes(l: LogsView, lines: Seq<LogLineView>) -> LogsView
    decreases lines.len(),
{
    if lines.len() == 0 {
        l
    } else {
        pushed(pushes(l, lines.drop_last()), lines.last())
    }
}

/// The number of the line before the first one the tab holds.
pub open spec fn first_number(l: LogsView) -> int {
    l.sequence - l.entries.len()
}

/// What a window that has seen the lines up to `after` is given: the lines
/// after it, or, when the tab no longer holds them all or the number is
/// not one the tab knows, everything with the number before the first.
pub open spec fn page_spec(l: LogsView, after: nat) -> (nat, Seq<LogLineView>) {
    let start = first_number(l);
    if start <= after && after <= l.sequence {
        (after, l.entries.skip(after - start))
    } else {
        (start as nat, l.entries)
    }
}

/// The lines another process appended, put in front of the lines the file
/// does not have yet, since the file has them already.
pub open spec fn with_foreign(l: LogsView, lines: Seq<Option<LogLineView>>) -> Seq<LogLineView> {
    let at = l.entries.len() - l.unwritten;
    l.entries.take(at) + somes(lines) + l.entries.skip(at)
}

/// The lines that were read.
pub open spec fn somes<A>(lines: Seq<Option<A>>) -> Seq<A>
    decreases lines.len(),
{
    if lines.len() == 0 {
        Seq::empty()
    } else {
        match lines.last() {
            Some(x) => somes(lines.drop_last()).push(x),
            None => somes(lines.drop_last()),
        }
    }
}

proof fn lemma_somes_len<A>(lines: Seq<Option<A>>)
    ensures
        somes(lines).len() <= lines.len(),
    decreases lines.len(),
{
    if lines.len() > 0 {
        lemma_somes_len(lines.drop_last());
    }
}

impl Logs {
    #[verifier::type_invariant]
    spec fn well_formed(self) -> bool {
        &&& self.entries@.len() <= LOG_LIMIT
        &&& self.unwritten <= self.entries@.len()
        &&& self.entries@.len() <= self.sequence
    }

    /// An empty tab beside a file of the given lines and bytes. Nothing is
    /// read back: the tab shows this run, and the file keeps the one before.
    pub fn new(file_lines: usize, offset: u64) -> (r: Self)
        ensures
            r@.entries.len() == 0,
            r@.sequence == 0,
            r@.unwritten == 0,
            r@.file_lines == file_lines,
            r@.offset == offset,
    {
        Logs { entries: Vec::new(), sequence: 0, unwritten: 0, file_lines, offset }
    }

    pub fn entries(&self) -> (r: &[LogLine])
        ensures
            line_views(r@) == self@.entries,
    {
        self.entries.as_slice()
    }

    pub fn sequence(&self) -> (r: u64)
        ensures
            r == self@.sequence,
    {
        self.sequence
    }

    pub fn unwritten(&self) -> (r: usize)
        ensures
            r == self@.unwritten,
    {
        self.unwritten
    }

    pub fn file_lines(&self) -> (r: usize)
        ensures
            r == self@.file_lines,
    {
        self.file_lines
    }

    pub fn offset(&self) -> (r: u64)
        ensures
            r == self@.offset,
    {
        self.offset
    }

    /// One more line, numbered after the last one.
    pub fn push(&mut self, line: LogLine)
        requires
            old(self)@.sequence < u64::MAX,
        ensures
            final(self)@ == pushed(old(self)@, line@),
    {
        proof {
            use_type_invariant(&*self);
        }
        let mut taken = Logs::new(0, 0);
        std::mem::swap(self, &mut taken);
        let Logs { mut entries, sequence, unwritten, file_lines, offset } = taken;
        let ghost before = entries@;
        let ghost lv = line@;
        entries.push(line);
        let ghost e = entries@;
        assert(line_views(e) =~= line_views(before).push(lv));
        if entries.len() > LOG_LIMIT {
            entries.remove(0);
            assert(entries@ =~= kept(e));
        }
        assert(line_views(entries@) =~= kept(line_views(e)));
        let keep = if unwritten + 1 > entries.len() {
            entries.len()
        } else {
            unwritten + 1
        };
        *self = Logs { entries, sequence: sequence + 1, unwritten: keep, file_lines, offset };
    }

    /// Forgets every line, here and in the file's bookkeeping. Starting the
    /// numbers again tells the window that its copy is stale.
    pub fn clear(&mut self)
        ensures
            final(self)@.entries.len() == 0,
            final(self)@.sequence == 0,
            final(self)@.unwritten == 0,
            final(self)@.file_lines == 0,
            final(self)@.offset == 0,
    {
        *self = Logs::new(0, 0);
    }

    /// The lines after the given number, or everything when the tab no
    /// longer holds them all.
    pub fn page(&self, after: u64) -> (r: LogPage)
        ensures
            (r.from as nat, line_views(r.entries@)) == page_spec(self@, after as nat),
    {
        proof {
            use_type_invariant(self);
        }
        let start = self.sequence - self.entries.len() as u64;
        let from = if after >= start && after <= self.sequence {
            (after - start) as usize
        } else {
            0
        };
        let mut entries: Vec<LogLine> = Vec::new();
        let mut i: usize = from;
        while i < self.entries.len()
            invariant
                from <= i <= self.entries.len(),
                line_views(entries@) == line_views(self.entries@).subrange(from as int, i as int),
            decreases self.entries.len() - i,
        {
            let line = self.entries[i].copy();
            let ghost before = entries@;
            entries.push(line);
            assert(line_views(entries@) =~= line_views(before).push(self.entries@[i as int]@));
            assert(line_views(entries@) =~= line_views(self.entries@).subrange(from as int, i + 1));
            i += 1;
        }
        assert(line_views(self.entries@).subrange(from as int, self.entries@.len() as int) =~= line_views(self.entries@).skip(from as int));
        assert(line_views(self.entries@).skip(0) =~= line_views(self.entries@));
        LogPage { from: if after >= start && after <= self.sequence { after } else { start }, entries }
    }

    /// Where the lines the file does not have yet begin among the tab's.
    pub fn unwritten_from(&self) -> (r: usize)
        ensures
            r == self@.entries.len() - self@.unwritten,
            r <= self@.entries.len(),
    {
        proof {
            use_type_invariant(self);
        }
        self.entries.len() - self.unwritten
    }

    /// The file was looked at and found to be `length` bytes long. A file
    /// shorter than last seen was emptied or replaced and is taken as new.
    /// Says whether there is anything new to read.
    pub fn seen(&mut self, length: u64) -> (r: bool)
        ensures
            length < old(self)@.offset ==> final(self)@ == (LogsView { offset: 0, file_lines: 0, ..old(self)@ }),
            length >= old(self)@.offset ==> final(self)@ == old(self)@,
            r == (length != final(self)@.offset),
    {
        proof {
            use_type_invariant(&*self);
        }
        if length < self.offset {
            self.offset = 0;
            self.file_lines = 0;
        }
        length != self.offset
    }

    /// The whole lines another process appended, each read into a line or
    /// not, and how many bytes they took. They go in front of the lines the
    /// file does not have yet, and each one that was read is numbered.
    pub fn take_foreign(&mut self, lines: Vec<Option<LogLine>>, end: u64)
        requires
            old(self)@.sequence + lines@.len() <= u64::MAX,
            old(self)@.file_lines + lines@.len() <= usize::MAX,
            old(self)@.offset + end <= u64::MAX,
        ensures
            final(self)@.entries == kept(with_foreign(old(self)@, opt_line_views(lines@))),
            final(self)@.unwritten == min(
                old(self)@.unwritten,
                kept(with_foreign(old(self)@, opt_line_views(lines@))).len(),
            ),
            final(self)@.sequence == old(self)@.sequence + somes(opt_line_views(lines@)).len(),
            final(self)@.file_lines == old(self)@.file_lines + lines@.len(),
            final(self)@.offset == old(self)@.offset + end,
    {
        proof {
            use_type_invariant(&*self);
        }
        let mut taken = Logs::new(0, 0);
        std::mem::swap(self, &mut taken);
        let Logs { mut entries, sequence, unwritten, file_lines, offset } = taken;
        let ghost olds = line_views(entries@);
        let ghost ls = opt_line_views(lines@);
        let start = entries.len() - unwritten;
        let mut at = start;
        let mut added: usize = 0;
        let mut i: usize = 0;
        assert(olds.take(start as int) + somes(ls.take(0)) + olds.skip(start as int) =~= olds);
        while i < lines.len()
            invariant
                i <= lines.len(),
                start <= olds.len(),
                ls == opt_line_views(lines@),
                line_views(entries@) == olds.take(start as int) + somes(ls.take(i as int)) + olds.skip(
                    start as int,
                ),
                added == somes(ls.take(i as int)).len(),
                at == start + added,
                added <= i,
                entries@.len() == olds.len() + added,
            decreases lines.len() - i,
        {
            proof {
                assert(ls.take(i + 1).drop_last() =~= ls.take(i as int));
                lemma_somes_len(ls.take(i as int));
            }
            match &lines[i] {
                Some(line) => {
                    let ghost before = line_views(entries@);
                    entries.insert(at, line.copy());
                    assert(line_views(entries@) =~= before.insert(at as int, line@));
                    assert(line_views(entries@) =~= olds.take(start as int) + somes(ls.take(i + 1))
                        + olds.skip(start as int));
                    let n = entries.len();
                    assert(at < n);
                    at += 1;
                    added += 1;
                },
                None => {},
            }
            i += 1;
        }
        assert(ls.take(lines.len() as int) =~= ls);
        let ghost all = line_views(entries@);
        assert(all =~= with_foreign(LogsView { entries: olds, sequence: sequence as nat, unwritten: unwritten as nat, file_lines: file_lines as nat, offset: offset as nat }, ls));
        while entries.len() > LOG_LIMIT
            invariant
                line_views(entries@) == all.skip(all.len() - entries@.len()),
                entries@.len() <= all.len(),
                all.len() > LOG_LIMIT ==> entries@.len() >= LOG_LIMIT,
                all.len() <= LOG_LIMIT ==> entries@.len() == all.len(),
            decreases entries.len(),
        {
            let ghost before = line_views(entries@);
            entries.remove(0);
            assert(line_views(entries@) =~= before.drop_first());
            assert(all.skip(all.len() - entries@.len()) =~= before.drop_first());
        }
        assert(line_views(entries@) =~= kept(all)) by {
            if all.len() <= LOG_LIMIT {
                assert(all.skip(0) =~= all);
            }
        }
        let keep = if unwritten > entries.len() {
            entries.len()
        } else {
            unwritten
        };
        *self = Logs {
            entries,
            sequence: sequence + added as u64,
            unwritten: keep,
            file_lines: file_lines + i,
            offset: offset + end,
        };
    }

    /// The lines the file did not have were appended to it, taking `bytes`
    /// bytes, or could not be. Either way they are not tried again. Says
    /// whether the file has grown past twice what it keeps, `file_limit`
    /// lines, and is to be shortened to its last ones.
    pub fn written(&mut self, bytes: u64, appended: bool, detail: bool) -> (r: bool)
        requires
            appended ==> old(self)@.offset + bytes <= u64::MAX,
            appended ==> old(self)@.file_lines + old(self)@.unwritten <= usize::MAX,
        ensures
            final(self)@.entries == old(self)@.entries,
            final(self)@.sequence == old(self)@.sequence,
            final(self)@.unwritten == 0,
            final(self)@.offset == if appended {
                old(self)@.offset + bytes
            } else {
                old(self)@.offset as int
            },
            final(self)@.file_lines == if appended {
                old(self)@.file_lines + old(self)@.unwritten
            } else {
                old(self)@.file_lines
            },
            r == (final(self)@.file_lines > 2 * file_limit_spec(detail)),
    {
        proof {
            use_type_invariant(&*self);
        }
        if appended {
            self.offset = self.offset + bytes;
            self.file_lines = self.file_lines + self.unwritten;
        }
        self.unwritten = 0;
        self.file_lines > 2 * file_limit(detail)
    }

    /// The file was written afresh with its last lines: now it is this long.
    pub fn shortened(&mut self, length: u64, lines: usize)
        ensures
            final(self)@ == (LogsView { offset: length as nat, file_lines: lines as nat, ..old(self)@ }),
    {
        proof {
            use_type_invariant(&*self);
        }
        self.offset = length;
        self.file_lines = lines;
    }
}

/// A window that has seen every line gets exactly the next one, as long as
/// the tab had room for it; one that fell behind further than the tab holds
/// is told the number before the first line it gets, so that it knows what
/// it lost.
pub proof fn law_a_page_holds_what_came_since(l: LogsView, line: LogLineView, after: nat)
    requires
        l.entries.len() <= l.sequence,
        l.entries.len() <= LOG_LIMIT,
    ensures
        l.entries.len() < LOG_LIMIT ==> page_spec(pushed(l, line), l.sequence) == (
            l.sequence,
            seq![line],
        ),
        after < first_number(pushed(l, line)) ==> page_spec(pushed(l, line), after).0 > after,
        page_spec(pushed(l, line), pushed(l, line).sequence) == (
            pushed(l, line).sequence,
            Seq::<LogLineView>::empty(),
        ),
{
    let n = pushed(l, line);
    if l.entries.len() < LOG_LIMIT {
        assert(n.entries == l.entries.push(line));
        assert(n.entries.skip(l.entries.len() as int) =~= seq![line]);
    }
    assert(n.entries.skip(n.entries.len() as int) =~= Seq::<LogLineView>::empty());
}

/// Every line logged is counted, whether or not the tab still holds it: after
/// any number of lines the last number has grown by that many, and the tab
/// holds the last of all its lines, as many as fit. From a cleared log, `n`
/// lines leave the number at `n` and the last `min(n, LOG_LIMIT)` of them in
/// the tab.
pub proof fn law_every_line_is_counted(l: LogsView, lines: Seq<LogLineView>)
    requires
        l.entries.len() <= LOG_LIMIT,
    ensures
        pushes(l, lines).sequence == l.sequence + lines.len(),
        pushes(l, lines).entries == kept(l.entries + lines),
        pushes(l, lines).entries.len() == min((l.entries.len() + lines.len()) as nat, LOG_LIMIT as nat),
    decreases lines.len(),
{
    if lines.len() > 0 {
        let init = lines.drop_last();
        law_every_line_is_counted(l, init);
        let all = l.entries + init;
        let before = kept(all);
        assert(l.entries + lines =~= all.push(lines.last()));
        if all.len() >= LOG_LIMIT {
            assert(before.push(lines.last()).skip(1) =~= all.push(lines.last()).skip(
                all.len() + 1 - LOG_LIMIT,
            ));
        } else {
            assert(before =~= all);
        }
    }
}

/// Since the log was made or last cleared, with no line from another process,
/// the number of the last line is the number of lines logged, and the tab
/// holds the last of them, as many as fit.
pub proof fn law_a_fresh_log_numbers_its_lines(l: LogsView, lines: Seq<LogLineView>)
    requires
        l.entries.len() == 0,
        l.sequence == 0,
    ensures
        pushes(l, lines).sequence == lines.len(),
        pushes(l, lines).entries.len() == min(lines.len(), LOG_LIMIT as nat),
        pushes(l, lines).entries == kept(lines),
{
    law_every_line_is_counted(l, lines);
    assert(l.entries + lines =~= lines);
}

} // verus!
