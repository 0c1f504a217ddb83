//! The browser integration: a `ksip:` link reaches the running app through a
//! named pipe, and the command it carries is read from the link.
use vstd::prelude::*;
use crate::storage::Store;
use crate::text::{chars_of, extend, string_of, trim, trim_str};

verus! {

/// The name of the pipe the running app listens on: one per profile.
pub open spec fn pipe_name_spec(target: Seq<char>) -> Seq<char> {
    "\\\\.\\pipe\\"@ + target.map_values(|c: char| if c == '/' { '_' } else { c })
}

/// The browser hands a `ksip:` link to a new process. That process passes the
/// command to the one already running through this pipe, then exits.
pub fn pipe_name(store: &Store) -> (r: String)
    ensures
        r@ == pipe_name_spec(store.target@),
{
    let t = chars_of(store.target.as_str());
    let mut out = chars_of("\\\\.\\pipe\\");
    let ghost head = out@;
    let mut i: usize = 0;
    while i < t.len()
        invariant
            i <= t.len(),
            t@ == store.target@,
            out@ == head + store.target@.take(i as int).map_values(
                |c: char| if c == '/' { '_' } else { c },
            ),
        decreases t.len() - i,
    {
        out.push(if t[i] == '/' { '_' } else { t[i] });
        assert(out@ =~= head + store.target@.take(i + 1).map_values(
            |c: char| if c == '/' { '_' } else { c },
        ));
        i += 1;
    }
    assert(store.target@.take(t.len() as int) =~= store.target@);
    string_of(&out)
}

/// The text without every copy of `p` in front of it, as
/// `str::trim_start_matches` has it.
pub open spec fn without_prefixes(s: Seq<char>, p: Seq<char>) -> Seq<char>
    decreases s.len(),
{
    if p.len() > 0 && p.is_prefix_of(s) {
        without_prefixes(s.skip(p.len() as int), p)
    } else {
        s
    }
}

/// The text without the `/` at its end, however many there are.
pub open spec fn without_trailing_slashes(s: Seq<char>) -> Seq<char>
    decreases s.len(),
{
    if s.len() > 0 && s.last() == '/' {
        without_trailing_slashes(s.drop_last())
    } else {
        s
    }
}

/// The separators a number written for people carries.
pub open spec fn is_link_separator(c: char) -> bool {
    c == '-' || c == ' ' || c == '(' || c == ')' || c == '.'
}

pub open spec fn without_link_separators(s: Seq<char>) -> Seq<char>
    decreases s.len(),
{
    if s.len() == 0 {
        s
    } else if is_link_separator(s.last()) {
        without_link_separators(s.drop_last())
    } else {
        without_link_separators(s.drop_last()).push(s.last())
    }
}

/// The command a link carries.
pub open spec fn command_spec(argument: Seq<char>) -> Seq<char> {
    let v = without_prefixes(trim(argument), "/ksip="@);
    let v = without_prefixes(v, "ksip:"@);
    let v = without_prefixes(v, "//"@);
    without_link_separators(without_trailing_slashes(v))
}

/// `v` without every copy of `p` in front of it.
fn strip_prefixes(v: Vec<char>, p: &str) -> (r: Vec<char>)
    ensures
        r@ == without_prefixes(v@, p@),
    decreases v@.len(),
{
    let pv = chars_of(p);
    if pv.len() > 0 && crate::text::starts(&v, &pv) {
        let rest = crate::text::slice(&v, pv.len(), v.len());
        assert(rest@ =~= v@.skip(p@.len() as int));
        strip_prefixes(rest, p)
    } else {
        v
    }
}

/// The command carried by a link, in the form the other side understands.
/// `/ksip=123456789`, `ksip:123456789` and `123456789` all mean the same.
pub fn command_from(argument: &str) -> (r: String)
    ensures
        r@ == command_spec(argument@),
{
    let v = chars_of(trim_str(argument));
    let v = strip_prefixes(v, "/ksip=");
    let v = strip_prefixes(v, "ksip:");
    let v = strip_prefixes(v, "//");
    let mut end: usize = v.len();
    assert(v@.take(v.len() as int) =~= v@);
    while end > 0 && v[end - 1] == '/'
        invariant
            end <= v.len(),
            without_trailing_slashes(v@) == without_trailing_slashes(v@.take(end as int)),
        decreases end,
    {
        assert(v@.take(end as int).drop_last() =~= v@.take(end - 1));
        end -= 1;
    }
    // A number written for people can carry separators; the dialler wants none.
    let mut out: Vec<char> = Vec::new();
    let mut i: usize = 0;
    while i < end
        invariant
            i <= end <= v.len(),
            out@ == without_link_separators(v@.take(i as int)),
        decreases end - i,
    {
        assert(v@.take(i + 1).drop_last() =~= v@.take(i as int));
        let c = v[i];
        if !(c == '-' || c == ' ' || c == '(' || c == ')' || c == '.') {
            out.push(c);
        }
        i += 1;
    }
    assert(v@.take(end as int).take(end as int) =~= v@.take(end as int));
    string_of(&out)
}

// ---------------------------------------------------------------------
// What a link asks for
// ---------------------------------------------------------------------

/// What a `ksip:` link asks the running app to do.
#[derive(PartialEq, Eq, Debug)]
pub enum Link {
    /// `ksip:SHOWWINDOW`: the window comes to the front.
    ShowWindow,
    /// `ksip:APP_QUIT`: the app ends.
    Quit,
    /// `ksip:ANSWER`: the ringing call is answered.
    Answer,
    /// `ksip:HANGUP`: the selected call is ended.
    Hangup,
    /// Anything else is a number or a SIP URI to call, as the link wrote it.
    Dial(String),
}

pub enum LinkView {
    ShowWindow,
    Quit,
    Answer,
    Hangup,
    Dial(Seq<char>),
}

pub open spec fn link_view(l: Link) -> LinkView {
    match l {
        Link::ShowWindow => LinkView::ShowWindow,
        Link::Quit => LinkView::Quit,
        Link::Answer => LinkView::Answer,
        Link::Hangup => LinkView::Hangup,
        Link::Dial(t) => LinkView::Dial(t@),
    }
}

/// Whether an argument is a link: the browser's `ksip:…`, or the form the
/// registered command hands over, `/ksip=ksip:…`.
pub open spec fn is_link_spec(argument: Seq<char>) -> bool {
    let t = trim(argument);
    "ksip:"@.is_prefix_of(t) || "/ksip="@.is_prefix_of(t)
}

pub open spec fn is_hex(c: char) -> bool {
    ('0' <= c && c <= '9') || ('a' <= c && c <= 'f') || ('A' <= c && c <= 'F')
}

pub open spec fn hex_value(c: char) -> nat {
    if '0' <= c && c <= '9' {
        (c as nat - '0' as nat) as nat
    } else if 'a' <= c && c <= 'f' {
        (c as nat - 'a' as nat + 10) as nat
    } else {
        (c as nat - 'A' as nat + 10) as nat
    }
}

/// Whether the text starts with the escape of an ASCII character, such as
/// the `%20` and `%23` a browser writes for a space and a `#`.
pub open spec fn ascii_escape_at(s: Seq<char>) -> bool {
    s.len() >= 3 && s[0] == '%' && is_hex(s[1]) && is_hex(s[2]) && hex_value(s[1]) < 8
}

/// The text with the escapes of ASCII characters turned back into them;
/// anything else stays as it was written.
pub open spec fn unescaped(s: Seq<char>) -> Seq<char>
    decreases s.len(),
{
    if s.len() == 0 {
        s
    } else if ascii_escape_at(s) {
        seq![((hex_value(s[1]) * 16 + hex_value(s[2])) as u32) as char] + unescaped(s.skip(3))
    } else {
        seq![s[0]] + unescaped(s.skip(1))
    }
}

/// What a link carries once its scheme and the browser's escapes are gone.
pub open spec fn link_text(argument: Seq<char>) -> Seq<char> {
    let v = without_prefixes(trim(argument), "/ksip="@);
    let v = without_prefixes(v, "ksip:"@);
    let v = without_prefixes(v, "//"@);
    unescaped(without_trailing_slashes(v))
}

/// What a link asks for: one of the four command words, written in upper
/// case, or else something to call.
pub open spec fn link_spec(argument: Seq<char>) -> LinkView {
    let t = link_text(argument);
    if t == "SHOWWINDOW"@ {
        LinkView::ShowWindow
    } else if t == "APP_QUIT"@ {
        LinkView::Quit
    } else if t == "ANSWER"@ {
        LinkView::Answer
    } else if t == "HANGUP"@ {
        LinkView::Hangup
    } else {
        LinkView::Dial(t)
    }
}

pub fn is_link(argument: &str) -> (r: bool)
    ensures
        r == is_link_spec(argument@),
{
    let t = chars_of(trim_str(argument));
    crate::text::starts(&t, &chars_of("ksip:")) || crate::text::starts(&t, &chars_of("/ksip="))
}

fn hex_digit(c: char) -> (r: Option<u32>)
    ensures
        r matches Some(v) ==> is_hex(c) && v == hex_value(c),
        r is None ==> !is_hex(c),
{
    if '0' <= c && c <= '9' {
        Some(c as u32 - '0' as u32)
    } else if 'a' <= c && c <= 'f' {
        Some(c as u32 - 'a' as u32 + 10)
    } else if 'A' <= c && c <= 'F' {
        Some(c as u32 - 'A' as u32 + 10)
    } else {
        None
    }
}

fn ascii_char(v: u32) -> (r: char)
    requires
        v < 128,
    ensures
        r == (v as char),
{
    (v as u8) as char
}

/// The text with the escapes of ASCII characters turned back into them.
fn unescape(v: &Vec<char>) -> (r: Vec<char>)
    ensures
        r@ == unescaped(v@),
{
    let mut out: Vec<char> = Vec::new();
    let mut i: usize = 0;
    assert(v@.skip(0) =~= v@);
    while i < v.len()
        invariant
            i <= v.len(),
            out@ + unescaped(v@.skip(i as int)) == unescaped(v@),
        decreases v.len() - i,
    {
        let rest = Ghost(v@.skip(i as int));
        let mut taken = false;
        if v[i] == '%' && v.len() - i > 2 {
            match (hex_digit(v[i + 1]), hex_digit(v[i + 2])) {
                (Some(high), Some(low)) => {
                    if high < 8 {
                        assert(ascii_escape_at(rest@));
                        let c = ascii_char(high * 16 + low);
                        let ghost before = out@;
                        out.push(c);
                        assert(rest@.skip(3) =~= v@.skip(i + 3));
                        assert(out@ + unescaped(v@.skip(i + 3)) =~= before + unescaped(rest@));
                        i += 3;
                        taken = true;
                    }
                },
                _ => {},
            }
        }
        if !taken {
            proof {
                if ascii_escape_at(rest@) {
                    assert(false);
                }
            }
            let ghost before = out@;
            out.push(v[i]);
            assert(rest@.skip(1) =~= v@.skip(i + 1));
            assert(out@ + unescaped(v@.skip(i + 1)) =~= before + unescaped(rest@));
            i += 1;
        }
    }
    assert(v@.skip(v.len() as int) =~= Seq::<char>::empty());
    assert(out@ + Seq::<char>::empty() =~= out@);
    out
}

/// What a link asks for. The browser writes a space as `%20` and a `#` as
/// `%23`; they are read back before the link is.
pub fn parse(link: &str) -> (r: Link)
    ensures
        link_view(r) == link_spec(link@),
{
    let v = chars_of(trim_str(link));
    let v = strip_prefixes(v, "/ksip=");
    let v = strip_prefixes(v, "ksip:");
    let v = strip_prefixes(v, "//");
    let mut end: usize = v.len();
    assert(v@.take(v.len() as int) =~= v@);
    while end > 0 && v[end - 1] == '/'
        invariant
            end <= v.len(),
            without_trailing_slashes(v@) == without_trailing_slashes(v@.take(end as int)),
        decreases end,
    {
        assert(v@.take(end as int).drop_last() =~= v@.take(end - 1));
        end -= 1;
    }
    let kept = crate::text::slice(&v, 0, end);
    assert(kept@ =~= v@.take(end as int));
    assert(without_trailing_slashes(v@.take(end as int)) == v@.take(end as int));
    let text = string_of(&unescape(&kept));
    let t = text.as_str();
    if crate::text::is(t, "SHOWWINDOW") {
        Link::ShowWindow
    } else if crate::text::is(t, "APP_QUIT") {
        Link::Quit
    } else if crate::text::is(t, "ANSWER") {
        Link::Answer
    } else if crate::text::is(t, "HANGUP") {
        Link::Hangup
    } else {
        Link::Dial(text)
    }
}

} // verus!
