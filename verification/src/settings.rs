//! The settings a person or a group policy makes, the buttons among them,
//! and the rules the settings are held to before the engine gets them.
use vstd::prelude::*;
use crate::message::{message, str_views};
use crate::native::{Adapter, address_for};
use crate::shortcuts::{parse_settings, shortcuts_of};
use crate::text::{
    all_ascii, byte_len, byte_length, chars_of, decimal, extend_str, has_control, is_control,
    is_digit, lower, lower_char, lowered, opt_view, push_decimal, split, split_chars, starts, string_of,
    sub_str, text_result, trim, trim_str,
};

verus! {

// ---------------------------------------------------------------------
// Addresses and numbers
// ---------------------------------------------------------------------

/// What the engine is given for a text: the text without white space around
/// it, and without the angle brackets a Refer-To header puts around a URI.
pub open spec fn address_of(text: Seq<char>) -> Seq<char> {
    let t = trim(text);
    if t.len() >= 2 && t[0] == '<' && t[t.len() - 1] == '>' {
        trim(t.subrange(1, t.len() - 1))
    } else {
        t
    }
}

/// Whether the text names a SIP URI rather than a number.
pub open spec fn is_uri_spec(text: Seq<char>) -> bool {
    let l = lower(address_of(text));
    "sip:"@.is_prefix_of(l) || "sips:"@.is_prefix_of(l)
}

/// The visual separators a person writes into a number.
pub open spec fn is_separator(c: char) -> bool {
    c == '-' || c == '.' || c == '(' || c == ')' || c == ' '
}

/// The number without its visual separators.
pub open spec fn without_separators(s: Seq<char>) -> Seq<char>
    decreases s.len(),
{
    if s.len() == 0 {
        s
    } else if is_separator(s.last()) {
        without_separators(s.drop_last())
    } else {
        without_separators(s.drop_last()).push(s.last())
    }
}

/// The characters of one line of visible ASCII.
pub open spec fn is_visible(c: char) -> bool {
    '!' <= c && c <= '~'
}

/// What a registrar dials: digits, `*` and `#`.
pub open spec fn is_dial_char(c: char) -> bool {
    is_digit(c) || c == '*' || c == '#'
}

/// Whether the text starts with the `tel:` of RFC 3966, in any case.
pub open spec fn has_tel(a: Seq<char>) -> bool {
    a.len() >= 4 && lower_char(a[0]) == 't' && lower_char(a[1]) == 'e' && lower_char(a[2]) == 'l'
        && a[3] == ':'
}

/// A number without the `tel:` in front of it, if it has one: RFC 3966
/// writes a number either way.
pub open spec fn without_tel(a: Seq<char>) -> Seq<char> {
    if has_tel(a) {
        a.skip(4)
    } else {
        a
    }
}

/// A number without the `+` in front of it, if it has one.
pub open spec fn digits_part(number: Seq<char>) -> Seq<char> {
    if number.len() > 0 && number[0] == '+' {
        number.drop_first()
    } else {
        number
    }
}

/// What the registrar is asked to call for a text, or why it cannot be.
pub open spec fn dial_result(text: Seq<char>) -> Result<Seq<char>, Seq<char>> {
    let a = address_of(text);
    if is_uri_spec(a) {
        if byte_len(a) <= 200 && forall|i: int| 0 <= i < a.len() ==> is_visible(#[trigger] a[i]) {
            Ok(a)
        } else {
            Err("DIAL_TARGET_INVALID"@)
        }
    } else {
        let number = without_separators(without_tel(a));
        let digits = digits_part(number);
        if digits.len() == 0 || byte_len(number) > 30 || !(forall|i: int|
            0 <= i < digits.len() ==> is_dial_char(#[trigger] digits[i])) {
            Err("DIAL_TARGET_INVALID"@)
        } else {
            Ok(number)
        }
    }
}

/// A button's number is kept the way the registrar dials it; an empty one is unused.
pub open spec fn target_ok_spec(text: Seq<char>) -> bool {
    let a = address_of(text);
    a.len() == 0 || dial_result(a) == Ok::<Seq<char>, Seq<char>>(a)
}

/// A web address for the `open` kind.
pub open spec fn link_ok_spec(text: Seq<char>) -> bool {
    let t = trim(text);
    let l = lower(t);
    &&& ("http://"@.is_prefix_of(l) || "https://"@.is_prefix_of(l))
    &&& byte_len(t) <= 500
    &&& forall|i: int| 0 <= i < t.len() ==> !is_control(#[trigger] t[i]) && t[i] != ' '
}

/// The number without its visual separators.
fn strip_separators(v: &[char]) -> (r: Vec<char>)
    ensures
        r@ == without_separators(v@),
{
    let mut r: Vec<char> = Vec::new();
    let mut i: usize = 0;
    while i < v.len()
        invariant
            i <= v.len(),
            r@ == without_separators(v@.take(i as int)),
        decreases v.len() - i,
    {
        let c = v[i];
        assert(v@.take(i + 1).drop_last() =~= v@.take(i as int));
        if !(c == '-' || c == '.' || c == '(' || c == ')' || c == ' ') {
            r.push(c);
        }
        i += 1;
    }
    assert(v@.take(v.len() as int) =~= v@);
    r
}

/// What the registrar is asked to call. A SIP URI is taken as written, one
/// line of visible ASCII, which is all a SIP URI ever is. A number is reduced
/// to what the registrar dials: a `tel:` in front and the visual separators
/// of RFC 3966 (`-`, `.`, `(`, `)`) and spaces go, and what is left has to
/// be digits, `*` and `#`, with `+` only in front. Letters are not a number; a name is written as a URI.
pub fn dial_target(text: &str) -> (r: Result<String, String>)
    ensures
        text_result(r) == dial_result(text@),
{
    let address = CustomButton::address(text);
    if CustomButton::is_uri(address) {
        let v = chars_of(address);
        let mut ok = byte_length(address) <= 200;
        let mut i: usize = 0;
        while i < v.len()
            invariant
                i <= v.len(),
                v@ == address@,
                ok == (byte_len(address@) <= 200 && forall|j: int|
                    0 <= j < i ==> is_visible(#[trigger] address@[j])),
            decreases v.len() - i,
        {
            if !('!' <= v[i] && v[i] <= '~') {
                ok = false;
            }
            i += 1;
        }
        if ok {
            return Ok(string_of(&v));
        }
        return Err(message("DIAL_TARGET_INVALID"));
    }
    let v = chars_of(address);
    let ghost a = address@;
    let v = if v.len() >= 4 && (v[0] == 't' || v[0] == 'T') && (v[1] == 'e' || v[1] == 'E') && (
    v[2] == 'l' || v[2] == 'L') && v[3] == ':' {
        assert(has_tel(a));
        let rest = crate::text::slice(&v, 4, v.len());
        assert(rest@ =~= without_tel(a));
        rest
    } else {
        assert(!has_tel(a));
        v
    };
    assert(v@ == without_tel(address@));
    let number = strip_separators(&v);
    let start: usize = if number.len() > 0 && number[0] == '+' {
        1
    } else {
        0
    };
    let mut ok = number.len() > start && byte_length(string_of(&number).as_str()) <= 30;
    let mut i: usize = start;
    let ghost digits = digits_part(number@);
    assert(digits =~= number@.skip(start as int));
    while i < number.len()
        invariant
            start <= i <= number.len(),
            digits == number@.skip(start as int),
            digits == digits_part(number@),
            ok ==> digits.len() > 0 && byte_len(number@) <= 30,
            ok ==> forall|j: int| 0 <= j < i - start ==> is_dial_char(#[trigger] digits[j]),
            !ok ==> (digits.len() == 0 || byte_len(number@) > 30 || exists|j: int|
                0 <= j < digits.len() && !is_dial_char(#[trigger] digits[j])),
        decreases number.len() - i,
    {
        let c = number[i];
        if !(('0' <= c && c <= '9') || c == '*' || c == '#') {
            assert(!is_dial_char(digits[i - start]));
            ok = false;
        }
        i += 1;
    }
    if ok {
        Ok(string_of(&number))
    } else {
        Err(message("DIAL_TARGET_INVALID"))
    }
}

proof fn lemma_trim_without_space(s: Seq<char>)
    requires
        forall|i: int| 0 <= i < s.len() ==> !crate::text::is_space(#[trigger] s[i]),
    ensures
        trim(s) == s,
{
    crate::text::lemma_trim_start(s, 0);
    assert(s.skip(0) =~= s);
    crate::text::lemma_trim_end(s, s.len() as int);
    assert(s.take(s.len() as int) =~= s);
}

proof fn lemma_without_separators_kept(s: Seq<char>)
    requires
        forall|i: int| 0 <= i < s.len() ==> !is_separator(#[trigger] s[i]),
    ensures
        without_separators(s) == s,
    decreases s.len(),
{
    if s.len() > 0 {
        let t = s.drop_last();
        assert forall|i: int| 0 <= i < t.len() implies !is_separator(#[trigger] t[i]) by {
            assert(t[i] == s[i]);
        }
        lemma_without_separators_kept(t);
        assert(t.push(s.last()) =~= s);
    }
}

/// What the registrar is asked to call is itself dialled as it stands: a
/// second pass over it gives it back unchanged, so a button that holds it
/// passes the rules. The one exception is a target still in angle brackets,
/// which only a text in two pairs of them gives.
pub proof fn law_a_dial_target_dials_itself(text: Seq<char>, target: Seq<char>)
    requires
        dial_result(text) == Ok::<Seq<char>, Seq<char>>(target),
        !(target.len() >= 2 && target[0] == '<' && target[target.len() - 1] == '>'),
    ensures
        dial_result(target) == Ok::<Seq<char>, Seq<char>>(target),
        target_ok_spec(target),
{
    let a = address_of(text);
    if is_uri_spec(a) {
        assert(target == a);
        lemma_trim_without_space(target);
        assert(address_of(target) == target);
    } else {
        let number = without_separators(without_tel(a));
        let digits = digits_part(number);
        assert(target == number);
        assert forall|i: int| 0 <= i < number.len() implies (number[i] == '+' && i == 0)
            || is_dial_char(#[trigger] number[i]) by {
            if number[0] == '+' {
                if i > 0 {
                    assert(number[i] == digits[i - 1]);
                }
            } else {
                assert(number[i] == digits[i]);
            }
        }
        assert forall|i: int| 0 <= i < number.len() implies !crate::text::is_space(
            #[trigger] number[i],
        ) && !is_separator(number[i]) by {
            assert((number[i] == '+' && i == 0) || is_dial_char(number[i]));
        }
        lemma_trim_without_space(number);
        assert((number[0] == '+' && 0 == 0) || is_dial_char(number[0]));
        assert(address_of(number) == number);
        assert(lower(number)[0] == crate::text::lower_char(number[0]));
        assert(lower(number)[0] != 's');
        reveal_strlit("sip:");
        reveal_strlit("sips:");
        if "sip:"@.is_prefix_of(lower(number)) {
            assert(lower(number)[0] == "sip:"@[0]);
        }
        if "sips:"@.is_prefix_of(lower(number)) {
            assert(lower(number)[0] == "sips:"@[0]);
        }
        assert(!is_uri_spec(number));
        lemma_without_separators_kept(number);
    }
}

// ---------------------------------------------------------------------
// Buttons
// ---------------------------------------------------------------------

/// One of the buttons a site defines: what it says, what it does and to
/// which numbers. The number is the one the button is about: watched (BLF),
/// dialled, transferred to, or, for a link, opened. The two others refine
/// what happens around it and fall back to it when left empty.
#[derive(Debug, PartialEq)]
pub struct CustomButton {
    pub title: String,
    /// Empty (unused), `transfer`, `dial` (watched), `speed` (dialled,
    /// not watched), `park`, `open`, `dnd` (do not disturb) or `mwi`
    /// (voice mail).
    pub kind: String,
    pub number: String,
    /// For `park`: where the call in progress is sent while the watched
    /// number is free, when that differs, as with Asterisk's `*701`.
    pub transfer: String,
    /// For `dial` and `park`: what is called while the watched number is in
    /// use, when that differs: a pickup code such as Asterisk's `*8701`.
    pub pickup: String,
}

/// A button with nothing set.
pub open spec fn unused_button(b: CustomButton) -> bool {
    b.title@.len() == 0 && b.kind@.len() == 0 && b.number@.len() == 0 && b.transfer@.len() == 0
        && b.pickup@.len() == 0
}

/// The kinds a button can have.
pub open spec fn is_kind(k: Seq<char>) -> bool {
    k == "transfer"@ || k == "dial"@ || k == "speed"@ || k == "park"@ || k == "open"@ || k == "dnd"@
        || k == "mwi"@
}

/// What a button's number has to be for its kind: a web address for `open`;
/// anything the registrar can be asked to call for `speed`, separators and
/// a `tel:` included; for `dnd`, which uses no number, and for an unused
/// button, nothing or a number kept the way the registrar dials it; for the
/// rest, such a number, and not an empty one.
pub open spec fn number_ok_spec(b: CustomButton) -> bool {
    if b.kind@ == "open"@ {
        link_ok_spec(b.number@)
    } else if b.kind@ == "speed"@ {
        dial_result(b.number@) is Ok
    } else if b.kind@ == "dnd"@ || b.kind@.len() == 0 {
        target_ok_spec(b.number@)
    } else {
        target_ok_spec(b.number@) && address_of(b.number@).len() > 0
    }
}

pub open spec fn watches_spec(b: CustomButton) -> bool {
    b.kind@ == "dial"@ || b.kind@ == "park"@
}

pub open spec fn link_target_spec(b: CustomButton) -> Option<Seq<char>> {
    if b.kind@ == "open"@ {
        Some(trim(b.number@))
    } else {
        None
    }
}

pub open spec fn dial_target_spec(b: CustomButton) -> Option<Seq<char>> {
    if watches_spec(b) {
        Some(address_of(b.number@))
    } else {
        None
    }
}

pub open spec fn transfer_target_spec(b: CustomButton) -> Option<Seq<char>> {
    if b.kind@ == "transfer"@ {
        Some(address_of(b.number@))
    } else if b.kind@ == "park"@ {
        if address_of(b.transfer@).len() == 0 {
            Some(address_of(b.number@))
        } else {
            Some(address_of(b.transfer@))
        }
    } else {
        None
    }
}

pub open spec fn pickup_target_spec(b: CustomButton) -> Option<Seq<char>> {
    if !watches_spec(b) {
        None
    } else if address_of(b.pickup@).len() == 0 {
        Some(address_of(b.number@))
    } else {
        Some(address_of(b.pickup@))
    }
}

impl Default for CustomButton {
    fn default() -> (r: Self)
        ensures
            unused_button(r),
    {
        CustomButton {
            title: String::new(),
            kind: String::new(),
            number: String::new(),
            transfer: String::new(),
            pickup: String::new(),
        }
    }
}

impl CustomButton {
    /// The first six sit on the phone; the rest fill the panel beside it,
    /// which appears while any of them is set.
    pub const MAIN: usize = 6;
    pub const COUNT: usize = 30;

    /// The same button, field by field.
    pub fn copy(&self) -> (r: Self)
        ensures
            r == *self,
    {
        CustomButton {
            title: self.title.clone(),
            kind: self.kind.clone(),
            number: self.number.clone(),
            transfer: self.transfer.clone(),
            pickup: self.pickup.clone(),
        }
    }

    /// The full set, every button unused.
    pub fn empty_set() -> (r: Vec<Self>)
        ensures
            r@.len() == Self::COUNT,
            forall|i: int| 0 <= i < r@.len() ==> unused_button(#[trigger] r@[i]),
    {
        let mut r: Vec<Self> = Vec::new();
        while r.len() < Self::COUNT
            invariant
                r@.len() <= Self::COUNT,
                forall|i: int| 0 <= i < r@.len() ==> unused_button(#[trigger] r@[i]),
            decreases Self::COUNT - r@.len(),
        {
            r.push(Self::default());
        }
        r
    }

    /// Whether the button is shown at all.
    pub fn configured(&self) -> (r: bool)
        ensures
            r == (self.kind@.len() > 0),
    {
        chars_of(self.kind.as_str()).len() > 0
    }

    /// Whether the engine subscribes to the number's dialog state.
    pub fn watches(&self) -> (r: bool)
        ensures
            r == watches_spec(*self),
    {
        let k = self.kind.as_str();
        crate::text::is(k, "dial") || crate::text::is(k, "park")
    }

    /// What the engine is given: a number, or a full SIP URI. A URI may be
    /// written between angle brackets, as a Refer-To header carries it; the
    /// engine's library wants it bare, so the brackets go here.
    pub fn address(text: &str) -> (r: &str)
        ensures
            r@ == address_of(text@),
    {
        let t = trim_str(text);
        let v = chars_of(t);
        if v.len() >= 2 && v[0] == '<' && v[v.len() - 1] == '>' {
            trim_str(sub_str(t, 1, v.len() - 1))
        } else {
            t
        }
    }

    /// Whether the text names a SIP URI rather than a number for the registrar.
    pub fn is_uri(text: &str) -> (r: bool)
        ensures
            r == is_uri_spec(text@),
    {
        let l = lowered(&chars_of(Self::address(text)));
        starts(&l, &chars_of("sip:")) || starts(&l, &chars_of("sips:"))
    }

    /// A button holds its number the way the registrar dials it, so that what
    /// the engine watches is what the button says; an empty one is unused.
    pub fn target_ok(text: &str) -> (r: bool)
        ensures
            r == target_ok_spec(text@),
    {
        let address = Self::address(text);
        if chars_of(address).len() == 0 {
            return true;
        }
        match dial_target(address) {
            Ok(target) => crate::text::is(target.as_str(), address),
            Err(_) => false,
        }
    }

    /// A web address for the `open` kind: the browser gets it, nothing else does.
    pub fn link_ok(text: &str) -> (r: bool)
        ensures
            r == link_ok_spec(text@),
    {
        let t = trim_str(text);
        let v = chars_of(t);
        let l = lowered(&v);
        if !(starts(&l, &chars_of("http://")) || starts(&l, &chars_of("https://"))) {
            return false;
        }
        if byte_length(t) > 500 {
            return false;
        }
        let mut i: usize = 0;
        while i < v.len()
            invariant
                i <= v.len(),
                v@ == t@,
                t@ == trim(text@),
                ("http://"@.is_prefix_of(lower(t@)) || "https://"@.is_prefix_of(lower(t@))),
                byte_len(t@) <= 500,
                forall|j: int| 0 <= j < i ==> !is_control(#[trigger] v@[j]) && v@[j] != ' ',
            decreases v.len() - i,
        {
            if crate::text::control(v[i]) || v[i] == ' ' {
                return false;
            }
            i += 1;
        }
        true
    }

    /// The web address an `open` button opens.
    pub fn link_target(&self) -> (r: Option<&str>)
        ensures
            opt_view(r) == link_target_spec(*self),
    {
        if crate::text::is(self.kind.as_str(), "open") {
            Some(trim_str(self.number.as_str()))
        } else {
            None
        }
    }

    /// The address the engine watches and calls, for the kinds that do so.
    pub fn dial_target(&self) -> (r: Option<&str>)
        ensures
            opt_view(r) == dial_target_spec(*self),
    {
        if self.watches() {
            Some(Self::address(self.number.as_str()))
        } else {
            None
        }
    }

    /// Where a call in progress goes when the button is pressed, if anywhere.
    pub fn transfer_target(&self) -> (r: Option<&str>)
        ensures
            opt_view(r) == transfer_target_spec(*self),
    {
        let k = self.kind.as_str();
        if crate::text::is(k, "transfer") {
            Some(Self::address(self.number.as_str()))
        } else if crate::text::is(k, "park") {
            let transfer = Self::address(self.transfer.as_str());
            if chars_of(transfer).len() == 0 {
                Some(Self::address(self.number.as_str()))
            } else {
                Some(transfer)
            }
        } else {
            None
        }
    }

    /// What is called while the watched number is in use, for the kinds
    /// that watch one.
    pub fn pickup_target(&self) -> (r: Option<&str>)
        ensures
            opt_view(r) == pickup_target_spec(*self),
    {
        if !self.watches() {
            return None;
        }
        let pickup = Self::address(self.pickup.as_str());
        if chars_of(pickup).len() == 0 {
            Some(Self::address(self.number.as_str()))
        } else {
            Some(pickup)
        }
    }
}


// ---------------------------------------------------------------------
// The settings
// ---------------------------------------------------------------------

pub struct Settings {
    pub network_adapter: String,
    pub sip_port: u16,
    pub rtp_port: u16,
    pub microphone: String,
    pub speaker: String,
    pub microphone_gain: u16,
    pub speaker_gain: u16,
    pub auto_record: bool,
    /// The buttons under the call controls, in the order they are shown.
    pub buttons: Vec<CustomButton>,
    pub transport: String,
    pub ca_file: String,
    pub media_encryption: String,
    /// The audio codecs to offer, comma-separated, in the order of
    /// preference; empty offers all of them in their usual order.
    pub codecs: String,
    pub auto_answer: bool,
    pub aec: bool,
    pub aec_delay_ms: u16,
    pub register_interval: u16,
    pub detail_log: bool,
    pub browser_integration: bool,
    pub browser_dial_confirm: bool,
    pub shortcut_window: String,
    pub shortcut_call: String,
    pub incoming_action: String,
    /// Seconds after the last call ends before the window goes to the tray;
    /// -1 leaves the window where it is.
    pub tray_after_call: i32,
    pub language: String,
    pub sound_ring: String,
    pub sound_ringback: String,
    pub sound_callwaiting: String,
    pub sound_busy: String,
    pub sound_notfound: String,
    pub sound_error: String,
}

/// The settings a new installation starts with.
pub open spec fn is_default(s: Settings) -> bool {
    &&& s.network_adapter@.len() == 0
    &&& s.sip_port == 5060
    &&& s.rtp_port == 10000
    &&& s.microphone@ == "default"@
    &&& s.speaker@ == "default"@
    &&& s.microphone_gain == 100
    &&& s.speaker_gain == 100
    &&& !s.auto_record
    &&& s.buttons@.len() == CustomButton::COUNT
    &&& forall|i: int| 0 <= i < s.buttons@.len() ==> unused_button(#[trigger] s.buttons@[i])
    &&& !s.auto_answer
    &&& s.aec
    &&& s.aec_delay_ms == 20
    &&& s.register_interval == 300
    &&& !s.detail_log
    &&& !s.browser_integration
    &&& s.browser_dial_confirm
    &&& s.shortcut_window@.len() == 0
    &&& s.shortcut_call@.len() == 0
    &&& s.incoming_action@ == "show"@
    &&& s.tray_after_call == -1
    &&& s.language@.len() == 0
    &&& s.sound_ring@.len() == 0
    &&& s.sound_ringback@.len() == 0
    &&& s.sound_callwaiting@.len() == 0
    &&& s.sound_busy@.len() == 0
    &&& s.sound_notfound@.len() == 0
    &&& s.sound_error@.len() == 0
    &&& s.transport@.len() == 0
    &&& s.ca_file@.len() == 0
    &&& s.media_encryption@.len() == 0
    &&& s.codecs@.len() == 0
}

impl Default for Settings {
    fn default() -> (r: Self)
        ensures
            is_default(r),
    {
        Settings {
            network_adapter: String::new(),
            sip_port: 5060,
            rtp_port: 10000,
            microphone: crate::text::owned("default"),
            speaker: crate::text::owned("default"),
            microphone_gain: 100,
            speaker_gain: 100,
            auto_record: false,
            buttons: CustomButton::empty_set(),
            auto_answer: false,
            aec: true,
            aec_delay_ms: 20,
            register_interval: 300,
            detail_log: false,
            browser_integration: false,
            browser_dial_confirm: true,
            shortcut_window: String::new(),
            shortcut_call: String::new(),
            incoming_action: crate::text::owned("show"),
            tray_after_call: -1,
            language: String::new(),
            sound_ring: String::new(),
            sound_ringback: String::new(),
            sound_callwaiting: String::new(),
            sound_busy: String::new(),
            sound_notfound: String::new(),
            sound_error: String::new(),
            transport: String::new(),
            ca_file: String::new(),
            media_encryption: String::new(),
            codecs: String::new(),
        }
    }
}

/// The addresses the buttons watch, in button order, a repeated one as often
/// as it is repeated.
pub open spec fn watched(bs: Seq<CustomButton>) -> Seq<Seq<char>>
    decreases bs.len(),
{
    if bs.len() == 0 {
        Seq::empty()
    } else {
        match dial_target_spec(bs.last()) {
            Some(t) => watched(bs.drop_last()).push(t),
            None => watched(bs.drop_last()),
        }
    }
}

/// Each item once, where it first occurs.
pub open spec fn first_occurrences(s: Seq<Seq<char>>) -> Seq<Seq<char>>
    decreases s.len(),
{
    if s.len() == 0 {
        s
    } else if first_occurrences(s.drop_last()).contains(s.last()) {
        first_occurrences(s.drop_last())
    } else {
        first_occurrences(s.drop_last()).push(s.last())
    }
}

/// baresip's name for the SIP transport, in any case in the settings;
/// empty means UDP.
pub open spec fn sip_transport_spec(s: Settings) -> Seq<char> {
    if lower(s.transport@) == "tls"@ {
        "TLS"@
    } else if lower(s.transport@) == "tcp"@ {
        "TCP"@
    } else {
        "UDP"@
    }
}

/// baresip's media encryption name, if calls are encrypted: `sdes` insists
/// on SRTP and offers it as RTP/SAVP (`srtp-mand`); `osrtp` offers the same
/// keys over RTP/AVP and falls back to the clear when the peer returns none
/// (`srtp`); `dtls` exchanges the keys on the media path.
pub open spec fn mediaenc_spec(s: Settings) -> Option<Seq<char>> {
    if s.media_encryption@ == "sdes"@ {
        Some("srtp-mand"@)
    } else if s.media_encryption@ == "osrtp"@ {
        Some("srtp"@)
    } else if s.media_encryption@ == "dtls"@ {
        Some("dtls_srtp"@)
    } else {
        None
    }
}

/// The chosen replacements of the built-in sounds, in the order of the keys.
pub open spec fn sounds_spec(s: Settings) -> Seq<Seq<char>> {
    seq![
        s.sound_ring@,
        s.sound_ringback@,
        s.sound_callwaiting@,
        s.sound_busy@,
        s.sound_notfound@,
        s.sound_error@,
    ]
}

impl Settings {
    /// The names of the built-in sounds, in the order `sounds` gives the
    /// replacements.
    pub fn sound_keys() -> (r: [&'static str; 6])
        ensures
            str_views(r@) == seq![
                "ring"@,
                "ringback"@,
                "callwaiting"@,
                "busy"@,
                "notfound"@,
                "error"@,
            ],
    {
        let r = ["ring", "ringback", "callwaiting", "busy", "notfound", "error"];
        assert(str_views(r@) =~= seq!["ring"@, "ringback"@, "callwaiting"@, "busy"@, "notfound"@, "error"@]);
        r
    }

    /// The keys of the settings document that are stored as policy values instead.
    pub fn policy_document_keys() -> (r: [&'static str; 6])
        ensures
            str_views(r@) == seq![
                "transport"@,
                "ca_file"@,
                "media_encryption"@,
                "codecs"@,
                "browser_integration"@,
                "buttons"@,
            ],
    {
        let r = ["transport", "ca_file", "media_encryption", "codecs", "browser_integration", "buttons"];
        assert(str_views(r@) =~= seq![
            "transport"@,
            "ca_file"@,
            "media_encryption"@,
            "codecs"@,
            "browser_integration"@,
            "buttons"@,
        ]);
        r
    }

    /// The numbers the engine watches, each once, in button order.
    pub fn watched_numbers(&self) -> (r: Vec<&str>)
        ensures
            str_views(r@) == first_occurrences(watched(self.buttons@)),
    {
        let mut numbers: Vec<&str> = Vec::new();
        let mut i: usize = 0;
        while i < self.buttons.len()
            invariant
                i <= self.buttons.len(),
                str_views(numbers@) == first_occurrences(watched(self.buttons@.take(i as int))),
            decreases self.buttons.len() - i,
        {
            let ghost bs = self.buttons@.take(i + 1);
            assert(bs.drop_last() =~= self.buttons@.take(i as int));
            assert(bs.last() == self.buttons@[i as int]);
            match self.buttons[i].dial_target() {
                Some(target) => {
                    let mut seen = false;
                    let mut k: usize = 0;
                    while k < numbers.len()
                        invariant
                            k <= numbers.len(),
                            seen == str_views(numbers@).take(k as int).contains(target@),
                        decreases numbers.len() - k,
                    {
                        proof {
                            crate::text::lemma_push_contains(str_views(numbers@).take(k as int), numbers@[k as int]@, target@);
                            assert(str_views(numbers@).take(k + 1) =~= str_views(numbers@).take(k as int).push(numbers@[k as int]@));
                        }
                        if crate::text::is(numbers[k], target) {
                            seen = true;
                        }
                        k += 1;
                    }
                    assert(str_views(numbers@).take(numbers.len() as int) =~= str_views(numbers@));
                    proof {
                        let w0 = watched(self.buttons@.take(i as int));
                        assert(watched(bs) == w0.push(target@));
                        assert(w0.push(target@).drop_last() =~= w0);
                        assert(w0.push(target@).last() == target@);
                    }
                    if !seen {
                        let ghost before = numbers@;
                        numbers.push(target);
                        assert(str_views(numbers@) =~= str_views(before).push(target@));
                    }
                },
                None => {
                    assert(watched(bs) == watched(self.buttons@.take(i as int)));
                },
            }
            i += 1;
        }
        assert(self.buttons@.take(self.buttons.len() as int) =~= self.buttons@);
        numbers
    }

    /// The SIP transport baresip should use. Empty means UDP.
    pub fn sip_transport(&self) -> (r: &'static str)
        ensures
            r@ == sip_transport_spec(*self),
    {
        let l = lowered(&chars_of(self.transport.as_str()));
        if crate::text::same(&l, &chars_of("tls")) {
            "TLS"
        } else if crate::text::same(&l, &chars_of("tcp")) {
            "TCP"
        } else {
            "UDP"
        }
    }

    /// baresip's media encryption name, or None when calls stay in the clear.
    pub fn mediaenc(&self) -> (r: Option<&'static str>)
        ensures
            opt_view(r) == mediaenc_spec(*self),
    {
        let m = self.media_encryption.as_str();
        if crate::text::is(m, "sdes") {
            Some("srtp-mand")
        } else if crate::text::is(m, "osrtp") {
            Some("srtp")
        } else if crate::text::is(m, "dtls") {
            Some("dtls_srtp")
        } else {
            None
        }
    }

    /// The codecs to offer, comma-separated, in the order they are offered.
    pub fn codec_order(&self) -> (r: String)
        ensures
            r@ == crate::engine::comma_joined(codecs_offered(*self)),
    {
        let names: Vec<Vec<char>> = if crate::text::trimmed_str(self.codecs.as_str()).len() == 0 {
            let v = vec![chars_of("opus"), chars_of("G722"), chars_of("PCMU"), chars_of("PCMA")];
            assert(v@.map_values(|p: Vec<char>| p@) =~= all_codecs());
            v
        } else {
            codec_names(self.codecs.as_str())
        };
        let ghost all = codecs_offered(*self);
        assert(names@.map_values(|p: Vec<char>| p@) == all);
        let mut out: Vec<char> = Vec::new();
        let mut i: usize = 0;
        assert(all.take(0) =~= Seq::<Seq<char>>::empty());
        while i < names.len()
            invariant
                i <= names.len(),
                names@.map_values(|p: Vec<char>| p@) == all,
                out@ == crate::engine::comma_joined(all.take(i as int)),
            decreases names.len() - i,
        {
            assert(names@[i as int]@ == all[i as int]);
            assert(all.take(i + 1).drop_last() =~= all.take(i as int));
            if i > 0 {
                out.push(',');
            }
            crate::text::extend(&mut out, &names[i]);
            proof {
                if i == 0 {
                    assert(all.take(1) =~= seq![all[0]]);
                }
            }
            assert(out@ =~= crate::engine::comma_joined(all.take(i + 1)));
            i += 1;
        }
        assert(all.take(names.len() as int) =~= all);
        string_of(&out)
    }

    /// The chosen replacement for each built-in sound, in the order of `sound_keys`.
    pub fn sounds(&self) -> (r: [&str; 6])
        ensures
            str_views(r@) == sounds_spec(*self),
    {
        let r = [
            self.sound_ring.as_str(),
            self.sound_ringback.as_str(),
            self.sound_callwaiting.as_str(),
            self.sound_busy.as_str(),
            self.sound_notfound.as_str(),
            self.sound_error.as_str(),
        ];
        assert(str_views(r@) =~= sounds_spec(*self));
        r
    }
}


// ---------------------------------------------------------------------
// The rules the settings are held to
// ---------------------------------------------------------------------

/// An audio device id that can stand on a line of the engine's config: at
/// most 500 characters, none of them a line break or a zero.
pub open spec fn device_ok(d: Seq<char>) -> bool {
    d.len() <= 500 && !d.contains('\r') && !d.contains('\n') && !d.contains('\0')
}

/// A language tag, or empty to follow Windows.
pub open spec fn language_ok(l: Seq<char>) -> bool {
    l.len() == 0 || (byte_len(l) <= 35 && forall|i: int|
        0 <= i < l.len() ==> crate::text::is_alphanumeric(#[trigger] l[i]) || l[i] == '-')
}

/// A path that can stand on a line of the engine's config: at most 400
/// characters, none of them a control character.
pub open spec fn path_ok(p: Seq<char>) -> bool {
    p.len() <= 400 && !has_control(p)
}

/// The transports the engine speaks, in any case, or empty for UDP.
pub open spec fn transport_ok(t: Seq<char>) -> bool {
    let l = lower(t);
    l.len() == 0 || l == "udp"@ || l == "tcp"@ || l == "tls"@
}

/// The media encryptions the engine offers, or empty for none.
pub open spec fn encryption_ok(m: Seq<char>) -> bool {
    m.len() == 0 || m == "sdes"@ || m == "osrtp"@ || m == "dtls"@
}

/// What is wrong with the transport and the media encryption, if anything:
/// an unknown value of either, or keys carried in the signalling (`sdes`,
/// `osrtp`) while the signalling is not encrypted.
pub open spec fn media_error(s: Settings) -> Option<Seq<char>> {
    if !transport_ok(s.transport@) {
        Some("SETTINGS_TRANSPORT_INVALID"@)
    } else if !encryption_ok(s.media_encryption@) {
        Some("SETTINGS_MEDIA_ENCRYPTION_INVALID"@)
    } else if (s.media_encryption@ == "sdes"@ || s.media_encryption@ == "osrtp"@)
        && sip_transport_spec(s) != "TLS"@ {
        Some("SETTINGS_SDES_NEEDS_TLS"@)
    } else {
        None
    }
}

/// The audio codecs the engine can offer, in the order it offers them when
/// none are chosen.
pub open spec fn all_codecs() -> Seq<Seq<char>> {
    seq!["opus"@, "G722"@, "PCMU"@, "PCMA"@]
}

/// The codecs a value names, in its order: the pieces between its commas,
/// without white space around them.
pub open spec fn codec_list(text: Seq<char>) -> Seq<Seq<char>> {
    split(text, ',').map_values(|p: Seq<char>| trim(p))
}

/// A choice of codecs the engine can follow: empty, for all of them, or
/// codecs it has, each named once.
pub open spec fn codecs_ok(text: Seq<char>) -> bool {
    trim(text).len() == 0 || (codec_list(text).no_duplicates() && forall|i: int|
        0 <= i < codec_list(text).len() ==> all_codecs().contains(#[trigger] codec_list(text)[i]))
}

/// The codecs offered, in the order they are offered.
pub open spec fn codecs_offered(s: Settings) -> Seq<Seq<char>> {
    if trim(s.codecs@).len() == 0 {
        all_codecs()
    } else {
        codec_list(s.codecs@)
    }
}

/// What is wrong with one button, if anything.
pub open spec fn button_error(b: CustomButton) -> Option<Seq<char>> {
    if b.kind@.len() > 0 && !is_kind(b.kind@) {
        Some("SETTINGS_BUTTON_KIND_INVALID"@)
    } else if b.title@.len() > 40 || has_control(b.title@) {
        Some("SETTINGS_BUTTON_TITLE_INVALID"@)
    } else {
        if !number_ok_spec(b) || !target_ok_spec(b.transfer@) || !target_ok_spec(b.pickup@) {
            Some("SETTINGS_BUTTON_NUMBER_INVALID"@)
        } else {
            None
        }
    }
}

/// What is wrong with the first button that has something wrong.
pub open spec fn buttons_error(bs: Seq<CustomButton>) -> Option<Seq<char>>
    decreases bs.len(),
{
    if bs.len() == 0 {
        None
    } else {
        match button_error(bs[0]) {
            Some(e) => Some(e),
            None => buttons_error(bs.drop_first()),
        }
    }
}

/// Why the settings cannot be used, or `None` when they can: the first
/// rule they break, in the order the rules are checked.
pub open spec fn settings_error(s: Settings, adapters: Seq<Adapter>) -> Option<Seq<char>> {
    let adapter = trim(s.network_adapter@);
    if adapter.len() > 0 && address_for(adapters, adapter) is Err {
        Some(address_for(adapters, adapter)->Err_0)
    } else if s.sip_port < 1024 || s.rtp_port < 1024 || s.rtp_port > 65400 || s.rtp_port % 2 != 0 {
        Some("SETTINGS_PORT_RANGE"@)
    } else if s.rtp_port <= s.sip_port && s.sip_port <= s.rtp_port + 20 {
        Some("SETTINGS_PORT_OVERLAP"@)
    } else if !device_ok(s.microphone@) || !device_ok(s.speaker@) {
        Some("SETTINGS_AUDIO_DEVICE_INVALID"@)
    } else if !(100 <= s.microphone_gain <= 200) || !(100 <= s.speaker_gain <= 200) {
        Some("SETTINGS_GAIN_RANGE"@)
    } else if s.aec_delay_ms > 500 {
        Some("SETTINGS_AEC_DELAY_RANGE"@)
    } else if !(30 <= s.register_interval <= 3600) {
        Some("SETTINGS_REGISTER_INTERVAL_RANGE"@)
    } else if !(-1 <= s.tray_after_call <= 3600) {
        Some("SETTINGS_TRAY_AFTER_CALL_RANGE"@)
    } else if shortcuts_of(s.shortcut_window@, s.shortcut_call@) is Err {
        Some(shortcuts_of(s.shortcut_window@, s.shortcut_call@)->Err_0)
    } else if !(s.incoming_action@ == "show"@ || s.incoming_action@ == "notify"@) {
        Some("SETTINGS_INCOMING_ACTION_INVALID"@)
    } else if !language_ok(s.language@) {
        Some("SETTINGS_LANGUAGE_INVALID"@)
    } else if media_error(s) is Some {
        media_error(s)
    } else if !codecs_ok(s.codecs@) {
        Some("SETTINGS_CODECS_INVALID"@)
    } else {
        paths_error(s)
    }
}

/// The rules on the paths and the buttons, checked after the others.
pub open spec fn paths_error(s: Settings) -> Option<Seq<char>> {
    if !(forall|i: int| 0 <= i < 6 ==> path_ok(#[trigger] sounds_spec(s)[i])) {
        Some("SETTINGS_SOUND_PATH_INVALID"@)
    } else if !path_ok(s.ca_file@) {
        Some("SETTINGS_CA_FILE_INVALID"@)
    } else {
        buttons_rules_error(s.buttons@)
    }
}

/// The rules on the buttons, checked last.
pub open spec fn buttons_rules_error(bs: Seq<CustomButton>) -> Option<Seq<char>> {
    if bs.len() > CustomButton::COUNT {
        Some("SETTINGS_BUTTON_KIND_INVALID"@)
    } else if buttons_error(bs) is Some {
        buttons_error(bs)
    } else if !watched(bs).no_duplicates() {
        Some("SETTINGS_BUTTON_NUMBER_DUPLICATE"@)
    } else {
        None
    }
}

/// An audio device id that can stand on a line of the engine's config.
fn device_fits(d: &str) -> (r: bool)
    ensures
        r == device_ok(d@),
{
    chars_of(d).len() <= 500 && !crate::text::str_has(d, '\r') && !crate::text::str_has(d, '\n')
        && !crate::text::str_has(d, '\0')
}

fn language_fits(l: &str) -> (r: bool)
    ensures
        r == language_ok(l@),
{
    let v = chars_of(l);
    if v.len() == 0 {
        return true;
    }
    if byte_length(l) > 35 {
        return false;
    }
    let mut i: usize = 0;
    while i < v.len()
        invariant
            i <= v.len(),
            v@ == l@,
            l@.len() > 0,
            byte_len(l@) <= 35,
            forall|j: int|
                0 <= j < i ==> crate::text::is_alphanumeric(#[trigger] v@[j]) || v@[j] == '-',
        decreases v.len() - i,
    {
        if !(crate::text::alphanumeric(v[i]) || v[i] == '-') {
            return false;
        }
        i += 1;
    }
    true
}

fn path_fits(p: &str) -> (r: bool)
    ensures
        r == path_ok(p@),
{
    chars_of(p).len() <= 400 && !crate::text::any_control(p)
}

/// The rules on the transport and the media encryption.
pub fn media_check(s: &Settings) -> (r: Result<(), String>)
    ensures
        match r {
            Ok(()) => media_error(*s) is None,
            Err(e) => media_error(*s) == Some(e@),
        },
{
    let l = lowered(&chars_of(s.transport.as_str()));
    if !(l.len() == 0 || crate::text::same(&l, &chars_of("udp")) || crate::text::same(&l, &chars_of("tcp"))
        || crate::text::same(&l, &chars_of("tls"))) {
        return Err(message("SETTINGS_TRANSPORT_INVALID"));
    }
    let m = s.media_encryption.as_str();
    let keys_in_signalling = crate::text::is(m, "sdes") || crate::text::is(m, "osrtp");
    if !(chars_of(m).len() == 0 || keys_in_signalling || crate::text::is(m, "dtls")) {
        return Err(message("SETTINGS_MEDIA_ENCRYPTION_INVALID"));
    }
    if keys_in_signalling && !crate::text::is(s.sip_transport(), "TLS") {
        return Err(message("SETTINGS_SDES_NEEDS_TLS"));
    }
    Ok(())
}

/// The codecs a value names, in its order.
fn codec_names(text: &str) -> (r: Vec<Vec<char>>)
    ensures
        r@.map_values(|p: Vec<char>| p@) == codec_list(text@),
{
    let pieces = split_chars(&chars_of(text), ',');
    let ghost all = split(text@, ',');
    assert(pieces@.map_values(|p: Vec<char>| p@) == all);
    let mut r: Vec<Vec<char>> = Vec::new();
    let mut i: usize = 0;
    while i < pieces.len()
        invariant
            i <= pieces.len(),
            pieces@.map_values(|p: Vec<char>| p@) == all,
            r@.map_values(|p: Vec<char>| p@) == all.take(i as int).map_values(|p: Seq<char>| trim(p)),
        decreases pieces.len() - i,
    {
        assert(pieces@[i as int]@ == all[i as int]);
        let ghost before = r@;
        r.push(crate::text::trimmed(&pieces[i]));
        assert(r@.map_values(|p: Vec<char>| p@) =~= before.map_values(|p: Vec<char>| p@).push(trim(all[i as int])));
        assert(all.take(i + 1).map_values(|p: Seq<char>| trim(p)) =~= all.take(i as int).map_values(
            |p: Seq<char>| trim(p),
        ).push(trim(all[i as int])));
        i += 1;
    }
    assert(all.take(pieces.len() as int) =~= all);
    r
}

/// Whether the engine has a codec of that name.
fn known_codec(c: &[char]) -> (r: bool)
    ensures
        r == all_codecs().contains(c@),
{
    let r = crate::text::same(c, &chars_of("opus")) || crate::text::same(c, &chars_of("G722"))
        || crate::text::same(c, &chars_of("PCMU")) || crate::text::same(c, &chars_of("PCMA"));
    proof {
        let a = all_codecs();
        if r {
            if c@ == a[0] {
            } else if c@ == a[1] {
            } else if c@ == a[2] {
            } else {
                assert(c@ == a[3]);
            }
        } else {
            if a.contains(c@) {
                let k = choose|k: int| 0 <= k < a.len() && a[k] == c@;
                assert(k == 0 || k == 1 || k == 2 || k == 3);
            }
        }
    }
    r
}

/// Whether a choice of codecs is one the engine can follow.
fn codecs_fit(text: &str) -> (r: bool)
    ensures
        r == codecs_ok(text@),
{
    if crate::text::trimmed_str(text).len() == 0 {
        return true;
    }
    let names = codec_names(text);
    let ghost l = codec_list(text@);
    let mut i: usize = 0;
    while i < names.len()
        invariant
            i <= names.len(),
            names@.map_values(|p: Vec<char>| p@) == l,
            l == codec_list(text@),
            trim(text@).len() > 0,
            forall|j: int| 0 <= j < i ==> all_codecs().contains(#[trigger] l[j]),
            forall|a: int, b: int| 0 <= a < i && a < b < l.len() ==> l[a] != l[b],
        decreases names.len() - i,
    {
        assert(names@[i as int]@ == l[i as int]);
        if !known_codec(&names[i]) {
            return false;
        }
        let mut j: usize = i + 1;
        while j < names.len()
            invariant
                i < j <= names.len(),
                names@.map_values(|p: Vec<char>| p@) == l,
                l == codec_list(text@),
                trim(text@).len() > 0,
                forall|b: int| i < b < j ==> l[i as int] != l[b],
            decreases names.len() - j,
        {
            assert(names@[i as int]@ == l[i as int]);
            assert(names@[j as int]@ == l[j as int]);
            if crate::text::same(&names[i], &names[j]) {
                assert(!l.no_duplicates());
                return false;
            }
            j += 1;
        }
        i += 1;
    }
    assert(l.no_duplicates()) by {
        assert forall|a: int, b: int| 0 <= a < l.len() && 0 <= b < l.len() && a != b implies l[a]
            != l[b] by {
            if a > b {
                assert(l[b] != l[a]);
            }
        }
    }
    true
}

/// What is wrong with one button, if anything.
fn check_button(b: &CustomButton) -> (r: Result<(), String>)
    ensures
        match r {
            Ok(()) => button_error(*b) is None,
            Err(e) => button_error(*b) == Some(e@),
        },
{
    let kind = b.kind.as_str();
    if chars_of(kind).len() > 0 && !(crate::text::is(kind, "transfer") || crate::text::is(kind, "dial")
        || crate::text::is(kind, "speed") || crate::text::is(kind, "park") || crate::text::is(kind, "open")
        || crate::text::is(kind, "dnd") || crate::text::is(kind, "mwi")) {
        return Err(message("SETTINGS_BUTTON_KIND_INVALID"));
    }
    if chars_of(b.title.as_str()).len() > 40 || crate::text::any_control(b.title.as_str()) {
        return Err(message("SETTINGS_BUTTON_TITLE_INVALID"));
    }
    let number = b.number.as_str();
    let number_ok = if crate::text::is(kind, "open") {
        CustomButton::link_ok(number)
    } else if crate::text::is(kind, "speed") {
        match dial_target(number) {
            Ok(_) => true,
            Err(_) => false,
        }
    } else if crate::text::is(kind, "dnd") || !b.configured() {
        CustomButton::target_ok(number)
    } else {
        CustomButton::target_ok(number) && chars_of(CustomButton::address(number)).len() > 0
    };
    if !number_ok || !CustomButton::target_ok(b.transfer.as_str()) || !CustomButton::target_ok(
        b.pickup.as_str(),
    ) {
        return Err(message("SETTINGS_BUTTON_NUMBER_INVALID"));
    }
    Ok(())
}

/// Whether some item occurs twice.
fn repeats(v: &Vec<&str>) -> (r: bool)
    ensures
        r == !str_views(v@).no_duplicates(),
{
    let ghost s = str_views(v@);
    let mut i: usize = 0;
    while i < v.len()
        invariant
            i <= v.len(),
            s == str_views(v@),
            forall|a: int, b: int| 0 <= a < i && a < b < s.len() ==> s[a] != s[b],
        decreases v.len() - i,
    {
        let mut j: usize = i + 1;
        while j < v.len()
            invariant
                i < j <= v.len(),
                s == str_views(v@),
                forall|b: int| i < b < j ==> s[i as int] != s[b],
            decreases v.len() - j,
        {
            if crate::text::is(v[i], v[j]) {
                assert(s[i as int] == s[j as int]);
                return true;
            }
            j += 1;
        }
        i += 1;
    }
    assert(s.no_duplicates()) by {
        assert forall|a: int, b: int| 0 <= a < s.len() && 0 <= b < s.len() && a != b implies s[a]
            != s[b] by {
            if a > b {
                assert(s[b] != s[a]);
            }
        }
    }
    false
}

/// The addresses the buttons watch, a repeated one as often as it is repeated.
fn watched_all(bs: &Vec<CustomButton>) -> (r: Vec<&str>)
    ensures
        str_views(r@) == watched(bs@),
{
    let mut r: Vec<&str> = Vec::new();
    let mut i: usize = 0;
    while i < bs.len()
        invariant
            i <= bs.len(),
            str_views(r@) == watched(bs@.take(i as int)),
        decreases bs.len() - i,
    {
        let ghost t = bs@.take(i + 1);
        assert(t.drop_last() =~= bs@.take(i as int));
        assert(t.last() == bs@[i as int]);
        match bs[i].dial_target() {
            Some(target) => {
                let ghost before = r@;
                r.push(target);
                assert(str_views(r@) =~= str_views(before).push(target@));
            },
            None => {},
        }
        i += 1;
    }
    assert(bs@.take(bs.len() as int) =~= bs@);
    r
}

/// Checks the settings before they are saved or handed to the engine. A
/// chosen network adapter has to be among those Windows lists and hold an
/// address, here and again when the engine starts: what is plugged in can
/// change meanwhile.
pub fn validate(s: &Settings, adapters: &[Adapter]) -> (r: Result<(), String>)
    ensures
        match r {
            Ok(()) => settings_error(*s, adapters@) is None,
            Err(e) => settings_error(*s, adapters@) == Some(e@),
        },
{
    let adapter = trim_str(s.network_adapter.as_str());
    if chars_of(adapter).len() > 0 {
        match crate::native::adapter_address(adapters, adapter) {
            Err(e) => return Err(e),
            Ok(_) => {},
        }
    }
    if s.sip_port < 1024 || s.rtp_port < 1024 || s.rtp_port > 65400 || s.rtp_port % 2 != 0 {
        return Err(message("SETTINGS_PORT_RANGE"));
    }
    if s.rtp_port <= s.sip_port && s.sip_port <= s.rtp_port + 20 {
        return Err(message("SETTINGS_PORT_OVERLAP"));
    }
    if !device_fits(s.microphone.as_str()) || !device_fits(s.speaker.as_str()) {
        return Err(message("SETTINGS_AUDIO_DEVICE_INVALID"));
    }
    if !(100 <= s.microphone_gain && s.microphone_gain <= 200) || !(100 <= s.speaker_gain
        && s.speaker_gain <= 200) {
        return Err(message("SETTINGS_GAIN_RANGE"));
    }
    if s.aec_delay_ms > 500 {
        return Err(message("SETTINGS_AEC_DELAY_RANGE"));
    }
    if !(30 <= s.register_interval && s.register_interval <= 3600) {
        return Err(message("SETTINGS_REGISTER_INTERVAL_RANGE"));
    }
    if !(-1 <= s.tray_after_call && s.tray_after_call <= 3600) {
        return Err(message("SETTINGS_TRAY_AFTER_CALL_RANGE"));
    }
    // The keys are only read here; registering them needs the window.
    match parse_settings(s) {
        Err(e) => return Err(e),
        Ok(_) => {},
    }
    let action = s.incoming_action.as_str();
    if !(crate::text::is(action, "show") || crate::text::is(action, "notify")) {
        return Err(message("SETTINGS_INCOMING_ACTION_INVALID"));
    }
    // A language tag, or empty to follow Windows. The window owns the list
    // of languages it has words for; this only rejects nonsense.
    if !language_fits(s.language.as_str()) {
        return Err(message("SETTINGS_LANGUAGE_INVALID"));
    }
    // Both are written by a policy as well as by the dialog, and the engine
    // would otherwise fall back to something nobody chose.
    match media_check(s) {
        Err(e) => return Err(e),
        Ok(()) => {},
    }
    if !codecs_fit(s.codecs.as_str()) {
        return Err(message("SETTINGS_CODECS_INVALID"));
    }
    let sounds = s.sounds();
    assert(settings_error(*s, adapters@) == paths_error(*s));
    let mut k: usize = 0;
    while k < 6
        invariant
            k <= 6,
            settings_error(*s, adapters@) == paths_error(*s),
            str_views(sounds@) == sounds_spec(*s),
            forall|j: int| 0 <= j < k ==> path_ok(#[trigger] sounds_spec(*s)[j]),
        decreases 6 - k,
    {
        if !path_fits(sounds[k]) {
            return Err(message("SETTINGS_SOUND_PATH_INVALID"));
        }
        k += 1;
    }
    // A policy can write this value without passing through the dialog, and
    // it ends up on a line of the engine's config.
    if !path_fits(s.ca_file.as_str()) {
        return Err(message("SETTINGS_CA_FILE_INVALID"));
    }
    // A button whose kind is empty is simply not shown; the rest need a
    // number the engine can put in a SIP URI.
    if s.buttons.len() > CustomButton::COUNT {
        return Err(message("SETTINGS_BUTTON_KIND_INVALID"));
    }
    let mut i: usize = 0;
    assert(s.buttons@.skip(0) =~= s.buttons@);
    while i < s.buttons.len()
        invariant
            i <= s.buttons.len(),
            s.buttons@.len() <= CustomButton::COUNT,
            settings_error(*s, adapters@) == buttons_rules_error(s.buttons@),
            buttons_error(s.buttons@.skip(i as int)) == buttons_error(s.buttons@),
        decreases s.buttons.len() - i,
    {
        assert(s.buttons@.skip(i as int)[0] == s.buttons@[i as int]);
        assert(s.buttons@.skip(i as int).drop_first() =~= s.buttons@.skip(i + 1));
        match check_button(&s.buttons[i]) {
            Err(e) => return Err(e),
            Ok(()) => {},
        }
        i += 1;
    }
    // The engine subscribes to each watched number once, so two buttons
    // cannot watch the same one.
    if repeats(&watched_all(&s.buttons)) {
        return Err(message("SETTINGS_BUTTON_NUMBER_DUPLICATE"));
    }
    Ok(())
}

/// The address to bind to, and the adapter to hand to the engine: an
/// unset adapter binds every address.
pub open spec fn binding_spec(s: Settings, adapters: Seq<Adapter>) -> Result<
    (Seq<char>, Seq<char>),
    Seq<char>,
> {
    let chosen = trim(s.network_adapter@);
    if chosen.len() == 0 {
        Ok(("0.0.0.0"@, Seq::empty()))
    } else {
        match address_for(adapters, chosen) {
            Ok(a) => Ok((a, chosen)),
            Err(e) => Err(e),
        }
    }
}

/// The address to bind to, and the adapter to hand to the engine.
pub fn binding(s: &Settings, adapters: &[Adapter]) -> (r: Result<(String, String), String>)
    ensures
        match (r, binding_spec(*s, adapters@)) {
            (Ok((a, n)), Ok((sa, sn))) => a@ == sa && n@ == sn,
            (Err(e), Err(m)) => e@ == m,
            _ => false,
        },
{
    let chosen = trim_str(s.network_adapter.as_str());
    if chars_of(chosen).len() == 0 {
        return Ok((crate::text::owned("0.0.0.0"), String::new()));
    }
    match crate::native::adapter_address(adapters, chosen) {
        Ok(a) => Ok((a, crate::text::owned(chosen))),
        Err(e) => Err(e),
    }
}


// ---------------------------------------------------------------------
// Values a group policy sets one at a time
// ---------------------------------------------------------------------

/// The fields of a button, in the order of their policy values.
pub open spec fn field_names() -> Seq<Seq<char>> {
    seq!["title"@, "kind"@, "number"@, "transfer"@, "pickup"@]
}

pub open spec fn button_fields(b: CustomButton) -> Seq<Seq<char>> {
    seq![b.title@, b.kind@, b.number@, b.transfer@, b.pickup@]
}

/// The name of a button's policy value: `button_1_title` and so on, the
/// buttons counted from one.
pub open spec fn button_key(index: nat, field: Seq<char>) -> Seq<char> {
    "button_"@ + decimal(index) + "_"@ + field
}

/// The policy values of the first `n` buttons.
pub open spec fn button_pairs(bs: Seq<CustomButton>, n: nat) -> Seq<(Seq<char>, Seq<char>)>
    decreases n,
{
    if n == 0 {
        Seq::empty()
    } else {
        button_pairs(bs, (n - 1) as nat) + Seq::new(
            5,
            |f: int| (button_key(n, field_names()[f]), button_fields(bs[n - 1])[f]),
        )
    }
}

pub open spec fn yes_no(b: bool) -> Seq<char> {
    if b {
        "true"@
    } else {
        "false"@
    }
}

/// The policy values of the settings, name and value.
pub open spec fn policy_spec(s: Settings) -> Seq<(Seq<char>, Seq<char>)> {
    seq![
        ("transport"@, s.transport@),
        ("ca_file"@, s.ca_file@),
        ("media_encryption"@, s.media_encryption@),
        ("codecs"@, s.codecs@),
        ("browser_integration"@, yes_no(s.browser_integration)),
    ] + button_pairs(
        s.buttons@,
        if s.buttons@.len() < CustomButton::COUNT {
            s.buttons@.len()
        } else {
            CustomButton::COUNT as nat
        },
    )
}

pub open spec fn pair_views(v: Seq<(String, String)>) -> Seq<(Seq<char>, Seq<char>)> {
    v.map_values(|p: (String, String)| (p.0@, p.1@))
}

/// The value stored under a name, or empty when none is.
pub open spec fn lookup(stored: Seq<(Seq<char>, Seq<char>)>, key: Seq<char>) -> Seq<char>
    decreases stored.len(),
{
    if stored.len() == 0 {
        Seq::empty()
    } else if stored[0].0 == key {
        stored[0].1
    } else {
        lookup(stored.drop_first(), key)
    }
}

/// The ways of saying yes that a policy may write.
pub open spec fn says_yes(text: Seq<char>) -> bool {
    let t = lower(trim(text));
    t == "true"@ || t == "1"@ || t == "yes"@ || t == "on"@
}

/// The button a policy defines under the given number.
pub open spec fn policy_button(stored: Seq<(Seq<char>, Seq<char>)>, index: nat, b: CustomButton) -> bool {
    &&& b.title@ == lookup(stored, button_key(index, "title"@))
    &&& b.kind@ == lower(trim(lookup(stored, button_key(index, "kind"@))))
    &&& b.number@ == lookup(stored, button_key(index, "number"@))
    &&& b.transfer@ == lookup(stored, button_key(index, "transfer"@))
    &&& b.pickup@ == lookup(stored, button_key(index, "pickup"@))
}

/// The settings after the policy values have been read into them.
pub open spec fn read_policy_spec(
    before: Settings,
    stored: Seq<(Seq<char>, Seq<char>)>,
    after: Settings,
) -> bool {
    &&& after.transport@ == lookup(stored, "transport"@)
    &&& after.ca_file@ == lookup(stored, "ca_file"@)
    &&& after.media_encryption@ == lookup(stored, "media_encryption"@)
    &&& after.codecs@ == lookup(stored, "codecs"@)
    &&& after.browser_integration == says_yes(lookup(stored, "browser_integration"@))
    &&& after.buttons@.len() == CustomButton::COUNT
    &&& forall|i: int|
        0 <= i < CustomButton::COUNT ==> policy_button(stored, (i + 1) as nat, #[trigger] after.buttons@[i])
    &&& after.network_adapter == before.network_adapter
    &&& after.sip_port == before.sip_port
    &&& after.rtp_port == before.rtp_port
    &&& after.microphone == before.microphone
    &&& after.speaker == before.speaker
    &&& after.microphone_gain == before.microphone_gain
    &&& after.speaker_gain == before.speaker_gain
    &&& after.auto_record == before.auto_record
    &&& after.auto_answer == before.auto_answer
    &&& after.aec == before.aec
    &&& after.aec_delay_ms == before.aec_delay_ms
    &&& after.register_interval == before.register_interval
    &&& after.detail_log == before.detail_log
    &&& after.browser_dial_confirm == before.browser_dial_confirm
    &&& after.shortcut_window == before.shortcut_window
    &&& after.shortcut_call == before.shortcut_call
    &&& after.incoming_action == before.incoming_action
    &&& after.tray_after_call == before.tray_after_call
    &&& after.language == before.language
    &&& after.sound_ring == before.sound_ring
    &&& after.sound_ringback == before.sound_ringback
    &&& after.sound_callwaiting == before.sound_callwaiting
    &&& after.sound_busy == before.sound_busy
    &&& after.sound_notfound == before.sound_notfound
    &&& after.sound_error == before.sound_error
}

/// The name of a button's policy value.
fn button_key_text(index: usize, field: &str) -> (r: String)
    ensures
        r@ == button_key(index as nat, field@),
{
    let mut v = chars_of("button_");
    push_decimal(&mut v, index as u64);
    v.push('_');
    extend_str(&mut v, field);
    proof {
        reveal_strlit("_");
    }
    assert(v@ =~= button_key(index as nat, field@));
    string_of(&v)
}

/// The value stored under a name, or empty when none is.
fn stored_value(stored: &[(String, String)], key: &str) -> (r: String)
    ensures
        r@ == lookup(pair_views(stored@), key@),
{
    let mut i: usize = 0;
    assert(pair_views(stored@).skip(0) =~= pair_views(stored@));
    while i < stored.len()
        invariant
            i <= stored.len(),
            lookup(pair_views(stored@).skip(i as int), key@) == lookup(pair_views(stored@), key@),
        decreases stored.len() - i,
    {
        let ghost t = pair_views(stored@).skip(i as int);
        assert(t[0] == (stored@[i as int].0@, stored@[i as int].1@));
        if crate::text::is(stored[i].0.as_str(), key) {
            return stored[i].1.clone();
        }
        assert(t.drop_first() =~= pair_views(stored@).skip(i + 1));
        i += 1;
    }
    String::new()
}

impl Settings {
    /// Values a group policy can set one at a time. They live in their own
    /// registry values rather than inside the settings document. The buttons
    /// are among them, as `button_1_title`, `button_1_kind`, `button_1_number`,
    /// `button_1_transfer` and `button_1_pickup` up to `button_30_…`; 1 to 6 sit on
    /// the phone, 7 to 30 in the panel beside it.
    pub fn policy_values(&self) -> (r: Vec<(String, String)>)
        ensures
            pair_views(r@) == policy_spec(*self),
    {
        let mut values: Vec<(String, String)> = Vec::new();
        values.push((crate::text::owned("transport"), self.transport.clone()));
        values.push((crate::text::owned("ca_file"), self.ca_file.clone()));
        values.push((crate::text::owned("media_encryption"), self.media_encryption.clone()));
        values.push((crate::text::owned("codecs"), self.codecs.clone()));
        let yes = if self.browser_integration {
            crate::text::owned("true")
        } else {
            crate::text::owned("false")
        };
        values.push((crate::text::owned("browser_integration"), yes));
        let count: usize = if self.buttons.len() < CustomButton::COUNT {
            self.buttons.len()
        } else {
            CustomButton::COUNT
        };
        let ghost head = pair_views(values@);
        assert(head =~= seq![
            ("transport"@, self.transport@),
            ("ca_file"@, self.ca_file@),
            ("media_encryption"@, self.media_encryption@),
            ("codecs"@, self.codecs@),
            ("browser_integration"@, yes_no(self.browser_integration)),
        ]);
        assert(head + button_pairs(self.buttons@, 0) =~= head);
        let mut n: usize = 0;
        while n < count
            invariant
                n <= count <= self.buttons@.len(),
                count <= CustomButton::COUNT,
                pair_views(values@) == head + button_pairs(self.buttons@, n as nat),
            decreases count - n,
        {
            let b = &self.buttons[n];
            let fields = [
                b.title.as_str(),
                b.kind.as_str(),
                b.number.as_str(),
                b.transfer.as_str(),
                b.pickup.as_str(),
            ];
            let names = ["title", "kind", "number", "transfer", "pickup"];
            assert(str_views(names@) =~= field_names());
            assert(str_views(fields@) =~= button_fields(*b));
            let ghost start = pair_views(values@);
            let mut f: usize = 0;
            while f < 5
                invariant
                    f <= 5,
                    n < count <= self.buttons@.len(),
                    str_views(names@) == field_names(),
                    str_views(fields@) == button_fields(self.buttons@[n as int]),
                    pair_views(values@) == start + Seq::new(
                        f as nat,
                        |g: int| (button_key((n + 1) as nat, field_names()[g]), button_fields(self.buttons@[n as int])[g]),
                    ),
                decreases 5 - f,
            {
                let key = button_key_text(n + 1, names[f]);
                assert(names@[f as int]@ == field_names()[f as int]);
                assert(fields@[f as int]@ == button_fields(self.buttons@[n as int])[f as int]);
                let ghost before = pair_views(values@);
                let value = crate::text::owned(fields[f]);
                let ghost pair = (key@, value@);
                values.push((key, value));
                assert(pair_views(values@) =~= before.push(pair));
                assert(pair == (button_key((n + 1) as nat, field_names()[f as int]), button_fields(self.buttons@[n as int])[f as int]));
                assert(pair_views(values@) =~= start + Seq::new(
                    (f + 1) as nat,
                    |g: int| (button_key((n + 1) as nat, field_names()[g]), button_fields(self.buttons@[n as int])[g]),
                ));
                f += 1;
            }
            assert(button_pairs(self.buttons@, (n + 1) as nat) == button_pairs(self.buttons@, n as nat) + Seq::new(
                5,
                |g: int| (button_key((n + 1) as nat, field_names()[g]), button_fields(self.buttons@[n as int])[g]),
            ));
            assert(pair_views(values@) =~= head + button_pairs(self.buttons@, (n + 1) as nat));
            n += 1;
        }
        values
    }

    /// The names `read_policy` reads, in the order `policy_values` writes them.
    pub fn policy_names() -> (r: Vec<String>)
        ensures
            r@.len() == 5 + 5 * CustomButton::COUNT,
    {
        let mut names: Vec<String> = Vec::new();
        names.push(crate::text::owned("transport"));
        names.push(crate::text::owned("ca_file"));
        names.push(crate::text::owned("media_encryption"));
        names.push(crate::text::owned("codecs"));
        names.push(crate::text::owned("browser_integration"));
        let fields = ["title", "kind", "number", "transfer", "pickup"];
        let mut n: usize = 1;
        while n <= CustomButton::COUNT
            invariant
                1 <= n <= CustomButton::COUNT + 1,
                names@.len() == 5 + 5 * (n - 1),
            decreases CustomButton::COUNT + 1 - n,
        {
            let mut f: usize = 0;
            while f < 5
                invariant
                    f <= 5,
                    1 <= n <= CustomButton::COUNT,
                    names@.len() == 5 + 5 * (n - 1) + f,
                decreases 5 - f,
            {
                names.push(button_key_text(n, fields[f]));
                f += 1;
            }
            n += 1;
        }
        names
    }

    /// Takes the values a policy has set, given as names and values: what
    /// is not there counts as empty.
    pub fn read_policy(&mut self, stored: &[(String, String)])
        ensures
            read_policy_spec(*old(self), pair_views(stored@), *final(self)),
    {
        self.transport = stored_value(stored, "transport");
        self.ca_file = stored_value(stored, "ca_file");
        self.media_encryption = stored_value(stored, "media_encryption");
        self.codecs = stored_value(stored, "codecs");
        // A policy writes text, and the ways of saying yes are worth accepting.
        let yes = stored_value(stored, "browser_integration");
        let said = lowered(&chars_of(trim_str(yes.as_str())));
        self.browser_integration = crate::text::same(&said, &chars_of("true")) || crate::text::same(
            &said,
            &chars_of("1"),
        ) || crate::text::same(&said, &chars_of("yes")) || crate::text::same(&said, &chars_of("on"));
        let mut buttons: Vec<CustomButton> = Vec::new();
        let mut n: usize = 1;
        while n <= CustomButton::COUNT
            invariant
                1 <= n <= CustomButton::COUNT + 1,
                buttons@.len() == n - 1,
                forall|i: int|
                    0 <= i < n - 1 ==> policy_button(pair_views(stored@), (i + 1) as nat, #[trigger] buttons@[i]),
            decreases CustomButton::COUNT + 1 - n,
        {
            let kind = stored_value(stored, button_key_text(n, "kind").as_str());
            let button = CustomButton {
                title: stored_value(stored, button_key_text(n, "title").as_str()),
                kind: string_of(&lowered(&chars_of(trim_str(kind.as_str())))),
                number: stored_value(stored, button_key_text(n, "number").as_str()),
                transfer: stored_value(stored, button_key_text(n, "transfer").as_str()),
                pickup: stored_value(stored, button_key_text(n, "pickup").as_str()),
            };
            buttons.push(button);
            n += 1;
        }
        self.buttons = buttons;
    }
}


/// Where each button's values stand among the policy values of the first
/// `n` buttons.
proof fn lemma_button_pairs(bs: Seq<CustomButton>, n: nat)
    ensures
        button_pairs(bs, n).len() == 5 * n,
        forall|i: int, f: int|
            0 <= i < n && 0 <= f < 5 ==> #[trigger] button_pairs(bs, n)[5 * i + f] == (
                button_key((i + 1) as nat, field_names()[f]),
                button_fields(bs[i])[f],
            ),
    decreases n,
{
    if n > 0 {
        lemma_button_pairs(bs, (n - 1) as nat);
        let prev = button_pairs(bs, (n - 1) as nat);
        let last = Seq::new(
            5,
            |f: int| (button_key(n, field_names()[f]), button_fields(bs[n - 1])[f]),
        );
        assert forall|i: int, f: int| 0 <= i < n && 0 <= f < 5 implies #[trigger] button_pairs(
            bs,
            n,
        )[5 * i + f] == (button_key((i + 1) as nat, field_names()[f]), button_fields(bs[i])[f]) by {
            if i < n - 1 {
                assert(5 * i + f < 5 * (n - 1)) by (nonlinear_arith)
                    requires
                        0 <= i < n - 1,
                        0 <= f < 5,
                ;
                assert(button_pairs(bs, n)[5 * i + f] == prev[5 * i + f]);
            } else {
                assert(button_pairs(bs, n)[5 * i + f] == last[f]);
            }
        }
    }
}

/// The value under the name at place `p` is found there when no earlier
/// place has that name.
proof fn lemma_lookup_at(stored: Seq<(Seq<char>, Seq<char>)>, p: int)
    requires
        0 <= p < stored.len(),
        forall|j: int| 0 <= j < p ==> (#[trigger] stored[j]).0 != stored[p].0,
    ensures
        lookup(stored, stored[p].0) == stored[p].1,
    decreases p,
{
    if p > 0 {
        let rest = stored.drop_first();
        assert forall|j: int| 0 <= j < p - 1 implies (#[trigger] rest[j]).0 != rest[p - 1].0 by {
            assert(rest[j] == stored[j + 1]);
        }
        lemma_lookup_at(rest, p - 1);
        assert(stored[0].0 != stored[p].0);
    }
}

/// A name nothing is stored under reads as empty.
proof fn lemma_lookup_absent(stored: Seq<(Seq<char>, Seq<char>)>, key: Seq<char>)
    requires
        forall|j: int| 0 <= j < stored.len() ==> (#[trigger] stored[j]).0 != key,
    ensures
        lookup(stored, key) == Seq::<char>::empty(),
    decreases stored.len(),
{
    if stored.len() > 0 {
        let rest = stored.drop_first();
        assert forall|j: int| 0 <= j < rest.len() implies (#[trigger] rest[j]).0 != key by {
            assert(rest[j] == stored[j + 1]);
        }
        lemma_lookup_absent(rest, key);
    }
}

/// Two buttons' value names are the same only for the same button and field.
proof fn lemma_button_key_injective(n1: nat, f1: Seq<char>, n2: nat, f2: Seq<char>)
    requires
        button_key(n1, f1) == button_key(n2, f2),
    ensures
        n1 == n2,
        f1 == f2,
{
    reveal_strlit("button_");
    reveal_strlit("_");
    crate::text::lemma_decimal(n1);
    crate::text::lemma_decimal(n2);
    let k1 = button_key(n1, f1);
    let k2 = button_key(n2, f2);
    let d1 = decimal(n1);
    let d2 = decimal(n2);
    let l1: int = d1.len() as int;
    let l2: int = d2.len() as int;
    assert(k1[7 + l1] == '_');
    assert(k2[7 + l2] == '_');
    if l1 < l2 {
        assert(k2[7 + l1] == d2[l1]);
        assert(is_digit(d2[l1]));
        assert(false);
    }
    if l2 < l1 {
        assert(k1[7 + l2] == d1[l2]);
        assert(is_digit(d1[l2]));
        assert(false);
    }
    assert(d1 =~= k1.subrange(7, 7 + l1));
    assert(d2 =~= k2.subrange(7, 7 + l2));
    crate::text::lemma_decimal_injective(n1, n2);
    assert(f1 =~= k1.skip(8 + l1));
    assert(f2 =~= k2.skip(8 + l2));
}

/// The fields of a button have names of their own.
proof fn lemma_field_names_distinct(a: int, b: int)
    requires
        0 <= a < b < 5,
    ensures
        field_names()[a] != field_names()[b],
{
    reveal_strlit("title");
    reveal_strlit("kind");
    reveal_strlit("number");
    reveal_strlit("transfer");
    reveal_strlit("pickup");
    let n = field_names();
    assert(n[0][0] == 't' && n[0][1] == 'i');
    assert(n[1][0] == 'k');
    assert(n[2][0] == 'n');
    assert(n[3][0] == 't' && n[3][1] == 'r');
    assert(n[4][0] == 'p');
}

/// The five names that are not a button's differ from each other and from
/// every button's.
proof fn lemma_fixed_names(n: nat, f: Seq<char>)
    ensures
        button_key(n, f) != "transport"@,
        button_key(n, f) != "ca_file"@,
        button_key(n, f) != "media_encryption"@,
        button_key(n, f) != "codecs"@,
        button_key(n, f) != "browser_integration"@,
        "transport"@ != "ca_file"@,
        "transport"@ != "media_encryption"@,
        "transport"@ != "codecs"@,
        "transport"@ != "browser_integration"@,
        "ca_file"@ != "media_encryption"@,
        "ca_file"@ != "codecs"@,
        "ca_file"@ != "browser_integration"@,
        "media_encryption"@ != "codecs"@,
        "media_encryption"@ != "browser_integration"@,
        "codecs"@ != "browser_integration"@,
{
    reveal_strlit("button_");
    reveal_strlit("transport");
    reveal_strlit("ca_file");
    reveal_strlit("media_encryption");
    reveal_strlit("codecs");
    reveal_strlit("browser_integration");
    let k = button_key(n, f);
    assert(k[0] == 'b');
    assert(k[1] == 'u');
    assert("transport"@[0] == 't');
    assert("ca_file"@[0] == 'c' && "ca_file"@[1] == 'a');
    assert("codecs"@[0] == 'c' && "codecs"@[1] == 'o');
    assert("media_encryption"@[0] == 'm');
    assert("browser_integration"@[1] == 'r');
}

/// The policy values of settings, read back into settings, give back the
/// transport, the certificate authority, the media encryption, the codecs, the browser
/// integration and each button: its kind as the rules read it, in lower case
/// and without white space around it, the rest as it was. The places beyond
/// the buttons hold unused ones.
pub proof fn law_policy_values_read_back(s: Settings, before: Settings, after: Settings)
    requires
        s.buttons@.len() <= CustomButton::COUNT,
        read_policy_spec(before, policy_spec(s), after),
    ensures
        after.transport@ == s.transport@,
        after.ca_file@ == s.ca_file@,
        after.media_encryption@ == s.media_encryption@,
        after.codecs@ == s.codecs@,
        after.browser_integration == s.browser_integration,
        forall|i: int|
            0 <= i < s.buttons@.len() ==> {
                &&& (#[trigger] after.buttons@[i]).title@ == s.buttons@[i].title@
                &&& after.buttons@[i].kind@ == lower(trim(s.buttons@[i].kind@))
                &&& after.buttons@[i].number@ == s.buttons@[i].number@
                &&& after.buttons@[i].transfer@ == s.buttons@[i].transfer@
                &&& after.buttons@[i].pickup@ == s.buttons@[i].pickup@
            },
        forall|i: int|
            s.buttons@.len() <= i < CustomButton::COUNT ==> unused_button(#[trigger] after.buttons@[i]),
{
    let st = policy_spec(s);
    let m = s.buttons@.len();
    let pairs = button_pairs(s.buttons@, m);
    lemma_button_pairs(s.buttons@, m);
    lemma_fixed_names(0, Seq::empty());
    assert(st.len() == 5 + 5 * m);
    assert forall|p: int| 5 <= p < st.len() implies st[p] == pairs[p - 5] by {}
    // The fixed names come first, each once.
    lemma_lookup_at(st, 0);
    lemma_lookup_at(st, 1);
    lemma_lookup_at(st, 2);
    lemma_lookup_at(st, 3);
    lemma_lookup_at(st, 4);
    reveal_strlit("true");
    reveal_strlit("false");
    reveal_strlit("1");
    reveal_strlit("yes");
    reveal_strlit("on");
    assert(trim("true"@) =~= "true"@) by {
        crate::text::lemma_trim_start("true"@, 0);
        crate::text::lemma_trim_end("true"@, 4);
    }
    assert(trim("false"@) =~= "false"@) by {
        crate::text::lemma_trim_start("false"@, 0);
        crate::text::lemma_trim_end("false"@, 5);
    }
    assert(lower("true"@) =~= "true"@);
    assert(lower("false"@) =~= "false"@);
    // A button's name is found at its place, and a name beyond the buttons nowhere.
    let names = field_names();
    assert forall|i: int, f: int| 0 <= i < CustomButton::COUNT && 0 <= f < 5 implies lookup(
        st,
        #[trigger] button_key((i + 1) as nat, names[f]),
    ) == (if i < m {
        button_fields(s.buttons@[i])[f]
    } else {
        Seq::<char>::empty()
    }) by {
        let key = button_key((i + 1) as nat, names[f]);
        lemma_fixed_names((i + 1) as nat, names[f]);
        if i < m {
            let p = 5 + 5 * i + f;
            assert(st[p] == pairs[5 * i + f]);
            assert forall|j: int| 0 <= j < p implies (#[trigger] st[j]).0 != st[p].0 by {
                if j >= 5 {
                    let q = (j - 5) / 5;
                    let g = (j - 5) % 5;
                    assert(j - 5 == 5 * q + g) by (nonlinear_arith)
                        requires
                            j >= 5,
                            q == (j - 5) / 5,
                            g == (j - 5) % 5,
                    ;
                    assert(0 <= q < m) by (nonlinear_arith)
                        requires
                            5 <= j < 5 + 5 * m,
                            q == (j - 5) / 5,
                    ;
                    assert(st[j] == pairs[5 * q + g]);
                    if st[j].0 == st[p].0 {
                        lemma_button_key_injective((q + 1) as nat, names[g], (i + 1) as nat, names[f]);
                        assert(q == i);
                        assert(g < f);
                        lemma_field_names_distinct(g, f);
                    }
                }
            }
            lemma_lookup_at(st, p);
        } else {
            assert forall|j: int| 0 <= j < st.len() implies (#[trigger] st[j]).0 != key by {
                if j >= 5 {
                    let q = (j - 5) / 5;
                    let g = (j - 5) % 5;
                    assert(j - 5 == 5 * q + g) by (nonlinear_arith)
                        requires
                            j >= 5,
                            q == (j - 5) / 5,
                            g == (j - 5) % 5,
                    ;
                    assert(0 <= q < m) by (nonlinear_arith)
                        requires
                            5 <= j < 5 + 5 * m,
                            q == (j - 5) / 5,
                    ;
                    assert(st[j] == pairs[5 * q + g]);
                    if st[j].0 == key {
                        lemma_button_key_injective((q + 1) as nat, names[g], (i + 1) as nat, names[f]);
                    }
                }
            }
            lemma_lookup_absent(st, key);
        }
    }
    assert forall|i: int| 0 <= i < m implies {
        &&& (#[trigger] after.buttons@[i]).title@ == s.buttons@[i].title@
        &&& after.buttons@[i].kind@ == lower(trim(s.buttons@[i].kind@))
        &&& after.buttons@[i].number@ == s.buttons@[i].number@
        &&& after.buttons@[i].transfer@ == s.buttons@[i].transfer@
        &&& after.buttons@[i].pickup@ == s.buttons@[i].pickup@
    } by {
        assert(policy_button(st, (i + 1) as nat, after.buttons@[i]));
        assert(lookup(st, button_key((i + 1) as nat, names[0])) == button_fields(s.buttons@[i])[0]);
        assert(lookup(st, button_key((i + 1) as nat, names[1])) == button_fields(s.buttons@[i])[1]);
        assert(lookup(st, button_key((i + 1) as nat, names[2])) == button_fields(s.buttons@[i])[2]);
        assert(lookup(st, button_key((i + 1) as nat, names[3])) == button_fields(s.buttons@[i])[3]);
        assert(lookup(st, button_key((i + 1) as nat, names[4])) == button_fields(s.buttons@[i])[4]);
    }
    assert forall|i: int| m <= i < CustomButton::COUNT implies unused_button(#[trigger] after.buttons@[i]) by {
        assert(policy_button(st, (i + 1) as nat, after.buttons@[i]));
        assert(lookup(st, button_key((i + 1) as nat, names[0])) == Seq::<char>::empty());
        assert(lookup(st, button_key((i + 1) as nat, names[1])) == Seq::<char>::empty());
        assert(lookup(st, button_key((i + 1) as nat, names[2])) == Seq::<char>::empty());
        assert(lookup(st, button_key((i + 1) as nat, names[3])) == Seq::<char>::empty());
        assert(lookup(st, button_key((i + 1) as nat, names[4])) == Seq::<char>::empty());
        assert(trim(Seq::<char>::empty()) =~= Seq::<char>::empty());
        assert(lower(Seq::<char>::empty()) =~= Seq::<char>::empty());
    }
}

/// Settings that pass the rules hold no line break in what they put on a
/// line of the engine's configuration: the two devices, the certificate
/// authority and the sound files.
pub proof fn law_valid_settings_stay_on_their_lines(s: Settings, adapters: Seq<Adapter>)
    requires
        settings_error(s, adapters) is None,
    ensures
        !s.microphone@.contains('\n'),
        !s.speaker@.contains('\n'),
        !s.ca_file@.contains('\n'),
        forall|i: int| 0 <= i < 6 ==> !(#[trigger] sounds_spec(s)[i]).contains('\n'),
{
    assert(!s.ca_file@.contains('\n')) by {
        if s.ca_file@.contains('\n') {
            let j = choose|j: int| 0 <= j < s.ca_file@.len() && s.ca_file@[j] == '\n';
            assert(is_control(s.ca_file@[j]));
        }
    }
    assert forall|i: int| 0 <= i < 6 implies !(#[trigger] sounds_spec(s)[i]).contains('\n') by {
        let p = sounds_spec(s)[i];
        assert(path_ok(p));
        if p.contains('\n') {
            let j = choose|j: int| 0 <= j < p.len() && p[j] == '\n';
            assert(is_control(p[j]));
        }
    }
}

proof fn lemma_unused_buttons_pass(bs: Seq<CustomButton>)
    requires
        forall|i: int| 0 <= i < bs.len() ==> unused_button(#[trigger] bs[i]),
    ensures
        buttons_error(bs) is None,
        watched(bs).len() == 0,
    decreases bs.len(),
{
    if bs.len() > 0 {
        let rest = bs.drop_first();
        assert forall|i: int| 0 <= i < rest.len() implies unused_button(#[trigger] rest[i]) by {
            assert(rest[i] == bs[i + 1]);
        }
        lemma_unused_buttons_pass(rest);
        assert(unused_button(bs[0]));
        lemma_empty_target_ok(bs[0].number@);
        lemma_empty_target_ok(bs[0].transfer@);
        lemma_empty_target_ok(bs[0].pickup@);
        let init = bs.drop_last();
        assert forall|i: int| 0 <= i < init.len() implies unused_button(#[trigger] init[i]) by {
            assert(init[i] == bs[i]);
        }
        lemma_unused_buttons_pass(init);
        assert(unused_button(bs.last()));
        reveal_strlit("open");
        reveal_strlit("dial");
        reveal_strlit("park");
        reveal_strlit("speed");
        reveal_strlit("dnd");
        assert(bs[0].kind@ != "open"@);
        assert(bs[0].kind@ != "speed"@);
        assert(!has_control(bs[0].title@));
        assert(button_error(bs[0]) is None);
        assert(!watches_spec(bs.last()));
    }
}

proof fn lemma_empty_target_ok(t: Seq<char>)
    requires
        t.len() == 0,
    ensures
        target_ok_spec(t),
        address_of(t).len() == 0,
{
    crate::text::lemma_trim_start(t, 0);
    crate::text::lemma_trim_end(t.skip(0), 0);
    assert(t.skip(0).take(0) =~= t);
}

/// The settings a new installation starts with pass the rules, whatever
/// adapters the machine has: a first start with nothing stored works.
pub proof fn law_the_defaults_pass_the_rules(s: Settings, adapters: Seq<Adapter>)
    requires
        is_default(s),
    ensures
        settings_error(s, adapters) is None,
{
    lemma_empty_target_ok(s.network_adapter@);
    reveal_strlit("default");
    reveal_strlit("show");
    assert(!s.microphone@.contains('\r') && !s.microphone@.contains('\n') && !s.microphone@.contains('\0'));
    lemma_empty_target_ok(s.shortcut_window@);
    lemma_empty_target_ok(s.shortcut_call@);
    assert(shortcuts_of(s.shortcut_window@, s.shortcut_call@) is Ok);
    assert forall|i: int| 0 <= i < 6 implies path_ok(#[trigger] sounds_spec(s)[i]) by {
        assert(sounds_spec(s)[i].len() == 0);
    }
    assert(lower(s.transport@) =~= Seq::<char>::empty());
    lemma_empty_target_ok(s.codecs@);
    reveal_strlit("sdes");
    reveal_strlit("osrtp");
    assert(media_error(s) is None);
    lemma_unused_buttons_pass(s.buttons@);
    assert(watched(s.buttons@).no_duplicates());
}

} // verus!
