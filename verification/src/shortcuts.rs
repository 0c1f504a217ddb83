//! Global shortcuts: how the two keys of the settings are read, and when
//! they are refused.
use vstd::prelude::*;
use global_hotkey::hotkey::HotKey;
use crate::message::{json_message_text, message, message_with, str_views};
use crate::settings::Settings;
use crate::text::{chars_of, trim, trim_str};

verus! {

#[verifier::external_type_specification]
#[verifier::external_body]
pub struct ExHotKey(HotKey);

/// The id of the hotkey that `global_hotkey` reads from a text, or `None`
/// when it reads none.
pub uninterp spec fn hotkey_id(text: Seq<char>) -> Option<u32>;

/// A hotkey read from a text, with the id of the hotkey and the text it was
/// read from. Only `parse_hotkey` makes one, so the key a shortcut holds is
/// the key its text names.
pub struct Shortcut {
    key: HotKey,
    id: u32,
    text: Ghost<Seq<char>>,
}

impl Shortcut {
    /// The text the hotkey was read from.
    pub closed spec fn text(&self) -> Seq<char> {
        self.text@
    }

    /// The id `global_hotkey` gives the hotkey of that text.
    pub closed spec fn key_id(&self) -> u32 {
        self.id
    }

    #[verifier::type_invariant]
    spec fn reads_its_text(self) -> bool {
        hotkey_id(self.text@) == Some(self.id)
    }

    /// The hotkey read from the text.
    pub closed spec fn hotkey(&self) -> HotKey {
        self.key
    }

    /// The hotkey, to register.
    pub fn key(&self) -> (r: HotKey)
        ensures
            r == self.hotkey(),
    {
        self.key
    }

    /// The id of the hotkey.
    pub fn id(&self) -> (r: u32)
        ensures
            r == self.key_id(),
            hotkey_id(self.text()) == Some(r),
    {
        proof {
            use_type_invariant(self);
        }
        self.id
    }
}

/// `str::parse::<HotKey>` of `global_hotkey`, which the global shortcuts
/// plugin of tauri reads a shortcut with, and the id of what it read. The
/// hotkey is a function of the text (`parse_hotkey` in the crate); what is
/// claimed is that it is the one read from this text, whose id is
/// `HotKey::new`'s, made from its modifiers and its key, and the same for
/// two hotkeys exactly when they are equal.
#[verifier::external_body]
fn parse_hotkey(text: &str) -> (r: Option<Shortcut>)
    ensures
        match r {
            Some(k) => k.text() == text@ && hotkey_id(text@) == Some(k.key_id()),
            None => hotkey_id(text@) is None,
        },
{
    text.parse::<HotKey>().ok().map(|key| Shortcut { key, id: key.id(), text: Ghost(text@) })
}

/// What a shortcut's text amounts to: nothing when it is empty, the id of
/// its hotkey, or the message that says it could not be read.
pub open spec fn shortcut_of(text: Seq<char>) -> Result<Option<u32>, Seq<char>> {
    let t = trim(text);
    if t.len() == 0 {
        Ok(None)
    } else {
        match hotkey_id(t) {
            Some(id) => Ok(Some(id)),
            None => Err(json_message_text("SHORTCUT_SYNTAX"@, seq![t])),
        }
    }
}

/// What the two shortcuts of the settings amount to together.
pub open spec fn shortcuts_of(window: Seq<char>, call: Seq<char>) -> Result<
    (Option<u32>, Option<u32>),
    Seq<char>,
> {
    match shortcut_of(window) {
        Err(e) => Err(e),
        Ok(w) => match shortcut_of(call) {
            Err(e) => Err(e),
            Ok(c) => if w is Some && w == c {
                Err("SHORTCUT_DUPLICATE"@)
            } else {
                Ok((w, c))
            },
        },
    }
}

/// The id a read shortcut carries, if there is one.
pub open spec fn id_of(key: Option<Shortcut>) -> Option<u32> {
    match key {
        Some(k) => Some(k.key_id()),
        None => None,
    }
}

/// The text a read shortcut was read from, if there is one.
pub open spec fn text_of(key: Option<Shortcut>) -> Option<Seq<char>> {
    match key {
        Some(k) => Some(k.text()),
        None => None,
    }
}

/// A shortcut is written as `SHIFT+F2`. Empty means the key is not used. A
/// key that is read is the one its text, without white space around it,
/// names.
pub fn parse(text: &str) -> (r: Result<Option<Shortcut>, String>)
    ensures
        match (r, shortcut_of(text@)) {
            (Ok(k), Ok(i)) => id_of(k) == i && (k is Some ==> text_of(k) == Some(trim(text@))),
            (Err(e), Err(m)) => e@ == m,
            _ => false,
        },
{
    let t = trim_str(text);
    if chars_of(t).len() == 0 {
        return Ok(None);
    }
    match parse_hotkey(t) {
        Some(found) => Ok(Some(found)),
        None => {
            let values = [t];
            assert(str_views(values@) =~= seq![t@]);
            Err(message_with("SHORTCUT_SYNTAX", &values))
        },
    }
}

/// Reads both shortcuts, each from its own text, and says so when they
/// would fight each other.
pub fn parse_settings(settings: &Settings) -> (r: Result<(Option<Shortcut>, Option<Shortcut>), String>)
    ensures
        match (r, shortcuts_of(settings.shortcut_window@, settings.shortcut_call@)) {
            (Ok((w, c)), Ok((wi, ci))) => {
                &&& id_of(w) == wi
                &&& id_of(c) == ci
                &&& w is Some ==> text_of(w) == Some(trim(settings.shortcut_window@))
                &&& c is Some ==> text_of(c) == Some(trim(settings.shortcut_call@))
            },
            (Err(e), Err(m)) => e@ == m,
            _ => false,
        },
{
    let w = match parse(settings.shortcut_window.as_str()) {
        Ok(found) => found,
        Err(e) => return Err(e),
    };
    let c = match parse(settings.shortcut_call.as_str()) {
        Ok(found) => found,
        Err(e) => return Err(e),
    };
    match (&w, &c) {
        (Some(wk), Some(ck)) => {
            if wk.id() == ck.id() {
                return Err(message("SHORTCUT_DUPLICATE"));
            }
        },
        _ => {},
    }
    Ok((w, c))
}

} // verus!
