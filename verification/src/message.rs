//! What the library says, without saying it.
//!
//! A result names what happened and carries the values that belong in the
//! sentence; the window owns the words, in whatever language it shows. A
//! message travels as one string: most are just the name, and one that
//! carries values is a small JSON document, because a value can hold
//! anything at all.
use vstd::prelude::*;
use crate::text::{
    all_ascii, chars_of, decimal, extend, is, is_digit, is_upper, owned, push_decimal, replace,
    replaced, string_of, upper_char,
};

verus! {

// ---------------------------------------------------------------------
// What serde_json writes and reads
// ---------------------------------------------------------------------

/// The text `serde_json` writes for the object `{"code": code, "args": args}`.
pub uninterp spec fn json_message_text(code: Seq<char>, args: Seq<Seq<char>>) -> Seq<char>;

/// What `serde_json` reads from a text, as far as a message goes: `None` when
/// the text is not JSON; else the `code` member when it is a string, and the
/// `args` member when it is an array, each of its items when that is a string.
pub uninterp spec fn json_message_fields(text: Seq<char>) -> Option<
    (Option<Seq<char>>, Option<Seq<Option<Seq<char>>>>),
>;

pub open spec fn str_views(v: Seq<&str>) -> Seq<Seq<char>> {
    v.map_values(|s: &str| s@)
}

pub open spec fn string_views(v: Seq<String>) -> Seq<Seq<char>> {
    v.map_values(|s: String| s@)
}

/// Every value present, and a string.
pub open spec fn all_strings(v: Seq<Seq<char>>) -> Seq<Option<Seq<char>>> {
    v.map_values(|s: Seq<char>| Some(s))
}

/// `serde_json::Value::to_string` on the object with the members `code`
/// and `args`. The writer is compact: an object starts with `{`, and a
/// string escapes its control characters, so no line break is written; what
/// `serde_json` reads back from the text is the same object.
#[verifier::external_body]
fn write_json_message(code: &str, args: &[&str]) -> (r: String)
    ensures
        r@ == json_message_text(code@, str_views(args@)),
        r@.len() > 0 && r@[0] == '{',
        !r@.contains('\n'),
        json_message_fields(r@) == Some((Some(code@), Some(all_strings(str_views(args@))))),
{
    let mut object = serde_json::Map::new();
    object.insert("code".to_string(), serde_json::Value::String(code.to_string()));
    let values: Vec<serde_json::Value> = args.iter().map(|a| serde_json::Value::String(a.to_string())).collect();
    object.insert("args".to_string(), serde_json::Value::Array(values));
    serde_json::Value::Object(object).to_string()
}

pub open spec fn field_views(r: Option<(Option<String>, Option<Vec<Option<String>>>)>) -> Option<
    (Option<Seq<char>>, Option<Seq<Option<Seq<char>>>>),
> {
    match r {
        None => None,
        Some((code, args)) => Some(
            (
                match code {
                    Some(c) => Some(c@),
                    None => None,
                },
                match args {
                    Some(a) => Some(
                        a@.map_values(
                            |x: Option<String>|
                                match x {
                                    Some(t) => Some(t@),
                                    None => None,
                                },
                        ),
                    ),
                    None => None,
                },
            ),
        ),
    }
}

/// `serde_json::from_str::<Value>`, then the members `code` and `args` of
/// what was read, each taken as it is when it is a string or an array.
#[verifier::external_body]
fn read_json_message(text: &str) -> (r: Option<(Option<String>, Option<Vec<Option<String>>>)>)
    ensures
        field_views(r) == json_message_fields(text@),
{
    let value: serde_json::Value = serde_json::from_str(text).ok()?;
    let code = value.get("code").and_then(|c| c.as_str()).map(|c| c.to_string());
    let args = value.get("args").and_then(|a| a.as_array()).map(
        |a| a.iter().map(|v| v.as_str().map(|s| s.to_string())).collect(),
    );
    Some((code, args))
}

// ---------------------------------------------------------------------
// Messages
// ---------------------------------------------------------------------

/// A message that is only a name, such as `SIP_ACCOUNT_REQUIRED`.
pub fn message(code: &str) -> (r: String)
    ensures
        r@ == code@,
{
    owned(code)
}

/// A message with the values its sentence needs, in the order it uses them.
pub fn message_with(code: &str, values: &[&str]) -> (r: String)
    ensures
        r@ == json_message_text(code@, str_views(values@)),
        r@.len() > 0 && r@[0] == '{',
        !r@.contains('\n'),
        json_message_fields(r@) == Some((Some(code@), Some(all_strings(str_views(values@))))),
{
    write_json_message(code, values)
}

/// The values of an `args` member: a value that is not a string counts as
/// empty, and a missing member as no values.
pub open spec fn arg_texts(args: Option<Seq<Option<Seq<char>>>>) -> Seq<Seq<char>> {
    match args {
        None => Seq::empty(),
        Some(a) => a.map_values(
            |x: Option<Seq<char>>|
                match x {
                    Some(t) => t,
                    None => Seq::empty(),
                },
        ),
    }
}

/// The name and values a text read as JSON holds, or nothing when it holds
/// no name.
pub open spec fn parts_of(
    fields: Option<(Option<Seq<char>>, Option<Seq<Option<Seq<char>>>>)>,
) -> (Seq<char>, Seq<Seq<char>>) {
    match fields {
        Some((Some(code), args)) => (code, arg_texts(args)),
        _ => (Seq::empty(), Seq::empty()),
    }
}

/// What a message splits into: a JSON one into its name and values, prose
/// into itself and no values.
pub open spec fn split_spec(text: Seq<char>) -> (Seq<char>, Seq<Seq<char>>) {
    if text.len() > 0 && text[0] == '{' {
        parts_of(json_message_fields(text))
    } else {
        (text, Seq::empty())
    }
}

/// The name and values that `serde_json` read from a message.
pub fn message_parts(fields: Option<(Option<String>, Option<Vec<Option<String>>>)>) -> (r: (
    String,
    Vec<String>,
))
    ensures
        (r.0@, string_views(r.1@)) == parts_of(field_views(fields)),
{
    match fields {
        Some((Some(code), args)) => {
            let mut values: Vec<String> = Vec::new();
            match args {
                Some(a) => {
                    let ghost av = a@.map_values(
                        |x: Option<String>|
                            match x {
                                Some(t) => Some(t@),
                                None => None,
                            },
                    );
                    let mut i: usize = 0;
                    while i < a.len()
                        invariant
                            i <= a.len(),
                            av == a@.map_values(
                                |x: Option<String>|
                                    match x {
                                        Some(t) => Some(t@),
                                        None => None,
                                    },
                            ),
                            string_views(values@) == arg_texts(Some(av)).take(i as int),
                        decreases a.len() - i,
                    {
                        let v = match &a[i] {
                            Some(t) => owned(t.as_str()),
                            None => String::new(),
                        };
                        let ghost before = values@;
                        values.push(v);
                        assert(string_views(values@) =~= string_views(before).push(v@));
                        assert(arg_texts(Some(av)).take(i + 1) =~= arg_texts(Some(av)).take(
                            i as int,
                        ).push(v@));
                        i += 1;
                    }
                    assert(arg_texts(Some(av)).take(a.len() as int) =~= arg_texts(Some(av)));
                },
                None => {
                    assert(string_views(values@) =~= Seq::<Seq<char>>::empty());
                },
            }
            (owned(code.as_str()), values)
        },
        _ => {
            let values: Vec<String> = Vec::new();
            assert(string_views(values@) =~= Seq::<Seq<char>>::empty());
            (String::new(), values)
        },
    }
}

/// Splits a message into its name and its values. Prose has no values.
pub fn split(text: &str) -> (r: (String, Vec<String>))
    ensures
        (r.0@, string_views(r.1@)) == split_spec(text@),
{
    let v = chars_of(text);
    if v.len() > 0 && v[0] == '{' {
        message_parts(read_json_message(text))
    } else {
        let values: Vec<String> = Vec::new();
        assert(string_views(values@) =~= Seq::<Seq<char>>::empty());
        (owned(text), values)
    }
}

/// A name written the way the library writes names: an upper-case letter,
/// then upper-case letters, digits and `_`.
pub open spec fn is_name(text: Seq<char>) -> bool {
    &&& text.len() > 0
    &&& is_upper(text[0])
    &&& forall|i: int|
        0 <= i < text.len() ==> is_upper(#[trigger] text[i]) || is_digit(text[i]) || text[i]
            == '_'
}

/// Whether the text is a message of the library rather than prose.
pub open spec fn is_code_spec(text: Seq<char>) -> bool {
    if text.len() > 0 && text[0] == '{' {
        split_spec(text).0.len() > 0
    } else {
        is_name(text)
    }
}

/// Whether the text is a message of ours rather than a line of prose. The
/// engine's own output is prose and travels through the log untouched.
pub fn is_code(text: &str) -> (r: bool)
    ensures
        r == is_code_spec(text@),
{
    let v = chars_of(text);
    if v.len() > 0 && v[0] == '{' {
        let (code, _) = split(text);
        return chars_of(code.as_str()).len() > 0;
    }
    if v.len() == 0 || !('A' <= v[0] && v[0] <= 'Z') {
        return false;
    }
    let mut i: usize = 0;
    while i < v.len()
        invariant
            i <= v.len(),
            v@ == text@,
            text@.len() > 0 && text@[0] != '{' && is_upper(text@[0]),
            forall|j: int|
                0 <= j < i ==> is_upper(#[trigger] v@[j]) || is_digit(v@[j]) || v@[j] == '_',
        decreases v.len() - i,
    {
        let c = v[i];
        if !(('A' <= c && c <= 'Z') || ('0' <= c && c <= '9') || c == '_') {
            assert(!(is_upper(text@[i as int]) || is_digit(text@[i as int]) || text@[i as int] == '_'));
            return false;
        }
        i += 1;
    }
    true
}

/// A message with values gives back its name and its values, whatever they
/// hold, and it is taken for a message exactly when its name is not empty.
pub proof fn law_a_message_gives_back_its_name_and_values(code: Seq<char>, values: Seq<Seq<char>>)
    ensures
        ({
            let text = json_message_text(code, values);
            (text.len() > 0 && text[0] == '{' && json_message_fields(text) == Some(
                (Some(code), Some(all_strings(values))),
            )) ==> {
                &&& split_spec(text) == (code, values)
                &&& is_code_spec(text) == (code.len() > 0)
            }
        }),
{
    let text = json_message_text(code, values);
    if json_message_fields(text) == Some((Some(code), Some(all_strings(values)))) {
        assert(arg_texts(Some(all_strings(values))) =~= values);
    }
}

// ---------------------------------------------------------------------
// The words Windows draws
// ---------------------------------------------------------------------

/// The words for what Windows itself draws; an unknown name stands for itself.
pub open spec fn windows_words(code: Seq<char>) -> Seq<char> {
    if code == "TRAY_OPEN"@ {
        "KSIPを表示"@
    } else if code == "TRAY_QUIT"@ {
        "終了"@
    } else if code == "TRAY_LICENSES"@ {
        "ライセンス"@
    } else if code == "DIALOG_CA_FILE"@ {
        "信頼する認証局の証明書"@
    } else if code == "DIALOG_CA_FILTER"@ {
        "証明書 (*.crt;*.pem;*.cer)\0*.crt;*.pem;*.cer\0"@
    } else if code == "DIALOG_SOUND_FILE"@ {
        "着信音に使うファイル"@
    } else if code == "DIALOG_SOUND_FILTER"@ {
        "WAV (*.wav)\0*.wav\0"@
    } else if code == "NOTIFY_INCOMING"@ {
        "{0} から着信"@
    } else {
        code
    }
}

/// The words for what Windows itself draws: the tray menu, the open dialog
/// and the toast. The window's table cannot reach these, because they exist
/// without a window.
pub fn windows_text<'a>(code: &'a str) -> (r: &'a str)
    ensures
        r@ == windows_words(code@),
{
    if is(code, "TRAY_OPEN") {
        "KSIPを表示"
    } else if is(code, "TRAY_QUIT") {
        "終了"
    } else if is(code, "TRAY_LICENSES") {
        "ライセンス"
    } else if is(code, "DIALOG_CA_FILE") {
        "信頼する認証局の証明書"
    } else if is(code, "DIALOG_CA_FILTER") {
        "証明書 (*.crt;*.pem;*.cer)\0*.crt;*.pem;*.cer\0"
    } else if is(code, "DIALOG_SOUND_FILE") {
        "着信音に使うファイル"
    } else if is(code, "DIALOG_SOUND_FILTER") {
        "WAV (*.wav)\0*.wav\0"
    } else if is(code, "NOTIFY_INCOMING") {
        "{0} から着信"
    } else {
        code
    }
}

/// Where the value with the given index goes: `{0}`, `{1}`, and so on.
pub open spec fn placeholder(index: nat) -> Seq<char> {
    seq!['{'] + decimal(index) + seq!['}']
}

/// The text with the first `n` values put in their places, one after another.
pub open spec fn filled(text: Seq<char>, values: Seq<Seq<char>>, n: nat) -> Seq<char>
    decreases n,
{
    if n == 0 {
        text
    } else {
        replace(filled(text, values, (n - 1) as nat), placeholder((n - 1) as nat), values[n - 1])
    }
}

/// The same words with the values filled in, for what Windows draws.
pub fn windows_text_with(code: &str, values: &[&str]) -> (r: String)
    ensures
        r@ == filled(windows_words(code@), str_views(values@), values@.len()),
{
    let mut text = chars_of(windows_text(code));
    let mut i: usize = 0;
    while i < values.len()
        invariant
            i <= values.len(),
            text@ == filled(windows_words(code@), str_views(values@), i as nat),
        decreases values.len() - i,
    {
        let mut place: Vec<char> = Vec::new();
        place.push('{');
        push_decimal(&mut place, i as u64);
        place.push('}');
        assert(place@ =~= placeholder(i as nat));
        let value = chars_of(values[i]);
        text = replaced(&text, &place, &value);
        i += 1;
    }
    string_of(&text)
}

} // verus!
