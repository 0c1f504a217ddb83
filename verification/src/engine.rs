//! The decisions around the engine: what it is told to watch, what a saved
//! configuration has to hold, what an event changes, which recording step
//! comes next, and when a new network address calls for a restart. The
//! process, the pipes and the control channel are the app's; the choices
//! are made here.
use vstd::prelude::*;
use crate::message::{json_message_text, message, message_with, str_views};
use crate::phone_state::{CallInfo, call_views, recording_target, automatic_recording_target};
use crate::settings::{CustomButton, Settings, first_occurrences, watched};
use crate::storage::Account;
use crate::text::{chars_of, extend_str, is, opt_view, owned, string_of, text_result, trim, trim_str};

verus! {

/// A number a parking button watches, and what the engine says of it.
pub struct ParkingInfo {
    pub number: String,
    pub state: String,
}

/// A transfer in progress: the call that is handed over, the call to where
/// it goes, whether the engine still works on it, and how it ended.
pub struct Transfer {
    pub original: String,
    pub consultation: String,
    pub pending: bool,
    pub outcome: String,
}

impl Default for Transfer {
    fn default() -> (r: Self)
        ensures
            r.original@.len() == 0,
            r.consultation@.len() == 0,
            !r.pending,
            r.outcome@.len() == 0,
    {
        Transfer {
            original: String::new(),
            consultation: String::new(),
            pending: false,
            outcome: String::new(),
        }
    }
}

// ---------------------------------------------------------------------
// What the engine watches
// ---------------------------------------------------------------------

/// The numbers, exactly `n` of them: cut off, or made up with empty ones.
pub open spec fn padded_to(s: Seq<Seq<char>>, n: nat) -> Seq<Seq<char>> {
    if s.len() >= n {
        s.take(n as int)
    } else {
        s + Seq::new((n - s.len()) as nat, |i: int| Seq::<char>::empty())
    }
}

/// The items with a comma between each two.
pub open spec fn comma_joined(s: Seq<Seq<char>>) -> Seq<char>
    decreases s.len(),
{
    if s.len() == 0 {
        Seq::empty()
    } else if s.len() == 1 {
        s[0]
    } else {
        comma_joined(s.drop_last()) + seq![','] + s.last()
    }
}

/// What the engine is told to watch: thirty comma-separated numbers, empty
/// ones included.
pub open spec fn parking_spec(s: Settings) -> Seq<char> {
    comma_joined(padded_to(first_occurrences(watched(s.buttons@)), CustomButton::COUNT as nat))
}

pub fn parking_list(s: &Settings) -> (r: String)
    ensures
        r@ == parking_spec(*s),
{
    let numbers = s.watched_numbers();
    let ghost all = padded_to(first_occurrences(watched(s.buttons@)), CustomButton::COUNT as nat);
    let mut out: Vec<char> = Vec::new();
    let mut i: usize = 0;
    while i < CustomButton::COUNT
        invariant
            i <= CustomButton::COUNT,
            crate::message::str_views(numbers@) == first_occurrences(watched(s.buttons@)),
            all == padded_to(first_occurrences(watched(s.buttons@)), CustomButton::COUNT as nat),
            out@ == comma_joined(all.take(i as int)),
        decreases CustomButton::COUNT - i,
    {
        let ghost before = all.take(i as int);
        assert(all.take(i + 1).drop_last() =~= before);
        if i > 0 {
            out.push(',');
        }
        if i < numbers.len() {
            assert(all[i as int] == numbers@[i as int]@);
            extend_str(&mut out, numbers[i]);
        } else {
            assert(all[i as int] =~= Seq::<char>::empty());
        }
        proof {
            if i == 0 {
                assert(all.take(1) =~= seq![all[0]]);
            }
        }
        assert(out@ =~= comma_joined(all.take(i + 1)));
        i += 1;
    }
    assert(all.take(CustomButton::COUNT as int) =~= all);
    string_of(&out)
}

// ---------------------------------------------------------------------
// A configuration to save
// ---------------------------------------------------------------------

/// The stored password is kept for an account whose authentication user
/// stays the same. The vault holds that user and the password; the address
/// lives in the registry, so changing it asks for nothing.
pub open spec fn carried_password(previous: Option<Account>, auth_user: Seq<char>) -> Result<
    Seq<char>,
    Seq<char>,
> {
    match previous {
        Some(p) => if p.auth_user@ == trim(auth_user) {
            Ok(p.password@)
        } else {
            Err("ACCOUNT_PASSWORD_REQUIRED"@)
        },
        None => Err("ACCOUNT_PASSWORD_REQUIRED"@),
    }
}

pub fn password_for(previous: Option<Account>, account: &Account) -> (r: Result<String, String>)
    ensures
        crate::text::text_result(r) == carried_password(previous, account.auth_user@),
{
    match previous {
        Some(p) => {
            if is(p.auth_user.as_str(), trim_str(account.auth_user.as_str())) {
                Ok(p.password)
            } else {
                Err(message("ACCOUNT_PASSWORD_REQUIRED"))
            }
        },
        None => Err(message("ACCOUNT_PASSWORD_REQUIRED")),
    }
}

// ---------------------------------------------------------------------
// Events of the engine
// ---------------------------------------------------------------------

/// The registration states the window shows as the engine reports them.
pub open spec fn is_registration(kind: Seq<char>) -> bool {
    kind == "REGISTERING"@ || kind == "REGISTER_OK"@ || kind == "REGISTER_FAIL"@ || kind
        == "UNREGISTERING"@
}

/// What an event of the engine changes in what the window shows: the
/// registration state, and the error in the banner.
pub struct EventEffects {
    pub registration: Option<String>,
    pub error: Option<String>,
}

pub fn event_effects(kind: &str) -> (r: EventEffects)
    ensures
        match r.registration {
            Some(t) => is_registration(kind@) && t@ == kind@,
            None => !is_registration(kind@),
        },
        match r.error {
            Some(e) => kind@ == "AUDIO_ERROR"@ && e@ == "AUDIO_DEVICE_INIT_FAILED"@,
            None => kind@ != "AUDIO_ERROR"@,
        },
{
    let registration = if is(kind, "REGISTERING") || is(kind, "REGISTER_OK") || is(
        kind,
        "REGISTER_FAIL",
    ) || is(kind, "UNREGISTERING") {
        Some(owned(kind))
    } else {
        None
    };
    let error = if is(kind, "AUDIO_ERROR") {
        Some(message("AUDIO_DEVICE_INIT_FAILED"))
    } else {
        None
    };
    EventEffects { registration, error }
}

/// The log line an event makes: its kind and its parameter. Credentials
/// never enter events.
pub fn event_line(kind: &str, param: &str) -> (r: String)
    ensures
        r@ == kind@ + seq![' '] + param@,
{
    let mut v = chars_of(kind);
    v.push(' ');
    extend_str(&mut v, param);
    string_of(&v)
}

/// The engine's words for why a command failed, or that the action failed.
pub open spec fn failure_detail(data: Option<Seq<char>>) -> Seq<char> {
    match data {
        Some(d) => d,
        None => "ACTION_FAILED"@,
    }
}

/// What a command comes to once the engine has answered: its data when the
/// answer says it went through, the engine's words for why not otherwise,
/// or, without any, that the action failed.
pub open spec fn reply_spec(command: Seq<char>, ok: bool, data: Option<Seq<char>>) -> Result<Seq<char>, Seq<char>> {
    if ok {
        Ok(
            match data {
                Some(d) => d,
                None => Seq::empty(),
            },
        )
    } else {
        Err(json_message_text("ENGINE_COMMAND_FAILED"@, seq![command, failure_detail(data)]))
    }
}

/// What a command comes to: `ok` is whether the answer's `ok` member is
/// `true`, `data` its `data` member when that is a string.
pub fn reply(command: &str, ok: bool, data: Option<&str>) -> (r: Result<String, String>)
    ensures
        text_result(r) == reply_spec(command@, ok, opt_view(data)),
{
    if ok {
        return Ok(
            match data {
                Some(d) => owned(d),
                None => String::new(),
            },
        );
    }
    let failed = message("ACTION_FAILED");
    let detail = match data {
        Some(d) => d,
        None => failed.as_str(),
    };
    assert(detail@ == failure_detail(opt_view(data)));
    let values = [command, detail];
    assert(str_views(values@) =~= seq![command@, failure_detail(opt_view(data))]);
    let e = message_with("ENGINE_COMMAND_FAILED", &values);
    assert(e@ == json_message_text("ENGINE_COMMAND_FAILED"@, seq![command@, failure_detail(opt_view(data))]));
    Err(e)
}

// ---------------------------------------------------------------------
// The automatic recording
// ---------------------------------------------------------------------

/// What the automatic recording does next.
pub enum RecordingStep {
    /// Nothing changes.
    Stay,
    /// The recording stops: automatic recording is off, or no call is left.
    Stop,
    /// The running recording goes on with another call, or with none (`None`).
    Follow(Option<String>),
    /// A recording starts for the call.
    Start(String),
}

pub enum StepView {
    Stay,
    Stop,
    Follow(Option<Seq<char>>),
    Start(Seq<char>),
}

pub open spec fn step_view(s: RecordingStep) -> StepView {
    match s {
        RecordingStep::Stay => StepView::Stay,
        RecordingStep::Stop => StepView::Stop,
        RecordingStep::Follow(t) => StepView::Follow(
            match t {
                Some(x) => Some(x@),
                None => None,
            },
        ),
        RecordingStep::Start(t) => StepView::Start(t@),
    }
}

/// The next step of the automatic recording, from the setting, whether a
/// recording runs and for which call, and the calls there are.
pub open spec fn recording_step_spec(
    auto_record: bool,
    recording: bool,
    recording_call: Seq<char>,
    calls: Seq<crate::phone_state::CallView>,
) -> StepView {
    let target = recording_target(auto_record, calls);
    if recording && (!auto_record || calls.len() == 0) {
        StepView::Stop
    } else if recording && target != Some(recording_call) {
        StepView::Follow(target)
    } else if !recording && target is Some {
        StepView::Start(target->0)
    } else {
        StepView::Stay
    }
}

pub fn recording_step(
    auto_record: bool,
    recording: bool,
    recording_call: &str,
    calls: &[CallInfo],
) -> (r: RecordingStep)
    ensures
        step_view(r) == recording_step_spec(auto_record, recording, recording_call@, call_views(calls@)),
{
    let target = automatic_recording_target(auto_record, calls);
    if recording && (!auto_record || calls.len() == 0) {
        return RecordingStep::Stop;
    }
    let same = match &target {
        Some(t) => is(t.as_str(), recording_call),
        None => false,
    };
    if recording && !same {
        return RecordingStep::Follow(target);
    }
    if !recording {
        if let Some(id) = target {
            return RecordingStep::Start(id);
        }
    }
    RecordingStep::Stay
}

// ---------------------------------------------------------------------
// A new network address
// ---------------------------------------------------------------------

/// What a change of the network calls for.
pub enum NetworkStep {
    /// Nothing: no adapter is chosen, the engine is not running, its
    /// address cannot be read, or it has not changed.
    Stay,
    /// The address changed during a call; the person is told, and the call
    /// goes on.
    Tell,
    /// The engine is restarted on the new address.
    Reconnect,
}

/// The engine binds one address, so a new one means the binding is stale.
/// Re-registering does not re-bind; only a restart does. A call is never
/// cut short for this.
pub open spec fn network_step_spec(
    adapter: Seq<char>,
    running: bool,
    bound: Seq<char>,
    current: Option<Seq<char>>,
    calls: nat,
) -> NetworkStep {
    if trim(adapter).len() == 0 || !running {
        NetworkStep::Stay
    } else {
        match current {
            None => NetworkStep::Stay,
            Some(c) => if c == bound {
                NetworkStep::Stay
            } else if calls > 0 {
                NetworkStep::Tell
            } else {
                NetworkStep::Reconnect
            },
        }
    }
}

pub fn network_step(
    adapter: &str,
    running: bool,
    bound: &str,
    current: Option<&str>,
    calls: usize,
) -> (r: NetworkStep)
    ensures
        r == network_step_spec(adapter@, running, bound@, crate::text::opt_view(current), calls as nat),
{
    if chars_of(trim_str(adapter)).len() == 0 || !running {
        return NetworkStep::Stay;
    }
    match current {
        None => NetworkStep::Stay,
        Some(c) => {
            if is(c, bound) {
                NetworkStep::Stay
            } else if calls > 0 {
                NetworkStep::Tell
            } else {
                NetworkStep::Reconnect
            }
        },
    }
}

// ---------------------------------------------------------------------
// The devices the engine opens
// ---------------------------------------------------------------------

/// The microphone the engine opens: the one found for the saved choice, or,
/// when none is there, the default, whose silence is better than no
/// registration. Says too whether a saved choice was missing.
pub open spec fn microphone_spec(saved: Seq<char>, found: Option<Seq<char>>) -> (Seq<char>, bool) {
    match found {
        Some(id) => (id, false),
        None => ("default"@, saved != "default"@),
    }
}

pub fn microphone_choice(saved: &str, found: Option<String>) -> (r: (String, bool))
    ensures
        (r.0@, r.1) == microphone_spec(saved@, crate::phone_state::text_view(found)),
{
    match found {
        Some(id) => (id, false),
        None => (owned("default"), !crate::text::is(saved, "default")),
    }
}

} // verus!
