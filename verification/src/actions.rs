//! What the window asks the phone to do, checked before the engine hears of
//! it: the operations there are, their arguments, and the targets a button
//! or a link may name.
use vstd::prelude::*;
use crate::message::message;
use crate::phone_state::{CallInfo, CallView, call_views};
use crate::settings::{CustomButton, address_of, dial_result, dial_target, link_target_spec, transfer_target_spec};
use crate::text::{byte_len, byte_length, chars_of, has_control, is, owned, trim, trim_str};

verus! {

/// What an action comes to once it has been checked.
pub enum ActionPlan {
    /// The automatic recording is switched on or off.
    AutoRecord(bool),
    /// The engine is sent the operation, with this as its value.
    Send(String),
}

pub enum PlanView {
    AutoRecord(bool),
    Send(Seq<char>),
}

pub open spec fn plan_view(p: ActionPlan) -> PlanView {
    match p {
        ActionPlan::AutoRecord(b) => PlanView::AutoRecord(b),
        ActionPlan::Send(t) => PlanView::Send(t@),
    }
}

/// The operations the window can ask for.
pub open spec fn supported(name: Seq<char>) -> bool {
    ||| name == "dial"@
    ||| name == "answer"@
    ||| name == "hangup"@
    ||| name == "hold"@
    ||| name == "resume"@
    ||| name == "select"@
    ||| name == "transfer"@
    ||| name == "cancel_transfer"@
    ||| name == "unregister"@
    ||| name == "dtmf"@
    ||| name == "blind_transfer"@
    ||| name == "auto_record"@
}

/// An argument that can travel to the engine.
pub open spec fn argument_ok(a: Seq<char>) -> bool {
    byte_len(a) <= 200 && !has_control(a)
}

pub open spec fn has_call_on(calls: Seq<CallView>, id: Seq<char>, line: u8) -> bool {
    exists|i: int| 0 <= i < calls.len() && #[trigger] calls[i].id == id && calls[i].line == line
}

pub open spec fn line_taken(calls: Seq<CallView>, line: u8) -> bool {
    exists|i: int| 0 <= i < calls.len() && #[trigger] calls[i].line == line
}

pub open spec fn talking(calls: Seq<CallView>, id: Seq<char>) -> bool {
    exists|i: int|
        0 <= i < calls.len() && #[trigger] calls[i].id == id && calls[i].state == "ESTABLISHED"@
            && !calls[i].held
}

/// Whether one of the buttons transfers to the address.
pub open spec fn button_transfers_to(buttons: Seq<CustomButton>, wanted: Seq<char>) -> bool {
    exists|i: int| 0 <= i < buttons.len() && #[trigger] transfer_target_spec(buttons[i]) == Some(wanted)
}

/// What an action comes to, or why it is refused.
pub open spec fn action_spec(
    name: Seq<char>,
    id: Seq<char>,
    value: Seq<char>,
    line: u8,
    calls: Seq<CallView>,
    buttons: Seq<CustomButton>,
) -> Result<PlanView, Seq<char>> {
    if !supported(name) {
        Err("ACTION_UNSUPPORTED"@)
    } else if !(1 <= line <= 2) || !argument_ok(id) || !argument_ok(value) {
        Err("ACTION_ARGUMENT_INVALID"@)
    } else if name == "auto_record"@ {
        if value == "on"@ {
            Ok(PlanView::AutoRecord(true))
        } else if value == "off"@ {
            Ok(PlanView::AutoRecord(false))
        } else {
            Err("AUTO_RECORD_ARGUMENT_INVALID"@)
        }
    } else if name == "dial"@ && line_taken(calls, line) {
        Err("CALL_LINE_BUSY"@)
    } else if name == "transfer"@ && (!has_call_on(calls, id, 1) || !has_call_on(calls, value, 2)) {
        Err("TRANSFER_NEEDS_TWO_CALLS"@)
    } else if name == "blind_transfer"@ {
        // Only a target one of the buttons was set up with, and only a call
        // that is actually in progress.
        let wanted = address_of(value);
        if button_transfers_to(buttons, wanted) && talking(calls, id) {
            Ok(PlanView::Send(wanted))
        } else {
            Err("BUTTON_NEEDS_CALL_AND_TARGET"@)
        }
    } else if name == "dial"@ {
        // The dial box, a button and a link are held to the same rule.
        match dial_result(value) {
            Ok(t) => Ok(PlanView::Send(t)),
            Err(e) => Err(e),
        }
    } else {
        Ok(PlanView::Send(value))
    }
}

fn argument_fits(a: &str) -> (r: bool)
    ensures
        r == argument_ok(a@),
{
    byte_length(a) <= 200 && !crate::text::any_control(a)
}

fn find_call_on(calls: &[CallInfo], id: &str, line: u8) -> (r: bool)
    ensures
        r == has_call_on(call_views(calls@), id@, line),
{
    let mut i: usize = 0;
    while i < calls.len()
        invariant
            i <= calls.len(),
            forall|j: int| 0 <= j < i ==> !(#[trigger] call_views(calls@)[j].id == id@ && call_views(calls@)[j].line == line),
        decreases calls.len() - i,
    {
        assert(call_views(calls@)[i as int] == calls@[i as int]@);
        if is(calls[i].id.as_str(), id) && calls[i].line == line {
            assert(call_views(calls@)[i as int].id == id@ && call_views(calls@)[i as int].line == line);
            return true;
        }
        i += 1;
    }
    false
}

fn find_line(calls: &[CallInfo], line: u8) -> (r: bool)
    ensures
        r == line_taken(call_views(calls@), line),
{
    let mut i: usize = 0;
    while i < calls.len()
        invariant
            i <= calls.len(),
            forall|j: int| 0 <= j < i ==> (#[trigger] call_views(calls@)[j]).line != line,
        decreases calls.len() - i,
    {
        assert(call_views(calls@)[i as int] == calls@[i as int]@);
        if calls[i].line == line {
            assert(call_views(calls@)[i as int].line == line);
            return true;
        }
        i += 1;
    }
    false
}

fn find_talking(calls: &[CallInfo], id: &str) -> (r: bool)
    ensures
        r == talking(call_views(calls@), id@),
{
    let mut i: usize = 0;
    while i < calls.len()
        invariant
            i <= calls.len(),
            forall|j: int|
                0 <= j < i ==> !(#[trigger] call_views(calls@)[j].id == id@ && call_views(calls@)[j].state
                    == "ESTABLISHED"@ && !call_views(calls@)[j].held),
        decreases calls.len() - i,
    {
        assert(call_views(calls@)[i as int] == calls@[i as int]@);
        if is(calls[i].id.as_str(), id) && is(calls[i].state.as_str(), "ESTABLISHED") && !calls[i].held {
            assert(call_views(calls@)[i as int].id == id@);
            return true;
        }
        i += 1;
    }
    false
}

fn find_transfer(buttons: &[CustomButton], wanted: &str) -> (r: bool)
    ensures
        r == button_transfers_to(buttons@, wanted@),
{
    let mut i: usize = 0;
    while i < buttons.len()
        invariant
            i <= buttons.len(),
            forall|j: int| 0 <= j < i ==> #[trigger] transfer_target_spec(buttons@[j]) != Some(wanted@),
        decreases buttons.len() - i,
    {
        match buttons[i].transfer_target() {
            Some(t) => {
                if is(t, wanted) {
                    return true;
                }
            },
            None => {},
        }
        i += 1;
    }
    false
}

/// Checks what the window asks for against the calls it sees and the
/// buttons it was set up with, and says what the engine is to be sent.
pub fn check_action(
    name: &str,
    id: &str,
    value: &str,
    line: u8,
    calls: &[CallInfo],
    buttons: &[CustomButton],
) -> (r: Result<ActionPlan, String>)
    ensures
        match r {
            Ok(p) => action_spec(name@, id@, value@, line, call_views(calls@), buttons@) == Ok::<
                PlanView,
                Seq<char>,
            >(plan_view(p)),
            Err(e) => action_spec(name@, id@, value@, line, call_views(calls@), buttons@) == Err::<
                PlanView,
                Seq<char>,
            >(e@),
        },
{
    if !(is(name, "dial") || is(name, "answer") || is(name, "hangup") || is(name, "hold") || is(
        name,
        "resume",
    ) || is(name, "select") || is(name, "transfer") || is(name, "cancel_transfer") || is(
        name,
        "unregister",
    ) || is(name, "dtmf") || is(name, "blind_transfer") || is(name, "auto_record")) {
        return Err(message("ACTION_UNSUPPORTED"));
    }
    if !(1 <= line && line <= 2) || !argument_fits(id) || !argument_fits(value) {
        return Err(message("ACTION_ARGUMENT_INVALID"));
    }
    if is(name, "auto_record") {
        if is(value, "on") {
            return Ok(ActionPlan::AutoRecord(true));
        } else if is(value, "off") {
            return Ok(ActionPlan::AutoRecord(false));
        }
        return Err(message("AUTO_RECORD_ARGUMENT_INVALID"));
    }
    if is(name, "dial") && find_line(calls, line) {
        return Err(message("CALL_LINE_BUSY"));
    }
    if is(name, "transfer") && (!find_call_on(calls, id, 1) || !find_call_on(calls, value, 2)) {
        return Err(message("TRANSFER_NEEDS_TWO_CALLS"));
    }
    if is(name, "blind_transfer") {
        let wanted = CustomButton::address(value);
        if find_transfer(buttons, wanted) && find_talking(calls, id) {
            return Ok(ActionPlan::Send(owned(wanted)));
        }
        return Err(message("BUTTON_NEEDS_CALL_AND_TARGET"));
    }
    if is(name, "dial") {
        return match dial_target(value) {
            Ok(t) => Ok(ActionPlan::Send(t)),
            Err(e) => Err(e),
        };
    }
    Ok(ActionPlan::Send(owned(value)))
}

/// Whether a web address is one a button was set up with; only such an
/// address is opened.
pub open spec fn link_known_spec(buttons: Seq<CustomButton>, url: Seq<char>) -> bool {
    exists|i: int| 0 <= i < buttons.len() && #[trigger] link_target_spec(buttons[i]) == Some(trim(url))
}

pub fn link_known(buttons: &[CustomButton], url: &str) -> (r: bool)
    ensures
        r == link_known_spec(buttons@, url@),
{
    let wanted = trim_str(url);
    let mut i: usize = 0;
    while i < buttons.len()
        invariant
            i <= buttons.len(),
            wanted@ == trim(url@),
            forall|j: int| 0 <= j < i ==> #[trigger] link_target_spec(buttons@[j]) != Some(trim(url@)),
        decreases buttons.len() - i,
    {
        match buttons[i].link_target() {
            Some(t) => {
                if is(t, wanted) {
                    return true;
                }
            },
            None => {},
        }
        i += 1;
    }
    false
}

/// Switching automatic recording on or off does exactly what the value
/// says: a plan the window gets for it records exactly when the value is
/// `on`; `on` and `off` are the only values taken, and with a line of the
/// two and an argument that can travel, they are always taken.
pub proof fn law_auto_record_does_what_it_says(
    id: Seq<char>,
    value: Seq<char>,
    line: u8,
    calls: Seq<CallView>,
    buttons: Seq<CustomButton>,
)
    ensures
        action_spec("auto_record"@, id, value, line, calls, buttons) matches Ok(p) ==> p
            == PlanView::AutoRecord(value == "on"@) && (value == "on"@ || value == "off"@),
        1 <= line <= 2 && argument_ok(id) && (value == "on"@ || value == "off"@) ==> action_spec(
            "auto_record"@,
            id,
            value,
            line,
            calls,
            buttons,
        ) == Ok::<PlanView, Seq<char>>(PlanView::AutoRecord(value == "on"@)),
{
    reveal_strlit("on");
    reveal_strlit("off");
    reveal_strlit("auto_record");
    assert("on"@.len() == 2 && "off"@.len() == 3);
    if value == "on"@ || value == "off"@ {
        assert(byte_len(value) <= 200) by {
            assert(crate::text::all_ascii(value)) by {
                assert forall|i: int| 0 <= i < value.len() implies (#[trigger] value[i] as u32) < 0x80 by {
                    assert(value[i] == 'o' || value[i] == 'n' || value[i] == 'f');
                }
            }
            crate::text::lemma_ascii_byte_len(value);
        }
        assert(!has_control(value)) by {
            if has_control(value) {
                let i = choose|i: int| 0 <= i < value.len() && crate::text::is_control(value[i]);
                assert(value[i] == 'o' || value[i] == 'n' || value[i] == 'f');
            }
        }
    }
}

} // verus!
