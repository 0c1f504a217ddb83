//! What the window does while the phone runs: it comes out for a new call,
//! or the call is announced while the window stays in the tray; it comes out
//! when an announced call is answered; and it goes to the tray a set time
//! after the last call ends, if the settings ask for it.
use vstd::prelude::*;
use crate::history::{answer_targets_spec, automatic_answer_targets, lemma_nothing_left, lemma_targets_contained};
use crate::phone_state::{CallInfo, CallView, call_views};
use crate::settings::CustomButton;
use crate::text::text_views;

verus! {

/// What the window remembers from one look at the calls to the next.
pub struct WindowWatch {
    /// The calls that were ringing at the last look.
    pub incoming: Vec<String>,
    /// Calls the person was told about rather than shown, still ringing.
    pub announced: Vec<String>,
    /// Whether there were calls at the last look.
    pub had_calls: bool,
    /// When the window goes to the tray, in milliseconds of the app's clock.
    pub hide_at: Option<u64>,
}

pub struct WatchView {
    pub incoming: Seq<Seq<char>>,
    pub announced: Seq<Seq<char>>,
    pub had_calls: bool,
    pub hide_at: Option<u64>,
}

impl View for WindowWatch {
    type V = WatchView;

    open spec fn view(&self) -> WatchView {
        WatchView {
            incoming: text_views(self.incoming@),
            announced: text_views(self.announced@),
            had_calls: self.had_calls,
            hide_at: self.hide_at,
        }
    }
}

/// What one look at the calls asks of the window.
pub struct WindowActions {
    /// The new calls to announce, in the order of the calls.
    pub notify: Vec<String>,
    /// The window comes out.
    pub show: bool,
    /// The window goes to the tray.
    pub hide: bool,
}

pub struct ActionsView {
    pub notify: Seq<Seq<char>>,
    pub show: bool,
    pub hide: bool,
}

impl View for WindowActions {
    type V = ActionsView;

    open spec fn view(&self) -> ActionsView {
        ActionsView { notify: text_views(self.notify@), show: self.show, hide: self.hide }
    }
}

/// The ids of the ringing calls, in order.
pub open spec fn ringing(calls: Seq<CallView>) -> Seq<Seq<char>> {
    answer_targets_spec(true, calls, Seq::empty())
}

/// Whether one of the calls is `id` and no longer rings.
pub open spec fn taken(calls: Seq<CallView>, id: Seq<char>) -> bool {
    exists|j: int| 0 <= j < calls.len() && (#[trigger] calls[j]).id == id && calls[j].state != "INCOMING"@
}

/// Whether one of the calls is one of `ids` and no longer rings.
pub open spec fn any_taken(calls: Seq<CallView>, ids: Seq<Seq<char>>) -> bool {
    exists|i: int| 0 <= i < ids.len() && #[trigger] taken(calls, ids[i])
}

/// The ids that are still among the ringing calls, in order.
pub open spec fn still_ringing(ids: Seq<Seq<char>>, ring: Seq<Seq<char>>) -> Seq<Seq<char>>
    decreases ids.len(),
{
    if ids.len() == 0 {
        ids
    } else if ring.contains(ids.last()) {
        still_ringing(ids.drop_last(), ring).push(ids.last())
    } else {
        still_ringing(ids.drop_last(), ring)
    }
}

/// The time `seconds` after `now`, in milliseconds, or the end of the clock.
pub open spec fn later(now: u64, seconds: i32) -> u64 {
    if now + seconds * 1000 > u64::MAX {
        u64::MAX
    } else {
        (now + seconds * 1000) as u64
    }
}

/// One look at the calls at time `now`: `notify_mode` is whether the
/// settings ask for a call to be announced rather than shown, `visible`
/// whether the window is out, `tray_after_call` the seconds after the last
/// call before the window goes to the tray, or below zero for never.
pub open spec fn watch_step(
    w: WatchView,
    calls: Seq<CallView>,
    notify_mode: bool,
    visible: bool,
    tray_after_call: i32,
    now: u64,
) -> (WatchView, ActionsView) {
    let ring = ringing(calls);
    let fresh = answer_targets_spec(true, calls, w.incoming);
    let announce = fresh.len() > 0 && notify_mode && !visible;
    let announced = if announce { w.announced + fresh } else { w.announced };
    let answered = announced.len() > 0 && any_taken(calls, announced);
    let in_call = calls.len() > 0;
    let hide_at = if in_call {
        None
    } else if w.had_calls && tray_after_call >= 0 {
        Some(later(now, tray_after_call))
    } else {
        w.hide_at
    };
    let due = hide_at matches Some(at) && now >= at;
    (
        WatchView {
            incoming: ring,
            announced: still_ringing(announced, ring),
            had_calls: in_call,
            hide_at: if due { None } else { hide_at },
        },
        ActionsView {
            notify: if announce { fresh } else { Seq::empty() },
            show: (fresh.len() > 0 && !announce) || answered,
            hide: due && visible,
        },
    )
}

/// Whether the id is in the list.
fn listed(list: &Vec<String>, id: &String) -> (r: bool)
    ensures
        r == text_views(list@).contains(id@),
{
    let mut i: usize = 0;
    while i < list.len()
        invariant
            i <= list.len(),
            forall|j: int| 0 <= j < i ==> text_views(list@)[j] != id@,
        decreases list.len() - i,
    {
        if crate::text::is(list[i].as_str(), id.as_str()) {
            assert(text_views(list@)[i as int] == id@);
            return true;
        }
        i += 1;
    }
    false
}

/// Whether one of the calls is `id` and no longer rings.
fn is_taken(calls: &[CallInfo], id: &String) -> (r: bool)
    ensures
        r == taken(call_views(calls@), id@),
{
    let ghost cv = call_views(calls@);
    let mut i: usize = 0;
    while i < calls.len()
        invariant
            i <= calls.len(),
            cv == call_views(calls@),
            forall|j: int| 0 <= j < i ==> !(cv[j].id == id@ && cv[j].state != "INCOMING"@),
        decreases calls.len() - i,
    {
        assert(cv[i as int] == calls@[i as int]@);
        if crate::text::is(calls[i].id.as_str(), id.as_str()) && !crate::text::is(
            calls[i].state.as_str(),
            "INCOMING",
        ) {
            return true;
        }
        i += 1;
    }
    false
}

impl WindowWatch {
    /// Before the first look: nothing rang, nothing was announced.
    pub fn new() -> (r: WindowWatch)
        ensures
            r@ == (WatchView {
                incoming: Seq::empty(),
                announced: Seq::empty(),
                had_calls: false,
                hide_at: None,
            }),
    {
        let r = WindowWatch { incoming: Vec::new(), announced: Vec::new(), had_calls: false, hide_at: None };
        assert(r@.incoming =~= Seq::<Seq<char>>::empty());
        assert(r@.announced =~= Seq::<Seq<char>>::empty());
        r
    }

    /// One look at the calls; see [`watch_step`].
    pub fn step(
        &mut self,
        calls: &[CallInfo],
        notify_mode: bool,
        visible: bool,
        tray_after_call: i32,
        now: u64,
    ) -> (r: WindowActions)
        ensures
            (final(self)@, r@) == watch_step(
                old(self)@,
                call_views(calls@),
                notify_mode,
                visible,
                tray_after_call,
                now,
            ),
    {
        let ghost w = self@;
        let ghost cv = call_views(calls@);
        let none: Vec<String> = Vec::new();
        assert(text_views(none@) =~= Seq::<Seq<char>>::empty());
        let ring = automatic_answer_targets(true, calls, &none);
        let fresh = automatic_answer_targets(true, calls, &self.incoming);
        let announce = fresh.len() > 0 && notify_mode && !visible;
        let mut announced: Vec<String> = Vec::new();
        let mut i: usize = 0;
        assert(text_views(announced@) =~= Seq::<Seq<char>>::empty());
        while i < self.announced.len()
            invariant
                i <= self.announced.len(),
                self@ == w,
                text_views(announced@) == text_views(self.announced@).take(i as int),
            decreases self.announced.len() - i,
        {
            let ghost before = text_views(announced@);
            announced.push(self.announced[i].clone());
            assert(text_views(announced@) =~= before.push(self.announced@[i as int]@));
            assert(text_views(self.announced@).take(i + 1) =~= text_views(self.announced@).take(
                i as int,
            ).push(self.announced@[i as int]@));
            i += 1;
        }
        assert(text_views(self.announced@).take(self.announced.len() as int) =~= text_views(
            self.announced@,
        ));
        if announce {
            let mut k: usize = 0;
            let ghost start = text_views(announced@);
            while k < fresh.len()
                invariant
                    k <= fresh.len(),
                    text_views(announced@) == start + text_views(fresh@).take(k as int),
                decreases fresh.len() - k,
            {
                let ghost before = text_views(announced@);
                announced.push(fresh[k].clone());
                assert(text_views(announced@) =~= before.push(fresh@[k as int]@));
                assert(start + text_views(fresh@).take(k + 1) =~= (start + text_views(fresh@).take(
                    k as int,
                )).push(fresh@[k as int]@));
                k += 1;
            }
            assert(text_views(fresh@).take(fresh.len() as int) =~= text_views(fresh@));
        }
        let ghost all = text_views(announced@);
        let ghost fresh_view = answer_targets_spec(true, cv, w.incoming);
        assert(text_views(fresh@) == fresh_view);
        assert(all == (if announce {
            w.announced + fresh_view
        } else {
            w.announced
        }));
        // Whether a call that was announced has been answered.
        let mut answered = false;
        let mut a: usize = 0;
        while a < announced.len()
            invariant
                a <= announced.len(),
                all == text_views(announced@),
                answered == exists|j: int| 0 <= j < a && #[trigger] taken(cv, all[j]),
                cv == call_views(calls@),
            decreases announced.len() - a,
        {
            if is_taken(calls, &announced[a]) {
                assert(taken(cv, all[a as int]));
                answered = true;
            }
            a += 1;
        }
        // What is still ringing stays announced.
        let mut kept: Vec<String> = Vec::new();
        let mut b: usize = 0;
        assert(text_views(kept@) =~= still_ringing(all.take(0), text_views(ring@)));
        while b < announced.len()
            invariant
                b <= announced.len(),
                all == text_views(announced@),
                text_views(kept@) == still_ringing(all.take(b as int), text_views(ring@)),
            decreases announced.len() - b,
        {
            assert(all.take(b + 1).drop_last() =~= all.take(b as int));
            assert(all.take(b + 1).last() == announced@[b as int]@);
            if listed(&ring, &announced[b]) {
                let ghost before = text_views(kept@);
                kept.push(announced[b].clone());
                assert(text_views(kept@) =~= before.push(announced@[b as int]@));
            }
            b += 1;
        }
        assert(all.take(announced.len() as int) =~= all);
        let in_call = calls.len() > 0;
        let hide_at = if in_call {
            None
        } else if self.had_calls && tray_after_call >= 0 {
            Some(now.saturating_add(tray_after_call as u64 * 1000))
        } else {
            self.hide_at
        };
        let due = match hide_at {
            Some(at) => now >= at,
            None => false,
        };
        self.incoming = ring;
        self.announced = kept;
        self.had_calls = in_call;
        self.hide_at = if due {
            None
        } else {
            hide_at
        };
        let shown = (fresh.len() > 0 && !announce) || (announced.len() > 0 && answered);
        let notify = if announce {
            fresh
        } else {
            Vec::new()
        };
        assert(answered == any_taken(cv, all));
        let r = WindowActions { notify, show: shown, hide: due && visible };
        assert(r@.notify =~= watch_step(w, cv, notify_mode, visible, tray_after_call, now).1.notify);
        r
    }
}

/// An incoming call is announced or shown once: a second look at the same
/// calls finds nothing new, whatever the window and the settings.
pub proof fn law_a_call_is_announced_once(
    w: WatchView,
    calls: Seq<CallView>,
    notify_mode: bool,
    visible: bool,
    tray_after_call: i32,
    now: u64,
    visible_later: bool,
    later_now: u64,
)
    ensures
        ({
            let next = watch_step(w, calls, notify_mode, visible, tray_after_call, now).0;
            let fresh_later = answer_targets_spec(true, calls, next.incoming);
            &&& fresh_later.len() == 0
            &&& watch_step(next, calls, notify_mode, visible_later, tray_after_call, later_now).1.notify.len() == 0
        }),
{
    let ring = ringing(calls);
    assert forall|i: int| 0 <= i < calls.len() && crate::history::to_answer(
        calls[i],
        Seq::<Seq<char>>::empty(),
    ) implies ring.contains(calls[i].id) by {
        lemma_targets_contained(true, calls, Seq::<Seq<char>>::empty(), i);
    }
    lemma_nothing_left(true, calls, Seq::<Seq<char>>::empty(), ring);
    assert(Seq::<Seq<char>>::empty() + ring =~= ring);
}

/// Whether one of the calls rings.
pub open spec fn rings(calls: Seq<CallView>) -> bool {
    exists|i: int| 0 <= i < calls.len() && (#[trigger] calls[i]).state == "INCOMING"@
}

/// What the key for calls does: answer while a call rings, hang up otherwise.
pub fn call_key_command(calls: &[CallInfo]) -> (r: &'static str)
    ensures
        r@ == (if rings(call_views(calls@)) {
            "ANSWER"@
        } else {
            "HANGUP"@
        }),
{
    let ghost cv = call_views(calls@);
    let mut i: usize = 0;
    while i < calls.len()
        invariant
            i <= calls.len(),
            cv == call_views(calls@),
            forall|j: int| 0 <= j < i ==> cv[j].state != "INCOMING"@,
        decreases calls.len() - i,
    {
        assert(cv[i as int] == calls@[i as int]@);
        if crate::text::is(calls[i].state.as_str(), "INCOMING") {
            return "ANSWER";
        }
        i += 1;
    }
    "HANGUP"
}

/// Whether the panel beside the phone has buttons, which makes the window
/// twice as wide: one of the buttons past the first six is set.
pub open spec fn panel_extended_spec(buttons: Seq<CustomButton>) -> bool {
    exists|i: int| CustomButton::MAIN <= i < buttons.len() && (#[trigger] buttons[i]).kind@.len() > 0
}

pub fn panel_extended(buttons: &[CustomButton]) -> (r: bool)
    ensures
        r == panel_extended_spec(buttons@),
{
    let mut i: usize = CustomButton::MAIN;
    while i < buttons.len()
        invariant
            CustomButton::MAIN <= i,
            forall|j: int| CustomButton::MAIN <= j < i && j < buttons@.len() ==> buttons@[j].kind@.len() == 0,
        decreases buttons.len() - i,
    {
        if buttons[i].configured() {
            return true;
        }
        i += 1;
    }
    false
}

/// When no new call rings, the window comes out for an announced call only
/// once that call is among the calls and no longer rings: a call that was
/// announced and then gave up leaves the window where it is, and with no
/// calls at all the window does not come out.
pub proof fn law_the_window_comes_out_for_an_answered_announced_call(
    w: WatchView,
    calls: Seq<CallView>,
    notify_mode: bool,
    visible: bool,
    tray_after_call: i32,
    now: u64,
)
    requires
        forall|j: int|
            0 <= j < calls.len() && (#[trigger] calls[j]).state == "INCOMING"@ ==> w.incoming.contains(
                calls[j].id,
            ),
    ensures
        watch_step(w, calls, notify_mode, visible, tray_after_call, now).1.show <==> exists|i: int, j: int|
            0 <= i < w.announced.len() && 0 <= j < calls.len() && (#[trigger] calls[j]).id
                == #[trigger] w.announced[i] && calls[j].state != "INCOMING"@,
        calls.len() == 0 ==> !watch_step(w, calls, notify_mode, visible, tray_after_call, now).1.show,
{
    lemma_none_fresh(calls, w.incoming);
    let fresh = answer_targets_spec(true, calls, w.incoming);
    assert(fresh.len() == 0);
    let show = watch_step(w, calls, notify_mode, visible, tray_after_call, now).1.show;
    if show {
        let i = choose|i: int| 0 <= i < w.announced.len() && #[trigger] taken(calls, w.announced[i]);
        let j = choose|j: int|
            0 <= j < calls.len() && (#[trigger] calls[j]).id == w.announced[i] && calls[j].state != "INCOMING"@;
        assert(calls[j].id == w.announced[i]);
    }
    if exists|i: int, j: int|
        0 <= i < w.announced.len() && 0 <= j < calls.len() && (#[trigger] calls[j]).id
            == #[trigger] w.announced[i] && calls[j].state != "INCOMING"@ {
        let (i, j) = choose|i: int, j: int|
            0 <= i < w.announced.len() && 0 <= j < calls.len() && (#[trigger] calls[j]).id
                == #[trigger] w.announced[i] && calls[j].state != "INCOMING"@;
        assert(taken(calls, w.announced[i]));
        assert(any_taken(calls, w.announced));
    }
}

/// With every ringing call seen before, nothing rings anew.
proof fn lemma_none_fresh(calls: Seq<CallView>, seen: Seq<Seq<char>>)
    requires
        forall|j: int|
            0 <= j < calls.len() && (#[trigger] calls[j]).state == "INCOMING"@ ==> seen.contains(calls[j].id),
    ensures
        answer_targets_spec(true, calls, seen).len() == 0,
    decreases calls.len(),
{
    if calls.len() > 0 {
        let init = calls.drop_last();
        assert forall|j: int|
            0 <= j < init.len() && (#[trigger] init[j]).state == "INCOMING"@ implies seen.contains(init[j].id) by {
            assert(init[j] == calls[j]);
        }
        lemma_none_fresh(init, seen);
        assert(calls.last() == calls[calls.len() - 1]);
    }
}

} // verus!
