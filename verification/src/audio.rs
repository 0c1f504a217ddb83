//! Audio devices, their volume, and the measurement of the echo delay: the
//! runs of a careful measurement agree on a value, or say that they did not.
use vstd::prelude::*;
use vstd::relations::{sorted_by, total_ordering};
use crate::message::{json_message_text, message, message_with, str_views};
use crate::text::{byte_len, byte_length, chars_of, decimal, is, str_has};

verus! {

broadcast use vstd::seq_lib::group_to_multiset_ensures;

/// An audio endpoint Windows offers.
#[derive(Debug)]
pub struct Device {
    pub id: String,
    pub name: String,
    pub kind: String,
}

/// The volume of an endpoint, as the window shows it: above 100 is the
/// gain the engine adds.
#[derive(Debug)]
pub struct Volume {
    pub id: String,
    pub level: u16,
    pub muted: bool,
}

/// What a measurement of the echo delay found.
#[derive(Clone, Copy, Debug)]
pub struct Calibration {
    pub measured_ms: u16,
    pub recommended_ms: u16,
    /// How sure the measurement is, in percent.
    pub confidence: u8,
    pub samples: u8,
    pub spread_ms: u16,
    pub stable: bool,
}

// ---------------------------------------------------------------------
// Arguments that reach Windows
// ---------------------------------------------------------------------

pub open spec fn is_endpoint_kind(kind: Seq<char>) -> bool {
    kind == "microphone"@ || kind == "speaker"@
}

/// A device id that can be handed to Windows.
pub open spec fn device_id_ok(id: Seq<char>) -> bool {
    id.len() > 0 && byte_len(id) <= 500 && !id.contains('\r') && !id.contains('\n') && !id.contains(
        '\0',
    )
}

fn kind_fits(kind: &str) -> (r: bool)
    ensures
        r == is_endpoint_kind(kind@),
{
    is(kind, "microphone") || is(kind, "speaker")
}

fn device_id_fits(id: &str) -> (r: bool)
    ensures
        r == device_id_ok(id@),
{
    chars_of(id).len() > 0 && byte_length(id) <= 500 && !str_has(id, '\r') && !str_has(id, '\n')
        && !str_has(id, '\0')
}

/// Whether an endpoint's volume can be read or set with these arguments:
/// a level is a percentage.
pub fn volume_arguments(kind: &str, device_id: &str, level: Option<u8>) -> (r: Result<(), String>)
    ensures
        r is Ok <==> (is_endpoint_kind(kind@) && device_id_ok(device_id@) && match level {
            Some(v) => v <= 100,
            None => true,
        }),
        r matches Err(e) ==> e@ == "AUDIO_VOLUME_ARGUMENT_INVALID"@,
{
    let level_ok = match level {
        Some(v) => v <= 100,
        None => true,
    };
    if !kind_fits(kind) || !device_id_fits(device_id) || !level_ok {
        return Err(message("AUDIO_VOLUME_ARGUMENT_INVALID"));
    }
    Ok(())
}

/// Whether an endpoint's level meter can be read with these arguments.
pub fn peak_arguments(kind: &str, device_id: &str) -> (r: Result<(), String>)
    ensures
        r is Ok <==> (is_endpoint_kind(kind@) && device_id_ok(device_id@)),
        r matches Err(e) ==> e@ == "AUDIO_DEVICE_ARGUMENT_INVALID"@,
{
    if !kind_fits(kind) || !device_id_fits(device_id) {
        return Err(message("AUDIO_DEVICE_ARGUMENT_INVALID"));
    }
    Ok(())
}

/// Whether the window may set this level: up to 100 is the endpoint's own
/// volume, above it, up to 200, the gain the engine adds.
pub fn level_request(kind: &str, level: Option<u16>) -> (r: Result<(), String>)
    ensures
        r is Ok <==> (is_endpoint_kind(kind@) && match level {
            Some(v) => v <= 200,
            None => true,
        }),
        r matches Err(e) ==> e@ == "AUDIO_VOLUME_ARGUMENT_INVALID"@,
{
    let level_ok = match level {
        Some(v) => v <= 200,
        None => true,
    };
    if !kind_fits(kind) || !level_ok {
        return Err(message("AUDIO_VOLUME_ARGUMENT_INVALID"));
    }
    Ok(())
}

/// The level the endpoint itself is set to for a requested level.
pub fn endpoint_level(level: Option<u16>) -> (r: Option<u8>)
    requires
        level matches Some(v) ==> v <= 200,
    ensures
        match level {
            Some(v) => r == Some((if v < 100 { v } else { 100 }) as u8),
            None => r is None,
        },
{
    match level {
        Some(v) => Some(if v < 100 { v as u8 } else { 100 }),
        None => None,
    }
}

/// The gain the engine adds for a requested level: never below 100.
pub fn gain_for(level: u16) -> (r: u16)
    ensures
        r == if level > 100 { level } else { 100 },
{
    if level > 100 {
        level
    } else {
        100
    }
}

/// The level the window shows: the engine's gain when it adds any, the
/// endpoint's own level otherwise.
pub fn shown_level(endpoint: u16, gain: u16) -> (r: u16)
    ensures
        r == if gain > 100 { gain } else { endpoint },
{
    if gain > 100 {
        gain
    } else {
        endpoint
    }
}

/// Whether a device can be chosen: the default, or one Windows lists for
/// that kind.
pub open spec fn device_choice_ok(kind: Seq<char>, device: Seq<char>, devices: Seq<Device>) -> bool {
    is_endpoint_kind(kind) && (device == "default"@ || exists|i: int|
        0 <= i < devices.len() && #[trigger] devices[i].kind@ == kind && devices[i].id@ == device)
}

pub fn check_device_choice(kind: &str, device: &str, devices: &[Device]) -> (r: Result<(), String>)
    ensures
        r is Ok <==> device_choice_ok(kind@, device@, devices@),
        r matches Err(e) ==> e@ == "SETTINGS_AUDIO_DEVICE_INVALID"@,
{
    if !kind_fits(kind) {
        return Err(message("SETTINGS_AUDIO_DEVICE_INVALID"));
    }
    if is(device, "default") {
        return Ok(());
    }
    let mut i: usize = 0;
    while i < devices.len()
        invariant
            i <= devices.len(),
            is_endpoint_kind(kind@),
            forall|j: int| 0 <= j < i ==> !(#[trigger] devices@[j].kind@ == kind@ && devices@[j].id@ == device@),
        decreases devices.len() - i,
    {
        if is(devices[i].kind.as_str(), kind) && is(devices[i].id.as_str(), device) {
            assert(devices@[i as int].kind@ == kind@ && devices@[i as int].id@ == device@);
            return Ok(());
        }
        i += 1;
    }
    Err(message("SETTINGS_AUDIO_DEVICE_INVALID"))
}

// ---------------------------------------------------------------------
// A careful measurement
// ---------------------------------------------------------------------

pub open spec fn leq16() -> spec_fn(u16, u16) -> bool {
    |a: u16, b: u16| a <= b
}

/// The values in increasing order.
pub open spec fn ordered(s: Seq<u16>) -> Seq<u16> {
    s.sort_by(leq16())
}

pub open spec fn measured_of(runs: Seq<Calibration>) -> Seq<u16> {
    runs.map_values(|r: Calibration| r.measured_ms)
}

pub open spec fn distance(a: u16, b: u16) -> u16 {
    if a >= b {
        (a - b) as u16
    } else {
        (b - a) as u16
    }
}

/// The median of the measured delays: the middle one, the upper of two.
pub open spec fn center_of(runs: Seq<Calibration>) -> u16 {
    ordered(measured_of(runs))[runs.len() as int / 2]
}

pub open spec fn distances(s: Seq<u16>, c: u16) -> Seq<u16> {
    s.map_values(|m: u16| distance(m, c))
}

/// How far a run may be from the median and still count: three times the
/// median distance, no less than 6 ms and no more than 18.
pub open spec fn tolerance_of(runs: Seq<Calibration>) -> int {
    let d = ordered(distances(measured_of(runs), center_of(runs)))[runs.len() as int / 2] * 3;
    if d < 6 {
        6
    } else if d > 18 {
        18
    } else {
        d
    }
}

/// The runs close enough to the median, in their order.
pub open spec fn close_runs(runs: Seq<Calibration>, c: u16, tolerance: int) -> Seq<Calibration>
    decreases runs.len(),
{
    if runs.len() == 0 {
        runs
    } else if distance(runs.last().measured_ms, c) <= tolerance {
        close_runs(runs.drop_last(), c, tolerance).push(runs.last())
    } else {
        close_runs(runs.drop_last(), c, tolerance)
    }
}

pub open spec fn kept_of(runs: Seq<Calibration>) -> Seq<Calibration> {
    close_runs(runs, center_of(runs), tolerance_of(runs))
}

pub open spec fn sum_samples(runs: Seq<Calibration>) -> nat
    decreases runs.len(),
{
    if runs.len() == 0 {
        0
    } else {
        sum_samples(runs.drop_last()) + runs.last().samples as nat
    }
}

pub open spec fn sum_confidence(runs: Seq<Calibration>) -> nat
    decreases runs.len(),
{
    if runs.len() == 0 {
        0
    } else {
        sum_confidence(runs.drop_last()) + runs.last().confidence as nat
    }
}

/// The delay the kept runs agree on: their median, or the mean of the two
/// middle ones when they are even in number.
pub open spec fn agreed_of(kept: Seq<Calibration>) -> int {
    let k = ordered(measured_of(kept));
    let h = kept.len() as int / 2;
    if kept.len() % 2 == 0 {
        (k[h - 1] + k[h]) / 2
    } else {
        k[h] as int
    }
}

pub open spec fn spread_of(kept: Seq<Calibration>) -> int {
    let k = ordered(measured_of(kept));
    k[k.len() - 1] - k[0]
}

/// What the runs of a careful measurement come to, but for how sure it is,
/// which is computed from `mean_confidence_of` and the spread.
pub open spec fn aggregate_ok(runs: Seq<Calibration>, c: Calibration) -> bool {
    let kept = kept_of(runs);
    &&& c.measured_ms == agreed_of(kept)
    &&& c.recommended_ms == agreed_of(kept)
    &&& c.samples == sum_samples(kept)
    &&& c.spread_ms == spread_of(kept)
    &&& c.stable == (runs.len() >= 4 && kept.len() >= 3 && spread_of(kept) <= 10)
}

pub open spec fn mean_confidence_of(runs: Seq<Calibration>) -> int {
    sum_confidence(kept_of(runs)) as int / kept_of(runs).len() as int
}

proof fn lemma_leq16()
    ensures
        total_ordering(leq16()),
{
}

/// The values in increasing order.
fn sort_values(v: &Vec<u16>) -> (r: Vec<u16>)
    ensures
        r@ == ordered(v@),
{
    let mut r: Vec<u16> = Vec::new();
    let mut i: usize = 0;
    while i < v.len()
        invariant
            i <= v.len(),
            sorted_by(r@, leq16()),
            r@.to_multiset() == v@.take(i as int).to_multiset(),
            r@.len() == i,
        decreases v.len() - i,
    {
        let x = v[i];
        let mut p: usize = 0;
        while p < r.len() && r[p] <= x
            invariant
                p <= r.len(),
                forall|j: int| 0 <= j < p ==> r@[j] <= x,
            decreases r.len() - p,
        {
            p += 1;
        }
        let ghost before = r@;
        r.insert(p, x);
        proof {
            assert(r@ =~= before.insert(p as int, x));
            assert(v@.take(i + 1) =~= v@.take(i as int).push(x));
            assert forall|a: int, b: int| 0 <= a < b < r@.len() implies #[trigger] leq16()(r@[a], r@[b]) by {
                if b < p {
                    assert(leq16()(before[a], before[b]));
                } else if b == p {
                } else if a < p {
                    assert(r@[b] == before[b - 1]);
                    if b - 1 > p {
                        assert(leq16()(before[p as int], before[b - 1]));
                    }
                } else if a == p {
                    assert(r@[b] == before[b - 1]);
                    if b - 1 > p {
                        assert(leq16()(before[p as int], before[b - 1]));
                    }
                } else {
                    assert(leq16()(before[a - 1], before[b - 1]));
                }
            }
        }
        i += 1;
    }
    proof {
        assert(v@.take(v.len() as int) =~= v@);
        lemma_leq16();
        v@.lemma_sort_by_ensures(leq16());
        vstd::seq_lib::lemma_sorted_unique(r@, ordered(v@), leq16());
    }
    r
}

/// The measured delays of the runs, in their order.
fn measured_values(runs: &Vec<Calibration>) -> (r: Vec<u16>)
    ensures
        r@ == measured_of(runs@),
{
    let mut r: Vec<u16> = Vec::new();
    let mut i: usize = 0;
    while i < runs.len()
        invariant
            i <= runs.len(),
            r@ == measured_of(runs@.take(i as int)),
        decreases runs.len() - i,
    {
        r.push(runs[i].measured_ms);
        assert(r@ =~= measured_of(runs@.take(i + 1)));
        i += 1;
    }
    assert(runs@.take(runs.len() as int) =~= runs@);
    r
}

proof fn lemma_ordered_len(s: Seq<u16>)
    ensures
        ordered(s).len() == s.len(),
{
    lemma_leq16();
    s.lemma_sort_by_ensures(leq16());
    vstd::seq_lib::to_multiset_len(s);
    vstd::seq_lib::to_multiset_len(ordered(s));
}

proof fn lemma_close_runs_len(runs: Seq<Calibration>, c: u16, tolerance: int)
    ensures
        close_runs(runs, c, tolerance).len() <= runs.len(),
        sum_samples(close_runs(runs, c, tolerance)) <= sum_samples(runs),
        sum_confidence(close_runs(runs, c, tolerance)) <= sum_confidence(runs),
    decreases runs.len(),
{
    if runs.len() > 0 {
        lemma_close_runs_len(runs.drop_last(), c, tolerance);
        let prev = close_runs(runs.drop_last(), c, tolerance);
        assert(prev.push(runs.last()).drop_last() =~= prev);
    }
}

proof fn lemma_center_kept(runs: Seq<Calibration>, c: u16, tolerance: int, k: int)
    requires
        0 <= k < runs.len(),
        runs[k].measured_ms == c,
        tolerance >= 0,
    ensures
        close_runs(runs, c, tolerance).len() > 0,
    decreases runs.len(),
{
    if k < runs.len() - 1 {
        lemma_center_kept(runs.drop_last(), c, tolerance, k);
    }
}

proof fn lemma_sums_bounded(runs: Seq<Calibration>)
    ensures
        sum_confidence(runs) <= 255 * runs.len(),
    decreases runs.len(),
{
    if runs.len() > 0 {
        lemma_sums_bounded(runs.drop_last());
    }
}

/// What the runs of a careful measurement come to. None at all means the
/// measurement failed, with the reason the last run gave. Otherwise the
/// median is taken, the runs too far from it are left out, and the rest
/// agree on their median; the measurement is stable when at least four runs
/// were made, at least three agree and they lie within 10 ms. How sure it is
/// comes from `confidence`, given the mean confidence of the runs that
/// agree, their spread, and how many runs succeeded of how many were tried.
pub fn aggregate_careful(
    runs: Vec<Calibration>,
    attempted_sessions: usize,
    last_error: &str,
    confidence: impl Fn(u32, u16, usize, usize) -> u8,
) -> (r: Result<Calibration, String>)
    requires
        sum_samples(runs@) <= 255,
        runs@.len() <= 0xffff,
        forall|mean: u32, spread: u16, successful: usize, attempted: usize|
            confidence.requires((mean, spread, successful, attempted)),
    ensures
        runs@.len() == 0 <==> r is Err,
        r matches Err(e) ==> e@ == json_message_text("CALIBRATION_NO_RESULT"@, seq![last_error@]),
        r matches Ok(c) ==> aggregate_ok(runs@, c) && confidence.ensures(
            (
                mean_confidence_of(runs@) as u32,
                spread_of(kept_of(runs@)) as u16,
                runs@.len() as usize,
                attempted_sessions,
            ),
            c.confidence,
        ),
{
    if runs.len() == 0 {
        let values = [last_error];
        assert(str_views(values@) =~= seq![last_error@]);
        return Err(message_with("CALIBRATION_NO_RESULT", &values));
    }
    let n = runs.len();
    let measured = measured_values(&runs);
    let sorted = sort_values(&measured);
    proof {
        lemma_ordered_len(measured@);
    }
    let center = sorted[n / 2];
    assert(center == center_of(runs@));
    let mut gaps: Vec<u16> = Vec::new();
    let mut i: usize = 0;
    while i < n
        invariant
            i <= n == runs@.len(),
            measured@ == measured_of(runs@),
            gaps@ == distances(measured@.take(i as int), center),
        decreases n - i,
    {
        let m = measured[i];
        gaps.push(if m >= center { m - center } else { center - m });
        assert(gaps@ =~= distances(measured@.take(i + 1), center));
        i += 1;
    }
    assert(measured@.take(n as int) =~= measured@);
    let sorted_gaps = sort_values(&gaps);
    proof {
        lemma_ordered_len(gaps@);
    }
    let d: u32 = sorted_gaps[n / 2] as u32 * 3;
    let tolerance: u32 = if d < 6 {
        6
    } else if d > 18 {
        18
    } else {
        d
    };
    assert(tolerance == tolerance_of(runs@));
    // The runs that agree with the median, their delays, and their sums.
    let mut kept_measured: Vec<u16> = Vec::new();
    let mut samples: u32 = 0;
    let mut confidence_sum: u32 = 0;
    let ghost mut kept: Seq<Calibration> = Seq::empty();
    let mut j: usize = 0;
    while j < n
        invariant
            j <= n == runs@.len(),
            n <= 0xffff,
            sum_samples(runs@) <= 255,
            kept == close_runs(runs@.take(j as int), center, tolerance as int),
            kept_measured@ == measured_of(kept),
            samples == sum_samples(kept),
            confidence_sum == sum_confidence(kept),
            kept.len() <= j,
        decreases n - j,
    {
        proof {
            assert(runs@.take(j + 1).drop_last() =~= runs@.take(j as int));
            lemma_close_runs_len(runs@.take(j as int), center, tolerance as int);
            lemma_close_runs_len(runs@.take(j + 1), center, tolerance as int);
            lemma_sums_bounded(kept);
            assert(sum_samples(runs@.take(j + 1)) <= sum_samples(runs@)) by {
                lemma_prefix_samples(runs@, j + 1);
            }
        }
        let r = runs[j];
        assert(runs@.take(j + 1).last() == r);
        let gap = if r.measured_ms >= center { r.measured_ms - center } else { center - r.measured_ms };
        if gap as u32 <= tolerance {
            kept_measured.push(r.measured_ms);
            samples = samples + r.samples as u32;
            confidence_sum = confidence_sum + r.confidence as u32;
            proof {
                let prev = kept;
                kept = kept.push(r);
                assert(kept.drop_last() =~= prev);
            }
            assert(kept_measured@ =~= measured_of(kept));
        }
        j += 1;
    }
    assert(runs@.take(n as int) =~= runs@);
    proof {
        // The median itself is among the runs that agree.
        lemma_leq16();
        measured@.lemma_sort_by_ensures(leq16());
        assert(measured@.to_multiset().count(center) > 0) by {
            assert(ordered(measured@).to_multiset().contains(center)) by {
                assert(ordered(measured@)[n as int / 2] == center);
            }
        }
        let k = choose|k: int| 0 <= k < measured@.len() && measured@[k] == center;
        assert(runs@[k].measured_ms == center);
        lemma_center_kept(runs@, center, tolerance as int, k);
        lemma_close_runs_len(runs@, center, tolerance as int);
    }
    let count = kept_measured.len();
    let ordered_kept = sort_values(&kept_measured);
    proof {
        lemma_ordered_len(kept_measured@);
    }
    let low = ordered_kept[0];
    let high = ordered_kept[count - 1];
    assert(low <= high) by {
        kept_measured@.lemma_sort_by_ensures(leq16());
        if count > 1 {
            assert(leq16()(ordered_kept@[0], ordered_kept@[count - 1]));
        }
    }
    let spread = high - low;
    let half = count / 2;
    let agreed: u16 = if count % 2 == 0 {
        ((ordered_kept[half - 1] as u32 + ordered_kept[half] as u32) / 2) as u16
    } else {
        ordered_kept[half]
    };
    let stable = n >= 4 && count >= 3 && spread <= 10;
    let mean = confidence_sum / count as u32;
    let sure = confidence(mean, spread, n, attempted_sessions);
    Ok(
        Calibration {
            measured_ms: agreed,
            recommended_ms: agreed,
            confidence: sure,
            samples: samples as u8,
            spread_ms: spread,
            stable,
        },
    )
}

proof fn lemma_prefix_samples(runs: Seq<Calibration>, k: int)
    requires
        0 <= k <= runs.len(),
    ensures
        sum_samples(runs.take(k)) <= sum_samples(runs),
    decreases runs.len() - k,
{
    if k < runs.len() {
        lemma_prefix_samples(runs, k + 1);
        assert(runs.take(k + 1).drop_last() =~= runs.take(k));
    } else {
        assert(runs.take(k) =~= runs);
    }
}

// ---------------------------------------------------------------------
// One measurement
// ---------------------------------------------------------------------

pub open spec fn sum_delays(d: Seq<i32>) -> int
    decreases d.len(),
{
    if d.len() == 0 {
        0
    } else {
        sum_delays(d.drop_last()) + d.last()
    }
}

pub open spec fn least_delay(d: Seq<i32>) -> int
    decreases d.len(),
{
    if d.len() <= 1 {
        if d.len() == 1 { d[0] as int } else { 0 }
    } else if d.last() < least_delay(d.drop_last()) {
        d.last() as int
    } else {
        least_delay(d.drop_last())
    }
}

pub open spec fn greatest_delay(d: Seq<i32>) -> int
    decreases d.len(),
{
    if d.len() <= 1 {
        if d.len() == 1 { d[0] as int } else { 0 }
    } else if d.last() > greatest_delay(d.drop_last()) {
        d.last() as int
    } else {
        greatest_delay(d.drop_last())
    }
}

/// The mean of the delays, as Rust's division rounds it, held between 0
/// and 500 ms.
pub open spec fn mean_delay(d: Seq<i32>) -> int {
    let s = sum_delays(d);
    if s <= 0 {
        0
    } else if s / (d.len() as int) > 500 {
        500
    } else {
        s / (d.len() as int)
    }
}

/// What the delays found in one measurement come to: their mean and their
/// spread, or why they do not do: fewer probes were heard than were played,
/// or they disagree by more than 20 ms. `delays` are the delays of the probes
/// that were heard clearly enough, `required` how many had to be, and
/// `scheduled` how many were played.
pub open spec fn delay_estimate_spec(d: Seq<i32>, required: nat, scheduled: nat) -> Result<(u16, u16), Seq<char>> {
    if d.len() < required {
        Err(json_message_text("CALIBRATION_SIGNAL_UNCLEAR"@, seq![decimal(d.len()), decimal(scheduled)]))
    } else if greatest_delay(d) - least_delay(d) > 20 {
        Err("CALIBRATION_TOO_UNSTABLE"@)
    } else {
        Ok((mean_delay(d) as u16, (greatest_delay(d) - least_delay(d)) as u16))
    }
}

proof fn lemma_extremes(d: Seq<i32>)
    requires
        d.len() > 0,
    ensures
        forall|i: int| 0 <= i < d.len() ==> least_delay(d) <= #[trigger] d[i] <= greatest_delay(d),
    decreases d.len(),
{
    if d.len() > 1 {
        lemma_extremes(d.drop_last());
        assert forall|i: int| 0 <= i < d.len() implies least_delay(d) <= #[trigger] d[i] <= greatest_delay(d) by {
            if i < d.len() - 1 {
                assert(d[i] == d.drop_last()[i]);
            }
        }
    }
}

fn decimal_text(n: usize) -> (r: String)
    ensures
        r@ == decimal(n as nat),
{
    let mut v: Vec<char> = Vec::new();
    crate::text::push_decimal(&mut v, n as u64);
    assert(v@ =~= decimal(n as nat));
    crate::text::string_of(&v)
}

pub fn delay_estimate(delays: &[i32], required: usize, scheduled: usize) -> (r: Result<(u16, u16), String>)
    requires
        required > 0,
        delays.len() <= u32::MAX,
    ensures
        match (r, delay_estimate_spec(delays@, required as nat, scheduled as nat)) {
            (Ok(a), Ok(b)) => a == b,
            (Err(e), Err(m)) => e@ == m,
            _ => false,
        },
{
    let n = delays.len();
    if n < required {
        let count = decimal_text(n);
        let played = decimal_text(scheduled);
        let values = [count.as_str(), played.as_str()];
        assert(str_views(values@) =~= seq![decimal(n as nat), decimal(scheduled as nat)]);
        return Err(message_with("CALIBRATION_SIGNAL_UNCLEAR", &values));
    }
    let mut sum: i64 = 0;
    let mut least: i32 = delays[0];
    let mut greatest: i32 = delays[0];
    let mut i: usize = 1;
    assert(delays@.take(1).drop_last() =~= Seq::<i32>::empty());
    sum = sum + delays[0] as i64;
    assert(sum_delays(Seq::<i32>::empty()) == 0);
    assert(delays@.take(1).last() == delays[0]);
    assert(sum_delays(delays@.take(1)) == delays[0] as int);
    while i < n
        invariant
            1 <= i <= n,
            n == delays.len(),
            n <= u32::MAX,
            sum == sum_delays(delays@.take(i as int)),
            -(i as int) * 2147483648 <= sum <= (i as int) * 2147483647,
            least == least_delay(delays@.take(i as int)),
            greatest == greatest_delay(delays@.take(i as int)),
        decreases n - i,
    {
        let x = delays[i];
        assert(delays@.take(i + 1).drop_last() =~= delays@.take(i as int));
        assert(delays@.take(i + 1).last() == x);
        sum = sum + x as i64;
        if x < least {
            least = x;
        }
        if x > greatest {
            greatest = x;
        }
        i += 1;
    }
    assert(delays@.take(n as int) =~= delays@);
    let spread: i64 = greatest as i64 - least as i64;
    if spread > 20 {
        return Err(message("CALIBRATION_TOO_UNSTABLE"));
    }
    proof {
        lemma_extremes(delays@);
    }
    let measured: u16 = if sum <= 0 {
        0
    } else if sum / (n as i64) > 500 {
        500
    } else {
        (sum / (n as i64)) as u16
    };
    Ok((measured, spread as u16))
}

/// How the samples of an endpoint's mix format are laid out.
#[derive(Clone, Copy, Debug, PartialEq, Eq)]
pub enum SampleKind {
    Float32,
    Pcm8,
    Pcm16,
    Pcm24,
    Pcm32,
}

/// An endpoint's mix format, as far as the measurement needs it.
#[derive(Clone, Copy, Debug)]
pub struct MixFormat {
    pub rate: u32,
    pub channels: u16,
    pub block: u16,
    pub kind: SampleKind,
}

pub open spec fn sample_kind(floating: bool, pcm: bool, bits: u16) -> Option<SampleKind> {
    if floating && bits == 32 {
        Some(SampleKind::Float32)
    } else if pcm && bits == 8 {
        Some(SampleKind::Pcm8)
    } else if pcm && bits == 16 {
        Some(SampleKind::Pcm16)
    } else if pcm && bits == 24 {
        Some(SampleKind::Pcm24)
    } else if pcm && bits == 32 {
        Some(SampleKind::Pcm32)
    } else {
        None
    }
}

/// The mix format Windows describes, or why the measurement cannot use it:
/// samples it cannot read, or a rate, a channel count or a frame size that
/// make no sense. `floating` and `pcm` say whether the format's tag or its
/// sub-format names floating point or integer samples.
pub fn mix_format(
    floating: bool,
    pcm: bool,
    bits: u16,
    rate: u32,
    channels: u16,
    block: u16,
) -> (r: Result<MixFormat, String>)
    ensures
        match r {
            Ok(f) => sample_kind(floating, pcm, bits) == Some(f.kind) && rate >= 8000 && channels > 0
                && block > 0 && f.rate == rate && f.channels == channels && f.block == block,
            Err(e) => if sample_kind(floating, pcm, bits) is None {
                e@ == "AUDIO_SAMPLE_FORMAT_UNSUPPORTED"@
            } else {
                (rate < 8000 || channels == 0 || block == 0) && e@ == "AUDIO_DEVICE_FORMAT_INVALID"@
            },
        },
{
    let kind = if floating && bits == 32 {
        SampleKind::Float32
    } else if pcm && bits == 8 {
        SampleKind::Pcm8
    } else if pcm && bits == 16 {
        SampleKind::Pcm16
    } else if pcm && bits == 24 {
        SampleKind::Pcm24
    } else if pcm && bits == 32 {
        SampleKind::Pcm32
    } else {
        return Err(message("AUDIO_SAMPLE_FORMAT_UNSUPPORTED"));
    };
    if rate < 8000 || channels == 0 || block == 0 {
        return Err(message("AUDIO_DEVICE_FORMAT_INVALID"));
    }
    Ok(MixFormat { rate, channels, block, kind })
}

/// `a * b`, or the largest `usize` when that is more.
pub open spec fn saturated(a: int, b: int) -> int {
    if a * b > usize::MAX { usize::MAX as int } else { a * b }
}

/// How many samples are left of `n` at `source` per second when every
/// sample at `target` per second is kept.
pub open spec fn downsampled_len(n: int, source: int, target: int) -> int {
    saturated(n, target) / source
}

proof fn lemma_downsample_index(i: int, n: int, source: int, target: int)
    requires
        source > 0,
        target > 0,
        0 <= n,
        0 <= i < downsampled_len(n, source, target),
    ensures
        saturated(i, source) == i * source,
        0 <= i * source / target < n,
{
    let m = saturated(n, target);
    assert(m <= n * target) by (nonlinear_arith)
        requires
            m == (if n * target > usize::MAX { usize::MAX as int } else { n * target }),
            0 <= n, target > 0;
    assert(i * source < m) by (nonlinear_arith)
        requires
            i < m / source, source > 0, 0 <= i, m >= 0;
    assert(0 <= i * source / target < n) by (nonlinear_arith)
        requires
            i * source < n * target, target > 0, 0 <= i, source > 0;
}

fn saturating_product(a: usize, b: usize) -> (r: usize)
    ensures
        r == saturated(a as int, b as int),
{
    if a > 0 && b > usize::MAX / a {
        assert(a * b > usize::MAX) by (nonlinear_arith)
            requires
                a > 0, b > usize::MAX / a;
        usize::MAX
    } else {
        assert(a * b <= usize::MAX) by (nonlinear_arith)
            requires
                a == 0 || b <= usize::MAX / a, 0 <= b;
        a * b
    }
}

/// The samples at `target` per second that stand for `input` at `source`
/// per second: each the first sample of its stretch.
pub fn downsample<T: Copy>(input: &[T], source: u32, target: usize) -> (r: Vec<T>)
    requires
        source > 0,
        target > 0,
    ensures
        r@.len() == downsampled_len(input@.len() as int, source as int, target as int),
        forall|i: int| 0 <= i < r@.len() ==> r@[i] == input@[i * source / target as int],
{
    let length = saturating_product(input.len(), target) / (source as usize);
    let mut r: Vec<T> = Vec::new();
    let mut i: usize = 0;
    while i < length
        invariant
            i <= length,
            length == downsampled_len(input@.len() as int, source as int, target as int),
            source > 0,
            target > 0,
            r@.len() == i,
            forall|j: int| 0 <= j < i ==> r@[j] == input@[j * source / target as int],
        decreases length - i,
    {
        proof {
            lemma_downsample_index(i as int, input@.len() as int, source as int, target as int);
        }
        let at = saturating_product(i, source as usize) / target;
        r.push(input[at]);
        i += 1;
    }
    r
}

} // verus!
