//! The configuration the engine is started with: one line per setting, so
//! that a value cannot land under the wrong name.
use vstd::prelude::*;
use crate::message::message;
use crate::engine::comma_joined;
use crate::settings::{Settings, codecs_offered, mediaenc_spec, sip_transport_spec};
use crate::storage::Account;
use crate::text::{
    chars_of, decimal, extend, extend_str, find, lemma_find, push_decimal, split,
    string_of, trim, trim_str,
};

verus! {

/// The text the lines make, each ended by a line break.
pub open spec fn joined(lines: Seq<Seq<char>>) -> Seq<char>
    decreases lines.len(),
{
    if lines.len() == 0 {
        Seq::empty()
    } else {
        joined(lines.drop_last()) + lines.last() + seq!['\n']
    }
}

pub open spec fn yes_no_word(b: bool) -> Seq<char> {
    if b {
        "yes"@
    } else {
        "no"@
    }
}

/// The text with its backslashes turned into slashes, which is how the
/// engine wants a path.
pub open spec fn slashes(s: Seq<char>) -> Seq<char> {
    s.map_values(|c: char| if c == '\\' { '/' } else { c })
}

/// What the engine is told of the call limits and the audio formats; the
/// same for every start.
pub open spec fn call_lines() -> Seq<Seq<char>> {
    seq![
        "sip_cuser_random no"@,
        "call_max_calls 2"@,
        "call_hold_other_calls yes"@,
        "call_accept no"@,
        "call_local_timeout 120"@,
    ]
}

pub open spec fn audio_lines() -> Seq<Seq<char>> {
    seq![
        "ausrc_srate 48000"@,
        "auplay_srate 48000"@,
        "ausrc_channels 1"@,
        "auplay_channels 1"@,
        "ausrc_format s16"@,
        "auplay_format s16"@,
        "auenc_format s16"@,
        "audec_format s16"@,
        "audio_buffer 20-160"@,
        "audio_jitter_buffer_type fixed"@,
        "audio_jitter_buffer_ms 40-80"@,
    ]
}

/// Opus for voice on a wireless network: mono, 32 kbps, in-band FEC.
pub open spec fn opus_lines() -> Seq<Seq<char>> {
    seq![
        "opus_stereo no"@,
        "opus_sprop_stereo no"@,
        "opus_bitrate 32000"@,
        "opus_inbandfec yes"@,
        "opus_packet_loss 10"@,
        "opus_dtx no"@,
        "opus_application voip"@,
    ]
}

pub open spec fn module_names() -> Seq<Seq<char>> {
    seq![
        "g711"@,
        "libg722"@,
        "opus"@,
        "wasapi"@,
        "ksip_audio"@,
        "postlab"@,
        "auconv"@,
        "auresamp"@,
        "ctrl_tcp"@,
        "menu"@,
        "srtp"@,
        "dtls_srtp"@,
        "ksip"@,
    ]
}

pub open spec fn module_lines() -> Seq<Seq<char>> {
    module_names().map_values(|m: Seq<char>| "module "@ + m + ".dll"@)
}

/// The lines of the engine's configuration. `address` is where SIP
/// listens, `adapter` the interface to hold to (none when empty), the two
/// devices are the ones the engine opens, `control` the port of its control
/// channel, `trust` the authorities a TLS server is checked against, and
/// `sounds` the folder of the call sounds, when there is one.
pub open spec fn config_lines(
    account: Account,
    s: Settings,
    address: Seq<char>,
    adapter: Seq<char>,
    speaker: Seq<char>,
    microphone: Seq<char>,
    control: u16,
    trust: Seq<char>,
    sounds: Option<Seq<char>>,
) -> Seq<Seq<char>> {
    sip_lines(account, s, address) + call_lines() + device_lines(speaker, microphone)
        + audio_lines() + engine_lines(s) + opus_lines() + port_lines(s, control) + module_lines()
        + adapter_lines(adapter) + trust_lines(s, trust) + sound_lines(sounds)
}

pub open spec fn sip_lines(account: Account, s: Settings, address: Seq<char>) -> Seq<Seq<char>> {
    seq![
        "ksip_sip_server "@ + account.server@,
        "ksip_sip_port "@ + decimal(account.port as nat),
        "ksip_extension "@ + account.extension@,
        "sip_listen "@ + address + seq![':'] + decimal(s.sip_port as nat),
        "sip_transports "@ + sip_transport_spec(s),
    ]
}

pub open spec fn device_lines(speaker: Seq<char>, microphone: Seq<char>) -> Seq<Seq<char>> {
    seq![
        "audio_player ksip_audio,"@ + speaker,
        "audio_source ksip_audio,"@ + microphone,
        "audio_alert wasapi,"@ + speaker,
    ]
}

pub open spec fn mediaenc_word(s: Settings) -> Seq<char> {
    match mediaenc_spec(s) {
        Some(m) => m,
        None => Seq::empty(),
    }
}

pub open spec fn engine_lines(s: Settings) -> Seq<Seq<char>> {
    seq![
        "webrtc_aec_delay_ms "@ + decimal(s.aec_delay_ms as nat),
        "ksip_aec_enabled "@ + yes_no_word(s.aec),
        "ksip_register_interval "@ + decimal(s.register_interval as nat),
        "ksip_detail_log "@ + yes_no_word(s.detail_log),
        "ksip_sip_transport "@ + sip_transport_spec(s),
        "ksip_mediaenc "@ + mediaenc_word(s),
        "ksip_audio_codecs "@ + comma_joined(codecs_offered(s)),
    ]
}

pub open spec fn port_lines(s: Settings, control: u16) -> Seq<Seq<char>> {
    seq![
        "ksip_microphone_gain "@ + decimal(s.microphone_gain as nat),
        "ksip_speaker_gain "@ + decimal(s.speaker_gain as nat),
        "rtp_ports "@ + decimal(s.rtp_port as nat) + seq!['-'] + decimal((s.rtp_port + 20) as nat),
        "rtp_timeout 60"@,
        "ctrl_tcp_listen 127.0.0.1:"@ + decimal(control as nat),
    ]
}

pub open spec fn adapter_lines(adapter: Seq<char>) -> Seq<Seq<char>> {
    if adapter.len() > 0 {
        seq!["net_interface "@ + adapter]
    } else {
        Seq::empty()
    }
}

pub open spec fn trust_lines(s: Settings, trust: Seq<char>) -> Seq<Seq<char>> {
    if sip_transport_spec(s) == "TLS"@ {
        seq!["sip_cafile "@ + trust, "sip_verify_server yes"@]
    } else {
        Seq::empty()
    }
}

pub open spec fn sound_lines(sounds: Option<Seq<char>>) -> Seq<Seq<char>> {
    match sounds {
        Some(dir) => seq!["audio_path "@ + slashes(dir)],
        None => Seq::empty(),
    }
}

/// Appends one line and its line break.
fn put(out: &mut Vec<char>, line: &Vec<char>, lines: Ghost<Seq<Seq<char>>>) -> (next: Ghost<
    Seq<Seq<char>>,
>)
    requires
        old(out)@ == joined(lines@),
    ensures
        next@ == lines@.push(line@),
        final(out)@ == joined(next@),
{
    extend(out, line);
    out.push('\n');
    let next = Ghost(lines@.push(line@));
    assert(next@.drop_last() =~= lines@);
    assert(out@ =~= joined(next@));
    next
}

/// Appends a line that is given whole.
fn put_text(out: &mut Vec<char>, line: &str, lines: Ghost<Seq<Seq<char>>>) -> (next: Ghost<
    Seq<Seq<char>>,
>)
    requires
        old(out)@ == joined(lines@),
    ensures
        next@ == lines@.push(line@),
        final(out)@ == joined(next@),
{
    put(out, &chars_of(line), lines)
}

/// A line of a name and a text.
fn named(name: &str, value: &str) -> (r: Vec<char>)
    ensures
        r@ == name@ + value@,
{
    let mut v = chars_of(name);
    extend_str(&mut v, value);
    v
}

/// A line of a name and a number.
fn numbered(name: &str, value: u64) -> (r: Vec<char>)
    ensures
        r@ == name@ + decimal(value as nat),
{
    let mut v = chars_of(name);
    push_decimal(&mut v, value);
    v
}

fn yes_no_text(b: bool) -> (r: &'static str)
    ensures
        r@ == yes_no_word(b),
{
    if b {
        "yes"
    } else {
        "no"
    }
}

fn mediaenc_text(s: &Settings) -> (r: &'static str)
    ensures
        r@ == mediaenc_word(*s),
{
    proof {
        reveal_strlit("");
    }
    match s.mediaenc() {
        Some(m) => m,
        None => "",
    }
}

fn listen_line(address: &str, port: u16) -> (r: Vec<char>)
    ensures
        r@ == "sip_listen "@ + address@ + seq![':'] + decimal(port as nat),
{
    let mut v = named("sip_listen ", address);
    v.push(':');
    push_decimal(&mut v, port as u64);
    assert(v@ =~= "sip_listen "@ + address@ + seq![':'] + decimal(port as nat));
    v
}

fn ports_line(rtp: u16) -> (r: Vec<char>)
    ensures
        r@ == "rtp_ports "@ + decimal(rtp as nat) + seq!['-'] + decimal((rtp + 20) as nat),
{
    let mut v = numbered("rtp_ports ", rtp as u64);
    v.push('-');
    push_decimal(&mut v, rtp as u64 + 20);
    assert(v@ =~= "rtp_ports "@ + decimal(rtp as nat) + seq!['-'] + decimal((rtp + 20) as nat));
    v
}

fn module_line(name: &str) -> (r: Vec<char>)
    ensures
        r@ == "module "@ + name@ + ".dll"@,
{
    let mut line = named("module ", name);
    extend_str(&mut line, ".dll");
    line
}

/// The text with its backslashes turned into slashes.
pub fn forward_slashes(s: &str) -> (r: String)
    ensures
        r@ == slashes(s@),
{
    let v = chars_of(s);
    let mut out: Vec<char> = Vec::new();
    let mut i: usize = 0;
    while i < v.len()
        invariant
            i <= v.len(),
            v@ == s@,
            out@ == slashes(s@.take(i as int)),
        decreases v.len() - i,
    {
        out.push(if v[i] == '\\' { '/' } else { v[i] });
        assert(out@ =~= slashes(s@.take(i + 1)));
        i += 1;
    }
    assert(s@.take(v.len() as int) =~= s@);
    string_of(&out)
}

/// The engine's configuration, as the text of its config file.
pub fn engine_config(
    account: &Account,
    s: &Settings,
    address: &str,
    adapter: &str,
    speaker: &str,
    microphone: &str,
    control: u16,
    trust: &str,
    sounds: Option<&str>,
) -> (r: String)
    ensures
        r@ == joined(
            config_lines(
                *account,
                *s,
                address@,
                adapter@,
                speaker@,
                microphone@,
                control,
                trust@,
                crate::text::opt_view(sounds),
            ),
        ),
{
    let mut out: Vec<char> = Vec::new();
    let mut lines: Ghost<Seq<Seq<char>>> = Ghost(Seq::empty());
    assert(out@ =~= joined(lines@));
    let transport = s.sip_transport();
    lines = put(&mut out, &named("ksip_sip_server ", account.server.as_str()), lines);
    lines = put(&mut out, &numbered("ksip_sip_port ", account.port as u64), lines);
    lines = put(&mut out, &named("ksip_extension ", account.extension.as_str()), lines);
    lines = put(&mut out, &listen_line(address, s.sip_port), lines);
    lines = put(&mut out, &named("sip_transports ", transport), lines);
    let ghost part1 = lines@;
    assert(part1 =~= sip_lines(*account, *s, address@));
    lines = put_text(&mut out, "sip_cuser_random no", lines);
    lines = put_text(&mut out, "call_max_calls 2", lines);
    lines = put_text(&mut out, "call_hold_other_calls yes", lines);
    lines = put_text(&mut out, "call_accept no", lines);
    lines = put_text(&mut out, "call_local_timeout 120", lines);
    let ghost part2 = lines@;
    assert(part2 =~= part1 + call_lines());
    lines = put(&mut out, &named("audio_player ksip_audio,", speaker), lines);
    lines = put(&mut out, &named("audio_source ksip_audio,", microphone), lines);
    lines = put(&mut out, &named("audio_alert wasapi,", speaker), lines);
    let ghost part3 = lines@;
    assert(part3 =~= part2 + device_lines(speaker@, microphone@));
    lines = put_text(&mut out, "ausrc_srate 48000", lines);
    lines = put_text(&mut out, "auplay_srate 48000", lines);
    lines = put_text(&mut out, "ausrc_channels 1", lines);
    lines = put_text(&mut out, "auplay_channels 1", lines);
    lines = put_text(&mut out, "ausrc_format s16", lines);
    lines = put_text(&mut out, "auplay_format s16", lines);
    lines = put_text(&mut out, "auenc_format s16", lines);
    lines = put_text(&mut out, "audec_format s16", lines);
    lines = put_text(&mut out, "audio_buffer 20-160", lines);
    lines = put_text(&mut out, "audio_jitter_buffer_type fixed", lines);
    lines = put_text(&mut out, "audio_jitter_buffer_ms 40-80", lines);
    let ghost part4 = lines@;
    assert(part4 =~= part3 + audio_lines());
    lines = put(&mut out, &numbered("webrtc_aec_delay_ms ", s.aec_delay_ms as u64), lines);
    lines = put(&mut out, &named("ksip_aec_enabled ", yes_no_text(s.aec)), lines);
    lines = put(&mut out, &numbered("ksip_register_interval ", s.register_interval as u64), lines);
    lines = put(&mut out, &named("ksip_detail_log ", yes_no_text(s.detail_log)), lines);
    lines = put(&mut out, &named("ksip_sip_transport ", transport), lines);
    lines = put(&mut out, &named("ksip_mediaenc ", mediaenc_text(s)), lines);
    let codecs = s.codec_order();
    lines = put(&mut out, &named("ksip_audio_codecs ", codecs.as_str()), lines);
    let ghost part5 = lines@;
    assert(part5 =~= part4 + engine_lines(*s));
    lines = put_text(&mut out, "opus_stereo no", lines);
    lines = put_text(&mut out, "opus_sprop_stereo no", lines);
    lines = put_text(&mut out, "opus_bitrate 32000", lines);
    lines = put_text(&mut out, "opus_inbandfec yes", lines);
    lines = put_text(&mut out, "opus_packet_loss 10", lines);
    lines = put_text(&mut out, "opus_dtx no", lines);
    lines = put_text(&mut out, "opus_application voip", lines);
    let ghost part6 = lines@;
    assert(part6 =~= part5 + opus_lines());
    lines = put(&mut out, &numbered("ksip_microphone_gain ", s.microphone_gain as u64), lines);
    lines = put(&mut out, &numbered("ksip_speaker_gain ", s.speaker_gain as u64), lines);
    lines = put(&mut out, &ports_line(s.rtp_port), lines);
    lines = put_text(&mut out, "rtp_timeout 60", lines);
    lines = put(&mut out, &numbered("ctrl_tcp_listen 127.0.0.1:", control as u64), lines);
    let ghost part7 = lines@;
    assert(part7 =~= part6 + port_lines(*s, control));
    let modules = [
        "g711",
        "libg722",
        "opus",
        "wasapi",
        "ksip_audio",
        "postlab",
        "auconv",
        "auresamp",
        "ctrl_tcp",
        "menu",
        "srtp",
        "dtls_srtp",
        "ksip",
    ];
    assert(crate::message::str_views(modules@) =~= module_names());
    let mut k: usize = 0;
    while k < 13
        invariant
            k <= 13,
            crate::message::str_views(modules@) == module_names(),
            out@ == joined(lines@),
            lines@ == part7 + module_lines().take(k as int),
        decreases 13 - k,
    {
        assert(modules@[k as int]@ == module_names()[k as int]);
        lines = put(&mut out, &module_line(modules[k]), lines);
        assert(lines@ =~= part7 + module_lines().take(k + 1));
        k += 1;
    }
    assert(module_lines().take(13) =~= module_lines());
    let ghost part8 = lines@;
    if chars_of(adapter).len() > 0 {
        lines = put(&mut out, &named("net_interface ", adapter), lines);
    }
    let ghost part9 = lines@;
    assert(part9 =~= part8 + adapter_lines(adapter@));
    // Over TLS the server is always verified: against the chosen authority,
    // or, without one, against everything Windows trusts.
    if crate::text::is(transport, "TLS") {
        lines = put(&mut out, &named("sip_cafile ", trust), lines);
        lines = put_text(&mut out, "sip_verify_server yes", lines);
    }
    let ghost part10 = lines@;
    assert(part10 =~= part9 + trust_lines(*s, trust@));
    match sounds {
        Some(dir) => {
            lines = put(&mut out, &named("audio_path ", forward_slashes(dir).as_str()), lines);
        },
        None => {},
    }
    assert(lines@ =~= part10 + sound_lines(crate::text::opt_view(sounds)));
    assert(lines@ =~= config_lines(
        *account,
        *s,
        address@,
        adapter@,
        speaker@,
        microphone@,
        control,
        trust@,
        crate::text::opt_view(sounds),
    ));
    string_of(&out)
}

/// Whether the control port the system gave is one the engine needs for SIP
/// or RTP; then the engine cannot be started on it.
pub open spec fn control_port_taken(control: u16, s: Settings) -> bool {
    control == s.sip_port || (s.rtp_port <= control && control <= s.rtp_port + 20)
}

pub fn check_control_port(control: u16, s: &Settings) -> (r: Result<(), String>)
    ensures
        r is Ok <==> !control_port_taken(control, *s),
        r matches Err(e) ==> e@ == "ENGINE_CONTROL_PORT_TAKEN"@,
{
    if control == s.sip_port || (s.rtp_port <= control && control as u32 <= s.rtp_port as u32 + 20) {
        return Err(message("ENGINE_CONTROL_PORT_TAKEN"));
    }
    Ok(())
}

/// Whether the engine needs everything Windows trusts written out: over TLS,
/// when the settings name no authority of their own.
pub open spec fn uses_windows_trust_spec(s: Settings) -> bool {
    sip_transport_spec(s) == "TLS"@ && trim(s.ca_file@).len() == 0
}

pub fn uses_windows_trust(s: &Settings) -> (r: bool)
    ensures
        r == uses_windows_trust_spec(*s),
{
    crate::text::is(s.sip_transport(), "TLS") && chars_of(trim_str(s.ca_file.as_str())).len() == 0
}

/// The authorities a TLS server is checked against: the chosen file, or the
/// file the Windows store was written to.
pub open spec fn trust_spec(s: Settings, windows_store: Seq<char>) -> Seq<char> {
    if trim(s.ca_file@).len() == 0 {
        slashes(windows_store)
    } else {
        slashes(trim(s.ca_file@))
    }
}

pub fn trust_file(s: &Settings, windows_store: &str) -> (r: String)
    ensures
        r@ == trust_spec(*s, windows_store@),
{
    let chosen = trim_str(s.ca_file.as_str());
    if chars_of(chosen).len() == 0 {
        forward_slashes(windows_store)
    } else {
        forward_slashes(chosen)
    }
}

proof fn lemma_find_first(s: Seq<char>, c: char, k: int)
    requires
        0 <= k < s.len(),
        s[k] == c,
        forall|j: int| 0 <= j < k ==> s[j] != c,
    ensures
        find(s, c) == Some(k),
{
    lemma_find(s, c);
}

proof fn lemma_joined_front(lines: Seq<Seq<char>>)
    requires
        lines.len() > 0,
    ensures
        joined(lines) == lines[0] + seq!['\n'] + joined(lines.drop_first()),
    decreases lines.len(),
{
    if lines.len() == 1 {
        assert(lines.drop_last() =~= Seq::<Seq<char>>::empty());
        assert(lines.drop_first() =~= Seq::<Seq<char>>::empty());
        assert(joined(lines.drop_last()) =~= Seq::<char>::empty());
        assert(joined(lines.drop_first()) =~= Seq::<char>::empty());
        assert(joined(lines) =~= lines[0] + seq!['\n'] + joined(lines.drop_first()));
    } else {
        let init = lines.drop_last();
        lemma_joined_front(init);
        assert(init.drop_first() =~= lines.drop_first().drop_last());
        assert(lines.drop_first().last() == lines.last());
        assert(joined(lines) =~= lines[0] + seq!['\n'] + joined(lines.drop_first()));
    }
}

/// The engine reads its configuration line by line: as long as no line
/// holds a line break, the text gives back each line as it was written, in
/// order, and after the last line break nothing.
pub proof fn law_each_line_reads_back(lines: Seq<Seq<char>>)
    requires
        forall|i: int| 0 <= i < lines.len() ==> !(#[trigger] lines[i]).contains('\n'),
    ensures
        split(joined(lines), '\n') == lines.push(Seq::<char>::empty()),
    decreases lines.len(),
{
    if lines.len() == 0 {
        lemma_find(Seq::<char>::empty(), '\n');
        assert(split(Seq::<char>::empty(), '\n') =~= seq![Seq::<char>::empty()]);
        assert(lines.push(Seq::<char>::empty()) =~= seq![Seq::<char>::empty()]);
    } else {
        let rest = lines.drop_first();
        assert forall|i: int| 0 <= i < rest.len() implies !(#[trigger] rest[i]).contains('\n') by {
            assert(rest[i] == lines[i + 1]);
        }
        law_each_line_reads_back(rest);
        lemma_joined_front(lines);
        let first = lines[0];
        let text = joined(lines);
        let k = first.len() as int;
        assert forall|j: int| 0 <= j < k implies text[j] != '\n' by {
            assert(text[j] == first[j]);
            if first[j] == '\n' {
                assert(first.contains('\n'));
            }
        }
        assert(text[k] == '\n');
        lemma_find_first(text, '\n', k);
        assert(text.take(k) =~= first);
        assert(text.skip(k + 1) =~= joined(rest));
        assert(lines.push(Seq::<char>::empty()) =~= seq![first] + rest.push(Seq::<char>::empty()));
    }
}

} // verus!
