use vstd::prelude::*;
use vstd::string::*;
use vstd::utf8::*;

use crate::error::BleError;
use crate::frame::Frame;
use crate::profile::CommandProfile;
use crate::profile::lookup;
use crate::profile::payload_outcome;
use crate::profile::is_embedded_profile;
use crate::profile::lemma_ascii_hex_text;
use crate::hexcode::spec_hex_decode;
use crate::hexcode::hex_value;
use crate::text::text_eq;

verus! {

/// Command code of the device information request (0x0101).
pub const CMD_GET_DEVICE_INFO: u16 = 0x0101;
/// Command code of the audio mode notification (0x0106).
pub const CMD_NOTIFY_AUDIO_MODE: u16 = 0x0106;
/// How many times a command is sent before its transport error is reported.
pub const COMMAND_ATTEMPTS: u32 = 2;

/// Noise control mode of the earbuds.
#[derive(Clone, Copy, Debug, PartialEq, Eq, Structural)]
pub enum AncMode {
    Off,
    Transparency,
    On,
}

/// The name of a mode, as the profile and the user interface use it.
pub open spec fn anc_name(mode: AncMode) -> Seq<char> {
    match mode {
        AncMode::Off => "Off"@,
        AncMode::Transparency => "Transparency"@,
        AncMode::On => "On"@,
    }
}

/// The mode with a given name.
pub open spec fn anc_from_name(s: Seq<char>) -> Option<AncMode> {
    if s == "Off"@ {
        Some(AncMode::Off)
    } else if s == "Transparency"@ {
        Some(AncMode::Transparency)
    } else if s == "On"@ {
        Some(AncMode::On)
    } else {
        None
    }
}

/// The mode a mode byte stands for: 0x00 = ANC, 0x01 = Transparency, 0x02 = Off.
pub open spec fn anc_from_byte(byte: u8) -> Option<AncMode> {
    if byte == 0 {
        Some(AncMode::On)
    } else if byte == 1 {
        Some(AncMode::Transparency)
    } else if byte == 2 {
        Some(AncMode::Off)
    } else {
        None
    }
}

/// The next mode of the tray's cycle: Off, Transparency, On, Off, ...
pub open spec fn anc_successor(mode: AncMode) -> AncMode {
    match mode {
        AncMode::Off => AncMode::Transparency,
        AncMode::Transparency => AncMode::On,
        AncMode::On => AncMode::Off,
    }
}

impl AncMode {
    /// The name of the mode.
    pub fn as_str(self) -> (r: &'static str)
        ensures
            r@ == anc_name(self),
    {
        match self {
            AncMode::Off => "Off",
            AncMode::Transparency => "Transparency",
            AncMode::On => "On",
        }
    }

    /// The mode with the given name; any other name is refused.
    pub fn parse(value: &str) -> (r: Result<AncMode, BleError>)
        ensures
            match anc_from_name(value@) {
                Some(mode) => r == Ok::<AncMode, BleError>(mode),
                None => r matches Err(BleError::InvalidAncMode(s)) && s@ == value@,
            },
    {
        if text_eq(value, "Off") {
            Ok(AncMode::Off)
        } else if text_eq(value, "Transparency") {
            Ok(AncMode::Transparency)
        } else if text_eq(value, "On") {
            Ok(AncMode::On)
        } else {
            Err(BleError::InvalidAncMode(String::from_str(value)))
        }
    }

    /// The mode that the mode byte of an audio mode notification reports.
    pub fn from_mode_byte(byte: u8) -> (r: Option<AncMode>)
        ensures
            r == anc_from_byte(byte),
    {
        match byte {
            0x00 => Some(AncMode::On),
            0x01 => Some(AncMode::Transparency),
            0x02 => Some(AncMode::Off),
            _ => None,
        }
    }

    /// The mode that follows in the tray's cycle.
    pub fn next_in_cycle(self) -> (r: AncMode)
        ensures
            r == anc_successor(self),
            r != self,
            anc_successor(anc_successor(r)) == self,
    {
        match self {
            AncMode::Off => AncMode::Transparency,
            AncMode::Transparency => AncMode::On,
            AncMode::On => AncMode::Off,
        }
    }

    /// The mode shown after connecting, from the mode the device reported:
    /// "Transparency" and "Off" are taken as they are, anything else
    /// (including no report) counts as ANC on.
    pub fn from_reported(reported: &Option<String>) -> (r: AncMode)
        ensures
            r == (match reported {
                Some(s) => if s@ == "Transparency"@ {
                    AncMode::Transparency
                } else if s@ == "Off"@ {
                    AncMode::Off
                } else {
                    AncMode::On
                },
                None => AncMode::On,
            }),
    {
        match reported {
            Some(s) => if text_eq(s.as_str(), "Transparency") {
                AncMode::Transparency
            } else if text_eq(s.as_str(), "Off") {
                AncMode::Off
            } else {
                AncMode::On
            },
            None => AncMode::On,
        }
    }
}

/// Battery levels in percent; `None` where the reported value gives no
/// percentage.
#[derive(Clone, Copy, Debug, PartialEq, Eq, Structural)]
pub struct BatteryStatus {
    pub left: Option<u8>,
    pub right: Option<u8>,
    pub case: Option<u8>,
}

impl Default for BatteryStatus {
    fn default() -> (r: BatteryStatus)
        ensures
            r == (BatteryStatus { left: None, right: None, case: None }),
    {
        BatteryStatus { left: None, right: None, case: None }
    }
}

/// The percentage of a reported battery value: (value + 1) * 10, when it
/// fits in a byte.
pub open spec fn battery_percent(value: u8) -> Option<u8> {
    if (value + 1) * 10 <= 255 {
        Some(((value + 1) * 10) as u8)
    } else {
        None
    }
}

/// The battery status of a payload `[left][right][case]`.
pub open spec fn spec_battery(payload: Seq<u8>) -> BatteryStatus {
    BatteryStatus {
        left: battery_percent(payload[0]),
        right: battery_percent(payload[1]),
        case: battery_percent(payload[2]),
    }
}

fn percent(value: u8) -> (r: Option<u8>)
    ensures
        r == battery_percent(value),
{
    let scaled: u16 = (value as u16 + 1) * 10;
    if scaled <= 255 {
        Some(scaled as u8)
    } else {
        None
    }
}

/// Decodes a 0x0301 battery payload `[left][right][case]`; each percentage
/// is (value + 1) * 10.
pub fn decode_battery(payload: &[u8]) -> (r: BatteryStatus)
    requires
        payload@.len() >= 3,
    ensures
        r == spec_battery(payload@),
{
    BatteryStatus { left: percent(payload[0]), right: percent(payload[1]), case: percent(payload[2]) }
}

/// Serial number, firmware version and noise control mode of the device.
#[derive(Clone, Debug)]
pub struct DeviceInfo {
    pub serial: Option<String>,
    pub firmware: Option<String>,
    pub anc_mode: Option<String>,
}

impl Default for DeviceInfo {
    fn default() -> (r: DeviceInfo)
        ensures
            r.serial is None && r.firmware is None && r.anc_mode is None,
    {
        DeviceInfo { serial: None, firmware: None, anc_mode: None }
    }
}

/// The view of a device information record: the three texts.
pub open spec fn info_view(info: DeviceInfo) -> (Option<Seq<char>>, Option<Seq<char>>, Option<Seq<char>>) {
    (info.serial.deep_view(), info.firmware.deep_view(), info.anc_mode.deep_view())
}

/// The text that `String::from_utf8_lossy` makes of a byte sequence.
pub uninterp spec fn utf8_lossy_text(bytes: Seq<u8>) -> Seq<char>;

/// Calls `String::from_utf8_lossy`. The contract names its result and states
/// what the documentation promises for valid UTF-8: the decoded text. How
/// invalid sequences are replaced is left unstated.
#[verifier::external_body]
fn utf8_lossy(bytes: &[u8]) -> (s: String)
    ensures
        s@ == utf8_lossy_text(bytes@),
        valid_utf8(bytes@) ==> s@ == decode_utf8(bytes@),
{
    String::from_utf8_lossy(bytes).into_owned()
}

/// The audio mode an audio mode notification (0x0106) reports.
pub open spec fn spec_audio_mode(frame: (u16, Seq<u8>)) -> Option<AncMode> {
    if frame.0 == CMD_NOTIFY_AUDIO_MODE && frame.1.len() > 0 {
        anc_from_byte(frame.1[0])
    } else {
        None
    }
}

/// The firmware text of a device information payload: the two firmware
/// fields, once if they agree, else both separated by '/'.
pub open spec fn firmware_text(payload: Seq<u8>) -> Seq<char> {
    let fw1 = utf8_lossy_text(payload.subrange(6, 11));
    let fw2 = utf8_lossy_text(payload.subrange(11, 16));
    if fw1 == fw2 {
        fw1
    } else {
        fw1 + "/"@ + fw2
    }
}

/// How one received frame updates the device information.
pub open spec fn info_step(
    info: (Option<Seq<char>>, Option<Seq<char>>, Option<Seq<char>>),
    frame: (u16, Seq<u8>),
) -> (Option<Seq<char>>, Option<Seq<char>>, Option<Seq<char>>) {
    let after_info = if frame.0 == CMD_GET_DEVICE_INFO && frame.1.len() >= 32 {
        (Some(utf8_lossy_text(frame.1.subrange(16, 32))), Some(firmware_text(frame.1)), info.2)
    } else {
        info
    };
    match spec_audio_mode(frame) {
        Some(mode) => (after_info.0, after_info.1, Some(anc_name(mode))),
        None => after_info,
    }
}

/// The device information collected from a sequence of received frames.
pub open spec fn spec_device_info(frames: Seq<(u16, Seq<u8>)>) -> (
    Option<Seq<char>>,
    Option<Seq<char>>,
    Option<Seq<char>>,
)
    decreases frames.len(),
{
    if frames.len() == 0 {
        (None, None, None)
    } else {
        info_step(spec_device_info(frames.drop_last()), frames.last())
    }
}

/// Whether `f` reports the noise control mode: an 0x0106 notification whose
/// first payload byte is 0, 1 or 2.
pub open spec fn is_mode_report(f: Frame) -> bool {
    f.command == 0x0106 && f.payload@.len() > 0 && f.payload@[0] <= 2
}

/// The mode name of a reported mode byte: 0 is "On", 1 "Transparency", 2 "Off".
pub open spec fn reported_mode_text(b: u8) -> Seq<char> {
    if b == 0 {
        "On"@
    } else if b == 1 {
        "Transparency"@
    } else {
        "Off"@
    }
}

/// Whether `f` is a device information reply: command 0x0101 with at least
/// 32 payload bytes.
pub open spec fn is_info_reply(f: Frame) -> bool {
    f.command == 0x0101 && f.payload@.len() >= 32
}

/// The noise control mode collected from `frames` is that of the last mode
/// report among them, wherever the device information replies stand; none
/// without a mode report.
pub proof fn lemma_device_info_mode_is_last_report(frames: Seq<Frame>)
    ensures
        ({
            let info = spec_device_info(frames.map_values(|f: Frame| f@));
            &&& (forall|j: int| 0 <= j < frames.len() ==> !is_mode_report(#[trigger] frames[j])) ==> info.2 is None
            &&& forall|k: int|
                0 <= k < frames.len() && #[trigger] is_mode_report(frames[k]) && (forall|j: int|
                    k < j < frames.len() ==> !is_mode_report(#[trigger] frames[j])) ==> info.2 == Some(
                    reported_mode_text(frames[k].payload@[0]))
        }),
    decreases frames.len(),
{
    if frames.len() > 0 {
        let n = frames.len() - 1;
        let prev = frames.drop_last();
        lemma_device_info_mode_is_last_report(prev);
        let views = frames.map_values(|f: Frame| f@);
        assert(views.drop_last() =~= prev.map_values(|f: Frame| f@));
        let last = frames[n];
        assert(views.last() == last@);
        let info = spec_device_info(views);
        let pinfo = spec_device_info(prev.map_values(|f: Frame| f@));
        assert(info == info_step(pinfo, last@));
        if !is_mode_report(last) {
            assert(spec_audio_mode(last@) is None);
            assert(info.2 == pinfo.2);
            if forall|j: int| 0 <= j < frames.len() ==> !is_mode_report(#[trigger] frames[j]) {
                assert forall|j: int| 0 <= j < prev.len() implies !is_mode_report(#[trigger] prev[j]) by {
                    assert(prev[j] == frames[j]);
                    assert(!is_mode_report(frames[j]));
                }
            }
        } else {
            assert(info.2 == Some(reported_mode_text(last.payload@[0])));
        }
        assert forall|k: int|
            0 <= k < frames.len() && #[trigger] is_mode_report(frames[k]) && (forall|j: int|
                k < j < frames.len() ==> !is_mode_report(#[trigger] frames[j])) implies info.2 == Some(
            reported_mode_text(frames[k].payload@[0])) by {
            if k < n {
                assert(!is_mode_report(frames[n]));
                assert(prev[k] == frames[k]);
                assert forall|j: int| k < j < prev.len() implies !is_mode_report(#[trigger] prev[j]) by {
                    assert(prev[j] == frames[j]);
                    assert(!is_mode_report(frames[j]));
                }
            }
        }
    }
}

/// Serial number and firmware collected from `frames` come from the last
/// device information reply among them, whatever notifications stand
/// around it: the serial is the text of payload bytes 16..32, the firmware
/// the text of bytes 6..11, once when bytes 11..16 give the same text, else
/// followed by '/' and that text. Neither is known without such a reply.
pub proof fn lemma_device_info_serial_is_last_reply(frames: Seq<Frame>)
    ensures
        ({
            let info = spec_device_info(frames.map_values(|f: Frame| f@));
            &&& (forall|j: int| 0 <= j < frames.len() ==> !is_info_reply(#[trigger] frames[j])) ==> (info.0 is None
                && info.1 is None)
            &&& forall|k: int|
                0 <= k < frames.len() && #[trigger] is_info_reply(frames[k]) && (forall|j: int|
                    k < j < frames.len() ==> !is_info_reply(#[trigger] frames[j])) ==> info.0 == Some(
                    utf8_lossy_text(frames[k].payload@.subrange(16, 32))) && info.1 == Some(
                    if utf8_lossy_text(frames[k].payload@.subrange(6, 11)) == utf8_lossy_text(
                        frames[k].payload@.subrange(11, 16),
                    ) {
                        utf8_lossy_text(frames[k].payload@.subrange(6, 11))
                    } else {
                        utf8_lossy_text(frames[k].payload@.subrange(6, 11)) + "/"@ + utf8_lossy_text(
                            frames[k].payload@.subrange(11, 16),
                        )
                    },
                )
        }),
    decreases frames.len(),
{
    if frames.len() > 0 {
        let n = frames.len() - 1;
        let prev = frames.drop_last();
        lemma_device_info_serial_is_last_reply(prev);
        let views = frames.map_values(|f: Frame| f@);
        assert(views.drop_last() =~= prev.map_values(|f: Frame| f@));
        let last = frames[n];
        assert(views.last() == last@);
        let info = spec_device_info(views);
        let pinfo = spec_device_info(prev.map_values(|f: Frame| f@));
        assert(info == info_step(pinfo, last@));
        if !is_info_reply(last) {
            assert(info.0 == pinfo.0 && info.1 == pinfo.1);
            if forall|j: int| 0 <= j < frames.len() ==> !is_info_reply(#[trigger] frames[j]) {
                assert forall|j: int| 0 <= j < prev.len() implies !is_info_reply(#[trigger] prev[j]) by {
                    assert(prev[j] == frames[j]);
                    assert(!is_info_reply(frames[j]));
                }
            }
        }
        assert forall|k: int|
            0 <= k < frames.len() && #[trigger] is_info_reply(frames[k]) && (forall|j: int|
                k < j < frames.len() ==> !is_info_reply(#[trigger] frames[j])) implies info.0 == Some(
            utf8_lossy_text(frames[k].payload@.subrange(16, 32))) && info.1 == Some(firmware_text(frames[k].payload@))
            by {
            if k < n {
                assert(!is_info_reply(frames[n]));
                assert(prev[k] == frames[k]);
                assert forall|j: int| k < j < prev.len() implies !is_info_reply(#[trigger] prev[j]) by {
                    assert(prev[j] == frames[j]);
                    assert(!is_info_reply(frames[j]));
                }
            }
        }
    }
}

/// The bytes `v[from..to]`.
fn copy_range(v: &Vec<u8>, from: usize, to: usize) -> (r: Vec<u8>)
    requires
        from <= to <= v@.len(),
    ensures
        r@ == v@.subrange(from as int, to as int),
{
    let mut r: Vec<u8> = Vec::new();
    let mut i = from;
    while i < to
        invariant
            from <= i <= to <= v@.len(),
            r@ == v@.subrange(from as int, i as int),
        decreases to - i,
    {
        r.push(v[i]);
        i = i + 1;
        assert(r@ =~= v@.subrange(from as int, i as int));
    }
    r
}

/// The audio mode a frame reports, if it is an audio mode notification.
pub fn audio_mode(frame: &Frame) -> (r: Option<AncMode>)
    ensures
        r == spec_audio_mode(frame@),
{
    if frame.command == CMD_NOTIFY_AUDIO_MODE && frame.payload.len() > 0 {
        AncMode::from_mode_byte(frame.payload[0])
    } else {
        None
    }
}

/// Collects serial number, firmware and noise control mode from the frames
/// received after a device information request. A 0x0101 frame with at
/// least 32 payload bytes carries the serial at [16..32] and two firmware
/// fields at [6..11] and [11..16]; a 0x0106 notification carries the mode.
/// Later frames override earlier ones.
pub fn decode_device_info(frames: &Vec<Frame>) -> (info: DeviceInfo)
    ensures
        info_view(info) == spec_device_info(frames@.map_values(|f: Frame| f@)),
        (forall|j: int| 0 <= j < frames@.len() ==> !is_mode_report(#[trigger] frames@[j])) ==> info.anc_mode is None,
        forall|k: int|
            0 <= k < frames@.len() && #[trigger] is_mode_report(frames@[k]) && (forall|j: int|
                k < j < frames@.len() ==> !is_mode_report(#[trigger] frames@[j])) ==> (info.anc_mode matches Some(
                m) && m@ == reported_mode_text(frames@[k].payload@[0])),
        (forall|j: int| 0 <= j < frames@.len() ==> !is_info_reply(#[trigger] frames@[j])) ==> (info.serial is None
            && info.firmware is None),
        forall|k: int|
            0 <= k < frames@.len() && #[trigger] is_info_reply(frames@[k]) && (forall|j: int|
                k < j < frames@.len() ==> !is_info_reply(#[trigger] frames@[j])) ==> (info.serial matches Some(s)
                && s@ == utf8_lossy_text(frames@[k].payload@.subrange(16, 32))) && (info.firmware matches Some(fw)
                && fw@ == if utf8_lossy_text(frames@[k].payload@.subrange(6, 11)) == utf8_lossy_text(
                    frames@[k].payload@.subrange(11, 16),
                ) {
                    utf8_lossy_text(frames@[k].payload@.subrange(6, 11))
                } else {
                    utf8_lossy_text(frames@[k].payload@.subrange(6, 11)) + "/"@ + utf8_lossy_text(
                        frames@[k].payload@.subrange(11, 16),
                    )
                }),
{
    let ghost views = frames@.map_values(|f: Frame| f@);
    let mut info = DeviceInfo::default();
    let mut i: usize = 0;
    while i < frames.len()
        invariant
            i <= frames@.len(),
            views == frames@.map_values(|f: Frame| f@),
            info_view(info) == spec_device_info(views.take(i as int)),
        decreases frames@.len() - i,
    {
        let frame = &frames[i];
        assert(views.take(i + 1).drop_last() =~= views.take(i as int));
        assert(views.take(i + 1).last() == frame@);
        if frame.command == CMD_GET_DEVICE_INFO && frame.payload.len() >= 32 {
            let serial_bytes = copy_range(&frame.payload, 16, 32);
            info.serial = Some(utf8_lossy(serial_bytes.as_slice()));
            let fw1 = utf8_lossy(copy_range(&frame.payload, 6, 11).as_slice());
            let fw2 = utf8_lossy(copy_range(&frame.payload, 11, 16).as_slice());
            if fw1 == fw2 {
                info.firmware = Some(fw1);
            } else {
                info.firmware = Some(fw1.concat("/").concat(fw2.as_str()));
            }
        }
        if let Some(mode) = audio_mode(frame) {
            info.anc_mode = Some(String::from_str(mode.as_str()));
        }
        i = i + 1;
    }
    assert(views.take(frames@.len() as int) =~= views);
    proof {
        lemma_device_info_mode_is_last_report(frames@);
        lemma_device_info_serial_is_last_reply(frames@);
    }
    info
}

/// The outcome of the request for command `kind` with option `option`:
/// `NotSupported` when the profile lacks the command or the option; else the
/// command code with the decoded payload, or the profile error of a payload
/// that does not decode.
pub open spec fn request_ok(p: CommandProfile, kind: Seq<char>, option: Seq<char>, r: Result<(u16, Vec<u8>), BleError>) -> bool {
    match lookup(p.commands@, kind) {
        None => r == Err::<(u16, Vec<u8>), BleError>(BleError::NotSupported),
        Some(c) => match lookup(c.payloads@, option) {
            None => r == Err::<(u16, Vec<u8>), BleError>(BleError::NotSupported),
            Some(_) => match payload_outcome(p, kind, option) {
                Ok(bytes) => r matches Ok((code, v)) && code == c.command && v@ == bytes,
                Err(m) => r matches Err(BleError::Profile(msg)) && msg@ == m,
            },
        },
    }
}

/// The request for command `kind` with option `option`. A command or option
/// that the profile lacks is `NotSupported`: no byte is made up for it.
pub fn command_request(profile: &CommandProfile, kind: &str, option: &str) -> (r: Result<(u16, Vec<u8>), BleError>)
    ensures
        request_ok(*profile, kind@, option@, r),
{
    let code = match profile.command(kind) {
        Some(c) => match c.payload_hex(option) {
            Some(_) => c.command,
            None => {
                return Err(BleError::NotSupported);
            },
        },
        None => {
            return Err(BleError::NotSupported);
        },
    };
    match profile.payload(kind, option) {
        Ok(payload) => Ok((code, payload)),
        Err(e) => Err(e),
    }
}

/// The device information request: the profile's `deviceInfo`/`request`
/// payload, always sent as command 0x0101; `NotSupported` when the profile
/// lacks that command or option.
pub fn device_info_request(profile: &CommandProfile) -> (r: Result<(u16, Vec<u8>), BleError>)
    ensures
        match lookup(profile.commands@, "deviceInfo"@) {
            None => r == Err::<(u16, Vec<u8>), BleError>(BleError::NotSupported),
            Some(c) => match lookup(c.payloads@, "request"@) {
                None => r == Err::<(u16, Vec<u8>), BleError>(BleError::NotSupported),
                Some(_) => match payload_outcome(*profile, "deviceInfo"@, "request"@) {
                    Ok(bytes) => r matches Ok((code, v)) && code == CMD_GET_DEVICE_INFO && v@ == bytes,
                    Err(m) => r matches Err(BleError::Profile(msg)) && msg@ == m,
                },
            },
        },
{
    match command_request(profile, "deviceInfo", "request") {
        Ok((_, payload)) => Ok((CMD_GET_DEVICE_INFO, payload)),
        Err(e) => Err(e),
    }
}

/// The request that sets noise control mode `mode`.
pub fn anc_request(profile: &CommandProfile, mode: AncMode) -> (r: Result<(u16, Vec<u8>), BleError>)
    ensures
        request_ok(*profile, "anc"@, anc_name(mode), r),
{
    command_request(profile, "anc", mode.as_str())
}

/// The request that switches Game Mode on or off.
pub fn game_mode_request(profile: &CommandProfile, enabled: bool) -> (r: Result<(u16, Vec<u8>), BleError>)
    ensures
        request_ok(*profile, "gameMode"@, if enabled { "On"@ } else { "Off"@ }, r),
{
    command_request(profile, "gameMode", if enabled { "On" } else { "Off" })
}

/// The battery level request.
pub fn battery_request(profile: &CommandProfile) -> (r: Result<(u16, Vec<u8>), BleError>)
    ensures
        request_ok(*profile, "battery"@, "request"@, r),
{
    command_request(profile, "battery", "request")
}

/// Whether the device acknowledged command `code`: a frame of that command
/// with an empty payload.
pub open spec fn is_acknowledged(frames: Seq<Frame>, code: u16) -> bool {
    exists|i: int| 0 <= i < frames.len() && #[trigger] frames[i].command == code && frames[i].payload@.len() == 0
}

/// Whether `frames` hold the acknowledgement of command `code`.
pub fn acknowledged(frames: &Vec<Frame>, code: u16) -> (r: bool)
    ensures
        r == is_acknowledged(frames@, code),
{
    let mut i: usize = 0;
    while i < frames.len()
        invariant
            i <= frames@.len(),
            forall|j: int| 0 <= j < i ==> !(#[trigger] frames@[j].command == code && frames@[j].payload@.len() == 0),
        decreases frames@.len() - i,
    {
        if frames[i].command == code && frames[i].payload.len() == 0 {
            return true;
        }
        i = i + 1;
    }
    false
}

/// `Ok` if the device acknowledged command `code`; otherwise the connection
/// error "<feature> komutuna onay alınamadı".
pub fn require_ack(frames: &Vec<Frame>, code: u16, feature: &str) -> (r: Result<(), BleError>)
    ensures
        if is_acknowledged(frames@, code) {
            r is Ok
        } else {
            r matches Err(BleError::Connection(m)) && m@ == feature@ + " komutuna onay alınamadı"@
        },
{
    if acknowledged(frames, code) {
        Ok(())
    } else {
        Err(BleError::Connection(String::from_str(feature).concat(" komutuna onay alınamadı")))
    }
}

/// The position of the first frame of command `code` with at least three
/// payload bytes, or -1.
pub open spec fn first_battery_frame(frames: Seq<Frame>, code: u16) -> int
    decreases frames.len(),
{
    if frames.len() == 0 {
        -1
    } else if frames[0].command == code && frames[0].payload@.len() >= 3 {
        0
    } else {
        let k = first_battery_frame(frames.drop_first(), code);
        if k < 0 {
            -1
        } else {
            k + 1
        }
    }
}

/// Whether `f` is a battery reply for command `code`: that command with at
/// least the three level bytes.
pub open spec fn is_battery_reply(f: Frame, code: u16) -> bool {
    f.command == code && f.payload@.len() >= 3
}

/// The percentage of a reported battery value, written out: (v + 1) * 10
/// when that fits in a byte.
pub open spec fn level_percent(v: u8) -> Option<u8> {
    if (v as int + 1) * 10 <= 255 {
        Some(((v as int + 1) * 10) as u8)
    } else {
        None
    }
}

/// The battery reply that is decoded is the first frame of the battery
/// command with at least three payload bytes; frames of other commands, and
/// shorter frames, are passed over.
pub proof fn lemma_battery_reply_is_first_of_its_command(frames: Seq<Frame>, code: u16)
    ensures
        ({
            let k = first_battery_frame(frames, code);
            &&& (k < 0 <==> forall|j: int| 0 <= j < frames.len() ==> !is_battery_reply(#[trigger] frames[j], code))
            &&& k >= 0 ==> {
                &&& k < frames.len()
                &&& is_battery_reply(frames[k], code)
                &&& forall|j: int| 0 <= j < k ==> !is_battery_reply(#[trigger] frames[j], code)
            }
        }),
    decreases frames.len(),
{
    if frames.len() > 0 {
        let rest = frames.drop_first();
        lemma_battery_reply_is_first_of_its_command(rest, code);
        assert forall|j: int| 0 < j < frames.len() implies frames[j] == rest[j - 1] by {}
        if !is_battery_reply(frames[0], code) {
            assert((forall|j: int| 0 <= j < frames.len() ==> !is_battery_reply(#[trigger] frames[j], code)) <==> (
            forall|j: int| 0 <= j < rest.len() ==> !is_battery_reply(#[trigger] rest[j], code))) by {
                if forall|j: int| 0 <= j < rest.len() ==> !is_battery_reply(#[trigger] rest[j], code) {
                    assert forall|j: int| 0 <= j < frames.len() implies !is_battery_reply(#[trigger] frames[j], code) by {
                        if j > 0 {
                            assert(frames[j] == rest[j - 1]);
                        }
                    }
                }
            }
            let k = first_battery_frame(rest, code);
            if k >= 0 {
                assert forall|j: int| 0 <= j < k + 1 implies !is_battery_reply(#[trigger] frames[j], code) by {
                    if j > 0 {
                        assert(frames[j] == rest[j - 1]);
                    }
                }
            }
        }
    }
}

/// The battery status reported among `frames`: the first frame of the
/// battery command with at least three payload bytes, decoded; all levels
/// unknown if there is none.
pub fn battery_from_frames(frames: &Vec<Frame>, code: u16) -> (r: BatteryStatus)
    ensures
        ({
            let k = first_battery_frame(frames@, code);
            if k < 0 {
                r == (BatteryStatus { left: None, right: None, case: None })
            } else {
                r == spec_battery(frames@[k].payload@)
            }
        }),
        (forall|j: int| 0 <= j < frames@.len() ==> !is_battery_reply(#[trigger] frames@[j], code)) ==> r == (
        BatteryStatus { left: None, right: None, case: None }),
        forall|k: int|
            0 <= k < frames@.len() && is_battery_reply(#[trigger] frames@[k], code) && (forall|j: int|
                0 <= j < k ==> !is_battery_reply(#[trigger] frames@[j], code)) ==> {
                &&& r.left == level_percent(frames@[k].payload@[0])
                &&& r.right == level_percent(frames@[k].payload@[1])
                &&& r.case == level_percent(frames@[k].payload@[2])
            },
{
    proof {
        lemma_battery_reply_is_first_of_its_command(frames@, code);
    }
    let mut i: usize = 0;
    assert(frames@.skip(0) =~= frames@);
    while i < frames.len()
        invariant
            i <= frames@.len(),
            first_battery_frame(frames@, code) == (if first_battery_frame(frames@.skip(i as int), code) < 0 {
                -1
            } else {
                first_battery_frame(frames@.skip(i as int), code) + i
            }),
        decreases frames@.len() - i,
    {
        let ghost rest = frames@.skip(i as int);
        assert(rest.drop_first() =~= frames@.skip(i + 1));
        assert(rest[0] == frames@[i as int]);
        if frames[i].command == code && frames[i].payload.len() >= 3 {
            proof {
                lemma_battery_reply_is_first_of_its_command(frames@, code);
                assert(first_battery_frame(rest, code) == 0);
                let first = first_battery_frame(frames@, code);
                assert(first == i);
                assert(is_battery_reply(frames@[first], code));
                assert forall|k: int|
                    0 <= k < frames@.len() && is_battery_reply(#[trigger] frames@[k], code) && (forall|j: int|
                        0 <= j < k ==> !is_battery_reply(#[trigger] frames@[j], code)) implies k == first by {
                    if k < first {
                        assert(!is_battery_reply(frames@[k], code));
                    } else if first < k {
                        assert(!is_battery_reply(frames@[first], code));
                    }
                }
            }
            return decode_battery(frames[i].payload.as_slice());
        }
        i = i + 1;
    }
    BatteryStatus::default()
}

/// Setting an EQ preset: no verified command exists, so it is refused.
pub fn set_eq_preset(_preset_id: &str) -> (r: Result<(), BleError>)
    ensures
        r == Err::<(), BleError>(BleError::NotSupported),
{
    Err(BleError::NotSupported)
}

/// What follows one send of a command.
#[derive(Clone, Copy, Debug, PartialEq, Eq, Structural)]
pub enum RetryAction {
    /// Hand the outcome of this send to the caller.
    Return,
    /// Drop the session, wait, open a fresh session and send again.
    ReopenAndResend,
}

/// The step after the `attempts`-th send of a command (counting from 1):
/// a success is returned at once; a failure is resent on a fresh session
/// while fewer than two sends were made, and returned after the second.
pub fn retry_action(attempts: u32, failed: bool) -> (r: RetryAction)
    ensures
        !failed ==> r == RetryAction::Return,
        failed ==> (r == RetryAction::ReopenAndResend <==> attempts < COMMAND_ATTEMPTS),
        r == retry_action_spec(attempts, failed),
{
    if failed && attempts < COMMAND_ATTEMPTS {
        RetryAction::ReopenAndResend
    } else {
        RetryAction::Return
    }
}

/// A command is sent at most twice: starting with the first send, a run of
/// failures is resent until two sends were made, and then returned.
pub proof fn lemma_at_most_two_sends(attempts: u32)
    requires
        1 <= attempts,
    ensures
        (attempts < 2) == (retry_action_spec(attempts, true) == RetryAction::ReopenAndResend),
        attempts >= 2 ==> retry_action_spec(attempts, true) == RetryAction::Return,
        retry_action_spec(2, true) == RetryAction::Return,
        forall|failed: bool| retry_action_spec(attempts, failed) == RetryAction::ReopenAndResend ==> attempts + 1 <= 2,
        retry_action_spec(attempts, false) == RetryAction::Return,
{
}

/// The step `retry_action` takes, as a spec function.
pub open spec fn retry_action_spec(attempts: u32, failed: bool) -> RetryAction {
    if failed && attempts < COMMAND_ATTEMPTS {
        RetryAction::ReopenAndResend
    } else {
        RetryAction::Return
    }
}

/// Mode names are a two-way mapping: the name of a mode parses back to it,
/// and only that name does.
pub proof fn lemma_anc_name_roundtrip(mode: AncMode, s: Seq<char>)
    ensures
        anc_from_name(anc_name(mode)) == Some(mode),
        anc_from_name(s) == Some(mode) ==> s == anc_name(mode),
{
    reveal_strlit("Off");
    reveal_strlit("On");
    reveal_strlit("Transparency");
    assert("Off"@.len() == 3 && "On"@.len() == 2 && "Transparency"@.len() == 12);
}

/// The byte that selects a mode in the embedded ANC payloads is the byte the
/// device reports for that mode: the first byte of the payload written for
/// mode `m` reads back as `m`.
pub proof fn lemma_anc_payload_mode_byte(p: CommandProfile, mode: AncMode)
    requires
        is_embedded_profile(p),
    ensures
        payload_outcome(p, "anc"@, anc_name(mode)) matches Ok(b) && b.len() == 6 && anc_from_byte(b[0]) == Some(mode),
{
    reveal_strlit("Off");
    reveal_strlit("On");
    reveal_strlit("Transparency");
    reveal_strlit("anc");
    reveal_strlit("deviceInfo");
    reveal_strlit("001000010001");
    reveal_strlit("011000010001");
    reveal_strlit("021000010001");
    assert("Off"@.len() == 3 && "On"@.len() == 2 && "Transparency"@.len() == 12);
    assert("anc"@.len() == 3 && "deviceInfo"@.len() == 10);
    let c = p.commands@;
    assert(c[0].0@ != "anc"@);
    assert(c.drop_first()[0] == c[1]);
    assert(lookup(c.drop_first(), "anc"@) == Some(c[1].1));
    assert(lookup(c, "anc"@) == Some(c[1].1));
    let ps = c[1].1.payloads@;
    assert(ps.drop_first()[0] == ps[1]);
    assert(ps.drop_first().drop_first()[0] == ps[2]);
    let t = match mode {
        AncMode::On => ps[0].1,
        AncMode::Transparency => ps[1].1,
        AncMode::Off => ps[2].1,
    };
    let ps1 = ps.drop_first();
    let ps2 = ps1.drop_first();
    match mode {
        AncMode::On => {
            assert(lookup(ps, anc_name(mode)) == Some(t));
        },
        AncMode::Transparency => {
            assert(lookup(ps1, anc_name(mode)) == Some(t));
            assert(lookup(ps, anc_name(mode)) == Some(t));
        },
        AncMode::Off => {
            assert(lookup(ps2, anc_name(mode)) == Some(t));
            assert(lookup(ps1, anc_name(mode)) == Some(t));
            assert(lookup(ps, anc_name(mode)) == Some(t));
        },
    }
    lemma_ascii_hex_text(t@);
    let d = encode_utf8(t@);
    assert(d[0] == 48u8);
    assert(hex_value(d[0]) == Some(0u8));
    assert(spec_hex_decode(d) is Ok);
}

} // verus!
