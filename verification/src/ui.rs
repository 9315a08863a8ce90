use vstd::prelude::*;
use crate::discovery::device_views;
use crate::keyed::same_text;
use crate::model::{DeviceInfo, DeviceView};
use crate::text::chars_of;

verus! {

// ---------------------------------------------------------------------------
// What the tray icon shows.

/// A profile as the tray lists it.
#[derive(Debug, Clone)]
pub struct TrayProfile {
    pub id: String,
    pub name: String,
    pub activatable: bool,
}

/// What the tray knows of the service.
#[derive(Debug, Clone)]
pub struct TraySnapshot {
    pub online: bool,
    pub global_bypass: bool,
    pub profiles: Vec<TrayProfile>,
    pub devices: Vec<DeviceInfo>,
    pub error: Option<String>,
}

impl TraySnapshot {
    /// The snapshot of a service that could not be reached.
    pub fn offline(error: String) -> (r: Self)
        ensures
            !r.online,
            !r.global_bypass,
            r.profiles@.len() == 0,
            r.devices@.len() == 0,
            r.error == Some(error),
    {
        TraySnapshot {
            online: false,
            global_bypass: false,
            profiles: Vec::new(),
            devices: Vec::new(),
            error: Some(error),
        }
    }

    /// The snapshot before anything is known: offline, without an error.
    pub fn empty() -> (r: Self)
        ensures
            !r.online,
            !r.global_bypass,
            r.profiles@.len() == 0,
            r.devices@.len() == 0,
            r.error is None,
    {
        TraySnapshot {
            online: false,
            global_bypass: false,
            profiles: Vec::new(),
            devices: Vec::new(),
            error: None,
        }
    }
}

/// Whether an output is being filtered by its assigned profile.
pub open spec fn tray_active(d: DeviceView) -> bool {
    d.connected && d.assigned_profile is Some && !d.bypassed
}

/// The state the tray names: unavailable when offline, bypassed under the
/// global bypass, active when some output is filtered, else idle.
pub open spec fn tray_state(online: bool, global_bypass: bool, devices: Seq<DeviceView>) -> Seq<char> {
    if !online {
        "Unavailable"@
    } else if global_bypass {
        "Bypassed"@
    } else if exists|i: int| 0 <= i < devices.len() && tray_active(#[trigger] devices[i]) {
        "Active"@
    } else {
        "Idle"@
    }
}

/// The state the tray names (see [`tray_state`]).
pub fn state_label(snapshot: &TraySnapshot) -> (r: &'static str)
    ensures
        r@ == tray_state(snapshot.online, snapshot.global_bypass, device_views(snapshot.devices@)),
{
    if !snapshot.online {
        return "Unavailable";
    }
    if snapshot.global_bypass {
        return "Bypassed";
    }
    let ghost dv = device_views(snapshot.devices@);
    let mut i: usize = 0;
    while i < snapshot.devices.len()
        invariant
            i <= snapshot.devices.len(),
            snapshot.online,
            !snapshot.global_bypass,
            dv == device_views(snapshot.devices@),
            forall|j: int| 0 <= j < i ==> !tray_active(#[trigger] dv[j]),
        decreases snapshot.devices.len() - i,
    {
        let d = &snapshot.devices[i];
        proof {
            assert(dv[i as int] == d@);
        }
        if d.connected && d.assigned_profile.is_some() && !d.bypassed {
            return "Active";
        }
        i += 1;
    }
    "Idle"
}

/// The icon of the tray: an error when offline, muted under the global
/// bypass, else the application's own.
pub fn icon_name(snapshot: &TraySnapshot) -> (r: &'static str)
    ensures
        r@ == (if !snapshot.online {
            "dialog-error-symbolic"@
        } else if snapshot.global_bypass {
            "audio-volume-muted-symbolic"@
        } else {
            "org.massiveeq.MassiveEQ"@
        }),
{
    if !snapshot.online {
        "dialog-error-symbolic"
    } else if snapshot.global_bypass {
        "audio-volume-muted-symbolic"
    } else {
        "org.massiveeq.MassiveEQ"
    }
}

/// The index of an output's assignment in the tray's profile menu: 0 for
/// `Unassigned`, else one more than the position of the first listed profile
/// with the assigned id (0 when no listed profile has it).
pub open spec fn assignment_choice(profiles: Seq<TrayProfile>, assigned: Option<Seq<char>>) -> nat {
    match assigned {
        None => 0,
        Some(id) => if exists|i: int| 0 <= i < profiles.len() && (#[trigger] profiles[i]).id@ == id {
            ((choose|i: int|
                0 <= i < profiles.len() && (#[trigger] profiles[i]).id@ == id && forall|j: int|
                    0 <= j < i ==> profiles[j].id@ != id) + 1) as nat
        } else {
            0
        },
    }
}

/// The index of an output's assignment in the tray's profile menu (see
/// [`assignment_choice`]).
pub fn selected_profile_index(profiles: &Vec<TrayProfile>, assigned: &Option<String>) -> (r: usize)
    ensures
        r == assignment_choice(profiles@, crate::model::opt_text(*assigned)),
{
    let id = match assigned {
        Some(id) => id.as_str(),
        None => {
            return 0;
        },
    };
    let mut i: usize = 0;
    while i < profiles.len()
        invariant
            i <= profiles.len(),
            crate::model::opt_text(*assigned) == Some(id@),
            forall|j: int| 0 <= j < i ==> (#[trigger] profiles@[j]).id@ != id@,
        decreases profiles.len() - i,
    {
        if same_text(profiles[i].id.as_str(), id) {
            proof {
                assert(0 <= i < profiles@.len() && profiles@[i as int].id@ == id@ && forall|j: int|
                    0 <= j < i ==> profiles@[j].id@ != id@);
                assert(exists|c: int|
                    0 <= c < profiles@.len() && (#[trigger] profiles@[c]).id@ == id@ && forall|j: int|
                        0 <= j < c ==> profiles@[j].id@ != id@);
                let c = choose|c: int|
                    0 <= c < profiles@.len() && (#[trigger] profiles@[c]).id@ == id@ && forall|j: int|
                        0 <= j < c ==> profiles@[j].id@ != id@;
                if c < i {
                    assert(profiles@[c].id@ != id@);
                } else if c > i {
                    assert(profiles@[i as int].id@ != id@);
                }
            }
            return i + 1;
        }
        i += 1;
    }
    0
}

/// The menu title of an output: its description, marked when disconnected.
pub fn output_menu_label(device: &DeviceInfo) -> (r: String)
    ensures
        r@ == (if device.connected {
            device.description@
        } else {
            device.description@ + " (disconnected)"@
        }),
{
    let mut r = device.description.clone();
    if !device.connected {
        r.append(" (disconnected)");
    }
    r
}

// ---------------------------------------------------------------------------
// The editor window.

/// A change of an output's bypass that the service has not confirmed yet.
#[derive(Debug, Clone)]
pub struct PendingDeviceBypass {
    pub device_key: String,
    pub bypassed: bool,
}

/// The bypass that the editor shows for an output: the pending change when it
/// is for that output, else what the service reports.
pub fn displayed_device_bypass(
    device_key: &str,
    service_bypassed: bool,
    pending: Option<&PendingDeviceBypass>,
) -> (r: bool)
    ensures
        r == (match pending {
            Some(p) => if p.device_key@ == device_key@ {
                p.bypassed
            } else {
                service_bypassed
            },
            None => service_bypassed,
        }),
{
    match pending {
        Some(p) => if same_text(p.device_key.as_str(), device_key) {
            p.bypassed
        } else {
            service_bypassed
        },
        None => service_bypassed,
    }
}

/// Whether a character is an ASCII hexadecimal digit.
pub open spec fn is_hex_char(c: char) -> bool {
    ('0' <= c && c <= '9') || ('a' <= c && c <= 'f') || ('A' <= c && c <= 'F')
}

/// Whether a build was made from a known commit: 7 to 64 hexadecimal digits.
pub open spec fn is_build_commit(value: Seq<char>) -> bool {
    &&& value != "unknown"@
    &&& 7 <= value.len() <= 64
    &&& forall|i: int| 0 <= i < value.len() ==> is_hex_char(#[trigger] value[i])
}

/// Whether a build was made from a known commit (see [`is_build_commit`]).
pub fn valid_build_commit(value: &str) -> (r: bool)
    ensures
        r == is_build_commit(value@),
{
    let v = chars_of(value);
    if same_text(value, "unknown") {
        return false;
    }
    if v.len() < 7 || v.len() > 64 {
        return false;
    }
    let mut i: usize = 0;
    while i < v.len()
        invariant
            i <= v.len(),
            v@ == value@,
            forall|j: int| 0 <= j < i ==> is_hex_char(#[trigger] v@[j]),
        decreases v.len() - i,
    {
        let c = v[i];
        if !(('0' <= c && c <= '9') || ('a' <= c && c <= 'f') || ('A' <= c && c <= 'F')) {
            proof {
                assert(!is_hex_char(v@[i as int]));
            }
            return false;
        }
        i += 1;
    }
    true
}

/// The `status` and `ahead_by` fields of a JSON object, when the text is JSON:
/// each present when it is a string, respectively a non-negative integer.
pub uninterp spec fn compare_fields(body: Seq<char>) -> Option<(Option<Seq<char>>, Option<nat>)>;

/// `serde_json::from_str` into a `serde_json::Value`, then the `status` field
/// as a string and the `ahead_by` field as a `u64`; the contract names the result.
#[verifier::external_body]
fn read_compare_fields(body: &str) -> (r: Option<(Option<String>, Option<u64>)>)
    ensures
        match r {
            None => compare_fields(body@) is None,
            Some((s, n)) => compare_fields(body@) == Some(
                (
                    crate::model::opt_text(s),
                    match n {
                        Some(v) => Some(v as nat),
                        None => None,
                    },
                ),
            ),
        },
{
    let value = serde_json::from_str::<serde_json::Value>(body).ok()?;
    Some((
        value.get("status").and_then(serde_json::Value::as_str).map(str::to_owned),
        value.get("ahead_by").and_then(serde_json::Value::as_u64),
    ))
}

/// Whether a comparison of the build with the upstream branch says that the
/// branch is ahead by at least one commit.
pub open spec fn indicates_update(body: Seq<char>) -> bool {
    match compare_fields(body) {
        Some((Some(status), Some(ahead_by))) => status == "ahead"@ && ahead_by > 0,
        _ => false,
    }
}

/// Whether the upstream comparison announces an update (see
/// [`indicates_update`]).
pub fn response_indicates_update(body: &str) -> (r: bool)
    ensures
        r == indicates_update(body@),
{
    match read_compare_fields(body) {
        Some((Some(status), Some(ahead_by))) => same_text(status.as_str(), "ahead") && ahead_by > 0,
        _ => false,
    }
}

} // verus!
