//! Endpoint enumeration on platforms without a WASAPI backend.

use vstd::prelude::*;
use vstd::string::*;
use crate::text::{contains_text, lowercase, text_contains, to_lowercase};
use crate::types::{DeviceInfo, DeviceKind, Error, Result};

verus! {

/// Lists the active render endpoints. Without WASAPI there are none to ask
/// for, so the call always reports an unsupported platform.
pub fn list_outputs() -> (r: Result<Vec<DeviceInfo>>)
    ensures
        r matches Err(Error::Unsupported),
{
    Err(Error::Unsupported)
}

/// `EndpointFormFactor` values that the endpoint property store reports.
pub const FORM_SPEAKERS: u32 = 1;
pub const FORM_LINE_LEVEL: u32 = 2;
pub const FORM_HEADPHONES: u32 = 3;
pub const FORM_HEADSET: u32 = 5;
pub const FORM_HANDSET: u32 = 6;
pub const FORM_DIGITAL_DISPLAY: u32 = 9;

/// The kind of an endpoint. The form factor has no Bluetooth value, so a
/// name or interface name that mentions Bluetooth, in any case, wins; an
/// endpoint without a readable form factor is `Other`.
pub open spec fn kind_of(name: Seq<char>, interface: Seq<char>, form_factor: Option<u32>) -> DeviceKind {
    if text_contains(lowercase(name), "bluetooth"@) || text_contains(lowercase(interface), "bluetooth"@) {
        DeviceKind::Bluetooth
    } else {
        match form_factor {
            None => DeviceKind::Other,
            Some(ff) => if ff == FORM_SPEAKERS || ff == FORM_LINE_LEVEL {
                DeviceKind::Speakers
            } else if ff == FORM_HEADPHONES || ff == FORM_HEADSET || ff == FORM_HANDSET {
                DeviceKind::Headphones
            } else if ff == FORM_DIGITAL_DISPLAY {
                DeviceKind::Hdmi
            } else {
                DeviceKind::Other
            },
        }
    }
}

/// Classifies an endpoint from its friendly name, the friendly name of its
/// interface (empty when unreadable) and its form factor, if readable.
pub fn device_kind(name: &str, interface: &str, form_factor: Option<u32>) -> (kind: DeviceKind)
    ensures
        kind == kind_of(name@, interface@, form_factor),
{
    let lname = to_lowercase(name);
    let linterface = to_lowercase(interface);
    if contains_text(lname.as_str(), "bluetooth") || contains_text(linterface.as_str(), "bluetooth") {
        return DeviceKind::Bluetooth;
    }
    match form_factor {
        None => DeviceKind::Other,
        Some(ff) => {
            if ff == FORM_SPEAKERS || ff == FORM_LINE_LEVEL {
                DeviceKind::Speakers
            } else if ff == FORM_HEADPHONES || ff == FORM_HEADSET || ff == FORM_HANDSET {
                DeviceKind::Headphones
            } else if ff == FORM_DIGITAL_DISPLAY {
                DeviceKind::Hdmi
            } else {
                DeviceKind::Other
            }
        },
    }
}

/// The description of one active endpoint: its name is the friendly name,
/// or the id when the friendly name is empty (unreadable); it is the
/// default when its id is the default render id; its kind follows the name
/// it ends up with, its interface name and its form factor.
pub open spec fn endpoint_view(
    id: Seq<char>,
    friendly_name: Seq<char>,
    interface: Seq<char>,
    form_factor: Option<u32>,
    default_id: Seq<char>,
) -> (Seq<char>, Seq<char>, bool, DeviceKind) {
    let name = if friendly_name.len() == 0 {
        id
    } else {
        friendly_name
    };
    (id, name, id == default_id, kind_of(name, interface, form_factor))
}

/// Builds the description of an endpoint from what its property store gave.
pub fn endpoint_info(
    id: String,
    friendly_name: String,
    interface: &str,
    form_factor: Option<u32>,
    default_id: &str,
) -> (d: DeviceInfo)
    ensures
        (d.id@, d.name@, d.is_default, d.kind) == endpoint_view(
            id@,
            friendly_name@,
            interface@,
            form_factor,
            default_id@,
        ),
{
    let name = if friendly_name.as_str().is_empty() {
        id.clone()
    } else {
        friendly_name
    };
    let kind = device_kind(name.as_str(), interface, form_factor);
    let is_default = id == String::from_str(default_id);
    DeviceInfo { id, name, is_default, kind }
}

/// An endpoint keeps its id; it is marked default exactly when its id is
/// the default render id, whatever its name; its name is the friendly name
/// when there is one and its id otherwise; and a Bluetooth endpoint is
/// recognised by its name or its interface name whatever its form factor.
pub proof fn lemma_endpoint_fields(
    id: Seq<char>,
    friendly_name: Seq<char>,
    interface: Seq<char>,
    form_factor: Option<u32>,
    default_id: Seq<char>,
)
    ensures
        ({
            let e = endpoint_view(id, friendly_name, interface, form_factor, default_id);
            &&& e.0 == id
            &&& e.2 == (id == default_id)
            &&& friendly_name.len() > 0 ==> e.1 == friendly_name
            &&& friendly_name.len() == 0 ==> e.1 == id
            &&& text_contains(lowercase(interface), "bluetooth"@) ==> e.3 == DeviceKind::Bluetooth
            &&& text_contains(lowercase(e.1), "bluetooth"@) ==> e.3 == DeviceKind::Bluetooth
        }),
{
}

} // verus!
