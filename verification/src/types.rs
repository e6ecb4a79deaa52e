//! Plain data shared by the engine and its front ends.

use vstd::prelude::*;
use vstd::string::*;

verus! {

/// One render endpoint as reported by the platform.
#[derive(Debug, Clone, PartialEq, Eq)]
pub struct DeviceInfo {
    pub id: String,
    pub name: String,
    pub is_default: bool,
    pub kind: DeviceKind,
}

/// Coarse form factor of an endpoint.
#[derive(Debug, Clone, Copy, PartialEq, Eq, Structural)]
pub enum DeviceKind {
    Speakers,
    Headphones,
    Bluetooth,
    Hdmi,
    Other,
}

/// Everything the engine can fail with.
#[derive(Debug)]
pub enum Error {
    Unsupported,
    NoDefaultDevice,
    DeviceNotFound(String),
    AlreadyRunning,
    Format(String),
    Windows(String),
}

pub type Result<T> = std::result::Result<T, Error>;

impl Error {
    /// The human-readable text of the error.
    pub open spec fn message(&self) -> Seq<char> {
        match self {
            Error::Unsupported => "unsupported platform: FAN requires Windows"@,
            Error::NoDefaultDevice => "no default render device"@,
            Error::DeviceNotFound(id) => "device not found: "@ + id@,
            Error::AlreadyRunning => "engine already running"@,
            Error::Format(what) => "audio format unsupported: "@ + what@,
            Error::Windows(what) => "windows error: "@ + what@,
        }
    }

    /// Renders the error as the text a user sees.
    pub fn to_string(&self) -> (text: String)
        ensures
            text@ == self.message(),
    {
        match self {
            Error::Unsupported => String::from_str("unsupported platform: FAN requires Windows"),
            Error::NoDefaultDevice => String::from_str("no default render device"),
            Error::DeviceNotFound(id) => {
                let mut text = String::from_str("device not found: ");
                text.append(id.as_str());
                text
            },
            Error::AlreadyRunning => String::from_str("engine already running"),
            Error::Format(what) => {
                let mut text = String::from_str("audio format unsupported: ");
                text.append(what.as_str());
                text
            },
            Error::Windows(what) => {
                let mut text = String::from_str("windows error: ");
                text.append(what.as_str());
                text
            },
        }
    }
}

} // verus!
