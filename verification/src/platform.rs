//! The platforms that pages are written for.

use vstd::prelude::*;
use vstd::string::StringSliceAdditionalSpecFns;
use crate::text::{lowered, same_bytes, to_lower};

verus! {

/// A platform, as far as pages tell platforms apart.
#[derive(Debug, Clone, Copy, PartialEq, Eq, Structural)]
pub enum PlatformKind {
    Linux,
    OsX,
    SunOS,
    Windows,
    Other,
}

/// The bytes of a name that may be missing.
pub open spec fn option_bytes(name: Option<&str>) -> Option<Seq<u8>> {
    match name {
        Some(n) => Some(n.spec_bytes()),
        None => None,
    }
}

impl PlatformKind {
    /// The subdirectory of the cache with the pages of this platform alone.
    /// `Other` has none: its pages are the common ones.
    pub open spec fn subdirectory_spec(self) -> Option<Seq<u8>> {
        match self {
            PlatformKind::Linux => Some("linux".spec_bytes()),
            PlatformKind::OsX => Some("osx".spec_bytes()),
            PlatformKind::SunOS => Some("sunos".spec_bytes()),
            PlatformKind::Windows => Some("windows".spec_bytes()),
            PlatformKind::Other => None,
        }
    }

    /// The platform that a user names, in whatever case; `None` where the name
    /// is not that of a platform.
    pub open spec fn named(name: Seq<u8>) -> Option<PlatformKind> {
        let low = lowered(name);
        if low == "linux".spec_bytes() {
            Some(PlatformKind::Linux)
        } else if low == "osx".spec_bytes() {
            Some(PlatformKind::OsX)
        } else if low == "sunos".spec_bytes() {
            Some(PlatformKind::SunOS)
        } else if low == "windows".spec_bytes() {
            Some(PlatformKind::Windows)
        } else {
            None
        }
    }

    /// The name of the platform as a user reads it.
    pub open spec fn label_spec(self) -> Seq<char> {
        match self {
            PlatformKind::Linux => "Linux"@,
            PlatformKind::OsX => "macOS / BSD"@,
            PlatformKind::SunOS => "SunOS"@,
            PlatformKind::Windows => "Windows"@,
            PlatformKind::Other => "Unknown OS"@,
        }
    }

    /// The name of the platform as a user reads it.
    pub fn label(self) -> (name: &'static str)
        ensures
            name@ == self.label_spec(),
    {
        match self {
            PlatformKind::Linux => "Linux",
            PlatformKind::OsX => "macOS / BSD",
            PlatformKind::SunOS => "SunOS",
            PlatformKind::Windows => "Windows",
            PlatformKind::Other => "Unknown OS",
        }
    }

    /// The subdirectory of the cache with the pages of this platform alone.
    pub fn subdirectory(self) -> (name: Option<&'static str>)
        ensures
            option_bytes(name) == self.subdirectory_spec(),
    {
        match self {
            PlatformKind::Linux => Some("linux"),
            PlatformKind::OsX => Some("osx"),
            PlatformKind::SunOS => Some("sunos"),
            PlatformKind::Windows => Some("windows"),
            PlatformKind::Other => None,
        }
    }

    /// The platform that a user names, in whatever case.
    pub fn from_name(name: &str) -> (platform: Option<PlatformKind>)
        ensures
            platform == Self::named(name.spec_bytes()),
    {
        let low = to_lower(name.as_bytes());
        if same_bytes(low.as_slice(), "linux".as_bytes()) {
            Some(PlatformKind::Linux)
        } else if same_bytes(low.as_slice(), "osx".as_bytes()) {
            Some(PlatformKind::OsX)
        } else if same_bytes(low.as_slice(), "sunos".as_bytes()) {
            Some(PlatformKind::SunOS)
        } else if same_bytes(low.as_slice(), "windows".as_bytes()) {
            Some(PlatformKind::Windows)
        } else {
            None
        }
    }
}

/// The platform of a machine whose operating system goes by the name
/// `target_os`: Linux is Linux, macOS and the BSDs count as OS X, Windows is
/// Windows, and everything else is `Other`.
pub open spec fn target_platform(target_os: Seq<u8>) -> PlatformKind {
    if target_os == "linux".spec_bytes() {
        PlatformKind::Linux
    } else if target_os == "macos".spec_bytes() || target_os == "freebsd".spec_bytes() || target_os
        == "netbsd".spec_bytes() || target_os == "openbsd".spec_bytes() || target_os
        == "dragonfly".spec_bytes() {
        PlatformKind::OsX
    } else if target_os == "windows".spec_bytes() {
        PlatformKind::Windows
    } else {
        PlatformKind::Other
    }
}

/// The platform of the machine, from the name of its operating system as the
/// compiler knows it.
pub fn get_os(target_os: &str) -> (platform: PlatformKind)
    ensures
        platform == target_platform(target_os.spec_bytes()),
{
    let name = target_os.as_bytes();
    if same_bytes(name, "linux".as_bytes()) {
        PlatformKind::Linux
    } else if same_bytes(name, "macos".as_bytes()) || same_bytes(name, "freebsd".as_bytes())
        || same_bytes(name, "netbsd".as_bytes()) || same_bytes(name, "openbsd".as_bytes())
        || same_bytes(name, "dragonfly".as_bytes()) {
        PlatformKind::OsX
    } else if same_bytes(name, "windows".as_bytes()) {
        PlatformKind::Windows
    } else {
        PlatformKind::Other
    }
}

} // verus!
