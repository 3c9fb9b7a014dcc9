//! Whether the output goes through a pager.

use vstd::prelude::*;
use crate::platform::PlatformKind;

verus! {

/// Where the output goes.
#[derive(Debug, Clone, Copy, PartialEq, Eq, Structural)]
pub enum PagerChoice {
    /// Through a pager.
    Paged,
    /// Straight to the terminal.
    Direct,
    /// Straight to the terminal, because this platform has no pager to offer.
    Unavailable,
}

/// Where the output goes: through a pager where the flag of the command line
/// or, after it, the configuration asks for one, and the platform has one.
pub open spec fn pager_spec(platform: PlatformKind, flag: bool, configured: bool) -> PagerChoice {
    if platform is Windows {
        PagerChoice::Unavailable
    } else if flag || configured {
        PagerChoice::Paged
    } else {
        PagerChoice::Direct
    }
}

/// Decides where the output goes.
pub fn choose_pager(platform: PlatformKind, flag: bool, configured: bool) -> (choice: PagerChoice)
    ensures
        choice == pager_spec(platform, flag, configured),
{
    match platform {
        PlatformKind::Windows => PagerChoice::Unavailable,
        _ => if flag || configured {
            PagerChoice::Paged
        } else {
            PagerChoice::Direct
        },
    }
}

} // verus!
