//! What a resolution is made for.

use crate::req::Os;
use crate::version::Version;
use vstd::prelude::*;

verus! {

/// A package of the lock file: its name, its version, and the packages that
/// it depends on with their versions.
pub type LockPack = (String, Version, Vec<(String, Version)>);

/// What the lock file says of a package.
pub type LockPackView = (Seq<char>, Version, Seq<(Seq<char>, Version)>);

/// What a resolution is made for.
#[derive(Debug)]
pub struct Settings {
    pub locked: Vec<LockPack>,
    pub os: Os,
    pub extras: Vec<String>,
    pub py_vers: Version,
}

/// What a resolution is made for.
pub struct SettingsView {
    pub locked: Seq<LockPackView>,
    pub os: Os,
    pub extras: Seq<Seq<char>>,
    pub py_vers: Version,
}

impl DeepView for Settings {
    type V = SettingsView;

    open spec fn deep_view(&self) -> SettingsView {
        SettingsView {
            locked: self.locked.deep_view(),
            os: self.os,
            extras: self.extras.deep_view(),
            py_vers: self.py_vers,
        }
    }
}

/// What a resolution is made for is seen whole: each package of the lock file
/// with its version and all that it depends on, the operating system, the
/// extras and the version of Python.
pub proof fn settings_are_seen_whole(s: Settings)
    ensures
        s.deep_view().os == s.os,
        s.deep_view().py_vers == s.py_vers,
        s.deep_view().extras.len() == s.extras@.len(),
        forall|i: int|
            0 <= i < s.extras@.len() ==> #[trigger] s.deep_view().extras[i] == s.extras@[i]@,
        s.deep_view().locked.len() == s.locked@.len(),
        forall|i: int|
            0 <= i < s.locked@.len() ==> #[trigger] s.deep_view().locked[i]
                == s.locked@[i].deep_view(),
{
}

} // verus!
