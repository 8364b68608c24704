//! What a garbage collection did.

use crate::text::{decimal, to_decimal};
use vstd::prelude::*;

verus! {

/// What a sweep did.
#[derive(Clone, Copy, Debug, PartialEq, Eq, Structural)]
pub struct GcStats {
    /// Pages deleted because nothing refers to them.
    pub pages_swept: u64,
    /// Pages kept because something does.
    pub pages_retained: u64,
    /// Manifests deleted because no root leads to them.
    pub manifests_swept: u64,
    /// Manifests kept.
    pub manifests_retained: u64,
}

impl Default for GcStats {
    fn default() -> (s: GcStats)
        ensures
            s == (GcStats {
                pages_swept: 0,
                pages_retained: 0,
                manifests_swept: 0,
                manifests_retained: 0,
            }),
    {
        GcStats { pages_swept: 0, pages_retained: 0, manifests_swept: 0, manifests_retained: 0 }
    }
}

impl GcStats {
    /// There was nothing to collect.
    pub open spec fn clean(&self) -> bool {
        self.pages_swept == 0 && self.manifests_swept == 0
    }

    /// Whether there was nothing to collect.
    pub fn is_clean(&self) -> (r: bool)
        ensures
            r == self.clean(),
            r == (self.pages_swept + self.manifests_swept == 0),
    {
        self.pages_swept == 0 && self.manifests_swept == 0
    }

    /// How many objects were removed.
    pub fn swept(&self) -> (n: u64)
        requires
            self.pages_swept + self.manifests_swept <= u64::MAX,
        ensures
            n == self.pages_swept + self.manifests_swept,
    {
        self.pages_swept + self.manifests_swept
    }

    /// The counts in a sentence.
    pub fn describe(&self) -> (s: String)
        ensures
            s@ == "swept "@ + decimal(self.pages_swept as nat) + " pages ("@ + decimal(
                self.pages_retained as nat,
            ) + " retained), "@ + decimal(self.manifests_swept as nat) + " manifests ("@ + decimal(
                self.manifests_retained as nat,
            ) + " retained)"@,
    {
        "swept ".to_owned().concat(to_decimal(self.pages_swept).as_str()).concat(" pages (").concat(
            to_decimal(self.pages_retained).as_str(),
        ).concat(" retained), ").concat(to_decimal(self.manifests_swept).as_str()).concat(
            " manifests (",
        ).concat(to_decimal(self.manifests_retained).as_str()).concat(" retained)")
    }
}

/// A sweep was clean exactly where the number of objects that it removed is zero.
pub proof fn a_clean_sweep_removed_nothing(s: &GcStats, clean: bool, swept: u64)
    requires
        s.pages_swept + s.manifests_swept <= u64::MAX,
        call_ensures(GcStats::is_clean, (s,), clean),
        call_ensures(GcStats::swept, (s,), swept),
    ensures
        clean <==> swept == 0,
        swept >= s.pages_swept && swept - s.pages_swept == s.manifests_swept,
{
}

} // verus!
