//! Versions of things, usually components, used for change detection.
//!
//! A version is an `i64`; the default is the minimum possible version.
use vstd::prelude::*;

verus! {

/// A version of something, usually a component.
#[derive(Copy, Clone, Debug, PartialEq, Eq, PartialOrd, Ord)]
pub struct Version(i64);

impl Version {
    /// The version less than all other versions.
    pub fn minimum() -> (v: Version)
        ensures
            v.spec_value() == i64::MIN,
    {
        Version(i64::MIN)
    }

    /// The version's number.
    pub closed spec fn spec_value(self) -> i64 {
        self.0
    }

    /// The version whose number is `value`.
    pub fn from_raw(value: i64) -> (v: Version)
        ensures
            v.spec_value() == value,
    {
        Version(value)
    }

    /// The version's number.
    pub fn get(&self) -> (value: i64)
        ensures
            value == self.spec_value(),
    {
        self.0
    }

    /// Get the next version after this one.  There is none after `i64::MAX`.
    pub fn increment(&self) -> (next: Version)
        requires
            self.spec_value() < i64::MAX,
        ensures
            next.spec_value() == self.spec_value() + 1,
    {
        Version(self.0 + 1)
    }
}

impl Default for Version {
    fn default() -> (v: Version)
        ensures
            v.spec_value() == i64::MIN,
    {
        Version::minimum()
    }
}

} // verus!
