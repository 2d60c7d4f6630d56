//! The distribution that a system runs.

use vstd::prelude::*;

verus! {

/// The families of distributions, by their package manager.
#[derive(Clone, Copy, Debug, PartialEq, Eq, Structural)]
pub enum DistroFamily {
    Arch,
    Debian,
    Fedora,
    Unsupported,
}

/// A distribution: its family, and the name that it goes by.
#[derive(Clone, Debug, PartialEq, Eq)]
pub struct Distribution {
    pub family: DistroFamily,
    pub name: String,
}

} // verus!
