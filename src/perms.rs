//! Permission bits of a capability.

use vstd::prelude::*;

verus! {

pub const READ: u32 = 1;

pub const WRITE: u32 = 2;

pub const EXECUTE: u32 = 4;

pub const DERIVE: u32 = 8;

pub const DELEGATE: u32 = 16;

} // verus!
