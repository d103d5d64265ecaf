use vstd::prelude::*;

verus! {

pub const SUCCESS: i32 = 0;

pub const GENERAL_ERROR: i32 = 1;

pub const USAGE_ERROR: i32 = 2;

pub const GIT_ERROR: i32 = 3;

pub const WORKSPACE_ERROR: i32 = 4;

pub const SPEC_ERROR: i32 = 5;

pub const BUILD_ERROR: i32 = 6;

pub const NETWORK_ERROR: i32 = 7;

pub const DRY_RUN: i32 = 10;

} // verus!
