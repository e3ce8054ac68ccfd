//! Sizes of the evaluation feature vectors, per board size.
//!
//! The coefficient tables themselves belong to the external evaluator;
//! the engine only needs to know how long they are.

use vstd::prelude::*;

verus! {

/// Value features of the 4x4 board.
pub const NUM_VALUE_FEATURES_4S: usize = 87;

/// Policy features of the 4x4 board.
pub const NUM_POLICY_FEATURES_4S: usize = 138;

/// Value features of the 5x5 board.
pub const NUM_VALUE_FEATURES_5S: usize = 124;

/// Policy features of the 5x5 board.
pub const NUM_POLICY_FEATURES_5S: usize = 157;

/// Value features of the 6x6 board.
pub const NUM_VALUE_FEATURES_6S: usize = 134;

/// Policy features of the 6x6 board.
pub const NUM_POLICY_FEATURES_6S: usize = 167;

/// The number of value features for a supported board size.
pub open spec fn spec_num_value_features(s: int) -> int {
    if s == 4 {
        NUM_VALUE_FEATURES_4S as int
    } else if s == 5 {
        NUM_VALUE_FEATURES_5S as int
    } else {
        NUM_VALUE_FEATURES_6S as int
    }
}

/// The number of policy features for a supported board size.
pub open spec fn spec_num_policy_features(s: int) -> int {
    if s == 4 {
        NUM_POLICY_FEATURES_4S as int
    } else if s == 5 {
        NUM_POLICY_FEATURES_5S as int
    } else {
        NUM_POLICY_FEATURES_6S as int
    }
}

/// How many value features a board of size `S` has; only sizes 4 to 6
/// are supported.
pub fn num_value_features<const S: usize>() -> (r: usize)
    requires
        S == 4 || S == 5 || S == 6,
    ensures
        r == spec_num_value_features(S as int),
{
    if S == 4 {
        NUM_VALUE_FEATURES_4S
    } else if S == 5 {
        NUM_VALUE_FEATURES_5S
    } else {
        NUM_VALUE_FEATURES_6S
    }
}

/// How many policy features a board of size `S` has; only sizes 4 to 6
/// are supported.
pub fn num_policy_features<const S: usize>() -> (r: usize)
    requires
        S == 4 || S == 5 || S == 6,
    ensures
        r == spec_num_policy_features(S as int),
{
    if S == 4 {
        NUM_POLICY_FEATURES_4S
    } else if S == 5 {
        NUM_POLICY_FEATURES_5S
    } else {
        NUM_POLICY_FEATURES_6S
    }
}

} // verus!
