//! The table-driven scoring formula: chain power, color bonus and group
//! bonus combine into a round multiplier.

use vstd::prelude::*;

verus! {

/// Chain power for a 1-based chain index: a fixed table for the first 19
/// chains, extrapolated by 32 per chain beyond the table.
pub open spec fn chain_power_spec(chain: nat) -> nat {
    if chain <= 1 {
        0
    } else if chain == 2 {
        8
    } else if chain == 3 {
        16
    } else if chain <= 19 {
        (32 * (chain - 3)) as nat
    } else {
        (512 + 32 * (chain - 19)) as nat
    }
}

/// Bonus for the number of distinct colors erased in one round.
pub open spec fn color_bonus_spec(colors: nat) -> nat {
    if colors <= 1 {
        0
    } else if colors == 2 {
        3
    } else if colors == 3 {
        6
    } else if colors == 4 {
        12
    } else {
        24
    }
}

/// Bonus for the size of one erased group.
pub open spec fn group_bonus_spec(size: nat) -> nat {
    if size <= 4 {
        0
    } else if size <= 10 {
        (size - 3) as nat
    } else {
        10
    }
}

/// Chain power never exceeds `512 + 32 * chain`.
pub proof fn lemma_chain_power_bound(chain: nat)
    ensures
        chain_power_spec(chain) <= 512 + 32 * chain,
{
}

/// Executable chain power, equal to the spec table. The bound on `chain`
/// keeps the extrapolated power within `u64`.
pub fn chain_power(chain: u64) -> (r: u64)
    requires
        chain <= 0xFFFF_FFFF_FFFF,
    ensures
        r == chain_power_spec(chain as nat),
{
    if chain <= 1 {
        0
    } else if chain == 2 {
        8
    } else if chain == 3 {
        16
    } else if chain <= 19 {
        32 * (chain - 3)
    } else {
        proof {
            lemma_chain_power_bound(chain as nat);
        }
        512 + 32 * (chain - 19)
    }
}

/// Executable color bonus, equal to the spec table.
pub fn color_bonus(colors: u64) -> (r: u64)
    ensures
        r == color_bonus_spec(colors as nat),
{
    if colors <= 1 {
        0
    } else if colors == 2 {
        3
    } else if colors == 3 {
        6
    } else if colors == 4 {
        12
    } else {
        24
    }
}

/// Executable group bonus, equal to the spec table.
pub fn group_bonus(size: u64) -> (r: u64)
    ensures
        r == group_bonus_spec(size as nat),
{
    if size <= 4 {
        0
    } else if size <= 10 {
        size - 3
    } else {
        10
    }
}

} // verus!
