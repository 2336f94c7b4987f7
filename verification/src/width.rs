//! How many bytes a value takes.

use vstd::arithmetic::power::pow;
use vstd::prelude::*;

verus! {

/// Encoded width of a value in bytes: the number of bytes of its shortest
/// big-endian representation, capped at four.
pub open spec fn width(x: nat) -> nat {
    if x <= 0xFF {
        1
    } else if x <= 0xFFFF {
        2
    } else if x <= 0xFF_FFFF {
        3
    } else {
        4
    }
}

/// Number of base-256 digits of `x`, where zero still takes one digit.
pub open spec fn byte_len(x: nat) -> nat
    decreases x,
{
    if x < 256 {
        1
    } else {
        1 + byte_len(x / 256)
    }
}

/// `byte_len(x)` bytes are enough to hold `x`, and one byte fewer is not.
pub proof fn lemma_byte_len_bounds(x: nat)
    ensures
        1 <= byte_len(x),
        x < pow(256, byte_len(x)),
        byte_len(x) > 1 ==> pow(256, (byte_len(x) - 1) as nat) <= x,
    decreases x,
{
    reveal_with_fuel(pow, 2);
    if x >= 256 {
        lemma_byte_len_bounds(x / 256);
    }
}

/// A value never has more digits than its own magnitude.
pub proof fn lemma_byte_len_at_most_value(x: nat)
    requires
        x >= 1,
    ensures
        byte_len(x) <= x,
    decreases x,
{
    if x >= 256 {
        lemma_byte_len_at_most_value(x / 256);
    }
}

/// On 32-bit values the capped width and the digit count agree.
pub proof fn lemma_width_is_byte_len(x: nat)
    requires
        x <= u32::MAX,
    ensures
        width(x) == byte_len(x),
{
    reveal_with_fuel(byte_len, 4);
}

/// Width of `x` by comparison against the three thresholds.
pub fn byte_size(x: usize) -> (w: usize)
    ensures
        w == width(x as nat),
{
    if x > 0xFFFFFF {
        4
    } else if x > 0xFFFF {
        3
    } else if x > 0xFF {
        2
    } else {
        1
    }
}

/// Width of `x` by counting its base-256 digits. Unlike [`byte_size`] the
/// result is not capped: on a 64-bit machine it can reach eight.
pub fn byte_size2(x: usize) -> (w: usize)
    ensures
        w == byte_len(x as nat),
        x <= u32::MAX ==> w == width(x as nat),
{
    proof {
        if x <= u32::MAX {
            lemma_width_is_byte_len(x as nat);
        }
    }
    if x == 0 {
        return 1;
    }
    let mut rest: usize = x;
    let mut log: usize = 0;
    while rest > 0
        invariant
            x >= 1,
            rest > 0 ==> log + byte_len(rest as nat) == byte_len(x as nat),
            rest == 0 ==> log == byte_len(x as nat),
        decreases rest,
    {
        proof {
            lemma_byte_len_at_most_value(x as nat);
        }
        log += 1;
        rest /= 256;
    }
    log
}

} // verus!
