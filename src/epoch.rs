//! Epochs: the time windows that name the storage partitions.

use vstd::prelude::*;

verus! {

/// The length of one epoch, in minutes.
pub const EPOCH_WINDOW_MINUTES: u64 = 10;

/// The epoch of a time given in milliseconds since the Unix epoch.
pub open spec fn epoch_spec(now_millis: nat) -> nat {
    now_millis / 60000 / (EPOCH_WINDOW_MINUTES as nat)
}

/// The decimal digits of `n`, in ASCII, without leading zeros.
pub open spec fn decimal(n: nat) -> Seq<u8>
    decreases n,
{
    if n < 10 {
        seq![(48 + n) as u8]
    } else {
        decimal(n / 10).push((48 + n % 10) as u8)
    }
}

/// The epoch of `now_millis`: the number of whole windows since the Unix epoch.
pub fn epoch_of(now_millis: u64) -> (r: u64)
    ensures
        r == epoch_spec(now_millis as nat),
{
    now_millis / 1000 / 60 / EPOCH_WINDOW_MINUTES
}

fn push_decimal(n: u64, out: &mut Vec<u8>)
    ensures
        final(out)@ == old(out)@ + decimal(n as nat),
    decreases n,
{
    if n >= 10 {
        push_decimal(n / 10, out);
    }
    let digit: u8 = (n % 10) as u8;
    out.push(48u8 + digit);
    if n >= 10 {
        assert(old(out)@ + decimal(n as nat) =~= (old(out)@ + decimal((n / 10) as nat)).push((48 + n % 10) as u8));
    } else {
        assert(decimal(n as nat) == seq![(48 + n) as u8]);
        assert(old(out)@ + decimal(n as nat) =~= old(out)@.push((48 + n) as u8));
    }
}

/// The name of the partition of `epoch`: its decimal digits.
pub fn epoch_seed(epoch: u64) -> (r: Vec<u8>)
    ensures
        r@ == decimal(epoch as nat),
{
    let mut out: Vec<u8> = Vec::new();
    push_decimal(epoch, &mut out);
    assert(out@ =~= decimal(epoch as nat));
    out
}

} // verus!
