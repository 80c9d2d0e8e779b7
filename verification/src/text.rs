//! Numbers as decimal digits, and joining byte strings.

use vstd::prelude::*;

verus! {

/// The decimal digits of `n`, as ASCII bytes, without leading zeros.
pub open spec fn decimal(n: nat) -> Seq<u8>
    decreases n,
{
    if n < 10 {
        seq![(48 + n) as u8]
    } else {
        decimal(n / 10).push((48 + n % 10) as u8)
    }
}

/// The decimal digits of `n`, as ASCII bytes.
pub fn decimal_digits(n: u64) -> (digits: Vec<u8>)
    ensures
        digits@ == decimal(n as nat),
{
    // The digits come out last first: collect them, then turn them round.
    let mut reversed: Vec<u8> = Vec::new();
    let mut rest: u64 = n;
    while rest >= 10
        invariant
            decimal(n as nat) == decimal(rest as nat) + Seq::new(
                reversed@.len(),
                |k: int| reversed@[reversed@.len() - 1 - k],
            ),
        decreases rest,
    {
        let ghost before = reversed@;
        let digit = (rest % 10) as u8 + 48;
        reversed.push(digit);
        assert(decimal(rest as nat) == decimal((rest / 10) as nat).push(digit));
        assert(decimal((rest / 10) as nat).push(digit) + Seq::new(
            before.len(),
            |k: int| before[before.len() - 1 - k],
        ) =~= decimal((rest / 10) as nat) + Seq::new(
            reversed@.len(),
            |k: int| reversed@[reversed@.len() - 1 - k],
        ));
        rest = rest / 10;
    }
    let mut digits: Vec<u8> = Vec::new();
    digits.push(rest as u8 + 48);
    let ghost tail = Seq::new(reversed@.len(), |k: int| reversed@[reversed@.len() - 1 - k]);
    let ghost total = reversed@.len();
    assert(digits@ =~= decimal(rest as nat));
    while reversed.len() > 0
        invariant
            reversed@.len() <= total,
            tail.len() == total,
            forall|k: int| 0 <= k < reversed@.len() ==> reversed@[k] == tail[total - 1 - k],
            digits@ == decimal(rest as nat) + tail.subrange(0, total - reversed@.len()),
        decreases reversed.len(),
    {
        let digit = reversed.pop().unwrap();
        digits.push(digit);
        assert(digits@ =~= decimal(rest as nat) + tail.subrange(0, total - reversed@.len()));
    }
    assert(tail.subrange(0, total as int) =~= tail);
    digits
}

/// `a` followed by `b`.
pub fn join(a: &[u8], b: &[u8]) -> (joined: Vec<u8>)
    ensures
        joined@ == a@ + b@,
{
    let mut joined = crate::bytes::copy_bytes(a);
    let mut i: usize = 0;
    while i < b.len()
        invariant
            i <= b.len(),
            joined@ == a@ + b@.subrange(0, i as int),
        decreases b.len() - i,
    {
        joined.push(b[i]);
        assert(joined@ =~= a@ + b@.subrange(0, i + 1));
        i += 1;
    }
    assert(b@.subrange(0, b@.len() as int) =~= b@);
    joined
}

} // verus!
