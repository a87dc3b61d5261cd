use vstd::prelude::*;

verus! {

/// The characters of `text` in reverse order: the work each producer does
/// before sending its result down a channel.
pub fn reverse_chars(text: &Vec<char>) -> (r: Vec<char>)
    ensures
        r@ == text@.reverse(),
{
    let mut out: Vec<char> = Vec::new();
    let mut i: usize = text.len();
    while i > 0
        invariant
            0 <= i <= text@.len(),
            out@.len() == text@.len() - i,
            forall|k: int| 0 <= k < out@.len() ==> out@[k] == text@[text@.len() - 1 - k],
        decreases i,
    {
        i = i - 1;
        out.push(text[i]);
    }
    proof {
        assert(out@ =~= text@.reverse());
    }
    out
}

/// Long synchronous work that never suspends: counts up `iterations` times.
/// It belongs on the blocking pool.
pub fn expensive_computation(iterations: u64) -> (r: u64)
    ensures
        r == iterations,
{
    let mut count: u64 = 0;
    while count < iterations
        invariant
            count <= iterations,
        decreases iterations - count,
    {
        count = count + 1;
    }
    count
}

} // verus!
