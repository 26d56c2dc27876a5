//! Element-wise evaluation of a function over a sample, into a buffer of
//! the same length.

use vstd::prelude::*;

verus! {

/// The input and the output of an element-wise operation differ in length.
#[derive(Clone, Copy, Debug, PartialEq, Eq, Structural)]
pub struct LengthMismatch {
    pub input: usize,
    pub output: usize,
}

/// Writes `op` of every element of `input` to the same place of `output`.
/// Where the two differ in length nothing is written and the error carries
/// both lengths.
pub fn apply_unary_op<T: Copy, F: Fn(T) -> T>(input: &[T], output: &mut [T], op: F) -> (result:
    Result<(), LengthMismatch>)
    requires
        forall|x: T| op.requires((x,)),
    ensures
        final(output).len() == old(output).len(),
        input.len() != old(output).len() ==> result == Err::<(), LengthMismatch>(
            LengthMismatch { input: input.len(), output: old(output).len() },
        ) && final(output)@ == old(output)@,
        input.len() == old(output).len() ==> result.is_ok() && forall|i: int|
            0 <= i < input.len() ==> op.ensures((input@[i],), #[trigger] final(output)@[i]),
{
    if input.len() != output.len() {
        return Err(LengthMismatch { input: input.len(), output: output.len() });
    }
    let mut i: usize = 0;
    while i < input.len()
        invariant
            input.len() == output.len(),
            i <= input.len(),
            forall|x: T| op.requires((x,)),
            forall|j: int| 0 <= j < i ==> op.ensures((input@[j],), #[trigger] output@[j]),
        decreases input.len() - i,
    {
        let value = op(input[i]);
        output[i] = value;
        i = i + 1;
    }
    Ok(())
}

} // verus!
