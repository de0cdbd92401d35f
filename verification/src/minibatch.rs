//! The resumable minibatch schedule of data-parallel training: which
//! examples each step trains on, and how the step counter and the data
//! cursor move on, with every overflow reported rather than wrapped.
use vstd::prelude::*;

verus! {

/// Why a minibatch cannot be taken, if it cannot: no data, a batch size
/// outside `1..=len`, a cursor outside the data, or an example index past
/// `usize::MAX`.
pub open spec fn minibatch_error(len: int, batch_size: int, cursor: int) -> Option<&'static str> {
    if len == 0 {
        Some("training data must not be empty")
    } else if batch_size == 0 || batch_size > len {
        Some("batch size must be in 1..=data length")
    } else if cursor >= len {
        Some("checkpoint cursor is outside the dataset")
    } else if cursor + batch_size - 1 > usize::MAX {
        Some("minibatch index overflow")
    } else {
        None
    }
}

/// The examples of the next minibatch: `batch_size` of them from the
/// cursor on, wrapping around the end of the data.
pub fn minibatch_indices(len: usize, batch_size: usize, cursor: usize) -> (r: Result<Vec<usize>, &'static str>)
    ensures
        match minibatch_error(len as int, batch_size as int, cursor as int) {
            Some(e) => r == Err::<Vec<usize>, &'static str>(e),
            None => r matches Ok(ix) && ix@.len() == batch_size && forall|k: int|
                0 <= k < batch_size ==> #[trigger] ix@[k] == (cursor + k) % (len as int),
        },
{
    if len == 0 {
        return Err("training data must not be empty");
    }
    if batch_size == 0 || batch_size > len {
        return Err("batch size must be in 1..=data length");
    }
    if cursor >= len {
        return Err("checkpoint cursor is outside the dataset");
    }
    let mut ix: Vec<usize> = Vec::new();
    let mut k: usize = 0;
    while k < batch_size
        invariant
            0 < batch_size <= len,
            cursor < len,
            k <= batch_size,
            minibatch_error(len as int, batch_size as int, cursor as int) == if cursor + batch_size - 1
                > usize::MAX {
                Some("minibatch index overflow")
            } else {
                None::<&'static str>
            },
            k > 0 ==> cursor + k - 1 <= usize::MAX,
            ix@.len() == k,
            forall|j: int| 0 <= j < k ==> #[trigger] ix@[j] == (cursor + j) % (len as int),
        decreases batch_size - k,
    {
        let at = match cursor.checked_add(k) {
            Some(x) => x,
            None => {
                return Err("minibatch index overflow");
            },
        };
        ix.push(at % len);
        k += 1;
    }
    Ok(ix)
}

/// Why the counters cannot move on after a step, if they cannot.
pub open spec fn advance_error(step: int, cursor: int, batch_size: int) -> Option<&'static str> {
    if step + 1 > usize::MAX {
        Some("training step overflow")
    } else if cursor + batch_size > usize::MAX {
        Some("minibatch cursor overflow")
    } else {
        None
    }
}

/// The step counter and data cursor after a step over `batch_size`
/// examples: one more step, and the cursor moved on by the batch, wrapping
/// around the end of the data.
pub fn advance(step: usize, cursor: usize, batch_size: usize, len: usize) -> (r: Result<(usize, usize), &'static str>)
    requires
        len > 0,
    ensures
        match advance_error(step as int, cursor as int, batch_size as int) {
            Some(e) => r == Err::<(usize, usize), &'static str>(e),
            None => r == Ok::<(usize, usize), &'static str>(
                ((step + 1) as usize, ((cursor + batch_size) % (len as int)) as usize),
            ),
        },
{
    let next_step = match step.checked_add(1) {
        Some(s) => s,
        None => {
            return Err("training step overflow");
        },
    };
    let moved = match cursor.checked_add(batch_size) {
        Some(c) => c,
        None => {
            return Err("minibatch cursor overflow");
        },
    };
    Ok((next_step, moved % len))
}

/// Minibatches taken one after another, each from where the last left
/// the cursor, cover the data in order: the first example of a batch
/// follows the last example of the batch before.
pub proof fn lemma_batches_continue(len: nat, batch_size: nat, cursor: nat)
    requires
        minibatch_error(len as int, batch_size as int, cursor as int) is None,
    ensures
        ((cursor + batch_size) as int) % (len as int) == ((cursor + batch_size - 1) % (len as int) + 1)
            % (len as int),
{
    let n = len as int;
    let a = cursor + batch_size - 1;
    assert((a + 1) % n == (a % n + 1) % n) by (nonlinear_arith)
        requires
            n > 0,
    ;
}

} // verus!
