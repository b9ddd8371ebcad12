//! The source of chance: the thread's random number generator.

use rand::rngs::ThreadRng;
use rand::Rng;
use vstd::prelude::*;

verus! {

/// `rand::rngs::ThreadRng`, a handle to the generator of the current thread.
/// Nothing inside it is visible to the proofs.
#[verifier::external_type_specification]
#[verifier::external_body]
pub struct ExThreadRng(ThreadRng);

/// `rand::thread_rng`: the handle to the current thread's generator, which is
/// seeded from the operating system on first use. Nothing is claimed of the
/// handle.
pub assume_specification[ rand::thread_rng ]() -> (rng: ThreadRng)
;

/// `rand::Rng::gen::<usize>` on the thread's generator: one machine word,
/// every value of which may come back. Nothing is claimed of it.
#[verifier::external_body]
fn next_usize(rng: &mut ThreadRng) -> usize {
    rng.gen::<usize>()
}

/// Whether `step` is one of the three steps a cell can draw.
pub open spec fn is_step(step: usize) -> bool {
    1 <= step <= 3
}

/// Draws the step for one cell: 1, 2 or 3.
pub fn draw_step(rng: &mut ThreadRng) -> (step: usize)
    ensures
        is_step(step),
{
    step_from_word(next_usize(rng))
}

/// The step that a drawn machine word stands for: its remainder by three,
/// plus one.
pub open spec fn step_of(word: usize) -> usize {
    (word % 3 + 1) as usize
}

/// Turns a drawn machine word into a step: its remainder by three, plus one.
pub fn step_from_word(word: usize) -> (step: usize)
    ensures
        step == step_of(word),
        is_step(step),
{
    word % 3 + 1
}

} // verus!
