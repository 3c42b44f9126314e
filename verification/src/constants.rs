use vstd::prelude::*;

verus! {

/// Number of bytes in one tape of the soup.
pub const TAPE_SIZE: usize = 64;

/// Number of bytes of the combined tape that two interacting tapes form.
pub const COMBINED_SIZE: usize = TAPE_SIZE * 2;

/// Number of instructions the interpreter executes on a combined tape.
pub const MAX_STEPS: usize = 8192;

/// Number of tapes in the soup.
pub const SOUP_SIZE: usize = 131072;

/// Total number of epochs of a run (one epoch pairs every tape once).
pub const EPOCHS: usize = 50_000;

/// A statistics row is reported every `EVAL_STEPS` epochs.
pub const EVAL_STEPS: usize = 10_000;

/// Background mutation rate, as the fraction
/// `MUTATION_RATE_NUM / MUTATION_RATE_DEN` of all soup bytes per epoch.
/// Set the numerator to 0 to disable random mutation.
pub const MUTATION_RATE_NUM: usize = 24;

/// Denominator of the background mutation rate.
pub const MUTATION_RATE_DEN: usize = 100_000;

/// Width, in characters, of the progress bar between two reports.
pub const BAR_WIDTH: usize = 40;

/// Number of tapes written to the samples log.
pub const SAMPLE_COUNT: usize = 16;

} // verus!
