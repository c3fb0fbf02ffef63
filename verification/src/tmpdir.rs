//! Temporary-directory naming: the candidate paths, the retry budget, and
//! the decision taken after each creation attempt. The filesystem calls
//! themselves live with the caller; this module owns the policy.

use vstd::prelude::*;

verus! {

/// How many random names are tried before giving up.
pub const TEMPDIR_RETRIES: u32 = 26 * 26 * 26;

/// The length of the random suffix of a candidate name.
pub const TEMPDIR_SUFFIX_LEN: usize = 6;

/// Failure of the allocation: no free name within the retry budget.
#[derive(Clone, Copy, Debug, PartialEq, Eq, Structural)]
pub enum TempDirError {
    Exhausted,
}

/// An ASCII letter or digit.
pub open spec fn is_alnum(b: u8) -> bool {
    (48 <= b <= 57) || (65 <= b <= 90) || (97 <= b <= 122)
}

/// Relies on rand's Alphanumeric distribution: every sampled byte is an
/// ASCII letter or digit; nothing else can be said of a random value.
#[verifier::external_body]
pub fn random_suffix(len: usize) -> (r: Vec<u8>)
    ensures
        r@.len() == len,
        forall|i: int| 0 <= i < r@.len() ==> is_alnum(r@[i]),
{
    rand::distributions::DistString::sample_string(
        &rand::distributions::Alphanumeric,
        &mut rand::thread_rng(),
        len,
    ).into_bytes()
}

/// The candidate path for a given suffix.
pub open spec fn spec_candidate(suffix: Seq<u8>) -> Seq<u8> {
    seq![47u8, 116u8, 109u8, 112u8, 47u8, 99u8, 111u8, 109u8, 112u8, 111u8, 115u8, 101u8, 102u8, 115u8, 46u8] + suffix
}

/// Build the candidate path for a suffix.
pub fn tempdir_candidate(suffix: &[u8]) -> (r: Vec<u8>)
    ensures
        r@ == spec_candidate(suffix@),
{
    let mut r: Vec<u8> = Vec::new();
    crate::image::push_bytes(&mut r, &[47, 116, 109, 112, 47, 99, 111, 109, 112, 111, 115, 101,
        102, 115, 46]);
    crate::image::push_bytes(&mut r, suffix);
    proof {
        assert(r@ =~= spec_candidate(suffix@));
    }
    r
}

/// What a creation attempt reported: the directory was made, the name was
/// taken, or the filesystem refused for another reason.
#[derive(Clone, Copy, Debug, PartialEq, Eq, Structural)]
pub enum CreateOutcome {
    Created,
    AlreadyExists,
    Failed,
}

/// What to do after a creation attempt.
#[derive(Clone, Copy, Debug, PartialEq, Eq, Structural)]
pub enum NextStep {
    /// The directory is ours: stop with it.
    Done,
    /// The name was taken and the budget is not spent: draw another.
    Retry,
    /// A hard failure, or the budget is spent: give up.
    GiveUp,
}

/// Decide the next step after attempt number `attempt` (counted from zero)
/// reported `outcome`: success stops, a taken name is retried until the
/// budget of `TEMPDIR_RETRIES` attempts is spent, and any other failure
/// stops the search.
pub fn tempdir_step(attempt: u32, outcome: CreateOutcome) -> (r: NextStep)
    ensures
        outcome == CreateOutcome::Created ==> r == NextStep::Done,
        outcome == CreateOutcome::Failed ==> r == NextStep::GiveUp,
        outcome == CreateOutcome::AlreadyExists ==> (r == (if attempt + 1 < TEMPDIR_RETRIES {
            NextStep::Retry
        } else {
            NextStep::GiveUp
        })),
{
    match outcome {
        CreateOutcome::Created => NextStep::Done,
        CreateOutcome::Failed => NextStep::GiveUp,
        CreateOutcome::AlreadyExists => {
            if attempt < TEMPDIR_RETRIES - 1 {
                NextStep::Retry
            } else {
                NextStep::GiveUp
            }
        },
    }
}

/// A uniquely named temporary directory under `/tmp`, held by its path.
/// The caller creates and removes the directory itself; the name always
/// has the form `/tmp/composefs.` followed by six letters or digits.
#[derive(Debug)]
pub struct TempDir {
    pub path: Vec<u8>,
}

impl TempDir {
    /// Wrap a candidate path that the caller managed to create.
    pub fn new(path: Vec<u8>) -> (r: TempDir)
        ensures
            r.path@ == path@,
    {
        TempDir { path }
    }
}

} // verus!
