use composefs::tmpdir::{
    random_suffix, tempdir_candidate, tempdir_step, CreateOutcome, NextStep, TempDir,
    TEMPDIR_RETRIES, TEMPDIR_SUFFIX_LEN,
};

#[test]
fn suffix_is_six_alphanumerics() {
    for _ in 0..32 {
        let s = random_suffix(TEMPDIR_SUFFIX_LEN);
        assert_eq!(s.len(), 6);
        for b in s {
            assert!(b.is_ascii_alphanumeric());
        }
    }
}

#[test]
fn candidate_path_shape() {
    assert_eq!(tempdir_candidate(b"abc123"), b"/tmp/composefs.abc123".to_vec());
}

#[test]
fn step_decisions() {
    assert_eq!(tempdir_step(0, CreateOutcome::Created), NextStep::Done);
    assert_eq!(tempdir_step(0, CreateOutcome::Failed), NextStep::GiveUp);
    assert_eq!(tempdir_step(0, CreateOutcome::AlreadyExists), NextStep::Retry);
    assert_eq!(tempdir_step(TEMPDIR_RETRIES - 2, CreateOutcome::AlreadyExists), NextStep::Retry);
    assert_eq!(tempdir_step(TEMPDIR_RETRIES - 1, CreateOutcome::AlreadyExists), NextStep::GiveUp);
}

#[test]
fn retry_budget_matches_glibc() {
    assert_eq!(TEMPDIR_RETRIES, 26 * 26 * 26);
}

#[test]
fn tempdir_holds_its_path() {
    let t = TempDir::new(b"/tmp/composefs.zzzzzz".to_vec());
    assert_eq!(t.path, b"/tmp/composefs.zzzzzz".to_vec());
}
