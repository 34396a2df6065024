use ttrack_pro::auth::{
    after_check, check_password, confirm_password, hash_to_keep, playback_hash_path, prune_hash_path,
    set_password, verify_password, AuthError, Gate,
};

const HASH: &str = "$2a$04$UuTkLRZZ6QofpDOlMz32MuuxEHA43WOemOYHPz6.SjsVsyO1tDU96";

#[test]
fn hash_files_stand_in_the_central_directory() {
    assert_eq!(playback_hash_path(&b"/var/lib/ttrack".to_vec()), b"/var/lib/ttrack/.playback.hash");
    assert_eq!(prune_hash_path(&b"/var/lib/ttrack/".to_vec()), b"/var/lib/ttrack/.prune.hash");
}

#[test]
fn a_short_password_is_refused() {
    assert_eq!(check_password("1234567"), Err(AuthError::TooShort));
    assert_eq!(check_password("12345678"), Ok(()));
    assert_eq!(check_password("éééé"), Ok(()));
    assert_eq!(set_password("1234567", "1234567").err(), Some(AuthError::TooShort));
}

#[test]
fn the_confirmation_must_be_the_same() {
    assert_eq!(confirm_password("12345678", "12345679"), Err(AuthError::Mismatch));
    assert_eq!(confirm_password("12345678", "12345678"), Ok(()));
    assert_eq!(set_password("12345678", "123456789").err(), Some(AuthError::Mismatch));
}

#[test]
fn hashing_may_fail() {
    assert_eq!(hash_to_keep(None).err(), Some(AuthError::NotHashed));
    assert_eq!(hash_to_keep(Some("h".to_string())).unwrap(), "h");
}

#[test]
fn a_new_password_is_accepted() {
    let hash = set_password("correct horse", "correct horse").unwrap();
    assert!(hash.starts_with("$2b$12$"));
    assert_eq!(hash.len(), 60);
    let (gate, said) = verify_password(Gate::start(Some(hash), 1), "correct horse");
    assert!(matches!(gate, Gate::Granted));
    assert_eq!(said, None);
}

#[test]
fn without_a_hash_no_password_is_needed() {
    assert!(matches!(Gate::start(None, 3), Gate::Granted));
    assert!(matches!(Gate::start(None, 0), Gate::Granted));
}

#[test]
fn without_an_attempt_nobody_gets_in() {
    assert!(matches!(Gate::start(Some(HASH.to_string()), 0), Gate::Refused));
}

#[test]
fn attempts_run_out() {
    let gate = Gate::start(Some(HASH.to_string()), 3);
    let (gate, said) = verify_password(gate, "wrong");
    assert_eq!(said.as_deref(), Some("incorrect password, 2 attempt(s) remaining"));
    let (gate, said) = verify_password(gate, "wrong again");
    assert_eq!(said.as_deref(), Some("incorrect password, 1 attempt(s) remaining"));
    let (gate, said) = verify_password(gate, "no");
    assert!(matches!(gate, Gate::Refused));
    assert_eq!(said, None);
    let (gate, _) = verify_password(gate, "password");
    assert!(matches!(gate, Gate::Refused));
}

#[test]
fn the_last_attempt_counts() {
    let gate = Gate::start(Some(HASH.to_string()), 2);
    let (gate, _) = verify_password(gate, "wrong");
    let (gate, said) = verify_password(gate, "password");
    assert!(matches!(gate, Gate::Granted));
    assert_eq!(said, None);
}

#[test]
fn a_broken_hash_accepts_nothing() {
    let (gate, _) = verify_password(Gate::start(Some("not a hash".to_string()), 1), "not a hash");
    assert!(matches!(gate, Gate::Refused));
}

#[test]
fn auth_errors_are_described() {
    assert_eq!(AuthError::TooShort.message(), "password must be at least 8 characters");
    assert_eq!(AuthError::Mismatch.message(), "passwords do not match");
    assert_eq!(AuthError::NotHashed.message(), "bcrypt hash");
    assert_eq!(AuthError::TooManyAttempts.message(), "too many incorrect password attempts");
}

#[test]
fn a_checked_password_decides() {
    let ask = |left| Gate::Ask { hash: "h".to_string(), left };
    assert!(matches!(after_check(ask(1), Some(true)), (Gate::Granted, None)));
    assert!(matches!(after_check(ask(1), Some(false)), (Gate::Refused, None)));
    assert!(matches!(after_check(ask(1), None), (Gate::Refused, None)));
    assert!(matches!(after_check(ask(0), Some(true)), (Gate::Refused, None)));
    match after_check(ask(5), None) {
        (Gate::Ask { hash, left }, Some(said)) => {
            assert_eq!((hash.as_str(), left), ("h", 4));
            assert_eq!(said, "incorrect password, 4 attempt(s) remaining");
        }
        other => panic!("{:?}", other),
    }
    assert!(matches!(after_check(Gate::Granted, Some(false)), (Gate::Granted, None)));
    assert!(matches!(after_check(Gate::Refused, Some(true)), (Gate::Refused, None)));
}
