//! The passwords that guard playing and pruning.

use crate::format::{decimal, push_u64};
use crate::outside::{bcrypt_hash_head, bcrypt_verifies, password_fits, password_hash};
use crate::path::{join, join_path};
use crate::text::{byte_len, same_text};
use vstd::prelude::*;
use vstd::string::*;
use vstd::utf8::*;

verus! {

/// The fewest bytes that a new password has.
pub const MIN_PASSWORD: usize = 8;

/// What bcrypt is to spend on a hash.
pub const HASH_COST: u32 = 12;

/// Why a password is not set, or not accepted.
#[derive(Debug, Clone, Copy, PartialEq, Eq, Structural)]
pub enum AuthError {
    /// The new password is too short.
    TooShort,
    /// The confirmation is another password.
    Mismatch,
    /// The new password could not be hashed.
    NotHashed,
    /// Every attempt was used up.
    TooManyAttempts,
}

/// What is said of an error.
pub open spec fn error_text(e: AuthError) -> Seq<char> {
    match e {
        AuthError::TooShort => "password must be at least 8 characters"@,
        AuthError::Mismatch => "passwords do not match"@,
        AuthError::NotHashed => "bcrypt hash"@,
        AuthError::TooManyAttempts => "too many incorrect password attempts"@,
    }
}

impl AuthError {
    /// What is said of the error.
    pub fn message(&self) -> (r: &'static str)
        ensures
            r@ == error_text(*self),
    {
        match *self {
            AuthError::TooShort => "password must be at least 8 characters",
            AuthError::Mismatch => "passwords do not match",
            AuthError::NotHashed => "bcrypt hash",
            AuthError::TooManyAttempts => "too many incorrect password attempts",
        }
    }
}

/// Where the hash of the password for playing is kept.
pub fn playback_hash_path(central_dir: &Vec<u8>) -> (r: Vec<u8>)
    ensures
        r@ == join(central_dir@, encode_utf8(".playback.hash"@)),
{
    join_path(central_dir.as_slice(), ".playback.hash".as_bytes())
}

/// Where the hash of the password for pruning is kept.
pub fn prune_hash_path(central_dir: &Vec<u8>) -> (r: Vec<u8>)
    ensures
        r@ == join(central_dir@, encode_utf8(".prune.hash"@)),
{
    join_path(central_dir.as_slice(), ".prune.hash".as_bytes())
}

/// Whether a new password is long enough to be asked for again.
pub fn check_password(pass: &str) -> (r: Result<(), AuthError>)
    ensures
        r == (if encode_utf8(pass@).len() < MIN_PASSWORD {
            Err(AuthError::TooShort)
        } else {
            Ok(())
        }),
{
    if byte_len(pass) < MIN_PASSWORD {
        Err(AuthError::TooShort)
    } else {
        Ok(())
    }
}

/// Whether a new password, given twice, may be set.
pub open spec fn new_password(pass: Seq<char>, confirm: Seq<char>) -> Result<(), AuthError> {
    if encode_utf8(pass).len() < MIN_PASSWORD {
        Err(AuthError::TooShort)
    } else if pass != confirm {
        Err(AuthError::Mismatch)
    } else {
        Ok(())
    }
}

/// Whether a new password, given twice, may be set.
pub fn confirm_password(pass: &str, confirm: &str) -> (r: Result<(), AuthError>)
    ensures
        r == new_password(pass@, confirm@),
{
    match check_password(pass) {
        Err(e) => Err(e),
        Ok(()) => if same_text(pass, confirm) {
            Ok(())
        } else {
            Err(AuthError::Mismatch)
        },
    }
}

/// The hash to keep, given what hashing gave.
pub fn hash_to_keep(hashed: Option<String>) -> (r: Result<String, AuthError>)
    ensures
        match hashed {
            Some(h) => r == Ok::<String, AuthError>(h),
            None => r == Err::<String, AuthError>(AuthError::NotHashed),
        },
{
    match hashed {
        Some(h) => Ok(h),
        None => Err(AuthError::NotHashed),
    }
}

/// The hash to keep for a new password, given twice. The password is then accepted, whatever
/// number of attempts is left. Hashing needs random bytes, so it is not promised to succeed.
pub fn set_password(pass: &str, confirm: &str) -> (r: Result<String, AuthError>)
    ensures
        new_password(pass@, confirm@) matches Err(e) ==> r == Err::<String, AuthError>(e),
        new_password(pass@, confirm@) is Ok && r is Err ==> r->Err_0 == AuthError::NotHashed,
        r matches Ok(h) ==> bcrypt_hash_head(HASH_COST as nat).is_prefix_of(h@),
        r matches Ok(h) ==> forall|left: u32|
            left > 0 ==> #[trigger] answered(GateView::Ask { hash: h@, left }, pass@)
                == GateView::Granted,
{
    match confirm_password(pass, confirm) {
        Err(e) => Err(e),
        Ok(()) => {
            let hashed = password_hash(pass, HASH_COST);
            hash_to_keep(hashed)
        },
    }
}

/// How far a user got at a password.
#[derive(Debug)]
pub enum Gate {
    /// The password was given, or none is needed.
    Granted,
    /// No attempt is left.
    Refused,
    /// The password with this hash has to be given, in one of the attempts that are left.
    Ask { hash: String, left: u32 },
}

/// How far a user got at a password.
pub enum GateView {
    Granted,
    Refused,
    Ask { hash: Seq<char>, left: u32 },
}

impl View for Gate {
    type V = GateView;

    open spec fn view(&self) -> GateView {
        match *self {
            Gate::Granted => GateView::Granted,
            Gate::Refused => GateView::Refused,
            Gate::Ask { hash, left } => GateView::Ask { hash: hash@, left },
        }
    }
}

/// Whether a password is accepted. A hash that is not a valid one accepts none.
pub open spec fn accepts(hash: Seq<char>, pass: Seq<char>) -> bool {
    bcrypt_verifies(pass, hash) == Some(true)
}

/// Where a user stands that has `max_attempts` attempts, given the hash that is kept, if one is.
pub open spec fn gate(hash: Option<Seq<char>>, max_attempts: u32) -> GateView {
    match hash {
        None => GateView::Granted,
        Some(h) => if max_attempts == 0 {
            GateView::Refused
        } else {
            GateView::Ask { hash: h, left: max_attempts }
        },
    }
}

/// Where a user stands once the password that they gave was held against the hash.
pub open spec fn checked(g: GateView, fits: Option<bool>) -> GateView {
    match g {
        GateView::Ask { hash, left } => if left == 0 {
            GateView::Refused
        } else if fits == Some(true) {
            GateView::Granted
        } else if left == 1 {
            GateView::Refused
        } else {
            GateView::Ask { hash, left: (left - 1) as u32 }
        },
        _ => g,
    }
}

/// Where a user stands after giving the password `pass`.
pub open spec fn answered(g: GateView, pass: Seq<char>) -> GateView {
    match g {
        GateView::Ask { hash, .. } => checked(g, bcrypt_verifies(pass, hash)),
        _ => g,
    }
}

/// What is said after a wrong password, while attempts remain.
pub open spec fn wrong_text(remaining: nat) -> Seq<char> {
    "incorrect password, "@ + decimal(remaining) + " attempt(s) remaining"@
}

impl Gate {
    /// Where a user stands at first. Where no hash is kept, no password is needed.
    pub fn start(hash: Option<String>, max_attempts: u32) -> (r: Gate)
        ensures
            r@ == gate(crate::text::view_opt(hash), max_attempts),
    {
        match hash {
            None => Gate::Granted,
            Some(hash) => if max_attempts == 0 {
                Gate::Refused
            } else {
                Gate::Ask { hash, left: max_attempts }
            },
        }
    }
}

/// Where the user then stands, and what is said to them, once the password that they gave was held
/// against the hash: `fits` is whether it is the one, or nothing where the hash is not a valid one.
pub fn after_check(g: Gate, fits: Option<bool>) -> (r: (Gate, Option<String>))
    ensures
        r.0@ == checked(g@, fits),
        match (g, r.0) {
            (Gate::Ask { .. }, Gate::Ask { left, .. }) => r.1 is Some && r.1->0@ == wrong_text(
                left as nat,
            ),
            _ => r.1 is None,
        },
{
    match g {
        Gate::Ask { hash, left } => {
            if left == 0 {
                return (Gate::Refused, None);
            }
            if let Some(true) = fits {
                return (Gate::Granted, None);
            }
            let remaining: u32 = left - 1;
            if remaining == 0 {
                return (Gate::Refused, None);
            }
            let mut out = "incorrect password, ".to_owned();
            push_u64(&mut out, remaining as u64);
            out.append(" attempt(s) remaining");
            (Gate::Ask { hash, left: remaining }, Some(out))
        },
        g => (g, None),
    }
}

/// Takes one answer to the question for the password: where the user then stands, and what is
/// said to them.
pub fn verify_password(g: Gate, pass: &str) -> (r: (Gate, Option<String>))
    ensures
        r.0@ == answered(g@, pass@),
        match (g, r.0) {
            (Gate::Ask { .. }, Gate::Ask { left, .. }) => r.1 is Some && r.1->0@ == wrong_text(
                left as nat,
            ),
            _ => r.1 is None,
        },
{
    let fits = match &g {
        Gate::Ask { hash, .. } => password_fits(pass, hash.as_str()),
        _ => None,
    };
    after_check(g, fits)
}

/// Where a user stands after giving some passwords, one after the other.
pub open spec fn after_answers(g: GateView, answers: Seq<Seq<char>>) -> GateView
    decreases answers.len(),
{
    if answers.len() == 0 {
        g
    } else {
        after_answers(answered(g, answers[0]), answers.drop_first())
    }
}

/// What was decided stays decided.
pub proof fn law_decided(g: GateView, answers: Seq<Seq<char>>)
    requires
        !(g is Ask),
    ensures
        after_answers(g, answers) == g,
    decreases answers.len(),
{
    if answers.len() > 0 {
        law_decided(g, answers.drop_first());
    }
}

/// A user gets in exactly when one of the first `left` passwords is accepted, and is refused
/// exactly when as many were given and none is.
pub proof fn law_attempts(hash: Seq<char>, left: u32, answers: Seq<Seq<char>>)
    requires
        left > 0,
    ensures
        after_answers(GateView::Ask { hash, left }, answers) is Granted <==> exists|i: int|
            0 <= i < answers.len() && i < left && accepts(hash, #[trigger] answers[i]),
        after_answers(GateView::Ask { hash, left }, answers) is Refused <==> answers.len() >= left
            && forall|i: int| 0 <= i < left ==> !accepts(hash, #[trigger] answers[i]),
    decreases answers.len(),
{
    let g = GateView::Ask { hash, left };
    if answers.len() > 0 {
        let rest = answers.drop_first();
        assert forall|i: int| 0 <= i < rest.len() implies #[trigger] rest[i] == answers[i + 1] by {}
        let next = answered(g, answers[0]);
        if next is Ask {
            law_attempts(hash, (left - 1) as u32, rest);
            if exists|i: int| 0 <= i < answers.len() && i < left && accepts(hash, answers[i]) {
                let i = choose|i: int| 0 <= i < answers.len() && i < left && accepts(hash, answers[i]);
                assert(i > 0);
                assert(accepts(hash, rest[i - 1]));
            }
            if after_answers(next, rest) is Refused {
                assert forall|i: int| 0 <= i < left implies !accepts(hash, #[trigger] answers[i]) by {
                    if i > 0 {
                        assert(!accepts(hash, rest[i - 1]));
                    }
                }
            }
        } else {
            law_decided(next, rest);
        }
    }
}

/// A new password is set exactly when it has eight bytes at least and was given twice the same.
pub proof fn law_new_password(pass: Seq<char>, confirm: Seq<char>)
    ensures
        new_password(pass, confirm) is Ok <==> encode_utf8(pass).len() >= 8 && pass == confirm,
        encode_utf8(pass).len() < 8 ==> new_password(pass, confirm) == Err::<(), AuthError>(
            AuthError::TooShort,
        ),
        encode_utf8(pass).len() >= 8 && pass != confirm ==> new_password(pass, confirm) == Err::<
            (),
            AuthError,
        >(AuthError::Mismatch),
{
}

/// Where no hash is kept everyone gets in; where one is, everyone has as many attempts as there
/// are, and without any nobody gets in.
pub proof fn law_gate(hash: Seq<char>, max_attempts: u32)
    ensures
        gate(None, max_attempts) == GateView::Granted,
        gate(Some(hash), 0) == GateView::Refused,
        max_attempts > 0 ==> gate(Some(hash), max_attempts) == (GateView::Ask {
            hash,
            left: max_attempts,
        }),
{
}

/// An attempt lets in exactly the user whose password bcrypt verifies, and costs another one.
pub proof fn law_attempt(hash: Seq<char>, left: u32, pass: Seq<char>)
    requires
        left > 0,
    ensures
        bcrypt_verifies(pass, hash) == Some(true) ==> answered(GateView::Ask { hash, left }, pass)
            == GateView::Granted,
        bcrypt_verifies(pass, hash) != Some(true) && left > 1 ==> answered(
            GateView::Ask { hash, left },
            pass,
        ) == (GateView::Ask { hash, left: (left - 1) as u32 }),
        bcrypt_verifies(pass, hash) != Some(true) && left == 1 ==> answered(
            GateView::Ask { hash, left },
            pass,
        ) == GateView::Refused,
{
}

/// What is said after a wrong password names the number of attempts that remain.
pub proof fn law_wrong_text(remaining: nat)
    ensures
        wrong_text(remaining) == "incorrect password, "@ + decimal(remaining)
            + " attempt(s) remaining"@,
{
}

} // verus!
