//! Password hashing and session identifiers, taken from argon2 and uuid.
use vstd::prelude::*;
use vstd::arithmetic::power::pow;
use argon2::password_hash::rand_core::OsRng;
use argon2::password_hash::{PasswordHash, PasswordHasher, PasswordVerifier, SaltString};
use argon2::Argon2;
use uuid::Uuid;

verus! {

/// Whether argon2 accepts `password` against the stored PHC string `phc`.
pub uninterp spec fn password_matches(password: Seq<char>, phc: Seq<char>) -> bool;

/// The lower-case hexadecimal digit for `d` in `0..16`.
pub open spec fn hex_digit(d: int) -> char {
    seq!['0', '1', '2', '3', '4', '5', '6', '7', '8', '9', 'a', 'b', 'c', 'd', 'e', 'f'][d]
}

/// Hexadecimal digit `k` of `token`, counting from the most significant.
pub open spec fn nibble(token: u128, k: int) -> int {
    (token as int / pow(16, (31 - k) as nat)) % 16
}

/// The hyphenated lower-case text of the identifier whose 128-bit value is
/// `token`: its 32 hexadecimal digits, most significant first, in groups of
/// 8, 4, 4, 4 and 12 joined by hyphens.
pub open spec fn uuid_text(token: u128) -> Seq<char> {
    Seq::new(
        36,
        |i: int|
            if i == 8 || i == 13 || i == 18 || i == 23 {
                '-'
            } else {
                let k = if i < 8 {
                    i
                } else if i < 13 {
                    i - 1
                } else if i < 18 {
                    i - 2
                } else if i < 23 {
                    i - 3
                } else {
                    i - 4
                };
                hex_digit(nibble(token, k))
            },
    )
}

/// The 128-bit value that uuid reads from `s`, if it reads one.
pub uninterp spec fn parsed_uuid(s: Seq<char>) -> Option<u128>;

/// Relies on `SaltString::generate` over `OsRng` and `Argon2::hash_password`
/// with default parameters. The salt is random, so nothing fixes the PHC string;
/// what holds of every outcome is that `verify_password` accepts the same
/// password against it, since it recomputes the hash from the salt and the
/// parameters that the string carries. Hashing fails only for a password of
/// more than `u32::MAX` bytes (a generated salt is always valid), so it
/// succeeds on any password of at most `0x3fff_ffff` characters.
#[verifier::external_body]
pub(crate) fn hash_password(password: &str) -> (r: Option<String>)
    ensures
        r matches Some(h) ==> password_matches(password@, h@),
        password@.len() <= 0x3fff_ffff ==> r is Some,
{
    let salt = SaltString::generate(&mut OsRng);
    match Argon2::default().hash_password(password.as_bytes(), &salt) {
        Ok(hash) => Some(hash.to_string()),
        Err(_) => None,
    }
}

/// Relies on `PasswordHash::new`, which parses the stored PHC string, and
/// `Argon2::verify_password`; a string that does not parse matches nothing.
#[verifier::external_body]
pub(crate) fn verify_password(password: &str, phc: &str) -> (r: bool)
    ensures
        r == password_matches(password@, phc@),
{
    match PasswordHash::new(phc) {
        Ok(parsed) => Argon2::default().verify_password(password.as_bytes(), &parsed).is_ok(),
        Err(_) => false,
    }
}

/// Relies on `Uuid::new_v4`: a random version-4 identifier, as its 128-bit value.
#[verifier::external_body]
pub(crate) fn new_token() -> (r: u128) {
    Uuid::new_v4().as_u128()
}

/// Relies on `Uuid::parse_str` (the `FromStr` impl of `Uuid`).
#[verifier::external_body]
pub(crate) fn parse_token(s: &str) -> (r: Option<u128>)
    ensures
        r == parsed_uuid(s@),
{
    Uuid::parse_str(s).ok().map(|u| u.as_u128())
}

/// Relies on `Display` for `Uuid` (the lower-case hyphenated form, digits taken
/// big-endian as `Uuid::from_u128` stores them), which `Uuid::parse_str` reads
/// back to the same value.
#[verifier::external_body]
pub(crate) fn token_text(token: u128) -> (r: String)
    ensures
        r@ == uuid_text(token),
        parsed_uuid(r@) == Some(token),
{
    Uuid::from_u128(token).to_string()
}

} // verus!
