//! Input rules checked before any store access, and the client-side form checks.
use vstd::prelude::*;
use crate::text::{
    all_alnum, all_room_chars, char_count, is_alphanumeric, is_ascii_alnum, is_ascii_alnum_char,
    is_room_name_text, same_text, MAX_PASSWORD_LEN, MAX_ROOM_NAME_LEN, MAX_USERNAME_LEN,
    MIN_PASSWORD_LEN, MIN_USERNAME_LEN,
};

verus! {

/// Why a request's fields were refused.
#[derive(Debug, Clone, Copy, PartialEq, Eq, Structural)]
pub enum InputError {
    UsernameLength,
    PasswordLength,
    DisallowedCharacter,
    SamePassword,
    EmptyRoomName,
    RoomNameTooLong,
    ZeroLimit,
    PopulatedMessageFields,
    EmptySearchTerm,
}

/// `Ok` where no rule is broken, else the error of the rule that is.
pub open spec fn failure_of<E>(o: Option<E>) -> Result<(), E> {
    match o {
        Some(e) => Err(e),
        None => Ok(()),
    }
}

pub open spec fn username_length_ok(u: Seq<char>) -> bool {
    MIN_USERNAME_LEN <= u.len() <= MAX_USERNAME_LEN
}

pub open spec fn password_length_ok(p: Seq<char>) -> bool {
    MIN_PASSWORD_LEN <= p.len() <= MAX_PASSWORD_LEN
}

/// The first rule that a username and password break, if any: lengths first,
/// then the character set.
pub open spec fn account_input_error(u: Seq<char>, p: Seq<char>) -> Option<InputError> {
    if !username_length_ok(u) {
        Some(InputError::UsernameLength)
    } else if !password_length_ok(p) {
        Some(InputError::PasswordLength)
    } else if !all_alnum(u) || !all_alnum(p) {
        Some(InputError::DisallowedCharacter)
    } else {
        None
    }
}

/// The first rule that a password change breaks, if any.
pub open spec fn password_change_error(old_p: Seq<char>, new_p: Seq<char>) -> Option<InputError> {
    if !password_length_ok(new_p) {
        Some(InputError::PasswordLength)
    } else if !all_alnum(old_p) || !all_alnum(new_p) {
        Some(InputError::DisallowedCharacter)
    } else if old_p == new_p {
        Some(InputError::SamePassword)
    } else {
        None
    }
}

/// The first rule that a room name breaks, if any.
pub open spec fn room_name_error(name: Seq<char>) -> Option<InputError> {
    if name.len() == 0 {
        Some(InputError::EmptyRoomName)
    } else if name.len() > MAX_ROOM_NAME_LEN {
        Some(InputError::RoomNameTooLong)
    } else if !all_room_chars(name) {
        Some(InputError::DisallowedCharacter)
    } else {
        None
    }
}

pub fn check_account_input(username: &str, password: &str) -> (r: Result<(), InputError>)
    ensures
        r == failure_of(account_input_error(username@, password@)),
{
    let ul = char_count(username);
    if ul < MIN_USERNAME_LEN || ul > MAX_USERNAME_LEN {
        return Err(InputError::UsernameLength);
    }
    let pl = char_count(password);
    if pl < MIN_PASSWORD_LEN || pl > MAX_PASSWORD_LEN {
        return Err(InputError::PasswordLength);
    }
    if !is_alphanumeric(username) || !is_alphanumeric(password) {
        return Err(InputError::DisallowedCharacter);
    }
    Ok(())
}

pub fn check_password_change(old_password: &str, new_password: &str) -> (r: Result<(), InputError>)
    ensures
        r == failure_of(password_change_error(old_password@, new_password@)),
{
    let nl = char_count(new_password);
    if nl < MIN_PASSWORD_LEN || nl > MAX_PASSWORD_LEN {
        return Err(InputError::PasswordLength);
    }
    if !is_alphanumeric(old_password) || !is_alphanumeric(new_password) {
        return Err(InputError::DisallowedCharacter);
    }
    if same_text(old_password, new_password) {
        return Err(InputError::SamePassword);
    }
    Ok(())
}

pub fn check_room_name(name: &str) -> (r: Result<(), InputError>)
    ensures
        r == failure_of(room_name_error(name@)),
{
    let n = char_count(name);
    if n == 0 {
        return Err(InputError::EmptyRoomName);
    }
    if n > MAX_ROOM_NAME_LEN {
        return Err(InputError::RoomNameTooLong);
    }
    if !is_room_name_text(name) {
        return Err(InputError::DisallowedCharacter);
    }
    Ok(())
}

pub open spec fn reason_text(e: AccountErrorReason) -> Seq<char> {
    match e {
        AccountErrorReason::NoPassword => "No password"@,
        AccountErrorReason::InvalidLengthPassword => "Invalid password length"@,
        AccountErrorReason::BadConfirmPassword => "Passwords do not match"@,
        AccountErrorReason::EmptyUsername => "No username"@,
        AccountErrorReason::InvalidLengthUsername => "Invalid username length"@,
    }
}

/// Reasons a registration or password form is refused before it is sent.
#[derive(Debug, Clone, Copy, PartialEq, Eq, Structural)]
pub enum AccountErrorReason {
    NoPassword,
    InvalidLengthPassword,
    BadConfirmPassword,
    EmptyUsername,
    InvalidLengthUsername,
}

impl AccountErrorReason {
    /// The message shown to the user.
    pub fn message(&self) -> (r: &'static str)
        ensures
            r@ == reason_text(*self),
    {
        proof {
            reveal_strlit("No password");
            reveal_strlit("Invalid password length");
            reveal_strlit("Passwords do not match");
            reveal_strlit("No username");
            reveal_strlit("Invalid username length");
        }
        match self {
            AccountErrorReason::NoPassword => "No password",
            AccountErrorReason::InvalidLengthPassword => "Invalid password length",
            AccountErrorReason::BadConfirmPassword => "Passwords do not match",
            AccountErrorReason::EmptyUsername => "No username",
            AccountErrorReason::InvalidLengthUsername => "Invalid username length",
        }
    }
}

pub open spec fn username_form_error(u: Seq<char>) -> Option<AccountErrorReason> {
    if u.len() == 0 {
        Some(AccountErrorReason::EmptyUsername)
    } else if !username_length_ok(u) {
        Some(AccountErrorReason::InvalidLengthUsername)
    } else {
        None
    }
}

pub open spec fn password_form_error(p: Seq<char>, pc: Seq<char>) -> Option<AccountErrorReason> {
    if p.len() == 0 && pc.len() == 0 {
        Some(AccountErrorReason::NoPassword)
    } else if p != pc {
        Some(AccountErrorReason::BadConfirmPassword)
    } else if !password_length_ok(p) {
        Some(AccountErrorReason::InvalidLengthPassword)
    } else {
        None
    }
}

/// Form check on a username: present, and of an accepted length.
pub fn username_offline_check(username: &str) -> (r: Result<(), AccountErrorReason>)
    ensures
        r == failure_of(username_form_error(username@)),
{
    let n = char_count(username);
    if n == 0 {
        Err(AccountErrorReason::EmptyUsername)
    } else if n < MIN_USERNAME_LEN || n > MAX_USERNAME_LEN {
        Err(AccountErrorReason::InvalidLengthUsername)
    } else {
        Ok(())
    }
}

/// Form check on a password and its confirmation: present, equal, and of an
/// accepted length.
pub fn password_offline_check(password: &str, password_confirm: &str) -> (r: Result<
    (),
    AccountErrorReason,
>)
    ensures
        r == failure_of(password_form_error(password@, password_confirm@)),
{
    let n = char_count(password);
    let nc = char_count(password_confirm);
    if n == 0 && nc == 0 {
        Err(AccountErrorReason::NoPassword)
    } else if !same_text(password, password_confirm) {
        Err(AccountErrorReason::BadConfirmPassword)
    } else if n < MIN_PASSWORD_LEN || n > MAX_PASSWORD_LEN {
        Err(AccountErrorReason::InvalidLengthPassword)
    } else {
        Ok(())
    }
}

/// A character of the older account rules for names: letter, digit or underscore.
pub open spec fn is_name_char(c: char) -> bool {
    is_ascii_alnum(c) || c == '_'
}

/// A printable ASCII character other than the space (0x21 to 0x7E).
pub open spec fn is_graphic(c: char) -> bool {
    '!' <= c && c <= '~'
}

/// Whether `s` holds a character other than a letter, digit or underscore.
pub fn invalid_username(s: &str) -> (r: bool)
    ensures
        r == exists|i: int| 0 <= i < s@.len() && !is_name_char(#[trigger] s@[i]),
{
    let n = s.unicode_len();
    let mut i: usize = 0;
    while i < n
        invariant
            n == s@.len(),
            i <= n,
            forall|j: int| 0 <= j < i ==> is_name_char(#[trigger] s@[j]),
        decreases n - i,
    {
        let c = s.get_char(i);
        if !is_ascii_alnum_char(c) && c != '_' {
            return true;
        }
        i = i + 1;
    }
    false
}

/// Whether `s` holds a character outside printable ASCII, the space included.
pub fn invalid_password(s: &str) -> (r: bool)
    ensures
        r == exists|i: int| 0 <= i < s@.len() && !is_graphic(#[trigger] s@[i]),
{
    let n = s.unicode_len();
    let mut i: usize = 0;
    while i < n
        invariant
            n == s@.len(),
            i <= n,
            forall|j: int| 0 <= j < i ==> is_graphic(#[trigger] s@[j]),
        decreases n - i,
    {
        let c = s.get_char(i);
        if !('!' <= c && c <= '~') {
            return true;
        }
        i = i + 1;
    }
    false
}

} // verus!
