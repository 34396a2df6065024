//! What the library takes from the standard library and from other crates, and what it
//! believes of it.

use aes_gcm::aead::Aead;
use aes_gcm::{Aes256Gcm, KeyInit, Nonce};
use crate::format::two_digits;
use byteorder::{BigEndian, ReadBytesExt, WriteBytesExt};
use chrono::{Datelike, Local, NaiveDate, TimeZone};
use rand::RngCore;
use regex::Regex;
use std::time::{SystemTime, UNIX_EPOCH};
use vstd::prelude::*;
use vstd::utf8::*;

verus! {

/// `String::push` appends one character.
pub assume_specification[ String::push ](s: &mut String, c: char)
    ensures
        final(s)@ == old(s)@.push(c),
;

/// `String::from_utf8` gives the text that valid UTF-8 encodes, and nothing for other bytes.
#[verifier::external_body]
pub(crate) fn text_of_utf8(bytes: Vec<u8>) -> (r: Option<String>)
    ensures
        r is Some <==> valid_utf8(bytes@),
        r is Some ==> r->0@ == decode_utf8(bytes@),
{
    String::from_utf8(bytes).ok()
}

/// The text that bytes encode, with a replacement character for what is not valid UTF-8.
pub uninterp spec fn utf8_lossy(bytes: Seq<u8>) -> Seq<char>;

/// The text that bytes encode, whether they are valid UTF-8 or not.
pub open spec fn lossy(bytes: Seq<u8>) -> Seq<char> {
    if valid_utf8(bytes) {
        decode_utf8(bytes)
    } else {
        utf8_lossy(bytes)
    }
}

/// `String::from_utf8_lossy`: on valid UTF-8 it gives the text that the bytes encode.
#[verifier::external_body]
pub(crate) fn lossy_text(bytes: &[u8]) -> (r: String)
    ensures
        r@ == utf8_lossy(bytes@),
        valid_utf8(bytes@) ==> r@ == decode_utf8(bytes@),
{
    String::from_utf8_lossy(bytes).into_owned()
}

/// The characters that are alphabetic or numeric by Unicode.
pub uninterp spec fn unicode_alphanumeric(c: char) -> bool;

/// `char::is_alphanumeric`: of the ASCII characters it holds of the letters and the digits.
pub assume_specification[ char::is_alphanumeric ](c: char) -> (r: bool)
    ensures
        r == unicode_alphanumeric(c),
        (c as u32) < 0x80 ==> r == (('0' <= c && c <= '9') || ('A' <= c && c <= 'Z') || ('a' <= c
            && c <= 'z')),
;

/// The lower-case form of a text by Unicode.
pub uninterp spec fn unicode_lowercase(s: Seq<char>) -> Seq<char>;

/// `str::to_lowercase`.
pub assume_specification[ str::to_lowercase ](s: &str) -> (r: String)
    ensures
        r@ == unicode_lowercase(s@),
;

/// What a group of a regular expression matched, for each match in a text; nothing where the
/// expression is not a valid one.
pub uninterp spec fn regex_group(pattern: Seq<char>, group: int, text: Seq<char>) -> Option<
    Seq<Option<Seq<char>>>,
>;

/// `Regex::captures_iter`, and of each match the group `group`.
#[verifier::external_body]
pub(crate) fn captured(pattern: &str, group: usize, text: &str) -> (r: Option<Vec<Option<String>>>)
    ensures
        r is Some <==> regex_group(pattern@, group as int, text@) is Some,
        r is Some ==> Seq::new(
            r->0@.len(),
            |i: int|
                match r->0@[i] {
                    Some(t) => Some(t@),
                    None => None,
                },
        ) == regex_group(pattern@, group as int, text@)->0,
{
    let re = Regex::new(pattern).ok()?;
    let groups = re.captures_iter(text).map(|c| c.get(group).map(|m| m.as_str().to_string()));
    Some(groups.collect())
}

/// `SystemTime::now`, in whole seconds since the epoch; nothing where the clock stands before it.
/// Nothing is said of the number: it is the time.
#[verifier::external_body]
pub(crate) fn clock_seconds() -> (r: Option<u64>) {
    SystemTime::now().duration_since(UNIX_EPOCH).ok().map(|d| d.as_secs())
}

/// `dirs::home_dir`, as bytes. Nothing is said of the path: it is the environment's.
#[verifier::external_body]
pub(crate) fn home_directory() -> (r: Option<Vec<u8>>) {
    dirs::home_dir().map(|p| p.into_os_string().into_encoded_bytes())
}

/// The ciphertext, tag included, that AES-256-GCM makes of a plaintext without associated data.
pub uninterp spec fn aes256_gcm_seal(key: Seq<u8>, nonce: Seq<u8>, plaintext: Seq<u8>) -> Seq<u8>;

/// The plaintext that AES-256-GCM finds in a ciphertext, or nothing where the tag does not fit.
pub uninterp spec fn aes256_gcm_open(
    key: Seq<u8>,
    nonce: Seq<u8>,
    ciphertext: Seq<u8>,
) -> Option<Seq<u8>>;

/// `Aes256Gcm::new_from_slice` accepts a key exactly when it has 32 bytes.
#[verifier::external_body]
pub(crate) fn key_fits(key: &[u8]) -> (fits: bool)
    ensures
        fits == (key@.len() == 32),
{
    Aes256Gcm::new_from_slice(key).is_ok()
}

/// `Aead::encrypt` of `Aes256Gcm`: it succeeds on a plaintext of this size, appends a tag of 16
/// bytes, and what it makes is opened again under the same key and nonce.
#[verifier::external_body]
pub(crate) fn seal(key: &[u8], nonce: &[u8], plaintext: &[u8]) -> (r: Option<Vec<u8>>)
    requires
        key@.len() == 32,
        nonce@.len() == 12,
        plaintext@.len() <= 0x4000_0000,
    ensures
        r is Some,
        r->0@ == aes256_gcm_seal(key@, nonce@, plaintext@),
        r->0@.len() == plaintext@.len() + 16,
        aes256_gcm_open(key@, nonce@, r->0@) == Some(plaintext@),
{
    let cipher = Aes256Gcm::new_from_slice(key).ok()?;
    cipher.encrypt(Nonce::from_slice(nonce), plaintext).ok()
}

/// `Aead::decrypt` of `Aes256Gcm`: what it gives back is 16 bytes shorter than the ciphertext.
#[verifier::external_body]
pub(crate) fn open(key: &[u8], nonce: &[u8], ciphertext: &[u8]) -> (r: Option<Vec<u8>>)
    requires
        key@.len() == 32,
        nonce@.len() == 12,
        ciphertext@.len() <= 0x4000_0000,
    ensures
        r is Some <==> aes256_gcm_open(key@, nonce@, ciphertext@) is Some,
        r matches Some(pt) ==> aes256_gcm_open(key@, nonce@, ciphertext@) == Some(pt@) && pt@.len()
            + 16 == ciphertext@.len(),
{
    let cipher = Aes256Gcm::new_from_slice(key).ok()?;
    cipher.decrypt(Nonce::from_slice(nonce), ciphertext).ok()
}

/// `RngCore::fill_bytes` of the thread's generator overwrites every byte and leaves the length.
/// Nothing is said of the bytes: they are random. It panics where the system has no random bytes.
#[verifier::external_body]
pub(crate) fn fill_random(buf: &mut Vec<u8>)
    ensures
        final(buf)@.len() == old(buf)@.len(),
{
    rand::thread_rng().fill_bytes(buf)
}

/// `ReadBytesExt::read_u32::<BigEndian>` on a byte slice reads the first four bytes, the most
/// significant first, and fails where there are fewer.
#[verifier::external_body]
pub(crate) fn read_u32_be(bytes: &[u8]) -> (v: Option<u32>)
    ensures
        v is Some <==> bytes@.len() >= 4,
        v matches Some(n) ==> n == bytes@[0] * 0x100_0000 + bytes@[1] * 0x1_0000 + bytes@[2] * 0x100
            + bytes@[3],
{
    let mut reader = bytes;
    reader.read_u32::<BigEndian>().ok()
}

/// `WriteBytesExt::write_u32::<BigEndian>` on a vector appends four bytes, the most significant
/// first, and does not fail.
#[verifier::external_body]
pub(crate) fn write_u32_be(out: &mut Vec<u8>, n: u32) -> (done: bool)
    ensures
        done,
        final(out)@ == old(out)@ + seq![
            (n / 0x100_0000) as u8,
            (n / 0x1_0000 % 0x100) as u8,
            (n / 0x100 % 0x100) as u8,
            (n % 0x100) as u8,
        ],
{
    out.write_u32::<BigEndian>(n).is_ok()
}

/// Whether a password is the one that a bcrypt hash was made of; nothing where the hash is not a
/// valid one.
pub uninterp spec fn bcrypt_verifies(password: Seq<char>, hash: Seq<char>) -> Option<bool>;

/// `bcrypt::verify`.
#[verifier::external_body]
pub(crate) fn password_fits(password: &str, hash: &str) -> (r: Option<bool>)
    ensures
        r == bcrypt_verifies(password@, hash@),
{
    bcrypt::verify(password, hash).ok()
}

/// What a bcrypt hash begins with: the version and the cost.
pub open spec fn bcrypt_hash_head(cost: nat) -> Seq<char> {
    "$2b$"@ + two_digits(cost) + "$"@
}

/// `bcrypt::hash`: it fails on a cost below 4 or above 31, and where the system has no random
/// bytes; what it makes of a password names the cost, and verifies that password. Nothing more is
/// said of the hash: its salt is random.
#[verifier::external_body]
pub(crate) fn password_hash(password: &str, cost: u32) -> (r: Option<String>)
    ensures
        r is Some ==> 4 <= cost <= 31,
        r is Some ==> bcrypt_hash_head(cost as nat).is_prefix_of(r->0@),
        r is Some ==> bcrypt_verifies(password@, r->0@) == Some(true),
{
    bcrypt::hash(password, cost).ok()
}

/// A stamp of the time, down to the nanosecond: a year of four digits, or of a sign and more; two
/// digits each for month and day; a `T`; two digits each for hour, minute and second; a dot and
/// nine digits.
pub open spec fn is_stamp(s: Seq<char>) -> bool {
    &&& s.len() >= 25
    &&& s[s.len() - 17] == 'T'
    &&& s[s.len() - 10] == '.'
    &&& forall|i: int|
        0 <= i < s.len() && i != s.len() - 17 && i != s.len() - 10 ==> {
            ||| '0' <= #[trigger] s[i] && s[i] <= '9'
            ||| i == 0 && s.len() > 25 && (s[i] == '+' || s[i] == '-')
        }
}

/// `Local::now`, formatted: this format gives a stamp. Nothing more is said of it: it is the time.
/// It panics where the clock stands before the epoch, or where the time zone of the machine cannot
/// be used.
#[verifier::external_body]
pub(crate) fn local_stamp(format: &str) -> (r: String)
    requires
        format@ == "%Y%m%dT%H%M%S%.9f"@,
    ensures
        is_stamp(r@),
{
    Local::now().format(format).to_string()
}

/// The date and time so many seconds after the beginning of 1970, by the calendar and without
/// regard to any time zone, in a format.
pub uninterp spec fn civil_text(seconds: int, format: Seq<char>) -> Seq<char>;

/// The timestamps of which there is a date: those of the years -262143 to 262142.
pub open spec fn datable(timestamp: int) -> bool {
    -8_334_601_228_800 <= timestamp <= 8_210_266_876_799
}

/// `text` is the local time of `timestamp` in a time zone that is less than a day from UTC.
pub open spec fn local_text(timestamp: int, text: Seq<char>) -> bool {
    exists|seconds: int|
        timestamp - 86_400 < seconds < timestamp + 86_400 && text == #[trigger] civil_text(
            seconds,
            "%Y-%m-%d %H:%M:%S"@,
        )
}

/// `TimeZone::timestamp_opt` of `Local`, formatted: there is a local time for exactly the
/// timestamps whose year `NaiveDate` can hold, and it is the date and time of the timestamp,
/// shifted by less than a day. How far is not said: that is the time zone of the machine. It panics
/// where that time zone cannot be used.
#[verifier::external_body]
pub(crate) fn local_time(timestamp: i64, format: &str) -> (r: Option<String>)
    requires
        format@ == "%Y-%m-%d %H:%M:%S"@,
    ensures
        r is Some <==> datable(timestamp as int),
        r is Some ==> exists|seconds: int|
            timestamp - 86_400 < seconds < timestamp + 86_400 && r->0@ == #[trigger] civil_text(
                seconds,
                format@,
            ),
{
    Local.timestamp_opt(timestamp, 0).single().map(|t| t.format(format).to_string())
}

/// The date that a text is by a format, in days since the day before 1 January of the year 1, or
/// nothing where it is not one.
pub uninterp spec fn date_days(text: Seq<char>, format: Seq<char>) -> Option<i32>;

/// `NaiveDate::parse_from_str`; of the date, `Datelike::num_days_from_ce`.
#[verifier::external_body]
pub(crate) fn parsed_date(text: &str, format: &str) -> (r: Option<i32>)
    ensures
        r == date_days(text@, format@),
{
    NaiveDate::parse_from_str(text, format).ok().map(|d| d.num_days_from_ce())
}

} // verus!
