use vstd::arithmetic::power2::pow2;
use vstd::prelude::*;

verus! {

/// How long, in days, a client keeps its voter token; refreshed on every
/// response.
pub const TOKEN_MAX_AGE_DAYS: i64 = 365;

/// What `uuid::Uuid::parse_str` makes of a text, as a 128-bit value.
pub uninterp spec fn uuid_parse(s: Seq<char>) -> Option<u128>;

/// A random (version 4, RFC 4122 variant) identifier: bits 76..80 hold 4
/// and bits 62..64 hold 0b10.
pub open spec fn is_random_v4(u: u128) -> bool {
    &&& (u as int / 0x1000_0000_0000_0000_0000) % 16 == 4
    &&& (u as int / 0x4000_0000_0000_0000) % 4 == 2
}

pub open spec fn hex_digits() -> Seq<char> {
    seq!['0', '1', '2', '3', '4', '5', '6', '7', '8', '9', 'a', 'b', 'c', 'd', 'e', 'f']
}

/// The `j`-th hexadecimal digit of `u`, from the most significant one.
pub open spec fn nibble(u: u128, j: int) -> int {
    (u as int / pow2((4 * (31 - j)) as nat) as int) % 16
}

pub open spec fn is_hyphen_pos(i: int) -> bool {
    i == 8 || i == 13 || i == 18 || i == 23
}

/// Which digit stands at position `i` of the hyphenated form.
pub open spec fn digit_pos(i: int) -> int {
    if i < 8 {
        i
    } else if i < 13 {
        i - 1
    } else if i < 18 {
        i - 2
    } else if i < 23 {
        i - 3
    } else {
        i - 4
    }
}

/// The hyphenated lower-case form of `u`: 32 hex digits, most significant
/// first, grouped 8-4-4-4-12.
pub open spec fn token_text(u: u128) -> Seq<char> {
    Seq::new(
        36,
        |i: int|
            if is_hyphen_pos(i) {
                '-'
            } else {
                hex_digits()[nibble(u, digit_pos(i))]
            },
    )
}

/// Relies on `uuid::Uuid::parse_str` and `Uuid::as_u128`: the identifier
/// that a text spells, if it spells one.
#[verifier::external_body]
fn parse_token(s: &str) -> (r: Option<u128>)
    ensures
        r == uuid_parse(s@),
{
    match uuid::Uuid::parse_str(s) {
        Ok(u) => Some(u.as_u128()),
        Err(_) => None,
    }
}

/// Relies on `uuid::Uuid::new_v4`, which masks a random value to carry the
/// version 4 and RFC 4122 variant bits.
#[verifier::external_body]
fn fresh_token() -> (r: u128)
    ensures
        is_random_v4(r),
{
    uuid::Uuid::new_v4().as_u128()
}

/// Relies on `uuid::Uuid::from_u128` and its `Display`, which writes the
/// hyphenated lower-case form.
#[verifier::external_body]
fn token_string(u: u128) -> (r: String)
    ensures
        r@ == token_text(u),
{
    uuid::Uuid::from_u128(u).to_string()
}

/// The voter a request speaks for, and whether the token was issued now.
#[derive(Clone, Copy, Debug, PartialEq, Eq, Structural)]
pub struct VoterResolution {
    pub voter: u128,
    pub is_new: bool,
}

impl VoterResolution {
    /// The token text to hand back to the client, with a refreshed expiry of
    /// `TOKEN_MAX_AGE_DAYS`, on every response.
    pub fn token(&self) -> (r: String)
        ensures
            r@ == token_text(self.voter),
    {
        token_string(self.voter)
    }
}

/// Keeps a well-formed presented token, else takes `fresh`.
pub fn resolve_parsed(parsed: Option<u128>, fresh: u128) -> (r: VoterResolution)
    ensures
        parsed matches Some(u) ==> r == (VoterResolution { voter: u, is_new: false }),
        parsed is None ==> r == (VoterResolution { voter: fresh, is_new: true }),
{
    match parsed {
        Some(u) => VoterResolution { voter: u, is_new: false },
        None => VoterResolution { voter: fresh, is_new: true },
    }
}

/// The voter behind a presented token. A missing or malformed token is
/// replaced by a fresh random one; this never fails.
pub fn resolve(presented: Option<&str>) -> (r: VoterResolution)
    ensures
        match presented {
            Some(s) => match uuid_parse(s@) {
                Some(u) => r == (VoterResolution { voter: u, is_new: false }),
                None => r.is_new && is_random_v4(r.voter),
            },
            None => r.is_new && is_random_v4(r.voter),
        },
{
    let parsed = match presented {
        Some(s) => parse_token(s),
        None => None,
    };
    match parsed {
        Some(u) => resolve_parsed(parsed, 0),
        None => resolve_parsed(None, fresh_token()),
    }
}

} // verus!
