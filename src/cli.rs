//! Answers to the yes/no questions of the console front end.

use vstd::prelude::*;
use vstd::string::StringSliceAdditionalSpecFns;

verus! {

/// ASCII codes of the letters that replies are made of.
pub const UPPER_Y: u8 = 89;
pub const LOWER_Y: u8 = 121;
pub const LOWER_E: u8 = 101;
pub const LOWER_S: u8 = 115;
pub const UPPER_N: u8 = 78;
pub const LOWER_N: u8 = 110;
pub const LOWER_O: u8 = 111;

/// A reply to a yes/no question.
#[derive(Debug, PartialEq, Eq, Structural)]
pub enum UserResponse {
    Yes,
    No,
    Invalid,
}

/// The bytes of "Yes", "yes", "Y" or "y".
pub open spec fn is_yes(b: Seq<u8>) -> bool {
    ||| b == seq![UPPER_Y, LOWER_E, LOWER_S]
    ||| b == seq![LOWER_Y, LOWER_E, LOWER_S]
    ||| b == seq![UPPER_Y]
    ||| b == seq![LOWER_Y]
}

/// The bytes of "No", "no", "N" or "n".
pub open spec fn is_no(b: Seq<u8>) -> bool {
    ||| b == seq![UPPER_N, LOWER_O]
    ||| b == seq![LOWER_N, LOWER_O]
    ||| b == seq![UPPER_N]
    ||| b == seq![LOWER_N]
}

/// Whether `b` holds exactly the bytes of `w`.
fn bytes_are(b: &[u8], w: &[u8]) -> (r: bool)
    ensures
        r == (b@ == w@),
{
    if b.len() != w.len() {
        return false;
    }
    let mut i: usize = 0;
    while i < b.len()
        invariant
            b@.len() == w@.len(),
            i <= b@.len(),
            forall|j: int| 0 <= j < i ==> b@[j] == w@[j],
        decreases b@.len() - i,
    {
        if b[i] != w[i] {
            return false;
        }
        i = i + 1;
    }
    proof {
        assert(b@ =~= w@);
    }
    true
}

/// Read a reply: "Yes", "yes", "Y" and "y" accept, "No", "no", "N" and "n"
/// decline, anything else is invalid.
pub fn parse_response(input: &str) -> (r: UserResponse)
    ensures
        is_yes(input.spec_bytes()) ==> r == UserResponse::Yes,
        is_no(input.spec_bytes()) ==> r == UserResponse::No,
        !is_yes(input.spec_bytes()) && !is_no(input.spec_bytes()) ==> r == UserResponse::Invalid,
{
    let b = input.as_bytes();
    let yes_full: [u8; 3] = [UPPER_Y, LOWER_E, LOWER_S];
    let yes_low: [u8; 3] = [LOWER_Y, LOWER_E, LOWER_S];
    let yes_short: [u8; 1] = [UPPER_Y];
    let yes_short_low: [u8; 1] = [LOWER_Y];
    let no_full: [u8; 2] = [UPPER_N, LOWER_O];
    let no_low: [u8; 2] = [LOWER_N, LOWER_O];
    let no_short: [u8; 1] = [UPPER_N];
    let no_short_low: [u8; 1] = [LOWER_N];
    proof {
        assert(yes_full@ =~= seq![UPPER_Y, LOWER_E, LOWER_S]);
        assert(yes_low@ =~= seq![LOWER_Y, LOWER_E, LOWER_S]);
        assert(yes_short@ =~= seq![UPPER_Y]);
        assert(yes_short_low@ =~= seq![LOWER_Y]);
        assert(no_full@ =~= seq![UPPER_N, LOWER_O]);
        assert(no_low@ =~= seq![LOWER_N, LOWER_O]);
        assert(no_short@ =~= seq![UPPER_N]);
        assert(no_short_low@ =~= seq![LOWER_N]);
    }
    if bytes_are(b, yes_full.as_slice()) || bytes_are(b, yes_low.as_slice()) || bytes_are(b, yes_short.as_slice())
        || bytes_are(b, yes_short_low.as_slice()) {
        UserResponse::Yes
    } else if bytes_are(b, no_full.as_slice()) || bytes_are(b, no_low.as_slice()) || bytes_are(b, no_short.as_slice())
        || bytes_are(b, no_short_low.as_slice()) {
        UserResponse::No
    } else {
        UserResponse::Invalid
    }
}

/// Whether `n` is an accepted width or height: 10 to 50 cells.
pub fn accepted_size(n: usize) -> (r: bool)
    ensures
        r == (10 <= n <= 50),
{
    10 <= n && n <= 50
}

/// Whether `n` is an accepted percentage of extra openings: 0 to 50.
pub fn accepted_open_percent(n: u8) -> (r: bool)
    ensures
        r == (n <= 50),
{
    n <= 50
}

} // verus!
