//! The authorization decision of the administrative reload endpoint: the
//! shared secret is compared in constant time, and the outcome maps to an
//! HTTP status.

use vstd::prelude::*;

verus! {

/// The outcome of one admin request.
#[derive(Clone, Copy, PartialEq, Eq, Structural, Debug)]
pub enum AdminResponse {
    /// The secret matched and the reload was started.
    NoContent,
    /// No authorization header was sent.
    BadRequest,
    /// An authorization header was sent but did not match.
    Unauthorized,
}

/// Compares two byte strings in constant time for their length: every byte
/// is visited, with no early exit on a mismatch, so the running time leaks
/// nothing about where the inputs differ.
pub fn constant_time_eq(a: &[u8], b: &[u8]) -> (r: bool)
    ensures
        r == (a@ == b@),
{
    if a.len() != b.len() {
        proof {
            assert(a@ != b@);
        }
        return false;
    }
    let mut acc: u8 = 0;
    let mut i: usize = 0;
    while i < a.len()
        invariant
            i <= a@.len(),
            a@.len() == b@.len(),
            (acc == 0) <==> (forall|k: int| 0 <= k < i ==> a@[k] == b@[k]),
        decreases a@.len() - i,
    {
        let x = a[i];
        let y = b[i];
        let ghost acc0 = acc;
        acc = acc | (x ^ y);
        proof {
            assert(((acc0 | (x ^ y)) == 0) == (acc0 == 0 && x == y)) by (bit_vector);
        }
        i += 1;
    }
    if acc == 0 {
        proof {
            assert(a@ =~= b@);
        }
        true
    } else {
        false
    }
}

/// The admin route's decision: a missing authorization header is a bad
/// request; a header equal to the shared secret (compared in constant time)
/// accepts; anything else is unauthorized.
pub fn admin_auth(auth: Option<&[u8]>, secret: &[u8]) -> (r: AdminResponse)
    ensures
        (r == AdminResponse::BadRequest) <==> auth is None,
        match auth {
            Some(a) => (r == AdminResponse::NoContent <==> a@ == secret@) && (r
                == AdminResponse::Unauthorized <==> a@ != secret@),
            None => true,
        },
{
    match auth {
        None => AdminResponse::BadRequest,
        Some(a) => {
            if constant_time_eq(a, secret) {
                AdminResponse::NoContent
            } else {
                AdminResponse::Unauthorized
            }
        },
    }
}

/// The HTTP status code for each outcome: 204, 400 or 401.
pub fn admin_status_code(r: &AdminResponse) -> (c: u16)
    ensures
        *r == AdminResponse::NoContent ==> c == 204,
        *r == AdminResponse::BadRequest ==> c == 400,
        *r == AdminResponse::Unauthorized ==> c == 401,
{
    match r {
        AdminResponse::NoContent => 204,
        AdminResponse::BadRequest => 400,
        AdminResponse::Unauthorized => 401,
    }
}

} // verus!
