//! Pure delivery logic: the signed webhook payload, the response-handling
//! policy with its downtime tracking, the endpoint-health decision after a
//! transport error, and the per-post choice of which subscribers to notify.
//! The caller performs the HTTP, DNS and clock work and feeds the outcomes
//! in as plain values.

use vstd::prelude::*;
use vstd::hash_set::HashSetWithView;
use crate::codec::{hex_encode, hex_of};
use crate::bulk_search_tree::distinct_ids;
use ed25519_dalek::Signer;

verus! {

broadcast use {vstd::std_specs::hash::group_hash_axioms, vstd::seq_lib::lemma_seq_contains_after_push};

/// How long a subscriber may stay down before eviction: two hours, in
/// milliseconds.
pub const DOWNTIME_LIMIT_MILLIS: i64 = 7200000;

/// The Ed25519 signature of `msg` under the 32-byte secret key `key`.
/// Ed25519 signing is deterministic: the result depends on the key and the
/// message alone.
pub uninterp spec fn ed25519_sig_of(key: Seq<u8>, msg: Seq<u8>) -> Seq<u8>;

/// Relies on `ed25519_dalek::SigningKey::from_bytes` and `Signer::sign`:
/// every 32-byte value is accepted as a secret key, signing never fails, and
/// the 64-byte signature is a deterministic function of key and message.
#[verifier::external_body]
fn sign_message(key: &[u8], msg: &[u8]) -> (r: Vec<u8>)
    requires
        key@.len() == 32,
    ensures
        r@ == ed25519_sig_of(key@, msg@),
        r@.len() == 64,
{
    let arr: [u8; 32] = key.try_into().unwrap();
    let signer = ed25519_dalek::SigningKey::from_bytes(&arr);
    signer.sign(msg).to_vec()
}

/// The signature header value for one notification: the lowercase hex of the
/// Ed25519 signature over the decimal timestamp text followed by the JSON
/// body.  The body itself is sent unsigned; only the header carries the
/// signature.
pub fn sign_notification(private_key: &[u8], timestamp: &[u8], body: &[u8]) -> (r: String)
    requires
        private_key@.len() == 32,
    ensures
        r@ == hex_of(ed25519_sig_of(private_key@, timestamp@ + body@)),
{
    let mut msg: Vec<u8> = vstd::slice::slice_to_vec(timestamp);
    msg.extend_from_slice(body);
    proof {
        assert(msg@ =~= timestamp@ + body@);
    }
    let sig = sign_message(private_key, msg.as_slice());
    hex_encode(sig.as_slice())
}

/// What the delivery worker does with one webhook response.
#[derive(Clone, Copy, PartialEq, Eq, Structural, Debug)]
pub enum ResponseAction {
    /// A success: mark the subscriber healthy again.
    ClearDowntime,
    /// Evict the subscriber from index, identifier map and store.
    Evict,
    /// First failure while healthy: record the current time as the start of
    /// the downtime.
    StartDowntime,
    /// Still failing, but within the allowed downtime: do nothing yet.
    KeepWaiting,
}

/// The response policy: a 2xx status clears the downtime; 403 and 429 evict
/// at once; any other status starts the downtime clock when the subscriber
/// was healthy, and evicts once it has been down for more than the limit.
pub fn response_action(status: u16, downtime_started: i64, now_millis: i64) -> (r: ResponseAction)
    ensures
        200 <= status <= 299 ==> r == ResponseAction::ClearDowntime,
        !(200 <= status <= 299) && (status == 403 || status == 429) ==> r
            == ResponseAction::Evict,
        !(200 <= status <= 299) && status != 403 && status != 429 && downtime_started == 0 ==> r
            == ResponseAction::StartDowntime,
        !(200 <= status <= 299) && status != 403 && status != 429 && downtime_started != 0 ==> r
            == (if now_millis - downtime_started > DOWNTIME_LIMIT_MILLIS {
            ResponseAction::Evict
        } else {
            ResponseAction::KeepWaiting
        }),
{
    if 200 <= status && status <= 299 {
        ResponseAction::ClearDowntime
    } else if status == 403 || status == 429 {
        ResponseAction::Evict
    } else if downtime_started == 0 {
        ResponseAction::StartDowntime
    } else {
        let elapsed: i128 = (now_millis as i128) - (downtime_started as i128);
        if elapsed > DOWNTIME_LIMIT_MILLIS as i128 {
            ResponseAction::Evict
        } else {
            ResponseAction::KeepWaiting
        }
    }
}

/// What to do about a subscriber's endpoint after a transport error.
#[derive(Clone, Copy, PartialEq, Eq, Structural, Debug)]
pub enum EndpointVerdict {
    /// The endpoint cannot even be parsed: evict.
    Evict,
    /// The host is a literal IP address: no DNS check, keep the subscriber.
    Keep,
    /// A name: look it up, then decide with `dns_verdict`.
    CheckDns,
}

/// After a transport error: an unparseable endpoint evicts at once, a
/// literal-IP host is left alone, and a named host is checked in DNS.
pub fn classify_transport_failure(endpoint_parsed: bool, host_is_ip_literal: bool) -> (r:
    EndpointVerdict)
    ensures
        r == EndpointVerdict::Evict <==> !endpoint_parsed,
        r == EndpointVerdict::Keep <==> (endpoint_parsed && host_is_ip_literal),
        r == EndpointVerdict::CheckDns <==> (endpoint_parsed && !host_is_ip_literal),
{
    if !endpoint_parsed {
        EndpointVerdict::Evict
    } else if host_is_ip_literal {
        EndpointVerdict::Keep
    } else {
        EndpointVerdict::CheckDns
    }
}

/// The DNS half of the endpoint-health check: evict exactly when the lookup
/// failed or returned no addresses.
pub fn dns_verdict(lookup_succeeded: bool, any_address: bool) -> (evict: bool)
    ensures
        evict == (!lookup_succeeded || !any_address),
{
    !lookup_succeeded || !any_address
}

/// Chooses which subscribers one post is delivered to: every substring match
/// and every mention, each exactly once.  The substring matches come first
/// and seed the already-notified set that the mention pass consults.
pub fn plan_notifications(matched: &Vec<u64>, mentioned: &Vec<u64>) -> (r: Vec<u64>)
    requires
        distinct_ids(matched@),
    ensures
        distinct_ids(r@),
        forall|id: u64| #[trigger] r@.contains(id) == (matched@.contains(id) || mentioned@.contains(id)),
        r@.take(matched@.len() as int) == matched@,
{
    let mut seen: HashSetWithView<u64> = HashSetWithView::new();
    let mut out: Vec<u64> = Vec::new();
    let mut i: usize = 0;
    while i < matched.len()
        invariant
            i <= matched@.len(),
            out@ == matched@.take(i as int),
            distinct_ids(matched@),
            forall|id: u64| seen@.contains(id) == out@.contains(id),
        decreases matched@.len() - i,
    {
        let id = matched[i];
        seen.insert(id);
        out.push(id);
        proof {
            assert(out@ =~= matched@.take(i + 1));
        }
        i += 1;
    }
    proof {
        assert(matched@.take(matched@.len() as int) =~= matched@);
        assert(out@ == matched@);
    }
    let mut j: usize = 0;
    while j < mentioned.len()
        invariant
            j <= mentioned@.len(),
            distinct_ids(out@),
            matched@.len() <= out@.len(),
            out@.take(matched@.len() as int) == matched@,
            forall|id: u64| seen@.contains(id) == out@.contains(id),
            forall|id: u64|
                out@.contains(id) == (matched@.contains(id) || mentioned@.take(j as int).contains(
                    id,
                )),
        decreases mentioned@.len() - j,
    {
        let id = mentioned[j];
        let ghost pre_out = out@;
        let was_new = seen.insert(id);
        if was_new {
            out.push(id);
            proof {
                lemma_distinct_push(pre_out, id);
                assert(out@.take(matched@.len() as int) =~= pre_out.take(matched@.len() as int));
            }
        }
        proof {
            assert(mentioned@.take(j + 1) =~= mentioned@.take(j as int).push(id));
        }
        j += 1;
    }
    proof {
        assert(mentioned@.take(mentioned@.len() as int) =~= mentioned@);
    }
    out
}

/// Pushing a fresh id keeps a list duplicate free.
proof fn lemma_distinct_push(s: Seq<u64>, x: u64)
    requires
        distinct_ids(s),
        !s.contains(x),
    ensures
        distinct_ids(s.push(x)),
{
    assert forall|a: int, b: int| 0 <= a < b < s.push(x).len() implies s.push(x)[a] != s.push(
        x,
    )[b] by {
        if b == s.len() {
            assert(s[a] == s.push(x)[a]);
            assert(s.contains(s[a]));
        }
    }
}

} // verus!
