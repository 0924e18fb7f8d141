use ed25519_dalek::{Signature, SigningKey, Verifier};
use phrase_fanout::admin::{admin_auth, admin_status_code, constant_time_eq, AdminResponse};
use phrase_fanout::delivery::{
    classify_transport_failure, dns_verdict, plan_notifications, response_action,
    sign_notification, EndpointVerdict, ResponseAction, DOWNTIME_LIMIT_MILLIS,
};

#[test]
fn response_success_clears_downtime() {
    assert_eq!(response_action(200, 0, 10), ResponseAction::ClearDowntime);
    assert_eq!(response_action(204, 555, 10), ResponseAction::ClearDowntime);
    assert_eq!(response_action(299, 555, 10), ResponseAction::ClearDowntime);
}

#[test]
fn response_403_and_429_evict() {
    assert_eq!(response_action(403, 0, 10), ResponseAction::Evict);
    assert_eq!(response_action(429, 555, 10), ResponseAction::Evict);
}

#[test]
fn response_other_failures_track_downtime() {
    assert_eq!(response_action(500, 0, 10), ResponseAction::StartDowntime);
    assert_eq!(
        response_action(500, 5, 5 + DOWNTIME_LIMIT_MILLIS),
        ResponseAction::KeepWaiting
    );
    assert_eq!(
        response_action(500, 5, 5 + DOWNTIME_LIMIT_MILLIS + 1),
        ResponseAction::Evict
    );
    assert_eq!(response_action(301, 0, 10), ResponseAction::StartDowntime);
}

#[test]
fn endpoint_health_decision() {
    assert_eq!(classify_transport_failure(false, false), EndpointVerdict::Evict);
    assert_eq!(classify_transport_failure(true, true), EndpointVerdict::Keep);
    assert_eq!(classify_transport_failure(true, false), EndpointVerdict::CheckDns);
    assert!(dns_verdict(false, false));
    assert!(dns_verdict(true, false));
    assert!(!dns_verdict(true, true));
}

#[test]
fn plan_unions_and_deduplicates() {
    let matched = vec![1u64, 2];
    let mentioned = vec![2u64, 3, 3, 1];
    assert_eq!(plan_notifications(&matched, &mentioned), vec![1, 2, 3]);
    assert_eq!(plan_notifications(&Vec::new(), &mentioned), vec![2, 3, 1]);
    assert_eq!(plan_notifications(&matched, &Vec::new()), vec![1, 2]);
}

#[test]
fn signature_verifies_under_the_key() {
    let key = [7u8; 32];
    let sig_hex = sign_notification(&key, b"1700000000", b"{\"a\":1}");
    let sig_bytes = phrase_fanout::codec::hex_decode(sig_hex.as_bytes()).unwrap();
    let signature = Signature::from_slice(&sig_bytes).unwrap();
    let verifying = SigningKey::from_bytes(&key).verifying_key();
    // The signature covers the timestamp text followed by the body.
    assert!(verifying.verify(b"1700000000{\"a\":1}", &signature).is_ok());
    assert!(verifying.verify(b"{\"a\":1}", &signature).is_err());
}

#[test]
fn admin_auth_outcomes() {
    assert_eq!(admin_auth(None, b"secret"), AdminResponse::BadRequest);
    assert_eq!(admin_auth(Some(b"secret"), b"secret"), AdminResponse::NoContent);
    assert_eq!(admin_auth(Some(b"wrong"), b"secret"), AdminResponse::Unauthorized);
    assert_eq!(admin_status_code(&AdminResponse::NoContent), 204);
    assert_eq!(admin_status_code(&AdminResponse::BadRequest), 400);
    assert_eq!(admin_status_code(&AdminResponse::Unauthorized), 401);
}

#[test]
fn constant_time_eq_compares_bytes() {
    assert!(constant_time_eq(b"abc", b"abc"));
    assert!(!constant_time_eq(b"abc", b"abd"));
    assert!(!constant_time_eq(b"abc", b"ab"));
    assert!(constant_time_eq(b"", b""));
}
