use std::time::{SystemTime, UNIX_EPOCH};

use stratsync::auth::bearer_user;
use stratsync::feasibility::{fits_charges, peak_occupancy};
use stratsync::ids::parse_string_to_uuid;
use stratsync::jobs::{job_from_tag, job_tag};
use stratsync::session::op_elevate;
use stratsync::types::{Job, ServiceError, StrategyContext};

const TOKEN: u128 = 0x1000;

fn bare_ctx() -> StrategyContext {
    StrategyContext {
        raid_id: 0x5000,
        peers: vec![TOKEN],
        elevated_peers: Vec::new(),
        players: Vec::new(),
        damage_options: Vec::new(),
        entries: Vec::new(),
    }
}

#[test]
fn peak_occupancy_windows() {
    assert_eq!(peak_occupancy(&vec![], 60), 0);
    assert_eq!(peak_occupancy(&vec![0, 60, 120], 60), 1);
    assert_eq!(peak_occupancy(&vec![0, 59], 60), 2);
    assert_eq!(peak_occupancy(&vec![0, 30, 45], 60), 3);
    // a zero cooldown occupies nothing
    assert_eq!(peak_occupancy(&vec![0, 0], 0), 0);
    // negative start times count the countdown phase
    assert_eq!(peak_occupancy(&vec![-1800, -1770], 60), 2);
}

#[test]
fn fits_charges_boundaries() {
    assert!(fits_charges(&vec![0, 60], 60, 1));
    assert!(!fits_charges(&vec![0, 59], 60, 1));
    assert!(fits_charges(&vec![0, 59], 60, 2));
    assert!(!fits_charges(&vec![0], 60, 0));
}

#[test]
fn uuid_parsing() {
    let v = parse_string_to_uuid("a1a2a3a4-b1b2-c1c2-d1d2-d3d4d5d6d7d8").unwrap();
    assert_eq!(v, 0xa1a2a3a4b1b2c1c2d1d2d3d4d5d6d7d8);
    assert_eq!(parse_string_to_uuid("not-an-id").unwrap_err(), ServiceError::InvalidArgument);
}

#[test]
fn job_tags_round_trip() {
    assert_eq!(job_from_tag(&"PLD".to_string()), Some(Job::PLD));
    assert_eq!(job_from_tag(&"VPR".to_string()), Some(Job::VPR));
    assert_eq!(job_from_tag(&"LB".to_string()), Some(Job::LB));
    assert_eq!(job_from_tag(&"XYZ".to_string()), None);
    for j in [Job::PLD, Job::WAR, Job::SCH, Job::LB, Job::VPR] {
        assert_eq!(job_from_tag(&job_tag(j)), Some(j));
    }
}

#[test]
fn elevation_checks_password() {
    // the stored hash comes from bcrypt itself, so the wrapper is held to
    // the real verifier
    let hash = bcrypt::hash("open sesame", 4).unwrap();
    let mut c = bare_ctx();
    assert_eq!(
        op_elevate(&mut c, TOKEN, "wrong", true, Some(hash.as_str())).unwrap_err(),
        ServiceError::PermissionDenied
    );
    assert!(c.elevated_peers.is_empty());
    assert_eq!(
        op_elevate(&mut c, TOKEN, "open sesame", false, Some(hash.as_str())).unwrap_err(),
        ServiceError::PermissionDenied
    );
    assert_eq!(
        op_elevate(&mut c, TOKEN, "open sesame", true, None).unwrap_err(),
        ServiceError::PermissionDenied
    );
    op_elevate(&mut c, TOKEN, "open sesame", true, Some(hash.as_str())).unwrap();
    assert_eq!(c.elevated_peers, vec![TOKEN]);
    // a second elevation of the same token is refused
    assert_eq!(
        op_elevate(&mut c, TOKEN, "open sesame", true, Some(hash.as_str())).unwrap_err(),
        ServiceError::FailedPrecondition
    );
}

fn make_token(secret: &[u8], sub: Option<&str>, exp_offset: i64, aud: &str) -> String {
    let now = SystemTime::now().duration_since(UNIX_EPOCH).unwrap().as_secs() as i64;
    let mut claims = serde_json::Map::new();
    claims.insert("aud".to_string(), serde_json::Value::String(aud.to_string()));
    claims.insert("exp".to_string(), serde_json::Value::from(now + exp_offset));
    claims.insert("iat".to_string(), serde_json::Value::from(now));
    claims.insert("iss".to_string(), serde_json::Value::String("tests".to_string()));
    if let Some(s) = sub {
        claims.insert("sub".to_string(), serde_json::Value::String(s.to_string()));
    }
    jsonwebtoken::encode(
        &jsonwebtoken::Header::new(jsonwebtoken::Algorithm::HS256),
        &serde_json::Value::Object(claims),
        &jsonwebtoken::EncodingKey::from_secret(secret),
    )
    .unwrap()
}

#[test]
fn bearer_tokens() {
    let secret = b"a-test-signing-key";
    let id = "a1a2a3a4-b1b2-c1c2-d1d2-d3d4d5d6d7d8";
    let good = make_token(secret, Some(id), 3600, "authenticated");
    assert_eq!(
        bearer_user(&good, secret, "authenticated").unwrap(),
        0xa1a2a3a4b1b2c1c2d1d2d3d4d5d6d7d8
    );
    // wrong signature
    assert_eq!(
        bearer_user(&good, b"other", "authenticated").unwrap_err(),
        ServiceError::Unauthenticated
    );
    // expired
    let stale = make_token(secret, Some(id), -7200, "authenticated");
    assert_eq!(
        bearer_user(&stale, secret, "authenticated").unwrap_err(),
        ServiceError::Unauthenticated
    );
    // wrong audience
    let wrong_aud = make_token(secret, Some(id), 3600, "elsewhere");
    assert_eq!(
        bearer_user(&wrong_aud, secret, "authenticated").unwrap_err(),
        ServiceError::Unauthenticated
    );
    // no sub claim
    let no_sub = make_token(secret, None, 3600, "authenticated");
    assert_eq!(
        bearer_user(&no_sub, secret, "authenticated").unwrap_err(),
        ServiceError::Unauthenticated
    );
    // sub is not an id
    let bad_sub = make_token(secret, Some("someone"), 3600, "authenticated");
    assert_eq!(
        bearer_user(&bad_sub, secret, "authenticated").unwrap_err(),
        ServiceError::InvalidArgument
    );
    // garbage token
    assert_eq!(
        bearer_user("garbage", secret, "authenticated").unwrap_err(),
        ServiceError::Unauthenticated
    );
}
