use ripdis::addr::{IpAddress, SocketAddress};
use ripdis::conf::RECV_BUFFER_LENGHT;
use ripdis::server::{
    handle_probe, is_signature_vaid, truncate_payload, DummyClock, RateLimiter,
    RATE_LIMIT_TIMEOUT_MILLIS,
};
use ripdis::signature::Signature;

fn addr(a: u8, b: u8, c: u8, d: u8, port: u16) -> SocketAddress {
    let ip = u32::from_be_bytes([a, b, c, d]);
    SocketAddress { ip: IpAddress::V4(ip), port }
}

#[test]
fn test_rate_limiter() {
    let time: u64 = 1_000_000;
    let clock = DummyClock { time };
    let mut rate_limiter = RateLimiter::new(clock);
    let ip = addr(10, 11, 12, 13, 1234);
    assert!(rate_limiter.check(&ip));
    assert!(!rate_limiter.check(&ip));
    let clock = DummyClock { time: time + RATE_LIMIT_TIMEOUT_MILLIS + 1 };
    rate_limiter.clock = clock;
    assert!(rate_limiter.check(&ip));
    assert!(!rate_limiter.check(&ip));
}

#[test]
fn test_rate_limiter_whole_set_reset() {
    // Two sources barred at different times both become eligible at the
    // same window end: the reset clears the whole served set at once.
    let mut limiter = RateLimiter::new(DummyClock { time: 0 });
    let first = addr(192, 168, 0, 1, 1000);
    let second = addr(192, 168, 0, 2, 1000);
    assert!(limiter.check(&first));
    limiter.clock = DummyClock { time: 5000 };
    assert!(limiter.check(&second));
    assert!(!limiter.check(&first));
    limiter.clock = DummyClock { time: RATE_LIMIT_TIMEOUT_MILLIS };
    assert!(limiter.check(&first));
    assert!(limiter.check(&second));
}

#[test]
fn test_is_signature_vaid() {
    let accepted = vec![Signature::from("ipdisbeacon"), Signature::from("other")];
    assert!(is_signature_vaid(&Signature::from("ipdisbeacon"), &accepted));
    assert!(is_signature_vaid(&Signature::from("other"), &accepted));
    assert!(!is_signature_vaid(&Signature::from("IPDISBEACON"), &accepted));
    assert!(!is_signature_vaid(&Signature::from("ipdisbeaco"), &accepted));
    assert!(!is_signature_vaid(&Signature::from(""), &accepted));
}

#[test]
fn test_truncate_payload() {
    assert_eq!(truncate_payload(b"short", 128), b"short".to_vec());
    let long = vec![7u8; 200];
    let truncated = truncate_payload(&long, RECV_BUFFER_LENGHT);
    assert_eq!(truncated.len(), RECV_BUFFER_LENGHT);
    assert_eq!(truncated, vec![7u8; RECV_BUFFER_LENGHT]);
}

#[test]
fn test_probe_signature_gate() {
    let accepted = vec![Signature::from("ipdisbeacon")];
    let source = addr(127, 0, 0, 1, 40000);

    // A matching probe triggers exactly one response.
    let mut limiter = RateLimiter::new(DummyClock { time: 0 });
    assert!(handle_probe(&mut limiter, b"ipdisbeacon", &accepted, &source));

    // A probe differing in case triggers none.
    let mut limiter = RateLimiter::new(DummyClock { time: 0 });
    assert!(!handle_probe(&mut limiter, b"IPDISBEACON", &accepted, &source));

    // A 200-byte probe starting with the signature no longer matches after
    // truncation to the receive buffer, and triggers none.
    let mut probe = b"ipdisbeacon".to_vec();
    probe.resize(200, b'x');
    assert_eq!(probe.len(), 200);
    let mut limiter = RateLimiter::new(DummyClock { time: 0 });
    assert!(!handle_probe(&mut limiter, &probe, &accepted, &source));
}

#[test]
fn test_probe_rate_limited() {
    let accepted = vec![Signature::from("ipdisbeacon")];
    let source = addr(127, 0, 0, 1, 40000);
    let mut limiter = RateLimiter::new(DummyClock { time: 0 });
    assert!(handle_probe(&mut limiter, b"ipdisbeacon", &accepted, &source));
    // Within the same window the same source is dropped silently.
    assert!(!handle_probe(&mut limiter, b"ipdisbeacon", &accepted, &source));
    // Another source is still served.
    let other = addr(127, 0, 0, 2, 40000);
    assert!(handle_probe(&mut limiter, b"ipdisbeacon", &accepted, &other));
    // A mismatching probe does not consume the other source's admission.
    let third = addr(127, 0, 0, 3, 40000);
    assert!(!handle_probe(&mut limiter, b"wrong", &accepted, &third));
    assert!(handle_probe(&mut limiter, b"ipdisbeacon", &accepted, &third));
}
