//! The beacon's receive-side engine: payload truncation, byte-exact
//! signature matching, and coarse per-source rate limiting with a windowed
//! whole-set reset. The socket loop around it performs the receive and the
//! send and hands this module plain values.

use crate::addr::SocketAddress;
use crate::bytes::bytes_eq;
use crate::conf::RECV_BUFFER_LENGHT;
use crate::signature::Signature;
use vstd::prelude::*;
use vstd::slice::{slice_index_get, slice_to_vec};

verus! {

/// How long a served source stays barred: the whole served set resets this
/// many milliseconds after a reset, never per source.
pub const RATE_LIMIT_TIMEOUT_MILLIS: u64 = 10000;

/// A clock the rate limiter reads. Injectable by construction, so behavior
/// is deterministic under test; nothing is assumed of what a clock returns.
pub trait Clock {
    /// The current time, in milliseconds from some fixed origin.
    fn now(&self) -> u64;
}

/// A clock that stands still: reads a settable, fixed time, for
/// deterministic tests.
#[derive(Debug, Clone, PartialEq)]
pub struct DummyClock {
    pub time: u64,
}

impl Clock for DummyClock {
    fn now(&self) -> (t: u64)
        ensures
            t == self.time,
    {
        self.time
    }
}

/// When the window opened at `now` expires, capped at the largest time.
pub open spec fn window_end(now: u64) -> u64 {
    if now + RATE_LIMIT_TIMEOUT_MILLIS <= u64::MAX {
        (now + RATE_LIMIT_TIMEOUT_MILLIS) as u64
    } else {
        u64::MAX
    }
}

/// Per-source admission control: each source address is served at most once
/// per window; when the window expires the whole served set clears at once.
#[derive(Debug, Clone)]
pub struct RateLimiter<C: Clock> {
    served_ips: Vec<SocketAddress>,
    pub clock: C,
    next_reset: u64,
}

/// One reset decision read at time `now`: at or past the expiry the served
/// set clears wholesale and a new window opens; before it nothing changes.
pub open spec fn reset_rel<C: Clock>(
    pre: RateLimiter<C>,
    post: RateLimiter<C>,
    now: u64,
    did: bool,
) -> bool {
    &&& post.clock_spec() == pre.clock_spec()
    &&& did == (now >= pre.next_reset_time())
    &&& if did {
        post.served() == Set::<SocketAddress>::empty() && post.next_reset_time() == window_end(now)
    } else {
        post.served() == pre.served() && post.next_reset_time() == pre.next_reset_time()
    }
}

/// One admission decision read at time `now`: after the due reset, a source
/// is admitted exactly when the current window has not served it yet, and
/// is recorded as served either way.
pub open spec fn check_rel<C: Clock>(
    pre: RateLimiter<C>,
    post: RateLimiter<C>,
    now: u64,
    ip: SocketAddress,
    admitted: bool,
) -> bool {
    let served_mid = if now >= pre.next_reset_time() {
        Set::<SocketAddress>::empty()
    } else {
        pre.served()
    };
    let reset_to = if now >= pre.next_reset_time() {
        window_end(now)
    } else {
        pre.next_reset_time()
    };
    &&& post.clock_spec() == pre.clock_spec()
    &&& post.next_reset_time() == reset_to
    &&& admitted == !served_mid.contains(ip)
    &&& post.served() == served_mid.insert(ip)
}

impl<C: Clock> RateLimiter<C> {
    /// The set of source addresses served in the current window.
    pub closed spec fn served(&self) -> Set<SocketAddress> {
        self.served_ips@.to_set()
    }

    /// The clock this limiter reads.
    pub closed spec fn clock_spec(&self) -> C {
        self.clock
    }

    /// When the current window expires.
    pub closed spec fn next_reset_time(&self) -> u64 {
        self.next_reset
    }

    /// A fresh limiter: nothing served, and the first read of the clock
    /// opens the first window.
    pub fn new(clock: C) -> (r: Self)
        ensures
            r.served() == Set::<SocketAddress>::empty(),
            r.clock_spec() == clock,
    {
        let now = clock.now();
        let r = RateLimiter { served_ips: Vec::new(), clock, next_reset: now };
        proof {
            assert(r.served() =~= Set::<SocketAddress>::empty());
        }
        r
    }

    /// Clears the served set and opens a new window if the old one has
    /// expired at the given time; reports whether it did.
    pub fn conditional_reset_at(&mut self, now: u64) -> (did: bool)
        ensures
            reset_rel(*old(self), *final(self), now, did),
    {
        if now >= self.next_reset {
            self.next_reset = if now <= u64::MAX - RATE_LIMIT_TIMEOUT_MILLIS {
                now + RATE_LIMIT_TIMEOUT_MILLIS
            } else {
                u64::MAX
            };
            self.served_ips = Vec::new();
            proof {
                assert(self.served() =~= Set::<SocketAddress>::empty());
            }
            true
        } else {
            false
        }
    }

    /// Reads the clock and resets if the window has expired. Which time the
    /// clock supplies is outside this library's control, so some read time
    /// explains the outcome.
    pub fn conditional_reset(&mut self) -> (did: bool)
        ensures
            exists|t: u64| reset_rel(*old(self), *final(self), t, did),
    {
        let now = self.clock.now();
        let did = self.conditional_reset_at(now);
        proof {
            assert(reset_rel(*old(self), *self, now, did));
        }
        did
    }

    /// Whether the current window has served this source already.
    fn already_served(&self, ip: &SocketAddress) -> (r: bool)
        ensures
            r == self.served().contains(*ip),
    {
        let n = self.served_ips.len();
        let mut i: usize = 0;
        while i < n
            invariant
                i <= n,
                n == self.served_ips@.len(),
                forall|k: int| 0 <= k < i ==> self.served_ips@[k] != *ip,
            decreases n - i,
        {
            let candidate = self.served_ips[i];
            if candidate.ip == ip.ip && candidate.port == ip.port {
                assert(self.served_ips@.contains(*ip));
                return true;
            }
            i = i + 1;
        }
        proof {
            assert(!self.served_ips@.contains(*ip));
        }
        false
    }

    /// Admission at the given time: resets if due, then admits the source
    /// exactly when this window has not served it yet, recording it.
    pub fn check_at(&mut self, now: u64, ip: &SocketAddress) -> (admitted: bool)
        ensures
            check_rel(*old(self), *final(self), now, *ip, admitted),
    {
        self.conditional_reset_at(now);
        let ghost mid = self.served();
        let ghost mid_seq = self.served_ips@;
        let not_already_served = !self.already_served(ip);
        if not_already_served {
            self.served_ips.push(*ip);
            proof {
                mid_seq.lemma_push_to_set_commute(*ip);
                assert(self.served() =~= mid.insert(*ip));
            }
        } else {
            proof {
                assert(self.served() =~= mid.insert(*ip));
            }
        }
        not_already_served
    }

    /// Reads the clock and decides admission for the source. Which time the
    /// clock supplies is outside this library's control, so some read time
    /// explains the outcome and the new state.
    pub fn check(&mut self, ip: &SocketAddress) -> (admitted: bool)
        ensures
            exists|t: u64| check_rel(*old(self), *final(self), t, *ip, admitted),
    {
        let now = self.clock.now();
        let admitted = self.check_at(now, ip);
        proof {
            assert(check_rel(*old(self), *self, now, *ip, admitted));
        }
        admitted
    }
}

/// The rate limiter never admits the same source twice within one window,
/// and admits every source again once the window has expired: after a check
/// at time `t` admits or records a source, any further check of that source
/// before the window's expiry refuses it, and any check at or past the
/// expiry admits it. (At a read time so large that the window cannot open
/// fully, the capped window still applies until `u64::MAX`.)
pub proof fn lemma_rate_limiter_window<C: Clock>(
    s0: RateLimiter<C>,
    s1: RateLimiter<C>,
    s2: RateLimiter<C>,
    t: u64,
    t2: u64,
    ip: SocketAddress,
    r1: bool,
    r2: bool,
)
    requires
        check_rel(s0, s1, t, ip, r1),
        check_rel(s1, s2, t2, ip, r2),
    ensures
        r1 == (t >= s0.next_reset_time() || !s0.served().contains(ip)),
        t2 < s1.next_reset_time() ==> !r2,
        t2 >= s1.next_reset_time() ==> r2,
{
}

/// Whether a received probe byte-exactly equals one of the accepted
/// signatures.
pub open spec fn sig_matches(received: Seq<u8>, accepted: Seq<Seq<u8>>) -> bool {
    exists|i: int| 0 <= i < accepted.len() && accepted[i] == received
}

/// Validates a received signature against the accepted set, by byte-exact
/// equality; the set's order does not matter.
pub fn is_signature_vaid(received: &Signature, expected: &[Signature]) -> (r: bool)
    ensures
        r == sig_matches(received@, expected.deep_view()),
{
    let n = expected.len();
    let mut i: usize = 0;
    while i < n
        invariant
            i <= n,
            n == expected@.len(),
            forall|k: int| 0 <= k < i ==> expected.deep_view()[k] != received@,
        decreases n - i,
    {
        let candidate = slice_index_get(expected, i);
        if bytes_eq(candidate.0.as_slice(), received.0.as_slice()) {
            proof {
                assert(expected.deep_view()[i as int] == received@);
            }
            return true;
        }
        proof {
            assert(expected.deep_view()[i as int] == expected@[i as int]@);
        }
        i = i + 1;
    }
    false
}

/// The first `cap` bytes of a payload (all of them, when it is shorter).
pub open spec fn truncated_spec(bytes: Seq<u8>, cap: int) -> Seq<u8> {
    if bytes.len() <= cap {
        bytes
    } else {
        bytes.take(cap)
    }
}

/// Truncates an inbound payload to the receive buffer's capacity. Done
/// before any comparison or decoding: truncation precedes comparison.
pub fn truncate_payload(bytes: &[u8], cap: usize) -> (r: Vec<u8>)
    ensures
        r@ == truncated_spec(bytes@, cap as int),
{
    let mut v = slice_to_vec(bytes);
    v.truncate(cap);
    proof {
        if cap < bytes@.len() {
            assert(v@ =~= bytes@.take(cap as int));
        }
    }
    v
}

/// One received probe, decided at a clock reading `t`: the payload is first
/// truncated to the receive buffer, then compared byte-exactly against the
/// accepted signatures; on a match the source passes through the rate
/// limiter. The beacon answers exactly when `serve` holds; on a mismatch or
/// a rate-limit refusal nothing is sent and, for a mismatch, the limiter is
/// untouched.
pub open spec fn probe_rel<C: Clock>(
    pre: RateLimiter<C>,
    post: RateLimiter<C>,
    t: u64,
    probe: Seq<u8>,
    accepted: Seq<Seq<u8>>,
    source: SocketAddress,
    serve: bool,
) -> bool {
    let p = truncated_spec(probe, RECV_BUFFER_LENGHT as int);
    if sig_matches(p, accepted) {
        check_rel(pre, post, t, source, serve)
    } else {
        post == pre && !serve
    }
}

/// Decides one received probe, as `probe_rel` describes: truncate first,
/// match the signature, then rate-limit the source.
pub fn handle_probe<C: Clock>(
    limiter: &mut RateLimiter<C>,
    probe: &[u8],
    accepted: &Vec<Signature>,
    source: &SocketAddress,
) -> (serve: bool)
    ensures
        exists|t: u64|
            probe_rel(
                *old(limiter),
                *final(limiter),
                t,
                probe@,
                accepted.deep_view(),
                *source,
                serve,
            ),
{
    let truncated = truncate_payload(probe, RECV_BUFFER_LENGHT);
    let received = Signature(truncated);
    let accepted_slice = accepted.as_slice();
    proof {
        assert(accepted_slice.deep_view() =~= accepted.deep_view());
    }
    if !is_signature_vaid(&received, accepted_slice) {
        proof {
            assert(probe_rel(
                *old(limiter),
                *limiter,
                0,
                probe@,
                accepted.deep_view(),
                *source,
                false,
            ));
        }
        return false;
    }
    let serve = limiter.check(source);
    proof {
        let t = choose|t: u64| check_rel(*old(limiter), *limiter, t, *source, serve);
        assert(probe_rel(*old(limiter), *limiter, t, probe@, accepted.deep_view(), *source, serve));
    }
    serve
}

} // verus!
