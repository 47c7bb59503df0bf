//! The scanner's answer aggregation: the beacon table maps each source
//! address to the most recent answer drained for it. Entries are never
//! removed; an address once seen stays for the process lifetime.

use crate::addr::IpAddress;
use crate::answers::Answer;
use crossbeam::channel::Receiver;
use vstd::pervasive::VecAdditionalExecFns;
use vstd::prelude::*;

verus! {

/// One answer as received: the source address paired with the payload.
/// Produced once per datagram on the scanner side and consumed at once by
/// the aggregator.
#[derive(Debug, Clone, PartialEq)]
pub struct BeaconAnswer {
    pub addr: IpAddress,
    pub payload: Answer,
}

impl View for BeaconAnswer {
    type V = (IpAddress, Seq<u8>);

    open spec fn view(&self) -> (IpAddress, Seq<u8>) {
        (self.addr, self.payload@)
    }
}

impl DeepView for BeaconAnswer {
    type V = (IpAddress, Seq<u8>);

    open spec fn deep_view(&self) -> (IpAddress, Seq<u8>) {
        self.view()
    }
}

/// crossbeam's channel receiver, declared so that the aggregation logic can
/// hold one; the library sees nothing inside it and reads it only through
/// the wrappers below.
#[verifier::external_type_specification]
#[verifier::external_body]
#[verifier::reject_recursive_types(T)]
pub struct ExReceiver<T>(Receiver<T>);

/// Relies on crossbeam's `Receiver::try_recv`: takes a queued message
/// without ever blocking, or nothing when the channel is empty. What
/// arrives, if anything, depends on the sending threads, so nothing is
/// promised of the outcome.
#[verifier::external_body]
pub(crate) fn channel_try_recv<T>(channel_receiving_end: &Receiver<T>) -> Option<T> {
    channel_receiving_end.try_recv().ok()
}

/// Relies on crossbeam's `Receiver::len`: how many messages are queued at
/// the moment of the call. Senders may change the queue at once, so nothing
/// is promised of the value; it only bounds how much one drain takes.
#[verifier::external_body]
pub(crate) fn channel_len<T>(channel_receiving_end: &Receiver<T>) -> usize {
    channel_receiving_end.len()
}

/// Whether some received answer in the list came from this address.
pub open spec fn has_addr(ds: Seq<(IpAddress, Seq<u8>)>, a: IpAddress) -> bool {
    exists|i: int| 0 <= i < ds.len() && ds[i].0 == a
}

/// The payload of the last answer in the list from this address.
pub open spec fn last_payload(ds: Seq<(IpAddress, Seq<u8>)>, a: IpAddress) -> Seq<u8>
    recommends
        has_addr(ds, a),
    decreases ds.len(),
{
    if ds.len() == 0 {
        Seq::empty()
    } else if ds.last().0 == a {
        ds.last().1
    } else {
        last_payload(ds.drop_last(), a)
    }
}

/// A sequence of received answers applied to a table map in order: last
/// write wins per address.
pub open spec fn apply_answers(
    m: Map<IpAddress, Seq<u8>>,
    ds: Seq<(IpAddress, Seq<u8>)>,
) -> Map<IpAddress, Seq<u8>>
    decreases ds.len(),
{
    if ds.len() == 0 {
        m
    } else {
        apply_answers(m, ds.drop_last()).insert(ds.last().0, ds.last().1)
    }
}

/// Last write wins, and only writes to an address touch it: after a drain,
/// an address holds the payload of the last answer received from it during
/// the drain; an address no drained answer came from keeps what it held,
/// and the table never forgets an address.
pub proof fn lemma_last_write_wins(
    m: Map<IpAddress, Seq<u8>>,
    ds: Seq<(IpAddress, Seq<u8>)>,
    a: IpAddress,
)
    ensures
        apply_answers(m, ds).contains_key(a) <==> (m.contains_key(a) || has_addr(ds, a)),
        has_addr(ds, a) ==> apply_answers(m, ds)[a] == last_payload(ds, a),
        !has_addr(ds, a) && m.contains_key(a) ==> apply_answers(m, ds)[a] == m[a],
    decreases ds.len(),
{
    if ds.len() == 0 {
    } else {
        let rest = ds.drop_last();
        lemma_last_write_wins(m, rest, a);
        if ds.last().0 == a {
            assert(has_addr(ds, a));
        } else {
            assert(has_addr(ds, a) <==> has_addr(rest, a)) by {
                if has_addr(ds, a) {
                    let i = choose|i: int| 0 <= i < ds.len() && ds[i].0 == a;
                    assert(i < ds.len() - 1);
                    assert(rest[i].0 == a);
                }
                if has_addr(rest, a) {
                    let i = choose|i: int| 0 <= i < rest.len() && rest[i].0 == a;
                    assert(ds[i].0 == a);
                }
            }
        }
    }
}

/// The beacon table: at most one entry per source address, each holding the
/// most recently drained answer from it, in first-seen order.
#[derive(Debug, Clone, PartialEq)]
pub struct BeaconAnswers {
    entries: Vec<BeaconAnswer>,
}

/// The map a table's entries denote.
pub open spec fn table_map(es: Seq<(IpAddress, Seq<u8>)>) -> Map<IpAddress, Seq<u8>> {
    Map::new(
        |a: IpAddress| has_addr(es, a),
        |a: IpAddress| es[choose|i: int| 0 <= i < es.len() && es[i].0 == a].1,
    )
}

impl View for BeaconAnswers {
    type V = Map<IpAddress, Seq<u8>>;

    closed spec fn view(&self) -> Map<IpAddress, Seq<u8>> {
        table_map(self.entries.deep_view())
    }
}

impl BeaconAnswers {
    /// The table's entries in first-seen order.
    pub closed spec fn entry_seq(&self) -> Seq<(IpAddress, Seq<u8>)> {
        self.entries.deep_view()
    }

    /// Well-formed: one entry per address.
    pub open spec fn wf(&self) -> bool {
        forall|i: int, j: int|
            0 <= i < j < self.entry_seq().len() ==> self.entry_seq()[i].0 != self.entry_seq()[j].0
    }

    /// The view is the map the entries denote.
    pub proof fn lemma_view(&self)
        ensures
            self@ == table_map(self.entry_seq()),
    {
    }

    /// An empty table.
    pub fn new() -> (r: Self)
        ensures
            r.wf(),
            r@ == Map::<IpAddress, Seq<u8>>::empty(),
    {
        let r = BeaconAnswers { entries: Vec::new() };
        proof {
            assert(r.entry_seq() =~= Seq::<(IpAddress, Seq<u8>)>::empty());
            assert(r@ =~= Map::<IpAddress, Seq<u8>>::empty());
        }
        r
    }

    /// The entry for an address, when one has been seen.
    pub fn get(&self, addr: IpAddress) -> (r: Option<&BeaconAnswer>)
        requires
            self.wf(),
        ensures
            r is Some <==> self@.contains_key(addr),
            r matches Some(b) ==> b.addr == addr && b.payload@ == self@[addr],
    {
        let n = self.entries.len();
        let mut i: usize = 0;
        while i < n
            invariant
                i <= n,
                n == self.entries@.len(),
                self.wf(),
                forall|k: int| 0 <= k < i ==> #[trigger] self.entry_seq()[k].0 != addr,
            decreases n - i,
        {
            let e = &self.entries[i];
            proof {
                assert(self.entry_seq()[i as int] == self.entries@[i as int]@);
            }
            if e.addr == addr {
                proof {
                    assert(has_addr(self.entry_seq(), addr));
                    let j = choose|j: int|
                        0 <= j < self.entry_seq().len() && self.entry_seq()[j].0 == addr;
                    if j < i {
                        assert(self.entry_seq()[j].0 != addr);
                    } else if j > i {
                        assert(self.entry_seq()[i as int].0 != self.entry_seq()[j].0);
                    }
                    assert(self@[addr] == self.entry_seq()[i as int].1);
                }
                return Some(e);
            }
            i = i + 1;
        }
        proof {
            if has_addr(self.entry_seq(), addr) {
                let j = choose|j: int|
                    0 <= j < self.entry_seq().len() && self.entry_seq()[j].0 == addr;
                assert(self.entry_seq()[j].0 != addr);
            }
        }
        None
    }

    /// Applies one received answer: last write wins per address, and an
    /// address once seen stays in the table.
    pub fn update(&mut self, beacon: BeaconAnswer)
        requires
            old(self).wf(),
        ensures
            final(self).wf(),
            final(self)@ == old(self)@.insert(beacon.addr, beacon.payload@),
    {
        let ghost es0 = self.entry_seq();
        let ghost a = beacon.addr;
        let ghost pv = beacon.payload@;
        let ghost new_entry = beacon.deep_view();
        proof {
            assert(new_entry == (a, pv));
        }
        let n = self.entries.len();
        let mut i: usize = 0;
        while i < n
            invariant
                i <= n,
                n == self.entries@.len(),
                self.wf(),
                *self == *old(self),
                es0 == self.entry_seq(),
                a == beacon.addr,
                new_entry == beacon.deep_view(),
                new_entry == (a, pv),
                forall|k: int| 0 <= k < i ==> #[trigger] self.entry_seq()[k].0 != a,
            decreases n - i,
        {
            let matches_here = {
                let e = &self.entries[i];
                proof {
                    assert(self.entry_seq()[i as int] == self.entries@[i as int]@);
                }
                e.addr == beacon.addr
            };
            if matches_here {
                let ghost ev0 = self.entries@;
                let ghost moved = beacon;
                self.entries.set(i, beacon);
                proof {
                    assert(self.entries@ == ev0.update(i as int, moved));
                    assert(moved.deep_view() == new_entry);
                    assert forall|k: int|
                        0 <= k < self.entry_seq().len() implies self.entry_seq()[k] == es0.update(
                        i as int,
                        (a, pv),
                    )[k] by {
                        assert(self.entry_seq()[k] == self.entries@[k].deep_view());
                        if k == i {
                            assert(self.entries@[k] == moved);
                        } else {
                            assert(self.entries@[k] == ev0[k]);
                            assert(es0[k] == ev0[k].deep_view());
                        }
                    }
                    assert(self.entry_seq() =~= es0.update(i as int, (a, pv)));
                    let es2 = self.entry_seq();
                    assert forall|x: int, y: int| 0 <= x < y < es2.len() implies es2[x].0
                        != es2[y].0 by {
                        assert(es2[x].0 == es0[x].0 && es2[y].0 == es0[y].0);
                    }
                    assert forall|b: IpAddress| true implies #[trigger] has_addr(es2, b)
                        == has_addr(es0, b) by {
                        if has_addr(es2, b) {
                            let q = choose|q: int| 0 <= q < es2.len() && es2[q].0 == b;
                            assert(es0[q].0 == b);
                        }
                        if has_addr(es0, b) {
                            let q = choose|q: int| 0 <= q < es0.len() && es0[q].0 == b;
                            assert(es2[q].0 == b);
                        }
                    }
                    assert forall|b: IpAddress| has_addr(es2, b) implies table_map(es2)[b]
                        == table_map(es0).insert(a, pv)[b] by {
                        let q = choose|q: int| 0 <= q < es2.len() && es2[q].0 == b;
                        let q0 = choose|q0: int| 0 <= q0 < es0.len() && es0[q0].0 == b;
                        if b == a {
                            assert(es0[q0].0 != es0[i as int].0 || q0 == i);
                            assert(q == i || es2[q].0 != es2[i as int].0);
                        } else {
                            assert(q != i && q0 != i);
                            assert(q == q0 || es0[q].0 != es0[q0].0);
                        }
                    }
                    assert(self@ =~= table_map(es0).insert(a, pv));
                    assert(beacon.addr == a && beacon.payload@ == pv);
                }
                return ;
            }
            i = i + 1;
        }
        self.entries.push(beacon);
        proof {
            assert(self.entry_seq() =~~= es0.push((a, pv)));
            let es2 = self.entry_seq();
            assert forall|x: int, y: int| 0 <= x < y < es2.len() implies es2[x].0 != es2[y].0 by {
                if y == es2.len() - 1 {
                    assert(es0[x].0 != a);
                } else {
                    assert(es2[x].0 == es0[x].0 && es2[y].0 == es0[y].0);
                }
            }
            assert forall|b: IpAddress| true implies #[trigger] has_addr(es2, b) == (has_addr(
                es0,
                b,
            ) || b == a) by {
                if has_addr(es2, b) {
                    let q = choose|q: int| 0 <= q < es2.len() && es2[q].0 == b;
                    if q < es2.len() - 1 {
                        assert(es0[q].0 == b);
                    }
                }
                if has_addr(es0, b) {
                    let q = choose|q: int| 0 <= q < es0.len() && es0[q].0 == b;
                    assert(es2[q].0 == b);
                }
                if b == a {
                    assert(es2[es2.len() - 1].0 == b);
                }
            }
            assert forall|b: IpAddress| has_addr(es2, b) implies table_map(es2)[b] == table_map(
                es0,
            ).insert(a, pv)[b] by {
                let q = choose|q: int| 0 <= q < es2.len() && es2[q].0 == b;
                if b == a {
                    assert(forall|k: int| 0 <= k < es0.len() ==> #[trigger] es0[k].0 != a);
                    assert(q == es2.len() - 1);
                } else {
                    assert(q < es2.len() - 1);
                    let q0 = choose|q0: int| 0 <= q0 < es0.len() && es0[q0].0 == b;
                    assert(q == q0 || es0[q].0 != es0[q0].0);
                }
            }
            assert(self@ =~= table_map(es0).insert(a, pv));
        }
    }

    /// A stable read-only copy of the table, in first-seen order, for a
    /// renderer: the same addresses with the same payloads.
    pub fn snapshot(&self) -> (r: Vec<BeaconAnswer>)
        ensures
            r.deep_view() == self.entry_seq(),
    {
        let n = self.entries.len();
        let mut out: Vec<BeaconAnswer> = Vec::new();
        let mut i: usize = 0;
        while i < n
            invariant
                i <= n,
                n == self.entries@.len(),
                out.deep_view() == self.entry_seq().take(i as int),
            decreases n - i,
        {
            let ghost sofar = out.deep_view();
            let e = &self.entries[i];
            let copy = BeaconAnswer { addr: e.addr, payload: Answer(e.payload.0.clone()) };
            proof {
                assert(copy.payload.0@ =~= e.payload.0@);
                assert(copy@ == self.entry_seq()[i as int]);
            }
            out.push(copy);
            proof {
                assert(out.deep_view() =~~= sofar.push(self.entry_seq()[i as int]));
                assert(self.entry_seq().take(i + 1) =~= self.entry_seq().take(i as int).push(
                    self.entry_seq()[i as int],
                ));
            }
            i = i + 1;
        }
        proof {
            assert(self.entry_seq().take(n as int) =~= self.entry_seq());
        }
        out
    }
}

/// Drains every answer queued at tick time, without blocking, and applies
/// them in drain order, last write winning per address. Which answers are
/// queued depends on the listening threads, so some drained sequence
/// explains the result.
pub fn beacons_update(
    beacons: BeaconAnswers,
    channel_receiving_end: &Receiver<BeaconAnswer>,
) -> (r: BeaconAnswers)
    requires
        beacons.wf(),
    ensures
        r.wf(),
        exists|ds: Seq<(IpAddress, Seq<u8>)>| r@ == #[trigger] apply_answers(beacons@, ds),
{
    let ghost start = beacons@;
    let mut table = beacons;
    let ghost mut ds: Seq<(IpAddress, Seq<u8>)> = Seq::empty();
    let mut remaining = channel_len(channel_receiving_end);
    loop
        invariant
            table.wf(),
            table@ == apply_answers(start, ds),
        ensures
            table.wf(),
            exists|ds2: Seq<(IpAddress, Seq<u8>)>| table@ == #[trigger] apply_answers(start, ds2),
        decreases remaining,
    {
        if remaining == 0 {
            break;
        }
        match channel_try_recv(channel_receiving_end) {
            None => {
                break;
            },
            Some(beacon) => {
                let ghost prev = ds;
                proof {
                    ds = ds.push((beacon.addr, beacon.payload@));
                    assert(ds.drop_last() =~= prev);
                }
                table.update(beacon);
            },
        }
        remaining = remaining - 1;
    }
    table
}

} // verus!
