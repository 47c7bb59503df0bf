use ripdis::addr::IpAddress;
use ripdis::answers::Answer;
use ripdis::beacons::{beacons_update, BeaconAnswer, BeaconAnswers};

fn ip(a: u8, b: u8, c: u8, d: u8) -> IpAddress {
    IpAddress::V4(u32::from_be_bytes([a, b, c, d]))
}

#[test]
fn test_beacons_update() {
    let (sender, receiver) = crossbeam::channel::unbounded();
    let answer1 = BeaconAnswer { addr: ip(192, 168, 0, 1), payload: Answer::default() };
    let answer1_new = BeaconAnswer { addr: ip(192, 168, 0, 1), payload: Answer::from("one") };
    let answer2 = BeaconAnswer { addr: ip(192, 168, 0, 2), payload: Answer::default() };
    let answer2_new = BeaconAnswer { addr: ip(192, 168, 0, 2), payload: Answer::from("two") };
    sender.send(answer2.clone()).unwrap();
    sender.send(answer1.clone()).unwrap();
    sender.send(answer1_new.clone()).unwrap();
    sender.send(answer2_new.clone()).unwrap();
    let beacons = BeaconAnswers::new();
    let beacons = beacons_update(beacons, &receiver);
    assert_eq!(
        beacons.get(answer1.addr).unwrap().payload,
        answer1_new.payload
    );
    assert_eq!(
        beacons.get(answer2.addr).unwrap().payload,
        answer2_new.payload
    );
}

#[test]
fn test_put_in_queue() {
    let (sender, receiver) = crossbeam::channel::unbounded();
    let an_answer = BeaconAnswer { addr: ip(127, 0, 0, 1), payload: Answer::default() };
    sender.send(an_answer.clone()).unwrap();
    assert_eq!(receiver.try_recv().unwrap(), an_answer);
}

#[test]
fn test_init_in_queue() {
    let (_sender, receiver) = crossbeam::channel::unbounded::<BeaconAnswer>();
    assert!(receiver.is_empty());
}

#[test]
fn test_last_write_wins_per_address() {
    // Two answers for the same address before one drain: the later one
    // stands; an answer for another address leaves it untouched.
    let x = ip(10, 0, 0, 1);
    let y = ip(10, 0, 0, 2);
    let mut table = BeaconAnswers::new();
    table.update(BeaconAnswer { addr: x, payload: Answer::from("p1") });
    table.update(BeaconAnswer { addr: x, payload: Answer::from("p2") });
    assert_eq!(table.get(x).unwrap().payload, Answer::from("p2"));
    table.update(BeaconAnswer { addr: y, payload: Answer::from("q") });
    assert_eq!(table.get(x).unwrap().payload, Answer::from("p2"));
    assert_eq!(table.get(y).unwrap().payload, Answer::from("q"));
    assert!(table.get(ip(10, 0, 0, 3)).is_none());
}

#[test]
fn test_snapshot_keeps_first_seen_order() {
    let mut table = BeaconAnswers::new();
    table.update(BeaconAnswer { addr: ip(1, 1, 1, 1), payload: Answer::from("a") });
    table.update(BeaconAnswer { addr: ip(2, 2, 2, 2), payload: Answer::from("b") });
    table.update(BeaconAnswer { addr: ip(1, 1, 1, 1), payload: Answer::from("c") });
    let snapshot = table.snapshot();
    assert_eq!(snapshot.len(), 2);
    assert_eq!(snapshot[0].addr, ip(1, 1, 1, 1));
    assert_eq!(snapshot[0].payload, Answer::from("c"));
    assert_eq!(snapshot[1].addr, ip(2, 2, 2, 2));
    assert_eq!(snapshot[1].payload, Answer::from("b"));
}

#[test]
fn test_drain_does_not_block_on_empty_channel() {
    let (_sender, receiver) = crossbeam::channel::unbounded::<BeaconAnswer>();
    let mut table = BeaconAnswers::new();
    table.update(BeaconAnswer { addr: ip(8, 8, 8, 8), payload: Answer::from("kept") });
    let table = beacons_update(table, &receiver);
    assert_eq!(table.get(ip(8, 8, 8, 8)).unwrap().payload, Answer::from("kept"));
}
