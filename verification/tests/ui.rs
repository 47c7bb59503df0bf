use ripdis::addr::IpAddress;
use ripdis::answers::Answer;
use ripdis::beacons::BeaconAnswer;
use ripdis::ui::App;

fn answers(n: u32) -> Vec<BeaconAnswer> {
    (0..n)
        .map(|i| BeaconAnswer { addr: IpAddress::V4(i), payload: Answer::from("{}") })
        .collect()
}

#[test]
fn test_cursor_next_wraps() {
    let mut app = App::default();
    app.next();
    assert_eq!(app.get_cursor(), None);

    app.server_answers = answers(2);
    app.next();
    assert_eq!(app.get_cursor(), Some(0));
    app.next();
    assert_eq!(app.get_cursor(), Some(1));
    app.next();
    assert_eq!(app.get_cursor(), Some(2));
    app.next();
    assert_eq!(app.get_cursor(), Some(0));
}

#[test]
fn test_cursor_prev_wraps() {
    let mut app = App::default();
    app.prev();
    assert_eq!(app.get_cursor(), None);

    app.server_answers = answers(3);
    app.prev();
    assert_eq!(app.get_cursor(), Some(0));
    app.prev();
    assert_eq!(app.get_cursor(), Some(2));
    app.prev();
    assert_eq!(app.get_cursor(), Some(1));
}

#[test]
fn test_info_text_of_selection() {
    let mut app = App::default();
    assert_eq!(app.get_info_text(), "");
    app.server_answers = vec![
        BeaconAnswer { addr: IpAddress::V4(1), payload: Answer::from(r#"{"hostname":"a"}"#) },
        BeaconAnswer { addr: IpAddress::V4(2), payload: Answer::from("not json") },
    ];
    app.cursor = Some(0);
    assert_eq!(app.get_info_text(), r#"{"hostname":"a"}"#);
    app.cursor = Some(1);
    assert_eq!(app.get_info_text(), r#"{"info":"not json"}"#);
    app.cursor = Some(2);
    assert_eq!(app.get_info_text(), "");
}

#[test]
fn test_update_answers_takes_newest_batch() {
    let (sender, receiver) = crossbeam::channel::unbounded();
    let mut app = App::default();
    app.cursor = Some(1);
    sender.send(answers(1)).unwrap();
    sender.send(answers(3)).unwrap();
    app.update_answers(&receiver);
    assert_eq!(app.server_answers.len(), 3);
    assert_eq!(app.get_cursor(), Some(1));
}
