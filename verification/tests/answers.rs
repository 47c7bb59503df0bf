use ripdis::answers::{get_answer_hostname_and_files, get_inventory_files_answer, join_answers};
use ripdis::answers::{Answer, BeaconInfos, FromCmdOutput};
use ripdis::inventory::{HostnameSource, InternalInventory};

#[test]
fn test_safe_format_answer_rust() {
    assert_eq!(
        Answer::from_bytes(
            serde_json::to_vec(&std::collections::HashMap::from([("a bool", true)]))
                .unwrap()
                .as_slice()
        )
        .safe_format(),
        r#"{"a bool":true}"#
    );
}

#[test]
fn test_safe_format_answer_json() {
    let json = r#"{"key string": [1, "two", 3.4, false, null], "2": "another string"}"#;
    let data: serde_json::Value = serde_json::from_str(json).unwrap();
    assert_eq!(
        serde_json::from_str::<'_, serde_json::Value>(&Answer::from(json).safe_format()).unwrap(),
        data
    );
}

#[test]
fn test_safe_format_answer_not_json() {
    let expected = r#"{"info":"not json"}"#;
    assert_eq!(
        serde_json::from_str::<'_, serde_json::Value>(&Answer::from("not json").safe_format())
            .unwrap()
            .to_string(),
        expected.to_string()
    );
}

#[test]
fn test_safe_format_answer_not_bytes() {
    let expected = r#"{"info":"INVALID UTF-8: [1F, 20, FF]"}"#;
    assert_eq!(
        serde_json::from_str::<'_, serde_json::Value>(
            &Answer::from_bytes(vec![31u8, 32, 255].as_slice()).safe_format()
        )
        .unwrap()
        .to_string(),
        expected.to_string()
    );
}

#[test]
fn bytes_test_safe_format_answer_rust() {
    assert_eq!(
        Answer::from_bytes(
            serde_json::to_vec(&serde_json::Value::Bool(true))
                .unwrap()
                .as_slice()
        )
        .safe_format(),
        "true"
    );
}

#[test]
fn bytes_test_safe_format_answer_json() {
    let input = [
        "true",
        "null",
        "4.2",
        r#"{"key string": [1, "two", 3.4, false, null], "2": "another string"}"#,
    ];
    for json in input {
        let data: serde_json::Value = serde_json::from_str(json).unwrap();
        assert_eq!(
            serde_json::from_str::<'_, serde_json::Value>(&Answer::from(json).safe_format())
                .unwrap(),
            data
        );
    }
}

#[test]
fn test_safe_format_escapes_reparse() {
    // A payload that is not JSON and whose text needs every kind of escape.
    let text = "a\"b\\c\u{1}\td\r\n";
    let rendered = Answer::from(text).safe_format();
    let value: serde_json::Value = serde_json::from_str(&rendered).unwrap();
    assert_eq!(value["info"], serde_json::Value::String(text.to_string()));
}

#[test]
fn test_safe_format_empty_payload() {
    // Empty bytes are not a JSON document, but they are valid UTF-8.
    assert_eq!(Answer::default().safe_format(), r#"{"info":""}"#);
}

// Captured outputs of a typical set of inventory files: a list under a
// repeated key, several lines with blanks, a bare newline, a line without
// `=`, and the empty outputs of a failing, an empty and a missing file.
fn inventory_fixture_outputs() -> Vec<String> {
    vec![
        "foo=bar\nfoo=baz\n".to_string(),
        "foo1=1\nfoo2=2\n\nfoo3 = 3\n\n".to_string(),
        "\n".to_string(),
        "foo wrong\n".to_string(),
        String::new(),
        String::new(),
        String::new(),
    ]
}

#[test]
fn test_get_answer() {
    let expected =
        r#"{"foo":["bar","baz"],"foo1":"1","foo2":"2","foo3 ":" 3","hostname":"dummy-hostname"}"#;
    let answer = get_answer_hostname_and_files(
        InternalInventory {
            key: "hostname".to_string(),
            source: HostnameSource::Fixed("dummy-hostname".to_string()),
        },
        &inventory_fixture_outputs(),
    );
    assert_eq!(std::str::from_utf8(&answer.0).unwrap(), expected);
}

#[test]
fn test_get_answer_matches_serde() {
    // The verified encoder must agree with serde_json's own object encoding.
    let answer = get_answer_hostname_and_files(
        InternalInventory {
            key: "hostname".to_string(),
            source: HostnameSource::Fixed("a\"b\\c\td".to_string()),
        },
        &vec!["k=v1\nk=v2\nplain=x\n".to_string()],
    );
    let mut expected = serde_json::Map::new();
    expected.insert(
        "hostname".to_string(),
        serde_json::Value::String("a\"b\\c\td".to_string()),
    );
    expected.insert(
        "k".to_string(),
        serde_json::Value::Array(vec![
            serde_json::Value::String("v1".to_string()),
            serde_json::Value::String("v2".to_string()),
        ]),
    );
    expected.insert(
        "plain".to_string(),
        serde_json::Value::String("x".to_string()),
    );
    assert_eq!(
        std::str::from_utf8(&answer.0).unwrap(),
        serde_json::to_string(&serde_json::Value::Object(expected)).unwrap()
    );
}

#[test]
fn test_from_cmd_output_collapses_repeats() {
    let infos = BeaconInfos::from_cmd_output("a=1\nb=2\na=3\na=4\n");
    assert_eq!(
        std::str::from_utf8(&infos.encode()).unwrap(),
        r#"{"a":["1","3","4"],"b":"2"}"#
    );
}

#[test]
fn test_from_cmd_output_skips_lines_without_separator() {
    let infos = BeaconInfos::from_cmd_output("no separator\n\nkey=value");
    assert_eq!(
        std::str::from_utf8(&infos.encode()).unwrap(),
        r#"{"key":"value"}"#
    );
}

#[test]
fn test_join_answers_second_wins() {
    let mut first = BeaconInfos::from_cmd_output("shared=old\nmine=1");
    let mut second = BeaconInfos::from_cmd_output("shared=new\nyours=2");
    let joined = join_answers(&mut first, &mut second);
    assert_eq!(
        std::str::from_utf8(&joined.encode()).unwrap(),
        r#"{"mine":"1","shared":"new","yours":"2"}"#
    );
    assert_eq!(std::str::from_utf8(&second.encode()).unwrap(), "{}");
}

#[test]
fn test_get_inventory_files_answer_later_file_wins() {
    let outputs = vec!["k=first\n".to_string(), "k=second\n".to_string()];
    let merged = get_inventory_files_answer(&outputs);
    assert_eq!(
        std::str::from_utf8(&merged.encode()).unwrap(),
        r#"{"k":"second"}"#
    );
}

#[test]
fn test_safe_format_canonicalizes_json() {
    // The rendering is the canonical compact form, not the input spelling.
    assert_eq!(
        Answer::from("{ \"b\" : 1 ,\t\"a\":2 }").safe_format(),
        r#"{"a":2,"b":1}"#
    );
}

#[test]
fn test_get_answer_holds_hostname() {
    // With the default internal inventory the answer is JSON with the
    // machine's hostname under the `hostname` key.
    let answer = ripdis::answers::get_answer(&Vec::new());
    let value: serde_json::Value = serde_json::from_slice(&answer.0).unwrap();
    assert!(value.get("hostname").map(|h| h.is_string()).unwrap_or(false));
}
