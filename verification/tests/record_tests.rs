use bearcrypto::record::{format_content, RecordData};

#[test]
fn format_without_notes() {
    let rec = RecordData {
        username: String::from("alice"),
        password: String::from("hunter2"),
        other_info: Vec::new(),
    };
    assert_eq!(format_content(rec), "username: alice\npassword: hunter2\n");
}

#[test]
fn format_with_notes() {
    let rec = RecordData {
        username: String::from("bob"),
        password: String::from("s3cret"),
        other_info: vec![String::from("mail server"), String::from("port 993")],
    };
    assert_eq!(
        format_content(rec),
        "username: bob\npassword: s3cret\nother informations:\n\t- mail server\n\t- port 993\n"
    );
}

#[test]
fn format_with_empty_note_line() {
    let rec = RecordData {
        username: String::from("u"),
        password: String::from("p"),
        other_info: vec![String::new()],
    };
    assert_eq!(
        format_content(rec),
        "username: u\npassword: p\nother informations:\n\t- \n"
    );
}

#[test]
fn record_round_trip_through_envelope() {
    let rec = RecordData {
        username: String::from("alice"),
        password: String::from("hunter2"),
        other_info: vec![String::from("recovery code 1234")],
    };
    let text = format_content(rec);
    let cipher =
        bearcrypto::envelope::encrypt(text.clone().into_bytes(), String::from("master-pw"))
            .unwrap();
    let plain = bearcrypto::envelope::decrypt(cipher, String::from("master-pw")).unwrap();
    assert_eq!(String::from_utf8(plain).unwrap(), text);
}
