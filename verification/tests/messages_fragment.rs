use keycrack::messages::success_message;

#[test]
fn success_message_renders_user() {
    assert_eq!(
        success_message("jane"),
        "<div class='message success'>Welcome, <b>jane</b></div>"
    );
}

#[test]
fn success_message_empty_user() {
    assert_eq!(
        success_message(""),
        "<div class='message success'>Welcome, <b></b></div>"
    );
}
