use kegerator::{
    file_failure_message, form_page, form_status, read_failure_message, render_failure_message,
    static_greeting,
    FormSubmission,
};

#[test]
fn static_greeting_is_fixed() {
    assert_eq!(static_greeting(), "Hi from /static");
}

#[test]
fn sign_up_records_both_fields_in_order() {
    let s = FormSubmission { name: "Alice".to_string(), email: "a@example.com".to_string() };
    assert_eq!(s.log_line(), "name: Alice\nemail: a@example.com\n");
    assert_eq!(form_status(true), 200);
}

#[test]
fn undecodable_sign_up_is_a_bad_request() {
    assert_eq!(form_status(false), 400);
}

#[test]
fn render_failure_carries_the_detail() {
    assert_eq!(render_failure_message("boom"), "Failed to render template. Error: boom");
}

#[test]
fn file_failure_message_is_generic() {
    assert_eq!(file_failure_message(), "Something went wrong...");
}

#[test]
fn form_page_posts_name_and_email() {
    let page = form_page();
    assert!(page.contains(r#"<form action="/form" method="post">"#));
    assert!(page.contains(r#"name="name""#));
    assert!(page.contains(r#"name="email""#));
}

#[test]
fn read_failure_message_is_fixed() {
    assert_eq!(read_failure_message(), "Could not read the tap readings");
}
