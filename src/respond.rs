use vstd::prelude::*;

verus! {

/// A sign-up as posted from the form page.
#[derive(Debug)]
pub struct FormSubmission {
    pub name: String,
    pub email: String,
}

/// What the sign-up handler records: the name, then the email, each on a
/// line of its own after its label.
pub open spec fn log_text(name: Seq<char>, email: Seq<char>) -> Seq<char> {
    "name: "@ + name + "\n"@ + "email: "@ + email + "\n"@
}

impl FormSubmission {
    /// The record that the sign-up handler writes, holding both fields in
    /// the order they were posted.
    pub fn log_line(&self) -> (r: String)
        ensures
            r@ == log_text(self.name@, self.email@),
    {
        let mut line = String::from_str("name: ");
        line.append(self.name.as_str());
        line.append("\n");
        line.append("email: ");
        line.append(self.email.as_str());
        line.append("\n");
        line
    }
}

/// The reply of the greeting route.
pub fn static_greeting() -> (r: &'static str)
    ensures
        r@ == "Hi from /static"@,
{
    "Hi from /static"
}

/// The body of a 500 reply when the page could not be rendered; the
/// renderer's own message follows the fixed text.
pub fn render_failure_message(detail: &str) -> (r: String)
    ensures
        r@ == "Failed to render template. Error: "@ + detail@,
{
    let mut message = String::from_str("Failed to render template. Error: ");
    message.append(detail);
    message
}

/// The body of a 500 reply when the readings could not be read or decoded.
pub fn read_failure_message() -> (r: &'static str)
    ensures
        r@ == "Could not read the tap readings"@,
{
    "Could not read the tap readings"
}

/// The body of a 500 reply when a file could not be served.
pub fn file_failure_message() -> (r: &'static str)
    ensures
        r@ == "Something went wrong..."@,
{
    "Something went wrong..."
}

/// The status of a reply to a sign-up, by whether its body decoded.
pub fn form_status(decoded: bool) -> (r: u16)
    ensures
        decoded ==> r == 200,
        !decoded ==> r == 400,
{
    if decoded {
        200
    } else {
        400
    }
}

/// The sign-up page: a form with a name and an email field, posting back to
/// the same path.
pub fn form_page() -> (r: &'static str)
    ensures
        r@ == FORM_PAGE@,
{
    FORM_PAGE
}

pub const FORM_PAGE: &'static str = r#"
        <!doctype html>
        <html>
            <head></head>
            <body>
                <form action="/form" method="post">
                    <label for="name">
                        Enter your name:
                        <input type="text" name="name">
                    </label>
                    <label>
                        Enter your email:
                        <input type="text" name="email">
                    </label>
                    <input type="submit" value="Subscribe!">
                </form>
            </body>
        </html>
        "#;

} // verus!
