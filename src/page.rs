use crate::tap::{displays_as, KegDisplay, Tap, TapReadings};
use crate::volume::written;
use vstd::prelude::*;

verus! {

/// What HTML escaping writes for one character.
pub open spec fn escape_char(c: char) -> Seq<char> {
    if c == '<' {
        "&lt;"@
    } else if c == '>' {
        "&gt;"@
    } else if c == '&' {
        "&amp;"@
    } else if c == '"' {
        "&quot;"@
    } else if c == '\'' {
        "&#x27;"@
    } else {
        seq![c]
    }
}

/// `s` with each character escaped for HTML text.
pub open spec fn html_escaped(s: Seq<char>) -> Seq<char>
    decreases s.len(),
{
    if s.len() == 0 {
        Seq::empty()
    } else {
        html_escaped(s.drop_last()) + escape_char(s.last())
    }
}

/// Relies on askama's `Html` escaper (askama_escape's `write_escaped`):
/// `<`, `>`, `&`, `"` and `'` become `&lt;`, `&gt;`, `&amp;`, `&quot;` and
/// `&#x27;`, and every other character is written as it is.
#[verifier::external_body]
fn escape_html(s: &str) -> (r: String)
    ensures
        r@ == html_escaped(s@),
{
    askama::MarkupDisplay::new_unsafe(s, askama::Html).to_string()
}

/// The start of the status page, up to the list of taps.
pub const PAGE_HEAD: &'static str = "<!doctype html>\n<html>\n    <head><title>Kegerator</title></head>\n    <body>\n        <h1>Taps</h1>\n        <ul>\n";

/// The end of the status page, after the list of taps.
pub const PAGE_FOOT: &'static str = "        </ul>\n    </body>\n</html>\n";

/// One line of the list: the tap's name, escaped, its percentage and the
/// volume left.
pub open spec fn item_of(t: Tap) -> Seq<char> {
    "            <li>"@ + html_escaped(t.name@) + ": "@ + t.state@ + "% ("@ + written(t.volume_left)
        + " left)</li>\n"@
}

/// The status page: the three taps in their places.
pub open spec fn page_of(d: KegDisplay) -> Seq<char> {
    PAGE_HEAD@ + item_of(d.tap_one) + item_of(d.tap_two) + item_of(d.tap_three) + PAGE_FOOT@
}

fn push_item(out: &mut String, t: &Tap)
    requires
        t.volume_left.wf(),
    ensures
        final(out)@ == old(out)@ + item_of(*t),
{
    out.append("            <li>");
    let name = escape_html(t.name.as_str());
    out.append(name.as_str());
    out.append(": ");
    out.append(t.state.as_str());
    out.append("% (");
    let volume = t.volume_left.to_text();
    out.append(volume.as_str());
    out.append(" left)</li>\n");
    assert(final(out)@ =~= old(out)@ + item_of(*t));
}

impl KegDisplay {
    pub open spec fn wf(self) -> bool {
        self.tap_one.volume_left.wf() && self.tap_two.volume_left.wf()
            && self.tap_three.volume_left.wf()
    }
}

/// The status page for three display records.
pub fn render_page(d: &KegDisplay) -> (r: String)
    requires
        d.wf(),
    ensures
        r@ == page_of(*d),
{
    let mut page = String::from_str(PAGE_HEAD);
    push_item(&mut page, &d.tap_one);
    push_item(&mut page, &d.tap_two);
    push_item(&mut page, &d.tap_three);
    page.append(PAGE_FOOT);
    assert(page@ =~= page_of(*d));
    page
}

/// Two displays of the same readings render to the same page, byte for
/// byte: the page depends on nothing but the readings.
pub proof fn lemma_page_repeatable(r: TapReadings, a: KegDisplay, b: KegDisplay)
    requires
        displays_as(r.tap_one, a.tap_one),
        displays_as(r.tap_two, a.tap_two),
        displays_as(r.tap_three, a.tap_three),
        displays_as(r.tap_one, b.tap_one),
        displays_as(r.tap_two, b.tap_two),
        displays_as(r.tap_three, b.tap_three),
    ensures
        page_of(a) == page_of(b),
{
}

} // verus!
