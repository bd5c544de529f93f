use vstd::prelude::*;
use vstd::string::StringExecFns;

verus! {

/// A character as HTML text: the seven characters that could break out of
/// markup become entities, every other one stays.
pub open spec fn escaped_char(c: char) -> Seq<char> {
    if c == '<' {
        seq!['&', 'l', 't', ';']
    } else if c == '>' {
        seq!['&', 'g', 't', ';']
    } else if c == '"' {
        seq!['&', 'q', 'u', 'o', 't', ';']
    } else if c == '&' {
        seq!['&', 'a', 'm', 'p', ';']
    } else if c == '\'' {
        seq!['&', '#', 'x', '2', '7', ';']
    } else if c == '`' {
        seq!['&', '#', 'x', '6', '0', ';']
    } else if c == '=' {
        seq!['&', '#', 'x', '3', 'D', ';']
    } else {
        seq![c]
    }
}

/// Text made safe to embed in HTML, character by character.
pub open spec fn html_escaped(s: Seq<char>) -> Seq<char>
    decreases s.len(),
{
    if s.len() == 0 {
        Seq::empty()
    } else {
        escaped_char(s[0]) + html_escaped(s.drop_first())
    }
}

/// The markup that stands for a line break.
pub open spec fn break_mark() -> Seq<char> {
    seq!['<', '/', 'b', 'r', '>']
}

/// Text whose line breaks (CR LF, LF or CR) each become one break mark.
pub open spec fn breaks_marked(s: Seq<char>) -> Seq<char>
    decreases s.len(),
{
    if s.len() == 0 {
        Seq::empty()
    } else if s.len() >= 2 && s[0] == '\r' && s[1] == '\n' {
        break_mark() + breaks_marked(s.subrange(2, s.len() as int))
    } else if s[0] == '\n' || s[0] == '\r' {
        break_mark() + breaks_marked(s.drop_first())
    } else {
        seq![s[0]] + breaks_marked(s.drop_first())
    }
}

/// Relies on handlebars::html_escape: it maps each character on its own,
/// `<`, `>`, `"`, `&`, `'`, backtick and `=` to their entities, any other to itself.
#[verifier::external_body]
fn escape_html(s: &str) -> (r: String)
    ensures
        r@ == html_escaped(s@),
{
    handlebars::html_escape(s)
}

/// Relies on regex's Regex::replace_all with the pattern `\r\n|\n|\r`:
/// leftmost-first, non-overlapping matches, so CR LF is one match, and each
/// match is replaced by `with` (which holds no `$`).
#[verifier::external_body]
fn replace_line_breaks(s: &str, with: &str) -> (r: String)
    requires
        with@ == break_mark(),
    ensures
        r@ == breaks_marked(s@),
{
    regex::Regex::new(r"(\r\n|\n|\r)").unwrap().replace_all(s, with).to_string()
}

/// A message body as HTML: escaped, then each line break marked.
pub fn breakline(s: &str) -> (r: String)
    ensures
        r@ == breaks_marked(html_escaped(s@)),
{
    let escaped = escape_html(s);
    let mut mark = String::new();
    mark.append("</br>");
    proof {
        reveal_strlit("</br>");
        assert(mark@ =~= break_mark());
    }
    replace_line_breaks(escaped.as_str(), mark.as_str())
}

/// The UTC calendar date of a timestamp, written `YYYY-MM-DD`.
pub uninterp spec fn date_text(ts: int) -> Seq<char>;

/// The UTC date and time of a timestamp, written `YYYY-MM-DD HH:MM:SS`.
pub uninterp spec fn datetime_text(ts: int) -> Seq<char>;

/// The day since the Unix epoch that a timestamp falls on; two timestamps
/// share a UTC calendar date exactly when they share this number.
pub open spec fn day_of(ts: int) -> int {
    ts / 86400
}

/// Relies on chrono's DateTime::from_timestamp (defined on every `u32`
/// second) and the Display of NaiveDate: the text depends on the timestamp alone.
#[verifier::external_body]
pub(crate) fn date_label(ts: u32) -> (r: String)
    ensures
        r@ == date_text(ts as int),
{
    chrono::DateTime::from_timestamp(ts as i64, 0).unwrap().date_naive().to_string()
}

/// Relies on chrono's DateTime::from_timestamp (defined on every `u32`
/// second) and the Display of NaiveDateTime: the text depends on the timestamp alone.
#[verifier::external_body]
pub(crate) fn datetime_label(ts: u32) -> (r: String)
    ensures
        r@ == datetime_text(ts as int),
{
    chrono::DateTime::from_timestamp(ts as i64, 0).unwrap().naive_utc().to_string()
}

} // verus!
