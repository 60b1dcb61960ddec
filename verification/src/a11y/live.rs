//! ARIA live-region HTML snippets for status updates.

use vstd::prelude::*;
use crate::text::push_char;

verus! {

/// What one character of element text becomes once escaped.
pub open spec fn text_char(c: char) -> Seq<char> {
    if c == '&' {
        "&amp;"@
    } else if c == '<' {
        "&lt;"@
    } else if c == '>' {
        "&gt;"@
    } else {
        seq![c]
    }
}

/// `s` with `&`, `<` and `>` replaced by their HTML entities.
pub open spec fn escape_text_spec(s: Seq<char>) -> Seq<char>
    decreases s.len(),
{
    if s.len() == 0 {
        Seq::empty()
    } else {
        escape_text_spec(s.drop_last()) + text_char(s.last())
    }
}

/// Escaped element text holds no `<` and no `>`: a message cannot open or
/// close a tag.
pub proof fn escaped_text_is_inert(s: Seq<char>)
    ensures
        forall|i: int|
            0 <= i < escape_text_spec(s).len() ==> #[trigger] escape_text_spec(s)[i] != '<'
                && escape_text_spec(s)[i] != '>',
    decreases s.len(),
{
    reveal_strlit("&amp;");
    reveal_strlit("&gt;");
    reveal_strlit("&lt;");
    if s.len() > 0 {
        escaped_text_is_inert(s.drop_last());
        let a = escape_text_spec(s.drop_last());
        let b = text_char(s.last());
        assert forall|i: int| 0 <= i < (a + b).len() implies #[trigger] (a + b)[i] != '<' && (a
            + b)[i] != '>' by {
            if i >= a.len() {
                assert((a + b)[i] == b[i - a.len()]);
            }
        }
    }
}

fn push_escaped_text(out: &mut String, s: &str)
    ensures
        final(out)@ == old(out)@ + escape_text_spec(s@),
{
    let n = s.unicode_len();
    let mut i: usize = 0;
    while i < n
        invariant
            n == s@.len(),
            i <= n,
            out@ == old(out)@ + escape_text_spec(s@.subrange(0, i as int)),
        decreases n - i,
    {
        let c = s.get_char(i);
        if c == '&' {
            out.append("&amp;");
        } else if c == '<' {
            out.append("&lt;");
        } else if c == '>' {
            out.append("&gt;");
        } else {
            push_char(out, c);
        }
        proof {
            assert(s@.subrange(0, i + 1).drop_last() =~= s@.subrange(0, i as int));
            assert(s@.subrange(0, i + 1).last() == c);
        }
        i = i + 1;
    }
    proof {
        assert(s@.subrange(0, n as int) =~= s@);
    }
}

/// `s` with `&`, `<` and `>` replaced by their HTML entities.
fn escape_text(s: &str) -> (r: String)
    ensures
        r@ == escape_text_spec(s@),
{
    let mut out = String::new();
    push_escaped_text(&mut out, s);
    out
}

/// The live-region snippet: a status `div` with the given politeness.
pub open spec fn region_spec(politeness: Seq<char>, message: Seq<char>) -> Seq<char> {
    "<div role=\"status\" aria-live=\""@ + politeness + "\">"@ + escape_text_spec(message)
        + "</div>"@
}

/// Polite live region -- announces when the user is idle.
pub fn polite(message: &str) -> (r: String)
    ensures
        r@ == region_spec("polite"@, message@),
{
    region("polite", message)
}

/// Assertive live region -- interrupts for urgent errors.
pub fn assertive(message: &str) -> (r: String)
    ensures
        r@ == region_spec("assertive"@, message@),
{
    region("assertive", message)
}

fn region(politely: &str, message: &str) -> (r: String)
    ensures
        r@ == region_spec(politely@, message@),
{
    let msg = escape_text(message);
    let mut s = String::from_str("<div role=\"status\" aria-live=\"");
    s.append(politely);
    s.append("\">");
    s.append(msg.as_str());
    s.append("</div>");
    s
}

} // verus!
