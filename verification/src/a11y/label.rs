//! Labelled graphics and control naming helpers.

use vstd::prelude::*;
use crate::text::push_char;

verus! {

/// What one character of an attribute value becomes once escaped.
pub open spec fn attr_char(c: char) -> Seq<char> {
    if c == '&' {
        "&amp;"@
    } else if c == '"' {
        "&quot;"@
    } else if c == '<' {
        "&lt;"@
    } else {
        seq![c]
    }
}

/// `s` with `&`, `"` and `<` replaced by their HTML entities.
pub open spec fn escape_attr_spec(s: Seq<char>) -> Seq<char>
    decreases s.len(),
{
    if s.len() == 0 {
        Seq::empty()
    } else {
        escape_attr_spec(s.drop_last()) + attr_char(s.last())
    }
}

/// An escaped attribute value holds no `"` and no `<`: a label can neither
/// close the attribute nor open a tag.
pub proof fn escaped_attr_is_inert(s: Seq<char>)
    ensures
        forall|i: int|
            0 <= i < escape_attr_spec(s).len() ==> #[trigger] escape_attr_spec(s)[i] != '"'
                && escape_attr_spec(s)[i] != '<',
    decreases s.len(),
{
    reveal_strlit("&amp;");
    reveal_strlit("&quot;");
    reveal_strlit("&lt;");
    if s.len() > 0 {
        escaped_attr_is_inert(s.drop_last());
        let a = escape_attr_spec(s.drop_last());
        let b = attr_char(s.last());
        assert forall|i: int| 0 <= i < (a + b).len() implies #[trigger] (a + b)[i] != '"' && (a
            + b)[i] != '<' by {
            if i >= a.len() {
                assert((a + b)[i] == b[i - a.len()]);
            }
        }
    }
}

/// A label with no `&`, `"` or `<` is kept as it is.
pub proof fn plain_attr_is_kept(s: Seq<char>)
    requires
        forall|i: int| 0 <= i < s.len() ==> #[trigger] s[i] != '&' && s[i] != '"' && s[i] != '<',
    ensures
        escape_attr_spec(s) == s,
    decreases s.len(),
{
    if s.len() > 0 {
        plain_attr_is_kept(s.drop_last());
        assert(s.drop_last().push(s.last()) =~= s);
        assert(s[s.len() - 1] == s.last());
    }
}

/// Append the attribute-escaped form of `s` to `out`.
pub(crate) fn push_escaped_attr(out: &mut String, s: &str)
    ensures
        final(out)@ == old(out)@ + escape_attr_spec(s@),
{
    let n = s.unicode_len();
    let mut i: usize = 0;
    while i < n
        invariant
            n == s@.len(),
            i <= n,
            out@ == old(out)@ + escape_attr_spec(s@.subrange(0, i as int)),
        decreases n - i,
    {
        let c = s.get_char(i);
        if c == '&' {
            out.append("&amp;");
        } else if c == '"' {
            out.append("&quot;");
        } else if c == '<' {
            out.append("&lt;");
        } else {
            push_char(out, c);
        }
        proof {
            assert(s@.subrange(0, i + 1).drop_last() =~= s@.subrange(0, i as int));
            assert(s@.subrange(0, i + 1).last() == c);
        }
        i = i + 1;
    }
    proof {
        assert(s@.subrange(0, n as int) =~= s@);
    }
}

/// `s` with `&`, `"` and `<` replaced by their HTML entities.
fn escape_attr(s: &str) -> (r: String)
    ensures
        r@ == escape_attr_spec(s@),
{
    let mut out = String::new();
    push_escaped_attr(&mut out, s);
    out
}

/// Wrap a glyph in a labelled image role for screen readers.
pub fn img(glyph: &str, aria_label: &str) -> (r: String)
    ensures
        r@ == "<span role=\"img\" aria-label=\""@ + escape_attr_spec(aria_label@) + "\">"@
            + glyph@ + "</span>"@,
{
    let safe = escape_attr(aria_label);
    let mut s = String::from_str("<span role=\"img\" aria-label=\"");
    s.append(safe.as_str());
    s.append("\">");
    s.append(glyph);
    s.append("</span>");
    s
}

/// Associate visible text with an explicit accessible name via `aria-label`.
/// Both the label and the visible text are escaped.
pub fn named(visible: &str, aria_label: &str) -> (r: String)
    ensures
        r@ == "<span aria-label=\""@ + escape_attr_spec(aria_label@) + "\">"@
            + escape_attr_spec(visible@) + "</span>"@,
{
    let mut s = String::from_str("<span aria-label=\"");
    push_escaped_attr(&mut s, aria_label);
    s.append("\">");
    push_escaped_attr(&mut s, visible);
    s.append("</span>");
    s
}

} // verus!
