//! Accessible HTML helpers for WebView UIs (the older `labelled` surface).

use vstd::prelude::*;
use crate::a11y::label::{escape_attr_spec, img};

verus! {

/// Wrap a glyph in a labelled image role for screen readers: the same
/// snippet as `a11y::label::img`, of which this is the older name. The label
/// is escaped for an attribute value.
pub fn labelled(glyph: &str, aria_label: &str) -> (r: String)
    ensures
        r@ == "<span role=\"img\" aria-label=\""@ + escape_attr_spec(aria_label@) + "\">"@ + glyph@
            + "</span>"@,
{
    img(glyph, aria_label)
}

} // verus!
