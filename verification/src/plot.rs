//! Text helpers for the plots.
use vstd::prelude::*;
use vstd::string::{StrSliceExecFns, StringExecFns};

verus! {

/// One character escaped for XML text.
pub open spec fn xml_escape_char(c: char) -> Seq<char> {
    if c == '&' {
        "&amp;"@
    } else if c == '<' {
        "&lt;"@
    } else if c == '>' {
        "&gt;"@
    } else {
        seq![c]
    }
}

/// The text with `&`, `<` and `>` escaped for XML; every other character is
/// kept.
pub open spec fn xml_escaped(s: Seq<char>) -> Seq<char>
    decreases s.len(),
{
    if s.len() == 0 {
        Seq::empty()
    } else {
        xml_escaped(s.drop_last()) + xml_escape_char(s.last())
    }
}

/// Escapes `&`, `<` and `>` for XML text.
pub fn xml_escape(s: &str) -> (r: String)
    ensures
        r@ == xml_escaped(s@),
{
    let n = s.unicode_len();
    let mut out = String::new();
    for i in 0..n
        invariant
            n == s@.len(),
            out@ == xml_escaped(s@.take(i as int)),
    {
        let c = s.get_char(i);
        if c == '&' {
            out.append("&amp;");
        } else if c == '<' {
            out.append("&lt;");
        } else if c == '>' {
            out.append("&gt;");
        } else {
            out.append(s.substring_char(i, i + 1));
        }
        assert(s@.take(i as int + 1).drop_last() == s@.take(i as int));
    }
    assert(s@.take(n as int) == s@);
    out
}

} // verus!
