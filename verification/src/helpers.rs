//! Column text for the table renderer: pad a short text with spaces, or
//! truncate a long one with a trailing ellipsis.

use vstd::prelude::*;

verus! {

/// What the `ellipse` crate's truncation returns for a text and a width; a
/// function of the two alone.
pub uninterp spec fn ellipse_truncated(s: Seq<char>, len: usize) -> Seq<char>;

/// Relies on `ellipse`'s `truncate_ellipse`: truncation to `len` grapheme
/// clusters with `...` appended. A text of no more clusters than `len` comes
/// back unchanged — and a cluster holds at least one character, so a text of
/// no more characters than `len` does too. A width of zero gives the empty
/// text.
#[verifier::external_body]
fn truncate_ellipse_str(text: &str, len: usize) -> (r: String)
    ensures
        r@ == ellipse_truncated(text@, len),
        text@.len() <= len ==> r@ == text@,
        len == 0 ==> r@.len() == 0,
{
    ellipse::Ellipse::truncate_ellipse(&text, len).into_owned()
}

/// The column text of `text` at `width`: the text padded with spaces when it
/// fits, nothing at width zero, dots up to width three, else the truncation
/// with an ellipsis.
pub open spec fn column_of(text: Seq<char>, width: usize) -> Seq<char> {
    if text.len() <= width {
        text + Seq::new((width - text.len()) as nat, |i: int| ' ')
    } else if width == 0 {
        Seq::<char>::empty()
    } else if width <= 3 {
        Seq::new(width as nat, |i: int| '.')
    } else {
        ellipse_truncated(text, (width - 3) as usize)
    }
}

/// The column text of `text` at `width`, exactly as [`column_of`] says.
pub fn get_column_string(text: &str, width: usize) -> (r: String)
    ensures
        r@ == column_of(text@, width),
{
    let n = text.unicode_len();
    if n <= width {
        let mut s = String::from_str(text);
        let pad = width - n;
        for i in 0..pad
            invariant
                s@ == text@ + Seq::new(i as nat, |j: int| ' '),
        {
            s.append(" ");
            proof {
                reveal_strlit(" ");
                assert(s@ =~= text@ + Seq::new((i + 1) as nat, |j: int| ' '));
            }
        }
        s
    } else if width == 0 {
        let s = String::new();
        proof {
            assert(s@ =~= Seq::<char>::empty());
        }
        s
    } else if width <= 3 {
        let mut s = String::new();
        for i in 0..width
            invariant
                s@ == Seq::new(i as nat, |j: int| '.'),
        {
            s.append(".");
            proof {
                reveal_strlit(".");
                assert(s@ =~= Seq::new((i + 1) as nat, |j: int| '.'));
            }
        }
        s
    } else {
        truncate_ellipse_str(text, width - 3)
    }
}

} // verus!
