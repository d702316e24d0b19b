//! Page annotations. Two shapes share one table and one lifecycle (page load,
//! move, delete): a text label, and a filled rectangle used to blank out
//! something on the scan. The table itself is the caller's part.

use vstd::prelude::*;

use crate::text::chars_of;

verus! {

#[derive(Clone, Copy, Debug, PartialEq, Eq, Structural)]
pub enum AnnotationKind {
    Text,
    Rect,
}

impl AnnotationKind {
    /// The kind stored in the `kind` column: `rect` is a rectangle, anything
    /// else (older rows default to `text`) a text label.
    pub fn from_db(s: &str) -> (r: Self)
        ensures
            r == (if s@ == seq!['r', 'e', 'c', 't'] {
                AnnotationKind::Rect
            } else {
                AnnotationKind::Text
            }),
    {
        let c = chars_of(s);
        if c.len() == 4 && c[0] == 'r' && c[1] == 'e' && c[2] == 'c' && c[3] == 't' {
            assert(c@ =~= seq!['r', 'e', 'c', 't']);
            AnnotationKind::Rect
        } else {
            AnnotationKind::Text
        }
    }
}

} // verus!
