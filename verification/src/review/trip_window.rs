//! Which rows of a card's transactions the foreign-trip table shows: up to four before the
//! transaction under review and four after it.

use vstd::prelude::*;

verus! {

/// The rows `start..end` are shown; `earlier` rows before them and `later` rows after them
/// are summed up as omitted.
#[derive(Debug, Clone, Copy, PartialEq, Eq, Structural)]
pub struct TableWindow {
    pub start: usize,
    pub end: usize,
    pub earlier: usize,
    pub later: usize,
}

/// Row `p` is the first one marked as under review.
pub open spec fn is_first_marked(marked: Seq<bool>, p: int) -> bool {
    &&& 0 <= p < marked.len()
    &&& marked[p]
    &&& forall|k: int| 0 <= k < p ==> !marked[k]
}

/// The window of `len` rows around row `p`: four rows before it, itself and four after it,
/// as far as there are rows.
pub open spec fn window_around(len: int, p: int) -> TableWindow {
    let start = if p >= 4 { p - 4 } else { 0 };
    let end = if p + 5 <= len { p + 5 } else { len };
    TableWindow { start: start as usize, end: end as usize, earlier: start as usize, later: (len - end) as usize }
}

/// The rows the table shows: the window around the first row under review, or every row
/// when none is.
pub fn trip_table_window(marked: &Vec<bool>) -> (r: TableWindow)
    ensures
        (forall|k: int| 0 <= k < marked@.len() ==> !marked@[k]) ==> r == (TableWindow {
            start: 0,
            end: marked@.len() as usize,
            earlier: 0,
            later: 0,
        }),
        forall|p: int| #[trigger] is_first_marked(marked@, p) ==> r == window_around(marked@.len() as int, p),
{
    let len = marked.len();
    let mut i: usize = 0;
    while i < len
        invariant
            len == marked@.len(),
            i <= len,
            forall|k: int| 0 <= k < i ==> !marked@[k],
        decreases len - i,
    {
        if marked[i] {
            let start = if i >= 4 {
                i - 4
            } else {
                0
            };
            let end = if len - i >= 5 {
                i + 5
            } else {
                len
            };
            let r = TableWindow { start, end, earlier: start, later: len - end };
            proof {
                assert(is_first_marked(marked@, i as int));
                assert forall|p: int| #[trigger] is_first_marked(marked@, p) implies p == i by {
                    if p < i {
                        assert(!marked@[p]);
                    } else if p > i {
                        assert(!marked@[i as int]);
                    }
                }
            }
            return r;
        }
        i += 1;
    }
    TableWindow { start: 0, end: len, earlier: 0, later: 0 }
}

} // verus!
