//! The progress display of a download: the share of the file fetched, and a
//! bar of forty cells that fills as the download goes on.

use vstd::prelude::*;
use crate::text::string_of;

verus! {

/// The cells of the bar that are filled: those at positions up to
/// `per_done * 4 / 10`.
pub open spec fn bar_cell(per_done: nat, t: int) -> char {
    if per_done * 4 / 10 < t {
        ' '
    } else {
        '='
    }
}

/// The bar for a download `per_done` percent done: `[`, forty cells of `=`
/// or space, `]`.
pub open spec fn progress_bar_spec(per_done: nat) -> Seq<char> {
    seq!['['] + Seq::new(40, |t: int| bar_cell(per_done, t)) + seq![']']
}

/// The bar for a download `per_done` percent done.
pub fn progress_bar(per_done: usize) -> (r: String)
    requires
        per_done * 4 <= usize::MAX,
    ensures
        r@ == progress_bar_spec(per_done as nat),
{
    let outa = per_done * 4 / 10;
    let mut cells: Vec<char> = Vec::new();
    cells.push('[');
    let mut t: usize = 0;
    while t < 40
        invariant
            t <= 40,
            outa == per_done * 4 / 10,
            cells@ =~= seq!['['] + Seq::new(t as nat, |u: int| bar_cell(per_done as nat, u)),
        decreases 40 - t,
    {
        if outa < t {
            cells.push(' ');
        } else {
            cells.push('=');
        }
        t = t + 1;
    }
    cells.push(']');
    string_of(&cells)
}

/// The share of a file fetched, in percent: `lsize * 100 / rsize`.
pub fn progress_percent(lsize: usize, rsize: usize) -> (r: usize)
    requires
        rsize > 0,
        lsize * 100 <= usize::MAX,
    ensures
        r as int == (lsize * 100) as int / (rsize as int),
{
    lsize * 100 / rsize
}

/// How many cells of the bar are filled: one more than `per_done * 4 / 10`,
/// and at most forty.
pub open spec fn filled_cells(per_done: nat) -> nat {
    if per_done * 4 / 10 + 1 < 40 {
        per_done * 4 / 10 + 1
    } else {
        40
    }
}

/// The bar is `[`, then its filled cells, then the empty ones, then `]`:
/// forty-two characters in all.
pub proof fn lemma_progress_bar_shape(per_done: nat)
    ensures
        progress_bar_spec(per_done) == seq!['['] + Seq::new(filled_cells(per_done), |t: int| '=')
            + Seq::new((40 - filled_cells(per_done)) as nat, |t: int| ' ') + seq![']'],
        progress_bar_spec(per_done).len() == 42,
{
    let k = filled_cells(per_done);
    let rhs = seq!['['] + Seq::new(k, |t: int| '=') + Seq::new((40 - k) as nat, |t: int| ' ')
        + seq![']'];
    assert(progress_bar_spec(per_done) =~= rhs);
}

} // verus!
