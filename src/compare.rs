//! Finding the first line at which two texts differ.
use vstd::prelude::*;

verus! {

/// Whether line `i` (counted from zero) is within both texts and differs
/// between them.
pub open spec fn differs_at(a: Seq<Seq<char>>, b: Seq<Seq<char>>, i: int) -> bool {
    0 <= i < a.len() && i < b.len() && a[i] != b[i]
}

/// The lines of a text, each as its characters.
pub open spec fn lines_of(v: Seq<String>) -> Seq<Seq<char>> {
    v.map_values(|s: String| s@)
}

/// Compares two texts line by line over the lines that both have, and gives
/// the number, counted from one, of the first line that differs; `None`
/// when the shorter text is a prefix of the longer one.
pub fn first_difference(a: &Vec<String>, b: &Vec<String>) -> (r: Option<usize>)
    ensures
        match r {
            Some(k) => 1 <= k && differs_at(lines_of(a@), lines_of(b@), k - 1)
                && forall|j: int| 0 <= j < k - 1 ==> !differs_at(lines_of(a@), lines_of(b@), j),
            None => forall|j: int| !differs_at(lines_of(a@), lines_of(b@), j),
        },
{
    let mut i: usize = 0;
    while i < a.len() && i < b.len()
        invariant
            i <= a.len(),
            forall|j: int| 0 <= j < i ==> !differs_at(lines_of(a@), lines_of(b@), j),
        decreases a.len() - i,
    {
        if a[i] != b[i] {
            return Some(i + 1);
        }
        i = i + 1;
    }
    None
}

} // verus!
