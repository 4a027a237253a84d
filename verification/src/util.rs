//! Helpers shared by the rest of the crate.

use vstd::prelude::*;

verus! {

proof fn lemma_split_update<T>(s: Seq<T>, mid: int, i: int, x: T, y: T)
    requires
        0 <= i < mid < s.len(),
    ensures
        s.subrange(0, mid).update(i, x) + s.subrange(mid, s.len() as int).update(0, y) == s.update(
            i,
            x,
        ).update(mid, y),
        s.update(mid, y).update(i, x) == s.update(i, x).update(mid, y),
{
    assert(s.subrange(0, mid).update(i, x) + s.subrange(mid, s.len() as int).update(0, y)
        =~= s.update(i, x).update(mid, y));
    assert(s.update(mid, y).update(i, x) =~= s.update(i, x).update(mid, y));
}

/// Mutable access to two different elements of a vector at once.
pub fn get_two_mut_unchecked<T>(values: &mut Vec<T>, index1: usize, index2: usize) -> (r: (
    &mut T,
    &mut T,
))
    requires
        index1 != index2,
        index1 < old(values).len(),
        index2 < old(values).len(),
    ensures
        *r.0 == old(values)[index1 as int],
        *r.1 == old(values)[index2 as int],
        final(values)@ == old(values)@.update(index1 as int, *final(r.0)).update(
            index2 as int,
            *final(r.1),
        ),
{
    let s = values.as_mut_slice();
    if index1 < index2 {
        let (lo, hi) = s.split_at_mut(index2);
        let a = &mut lo[index1];
        let b = &mut hi[0];
        proof {
            lemma_split_update(old(values)@, index2 as int, index1 as int, *final(a), *final(b));
        }
        (a, b)
    } else {
        let (lo, hi) = s.split_at_mut(index1);
        let b = &mut lo[index2];
        let a = &mut hi[0];
        proof {
            lemma_split_update(old(values)@, index1 as int, index2 as int, *final(b), *final(a));
        }
        (a, b)
    }
}

/// Mutable access to two elements of a vector at once, or `None` where an
/// index is out of bounds. The indices must differ.
pub fn get_two_mut<T>(values: &mut Vec<T>, index1: usize, index2: usize) -> (r: Option<
    (&mut T, &mut T),
>)
    requires
        index1 != index2,
    ensures
        r.is_some() == (index1 < old(values).len() && index2 < old(values).len()),
        r matches Some(p) ==> {
            &&& *p.0 == old(values)[index1 as int]
            &&& *p.1 == old(values)[index2 as int]
            &&& final(values)@ == old(values)@.update(index1 as int, *final(p.0)).update(
                index2 as int,
                *final(p.1),
            )
        },
        r.is_none() ==> final(values)@ == old(values)@,
{
    if index1 < values.len() && index2 < values.len() {
        Some(get_two_mut_unchecked(values, index1, index2))
    } else {
        None
    }
}

} // verus!
