//! Small sequence helpers shared by the framing code.

use vstd::prelude::*;

verus! {

/// Copies the elements `from..to` of a slice.
pub fn copy_range<S: Copy>(data: &[S], from: usize, to: usize) -> (res: Vec<S>)
    requires
        from <= to <= data@.len(),
    ensures
        res@ == data@.subrange(from as int, to as int),
{
    let mut res: Vec<S> = Vec::new();
    let mut i: usize = from;
    while i < to
        invariant
            from <= i <= to <= data@.len(),
            res@ == data@.subrange(from as int, i as int),
        decreases to - i,
    {
        res.push(data[i]);
        i += 1;
    }
    res
}

/// Appends a copy of `more` to `v`.
pub fn append_copy<S: Copy>(v: &mut Vec<S>, more: &[S])
    ensures
        final(v)@ == old(v)@ + more@,
{
    let mut i: usize = 0;
    while i < more.len()
        invariant
            i <= more@.len(),
            v@ == old(v)@ + more@.subrange(0, i as int),
        decreases more@.len() - i,
    {
        v.push(more[i]);
        i += 1;
    }
    assert(more@.subrange(0, more@.len() as int) == more@);
}

/// What a filter keeps was there before and passes.
pub proof fn lemma_filter_kept<A>(s: Seq<A>, pred: spec_fn(A) -> bool, i: int)
    requires
        0 <= i < s.filter(pred).len(),
    ensures
        s.contains(s.filter(pred)[i]),
        pred(s.filter(pred)[i]),
    decreases s.len(),
{
    reveal(Seq::filter);
    if s.len() > 0 {
        let before = s.drop_last();
        if i < before.filter(pred).len() {
            lemma_filter_kept(before, pred, i);
            let j = choose|j: int| 0 <= j < before.len() && before[j] == before.filter(pred)[i];
            assert(s[j] == s.filter(pred)[i]);
        } else {
            assert(s[s.len() - 1] == s.filter(pred)[i]);
        }
    }
}

} // verus!
