//! Cutting a sequence of items into consecutive chunks of a fixed size.
use vstd::prelude::*;

verus! {

/// Consecutive chunks of `size` items, the last one possibly shorter; none
/// when `size` is zero or there are no items.
pub open spec fn spec_chunks<T>(s: Seq<T>, size: nat) -> Seq<Seq<T>>
    decreases s.len(),
{
    if size == 0 || s.len() == 0 {
        Seq::empty()
    } else if s.len() <= size {
        seq![s]
    } else {
        seq![s.take(size as int)] + spec_chunks(s.skip(size as int), size)
    }
}

pub open spec fn vec_views<T>(v: Seq<Vec<T>>) -> Seq<Seq<T>> {
    v.map_values(|x: Vec<T>| x@)
}

/// Cuts `items` into consecutive chunks of `size`, in order.
pub fn chunk_iter<T>(items: Vec<T>, size: usize) -> (r: Vec<Vec<T>>)
    ensures
        vec_views(r@) == spec_chunks(items@, size as nat),
{
    let mut out: Vec<Vec<T>> = Vec::new();
    if size == 0 {
        assert(vec_views(out@) =~= spec_chunks(items@, 0));
        return out;
    }
    let ghost all = items@;
    let mut rest = items;
    assert(vec_views(out@) + spec_chunks(rest@, size as nat) =~= spec_chunks(all, size as nat));
    while rest.len() > size
        invariant
            size > 0,
            vec_views(out@) + spec_chunks(rest@, size as nat) == spec_chunks(all, size as nat),
        decreases rest.len(),
    {
        let ghost before = rest@;
        let tail = rest.split_off(size);
        let ghost prev = vec_views(out@);
        out.push(rest);
        assert(vec_views(out@) =~= prev.push(before.take(size as int)));
        assert(before.skip(size as int) =~= tail@);
        assert(spec_chunks(before, size as nat) == seq![before.take(size as int)] + spec_chunks(
            tail@,
            size as nat,
        ));
        assert(vec_views(out@) + spec_chunks(tail@, size as nat) =~= prev + spec_chunks(
            before,
            size as nat,
        ));
        rest = tail;
    }
    if rest.len() > 0 {
        let ghost before = rest@;
        let ghost prev = vec_views(out@);
        out.push(rest);
        assert(vec_views(out@) =~= prev + spec_chunks(before, size as nat));
    } else {
        assert(vec_views(out@) =~= vec_views(out@) + spec_chunks(rest@, size as nat));
    }
    out
}

} // verus!
