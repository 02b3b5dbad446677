//! Byte-level helpers: text fields, splitting on a separator, joining.
use vstd::prelude::*;

verus! {

/// The views of a sequence of byte vectors.
pub open spec fn texts(v: Seq<Vec<u8>>) -> Seq<Seq<u8>> {
    v.map_values(|x: Vec<u8>| x@)
}

/// A field that a tab-separated line can carry: not empty, and free of tab,
/// line feed and carriage return.
pub open spec fn is_field_text(s: Seq<u8>) -> bool {
    s.len() > 0 && forall|i: int|
        0 <= i < s.len() ==> #[trigger] s[i] != 9u8 && s[i] != 10u8 && s[i] != 13u8
}

/// The pieces of `s` between occurrences of `sep`; always at least one piece.
pub open spec fn split_on(s: Seq<u8>, sep: u8) -> Seq<Seq<u8>>
    decreases s.len(),
{
    if s.len() == 0 {
        seq![Seq::<u8>::empty()]
    } else {
        let prev = split_on(s.drop_last(), sep);
        if s.last() == sep {
            prev.push(Seq::<u8>::empty())
        } else {
            prev.update(prev.len() - 1, prev.last().push(s.last()))
        }
    }
}

/// The pieces joined with `sep` between each two.
pub open spec fn join_with(parts: Seq<Seq<u8>>, sep: u8) -> Seq<u8>
    decreases parts.len(),
{
    if parts.len() == 0 {
        Seq::<u8>::empty()
    } else if parts.len() == 1 {
        parts[0]
    } else {
        join_with(parts.drop_last(), sep).push(sep) + parts.last()
    }
}

pub proof fn lemma_split_on_nonempty(s: Seq<u8>, sep: u8)
    ensures
        split_on(s, sep).len() > 0,
    decreases s.len(),
{
    if s.len() > 0 {
        lemma_split_on_nonempty(s.drop_last(), sep);
    }
}

pub open spec fn lacks(s: Seq<u8>, b: u8) -> bool {
    forall|i: int| 0 <= i < s.len() ==> #[trigger] s[i] != b
}

/// Appending bytes free of the separator extends the last piece.
pub proof fn lemma_split_append(a: Seq<u8>, b: Seq<u8>, sep: u8)
    requires
        lacks(b, sep),
    ensures
        split_on(a + b, sep) == split_on(a, sep).update(
            split_on(a, sep).len() - 1,
            split_on(a, sep).last() + b,
        ),
    decreases b.len(),
{
    lemma_split_on_nonempty(a, sep);
    if b.len() == 0 {
        assert(a + b =~= a);
        assert(split_on(a, sep).last() + b =~= split_on(a, sep).last());
        assert(split_on(a, sep).update(split_on(a, sep).len() - 1, split_on(a, sep).last())
            =~= split_on(a, sep));
    } else {
        let b1 = b.drop_last();
        assert(lacks(b1, sep));
        lemma_split_append(a, b1, sep);
        assert((a + b).drop_last() =~= a + b1);
        assert((a + b).last() == b.last());
        let sa = split_on(a, sep);
        assert(sa.last() + b =~= (sa.last() + b1).push(b.last()));
        assert(split_on(a + b, sep) =~= sa.update(sa.len() - 1, sa.last() + b));
    }
}

/// Splitting what was joined gives the pieces back, where no piece holds
/// the separator.
pub proof fn lemma_split_join(parts: Seq<Seq<u8>>, sep: u8)
    requires
        parts.len() > 0,
        forall|i: int| 0 <= i < parts.len() ==> lacks(#[trigger] parts[i], sep),
    ensures
        split_on(join_with(parts, sep), sep) == parts,
    decreases parts.len(),
{
    if parts.len() == 1 {
        let e = Seq::<u8>::empty();
        lemma_split_append(e, parts[0], sep);
        assert(e + parts[0] =~= parts[0]);
        assert(split_on(e, sep).last() + parts[0] =~= parts[0]);
        assert(split_on(e, sep).update(0, parts[0]) =~= parts);
    } else {
        let init = parts.drop_last();
        lemma_split_join(init, sep);
        let x = join_with(init, sep).push(sep);
        assert(x.drop_last() =~= join_with(init, sep));
        assert(split_on(x, sep) == init.push(Seq::<u8>::empty()));
        lemma_split_append(x, parts.last(), sep);
        assert(init.push(Seq::<u8>::empty()).last() + parts.last() =~= parts.last());
        assert(init.push(Seq::<u8>::empty()).update(init.len() as int, parts.last()) =~= parts);
    }
}

/// Joining pieces that lack a byte other than the separator gives text
/// that lacks it too.
pub proof fn lemma_join_lacks(parts: Seq<Seq<u8>>, sep: u8, b: u8)
    requires
        sep != b,
        forall|i: int| 0 <= i < parts.len() ==> lacks(#[trigger] parts[i], b),
    ensures
        lacks(join_with(parts, sep), b),
    decreases parts.len(),
{
    if parts.len() > 1 {
        lemma_join_lacks(parts.drop_last(), sep, b);
        let j = join_with(parts.drop_last(), sep).push(sep);
        assert(lacks(parts.last(), b));
        assert forall|i: int| 0 <= i < (j + parts.last()).len() implies #[trigger] (j
            + parts.last())[i] != b by {
            if i < j.len() - 1 {
                assert((j + parts.last())[i] == join_with(parts.drop_last(), sep)[i]);
            } else if i >= j.len() {
                assert((j + parts.last())[i] == parts.last()[i - j.len()]);
            }
        }
    } else if parts.len() == 1 {
        assert(lacks(parts[0], b));
    }
}

/// Copies bytes into a new vector.
pub fn copy_text(s: &[u8]) -> (r: Vec<u8>)
    ensures
        r@ == s@,
{
    let mut r: Vec<u8> = Vec::new();
    let mut i: usize = 0;
    while i < s.len()
        invariant
            0 <= i <= s.len(),
            r@ == s@.take(i as int),
        decreases s.len() - i,
    {
        r.push(s[i]);
        i = i + 1;
        assert(r@ =~= s@.take(i as int));
    }
    assert(s@.take(s@.len() as int) =~= s@);
    r
}

/// Appends bytes to a vector.
pub fn push_text(out: &mut Vec<u8>, s: &[u8])
    ensures
        final(out)@ == old(out)@ + s@,
{
    let mut i: usize = 0;
    while i < s.len()
        invariant
            0 <= i <= s.len(),
            out@ == old(out)@ + s@.take(i as int),
        decreases s.len() - i,
    {
        out.push(s[i]);
        i = i + 1;
        assert(out@ =~= old(out)@ + s@.take(i as int));
    }
    assert(s@.take(s@.len() as int) =~= s@);
}

/// Tells whether `s` can stand as one field of a tab-separated line.
pub fn field_text(s: &[u8]) -> (r: bool)
    ensures
        r == is_field_text(s@),
{
    if s.len() == 0 {
        return false;
    }
    let mut i: usize = 0;
    while i < s.len()
        invariant
            0 <= i <= s.len(),
            forall|j: int| 0 <= j < i ==> #[trigger] s@[j] != 9u8 && s@[j] != 10u8 && s@[j] != 13u8,
        decreases s.len() - i,
    {
        if s[i] == 9u8 || s[i] == 10u8 || s[i] == 13u8 {
            return false;
        }
        i = i + 1;
    }
    true
}

/// Splits `s` at every occurrence of `sep`.
pub fn split_bytes(s: &[u8], sep: u8) -> (r: Vec<Vec<u8>>)
    ensures
        texts(r@) == split_on(s@, sep),
{
    let mut r: Vec<Vec<u8>> = Vec::new();
    let mut cur: Vec<u8> = Vec::new();
    let mut i: usize = 0;
    while i < s.len()
        invariant
            0 <= i <= s.len(),
            texts(r@).push(cur@) == split_on(s@.take(i as int), sep),
        decreases s.len() - i,
    {
        let c = s[i];
        let ghost before = texts(r@).push(cur@);
        assert(s@.take(i + 1).drop_last() =~= s@.take(i as int));
        if c == sep {
            r.push(cur);
            cur = Vec::new();
            assert(texts(r@).push(cur@) =~= before.push(Seq::<u8>::empty()));
        } else {
            cur.push(c);
            assert(texts(r@).push(cur@) =~= before.update(
                before.len() - 1,
                before.last().push(c),
            ));
        }
        i = i + 1;
    }
    r.push(cur);
    assert(s@.take(s@.len() as int) =~= s@);
    assert(texts(r@) =~= split_on(s@, sep)) by {
        assert(texts(r@) =~= split_on(s@.take(s@.len() as int), sep));
    }
    r
}

/// Appends the pieces joined with `sep`.
pub fn push_joined(out: &mut Vec<u8>, parts: &Vec<Vec<u8>>, sep: u8)
    ensures
        final(out)@ == old(out)@ + join_with(texts(parts@), sep),
{
    let mut i: usize = 0;
    while i < parts.len()
        invariant
            0 <= i <= parts.len(),
            out@ == old(out)@ + join_with(texts(parts@.take(i as int)), sep),
        decreases parts.len() - i,
    {
        let ghost prev = out@;
        if i > 0 {
            out.push(sep);
        }
        push_text(out, parts[i].as_slice());
        i = i + 1;
        proof {
            let t = texts(parts@.take(i as int));
            assert(t.drop_last() =~= texts(parts@.take(i - 1)));
            assert(t.last() == parts@[i - 1]@);
            if i == 1 {
                assert(t.len() == 1);
                assert(out@ =~= old(out)@ + join_with(t, sep));
            } else {
                assert(out@ =~= old(out)@ + join_with(t, sep));
            }
        }
    }
    assert(parts@.take(parts@.len() as int) =~= parts@);
}

} // verus!
