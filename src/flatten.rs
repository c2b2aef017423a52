use vstd::prelude::*;

verus! {

/// The items of each inner sequence of `outer`, one inner sequence after
/// another.
pub open spec fn concat<T>(outer: Seq<Vec<T>>) -> Seq<T>
    decreases outer.len(),
{
    if outer.len() == 0 {
        Seq::empty()
    } else {
        outer[0]@ + concat(outer.drop_first())
    }
}

/// A cursor over the items of a sequence of sequences, in order. It takes an
/// inner sequence from the outer one only when the previous one is used up.
pub struct Flatten<T> {
    outer: Vec<Vec<T>>,
    inner: Option<Vec<T>>,
}

impl<T> Flatten<T> {
    /// The items still to come, in the order they come.
    pub closed spec fn remaining(&self) -> Seq<T> {
        match self.inner {
            Some(v) => v@ + concat(self.outer@),
            None => concat(self.outer@),
        }
    }

    fn new(outer: Vec<Vec<T>>) -> (r: Self)
        ensures
            r.remaining() == concat(outer@),
    {
        Flatten { outer, inner: None }
    }

    /// The next item, or `None` once every inner sequence is used up.
    pub fn next(&mut self) -> (r: Option<T>)
        ensures
            match r {
                Some(x) => old(self).remaining().len() > 0 && x == old(self).remaining()[0]
                    && final(self).remaining() == old(self).remaining().drop_first(),
                None => old(self).remaining().len() == 0 && final(self).remaining().len() == 0,
            },
    {
        let ghost start = self.remaining();
        loop
            invariant
                self.remaining() == start,
                old(self).remaining() == start,
            decreases 2 * self.outer@.len() + (if self.inner.is_some() { 1int } else { 0 }),
        {
            let mut slot: Option<Vec<T>> = None;
            std::mem::swap(&mut slot, &mut self.inner);
            if let Some(mut inner) = slot {
                if inner.len() > 0 {
                    let ghost before = inner@;
                    let x = inner.remove(0);
                    self.inner = Some(inner);
                    proof {
                        assert(start == before + concat(self.outer@));
                        assert(start[0] == x);
                        assert(self.remaining() =~= start.drop_first());
                    }
                    return Some(x);
                }
                assert(self.remaining() =~= start);
            }
            if self.outer.len() == 0 {
                assert(start.len() == 0);
                return None;
            }
            let ghost rest = self.outer@;
            let first = self.outer.remove(0);
            proof {
                assert(self.outer@ =~= rest.drop_first());
            }
            self.inner = Some(first);
        }
    }
}

/// A cursor over the items of the inner sequences of `outer`, in order.
pub fn flatten<T>(outer: Vec<Vec<T>>) -> (r: Flatten<T>)
    ensures
        r.remaining() == concat(outer@),
{
    Flatten::new(outer)
}

/// Flattening an empty outer sequence gives nothing; a single inner sequence
/// gives its own items; two inner sequences give the items of the first,
/// then those of the second.
pub proof fn lemma_concat_shapes<T>(a: Vec<T>, b: Vec<T>)
    ensures
        concat(Seq::<Vec<T>>::empty()).len() == 0,
        concat(seq![a]) == a@,
        concat(seq![a, b]) == a@ + b@,
{
    let e = Seq::<Vec<T>>::empty();
    assert(concat(e) == Seq::<T>::empty());
    assert(seq![a][0] == a);
    assert(seq![a, b][0] == a);
    assert(seq![b][0] == b);
    assert(seq![a].drop_first() =~= e);
    assert(seq![a, b].drop_first() =~= seq![b]);
    assert(seq![b].drop_first() =~= Seq::<Vec<T>>::empty());
    assert(concat(seq![a]) =~= a@);
    assert(concat(seq![b]) =~= b@);
}

} // verus!
