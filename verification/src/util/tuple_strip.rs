use vstd::prelude::*;

verus! {

/// Walks a sequence two neighbours at a time: (a, b), (b, c), (c, d), ...
#[derive(Clone, Debug)]
pub struct TupleStrip<T> {
    iter: Vec<T>,
    taken: usize,
    last: Option<T>,
}

/// The pairs of neighbours of `s` that start at position `start`.
pub open spec fn pairs_from<T>(s: Seq<T>, start: int) -> Seq<(T, T)> {
    let n = if s.len() - start - 1 > 0 { s.len() - start - 1 } else { 0 };
    Seq::new(n as nat, |i: int| (s[start + i], s[start + i + 1]))
}

impl<T: Copy> TupleStrip<T> {
    /// The items that the strip walks over.
    pub closed spec fn source(&self) -> Seq<T> {
        self.iter@
    }

    pub closed spec fn wf(&self) -> bool {
        &&& self.taken <= self.iter@.len()
        &&& (self.last is Some ==> self.taken >= 1 && self.last == Some(self.iter@[self.taken - 1]))
        &&& (self.last is None ==> self.taken == 0 || self.taken == self.iter@.len())
    }

    /// Number of items of the source already taken.
    pub closed spec fn taken(&self) -> int {
        self.taken as int
    }

    /// Position in the source of the first item of the next pair.
    pub closed spec fn start(&self) -> int {
        if self.last is Some { self.taken - 1 } else if self.taken == 0 { 0 } else { self.iter@.len() as int }
    }

    /// The pairs that are still to come.
    pub closed spec fn remaining(&self) -> Seq<(T, T)> {
        pairs_from(self.iter@, self.start())
    }

    /// Hands out the next pair of neighbours; `None` when there is none left.
    pub fn next(&mut self) -> (r: Option<(T, T)>)
        requires
            old(self).wf(),
        ensures
            final(self).wf(),
            final(self).source() == old(self).source(),
            old(self).remaining().len() > 0 ==> r == Some(old(self).remaining()[0])
                && final(self).remaining() == old(self).remaining().drop_first(),
            old(self).remaining().len() == 0 ==> r is None && final(self).remaining().len() == 0,
    {
        let ghost old_rem = self.remaining();
        let n = self.iter.len();
        if let Some(last) = self.last {
            if self.taken < n {
                let current = self.iter[self.taken];
                self.taken = self.taken + 1;
                self.last = Some(current);
                assert(self.remaining() =~= old_rem.drop_first());
                return Some((last, current));
            }
        } else {
            if self.taken < n {
                let last = self.iter[self.taken];
                self.taken = self.taken + 1;
                if self.taken < n {
                    let current = self.iter[self.taken];
                    self.taken = self.taken + 1;
                    self.last = Some(current);
                    assert(self.remaining() =~= old_rem.drop_first());
                    return Some((last, current));
                }
            }
        }
        assert(self.remaining().len() == 0);
        None
    }

    /// The number of pairs still to come, as both bounds: the count is
    /// exact.
    pub fn size_hint(&self) -> (r: (usize, Option<usize>))
        requires
            self.wf(),
        ensures
            r.0 == self.remaining().len(),
            r.1 == Some(r.0),
    {
        let n = self.iter.len();
        let start = if self.last.is_some() {
            self.taken - 1
        } else if self.taken == 0 {
            0
        } else {
            n
        };
        let left = if n - start > 0 { n - start - 1 } else { 0 };
        (left, Some(left))
    }
}

/// Starts walking `iter` two neighbours at a time.
pub fn tuple_strip<T: Copy>(iter: Vec<T>) -> (r: TupleStrip<T>)
    ensures
        r.wf(),
        r.source() == iter@,
        r.remaining() == pairs_from(iter@, 0),
{
    TupleStrip { iter, taken: 0, last: None }
}

/// Gives a sequence the `tuple_strip` walk.
pub trait IterUtil<T>: Sized {
    fn tuple_strip(self) -> TupleStrip<T>;
}

impl<T: Copy> IterUtil<T> for Vec<T> {
    #[inline]
    fn tuple_strip(self) -> (r: TupleStrip<T>)
        ensures
            r.wf(),
            r.source() == self@,
            r.remaining() == pairs_from(self@, 0),
    {
        tuple_strip(self)
    }
}

} // verus!
