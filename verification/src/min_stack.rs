//! Min stack: push, pop, top and minimum, each in O(1), by keeping the
//! minimum of every prefix alongside the values.
use vstd::prelude::*;

verus! {

/// The smallest value of a non-empty sequence.
pub open spec fn min_of(s: Seq<i32>) -> i32
    decreases s.len(),
{
    if s.len() <= 1 {
        s[0]
    } else {
        let m = min_of(s.drop_last());
        if s.last() < m {
            s.last()
        } else {
            m
        }
    }
}

pub struct MinStack {
    values: Vec<i32>,
    mins: Vec<i32>,
}

impl MinStack {
    /// The values, from bottom to top.
    pub closed spec fn view(&self) -> Seq<i32> {
        self.values@
    }

    pub closed spec fn wf(&self) -> bool {
        &&& self.mins@.len() == self.values@.len()
        &&& forall|i: int|
            0 <= i < self.values@.len() ==> #[trigger] self.mins@[i] == min_of(
                self.values@.subrange(0, i + 1),
            )
    }

    pub fn new() -> (r: Self)
        ensures
            r.wf(),
            r.view() == Seq::<i32>::empty(),
    {
        MinStack { values: Vec::new(), mins: Vec::new() }
    }

    pub fn push(&mut self, val: i32)
        requires
            old(self).wf(),
        ensures
            final(self).wf(),
            final(self).view() == old(self).view().push(val),
    {
        let ghost n = self.values@.len();
        match self.mins.last() {
            Some(min) if *min <= val => {
                let m = *min;
                self.mins.push(m);
            },
            _ => self.mins.push(val),
        }
        self.values.push(val);
        proof {
            assert forall|i: int| 0 <= i < self.values@.len() implies #[trigger] self.mins@[i] == min_of(
                self.values@.subrange(0, i + 1),
            ) by {
                if i < n {
                    assert(self.values@.subrange(0, i + 1) =~= old(self).values@.subrange(0, i + 1));
                } else {
                    assert(self.values@.subrange(0, i + 1).drop_last() =~= old(self).values@);
                    if n > 0 {
                        assert(old(self).values@.subrange(0, n as int) =~= old(self).values@);
                    }
                }
            }
        }
    }

    pub fn pop(&mut self) -> (r: Option<i32>)
        requires
            old(self).wf(),
        ensures
            final(self).wf(),
            old(self).view().len() == 0 ==> r is None && final(self).view() == old(self).view(),
            old(self).view().len() > 0 ==> r == Some(old(self).view().last())
                && final(self).view() == old(self).view().drop_last(),
    {
        self.mins.pop();
        let r = self.values.pop();
        proof {
            assert forall|i: int| 0 <= i < self.values@.len() implies #[trigger] self.mins@[i] == min_of(
                self.values@.subrange(0, i + 1),
            ) by {
                assert(self.values@.subrange(0, i + 1) =~= old(self).values@.subrange(0, i + 1));
                assert(self.mins@[i] == old(self).mins@[i]);
            }
        }
        r
    }

    pub fn top(&self) -> (r: Option<i32>)
        ensures
            self.view().len() == 0 ==> r is None,
            self.view().len() > 0 ==> r == Some(self.view().last()),
    {
        match self.values.last() {
            Some(v) => Some(*v),
            None => None,
        }
    }

    /// The smallest value on the stack.
    pub fn get_min(&self) -> (r: Option<i32>)
        requires
            self.wf(),
        ensures
            self.view().len() == 0 ==> r is None,
            self.view().len() > 0 ==> r == Some(min_of(self.view())),
    {
        proof {
            if self.values@.len() > 0 {
                assert(self.values@.subrange(0, self.values@.len() as int) =~= self.values@);
            }
        }
        match self.mins.last() {
            Some(v) => Some(*v),
            None => None,
        }
    }
}

/// `min_of` is a lower bound that occurs in the sequence.
pub proof fn lemma_min_of(s: Seq<i32>)
    requires
        s.len() > 0,
    ensures
        s.contains(min_of(s)),
        forall|i: int| 0 <= i < s.len() ==> min_of(s) <= #[trigger] s[i],
    decreases s.len(),
{
    if s.len() > 1 {
        lemma_min_of(s.drop_last());
        assert forall|i: int| 0 <= i < s.len() implies min_of(s) <= #[trigger] s[i] by {
            if i < s.len() - 1 {
                assert(s[i] == s.drop_last()[i]);
            }
        }
        let w = choose|w: int| 0 <= w < s.drop_last().len() && s.drop_last()[w] == min_of(s.drop_last());
        assert(s[w] == s.drop_last()[w]);
        assert(s[s.len() - 1] == s.last());
    } else {
        assert(s[0] == min_of(s));
    }
}

} // verus!
