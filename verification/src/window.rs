//! A bounded window over the most recent values of a series, with its sum.

use std::collections::VecDeque;
use vstd::prelude::*;

verus! {

/// The sum of a sequence of values.
pub open spec fn sum_of(values: Seq<i64>) -> int
    decreases values.len(),
{
    if values.len() == 0 {
        0
    } else {
        sum_of(values.drop_last()) + values.last()
    }
}

/// The last `count` values of a sequence, or all of them if there are fewer.
pub open spec fn trailing(values: Seq<i64>, count: int) -> Seq<i64> {
    if values.len() <= count {
        values
    } else {
        values.skip(values.len() - count)
    }
}

/// A window of at most `capacity` values after one more value has come:
/// the new value is last, and the oldest one has left if the window was full.
pub open spec fn slide(window: Seq<i64>, value: i64, capacity: int) -> Seq<i64> {
    trailing(window.push(value), capacity)
}

/// The quotient of a sum by a count, rounded towards zero.
pub open spec fn quotient(sum: int, count: int) -> int {
    if sum >= 0 {
        sum / count
    } else {
        -((-sum) / count)
    }
}

/// The mean of a sequence of values, rounded towards zero to a whole unit.
pub open spec fn mean_of(values: Seq<i64>) -> int {
    quotient(sum_of(values), values.len() as int)
}

/// The sum of a sequence is the sum of its first value and of the rest.
pub proof fn lemma_sum_from_front(values: Seq<i64>)
    requires
        values.len() > 0,
    ensures
        sum_of(values) == values[0] + sum_of(values.drop_first()),
    decreases values.len(),
{
    if values.len() == 1 {
        assert(values.drop_last() =~= Seq::<i64>::empty());
        assert(values.drop_first() =~= Seq::<i64>::empty());
    } else {
        lemma_sum_from_front(values.drop_last());
        assert(values.drop_last().drop_first() =~= values.drop_first().drop_last());
        assert(values.drop_first().last() == values.last());
    }
}

/// The sum of a sequence lies within as many times the range of a value as
/// the sequence is long.
pub proof fn lemma_sum_bounds(values: Seq<i64>)
    ensures
        values.len() * i64::MIN <= sum_of(values) <= values.len() * i64::MAX,
    decreases values.len(),
{
    if values.len() > 0 {
        lemma_sum_bounds(values.drop_last());
        assert(values.len() * i64::MIN == values.drop_last().len() * i64::MIN + i64::MIN)
            by (nonlinear_arith)
            requires
                values.len() == values.drop_last().len() + 1,
        ;
        assert(values.len() * i64::MAX == values.drop_last().len() * i64::MAX + i64::MAX)
            by (nonlinear_arith)
            requires
                values.len() == values.drop_last().len() + 1,
        ;
    }
}

/// The mean of values lies in the range of a value.
pub proof fn lemma_mean_in_range(values: Seq<i64>)
    requires
        values.len() > 0,
    ensures
        i64::MIN <= mean_of(values) <= i64::MAX,
{
    lemma_sum_bounds(values);
    let n = values.len() as int;
    let s = sum_of(values);
    if s >= 0 {
        assert(s / n <= i64::MAX) by (nonlinear_arith)
            requires
                0 <= s <= n * i64::MAX,
                n > 0,
        ;
        assert(s / n >= 0) by (nonlinear_arith)
            requires
                0 <= s,
                n > 0,
        ;
    } else {
        assert((-s) / n <= -i64::MIN) by (nonlinear_arith)
            requires
                0 <= -s <= n * (-i64::MIN),
                n > 0,
        ;
        assert((-s) / n >= 0) by (nonlinear_arith)
            requires
                0 <= -s,
                n > 0,
        ;
    }
}

/// The most recent values of a series, at most `capacity` of them, oldest
/// first, and their sum, kept up to date as values come and leave.
pub struct Window {
    capacity: usize,
    values: VecDeque<i64>,
    sum: i128,
}

impl View for Window {
    type V = Seq<i64>;

    closed spec fn view(&self) -> Seq<i64> {
        self.values@
    }
}

impl Window {
    pub closed spec fn capacity(&self) -> int {
        self.capacity as int
    }

    /// The window holds no more than its capacity, and the sum kept is the
    /// sum of what it holds.
    pub closed spec fn wf(&self) -> bool {
        &&& 0 < self.capacity <= 0xffff_ffff
        &&& self.values@.len() <= self.capacity
        &&& self.sum == sum_of(self.values@)
    }

    /// A window in order holds no more values than its capacity.
    pub proof fn lemma_within_capacity(&self)
        requires
            self.wf(),
        ensures
            self@.len() <= self.capacity(),
            0 < self.capacity(),
    {
    }

    /// An empty window. It has room for one value at least, and for no more
    /// values than 32 bits count, so that the sum of a full window fits.
    pub fn new(capacity: usize) -> (w: Window)
        requires
            0 < capacity <= 0xffff_ffff,
        ensures
            w.wf(),
            w@ == Seq::<i64>::empty(),
            w.capacity() == capacity,
    {
        Window { capacity, values: VecDeque::new(), sum: 0 }
    }

    /// How many values the window holds.
    pub fn len(&self) -> (n: usize)
        requires
            self.wf(),
        ensures
            n == self@.len(),
            n <= self.capacity(),
    {
        self.values.len()
    }

    /// Takes in one more value. If the window is full the oldest value
    /// leaves first, and the sum follows both.
    pub fn push(&mut self, value: i64)
        requires
            old(self).wf(),
        ensures
            final(self).wf(),
            final(self).capacity() == old(self).capacity(),
            final(self)@ == slide(old(self)@, value, old(self).capacity()),
    {
        broadcast use vstd::std_specs::vecdeque::axiom_spec_len;

        proof {
            lemma_sum_bounds(self.values@);
        }
        assert(self.values@.len() * i64::MIN >= 0xffff_ffff * i64::MIN && self.values@.len() * i64::MAX
            <= 0xffff_ffff * i64::MAX) by (nonlinear_arith)
            requires
                self.values@.len() <= 0xffff_ffff,
        ;
        if self.values.len() == self.capacity {
            let oldest = self.values.pop_front();
            proof {
                lemma_sum_from_front(old(self).values@);
                assert(self.values@ =~= old(self).values@.drop_first());
            }
            match oldest {
                Some(left) => {
                    self.sum = self.sum - left as i128;
                },
                None => {},
            }
        }
        let ghost before = self.values@;
        proof {
            lemma_sum_bounds(before);
        }
        assert(before.len() * i64::MIN >= 0xffff_ffff * i64::MIN && before.len() * i64::MAX <= 0xffff_ffff
            * i64::MAX) by (nonlinear_arith)
            requires
                before.len() <= 0xffff_ffff,
        ;
        self.values.push_back(value);
        self.sum = self.sum + value as i128;
        proof {
            assert(self.values@.drop_last() =~= before);
            let pushed = old(self).values@.push(value);
            if old(self).values@.len() == old(self).capacity {
                assert(self.values@ =~= pushed.skip(pushed.len() - old(self).capacity));
            }
        }
    }

    /// The sum of the values in the window.
    pub fn sum(&self) -> (s: i128)
        requires
            self.wf(),
        ensures
            s == sum_of(self@),
    {
        self.sum
    }

    /// The mean of the values in the window, rounded towards zero to a whole
    /// unit: the sum kept, divided by the number of values held.
    pub fn mean(&self) -> (m: i64)
        requires
            self.wf(),
            self@.len() > 0,
        ensures
            m == mean_of(self@),
    {
        broadcast use vstd::std_specs::vecdeque::axiom_spec_len;

        proof {
            lemma_sum_bounds(self.values@);
            lemma_mean_in_range(self.values@);
        }
        let count = self.values.len() as u128;
        assert(self.values@.len() * i64::MIN >= 0xffff_ffff * i64::MIN && self.values@.len() * i64::MAX
            <= 0xffff_ffff * i64::MAX) by (nonlinear_arith)
            requires
                self.values@.len() <= 0xffff_ffff,
        ;
        if self.sum >= 0 {
            ((self.sum as u128) / count) as i64
        } else {
            let q = ((-self.sum) as u128) / count;
            (-(q as i128)) as i64
        }
    }
}

} // verus!
