use vstd::prelude::*;

verus! {

/// Fixed-point, non-negative currency value: an integer count of cents.
///
/// The value is never negative; subtraction that could go below zero is
/// offered only as a checked operation.
#[derive(Clone, Copy, Debug, Eq, Hash, PartialEq, Structural)]
pub struct Money {
    value: u32,
}

impl View for Money {
    type V = int;

    closed spec fn view(&self) -> int {
        self.value as int
    }
}

/// A money value is never negative.
pub broadcast proof fn lemma_money_nonneg(m: Money)
    ensures
        #[trigger] m@ >= 0,
{
}

/// A money value always fits in 32 bits of cents.
pub broadcast proof fn lemma_money_bounded(m: Money)
    ensures
        #[trigger] m@ <= u32::MAX,
{
}

/// Total cents held in a list of money values.
pub open spec fn spec_money_sum(s: Seq<Money>) -> int
    decreases s.len(),
{
    if s.len() == 0 {
        0
    } else {
        spec_money_sum(s.drop_last()) + s.last()@
    }
}

/// A total of money values is never negative.
pub proof fn lemma_money_sum_nonneg(s: Seq<Money>)
    ensures
        spec_money_sum(s) >= 0,
    decreases s.len(),
{
    if s.len() > 0 {
        lemma_money_sum_nonneg(s.drop_last());
        lemma_money_nonneg(s.last());
    }
}

/// Each entry of a list is at most the total of the list.
pub proof fn lemma_money_sum_elem(s: Seq<Money>, i: int)
    requires
        0 <= i < s.len(),
    ensures
        s[i]@ <= spec_money_sum(s),
    decreases s.len(),
{
    lemma_money_sum_nonneg(s.drop_last());
    if i == s.len() - 1 {
        lemma_money_nonneg(s.last());
    } else {
        lemma_money_sum_elem(s.drop_last(), i);
        lemma_money_nonneg(s.last());
    }
}

/// Extending a prefix by one entry adds that entry to its total.
pub proof fn lemma_money_sum_take_succ(s: Seq<Money>, i: int)
    requires
        0 <= i < s.len(),
    ensures
        spec_money_sum(s.take(i + 1)) == spec_money_sum(s.take(i)) + s[i]@,
{
    assert(s.take(i + 1).drop_last() =~= s.take(i));
    assert(s.take(i + 1).last() == s[i]);
}

/// A prefix never holds more than the whole list.
pub proof fn lemma_money_sum_take_le(s: Seq<Money>, i: int)
    requires
        0 <= i <= s.len(),
    ensures
        spec_money_sum(s.take(i)) <= spec_money_sum(s),
    decreases s.len() - i,
{
    if i == s.len() {
        assert(s.take(i) =~= s);
    } else {
        lemma_money_sum_take_succ(s, i);
        lemma_money_nonneg(s[i]);
        lemma_money_sum_take_le(s, i + 1);
    }
}

/// When each seat's combined fund and pot is unchanged, so is the combined
/// total.
pub proof fn lemma_money_two_sum_pointwise(
    f1: Seq<Money>,
    p1: Seq<Money>,
    f2: Seq<Money>,
    p2: Seq<Money>,
)
    requires
        f1.len() == p1.len() == f2.len() == p2.len(),
        forall|s: int| 0 <= s < f1.len() ==> f2[s]@ + p2[s]@ == f1[s]@ + p1[s]@,
    ensures
        spec_money_sum(f2) + spec_money_sum(p2) == spec_money_sum(f1) + spec_money_sum(p1),
    decreases f1.len(),
{
    if f1.len() > 0 {
        assert(forall|s: int|
            0 <= s < f1.len() - 1 ==> f1.drop_last()[s] == f1[s] && p1.drop_last()[s] == p1[s]
                && f2.drop_last()[s] == f2[s] && p2.drop_last()[s] == p2[s]);
        lemma_money_two_sum_pointwise(f1.drop_last(), p1.drop_last(), f2.drop_last(), p2.drop_last());
    }
}

/// Two lists that agree everywhere but at one index have totals that
/// differ exactly by the change at that index.
pub proof fn lemma_money_sum_update(s1: Seq<Money>, s2: Seq<Money>, j: int)
    requires
        s1.len() == s2.len(),
        0 <= j < s1.len(),
        forall|k: int| 0 <= k < s1.len() && k != j ==> s1[k] == s2[k],
    ensures
        spec_money_sum(s2) == spec_money_sum(s1) - s1[j]@ + s2[j]@,
    decreases s1.len(),
{
    if j == s1.len() - 1 {
        assert(s1.drop_last() =~= s2.drop_last());
    } else {
        lemma_money_sum_update(s1.drop_last(), s2.drop_last(), j);
    }
}

/// The largest value in a list of money values, zero for an empty list.
pub open spec fn spec_money_max(s: Seq<Money>) -> int
    decreases s.len(),
{
    if s.len() == 0 {
        0
    } else {
        let m = spec_money_max(s.drop_last());
        if s.last()@ > m {
            s.last()@
        } else {
            m
        }
    }
}

/// `spec_money_max` bounds every entry and is reached by one of them.
pub proof fn lemma_money_max_is_max(s: Seq<Money>)
    requires
        s.len() > 0,
    ensures
        forall|i: int| 0 <= i < s.len() ==> s[i]@ <= spec_money_max(s),
        exists|i: int| 0 <= i < s.len() && s[i]@ == spec_money_max(s),
    decreases s.len(),
{
    if s.len() == 1 {
        assert(s[0] == s.last());
    } else {
        lemma_money_max_is_max(s.drop_last());
        assert(forall|i: int| 0 <= i < s.len() - 1 ==> s[i] == s.drop_last()[i]);
        if spec_money_max(s) == s.last()@ {
            assert(s[s.len() - 1]@ == spec_money_max(s));
        } else {
            let i = choose|i: int|
                0 <= i < s.drop_last().len() && s.drop_last()[i]@ == spec_money_max(s.drop_last());
            assert(s[i]@ == spec_money_max(s));
        }
    }
}

impl Money {
    /// Build a value from whole dollars and cents.
    pub fn new(dollars: u16, cents: u8) -> (m: Money)
        ensures
            m@ == dollars * 100 + cents,
    {
        Money { value: (dollars as u32) * 100 + (cents as u32) }
    }

    /// Accept a signed cent count, refusing negative amounts.
    pub fn from_i32(value: i32) -> (r: Option<Money>)
        ensures
            value >= 0 ==> (r matches Some(m) && m@ == value),
            value < 0 ==> r is None,
    {
        if value >= 0 {
            Some(Money::from_u32(value as u32))
        } else {
            None
        }
    }

    pub fn from_u32(value: u32) -> (m: Money)
        ensures
            m@ == value,
    {
        Money { value }
    }

    pub fn zero() -> (m: Money)
        ensures
            m@ == 0,
    {
        Money { value: 0 }
    }

    pub fn is_null(self) -> (b: bool)
        ensures
            b == (self@ == 0),
    {
        self.value == 0
    }

    pub fn unpack(self) -> (r: u32)
        ensures
            r == self@,
    {
        self.value
    }

    /// Checked addition: both the operands and the result are exact cents.
    pub fn plus(self, that: Money) -> (r: Money)
        requires
            self@ + that@ <= u32::MAX,
        ensures
            r@ == self@ + that@,
    {
        Money { value: self.value + that.value }
    }

    /// The largest value in a non-empty list.
    #[verifier::loop_isolation(false)]
    pub fn max_of(xs: &Vec<Money>) -> (r: Money)
        requires
            xs@.len() > 0,
        ensures
            r@ == spec_money_max(xs@),
            forall|i: int| 0 <= i < xs@.len() ==> xs@[i]@ <= r@,
            xs@.contains(r),
    {
        let mut r = xs[0];
        let mut i: usize = 1;
        proof {
            assert(xs@.take(1).drop_last().len() == 0);
            assert(spec_money_max(xs@.take(1).drop_last()) == 0);
            assert(xs@.take(1).last() == xs@[0]);
            assert(spec_money_max(xs@.take(1)) == xs@[0]@);
        }
        while i < xs.len()
            invariant
                1 <= i <= xs@.len(),
                r@ == spec_money_max(xs@.take(i as int)),
                xs@.contains(r),
            decreases xs@.len() - i,
        {
            proof {
                assert(xs@.take(i + 1).drop_last() =~= xs@.take(i as int));
                assert(xs@.take(i + 1).last() == xs@[i as int]);
            }
            if xs[i].unpack() > r.unpack() {
                r = xs[i];
            }
            i += 1;
        }
        proof {
            assert(xs@.take(xs@.len() as int) =~= xs@);
            lemma_money_max_is_max(xs@);
        }
        r
    }

    /// Checked subtraction, `None` when the result would go negative.
    pub fn checked_sub(self, that: Money) -> (r: Option<Money>)
        ensures
            self@ >= that@ ==> (r matches Some(m) && m@ == self@ - that@),
            self@ < that@ ==> r is None,
    {
        if self.value >= that.value {
            Some(Money { value: self.value - that.value })
        } else {
            None
        }
    }
}

} // verus!
