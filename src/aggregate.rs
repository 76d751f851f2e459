//! Collecting one partial count per planned range into a single total.
use vstd::prelude::*;
use crate::error::ScanError;

verus! {

/// The count that the scanner of one range reports.
#[derive(Debug, Clone, Copy, PartialEq, Eq, Structural)]
pub struct PartialResult {
    /// Index of the range in the plan.
    pub range_index: usize,
    /// Matches whose first byte lies in that range.
    pub count: usize,
}

/// Number of slots that hold a count.
pub open spec fn filled(s: Seq<Option<usize>>) -> nat
    decreases s.len(),
{
    if s.len() == 0 {
        0
    } else {
        filled(s.drop_last()) + if s.last() is Some { 1nat } else { 0nat }
    }
}

/// Sum of the counts held in the slots.
pub open spec fn sum_filled(s: Seq<Option<usize>>) -> nat
    decreases s.len(),
{
    if s.len() == 0 {
        0
    } else {
        sum_filled(s.drop_last()) + match s.last() {
            Some(c) => c as nat,
            None => 0nat,
        }
    }
}

/// Every slot holds a count.
pub open spec fn all_filled(s: Seq<Option<usize>>) -> bool {
    forall|i: int| 0 <= i < s.len() ==> (#[trigger] s[i]) is Some
}

/// Filling an empty slot adds one slot and its count.
pub proof fn lemma_fill(s: Seq<Option<usize>>, i: int, c: usize)
    requires
        0 <= i < s.len(),
        s[i] is None,
    ensures
        filled(s.update(i, Some(c))) == filled(s) + 1,
        sum_filled(s.update(i, Some(c))) == sum_filled(s) + c,
    decreases s.len(),
{
    let t = s.update(i, Some(c));
    if i == s.len() - 1 {
        assert(t.drop_last() =~= s.drop_last());
    } else {
        assert(t.drop_last() =~= s.drop_last().update(i, Some(c)));
        lemma_fill(s.drop_last(), i, c);
    }
}

/// Every slot is filled exactly when the filled slots number as many as the slots.
pub proof fn lemma_filled_all(s: Seq<Option<usize>>)
    ensures
        filled(s) <= s.len(),
        filled(s) == s.len() <==> all_filled(s),
    decreases s.len(),
{
    if s.len() > 0 {
        lemma_filled_all(s.drop_last());
        if all_filled(s) {
            assert(all_filled(s.drop_last())) by {
                assert forall|i: int| 0 <= i < s.drop_last().len() implies (
                #[trigger] s.drop_last()[i]) is Some by {
                    assert(s[i] is Some);
                }
            }
            assert(s[s.len() - 1] is Some);
        }
        if filled(s) == s.len() {
            assert forall|i: int| 0 <= i < s.len() implies (#[trigger] s[i]) is Some by {
                if i < s.len() - 1 {
                    assert(s.drop_last()[i] is Some);
                }
            }
        }
    }
}

/// No slot of a sequence of empty slots is filled.
pub proof fn lemma_none_filled(s: Seq<Option<usize>>)
    requires
        forall|i: int| 0 <= i < s.len() ==> (#[trigger] s[i]) is None,
    ensures
        filled(s) == 0,
        sum_filled(s) == 0,
    decreases s.len(),
{
    if s.len() > 0 {
        assert forall|i: int| 0 <= i < s.drop_last().len() implies (
        #[trigger] s.drop_last()[i]) is None by {
            assert(s[i] is None);
        }
        lemma_none_filled(s.drop_last());
    }
}

/// Sums the partial counts of a fixed number of ranges, which may arrive in
/// any order. Each range is counted once; the total can be read only when
/// every range has reported.
pub struct Aggregator {
    slots: Vec<Option<usize>>,
    received: usize,
    total: usize,
}

impl View for Aggregator {
    /// One slot per planned range, holding its count once it has arrived.
    type V = Seq<Option<usize>>;

    closed spec fn view(&self) -> Seq<Option<usize>> {
        self.slots@
    }
}

impl Aggregator {
    /// The running counters agree with the slots.
    pub closed spec fn wf(&self) -> bool {
        &&& self.received == filled(self.slots@)
        &&& self.total == sum_filled(self.slots@)
    }

    /// An aggregator waiting for `expected` ranges, none of them received yet.
    pub fn new(expected: usize) -> (r: Aggregator)
        ensures
            r.wf(),
            r@ == Seq::new(expected as nat, |i: int| None::<usize>),
    {
        let mut slots: Vec<Option<usize>> = Vec::new();
        let mut i: usize = 0;
        while i < expected
            invariant
                i <= expected,
                slots@ == Seq::new(i as nat, |k: int| None::<usize>),
            decreases expected - i,
        {
            slots.push(None);
            i = i + 1;
            assert(slots@ =~= Seq::new(i as nat, |k: int| None::<usize>));
        }
        proof {
            lemma_none_filled(slots@);
        }
        Aggregator { slots, received: 0, total: 0 }
    }

    /// Takes the count of one range. It is refused, leaving the aggregator as it
    /// was, when the index names no planned range, when that range has already
    /// reported, or when the total would not fit in a `usize`.
    pub fn record(&mut self, part: PartialResult) -> (accepted: bool)
        requires
            old(self).wf(),
        ensures
            final(self).wf(),
            accepted == (part.range_index < old(self)@.len() && old(self)@[part.range_index as int] is None
                && sum_filled(old(self)@) + part.count <= usize::MAX),
            accepted ==> final(self)@ == old(self)@.update(part.range_index as int, Some(part.count)),
            !accepted ==> final(self)@ == old(self)@,
    {
        let i = part.range_index;
        if i >= self.slots.len() {
            return false;
        }
        if self.slots[i].is_some() {
            return false;
        }
        if part.count > usize::MAX - self.total {
            return false;
        }
        proof {
            lemma_fill(self.slots@, i as int, part.count);
            lemma_filled_all(self.slots@);
        }
        self.slots.set(i, Some(part.count));
        self.received = self.received + 1;
        self.total = self.total + part.count;
        true
    }

    /// How many ranges have reported.
    pub fn received(&self) -> (r: usize)
        requires
            self.wf(),
        ensures
            r == filled(self@),
    {
        self.received
    }

    /// Every planned range has reported.
    pub fn is_complete(&self) -> (r: bool)
        requires
            self.wf(),
        ensures
            r == all_filled(self@),
    {
        proof {
            lemma_filled_all(self.slots@);
        }
        self.received == self.slots.len()
    }

    /// The total once every range has reported; `IncompleteResults` before.
    pub fn finish(&self) -> (r: Result<usize, ScanError>)
        requires
            self.wf(),
        ensures
            all_filled(self@) ==> r is Ok && r->Ok_0 == sum_filled(self@),
            !all_filled(self@) ==> r == Err::<usize, ScanError>(ScanError::IncompleteResults),
    {
        if self.is_complete() {
            Ok(self.total)
        } else {
            Err(ScanError::IncompleteResults)
        }
    }
}

} // verus!
