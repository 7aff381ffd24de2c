//! The range of dates that a calendar is made of.

use crate::date::Date;
use crate::doc::Doc;
use vstd::prelude::*;

verus! {

/// The dates to assemble: from `start` to `end`, both included. A bound
/// that is not set does not bound. With neither set, nothing is filtered
/// and undated documents pass too; with either set, they do not.
#[derive(Clone, Copy, Debug)]
pub struct DateRange {
    pub start: Option<Date>,
    pub end: Option<Date>,
}

impl DateRange {
    /// Whether a bound is set.
    pub open spec fn is_active(self) -> bool {
        self.start is Some || self.end is Some
    }

    /// Whether `date` lies within the bounds that are set.
    pub open spec fn holds(self, date: Date) -> bool {
        &&& self.start matches Some(start) ==> !date.is_before(start)
        &&& self.end matches Some(end) ==> !end.is_before(date)
    }

    /// Whether a document dated `revdate` is assembled.
    pub open spec fn keeps(self, revdate: Option<Date>) -> bool {
        if self.is_active() {
            revdate matches Some(date) && self.holds(date)
        } else {
            true
        }
    }

    /// The range that filters nothing.
    pub fn all() -> (r: DateRange)
        ensures
            !r.is_active(),
            r.start is None,
            r.end is None,
    {
        DateRange { start: None, end: None }
    }

    /// Whether `date` lies within the bounds that are set.
    pub fn contains(&self, date: &Date) -> (r: bool)
        ensures
            r == self.holds(*date),
    {
        let after_start = match &self.start {
            Some(start) => date.ge(start),
            None => true,
        };
        let before_end = match &self.end {
            Some(end) => date.le(end),
            None => true,
        };
        after_start && before_end
    }

    /// Whether `doc` is assembled.
    pub fn selects(&self, doc: &Doc) -> (r: bool)
        ensures
            r == self.keeps(doc.revdate),
    {
        if self.start.is_none() && self.end.is_none() {
            true
        } else {
            match &doc.revdate {
                Some(date) => self.contains(date),
                None => false,
            }
        }
    }
}

/// The test that `range` puts to a document.
pub open spec fn kept_by(range: DateRange) -> spec_fn(Doc) -> bool {
    |doc: Doc| range.keeps(doc.revdate)
}

/// Drops the documents that `range` does not keep; the others stay in
/// their order.
pub fn filter_docs(docs: &mut Vec<Doc>, range: &DateRange)
    ensures
        final(docs)@ == old(docs)@.filter(kept_by(*range)),
{
    let ghost input = docs@;
    let ghost mut seen: int = 0;
    let mut i: usize = 0;
    proof {
        reveal(Seq::filter);
        assert(input.take(0).filter(kept_by(*range)) =~= Seq::<Doc>::empty());
        assert(docs@ =~= input.take(0).filter(kept_by(*range)) + input.skip(0));
    }
    while i < docs.len()
        invariant
            0 <= seen <= input.len(),
            i == input.take(seen).filter(kept_by(*range)).len(),
            docs@ == input.take(seen).filter(kept_by(*range)) + input.skip(seen),
        decreases input.len() - seen,
    {
        proof {
            assert(seen < input.len());
            assert(docs@[i as int] == input[seen]);
            input.lemma_take_succ_push(seen);
            input.take(seen).lemma_filter_push(input[seen], kept_by(*range));
        }
        if range.selects(&docs[i]) {
            i += 1;
            proof {
                assert(docs@ =~= input.take(seen + 1).filter(kept_by(*range)) + input.skip(
                    seen + 1,
                ));
            }
        } else {
            docs.remove(i);
            proof {
                assert(docs@ =~= input.take(seen + 1).filter(kept_by(*range)) + input.skip(
                    seen + 1,
                ));
            }
        }
        proof {
            seen = seen + 1;
        }
    }
    proof {
        assert(seen == input.len());
        assert(input.take(seen) =~= input);
        assert(docs@ =~= input.filter(kept_by(*range)));
    }
}

/// Both bounds are included: a range whose start is not after its end holds
/// its start and its end.
pub proof fn lemma_bounds_are_included(start: Date, end: Date)
    requires
        !end.is_before(start),
    ensures
        (DateRange { start: Some(start), end: Some(end) }).holds(start),
        (DateRange { start: Some(start), end: Some(end) }).holds(end),
{
}

/// A range holds a date exactly where the date is neither before the start
/// nor after the end, as far as they are set.
pub proof fn lemma_range_is_an_interval(range: DateRange, a: Date, b: Date, c: Date)
    requires
        range.holds(a),
        range.holds(c),
        !b.is_before(a),
        !c.is_before(b),
    ensures
        range.holds(b),
{
}

/// The earliest date that can be written down.
pub open spec fn earliest() -> Date {
    Date { year: 0, month: 0, day: 0 }
}

/// The latest date that can be written down.
pub open spec fn latest() -> Date {
    Date { year: 0xffff, month: 0xff, day: 0xff }
}

/// A bound that is not set stands for the extreme: a range holds a date
/// exactly where the date lies between its start, or the earliest date
/// where none is set, and its end, or the latest date where none is set.
pub proof fn lemma_unset_bounds_are_the_extremes(range: DateRange, date: Date)
    ensures
        range.holds(date) <==> !date.is_before(
            match range.start {
                Some(start) => start,
                None => earliest(),
            },
        ) && !(match range.end {
            Some(end) => end,
            None => latest(),
        }).is_before(date),
{
}

/// An undated document passes exactly where no bound is set.
pub proof fn lemma_undated_pass_without_bounds(range: DateRange)
    ensures
        range.keeps(None) <==> !range.is_active(),
        !range.is_active() ==> forall|revdate: Option<Date>| range.keeps(revdate),
{
}

} // verus!
