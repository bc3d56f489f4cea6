//! The TextGrid model: a document holds tiers, a tier holds intervals.
//!
//! Times are kept as decimal text. Callers that compare times hand in each
//! time in one canonical spelling per value, so that two times are equal
//! exactly when their texts are.
use vstd::prelude::*;

verus! {

/// One labelled segment of a tier.
#[derive(Clone, Debug)]
pub struct Interval {
    pub min_time: String,
    pub max_time: String,
    pub text: String,
}

/// A named, ordered track of intervals.
#[derive(Clone, Debug)]
pub struct IntervalTier {
    pub min_time: String,
    pub max_time: String,
    pub name: String,
    pub intervals: Vec<Interval>,
}

/// A whole annotation document.
#[derive(Clone, Debug)]
pub struct TextGrid {
    pub min_time: String,
    pub max_time: String,
    pub items: Vec<IntervalTier>,
}

/// What an interval holds, as character sequences.
pub struct IntervalV {
    pub min_time: Seq<char>,
    pub max_time: Seq<char>,
    pub text: Seq<char>,
}

/// What a tier holds, as character sequences.
pub struct TierV {
    pub min_time: Seq<char>,
    pub max_time: Seq<char>,
    pub name: Seq<char>,
    pub intervals: Seq<IntervalV>,
}

/// What a document holds, as character sequences.
pub struct TextGridV {
    pub min_time: Seq<char>,
    pub max_time: Seq<char>,
    pub items: Seq<TierV>,
}

pub open spec fn intervals_view(ivs: Seq<Interval>) -> Seq<IntervalV> {
    ivs.map_values(|iv: Interval| iv@)
}

pub open spec fn tiers_view(ts: Seq<IntervalTier>) -> Seq<TierV> {
    ts.map_values(|t: IntervalTier| t@)
}

impl View for Interval {
    type V = IntervalV;

    open spec fn view(&self) -> IntervalV {
        IntervalV { min_time: self.min_time@, max_time: self.max_time@, text: self.text@ }
    }
}

impl View for IntervalTier {
    type V = TierV;

    open spec fn view(&self) -> TierV {
        TierV {
            min_time: self.min_time@,
            max_time: self.max_time@,
            name: self.name@,
            intervals: intervals_view(self.intervals@),
        }
    }
}

impl View for TextGrid {
    type V = TextGridV;

    open spec fn view(&self) -> TextGridV {
        TextGridV { min_time: self.min_time@, max_time: self.max_time@, items: tiers_view(self.items@) }
    }
}

impl Interval {
    /// A field-by-field copy.
    pub fn copy(&self) -> (r: Interval)
        ensures
            r == *self,
    {
        Interval {
            min_time: self.min_time.clone(),
            max_time: self.max_time.clone(),
            text: self.text.clone(),
        }
    }
}

/// Copies of the intervals `ivs[start..end]`, in order.
pub fn copy_intervals(ivs: &Vec<Interval>, start: usize, end: usize) -> (r: Vec<Interval>)
    requires
        start <= end <= ivs@.len(),
    ensures
        r@ == ivs@.subrange(start as int, end as int),
{
    let mut r: Vec<Interval> = Vec::new();
    let mut i: usize = start;
    while i < end
        invariant
            start <= i <= end <= ivs@.len(),
            r@ == ivs@.subrange(start as int, i as int),
        decreases end - i,
    {
        r.push(ivs[i].copy());
        i = i + 1;
        assert(r@ =~= ivs@.subrange(start as int, i as int));
    }
    r
}

impl IntervalTier {
    /// The number of intervals.
    pub fn size(&self) -> (r: usize)
        ensures
            r == self.intervals@.len(),
    {
        self.intervals.len()
    }

    /// A deep copy.
    pub fn copy(&self) -> (r: IntervalTier)
        ensures
            r.min_time == self.min_time,
            r.max_time == self.max_time,
            r.name == self.name,
            r.intervals@ == self.intervals@,
    {
        IntervalTier {
            min_time: self.min_time.clone(),
            max_time: self.max_time.clone(),
            name: self.name.clone(),
            intervals: copy_intervals(&self.intervals, 0, self.intervals.len()),
        }
    }
}

impl TextGrid {
    /// The number of tiers.
    pub fn size(&self) -> (r: usize)
        ensures
            r == self.items@.len(),
    {
        self.items.len()
    }
}

} // verus!
