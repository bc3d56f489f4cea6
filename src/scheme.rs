//! Substitution schemes: for each word, the ordered rules that collapse runs
//! of old phone labels into new ones.
use vstd::prelude::*;

verus! {

/// One rule: the consecutive old labels `old` become the single label `new`.
#[derive(Clone, Debug)]
pub struct Pair {
    pub new: String,
    pub old: Vec<String>,
}

/// Why a rule row could not be read.
#[derive(Debug, Clone, Copy, PartialEq, Eq)]
pub enum SchemeError {
    /// No entry of the new-label row is non-empty, so no rule starts.
    NoBoundary,
    /// A word line has no following line of new labels.
    MissingNewLine,
    /// A word line holds no word.
    MissingWord,
    /// The new-label line is shorter than the old-label line.
    ShortNewLine,
}

/// The positions `j < i` whose new label is non-empty, in increasing order:
/// the first old label of each rule.
pub open spec fn starts(new: Seq<String>, i: int) -> Seq<int>
    decreases i,
{
    if i <= 0 {
        Seq::empty()
    } else if new[i - 1]@.len() > 0 {
        starts(new, i - 1).push(i - 1)
    } else {
        starts(new, i - 1)
    }
}

/// Where the rule that begins at the `k`-th start ends (exclusive).
pub open spec fn rule_end(b: Seq<int>, k: int, n: int) -> int {
    if k + 1 < b.len() {
        b[k + 1]
    } else {
        n
    }
}

/// `r` holds one rule per start in `b`: the new label found there, and the
/// old labels from that start up to the next one (or to the end of the row).
pub open spec fn rules_of(r: Seq<Pair>, b: Seq<int>, ori: Seq<String>, new: Seq<String>) -> bool {
    &&& r.len() == b.len()
    &&& forall|k: int|
        0 <= k < b.len() ==> {
            &&& (#[trigger] r[k]).new == new[b[k]]
            &&& r[k].old@ == ori.subrange(b[k], rule_end(b, k, ori.len() as int))
        }
}

/// The starts lie below `i`, in increasing order, at non-empty new labels.
pub proof fn lemma_starts(new: Seq<String>, i: int)
    requires
        0 <= i <= new.len(),
    ensures
        forall|k: int| 0 <= k < starts(new, i).len() ==> 0 <= #[trigger] starts(new, i)[k] < i,
        forall|k: int|
            0 <= k < starts(new, i).len() ==> new[#[trigger] starts(new, i)[k]]@.len() > 0,
        forall|k: int, l: int|
            0 <= k < l < starts(new, i).len() ==> #[trigger] starts(new, i)[k] < #[trigger] starts(new, i)[l],
    decreases i,
{
    if i > 0 {
        lemma_starts(new, i - 1);
        let p = starts(new, i - 1);
        if new[i - 1]@.len() > 0 {
            assert forall|k: int| 0 <= k < p.len() implies p.push(i - 1)[k] == p[k] by {}
        }
    }
}

/// Copies of `v[start..end]`.
pub fn clone_range(v: &Vec<String>, start: usize, end: usize) -> (r: Vec<String>)
    requires
        start <= end <= v@.len(),
    ensures
        r@ == v@.subrange(start as int, end as int),
{
    let mut r: Vec<String> = Vec::new();
    let mut i: usize = start;
    while i < end
        invariant
            start <= i <= end <= v@.len(),
            r@ == v@.subrange(start as int, i as int),
        decreases end - i,
    {
        r.push(v[i].clone());
        i = i + 1;
        assert(r@ =~= v@.subrange(start as int, i as int));
    }
    r
}

impl Pair {
    /// Reads one rule row. `ori` holds the old labels and `new` the new
    /// labels at the same positions; each non-empty new label starts a rule
    /// that takes the old labels from its position up to the next start.
    /// Old labels before the first start belong to no rule.
    pub fn parse(ori: &Vec<String>, new: &Vec<String>) -> (r: Result<Vec<Pair>, SchemeError>)
        requires
            ori@.len() <= new@.len(),
        ensures
            starts(new@, ori@.len() as int).len() == 0 <==> r is Err,
            r is Err ==> r == Err::<Vec<Pair>, SchemeError>(SchemeError::NoBoundary),
            r is Ok ==> rules_of(
                r->Ok_0@,
                starts(new@, ori@.len() as int),
                ori@,
                new@,
            ),
    {
        let n = ori.len();
        let mut pairs: Vec<Pair> = Vec::new();
        let mut start: usize = 0;
        let mut open = false;
        let mut i: usize = 0;
        while i < n
            invariant
                n == ori@.len() <= new@.len(),
                i <= n,
                open == (starts(new@, i as int).len() > 0),
                open ==> start == starts(new@, i as int).last(),
                open ==> pairs@.len() + 1 == starts(new@, i as int).len(),
                !open ==> pairs@.len() == 0,
                forall|k: int|
                    0 <= k < pairs@.len() ==> {
                        &&& (#[trigger] pairs@[k]).new == new@[starts(new@, i as int)[k]]
                        &&& pairs@[k].old@ == ori@.subrange(
                            starts(new@, i as int)[k],
                            starts(new@, i as int)[k + 1],
                        )
                    },
            decreases n - i,
        {
            proof {
                lemma_starts(new@, i as int);
            }
            if !new[i].as_str().is_empty() {
                if open {
                    pairs.push(Pair { new: new[start].clone(), old: clone_range(ori, start, i) });
                }
                start = i;
                open = true;
            }
            i = i + 1;
        }
        proof {
            lemma_starts(new@, n as int);
        }
        if !open {
            return Err(SchemeError::NoBoundary);
        }
        pairs.push(Pair { new: new[start].clone(), old: clone_range(ori, start, n) });
        Ok(pairs)
    }
}

/// Every rule of `pairs` replaces at least one old label.
pub open spec fn rules_wf(pairs: Seq<Pair>) -> bool {
    forall|k: int| 0 <= k < pairs.len() ==> (#[trigger] pairs[k]).old@.len() > 0
}

/// One word of a scheme with its rules.
pub struct Entry {
    pub word: String,
    pub pairs: Vec<Pair>,
}

/// The rules of `word` in `entries`: those of its last entry.
pub open spec fn lookup(entries: Seq<Entry>, word: Seq<char>) -> Option<Seq<Pair>>
    decreases entries.len(),
{
    if entries.len() == 0 {
        None
    } else if entries.last().word@ == word {
        Some(entries.last().pairs@)
    } else {
        lookup(entries.drop_last(), word)
    }
}

/// A mapping from words to their rules. A later entry for a word replaces
/// an earlier one.
pub struct Scheme {
    entries: Vec<Entry>,
}

impl Scheme {
    /// The rules of `word`, if the scheme has it.
    pub closed spec fn get_spec(&self, word: Seq<char>) -> Option<Seq<Pair>> {
        lookup(self.entries@, word)
    }

    /// Every rule of every word replaces at least one old label.
    pub closed spec fn wf(&self) -> bool {
        forall|i: int| 0 <= i < self.entries@.len() ==> rules_wf((#[trigger] self.entries@[i]).pairs@)
    }

    proof fn lemma_lookup_wf(entries: Seq<Entry>, word: Seq<char>)
        requires
            forall|i: int| 0 <= i < entries.len() ==> rules_wf((#[trigger] entries[i]).pairs@),
        ensures
            lookup(entries, word) matches Some(p) ==> rules_wf(p),
        decreases entries.len(),
    {
        if entries.len() > 0 {
            let d = entries.drop_last();
            assert forall|i: int| 0 <= i < d.len() implies rules_wf((#[trigger] d[i]).pairs@) by {
                assert(d[i] == entries[i]);
            }
            Self::lemma_lookup_wf(d, word);
            assert(rules_wf(entries[entries.len() - 1].pairs@));
        }
    }

    /// Rules found in a well-formed scheme replace at least one label each.
    pub proof fn lemma_get_wf(&self, word: Seq<char>)
        requires
            self.wf(),
        ensures
            self.get_spec(word) matches Some(p) ==> rules_wf(p),
    {
        Self::lemma_lookup_wf(self.entries@, word);
    }

    /// A scheme with no words.
    pub fn new() -> (r: Scheme)
        ensures
            r.wf(),
            forall|w: Seq<char>| r.get_spec(w) is None,
    {
        Scheme { entries: Vec::new() }
    }

    /// Gives `word` the rules `pairs`, replacing any it had.
    pub fn insert(&mut self, word: String, pairs: Vec<Pair>)
        requires
            old(self).wf(),
            rules_wf(pairs@),
        ensures
            final(self).wf(),
            final(self).get_spec(word@) == Some(pairs@),
            forall|w: Seq<char>| w != word@ ==> final(self).get_spec(w) == old(self).get_spec(w),
    {
        self.entries.push(Entry { word, pairs });
        proof {
            assert(self.entries@.drop_last() == old(self).entries@);
        }
    }

    /// Adds one row pair of a scheme file, given as its comma-separated
    /// fields. The first non-empty field of `old_fields` is the word and the
    /// other non-empty ones its old labels; `new_fields` holds, after its
    /// first field, the new labels at the old labels' positions.
    pub fn add_row(&mut self, old_fields: &Vec<String>, new_fields: &Vec<String>) -> (r: Result<
        (),
        SchemeError,
    >)
        requires
            old(self).wf(),
        ensures
            final(self).wf(),
            ({
                let ori = old_fields@.filter(|f: String| f@.len() > 0);
                let labels = ori.drop_first();
                let new = new_fields@.drop_first();
                if ori.len() == 0 {
                    &&& r == Err::<(), SchemeError>(SchemeError::MissingWord)
                    &&& *final(self) == *old(self)
                } else if new_fields@.len() == 0 || new.len() < labels.len() {
                    &&& r == Err::<(), SchemeError>(SchemeError::ShortNewLine)
                    &&& *final(self) == *old(self)
                } else if starts(new, labels.len() as int).len() == 0 {
                    &&& r == Err::<(), SchemeError>(SchemeError::NoBoundary)
                    &&& *final(self) == *old(self)
                } else {
                    &&& r is Ok
                    &&& final(self).get_spec(ori[0]@) matches Some(pairs) && rules_of(
                        pairs,
                        starts(new, labels.len() as int),
                        labels,
                        new,
                    )
                    &&& forall|w: Seq<char>| w != ori[0]@ ==> final(self).get_spec(w) == old(
                        self,
                    ).get_spec(w)
                }
            }),
    {
        let ghost f = |f: String| f@.len() > 0;
        let mut ori: Vec<String> = Vec::new();
        let mut i: usize = 0;
        while i < old_fields.len()
            invariant
                i <= old_fields@.len(),
                f == (|f: String| f@.len() > 0),
                ori@ == old_fields@.take(i as int).filter(f),
            decreases old_fields@.len() - i,
        {
            proof {
                assert(old_fields@.take(i + 1).drop_last() =~= old_fields@.take(i as int));
                reveal(Seq::filter);
            }
            if !old_fields[i].as_str().is_empty() {
                ori.push(old_fields[i].clone());
            }
            i = i + 1;
        }
        assert(old_fields@.take(i as int) =~= old_fields@);
        if ori.len() == 0 {
            return Err(SchemeError::MissingWord);
        }
        if new_fields.len() == 0 || new_fields.len() - 1 < ori.len() - 1 {
            return Err(SchemeError::ShortNewLine);
        }
        let labels = clone_range(&ori, 1, ori.len());
        let new = clone_range(new_fields, 1, new_fields.len());
        assert(labels@ =~= ori@.drop_first());
        assert(new@ =~= new_fields@.drop_first());
        match Pair::parse(&labels, &new) {
            Err(e) => Err(e),
            Ok(pairs) => {
                proof {
                    let b = starts(new@, labels@.len() as int);
                    lemma_starts(new@, labels@.len() as int);
                    assert forall|k: int| 0 <= k < pairs@.len() implies (
                    #[trigger] pairs@[k]).old@.len() > 0 by {
                        assert(pairs@[k].old@ == labels@.subrange(b[k], rule_end(b, k, labels@.len() as int)));
                        if k + 1 < b.len() {
                            assert(b[k] < b[k + 1]);
                        }
                    }
                }
                let word = ori[0].clone();
                self.insert(word, pairs);
                Ok(())
            },
        }
    }

    /// The rules of `word`, if the scheme has it.
    pub fn get(&self, word: &String) -> (r: Option<&Vec<Pair>>)
        ensures
            match r {
                Some(p) => self.get_spec(word@) == Some(p@),
                None => self.get_spec(word@) is None,
            },
    {
        let mut i: usize = self.entries.len();
        assert(self.entries@.subrange(0, i as int) == self.entries@);
        while i > 0
            invariant
                i <= self.entries@.len(),
                lookup(self.entries@, word@) == lookup(self.entries@.subrange(0, i as int), word@),
            decreases i,
        {
            let e = &self.entries[i - 1];
            proof {
                let s = self.entries@.subrange(0, i as int);
                assert(s.drop_last() == self.entries@.subrange(0, i - 1));
            }
            if e.word == *word {
                return Some(&e.pairs);
            }
            i = i - 1;
        }
        None
    }
}

} // verus!
