//! Resegmentation of the phone tier: each word's run of phones is matched
//! against the scheme and, where it matches, collapsed rule by rule.
use vstd::prelude::*;
use crate::scheme::{Pair, Scheme, rules_wf};
use crate::textgrid::{Interval, IntervalTier, TextGrid, copy_intervals, intervals_view};

verus! {

/// The labels of `ivs`, in order.
pub open spec fn texts(ivs: Seq<Interval>) -> Seq<Seq<char>> {
    ivs.map_values(|iv: Interval| iv.text@)
}

/// The characters of each string of `ss`.
pub open spec fn views(ss: Seq<String>) -> Seq<Seq<char>> {
    ss.map_values(|s: String| s@)
}

/// The old labels of all rules, concatenated in order.
pub open spec fn old_labels(pairs: Seq<Pair>) -> Seq<Seq<char>>
    decreases pairs.len(),
{
    if pairs.len() == 0 {
        Seq::empty()
    } else {
        old_labels(pairs.drop_last()) + views(pairs.last().old@)
    }
}

/// The new label of each rule, in order.
pub open spec fn new_labels(pairs: Seq<Pair>) -> Seq<Seq<char>> {
    pairs.map_values(|p: Pair| p.new@)
}

/// The intervals that the rules make of `run`: one per rule, from the start
/// of the first old phone it takes to the end of the last, labelled with
/// its new label.
pub open spec fn apply_rules(pairs: Seq<Pair>, run: Seq<Interval>) -> Seq<Interval>
    decreases pairs.len(),
{
    if pairs.len() == 0 {
        Seq::empty()
    } else {
        let p = pairs.last();
        let s = old_labels(pairs.drop_last()).len() as int;
        apply_rules(pairs.drop_last(), run).push(
            Interval {
                min_time: run[s].min_time,
                max_time: run[s + p.old@.len() - 1].max_time,
                text: p.new,
            },
        )
    }
}

/// What the scheme reports about one word.
#[derive(Debug, Clone, Copy, PartialEq, Eq)]
pub enum NoteKind {
    /// The word has no rules: its phones were kept.
    UnknownWord,
    /// The phones already carry the new labels: they were kept.
    AlreadyConverted,
    /// The phones match neither the old nor the new labels: they were kept.
    Mismatch,
}

/// A report about the word at index `word` of the word tier, whose phones
/// are `start..=end` of the phone tier.
#[derive(Debug, Clone, Copy, PartialEq, Eq)]
pub struct Note {
    pub kind: NoteKind,
    pub word: usize,
    pub start: usize,
    pub end: usize,
}

/// The first index `j >= from` of a phone that ends at `t`.
pub open spec fn first_end(phones: Seq<Interval>, from: int, t: Seq<char>) -> Option<int>
    decreases phones.len() - from,
{
    if from < 0 || from >= phones.len() {
        None
    } else if phones[from].max_time@ == t {
        Some(from)
    } else {
        first_end(phones, from + 1, t)
    }
}

/// The runs of phones of the words from `wi` on, with the phones before
/// `cursor` already taken. A word's run ends at the first untaken phone that
/// ends when the word ends; a word with no such phone gets no run.
pub open spec fn align_from(words: Seq<Interval>, phones: Seq<Interval>, wi: int, cursor: int) -> Seq<
    (usize, (usize, usize)),
>
    decreases words.len() - wi,
{
    if wi < 0 || wi >= words.len() {
        Seq::empty()
    } else {
        match first_end(phones, cursor, words[wi].max_time@) {
            Some(j) => seq![(wi as usize, (cursor as usize, j as usize))] + align_from(
                words,
                phones,
                wi + 1,
                j + 1,
            ),
            None => align_from(words, phones, wi + 1, cursor),
        }
    }
}

/// The runs of phones of all words.
pub open spec fn align(words: Seq<Interval>, phones: Seq<Interval>) -> Seq<(usize, (usize, usize))> {
    align_from(words, phones, 0, 0)
}

proof fn lemma_first_end(phones: Seq<Interval>, from: int, t: Seq<char>)
    requires
        0 <= from,
    ensures
        first_end(phones, from, t) matches Some(j) ==> from <= j < phones.len()
            && phones[j].max_time@ == t,
    decreases phones.len() - from,
{
    if from < phones.len() && phones[from].max_time@ != t {
        lemma_first_end(phones, from + 1, t);
    }
}

proof fn lemma_align_from(words: Seq<Interval>, phones: Seq<Interval>, wi: int, cursor: int)
    requires
        0 <= wi,
        0 <= cursor,
        words.len() <= usize::MAX,
        phones.len() <= usize::MAX,
    ensures
        forall|k: int|
            0 <= k < align_from(words, phones, wi, cursor).len() ==> {
                let a = #[trigger] align_from(words, phones, wi, cursor)[k];
                &&& wi <= a.0 < words.len()
                &&& cursor <= a.1.0 <= a.1.1 < phones.len()
            },
    decreases words.len() - wi,
{
    if wi < words.len() {
        lemma_first_end(phones, cursor, words[wi].max_time@);
        match first_end(phones, cursor, words[wi].max_time@) {
            Some(j) => {
                lemma_align_from(words, phones, wi + 1, j + 1);
                let rest = align_from(words, phones, wi + 1, j + 1);
                let head = seq![(wi as usize, (cursor as usize, j as usize))];
                assert(align_from(words, phones, wi, cursor) == head + rest);
                assert((head + rest)[0] == (wi as usize, (cursor as usize, j as usize)));
                assert forall|k: int| 0 <= k < (head + rest).len() implies {
                    let a = #[trigger] (head + rest)[k];
                    &&& wi <= a.0 < words.len()
                    &&& cursor <= a.1.0 <= a.1.1 < phones.len()
                } by {
                    if k > 0 {
                        assert((head + rest)[k] == rest[k - 1]);
                    }
                }
            },
            None => {
                lemma_align_from(words, phones, wi + 1, cursor);
                assert(align_from(words, phones, wi, cursor) == align_from(words, phones, wi + 1, cursor));
            },
        }
    }
}

/// The words from `wi` on that get no run of phones: no untaken phone ends
/// when they end.
pub open spec fn unaligned_from(words: Seq<Interval>, phones: Seq<Interval>, wi: int, cursor: int) -> Seq<usize>
    decreases words.len() - wi,
{
    if wi < 0 || wi >= words.len() {
        Seq::empty()
    } else {
        match first_end(phones, cursor, words[wi].max_time@) {
            Some(j) => unaligned_from(words, phones, wi + 1, j + 1),
            None => seq![wi as usize] + unaligned_from(words, phones, wi + 1, cursor),
        }
    }
}

/// The first phone at or after `start` that ends at `t`.
fn first_end_exec(phones: &Vec<Interval>, start: usize, t: &String) -> (r: Option<usize>)
    requires
        start <= phones@.len(),
    ensures
        match r {
            Some(j) => j < phones@.len() && first_end(phones@, start as int, t@) == Some(j as int),
            None => first_end(phones@, start as int, t@) is None,
        },
{
    let mut j: usize = start;
    while j < phones.len()
        invariant
            start <= j <= phones@.len(),
            first_end(phones@, start as int, t@) == first_end(phones@, j as int, t@),
        decreases phones@.len() - j,
    {
        if phones[j].max_time == *t {
            return Some(j);
        }
        j = j + 1;
    }
    None
}

/// The words of `tg` (indices into the word tier) that get no run of
/// phones, because no phone left after the earlier runs ends when the word
/// ends. Their phones are missing from the tier that `change_scheme` makes.
pub fn unaligned_words(tg: &TextGrid) -> (r: Vec<usize>)
    requires
        tg.items@.len() >= 2,
    ensures
        r@ == unaligned_from(tg.items@[0].intervals@, tg.items@[1].intervals@, 0, 0),
{
    let words = &tg.items[0].intervals;
    let phones = &tg.items[1].intervals;
    let np = phones.len();
    let mut r: Vec<usize> = Vec::new();
    let mut start: usize = 0;
    let mut i: usize = 0;
    while i < words.len()
        invariant
            words == &tg.items@[0].intervals,
            phones == &tg.items@[1].intervals,
            i <= words@.len(),
            np == phones@.len(),
            start <= phones@.len(),
            r@ + unaligned_from(words@, phones@, i as int, start as int) == unaligned_from(
                words@,
                phones@,
                0,
                0,
            ),
        decreases words@.len() - i,
    {
        match first_end_exec(phones, start, &words[i].max_time) {
            Some(j) => {
                start = j + 1;
            },
            None => {
                let ghost rest = unaligned_from(words@, phones@, i + 1, start as int);
                let ghost before = r@;
                r.push(i);
                proof {
                    assert(unaligned_from(words@, phones@, i as int, start as int) == seq![i] + rest);
                    assert(r@ + rest =~= before + (seq![i] + rest));
                }
            },
        }
        i = i + 1;
    }
    r
}

/// The runs of phones of each word of `tg`, as (word, (first phone, last
/// phone)): for each word in order, the untaken phones up to the first one
/// that ends when the word ends.
pub fn iter_indexes(tg: &TextGrid) -> (r: Vec<(usize, (usize, usize))>)
    requires
        tg.items@.len() >= 2,
    ensures
        r@ == align(tg.items@[0].intervals@, tg.items@[1].intervals@),
{
    let words = &tg.items[0].intervals;
    let phones = &tg.items[1].intervals;
    let np = phones.len();
    let mut r: Vec<(usize, (usize, usize))> = Vec::new();
    let mut start: usize = 0;
    let mut i: usize = 0;
    while i < words.len()
        invariant
            words == &tg.items@[0].intervals,
            phones == &tg.items@[1].intervals,
            i <= words@.len(),
            np == phones@.len(),
            start <= phones@.len(),
            r@ + align_from(words@, phones@, i as int, start as int) == align(words@, phones@),
        decreases words@.len() - i,
    {
        let t = &words[i].max_time;
        let mut j: usize = start;
        let mut found = false;
        while j < phones.len()
            invariant_except_break
                !found,
            invariant
                start <= j <= phones@.len(),
                first_end(phones@, start as int, t@) == first_end(phones@, j as int, t@),
            ensures
                start <= j <= phones@.len(),
                found ==> j < phones@.len() && first_end(phones@, start as int, t@) == Some(j as int),
                !found ==> first_end(phones@, start as int, t@) is None,
            decreases phones@.len() - j,
        {
            if phones[j].max_time == *t {
                found = true;
                break;
            }
            j = j + 1;
        }
        proof {
            lemma_first_end(phones@, start as int, t@);
        }
        if found {
            assert(j < phones@.len());
            let ghost rest = align_from(words@, phones@, i + 1, j + 1);
            r.push((i, (start, j)));
            proof {
                assert(align_from(words@, phones@, i as int, start as int) == seq![(i, (start, j))]
                    + rest);
            }
            start = j + 1;
        }
        i = i + 1;
    }
    r
}

/// The output phones of one word whose phones are `run`: the rules applied
/// where the phones are exactly the scheme's old labels, else `run` itself.
pub open spec fn convert_word(scheme: Scheme, word: Seq<char>, run: Seq<Interval>) -> Seq<Interval> {
    match scheme.get_spec(word) {
        Some(pairs) => if old_labels(pairs) == texts(run) {
            apply_rules(pairs, run)
        } else {
            run
        },
        None => run,
    }
}

/// What is reported about one word whose phones are `run`.
pub open spec fn word_note(scheme: Scheme, word: Seq<char>, run: Seq<Interval>) -> Option<NoteKind> {
    match scheme.get_spec(word) {
        Some(pairs) => if old_labels(pairs) == texts(run) {
            None
        } else if new_labels(pairs) == texts(run) {
            Some(NoteKind::AlreadyConverted)
        } else {
            Some(NoteKind::Mismatch)
        },
        None => Some(NoteKind::UnknownWord),
    }
}

/// The phones `start..=end` of a run.
pub open spec fn run_of(phones: Seq<Interval>, a: (usize, (usize, usize))) -> Seq<Interval> {
    phones.subrange(a.1.0 as int, a.1.1 + 1)
}

/// The new phone tier: the output of each aligned word, in word order.
pub open spec fn phones_out(
    scheme: Scheme,
    words: Seq<Interval>,
    phones: Seq<Interval>,
    al: Seq<(usize, (usize, usize))>,
) -> Seq<Interval>
    decreases al.len(),
{
    if al.len() == 0 {
        Seq::empty()
    } else {
        let a = al.last();
        phones_out(scheme, words, phones, al.drop_last()) + convert_word(
            scheme,
            words[a.0 as int].text@,
            run_of(phones, a),
        )
    }
}

/// The reports of the aligned words, in word order.
pub open spec fn notes_out(
    scheme: Scheme,
    words: Seq<Interval>,
    phones: Seq<Interval>,
    al: Seq<(usize, (usize, usize))>,
) -> Seq<Note>
    decreases al.len(),
{
    if al.len() == 0 {
        Seq::empty()
    } else {
        let a = al.last();
        let rest = notes_out(scheme, words, phones, al.drop_last());
        match word_note(scheme, words[a.0 as int].text@, run_of(phones, a)) {
            Some(kind) => rest.push(Note { kind, word: a.0, start: a.1.0, end: a.1.1 }),
            None => rest,
        }
    }
}

/// The old labels of all rules, in order.
fn flat_old(pairs: &Vec<Pair>) -> (r: Vec<String>)
    ensures
        views(r@) == old_labels(pairs@),
{
    let mut r: Vec<String> = Vec::new();
    let mut k: usize = 0;
    while k < pairs.len()
        invariant
            k <= pairs@.len(),
            views(r@) == old_labels(pairs@.take(k as int)),
        decreases pairs@.len() - k,
    {
        let old = &pairs[k].old;
        let ghost before = r@;
        let mut m: usize = 0;
        while m < old.len()
            invariant
                m <= old@.len(),
                r@ == before + old@.take(m as int),
            decreases old@.len() - m,
        {
            r.push(old[m].clone());
            m = m + 1;
            assert(r@ =~= before + old@.take(m as int));
        }
        assert(old@.take(m as int) == old@);
        assert(views(before + old@) =~= views(before) + views(old@));
        assert(pairs@.take(k + 1).drop_last() == pairs@.take(k as int));
        k = k + 1;
    }
    assert(pairs@.take(k as int) == pairs@);
    r
}

/// The new label of each rule, in order.
fn flat_new(pairs: &Vec<Pair>) -> (r: Vec<String>)
    ensures
        views(r@) == new_labels(pairs@),
{
    let mut r: Vec<String> = Vec::new();
    let mut k: usize = 0;
    while k < pairs.len()
        invariant
            k <= pairs@.len(),
            r@.len() == k,
            forall|i: int| 0 <= i < k ==> (#[trigger] r@[i]) == pairs@[i].new,
        decreases pairs@.len() - k,
    {
        r.push(pairs[k].new.clone());
        k = k + 1;
    }
    assert(views(r@) =~= new_labels(pairs@));
    r
}

/// Whether the labels `a` are those of the intervals `ivs`.
fn same_labels(a: &Vec<String>, ivs: &Vec<Interval>) -> (r: bool)
    ensures
        r == (views(a@) == texts(ivs@)),
{
    if a.len() != ivs.len() {
        assert(views(a@).len() != texts(ivs@).len());
        return false;
    }
    let mut i: usize = 0;
    while i < a.len()
        invariant
            i <= a@.len() == ivs@.len(),
            forall|k: int| 0 <= k < i ==> a@[k]@ == ivs@[k].text@,
        decreases a@.len() - i,
    {
        if a[i] != ivs[i].text {
            assert(views(a@)[i as int] != texts(ivs@)[i as int]);
            return false;
        }
        i = i + 1;
    }
    assert(views(a@) =~= texts(ivs@));
    true
}

proof fn lemma_old_labels_take(pairs: Seq<Pair>, k: int, m: int)
    requires
        0 <= k <= m <= pairs.len(),
    ensures
        old_labels(pairs.take(k)).len() <= old_labels(pairs.take(m)).len(),
    decreases m - k,
{
    if k < m {
        lemma_old_labels_take(pairs, k, m - 1);
        assert(pairs.take(m).drop_last() == pairs.take(m - 1));
    }
}

/// The intervals that the rules make of `run`.
fn apply_pairs(pairs: &Vec<Pair>, run: &Vec<Interval>) -> (r: Vec<Interval>)
    requires
        rules_wf(pairs@),
        old_labels(pairs@).len() == run@.len(),
    ensures
        r@ == apply_rules(pairs@, run@),
{
    let nr = run.len();
    let mut r: Vec<Interval> = Vec::new();
    let mut count: usize = 0;
    let mut k: usize = 0;
    while k < pairs.len()
        invariant
            nr == run@.len(),
            k <= pairs@.len(),
            rules_wf(pairs@),
            old_labels(pairs@).len() == run@.len(),
            count == old_labels(pairs@.take(k as int)).len(),
            r@ == apply_rules(pairs@.take(k as int), run@),
        decreases pairs@.len() - k,
    {
        let p = &pairs[k];
        let n = p.old.len();
        proof {
            assert(pairs@.take(k + 1).drop_last() == pairs@.take(k as int));
            assert(pairs@.take(k + 1).last() == pairs@[k as int]);
            lemma_old_labels_take(pairs@, k + 1, pairs@.len() as int);
            assert(pairs@.take(pairs@.len() as int) == pairs@);
            assert(rules_wf(pairs@) && 0 <= k < pairs@.len());
            assert(pairs@[k as int].old@.len() > 0);
            assert(views(p.old@).len() == n);
            assert(old_labels(pairs@.take(k + 1)) == old_labels(pairs@.take(k as int)) + views(
                p.old@,
            ));
            assert(count + n <= run@.len());
        }
        r.push(
            Interval {
                min_time: run[count].min_time.clone(),
                max_time: run[count + n - 1].max_time.clone(),
                text: p.new.clone(),
            },
        );
        count = count + n;
        k = k + 1;
    }
    assert(pairs@.take(k as int) == pairs@);
    r
}

/// A tier with the same name and bounds as `tier` and the intervals `ivs`.
fn with_intervals(tier: &IntervalTier, ivs: Vec<Interval>) -> (r: IntervalTier)
    ensures
        r.min_time == tier.min_time,
        r.max_time == tier.max_time,
        r.name == tier.name,
        r.intervals@ == ivs@,
{
    IntervalTier {
        min_time: tier.min_time.clone(),
        max_time: tier.max_time.clone(),
        name: tier.name.clone(),
        intervals: ivs,
    }
}

/// Rewrites the phone tier (`items[1]`) of `tg` in the scheme's new labels,
/// word by word along the word tier (`items[0]`). A word whose phones are
/// exactly its rules' old labels gets one interval per rule; any other word
/// keeps its phones, with a note saying why. Every other tier is copied.
/// Returns `None` when `tg` has fewer than two tiers.
pub fn change_scheme(scheme: &Scheme, tg: &TextGrid) -> (r: Option<(TextGrid, Vec<Note>)>)
    requires
        scheme.wf(),
    ensures
        r is None <==> tg.items@.len() < 2,
        r matches Some((out, notes)) ==> {
            let words = tg.items@[0].intervals@;
            let phones = tg.items@[1].intervals@;
            let al = align(words, phones);
            &&& out.min_time == tg.min_time
            &&& out.max_time == tg.max_time
            &&& out.items@.len() == tg.items@.len()
            &&& forall|i: int|
                0 <= i < tg.items@.len() ==> {
                    &&& (#[trigger] out.items@[i]).name == tg.items@[i].name
                    &&& out.items@[i].min_time == tg.items@[i].min_time
                    &&& out.items@[i].max_time == tg.items@[i].max_time
                }
            &&& forall|i: int|
                0 <= i < tg.items@.len() && i != 1 ==> (#[trigger] out.items@[i]).intervals@
                    == tg.items@[i].intervals@
            &&& out.items@[1].intervals@ == phones_out(*scheme, words, phones, al)
            &&& notes@ == notes_out(*scheme, words, phones, al)
        },
{
    if tg.items.len() < 2 {
        return None;
    }
    let words = &tg.items[0].intervals;
    let phones = &tg.items[1].intervals;
    let al = iter_indexes(tg);
    let nw = words.len();
    let np = phones.len();
    proof {
        lemma_align_from(words@, phones@, 0, 0);
    }
    let mut out: Vec<Interval> = Vec::new();
    let mut notes: Vec<Note> = Vec::new();
    let mut k: usize = 0;
    while k < al.len()
        invariant
            scheme.wf(),
            words == &tg.items@[0].intervals,
            phones == &tg.items@[1].intervals,
            al@ == align(words@, phones@),
            np == phones@.len(),
            k <= al@.len(),
            forall|m: int|
                0 <= m < al@.len() ==> {
                    let a = #[trigger] al@[m];
                    &&& 0 <= a.0 < words@.len()
                    &&& 0 <= a.1.0 <= a.1.1 < phones@.len()
                },
            out@ == phones_out(*scheme, words@, phones@, al@.take(k as int)),
            notes@ == notes_out(*scheme, words@, phones@, al@.take(k as int)),
        decreases al@.len() - k,
    {
        let (wi, (start, end)) = al[k];
        let word = &words[wi].text;
        let run = copy_intervals(phones, start, end + 1);
        let ghost prev = al@.take(k as int);
        proof {
            assert(al@.take(k + 1).drop_last() == prev);
            assert(al@.take(k + 1).last() == al@[k as int]);
        }
        match scheme.get(word) {
            Some(pairs) => {
                let old = flat_old(pairs);
                if same_labels(&old, &run) {
                    proof {
                        scheme.lemma_get_wf(word@);
                    }
                    let made = apply_pairs(pairs, &run);
                    let mut m: usize = 0;
                    let ghost before = out@;
                    while m < made.len()
                        invariant
                            m <= made@.len(),
                            out@ == before + made@.take(m as int),
                        decreases made@.len() - m,
                    {
                        out.push(made[m].copy());
                        m = m + 1;
                        assert(out@ =~= before + made@.take(m as int));
                    }
                    assert(made@.take(m as int) == made@);
                } else {
                    let new = flat_new(pairs);
                    let kind = if same_labels(&new, &run) {
                        NoteKind::AlreadyConverted
                    } else {
                        NoteKind::Mismatch
                    };
                    notes.push(Note { kind, word: wi, start, end });
                    push_all(&mut out, &run);
                }
            },
            None => {
                notes.push(Note { kind: NoteKind::UnknownWord, word: wi, start, end });
                push_all(&mut out, &run);
            },
        }
        k = k + 1;
    }
    assert(al@.take(k as int) == al@);
    let mut items: Vec<IntervalTier> = Vec::new();
    let mut i: usize = 0;
    while i < tg.items.len()
        invariant
            i <= tg.items@.len(),
            tg.items@.len() >= 2,
            items@.len() == i,
            forall|j: int|
                0 <= j < i ==> {
                    &&& (#[trigger] items@[j]).name == tg.items@[j].name
                    &&& items@[j].min_time == tg.items@[j].min_time
                    &&& items@[j].max_time == tg.items@[j].max_time
                    &&& (j != 1 ==> items@[j].intervals@ == tg.items@[j].intervals@)
                    &&& (j == 1 ==> items@[j].intervals@ == out@)
                },
        decreases tg.items@.len() - i,
    {
        if i == 1 {
            let ghost o = out@;
            let tier = with_intervals(&tg.items[1], copy_intervals(&out, 0, out.len()));
            assert(o.subrange(0, o.len() as int) == o);
            items.push(tier);
        } else {
            items.push(tg.items[i].copy());
        }
        i = i + 1;
    }
    Some((TextGrid { min_time: tg.min_time.clone(), max_time: tg.max_time.clone(), items }, notes))
}

/// Appends copies of `ivs` to `out`.
fn push_all(out: &mut Vec<Interval>, ivs: &Vec<Interval>)
    ensures
        final(out)@ == old(out)@ + ivs@,
{
    let mut m: usize = 0;
    while m < ivs.len()
        invariant
            m <= ivs@.len(),
            out@ == old(out)@ + ivs@.take(m as int),
        decreases ivs@.len() - m,
    {
        out.push(ivs[m].copy());
        m = m + 1;
        assert(out@ =~= old(out)@ + ivs@.take(m as int));
    }
    assert(ivs@.take(m as int) == ivs@);
}

/// A word whose phones are kept and reported keeps them exactly: an unknown
/// word, one already in the new labels, and one matching neither.
pub proof fn lemma_noted_word_unchanged(scheme: Scheme, word: Seq<char>, run: Seq<Interval>)
    requires
        word_note(scheme, word, run) is Some,
    ensures
        convert_word(scheme, word, run) == run,
{
}

/// An unknown word keeps its phones and is reported once, as unknown.
pub proof fn lemma_unknown_word(scheme: Scheme, word: Seq<char>, run: Seq<Interval>)
    requires
        scheme.get_spec(word) is None,
    ensures
        convert_word(scheme, word, run) == run,
        word_note(scheme, word, run) == Some(NoteKind::UnknownWord),
{
}

/// A known word whose phones match neither its old nor its new labels keeps
/// its phones, reported as a mismatch.
pub proof fn lemma_mismatch_passthrough(scheme: Scheme, word: Seq<char>, run: Seq<Interval>)
    requires
        scheme.get_spec(word) matches Some(pairs) && old_labels(pairs) != texts(run) && new_labels(
            pairs,
        ) != texts(run),
    ensures
        convert_word(scheme, word, run) == run,
        word_note(scheme, word, run) == Some(NoteKind::Mismatch),
{
}

/// A known word whose phones already carry its new labels keeps them, in
/// value: where its old labels match too, each rule maps one phone to the
/// same label. Only a word whose old labels do not match is noted.
pub proof fn lemma_already_converted(scheme: Scheme, word: Seq<char>, run: Seq<Interval>)
    requires
        scheme.wf(),
        scheme.get_spec(word) matches Some(pairs) && new_labels(pairs) == texts(run),
    ensures
        intervals_view(convert_word(scheme, word, run)) == intervals_view(run),
        scheme.get_spec(word) matches Some(pairs) && old_labels(pairs) != texts(run) ==> word_note(
            scheme,
            word,
            run,
        ) == Some(NoteKind::AlreadyConverted),
{
    scheme.lemma_get_wf(word);
    let pairs = scheme.get_spec(word)->Some_0;
    if old_labels(pairs) == texts(run) {
        assert(new_labels(pairs).len() == pairs.len());
        assert forall|k: int| 0 <= k < pairs.len() implies (#[trigger] pairs[k]).new@ == run[k].text@ by {
            assert(new_labels(pairs)[k] == texts(run)[k]);
        }
        lemma_single_labels(pairs);
        lemma_identity_rules(pairs, run);
        assert(run.take(pairs.len() as int) =~= run);
    }
}

/// Rules that replace one label each, when there are as many labels as rules.
proof fn lemma_single_labels(pairs: Seq<Pair>)
    requires
        rules_wf(pairs),
    ensures
        old_labels(pairs).len() >= pairs.len(),
        old_labels(pairs).len() == pairs.len() ==> forall|k: int|
            0 <= k < pairs.len() ==> (#[trigger] pairs[k]).old@.len() == 1,
    decreases pairs.len(),
{
    if pairs.len() > 0 {
        let d = pairs.drop_last();
        assert(rules_wf(d)) by {
            assert forall|k: int| 0 <= k < d.len() implies (#[trigger] d[k]).old@.len() > 0 by {
                assert(d[k] == pairs[k]);
            }
        }
        lemma_single_labels(d);
        assert(pairs.last().old@.len() > 0);
        assert(views(pairs.last().old@).len() == pairs.last().old@.len());
        assert(old_labels(pairs) == old_labels(d) + views(pairs.last().old@));
        if old_labels(pairs).len() == pairs.len() {
            assert forall|k: int| 0 <= k < pairs.len() implies (#[trigger] pairs[k]).old@.len() == 1 by {
                if k < d.len() {
                    assert(d[k] == pairs[k]);
                }
            }
        }
    }
}

/// One-label rules whose new labels are the phones' labels give the phones
/// back, in value.
proof fn lemma_identity_rules(pairs: Seq<Pair>, run: Seq<Interval>)
    requires
        pairs.len() <= run.len(),
        forall|k: int| 0 <= k < pairs.len() ==> (#[trigger] pairs[k]).old@.len() == 1,
        forall|k: int| 0 <= k < pairs.len() ==> (#[trigger] pairs[k]).new@ == run[k].text@,
    ensures
        old_labels(pairs).len() == pairs.len(),
        intervals_view(apply_rules(pairs, run)) == intervals_view(run.take(pairs.len() as int)),
    decreases pairs.len(),
{
    if pairs.len() == 0 {
        assert(intervals_view(run.take(0)) =~= intervals_view(apply_rules(pairs, run)));
    } else {
        let d = pairs.drop_last();
        let n = d.len() as int;
        assert forall|k: int| 0 <= k < d.len() implies (#[trigger] d[k]).old@.len() == 1 by {
            assert(d[k] == pairs[k]);
        }
        assert forall|k: int| 0 <= k < d.len() implies (#[trigger] d[k]).new@ == run[k].text@ by {
            assert(d[k] == pairs[k]);
        }
        lemma_identity_rules(d, run);
        assert(pairs.last() == pairs[n]);
        assert(views(pairs.last().old@).len() == 1);
        assert(old_labels(pairs) == old_labels(d) + views(pairs.last().old@));
        assert(old_labels(d).len() == n);
        assert(pairs.last().old@.len() == 1);
        let x = Interval { min_time: run[n].min_time, max_time: run[n].max_time, text: pairs[n].new };
        assert(apply_rules(pairs, run) == apply_rules(d, run).push(x));
        assert(x@ == run[n]@);
        let a = apply_rules(d, run);
        assert(a.len() == n) by {
            assert(intervals_view(a).len() == intervals_view(run.take(n)).len());
        }
        assert forall|i: int| 0 <= i < n + 1 implies #[trigger] intervals_view(a.push(x))[i] == intervals_view(
            run.take(n + 1),
        )[i] by {
            if i < n {
                assert(intervals_view(a)[i] == intervals_view(run.take(n))[i]);
            }
        }
        assert(intervals_view(apply_rules(pairs, run)) =~= intervals_view(run.take(n + 1)));
    }
}

/// The rules' intervals start where the run starts and end where the run
/// ends.
proof fn lemma_apply_rules_ends(pairs: Seq<Pair>, run: Seq<Interval>)
    requires
        rules_wf(pairs),
        pairs.len() > 0,
        old_labels(pairs).len() == run.len(),
    ensures
        apply_rules(pairs, run).len() == pairs.len(),
        apply_rules(pairs, run)[0].min_time == run[0].min_time,
        apply_rules(pairs, run).last().max_time == run.last().max_time,
    decreases pairs.len(),
{
    let d = pairs.drop_last();
    assert(rules_wf(d)) by {
        assert forall|k: int| 0 <= k < d.len() implies (#[trigger] d[k]).old@.len() > 0 by {
            assert(d[k] == pairs[k]);
        }
    }
    assert(pairs.last().old@.len() > 0);
    assert(views(pairs.last().old@).len() == pairs.last().old@.len());
    assert(old_labels(pairs) == old_labels(d) + views(pairs.last().old@));
    if d.len() > 0 {
        let n = old_labels(d).len();
        lemma_apply_rules_ends(d, run.subrange(0, n as int));
        lemma_apply_rules_prefix(d, run, n as int);
        assert(apply_rules(d, run).len() == d.len());
        assert(apply_rules(pairs, run) == apply_rules(d, run).push(apply_rules(pairs, run).last()));
        assert(apply_rules(pairs, run)[0] == apply_rules(d, run)[0]);
        assert(apply_rules(d, run)[0] == apply_rules(d, run.subrange(0, n as int))[0]);
    } else {
        assert(old_labels(d).len() == 0);
        assert(apply_rules(d, run).len() == 0);
        assert(apply_rules(pairs, run).len() == 1);
    }
}

/// Only the first `n` phones, those the rules take, decide their intervals.
proof fn lemma_apply_rules_prefix(pairs: Seq<Pair>, run: Seq<Interval>, n: int)
    requires
        rules_wf(pairs),
        old_labels(pairs).len() == n <= run.len(),
    ensures
        apply_rules(pairs, run) == apply_rules(pairs, run.subrange(0, n)),
    decreases pairs.len(),
{
    if pairs.len() > 0 {
        let d = pairs.drop_last();
        assert(rules_wf(d)) by {
            assert forall|k: int| 0 <= k < d.len() implies (#[trigger] d[k]).old@.len() > 0 by {
                assert(d[k] == pairs[k]);
            }
        }
        let m = old_labels(d).len() as int;
        assert(views(pairs.last().old@).len() == pairs.last().old@.len());
        lemma_apply_rules_prefix(d, run, m);
        lemma_apply_rules_prefix(d, run.subrange(0, n), m);
        assert(run.subrange(0, n).subrange(0, m) == run.subrange(0, m));
    }
}

/// A word's output is never empty when its run is not, and spans the run.
proof fn lemma_convert_word_ends(scheme: Scheme, word: Seq<char>, run: Seq<Interval>)
    requires
        scheme.wf(),
        run.len() > 0,
    ensures
        convert_word(scheme, word, run).len() > 0,
        convert_word(scheme, word, run)[0].min_time == run[0].min_time,
        convert_word(scheme, word, run).last().max_time == run.last().max_time,
{
    scheme.lemma_get_wf(word);
    if let Some(pairs) = scheme.get_spec(word) {
        if old_labels(pairs) == texts(run) {
            if pairs.len() == 0 {
                assert(old_labels(pairs).len() == 0);
            } else {
                lemma_apply_rules_ends(pairs, run);
            }
        }
    }
}

proof fn lemma_phones_out_ends(
    scheme: Scheme,
    words: Seq<Interval>,
    phones: Seq<Interval>,
    al: Seq<(usize, (usize, usize))>,
)
    requires
        scheme.wf(),
        al.len() > 0,
        forall|m: int|
            0 <= m < al.len() ==> {
                let a = #[trigger] al[m];
                &&& 0 <= a.0 < words.len()
                &&& 0 <= a.1.0 <= a.1.1 < phones.len()
            },
    ensures
        phones_out(scheme, words, phones, al).len() > 0,
        phones_out(scheme, words, phones, al)[0].min_time == phones[al[0].1.0 as int].min_time,
        phones_out(scheme, words, phones, al).last().max_time == phones[al.last().1.1 as int].max_time,
    decreases al.len(),
{
    let a = al.last();
    assert(al[al.len() - 1] == a);
    let run = run_of(phones, a);
    lemma_convert_word_ends(scheme, words[a.0 as int].text@, run);
    let d = al.drop_last();
    if d.len() > 0 {
        assert forall|m: int| 0 <= m < d.len() implies {
            let b = #[trigger] d[m];
            &&& 0 <= b.0 < words.len()
            &&& 0 <= b.1.0 <= b.1.1 < phones.len()
        } by {
            assert(d[m] == al[m]);
        }
        lemma_phones_out_ends(scheme, words, phones, d);
        assert(d[0] == al[0]);
        let pre = phones_out(scheme, words, phones, d);
        let cw = convert_word(scheme, words[a.0 as int].text@, run);
        assert(phones_out(scheme, words, phones, al) == pre + cw);
        assert((pre + cw)[0] == pre[0]);
    } else {
        let cw = convert_word(scheme, words[a.0 as int].text@, run);
        assert(phones_out(scheme, words, phones, d) == Seq::<Interval>::empty());
        assert(phones_out(scheme, words, phones, al) == Seq::<Interval>::empty() + cw);
        assert(Seq::<Interval>::empty() + cw =~= cw);
        assert(al[0] == a);
    }
}

proof fn lemma_align_starts_at_cursor(words: Seq<Interval>, phones: Seq<Interval>, wi: int, cursor: int)
    requires
        0 <= wi,
        0 <= cursor <= phones.len() <= usize::MAX,
        align_from(words, phones, wi, cursor).len() > 0,
    ensures
        align_from(words, phones, wi, cursor)[0].1.0 == cursor,
    decreases words.len() - wi,
{
    if wi < words.len() {
        if first_end(phones, cursor, words[wi].max_time@) is None {
            lemma_align_starts_at_cursor(words, phones, wi + 1, cursor);
        }
    }
}

/// Time is conserved: where the word runs reach the last phone, the new
/// phone tier starts when the old one starts and ends when it ends.
pub proof fn lemma_time_conserved(scheme: Scheme, tg: TextGrid)
    requires
        scheme.wf(),
        tg.items@.len() >= 2,
        tg.items@[0].intervals@.len() <= usize::MAX,
        tg.items@[1].intervals@.len() <= usize::MAX,
        ({
            let al = align(tg.items@[0].intervals@, tg.items@[1].intervals@);
            al.len() > 0 && al.last().1.1 == tg.items@[1].intervals@.len() - 1
        }),
    ensures
        ({
            let words = tg.items@[0].intervals@;
            let phones = tg.items@[1].intervals@;
            let out = phones_out(scheme, words, phones, align(words, phones));
            &&& out.len() > 0
            &&& out[0].min_time == phones[0].min_time
            &&& out.last().max_time == phones.last().max_time
        }),
{
    let words = tg.items@[0].intervals@;
    let phones = tg.items@[1].intervals@;
    lemma_align_from(words, phones, 0, 0);
    lemma_align_starts_at_cursor(words, phones, 0, 0);
    lemma_phones_out_ends(scheme, words, phones, align(words, phones));
}

/// Where the `k`-th rule's old phones start: the count of old labels of the
/// rules before it.
pub open spec fn rule_offset(pairs: Seq<Pair>, k: int) -> int {
    old_labels(pairs.take(k)).len() as int
}

proof fn lemma_rule_offset_step(pairs: Seq<Pair>, k: int)
    requires
        0 <= k < pairs.len(),
    ensures
        rule_offset(pairs, k + 1) == rule_offset(pairs, k) + pairs[k].old@.len(),
{
    assert(pairs.take(k + 1).drop_last() =~= pairs.take(k));
    assert(pairs.take(k + 1).last() == pairs[k]);
    assert(views(pairs[k].old@).len() == pairs[k].old@.len());
}

proof fn lemma_apply_rules_at(pairs: Seq<Pair>, run: Seq<Interval>)
    requires
        rules_wf(pairs),
        old_labels(pairs).len() <= run.len(),
    ensures
        apply_rules(pairs, run).len() == pairs.len(),
        forall|k: int|
            0 <= k < pairs.len() ==> #[trigger] apply_rules(pairs, run)[k] == (Interval {
                min_time: run[rule_offset(pairs, k)].min_time,
                max_time: run[rule_offset(pairs, k) + pairs[k].old@.len() - 1].max_time,
                text: pairs[k].new,
            }),
    decreases pairs.len(),
{
    if pairs.len() > 0 {
        let d = pairs.drop_last();
        let n = d.len() as int;
        assert(rules_wf(d)) by {
            assert forall|k: int| 0 <= k < d.len() implies (#[trigger] d[k]).old@.len() > 0 by {
                assert(d[k] == pairs[k]);
            }
        }
        assert(views(pairs.last().old@).len() == pairs.last().old@.len());
        assert(old_labels(pairs) == old_labels(d) + views(pairs.last().old@));
        lemma_apply_rules_at(d, run);
        assert(pairs.take(n) =~= d);
        assert forall|k: int| 0 <= k < pairs.len() implies #[trigger] apply_rules(pairs, run)[k] == (Interval {
            min_time: run[rule_offset(pairs, k)].min_time,
            max_time: run[rule_offset(pairs, k) + pairs[k].old@.len() - 1].max_time,
            text: pairs[k].new,
        }) by {
            if k < n {
                assert(pairs.take(k) =~= d.take(k));
                assert(d[k] == pairs[k]);
                assert(apply_rules(pairs, run)[k] == apply_rules(d, run)[k]);
            }
        }
    }
}

/// Rule application: a word whose phones are its rules' old labels gets one
/// interval per rule, in order. The `k`-th starts where its first old phone
/// starts (after the old labels of the rules before it), ends where its last
/// old phone ends, and carries the rule's new label. The new intervals span
/// the run from its start to its end, and where the phones leave no gap
/// between them, neither do the new intervals.
pub proof fn lemma_rule_application(scheme: Scheme, word: Seq<char>, run: Seq<Interval>)
    requires
        scheme.wf(),
        scheme.get_spec(word) matches Some(pairs) && old_labels(pairs) == texts(run),
    ensures
        ({
            let pairs = scheme.get_spec(word)->Some_0;
            let seg = convert_word(scheme, word, run);
            &&& seg == apply_rules(pairs, run)
            &&& seg.len() == pairs.len()
            &&& forall|k: int|
                0 <= k < pairs.len() ==> #[trigger] seg[k] == (Interval {
                    min_time: run[rule_offset(pairs, k)].min_time,
                    max_time: run[rule_offset(pairs, k) + pairs[k].old@.len() - 1].max_time,
                    text: pairs[k].new,
                })
            &&& run.len() > 0 ==> seg[0].min_time == run[0].min_time && seg.last().max_time
                == run.last().max_time
            &&& (forall|i: int| 0 <= i < run.len() - 1 ==> (#[trigger] run[i]).max_time@ == run[i + 1].min_time@)
                ==> forall|k: int| 0 <= k < seg.len() - 1 ==> (#[trigger] seg[k]).max_time@ == seg[k + 1].min_time@
        }),
{
    scheme.lemma_get_wf(word);
    let pairs = scheme.get_spec(word)->Some_0;
    let seg = apply_rules(pairs, run);
    lemma_apply_rules_at(pairs, run);
    if run.len() > 0 {
        lemma_convert_word_ends(scheme, word, run);
    }
    if forall|i: int| 0 <= i < run.len() - 1 ==> (#[trigger] run[i]).max_time@ == run[i + 1].min_time@ {
        assert forall|k: int| 0 <= k < seg.len() - 1 implies (#[trigger] seg[k]).max_time@ == seg[k
            + 1].min_time@ by {
            lemma_rule_offset_step(pairs, k);
            lemma_rule_offset_step(pairs, k + 1);
            lemma_old_labels_take(pairs, k + 2, pairs.len() as int);
            assert(pairs.take(pairs.len() as int) =~= pairs);
            assert(pairs[k + 1].old@.len() > 0);
            let i = rule_offset(pairs, k + 1) - 1;
            assert(run[i].max_time@ == run[i + 1].min_time@);
            assert(seg[k + 1] == (Interval {
                min_time: run[rule_offset(pairs, k + 1)].min_time,
                max_time: run[rule_offset(pairs, k + 1) + pairs[k + 1].old@.len() - 1].max_time,
                text: pairs[k + 1].new,
            }));
        }
    }
}

} // verus!
