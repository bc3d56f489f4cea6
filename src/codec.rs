//! The TextGrid text format. A document is read line by line: each field
//! line has the shape `key = number` or `key = "text"`, and the key and the
//! surrounding blanks are free. Structural lines between fields are skipped
//! by position.
use vstd::prelude::*;
use crate::textgrid::{
    Interval, IntervalTier, IntervalV, TextGrid, TextGridV, TierV, intervals_view, tiers_view,
};

verus! {

/// Why a document could not be read.
#[derive(Debug, Clone, Copy, PartialEq, Eq)]
pub enum FormatError {
    /// The text ends where a field line is expected.
    MissingLine,
    /// A line has no `= number` value.
    BadNumber,
    /// A line has no `= "text"` value.
    BadText,
    /// A count is not a whole number that fits in `usize`.
    BadCount,
    /// A tier is of a kind other than `IntervalTier`.
    UnsupportedTier,
}

/// Whether the advisory header lines name the expected file type and
/// object class.
#[derive(Debug, Clone, Copy, PartialEq, Eq)]
pub struct Header {
    pub file_type_ok: bool,
    pub object_class_ok: bool,
}

/// Relies on `str::chars` collected into a `Vec`: the characters in order.
#[verifier::external_body]
pub(crate) fn chars_of(s: &str) -> (r: Vec<char>)
    ensures
        r@ == s@,
{
    s.chars().collect()
}

/// Relies on `String::from_iter` over chars: the characters in order.
#[verifier::external_body]
pub(crate) fn string_of(cs: &[char]) -> (r: String)
    ensures
        r@ == cs@,
{
    cs.iter().collect()
}

/// Blanks that surround a field value: space, tab and carriage return.
pub open spec fn is_blank(c: char) -> bool {
    c == ' ' || c == '\t' || c == '\r'
}

/// The first index `i >= from` with `s[i] == c`, or `s.len()`.
pub open spec fn find(s: Seq<char>, c: char, from: int) -> int
    decreases s.len() - from,
{
    if from < 0 || from >= s.len() {
        s.len() as int
    } else if s[from] == c {
        from
    } else {
        find(s, c, from + 1)
    }
}

/// `s` without leading blanks.
pub open spec fn trim_start(s: Seq<char>) -> Seq<char>
    decreases s.len(),
{
    if s.len() > 0 && is_blank(s[0]) {
        trim_start(s.subrange(1, s.len() as int))
    } else {
        s
    }
}

/// `s` without trailing blanks.
pub open spec fn trim_end(s: Seq<char>) -> Seq<char>
    decreases s.len(),
{
    if s.len() > 0 && is_blank(s.last()) {
        trim_end(s.drop_last())
    } else {
        s
    }
}

/// What follows the first `=` of a line, without surrounding blanks.
pub open spec fn value_of(line: Seq<char>) -> Option<Seq<char>> {
    let e = find(line, '=', 0);
    if e >= line.len() {
        None
    } else {
        Some(trim_end(trim_start(line.subrange(e + 1, line.len() as int))))
    }
}

/// A character that may stand in a number field.
pub open spec fn is_num_char(c: char) -> bool {
    ('0' <= c && c <= '9') || c == '.'
}

/// A decimal digit.
pub open spec fn is_digit(c: char) -> bool {
    '0' <= c && c <= '9'
}

/// A decimal number: digits and dots only, at least one digit and at most
/// one dot (`2`, `2.5`, `.5`, `2.`).
pub open spec fn is_number(v: Seq<char>) -> bool {
    &&& forall|i: int| 0 <= i < v.len() ==> is_num_char(#[trigger] v[i])
    &&& exists|i: int| 0 <= i < v.len() && is_digit(#[trigger] v[i])
    &&& forall|i: int, j: int| 0 <= i < j < v.len() ==> !(#[trigger] v[i] == '.' && #[trigger] v[j] == '.')
}

/// The number of a `key = number` line.
pub open spec fn num_value(line: Seq<char>) -> Option<Seq<char>> {
    match value_of(line) {
        Some(v) => if is_number(v) {
            Some(v)
        } else {
            None
        },
        None => None,
    }
}

/// The text of a `key = "text"` line: what stands between the quotes.
pub open spec fn text_value(line: Seq<char>) -> Option<Seq<char>> {
    match value_of(line) {
        Some(v) => if v.len() >= 2 && v[0] == '"' && v.last() == '"' && forall|i: int|
            1 <= i < v.len() - 1 ==> #[trigger] v[i] != '"' {
            Some(v.subrange(1, v.len() - 1))
        } else {
            None
        },
        None => None,
    }
}

/// The value of a run of decimal digits.
pub open spec fn digits_value(s: Seq<char>) -> nat
    decreases s.len(),
{
    if s.len() == 0 {
        0
    } else {
        digits_value(s.drop_last()) * 10 + (s.last() as nat - '0' as nat) as nat
    }
}

/// The line that starts at `p`.
pub open spec fn line_at(t: Seq<char>, p: int) -> Seq<char> {
    t.subrange(p, find(t, '\n', p))
}

/// Where the line after the one at `p` starts (the end of the text when
/// there is none); `p` itself past the end.
pub open spec fn after(t: Seq<char>, p: int) -> int {
    if 0 <= p < t.len() {
        if find(t, '\n', p) < t.len() {
            find(t, '\n', p) + 1
        } else {
            t.len() as int
        }
    } else {
        p
    }
}

/// The number field on the line at `p`.
pub open spec fn num_at(t: Seq<char>, p: int) -> Result<Seq<char>, FormatError> {
    if !(0 <= p < t.len()) {
        Err(FormatError::MissingLine)
    } else {
        match num_value(line_at(t, p)) {
            Some(v) => Ok(v),
            None => Err(FormatError::BadNumber),
        }
    }
}

/// The quoted field on the line at `p`.
pub open spec fn text_at(t: Seq<char>, p: int) -> Result<Seq<char>, FormatError> {
    if !(0 <= p < t.len()) {
        Err(FormatError::MissingLine)
    } else {
        match text_value(line_at(t, p)) {
            Some(v) => Ok(v),
            None => Err(FormatError::BadText),
        }
    }
}

/// The count field on the line at `p`: a whole number that fits in `usize`.
pub open spec fn count_at(t: Seq<char>, p: int) -> Result<nat, FormatError> {
    if !(0 <= p < t.len()) {
        Err(FormatError::MissingLine)
    } else {
        match value_of(line_at(t, p)) {
            Some(v) => if v.len() > 0 && (forall|i: int| 0 <= i < v.len() ==> is_digit(#[trigger] v[i]))
                && digits_value(v) <= usize::MAX {
                Ok(digits_value(v))
            } else {
                Err(FormatError::BadCount)
            },
            None => Err(FormatError::BadCount),
        }
    }
}

/// One interval block at `p`: a heading line, then the start, the end and
/// the text. Gives the interval and where the next block starts.
pub open spec fn parse_interval(t: Seq<char>, p: int) -> Result<(IntervalV, int), FormatError> {
    let at1 = after(t, p);
    let at2 = after(t, at1);
    let at3 = after(t, at2);
    if num_at(t, at1) is Err {
        Err(num_at(t, at1)->Err_0)
    } else if num_at(t, at2) is Err {
        Err(num_at(t, at2)->Err_0)
    } else if text_at(t, at3) is Err {
        Err(text_at(t, at3)->Err_0)
    } else {
        Ok(
            (
                IntervalV {
                    min_time: num_at(t, at1)->Ok_0,
                    max_time: num_at(t, at2)->Ok_0,
                    text: text_at(t, at3)->Ok_0,
                },
                after(t, at3),
            ),
        )
    }
}

/// `n` interval blocks from `p`, appended to `acc`.
pub open spec fn parse_intervals(t: Seq<char>, p: int, n: nat, acc: Seq<IntervalV>) -> Result<
    (Seq<IntervalV>, int),
    FormatError,
>
    decreases n,
{
    if n == 0 {
        Ok((acc, p))
    } else {
        match parse_interval(t, p) {
            Ok((iv, q)) => parse_intervals(t, q, (n - 1) as nat, acc.push(iv)),
            Err(e) => Err(e),
        }
    }
}

/// One tier block at `p`: a heading line, the kind, which must be
/// `IntervalTier`, the name, the bounds, the count of intervals and that
/// many interval blocks.
pub open spec fn parse_tier(t: Seq<char>, p: int) -> Result<(TierV, int), FormatError> {
    let at1 = after(t, p);
    let at2 = after(t, at1);
    let at3 = after(t, at2);
    let at4 = after(t, at3);
    let at5 = after(t, at4);
    if text_at(t, at1) is Err {
        Err(text_at(t, at1)->Err_0)
    } else if text_at(t, at1)->Ok_0 != "IntervalTier"@ {
        Err(FormatError::UnsupportedTier)
    } else if text_at(t, at2) is Err {
        Err(text_at(t, at2)->Err_0)
    } else if num_at(t, at3) is Err {
        Err(num_at(t, at3)->Err_0)
    } else if num_at(t, at4) is Err {
        Err(num_at(t, at4)->Err_0)
    } else if count_at(t, at5) is Err {
        Err(count_at(t, at5)->Err_0)
    } else {
        match parse_intervals(t, after(t, at5), count_at(t, at5)->Ok_0, Seq::empty()) {
            Ok((ivs, q)) => Ok(
                (
                    TierV {
                        min_time: num_at(t, at3)->Ok_0,
                        max_time: num_at(t, at4)->Ok_0,
                        name: text_at(t, at2)->Ok_0,
                        intervals: ivs,
                    },
                    q,
                ),
            ),
            Err(e) => Err(e),
        }
    }
}

/// `n` tier blocks from `p`, appended to `acc`.
pub open spec fn parse_tiers(t: Seq<char>, p: int, n: nat, acc: Seq<TierV>) -> Result<
    Seq<TierV>,
    FormatError,
>
    decreases n,
{
    if n == 0 {
        Ok(acc)
    } else {
        match parse_tier(t, p) {
            Ok((tier, q)) => parse_tiers(t, q, (n - 1) as nat, acc.push(tier)),
            Err(e) => Err(e),
        }
    }
}

/// The line that marks a document without tiers.
pub open spec fn absent_line() -> Seq<char> {
    "tiers? <absent>"@
}

/// A whole document: the file type and object class lines (advisory), a
/// blank line, the bounds, the tiers line, then either nothing more (when
/// it marks tiers absent) or the count of tiers, a heading line and that
/// many tier blocks.
pub open spec fn parse_doc(t: Seq<char>) -> Result<TextGridV, FormatError> {
    let at1 = after(t, 0);
    let at2 = after(t, at1);
    let at3 = after(t, at2);
    let at4 = after(t, at3);
    let at5 = after(t, at4);
    let at6 = after(t, at5);
    if !(0 < t.len()) || !(at1 < t.len()) {
        Err(FormatError::MissingLine)
    } else if num_at(t, at3) is Err {
        Err(num_at(t, at3)->Err_0)
    } else if num_at(t, at4) is Err {
        Err(num_at(t, at4)->Err_0)
    } else if at5 < t.len() && trim_end(line_at(t, at5)) == absent_line() {
        Ok(TextGridV { min_time: num_at(t, at3)->Ok_0, max_time: num_at(t, at4)->Ok_0, items: Seq::empty() })
    } else if count_at(t, at6) is Err {
        Err(count_at(t, at6)->Err_0)
    } else {
        match parse_tiers(t, after(t, after(t, at6)), count_at(t, at6)->Ok_0, Seq::empty()) {
            Ok(items) => Ok(TextGridV { min_time: num_at(t, at3)->Ok_0, max_time: num_at(t, at4)->Ok_0, items }),
            Err(e) => Err(e),
        }
    }
}

/// The first index from `i` on that holds no space.
pub open spec fn skip_spaces(s: Seq<char>, i: int) -> int
    decreases s.len() - i,
{
    if 0 <= i < s.len() && s[i] == ' ' {
        skip_spaces(s, i + 1)
    } else {
        i
    }
}

/// Whether `w` stands in `s` at `i`.
pub open spec fn starts_at(s: Seq<char>, i: int, w: Seq<char>) -> bool {
    0 <= i && i + w.len() <= s.len() && s.subrange(i, i + w.len()) == w
}

/// Whether a header line starts with the key words `k1` and `k2`, then
/// `=` and the value `q`, with any spaces between them; anything may follow.
pub open spec fn header_is(line: Seq<char>, k1: Seq<char>, k2: Seq<char>, q: Seq<char>) -> bool {
    let i1 = skip_spaces(line, k1.len() as int);
    let i2 = skip_spaces(line, i1 + k2.len());
    let i3 = skip_spaces(line, i2 + 1);
    &&& starts_at(line, 0, k1)
    &&& starts_at(line, i1, k2)
    &&& starts_at(line, i2, seq!['='])
    &&& starts_at(line, i3, q)
}

fn find_exec(t: &Vec<char>, c: char, from: usize) -> (r: usize)
    requires
        from <= t@.len(),
    ensures
        r == find(t@, c, from as int),
        from <= r <= t@.len(),
{
    let mut i: usize = from;
    while i < t.len()
        invariant
            from <= i <= t@.len(),
            find(t@, c, from as int) == find(t@, c, i as int),
        decreases t@.len() - i,
    {
        if t[i] == c {
            return i;
        }
        i = i + 1;
    }
    i
}

fn after_exec(t: &Vec<char>, p: usize) -> (r: usize)
    requires
        p <= t@.len(),
    ensures
        r == after(t@, p as int),
        r <= t@.len(),
        p < t@.len() ==> p < r,
{
    if p >= t.len() {
        return p;
    }
    let e = find_exec(t, '\n', p);
    if e < t.len() {
        e + 1
    } else {
        e
    }
}

/// Where the value of the line `t[s..e]` stands in `t`.
fn value_range(t: &Vec<char>, s: usize, e: usize) -> (r: Option<(usize, usize)>)
    requires
        s <= e <= t@.len(),
    ensures
        match r {
            None => value_of(t@.subrange(s as int, e as int)) is None,
            Some((a, b)) => s <= a <= b <= e && value_of(t@.subrange(s as int, e as int)) == Some(
                t@.subrange(a as int, b as int),
            ),
        },
{
    let ghost line = t@.subrange(s as int, e as int);
    let mut i: usize = s;
    while i < e
        invariant
            s <= i <= e <= t@.len(),
            line == t@.subrange(s as int, e as int),
            find(line, '=', 0) == find(line, '=', i - s),
        ensures
            s <= i <= e,
            find(line, '=', 0) == find(line, '=', i - s),
            i < e ==> t@[i as int] == '=',
        decreases e - i,
    {
        if t[i] == '=' {
            break;
        }
        i = i + 1;
    }
    if i >= e {
        return None;
    }
    assert(find(line, '=', 0) == i - s);
    let mut lo: usize = i + 1;
    assert(line.subrange(i - s + 1, line.len() as int) =~= t@.subrange(lo as int, e as int));
    while lo < e && (t[lo] == ' ' || t[lo] == '\t' || t[lo] == '\r')
        invariant
            i < lo <= e <= t@.len(),
            trim_start(line.subrange(i - s + 1, line.len() as int)) == trim_start(
                t@.subrange(lo as int, e as int),
            ),
        decreases e - lo,
    {
        assert(t@.subrange(lo as int, e as int).subrange(1, e - lo) =~= t@.subrange(lo + 1, e as int));
        lo = lo + 1;
    }
    assert(trim_start(t@.subrange(lo as int, e as int)) == t@.subrange(lo as int, e as int));
    let mut hi: usize = e;
    while hi > lo && (t[hi - 1] == ' ' || t[hi - 1] == '\t' || t[hi - 1] == '\r')
        invariant
            lo <= hi <= e <= t@.len(),
            trim_end(t@.subrange(lo as int, e as int)) == trim_end(t@.subrange(lo as int, hi as int)),
        decreases hi - lo,
    {
        assert(t@.subrange(lo as int, hi as int).drop_last() =~= t@.subrange(lo as int, hi - 1));
        hi = hi - 1;
    }
    assert(trim_end(t@.subrange(lo as int, hi as int)) == t@.subrange(lo as int, hi as int));
    Some((lo, hi))
}

fn is_num_char_exec(c: char) -> (r: bool)
    ensures
        r == is_num_char(c),
{
    ('0' <= c && c <= '9') || c == '.'
}

/// The characters `t[a..b]` as a string.
fn substring(t: &Vec<char>, a: usize, b: usize) -> (r: String)
    requires
        a <= b <= t@.len(),
    ensures
        r@ == t@.subrange(a as int, b as int),
{
    let mut v: Vec<char> = Vec::new();
    let mut i: usize = a;
    while i < b
        invariant
            a <= i <= b <= t@.len(),
            v@ == t@.subrange(a as int, i as int),
        decreases b - i,
    {
        v.push(t[i]);
        i = i + 1;
        assert(v@ =~= t@.subrange(a as int, i as int));
    }
    string_of(v.as_slice())
}

/// The number on the line at `p`.
fn num_at_exec(t: &Vec<char>, p: usize) -> (r: Result<String, FormatError>)
    requires
        p <= t@.len(),
    ensures
        match r {
            Ok(v) => num_at(t@, p as int) == Ok::<Seq<char>, FormatError>(v@),
            Err(e) => num_at(t@, p as int) == Err::<Seq<char>, FormatError>(e),
        },
{
    if p >= t.len() {
        return Err(FormatError::MissingLine);
    }
    let e = find_exec(t, '\n', p);
    match value_range(t, p, e) {
        None => Err(FormatError::BadNumber),
        Some((a, b)) => {
            let ghost v = t@.subrange(a as int, b as int);
            let mut digit = false;
            let mut dot = false;
            let ghost mut dot_at: int = 0;
            let mut i: usize = a;
            while i < b
                invariant
                    a <= i <= b <= t@.len(),
                    v == t@.subrange(a as int, b as int),
                    p < t@.len(),
                    e == find(t@, '\n', p as int),
                    value_of(t@.subrange(p as int, e as int)) == Some(v),
                    forall|k: int| 0 <= k < i - a ==> is_num_char(#[trigger] v[k]),
                    digit == exists|k: int| 0 <= k < i - a && is_digit(#[trigger] v[k]),
                    dot ==> 0 <= dot_at < i - a && v[dot_at] == '.',
                    !dot ==> forall|k: int| 0 <= k < i - a ==> #[trigger] v[k] != '.',
                    forall|k: int, l: int| 0 <= k < l < i - a ==> !(#[trigger] v[k] == '.' && #[trigger] v[l] == '.'),
                decreases b - i,
            {
                let c = t[i];
                if !is_num_char_exec(c) {
                    assert(!is_num_char(v[i - a]));
                    return Err(FormatError::BadNumber);
                }
                if c == '.' {
                    if dot {
                        assert(v[dot_at] == '.' && v[i - a] == '.');
                        return Err(FormatError::BadNumber);
                    }
                    dot = true;
                    proof {
                        dot_at = i - a;
                    }
                } else {
                    assert(is_digit(v[i - a]));
                    digit = true;
                }
                i = i + 1;
            }
            if !digit {
                return Err(FormatError::BadNumber);
            }
            Ok(substring(t, a, b))
        },
    }
}

/// The quoted text on the line at `p`.
fn text_at_exec(t: &Vec<char>, p: usize) -> (r: Result<String, FormatError>)
    requires
        p <= t@.len(),
    ensures
        match r {
            Ok(v) => text_at(t@, p as int) == Ok::<Seq<char>, FormatError>(v@),
            Err(e) => text_at(t@, p as int) == Err::<Seq<char>, FormatError>(e),
        },
{
    if p >= t.len() {
        return Err(FormatError::MissingLine);
    }
    let e = find_exec(t, '\n', p);
    match value_range(t, p, e) {
        None => Err(FormatError::BadText),
        Some((a, b)) => {
            let ghost v = t@.subrange(a as int, b as int);
            if b - a < 2 || t[a] != '"' || t[b - 1] != '"' {
                return Err(FormatError::BadText);
            }
            let mut i: usize = a + 1;
            while i < b - 1
                invariant
                    a < i <= b - 1,
                    b <= t@.len(),
                    v == t@.subrange(a as int, b as int),
                    p < t@.len(),
                    e == find(t@, '\n', p as int),
                    value_of(t@.subrange(p as int, e as int)) == Some(v),
                    forall|k: int| 1 <= k < i - a ==> #[trigger] v[k] != '"',
                decreases b - 1 - i,
            {
                if t[i] == '"' {
                    assert(v[i - a] == '"');
                    return Err(FormatError::BadText);
                }
                i = i + 1;
            }
            assert(v.subrange(1, v.len() - 1) =~= t@.subrange(a + 1, b - 1));
            Ok(substring(t, a + 1, b - 1))
        },
    }
}

/// The count on the line at `p`.
fn count_at_exec(t: &Vec<char>, p: usize) -> (r: Result<usize, FormatError>)
    requires
        p <= t@.len(),
    ensures
        match r {
            Ok(n) => count_at(t@, p as int) == Ok::<nat, FormatError>(n as nat),
            Err(e) => count_at(t@, p as int) == Err::<nat, FormatError>(e),
        },
{
    if p >= t.len() {
        return Err(FormatError::MissingLine);
    }
    let e = find_exec(t, '\n', p);
    match value_range(t, p, e) {
        None => Err(FormatError::BadCount),
        Some((a, b)) => {
            let ghost v = t@.subrange(a as int, b as int);
            if a == b {
                return Err(FormatError::BadCount);
            }
            let mut acc: usize = 0;
            let mut big = false;
            let mut i: usize = a;
            while i < b
                invariant
                    a <= i <= b <= t@.len(),
                    v == t@.subrange(a as int, b as int),
                    p < t@.len(),
                    e == find(t@, '\n', p as int),
                    value_of(t@.subrange(p as int, e as int)) == Some(v),
                    forall|k: int| 0 <= k < i - a ==> is_digit(#[trigger] v[k]),
                    big ==> digits_value(v.take(i - a)) > usize::MAX,
                    !big ==> acc == digits_value(v.take(i - a)),
                decreases b - i,
            {
                let c = t[i];
                if !('0' <= c && c <= '9') {
                    assert(!is_digit(v[i - a]));
                    return Err(FormatError::BadCount);
                }
                let d = (c as u32 - '0' as u32) as usize;
                proof {
                    assert(v.take(i - a + 1).drop_last() == v.take(i - a));
                    assert(v.take(i - a + 1).last() == c);
                }
                if !big {
                    if acc > (usize::MAX - d) / 10 {
                        big = true;
                    } else {
                        acc = acc * 10 + d;
                    }
                }
                i = i + 1;
            }
            assert(v.take(b - a) == v);
            if big {
                Err(FormatError::BadCount)
            } else {
                Ok(acc)
            }
        },
    }
}

fn parse_interval_exec(t: &Vec<char>, p: usize) -> (r: Result<(Interval, usize), FormatError>)
    requires
        p <= t@.len(),
    ensures
        match r {
            Ok((iv, q)) => q <= t@.len() && parse_interval(t@, p as int) == Ok::<
                (IntervalV, int),
                FormatError,
            >((iv@, q as int)),
            Err(e) => parse_interval(t@, p as int) == Err::<(IntervalV, int), FormatError>(e),
        },
{
    let at1 = after_exec(t, p);
    let at2 = after_exec(t, at1);
    let at3 = after_exec(t, at2);
    let min_time = match num_at_exec(t, at1) {
        Ok(v) => v,
        Err(e) => return Err(e),
    };
    let max_time = match num_at_exec(t, at2) {
        Ok(v) => v,
        Err(e) => return Err(e),
    };
    let text = match text_at_exec(t, at3) {
        Ok(v) => v,
        Err(e) => return Err(e),
    };
    let q = after_exec(t, at3);
    Ok((Interval { min_time, max_time, text }, q))
}

fn parse_intervals_exec(t: &Vec<char>, at0: usize, n: usize) -> (r: Result<(Vec<Interval>, usize), FormatError>)
    requires
        at0 <= t@.len(),
    ensures
        match r {
            Ok((ivs, q)) => q <= t@.len() && parse_intervals(t@, at0 as int, n as nat, Seq::empty()) == Ok::<
                (Seq<IntervalV>, int),
                FormatError,
            >((intervals_view(ivs@), q as int)),
            Err(e) => parse_intervals(t@, at0 as int, n as nat, Seq::empty()) == Err::<
                (Seq<IntervalV>, int),
                FormatError,
            >(e),
        },
{
    let mut q = at0;
    let mut intervals: Vec<Interval> = Vec::new();
    let mut i: usize = 0;
    assert(intervals_view(intervals@) =~= Seq::<IntervalV>::empty());
    while i < n
        invariant
            i <= n,
            q <= t@.len(),
            parse_intervals(t@, at0 as int, n as nat, Seq::empty()) == parse_intervals(
                t@,
                q as int,
                (n - i) as nat,
                intervals_view(intervals@),
            ),
        decreases n - i,
    {
        match parse_interval_exec(t, q) {
            Ok((iv, q2)) => {
                proof {
                    assert(intervals_view(intervals@.push(iv)) =~= intervals_view(intervals@).push(iv@));
                }
                intervals.push(iv);
                q = q2;
            },
            Err(e) => return Err(e),
        }
        i = i + 1;
    }
    Ok((intervals, q))
}

fn parse_tiers_exec(t: &Vec<char>, at0: usize, n: usize) -> (r: Result<Vec<IntervalTier>, FormatError>)
    requires
        at0 <= t@.len(),
    ensures
        match r {
            Ok(items) => parse_tiers(t@, at0 as int, n as nat, Seq::empty()) == Ok::<
                Seq<TierV>,
                FormatError,
            >(tiers_view(items@)),
            Err(e) => parse_tiers(t@, at0 as int, n as nat, Seq::empty()) == Err::<Seq<TierV>, FormatError>(
                e,
            ),
        },
{
    let mut q = at0;
    let mut items: Vec<IntervalTier> = Vec::new();
    let mut i: usize = 0;
    assert(tiers_view(items@) =~= Seq::<TierV>::empty());
    while i < n
        invariant
            i <= n,
            q <= t@.len(),
            parse_tiers(t@, at0 as int, n as nat, Seq::empty()) == parse_tiers(
                t@,
                q as int,
                (n - i) as nat,
                tiers_view(items@),
            ),
        decreases n - i,
    {
        match parse_tier_exec(t, q) {
            Ok((tier, q2)) => {
                proof {
                    assert(tiers_view(items@.push(tier)) =~= tiers_view(items@).push(tier@));
                }
                items.push(tier);
                q = q2;
            },
            Err(e) => return Err(e),
        }
        i = i + 1;
    }
    Ok(items)
}

fn parse_tier_exec(t: &Vec<char>, p: usize) -> (r: Result<(IntervalTier, usize), FormatError>)
    requires
        p <= t@.len(),
    ensures
        match r {
            Ok((tier, q)) => q <= t@.len() && parse_tier(t@, p as int) == Ok::<(TierV, int), FormatError>(
                (tier@, q as int),
            ),
            Err(e) => parse_tier(t@, p as int) == Err::<(TierV, int), FormatError>(e),
        },
{
    let at1 = after_exec(t, p);
    let at2 = after_exec(t, at1);
    let at3 = after_exec(t, at2);
    let at4 = after_exec(t, at3);
    let at5 = after_exec(t, at4);
    let class = match text_at_exec(t, at1) {
        Ok(v) => v,
        Err(e) => return Err(e),
    };
    let kind = chars_of("IntervalTier");
    let class_chars = chars_of(class.as_str());
    proof {
        reveal_strlit("IntervalTier");
    }
    if !same_chars(&class_chars, &kind) {
        return Err(FormatError::UnsupportedTier);
    }
    let name = match text_at_exec(t, at2) {
        Ok(v) => v,
        Err(e) => return Err(e),
    };
    let min_time = match num_at_exec(t, at3) {
        Ok(v) => v,
        Err(e) => return Err(e),
    };
    let max_time = match num_at_exec(t, at4) {
        Ok(v) => v,
        Err(e) => return Err(e),
    };
    let n = match count_at_exec(t, at5) {
        Ok(n) => n,
        Err(e) => return Err(e),
    };
    let at0 = after_exec(t, at5);
    let (intervals, q) = match parse_intervals_exec(t, at0, n) {
        Ok(x) => x,
        Err(e) => return Err(e),
    };
    Ok((IntervalTier { min_time, max_time, name, intervals }, q))
}

/// Whether two character sequences are equal.
fn same_chars(a: &Vec<char>, b: &Vec<char>) -> (r: bool)
    ensures
        r == (a@ == b@),
{
    if a.len() != b.len() {
        return false;
    }
    let mut i: usize = 0;
    while i < a.len()
        invariant
            i <= a@.len() == b@.len(),
            forall|k: int| 0 <= k < i ==> a@[k] == b@[k],
        decreases a@.len() - i,
    {
        if a[i] != b[i] {
            return false;
        }
        i = i + 1;
    }
    assert(a@ =~= b@);
    true
}

impl TextGrid {
    /// Reads a document from its text. Also tells whether the two header
    /// lines name the expected file type and object class; they are
    /// advisory and a mismatch is no error.
    pub fn read(text: &str) -> (r: Result<(TextGrid, Header), FormatError>)
        ensures
            match r {
                Ok((g, h)) => {
                    &&& parse_doc(text@) == Ok::<TextGridV, FormatError>(g@)
                    &&& h.file_type_ok == header_is(
                        line_at(text@, 0),
                        "File"@,
                        "type"@,
                        "\"ooTextFile\""@,
                    )
                    &&& h.object_class_ok == header_is(
                        line_at(text@, after(text@, 0)),
                        "Object"@,
                        "class"@,
                        "\"TextGrid\""@,
                    )
                },
                Err(e) => parse_doc(text@) == Err::<TextGridV, FormatError>(e),
            },
    {
        let t = chars_of(text);
        if t.len() == 0 {
            return Err(FormatError::MissingLine);
        }
        let at1 = after_exec(&t, 0);
        if at1 >= t.len() {
            return Err(FormatError::MissingLine);
        }
        let at2 = after_exec(&t, at1);
        let at3 = after_exec(&t, at2);
        let at4 = after_exec(&t, at3);
        let at5 = after_exec(&t, at4);
        let at6 = after_exec(&t, at5);
        let header = Header {
            file_type_ok: valid_file_type(&t, 0),
            object_class_ok: valid_obj_class(&t, at1),
        };
        let min_time = match num_at_exec(&t, at3) {
            Ok(v) => v,
            Err(e) => return Err(e),
        };
        let max_time = match num_at_exec(&t, at4) {
            Ok(v) => v,
            Err(e) => return Err(e),
        };
        if at5 < t.len() && is_absent_line(&t, at5) {
            let none: Vec<IntervalTier> = Vec::new();
            assert(tiers_view(none@) =~= Seq::<TierV>::empty());
            return Ok((TextGrid { min_time, max_time, items: none }, header));
        }
        let n = match count_at_exec(&t, at6) {
            Ok(n) => n,
            Err(e) => return Err(e),
        };
        let at7 = after_exec(&t, at6);
        let at0 = after_exec(&t, at7);
        let items = match parse_tiers_exec(&t, at0, n) {
            Ok(items) => items,
            Err(e) => return Err(e),
        };
        let g = TextGrid { min_time, max_time, items };
        assert(g@.items == tiers_view(items@));
        Ok((g, header))
    }
}

fn skip_exec(s: &Vec<char>, i: usize) -> (r: usize)
    requires
        i <= s@.len(),
    ensures
        r == skip_spaces(s@, i as int),
        i <= r <= s@.len(),
{
    let mut j: usize = i;
    while j < s.len() && s[j] == ' '
        invariant
            i <= j <= s@.len(),
            skip_spaces(s@, i as int) == skip_spaces(s@, j as int),
        decreases s@.len() - j,
    {
        j = j + 1;
    }
    j
}

fn starts_exec(s: &Vec<char>, i: usize, w: &Vec<char>) -> (r: bool)
    requires
        i <= s@.len(),
    ensures
        r == starts_at(s@, i as int, w@),
{
    let n = s.len();
    if w.len() > n - i {
        return false;
    }
    let mut k: usize = 0;
    while k < w.len()
        invariant
            n == s@.len(),
            i + w@.len() <= s@.len(),
            k <= w@.len(),
            forall|m: int| 0 <= m < k ==> s@[i + m] == w@[m],
        decreases w@.len() - k,
    {
        if s[i + k] != w[k] {
            assert(s@.subrange(i as int, i + w@.len())[k as int] != w@[k as int]);
            return false;
        }
        k = k + 1;
    }
    assert(s@.subrange(i as int, i + w@.len()) =~= w@);
    true
}

/// The characters of the line at `p`.
fn line_chars(t: &Vec<char>, p: usize) -> (r: Vec<char>)
    requires
        p < t@.len(),
    ensures
        r@ == line_at(t@, p as int),
{
    let e = find_exec(t, '\n', p);
    let mut line: Vec<char> = Vec::new();
    let mut i: usize = p;
    while i < e
        invariant
            p <= i <= e <= t@.len(),
            line@ == t@.subrange(p as int, i as int),
        decreases e - i,
    {
        line.push(t[i]);
        i = i + 1;
        assert(line@ =~= t@.subrange(p as int, i as int));
    }
    line
}

/// Whether `line` starts with `k1`, `k2`, `=` and `q`, spaces allowed
/// between them.
fn header_exec(line: &Vec<char>, k1: &Vec<char>, k2: &Vec<char>, q: &Vec<char>) -> (r: bool)
    ensures
        r == header_is(line@, k1@, k2@, q@),
{
    let n = line.len();
    if !starts_exec(line, 0, k1) {
        return false;
    }
    let i1 = skip_exec(line, k1.len());
    if !starts_exec(line, i1, k2) {
        return false;
    }
    let i2 = skip_exec(line, i1 + k2.len());
    let eq = vec!['='];
    assert(eq@ =~= seq!['=']);
    if !starts_exec(line, i2, &eq) {
        return false;
    }
    let i3 = skip_exec(line, i2 + 1);
    starts_exec(line, i3, q)
}

/// Whether the line at `p` declares the file type `ooTextFile`.
fn valid_file_type(t: &Vec<char>, p: usize) -> (r: bool)
    requires
        p < t@.len(),
    ensures
        r == header_is(line_at(t@, p as int), "File"@, "type"@, "\"ooTextFile\""@),
{
    let line = line_chars(t, p);
    header_exec(&line, &chars_of("File"), &chars_of("type"), &chars_of("\"ooTextFile\""))
}

/// Whether the line at `p` declares the object class `TextGrid`.
fn valid_obj_class(t: &Vec<char>, p: usize) -> (r: bool)
    requires
        p < t@.len(),
    ensures
        r == header_is(line_at(t@, p as int), "Object"@, "class"@, "\"TextGrid\""@),
{
    let line = line_chars(t, p);
    header_exec(&line, &chars_of("Object"), &chars_of("class"), &chars_of("\"TextGrid\""))
}

/// Whether the line at `p`, without trailing blanks, marks tiers absent.
fn is_absent_line(t: &Vec<char>, p: usize) -> (r: bool)
    requires
        p < t@.len(),
    ensures
        r == (trim_end(line_at(t@, p as int)) == absent_line()),
{
    let e = find_exec(t, '\n', p);
    let mut hi: usize = e;
    while hi > p && (t[hi - 1] == ' ' || t[hi - 1] == '\t' || t[hi - 1] == '\r')
        invariant
            p <= hi <= e <= t@.len(),
            trim_end(t@.subrange(p as int, e as int)) == trim_end(t@.subrange(p as int, hi as int)),
        decreases hi - p,
    {
        assert(t@.subrange(p as int, hi as int).drop_last() =~= t@.subrange(p as int, hi - 1));
        hi = hi - 1;
    }
    assert(trim_end(t@.subrange(p as int, hi as int)) == t@.subrange(p as int, hi as int));
    let mut line: Vec<char> = Vec::new();
    let mut i: usize = p;
    while i < hi
        invariant
            p <= i <= hi <= t@.len(),
            line@ == t@.subrange(p as int, i as int),
        decreases hi - i,
    {
        line.push(t[i]);
        i = i + 1;
        assert(line@ =~= t@.subrange(p as int, i as int));
    }
    let absent = chars_of("tiers? <absent>");
    same_chars(&line, &absent)
}

/// The digit character of `d % 10`.
pub open spec fn digit_char(d: nat) -> char {
    ((d % 10) + '0' as nat) as char
}

/// The decimal digits of `n`.
pub open spec fn dec(n: nat) -> Seq<char>
    decreases n,
{
    if n < 10 {
        seq![digit_char(n)]
    } else {
        dec(n / 10).push(digit_char(n % 10))
    }
}

/// The block of the `k`-th interval (counting from 1).
pub open spec fn render_interval(k: nat, iv: IntervalV) -> Seq<char> {
    "            intervals ["@ + dec(k) + "]\n"@ + "                xmin = "@ + iv.min_time + "\n"@
        + "                xmax = "@ + iv.max_time + "\n"@ + "                text = \""@ + iv.text
        + "\"\n"@
}

/// The blocks of all intervals, numbered from 1.
pub open spec fn render_intervals(ivs: Seq<IntervalV>) -> Seq<char>
    decreases ivs.len(),
{
    if ivs.len() == 0 {
        Seq::empty()
    } else {
        render_intervals(ivs.drop_last()) + render_interval(ivs.len(), ivs.last())
    }
}

/// The block of the `k`-th tier (counting from 1).
pub open spec fn render_tier(k: nat, tier: TierV) -> Seq<char> {
    "    item ["@ + dec(k) + "]\n"@ + "        class = \"IntervalTier\"\n"@ + "        name = \""@
        + tier.name + "\"\n"@ + "        xmin = "@ + tier.min_time + "\n"@ + "        xmax = "@
        + tier.max_time + "\n"@ + "        intervals: size = "@ + dec(tier.intervals.len()) + "\n"@
        + render_intervals(tier.intervals)
}

/// The blocks of all tiers, numbered from 1.
pub open spec fn render_tiers(ts: Seq<TierV>) -> Seq<char>
    decreases ts.len(),
{
    if ts.len() == 0 {
        Seq::empty()
    } else {
        render_tiers(ts.drop_last()) + render_tier(ts.len(), ts.last())
    }
}

/// The text of a document.
pub open spec fn render(g: TextGridV) -> Seq<char> {
    "File type = \"ooTextFile\"\n"@ + "Object class = \"TextGrid\"\n"@ + "\n"@ + "xmin = "@ + g.min_time
        + "\n"@ + "xmax = "@ + g.max_time + "\n"@ + if g.items.len() == 0 {
        "tiers? <absent>\n"@
    } else {
        "tiers? <exists>\n"@ + "size = "@ + dec(g.items.len()) + "\n"@ + "item []:\n"@ + render_tiers(
            g.items,
        )
    }
}

fn push_str(out: &mut Vec<char>, s: &str)
    ensures
        final(out)@ == old(out)@ + s@,
{
    let cs = chars_of(s);
    let mut i: usize = 0;
    while i < cs.len()
        invariant
            i <= cs@.len(),
            cs@ == s@,
            out@ == old(out)@ + cs@.take(i as int),
        decreases cs@.len() - i,
    {
        out.push(cs[i]);
        i = i + 1;
        assert(out@ =~= old(out)@ + cs@.take(i as int));
    }
    assert(cs@.take(i as int) == cs@);
}

fn push_dec(out: &mut Vec<char>, n: usize)
    ensures
        final(out)@ == old(out)@ + dec(n as nat),
    decreases n,
{
    if n >= 10 {
        push_dec(out, n / 10);
    }
    let d = n % 10;
    proof {
        assert(d < 10);
    }
    out.push(((d as u8) + 48u8) as char);
    proof {
        assert((((d as u8) + 48u8) as char) == digit_char(n as nat));
        if n >= 10 {
            assert(dec(n as nat) == dec((n / 10) as nat).push(digit_char((n % 10) as nat)));
            assert(digit_char((n % 10) as nat) == digit_char(n as nat));
        }
    }
}

fn push_interval(out: &mut Vec<char>, k: usize, iv: &Interval)
    ensures
        final(out)@ == old(out)@ + render_interval(k as nat, iv@),
{
    let ghost before = out@;
    push_str(out, "            intervals [");
    push_dec(out, k);
    push_str(out, "]\n");
    push_str(out, "                xmin = ");
    push_str(out, iv.min_time.as_str());
    push_str(out, "\n");
    push_str(out, "                xmax = ");
    push_str(out, iv.max_time.as_str());
    push_str(out, "\n");
    push_str(out, "                text = \"");
    push_str(out, iv.text.as_str());
    push_str(out, "\"\n");
    assert(out@ =~= before + render_interval(k as nat, iv@));
}

fn push_intervals(out: &mut Vec<char>, ivs: &Vec<Interval>)
    ensures
        final(out)@ == old(out)@ + render_intervals(intervals_view(ivs@)),
{
    let mut j: usize = 0;
    assert(intervals_view(ivs@).take(0) =~= Seq::<IntervalV>::empty());
    while j < ivs.len()
        invariant
            j <= ivs@.len(),
            out@ == old(out)@ + render_intervals(intervals_view(ivs@).take(j as int)),
        decreases ivs@.len() - j,
    {
        let iv = &ivs[j];
        let ghost before = out@;
        push_interval(out, j + 1, iv);
        proof {
            let v = intervals_view(ivs@);
            assert(v.take(j + 1).drop_last() =~= v.take(j as int));
            assert(v.take(j + 1).last() == iv@);
        }
        j = j + 1;
    }
    assert(intervals_view(ivs@).take(j as int) =~= intervals_view(ivs@));
}

#[verifier::rlimit(40)]
fn push_tier(out: &mut Vec<char>, k: usize, item: &IntervalTier)
    ensures
        final(out)@ == old(out)@ + render_tier(k as nat, item@),
{
    let ghost before = out@;
    push_str(out, "    item [");
    push_dec(out, k);
    push_str(out, "]\n");
    push_str(out, "        class = \"IntervalTier\"\n");
    push_str(out, "        name = \"");
    push_str(out, item.name.as_str());
    push_str(out, "\"\n");
    assert(out@ =~= before + ("    item ["@ + dec(k as nat) + "]\n"@ + "        class = \"IntervalTier\"\n"@
        + "        name = \""@ + item.name@ + "\"\n"@));
    let ghost half = out@;
    push_str(out, "        xmin = ");
    push_str(out, item.min_time.as_str());
    push_str(out, "\n");
    push_str(out, "        xmax = ");
    push_str(out, item.max_time.as_str());
    push_str(out, "\n");
    push_str(out, "        intervals: size = ");
    push_dec(out, item.intervals.len());
    push_str(out, "\n");
    assert(out@ =~= half + ("        xmin = "@ + item.min_time@ + "\n"@ + "        xmax = "@
        + item.max_time@ + "\n"@ + "        intervals: size = "@ + dec(item@.intervals.len()) + "\n"@));
    push_intervals(out, &item.intervals);
    assert(out@ =~= before + render_tier(k as nat, item@));
}

impl Interval {
    /// A short text form of the interval: its bounds and its text, one per
    /// line under an `interval:` heading.
    pub fn to_string(&self) -> (r: String)
        ensures
            r@ == "interval: \n   xmin = "@ + self.min_time@ + "\n   xmax = "@ + self.max_time@
                + "\n   text = \""@ + self.text@ + "\""@,
    {
        let mut out: Vec<char> = Vec::new();
        push_str(&mut out, "interval: \n   xmin = ");
        push_str(&mut out, self.min_time.as_str());
        push_str(&mut out, "\n   xmax = ");
        push_str(&mut out, self.max_time.as_str());
        push_str(&mut out, "\n   text = \"");
        push_str(&mut out, self.text.as_str());
        push_str(&mut out, "\"");
        assert(out@ =~= "interval: \n   xmin = "@ + self.min_time@ + "\n   xmax = "@ + self.max_time@
            + "\n   text = \""@ + self.text@ + "\""@);
        string_of(out.as_slice())
    }
}

impl TextGrid {
    /// The text of the document: the header, then each tier and each
    /// interval numbered from 1, one field per line.
    pub fn to_string(&self) -> (r: String)
        ensures
            r@ == render(self@),
    {
        let mut out: Vec<char> = Vec::new();
        push_str(&mut out, "File type = \"ooTextFile\"\n");
        push_str(&mut out, "Object class = \"TextGrid\"\n");
        push_str(&mut out, "\n");
        push_str(&mut out, "xmin = ");
        push_str(&mut out, self.min_time.as_str());
        push_str(&mut out, "\n");
        push_str(&mut out, "xmax = ");
        push_str(&mut out, self.max_time.as_str());
        push_str(&mut out, "\n");
        let ghost head = out@;
        if self.items.len() == 0 {
            push_str(&mut out, "tiers? <absent>\n");
            assert(out@ =~= render(self@));
            return string_of(out.as_slice());
        }
        push_str(&mut out, "tiers? <exists>\n");
        push_str(&mut out, "size = ");
        push_dec(&mut out, self.items.len());
        push_str(&mut out, "\n");
        push_str(&mut out, "item []:\n");
        let ghost mid = out@;
        let ghost ts = tiers_view(self.items@);
        let mut i: usize = 0;
        assert(ts.take(0) =~= Seq::<TierV>::empty());
        while i < self.items.len()
            invariant
                i <= self.items@.len(),
                ts == tiers_view(self.items@),
                out@ == mid + render_tiers(ts.take(i as int)),
            decreases self.items@.len() - i,
        {
            let item = &self.items[i];
            let ghost before = out@;
            push_tier(&mut out, i + 1, item);
            proof {
                assert(ts.take(i + 1).drop_last() =~= ts.take(i as int));
                assert(ts.take(i + 1).last() == item@);
            }
            i = i + 1;
        }
        assert(ts.take(i as int) =~= ts);
        assert(out@ =~= render(self@));
        string_of(out.as_slice())
    }
}

} // verus!
