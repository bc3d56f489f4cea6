//! The codec's round trip: reading the text that `TextGrid::to_string`
//! writes gives back the document, for every document whose fields can be
//! written (numbers of digits and dots, texts without quotes or line
//! breaks).
use vstd::prelude::*;
use crate::codec::{
    FormatError, after, count_at, dec, digit_char, digits_value, find, is_blank, is_digit, is_num_char,
    is_number,
    line_at, num_at, num_value, parse_doc, parse_interval, parse_intervals, parse_tier, parse_tiers,
    render, render_interval, render_intervals, render_tier, render_tiers, text_value,
    trim_end, trim_start, value_of, absent_line,
};
use crate::textgrid::{IntervalV, TextGridV, TierV};

verus! {

/// The text of lines, each followed by a line break.
pub open spec fn join(ls: Seq<Seq<char>>) -> Seq<char>
    decreases ls.len(),
{
    if ls.len() == 0 {
        Seq::empty()
    } else {
        ls[0] + seq!['\n'] + join(ls.drop_first())
    }
}

/// A line without a line break in it.
pub open spec fn no_break(l: Seq<char>) -> bool {
    forall|i: int| 0 <= i < l.len() ==> l[i] != '\n'
}

proof fn lemma_join_append(a: Seq<Seq<char>>, b: Seq<Seq<char>>)
    ensures
        join(a + b) == join(a) + join(b),
    decreases a.len(),
{
    if a.len() == 0 {
        assert(a + b =~= b);
        assert(join(a) + join(b) =~= join(b));
    } else {
        assert((a + b).drop_first() =~= a.drop_first() + b);
        lemma_join_append(a.drop_first(), b);
        assert((a + b)[0] == a[0]);
        assert(join(a + b) =~= join(a) + join(b));
    }
}

proof fn lemma_find_shift(a: Seq<char>, b: Seq<char>, c: char, i: int)
    requires
        0 <= i,
    ensures
        find(a + b, c, a.len() + i) == a.len() + find(b, c, i),
    decreases b.len() - i,
{
    if i < b.len() {
        assert((a + b)[a.len() + i] == b[i]);
        if b[i] != c {
            lemma_find_shift(a, b, c, i + 1);
        }
    }
}

proof fn lemma_find_front(l: Seq<char>, post: Seq<char>, j: int)
    requires
        no_break(l),
        0 <= j <= l.len(),
    ensures
        find(l + seq!['\n'] + post, '\n', j) == l.len(),
    decreases l.len() - j,
{
    let t = l + seq!['\n'] + post;
    if j < l.len() {
        assert(t[j] == l[j]);
        lemma_find_front(l, post, j + 1);
    } else {
        assert(t[j] == '\n');
    }
}

/// Where the `k`-th line starts.
pub open spec fn off(ls: Seq<Seq<char>>, k: int) -> int {
    join(ls.take(k)).len() as int
}

/// Lines none of which holds a line break.
pub open spec fn all_no_break(ls: Seq<Seq<char>>) -> bool {
    forall|k: int| 0 <= k < ls.len() ==> no_break(#[trigger] ls[k])
}

/// The `k`-th line of a text made of lines is found where it starts, and
/// the next line starts right after its break.
proof fn lemma_line(ls: Seq<Seq<char>>, post: Seq<char>, k: int)
    requires
        all_no_break(ls),
        0 <= k < ls.len(),
    ensures
        line_at(join(ls) + post, off(ls, k)) == ls[k],
        after(join(ls) + post, off(ls, k)) == off(ls, k + 1),
        off(ls, k) < (join(ls) + post).len(),
{
    let a = join(ls.take(k));
    let rest = ls.subrange(k, ls.len() as int);
    assert(ls =~= ls.take(k) + rest);
    lemma_join_append(ls.take(k), rest);
    assert(rest.drop_first() =~= ls.subrange(k + 1, ls.len() as int));
    let b = ls[k] + seq!['\n'] + (join(rest.drop_first()) + post);
    assert(join(ls) + post =~= a + b);
    assert(no_break(ls[k]));
    lemma_find_front(ls[k], join(rest.drop_first()) + post, 0);
    lemma_find_shift(a, b, '\n', 0);
    assert(ls[k] + seq!['\n'] + (join(rest.drop_first()) + post) == b);
    assert((a + b).subrange(a.len() as int, (a.len() + ls[k].len()) as int) =~= ls[k]);
    assert(b[ls[k].len() as int] == '\n');
    assert(ls.take(k + 1) =~= ls.take(k).push(ls[k]));
    lemma_join_append(ls.take(k), seq![ls[k]]);
    assert(seq![ls[k]].drop_first() =~= Seq::<Seq<char>>::empty());
    assert(join(Seq::<Seq<char>>::empty()) == Seq::<char>::empty());
    assert(join(seq![ls[k]]) =~= ls[k] + seq!['\n']);
    assert(find(join(ls) + post, '\n', off(ls, k)) == a.len() + ls[k].len());
    assert(ls.take(k).push(ls[k]) =~= ls.take(k) + seq![ls[k]]);
}

/// A field prefix: a key without `=`, then ` = `.
pub open spec fn field_prefix(p: Seq<char>) -> bool {
    &&& p.len() >= 2
    &&& p[p.len() - 2] == '='
    &&& p[p.len() - 1] == ' '
    &&& forall|i: int| 0 <= i < p.len() - 2 ==> p[i] != '='
}

proof fn lemma_find_eq(p: Seq<char>, v: Seq<char>, j: int)
    requires
        field_prefix(p),
        0 <= j <= p.len() - 2,
    ensures
        find(p + v, '=', j) == p.len() - 2,
    decreases p.len() - 2 - j,
{
    assert((p + v)[j] == p[j]);
    if j < p.len() - 2 {
        lemma_find_eq(p, v, j + 1);
    }
}

proof fn lemma_value(p: Seq<char>, v: Seq<char>)
    requires
        field_prefix(p),
        v.len() > 0,
        !is_blank(v[0]),
        !is_blank(v.last()),
    ensures
        value_of(p + v) == Some(v),
{
    lemma_find_eq(p, v, 0);
    let l = p + v;
    let e = p.len() - 2;
    assert(l.subrange(e + 1, l.len() as int) =~= seq![' '] + v);
    assert((seq![' '] + v).subrange(1, (v.len() + 1) as int) =~= v);
    assert(trim_start(seq![' '] + v) == trim_start(v));
    assert(trim_start(v) == v);
    assert(trim_end(v) == v);
}

/// A number that can be written and read back.
pub open spec fn num_tok(s: Seq<char>) -> bool {
    is_number(s)
}

/// A text that can be written between quotes on one line.
pub open spec fn plain_text(s: Seq<char>) -> bool {
    forall|i: int| 0 <= i < s.len() ==> #[trigger] s[i] != '"' && s[i] != '\n'
}

/// An interval whose fields can be written and read back.
pub open spec fn interval_ok(iv: IntervalV) -> bool {
    num_tok(iv.min_time) && num_tok(iv.max_time) && plain_text(iv.text)
}

/// A tier whose fields and intervals can be written and read back.
pub open spec fn tier_ok(t: TierV) -> bool {
    &&& num_tok(t.min_time)
    &&& num_tok(t.max_time)
    &&& plain_text(t.name)
    &&& t.intervals.len() <= usize::MAX
    &&& forall|j: int| 0 <= j < t.intervals.len() ==> interval_ok(#[trigger] t.intervals[j])
}

/// A document whose every field can be written and read back.
pub open spec fn writable(g: TextGridV) -> bool {
    &&& num_tok(g.min_time)
    &&& num_tok(g.max_time)
    &&& g.items.len() <= usize::MAX
    &&& forall|j: int| 0 <= j < g.items.len() ==> tier_ok(#[trigger] g.items[j])
}

/// `s` between double quotes.
pub open spec fn quoted(s: Seq<char>) -> Seq<char> {
    seq!['"'] + s + seq!['"']
}

/// The lines of the `k`-th interval block.
pub open spec fn interval_lines(k: nat, iv: IntervalV) -> Seq<Seq<char>> {
    seq![
        "            intervals ["@ + dec(k) + "]"@,
        "                xmin = "@ + iv.min_time,
        "                xmax = "@ + iv.max_time,
        "                text = "@ + quoted(iv.text),
    ]
}

/// The lines of interval blocks numbered from `k`.
pub open spec fn ivs_lines(ivs: Seq<IntervalV>, k: nat) -> Seq<Seq<char>>
    decreases ivs.len(),
{
    if ivs.len() == 0 {
        Seq::empty()
    } else {
        interval_lines(k, ivs[0]) + ivs_lines(ivs.drop_first(), k + 1)
    }
}

/// The lines of the `k`-th tier block before its intervals.
pub open spec fn tier_head(k: nat, t: TierV) -> Seq<Seq<char>> {
    seq![
        "    item ["@ + dec(k) + "]"@,
        "        class = "@ + quoted("IntervalTier"@),
        "        name = "@ + quoted(t.name),
        "        xmin = "@ + t.min_time,
        "        xmax = "@ + t.max_time,
        "        intervals: size = "@ + dec(t.intervals.len()),
    ]
}

/// The lines of the `k`-th tier block.
pub open spec fn tier_lines(k: nat, t: TierV) -> Seq<Seq<char>> {
    tier_head(k, t) + ivs_lines(t.intervals, 1)
}

/// The lines of tier blocks numbered from `k`.
pub open spec fn tiers_lines(ts: Seq<TierV>, k: nat) -> Seq<Seq<char>>
    decreases ts.len(),
{
    if ts.len() == 0 {
        Seq::empty()
    } else {
        tier_lines(k, ts[0]) + tiers_lines(ts.drop_first(), k + 1)
    }
}

/// The first lines of a document, up to its bounds.
pub open spec fn doc_head(g: TextGridV) -> Seq<Seq<char>> {
    seq![
        "File type = "@ + quoted("ooTextFile"@),
        "Object class = "@ + quoted("TextGrid"@),
        Seq::empty(),
        "xmin = "@ + g.min_time,
        "xmax = "@ + g.max_time,
    ]
}

/// The lines of a whole document.
pub open spec fn doc_lines(g: TextGridV) -> Seq<Seq<char>> {
    if g.items.len() == 0 {
        doc_head(g) + seq!["tiers? <absent>"@]
    } else {
        doc_head(g) + seq!["tiers? <exists>"@, "size = "@ + dec(g.items.len()), "item []:"@] + tiers_lines(
            g.items,
            1,
        )
    }
}

proof fn lemma_dec(n: nat)
    ensures
        dec(n).len() > 0,
        forall|i: int| 0 <= i < dec(n).len() ==> is_digit(#[trigger] dec(n)[i]),
        digits_value(dec(n)) == n,
    decreases n,
{
    let c = digit_char(n % 10);
    assert(is_digit(c) && c as nat - '0' as nat == n % 10);
    if n >= 10 {
        lemma_dec(n / 10);
        let d = dec(n / 10);
        assert(dec(n) == d.push(c));
        assert(dec(n).drop_last() =~= d);
        assert forall|i: int| 0 <= i < dec(n).len() implies is_digit(#[trigger] dec(n)[i]) by {
            if i < d.len() {
                assert(dec(n)[i] == d[i]);
            }
        }
        assert(digits_value(dec(n)) == digits_value(d) * 10 + (n % 10));
        assert((n / 10) * 10 + n % 10 == n);
    } else {
        assert(dec(n) == seq![c]);
        assert(dec(n).drop_last() =~= Seq::<char>::empty());
        assert(digits_value(Seq::<char>::empty()) == 0);
        assert(digits_value(dec(n)) == digits_value(Seq::<char>::empty()) * 10 + (n % 10));
    }
}

proof fn lemma_num_line(p: Seq<char>, v: Seq<char>)
    requires
        field_prefix(p),
        num_tok(v),
    ensures
        num_value(p + v) == Some(v),
        no_break(v),
{
    assert(is_num_char(v[0]) && is_num_char(v[v.len() - 1]));
    lemma_value(p, v);
    assert forall|i: int| 0 <= i < v.len() implies v[i] != '\n' by {
        assert(is_num_char(v[i]));
    }
}

proof fn lemma_text_line(p: Seq<char>, s: Seq<char>)
    requires
        field_prefix(p),
        plain_text(s),
    ensures
        text_value(p + quoted(s)) == Some(s),
        no_break(quoted(s)),
{
    let q = quoted(s);
    lemma_value(p, q);
    assert(q.subrange(1, q.len() - 1) =~= s);
    assert forall|i: int| 1 <= i < q.len() - 1 implies #[trigger] q[i] != '"' by {
        assert(q[i] == s[i - 1]);
    }
    assert forall|i: int| 0 <= i < q.len() implies q[i] != '\n' by {
        if 1 <= i < q.len() - 1 {
            assert(q[i] == s[i - 1]);
        }
    }
}

proof fn lemma_count_line(p: Seq<char>, n: nat)
    requires
        field_prefix(p),
        n <= usize::MAX,
    ensures
        ({
            let l = p + dec(n);
            value_of(l) == Some(dec(n))
        }),
        no_break(dec(n)),
{
    lemma_dec(n);
    assert(is_digit(dec(n)[0]) && is_digit(dec(n)[dec(n).len() - 1]));
    lemma_value(p, dec(n));
    assert forall|i: int| 0 <= i < dec(n).len() implies dec(n)[i] != '\n' by {
        assert(is_digit(dec(n)[i]));
    }
}

/// The count line at `p` reads as `n`.
proof fn lemma_count_at(t: Seq<char>, q: int, p: Seq<char>, n: nat)
    requires
        field_prefix(p),
        n <= usize::MAX,
        0 <= q < t.len(),
        line_at(t, q) == p + dec(n),
    ensures
        count_at(t, q) == Ok::<nat, FormatError>(n),
{
    lemma_count_line(p, n);
    lemma_dec(n);
}

proof fn lemma_concat_no_break(a: Seq<char>, b: Seq<char>)
    requires
        no_break(a),
        no_break(b),
    ensures
        no_break(a + b),
{
    assert forall|i: int| 0 <= i < (a + b).len() implies (a + b)[i] != '\n' by {
        if i < a.len() {
            assert((a + b)[i] == a[i]);
        } else {
            assert((a + b)[i] == b[i - a.len()]);
        }
    }
}

proof fn lemma_all_no_break_append(a: Seq<Seq<char>>, b: Seq<Seq<char>>)
    requires
        all_no_break(a),
        all_no_break(b),
    ensures
        all_no_break(a + b),
{
    assert forall|k: int| 0 <= k < (a + b).len() implies no_break(#[trigger] (a + b)[k]) by {
        if k < a.len() {
            assert((a + b)[k] == a[k]);
        } else {
            assert((a + b)[k] == b[k - a.len()]);
        }
    }
}

proof fn lemma_prefixes()
    ensures
        field_prefix("                xmin = "@),
        field_prefix("                xmax = "@),
        field_prefix("                text = "@),
        field_prefix("        class = "@),
        field_prefix("        name = "@),
        field_prefix("        xmin = "@),
        field_prefix("        xmax = "@),
        field_prefix("        intervals: size = "@),
        field_prefix("File type = "@),
        field_prefix("Object class = "@),
        field_prefix("xmin = "@),
        field_prefix("xmax = "@),
        field_prefix("size = "@),
        no_break("            intervals ["@),
        no_break("]"@),
        no_break("    item ["@),
        no_break("tiers? <absent>"@),
        no_break("tiers? <exists>"@),
        no_break("item []:"@),
        no_break("                xmin = "@),
        no_break("                xmax = "@),
        no_break("                text = "@),
        no_break("        class = "@),
        no_break("        name = "@),
        no_break("        xmin = "@),
        no_break("        xmax = "@),
        no_break("        intervals: size = "@),
        no_break("File type = "@),
        no_break("Object class = "@),
        no_break("xmin = "@),
        no_break("xmax = "@),
        no_break("size = "@),
        plain_text("IntervalTier"@),
        plain_text("ooTextFile"@),
        plain_text("TextGrid"@),
{
    reveal_strlit("                xmin = ");
    reveal_strlit("                xmax = ");
    reveal_strlit("                text = ");
    reveal_strlit("        class = ");
    reveal_strlit("        name = ");
    reveal_strlit("        xmin = ");
    reveal_strlit("        xmax = ");
    reveal_strlit("        intervals: size = ");
    reveal_strlit("File type = ");
    reveal_strlit("Object class = ");
    reveal_strlit("xmin = ");
    reveal_strlit("xmax = ");
    reveal_strlit("size = ");
    reveal_strlit("            intervals [");
    reveal_strlit("]");
    reveal_strlit("    item [");
    reveal_strlit("tiers? <absent>");
    reveal_strlit("tiers? <exists>");
    reveal_strlit("item []:");
    reveal_strlit("IntervalTier");
    reveal_strlit("ooTextFile");
    reveal_strlit("TextGrid");
}

proof fn lemma_literals()
    ensures
        "]\n"@ == "]"@ + seq!['\n'],
        "\n"@ == seq!['\n'],
        "                text = \""@ == "                text = "@ + seq!['"'],
        "        name = \""@ == "        name = "@ + seq!['"'],
        "\"\n"@ == seq!['"'] + seq!['\n'],
        "        class = \"IntervalTier\"\n"@ == "        class = "@ + quoted("IntervalTier"@) + seq!['\n'],
        "File type = \"ooTextFile\"\n"@ == "File type = "@ + quoted("ooTextFile"@) + seq!['\n'],
        "Object class = \"TextGrid\"\n"@ == "Object class = "@ + quoted("TextGrid"@) + seq!['\n'],
        "tiers? <absent>\n"@ == "tiers? <absent>"@ + seq!['\n'],
        "tiers? <exists>\n"@ == "tiers? <exists>"@ + seq!['\n'],
        "item []:\n"@ == "item []:"@ + seq!['\n'],
{
    reveal_strlit("]\n");
    reveal_strlit("]");
    reveal_strlit("\n");
    reveal_strlit("                text = \"");
    reveal_strlit("                text = ");
    reveal_strlit("        name = \"");
    reveal_strlit("        name = ");
    reveal_strlit("\"\n");
    reveal_strlit("        class = \"IntervalTier\"\n");
    reveal_strlit("        class = ");
    reveal_strlit("IntervalTier");
    reveal_strlit("File type = \"ooTextFile\"\n");
    reveal_strlit("File type = ");
    reveal_strlit("ooTextFile");
    reveal_strlit("Object class = \"TextGrid\"\n");
    reveal_strlit("Object class = ");
    reveal_strlit("TextGrid");
    reveal_strlit("tiers? <absent>\n");
    reveal_strlit("tiers? <absent>");
    reveal_strlit("tiers? <exists>\n");
    reveal_strlit("tiers? <exists>");
    reveal_strlit("item []:\n");
    reveal_strlit("item []:");
    assert("]\n"@ =~= "]"@ + seq!['\n']);
    assert("\n"@ =~= seq!['\n']);
    assert("                text = \""@ =~= "                text = "@ + seq!['"']);
    assert("        name = \""@ =~= "        name = "@ + seq!['"']);
    assert("\"\n"@ =~= seq!['"'] + seq!['\n']);
    assert("        class = \"IntervalTier\"\n"@ =~= "        class = "@ + quoted("IntervalTier"@) + seq!['\n']);
    assert("File type = \"ooTextFile\"\n"@ =~= "File type = "@ + quoted("ooTextFile"@) + seq!['\n']);
    assert("Object class = \"TextGrid\"\n"@ =~= "Object class = "@ + quoted("TextGrid"@) + seq!['\n']);
    assert("tiers? <absent>\n"@ =~= "tiers? <absent>"@ + seq!['\n']);
    assert("tiers? <exists>\n"@ =~= "tiers? <exists>"@ + seq!['\n']);
    assert("item []:\n"@ =~= "item []:"@ + seq!['\n']);
}

proof fn lemma_interval_lines(k: nat, iv: IntervalV)
    requires
        interval_ok(iv),
    ensures
        all_no_break(interval_lines(k, iv)),
        render_interval(k, iv) == join(interval_lines(k, iv)),
        interval_lines(k, iv).len() == 4,
{
    lemma_prefixes();
    lemma_dec(k);
    lemma_count_line("        xmin = "@, 0);
    let ls = interval_lines(k, iv);
    assert(no_break(dec(k))) by {
        assert forall|i: int| 0 <= i < dec(k).len() implies dec(k)[i] != '\n' by {
            assert(is_digit(dec(k)[i]));
        }
    }
    lemma_concat_no_break("            intervals ["@, dec(k));
    lemma_concat_no_break("            intervals ["@ + dec(k), "]"@);
    lemma_num_line("                xmin = "@, iv.min_time);
    lemma_num_line("                xmax = "@, iv.max_time);
    lemma_text_line("                text = "@, iv.text);
    lemma_concat_no_break("                xmin = "@, iv.min_time);
    lemma_concat_no_break("                xmax = "@, iv.max_time);
    lemma_concat_no_break("                text = "@, quoted(iv.text));
    assert(all_no_break(ls)) by {
        assert forall|j: int| 0 <= j < ls.len() implies no_break(#[trigger] ls[j]) by {
            if j == 0 {} else if j == 1 {} else if j == 2 {} else {}
        }
    }
    lemma_literals();
    let nl = seq!['\n'];
    let l3 = ls.drop_first().drop_first().drop_first();
    assert(l3.drop_first() =~= Seq::<Seq<char>>::empty());
    assert(join(Seq::<Seq<char>>::empty()) == Seq::<char>::empty());
    assert(l3[0] == ls[3]);
    assert(ls.drop_first().drop_first()[0] == ls[2]);
    assert(ls.drop_first()[0] == ls[1]);
    assert(join(l3) == ls[3] + nl + Seq::<char>::empty());
    assert(join(ls.drop_first().drop_first()) == ls[2] + nl + join(l3));
    assert(join(ls.drop_first()) == ls[1] + nl + join(ls.drop_first().drop_first()));
    assert(join(ls) == ls[0] + nl + join(ls.drop_first()));
    assert(join(ls) =~= render_interval(k, iv));
}

/// One interval block is read back where it was written.
proof fn lemma_parse_interval(ls: Seq<Seq<char>>, a: int, k: nat, iv: IntervalV)
    requires
        all_no_break(ls),
        0 <= a,
        a + 4 <= ls.len(),
        ls.subrange(a, a + 4) == interval_lines(k, iv),
        interval_ok(iv),
    ensures
        parse_interval(join(ls), off(ls, a)) == Ok::<(IntervalV, int), FormatError>((iv, off(ls, a + 4))),
{
    let t = join(ls);
    assert(t + Seq::<char>::empty() =~= t);
    lemma_prefixes();
    lemma_line(ls, Seq::empty(), a);
    lemma_line(ls, Seq::empty(), a + 1);
    lemma_line(ls, Seq::empty(), a + 2);
    lemma_line(ls, Seq::empty(), a + 3);
    assert(ls[a + 1] == interval_lines(k, iv)[1]);
    assert(ls[a + 2] == interval_lines(k, iv)[2]);
    assert(ls[a + 3] == interval_lines(k, iv)[3]);
    lemma_num_line("                xmin = "@, iv.min_time);
    lemma_num_line("                xmax = "@, iv.max_time);
    lemma_text_line("                text = "@, iv.text);
}

proof fn lemma_ivs_lines(ivs: Seq<IntervalV>, k: nat)
    requires
        forall|j: int| 0 <= j < ivs.len() ==> interval_ok(#[trigger] ivs[j]),
    ensures
        ivs_lines(ivs, k).len() == 4 * ivs.len(),
        all_no_break(ivs_lines(ivs, k)),
    decreases ivs.len(),
{
    if ivs.len() > 0 {
        assert(interval_ok(ivs[0]));
        let r = ivs.drop_first();
        assert forall|j: int| 0 <= j < r.len() implies interval_ok(#[trigger] r[j]) by {
            assert(r[j] == ivs[j + 1]);
        }
        lemma_ivs_lines(r, k + 1);
        lemma_interval_lines(k, ivs[0]);
        lemma_all_no_break_append(interval_lines(k, ivs[0]), ivs_lines(r, k + 1));
    }
}

proof fn lemma_ivs_lines_push(s: Seq<IntervalV>, x: IntervalV, k: nat)
    ensures
        ivs_lines(s.push(x), k) == ivs_lines(s, k) + interval_lines(k + s.len(), x),
    decreases s.len(),
{
    if s.len() == 0 {
        assert(s.push(x).drop_first() =~= Seq::<IntervalV>::empty());
        assert(s.push(x)[0] == x);
        assert(ivs_lines(s.push(x).drop_first(), k + 1) == Seq::<Seq<char>>::empty());
        assert(ivs_lines(s, k) == Seq::<Seq<char>>::empty());
        assert(ivs_lines(s.push(x), k) =~= ivs_lines(s, k) + interval_lines(k + s.len(), x));
    } else {
        assert(s.push(x).drop_first() =~= s.drop_first().push(x));
        assert(s.push(x)[0] == s[0]);
        lemma_ivs_lines_push(s.drop_first(), x, k + 1);
        assert(ivs_lines(s.push(x), k) =~= ivs_lines(s, k) + interval_lines(k + s.len(), x));
    }
}

proof fn lemma_render_intervals(ivs: Seq<IntervalV>)
    requires
        forall|j: int| 0 <= j < ivs.len() ==> interval_ok(#[trigger] ivs[j]),
    ensures
        render_intervals(ivs) == join(ivs_lines(ivs, 1)),
    decreases ivs.len(),
{
    if ivs.len() == 0 {
        assert(join(Seq::<Seq<char>>::empty()) == Seq::<char>::empty());
    } else {
        let d = ivs.drop_last();
        assert forall|j: int| 0 <= j < d.len() implies interval_ok(#[trigger] d[j]) by {
            assert(d[j] == ivs[j]);
        }
        lemma_render_intervals(d);
        assert(interval_ok(ivs[ivs.len() - 1]));
        lemma_interval_lines(ivs.len(), ivs.last());
        lemma_ivs_lines_push(d, ivs.last(), 1);
        assert(d.push(ivs.last()) =~= ivs);
        lemma_join_append(ivs_lines(d, 1), interval_lines(1 + d.len(), ivs.last()));
    }
}

/// A run of interval blocks is read back where it was written.
proof fn lemma_parse_intervals(
    ls: Seq<Seq<char>>,
    a: int,
    ivs: Seq<IntervalV>,
    k: nat,
    acc: Seq<IntervalV>,
)
    requires
        all_no_break(ls),
        0 <= a,
        a + 4 * ivs.len() <= ls.len(),
        ls.subrange(a, a + 4 * ivs.len()) == ivs_lines(ivs, k),
        forall|j: int| 0 <= j < ivs.len() ==> interval_ok(#[trigger] ivs[j]),
    ensures
        parse_intervals(join(ls), off(ls, a), ivs.len(), acc) == Ok::<
            (Seq<IntervalV>, int),
            FormatError,
        >((acc + ivs, off(ls, a + 4 * ivs.len()))),
    decreases ivs.len(),
{
    if ivs.len() == 0 {
        assert(acc + ivs =~= acc);
    } else {
        let r = ivs.drop_first();
        assert forall|j: int| 0 <= j < r.len() implies interval_ok(#[trigger] r[j]) by {
            assert(r[j] == ivs[j + 1]);
        }
        assert(interval_ok(ivs[0]));
        lemma_ivs_lines(r, k + 1);
        lemma_interval_lines(k, ivs[0]);
        let whole = ls.subrange(a, a + 4 * ivs.len());
        assert(whole == interval_lines(k, ivs[0]) + ivs_lines(r, k + 1));
        assert(ls.subrange(a, a + 4) =~= whole.subrange(0, 4));
        assert(whole.subrange(0, 4) =~= interval_lines(k, ivs[0]));
        assert(ls.subrange(a + 4, a + 4 + 4 * r.len()) =~= whole.subrange(4, (4 * ivs.len()) as int));
        assert(whole.subrange(4, (4 * ivs.len()) as int) =~= ivs_lines(r, k + 1));
        lemma_parse_interval(ls, a, k, ivs[0]);
        lemma_parse_intervals(ls, a + 4, r, k + 1, acc.push(ivs[0]));
        assert(acc.push(ivs[0]) + r =~= acc + ivs);
    }
}

proof fn lemma_join_cons(l: Seq<char>, rest: Seq<Seq<char>>)
    ensures
        join(seq![l] + rest) == l + seq!['\n'] + join(rest),
{
    let x = seq![l] + rest;
    assert(x[0] == l);
    assert(x.drop_first() =~= rest);
}

proof fn lemma_no_break_dec(n: nat)
    ensures
        no_break(dec(n)),
{
    lemma_dec(n);
    assert forall|i: int| 0 <= i < dec(n).len() implies dec(n)[i] != '\n' by {
        assert(is_digit(dec(n)[i]));
    }
}

#[verifier::rlimit(80)]
proof fn lemma_tier_lines(k: nat, t: TierV)
    requires
        tier_ok(t),
    ensures
        all_no_break(tier_lines(k, t)),
        render_tier(k, t) == join(tier_lines(k, t)),
        tier_lines(k, t).len() == 6 + 4 * t.intervals.len(),
{
    lemma_prefixes();
    lemma_literals();
    lemma_no_break_dec(k);
    lemma_no_break_dec(t.intervals.len());
    lemma_ivs_lines(t.intervals, 1);
    lemma_render_intervals(t.intervals);
    let h = tier_head(k, t);
    lemma_concat_no_break("    item ["@, dec(k));
    lemma_concat_no_break("    item ["@ + dec(k), "]"@);
    lemma_text_line("        class = "@, "IntervalTier"@);
    lemma_text_line("        name = "@, t.name);
    lemma_num_line("        xmin = "@, t.min_time);
    lemma_num_line("        xmax = "@, t.max_time);
    lemma_concat_no_break("        class = "@, quoted("IntervalTier"@));
    lemma_concat_no_break("        name = "@, quoted(t.name));
    lemma_concat_no_break("        xmin = "@, t.min_time);
    lemma_concat_no_break("        xmax = "@, t.max_time);
    lemma_concat_no_break("        intervals: size = "@, dec(t.intervals.len()));
    assert(all_no_break(h)) by {
        assert forall|j: int| 0 <= j < h.len() implies no_break(#[trigger] h[j]) by {
            if j == 0 {} else if j == 1 {} else if j == 2 {} else if j == 3 {} else if j == 4 {} else {}
        }
    }
    lemma_all_no_break_append(h, ivs_lines(t.intervals, 1));
    lemma_join_append(h, ivs_lines(t.intervals, 1));
    let e = Seq::<Seq<char>>::empty();
    assert(h =~= seq![h[0]] + (seq![h[1]] + (seq![h[2]] + (seq![h[3]] + (seq![h[4]] + (seq![h[5]] + e))))));
    lemma_join_cons(h[5], e);
    lemma_join_cons(h[4], seq![h[5]] + e);
    lemma_join_cons(h[3], seq![h[4]] + (seq![h[5]] + e));
    lemma_join_cons(h[2], seq![h[3]] + (seq![h[4]] + (seq![h[5]] + e)));
    lemma_join_cons(h[1], seq![h[2]] + (seq![h[3]] + (seq![h[4]] + (seq![h[5]] + e))));
    lemma_join_cons(h[0], seq![h[1]] + (seq![h[2]] + (seq![h[3]] + (seq![h[4]] + (seq![h[5]] + e)))));
    assert(join(e) == Seq::<char>::empty());
    assert(render_tier(k, t) =~= join(h) + join(ivs_lines(t.intervals, 1)));
}

/// One tier block is read back where it was written.
proof fn lemma_parse_tier(ls: Seq<Seq<char>>, a: int, k: nat, t: TierV)
    requires
        all_no_break(ls),
        0 <= a,
        a + 6 + 4 * t.intervals.len() <= ls.len(),
        ls.subrange(a, a + 6 + 4 * t.intervals.len()) == tier_lines(k, t),
        tier_ok(t),
    ensures
        parse_tier(join(ls), off(ls, a)) == Ok::<(TierV, int), FormatError>(
            (t, off(ls, a + 6 + 4 * t.intervals.len())),
        ),
{
    let tx = join(ls);
    let m = t.intervals.len();
    let whole = ls.subrange(a, a + 6 + 4 * m);
    assert(tx + Seq::<char>::empty() =~= tx);
    lemma_prefixes();
    lemma_tier_lines(k, t);
    lemma_ivs_lines(t.intervals, 1);
    lemma_line(ls, Seq::empty(), a);
    lemma_line(ls, Seq::empty(), a + 1);
    lemma_line(ls, Seq::empty(), a + 2);
    lemma_line(ls, Seq::empty(), a + 3);
    lemma_line(ls, Seq::empty(), a + 4);
    lemma_line(ls, Seq::empty(), a + 5);
    assert(ls[a + 1] == whole[1] && whole[1] == tier_head(k, t)[1]);
    assert(ls[a + 2] == whole[2] && whole[2] == tier_head(k, t)[2]);
    assert(ls[a + 3] == whole[3] && whole[3] == tier_head(k, t)[3]);
    assert(ls[a + 4] == whole[4] && whole[4] == tier_head(k, t)[4]);
    assert(ls[a + 5] == whole[5] && whole[5] == tier_head(k, t)[5]);
    lemma_text_line("        class = "@, "IntervalTier"@);
    lemma_text_line("        name = "@, t.name);
    lemma_num_line("        xmin = "@, t.min_time);
    lemma_num_line("        xmax = "@, t.max_time);
    lemma_count_at(tx, off(ls, a + 5), "        intervals: size = "@, m);
    assert(ls.subrange(a + 6, a + 6 + 4 * m) =~= whole.subrange(6, (6 + 4 * m) as int));
    assert(whole.subrange(6, (6 + 4 * m) as int) =~= ivs_lines(t.intervals, 1));
    lemma_parse_intervals(ls, a + 6, t.intervals, 1, Seq::empty());
    assert(Seq::<IntervalV>::empty() + t.intervals =~= t.intervals);
}

proof fn lemma_tiers_lines(ts: Seq<TierV>, k: nat)
    requires
        forall|j: int| 0 <= j < ts.len() ==> tier_ok(#[trigger] ts[j]),
    ensures
        all_no_break(tiers_lines(ts, k)),
    decreases ts.len(),
{
    if ts.len() > 0 {
        assert(tier_ok(ts[0]));
        let r = ts.drop_first();
        assert forall|j: int| 0 <= j < r.len() implies tier_ok(#[trigger] r[j]) by {
            assert(r[j] == ts[j + 1]);
        }
        lemma_tiers_lines(r, k + 1);
        lemma_tier_lines(k, ts[0]);
        lemma_all_no_break_append(tier_lines(k, ts[0]), tiers_lines(r, k + 1));
    }
}

proof fn lemma_tiers_lines_push(s: Seq<TierV>, x: TierV, k: nat)
    ensures
        tiers_lines(s.push(x), k) == tiers_lines(s, k) + tier_lines(k + s.len(), x),
    decreases s.len(),
{
    if s.len() == 0 {
        assert(s.push(x).drop_first() =~= Seq::<TierV>::empty());
        assert(s.push(x)[0] == x);
        assert(tiers_lines(s.push(x).drop_first(), k + 1) == Seq::<Seq<char>>::empty());
        assert(tiers_lines(s, k) == Seq::<Seq<char>>::empty());
        assert(tiers_lines(s.push(x), k) =~= tiers_lines(s, k) + tier_lines(k + s.len(), x));
    } else {
        assert(s.push(x).drop_first() =~= s.drop_first().push(x));
        assert(s.push(x)[0] == s[0]);
        lemma_tiers_lines_push(s.drop_first(), x, k + 1);
        assert(tiers_lines(s.push(x), k) =~= tiers_lines(s, k) + tier_lines(k + s.len(), x));
    }
}

proof fn lemma_render_tiers(ts: Seq<TierV>)
    requires
        forall|j: int| 0 <= j < ts.len() ==> tier_ok(#[trigger] ts[j]),
    ensures
        render_tiers(ts) == join(tiers_lines(ts, 1)),
    decreases ts.len(),
{
    if ts.len() == 0 {
        assert(join(Seq::<Seq<char>>::empty()) == Seq::<char>::empty());
    } else {
        let d = ts.drop_last();
        assert forall|j: int| 0 <= j < d.len() implies tier_ok(#[trigger] d[j]) by {
            assert(d[j] == ts[j]);
        }
        lemma_render_tiers(d);
        assert(tier_ok(ts[ts.len() - 1]));
        lemma_tier_lines(ts.len(), ts.last());
        lemma_tiers_lines_push(d, ts.last(), 1);
        assert(d.push(ts.last()) =~= ts);
        lemma_join_append(tiers_lines(d, 1), tier_lines(1 + d.len(), ts.last()));
    }
}

/// A run of tier blocks is read back where it was written.
proof fn lemma_parse_tiers(ls: Seq<Seq<char>>, a: int, ts: Seq<TierV>, k: nat, acc: Seq<TierV>)
    requires
        all_no_break(ls),
        0 <= a,
        a + tiers_lines(ts, k).len() <= ls.len(),
        ls.subrange(a, a + tiers_lines(ts, k).len()) == tiers_lines(ts, k),
        forall|j: int| 0 <= j < ts.len() ==> tier_ok(#[trigger] ts[j]),
    ensures
        parse_tiers(join(ls), off(ls, a), ts.len(), acc) == Ok::<Seq<TierV>, FormatError>(acc + ts),
    decreases ts.len(),
{
    if ts.len() == 0 {
        assert(acc + ts =~= acc);
    } else {
        let r = ts.drop_first();
        assert forall|j: int| 0 <= j < r.len() implies tier_ok(#[trigger] r[j]) by {
            assert(r[j] == ts[j + 1]);
        }
        assert(tier_ok(ts[0]));
        lemma_tier_lines(k, ts[0]);
        let n0 = (6 + 4 * ts[0].intervals.len()) as int;
        let whole = ls.subrange(a, a + tiers_lines(ts, k).len());
        assert(whole == tier_lines(k, ts[0]) + tiers_lines(r, k + 1));
        assert(ls.subrange(a, a + n0) =~= whole.subrange(0, n0));
        assert(whole.subrange(0, n0) =~= tier_lines(k, ts[0]));
        assert(ls.subrange(a + n0, a + n0 + tiers_lines(r, k + 1).len()) =~= whole.subrange(
            n0,
            whole.len() as int,
        ));
        assert(whole.subrange(n0, whole.len() as int) =~= tiers_lines(r, k + 1));
        lemma_parse_tier(ls, a, k, ts[0]);
        lemma_parse_tiers(ls, a + n0, r, k + 1, acc.push(ts[0]));
        assert(acc.push(ts[0]) + r =~= acc + ts);
    }
}

proof fn lemma_head_no_break(g: TextGridV)
    requires
        writable(g),
    ensures
        all_no_break(doc_head(g)),
{
    lemma_prefixes();
    let h = doc_head(g);
    lemma_text_line("File type = "@, "ooTextFile"@);
    lemma_text_line("Object class = "@, "TextGrid"@);
    lemma_num_line("xmin = "@, g.min_time);
    lemma_num_line("xmax = "@, g.max_time);
    lemma_concat_no_break("File type = "@, quoted("ooTextFile"@));
    lemma_concat_no_break("Object class = "@, quoted("TextGrid"@));
    lemma_concat_no_break("xmin = "@, g.min_time);
    lemma_concat_no_break("xmax = "@, g.max_time);
    assert(no_break(Seq::<char>::empty()));
    assert forall|j: int| 0 <= j < h.len() implies no_break(#[trigger] h[j]) by {
        if j == 0 {} else if j == 1 {} else if j == 2 {} else if j == 3 {} else {}
    }
}

#[verifier::rlimit(80)]
proof fn lemma_render_doc(g: TextGridV)
    requires
        writable(g),
    ensures
        render(g) == join(doc_lines(g)),
        all_no_break(doc_lines(g)),
{
    lemma_prefixes();
    lemma_literals();
    lemma_head_no_break(g);
    let h = doc_head(g);
    let e = Seq::<Seq<char>>::empty();
    let nl = seq!['\n'];
    assert(join(e) == Seq::<char>::empty());
    assert(h =~= seq![h[0]] + (seq![h[1]] + (seq![h[2]] + (seq![h[3]] + (seq![h[4]] + e)))));
    lemma_join_cons(h[4], e);
    lemma_join_cons(h[3], seq![h[4]] + e);
    lemma_join_cons(h[2], seq![h[3]] + (seq![h[4]] + e));
    lemma_join_cons(h[1], seq![h[2]] + (seq![h[3]] + (seq![h[4]] + e)));
    lemma_join_cons(h[0], seq![h[1]] + (seq![h[2]] + (seq![h[3]] + (seq![h[4]] + e))));
    let jh = h[0] + nl + (h[1] + nl + (h[2] + nl + (h[3] + nl + (h[4] + nl + Seq::<char>::empty()))));
    assert(join(h) == jh);
    if g.items.len() == 0 {
        let m = seq!["tiers? <absent>"@];
        lemma_join_cons("tiers? <absent>"@, e);
        assert(m =~= seq!["tiers? <absent>"@] + e);
        lemma_join_append(h, m);
        lemma_all_no_break_append(h, m);
        assert(render(g) =~= join(h) + join(m));
    } else {
        let n = g.items.len();
        let m = seq!["tiers? <exists>"@, "size = "@ + dec(n), "item []:"@];
        lemma_no_break_dec(n);
        lemma_concat_no_break("size = "@, dec(n));
        assert(all_no_break(m)) by {
            assert forall|j: int| 0 <= j < m.len() implies no_break(#[trigger] m[j]) by {
                if j == 0 {} else if j == 1 {} else {}
            }
        }
        assert(m =~= seq![m[0]] + (seq![m[1]] + (seq![m[2]] + e)));
        lemma_join_cons(m[2], e);
        lemma_join_cons(m[1], seq![m[2]] + e);
        lemma_join_cons(m[0], seq![m[1]] + (seq![m[2]] + e));
        let tl = tiers_lines(g.items, 1);
        lemma_tiers_lines(g.items, 1);
        lemma_render_tiers(g.items);
        lemma_join_append(h, m);
        lemma_join_append(h + m, tl);
        lemma_all_no_break_append(h, m);
        lemma_all_no_break_append(h + m, tl);
        assert(render(g) =~= join(h) + join(m) + join(tl));
    }
}

/// Where the header lines of a written document stand, and what they read.
proof fn lemma_doc_head(g: TextGridV)
    requires
        writable(g),
    ensures
        all_no_break(doc_lines(g)),
        render(g) == join(doc_lines(g)),
        ({
            let ls = doc_lines(g);
            let t = join(ls);
            &&& 0 < t.len()
            &&& after(t, 0) == off(ls, 1)
            &&& off(ls, 1) < t.len()
            &&& after(t, off(ls, 1)) == off(ls, 2)
            &&& after(t, off(ls, 2)) == off(ls, 3)
            &&& after(t, off(ls, 3)) == off(ls, 4)
            &&& after(t, off(ls, 4)) == off(ls, 5)
            &&& after(t, off(ls, 5)) == off(ls, 6)
            &&& off(ls, 5) < t.len()
            &&& line_at(t, off(ls, 5)) == ls[5]
            &&& num_at(t, off(ls, 3)) == Ok::<Seq<char>, FormatError>(g.min_time)
            &&& num_at(t, off(ls, 4)) == Ok::<Seq<char>, FormatError>(g.max_time)
        }),
{
    lemma_render_doc(g);
    lemma_prefixes();
    let ls = doc_lines(g);
    let t = join(ls);
    assert(t + Seq::<char>::empty() =~= t);
    assert(ls.take(0) =~= Seq::<Seq<char>>::empty());
    assert(join(Seq::<Seq<char>>::empty()) == Seq::<char>::empty());
    assert(off(ls, 0) == 0);
    lemma_line(ls, Seq::empty(), 0);
    lemma_line(ls, Seq::empty(), 1);
    lemma_line(ls, Seq::empty(), 2);
    lemma_line(ls, Seq::empty(), 3);
    lemma_line(ls, Seq::empty(), 4);
    lemma_line(ls, Seq::empty(), 5);
    assert(ls[3] == "xmin = "@ + g.min_time);
    assert(ls[4] == "xmax = "@ + g.max_time);
    lemma_num_line("xmin = "@, g.min_time);
    lemma_num_line("xmax = "@, g.max_time);
}

/// Reading what was written gives the document back: for a document whose
/// numbers are digits and dots and whose names and texts hold no quote or
/// line break, `TextGrid::read` of the text that `TextGrid::to_string`
/// writes yields the same document, so writing it again yields the same
/// text.
pub proof fn lemma_round_trip(g: TextGridV)
    requires
        writable(g),
    ensures
        parse_doc(render(g)) == Ok::<TextGridV, FormatError>(g),
        render(parse_doc(render(g))->Ok_0) == render(g),
{
    lemma_doc_head(g);
    let ls = doc_lines(g);
    let t = join(ls);
    reveal_strlit("tiers? <absent>");
    reveal_strlit("tiers? <exists>");
    if g.items.len() == 0 {
        assert(ls[5] == "tiers? <absent>"@);
        assert(trim_end("tiers? <absent>"@) == "tiers? <absent>"@);
        assert(g.items =~= Seq::<TierV>::empty());
    } else {
        lemma_round_trip_tiers(g);
    }
}

proof fn lemma_round_trip_tiers(g: TextGridV)
    requires
        writable(g),
        g.items.len() > 0,
        all_no_break(doc_lines(g)),
    ensures
        ({
            let ls = doc_lines(g);
            let t = join(ls);
            &&& trim_end(ls[5]) != absent_line()
            &&& count_at(t, off(ls, 6)) == Ok::<nat, FormatError>(g.items.len())
            &&& after(t, after(t, off(ls, 6))) == off(ls, 8)
            &&& parse_tiers(t, off(ls, 8), g.items.len(), Seq::empty()) == Ok::<Seq<TierV>, FormatError>(
                g.items,
            )
        }),
{
    lemma_prefixes();
    reveal_strlit("tiers? <absent>");
    reveal_strlit("tiers? <exists>");
    let ls = doc_lines(g);
    let t = join(ls);
    let n = g.items.len();
    assert(t + Seq::<char>::empty() =~= t);
    assert(ls[5] == "tiers? <exists>"@);
    assert(trim_end("tiers? <exists>"@) == "tiers? <exists>"@);
    assert("tiers? <exists>"@[8] != absent_line()[8]);
    lemma_line(ls, Seq::empty(), 6);
    lemma_line(ls, Seq::empty(), 7);
    assert(ls[6] == "size = "@ + dec(n));
    lemma_count_at(t, off(ls, 6), "size = "@, n);
    let tl = tiers_lines(g.items, 1);
    assert(ls.subrange(8, (8 + tl.len()) as int) =~= tl);
    lemma_parse_tiers(ls, 8, g.items, 1, Seq::empty());
    assert(Seq::<TierV>::empty() + g.items =~= g.items);
}

} // verus!
