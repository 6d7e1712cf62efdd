//! Line-by-line whitespace normalisation.
use vstd::prelude::*;
use crate::text::{
    all_no_newline, ends_with_newline, join_lines, lemma_join_end, lemma_join_newlines, lemma_split_join,
    lemma_split_last, lemma_split_len, lemma_split_no_newline, newline_count, no_newline,
    push_char, split_lines, terminated,
};

verus! {

/// `n` copies of `c`.
pub open spec fn repeat(c: char, n: nat) -> Seq<char> {
    Seq::new(n, |_i: int| c)
}

/// The number of copies of `c` at the start of `x`.
pub open spec fn run_len(x: Seq<char>, c: char) -> nat
    decreases x.len(),
{
    if x.len() > 0 && x[0] == c {
        1 + run_len(x.skip(1), c)
    } else {
        0
    }
}

/// The tabs that open a line.
pub open spec fn lead_tabs(l: Seq<char>) -> nat {
    run_len(l, '\t')
}

/// The spaces that follow the opening tabs of a line.
pub open spec fn lead_spaces(l: Seq<char>) -> nat {
    run_len(l.skip(lead_tabs(l) as int), ' ')
}

/// What follows the leading tabs and spaces of a line.
pub open spec fn body(l: Seq<char>) -> Seq<char> {
    l.skip((lead_tabs(l) + lead_spaces(l)) as int)
}

/// The number of spaces at the end of `x`.
pub open spec fn trailing_spaces(x: Seq<char>) -> nat
    decreases x.len(),
{
    if x.len() > 0 && x.last() == ' ' {
        1 + trailing_spaces(x.drop_last())
    } else {
        0
    }
}

/// `x` without its trailing spaces.
pub open spec fn rtrim(x: Seq<char>) -> Seq<char> {
    x.take(x.len() - trailing_spaces(x))
}

/// Whether `c` is a space or a tab.
pub open spec fn is_blank_char(c: char) -> bool {
    c == ' ' || c == '\t'
}

/// Whether a line holds nothing but spaces and tabs.
pub open spec fn is_blank(l: Seq<char>) -> bool {
    forall|i: int| 0 <= i < l.len() ==> is_blank_char(#[trigger] l[i])
}

/// One line normalised: empty if it holds only tabs and spaces; otherwise its
/// leading tabs, one more tab for each full `w` leading spaces, the remaining
/// leading spaces, then the rest of the line without its trailing spaces.
pub open spec fn norm_line(l: Seq<char>, w: nat) -> Seq<char> {
    if is_blank(l) {
        Seq::empty()
    } else {
        repeat('\t', lead_tabs(l) + lead_spaces(l) / w) + repeat(' ', lead_spaces(l) % w) + rtrim(
            body(l),
        )
    }
}

/// Every line of `ls` normalised.
pub open spec fn norm_lines(ls: Seq<Seq<char>>, w: nat) -> Seq<Seq<char>> {
    ls.map_values(|l: Seq<char>| norm_line(l, w))
}

/// A text normalised line by line; the lines keep their order and the
/// newlines between them, so a final newline stays.
pub open spec fn normalize(t: Seq<char>, w: nat) -> Seq<char> {
    join_lines(norm_lines(split_lines(t), w))
}

proof fn lemma_run_len(x: Seq<char>, c: char, i: int)
    requires
        0 <= i <= x.len(),
        forall|k: int| 0 <= k < i ==> x[k] == c,
        i == x.len() || x[i] != c,
    ensures
        run_len(x, c) == i,
    decreases i,
{
    if i > 0 {
        lemma_run_len(x.skip(1), c, i - 1);
    }
}

proof fn lemma_trailing_spaces(x: Seq<char>)
    ensures
        trailing_spaces(x) <= x.len(),
        forall|m: int| x.len() - trailing_spaces(x) <= m < x.len() ==> x[m] == ' ',
        trailing_spaces(x) < x.len() ==> x[x.len() - trailing_spaces(x) - 1] != ' ',
    decreases x.len(),
{
    if x.len() > 0 && x.last() == ' ' {
        lemma_trailing_spaces(x.drop_last());
        assert forall|m: int| x.len() - trailing_spaces(x) <= m < x.len() implies x[m] == ' ' by {
            if m < x.len() - 1 {
                assert(x[m] == x.drop_last()[m]);
            }
        }
    }
}

/// Appends `n` copies of `c`.
fn push_repeat(out: &mut String, c: char, n: usize)
    ensures
        final(out)@ == old(out)@ + repeat(c, n as nat),
{
    let ghost base = out@;
    let mut k: usize = 0;
    while k < n
        invariant
            k <= n,
            out@ == base + repeat(c, k as nat),
        decreases n - k,
    {
        push_char(out, c);
        k = k + 1;
        assert(out@ =~= base + repeat(c, k as nat));
    }
}

/// Appends one normalised line: a blank line adds nothing; otherwise the
/// leading tabs and spaces are counted, then the rest is copied with each run
/// of spaces held back until a character other than a space follows it.
fn push_normalized_line(out: &mut String, line: &Vec<char>, tab_width: u8)
    requires
        tab_width >= 1,
    ensures
        final(out)@ == old(out)@ + norm_line(line@, tab_width as nat),
{
    let ghost l = line@;
    let n = line.len();
    let mut b: usize = 0;
    while b < n && (line[b] == ' ' || line[b] == '\t')
        invariant
            b <= n == l.len(),
            l == line@,
            forall|k: int| 0 <= k < b ==> is_blank_char(l[k]),
        decreases n - b,
    {
        b = b + 1;
    }
    if b == n {
        return;
    }
    let mut i: usize = 0;
    while i < n && line[i] == '\t'
        invariant
            i <= n == l.len(),
            l == line@,
            forall|k: int| 0 <= k < i ==> l[k] == '\t',
        decreases n - i,
    {
        i = i + 1;
    }
    proof {
        lemma_run_len(l, '\t', i as int);
    }
    let mut j: usize = i;
    while j < n && line[j] == ' '
        invariant
            i <= j <= n == l.len(),
            l == line@,
            forall|k: int| i <= k < j ==> l[k] == ' ',
        decreases n - j,
    {
        j = j + 1;
    }
    proof {
        lemma_run_len(l.skip(i as int), ' ', (j - i) as int);
        assert(body(l) =~= l.subrange(j as int, n as int));
    }
    let w = tab_width as usize;
    let spaces = j - i;
    push_repeat(out, '\t', i + spaces / w);
    push_repeat(out, ' ', spaces % w);
    let ghost base = out@;
    let mut k: usize = j;
    let mut pending: usize = 0;
    while k < n
        invariant
            j <= k <= n == l.len(),
            l == line@,
            pending == trailing_spaces(l.subrange(j as int, k as int)),
            pending <= k - j,
            out@ == base + l.subrange(j as int, k - pending),
        decreases n - k,
    {
        let c = line[k];
        proof {
            assert(l.subrange(j as int, k + 1).drop_last() =~= l.subrange(j as int, k as int));
        }
        if c == ' ' {
            pending = pending + 1;
        } else {
            proof {
                lemma_trailing_spaces(l.subrange(j as int, k as int));
            }
            push_repeat(out, ' ', pending);
            push_char(out, c);
            pending = 0;
            assert(out@ =~= base + l.subrange(j as int, k + 1));
        }
        k = k + 1;
    }
    proof {
        assert(rtrim(body(l)) =~= l.subrange(j as int, n - pending));
    }
}

proof fn lemma_split_step(t: Seq<char>, i: int)
    requires
        0 <= i < t.len(),
    ensures
        split_lines(t.take(i + 1)) == (if t[i] == '\n' {
            split_lines(t.take(i)).push(Seq::empty())
        } else {
            let p = split_lines(t.take(i));
            p.update(p.len() - 1, p.last().push(t[i]))
        }),
{
    assert(t.take(i + 1).drop_last() =~= t.take(i));
}

/// Normalises the whitespace of `text` line by line: see [`norm_line`]. The
/// lines stay in order with a newline between each two, and a text that ends
/// with a newline still does; an empty text stays empty.
pub fn format_run(text: String, tab_width: u8) -> (r: String)
    requires
        tab_width >= 1,
    ensures
        r@ == normalize(text@, tab_width as nat),
        text@.len() == 0 ==> r@.len() == 0,
{
    let ghost t = text@;
    let ghost w = tab_width as nat;
    let mut r = String::new();
    let mut cur: Vec<char> = Vec::new();
    proof {
        assert(t.take(0) =~= Seq::<char>::empty());
        broadcast use vstd::string::axiom_spec_iter;
    }
    for c in it: text.as_str().chars()
        invariant
            it.seq() == t,
            t == text@,
            w == tab_width as nat,
            tab_width >= 1,
            split_lines(t.take(it.index() as int)).len() >= 1,
            cur@ == split_lines(t.take(it.index() as int)).last(),
            r@ == terminated(norm_lines(split_lines(t.take(it.index() as int)).drop_last(), w)),
    {
        let ghost i = it.index();
        let ghost p = split_lines(t.take(i as int));
        proof {
            lemma_split_step(t, i as int);
        }
        if c == '\n' {
            push_normalized_line(&mut r, &cur, tab_width);
            push_char(&mut r, '\n');
            cur = Vec::new();
            proof {
                let q = norm_lines(p, w);
                assert(p.push(Seq::empty()).drop_last() =~= p);
                assert(q.drop_last() =~= norm_lines(p.drop_last(), w));
                assert(r@ =~= terminated(q));
            }
        } else {
            cur.push(c);
            proof {
                let p2 = p.update(p.len() - 1, p.last().push(c));
                assert(p2.drop_last() =~= p.drop_last());
                assert(cur@ =~= p2.last());
            }
        }
    }
    proof {
        assert(t.take(t.len() as int) =~= t);
        let q = norm_lines(split_lines(t), w);
        assert(q.drop_last() =~= norm_lines(split_lines(t).drop_last(), w));
    }
    push_normalized_line(&mut r, &cur, tab_width);
    r
}

proof fn lemma_run_len_prefix(x: Seq<char>, c: char)
    ensures
        run_len(x, c) <= x.len(),
        forall|k: int| 0 <= k < run_len(x, c) ==> x[k] == c,
        run_len(x, c) < x.len() ==> x[run_len(x, c) as int] != c,
    decreases x.len(),
{
    if x.len() > 0 && x[0] == c {
        lemma_run_len_prefix(x.skip(1), c);
        assert forall|k: int| 0 <= k < run_len(x, c) implies x[k] == c by {
            if k > 0 {
                assert(x[k] == x.skip(1)[k - 1]);
            }
        }
        if run_len(x, c) < x.len() {
            assert(x[run_len(x, c) as int] == x.skip(1)[run_len(x, c) - 1]);
        }
    }
}

/// The leading tabs and spaces of a line, and where its body starts.
proof fn lemma_lead(l: Seq<char>)
    ensures
        lead_tabs(l) + lead_spaces(l) <= l.len(),
        forall|k: int| 0 <= k < lead_tabs(l) ==> l[k] == '\t',
        forall|k: int| lead_tabs(l) <= k < lead_tabs(l) + lead_spaces(l) ==> l[k] == ' ',
        lead_tabs(l) + lead_spaces(l) < l.len() ==> l[(lead_tabs(l) + lead_spaces(l)) as int] != ' ',
        lead_spaces(l) == 0 && lead_tabs(l) < l.len() ==> l[lead_tabs(l) as int] != '\t',
        body(l) == l.subrange((lead_tabs(l) + lead_spaces(l)) as int, l.len() as int),
{
    let t = lead_tabs(l);
    lemma_run_len_prefix(l, '\t');
    lemma_run_len_prefix(l.skip(t as int), ' ');
    assert forall|k: int| t <= k < t + lead_spaces(l) implies l[k] == ' ' by {
        assert(l[k] == l.skip(t as int)[k - t]);
    }
    if t + lead_spaces(l) < l.len() {
        assert(l[(t + lead_spaces(l)) as int] == l.skip(t as int)[lead_spaces(l) as int]);
    }
    assert(body(l) =~= l.subrange((t + lead_spaces(l)) as int, l.len() as int));
}

/// A line that is not blank keeps a character other than a space at its end,
/// and all its characters come from the line or are tabs and spaces.
proof fn lemma_norm_line_shape(l: Seq<char>, w: nat)
    requires
        w >= 1,
        !is_blank(l),
    ensures
        rtrim(body(l)).len() > 0,
        lead_tabs(l) + lead_spaces(l) + rtrim(body(l)).len() <= l.len(),
        norm_line(l, w).len() > 0,
        norm_line(l, w).last() != ' ',
        norm_line(l, w) == repeat('\t', lead_tabs(l) + lead_spaces(l) / w) + repeat(
            ' ',
            lead_spaces(l) % w,
        ) + rtrim(body(l)),
        rtrim(body(l)) == l.subrange(
            (lead_tabs(l) + lead_spaces(l)) as int,
            (lead_tabs(l) + lead_spaces(l) + rtrim(body(l)).len()) as int,
        ),
{
    lemma_lead(l);
    let s = lead_tabs(l) + lead_spaces(l);
    let b = body(l);
    let m = choose|m: int| 0 <= m < l.len() && !is_blank_char(l[m]);
    assert(m >= s);
    assert(b[m - s] == l[m]);
    lemma_trailing_spaces(b);
    assert(rtrim(b).last() == b[b.len() - trailing_spaces(b) - 1]);
    assert(rtrim(b) =~= l.subrange(s as int, (s + rtrim(b).len()) as int));
}

/// Normalising a line adds no newline.
proof fn lemma_norm_line_no_newline(l: Seq<char>, w: nat)
    requires
        w >= 1,
        no_newline(l),
    ensures
        no_newline(norm_line(l, w)),
{
    if !is_blank(l) {
        lemma_norm_line_shape(l, w);
        let s = lead_tabs(l) + lead_spaces(l);
        let o = norm_line(l, w);
        let a = repeat('\t', lead_tabs(l) + lead_spaces(l) / w);
        let b = repeat(' ', lead_spaces(l) % w);
        let r = rtrim(body(l));
        assert(o == a + b + r);
        assert forall|i: int| 0 <= i < o.len() implies o[i] != '\n' by {
            if i < a.len() {
                assert(o[i] == a[i]);
            } else if i < a.len() + b.len() {
                assert(o[i] == b[i - a.len()]);
            } else {
                let k = i - a.len() - b.len();
                assert(o[i] == r[k]);
                assert(r[k] == l[s + k]);
            }
        }
    }
}

proof fn lemma_norm_lines(ls: Seq<Seq<char>>, w: nat)
    requires
        w >= 1,
        all_no_newline(ls),
    ensures
        all_no_newline(norm_lines(ls, w)),
        norm_lines(ls, w).len() == ls.len(),
{
    assert forall|i: int| 0 <= i < ls.len() implies no_newline(#[trigger] norm_lines(ls, w)[i]) by {
        assert(no_newline(ls[i]));
        lemma_norm_line_no_newline(ls[i], w);
    }
}

/// The lines of a normalised text are the normalised lines of the text.
pub proof fn lemma_lines_of_normalized(t: Seq<char>, w: nat)
    requires
        w >= 1,
    ensures
        split_lines(normalize(t, w)) == norm_lines(split_lines(t), w),
        split_lines(normalize(t, w)).len() == split_lines(t).len(),
{
    lemma_split_len(t);
    lemma_split_no_newline(t);
    lemma_norm_lines(split_lines(t), w);
    lemma_split_join(norm_lines(split_lines(t), w));
}

/// Normalising keeps the number of newlines, and so the number of lines.
pub proof fn law_line_count(t: Seq<char>, w: nat)
    requires
        w >= 1,
    ensures
        newline_count(normalize(t, w)) == newline_count(t),
        split_lines(normalize(t, w)).len() == split_lines(t).len(),
{
    lemma_split_len(t);
    lemma_split_no_newline(t);
    lemma_norm_lines(split_lines(t), w);
    lemma_join_newlines(norm_lines(split_lines(t), w));
    lemma_lines_of_normalized(t, w);
}

/// No line of a normalised text ends with a space.
pub proof fn law_no_trailing_space(t: Seq<char>, w: nat)
    requires
        w >= 1,
    ensures
        forall|i: int|
            0 <= i < split_lines(normalize(t, w)).len() && #[trigger] split_lines(
                normalize(t, w),
            )[i].len() > 0 ==> split_lines(normalize(t, w))[i].last() != ' ',
{
    lemma_lines_of_normalized(t, w);
    let ls = split_lines(t);
    assert forall|i: int|
        0 <= i < split_lines(normalize(t, w)).len() && #[trigger] split_lines(
            normalize(t, w),
        )[i].len() > 0 implies split_lines(normalize(t, w))[i].last() != ' ' by {
        assert(split_lines(normalize(t, w))[i] == norm_line(ls[i], w));
        lemma_norm_line_shape(ls[i], w);
    }
}

/// A line of nothing but spaces and tabs becomes an empty line, in its place.
pub proof fn law_blank_lines_emptied(t: Seq<char>, w: nat)
    requires
        w >= 1,
    ensures
        forall|i: int|
            0 <= i < split_lines(t).len() && is_blank(#[trigger] split_lines(t)[i])
                ==> split_lines(normalize(t, w))[i].len() == 0,
{
    lemma_lines_of_normalized(t, w);
}

/// A text that ends with a newline still does once normalised; and where the
/// line before that newline is not blank, the result ends with exactly one.
pub proof fn law_final_newline_kept(t: Seq<char>, w: nat)
    requires
        w >= 1,
    ensures
        ends_with_newline(t) ==> ends_with_newline(normalize(t, w)),
        ends_with_newline(t) && !is_blank(split_lines(t)[split_lines(t).len() - 2]) ==> {
            let o = normalize(t, w);
            o.len() >= 2 && o[o.len() - 2] != '\n'
        },
{
    lemma_split_len(t);
    lemma_split_last(t);
    lemma_split_no_newline(t);
    let ls = split_lines(t);
    let q = norm_lines(ls, w);
    lemma_norm_lines(ls, w);
    lemma_join_end(q);
    if ends_with_newline(t) {
        assert(newline_count(t) >= 1) by {
            assert(t.drop_last().push(t.last()) =~= t);
        }
        assert(q.last() == norm_line(ls.last(), w));
        assert(is_blank(ls.last()));
        let k = ls.len() - 2;
        if !is_blank(ls[k]) {
            lemma_norm_line_shape(ls[k], w);
            assert(q[k] == norm_line(ls[k], w));
            assert(no_newline(q[k]));
            assert(q[k].last() != '\n');
        }
    }
}

/// A text that does not end with a newline does not once normalised, unless
/// its last line is blank and follows a newline: that line becomes empty.
pub proof fn law_no_final_newline_added(t: Seq<char>, w: nat)
    requires
        w >= 1,
        !ends_with_newline(t),
    ensures
        ends_with_newline(normalize(t, w)) <==> newline_count(t) >= 1 && is_blank(
            split_lines(t).last(),
        ),
{
    lemma_split_len(t);
    lemma_split_last(t);
    lemma_split_no_newline(t);
    let ls = split_lines(t);
    let q = norm_lines(ls, w);
    lemma_norm_lines(ls, w);
    lemma_join_end(q);
    let k = ls.len() - 1;
    assert(q[k] == norm_line(ls[k], w));
    assert(no_newline(q[k]));
    if !is_blank(ls[k]) {
        lemma_norm_line_shape(ls[k], w);
    }
}

/// Whether normalising a second time leaves the normalised line as it is.
/// It does not where the leading spaces fill whole tabs and what follows them
/// opens with tabs and then `w` or more spaces: those spaces stood inside the
/// line the first time and lead it the second.
pub open spec fn settles(l: Seq<char>, w: nat) -> bool {
    is_blank(l) || lead_spaces(l) % w != 0 || lead_tabs(body(l)) == 0 || lead_spaces(body(l))
        < w
}

/// A line made of `a` tabs, `b` spaces and a rest that opens with neither
/// (nor with a tab where `b` is zero), ends with no space and is not blank.
proof fn lemma_norm_parts(a: nat, b: nat, y: Seq<char>, w: nat)
    requires
        w >= 1,
        y.len() > 0,
        y[0] != ' ',
        b == 0 ==> y[0] != '\t',
        y.last() != ' ',
        !is_blank(y),
    ensures
        norm_line(repeat('\t', a) + repeat(' ', b) + y, w) == repeat('\t', a + b / w) + repeat(
            ' ',
            b % w,
        ) + y,
{
    let x = repeat('\t', a) + repeat(' ', b) + y;
    assert(x[(a + b) as int] == y[0]);
    lemma_run_len(x, '\t', a as int);
    assert(x.skip(a as int)[b as int] == y[0]);
    lemma_run_len(x.skip(a as int), ' ', b as int);
    assert(body(x) =~= y);
    assert(trailing_spaces(y) == 0);
    assert(rtrim(y) =~= y);
    let j = choose|j: int| 0 <= j < y.len() && !is_blank_char(y[j]);
    assert(x[a + b + j] == y[j]);
}

/// Normalising a line that settles twice gives what normalising it once does.
proof fn lemma_norm_line_twice(l: Seq<char>, w: nat)
    requires
        w >= 1,
        settles(l, w),
    ensures
        norm_line(norm_line(l, w), w) == norm_line(l, w),
{
    if is_blank(l) {
        assert(is_blank(norm_line(l, w)));
    } else {
        lemma_norm_line_shape(l, w);
        lemma_lead(l);
        let s = lead_tabs(l) + lead_spaces(l);
        let tt = lead_tabs(l) + lead_spaces(l) / w;
        let r = lead_spaces(l) % w;
        let b = body(l);
        let rr = rtrim(b);
        lemma_trailing_spaces(b);
        assert(rr.last() == b[b.len() - trailing_spaces(b) - 1]);
        let j = choose|j: int| 0 <= j < l.len() && !is_blank_char(l[j]);
        assert(j >= s);
        assert(b[j - s] == l[j]);
        assert(j - s < rr.len());
        assert(rr[j - s] == b[j - s]);
        assert(rr[0] == l[s as int]);
        if r > 0 || lead_tabs(b) == 0 {
            if r == 0 {
                assert(b[0] != '\t');
            }
            lemma_norm_parts(tt, r, rr, w);
            assert(r / w == 0 && r % w == r) by (nonlinear_arith)
                requires
                    r < w,
            ;
        } else {
            lemma_lead(b);
            let k = lead_tabs(b);
            let m = lead_spaces(b);
            assert(j - s >= k + m) by {
                if j - s < k + m {
                    assert(is_blank_char(b[j - s]));
                }
            }
            let y = rr.skip((k + m) as int);
            assert(y[0] == b[(k + m) as int]);
            assert(y[j - s - k - m] == rr[j - s]);
            assert(y.last() == rr.last());
            assert(repeat('\t', tt) + repeat(' ', 0) + rr =~= repeat('\t', tt + k) + repeat(
                ' ',
                m,
            ) + y) by {
                assert forall|i: int| 0 <= i < k + m implies rr[i] == b[i] by {}
            }
            lemma_norm_parts(tt + k, m, y, w);
            assert(m / w == 0 && m % w == m) by (nonlinear_arith)
                requires
                    m < w,
            ;
        }
    }
}

/// Normalising a line that does not settle a second time changes it: a space
/// of its normalised form becomes a tab.
proof fn lemma_norm_line_unsettled(l: Seq<char>, w: nat)
    requires
        w >= 1,
        !settles(l, w),
    ensures
        norm_line(norm_line(l, w), w) != norm_line(l, w),
{
    lemma_norm_line_shape(l, w);
    lemma_lead(l);
    let s = lead_tabs(l) + lead_spaces(l);
    let tt = lead_tabs(l) + lead_spaces(l) / w;
    let b = body(l);
    let rr = rtrim(b);
    lemma_trailing_spaces(b);
    assert(rr.last() == b[b.len() - trailing_spaces(b) - 1]);
    let j = choose|j: int| 0 <= j < l.len() && !is_blank_char(l[j]);
    assert(j >= s);
    assert(b[j - s] == l[j]);
    assert(rr[j - s] == b[j - s]);
    lemma_lead(b);
    let k = lead_tabs(b);
    let m = lead_spaces(b);
    assert(j - s >= k + m) by {
        if j - s < k + m {
            assert(is_blank_char(b[j - s]));
        }
    }
    let y = rr.skip((k + m) as int);
    assert(y[0] == b[(k + m) as int]);
    assert(y[j - s - k - m] == rr[j - s]);
    assert(y.last() == rr.last());
    let o = norm_line(l, w);
    assert(o =~= repeat('\t', tt + k) + repeat(' ', m) + y) by {
        assert forall|i: int| 0 <= i < k + m implies rr[i] == b[i] by {}
    }
    lemma_norm_parts(tt + k, m, y, w);
    assert(m / w >= 1) by (nonlinear_arith)
        requires
            m >= w,
            w >= 1,
    ;
    let o2 = norm_line(o, w);
    assert(o[(tt + k) as int] == ' ');
    assert(o2[(tt + k) as int] == '\t');
}

/// Normalising twice gives what normalising once does exactly where every
/// line of the text settles.
pub proof fn law_idempotent(t: Seq<char>, w: nat)
    requires
        w >= 1,
    ensures
        normalize(normalize(t, w), w) == normalize(t, w) <==> forall|i: int|
            0 <= i < split_lines(t).len() ==> settles(#[trigger] split_lines(t)[i], w),
{
    lemma_lines_of_normalized(t, w);
    lemma_lines_of_normalized(normalize(t, w), w);
    let ls = split_lines(t);
    let q = norm_lines(ls, w);
    if forall|i: int| 0 <= i < ls.len() ==> settles(#[trigger] ls[i], w) {
        assert(norm_lines(q, w) =~= q) by {
            assert forall|i: int| 0 <= i < q.len() implies norm_lines(q, w)[i] == q[i] by {
                lemma_norm_line_twice(ls[i], w);
            }
        }
    } else {
        let i = choose|i: int| 0 <= i < ls.len() && !settles(#[trigger] ls[i], w);
        lemma_norm_line_unsettled(ls[i], w);
        assert(norm_lines(q, w)[i] != q[i]);
    }
}

} // verus!
