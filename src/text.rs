//! Text as a sequence of `\n`-separated lines.
use vstd::prelude::*;

verus! {

/// Relies on `String::push`: the character is appended at the end.
#[verifier::external_body]
pub(crate) fn push_char(s: &mut String, c: char)
    ensures
        final(s)@ == old(s)@.push(c),
{
    s.push(c)
}

/// The pieces of `t` between newlines, in order: one more than the number of
/// newlines in `t`. A text that ends with a newline has an empty last piece.
pub open spec fn split_lines(t: Seq<char>) -> Seq<Seq<char>>
    decreases t.len(),
{
    if t.len() == 0 {
        seq![Seq::empty()]
    } else if t.last() == '\n' {
        split_lines(t.drop_last()).push(Seq::empty())
    } else {
        let p = split_lines(t.drop_last());
        p.update(p.len() - 1, p.last().push(t.last()))
    }
}

/// Each line followed by a newline.
pub open spec fn terminated(ls: Seq<Seq<char>>) -> Seq<char>
    decreases ls.len(),
{
    if ls.len() == 0 {
        Seq::empty()
    } else {
        terminated(ls.drop_last()) + ls.last() + seq!['\n']
    }
}

/// The lines joined with a newline between each two.
pub open spec fn join_lines(ls: Seq<Seq<char>>) -> Seq<char> {
    if ls.len() == 0 {
        Seq::empty()
    } else {
        terminated(ls.drop_last()) + ls.last()
    }
}

/// The number of newlines in `t`.
pub open spec fn newline_count(t: Seq<char>) -> nat
    decreases t.len(),
{
    if t.len() == 0 {
        0
    } else {
        newline_count(t.drop_last()) + if t.last() == '\n' { 1nat } else { 0nat }
    }
}

/// Whether `l` holds no newline.
pub open spec fn no_newline(l: Seq<char>) -> bool {
    forall|i: int| 0 <= i < l.len() ==> l[i] != '\n'
}

/// Whether every line of `ls` holds no newline.
pub open spec fn all_no_newline(ls: Seq<Seq<char>>) -> bool {
    forall|i: int| 0 <= i < ls.len() ==> no_newline(#[trigger] ls[i])
}

/// Whether `t` ends with a newline.
pub open spec fn ends_with_newline(t: Seq<char>) -> bool {
    t.len() > 0 && t.last() == '\n'
}

/// A text has one line more than it has newlines.
pub proof fn lemma_split_len(t: Seq<char>)
    ensures
        split_lines(t).len() == newline_count(t) + 1,
    decreases t.len(),
{
    if t.len() > 0 {
        lemma_split_len(t.drop_last());
    }
}

/// No line of a text holds a newline.
pub proof fn lemma_split_no_newline(t: Seq<char>)
    ensures
        all_no_newline(split_lines(t)),
    decreases t.len(),
{
    if t.len() > 0 {
        lemma_split_len(t.drop_last());
        lemma_split_no_newline(t.drop_last());
        let p = split_lines(t.drop_last());
        if t.last() != '\n' {
            assert forall|i: int| 0 <= i < p.len() implies no_newline(
                #[trigger] p.update(p.len() - 1, p.last().push(t.last()))[i],
            ) by {
                if i == p.len() - 1 {
                    assert(no_newline(p[i]));
                }
            }
        }
    }
}

/// The last line of a text is empty exactly where the text is empty or ends
/// with a newline.
pub proof fn lemma_split_last(t: Seq<char>)
    ensures
        split_lines(t).len() >= 1,
        split_lines(t).last().len() == 0 <==> (t.len() == 0 || t.last() == '\n'),
{
    lemma_split_len(t);
    if t.len() > 0 {
        lemma_split_len(t.drop_last());
    }
}

pub proof fn lemma_newline_count_concat(a: Seq<char>, b: Seq<char>)
    ensures
        newline_count(a + b) == newline_count(a) + newline_count(b),
    decreases b.len(),
{
    if b.len() > 0 {
        assert((a + b).drop_last() =~= a + b.drop_last());
        lemma_newline_count_concat(a, b.drop_last());
    } else {
        assert(a + b =~= a);
    }
}

pub proof fn lemma_newline_count_free(l: Seq<char>)
    requires
        no_newline(l),
    ensures
        newline_count(l) == 0,
    decreases l.len(),
{
    if l.len() > 0 {
        lemma_newline_count_free(l.drop_last());
    }
}

/// Lines without newlines, each closed by one, hold one newline each.
pub proof fn lemma_terminated_newlines(ls: Seq<Seq<char>>)
    requires
        all_no_newline(ls),
    ensures
        newline_count(terminated(ls)) == ls.len(),
    decreases ls.len(),
{
    if ls.len() > 0 {
        let k = ls.len() - 1;
        assert(all_no_newline(ls.drop_last())) by {
            assert forall|i: int| 0 <= i < k implies no_newline(#[trigger] ls.drop_last()[i]) by {
                assert(no_newline(ls[i]));
            }
        }
        assert(no_newline(ls[k]));
        lemma_terminated_newlines(ls.drop_last());
        lemma_newline_count_free(ls.last());
        lemma_newline_count_concat(terminated(ls.drop_last()), ls.last());
        lemma_newline_count_concat(terminated(ls.drop_last()) + ls.last(), seq!['\n']);
        assert(seq!['\n'].drop_last() =~= Seq::<char>::empty());
        assert(seq!['\n'][0] == '\n');
        assert(newline_count(Seq::<char>::empty()) == 0);
        assert(newline_count(seq!['\n']) == 1);
    }
}

/// Lines without newlines, joined, hold one newline fewer than there are lines.
pub proof fn lemma_join_newlines(ls: Seq<Seq<char>>)
    requires
        ls.len() >= 1,
        all_no_newline(ls),
    ensures
        newline_count(join_lines(ls)) + 1 == ls.len(),
{
    let k = ls.len() - 1;
    assert(all_no_newline(ls.drop_last())) by {
        assert forall|i: int| 0 <= i < k implies no_newline(#[trigger] ls.drop_last()[i]) by {
            assert(no_newline(ls[i]));
        }
    }
    assert(no_newline(ls[k]));
    lemma_terminated_newlines(ls.drop_last());
    lemma_newline_count_free(ls.last());
    lemma_newline_count_concat(terminated(ls.drop_last()), ls.last());
}

proof fn lemma_split_terminated(ls: Seq<Seq<char>>, l: Seq<char>)
    requires
        all_no_newline(ls),
        no_newline(l),
    ensures
        split_lines(terminated(ls) + l) == ls.push(l),
    decreases ls.len(), l.len(),
{
    if l.len() > 0 {
        assert((terminated(ls) + l).drop_last() =~= terminated(ls) + l.drop_last());
        assert(l[l.len() - 1] != '\n');
        lemma_split_terminated(ls, l.drop_last());
        assert(l.drop_last().push(l.last()) =~= l);
        assert(ls.push(l.drop_last()).update(ls.len() as int, l.drop_last().push(l.last()))
            =~= ls.push(l));
    } else if ls.len() > 0 {
        let k = ls.len() - 1;
        assert(terminated(ls) + l =~= terminated(ls));
        assert(all_no_newline(ls.drop_last())) by {
            assert forall|i: int| 0 <= i < k implies no_newline(#[trigger] ls.drop_last()[i]) by {
                assert(no_newline(ls[i]));
            }
        }
        assert(no_newline(ls[k]));
        let u = terminated(ls.drop_last()) + ls.last();
        assert(terminated(ls).drop_last() =~= u);
        lemma_split_terminated(ls.drop_last(), ls.last());
        assert(ls.drop_last().push(ls.last()) =~= ls);
        assert(l =~= Seq::<char>::empty());
    } else {
        assert(terminated(ls) + l =~= Seq::<char>::empty());
        assert(ls.push(l) =~= seq![Seq::<char>::empty()]);
    }
}

/// Splitting lines without newlines after joining them gives them back.
pub proof fn lemma_split_join(ls: Seq<Seq<char>>)
    requires
        ls.len() >= 1,
        all_no_newline(ls),
    ensures
        split_lines(join_lines(ls)) == ls,
{
    let k = ls.len() - 1;
    assert(all_no_newline(ls.drop_last())) by {
        assert forall|i: int| 0 <= i < k implies no_newline(#[trigger] ls.drop_last()[i]) by {
            assert(no_newline(ls[i]));
        }
    }
    assert(no_newline(ls[k]));
    lemma_split_terminated(ls.drop_last(), ls.last());
    assert(ls.drop_last().push(ls.last()) =~= ls);
}

/// How joined lines end: with the last line where it is not empty; with a
/// newline after the line before it where it is.
pub proof fn lemma_join_end(ls: Seq<Seq<char>>)
    requires
        ls.len() >= 1,
    ensures
        ls.last().len() > 0 ==> join_lines(ls).len() > 0 && join_lines(ls).last()
            == ls.last().last(),
        ls.last().len() == 0 && ls.len() == 1 ==> join_lines(ls).len() == 0,
        ls.last().len() == 0 && ls.len() >= 2 ==> ends_with_newline(join_lines(ls)),
        ls.last().len() == 0 && ls.len() >= 2 && ls[ls.len() - 2].len() > 0 ==> join_lines(
            ls,
        ).len() >= 2 && join_lines(ls)[join_lines(ls).len() - 2] == ls[ls.len() - 2].last(),
{
    let j = join_lines(ls);
    let h = terminated(ls.drop_last());
    if ls.last().len() == 0 {
        assert(j =~= h);
        if ls.len() >= 2 {
            let d = ls.drop_last();
            let g = terminated(d.drop_last()) + d.last();
            assert(h == g + seq!['\n']);
            assert(h.last() == '\n');
            if d.last().len() > 0 {
                assert(h[h.len() - 2] == g[g.len() - 1]);
            }
        }
    } else {
        assert(j.last() == ls.last()[ls.last().len() - 1]);
    }
}

} // verus!
