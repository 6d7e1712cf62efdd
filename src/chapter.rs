//! Counting the non-ASCII characters in the body of a chapter file, whose
//! first two lines are a title and metadata.
use vstd::prelude::*;
use crate::text::newline_count;

verus! {

/// Whether `c` is an ASCII character.
pub open spec fn is_ascii_char(c: char) -> bool {
    c <= '\u{7f}'
}

/// The number of characters of `t` that are not ASCII and stand after its
/// second newline; zero where `t` holds fewer than two newlines.
pub open spec fn body_non_ascii(t: Seq<char>) -> nat
    decreases t.len(),
{
    if t.len() == 0 {
        0
    } else {
        body_non_ascii(t.drop_last()) + if newline_count(t.drop_last()) >= 2 && !is_ascii_char(
            t.last(),
        ) {
            1nat
        } else {
            0nat
        }
    }
}

proof fn lemma_prefix_step(t: Seq<char>, i: int)
    requires
        0 <= i < t.len(),
    ensures
        t.take(i + 1).drop_last() == t.take(i),
        t.take(i + 1).last() == t[i],
{
    assert(t.take(i + 1).drop_last() =~= t.take(i));
}

/// Counts the characters after the second newline of `text` that are not
/// ASCII: the first two lines are a header and are skipped.
pub fn count_body_non_ascii(text: &str) -> (r: usize)
    ensures
        r == body_non_ascii(text@),
{
    let ghost t = text@;
    let n = text.unicode_len();
    let mut seen: usize = 0;
    let mut count: usize = 0;
    proof {
        assert(t.take(0) =~= Seq::<char>::empty());
        broadcast use vstd::string::axiom_spec_iter;
    }
    for c in it: text.chars()
        invariant
            it.seq() == t,
            n == t.len(),
            t == text@,
            count <= it.index(),
            count == body_non_ascii(t.take(it.index() as int)),
            seen <= 2,
            seen == 2 || seen == newline_count(t.take(it.index() as int)),
            seen == 2 <==> newline_count(t.take(it.index() as int)) >= 2,
    {
        let ghost i = it.index();
        proof {
            lemma_prefix_step(t, i as int);
        }
        if seen == 2 && c > '\u{7f}' {
            count = count + 1;
        }
        if c == '\n' && seen < 2 {
            seen = seen + 1;
        }
    }
    proof {
        assert(t.take(t.len() as int) =~= t);
    }
    count
}

} // verus!
