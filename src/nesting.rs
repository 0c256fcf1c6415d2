use vstd::prelude::*;
use crate::xml::{stream_complete, Token};

verus! {

/// The names of the elements open before token `i`, outermost first.
pub open spec fn open_at(toks: Seq<Token>, i: int) -> Seq<Seq<char>>
    decreases i,
{
    if i <= 0 || i > toks.len() {
        Seq::empty()
    } else {
        let before = open_at(toks, i - 1);
        match toks[i - 1] {
            Token::Start(n, _) => before.push(n@),
            Token::End(_) => if before.len() > 0 { before.drop_last() } else { before },
            _ => before,
        }
    }
}

/// A well-formed token stream: every end tag closes the innermost open
/// element, of the same name; the input ends with every element closed; no
/// markup is malformed and no character data holds an invalid escape.
pub open spec fn well_formed(toks: Seq<Token>) -> bool {
    &&& stream_complete(toks)
    &&& toks.last() is Eof
    &&& open_at(toks, toks.len() - 1).len() == 0
    &&& forall|i: int| 0 <= i < toks.len() ==> !((#[trigger] toks[i]) is Text && toks[i]->Text_0 is None)
    &&& forall|i: int| #![trigger toks[i]] 0 <= i < toks.len() && toks[i] is End ==> {
        &&& open_at(toks, i).len() > 0
        &&& open_at(toks, i).last() == toks[i]->End_0@
    }
}

/// `b` is `a` with possibly more elements open inside it.
pub open spec fn extends(a: Seq<Seq<char>>, b: Seq<Seq<char>>) -> bool {
    b.len() >= a.len() && b.subrange(0, a.len() as int) == a
}

/// Up to token `p`, the element whose start tag is at `s` is still open.
pub open spec fn within(toks: Seq<Token>, s: int, p: int) -> bool {
    forall|r: int| s < r <= p ==> extends(open_at(toks, s + 1), #[trigger] open_at(toks, r))
}

/// The element whose start tag is at `s` is read up to and including the end
/// tag at `q - 1`, without reading past its own end tag.
pub open spec fn read_inside(toks: Seq<Token>, s: int, q: int) -> bool {
    &&& s < q - 1 < toks.len()
    &&& within(toks, s, q - 1)
    &&& toks[q - 1] is End
}

/// A reader is called just after a start tag.
pub open spec fn after_start(toks: Seq<Token>, pos: int) -> bool {
    &&& 1 <= pos <= toks.len()
    &&& toks[pos - 1] is Start
}

proof fn lemma_extends_trans(a: Seq<Seq<char>>, b: Seq<Seq<char>>, c: Seq<Seq<char>>)
    requires
        extends(a, b),
        extends(b, c),
    ensures
        extends(a, c),
{
    assert(c.subrange(0, a.len() as int) =~= c.subrange(0, b.len() as int).subrange(0, a.len() as int));
}

proof fn lemma_open_step(toks: Seq<Token>, p: int)
    requires
        0 <= p < toks.len(),
    ensures
        open_at(toks, p + 1) == match toks[p] {
            Token::Start(n, _) => open_at(toks, p).push(n@),
            Token::End(_) => if open_at(toks, p).len() > 0 {
                open_at(toks, p).drop_last()
            } else {
                open_at(toks, p)
            },
            _ => open_at(toks, p),
        },
{
}

/// Reading starts inside the element.
pub proof fn lemma_within_start(toks: Seq<Token>, s: int)
    requires
        0 <= s < toks.len(),
    ensures
        within(toks, s, s + 1),
{
    assert(open_at(toks, s + 1).subrange(0, open_at(toks, s + 1).len() as int) =~= open_at(toks, s + 1));
}

/// A token that is neither a start nor an end tag keeps the reader inside.
pub proof fn lemma_within_other(toks: Seq<Token>, s: int, p: int)
    requires
        0 <= s < p < toks.len(),
        within(toks, s, p),
        !(toks[p] is Start),
        !(toks[p] is End),
    ensures
        within(toks, s, p + 1),
{
    lemma_open_step(toks, p);
    assert forall|r: int| s < r <= p + 1 implies extends(open_at(toks, s + 1), #[trigger] open_at(toks, r)) by {
        if r == p + 1 {
            assert(open_at(toks, r) == open_at(toks, p));
        }
    }
}

/// A start tag passed over keeps the reader inside.
pub proof fn lemma_within_start_tag(toks: Seq<Token>, s: int, p: int)
    requires
        0 <= s < p < toks.len(),
        within(toks, s, p),
        toks[p] is Start,
    ensures
        within(toks, s, p + 1),
{
    lemma_open_step(toks, p);
    assert forall|r: int| s < r <= p + 1 implies extends(open_at(toks, s + 1), #[trigger] open_at(toks, r)) by {
        if r == p + 1 {
            let a = open_at(toks, s + 1);
            let b = open_at(toks, p);
            assert(extends(a, b));
            assert(open_at(toks, r).subrange(0, a.len() as int) =~= b.subrange(0, a.len() as int));
        }
    }
}

/// An end tag that does not close the element keeps the reader inside.
pub proof fn lemma_within_end_tag(toks: Seq<Token>, s: int, p: int)
    requires
        well_formed(toks),
        0 <= s < p < toks.len(),
        within(toks, s, p),
        toks[s] is Start,
        toks[p] is End,
        toks[p]->End_0@ != toks[s]->Start_0@ || open_at(toks, p).len() > open_at(toks, s + 1).len(),
    ensures
        within(toks, s, p + 1),
{
    lemma_open_step(toks, p);
    lemma_open_step(toks, s);
    let a = open_at(toks, s + 1);
    let b = open_at(toks, p);
    assert(extends(a, b));
    if b.len() == a.len() {
        assert(b =~= b.subrange(0, a.len() as int));
        assert(b.last() == a.last());
    }
    assert(b.len() > a.len());
    assert forall|r: int| s < r <= p + 1 implies extends(a, #[trigger] open_at(toks, r)) by {
        if r == p + 1 {
            assert(open_at(toks, r).subrange(0, a.len() as int) =~= b.subrange(0, a.len() as int));
        }
    }
}

/// After a nested element read inside its own bounds, the reader is still
/// inside the enclosing element.
pub proof fn lemma_within_child(toks: Seq<Token>, s: int, p: int, q: int)
    requires
        0 <= s < p,
        within(toks, s, p),
        toks[p] is Start,
        read_inside(toks, p, q),
    ensures
        within(toks, s, q),
{
    let a = open_at(toks, s + 1);
    let b = open_at(toks, p);
    lemma_open_step(toks, p);
    lemma_open_step(toks, q - 1);
    let c = open_at(toks, p + 1);
    assert(extends(b, c)) by {
        assert(c.subrange(0, b.len() as int) =~= b);
    }
    assert(extends(a, b));
    assert forall|r: int| s < r <= q implies extends(a, #[trigger] open_at(toks, r)) by {
        if r > p && r < q {
            assert(extends(c, open_at(toks, r)));
            lemma_extends_trans(b, c, open_at(toks, r));
            lemma_extends_trans(a, b, open_at(toks, r));
        } else if r == q {
            let d = open_at(toks, q - 1);
            assert(extends(c, d));
            let e = open_at(toks, q);
            assert(e == d.drop_last());
            assert(extends(b, e)) by {
                assert(e.subrange(0, b.len() as int) =~= d.subrange(0, c.len() as int).subrange(0, b.len() as int));
            }
            lemma_extends_trans(a, b, e);
        }
    }
}

/// Inside an element the input has not ended.
pub proof fn lemma_within_not_eof(toks: Seq<Token>, s: int, p: int)
    requires
        well_formed(toks),
        0 <= s < p < toks.len(),
        within(toks, s, p),
        toks[s] is Start,
    ensures
        !(toks[p] is Eof),
        !(toks[p] is Fault),
{
    lemma_open_step(toks, s);
    if toks[p] is Eof || toks[p] is Fault {
        assert(p == toks.len() - 1);
        assert(extends(open_at(toks, s + 1), open_at(toks, p)));
    }
}

/// Occurrences of `n` among the stack entries at `base` and above.
pub open spec fn count_from(st: Seq<Seq<char>>, base: int, n: Seq<char>) -> nat
    decreases st.len(),
{
    if st.len() <= base || st.len() == 0 {
        0
    } else {
        count_from(st.drop_last(), base, n) + if st.last() == n { 1nat } else { 0nat }
    }
}

pub proof fn lemma_count_push(st: Seq<Seq<char>>, base: int, n: Seq<char>, x: Seq<char>)
    requires
        0 <= base <= st.len(),
    ensures
        count_from(st.push(x), base, n) == count_from(st, base, n) + if x == n { 1nat } else { 0nat },
{
    assert(st.push(x).drop_last() =~= st);
}

pub proof fn lemma_count_base(st: Seq<Seq<char>>, base: int, n: Seq<char>)
    requires
        st.len() <= base,
    ensures
        count_from(st, base, n) == 0,
{
}

/// Skipping: after the start tag at `s`, the element's name is counted once
/// among the open elements at its level and above.
pub proof fn lemma_count_start(toks: Seq<Token>, s: int)
    requires
        0 <= s < toks.len(),
        toks[s] is Start,
    ensures
        count_from(open_at(toks, s + 1), open_at(toks, s).len() as int, toks[s]->Start_0@) == 1,
{
    lemma_open_step(toks, s);
    lemma_count_base(open_at(toks, s), open_at(toks, s).len() as int, toks[s]->Start_0@);
    lemma_count_push(open_at(toks, s), open_at(toks, s).len() as int, toks[s]->Start_0@, toks[s]->Start_0@);
}

/// Skipping: how a token changes the count of the skipped name.
pub proof fn lemma_count_step(toks: Seq<Token>, s: int, p: int, n: Seq<char>)
    requires
        well_formed(toks),
        0 <= s < p < toks.len(),
        toks[s] is Start,
        within(toks, s, p),
    ensures
        toks[p] is Start ==> count_from(open_at(toks, p + 1), open_at(toks, s).len() as int, n)
            == count_from(open_at(toks, p), open_at(toks, s).len() as int, n) + if toks[p]->Start_0@ == n { 1nat } else { 0nat },
        toks[p] is End ==> count_from(open_at(toks, p), open_at(toks, s).len() as int, n)
            == count_from(open_at(toks, p + 1), open_at(toks, s).len() as int, n) + if toks[p]->End_0@ == n { 1nat } else { 0nat },
        !(toks[p] is Start) && !(toks[p] is End) ==> open_at(toks, p + 1) == open_at(toks, p),
        toks[p] is End && open_at(toks, p).len() == open_at(toks, s + 1).len() ==> count_from(
            open_at(toks, p),
            open_at(toks, s).len() as int,
            n,
        ) == if toks[p]->End_0@ == n { 1nat } else { 0nat },
{
    lemma_open_step(toks, p);
    lemma_open_step(toks, s);
    let base = open_at(toks, s).len() as int;
    let st = open_at(toks, p);
    assert(extends(open_at(toks, s + 1), st));
    if toks[p] is Start {
        lemma_count_push(st, base, n, toks[p]->Start_0@);
    }
    if toks[p] is End {
        assert(st.len() > 0);
        assert(st.drop_last().push(st.last()) =~= st);
        lemma_count_push(st.drop_last(), base, n, st.last());
        if st.len() == base + 1 {
            lemma_count_base(st.drop_last(), base, n);
        }
    }
}

} // verus!
