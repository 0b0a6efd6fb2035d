//! A text seen as a sequence of lines separated by `\n`.

use vstd::prelude::*;

verus! {

/// The line separator.
pub const NEWLINE: u8 = 0x0A;

/// The lines of `t`, split at each `\n`; the separators themselves are dropped.
/// There is always at least one line: the empty text has one empty line, and a
/// text that ends with `\n` ends with an empty line.
pub open spec fn lines(t: Seq<u8>) -> Seq<Seq<u8>>
    decreases t.len(),
{
    if t.len() == 0 {
        seq![Seq::empty()]
    } else {
        let ls = lines(t.drop_last());
        if t.last() == NEWLINE {
            ls.push(Seq::empty())
        } else {
            ls.update(ls.len() - 1, ls.last().push(t.last()))
        }
    }
}

/// The lines `ls` put back together, with a `\n` between each two.
pub open spec fn join(ls: Seq<Seq<u8>>) -> Seq<u8>
    decreases ls.len(),
{
    if ls.len() <= 1 {
        if ls.len() == 1 {
            ls[0]
        } else {
            Seq::empty()
        }
    } else {
        join(ls.drop_last()) + seq![NEWLINE] + ls.last()
    }
}

/// Whether `l` can stand as one line: it holds no `\n`.
pub open spec fn is_line(l: Seq<u8>) -> bool {
    forall|i: int| 0 <= i < l.len() ==> l[i] != NEWLINE
}

/// The byte views of a vector of lines.
pub open spec fn views(ls: Seq<Vec<u8>>) -> Seq<Seq<u8>> {
    ls.map_values(|l: Vec<u8>| l@)
}

/// Every text has at least one line, and none of its lines holds a `\n`.
pub proof fn lemma_lines_shape(t: Seq<u8>)
    ensures
        lines(t).len() >= 1,
        forall|k: int| 0 <= k < lines(t).len() ==> is_line(#[trigger] lines(t)[k]),
    decreases t.len(),
{
    if t.len() > 0 {
        lemma_lines_shape(t.drop_last());
        let ls = lines(t.drop_last());
        if t.last() != NEWLINE {
            assert forall|k: int| 0 <= k < lines(t).len() implies is_line(#[trigger] lines(t)[k]) by {
                if k == ls.len() - 1 {
                    assert(is_line(ls[k]));
                }
            }
        }
    }
}

/// Appending line content to the last line of a text.
proof fn lemma_lines_extend(a: Seq<u8>, b: Seq<u8>)
    requires
        is_line(b),
    ensures
        lines(a + b) == lines(a).update(lines(a).len() - 1, lines(a).last() + b),
    decreases b.len(),
{
    lemma_lines_shape(a);
    if b.len() == 0 {
        assert(a + b =~= a);
        assert(lines(a).last() + b =~= lines(a).last());
        assert(lines(a).update(lines(a).len() - 1, lines(a).last()) =~= lines(a));
    } else {
        let b0 = b.drop_last();
        lemma_lines_extend(a, b0);
        assert((a + b).drop_last() =~= a + b0);
        assert((a + b).last() == b.last());
        assert(lines(a).last() + b0 + seq![b.last()] =~= lines(a).last() + b);
        let ls = lines(a + b0);
        assert(ls.last() == lines(a).last() + b0);
        assert(ls.last().push(b.last()) =~= lines(a).last() + b);
        assert(ls.update(ls.len() - 1, ls.last().push(b.last())) =~= lines(a).update(
            lines(a).len() - 1,
            lines(a).last() + b,
        ));
    }
}

/// Splitting a joined sequence of lines gives those lines back.
pub proof fn lemma_lines_join(ls: Seq<Seq<u8>>)
    requires
        ls.len() >= 1,
        forall|k: int| 0 <= k < ls.len() ==> is_line(#[trigger] ls[k]),
    ensures
        lines(join(ls)) == ls,
    decreases ls.len(),
{
    if ls.len() == 1 {
        lemma_lines_extend(Seq::empty(), ls[0]);
        assert(Seq::<u8>::empty() + ls[0] =~= ls[0]);
        assert(lines(Seq::<u8>::empty()).update(0, Seq::<u8>::empty() + ls[0]) =~= ls);
    } else {
        let init = ls.drop_last();
        assert forall|k: int| 0 <= k < init.len() implies is_line(#[trigger] init[k]) by {
            assert(init[k] == ls[k]);
        }
        lemma_lines_join(init);
        let a = join(init) + seq![NEWLINE];
        assert(a.drop_last() =~= join(init));
        assert(lines(a) == init.push(Seq::empty()));
        assert(is_line(ls[ls.len() - 1]));
        lemma_lines_extend(a, ls.last());
        assert(Seq::<u8>::empty() + ls.last() =~= ls.last());
        assert(init.push(Seq::empty()).update(init.len() as int, Seq::<u8>::empty() + ls.last())
            =~= ls);
    }
}

/// Copies `src` onto the end of `out`.
pub fn push_all(out: &mut Vec<u8>, src: &[u8])
    ensures
        final(out)@ == old(out)@ + src@,
{
    let ghost start = out@;
    let mut i: usize = 0;
    while i < src.len()
        invariant
            i <= src@.len(),
            out@ == start + src@.take(i as int),
        decreases src@.len() - i,
    {
        out.push(src[i]);
        assert(src@.take(i + 1) =~= src@.take(i as int).push(src@[i as int]));
        i = i + 1;
    }
    assert(src@.take(i as int) =~= src@);
}

/// The lines of `t`, each in a vector of its own.
pub fn split_lines(t: &[u8]) -> (r: Vec<Vec<u8>>)
    ensures
        views(r@) == lines(t@),
{
    let mut done: Vec<Vec<u8>> = Vec::new();
    let mut cur: Vec<u8> = Vec::new();
    let mut i: usize = 0;
    assert(t@.take(0) =~= Seq::<u8>::empty());
    assert(views(done@).push(cur@) =~= lines(t@.take(0)));
    while i < t.len()
        invariant
            i <= t@.len(),
            views(done@).push(cur@) == lines(t@.take(i as int)),
        decreases t@.len() - i,
    {
        let b = t[i];
        assert(t@.take(i + 1).drop_last() =~= t@.take(i as int));
        if b == NEWLINE {
            let ghost before = views(done@).push(cur@);
            done.push(cur);
            cur = Vec::new();
            assert(views(done@).push(cur@) =~= before.push(Seq::empty()));
        } else {
            let ghost before = views(done@).push(cur@);
            cur.push(b);
            assert(views(done@).push(cur@) =~= before.update(
                before.len() - 1,
                before.last().push(b),
            ));
        }
        i = i + 1;
    }
    assert(t@.take(i as int) =~= t@);
    let ghost before = views(done@).push(cur@);
    done.push(cur);
    assert(views(done@) =~= before);
    done
}

/// The lines `ls` joined into one text, with a `\n` between each two.
pub fn join_lines(ls: &Vec<Vec<u8>>) -> (r: Vec<u8>)
    ensures
        r@ == join(views(ls@)),
{
    let mut out: Vec<u8> = Vec::new();
    if ls.len() == 0 {
        return out;
    }
    push_all(&mut out, ls[0].as_slice());
    let mut k: usize = 1;
    assert(views(ls@).take(1) =~= seq![ls@[0]@]);
    while k < ls.len()
        invariant
            1 <= k <= ls@.len(),
            out@ == join(views(ls@).take(k as int)),
        decreases ls@.len() - k,
    {
        out.push(NEWLINE);
        push_all(&mut out, ls[k].as_slice());
        let ghost next = views(ls@).take(k + 1);
        assert(next.drop_last() =~= views(ls@).take(k as int));
        k = k + 1;
    }
    assert(views(ls@).take(k as int) =~= views(ls@));
    out
}

} // verus!
