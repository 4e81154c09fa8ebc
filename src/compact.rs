//! Line compaction: dropping blank and whitespace-only lines.
use vstd::prelude::*;
use crate::text::{is_blank, is_ws, blank, string_of, chars_of, append_chars};

verus! {

/// The text split at every `'\n'`: one more piece than there are newlines.
pub open spec fn pieces(s: Seq<char>) -> Seq<Seq<char>>
    decreases s.len(),
{
    if s.len() == 0 {
        seq![Seq::<char>::empty()]
    } else {
        let p = pieces(s.drop_last());
        if s.last() == '\n' {
            p.push(Seq::<char>::empty())
        } else {
            p.update(p.len() - 1, p.last().push(s.last()))
        }
    }
}

/// A line ended by `"\r\n"` loses its `'\r'`.
pub open spec fn drop_cr(l: Seq<char>) -> Seq<char> {
    if l.len() > 0 && l.last() == '\r' {
        l.drop_last()
    } else {
        l
    }
}

/// The lines of a text: every piece that a newline ends drops a trailing
/// `'\r'`; the last piece is kept as it is.
pub open spec fn lines(s: Seq<char>) -> Seq<Seq<char>> {
    let p = pieces(s);
    Seq::new(p.len(), |i: int| if i < p.len() - 1 { drop_cr(p[i]) } else { p[i] })
}

/// The lines that hold a character other than whitespace, in order.
pub open spec fn keep_nonblank(ls: Seq<Seq<char>>) -> Seq<Seq<char>>
    decreases ls.len(),
{
    if ls.len() == 0 {
        ls
    } else {
        let k = keep_nonblank(ls.drop_last());
        if is_blank(ls.last()) {
            k
        } else {
            k.push(ls.last())
        }
    }
}

/// Lines joined with a single `'\n'` between neighbours.
pub open spec fn join_lines(ls: Seq<Seq<char>>) -> Seq<char>
    decreases ls.len(),
{
    if ls.len() == 0 {
        Seq::<char>::empty()
    } else if ls.len() == 1 {
        ls[0]
    } else {
        join_lines(ls.drop_last()) + seq!['\n'] + ls.last()
    }
}

/// The lines of a text that survive compaction.
pub open spec fn kept_lines(s: Seq<char>) -> Seq<Seq<char>> {
    keep_nonblank(lines(s))
}

/// The text without its blank and whitespace-only lines.
pub open spec fn compact(s: Seq<char>) -> Seq<char> {
    join_lines(kept_lines(s))
}

proof fn lemma_pieces_nonempty(s: Seq<char>)
    ensures
        pieces(s).len() >= 1,
    decreases s.len(),
{
    if s.len() > 0 {
        lemma_pieces_nonempty(s.drop_last());
    }
}

proof fn lemma_pieces_no_newline(s: Seq<char>)
    ensures
        forall|i: int, j: int|
            0 <= i < pieces(s).len() && 0 <= j < pieces(s)[i].len() ==> #[trigger] pieces(s)[i][j]
                != '\n',
    decreases s.len(),
{
    if s.len() > 0 {
        lemma_pieces_no_newline(s.drop_last());
        lemma_pieces_nonempty(s.drop_last());
    }
}

proof fn lemma_pieces_extend(a: Seq<char>, y: Seq<char>)
    requires
        forall|j: int| 0 <= j < y.len() ==> y[j] != '\n',
    ensures
        pieces(a + y) == pieces(a).update(pieces(a).len() - 1, pieces(a).last() + y),
    decreases y.len(),
{
    lemma_pieces_nonempty(a);
    if y.len() == 0 {
        assert(a + y =~= a);
        assert(pieces(a).last() + y =~= pieces(a).last());
        assert(pieces(a).update(pieces(a).len() - 1, pieces(a).last()) =~= pieces(a));
    } else {
        let y0 = y.drop_last();
        lemma_pieces_extend(a, y0);
        assert((a + y).drop_last() =~= a + y0);
        assert((a + y).last() == y.last());
        assert(pieces(a).last() + y =~= (pieces(a).last() + y0).push(y.last()));
        let p = pieces(a + y0);
        assert(p.update(p.len() - 1, p.last().push(y.last())) =~= pieces(a).update(
            pieces(a).len() - 1,
            pieces(a).last() + y,
        ));
    }
}

proof fn lemma_pieces_join(ls: Seq<Seq<char>>)
    requires
        ls.len() >= 1,
        forall|i: int, j: int|
            0 <= i < ls.len() && 0 <= j < ls[i].len() ==> #[trigger] ls[i][j] != '\n',
    ensures
        pieces(join_lines(ls)) == ls,
    decreases ls.len(),
{
    if ls.len() == 1 {
        let e = Seq::<char>::empty();
        lemma_pieces_extend(e, ls[0]);
        assert(e + ls[0] =~= ls[0]);
        assert(pieces(e) =~= seq![e]);
        assert(seq![e].update(0, e + ls[0]) =~= ls);
    } else {
        let front = ls.drop_last();
        assert forall|i: int, j: int|
            0 <= i < front.len() && 0 <= j < front[i].len() implies #[trigger] front[i][j]
            != '\n' by {
            assert(front[i] == ls[i]);
        }
        lemma_pieces_join(front);
        let x = join_lines(front) + seq!['\n'];
        assert(x.drop_last() =~= join_lines(front));
        assert(pieces(x) == ls.drop_last().push(Seq::<char>::empty()));
        assert forall|j: int| 0 <= j < ls.last().len() implies ls.last()[j] != '\n' by {
            assert(ls.last()[j] == ls[ls.len() - 1][j]);
        }
        lemma_pieces_extend(x, ls.last());
        assert(Seq::<char>::empty() + ls.last() =~= ls.last());
        assert(pieces(x).update(pieces(x).len() - 1, pieces(x).last() + ls.last()) =~= ls);
    }
}

proof fn lemma_keep_props(ls: Seq<Seq<char>>)
    ensures
        forall|i: int|
            0 <= i < keep_nonblank(ls).len() ==> !is_blank(#[trigger] keep_nonblank(ls)[i])
                && exists|k: int| 0 <= k < ls.len() && ls[k] == keep_nonblank(ls)[i],
    decreases ls.len(),
{
    if ls.len() > 0 {
        lemma_keep_props(ls.drop_last());
        let k = keep_nonblank(ls.drop_last());
        assert forall|i: int| 0 <= i < keep_nonblank(ls).len() implies !is_blank(
            #[trigger] keep_nonblank(ls)[i],
        ) && exists|q: int| 0 <= q < ls.len() && ls[q] == keep_nonblank(ls)[i] by {
            if i < k.len() {
                assert(keep_nonblank(ls)[i] == k[i]);
                let q = choose|q: int| 0 <= q < ls.drop_last().len() && ls.drop_last()[q] == k[i];
                assert(ls[q] == k[i]);
            } else {
                assert(ls[ls.len() - 1] == keep_nonblank(ls)[i]);
            }
        }
    }
}

proof fn lemma_keep_all(ls: Seq<Seq<char>>)
    requires
        forall|i: int| 0 <= i < ls.len() ==> !is_blank(#[trigger] ls[i]),
    ensures
        keep_nonblank(ls) == ls,
    decreases ls.len(),
{
    if ls.len() > 0 {
        lemma_keep_all(ls.drop_last());
        assert(!is_blank(ls[ls.len() - 1]));
        assert(ls.drop_last().push(ls.last()) =~= ls);
    }
}

/// A line that, once compacted, is followed by another and still ends in
/// `'\r'`: compacting again would take that `'\r'` off.
pub open spec fn has_inner_cr(s: Seq<char>) -> bool {
    let k = kept_lines(s);
    exists|i: int| 0 <= i < k.len() - 1 && (#[trigger] k[i]).len() > 0 && k[i].last() == '\r'
}

/// Compacting twice gives what compacting once gives. The one exception is a
/// kept line that still ends in `'\r'` (the text held `"\r\r\n"`) and is not
/// the last: compaction put a `'\n'` after it, and the pair reads as a line
/// ending the next time.
pub proof fn lemma_compact_idempotent(s: Seq<char>)
    requires
        !has_inner_cr(s),
    ensures
        compact(compact(s)) == compact(s),
{
    let k = kept_lines(s);
    let ls = lines(s);
    lemma_pieces_nonempty(s);
    lemma_pieces_no_newline(s);
    lemma_keep_props(ls);
    assert forall|i: int, j: int| 0 <= i < k.len() && 0 <= j < k[i].len() implies #[trigger] k[i][j]
        != '\n' by {
        let q = choose|q: int| 0 <= q < ls.len() && ls[q] == k[i];
        let p = pieces(s);
        if q < p.len() - 1 && p[q].len() > 0 && p[q].last() == '\r' {
            assert(k[i][j] == p[q][j]);
        } else {
            assert(k[i][j] == p[q][j]);
        }
    }
    if k.len() == 0 {
        assert(compact(s) =~= Seq::<char>::empty());
        assert(pieces(Seq::<char>::empty()) =~= seq![Seq::<char>::empty()]);
        let l2 = lines(compact(s));
        assert(l2.len() == 1);
        assert(is_blank(l2[0]));
        assert(l2.drop_last() =~= Seq::<Seq<char>>::empty());
        assert(keep_nonblank(l2.drop_last()) =~= Seq::<Seq<char>>::empty());
        assert(kept_lines(compact(s)) =~= Seq::<Seq<char>>::empty());
    } else {
        lemma_pieces_join(k);
        let l2 = lines(compact(s));
        assert forall|i: int| 0 <= i < k.len() implies #[trigger] l2[i] == k[i] by {
            if i < k.len() - 1 {
                assert(!(k[i].len() > 0 && k[i].last() == '\r'));
            }
        }
        assert(l2 =~= k);
        lemma_keep_all(k);
    }
}

/// Removes every blank or whitespace-only line; the remaining lines are
/// joined with single newlines and no trailing newline.
pub fn remove_empty_lines(input: &str) -> (r: String)
    ensures
        r@ == compact(input@),
{
    let s = chars_of(input);
    let ghost sv = s@;
    let mut out: Vec<char> = Vec::new();
    let mut cur: Vec<char> = Vec::new();
    let mut any = false;
    let ghost mut done: Seq<Seq<char>> = Seq::empty();
    let mut i: usize = 0;
    proof {
        assert(sv.take(0) =~= Seq::<char>::empty());
    }
    while i < s.len()
        invariant
            i <= s.len(),
            s@ == sv,
            pieces(sv.take(i as int)).len() == done.len() + 1,
            cur@ == pieces(sv.take(i as int)).last(),
            forall|k: int| 0 <= k < done.len() ==> #[trigger] done[k] == drop_cr(pieces(sv.take(i as int))[k]),
            out@ == join_lines(keep_nonblank(done)),
            any == (keep_nonblank(done).len() > 0),
        decreases s.len() - i,
    {
        let c = s[i];
        let ghost p = pieces(sv.take(i as int));
        assert(sv.take(i + 1).drop_last() =~= sv.take(i as int));
        assert(sv.take(i + 1).last() == c);
        if c == '\n' {
            let mut line = cur;
            if line.len() > 0 && line[line.len() - 1] == '\r' {
                line.pop();
            }
            let ghost old_done = done;
            let ghost kk = keep_nonblank(old_done);
            proof {
                done = done.push(drop_cr(p.last()));
                assert(done.drop_last() =~= old_done);
            }
            assert(line@ == drop_cr(p.last()));
            if !blank(&line) {
                proof {
                    assert(kk.push(line@).drop_last() =~= kk);
                }
                if any {
                    out.push('\n');
                }
                append_chars(&mut out, &line);
                any = true;
            }
            proof {
                let q = pieces(sv.take(i + 1));
                assert(q == p.push(Seq::<char>::empty()));
                assert forall|k: int| 0 <= k < done.len() implies #[trigger] done[k] == drop_cr(q[k]) by {
                    if k < old_done.len() {
                        assert(done[k] == old_done[k]);
                    }
                }
            }
            cur = Vec::new();
        } else {
            cur.push(c);
            proof {
                let q = pieces(sv.take(i + 1));
                assert(q == p.update(p.len() - 1, p.last().push(c)));
                assert forall|k: int| 0 <= k < done.len() implies #[trigger] done[k] == drop_cr(q[k]) by {
                    assert(q[k] == p[k]);
                }
            }
        }
        i = i + 1;
    }
    proof {
        assert(sv.take(s.len() as int) =~= sv);
    }
    let ghost p = pieces(sv);
    let ghost all = done.push(cur@);
    assert(lines(sv) =~= all);
    let ghost kk = keep_nonblank(done);
    assert(all.drop_last() =~= done);
    if !blank(&cur) {
        proof {
            assert(kk.push(cur@).drop_last() =~= kk);
        }
        if any {
            out.push('\n');
        }
        append_chars(&mut out, &cur);
    }
    string_of(&out)
}

} // verus!
