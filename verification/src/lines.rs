//! Line structure of text, as `str::lines` sees it, and the "last `n` lines"
//! selection used for shell history.

use vstd::prelude::*;
use crate::text::{char_views, join_with};

verus! {

/// How many times `x` occurs in `s`.
pub open spec fn count_of<T>(s: Seq<T>, x: T) -> nat
    decreases s.len(),
{
    if s.len() == 0 {
        0
    } else {
        count_of(s.drop_last(), x) + if s.last() == x {
            1nat
        } else {
            0nat
        }
    }
}

/// The pieces of `s` between `'\n'` characters, as `str::split('\n')`
/// yields them: always at least one piece.
pub open spec fn split_nl(s: Seq<char>) -> Seq<Seq<char>>
    decreases s.len(),
{
    if s.len() == 0 {
        seq![Seq::<char>::empty()]
    } else {
        let r = split_nl(s.drop_last());
        if s.last() == '\n' {
            r.push(Seq::<char>::empty())
        } else {
            r.update(r.len() - 1, r.last().push(s.last()))
        }
    }
}

/// A line without the `'\r'` of a `"\r\n"` ending.
pub open spec fn strip_cr(l: Seq<char>) -> Seq<char> {
    if l.len() > 0 && l.last() == '\r' {
        l.drop_last()
    } else {
        l
    }
}

pub open spec fn strip_all(ls: Seq<Seq<char>>) -> Seq<Seq<char>> {
    ls.map_values(|l: Seq<char>| strip_cr(l))
}

/// Whether `s` ends with a line feed.
pub open spec fn ends_nl(s: Seq<char>) -> bool {
    s.len() > 0 && s.last() == '\n'
}

/// The lines of `s`, as `str::lines` yields them: split at `'\n'`, a line
/// ended by `"\r\n"` loses its `'\r'`, and a final line feed does not start
/// another (empty) line.
pub open spec fn lines(s: Seq<char>) -> Seq<Seq<char>> {
    let p = split_nl(s);
    if s.len() == 0 {
        seq![]
    } else if s.last() == '\n' {
        strip_all(p.drop_last())
    } else {
        strip_all(p.drop_last()).push(p.last())
    }
}

/// The last `n` elements of `s` (all of them when there are fewer).
pub open spec fn last_n<T>(s: Seq<T>, n: nat) -> Seq<T> {
    if s.len() <= n {
        s
    } else {
        s.subrange(s.len() - n, s.len() as int)
    }
}

/// The last `limit` lines of `t`, joined with `'\n'`, followed by a line
/// feed when `t` ends with one.
pub open spec fn tail_text(t: Seq<char>, limit: nat) -> Seq<char> {
    join_with(last_n(lines(t), limit), seq!['\n']) + if ends_nl(t) {
        seq!['\n']
    } else {
        Seq::<char>::empty()
    }
}

pub proof fn lemma_count_concat<T>(a: Seq<T>, b: Seq<T>, x: T)
    ensures
        count_of(a + b, x) == count_of(a, x) + count_of(b, x),
    decreases b.len(),
{
    if b.len() == 0 {
        assert(a + b =~= a);
    } else {
        lemma_count_concat(a, b.drop_last(), x);
        assert((a + b).drop_last() =~= a + b.drop_last());
    }
}

pub proof fn lemma_count_le_len<T>(s: Seq<T>, x: T)
    ensures
        count_of(s, x) <= s.len(),
    decreases s.len(),
{
    if s.len() > 0 {
        lemma_count_le_len(s.drop_last(), x);
    }
}

pub proof fn lemma_split_nl_len(s: Seq<char>)
    ensures
        split_nl(s).len() == count_of(s, '\n') + 1,
    decreases s.len(),
{
    if s.len() > 0 {
        lemma_split_nl_len(s.drop_last());
    }
}

/// Splitting a concatenation: the last piece of `x` and the first piece of
/// `y` fuse into one.
pub proof fn lemma_split_nl_concat(x: Seq<char>, y: Seq<char>)
    ensures
        split_nl(x + y) == split_nl(x).drop_last() + seq![split_nl(x).last() + split_nl(y)[0]]
            + split_nl(y).drop_first(),
    decreases y.len(),
{
    lemma_split_nl_len(x);
    lemma_split_nl_len(y);
    if y.len() == 0 {
        assert(x + y =~= x);
        assert(split_nl(x).last() + split_nl(y)[0] =~= split_nl(x).last());
        assert(split_nl(x) =~= split_nl(x).drop_last() + seq![split_nl(x).last()]
            + split_nl(y).drop_first());
    } else {
        let y0 = y.drop_last();
        let c = y.last();
        lemma_split_nl_concat(x, y0);
        lemma_split_nl_len(y0);
        assert((x + y).drop_last() =~= x + y0);
        let a = split_nl(x).drop_last();
        let l = split_nl(x).last();
        let s0 = split_nl(y0);
        let prev = split_nl(x + y0);
        assert(prev == a + seq![l + s0[0]] + s0.drop_first());
        if c == '\n' {
            assert(split_nl(y) == s0.push(Seq::<char>::empty()));
            assert(split_nl(y)[0] == s0[0]);
            assert(split_nl(y).drop_first() =~= s0.drop_first().push(Seq::<char>::empty()));
            assert(split_nl(x + y) =~= a + seq![l + split_nl(y)[0]] + split_nl(y).drop_first());
        } else {
            assert(split_nl(y) == s0.update(s0.len() - 1, s0.last().push(c)));
            if s0.len() == 1 {
                assert(split_nl(y)[0] == s0[0].push(c));
                assert(split_nl(y).drop_first() =~= Seq::<Seq<char>>::empty());
                assert((l + s0[0]).push(c) =~= l + s0[0].push(c));
                assert(split_nl(x + y) =~= a + seq![l + split_nl(y)[0]]
                    + split_nl(y).drop_first());
            } else {
                assert(split_nl(y)[0] == s0[0]);
                assert(split_nl(y).drop_first() =~= s0.drop_first().update(
                    s0.len() - 2,
                    s0.last().push(c),
                ));
                assert(split_nl(x + y) =~= a + seq![l + split_nl(y)[0]]
                    + split_nl(y).drop_first());
            }
        }
    }
}

/// The last `n` of a concatenation depend only on the right part when it is
/// long enough.
pub proof fn lemma_last_n_concat<T>(a: Seq<T>, b: Seq<T>, n: nat)
    requires
        b.len() >= n,
    ensures
        last_n(a + b, n) == last_n(b, n),
{
    assert(last_n(a + b, n) =~= last_n(b, n));
}

/// Texts whose pieces share a long enough common tail have the same last
/// `limit` lines.
proof fn lemma_lines_common_tail(
    t1: Seq<char>,
    t2: Seq<char>,
    a1: Seq<Seq<char>>,
    a2: Seq<Seq<char>>,
    d: Seq<Seq<char>>,
    limit: nat,
)
    requires
        split_nl(t1) == a1 + d,
        split_nl(t2) == a2 + d,
        d.len() >= limit + 1,
        t1.len() > 0,
        t2.len() > 0,
        t1.last() == t2.last(),
    ensures
        last_n(lines(t1), limit) == last_n(lines(t2), limit),
{
    let e = if t1.last() == '\n' {
        strip_all(d.drop_last())
    } else {
        strip_all(d.drop_last()).push(d.last())
    };
    assert((a1 + d).drop_last() =~= a1 + d.drop_last());
    assert((a2 + d).drop_last() =~= a2 + d.drop_last());
    assert(strip_all(a1 + d.drop_last()) =~= strip_all(a1) + strip_all(d.drop_last()));
    assert(strip_all(a2 + d.drop_last()) =~= strip_all(a2) + strip_all(d.drop_last()));
    if t1.last() == '\n' {
        assert(lines(t1) == strip_all(a1) + e);
        assert(lines(t2) == strip_all(a2) + e);
    } else {
        assert(lines(t1) =~= strip_all(a1) + e);
        assert(lines(t2) =~= strip_all(a2) + e);
    }
    lemma_last_n_concat(strip_all(a1), e, limit);
    lemma_last_n_concat(strip_all(a2), e, limit);
}

/// The last `limit` lines of a text only depend on any suffix of it that
/// holds more than `limit` line feeds.
pub proof fn lemma_tail_text_suffix(p: Seq<char>, s: Seq<char>, limit: nat)
    requires
        count_of(s, '\n') > limit,
    ensures
        tail_text(p + s, limit) == tail_text(s, limit),
{
    lemma_split_nl_concat(p, s);
    lemma_split_nl_len(s);
    let sp = split_nl(s);
    let d = sp.drop_first();
    let a1 = split_nl(p).drop_last() + seq![split_nl(p).last() + sp[0]];
    assert(split_nl(p + s) == a1 + d);
    assert(sp =~= seq![sp[0]] + d);
    if s.len() == 0 {
        assert(count_of(s, '\n') == 0);
    }
    assert((p + s).last() == s.last());
    lemma_lines_common_tail(p + s, s, a1, seq![sp[0]], d, limit);
}

/// What precedes a line feed does not matter to the last `limit` lines when
/// the text after it holds at least `limit` line feeds.
pub proof fn lemma_tail_text_after_nl(x: Seq<char>, c: Seq<char>, limit: nat)
    requires
        limit > 0,
        count_of(c, '\n') >= limit,
    ensures
        tail_text(x + seq!['\n'] + c, limit) == tail_text(c, limit),
{
    let xn = x + seq!['\n'];
    assert(xn.drop_last() =~= x);
    assert(split_nl(xn) == split_nl(x).push(Seq::<char>::empty()));
    lemma_split_nl_concat(xn, c);
    lemma_split_nl_len(c);
    if c.len() == 0 {
        assert(count_of(c, '\n') == 0);
    }
    let sc = split_nl(c);
    assert(split_nl(xn).drop_last() =~= split_nl(x));
    assert(split_nl(xn).last() + sc[0] =~= sc[0]);
    assert(sc =~= seq![sc[0]] + sc.drop_first());
    assert(split_nl(xn + c) =~= split_nl(x) + sc);
    assert(sc =~= Seq::<Seq<char>>::empty() + sc);
    assert((xn + c).last() == c.last());
    lemma_lines_common_tail(xn + c, c, split_nl(x), Seq::<Seq<char>>::empty(), sc, limit);
}

/// A sequence without `x` holds no `x`.
pub proof fn lemma_count_absent<T>(s: Seq<T>, x: T)
    requires
        forall|j: int| 0 <= j < s.len() ==> s[j] != x,
    ensures
        count_of(s, x) == 0,
    decreases s.len(),
{
    if s.len() > 0 {
        assert(s.last() == s[s.len() - 1]);
        lemma_count_absent(s.drop_last(), x);
    }
}

// ---------------------------------------------------------------------------
// Executable splitting
// ---------------------------------------------------------------------------

/// `l` without the `'\r'` of a `"\r\n"` ending.
fn strip_cr_vec(l: &mut Vec<char>)
    ensures
        final(l)@ == strip_cr(old(l)@),
{
    if l.len() > 0 && l[l.len() - 1] == '\r' {
        l.pop();
        assert(l@ =~= old(l)@.drop_last());
    }
}

/// The lines of `t` (`str::lines`).
pub fn split_lines(t: &[char]) -> (r: Vec<Vec<char>>)
    ensures
        char_views(r@) == lines(t@),
{
    let n = t.len();
    let mut out: Vec<Vec<char>> = Vec::new();
    let mut cur: Vec<char> = Vec::new();
    let mut i: usize = 0;
    proof {
        assert(t@.subrange(0, 0) =~= Seq::<char>::empty());
    }
    while i < n
        invariant
            i <= n == t@.len(),
            split_nl(t@.subrange(0, i as int)).len() >= 1,
            char_views(out@) == strip_all(split_nl(t@.subrange(0, i as int)).drop_last()),
            cur@ == split_nl(t@.subrange(0, i as int)).last(),
        decreases n - i,
    {
        let c = t[i];
        let ghost pre = t@.subrange(0, i as int);
        let ghost r = split_nl(pre);
        assert(t@.subrange(0, i + 1).drop_last() =~= pre);
        assert(t@.subrange(0, i + 1).last() == c);
        if c == '\n' {
            let mut line = Vec::new();
            std::mem::swap(&mut line, &mut cur);
            strip_cr_vec(&mut line);
            let ghost old_out = out@;
            out.push(line);
            proof {
                assert(split_nl(t@.subrange(0, i + 1)) == r.push(Seq::<char>::empty()));
                assert(r.push(Seq::<char>::empty()).drop_last() =~= r);
                assert(r =~= r.drop_last().push(r.last()));
                assert(strip_all(r) =~= strip_all(r.drop_last()).push(strip_cr(r.last())));
                assert(char_views(out@) =~= char_views(old_out).push(strip_cr(r.last())));
            }
        } else {
            cur.push(c);
            proof {
                let nr = r.update(r.len() - 1, r.last().push(c));
                assert(split_nl(t@.subrange(0, i + 1)) == nr);
                assert(nr.drop_last() =~= r.drop_last());
            }
        }
        i = i + 1;
    }
    proof {
        assert(t@.subrange(0, n as int) =~= t@);
    }
    if n > 0 && t[n - 1] != '\n' {
        let ghost old_out = out@;
        out.push(cur);
        assert(char_views(out@) =~= char_views(old_out).push(split_nl(t@).last()));
    } else if n == 0 {
        assert(char_views(out@) =~= Seq::<Seq<char>>::empty());
    }
    out
}

// ---------------------------------------------------------------------------
// How many lines the tail holds
// ---------------------------------------------------------------------------

/// No piece between line feeds holds a line feed.
proof fn lemma_split_nl_pieces(s: Seq<char>)
    ensures
        forall|i: int| 0 <= i < split_nl(s).len() ==> !(#[trigger] split_nl(s)[i]).contains('\n'),
    decreases s.len(),
{
    lemma_split_nl_len(s);
    if s.len() > 0 {
        lemma_split_nl_pieces(s.drop_last());
        lemma_split_nl_len(s.drop_last());
        let r = split_nl(s.drop_last());
        if s.last() != '\n' {
            let l = r.last().push(s.last());
            assert(!l.contains('\n')) by {
                if l.contains('\n') {
                    let k = choose|k: int| 0 <= k < l.len() && l[k] == '\n';
                    if k < l.len() - 1 {
                        assert(r.last()[k] == '\n');
                        assert(r[r.len() - 1] == r.last());
                    }
                }
            }
        }
        assert forall|i: int| 0 <= i < split_nl(s).len() implies !(#[trigger] split_nl(
            s,
        )[i]).contains('\n') by {
            if i < r.len() - 1 {
                assert(split_nl(s)[i] == r[i]);
            } else if i == r.len() - 1 && s.last() == '\n' {
                assert(split_nl(s)[i] == r[i]);
            } else if s.last() == '\n' {
                assert(split_nl(s)[i] =~= Seq::<char>::empty());
            }
        }
    }
}

/// No line holds a line feed.
pub proof fn lemma_lines_no_newline(t: Seq<char>)
    ensures
        forall|i: int| 0 <= i < lines(t).len() ==> !(#[trigger] lines(t)[i]).contains('\n'),
{
    lemma_split_nl_pieces(t);
    lemma_split_nl_len(t);
    let p = split_nl(t);
    assert forall|i: int| 0 <= i < lines(t).len() implies !(#[trigger] lines(t)[i]).contains('\n')
        by {
        if i < p.len() - 1 {
            let l = p[i];
            assert(!l.contains('\n'));
            assert(lines(t)[i] == strip_cr(l));
            if strip_cr(l).contains('\n') {
                let k = choose|k: int| 0 <= k < strip_cr(l).len() && strip_cr(l)[k] == '\n';
                assert(l[k] == '\n');
            }
        } else {
            assert(lines(t)[i] == p.last());
            assert(p[p.len() - 1] == p.last());
        }
    }
}

/// How many lines a text has, by its line feeds.
pub proof fn lemma_lines_len(t: Seq<char>)
    ensures
        lines(t).len() <= count_of(t, '\n') + 1,
        ends_nl(t) ==> lines(t).len() == count_of(t, '\n'),
        t.len() == 0 ==> lines(t).len() == 0,
{
    lemma_split_nl_len(t);
}

/// A joined list of line-feed-free parts holds one line feed fewer than
/// it has parts.
proof fn lemma_join_count(ps: Seq<Seq<char>>)
    requires
        forall|i: int| 0 <= i < ps.len() ==> !(#[trigger] ps[i]).contains('\n'),
    ensures
        ps.len() > 0 ==> count_of(join_with(ps, seq!['\n']), '\n') + 1 == ps.len(),
        ps.len() == 0 ==> join_with(ps, seq!['\n']).len() == 0,
    decreases ps.len(),
{
    if ps.len() > 0 {
        assert forall|i: int| 0 <= i < ps.drop_last().len() implies !(
        #[trigger] ps.drop_last()[i]).contains('\n') by {
            assert(ps.drop_last()[i] == ps[i]);
        }
        lemma_join_count(ps.drop_last());
        lemma_count_none(ps.last());
        assert(!ps[ps.len() - 1].contains('\n'));
        if ps.len() == 1 {
            assert(join_with(ps, seq!['\n']) == ps[0]);
        } else {
            let j = join_with(ps.drop_last(), seq!['\n']);
            lemma_count_concat(j, seq!['\n'], '\n');
            lemma_count_concat(j + seq!['\n'], ps.last(), '\n');
            lemma_count_single_nl();
        }
    }
}

proof fn lemma_count_single_nl()
    ensures
        count_of(seq!['\n'], '\n') == 1,
{
    let s = seq!['\n'];
    assert(s.drop_last() =~= Seq::<char>::empty());
    assert(count_of(s.drop_last(), '\n') == 0);
    assert(s.last() == '\n');
}

proof fn lemma_count_none(s: Seq<char>)
    requires
        !s.contains('\n'),
    ensures
        count_of(s, '\n') == 0,
    decreases s.len(),
{
    if s.len() > 0 {
        assert(s[s.len() - 1] == s.last());
        assert(!s.drop_last().contains('\n')) by {
            if s.drop_last().contains('\n') {
                let k = choose|k: int| 0 <= k < s.drop_last().len() && s.drop_last()[k] == '\n';
                assert(s[k] == '\n');
            }
        }
        lemma_count_none(s.drop_last());
    }
}

/// The selected tail holds at most `limit` lines.
pub proof fn lemma_tail_lines_bounded(t: Seq<char>, limit: nat)
    requires
        limit > 0,
    ensures
        lines(tail_text(t, limit)).len() <= limit,
{
    lemma_lines_no_newline(t);
    lemma_lines_len(t);
    let all = lines(t);
    let l = last_n(all, limit);
    assert forall|i: int| 0 <= i < l.len() implies !(#[trigger] l[i]).contains('\n') by {
        if all.len() > limit {
            assert(l[i] == all[all.len() - limit + i]);
        }
    }
    lemma_join_count(l);
    let j = join_with(l, seq!['\n']);
    let out = tail_text(t, limit);
    if ends_nl(t) {
        assert(out == j + seq!['\n']);
        lemma_count_concat(j, seq!['\n'], '\n');
        lemma_count_single_nl();
        lemma_lines_len(out);
        assert(out.last() == '\n');
        assert(all.len() >= 1);
    } else {
        assert(out =~= j);
        lemma_lines_len(out);
    }
}

} // verus!
