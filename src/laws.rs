use vstd::prelude::*;

use crate::interner::{no_newline, resolve, table_ok, tokens_in};
use crate::matcher::{gap_start, identity_anchor, is_match, runs_anchored, runs_tight, runs_valid, Run};
use crate::merge::{change, Author, at_common, classify, fragment, lemma_walk_end, lemma_walk_step, run_range, shift_into, walk, walk_all, DiffView};
use crate::range::Range;

verus! {

/// The base-text part of a block: the unchanged text, or the base fragment
/// of a change.
pub open spec fn base_part(d: DiffView) -> Seq<char> {
    match d {
        DiffView::NotChanged(t) => t,
        DiffView::Add(_, _) => Seq::empty(),
        DiffView::Remove(_, o) => o,
        DiffView::Modify(_, o, _) => o,
        DiffView::Conflict(o, _, _) => o,
    }
}

/// The base-text parts of a sequence of blocks, in order.
pub open spec fn base_parts(ds: Seq<DiffView>) -> Seq<char>
    decreases ds.len(),
{
    if ds.len() == 0 {
        Seq::empty()
    } else {
        base_parts(ds.drop_last()) + base_part(ds.last())
    }
}

pub proof fn lemma_base_parts_append(x: Seq<DiffView>, y: Seq<DiffView>)
    ensures
        base_parts(x + y) == base_parts(x) + base_parts(y),
    decreases y.len(),
{
    if y.len() == 0 {
        assert(x + y =~= x);
    } else {
        lemma_base_parts_append(x, y.drop_last());
        assert((x + y).drop_last() =~= x + y.drop_last());
    }
}

pub proof fn lemma_resolve_append(t: Seq<Seq<char>>, x: Seq<usize>, y: Seq<usize>)
    ensures
        resolve(t, x + y) == resolve(t, x) + resolve(t, y),
    decreases y.len(),
{
    if y.len() == 0 {
        assert(x + y =~= x);
    } else {
        lemma_resolve_append(t, x, y.drop_last());
        assert((x + y).drop_last() =~= x + y.drop_last());
    }
}

/// Splitting a run of base tokens at `q` splits its text there.
pub proof fn lemma_resolve_split(t: Seq<Seq<char>>, s: Seq<usize>, p: int, q: int, r: int)
    requires
        0 <= p <= q <= r <= s.len(),
    ensures
        resolve(t, s.subrange(p, r)) == resolve(t, s.subrange(p, q)) + resolve(t, s.subrange(q, r)),
{
    assert(s.subrange(p, q) + s.subrange(q, r) =~= s.subrange(p, r));
    lemma_resolve_append(t, s.subrange(p, q), s.subrange(q, r));
}

/// The base part of what a common range `c` emits is the base text from the
/// end of the previous common range to the end of `c`.
proof fn lemma_common_base(
    table: Seq<Seq<char>>,
    base: Seq<usize>,
    mine: Seq<usize>,
    yours: Seq<usize>,
    c: Range,
    ca: Range,
    cb: Range,
    prev: Range,
    pa: Range,
    pb: Range,
)
    requires
        prev.0 <= prev.1 <= c.0 < c.1 <= base.len(),
    ensures
        at_common(table, base, mine, yours, c, ca, cb, prev, pa, pb).drop_last() == classify(
            fragment(table, base, c, prev),
            fragment(table, mine, ca, pa),
            fragment(table, yours, cb, pb),
        ),
        at_common(table, base, mine, yours, c, ca, cb, prev, pa, pb).last() == DiffView::NotChanged(
            resolve(table, base.subrange(c.0 as int, c.1 as int)),
        ),
        base_parts(
            classify(fragment(table, base, c, prev), fragment(table, mine, ca, pa), fragment(table, yours, cb, pb)),
        ) == resolve(table, base.subrange(prev.1 as int, c.0 as int)),
        base_parts(at_common(table, base, mine, yours, c, ca, cb, prev, pa, pb)) == resolve(
            table,
            base.subrange(prev.1 as int, c.1 as int),
        ),
{
    let o = fragment(table, base, c, prev);
    let a = fragment(table, mine, ca, pa);
    let b = fragment(table, yours, cb, pb);
    let k = classify(o, a, b);
    let gap = resolve(table, base.subrange(prev.1 as int, c.0 as int));
    if c.0 > prev.1 {
        assert(o == Some(gap));
    } else {
        assert(o.is_none());
        assert(base.subrange(prev.1 as int, c.0 as int) =~= Seq::<usize>::empty());
        assert(gap == Seq::<char>::empty());
    }
    assert(base_parts(k) == gap) by {
        if k.len() == 1 {
            assert(k.drop_last() =~= Seq::<DiffView>::empty());
            assert(k.last() == k[0]);
            assert(base_parts(k) == base_parts(k.drop_last()) + base_part(k[0]));
            assert(base_parts(Seq::<DiffView>::empty()) == Seq::<char>::empty());
            assert(base_part(k[0]) == o.unwrap_or(Seq::empty())) by {
                if o == b && a != b {
                    assert(k[0] == change(Author::Mine, o, a));
                } else if o == a && a != b {
                    assert(k[0] == change(Author::Yours, o, b));
                } else if a != b {
                } else {
                    assert(k[0] == change(Author::Both, o, a));
                }
            }
        } else {
            assert(k.len() == 0);
            assert(o.is_none());
        }
    }
    let nc = DiffView::NotChanged(resolve(table, base.subrange(c.0 as int, c.1 as int)));
    assert(k.push(nc).drop_last() =~= k);
    lemma_resolve_split(table, base, prev.1 as int, c.0 as int, c.1 as int);
}

/// From a state of the walk that respects the runs' order, the walk emits
/// the base text from the end of the last common range on, and ends with
/// the block over the sentinel.
proof fn lemma_walk_covers(
    table: Seq<Seq<char>>,
    base: Seq<usize>,
    mine: Seq<usize>,
    yours: Seq<usize>,
    ma: Seq<Run>,
    mb: Seq<Run>,
    ia: int,
    ib: int,
    prev: Range,
    pa: Range,
    pb: Range,
)
    requires
        base.len() <= usize::MAX,
        runs_anchored(base, mine, ma),
        runs_anchored(base, yours, mb),
        0 <= ia <= ma.len() - 2,
        0 <= ib < mb.len(),
        prev.0 <= prev.1 <= base.len(),
        prev.1 <= ma[ia].0 || prev.1 <= mb[ib].0,
        prev.1 < base.len() ==> ib <= mb.len() - 2,
        prev.1 == base.len() ==> ia == ma.len() - 2 && ib == mb.len() - 1,
    ensures
        ({
            let w = walk(table, base, mine, yours, ma, mb, ia, ib, prev, pa, pb);
            let n = base.len() - 1;
            if prev.1 == base.len() {
                w == Seq::<DiffView>::empty()
            } else {
                &&& w.len() >= 1
                &&& w.last() == DiffView::NotChanged(resolve(table, base.subrange(n, n + 1)))
                &&& base_parts(w.drop_last()) == resolve(table, base.subrange(prev.1 as int, n))
            }
        }),
    decreases (ma.len() - ia) + (mb.len() - ib),
{
    let len = base.len();
    let la = ma.len() - 2;
    let lb = mb.len() - 2;
    let a = ma[ia];
    let b = mb[ib];
    assert(is_match(base, mine, a));
    assert(is_match(base, yours, b));
    assert(is_match(base, yours, mb[mb.len() - 1]));
    let ab = run_range(a);
    let bb = run_range(b);
    let na = if ab.1 < bb.1 { ia + 1 } else { ia };
    let nb = if ab.1 < bb.1 { ib } else { ib + 1 };
    lemma_walk_step(table, base, mine, yours, ma, mb, ia, ib, prev, pa, pb);
    // a run that reaches the end of base is the sentinel run
    if ia < la {
        assert(ma[ia].0 + ma[ia].2 <= ma[la].0);
    }
    if ib < lb {
        assert(mb[ib].0 + mb[ib].2 <= mb[lb].0);
    }
    if ib == mb.len() - 1 {
        assert(mb[lb].0 + mb[lb].2 <= mb[ib].0);
    }
    if ab.1 < bb.1 {
        assert(ma[ia].0 + ma[ia].2 <= ma[ia + 1].0);
    } else if nb < mb.len() {
        assert(mb[ib].0 + mb[ib].2 <= mb[ib + 1].0);
    }
    if prev.1 == len {
        lemma_walk_end(table, base, mine, yours, ma, mb, na, nb, prev, pa, pb);
    } else {
        match ab.spec_intersect(bb) {
            Some(c) => {
                let ca = shift_into(c, a);
                let cb = shift_into(c, b);
                let e = at_common(table, base, mine, yours, c, ca, cb, prev, pa, pb);
                lemma_common_base(table, base, mine, yours, c, ca, cb, prev, pa, pb);
                lemma_walk_covers(table, base, mine, yours, ma, mb, na, nb, c, ca, cb);
                let rest = walk(table, base, mine, yours, ma, mb, na, nb, c, ca, cb);
                let w = e + rest;
                let n = len - 1;
                if c.1 == len {
                    assert(w =~= e);
                    assert(c == Range(n as usize, len as usize));
                } else {
                    assert(w.drop_last() =~= e + rest.drop_last());
                    lemma_base_parts_append(e, rest.drop_last());
                    lemma_resolve_split(table, base, prev.1 as int, c.1 as int, n);
                }
            },
            None => {
                lemma_walk_covers(table, base, mine, yours, ma, mb, na, nb, prev, pa, pb);
            },
        }
    }
}

/// Coverage: over any valid runs that pair the two sentinels, the base parts
/// of all that the walk emits before its closing block spell out the base
/// text without its sentinel, and the closing block is the sentinel's.
pub proof fn lemma_walk_base_coverage(
    table: Seq<Seq<char>>,
    base: Seq<usize>,
    mine: Seq<usize>,
    yours: Seq<usize>,
    ma: Seq<Run>,
    mb: Seq<Run>,
)
    requires
        base.len() <= usize::MAX,
        runs_anchored(base, mine, ma),
        runs_anchored(base, yours, mb),
    ensures
        ({
            let w = walk_all(table, base, mine, yours, ma, mb);
            let n = base.len() - 1;
            &&& w.len() >= 1
            &&& w.last() == DiffView::NotChanged(resolve(table, base.subrange(n, n + 1)))
            &&& base_parts(w.drop_last()) == resolve(table, base.subrange(0, n))
        }),
{
    lemma_walk_covers(table, base, mine, yours, ma, mb, 0, 0, Range(0, 0), Range(0, 0), Range(0, 0));
}

/// The text that mine holds in place of a block: the unchanged text, mine's
/// side of a change or conflict, or the base text where only yours changed.
pub open spec fn mine_part(d: DiffView) -> Seq<char> {
    match d {
        DiffView::NotChanged(t) => t,
        DiffView::Add(w, x) => if w == Author::Yours { Seq::empty() } else { x },
        DiffView::Remove(w, o) => if w == Author::Yours { o } else { Seq::empty() },
        DiffView::Modify(w, o, x) => if w == Author::Yours { o } else { x },
        DiffView::Conflict(_, a, _) => a,
    }
}

/// Mine's parts of a sequence of blocks, in order.
pub open spec fn mine_parts(ds: Seq<DiffView>) -> Seq<char>
    decreases ds.len(),
{
    if ds.len() == 0 {
        Seq::empty()
    } else {
        mine_parts(ds.drop_last()) + mine_part(ds.last())
    }
}

pub proof fn lemma_mine_parts_append(x: Seq<DiffView>, y: Seq<DiffView>)
    ensures
        mine_parts(x + y) == mine_parts(x) + mine_parts(y),
    decreases y.len(),
{
    if y.len() == 0 {
        assert(x + y =~= x);
    } else {
        lemma_mine_parts_append(x, y.drop_last());
        assert((x + y).drop_last() =~= x + y.drop_last());
    }
}

/// Mine's part of what a common range emits is mine's text from the end of
/// the previous common range to the end of the common range moved into mine.
proof fn lemma_common_mine(
    table: Seq<Seq<char>>,
    base: Seq<usize>,
    mine: Seq<usize>,
    yours: Seq<usize>,
    run: Run,
    c: Range,
    cb: Range,
    prev: Range,
    pa: Range,
    pb: Range,
)
    requires
        mine.len() <= usize::MAX,
        is_match(base, mine, run),
        run.0 <= c.0 < c.1 <= run.0 + run.2,
        pa.0 <= pa.1 <= shift_into(c, run).0,
    ensures
        ({
            let ca = shift_into(c, run);
            let k = classify(fragment(table, base, c, prev), fragment(table, mine, ca, pa), fragment(table, yours, cb, pb));
            &&& mine_parts(k) == resolve(table, mine.subrange(pa.1 as int, ca.0 as int))
            &&& mine_parts(at_common(table, base, mine, yours, c, ca, cb, prev, pa, pb))
                == resolve(table, mine.subrange(pa.1 as int, ca.1 as int))
        }),
{
    let ca = shift_into(c, run);
    let o = fragment(table, base, c, prev);
    let a = fragment(table, mine, ca, pa);
    let b = fragment(table, yours, cb, pb);
    let k = classify(o, a, b);
    let gap = resolve(table, mine.subrange(pa.1 as int, ca.0 as int));
    if ca.0 > pa.1 {
        assert(a == Some(gap));
    } else {
        assert(a.is_none());
        assert(mine.subrange(pa.1 as int, ca.0 as int) =~= Seq::<usize>::empty());
        assert(gap == Seq::<char>::empty());
    }
    assert(mine_parts(k) == gap) by {
        if k.len() == 1 {
            assert(k.drop_last() =~= Seq::<DiffView>::empty());
            assert(k.last() == k[0]);
            assert(mine_parts(k) == mine_parts(k.drop_last()) + mine_part(k[0]));
            assert(mine_parts(Seq::<DiffView>::empty()) == Seq::<char>::empty());
            assert(mine_part(k[0]) == a.unwrap_or(Seq::empty())) by {
                if o == b && a != b {
                    assert(k[0] == change(Author::Mine, o, a));
                } else if o == a && a != b {
                    assert(k[0] == change(Author::Yours, o, b));
                } else if a != b {
                } else {
                    assert(k[0] == change(Author::Both, o, a));
                }
            }
        } else {
            assert(k.len() == 0);
            assert(a.is_none());
        }
    }
    assert(base.subrange(c.0 as int, c.1 as int) =~= mine.subrange(ca.0 as int, ca.1 as int)) by {
        assert forall|i: int| 0 <= i < c.1 - c.0 implies #[trigger] base.subrange(c.0 as int, c.1 as int)[i]
            == mine.subrange(ca.0 as int, ca.1 as int)[i] by {
            assert(base[run.0 + (c.0 - run.0 + i)] == mine[run.1 + (c.0 - run.0 + i)]);
        }
    }
    let nc = DiffView::NotChanged(resolve(table, base.subrange(c.0 as int, c.1 as int)));
    let e = at_common(table, base, mine, yours, c, ca, cb, prev, pa, pb);
    assert(e.drop_last() =~= k);
    assert(e.last() == nc);
    assert(mine_parts(e) == mine_parts(k) + resolve(table, mine.subrange(ca.0 as int, ca.1 as int)));
    lemma_resolve_split(table, mine, pa.1 as int, ca.0 as int, ca.1 as int);
}

/// From a state of the walk that respects the runs' order, the walk emits,
/// in mine's terms, mine's text from the end of the last common range on.
proof fn lemma_walk_covers_mine(
    table: Seq<Seq<char>>,
    base: Seq<usize>,
    mine: Seq<usize>,
    yours: Seq<usize>,
    ma: Seq<Run>,
    mb: Seq<Run>,
    ia: int,
    ib: int,
    prev: Range,
    pa: Range,
    pb: Range,
)
    requires
        base.len() <= usize::MAX,
        mine.len() <= usize::MAX,
        runs_anchored(base, mine, ma),
        runs_anchored(base, yours, mb),
        0 <= ia <= ma.len() - 2,
        0 <= ib < mb.len(),
        prev.0 <= prev.1 <= base.len(),
        prev.1 <= ma[ia].0 || prev.1 <= mb[ib].0,
        prev.1 < base.len() ==> ib <= mb.len() - 2,
        prev.1 == base.len() ==> ia == ma.len() - 2 && ib == mb.len() - 1,
        pa.0 <= pa.1 <= mine.len(),
        pa.1 <= ma[ia].1 || (ma[ia].0 <= prev.1 <= ma[ia].0 + ma[ia].2 && pa.1 == prev.1 - ma[ia].0 + ma[ia].1),
        prev.1 == base.len() ==> pa.1 == mine.len(),
    ensures
        ({
            let w = walk(table, base, mine, yours, ma, mb, ia, ib, prev, pa, pb);
            prev.1 < base.len() ==> {
                &&& w.len() >= 1
                &&& mine_parts(w.drop_last()) == resolve(table, mine.subrange(pa.1 as int, mine.len() - 1))
            }
        }),
    decreases (ma.len() - ia) + (mb.len() - ib),
{
    let len = base.len();
    let la = ma.len() - 2;
    let lb = mb.len() - 2;
    let a = ma[ia];
    let b = mb[ib];
    assert(is_match(base, mine, a));
    assert(is_match(base, yours, b));
    assert(is_match(base, yours, mb[mb.len() - 1]));
    let ab = run_range(a);
    let bb = run_range(b);
    let na = if ab.1 < bb.1 { ia + 1 } else { ia };
    let nb = if ab.1 < bb.1 { ib } else { ib + 1 };
    lemma_walk_step(table, base, mine, yours, ma, mb, ia, ib, prev, pa, pb);
    if ia < la {
        assert(ma[ia].0 + ma[ia].2 <= ma[la].0);
    }
    if ib < lb {
        assert(mb[ib].0 + mb[ib].2 <= mb[lb].0);
    }
    if ib == mb.len() - 1 {
        assert(mb[lb].0 + mb[lb].2 <= mb[ib].0);
    }
    if ab.1 < bb.1 {
        assert(ma[ia].0 + ma[ia].2 <= ma[ia + 1].0);
        assert(ma[ia].1 + ma[ia].2 <= ma[ia + 1].1);
    } else if nb < mb.len() {
        assert(mb[ib].0 + mb[ib].2 <= mb[ib + 1].0);
    }
    if prev.1 < len {
        match ab.spec_intersect(bb) {
            Some(c) => {
                let ca = shift_into(c, a);
                let cb = shift_into(c, b);
                let e = at_common(table, base, mine, yours, c, ca, cb, prev, pa, pb);
                lemma_common_mine(table, base, mine, yours, a, c, cb, prev, pa, pb);
                lemma_walk_covers_mine(table, base, mine, yours, ma, mb, na, nb, c, ca, cb);
                lemma_walk_covers(table, base, mine, yours, ma, mb, na, nb, c, ca, cb);
                let rest = walk(table, base, mine, yours, ma, mb, na, nb, c, ca, cb);
                let w = e + rest;
                let m = mine.len() - 1;
                if c.1 == len {
                    assert(w =~= e);
                    assert(ia == la);
                    assert(ca == Range(m as usize, mine.len() as usize));
                    assert(e.drop_last() == classify(
                        fragment(table, base, c, prev),
                        fragment(table, mine, ca, pa),
                        fragment(table, yours, cb, pb),
                    ));
                } else {
                    assert(w.drop_last() =~= e + rest.drop_last());
                    lemma_mine_parts_append(e, rest.drop_last());
                    lemma_resolve_split(table, mine, pa.1 as int, ca.1 as int, m);
                }
            },
            None => {
                lemma_walk_covers_mine(table, base, mine, yours, ma, mb, na, nb, prev, pa, pb);
            },
        }
    }
}

/// Mine-side coverage: over any valid runs that pair the two sentinels,
/// mine's parts of all that the walk emits before its closing block spell
/// out mine's text without its sentinel.
pub proof fn lemma_walk_mine_coverage(
    table: Seq<Seq<char>>,
    base: Seq<usize>,
    mine: Seq<usize>,
    yours: Seq<usize>,
    ma: Seq<Run>,
    mb: Seq<Run>,
)
    requires
        base.len() <= usize::MAX,
        mine.len() <= usize::MAX,
        runs_anchored(base, mine, ma),
        runs_anchored(base, yours, mb),
    ensures
        ({
            let w = walk_all(table, base, mine, yours, ma, mb);
            &&& w.len() >= 1
            &&& mine_parts(w.drop_last()) == resolve(table, mine.subrange(0, mine.len() - 1))
        }),
{
    lemma_walk_covers_mine(table, base, mine, yours, ma, mb, 0, 0, Range(0, 0), Range(0, 0), Range(0, 0));
}

/// A block with the roles of mine and yours exchanged.
pub open spec fn mirror(d: DiffView) -> DiffView {
    let swap = |w: Author| match w {
        Author::Mine => Author::Yours,
        Author::Yours => Author::Mine,
        Author::Both => Author::Both,
    };
    match d {
        DiffView::NotChanged(t) => DiffView::NotChanged(t),
        DiffView::Add(w, x) => DiffView::Add(swap(w), x),
        DiffView::Remove(w, o) => DiffView::Remove(swap(w), o),
        DiffView::Modify(w, o, x) => DiffView::Modify(swap(w), o, x),
        DiffView::Conflict(o, a, b) => DiffView::Conflict(o, b, a),
    }
}

/// Each block of a sequence mirrored.
pub open spec fn mirrored(ds: Seq<DiffView>) -> Seq<DiffView> {
    ds.map_values(|d: DiffView| mirror(d))
}

/// Moving past a run of mine that ends where the current run of yours
/// starts, or before it, changes nothing that the walk emits.
proof fn lemma_walk_skip(
    table: Seq<Seq<char>>,
    base: Seq<usize>,
    mine: Seq<usize>,
    yours: Seq<usize>,
    ma: Seq<Run>,
    mb: Seq<Run>,
    ia: int,
    ib: int,
    prev: Range,
    pa: Range,
    pb: Range,
)
    requires
        runs_valid(base, mine, ma),
        runs_valid(base, yours, mb),
        0 <= ia < ma.len(),
        0 <= ib,
        ib < mb.len() ==> ma[ia].0 + ma[ia].2 <= mb[ib].0,
    ensures
        walk(table, base, mine, yours, ma, mb, ia, ib, prev, pa, pb) == walk(
            table, base, mine, yours, ma, mb, ia + 1, ib, prev, pa, pb),
    decreases mb.len() - ib,
{
    if ib >= mb.len() {
        lemma_walk_end(table, base, mine, yours, ma, mb, ia, ib, prev, pa, pb);
        lemma_walk_end(table, base, mine, yours, ma, mb, ia + 1, ib, prev, pa, pb);
    } else {
        assert(is_match(base, mine, ma[ia]));
        assert(is_match(base, yours, mb[ib]));
        lemma_walk_step(table, base, mine, yours, ma, mb, ia, ib, prev, pa, pb);
        let e = ma[ia].0 + ma[ia].2;
        if e < mb[ib].0 + mb[ib].2 {
        } else {
            if ib + 1 < mb.len() {
                assert(mb[ib].0 + mb[ib].2 <= mb[ib + 1].0);
            }
            lemma_walk_skip(table, base, mine, yours, ma, mb, ia, ib + 1, prev, pa, pb);
            if ia + 1 < ma.len() {
                assert(ma[ia].0 + ma[ia].2 <= ma[ia + 1].0);
                assert(is_match(base, mine, ma[ia + 1]));
                lemma_walk_step(table, base, mine, yours, ma, mb, ia + 1, ib, prev, pa, pb);
            } else {
                lemma_walk_end(table, base, mine, yours, ma, mb, ia + 1, ib, prev, pa, pb);
                lemma_walk_end(table, base, mine, yours, ma, mb, ia + 1, ib + 1, prev, pa, pb);
            }
        }
    }
}

/// Symmetry: exchanging mine and yours, with their runs, mirrors every block
/// the walk emits.
pub proof fn lemma_walk_symmetry(
    table: Seq<Seq<char>>,
    base: Seq<usize>,
    x: Seq<usize>,
    y: Seq<usize>,
    ma: Seq<Run>,
    mb: Seq<Run>,
    ia: int,
    ib: int,
    prev: Range,
    pa: Range,
    pb: Range,
)
    requires
        runs_valid(base, x, ma),
        runs_valid(base, y, mb),
        0 <= ia,
        0 <= ib,
    ensures
        walk(table, base, x, y, ma, mb, ia, ib, prev, pa, pb) == mirrored(
            walk(table, base, y, x, mb, ma, ib, ia, prev, pb, pa),
        ),
    decreases (ma.len() - ia) + (mb.len() - ib),
{
    let w1 = walk(table, base, x, y, ma, mb, ia, ib, prev, pa, pb);
    let w2 = walk(table, base, y, x, mb, ma, ib, ia, prev, pb, pa);
    if ia >= ma.len() || ib >= mb.len() {
        lemma_walk_end(table, base, x, y, ma, mb, ia, ib, prev, pa, pb);
        lemma_walk_end(table, base, y, x, mb, ma, ib, ia, prev, pb, pa);
        assert(mirrored(w2) =~= w2);
    } else {
        lemma_walk_step(table, base, x, y, ma, mb, ia, ib, prev, pa, pb);
        lemma_walk_step(table, base, y, x, mb, ma, ib, ia, prev, pb, pa);
        assert(is_match(base, x, ma[ia]));
        assert(is_match(base, y, mb[ib]));
        let ab = run_range(ma[ia]);
        let bb = run_range(mb[ib]);
        assert(ab.spec_intersect(bb) == bb.spec_intersect(ab));
        let (np, qa, qb) = match ab.spec_intersect(bb) {
            Some(c) => (c, shift_into(c, ma[ia]), shift_into(c, mb[ib])),
            None => (prev, pa, pb),
        };
        let e1 = match ab.spec_intersect(bb) {
            Some(c) => at_common(table, base, x, y, c, qa, qb, prev, pa, pb),
            None => Seq::<DiffView>::empty(),
        };
        let e2 = match ab.spec_intersect(bb) {
            Some(c) => at_common(table, base, y, x, c, qb, qa, prev, pb, pa),
            None => Seq::<DiffView>::empty(),
        };
        assert(e1 == mirrored(e2)) by {
            match ab.spec_intersect(bb) {
                Some(c) => {
                    let o = fragment(table, base, c, prev);
                    let a = fragment(table, x, qa, pa);
                    let b = fragment(table, y, qb, pb);
                    let k1 = classify(o, a, b);
                    let k2 = classify(o, b, a);
                    assert(k1 =~= mirrored(k2)) by {
                        if o == b && a != b {
                            assert(k2[0] == change(Author::Yours, o, a));
                        } else if o == a && a != b {
                            assert(k2[0] == change(Author::Mine, o, b));
                        } else if a != b {
                        } else if o.is_some() || a.is_some() {
                            assert(k2[0] == change(Author::Both, o, a));
                        }
                    }
                    assert(e1 =~= mirrored(e2));
                },
                None => {
                    assert(e1 =~= mirrored(e2));
                },
            }
        }
        if ab.1 < bb.1 {
            lemma_walk_symmetry(table, base, x, y, ma, mb, ia + 1, ib, np, qa, qb);
        } else if bb.1 < ab.1 {
            lemma_walk_symmetry(table, base, x, y, ma, mb, ia, ib + 1, np, qa, qb);
        } else {
            if ib + 1 < mb.len() {
                assert(mb[ib].0 + mb[ib].2 <= mb[ib + 1].0);
            }
            if ia + 1 < ma.len() {
                assert(ma[ia].0 + ma[ia].2 <= ma[ia + 1].0);
            }
            lemma_walk_skip(table, base, x, y, ma, mb, ia, ib + 1, np, qa, qb);
            lemma_walk_skip(table, base, y, x, mb, ma, ib, ia + 1, np, qb, qa);
            lemma_walk_symmetry(table, base, x, y, ma, mb, ia + 1, ib + 1, np, qa, qb);
        }
        let na = if ab.1 < bb.1 { ia + 1 } else { ia };
        let nb = if ab.1 < bb.1 { ib } else { ib + 1 };
        let r1 = walk(table, base, x, y, ma, mb, na, nb, np, qa, qb);
        let ja = if bb.1 < ab.1 { ib + 1 } else { ib };
        let jb = if bb.1 < ab.1 { ia } else { ia + 1 };
        let r2 = walk(table, base, y, x, mb, ma, ja, jb, np, qb, qa);
        assert(r1 == mirrored(r2));
        assert(w1 == e1 + r1);
        assert(w2 == e2 + r2);
        assert(mirrored(e2 + r2) =~= mirrored(e2) + mirrored(r2));
    }
}

/// Token runs that begin with different lines are written out as different
/// texts.
pub proof fn lemma_resolve_heads_differ(t: Seq<Seq<char>>, x: Seq<usize>, y: Seq<usize>)
    requires
        table_ok(t),
        x.len() >= 1,
        y.len() >= 1,
        1 <= x[0] < t.len(),
        1 <= y[0] < t.len(),
        x[0] != y[0],
    ensures
        resolve(t, x) != resolve(t, y),
{
    let l1 = t[x[0] as int];
    let l2 = t[y[0] as int];
    assert(l1 != l2);
    assert(no_newline(l1));
    assert(no_newline(l2));
    assert(seq![x[0]] + x.subrange(1, x.len() as int) =~= x);
    assert(seq![y[0]] + y.subrange(1, y.len() as int) =~= y);
    lemma_resolve_append(t, seq![x[0]], x.subrange(1, x.len() as int));
    lemma_resolve_append(t, seq![y[0]], y.subrange(1, y.len() as int));
    assert(seq![x[0]].drop_last() =~= Seq::<usize>::empty());
    assert(seq![y[0]].drop_last() =~= Seq::<usize>::empty());
    let s1 = resolve(t, x);
    let s2 = resolve(t, y);
    let h1 = l1 + seq!['\n'];
    let h2 = l2 + seq!['\n'];
    assert(resolve(t, Seq::<usize>::empty()) == Seq::<char>::empty());
    assert(resolve(t, seq![x[0]]) == resolve(t, Seq::<usize>::empty()) + l1 + seq!['\n']);
    assert(resolve(t, seq![x[0]]) =~= h1);
    assert(resolve(t, seq![y[0]]) == resolve(t, Seq::<usize>::empty()) + l2 + seq!['\n']);
    assert(resolve(t, seq![y[0]]) =~= h2);
    if s1 == s2 {
        if l1.len() < l2.len() {
            assert(s1[l1.len() as int] == h1[l1.len() as int]);
            assert(s2[l1.len() as int] == l2[l1.len() as int]);
        } else if l2.len() < l1.len() {
            assert(s2[l2.len() as int] == h2[l2.len() as int]);
            assert(s1[l2.len() as int] == l1[l2.len() as int]);
        } else {
            assert forall|i: int| 0 <= i < l1.len() implies l1[i] == l2[i] by {
                assert(s1[i] == h1[i]);
                assert(s2[i] == h2[i]);
            }
            assert(l1 =~= l2);
        }
    }
}

/// The diagonal runs of a sequence against itself follow one another
/// without gaps, each non-empty but the closing one.
proof fn lemma_identity_anchor_facts(len: nat)
    requires
        1 <= len <= usize::MAX,
    ensures
        ({
            let mb = identity_anchor(len);
            &&& mb.len() >= 2
            &&& mb[0].0 == 0
            &&& mb.last() == (len as usize, len as usize, 0usize)
            &&& mb[mb.len() - 2] == ((len - 1) as usize, (len - 1) as usize, 1usize)
            &&& forall|k: int| 0 <= k < mb.len() ==> (#[trigger] mb[k]).0 == mb[k].1 && mb[k].0 + mb[k].2 <= len
            &&& forall|k: int| 0 <= k < mb.len() - 1 ==> (#[trigger] mb[k]).2 > 0
                && mb[k + 1].0 == mb[k].0 + mb[k].2
        }),
{
}

/// A block that changes nothing or is mine's change alone.
pub open spec fn by_mine(d: DiffView) -> bool {
    match d {
        DiffView::NotChanged(_) => true,
        DiffView::Add(w, _) => w == Author::Mine,
        DiffView::Remove(w, _) => w == Author::Mine,
        DiffView::Modify(w, _, _) => w == Author::Mine,
        DiffView::Conflict(_, _, _) => false,
    }
}

/// At a run of mine that lies inside base's diagonal run, with the previous
/// common range ending where the gap before that run begins, the walk emits
/// only unchanged text and mine's change.
proof fn lemma_emit_by_mine(
    t: Seq<Seq<char>>,
    base: Seq<usize>,
    mine: Seq<usize>,
    ma: Seq<Run>,
    ia: int,
    prev: Range,
    pa: Range,
)
    requires
        table_ok(t),
        mine.len() <= usize::MAX,
        forall|i: int| 0 <= i < base.len() - 1 ==> 1 <= #[trigger] base[i] < t.len(),
        forall|i: int| 0 <= i < mine.len() - 1 ==> 1 <= #[trigger] mine[i] < t.len(),
        runs_tight(base, mine, ma),
        0 <= ia < ma.len(),
        is_match(base, mine, ma[ia]),
        ma[ia].2 > 0,
        ma[ia].0 <= base.len() - 1 || ma[ia].1 <= mine.len() - 1,
        ma[ia].0 + ma[ia].2 <= base.len(),
        ma[ia].1 + ma[ia].2 <= mine.len(),
        ma[ia].0 + ma[ia].2 == base.len() ==> ma[ia].0 == base.len() - 1 && ma[ia].1 == mine.len() - 1,
        prev.0 <= prev.1 <= ma[ia].0,
        pa.0 <= pa.1 <= ma[ia].1,
        prev.1 == gap_start(ma, ia).0,
        pa.1 == gap_start(ma, ia).1,
    ensures
        ({
            let c = run_range(ma[ia]);
            let e = at_common(t, base, mine, base, c, shift_into(c, ma[ia]), c, prev, pa, prev);
            forall|i: int| 0 <= i < e.len() ==> by_mine(#[trigger] e[i])
        }),
{
    reveal(runs_tight);
    let a = ma[ia];
    let c = run_range(a);
    let ca = shift_into(c, a);
    let o = fragment(t, base, c, prev);
    let am = fragment(t, mine, ca, pa);
    let e = at_common(t, base, mine, base, c, ca, c, prev, pa, prev);
    let k = classify(o, am, o);
    if am == o && o.is_some() {
        let g = gap_start(ma, ia);
        assert(g.0 < a.0 && g.1 < a.1);
        assert(base[g.0] != mine[g.1]);
        let x = base.subrange(prev.1 as int, c.0 as int);
        let y = mine.subrange(pa.1 as int, ca.0 as int);
        assert(x[0] == base[g.0]);
        assert(y[0] == mine[g.1]);
        lemma_resolve_heads_differ(t, x, y);
        assert(false);
    }
    assert(e.drop_last() =~= k);
    assert forall|i: int| 0 <= i < e.len() implies by_mine(#[trigger] e[i]) by {
        if i < k.len() {
            assert(e[i] == k[i]);
            assert(k[i] == change(Author::Mine, o, am));
        }
    }
}

/// One-sided change, walk by walk: when yours is base itself, matched along
/// the diagonal, and mine's runs leave no gap pair that starts alike, the
/// walk emits only unchanged blocks and changes by mine.
pub proof fn lemma_walk_by_mine(
    t: Seq<Seq<char>>,
    base: Seq<usize>,
    mine: Seq<usize>,
    ma: Seq<Run>,
    ia: int,
    ib: int,
    prev: Range,
    pa: Range,
)
    requires
        table_ok(t),
        base.len() <= usize::MAX,
        mine.len() <= usize::MAX,
        forall|i: int| 0 <= i < base.len() - 1 ==> 1 <= #[trigger] base[i] < t.len(),
        forall|i: int| 0 <= i < mine.len() - 1 ==> 1 <= #[trigger] mine[i] < t.len(),
        runs_anchored(base, mine, ma),
        runs_tight(base, mine, ma),
        0 <= ia,
        0 <= ib,
        prev.0 <= prev.1,
        pa.0 <= pa.1,
        ia < ma.len() && ib < identity_anchor(base.len()).len() ==> {
            let mb = identity_anchor(base.len());
            ||| prev.1 == gap_start(ma, ia).0 && pa.1 == gap_start(ma, ia).1 && mb[ib].0 <= ma[ia].0
            ||| prev == run_range(ma[ia]) && pa.1 == ma[ia].1 + ma[ia].2 && mb[ib].0 == prev.1
        },
    ensures
        ({
            let w = walk(t, base, mine, base, ma, identity_anchor(base.len()), ia, ib, prev, pa, prev);
            forall|i: int| 0 <= i < w.len() ==> by_mine(#[trigger] w[i])
        }),
    decreases (ma.len() - ia) + (identity_anchor(base.len()).len() - ib),
{
    let mb = identity_anchor(base.len());
    let w = walk(t, base, mine, base, ma, mb, ia, ib, prev, pa, prev);
    lemma_identity_anchor_facts(base.len());
    if ia >= ma.len() || ib >= mb.len() {
        lemma_walk_end(t, base, mine, base, ma, mb, ia, ib, prev, pa, prev);
    } else {
        let n = base.len() - 1;
        let la = ma.len() - 2;
        let a = ma[ia];
        let b = mb[ib];
        assert(is_match(base, mine, a));
        assert(is_match(base, mine, ma[la]));
        if ia < la {
            assert(ma[ia].0 + ma[ia].2 <= ma[la].0);
            assert(ma[ia].2 > 0) by {
                reveal(runs_tight);
            }
        }
        if ia + 1 < ma.len() {
            assert(ma[ia].0 + ma[ia].2 <= ma[ia + 1].0);
            assert(ma[ia].1 + ma[ia].2 <= ma[ia + 1].1);
        }
        if ia == la + 1 {
            assert(ma[ia] == (base.len() as usize, mine.len() as usize, 0usize));
        }
        lemma_walk_step(t, base, mine, base, ma, mb, ia, ib, prev, pa, prev);
        let ab = run_range(a);
        let bb = run_range(b);
        let na = if ab.1 < bb.1 { ia + 1 } else { ia };
        let nb = if ab.1 < bb.1 { ib } else { ib + 1 };
        match ab.spec_intersect(bb) {
            Some(c) => {
                assert(c == ab);
                let ca = shift_into(c, a);
                let cb = shift_into(c, b);
                assert(cb == c);
                let e = at_common(t, base, mine, base, c, ca, cb, prev, pa, prev);
                lemma_emit_by_mine(t, base, mine, ma, ia, prev, pa);
                lemma_walk_by_mine(t, base, mine, ma, na, nb, c, ca);
                let rest = walk(t, base, mine, base, ma, mb, na, nb, c, ca, c);
                assert(w == e + rest);
                assert forall|i: int| 0 <= i < w.len() implies by_mine(#[trigger] w[i]) by {
                    if i < e.len() {
                        assert(w[i] == e[i]);
                    } else {
                        assert(w[i] == rest[i - e.len()]);
                    }
                }
            },
            None => {
                lemma_walk_by_mine(t, base, mine, ma, na, nb, prev, pa);
            },
        }
    }
}

/// A block whose texts are all there: a change carries non-empty text, and
/// a conflict three different texts.
pub open spec fn well_formed(d: DiffView) -> bool {
    match d {
        DiffView::NotChanged(_) => true,
        DiffView::Add(_, x) => x.len() > 0,
        DiffView::Remove(_, o) => o.len() > 0,
        DiffView::Modify(_, o, x) => o.len() > 0 && x.len() > 0,
        DiffView::Conflict(o, a, b) => o != a && a != b && o != b,
    }
}

/// A fragment, where there is one, is non-empty text.
proof fn lemma_fragment_nonempty(table: Seq<Seq<char>>, toks: Seq<usize>, cur: Range, prev: Range)
    requires
        cur.0 <= cur.1 <= toks.len(),
        prev.0 <= prev.1 <= toks.len(),
    ensures
        fragment(table, toks, cur, prev) matches Some(s) ==> s.len() > 0,
{
    match cur.spec_get_between(prev) {
        Some(g) => {
            let x = toks.subrange(g.0 as int, g.1 as int);
            assert(x.len() > 0);
            assert(resolve(table, x) == resolve(table, x.drop_last()) + table[x.last() as int] + seq!['\n']);
        },
        None => {},
    }
}

/// Every block that the walk emits is well formed.
pub proof fn lemma_walk_well_formed(
    table: Seq<Seq<char>>,
    base: Seq<usize>,
    mine: Seq<usize>,
    yours: Seq<usize>,
    ma: Seq<Run>,
    mb: Seq<Run>,
    ia: int,
    ib: int,
    prev: Range,
    pa: Range,
    pb: Range,
)
    requires
        base.len() <= usize::MAX,
        mine.len() <= usize::MAX,
        yours.len() <= usize::MAX,
        runs_valid(base, mine, ma),
        runs_valid(base, yours, mb),
        prev.0 <= prev.1 <= base.len(),
        pa.0 <= pa.1 <= mine.len(),
        pb.0 <= pb.1 <= yours.len(),
    ensures
        forall|i: int|
            0 <= i < walk(table, base, mine, yours, ma, mb, ia, ib, prev, pa, pb).len() ==> well_formed(
                #[trigger] walk(table, base, mine, yours, ma, mb, ia, ib, prev, pa, pb)[i],
            ),
    decreases (ma.len() - ia) + (mb.len() - ib),
{
    let w = walk(table, base, mine, yours, ma, mb, ia, ib, prev, pa, pb);
    if ia < 0 || ib < 0 || ia >= ma.len() || ib >= mb.len() {
        lemma_walk_end(table, base, mine, yours, ma, mb, ia, ib, prev, pa, pb);
    } else {
        lemma_walk_step(table, base, mine, yours, ma, mb, ia, ib, prev, pa, pb);
        let ab = run_range(ma[ia]);
        let bb = run_range(mb[ib]);
        let na = if ab.1 < bb.1 { ia + 1 } else { ia };
        let nb = if ab.1 < bb.1 { ib } else { ib + 1 };
        assert(is_match(base, mine, ma[ia]));
        assert(is_match(base, yours, mb[ib]));
        match ab.spec_intersect(bb) {
            Some(c) => {
                let ca = shift_into(c, ma[ia]);
                let cb = shift_into(c, mb[ib]);
                let o = fragment(table, base, c, prev);
                let a = fragment(table, mine, ca, pa);
                let b = fragment(table, yours, cb, pb);
                lemma_fragment_nonempty(table, base, c, prev);
                lemma_fragment_nonempty(table, mine, ca, pa);
                lemma_fragment_nonempty(table, yours, cb, pb);
                let e = at_common(table, base, mine, yours, c, ca, cb, prev, pa, pb);
                let k = classify(o, a, b);
                lemma_walk_well_formed(table, base, mine, yours, ma, mb, na, nb, c, ca, cb);
                let rest = walk(table, base, mine, yours, ma, mb, na, nb, c, ca, cb);
                assert(w == e + rest);
                assert forall|i: int| 0 <= i < w.len() implies well_formed(#[trigger] w[i]) by {
                    if i < k.len() {
                        assert(w[i] == k[i]);
                        if o == b && a != b {
                            assert(k[i] == change(Author::Mine, o, a));
                        } else if o == a && a != b {
                            assert(k[i] == change(Author::Yours, o, b));
                        } else if a != b {
                            let e0 = Seq::<char>::empty();
                            assert(o.unwrap_or(e0) != a.unwrap_or(e0));
                            assert(o.unwrap_or(e0) != b.unwrap_or(e0));
                            assert(a.unwrap_or(e0) != b.unwrap_or(e0));
                        } else {
                            assert(k[i] == change(Author::Both, o, a));
                        }
                    } else if i >= e.len() {
                        assert(w[i] == rest[i - e.len()]);
                    }
                }
            },
            None => {
                lemma_walk_well_formed(table, base, mine, yours, ma, mb, na, nb, prev, pa, pb);
            },
        }
    }
}

/// A block that marks no disagreement: unchanged text, or a change made by
/// both sides.
pub open spec fn agreed(d: DiffView) -> bool {
    match d {
        DiffView::NotChanged(_) => true,
        DiffView::Add(w, _) => w == Author::Both,
        DiffView::Remove(w, _) => w == Author::Both,
        DiffView::Modify(w, _, _) => w == Author::Both,
        DiffView::Conflict(_, _, _) => false,
    }
}

/// Agreement: when both sides hold the same tokens and were matched against
/// base by the same runs, the walk only emits unchanged blocks and changes
/// made by both.
pub proof fn lemma_walk_agreement(
    table: Seq<Seq<char>>,
    base: Seq<usize>,
    x: Seq<usize>,
    ma: Seq<Run>,
    ia: int,
    ib: int,
    prev: Range,
    pa: Range,
)
    requires
        runs_valid(base, x, ma),
    ensures
        forall|i: int|
            0 <= i < walk(table, base, x, x, ma, ma, ia, ib, prev, pa, pa).len() ==> agreed(
                #[trigger] walk(table, base, x, x, ma, ma, ia, ib, prev, pa, pa)[i],
            ),
    decreases (ma.len() - ia) + (ma.len() - ib),
{
    let w = walk(table, base, x, x, ma, ma, ia, ib, prev, pa, pa);
    if ia < 0 || ib < 0 || ia >= ma.len() || ib >= ma.len() {
        lemma_walk_end(table, base, x, x, ma, ma, ia, ib, prev, pa, pa);
    } else {
        lemma_walk_step(table, base, x, x, ma, ma, ia, ib, prev, pa, pa);
        let ab = run_range(ma[ia]);
        let bb = run_range(ma[ib]);
        let na = if ab.1 < bb.1 { ia + 1 } else { ia };
        let nb = if ab.1 < bb.1 { ib } else { ib + 1 };
        assert(is_match(base, x, ma[ia]));
        assert(is_match(base, x, ma[ib]));
        if ia < ib {
            assert(ma[ia].0 + ma[ia].2 <= ma[ib].0);
        } else if ib < ia {
            assert(ma[ib].0 + ma[ib].2 <= ma[ia].0);
        }
        match ab.spec_intersect(bb) {
            Some(c) => {
                assert(ia == ib);
                let ca = shift_into(c, ma[ia]);
                let o = fragment(table, base, c, prev);
                let a = fragment(table, x, ca, pa);
                let e = at_common(table, base, x, x, c, ca, ca, prev, pa, pa);
                let k = classify(o, a, a);
                lemma_walk_agreement(table, base, x, ma, na, nb, c, ca);
                let rest = walk(table, base, x, x, ma, ma, na, nb, c, ca, ca);
                assert(w == e + rest);
                assert forall|i: int| 0 <= i < w.len() implies agreed(#[trigger] w[i]) by {
                    if i < k.len() {
                        assert(w[i] == k[i]);
                        assert(k[i] == change(Author::Both, o, a));
                    } else if i >= e.len() {
                        assert(w[i] == rest[i - e.len()]);
                    }
                }
            },
            None => {
                lemma_walk_agreement(table, base, x, ma, na, nb, prev, pa);
            },
        }
    }
}

} // verus!
