use vstd::prelude::*;

use crate::interner::{
    extends, intern_text, interns, join_lines, lemma_reintern, lemma_resolve_lines, lines_of, resolve, table_ok,
    tokens_in, Munge,
};
use crate::laws::{
    agreed, base_parts, by_mine, lemma_walk_agreement, lemma_walk_base_coverage, lemma_walk_by_mine,
    lemma_walk_mine_coverage, lemma_walk_well_formed, mine_parts, well_formed,
};
use crate::matcher::{anchored_runs, identity_anchor, matching_runs, runs_anchored, runs_tight, runs_valid, Run};
use crate::range::Range;

verus! {

/// Which side made a change.
#[derive(Clone, Copy, Debug, PartialEq, Eq, Structural)]
pub enum Author {
    Mine,
    Yours,
    Both,
}

/// One block of a three-way merge.
#[derive(Clone, Debug, PartialEq, Eq)]
pub enum Difference {
    NotChanged(String),
    Add(Author, String),
    Remove(Author, String),
    Modify(Author, String, String),
    Conflict(String, String, String),
}

/// A `Difference` with its texts as character sequences.
pub enum DiffView {
    NotChanged(Seq<char>),
    Add(Author, Seq<char>),
    Remove(Author, Seq<char>),
    Modify(Author, Seq<char>, Seq<char>),
    Conflict(Seq<char>, Seq<char>, Seq<char>),
}

impl Difference {
    pub open spec fn view(&self) -> DiffView {
        match self {
            Difference::NotChanged(s) => DiffView::NotChanged(s@),
            Difference::Add(w, s) => DiffView::Add(*w, s@),
            Difference::Remove(w, s) => DiffView::Remove(*w, s@),
            Difference::Modify(w, o, s) => DiffView::Modify(*w, o@, s@),
            Difference::Conflict(o, a, b) => DiffView::Conflict(o@, a@, b@),
        }
    }
}

/// The views of a sequence of blocks.
pub open spec fn views(ds: Seq<Difference>) -> Seq<DiffView> {
    ds.map_values(|d: Difference| d.view())
}

pub open spec fn opt_view(s: Option<String>) -> Option<Seq<char>> {
    match s {
        Some(t) => Some(t@),
        None => None,
    }
}

/// The base-coordinate range of a run.
pub open spec fn run_range(r: Run) -> Range {
    Range(r.0, (r.0 + r.2) as usize)
}

/// A base-coordinate range inside run `r`, moved to the other sequence.
pub open spec fn shift_into(c: Range, r: Run) -> Range {
    Range((c.0 - r.0 + r.1) as usize, (c.1 - r.0 + r.1) as usize)
}

/// The text of `toks` strictly between the previous common range `prev` and
/// the current one `cur`, if they are apart.
pub open spec fn fragment(table: Seq<Seq<char>>, toks: Seq<usize>, cur: Range, prev: Range) -> Option<Seq<char>> {
    match cur.spec_get_between(prev) {
        Some(g) => Some(resolve(table, toks.subrange(g.0 as int, g.1 as int))),
        None => None,
    }
}

/// An addition, removal or modification by `author`, from the base fragment
/// `o` and the changed fragment `x`.
pub open spec fn change(author: Author, o: Option<Seq<char>>, x: Option<Seq<char>>) -> DiffView {
    match (o, x) {
        (Some(o), Some(x)) => DiffView::Modify(author, o, x),
        (Some(o), None) => DiffView::Remove(author, o),
        (_, Some(x)) => DiffView::Add(author, x),
        (None, None) => DiffView::Add(author, Seq::empty()),
    }
}

/// What the fragments of base (`o`), mine (`a`) and yours (`b`) since the
/// last common point amount to.
pub open spec fn classify(o: Option<Seq<char>>, a: Option<Seq<char>>, b: Option<Seq<char>>) -> Seq<DiffView> {
    if o == b && a != b {
        seq![change(Author::Mine, o, a)]
    } else if o == a && a != b {
        seq![change(Author::Yours, o, b)]
    } else if a != b {
        seq![DiffView::Conflict(
            o.unwrap_or(Seq::empty()),
            a.unwrap_or(Seq::empty()),
            b.unwrap_or(Seq::empty()),
        )]
    } else if o.is_some() || a.is_some() {
        seq![change(Author::Both, o, a)]
    } else {
        Seq::empty()
    }
}

#[verifier::opaque]
/// The blocks emitted by the merge walk from run `ma[ia]` and run `mb[ib]`
/// on, where `prev`, `pa` and `pb` are the last common range in base, mine
/// and yours coordinates.
pub open spec fn walk(
    table: Seq<Seq<char>>,
    base: Seq<usize>,
    mine: Seq<usize>,
    yours: Seq<usize>,
    ma: Seq<Run>,
    mb: Seq<Run>,
    ia: int,
    ib: int,
    prev: Range,
    pa: Range,
    pb: Range,
) -> Seq<DiffView>
    decreases (ma.len() - ia) + (mb.len() - ib),
{
    if ia < 0 || ib < 0 || ia >= ma.len() || ib >= mb.len() {
        Seq::empty()
    } else {
        let ab = run_range(ma[ia]);
        let bb = run_range(mb[ib]);
        let na = if ab.1 < bb.1 { ia + 1 } else { ia };
        let nb = if ab.1 < bb.1 { ib } else { ib + 1 };
        match ab.spec_intersect(bb) {
            Some(c) => {
                let ca = shift_into(c, ma[ia]);
                let cb = shift_into(c, mb[ib]);
                at_common(table, base, mine, yours, c, ca, cb, prev, pa, pb) + walk(table, base, mine, yours, ma, mb, na, nb, c, ca, cb)
            },
            None => walk(table, base, mine, yours, ma, mb, na, nb, prev, pa, pb),
        }
    }
}

/// One step of the walk: the blocks at the intersection of `ma[ia]` and
/// `mb[ib]`, if any, then the walk from the run that ends later.
pub proof fn lemma_walk_step(
    table: Seq<Seq<char>>,
    base: Seq<usize>,
    mine: Seq<usize>,
    yours: Seq<usize>,
    ma: Seq<Run>,
    mb: Seq<Run>,
    ia: int,
    ib: int,
    prev: Range,
    pa: Range,
    pb: Range,
)
    requires
        0 <= ia < ma.len(),
        0 <= ib < mb.len(),
    ensures
        ({
            let ab = run_range(ma[ia]);
            let bb = run_range(mb[ib]);
            let na = if ab.1 < bb.1 { ia + 1 } else { ia };
            let nb = if ab.1 < bb.1 { ib } else { ib + 1 };
            walk(table, base, mine, yours, ma, mb, ia, ib, prev, pa, pb) == match ab.spec_intersect(bb) {
                Some(c) => {
                    let ca = shift_into(c, ma[ia]);
                    let cb = shift_into(c, mb[ib]);
                    at_common(table, base, mine, yours, c, ca, cb, prev, pa, pb) + walk(
                        table, base, mine, yours, ma, mb, na, nb, c, ca, cb)
                },
                None => walk(table, base, mine, yours, ma, mb, na, nb, prev, pa, pb),
            }
        }),
{
    reveal(walk);
}

/// The walk past the end of either list of runs emits nothing.
pub proof fn lemma_walk_end(
    table: Seq<Seq<char>>,
    base: Seq<usize>,
    mine: Seq<usize>,
    yours: Seq<usize>,
    ma: Seq<Run>,
    mb: Seq<Run>,
    ia: int,
    ib: int,
    prev: Range,
    pa: Range,
    pb: Range,
)
    requires
        ia < 0 || ib < 0 || ia >= ma.len() || ib >= mb.len(),
    ensures
        walk(table, base, mine, yours, ma, mb, ia, ib, prev, pa, pb) == Seq::<DiffView>::empty(),
{
    reveal(walk);
}

/// Over the runs of a sequence against itself, the walk emits the lines as
/// one unchanged block, if there are any, then the sentinel as another.
pub proof fn lemma_identity_walk(table: Seq<Seq<char>>, x: Seq<usize>)
    requires
        1 <= x.len() <= usize::MAX,
    ensures
        ({
            let n = x.len() - 1;
            let w = walk_all(table, x, x, x, identity_anchor(x.len()), identity_anchor(x.len()));
            let last = DiffView::NotChanged(resolve(table, x.subrange(n, n + 1)));
            if n == 0 {
                w == seq![last]
            } else {
                w == seq![DiffView::NotChanged(resolve(table, x.subrange(0, n))), last]
            }
        }),
{
    let n = x.len() - 1;
    let r = identity_anchor(x.len());
    let z = Range(0, 0);
    let e = Seq::<DiffView>::empty();
    if n == 0 {
        let c = Range(0, 1);
        lemma_walk_step(table, x, x, x, r, r, 0, 0, z, z, z);
        lemma_walk_step(table, x, x, x, r, r, 0, 1, c, c, c);
        lemma_walk_end(table, x, x, x, r, r, 0, 2, c, c, c);
        assert(classify(None, None, None) == e);
        assert(at_common(table, x, x, x, c, c, c, z, z, z) =~= seq![
            DiffView::NotChanged(resolve(table, x.subrange(0, 1))),
        ]);
    } else {
        let c1 = Range(0, n as usize);
        let c2 = Range(n as usize, (n + 1) as usize);
        lemma_walk_step(table, x, x, x, r, r, 0, 0, z, z, z);
        lemma_walk_step(table, x, x, x, r, r, 0, 1, c1, c1, c1);
        lemma_walk_step(table, x, x, x, r, r, 1, 1, c1, c1, c1);
        lemma_walk_step(table, x, x, x, r, r, 1, 2, c2, c2, c2);
        lemma_walk_end(table, x, x, x, r, r, 1, 3, c2, c2, c2);
        assert(classify(None, None, None) == e);
        let w2 = at_common(table, x, x, x, c2, c2, c2, c1, c1, c1);
        assert(w2 =~= seq![DiffView::NotChanged(resolve(table, x.subrange(n, n + 1)))]);
        assert(at_common(table, x, x, x, c1, c1, c1, z, z, z) + (w2 + e) =~= seq![
            DiffView::NotChanged(resolve(table, x.subrange(0, n))),
            DiffView::NotChanged(resolve(table, x.subrange(n, n + 1))),
        ]);
    }
}

/// All that the merge walk emits over the runs `ma` and `mb`.
pub open spec fn walk_all(
    table: Seq<Seq<char>>,
    base: Seq<usize>,
    mine: Seq<usize>,
    yours: Seq<usize>,
    ma: Seq<Run>,
    mb: Seq<Run>,
) -> Seq<DiffView> {
    walk(table, base, mine, yours, ma, mb, 0, 0, Range(0, 0), Range(0, 0), Range(0, 0))
}

/// `s` without its last element, if it has one.
pub open spec fn without_last<T>(s: Seq<T>) -> Seq<T> {
    if s.len() == 0 { s } else { s.drop_last() }
}

/// The three-way merge of three texts: each interned in turn into one table,
/// base matched against mine and against yours, the walk over both sets of
/// runs, and its closing block over the end-of-text sentinel left out.
pub open spec fn merge_spec(base_text: Seq<char>, mine_text: Seq<char>, yours_text: Seq<char>) -> Seq<DiffView> {
    let (t1, base) = intern_text(seq![Seq::<char>::empty()], base_text);
    let (t2, mine) = intern_text(t1, mine_text);
    let (t3, yours) = intern_text(t2, yours_text);
    without_last(walk_all(t3, base, mine, yours, anchored_runs(base, mine), anchored_runs(base, yours)))
}

fn same_text(x: &Option<String>, y: &Option<String>) -> (r: bool)
    ensures
        r == (opt_view(*x) == opt_view(*y)),
{
    match (x, y) {
        (Some(p), Some(q)) => *p == *q,
        (None, None) => true,
        _ => false,
    }
}

fn text_or_empty(x: Option<String>) -> (r: String)
    ensures
        r@ == opt_view(x).unwrap_or(Seq::empty()),
{
    match x {
        Some(s) => s,
        None => String::new(),
    }
}

fn detect(author: Author, origin: Option<String>, other: Option<String>) -> (d: Difference)
    requires
        origin.is_some() || other.is_some(),
    ensures
        d.view() == change(author, opt_view(origin), opt_view(other)),
{
    match (origin, other) {
        (Some(o), Some(x)) => Difference::Modify(author, o, x),
        (Some(o), None) => Difference::Remove(author, o),
        (None, Some(x)) => Difference::Add(author, x),
        (None, None) => Difference::Add(author, String::new()),
    }
}

/// The text of `toks` strictly between the common ranges `prev` and `cur`.
fn between(munge: &Munge, toks: &Vec<usize>, cur: Range, prev: Range) -> (r: Option<String>)
    requires
        cur.0 <= cur.1 <= toks@.len(),
        prev.0 <= prev.1 <= toks@.len(),
        tokens_in(toks@, munge.table().len()),
    ensures
        opt_view(r) == fragment(munge.table(), toks@, cur, prev),
{
    match cur.get_between(prev) {
        Some(g) => Some(munge.nums_to_lines(toks, g)),
        None => None,
    }
}

/// The blocks emitted at a common range: what changed since the previous
/// one, then the common text itself.
pub open spec fn at_common(
    table: Seq<Seq<char>>,
    base: Seq<usize>,
    mine: Seq<usize>,
    yours: Seq<usize>,
    c: Range,
    ca: Range,
    cb: Range,
    prev: Range,
    pa: Range,
    pb: Range,
) -> Seq<DiffView> {
    let o = fragment(table, base, c, prev);
    let a = fragment(table, mine, ca, pa);
    let b = fragment(table, yours, cb, pb);
    classify(o, a, b).push(DiffView::NotChanged(resolve(table, base.subrange(c.0 as int, c.1 as int))))
}

fn sync_point(
    munge: &Munge,
    base: &Vec<usize>,
    mine: &Vec<usize>,
    yours: &Vec<usize>,
    common: Range,
    a_common: Range,
    b_common: Range,
    prev_common: Range,
    prev_a: Range,
    prev_b: Range,
    result: &mut Vec<Difference>,
)
    requires
        tokens_in(base@, munge.table().len()),
        tokens_in(mine@, munge.table().len()),
        tokens_in(yours@, munge.table().len()),
        common.0 <= common.1 <= base@.len(),
        a_common.0 <= a_common.1 <= mine@.len(),
        b_common.0 <= b_common.1 <= yours@.len(),
        prev_common.0 <= prev_common.1 <= base@.len(),
        prev_a.0 <= prev_a.1 <= mine@.len(),
        prev_b.0 <= prev_b.1 <= yours@.len(),
    ensures
        views(final(result)@) == views(old(result)@) + at_common(
            munge.table(), base@, mine@, yours@, common, a_common, b_common, prev_common, prev_a, prev_b,
        ),
{
    let o = between(munge, base, common, prev_common);
    let a = between(munge, mine, a_common, prev_a);
    let b = between(munge, yours, b_common, prev_b);
    let ghost emitted = classify(opt_view(o), opt_view(a), opt_view(b));
    let ghost before = result@;
    if same_text(&o, &b) && !same_text(&a, &b) {
        result.push(detect(Author::Mine, o, a));
    } else if same_text(&o, &a) && !same_text(&a, &b) {
        result.push(detect(Author::Yours, o, b));
    } else if !same_text(&a, &b) {
        result.push(Difference::Conflict(text_or_empty(o), text_or_empty(a), text_or_empty(b)));
    } else if o.is_some() || a.is_some() {
        result.push(detect(Author::Both, o, a));
    }
    assert(views(result@) =~= views(before) + emitted);
    let ghost mid = result@;
    result.push(Difference::NotChanged(munge.nums_to_lines(base, common)));
    assert(views(result@) =~= views(mid).push(views(result@).last()));
}

/// The merge walk over the runs of base against mine (`ma`) and of base
/// against yours (`mb`), every block it emits included.
pub fn merge_runs(
    munge: &Munge,
    base: &Vec<usize>,
    mine: &Vec<usize>,
    yours: &Vec<usize>,
    ma: &Vec<Run>,
    mb: &Vec<Run>,
) -> (r: Vec<Difference>)
    requires
        tokens_in(base@, munge.table().len()),
        tokens_in(mine@, munge.table().len()),
        tokens_in(yours@, munge.table().len()),
        runs_valid(base@, mine@, ma@),
        runs_valid(base@, yours@, mb@),
    ensures
        views(r@) == walk_all(munge.table(), base@, mine@, yours@, ma@, mb@),
{
    let ghost table = munge.table();
    let mut ia: usize = 0;
    let mut ib: usize = 0;
    let mut prev_common = Range(0, 0);
    let mut prev_a = Range(0, 0);
    let mut prev_b = Range(0, 0);
    let mut result: Vec<Difference> = Vec::new();
    while ia < ma.len() && ib < mb.len()
        invariant
            table == munge.table(),
            tokens_in(base@, table.len()),
            tokens_in(mine@, table.len()),
            tokens_in(yours@, table.len()),
            runs_valid(base@, mine@, ma@),
            runs_valid(base@, yours@, mb@),
            ia <= ma@.len(),
            ib <= mb@.len(),
            prev_common.0 <= prev_common.1 <= base@.len(),
            prev_a.0 <= prev_a.1 <= mine@.len(),
            prev_b.0 <= prev_b.1 <= yours@.len(),
            walk_all(table, base@, mine@, yours@, ma@, mb@) == views(result@) + walk(
                table, base@, mine@, yours@, ma@, mb@, ia as int, ib as int, prev_common, prev_a, prev_b,
            ),
        decreases (ma@.len() - ia) + (mb@.len() - ib),
    {
        let ghost old_views = views(result@);
        proof {
            lemma_walk_step(table, base@, mine@, yours@, ma@, mb@, ia as int, ib as int, prev_common, prev_a, prev_b);
        }
        let (ai, aj, an) = ma[ia];
        let (bi, bj, bn) = mb[ib];
        assert(crate::matcher::is_match(base@, mine@, ma@[ia as int]));
        assert(crate::matcher::is_match(base@, yours@, mb@[ib as int]));
        let a_block = Range(ai, ai + an);
        let b_block = Range(bi, bi + bn);
        if let Some(common) = a_block.intersect(b_block) {
            let a_common = Range(common.0 - ai + aj, common.1 - ai + aj);
            let b_common = Range(common.0 - bi + bj, common.1 - bi + bj);
            sync_point(munge, base, mine, yours, common, a_common, b_common, prev_common, prev_a, prev_b, &mut result);
            proof {
                let e = at_common(table, base@, mine@, yours@, common, a_common, b_common, prev_common, prev_a, prev_b);
                let na = if a_block.1 < b_block.1 { ia + 1 } else { ia as int };
                let nb = if a_block.1 < b_block.1 { ib as int } else { ib + 1 };
                let w = walk(table, base@, mine@, yours@, ma@, mb@, na, nb, common, a_common, b_common);
                assert(old_views + (e + w) =~= (old_views + e) + w);
            }
            prev_common = common;
            prev_a = a_common;
            prev_b = b_common;
        }
        if a_block.1 < b_block.1 {
            ia += 1;
        } else {
            ib += 1;
        }
    }
    proof {
        lemma_walk_end(table, base@, mine@, yours@, ma@, mb@, ia as int, ib as int, prev_common, prev_a, prev_b);
    }
    assert(views(result@) =~= views(result@) + Seq::<DiffView>::empty());
    result
}

/// Interning a text a second time, into a table that has kept the entries its
/// first interning made, gives the same tokens.
proof fn lemma_interned_again(
    t0: Seq<Seq<char>>,
    t: Seq<Seq<char>>,
    first: Seq<usize>,
    second: Seq<usize>,
    text: Seq<char>,
)
    requires
        table_ok(t),
        interns(t0, first, text),
        extends(t, t0),
        second == intern_text(t, text).1,
    ensures
        second == first,
{
    let lines = lines_of(text);
    let toks = first.drop_last();
    assert forall|i: int| 0 <= i < lines.len() implies 1 <= #[trigger] toks[i] < t.len()
        && t[toks[i] as int] == lines[i] by {
        assert(toks[i] == first[i]);
        assert(t0[first[i] as int] == lines[i]);
    }
    lemma_reintern(t, lines, toks);
    assert(second =~= first);
}

/// The tokens of a text, read back through a table that has kept the entries
/// they name, give the text's lines joined.
proof fn lemma_text_of_tokens(t0: Seq<Seq<char>>, t: Seq<Seq<char>>, toks: Seq<usize>, text: Seq<char>)
    requires
        interns(t0, toks, text),
        extends(t, t0),
    ensures
        resolve(t, toks.subrange(0, toks.len() - 1)) == join_lines(lines_of(text)),
{
    let lines = lines_of(text);
    let s = toks.subrange(0, lines.len() as int);
    assert forall|i: int| 0 <= i < lines.len() implies #[trigger] t[s[i] as int] == lines[i] by {
        assert(s[i] == toks[i]);
        assert(t0[toks[i] as int] == lines[i]);
    }
    lemma_resolve_lines(t, s, lines);
}

/// The laws of the merge, from the facts that `diff` gathers on its way.
proof fn lemma_merge_laws(
    base_text: Seq<char>,
    mine_text: Seq<char>,
    yours_text: Seq<char>,
    t1: Seq<Seq<char>>,
    t2: Seq<Seq<char>>,
    t: Seq<Seq<char>>,
    base: Seq<usize>,
    mine: Seq<usize>,
    yours: Seq<usize>,
    ma: Seq<Run>,
    mb: Seq<Run>,
    r: Seq<DiffView>,
)
    requires
        interns(t1, base, base_text),
        interns(t2, mine, mine_text),
        extends(t, t1),
        extends(t, t2),
        base.len() <= usize::MAX,
        mine.len() <= usize::MAX,
        yours.len() <= usize::MAX,
        runs_anchored(base, mine, ma),
        runs_anchored(base, yours, mb),
        runs_tight(base, mine, ma),
        table_ok(t),
        ma == anchored_runs(base, mine),
        mb == anchored_runs(base, yours),
        mine_text == yours_text ==> yours == mine,
        yours_text == base_text ==> yours == base,
        base_text == mine_text ==> mine == base,
        base == yours ==> mb == identity_anchor(base.len()),
        base == mine ==> ma == identity_anchor(base.len()),
        r == without_last(walk_all(t, base, mine, yours, ma, mb)),
    ensures
        base_text == mine_text && mine_text == yours_text ==> r == (if lines_of(
            base_text,
        ).len() == 0 {
            Seq::<DiffView>::empty()
        } else {
            seq![DiffView::NotChanged(join_lines(lines_of(base_text)))]
        }),
        base_parts(r) == join_lines(lines_of(base_text)),
        mine_text == yours_text ==> forall|i: int| 0 <= i < r.len() ==> agreed(#[trigger] r[i]),
        mine_parts(r) == join_lines(lines_of(mine_text)),
        yours_text == base_text ==> forall|i: int|
            0 <= i < r.len() ==> by_mine(#[trigger] r[i]),
        forall|i: int| 0 <= i < r.len() ==> well_formed(#[trigger] r[i]),
{
    let lines = lines_of(base_text);
    let n = lines.len();
    let same = base_text == mine_text && mine_text == yours_text;
    let w = walk_all(t, base, mine, yours, ma, mb);
    lemma_text_of_tokens(t1, t, base, base_text);
    lemma_walk_base_coverage(t, base, mine, yours, ma, mb);
    lemma_text_of_tokens(t2, t, mine, mine_text);
    lemma_walk_mine_coverage(t, base, mine, yours, ma, mb);
    assert(r == w.drop_last());
    if yours_text == base_text {
        let z = Range(0, 0);
        assert forall|i: int| 0 <= i < base.len() - 1 implies 1 <= #[trigger] base[i] < t.len() by {
            assert(t[base[i] as int] == t1[base[i] as int]);
        }
        assert forall|i: int| 0 <= i < mine.len() - 1 implies 1 <= #[trigger] mine[i] < t.len() by {
            assert(t[mine[i] as int] == t2[mine[i] as int]);
        }
        lemma_walk_by_mine(t, base, mine, ma, 0, 0, z, z);
        assert forall|i: int| 0 <= i < r.len() implies by_mine(#[trigger] r[i]) by {
            assert(r[i] == w[i]);
        }
    }
    lemma_walk_well_formed(t, base, mine, yours, ma, mb, 0, 0, Range(0, 0), Range(0, 0), Range(0, 0));
    assert forall|i: int| 0 <= i < r.len() implies well_formed(#[trigger] r[i]) by {
        assert(r[i] == w[i]);
    }
    if mine_text == yours_text {
        let z = Range(0, 0);
        lemma_walk_agreement(t, base, mine, ma, 0, 0, z, z);
        assert forall|i: int| 0 <= i < r.len() implies agreed(#[trigger] r[i]) by {
            assert(r[i] == w[i]);
        }
    }
    if same {
        lemma_identity_walk(t, base);
        if n == 0 {
            assert(r =~= Seq::<DiffView>::empty());
        } else {
            assert(r =~= seq![DiffView::NotChanged(join_lines(lines))]);
        }
    }
}

/// Merges `mine_text` and `yours_text`, two edits of `base_text`, line by
/// line.
pub fn diff(base_text: &str, mine_text: &str, yours_text: &str) -> (r: Vec<Difference>)
    ensures
        views(r@) == merge_spec(base_text@, mine_text@, yours_text@),
        base_text@ == mine_text@ && mine_text@ == yours_text@
            ==> views(r@) == (if lines_of(base_text@).len() == 0 {
            Seq::<DiffView>::empty()
        } else {
            seq![DiffView::NotChanged(join_lines(lines_of(base_text@)))]
        }),
        base_parts(views(r@)) == join_lines(lines_of(base_text@)),
        mine_text@ == yours_text@ ==> forall|i: int| 0 <= i < r@.len() ==> agreed(#[trigger] views(r@)[i]),
        mine_parts(views(r@)) == join_lines(lines_of(mine_text@)),
        yours_text@ == base_text@ ==> forall|i: int|
            0 <= i < r@.len() ==> by_mine(#[trigger] views(r@)[i]),
        forall|i: int| 0 <= i < r@.len() ==> well_formed(#[trigger] views(r@)[i]),
{
    let mut munge = Munge::new();
    let base = munge.lines_to_nums(base_text);
    let ghost t1 = munge.table();
    let mine = munge.lines_to_nums(mine_text);
    let ghost t2 = munge.table();
    let yours = munge.lines_to_nums(yours_text);
    proof {
        if mine_text@ == yours_text@ {
            lemma_interned_again(t2, t2, mine@, yours@, mine_text@);
        }
        if yours_text@ == base_text@ {
            lemma_interned_again(t1, t2, base@, yours@, base_text@);
        }
        if base_text@ == mine_text@ {
            lemma_interned_again(t1, t1, base@, mine@, base_text@);
        }
    }
    proof {
        assert(tokens_in(base@, munge.table().len()));
        assert(tokens_in(mine@, munge.table().len()));
    }
    let ma = matching_runs(&base, &mine);
    let mb = matching_runs(&base, &yours);
    // the token vectors' lengths are `usize` values
    let base_len = base.len();
    let mine_len = mine.len();
    let yours_len = yours.len();
    assert(base@.len() == base_len && mine@.len() == mine_len && yours@.len() == yours_len);
    let mut result = merge_runs(&munge, &base, &mine, &yours, &ma, &mb);
    let ghost all = result@;
    result.pop();
    proof {
        if all.len() > 0 {
            assert(views(result@) =~= views(all).drop_last());
        }
        assert(views(result@) == without_last(walk_all(munge.table(), base@, mine@, yours@, ma@, mb@)));
        lemma_merge_laws(
            base_text@, mine_text@, yours_text@, t1, t2, munge.table(), base@, mine@, yours@, ma@, mb@,
            views(result@),
        );
    }
    result
}

} // verus!
