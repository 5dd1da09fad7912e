use vstd::prelude::*;

use difflib::sequencematcher::SequenceMatcher;

verus! {

/// A match run `(first_start, second_start, size)`.
pub type Run = (usize, usize, usize);

/// The matching blocks that difflib's `SequenceMatcher` finds between two
/// token sequences.
pub uninterp spec fn blocks_of(a: Seq<usize>, b: Seq<usize>) -> Seq<Run>;

/// `a[i..i + n] == b[j..j + n]`, inside both sequences.
pub open spec fn is_match(a: Seq<usize>, b: Seq<usize>, run: Run) -> bool {
    &&& run.0 + run.2 <= a.len()
    &&& run.1 + run.2 <= b.len()
    &&& forall|k: int| 0 <= k < run.2 ==> #[trigger] a[run.0 + k] == b[run.1 + k]
}

/// Runs that match, ordered and apart in both sequences, closed by the
/// empty run `(a.len(), b.len(), 0)`.
pub open spec fn runs_valid(a: Seq<usize>, b: Seq<usize>, runs: Seq<Run>) -> bool {
    &&& runs.len() >= 1
    &&& runs.last() == (a.len() as usize, b.len() as usize, 0usize)
    &&& forall|k: int| 0 <= k < runs.len() ==> is_match(a, b, #[trigger] runs[k])
    &&& forall|j: int, k: int|
        #![trigger runs[j], runs[k]]
        0 <= j < k < runs.len() ==> {
            &&& runs[j].0 + runs[j].2 <= runs[k].0
            &&& runs[j].1 + runs[j].2 <= runs[k].1
        }
}

/// Where the gap before run `k` begins, in each sequence.
pub open spec fn gap_start(runs: Seq<Run>, k: int) -> (int, int) {
    if k == 0 {
        (0, 0)
    } else {
        (runs[k - 1].0 + runs[k - 1].2, runs[k - 1].1 + runs[k - 1].2)
    }
}

#[verifier::opaque]
/// Every run but the last is non-empty, and no gap between runs that is
/// non-empty on both sides begins with equal tokens.
pub open spec fn runs_tight(a: Seq<usize>, b: Seq<usize>, runs: Seq<Run>) -> bool {
    &&& forall|k: int| 0 <= k < runs.len() - 1 ==> (#[trigger] runs[k]).2 > 0
    &&& forall|k: int|
        0 <= k < runs.len() ==> {
            let g = gap_start(runs, k);
            g.0 < (#[trigger] runs[k]).0 && g.1 < runs[k].1 ==> a[g.0] != b[g.1]
        }
}

/// The runs of two equal sequences: one run over
/// all of it, if anything, then the closing run.
pub open spec fn identity_runs(n: nat) -> Seq<Run> {
    if n == 0 {
        seq![(0usize, 0usize, 0usize)]
    } else {
        seq![(0usize, 0usize, n as usize), (n as usize, n as usize, 0usize)]
    }
}

/// Relies on `SequenceMatcher::get_matching_blocks`: non-overlapping matches
/// in increasing order in both sequences, closed by `(a.len(), b.len(), 0)`.
/// On two equal sequences no match off the diagonal is ever longer than the
/// diagonal one ending in the same row, so the first longest match lies on
/// the diagonal, and the extension loops carry it over both whole sequences:
/// they match as one block.
#[verifier::external_body]
fn get_matching_blocks(a: &[usize], b: &[usize]) -> (r: Vec<Run>)
    ensures
        r@ == blocks_of(a@, b@),
        runs_valid(a@, b@, r@),
        runs_tight(a@, b@, r@),
        a@ == b@ ==> r@ == identity_runs(a@.len()),
{
    let mut matcher = SequenceMatcher::new(a, b);
    matcher.get_matching_blocks().into_iter().map(|m| (m.first_start, m.second_start, m.size)).collect()
}

/// The runs for two sentinel-terminated sequences: difflib's runs over the
/// sequences without their sentinels, with its closing run replaced by a
/// one-token run over the two sentinels and a closing run past both ends.
pub open spec fn anchored_runs(a: Seq<usize>, b: Seq<usize>) -> Seq<Run> {
    anchor(a, b, blocks_of(a.drop_last(), b.drop_last()))
}

/// The anchored runs of two equal sequences of `n` tokens, the sentinel
/// included: one run over the lines, if any, then the sentinel run and the
/// closing run.
pub open spec fn identity_anchor(n: nat) -> Seq<Run> {
    if n <= 1 {
        seq![(0usize, 0usize, 1usize), (1usize, 1usize, 0usize)]
    } else {
        let m = (n - 1) as usize;
        seq![(0usize, 0usize, m), (m, m, 1usize), (n as usize, n as usize, 0usize)]
    }
}

/// Valid runs whose next-to-last run pairs the two final tokens.
pub open spec fn runs_anchored(a: Seq<usize>, b: Seq<usize>, runs: Seq<Run>) -> bool {
    &&& runs_valid(a, b, runs)
    &&& runs.len() >= 2
    &&& a.len() >= 1
    &&& b.len() >= 1
    &&& runs[runs.len() - 2] == ((a.len() - 1) as usize, (b.len() - 1) as usize, 1usize)
}

/// Runs over two sequences without their final tokens, with the closing run
/// replaced by a one-token run over the final tokens and a closing run past
/// both ends.
pub open spec fn anchor(a: Seq<usize>, b: Seq<usize>, inner: Seq<Run>) -> Seq<Run> {
    inner.drop_last()
        .push(((a.len() - 1) as usize, (b.len() - 1) as usize, 1usize))
        .push((a.len() as usize, b.len() as usize, 0usize))
}

proof fn lemma_anchor_valid(a: Seq<usize>, b: Seq<usize>, inner: Seq<Run>)
    requires
        1 <= a.len() <= usize::MAX,
        1 <= b.len() <= usize::MAX,
        a.last() == 0,
        b.last() == 0,
        runs_valid(a.drop_last(), b.drop_last(), inner),
    ensures
        runs_anchored(a, b, anchor(a, b, inner)),
{
    let a_body = a.drop_last();
    let b_body = b.drop_last();
    let r = anchor(a, b, inner);
    assert forall|k: int| 0 <= k < r.len() implies is_match(a, b, #[trigger] r[k]) by {
        if k < r.len() - 2 {
            assert(r[k] == inner[k]);
            assert(is_match(a_body, b_body, inner[k]));
            assert forall|m: int| 0 <= m < r[k].2 implies #[trigger] a[r[k].0 + m] == b[r[k].1 + m] by {
                assert(a_body[r[k].0 + m] == b_body[r[k].1 + m]);
            }
        }
    }
    assert forall|j: int, k: int| 0 <= j < k < r.len() implies {
        &&& r[j].0 + r[j].2 <= r[k].0
        &&& r[j].1 + r[j].2 <= r[k].1
    } by {
        if j < r.len() - 2 {
            assert(r[j] == inner[j]);
            assert(is_match(a_body, b_body, inner[j]));
            if k < r.len() - 2 {
                assert(r[k] == inner[k]);
            }
        }
    }
}

proof fn lemma_anchor_tight(a: Seq<usize>, b: Seq<usize>, inner: Seq<Run>)
    requires
        1 <= a.len() <= usize::MAX,
        1 <= b.len() <= usize::MAX,
        inner.len() >= 1,
        inner.last() == ((a.len() - 1) as usize, (b.len() - 1) as usize, 0usize),
        forall|k: int| 0 <= k < inner.len() ==> is_match(a.drop_last(), b.drop_last(), #[trigger] inner[k]),
        runs_tight(a.drop_last(), b.drop_last(), inner),
    ensures
        runs_tight(a, b, anchor(a, b, inner)),
{
    reveal(runs_tight);
    let a_body = a.drop_last();
    let b_body = b.drop_last();
    let r = anchor(a, b, inner);
    assert forall|k: int| 0 <= k < r.len() implies {
        let g = gap_start(r, k);
        g.0 < (#[trigger] r[k]).0 && g.1 < r[k].1 ==> a[g.0] != b[g.1]
    } by {
        if k < r.len() - 1 {
            if k > 0 {
                assert(r[k - 1] == inner[k - 1]);
            }
            assert(gap_start(r, k) == gap_start(inner, k));
            let g = gap_start(inner, k);
            if k < r.len() - 2 {
                assert(r[k] == inner[k]);
            }
            assert(is_match(a_body, b_body, inner[k]));
            if g.0 < r[k].0 && g.1 < r[k].1 {
                assert(g.0 < inner[k].0 && g.1 < inner[k].1);
                assert(a_body[g.0] != b_body[g.1]);
            }
        } else {
            assert(r[k - 1].0 + r[k - 1].2 == r[k].0);
        }
    }
    assert forall|k: int| 0 <= k < r.len() - 1 implies (#[trigger] r[k]).2 > 0 by {
        if k < r.len() - 2 {
            assert(r[k] == inner[k]);
        }
    }
}

/// Matching runs of two sequences that both end with the sentinel `0`.
pub fn matching_runs(a: &Vec<usize>, b: &Vec<usize>) -> (r: Vec<Run>)
    requires
        a@.len() >= 1,
        b@.len() >= 1,
        a@.last() == 0,
        b@.last() == 0,
    ensures
        r@ == anchored_runs(a@, b@),
        runs_anchored(a@, b@, r@),
        runs_tight(a@, b@, r@),
        a@ == b@ ==> r@ == identity_anchor(a@.len()),
{
    let la = a.len() - 1;
    let lb = b.len() - 1;
    let a_body = vstd::slice::slice_subrange(a.as_slice(), 0, la);
    let b_body = vstd::slice::slice_subrange(b.as_slice(), 0, lb);
    let mut runs = get_matching_blocks(a_body, b_body);
    let ghost inner = runs@;
    runs.pop();
    runs.push((la, lb, 1));
    runs.push((a.len(), b.len(), 0));
    proof {
        assert(a_body@ =~= a@.drop_last());
        assert(b_body@ =~= b@.drop_last());
        if a@ == b@ {
            assert(runs@ =~= identity_anchor(a@.len()));
        }
        assert(runs@ == anchor(a@, b@, inner));
        lemma_anchor_valid(a@, b@, inner);
        lemma_anchor_tight(a@, b@, inner);
    }
    runs
}

} // verus!
