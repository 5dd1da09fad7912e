use vstd::prelude::*;

use vstd::string::StringExecFns;

use crate::range::Range;

verus! {

/// The text cut at every newline, the newlines dropped: one piece more than
/// there are newlines.
pub open spec fn pieces(text: Seq<char>) -> Seq<Seq<char>>
    decreases text.len(),
{
    if text.len() == 0 {
        seq![Seq::<char>::empty()]
    } else if text.last() == '\n' {
        pieces(text.drop_last()).push(Seq::empty())
    } else {
        let p = pieces(text.drop_last());
        p.update(p.len() - 1, p.last().push(text.last()))
    }
}

/// A line with the carriage return of a `\r\n` ending dropped.
pub open spec fn strip_cr(line: Seq<char>) -> Seq<char> {
    if line.len() > 0 && line.last() == '\r' {
        line.drop_last()
    } else {
        line
    }
}

/// The lines of a text: the pieces between newlines, a carriage return just
/// before a newline dropped, and no empty piece after a final newline.
pub open spec fn lines_of(text: Seq<char>) -> Seq<Seq<char>> {
    let p = pieces(text);
    let body = p.drop_last().map_values(|l: Seq<char>| strip_cr(l));
    if p.last().len() == 0 {
        body
    } else {
        body.push(p.last())
    }
}

/// No piece of a text holds a newline, and there is at least one.
pub proof fn lemma_pieces_no_newline(text: Seq<char>)
    ensures
        pieces(text).len() >= 1,
        forall|k: int| 0 <= k < pieces(text).len() ==> no_newline(#[trigger] pieces(text)[k]),
    decreases text.len(),
{
    if text.len() > 0 {
        lemma_pieces_no_newline(text.drop_last());
        let p = pieces(text.drop_last());
        if text.last() != '\n' {
            let q = p.update(p.len() - 1, p.last().push(text.last()));
            assert forall|k: int| 0 <= k < q.len() implies no_newline(#[trigger] q[k]) by {
                if k == q.len() - 1 {
                    assert(no_newline(p[k]));
                    assert forall|i: int| 0 <= i < q[k].len() implies q[k][i] != '\n' by {
                        if i < p[k].len() {
                            assert(q[k][i] == p[k][i]);
                        }
                    }
                }
            }
        } else {
            let q = p.push(Seq::<char>::empty());
            assert forall|k: int| 0 <= k < q.len() implies no_newline(#[trigger] q[k]) by {
                if k < p.len() {
                    assert(q[k] == p[k]);
                }
            }
        }
    }
}

/// No line of a text holds a newline.
pub proof fn lemma_lines_no_newline(text: Seq<char>)
    ensures
        forall|k: int| 0 <= k < lines_of(text).len() ==> no_newline(#[trigger] lines_of(text)[k]),
{
    lemma_pieces_no_newline(text);
    let p = pieces(text);
    assert forall|k: int| 0 <= k < lines_of(text).len() implies no_newline(#[trigger] lines_of(text)[k]) by {
        if k < p.len() - 1 {
            assert(no_newline(p[k]));
            assert(lines_of(text)[k] == strip_cr(p[k]));
            assert forall|i: int| 0 <= i < strip_cr(p[k]).len() implies strip_cr(p[k])[i] != '\n' by {
                assert(strip_cr(p[k])[i] == p[k][i]);
            }
        } else {
            assert(lines_of(text)[k] == p[k]);
        }
    }
}

/// No newline in `s`.
pub open spec fn no_newline(s: Seq<char>) -> bool {
    forall|i: int| 0 <= i < s.len() ==> s[i] != '\n'
}

/// Relies on `str::lines`: lines end at `\n` or `\r\n`, terminators are
/// dropped, and a final line ending is optional.
#[verifier::external_body]
fn split_lines(text: &str) -> (r: Vec<String>)
    ensures
        r@.len() == lines_of(text@).len(),
        forall|i: int| 0 <= i < r@.len() ==> #[trigger] r@[i]@ == lines_of(text@)[i],
{
    text.lines().map(|line| line.to_string()).collect()
}

/// The text of a run of tokens: each token's line followed by a newline.
pub open spec fn resolve(table: Seq<Seq<char>>, toks: Seq<usize>) -> Seq<char>
    decreases toks.len(),
{
    if toks.len() == 0 {
        Seq::empty()
    } else {
        resolve(table, toks.drop_last()) + table[toks.last() as int] + seq!['\n']
    }
}

/// A text written back from its lines, a newline after each.
pub open spec fn join_lines(lines: Seq<Seq<char>>) -> Seq<char>
    decreases lines.len(),
{
    if lines.len() == 0 {
        Seq::empty()
    } else {
        join_lines(lines.drop_last()) + lines.last() + seq!['\n']
    }
}

/// Every token of `toks` names an entry of a table of `n` lines.
pub open spec fn tokens_in(toks: Seq<usize>, n: nat) -> bool {
    forall|i: int| 0 <= i < toks.len() ==> #[trigger] toks[i] < n
}

/// The tokens of a text followed by the end-of-text token `0`.
pub open spec fn interns(table: Seq<Seq<char>>, toks: Seq<usize>, text: Seq<char>) -> bool {
    let lines = lines_of(text);
    &&& toks.len() == lines.len() + 1
    &&& toks.last() == 0
    &&& forall|i: int| 0 <= i < lines.len() ==> 1 <= #[trigger] toks[i] < table.len()
        && table[toks[i] as int] == lines[i]
}

/// The table after interning `line`, and the token it got: the token that
/// already holds `line`, or else the next one.
pub open spec fn intern_one(table: Seq<Seq<char>>, line: Seq<char>) -> (Seq<Seq<char>>, usize) {
    if exists|k: int| 1 <= k < table.len() && table[k] == line {
        let k = choose|k: int| 1 <= k < table.len() && table[k] == line;
        (table, k as usize)
    } else {
        (table.push(line), table.len() as usize)
    }
}

/// The table after interning each of `lines` in order, and their tokens.
pub open spec fn intern_all(table: Seq<Seq<char>>, lines: Seq<Seq<char>>) -> (Seq<Seq<char>>, Seq<usize>)
    decreases lines.len(),
{
    if lines.len() == 0 {
        (table, Seq::empty())
    } else {
        let (t, toks) = intern_all(table, lines.drop_last());
        let (t2, k) = intern_one(t, lines.last());
        (t2, toks.push(k))
    }
}

/// The table after interning the lines of `text`, and the text's tokens
/// followed by the sentinel `0`.
pub open spec fn intern_text(table: Seq<Seq<char>>, text: Seq<char>) -> (Seq<Seq<char>>, Seq<usize>) {
    let (t, toks) = intern_all(table, lines_of(text));
    (t, toks.push(0))
}

/// `new` keeps every entry of `old` in place and may add more after them.
pub open spec fn extends(new: Seq<Seq<char>>, old: Seq<Seq<char>>) -> bool {
    &&& old.len() <= new.len()
    &&& forall|k: int| 0 <= k < old.len() ==> #[trigger] new[k] == old[k]
}

/// The sentinel holds the empty line, no two other tokens hold the same
/// line, and no line holds a newline.
pub open spec fn table_ok(t: Seq<Seq<char>>) -> bool {
    &&& t.len() >= 1
    &&& forall|k: int| 0 <= k < t.len() ==> no_newline(#[trigger] t[k])
    &&& t[0] == Seq::<char>::empty()
    &&& forall|i: int, j: int|
        1 <= i < t.len() && 1 <= j < t.len() && i != j ==> #[trigger] t[i] != #[trigger] t[j]
}

/// Interning lines whose tokens the table already holds changes nothing and
/// gives those tokens back.
pub proof fn lemma_reintern(t: Seq<Seq<char>>, lines: Seq<Seq<char>>, toks: Seq<usize>)
    requires
        table_ok(t),
        toks.len() == lines.len(),
        forall|i: int| 0 <= i < lines.len() ==> 1 <= #[trigger] toks[i] < t.len() && t[toks[i] as int] == lines[i],
    ensures
        intern_all(t, lines) == (t, toks),
    decreases lines.len(),
{
    if lines.len() == 0 {
        assert(toks =~= Seq::<usize>::empty());
    } else {
        let n = lines.len() - 1;
        lemma_reintern(t, lines.drop_last(), toks.drop_last());
        let k = toks[n];
        assert(1 <= k < t.len() && t[k as int] == lines.last());
        let c = choose|c: int| 1 <= c < t.len() && t[c] == lines.last();
        assert(c == k as int);
        assert(toks.drop_last().push(k) =~= toks);
    }
}

/// The text of the tokens of some lines is those lines, joined.
pub proof fn lemma_resolve_lines(t: Seq<Seq<char>>, toks: Seq<usize>, lines: Seq<Seq<char>>)
    requires
        toks.len() == lines.len(),
        forall|i: int| 0 <= i < lines.len() ==> #[trigger] t[toks[i] as int] == lines[i],
    ensures
        resolve(t, toks) == join_lines(lines),
    decreases lines.len(),
{
    if lines.len() > 0 {
        let n = lines.len() - 1;
        assert(t[toks[n] as int] == lines[n]);
        lemma_resolve_lines(t, toks.drop_last(), lines.drop_last());
    }
}

/// Interning table: token `k` stands for line `lines[k]`; token `0` is the
/// end-of-text sentinel and stands for the empty line.
pub struct Munge {
    lines: Vec<String>,
}

impl Munge {
    /// The line behind each token.
    pub closed spec fn table(&self) -> Seq<Seq<char>> {
        self.lines@.map_values(|s: String| s@)
    }

    /// The sentinel holds the empty line, and no two other tokens hold the
    /// same line.
    pub open spec fn wf(&self) -> bool {
        table_ok(self.table())
    }

    pub fn new() -> (m: Munge)
        ensures
            m.wf(),
            m.table() == seq![Seq::<char>::empty()],
    {
        let mut lines: Vec<String> = Vec::new();
        lines.push(String::new());
        let m = Munge { lines };
        assert(m.table() =~= seq![Seq::<char>::empty()]);
        m
    }

    /// The token of `line`, allocating the next one on first sight.
    fn intern_line(&mut self, line: String) -> (t: usize)
        requires
            old(self).wf(),
            no_newline(line@),
        ensures
            final(self).wf(),
            (final(self).table(), t) == intern_one(old(self).table(), line@),
            1 <= t < final(self).table().len(),
            final(self).table()[t as int] == line@,
            final(self).table().len() <= old(self).table().len() + 1,
            extends(final(self).table(), old(self).table()),
    {
        let n = self.lines.len();
        let mut k: usize = 1;
        while k < n
            invariant
                n == self.lines@.len(),
                self.wf(),
                1 <= k <= n,
                forall|i: int| 1 <= i < k ==> #[trigger] self.table()[i] != line@,
            decreases n - k,
        {
            if self.lines[k] == line {
                proof {
                    let c = choose|c: int| 1 <= c < self.table().len() && self.table()[c] == line@;
                    assert(self.table()[k as int] == line@);
                }
                return k;
            }
            k += 1;
        }
        let ghost before = self.table();
        self.lines.push(line);
        assert(self.table() =~= before.push(line@));
        n
    }

    /// The tokens of each line of `text`, followed by the sentinel `0`.
    pub fn lines_to_nums(&mut self, text: &str) -> (nums: Vec<usize>)
        requires
            old(self).wf(),
        ensures
            final(self).wf(),
            (final(self).table(), nums@) == intern_text(old(self).table(), text@),
            nums@.len() >= 1,
            nums@.last() == 0,
            tokens_in(nums@, final(self).table().len()),
            interns(final(self).table(), nums@, text@),
            final(self).table().len() <= old(self).table().len() + lines_of(text@).len(),
            extends(final(self).table(), old(self).table()),
    {
        let lines = split_lines(text);
        proof {
            lemma_lines_no_newline(text@);
        }
        let ghost start = self.table();
        let mut nums: Vec<usize> = Vec::new();
        let mut i: usize = 0;
        assert(lines_of(text@).take(0) =~= Seq::<Seq<char>>::empty());
        while i < lines.len()
            invariant
                self.wf(),
                lines@.len() == lines_of(text@).len(),
                forall|j: int| 0 <= j < lines@.len() ==> #[trigger] lines@[j]@ == lines_of(text@)[j],
                forall|j: int| 0 <= j < lines@.len() ==> no_newline(#[trigger] lines@[j]@),
                (self.table(), nums@) == intern_all(start, lines_of(text@).take(i as int)),
                0 <= i <= lines@.len(),
                nums@.len() == i,
                self.table().len() <= start.len() + i,
                extends(self.table(), start),
                forall|j: int| 0 <= j < i ==> 1 <= #[trigger] nums@[j] < self.table().len()
                    && self.table()[nums@[j] as int] == lines_of(text@)[j],
            decreases lines@.len() - i,
        {
            let ghost prev = self.table();
            let t = self.intern_line(lines[i].clone());
            assert forall|j: int| 0 <= j < i implies 1 <= #[trigger] nums@[j] < self.table().len()
                && self.table()[nums@[j] as int] == lines_of(text@)[j] by {
                assert(self.table()[nums@[j] as int] == prev[nums@[j] as int]);
            }
            nums.push(t);
            i += 1;
            assert(lines_of(text@).take(i as int).drop_last() =~= lines_of(text@).take(i - 1));
        }
        assert(lines_of(text@).take(i as int) =~= lines_of(text@));
        nums.push(0);
        nums
    }

    /// The text of the tokens `nums[r.0..r.1]`.
    pub fn nums_to_lines(&self, nums: &Vec<usize>, r: Range) -> (text: String)
        requires
            r.0 <= r.1 <= nums@.len(),
            tokens_in(nums@, self.table().len()),
        ensures
            text@ == resolve(self.table(), nums@.subrange(r.0 as int, r.1 as int)),
    {
        let mut text = String::new();
        let mut k: usize = r.0;
        proof {
            reveal_strlit("\n");
        }
        while k < r.1
            invariant
                r.0 <= k <= r.1 <= nums@.len(),
                tokens_in(nums@, self.table().len()),
                text@ == resolve(self.table(), nums@.subrange(r.0 as int, k as int)),
            decreases r.1 - k,
        {
            let line = &self.lines[nums[k]];
            text.append(line.as_str());
            text.append("\n");
            proof {
                reveal_strlit("\n");
                let s = nums@.subrange(r.0 as int, k + 1);
                assert(s.drop_last() =~= nums@.subrange(r.0 as int, k as int));
            }
            k += 1;
        }
        text
    }
}

} // verus!
