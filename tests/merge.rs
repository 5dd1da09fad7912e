use threeway::interner::Munge;
use threeway::matcher::matching_runs;
use threeway::merge::merge_runs;
use threeway::{diff, Author, Difference};

fn s(t: &str) -> String {
    t.to_string()
}

#[test]
fn single_side_modify() {
    let r = diff("a\nb\nc\n", "a\nX\nc\n", "a\nb\nc\n");
    assert_eq!(
        r,
        vec![
            Difference::NotChanged(s("a\n")),
            Difference::Modify(Author::Mine, s("b\n"), s("X\n")),
            Difference::NotChanged(s("c\n")),
        ]
    );
}

#[test]
fn conflicting_edits() {
    let r = diff("a\nb\nc\n", "a\nX\nc\n", "a\nY\nc\n");
    assert_eq!(
        r,
        vec![
            Difference::NotChanged(s("a\n")),
            Difference::Conflict(s("b\n"), s("X\n"), s("Y\n")),
            Difference::NotChanged(s("c\n")),
        ]
    );
}

#[test]
fn single_side_add() {
    let r = diff("a\nc\n", "a\nb\nc\n", "a\nc\n");
    assert_eq!(
        r,
        vec![
            Difference::NotChanged(s("a\n")),
            Difference::Add(Author::Mine, s("b\n")),
            Difference::NotChanged(s("c\n")),
        ]
    );
}

#[test]
fn single_side_remove() {
    let r = diff("a\nb\nc\n", "a\nc\n", "a\nb\nc\n");
    assert_eq!(
        r,
        vec![
            Difference::NotChanged(s("a\n")),
            Difference::Remove(Author::Mine, s("b\n")),
            Difference::NotChanged(s("c\n")),
        ]
    );
}

#[test]
fn yours_side_modify() {
    let r = diff("a\nb\nc\n", "a\nb\nc\n", "a\nY\nc\n");
    assert_eq!(
        r,
        vec![
            Difference::NotChanged(s("a\n")),
            Difference::Modify(Author::Yours, s("b\n"), s("Y\n")),
            Difference::NotChanged(s("c\n")),
        ]
    );
}

#[test]
fn identical_texts() {
    let t = "one\ntwo\nthree\n";
    assert_eq!(diff(t, t, t), vec![Difference::NotChanged(s(t))]);
}

#[test]
fn identical_empty_texts() {
    assert_eq!(diff("", "", ""), vec![]);
}

#[test]
fn identical_text_without_final_newline() {
    assert_eq!(diff("x\ny", "x\ny", "x\ny"), vec![Difference::NotChanged(s("x\ny\n"))]);
}

#[test]
fn same_edit_on_both_sides() {
    let r = diff("a\nb\nc\n", "a\nX\nc\n", "a\nX\nc\n");
    assert_eq!(
        r,
        vec![
            Difference::NotChanged(s("a\n")),
            Difference::Modify(Author::Both, s("b\n"), s("X\n")),
            Difference::NotChanged(s("c\n")),
        ]
    );
}

#[test]
fn same_add_on_both_sides() {
    let r = diff("a\nc\n", "a\nb\nc\n", "a\nb\nc\n");
    assert_eq!(
        r,
        vec![
            Difference::NotChanged(s("a\n")),
            Difference::Add(Author::Both, s("b\n")),
            Difference::NotChanged(s("c\n")),
        ]
    );
}

#[test]
fn swapped_sides_mirror() {
    let base = "a\nb\nc\nd\n";
    let x = "a\nX\nc\nd\ne\n";
    let y = "a\nY\nc\n";
    let xy = diff(base, x, y);
    let yx = diff(base, y, x);
    assert_eq!(xy.len(), yx.len());
    for (p, q) in xy.iter().zip(yx.iter()) {
        let mirrored = match p {
            Difference::Conflict(o, a, b) => Difference::Conflict(o.clone(), b.clone(), a.clone()),
            Difference::Add(w, t) => Difference::Add(swap(*w), t.clone()),
            Difference::Remove(w, t) => Difference::Remove(swap(*w), t.clone()),
            Difference::Modify(w, o, t) => Difference::Modify(swap(*w), o.clone(), t.clone()),
            other => other.clone(),
        };
        assert_eq!(&mirrored, q);
    }
}

fn swap(w: Author) -> Author {
    match w {
        Author::Mine => Author::Yours,
        Author::Yours => Author::Mine,
        Author::Both => Author::Both,
    }
}

fn base_parts(ds: &[Difference]) -> String {
    let mut out = String::new();
    for d in ds {
        match d {
            Difference::NotChanged(t) => out.push_str(t),
            Difference::Add(_, _) => {}
            Difference::Remove(_, o) | Difference::Modify(_, o, _) | Difference::Conflict(o, _, _) => {
                out.push_str(o)
            }
        }
    }
    out
}

fn mine_parts(ds: &[Difference]) -> String {
    let mut out = String::new();
    for d in ds {
        match d {
            Difference::NotChanged(t) | Difference::Add(_, t) | Difference::Modify(_, _, t) => out.push_str(t),
            Difference::Remove(_, _) => {}
            Difference::Conflict(_, _, _) => panic!("no conflict expected"),
        }
    }
    out
}

#[test]
fn base_text_is_covered() {
    let base = "1\n2\n3\n4\n5\n6\n";
    let r = diff(base, "1\n2a\n3\n5\n6\n7\n", "0\n1\n2\n3\n4b\n5\n6\n");
    assert_eq!(base_parts(&r), base);
}

#[test]
fn one_sided_change_rebuilds_mine() {
    let base = "a\nb\nc\nd\ne\n";
    let mine = "a\nc\nD\ne\nf\n";
    let r = diff(base, mine, base);
    assert_eq!(mine_parts(&r), mine);
    for d in &r {
        match d {
            Difference::Add(w, _) | Difference::Remove(w, _) | Difference::Modify(w, _, _) => {
                assert_eq!(*w, Author::Mine)
            }
            _ => {}
        }
    }
}

#[test]
fn interner_shares_tokens_and_resolves() {
    let mut m = Munge::new();
    let a = m.lines_to_nums("x\ny\nx\n");
    let b = m.lines_to_nums("y\nz\n");
    assert_eq!(a, vec![1, 2, 1, 0]);
    assert_eq!(b, vec![2, 3, 0]);
    assert_eq!(m.nums_to_lines(&a, threeway::Range(0, 3)), "x\ny\nx\n");
    assert_eq!(m.nums_to_lines(&b, threeway::Range(1, 2)), "z\n");
    assert_eq!(m.nums_to_lines(&b, threeway::Range(1, 1)), "");
}

#[test]
fn interner_crlf_lines() {
    let mut m = Munge::new();
    let a = m.lines_to_nums("p\r\nq\n");
    assert_eq!(a, vec![1, 2, 0]);
    assert_eq!(m.nums_to_lines(&a, threeway::Range(0, 2)), "p\nq\n");
}

#[test]
fn runs_anchor_the_sentinels() {
    let a = vec![1, 2, 3, 0];
    let b = vec![1, 4, 3, 5, 0];
    let r = matching_runs(&a, &b);
    assert_eq!(r, vec![(0, 0, 1), (2, 2, 1), (3, 4, 1), (4, 5, 0)]);
}

#[test]
fn runs_of_empty_sequences() {
    let r = matching_runs(&vec![0], &vec![0]);
    assert_eq!(r, vec![(0, 0, 1), (1, 1, 0)]);
}

#[test]
fn walk_keeps_closing_block() {
    let mut m = Munge::new();
    let base = m.lines_to_nums("a\n");
    let mine = m.lines_to_nums("a\n");
    let ma = vec![(0, 0, 1), (1, 1, 1), (2, 2, 0)];
    let r = merge_runs(&m, &base, &mine, &mine, &ma, &ma);
    assert_eq!(r, vec![Difference::NotChanged(s("a\n")), Difference::NotChanged(s("\n"))]);
}

#[test]
fn interner_bare_cr_and_empty_lines() {
    let mut m = Munge::new();
    let a = m.lines_to_nums("x\r\n\ny\r");
    assert_eq!(a, vec![1, 2, 3, 0]);
    assert_eq!(m.nums_to_lines(&a, threeway::Range(0, 3)), "x\n\ny\r\n");
}

#[test]
fn conflict_texts_differ_and_changes_are_not_empty() {
    let r = diff("a\nb\nc\nd\n", "a\nc\nd\ne\n", "a\nB\nc\nd\nf\n");
    for d in &r {
        match d {
            Difference::Conflict(o, a, b) => assert!(o != a && a != b && o != b),
            Difference::Add(_, x) | Difference::Remove(_, x) => assert!(!x.is_empty()),
            Difference::Modify(_, o, x) => assert!(!o.is_empty() && !x.is_empty()),
            Difference::NotChanged(_) => {}
        }
    }
}

#[test]
fn identical_long_texts() {
    let mut t = String::new();
    for i in 0..450 {
        t.push_str(&format!("line {}\n", i % 7));
    }
    assert_eq!(diff(&t, &t, &t), vec![Difference::NotChanged(t.clone())]);
}

#[test]
fn one_sided_change_on_long_text() {
    let mut base = String::new();
    let mut mine = String::new();
    for i in 0..300 {
        base.push_str(&format!("{}\n", i % 5));
        if i % 50 == 7 {
            mine.push_str("changed\n");
        } else {
            mine.push_str(&format!("{}\n", i % 5));
        }
    }
    let r = diff(&base, &mine, &base);
    let mut rebuilt = String::new();
    for d in &r {
        match d {
            Difference::NotChanged(t) => rebuilt.push_str(t),
            Difference::Add(w, t) | Difference::Modify(w, _, t) => {
                assert_eq!(*w, Author::Mine);
                rebuilt.push_str(t)
            }
            Difference::Remove(w, _) => assert_eq!(*w, Author::Mine),
            Difference::Conflict(_, _, _) => panic!("no conflict expected"),
        }
    }
    assert_eq!(rebuilt, mine);
}
