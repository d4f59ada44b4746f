//! Document segmentation: a document is cut at newline characters into
//! lines, and the non-empty lines, in order, are its content units.

use vstd::prelude::*;
use vstd::string::StrSliceExecFns;
use vstd::string::StringExecFns;

verus! {

/// The lines of `s`: the maximal runs of characters between newline
/// characters, in order, empty runs included (what splitting at every
/// newline yields; never empty — a document without newlines is one line).
pub open spec fn split_lines(s: Seq<char>) -> Seq<Seq<char>>
    decreases s.len(),
{
    if s.len() == 0 {
        seq![Seq::<char>::empty()]
    } else if s.last() == '\n' {
        split_lines(s.drop_last()).push(Seq::<char>::empty())
    } else {
        let parts = split_lines(s.drop_last());
        parts.update(parts.len() - 1, parts.last().push(s.last()))
    }
}

/// Drops the empty runs, keeping order.
pub open spec fn keep_nonempty(parts: Seq<Seq<char>>) -> Seq<Seq<char>>
    decreases parts.len(),
{
    if parts.len() == 0 {
        Seq::empty()
    } else {
        let rest = keep_nonempty(parts.drop_last());
        if parts.last().len() == 0 {
            rest
        } else {
            rest.push(parts.last())
        }
    }
}

proof fn lemma_keep_nonempty_all(parts: Seq<Seq<char>>)
    ensures
        forall|j: int|
            0 <= j < keep_nonempty(parts).len() ==> (#[trigger] keep_nonempty(parts)[j]).len() > 0,
    decreases parts.len(),
{
    if parts.len() > 0 {
        lemma_keep_nonempty_all(parts.drop_last());
        let rest = keep_nonempty(parts.drop_last());
        assert forall|j: int| 0 <= j < keep_nonempty(parts).len() implies (
        #[trigger] keep_nonempty(parts)[j]).len() > 0 by {
            if parts.last().len() != 0 {
                assert(keep_nonempty(parts) == rest.push(parts.last()));
                if j < rest.len() {
                    assert(keep_nonempty(parts)[j] == rest[j]);
                } else {
                    assert(keep_nonempty(parts)[j] == parts.last());
                }
            }
        }
    }
}

/// The content units of a document: its non-empty lines, in order.
pub open spec fn segments(s: Seq<char>) -> Seq<Seq<char>> {
    keep_nonempty(split_lines(s))
}

/// Every content unit of a document is non-empty.
pub proof fn lemma_segments_nonempty(s: Seq<char>)
    ensures
        forall|j: int| 0 <= j < segments(s).len() ==> (#[trigger] segments(s)[j]).len() > 0,
{
    lemma_keep_nonempty_all(split_lines(s));
}

/// The segmentation a document reconstructs to: the units joined by newlines.
pub open spec fn join_lines(parts: Seq<Seq<char>>) -> Seq<char>
    decreases parts.len(),
{
    if parts.len() == 0 {
        Seq::empty()
    } else if parts.len() == 1 {
        parts[0]
    } else {
        join_lines(parts.drop_last()) + seq!['\n'] + parts.last()
    }
}

proof fn lemma_char_code_injective(a: char, b: char)
    requires
        a != b,
    ensures
        (a as u32) != (b as u32),
{
}

/// Strict lexicographic order on character sequences, by code point: a
/// proper prefix comes first, otherwise the first differing character
/// decides.
pub open spec fn lex_lt(a: Seq<char>, b: Seq<char>) -> bool
    decreases a.len(),
{
    if b.len() == 0 {
        false
    } else if a.len() == 0 {
        true
    } else if a.first() == b.first() {
        lex_lt(a.skip(1), b.skip(1))
    } else {
        (a.first() as u32) < (b.first() as u32)
    }
}

/// The order is total: two sequences are equal or one comes first.
pub proof fn lemma_lex_total(a: Seq<char>, b: Seq<char>)
    ensures
        a == b || lex_lt(a, b) || lex_lt(b, a),
    decreases a.len(),
{
    if b.len() == 0 {
        if a.len() == 0 {
            assert(a =~= b);
        }
    } else if a.len() == 0 {
    } else if a.first() == b.first() {
        lemma_lex_total(a.skip(1), b.skip(1));
        if a.skip(1) == b.skip(1) {
            assert(a.skip(1).len() == a.len() - 1);
            assert(b.skip(1).len() == b.len() - 1);
            assert(a.len() == b.len());
            assert forall|i: int| 0 <= i < a.len() implies a[i] == b[i] by {
                if i >= 1 {
                    assert(a.skip(1)[i - 1] == a[i]);
                    assert(b.skip(1)[i - 1] == b[i]);
                }
            }
            assert(a =~= b);
        }
    } else {
        lemma_char_code_injective(a.first(), b.first());
    }
}

/// The order is transitive.
pub proof fn lemma_lex_trans(a: Seq<char>, b: Seq<char>, c: Seq<char>)
    requires
        lex_lt(a, b),
        lex_lt(b, c),
    ensures
        lex_lt(a, c),
    decreases a.len(),
{
    if a.len() == 0 {
    } else {
        if a.first() == b.first() && b.first() == c.first() {
            lemma_lex_trans(a.skip(1), b.skip(1), c.skip(1));
        }
    }
}

/// In strictly ascending lexicographic order (hence without duplicates).
pub open spec fn lex_sorted(s: Seq<Seq<char>>) -> bool {
    forall|i: int, j: int| 0 <= i < j < s.len() ==> lex_lt(#[trigger] s[i], #[trigger] s[j])
}

/// Whether `a` comes strictly before `b` in lexicographic order.
pub fn str_lex_lt(a: &str, b: &str) -> (r: bool)
    ensures
        r == lex_lt(a@, b@),
{
    let na = a.unicode_len();
    let nb = b.unicode_len();
    let mut i: usize = 0;
    proof {
        assert(a@.skip(0) =~= a@);
        assert(b@.skip(0) =~= b@);
    }
    while i < na && i < nb
        invariant
            i <= na,
            i <= nb,
            na == a@.len(),
            nb == b@.len(),
            lex_lt(a@, b@) == lex_lt(a@.skip(i as int), b@.skip(i as int)),
        decreases na - i,
    {
        let ca = a.get_char(i);
        let cb = b.get_char(i);
        proof {
            assert(a@.skip(i as int).first() == a@[i as int]);
            assert(b@.skip(i as int).first() == b@[i as int]);
        }
        if ca != cb {
            return (ca as u32) < (cb as u32);
        }
        proof {
            assert(a@.skip(i as int).skip(1) =~= a@.skip(i + 1));
            assert(b@.skip(i as int).skip(1) =~= b@.skip(i + 1));
        }
        i += 1;
    }
    proof {
        if i >= na {
            assert(a@.skip(i as int).len() == 0);
        } else {
            assert(b@.skip(i as int).len() == 0);
        }
    }
    na < nb
}

/// Splits a document at newlines and returns its non-empty lines, in order.
pub fn segment_text(s: &str) -> (parts: Vec<String>)
    ensures
        parts.deep_view() == segments(s@),
{
    let n = s.unicode_len();
    let mut parts: Vec<String> = Vec::new();
    let mut start: usize = 0;
    let mut i: usize = 0;
    let ghost mut lines: Seq<Seq<char>> = Seq::empty();
    proof {
        assert(s@.take(0) =~= Seq::<char>::empty());
        assert(split_lines(s@.take(0)) =~= lines.push(s@.subrange(0, 0)));
        assert(parts.deep_view() =~= keep_nonempty(lines));
    }
    while i < n
        invariant
            start <= i <= n,
            n == s@.len(),
            split_lines(s@.take(i as int)) == lines.push(s@.subrange(start as int, i as int)),
            parts.deep_view() == keep_nonempty(lines),
        decreases n - i,
    {
        let c = s.get_char(i);
        let ghost cur = s@.subrange(start as int, i as int);
        proof {
            assert(s@.take(i + 1).drop_last() =~= s@.take(i as int));
            assert(s@.take(i + 1).last() == s@[i as int]);
        }
        if c == '\n' {
            proof {
                assert(split_lines(s@.take(i + 1)) == split_lines(s@.take(i as int)).push(
                    Seq::<char>::empty(),
                ));
                assert(lines.push(cur).drop_last() =~= lines);
            }
            if i > start {
                let part = s.substring_char(start, i).to_owned();
                proof {
                    assert(cur.len() > 0);
                    let prev = parts.deep_view();
                    assert(prev.push(part@) =~= keep_nonempty(lines.push(cur)));
                }
                let ghost prev_parts = parts.deep_view();
                parts.push(part);
                proof {
                    assert(parts.deep_view() =~= prev_parts.push(cur));
                }
            } else {
                proof {
                    assert(cur.len() == 0);
                    assert(keep_nonempty(lines.push(cur)) == keep_nonempty(lines));
                }
            }
            proof {
                lines = lines.push(cur);
                assert(s@.subrange(i + 1, i + 1) =~= Seq::<char>::empty());
                assert(split_lines(s@.take(i + 1)) == lines.push(s@.subrange(i + 1, i + 1)));
            }
            start = i + 1;
        } else {
            proof {
                let p = split_lines(s@.take(i as int));
                assert(p == lines.push(cur));
                assert(p.len() == lines.len() + 1);
                assert(p.last() == cur);
                assert(split_lines(s@.take(i + 1)) == p.update(p.len() - 1, p.last().push(s@[i as int])));
                assert(p.update(p.len() - 1, cur.push(s@[i as int])) =~= lines.push(
                    cur.push(s@[i as int]),
                ));
                assert(cur.push(s@[i as int]) =~= s@.subrange(start as int, i + 1));
            }
        }
        i += 1;
    }
    proof {
        assert(s@.take(n as int) =~= s@);
    }
    let ghost cur = s@.subrange(start as int, i as int);
    if i > start {
        let part = s.substring_char(start, i).to_owned();
        proof {
            assert(cur.len() > 0);
            assert(lines.push(cur).drop_last() =~= lines);
            let prev = parts.deep_view();
            assert(prev.push(part@) =~= keep_nonempty(lines.push(cur)));
        }
        let ghost prev_parts = parts.deep_view();
        parts.push(part);
        proof {
            assert(parts.deep_view() =~= prev_parts.push(cur));
        }
    } else {
        proof {
            assert(cur.len() == 0);
            assert(lines.push(cur).drop_last() =~= lines);
            assert(keep_nonempty(lines.push(cur)) == keep_nonempty(lines));
        }
    }
    parts
}

/// Joins parts with a single newline between consecutive parts.
pub fn join_with_newlines(parts: &Vec<String>) -> (r: String)
    ensures
        r@ == join_lines(parts.deep_view()),
{
    let mut r = String::new();
    let n = parts.len();
    let mut i: usize = 0;
    proof {
        reveal_strlit("\n");
    }
    while i < n
        invariant
            i <= n,
            n == parts.deep_view().len(),
            "\n"@ =~= seq!['\n'],
            r@ == join_lines(parts.deep_view().take(i as int)),
        decreases n - i,
    {
        if i > 0 {
            r.append("\n");
        }
        r.append(parts[i].as_str());
        proof {
            let dv = parts.deep_view();
            assert(dv.take(i + 1).drop_last() =~= dv.take(i as int));
            assert(dv.take(i + 1).last() == dv[i as int]);
            if i == 0 {
                assert(dv.take(1).len() == 1);
                assert(r@ == dv[0]);
            }
        }
        i += 1;
    }
    proof {
        assert(parts.deep_view().take(n as int) =~= parts.deep_view());
    }
    r
}

} // verus!
