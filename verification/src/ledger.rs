//! The ledger: a session-scoped record of node indices that have been read,
//! kept in first-occurrence order without duplicates. Its indices are fed
//! back as reference nodes on a later ingestion.

use vstd::prelude::*;

verus! {

/// First-occurrence deduplication: every value keeps its first position,
/// later occurrences are dropped.
pub open spec fn dedup_first(s: Seq<usize>) -> Seq<usize>
    decreases s.len(),
{
    if s.len() == 0 {
        Seq::empty()
    } else {
        let rest = dedup_first(s.drop_last());
        if rest.contains(s.last()) {
            rest
        } else {
            rest.push(s.last())
        }
    }
}

/// Law: deduplication yields no duplicates and keeps exactly the values of
/// the input.
pub proof fn lemma_dedup_first_sound(s: Seq<usize>)
    ensures
        dedup_first(s).no_duplicates(),
        forall|x: usize| dedup_first(s).contains(x) <==> s.contains(x),
    decreases s.len(),
{
    if s.len() > 0 {
        lemma_dedup_first_sound(s.drop_last());
        let rest = dedup_first(s.drop_last());
        assert forall|x: usize| dedup_first(s).contains(x) implies s.contains(x) by {
            if rest.contains(x) {
                assert(s.drop_last().contains(x));
                let i = choose|i: int| 0 <= i < s.drop_last().len() && s.drop_last()[i] == x;
                assert(s[i] == x);
            } else {
                assert(x == s.last());
                assert(s[s.len() - 1] == x);
            }
        }
        assert forall|x: usize| s.contains(x) implies dedup_first(s).contains(x) by {
            let i = choose|i: int| 0 <= i < s.len() && s[i] == x;
            if i < s.len() - 1 {
                assert(s.drop_last()[i] == x);
                assert(s.drop_last().contains(x));
                assert(rest.contains(x));
                if !rest.contains(s.last()) {
                    let j = choose|j: int| 0 <= j < rest.len() && rest[j] == x;
                    assert(rest.push(s.last())[j] == x);
                }
            } else {
                if rest.contains(s.last()) {
                } else {
                    assert(rest.push(s.last()).last() == x);
                }
            }
        }
    }
}

pub(crate) fn vec_contains_idx(v: &Vec<usize>, x: usize) -> (r: bool)
    ensures
        r == v@.contains(x),
{
    let n = v.len();
    let mut i: usize = 0;
    while i < n
        invariant
            i <= n,
            n == v@.len(),
            forall|j: int| 0 <= j < i ==> v@[j] != x,
        decreases n - i,
    {
        if v[i] == x {
            return true;
        }
        i += 1;
    }
    false
}

/// The accumulator of node indices read in a session.
#[derive(Debug, Clone)]
pub struct Ledger {
    /// Node indices that have been read, first occurrence first.
    pub node_indices: Vec<usize>,
}

impl Ledger {
    /// An empty ledger.
    pub fn new() -> (l: Ledger)
        ensures
            l.node_indices@ == Seq::<usize>::empty(),
    {
        Ledger { node_indices: Vec::new() }
    }

    /// Appends the given indices, then deduplicates the whole list while
    /// preserving first-occurrence order: an index read several times stays
    /// at its first position.
    pub fn add_nodes(&mut self, nodes: Vec<usize>)
        ensures
            final(self).node_indices@ == dedup_first(old(self).node_indices@ + nodes@),
    {
        let ghost a = self.node_indices@;
        let ghost b = nodes@;
        let mut out: Vec<usize> = Vec::new();
        let n = self.node_indices.len();
        let mut i: usize = 0;
        proof {
            assert(a.take(0) =~= Seq::<usize>::empty());
        }
        while i < n
            invariant
                i <= n,
                n == a.len(),
                a == self.node_indices@,
                out@ == dedup_first(a.take(i as int)),
            decreases n - i,
        {
            let x = self.node_indices[i];
            proof {
                assert(a.take(i + 1).drop_last() =~= a.take(i as int));
                assert(a.take(i + 1).last() == a[i as int]);
            }
            if !vec_contains_idx(&out, x) {
                out.push(x);
            }
            i += 1;
        }
        proof {
            assert(a.take(n as int) =~= a);
            assert((a + b.take(0)) =~= a);
        }
        let m = nodes.len();
        let mut j: usize = 0;
        while j < m
            invariant
                j <= m,
                m == b.len(),
                b == nodes@,
                out@ == dedup_first(a + b.take(j as int)),
            decreases m - j,
        {
            let x = nodes[j];
            proof {
                assert((a + b.take(j + 1)).drop_last() =~= a + b.take(j as int));
                assert((a + b.take(j + 1)).last() == b[j as int]);
            }
            if !vec_contains_idx(&out, x) {
                out.push(x);
            }
            j += 1;
        }
        proof {
            assert(a + b.take(m as int) =~= a + b);
        }
        self.node_indices = out;
    }
}

impl Default for Ledger {
    /// An empty ledger.
    fn default() -> (l: Ledger)
        ensures
            l.node_indices@ == Seq::<usize>::empty(),
    {
        Ledger::new()
    }
}

} // verus!
