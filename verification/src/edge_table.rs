//! The versioned edge tables: append-only ordered maps from
//! (source, destination) node-index pairs to version-tagged edges.
//!
//! A table is a vector of rows kept in strictly ascending key order, so a
//! scan visits keys in ascending (source, destination) order and all rows
//! with a given source are contiguous with ascending destinations. The
//! table's model is the finite map from keys to edge views; insertion is
//! first-write-wins: a key already present keeps its original edge.

use vstd::prelude::*;

verus! {

/// A versioned, tagged directed edge between two node indices.
#[derive(Debug, Clone, PartialEq)]
pub struct Edge {
    /// Version number used for ordering; supplied by the caller, higher is newer.
    pub version: i32,
    /// Free-form label for the edge.
    pub tag: String,
}

/// The mathematical view of an edge: its version and its tag characters.
#[verifier::ext_equal]
pub struct EdgeV {
    pub version: int,
    pub tag: Seq<char>,
}

impl View for Edge {
    type V = EdgeV;

    open spec fn view(&self) -> EdgeV {
        EdgeV { version: self.version as int, tag: self.tag@ }
    }
}

impl Edge {
    pub fn new(version: i32, tag: String) -> (e: Edge)
        ensures
            e@ == (EdgeV { version: version as int, tag: tag@ }),
    {
        Edge { version, tag }
    }
}

/// One row of an edge table: a directed edge from `src` to `dst`.
#[derive(Debug, Clone)]
pub struct EdgeEntry {
    pub src: usize,
    pub dst: usize,
    pub edge: Edge,
}

/// The key of a row.
pub open spec fn entry_key(e: EdgeEntry) -> (int, int) {
    (e.src as int, e.dst as int)
}

/// Strict lexicographic order on (source, destination) keys.
pub open spec fn key_lt(a: (int, int), b: (int, int)) -> bool {
    a.0 < b.0 || (a.0 == b.0 && a.1 < b.1)
}

/// The rows are in strictly ascending key order (hence keys are unique).
pub open spec fn sorted_strict(s: Seq<EdgeEntry>) -> bool {
    forall|i: int, j: int|
        0 <= i < j < s.len() ==> key_lt(entry_key(#[trigger] s[i]), entry_key(#[trigger] s[j]))
}

/// The finite map a sequence of rows denotes (later rows would win, but the
/// table never holds two rows with one key).
pub open spec fn table_map(s: Seq<EdgeEntry>) -> Map<(int, int), EdgeV>
    decreases s.len(),
{
    if s.len() == 0 {
        Map::empty()
    } else {
        table_map(s.drop_last()).insert(entry_key(s.last()), s.last().edge@)
    }
}

/// First-write-wins insertion on the map model.
pub open spec fn spec_insert_if_absent(
    m: Map<(int, int), EdgeV>,
    k: (int, int),
    v: EdgeV,
) -> Map<(int, int), EdgeV> {
    if m.contains_key(k) {
        m
    } else {
        m.insert(k, v)
    }
}

/// Law: the tables are append-only. Inserting a second edge at a key that is
/// already present changes nothing, whatever version and tag it carries: the
/// first edge's version and tag stay in place.
pub proof fn lemma_edges_append_only(m: Map<(int, int), EdgeV>, k: (int, int), v1: EdgeV, v2: EdgeV)
    ensures
        spec_insert_if_absent(spec_insert_if_absent(m, k, v1), k, v2) == spec_insert_if_absent(
            m,
            k,
            v1,
        ),
        spec_insert_if_absent(m, k, v1)[k] == (if m.contains_key(k) {
            m[k]
        } else {
            v1
        }),
{
}

pub proof fn lemma_table_map_domain(s: Seq<EdgeEntry>, k: (int, int))
    ensures
        table_map(s).contains_key(k) <==> exists|i: int|
            0 <= i < s.len() && entry_key(#[trigger] s[i]) == k,
    decreases s.len(),
{
    if s.len() > 0 {
        lemma_table_map_domain(s.drop_last(), k);
        if entry_key(s.last()) == k {
            assert(entry_key(s[s.len() - 1]) == k);
        } else {
            if table_map(s).contains_key(k) {
                let i = choose|i: int| 0 <= i < s.drop_last().len() && entry_key(
                    #[trigger] s.drop_last()[i],
                ) == k;
                assert(entry_key(s[i]) == k);
            }
            if exists|i: int| 0 <= i < s.len() && entry_key(#[trigger] s[i]) == k {
                let i = choose|i: int| 0 <= i < s.len() && entry_key(#[trigger] s[i]) == k;
                assert(i < s.len() - 1);
                assert(entry_key(s.drop_last()[i]) == k);
            }
        }
    }
}

pub proof fn lemma_table_map_index(s: Seq<EdgeEntry>, i: int)
    requires
        sorted_strict(s),
        0 <= i < s.len(),
    ensures
        table_map(s).contains_key(entry_key(s[i])),
        table_map(s)[entry_key(s[i])] == s[i].edge@,
    decreases s.len(),
{
    if i == s.len() - 1 {
    } else {
        assert(s.drop_last()[i] == s[i]);
        assert(sorted_strict(s.drop_last())) by {
            assert(forall|x: int, y: int|
                0 <= x < y < s.drop_last().len() ==> key_lt(
                    entry_key(#[trigger] s.drop_last()[x]),
                    entry_key(#[trigger] s.drop_last()[y]),
                ));
        }
        lemma_table_map_index(s.drop_last(), i);
        assert(key_lt(entry_key(s[i]), entry_key(s.last())));
    }
}

pub proof fn lemma_table_map_insert(s: Seq<EdgeEntry>, pos: int, e: EdgeEntry)
    requires
        0 <= pos <= s.len(),
        forall|i: int| 0 <= i < s.len() ==> entry_key(#[trigger] s[i]) != entry_key(e),
    ensures
        table_map(s.insert(pos, e)) == table_map(s).insert(entry_key(e), e.edge@),
    decreases s.len(),
{
    let t = s.insert(pos, e);
    s.insert_ensures(pos, e);
    if pos == s.len() {
        assert(t.drop_last() =~= s);
        assert(t.last() == e);
    } else {
        assert(t.last() == s.last());
        assert(t.drop_last() =~= s.drop_last().insert(pos, e)) by {
            s.drop_last().insert_ensures(pos, e);
        }
        assert(forall|i: int|
            0 <= i < s.drop_last().len() ==> entry_key(#[trigger] s.drop_last()[i]) != entry_key(
                e,
            ));
        lemma_table_map_insert(s.drop_last(), pos, e);
        assert(table_map(t) == table_map(s.drop_last()).insert(
            entry_key(e),
            e.edge@,
        ).insert(entry_key(s.last()), s.last().edge@));
        assert(table_map(s.drop_last()).insert(entry_key(e), e.edge@).insert(
            entry_key(s.last()),
            s.last().edge@,
        ) =~= table_map(s.drop_last()).insert(entry_key(s.last()), s.last().edge@).insert(
            entry_key(e),
            e.edge@,
        )) by {
            assert(entry_key(s[s.len() - 1]) != entry_key(e));
        }
    }
}

pub proof fn lemma_table_map_len(s: Seq<EdgeEntry>)
    requires
        sorted_strict(s),
    ensures
        table_map(s).dom().finite(),
        table_map(s).dom().len() == s.len(),
    decreases s.len(),
{
    if s.len() > 0 {
        assert(sorted_strict(s.drop_last())) by {
            assert(forall|x: int, y: int|
                0 <= x < y < s.drop_last().len() ==> key_lt(
                    entry_key(#[trigger] s.drop_last()[x]),
                    entry_key(#[trigger] s.drop_last()[y]),
                ));
        }
        lemma_table_map_len(s.drop_last());
        lemma_table_map_domain(s.drop_last(), entry_key(s.last()));
        if table_map(s.drop_last()).contains_key(entry_key(s.last())) {
            let i = choose|i: int|
                0 <= i < s.drop_last().len() && entry_key(#[trigger] s.drop_last()[i]) == entry_key(
                    s.last(),
                );
            assert(key_lt(entry_key(s[i]), entry_key(s[s.len() - 1])));
            assert(false);
        }
    }
}

/// A sorted table's rows are determined by its map: two strictly sorted row
/// sequences denoting the same map list the same keys in the same order,
/// with the same edge views.
pub proof fn lemma_sorted_rows_unique(s1: Seq<EdgeEntry>, s2: Seq<EdgeEntry>)
    requires
        sorted_strict(s1),
        sorted_strict(s2),
        table_map(s1) == table_map(s2),
    ensures
        s1.len() == s2.len(),
        forall|i: int|
            0 <= i < s1.len() ==> entry_key(#[trigger] s1[i]) == entry_key(s2[i]) && s1[i].edge@
                == s2[i].edge@,
    decreases s1.len(),
{
    lemma_table_map_len(s1);
    lemma_table_map_len(s2);
    if s1.len() > 0 {
        let n = s1.len();
        let k1 = entry_key(s1.last());
        let k2 = entry_key(s2.last());
        lemma_table_map_index(s1, n - 1);
        lemma_table_map_index(s2, n - 1);
        lemma_table_map_domain(s2, k1);
        lemma_table_map_domain(s1, k2);
        assert(table_map(s2).contains_key(k1));
        let j = choose|j: int| 0 <= j < s2.len() && entry_key(#[trigger] s2[j]) == k1;
        if j < n - 1 {
            assert(key_lt(entry_key(s2[j]), entry_key(s2[n - 1])));
            let i = choose|i: int| 0 <= i < s1.len() && entry_key(#[trigger] s1[i]) == k2;
            if i < n - 1 {
                assert(key_lt(entry_key(s1[i]), entry_key(s1[n - 1])));
            }
            assert(false);
        }
        assert(k1 == k2);
        assert(s1.last().edge@ == table_map(s1)[k1] && s2.last().edge@ == table_map(s2)[k1]);
        assert(sorted_strict(s1.drop_last()) && sorted_strict(s2.drop_last())) by {
            assert(forall|x: int, y: int|
                0 <= x < y < s1.drop_last().len() ==> key_lt(
                    entry_key(#[trigger] s1.drop_last()[x]),
                    entry_key(#[trigger] s1.drop_last()[y]),
                ));
            assert(forall|x: int, y: int|
                0 <= x < y < s2.drop_last().len() ==> key_lt(
                    entry_key(#[trigger] s2.drop_last()[x]),
                    entry_key(#[trigger] s2.drop_last()[y]),
                ));
        }
        assert(table_map(s1.drop_last()) =~= table_map(s2.drop_last())) by {
            lemma_table_map_domain(s1.drop_last(), k1);
            lemma_table_map_domain(s2.drop_last(), k1);
            if table_map(s1.drop_last()).contains_key(k1) {
                let x = choose|x: int|
                    0 <= x < s1.drop_last().len() && entry_key(#[trigger] s1.drop_last()[x]) == k1;
                assert(key_lt(entry_key(s1[x]), entry_key(s1[n - 1])));
            }
            if table_map(s2.drop_last()).contains_key(k1) {
                let x = choose|x: int|
                    0 <= x < s2.drop_last().len() && entry_key(#[trigger] s2.drop_last()[x]) == k1;
                assert(key_lt(entry_key(s2[x]), entry_key(s2[n - 1])));
            }
            assert forall|q: (int, int)|
                #![trigger table_map(s1.drop_last()).contains_key(q)]
                #![trigger table_map(s2.drop_last()).contains_key(q)]
                true implies (table_map(s1.drop_last()).contains_key(q) == table_map(
                s2.drop_last(),
            ).contains_key(q) && (table_map(s1.drop_last()).contains_key(q)
                ==> table_map(s1.drop_last())[q] == table_map(s2.drop_last())[q])) by {
                if q != k1 {
                    assert(table_map(s1).contains_key(q) == table_map(s1.drop_last()).contains_key(
                        q,
                    ));
                    assert(table_map(s2).contains_key(q) == table_map(s2.drop_last()).contains_key(
                        q,
                    ));
                    if table_map(s1.drop_last()).contains_key(q) {
                        assert(table_map(s1.drop_last())[q] == table_map(s1)[q]);
                        assert(table_map(s2.drop_last())[q] == table_map(s2)[q]);
                    }
                }
            }
        }
        lemma_sorted_rows_unique(s1.drop_last(), s2.drop_last());
        assert forall|i: int| 0 <= i < s1.len() implies entry_key(#[trigger] s1[i]) == entry_key(
            s2[i],
        ) && s1[i].edge@ == s2[i].edge@ by {
            if i < n - 1 {
                assert(s1.drop_last()[i] == s1[i] && s2.drop_last()[i] == s2[i]);
                assert(entry_key(s1.drop_last()[i]) == entry_key(s2.drop_last()[i])
                    && s1.drop_last()[i].edge@ == s2.drop_last()[i].edge@);
            }
        }
    }
}

/// `dst` is the destination the latest-path rule picks among the structural
/// edges leaving `src`: no other edge from `src` has a higher version, and
/// among edges tied at that version none has a higher destination index.
pub open spec fn is_best_next(m: Map<(int, int), EdgeV>, src: int, dst: int) -> bool {
    &&& m.contains_key((src, dst))
    &&& forall|d: int|
        m.contains_key((src, d)) ==> (#[trigger] m[(src, d)]).version < m[(src, dst)].version || (
        m[(src, d)].version == m[(src, dst)].version && d <= dst)
}

pub proof fn lemma_best_next_unique(m: Map<(int, int), EdgeV>, src: int, d1: int, d2: int)
    requires
        is_best_next(m, src, d1),
        is_best_next(m, src, d2),
    ensures
        d1 == d2,
{
    let v1 = m[(src, d1)].version;
    let v2 = m[(src, d2)].version;
    assert(v2 < v1 || (v2 == v1 && d2 <= d1));
    assert(v1 < v2 || (v1 == v2 && d1 <= d2));
}

/// The destination the latest-path rule picks from `src`, if any edge leaves it.
pub open spec fn next_of(m: Map<(int, int), EdgeV>, src: int) -> Option<int> {
    if exists|d: int| is_best_next(m, src, d) {
        Some(choose|d: int| is_best_next(m, src, d))
    } else {
        None
    }
}

/// An append-only table of versioned edges, ordered by (source, destination).
#[derive(Debug, Clone)]
pub struct EdgeTable {
    entries: Vec<EdgeEntry>,
}

impl View for EdgeTable {
    type V = Map<(int, int), EdgeV>;

    open spec fn view(&self) -> Map<(int, int), EdgeV> {
        table_map(self.rows())
    }
}

impl EdgeTable {
    /// The rows of the table in storage order.
    pub closed spec fn rows(self) -> Seq<EdgeEntry> {
        self.entries@
    }

    /// Well-formed: rows strictly ascending by key, so each key appears once.
    pub open spec fn wf(self) -> bool {
        sorted_strict(self.rows())
    }

    pub fn new() -> (t: EdgeTable)
        ensures
            t.wf(),
            t.rows() == Seq::<EdgeEntry>::empty(),
            t@ == Map::<(int, int), EdgeV>::empty(),
    {
        EdgeTable { entries: Vec::new() }
    }

    /// The number of edges in the table.
    pub fn len(&self) -> (n: usize)
        ensures
            n == self.rows().len(),
    {
        self.entries.len()
    }

    /// The row at storage position `i`; rows are in ascending key order.
    pub fn entry_at(&self, i: usize) -> (r: &EdgeEntry)
        requires
            i < self.rows().len(),
        ensures
            *r == self.rows()[i as int],
    {
        &self.entries[i]
    }

    /// The edge at key (src, dst), if one was ever inserted.
    pub fn get(&self, src: usize, dst: usize) -> (r: Option<&Edge>)
        requires
            self.wf(),
        ensures
            match r {
                Some(e) => self@.contains_key((src as int, dst as int)) && e@ == self@[
                    (src as int, dst as int)
                ],
                None => !self@.contains_key((src as int, dst as int)),
            },
    {
        let n = self.entries.len();
        let mut i: usize = 0;
        while i < n
            invariant
                i <= n,
                n == self.rows().len(),
                self.wf(),
                forall|j: int|
                    0 <= j < i ==> entry_key(#[trigger] self.rows()[j]) != (
                        src as int,
                        dst as int,
                    ),
            decreases n - i,
        {
            if self.entries[i].src == src && self.entries[i].dst == dst {
                proof {
                    lemma_table_map_index(self.rows(), i as int);
                }
                return Some(&self.entries[i].edge);
            }
            i += 1;
        }
        proof {
            lemma_table_map_domain(self.rows(), (src as int, dst as int));
        }
        None
    }

    /// Inserts an edge at (src, dst) unless that key is already present;
    /// an existing edge is never overwritten. Returns whether it inserted.
    pub fn insert_if_absent(&mut self, src: usize, dst: usize, version: i32, tag: String) -> (inserted: bool)
        requires
            old(self).wf(),
        ensures
            final(self).wf(),
            inserted == !old(self)@.contains_key((src as int, dst as int)),
            final(self)@ == spec_insert_if_absent(
                old(self)@,
                (src as int, dst as int),
                EdgeV { version: version as int, tag: tag@ },
            ),
            final(self).rows().len() == old(self).rows().len() + (if inserted {
                1int
            } else {
                0int
            }),
    {
        let ghost k = (src as int, dst as int);
        let n = self.entries.len();
        let mut pos: usize = 0;
        while pos < n && (self.entries[pos].src < src || (self.entries[pos].src == src
            && self.entries[pos].dst < dst))
            invariant
                pos <= n,
                n == self.rows().len(),
                self.wf(),
                k == (src as int, dst as int),
                forall|j: int| 0 <= j < pos ==> key_lt(entry_key(#[trigger] self.rows()[j]), k),
            decreases n - pos,
        {
            proof {
                assert(key_lt(entry_key(self.rows()[pos as int]), k));
            }
            pos += 1;
        }
        if pos < n && self.entries[pos].src == src && self.entries[pos].dst == dst {
            proof {
                lemma_table_map_index(self.rows(), pos as int);
            }
            return false;
        }
        proof {
            assert(forall|j: int|
                pos <= j < self.rows().len() ==> key_lt(k, entry_key(#[trigger] self.rows()[j])))
                by {
                if pos < self.rows().len() {
                    assert(!key_lt(entry_key(self.rows()[pos as int]), k));
                    assert(entry_key(self.rows()[pos as int]) != k);
                    assert(key_lt(k, entry_key(self.rows()[pos as int])));
                }
            }
            assert(forall|j: int| 0 <= j < self.rows().len() ==> entry_key(#[trigger] self.rows()[j]) != k);
            lemma_table_map_domain(self.rows(), k);
        }
        let entry = EdgeEntry { src, dst, edge: Edge { version, tag } };
        proof {
            lemma_table_map_insert(self.rows(), pos as int, entry);
            self.rows().insert_ensures(pos as int, entry);
        }
        let ghost prev = self.rows();
        self.entries.insert(pos, entry);
        proof {
            assert(self.rows() == prev.insert(pos as int, entry));
            assert(sorted_strict(self.rows())) by {
                assert(forall|i: int, j: int|
                    0 <= i < j < self.rows().len() ==> key_lt(
                        entry_key(#[trigger] self.rows()[i]),
                        entry_key(#[trigger] self.rows()[j]),
                    )) by {
                    assert forall|i: int, j: int| 0 <= i < j < self.rows().len() implies key_lt(
                        entry_key(self.rows()[i]),
                        entry_key(self.rows()[j]),
                    ) by {
                        let a = self.rows()[i];
                        let b = self.rows()[j];
                        if i < pos {
                            assert(a == prev[i]);
                        } else if i == pos {
                            assert(a == entry);
                        } else {
                            assert(a == prev[i - 1]);
                        }
                        if j < pos {
                            assert(b == prev[j]);
                        } else if j == pos {
                            assert(b == entry);
                        } else {
                            assert(b == prev[j - 1]);
                        }
                    }
                }
            }
        }
        true
    }

    /// The destination of the latest-path step from `src`: the outgoing edge
    /// with the highest version; among ties, the highest destination index.
    pub fn best_from(&self, src: usize) -> (r: Option<usize>)
        requires
            self.wf(),
        ensures
            match r {
                Some(d) => next_of(self@, src as int) == Some(d as int),
                None => next_of(self@, src as int) is None,
            },
    {
        let n = self.entries.len();
        let mut i: usize = 0;
        let mut best: Option<usize> = None;
        let mut best_version: i32 = 0;
        while i < n
            invariant
                i <= n,
                n == self.rows().len(),
                self.wf(),
                match best {
                    Some(d) => {
                        &&& exists|j: int|
                            0 <= j < i && #[trigger] self.rows()[j].src == src
                                && self.rows()[j].dst == d && self.rows()[j].edge.version
                                == best_version
                        &&& forall|j: int|
                            0 <= j < i && (#[trigger] self.rows()[j]).src == src ==> (
                            self.rows()[j].edge.version < best_version || (
                            self.rows()[j].edge.version == best_version && self.rows()[j].dst
                                <= d))
                    },
                    None => forall|j: int| 0 <= j < i ==> (#[trigger] self.rows()[j]).src != src,
                },
            decreases n - i,
        {
            if self.entries[i].src == src {
                proof {
                    assert forall|j: int|
                        0 <= j < i && (#[trigger] self.rows()[j]).src == src implies self.rows()[j].dst
                        < self.rows()[i as int].dst by {
                        assert(key_lt(entry_key(self.rows()[j]), entry_key(self.rows()[i as int])));
                    }
                    assert(self.rows()[i as int].src == src);
                }
                match best {
                    None => {
                        best = Some(self.entries[i].dst);
                        best_version = self.entries[i].edge.version;
                    },
                    Some(d) => {
                        if self.entries[i].edge.version >= best_version {
                            best = Some(self.entries[i].dst);
                            best_version = self.entries[i].edge.version;
                        }
                    },
                }
            }
            i += 1;
        }
        proof {
            match best {
                Some(d) => {
                    assert(is_best_next(self@, src as int, d as int)) by {
                        let j = choose|j: int|
                            0 <= j < n && #[trigger] self.rows()[j].src == src && self.rows()[j].dst
                                == d && self.rows()[j].edge.version == best_version;
                        lemma_table_map_index(self.rows(), j);
                        assert(self@.contains_key((src as int, d as int)));
                        assert forall|dd: int| self@.contains_key(
                            (src as int, dd),
                        ) implies (#[trigger] self@[(src as int, dd)]).version < self@[
                            (src as int, d as int)
                        ].version || (self@[(src as int, dd)].version == self@[
                            (src as int, d as int)
                        ].version && dd <= d as int) by {
                            lemma_table_map_domain(self.rows(), (src as int, dd));
                            let jj = choose|jj: int|
                                0 <= jj < self.rows().len() && entry_key(
                                    #[trigger] self.rows()[jj],
                                ) == (src as int, dd);
                            lemma_table_map_index(self.rows(), jj);
                        }
                    }
                    lemma_best_next_unique(
                        self@,
                        src as int,
                        d as int,
                        choose|dd: int| is_best_next(self@, src as int, dd),
                    );
                },
                None => {
                    if exists|dd: int| is_best_next(self@, src as int, dd) {
                        let dd = choose|dd: int| is_best_next(self@, src as int, dd);
                        lemma_table_map_domain(self.rows(), (src as int, dd));
                    }
                },
            }
        }
        best
    }
}

} // verus!
