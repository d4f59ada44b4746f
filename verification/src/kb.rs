//! The knowledge base: a deduplicating, insertion-ordered node store
//! together with two append-only edge tables — structural edges for
//! sequential "next chunk" relationships and reference edges for
//! provenance links — plus ingestion, traversal and closure queries.

use crate::edge_table::EdgeEntry;
use crate::edge_table::EdgeTable;
use crate::edge_table::EdgeV;
use crate::edge_table::entry_key;
use crate::edge_table::is_best_next;
use crate::edge_table::lemma_table_map_domain;
use crate::edge_table::lemma_table_map_index;
use crate::edge_table::lemma_table_map_len;
use crate::edge_table::next_of;
use crate::edge_table::spec_insert_if_absent;
use crate::ledger::vec_contains_idx;
use crate::reach::bfs_backward;
use crate::reach::bfs_forward;
use crate::reach::discover_backward;
use crate::reach::discover_forward;
use crate::reach::lemma_closed_reaches;
use crate::reach::lemma_coclosed_reaches;
use crate::reach::lemma_reaches_prepend;
use crate::reach::lemma_reaches_self;
use crate::reach::lemma_reaches_step;
use crate::reach::reaches;
use crate::node_set::iset_get_index;
use crate::node_set::iset_get_index_of;
use crate::node_set::iset_insert_full;
use crate::node_set::iset_len;
use crate::node_set::iset_new;
use crate::node_set::set_elems;
use crate::text::join_lines;
use crate::text::join_with_newlines;
use crate::text::lemma_lex_total;
use crate::text::lemma_lex_trans;
use crate::text::lex_lt;
use crate::text::lex_sorted;
use crate::text::str_lex_lt;
use crate::text::segment_text;
use crate::text::segments;
use indexmap::IndexSet;
use vstd::prelude::*;
use vstd::string::StringExecFns;

verus! {

/// The identity of a node: its content and its source filename, as
/// character sequences.
pub type NodeKey = (Seq<char>, Seq<char>);

/// A content node, identified by its (content, filename) pair: two nodes
/// with equal content and filename are the same node.
#[derive(Debug, Clone, PartialEq, Eq, Hash, PartialOrd, Ord)]
pub struct Node {
    content: String,
    filename: String,
}

impl View for Node {
    type V = NodeKey;

    closed spec fn view(&self) -> NodeKey {
        (self.content@, self.filename@)
    }
}

impl DeepView for Node {
    type V = NodeKey;

    open spec fn deep_view(&self) -> NodeKey {
        self.view()
    }
}

impl Node {
    pub fn new(content: String, filename: String) -> (n: Node)
        ensures
            n@ == (content@, filename@),
    {
        Node { content, filename }
    }

    /// The node's content text.
    pub fn content(&self) -> (r: &String)
        ensures
            r@ == self@.0,
    {
        &self.content
    }

    /// The node's source filename.
    pub fn filename(&self) -> (r: &String)
        ensures
            r@ == self@.1,
    {
        &self.filename
    }
}

/// The store after inserting `kv`, and the index `kv` then has: a pair
/// already present keeps the store unchanged and yields its existing index,
/// a new pair is appended and yields the next index.
pub open spec fn spec_insert_full(ns: Seq<NodeKey>, kv: NodeKey) -> (Seq<NodeKey>, int) {
    if ns.contains(kv) {
        (ns, spec_index_of(ns, kv))
    } else {
        (ns.push(kv), ns.len() as int)
    }
}

/// The index of `kv` in the store (meaningful when present and the store
/// holds no duplicates).
pub open spec fn spec_index_of(ns: Seq<NodeKey>, kv: NodeKey) -> int {
    choose|i: int| 0 <= i < ns.len() && ns[i] == kv
}

/// In a duplicate-free store an index holding `kv` is the index of `kv`.
pub proof fn lemma_index_unique(ns: Seq<NodeKey>, i: int, kv: NodeKey)
    requires
        ns.no_duplicates(),
        0 <= i < ns.len(),
        ns[i] == kv,
    ensures
        ns.contains(kv),
        spec_index_of(ns, kv) == i,
{
    assert(ns.contains(kv));
    let j = spec_index_of(ns, kv);
    assert(ns[j] == kv);
}

/// Insertion never creates a duplicate pair.
pub proof fn lemma_insert_full_no_dup(ns: Seq<NodeKey>, kv: NodeKey)
    requires
        ns.no_duplicates(),
    ensures
        spec_insert_full(ns, kv).0.no_duplicates(),
        spec_insert_full(ns, kv).0.contains(kv),
        spec_insert_full(ns, kv).1 == spec_index_of(spec_insert_full(ns, kv).0, kv),
        0 <= spec_insert_full(ns, kv).1 < spec_insert_full(ns, kv).0.len(),
        spec_insert_full(ns, kv).0[spec_insert_full(ns, kv).1] == kv,
        ns.len() <= spec_insert_full(ns, kv).0.len() <= ns.len() + 1,
        forall|i: int| 0 <= i < ns.len() ==> spec_insert_full(ns, kv).0[i] == ns[i],
{
    if ns.contains(kv) {
        let j = spec_index_of(ns, kv);
        assert(ns[j] == kv);
    } else {
        let ns1 = ns.push(kv);
        assert forall|i: int, j: int| 0 <= i < j < ns1.len() implies ns1[i] != ns1[j] by {
            if j < ns.len() {
                assert(ns1[i] == ns[i] && ns1[j] == ns[j]);
            } else {
                assert(ns1[j] == kv);
                assert(ns1[i] == ns[i]);
                if ns[i] == kv {
                    assert(ns.contains(kv));
                }
            }
        }
        lemma_index_unique(ns1, ns.len() as int, kv);
    }
}

/// Law: node insertion is idempotent. Inserting the same (content, filename)
/// pair twice yields the same index both times, the second insertion changes
/// nothing, and one insertion grows the store by at most one.
pub proof fn lemma_insert_idempotent(ns: Seq<NodeKey>, kv: NodeKey)
    requires
        ns.no_duplicates(),
    ensures
        spec_insert_full(spec_insert_full(ns, kv).0, kv) == spec_insert_full(ns, kv),
        ns.len() <= spec_insert_full(ns, kv).0.len() <= ns.len() + 1,
{
    lemma_insert_full_no_dup(ns, kv);
    let (ns1, i1) = spec_insert_full(ns, kv);
    assert(ns1.contains(kv));
    assert(spec_insert_full(ns1, kv).0 == ns1);
    assert(spec_insert_full(ns1, kv).1 == spec_index_of(ns1, kv) == i1);
}

/// The identity of the file-marker node for a filename.
pub open spec fn file_key(filename: Seq<char>) -> NodeKey {
    ("FILE: "@ + filename, filename)
}

/// The identity of a directory-marker node for a path.
pub open spec fn dir_key(path: Seq<char>) -> NodeKey {
    ("DIR: "@ + path, Seq::<char>::empty())
}

/// A sequence of indices as mathematics.
pub open spec fn to_ints(s: Seq<usize>) -> Seq<int> {
    s.map_values(|x: usize| x as int)
}

/// A parent index as mathematics.
pub open spec fn opt_idx(p: Option<usize>) -> Option<int> {
    match p {
        Some(i) => Some(i as int),
        None => None,
    }
}

/// The node store, structural edges and collected new-node indices after
/// wiring the first `t` consecutive segment pairs: for each pair, the
/// destination segment's node is inserted (deduplicating; a genuinely new
/// node's index is collected) and a structural edge from the previous
/// segment's node is inserted if absent.
pub open spec fn chain_state(
    ns: Seq<NodeKey>,
    em: Map<(int, int), EdgeV>,
    collected: Seq<int>,
    segs: Seq<Seq<char>>,
    filename: Seq<char>,
    v: EdgeV,
    t: int,
) -> (Seq<NodeKey>, Map<(int, int), EdgeV>, Seq<int>)
    decreases t,
{
    if t <= 0 {
        (ns, em, collected)
    } else {
        let prev = chain_state(ns, em, collected, segs, filename, v, t - 1);
        let from_kv = (segs[t - 1], filename);
        let to_kv = (segs[t], filename);
        let is_new = !prev.0.contains(to_kv);
        let inserted = spec_insert_full(prev.0, to_kv);
        let from_idx = spec_index_of(inserted.0, from_kv);
        (
            inserted.0,
            spec_insert_if_absent(prev.1, (from_idx, inserted.1), v),
            if is_new {
                prev.2.push(inserted.1)
            } else {
                prev.2
            },
        )
    }
}

/// The reference edges after linking one reference node to the first `t`
/// collected new-node indices.
pub open spec fn ref_edges_for(
    rm: Map<(int, int), EdgeV>,
    from_idx: int,
    new_idxs: Seq<int>,
    v: EdgeV,
    t: int,
) -> Map<(int, int), EdgeV>
    decreases t,
{
    if t <= 0 {
        rm
    } else {
        spec_insert_if_absent(
            ref_edges_for(rm, from_idx, new_idxs, v, t - 1),
            (from_idx, new_idxs[t - 1]),
            v,
        )
    }
}

/// The node store and reference edges after processing the first `t`
/// reference nodes: each is inserted (deduplicating) and linked by a
/// reference edge to every collected new-node index.
pub open spec fn refs_state(
    ns: Seq<NodeKey>,
    rm: Map<(int, int), EdgeV>,
    ref_keys: Seq<NodeKey>,
    new_idxs: Seq<int>,
    v: EdgeV,
    t: int,
) -> (Seq<NodeKey>, Map<(int, int), EdgeV>)
    decreases t,
{
    if t <= 0 {
        (ns, rm)
    } else {
        let prev = refs_state(ns, rm, ref_keys, new_idxs, v, t - 1);
        let inserted = spec_insert_full(prev.0, ref_keys[t - 1]);
        (inserted.0, ref_edges_for(prev.1, inserted.1, new_idxs, v, new_idxs.len() as int))
    }
}

/// What one ingestion does to the graph, and the file-marker index it
/// returns. The file-marker node is inserted and, under a parent, linked
/// from it; if the document has no content units that is all. Otherwise the
/// first unit's node is inserted and linked from the file marker, the
/// remaining units are wired as a chain, and every reference node is
/// inserted and linked to each node the ingestion created.
pub open spec fn spec_ingest(
    kb: KbView,
    content: Seq<char>,
    filename: Seq<char>,
    parent: Option<int>,
    ref_keys: Seq<NodeKey>,
    version: int,
    tag: Seq<char>,
) -> (KbView, int) {
    let v = EdgeV { version, tag };
    let file_inserted = spec_insert_full(kb.nodes, file_key(filename));
    let ns1 = file_inserted.0;
    let file_idx = file_inserted.1;
    let em1 = (match parent {
        Some(p) => spec_insert_if_absent(kb.edges, (p, file_idx), v),
        None => kb.edges,
    });
    let segs = segments(content);
    if segs.len() == 0 {
        (KbView { nodes: ns1, edges: em1, refs: kb.refs }, file_idx)
    } else {
        let first_kv = (segs[0], filename);
        let first_new = !ns1.contains(first_kv);
        let first_inserted = spec_insert_full(ns1, first_kv);
        let ns2 = first_inserted.0;
        let first_idx = first_inserted.1;
        let em2 = spec_insert_if_absent(em1, (file_idx, first_idx), v);
        let collected0 = (if first_new {
            seq![first_idx]
        } else {
            Seq::<int>::empty()
        });
        let chain = chain_state(ns2, em2, collected0, segs, filename, v, segs.len() - 1);
        let refs_end = refs_state(chain.0, kb.refs, ref_keys, chain.2, v, ref_keys.len() as int);
        (KbView { nodes: refs_end.0, edges: chain.1, refs: refs_end.1 }, file_idx)
    }
}

/// The latest path from `cur`: `cur`, then the walk from the destination
/// that `next_of` picks, while the fuel lasts. The fuel only cuts a cyclic
/// walk short: an acyclic walk over a table of `f` edges never visits more
/// than `f + 1` nodes, so with that fuel it ends at a node with no outgoing
/// edge.
pub open spec fn walk(m: Map<(int, int), EdgeV>, cur: int, fuel: nat) -> Seq<int>
    decreases fuel,
{
    match next_of(m, cur) {
        None => seq![cur],
        Some(n) => if fuel == 0 {
            seq![cur]
        } else {
            seq![cur] + walk(m, n, (fuel - 1) as nat)
        },
    }
}

/// Law: shape of the latest path. It starts at the start node, every step
/// follows the chosen successor, and it ends at a node without outgoing
/// edges — unless it used up all its fuel, which only a cyclic walk does.
pub proof fn lemma_walk_shape(m: Map<(int, int), EdgeV>, cur: int, fuel: nat)
    ensures
        walk(m, cur, fuel).len() >= 1,
        walk(m, cur, fuel).first() == cur,
        walk(m, cur, fuel).len() <= fuel + 1,
        forall|i: int|
            0 <= i < walk(m, cur, fuel).len() - 1 ==> next_of(m, #[trigger] walk(m, cur, fuel)[i])
                == Some(walk(m, cur, fuel)[i + 1]),
        next_of(m, walk(m, cur, fuel).last()) is Some ==> walk(m, cur, fuel).len() == fuel + 1,
    decreases fuel,
{
    let w = walk(m, cur, fuel);
    match next_of(m, cur) {
        None => {},
        Some(n) => {
            if fuel > 0 {
                lemma_walk_shape(m, n, (fuel - 1) as nat);
                let tail = walk(m, n, (fuel - 1) as nat);
                assert(w == seq![cur] + tail);
                assert(w.last() == tail.last());
                assert forall|i: int| 0 <= i < w.len() - 1 implies next_of(m, #[trigger] w[i])
                    == Some(w[i + 1]) by {
                    if i == 0 {
                        assert(w[0] == cur && w[1] == tail[0]);
                    } else {
                        assert(w[i] == tail[i - 1] && w[i + 1] == tail[i]);
                        assert(next_of(m, tail[i - 1]) == Some(tail[i]));
                    }
                }
            }
        },
    }
}

/// The indices of `p` that lie inside a node store of `ns_len` nodes, in order.
pub open spec fn keep_valid(ns_len: int, p: Seq<int>) -> Seq<int>
    decreases p.len(),
{
    if p.len() == 0 {
        Seq::empty()
    } else {
        let rest = keep_valid(ns_len, p.drop_last());
        if 0 <= p.last() < ns_len {
            rest.push(p.last())
        } else {
            rest
        }
    }
}

/// The contents of the nodes at these indices.
pub open spec fn contents_of(ns: Seq<NodeKey>, idxs: Seq<int>) -> Seq<Seq<char>> {
    idxs.map_values(|i: int| ns[i].0)
}

/// What reconstructing a file returns: `None` when no file-marker node for
/// `filename` exists; otherwise the latest path is walked from the file
/// marker, the nodes after it (skipping indices outside the store) are the
/// document's units, and their contents joined by newlines are its text.
pub open spec fn spec_read_file(kb: KbView, filename: Seq<char>) -> Option<(Seq<char>, Seq<int>)> {
    if !kb.nodes.contains(file_key(filename)) {
        None
    } else {
        let fi = spec_index_of(kb.nodes, file_key(filename));
        let p = walk(kb.edges, fi, kb.edges.dom().len());
        let idxs = keep_valid(kb.nodes.len() as int, p.skip(1));
        Some((join_lines(contents_of(kb.nodes, idxs)), idxs))
    }
}

proof fn lemma_ref_edges_for_additive(
    rm: Map<(int, int), EdgeV>,
    from_idx: int,
    new_idxs: Seq<int>,
    v: EdgeV,
    t: int,
)
    ensures
        forall|k: (int, int)|
            rm.contains_key(k) ==> #[trigger] ref_edges_for(rm, from_idx, new_idxs, v, t).contains_key(
                k,
            ) && ref_edges_for(rm, from_idx, new_idxs, v, t)[k] == rm[k],
    decreases t,
{
    if t > 0 {
        lemma_ref_edges_for_additive(rm, from_idx, new_idxs, v, t - 1);
        let prev = ref_edges_for(rm, from_idx, new_idxs, v, t - 1);
        assert forall|k: (int, int)| rm.contains_key(k) implies #[trigger] ref_edges_for(
            rm,
            from_idx,
            new_idxs,
            v,
            t,
        ).contains_key(k) && ref_edges_for(rm, from_idx, new_idxs, v, t)[k] == rm[k] by {
            assert(ref_edges_for(rm, from_idx, new_idxs, v, t - 1).contains_key(k)
                && ref_edges_for(rm, from_idx, new_idxs, v, t - 1)[k] == rm[k]);
            assert(ref_edges_for(rm, from_idx, new_idxs, v, t) == spec_insert_if_absent(
                prev,
                (from_idx, new_idxs[t - 1]),
                v,
            ));
        }
    }
}

proof fn lemma_chain_additive(
    ns: Seq<NodeKey>,
    em: Map<(int, int), EdgeV>,
    collected: Seq<int>,
    segs: Seq<Seq<char>>,
    filename: Seq<char>,
    v: EdgeV,
    t: int,
)
    requires
        ns.no_duplicates(),
    ensures
        chain_state(ns, em, collected, segs, filename, v, t).0.no_duplicates(),
        chain_state(ns, em, collected, segs, filename, v, t).0.len() >= ns.len(),
        forall|i: int|
            0 <= i < ns.len() ==> #[trigger] chain_state(ns, em, collected, segs, filename, v, t).0[i]
                == ns[i],
        forall|k: (int, int)|
            em.contains_key(k) ==> #[trigger] chain_state(
                ns,
                em,
                collected,
                segs,
                filename,
                v,
                t,
            ).1.contains_key(k) && chain_state(ns, em, collected, segs, filename, v, t).1[k]
                == em[k],
    decreases t,
{
    if t > 0 {
        lemma_chain_additive(ns, em, collected, segs, filename, v, t - 1);
        let prev = chain_state(ns, em, collected, segs, filename, v, t - 1);
        lemma_insert_full_no_dup(prev.0, (segs[t - 1], filename));
        lemma_insert_full_no_dup(prev.0, (segs[t], filename));
    }
}

proof fn lemma_refs_additive(
    ns: Seq<NodeKey>,
    rm: Map<(int, int), EdgeV>,
    ref_keys: Seq<NodeKey>,
    new_idxs: Seq<int>,
    v: EdgeV,
    t: int,
)
    requires
        ns.no_duplicates(),
    ensures
        refs_state(ns, rm, ref_keys, new_idxs, v, t).0.no_duplicates(),
        refs_state(ns, rm, ref_keys, new_idxs, v, t).0.len() >= ns.len(),
        forall|i: int|
            0 <= i < ns.len() ==> #[trigger] refs_state(ns, rm, ref_keys, new_idxs, v, t).0[i]
                == ns[i],
        forall|k: (int, int)|
            rm.contains_key(k) ==> #[trigger] refs_state(ns, rm, ref_keys, new_idxs, v, t).1.contains_key(
                k,
            ) && refs_state(ns, rm, ref_keys, new_idxs, v, t).1[k] == rm[k],
    decreases t,
{
    if t > 0 {
        lemma_refs_additive(ns, rm, ref_keys, new_idxs, v, t - 1);
        let prev = refs_state(ns, rm, ref_keys, new_idxs, v, t - 1);
        lemma_insert_full_no_dup(prev.0, ref_keys[t - 1]);
        lemma_ref_edges_for_additive(
            prev.1,
            spec_insert_full(prev.0, ref_keys[t - 1]).1,
            new_idxs,
            v,
            new_idxs.len() as int,
        );
    }
}

/// Law: ingestion is strictly additive. Every node keeps its index and
/// identity, and every structural and reference edge already present keeps
/// its version and tag: nothing is removed, renumbered or overwritten.
pub proof fn lemma_ingest_additive(
    kb: KbView,
    content: Seq<char>,
    filename: Seq<char>,
    parent: Option<int>,
    ref_keys: Seq<NodeKey>,
    version: int,
    tag: Seq<char>,
)
    requires
        kb.nodes.no_duplicates(),
    ensures
        ({
            let next = spec_ingest(kb, content, filename, parent, ref_keys, version, tag).0;
            &&& next.nodes.len() >= kb.nodes.len()
            &&& forall|i: int| 0 <= i < kb.nodes.len() ==> #[trigger] next.nodes[i] == kb.nodes[i]
            &&& forall|k: (int, int)|
                kb.edges.contains_key(k) ==> #[trigger] next.edges.contains_key(k) && next.edges[k]
                    == kb.edges[k]
            &&& forall|k: (int, int)|
                kb.refs.contains_key(k) ==> #[trigger] next.refs.contains_key(k) && next.refs[k]
                    == kb.refs[k]
        }),
{
    let v = EdgeV { version, tag };
    let fk = file_key(filename);
    lemma_insert_full_no_dup(kb.nodes, fk);
    let ns1 = spec_insert_full(kb.nodes, fk).0;
    let file_idx = spec_insert_full(kb.nodes, fk).1;
    let em1 = (match parent {
        Some(p) => spec_insert_if_absent(kb.edges, (p, file_idx), v),
        None => kb.edges,
    });
    let segs = segments(content);
    if segs.len() == 0 {
    } else {
        let first_kv = (segs[0], filename);
        lemma_insert_full_no_dup(ns1, first_kv);
        let ns2 = spec_insert_full(ns1, first_kv).0;
        let first_idx = spec_insert_full(ns1, first_kv).1;
        let em2 = spec_insert_if_absent(em1, (file_idx, first_idx), v);
        let collected0 = (if !ns1.contains(first_kv) {
            seq![first_idx]
        } else {
            Seq::<int>::empty()
        });
        lemma_chain_additive(ns2, em2, collected0, segs, filename, v, segs.len() - 1);
        let chain = chain_state(ns2, em2, collected0, segs, filename, v, segs.len() - 1);
        lemma_refs_additive(chain.0, kb.refs, ref_keys, chain.2, v, ref_keys.len() as int);
    }
}

/// Law: round trip. Ingesting a single-paragraph document (one whose
/// segmentation is exactly one content unit) into an empty knowledge base
/// and reading the file back returns exactly that unit's text — the
/// document as segmented and rejoined.
pub proof fn lemma_ingest_read_round_trip(
    content: Seq<char>,
    filename: Seq<char>,
    version: int,
    tag: Seq<char>,
)
    requires
        segments(content).len() == 1,
    ensures
        ({
            let empty = KbView {
                nodes: Seq::<NodeKey>::empty(),
                edges: Map::<(int, int), EdgeV>::empty(),
                refs: Map::<(int, int), EdgeV>::empty(),
            };
            let out = spec_read_file(
                spec_ingest(
                    empty,
                    content,
                    filename,
                    None,
                    Seq::<NodeKey>::empty(),
                    version,
                    tag,
                ).0,
                filename,
            );
            &&& out is Some
            &&& out matches Some(r) && r.0 == segments(content)[0]
        }),
{
    let empty = KbView {
        nodes: Seq::<NodeKey>::empty(),
        edges: Map::<(int, int), EdgeV>::empty(),
        refs: Map::<(int, int), EdgeV>::empty(),
    };
    let v = EdgeV { version, tag };
    let fk = file_key(filename);
    let segs = segments(content);
    let first_kv = (segs[0], filename);
    let ingested = spec_ingest(empty, content, filename, None, Seq::<NodeKey>::empty(), version, tag);
    let kb = ingested.0;
    assert(!empty.nodes.contains(fk));
    let ns1 = seq![fk];
    assert(spec_insert_full(empty.nodes, fk).0 =~= ns1);
    assert(spec_insert_full(empty.nodes, fk).1 == 0);
    lemma_insert_full_no_dup(empty.nodes, fk);
    assert(chain_state(
        spec_insert_full(ns1, first_kv).0,
        spec_insert_if_absent(empty.edges, (0, spec_insert_full(ns1, first_kv).1), v),
        if !ns1.contains(first_kv) {
            seq![spec_insert_full(ns1, first_kv).1]
        } else {
            Seq::<int>::empty()
        },
        segs,
        filename,
        v,
        0,
    ) == (
        spec_insert_full(ns1, first_kv).0,
        spec_insert_if_absent(empty.edges, (0, spec_insert_full(ns1, first_kv).1), v),
        if !ns1.contains(first_kv) {
            seq![spec_insert_full(ns1, first_kv).1]
        } else {
            Seq::<int>::empty()
        },
    ));
    lemma_insert_full_no_dup(ns1, first_kv);
    if ns1.contains(first_kv) {
        // The single unit is itself the file marker: its node and the file
        // marker coincide at index 0 and the one edge is (0, 0).
        assert(ns1[0] == first_kv);
        assert(spec_insert_full(ns1, first_kv).0 == ns1);
        lemma_index_unique(ns1, 0, first_kv);
        assert(spec_insert_full(ns1, first_kv).1 == 0);
        assert(kb.nodes == ns1);
        let em = spec_insert_if_absent(empty.edges, (0, 0), v);
        assert(kb.edges == em);
        assert(em == empty.edges.insert((0, 0), v));
        assert(em.dom() =~= Set::<(int, int)>::empty().insert((0, 0)));
        assert(em.dom().len() == 1);
        assert(kb.nodes.contains(fk));
        lemma_index_unique(kb.nodes, 0, fk);
        assert(spec_index_of(kb.nodes, fk) == 0);
        assert(is_best_next(em, 0, 0));
        assert forall|d: int| is_best_next(em, 0, d) implies d == 0 by {
            assert(em.contains_key((0, d)));
        }
        let p = walk(em, 0, 1);
        assert(next_of(em, 0) == Some(0int)) by {
            assert(is_best_next(em, 0, choose|d: int| is_best_next(em, 0, d)));
        }
        assert(walk(em, 0, 0) == seq![0int]);
        assert(p == seq![0int] + walk(em, 0, 0));
        assert(p =~= seq![0int, 0int]);
        assert(p.skip(1) =~= seq![0int]);
        assert(keep_valid(1, seq![0int]) == keep_valid(1, seq![0int].drop_last()).push(0));
        assert(seq![0int].drop_last() =~= Seq::<int>::empty());
        assert(keep_valid(1, seq![0int]) =~= seq![0int]);
        let idxs = keep_valid(kb.nodes.len() as int, p.skip(1));
        assert(idxs == seq![0int]);
        assert(contents_of(kb.nodes, idxs) =~= seq![fk.0]);
        assert(join_lines(seq![fk.0]) == fk.0);
        assert(fk.0 == segs[0]);
    } else {
        let ns2 = ns1.push(first_kv);
        assert(spec_insert_full(ns1, first_kv).0 == ns2);
        assert(spec_insert_full(ns1, first_kv).1 == 1);
        assert(kb.nodes == ns2);
        let em = spec_insert_if_absent(empty.edges, (0, 1), v);
        assert(kb.edges == em);
        assert(em == empty.edges.insert((0, 1), v));
        assert(em.dom() =~= Set::<(int, int)>::empty().insert((0, 1)));
        assert(em.dom().len() == 1);
        assert(ns2[0] == fk && ns2[1] == first_kv);
        assert(kb.nodes.contains(fk));
        lemma_index_unique(ns2, 0, fk);
        assert(spec_index_of(kb.nodes, fk) == 0);
        assert(is_best_next(em, 0, 1)) by {
            assert(em.contains_key((0, 1)));
        }
        assert forall|d: int| is_best_next(em, 0, d) implies d == 1 by {
            assert(em.contains_key((0, d)));
        }
        let p = walk(em, 0, 1);
        assert(next_of(em, 0) == Some(1int)) by {
            assert(is_best_next(em, 0, choose|d: int| is_best_next(em, 0, d)));
        }
        assert(forall|d: int| !em.contains_key((1, d)));
        assert(next_of(em, 1) is None) by {
            if exists|d: int| is_best_next(em, 1, d) {
                let d = choose|d: int| is_best_next(em, 1, d);
                assert(em.contains_key((1, d)));
            }
        }
        assert(walk(em, 1, 0) == seq![1int]);
        assert(p == seq![0int] + walk(em, 1, 0));
        assert(p =~= seq![0int, 1int]);
        assert(p.skip(1) =~= seq![1int]);
        assert(keep_valid(2, seq![1int]) == keep_valid(2, seq![1int].drop_last()).push(1));
        assert(seq![1int].drop_last() =~= Seq::<int>::empty());
        assert(keep_valid(2, seq![1int]) =~= seq![1int]);
        let idxs = keep_valid(kb.nodes.len() as int, p.skip(1));
        assert(idxs == seq![1int]);
        assert(contents_of(kb.nodes, idxs) =~= seq![first_kv.0]);
        assert(join_lines(seq![first_kv.0]) == segs[0]);
    }
}

/// Whether `c` begins with the file-marker prefix.
fn is_file_marker(c: &str) -> (r: bool)
    ensures
        r == (c@.len() >= 6 && c@.take(6) == "FILE: "@),
{
    proof {
        reveal_strlit("FILE: ");
    }
    let n = c.unicode_len();
    if n < 6 {
        return false;
    }
    let r = c.get_char(0) == 'F' && c.get_char(1) == 'I' && c.get_char(2) == 'L' && c.get_char(3)
        == 'E' && c.get_char(4) == ':' && c.get_char(5) == ' ';
    proof {
        assert(forall|j: int| 0 <= j < 6 ==> #[trigger] c@.take(6)[j] == c@[j]);
        if r {
            assert(c@.take(6) =~= "FILE: "@);
        } else {
            if c@.take(6) == "FILE: "@ {
                assert forall|j: int| 0 <= j < 6 implies c@[j] == "FILE: "@[j] by {
                    assert(c@.take(6)[j] == c@[j]);
                }
                assert(c@[0] == 'F' && c@[1] == 'I' && c@[2] == 'L' && c@[3] == 'E' && c@[4] == ':'
                    && c@[5] == ' ');
            }
        }
    }
    r
}

/// Inserts `name` into a strictly sorted list of names unless it is already
/// there, keeping the list strictly sorted.
fn insert_sorted_dedup(files: &mut Vec<String>, name: String)
    requires
        lex_sorted(old(files).deep_view()),
    ensures
        lex_sorted(final(files).deep_view()),
        forall|s: Seq<char>|
            #[trigger] final(files).deep_view().contains(s) <==> (old(
                files,
            ).deep_view().contains(s) || s == name@),
{
    let ghost dv = files.deep_view();
    let n = files.len();
    let mut pos: usize = 0;
    while pos < n && str_lex_lt(files[pos].as_str(), name.as_str())
        invariant
            pos <= n,
            n == files.deep_view().len(),
            dv == files.deep_view(),
            lex_sorted(dv),
            forall|j: int| 0 <= j < pos ==> lex_lt(#[trigger] dv[j], name@),
        decreases n - pos,
    {
        proof {
            assert(dv[pos as int] == files@[pos as int]@);
        }
        pos += 1;
    }
    if pos < n && files[pos].eq(&name) {
        proof {
            assert(dv[pos as int] == name@);
            assert(dv.contains(name@));
        }
        return ;
    }
    proof {
        assert forall|j: int| pos <= j < n implies lex_lt(name@, #[trigger] dv[j]) by {
            assert(dv[pos as int] == files@[pos as int]@);
            if pos < n {
                assert(!lex_lt(dv[pos as int], name@));
                assert(dv[pos as int] != name@);
                lemma_lex_total(dv[pos as int], name@);
                if j > pos {
                    lemma_lex_trans(name@, dv[pos as int], dv[j]);
                }
            }
        }
    }
    let ghost nv = name@;
    files.insert(pos, name);
    proof {
        files@.insert_ensures(pos as int, files@[pos as int]);
        assert forall|j: int| 0 <= j < files.deep_view().len() implies #[trigger] files.deep_view()[j]
            == (if j < pos {
            dv[j]
        } else if j == pos {
            nv
        } else {
            dv[j - 1]
        }) by {
            assert(files.deep_view()[j] == files@[j]@);
        }
        assert(lex_sorted(files.deep_view())) by {
            assert forall|x: int, y: int| 0 <= x < y < files.deep_view().len() implies lex_lt(
                #[trigger] files.deep_view()[x],
                #[trigger] files.deep_view()[y],
            ) by {
                let a = files.deep_view()[x];
                let b = files.deep_view()[y];
                if x < pos && y < pos {
                } else if x < pos && y == pos {
                } else if x < pos && y > pos {
                    assert(lex_lt(dv[x], name@) && lex_lt(name@, dv[y - 1]));
                    lemma_lex_trans(dv[x], name@, dv[y - 1]);
                } else if x == pos {
                } else {
                }
            }
        }
        assert forall|s: Seq<char>| #[trigger] files.deep_view().contains(s) implies (dv.contains(
            s,
        ) || s == nv) by {
            let j = choose|j: int| 0 <= j < files.deep_view().len() && files.deep_view()[j] == s;
            if j < pos {
                assert(dv[j] == s);
            } else if j > pos {
                assert(dv[j - 1] == s);
            }
        }
        assert forall|s: Seq<char>| (dv.contains(s) || s == nv) implies #[trigger] files.deep_view().contains(
            s,
        ) by {
            if dv.contains(s) {
                let j = choose|j: int| 0 <= j < dv.len() && dv[j] == s;
                if j < pos {
                    assert(files.deep_view()[j] == s);
                } else {
                    assert(files.deep_view()[j + 1] == s);
                }
            } else {
                assert(files.deep_view()[pos as int] == s);
            }
        }
    }
}

/// The whole graph as mathematics: the node store in insertion order and
/// the two edge tables as maps.
#[verifier::ext_equal]
pub struct KbView {
    pub nodes: Seq<NodeKey>,
    pub edges: Map<(int, int), EdgeV>,
    pub refs: Map<(int, int), EdgeV>,
}

/// The provenance graph: deduplicated nodes, structural edges, reference
/// edges. Strictly append-only: nodes and edges are never removed,
/// renumbered or overwritten.
#[derive(Debug)]
pub struct KnowledgeBase {
    edge_table: EdgeTable,
    ref_table: EdgeTable,
    node_table: IndexSet<(String, String)>,
}

impl View for KnowledgeBase {
    type V = KbView;

    closed spec fn view(&self) -> KbView {
        KbView {
            nodes: set_elems(self.node_table),
            edges: self.edge_table@,
            refs: self.ref_table@,
        }
    }
}

impl KnowledgeBase {
    /// The node identities in insertion order.
    pub open spec fn nodes_view(self) -> Seq<NodeKey> {
        self@.nodes
    }

    /// The structural edges as a map from (source, destination) to edge.
    pub open spec fn edges_view(self) -> Map<(int, int), EdgeV> {
        self@.edges
    }

    /// The reference edges as a map from (source, destination) to edge.
    pub open spec fn refs_view(self) -> Map<(int, int), EdgeV> {
        self@.refs
    }

    /// The rows of the reference edge table, in ascending key order. On a
    /// well-formed knowledge base this row order is determined by
    /// `refs_view` alone (`lemma_sorted_rows_unique`), so contracts stated
    /// over it are pinned by the map.
    pub closed spec fn ref_rows(self) -> Seq<EdgeEntry> {
        self.ref_table.rows()
    }

    /// On a well-formed knowledge base the reference rows are strictly
    /// sorted and denote exactly the reference edge map.
    pub proof fn lemma_wf_ref_rows(self)
        requires
            self.wf(),
        ensures
            crate::edge_table::sorted_strict(self.ref_rows()),
            crate::edge_table::table_map(self.ref_rows()) == self.refs_view(),
    {
    }

    /// Well-formed: the node store holds no duplicate identity and both
    /// edge tables are ordered with unique keys.
    pub closed spec fn wf(self) -> bool {
        &&& self.nodes_view().no_duplicates()
        &&& self.edge_table.wf()
        &&& self.ref_table.wf()
    }

    /// An empty knowledge base.
    pub fn new() -> (kb: KnowledgeBase)
        ensures
            kb.wf(),
            kb.nodes_view() == Seq::<NodeKey>::empty(),
            kb.edges_view() == Map::<(int, int), EdgeV>::empty(),
            kb.refs_view() == Map::<(int, int), EdgeV>::empty(),
    {
        KnowledgeBase {
            edge_table: EdgeTable::new(),
            ref_table: EdgeTable::new(),
            node_table: iset_new(),
        }
    }

    /// Inserts a node with this content and filename, deduplicating by
    /// identity, and returns its permanent index.
    pub fn insert_node(&mut self, content: &str, filename: &str) -> (idx: usize)
        requires
            old(self).wf(),
        ensures
            final(self).wf(),
            final(self).nodes_view() == spec_insert_full(
                old(self).nodes_view(),
                (content@, filename@),
            ).0,
            idx as int == spec_insert_full(old(self).nodes_view(), (content@, filename@)).1,
            final(self).edges_view() == old(self).edges_view(),
            final(self).refs_view() == old(self).refs_view(),
    {
        let key = (content.to_owned(), filename.to_owned());
        proof {
            lemma_insert_full_no_dup(self.nodes_view(), (content@, filename@));
        }
        let (idx, is_new) = iset_insert_full(&mut self.node_table, key);
        proof {
            let ns = old(self).nodes_view();
            let kv = (content@, filename@);
            if ns.contains(kv) {
                lemma_index_unique(ns, idx as int, kv);
            } else {
                assert(self.nodes_view() == ns.push(kv));
                if idx < ns.len() {
                    assert(ns[idx as int] == kv);
                    assert(ns.contains(kv));
                }
                assert(idx as int == ns.len());
            }
        }
        idx
    }

    /// Inserts a directory-marker node for this path (content
    /// `"DIR: <path>"`, empty filename) and returns its index.
    pub fn insert_directory(&mut self, directory_path: &str) -> (idx: usize)
        requires
            old(self).wf(),
        ensures
            final(self).wf(),
            final(self).nodes_view() == spec_insert_full(
                old(self).nodes_view(),
                dir_key(directory_path@),
            ).0,
            idx as int == spec_insert_full(old(self).nodes_view(), dir_key(directory_path@)).1,
            final(self).edges_view() == old(self).edges_view(),
            final(self).refs_view() == old(self).refs_view(),
    {
        let content = String::from_str("DIR: ").concat(directory_path);
        let key = (content, String::new());
        proof {
            lemma_insert_full_no_dup(self.nodes_view(), dir_key(directory_path@));
        }
        let (idx, is_new) = iset_insert_full(&mut self.node_table, key);
        proof {
            let ns = old(self).nodes_view();
            let kv = dir_key(directory_path@);
            if ns.contains(kv) {
                lemma_index_unique(ns, idx as int, kv);
            } else {
                assert(self.nodes_view() == ns.push(kv));
                if idx < ns.len() {
                    assert(ns[idx as int] == kv);
                    assert(ns.contains(kv));
                }
                assert(idx as int == ns.len());
            }
        }
        idx
    }

    /// Ingests a document. A file-marker node for `filename` is created (or
    /// found), linked under `parent_idx` when one is given; the document is
    /// segmented into its non-empty lines; each line becomes a node
    /// (deduplicated) and consecutive lines are linked by structural edges at
    /// the given version, the file marker linked to the first line. Every
    /// supplied reference node is then linked by a reference edge to each
    /// node this ingestion genuinely created. All insertions are additive:
    /// existing nodes keep their indices, existing edges their version and
    /// tag. Returns the file-marker node's index.
    pub fn insert_markdown(
        &mut self,
        markdown_content: &str,
        filename: &str,
        parent_idx: Option<usize>,
        reference_nodes: Vec<Node>,
        version: i32,
        tag: &str,
    ) -> (file_idx: usize)
        requires
            old(self).wf(),
        ensures
            final(self).wf(),
            final(self)@ == spec_ingest(
                old(self)@,
                markdown_content@,
                filename@,
                opt_idx(parent_idx),
                reference_nodes.deep_view(),
                version as int,
                tag@,
            ).0,
            file_idx as int == spec_ingest(
                old(self)@,
                markdown_content@,
                filename@,
                opt_idx(parent_idx),
                reference_nodes.deep_view(),
                version as int,
                tag@,
            ).1,
    {
        let ghost kb0 = self@;
        let ghost v = EdgeV { version: version as int, tag: tag@ };
        let ghost target = spec_ingest(
            kb0,
            markdown_content@,
            filename@,
            opt_idx(parent_idx),
            reference_nodes.deep_view(),
            version as int,
            tag@,
        );

        // File-marker node, linked under the parent when one is given.
        let file_content = String::from_str("FILE: ").concat(filename);
        let file_key_x = (file_content, filename.to_owned());
        proof {
            lemma_insert_full_no_dup(self.nodes_view(), file_key(filename@));
        }
        let (file_idx, _file_new) = iset_insert_full(&mut self.node_table, file_key_x);
        proof {
            let ns = kb0.nodes;
            let kv = file_key(filename@);
            if ns.contains(kv) {
                lemma_index_unique(ns, file_idx as int, kv);
            } else {
                if file_idx < ns.len() {
                    assert(ns[file_idx as int] == kv);
                    assert(ns.contains(kv));
                }
            }
            assert(self@.nodes == spec_insert_full(kb0.nodes, kv).0);
            assert(file_idx as int == spec_insert_full(kb0.nodes, kv).1);
        }
        let ghost ns1 = spec_insert_full(kb0.nodes, file_key(filename@)).0;
        match parent_idx {
            Some(p) => {
                let _ = self.edge_table.insert_if_absent(p, file_idx, version, tag.to_owned());
            },
            None => {},
        }
        let ghost em1 = (match opt_idx(parent_idx) {
            Some(p) => spec_insert_if_absent(kb0.edges, (p, file_idx as int), v),
            None => kb0.edges,
        });
        proof {
            assert(self@.nodes == ns1 && self@.edges == em1 && self@.refs == kb0.refs);
        }

        // Content nodes: the non-empty lines, wired as a chain.
        let content_nodes = segment_text(markdown_content);
        let ghost segs = segments(markdown_content@);
        if content_nodes.len() == 0 {
            proof {
                assert(self@ =~= target.0);
            }
            return file_idx;
        }
        let first_key_x = (content_nodes[0].clone(), filename.to_owned());
        let ghost first_kv = (segs[0], filename@);
        proof {
            lemma_insert_full_no_dup(ns1, first_kv);
        }
        let (first_idx, first_new) = iset_insert_full(&mut self.node_table, first_key_x);
        proof {
            if ns1.contains(first_kv) {
                lemma_index_unique(ns1, first_idx as int, first_kv);
            } else {
                if first_idx < ns1.len() {
                    assert(ns1[first_idx as int] == first_kv);
                    assert(ns1.contains(first_kv));
                }
            }
            assert(self@.nodes == spec_insert_full(ns1, first_kv).0);
            assert(first_idx as int == spec_insert_full(ns1, first_kv).1);
            assert(first_new == !ns1.contains(first_kv));
        }
        let ghost ns2 = spec_insert_full(ns1, first_kv).0;
        let _ = self.edge_table.insert_if_absent(file_idx, first_idx, version, tag.to_owned());
        let ghost em2 = spec_insert_if_absent(em1, (file_idx as int, first_idx as int), v);
        let mut new_node_indices: Vec<usize> = Vec::new();
        if first_new {
            new_node_indices.push(first_idx);
        }
        let ghost new0 = (if !ns1.contains(first_kv) {
            seq![first_idx as int]
        } else {
            Seq::<int>::empty()
        });
        proof {
            assert(new_node_indices@.map_values(|x: usize| x as int) =~= new0);
        }

        let m = content_nodes.len();
        let mut prev_idx = first_idx;
        let mut j: usize = 1;
        while j < m
            invariant
                1 <= j <= m,
                old(self).wf(),
                m == segs.len(),
                segs == segments(markdown_content@),
                content_nodes.deep_view() == segs,
                v == (EdgeV { version: version as int, tag: tag@ }),
                self.wf(),
                self@.refs == kb0.refs,
                ns2.no_duplicates(),
                self@.nodes == chain_state(ns2, em2, new0, segs, filename@, v, j - 1).0,
                self@.edges == chain_state(ns2, em2, new0, segs, filename@, v, j - 1).1,
                new_node_indices@.map_values(|x: usize| x as int) == chain_state(
                    ns2,
                    em2,
                    new0,
                    segs,
                    filename@,
                    v,
                    j - 1,
                ).2,
                prev_idx < self@.nodes.len(),
                self@.nodes[prev_idx as int] == (segs[j - 1], filename@),
            decreases m - j,
        {
            let ghost st = chain_state(ns2, em2, new0, segs, filename@, v, j - 1);
            let ghost to_kv = (segs[j as int], filename@);
            let to_key_x = (content_nodes[j].clone(), filename.to_owned());
            proof {
                lemma_insert_full_no_dup(st.0, to_kv);
                assert(to_key_x.0@ == content_nodes.deep_view()[j as int]);
            }
            let (to_idx, is_new) = iset_insert_full(&mut self.node_table, to_key_x);
            proof {
                if st.0.contains(to_kv) {
                    lemma_index_unique(st.0, to_idx as int, to_kv);
                } else {
                    if to_idx < st.0.len() {
                        assert(st.0[to_idx as int] == to_kv);
                        assert(st.0.contains(to_kv));
                    }
                }
                assert(self@.nodes == spec_insert_full(st.0, to_kv).0);
                assert(to_idx as int == spec_insert_full(st.0, to_kv).1);
                assert(is_new == !st.0.contains(to_kv));
            }
            let ghost prev_new = new_node_indices@.map_values(|x: usize| x as int);
            if is_new {
                new_node_indices.push(to_idx);
                proof {
                    assert(new_node_indices@.map_values(|x: usize| x as int) =~= prev_new.push(
                        to_idx as int,
                    ));
                }
            }
            let _ = self.edge_table.insert_if_absent(prev_idx, to_idx, version, tag.to_owned());
            proof {
                let ns_next = spec_insert_full(st.0, to_kv).0;
                assert(ns_next[prev_idx as int] == (segs[j - 1], filename@));
                lemma_index_unique(ns_next, prev_idx as int, (segs[j - 1], filename@));
                assert(prev_idx as int == spec_index_of(ns_next, (segs[j - 1], filename@)));
                assert(chain_state(ns2, em2, new0, segs, filename@, v, j as int) == (
                    spec_insert_full(st.0, to_kv).0,
                    spec_insert_if_absent(
                        st.1,
                        (
                            spec_index_of(ns_next, (segs[j - 1], filename@)),
                            spec_insert_full(st.0, to_kv).1,
                        ),
                        v,
                    ),
                    if !st.0.contains(to_kv) {
                        st.2.push(spec_insert_full(st.0, to_kv).1)
                    } else {
                        st.2
                    },
                ));
                assert(self@.nodes[to_idx as int] == to_kv);
            }
            prev_idx = to_idx;
            j += 1;
        }
        let ghost chain_end = chain_state(ns2, em2, new0, segs, filename@, v, m - 1);
        let ghost new_idxs = chain_end.2;

        // Reference edges: each reference node points at every node this
        // ingestion created.
        let rcount = reference_nodes.len();
        let mut k: usize = 0;
        while k < rcount
            invariant
                k <= rcount,
                old(self).wf(),
                rcount == reference_nodes.deep_view().len(),
                v == (EdgeV { version: version as int, tag: tag@ }),
                self.wf(),
                chain_end == chain_state(ns2, em2, new0, segs, filename@, v, m as int - 1),
                new_idxs == chain_end.2,
                ns2.no_duplicates(),
                self@.edges == chain_end.1,
                new_node_indices@.map_values(|x: usize| x as int) == new_idxs,
                self@.nodes == refs_state(
                    chain_end.0,
                    kb0.refs,
                    reference_nodes.deep_view(),
                    new_idxs,
                    v,
                    k as int,
                ).0,
                self@.refs == refs_state(
                    chain_end.0,
                    kb0.refs,
                    reference_nodes.deep_view(),
                    new_idxs,
                    v,
                    k as int,
                ).1,
            decreases rcount - k,
        {
            let ghost st = refs_state(
                chain_end.0,
                kb0.refs,
                reference_nodes.deep_view(),
                new_idxs,
                v,
                k as int,
            );
            let ghost ref_kv = reference_nodes.deep_view()[k as int];
            let ref_key_x = (
                reference_nodes[k].content.clone(),
                reference_nodes[k].filename.clone(),
            );
            proof {
                lemma_insert_full_no_dup(st.0, ref_kv);
                assert((ref_key_x.0@, ref_key_x.1@) == ref_kv);
            }
            let (from_idx, _ref_new) = iset_insert_full(&mut self.node_table, ref_key_x);
            proof {
                if st.0.contains(ref_kv) {
                    lemma_index_unique(st.0, from_idx as int, ref_kv);
                } else {
                    if from_idx < st.0.len() {
                        assert(st.0[from_idx as int] == ref_kv);
                        assert(st.0.contains(ref_kv));
                    }
                }
                assert(self@.nodes == spec_insert_full(st.0, ref_kv).0);
                assert(from_idx as int == spec_insert_full(st.0, ref_kv).1);
            }
            let nn = new_node_indices.len();
            let mut t: usize = 0;
            while t < nn
                invariant
                    t <= nn,
                    old(self).wf(),
                    v == (EdgeV { version: version as int, tag: tag@ }),
                    self.wf(),
                    nn == new_idxs.len(),
                    new_node_indices@.map_values(|x: usize| x as int) == new_idxs,
                    self@.nodes == spec_insert_full(st.0, ref_kv).0,
                    self@.edges == chain_end.1,
                    self@.refs == ref_edges_for(st.1, from_idx as int, new_idxs, v, t as int),
                decreases nn - t,
            {
                proof {
                    assert(new_idxs[t as int] == new_node_indices@[t as int] as int);
                }
                let _ = self.ref_table.insert_if_absent(
                    from_idx,
                    new_node_indices[t],
                    version,
                    tag.to_owned(),
                );
                t += 1;
            }
            proof {
                assert(refs_state(
                    chain_end.0,
                    kb0.refs,
                    reference_nodes.deep_view(),
                    new_idxs,
                    v,
                    k + 1,
                ) == (
                    spec_insert_full(st.0, ref_kv).0,
                    ref_edges_for(st.1, spec_insert_full(st.0, ref_kv).1, new_idxs, v, new_idxs.len() as int),
                ));
            }
            k += 1;
        }
        proof {
            assert(self@ =~= target.0);
            assert(file_idx as int == target.1);
        }
        file_idx
    }

    /// Walks the latest path from a node: at each step the outgoing
    /// structural edge with the highest version is followed, ties broken
    /// towards the highest destination index; the walk ends at a node with
    /// no outgoing edge. A walk that would revisit a node repeats forever,
    /// so it is cut off once it is longer than the edge table: that bound
    /// truncates only cyclic walks, which would otherwise never finish.
    pub fn traverse_latest_path(&self, start_idx: usize) -> (path: Vec<usize>)
        requires
            self.wf(),
        ensures
            path@.map_values(|x: usize| x as int) == walk(
                self.edges_view(),
                start_idx as int,
                self.edges_view().dom().len(),
            ),
    {
        let ghost m = self.edges_view();
        proof {
            lemma_table_map_len(self.edge_table.rows());
        }
        let cap = self.edge_table.len();
        let mut path: Vec<usize> = Vec::new();
        let mut cur = start_idx;
        path.push(cur);
        let mut nxt = self.edge_table.best_from(cur);
        proof {
            assert(path@.map_values(|x: usize| x as int) =~= seq![start_idx as int]);
            assert(path@.map_values(|x: usize| x as int).drop_last() =~= Seq::<int>::empty());
        }
        while nxt.is_some() && path.len() <= cap
            invariant
                self.wf(),
                m == self.edges_view(),
                cap == m.dom().len(),
                1 <= path@.len() <= cap + 1,
                path@[path@.len() - 1] == cur,
                match nxt {
                    Some(d) => next_of(m, cur as int) == Some(d as int),
                    None => next_of(m, cur as int) is None,
                },
                walk(m, start_idx as int, cap as nat) == path@.map_values(
                    |x: usize| x as int,
                ).drop_last() + walk(m, cur as int, (cap + 1 - path@.len()) as nat),
            decreases cap + 1 - path@.len(),
        {
            let d = nxt.unwrap();
            let ghost fuel = (cap + 1 - path@.len()) as nat;
            proof {
                assert(walk(m, cur as int, fuel) == seq![cur as int] + walk(
                    m,
                    d as int,
                    (fuel - 1) as nat,
                ));
            }
            let ghost prev_map = path@.map_values(|x: usize| x as int);
            let ghost at = cur;
            cur = d;
            path.push(cur);
            proof {
                let now_map = path@.map_values(|x: usize| x as int);
                assert(now_map =~= prev_map.push(d as int));
                assert(now_map.drop_last() =~= prev_map);
                assert(prev_map[prev_map.len() - 1] == at as int);
                assert(prev_map.drop_last() + (seq![at as int] + walk(
                    m,
                    d as int,
                    (fuel - 1) as nat,
                )) =~= prev_map + walk(m, d as int, (fuel - 1) as nat));
            }
            nxt = self.edge_table.best_from(cur);
        }
        proof {
            let pm = path@.map_values(|x: usize| x as int);
            match nxt {
                None => {
                    assert(walk(m, cur as int, (cap + 1 - path@.len()) as nat) == seq![
                        cur as int,
                    ]);
                },
                Some(d) => {
                    assert(path@.len() == cap + 1);
                    assert(walk(m, cur as int, 0nat) == seq![cur as int]);
                },
            }
            assert(pm.drop_last() + seq![cur as int] =~= pm);
        }
        path
    }

    /// Reconstructs a file: finds the file-marker node for `filename`, walks
    /// the latest path from it, and joins the contents of the nodes after
    /// the marker with newlines. Returns the text and those node indices, or
    /// `None` when no file-marker node for `filename` exists.
    pub fn read_file(&self, filename: &str) -> (r: Option<(String, Vec<usize>)>)
        requires
            self.wf(),
        ensures
            match r {
                Some(out) => spec_read_file(self@, filename@) == Some(
                    (out.0@, out.1@.map_values(|x: usize| x as int)),
                ),
                None => spec_read_file(self@, filename@) is None,
            },
    {
        let file_content = String::from_str("FILE: ").concat(filename);
        let key = (file_content, filename.to_owned());
        let file_idx = match iset_get_index_of(&self.node_table, &key) {
            Some(i) => i,
            None => {
                return None;
            },
        };
        proof {
            lemma_index_unique(self@.nodes, file_idx as int, file_key(filename@));
        }
        let path = self.traverse_latest_path(file_idx);
        let ghost p = path@.map_values(|x: usize| x as int);
        let ghost ns = self@.nodes;
        let mut parts: Vec<String> = Vec::new();
        let mut idxs: Vec<usize> = Vec::new();
        let n = path.len();
        let mut i: usize = 1;
        proof {
            assert(p.skip(1).take(0) =~= Seq::<int>::empty());
            assert(keep_valid(ns.len() as int, p.skip(1).take(0)) =~= Seq::<int>::empty());
            assert(idxs@.map_values(|x: usize| x as int) =~= Seq::<int>::empty());
            assert(parts.deep_view() =~= contents_of(ns, Seq::<int>::empty()));
        }
        while i < n
            invariant
                1 <= i <= n,
                n == path@.len(),
                p == path@.map_values(|x: usize| x as int),
                ns == self@.nodes,
                self.wf(),
                idxs@.map_values(|x: usize| x as int) == keep_valid(
                    ns.len() as int,
                    p.skip(1).take(i - 1),
                ),
                parts.deep_view() == contents_of(
                    ns,
                    keep_valid(ns.len() as int, p.skip(1).take(i - 1)),
                ),
            decreases n - i,
        {
            let ghost taken = p.skip(1).take(i - 1);
            let ghost cur_valid = keep_valid(ns.len() as int, taken);
            proof {
                assert(p.skip(1).take(i as int).drop_last() =~= taken);
                assert(p.skip(1).take(i as int).last() == p[i as int]);
                assert(p[i as int] == path@[i as int] as int);
            }
            match iset_get_index(&self.node_table, path[i]) {
                Some(kv) => {
                    let ghost prev_parts = parts.deep_view();
                    let ghost prev_idxs = idxs@.map_values(|x: usize| x as int);
                    parts.push(kv.0.clone());
                    idxs.push(path[i]);
                    proof {
                        assert(parts.deep_view() =~= prev_parts.push(kv.0@));
                        assert(idxs@.map_values(|x: usize| x as int) =~= prev_idxs.push(
                            p[i as int],
                        ));
                        assert(keep_valid(ns.len() as int, p.skip(1).take(i as int)) == cur_valid.push(
                            p[i as int],
                        ));
                        assert(contents_of(ns, cur_valid.push(p[i as int])) =~= contents_of(
                            ns,
                            cur_valid,
                        ).push(ns[p[i as int]].0));
                    }
                },
                None => {
                    proof {
                        assert(keep_valid(ns.len() as int, p.skip(1).take(i as int)) == cur_valid);
                    }
                },
            }
            i += 1;
        }
        proof {
            assert(p.skip(1).take(n - 1) =~= p.skip(1));
        }
        let content = join_with_newlines(&parts);
        Some((content, idxs))
    }

    /// Forward breadth-first closure over the reference edges: every node
    /// that `start_idx` ever influenced, directly or transitively. Each node
    /// appears once, in discovery order, the start node first; the result
    /// holds exactly the indices reachable from `start_idx` along reference
    /// edges.
    #[verifier::loop_isolation(false)]
    #[verifier::rlimit(100)]
    pub fn find_contaminated_nodes(&self, start_idx: usize) -> (out: Vec<usize>)
        requires
            self.wf(),
        ensures
            out@.len() >= 1,
            out@[0] == start_idx,
            to_ints(out@).no_duplicates(),
            forall|j: int|
                0 <= j < out@.len() ==> reaches(
                    self.refs_view(),
                    start_idx as int,
                    #[trigger] to_ints(out@)[j],
                ),
            forall|t: int|
                reaches(self.refs_view(), start_idx as int, t) ==> to_ints(out@).contains(t),
            to_ints(out@) == bfs_forward(
                self.ref_rows(),
                seq![start_idx as int],
                0,
                (2 * self.ref_rows().len() + 1) as nat,
            ),
    {
        let ghost m = self.refs_view();
        let ghost rows = self.ref_table.rows();
        let ghost allowed_seq = rows.map_values(|e: EdgeEntry| e.src as int) + rows.map_values(
            |e: EdgeEntry| e.dst as int,
        ) + seq![start_idx as int];
        let ghost allowed = allowed_seq.to_set();
        let ghost fuel_total = (2 * rows.len() + 1) as nat;
        let nrows = self.ref_table.len();
        let mut out: Vec<usize> = Vec::new();
        out.push(start_idx);
        let mut k: usize = 0;
        proof {
            lemma_reaches_self(m, start_idx as int);
            allowed_seq.lemma_cardinality_of_set();
            vstd::seq_lib::seq_to_set_is_finite(allowed_seq);
            assert(allowed_seq[(2 * rows.len()) as int] == start_idx as int);
            assert(allowed_seq.contains(start_idx as int));
            assert(to_ints(out@) =~= seq![start_idx as int]);
            to_ints(out@).unique_seq_to_set();
            assert(to_ints(out@).to_set().subset_of(allowed));
            vstd::set_lib::lemma_len_subset(to_ints(out@).to_set(), allowed);
            assert(allowed.len() <= allowed_seq.len());
        }
        while k < out.len()
            invariant
                k <= out@.len(),
                out@.len() >= 1,
                out@[0] == start_idx,
                to_ints(out@).no_duplicates(),
                forall|j: int| 0 <= j < out@.len() ==> allowed.contains(#[trigger] to_ints(out@)[j]),
                out@.len() <= allowed.len(),
                bfs_forward(rows, seq![start_idx as int], 0, fuel_total) == bfs_forward(
                    rows,
                    to_ints(out@),
                    k as int,
                    (fuel_total - k) as nat,
                ),
                forall|j: int|
                    0 <= j < out@.len() ==> reaches(m, start_idx as int, #[trigger] to_ints(out@)[j]),
                forall|j: int, y: int|
                    0 <= j < k && #[trigger] m.contains_key(((to_ints(out@)[j]), y)) ==> to_ints(
                        out@,
                    ).contains(y),
            decreases allowed.len() - out@.len(), out@.len() - k,
        {
            let cur = out[k];
            let ghost len0 = out@.len();
            let ghost snap = to_ints(out@);
            let mut i: usize = 0;
            proof {
                assert(rows.take(0) =~= Seq::<EdgeEntry>::empty());
            }
            while i < nrows
                invariant
                    i <= nrows,
                    k < out@.len(),
                    out@.len() >= len0,
                    cur == out@[k as int],
                    out@[0] == start_idx,
                    to_ints(out@).no_duplicates(),
                    to_ints(out@) == discover_forward(rows.take(i as int), snap, cur as int),
                    forall|j: int|
                        0 <= j < out@.len() ==> allowed.contains(#[trigger] to_ints(out@)[j]),
                    out@.len() <= allowed.len(),
                    forall|j: int|
                        0 <= j < out@.len() ==> reaches(
                            m,
                            start_idx as int,
                            #[trigger] to_ints(out@)[j],
                        ),
                    forall|j: int, y: int|
                        0 <= j < k && #[trigger] m.contains_key(((to_ints(out@)[j]), y)) ==> to_ints(
                            out@,
                        ).contains(y),
                    forall|ii: int|
                        0 <= ii < i && (#[trigger] rows[ii]).src == cur ==> to_ints(out@).contains(
                            rows[ii].dst as int,
                        ),
                decreases nrows - i,
            {
                let ghost prior = to_ints(out@);
                let e = self.ref_table.entry_at(i);
                if e.src == cur {
                    let d = e.dst;
                    proof {
                        lemma_table_map_index(rows, i as int);
                        assert(m.contains_key((cur as int, d as int)));
                    }
                    if !vec_contains_idx(&out, d) {
                        proof {
                            if to_ints(out@).contains(d as int) {
                                let j = choose|j: int|
                                    0 <= j < out@.len() && to_ints(out@)[j] == d as int;
                                assert(out@[j] == d);
                                assert(out@.contains(d));
                            }
                            assert(to_ints(out@)[k as int] == cur as int);
                            assert(reaches(m, start_idx as int, cur as int));
                            lemma_reaches_step(m, start_idx as int, cur as int, d as int);
                            assert(allowed_seq[rows.len() + i] == d as int);
                            assert(allowed_seq.contains(d as int));
                        }
                        let ghost prev = to_ints(out@);
                        out.push(d);
                        proof {
                            assert(to_ints(out@) =~= prev.push(d as int));
                            assert(to_ints(out@).no_duplicates());
                            to_ints(out@).unique_seq_to_set();
                            assert(to_ints(out@).to_set().subset_of(allowed));
                            vstd::set_lib::lemma_len_subset(to_ints(out@).to_set(), allowed);
                            assert forall|y: int| prev.contains(y) implies to_ints(out@).contains(
                                y,
                            ) by {
                                let j = choose|j: int| 0 <= j < prev.len() && prev[j] == y;
                                assert(to_ints(out@)[j] == y);
                            }
                            assert(to_ints(out@)[out@.len() - 1] == d as int);
                            assert(to_ints(out@).contains(d as int));
                        }
                    } else {
                        proof {
                            let j = choose|j: int| 0 <= j < out@.len() && out@[j] == d;
                            assert(to_ints(out@)[j] == d as int);
                            assert(to_ints(out@).contains(d as int));
                        }
                    }
                }
                proof {
                    assert(rows.take(i + 1).drop_last() =~= rows.take(i as int));
                    assert(rows.take(i + 1).last() == rows[i as int]);
                    assert(to_ints(out@) == discover_forward(rows.take(i + 1), snap, cur as int));
                }
                i += 1;
            }
            proof {
                assert(rows.take(nrows as int) =~= rows);
                assert(to_ints(out@) == discover_forward(rows, snap, cur as int));
                assert(snap[k as int] == cur as int);
                assert(k < snap.len() && fuel_total - k >= 1);
                assert(bfs_forward(rows, snap, k as int, (fuel_total - k) as nat) == bfs_forward(
                    rows,
                    discover_forward(rows, snap, snap[k as int]),
                    k + 1,
                    (fuel_total - k - 1) as nat,
                ));
                assert forall|y: int| #[trigger] m.contains_key(
                    ((to_ints(out@)[k as int]), y),
                ) implies to_ints(out@).contains(y) by {
                    lemma_table_map_domain(rows, (cur as int, y));
                    let ii = choose|ii: int|
                        0 <= ii < rows.len() && entry_key(#[trigger] rows[ii])
                            == (cur as int, y);
                    assert(rows[ii].src == cur);
                    assert(rows[ii].dst as int == y);
                }
            }
            k += 1;
        }
        proof {
            assert forall|t: int| reaches(m, start_idx as int, t) implies to_ints(out@).contains(
                t,
            ) by {
                assert(to_ints(out@)[0] == start_idx as int);
                assert(to_ints(out@).contains(start_idx as int));
                assert forall|x: int, y: int|
                    #![trigger to_ints(out@).contains(x), m.contains_key((x, y))]
                    to_ints(out@).contains(x) && m.contains_key((x, y)) implies to_ints(
                    out@,
                ).contains(y) by {
                    let j = choose|j: int| 0 <= j < out@.len() && to_ints(out@)[j] == x;
                    assert(m.contains_key(((to_ints(out@)[j]), y)));
                }
                lemma_closed_reaches(m, to_ints(out@), start_idx as int, t);
            }
            assert(bfs_forward(rows, to_ints(out@), k as int, (fuel_total - k) as nat) == to_ints(
                out@,
            ));
            assert(rows == self.ref_rows());
        }
        out
    }

    /// Backward breadth-first closure over the reference edges: every node
    /// that influenced `start_idx`, directly or transitively. Each node
    /// appears once, in discovery order, the start node first; the result
    /// holds exactly the indices from which `start_idx` is reachable along
    /// reference edges.
    #[verifier::loop_isolation(false)]
    #[verifier::rlimit(100)]
    pub fn find_referenced_nodes(&self, start_idx: usize) -> (out: Vec<usize>)
        requires
            self.wf(),
        ensures
            out@.len() >= 1,
            out@[0] == start_idx,
            to_ints(out@).no_duplicates(),
            forall|j: int|
                0 <= j < out@.len() ==> reaches(
                    self.refs_view(),
                    #[trigger] to_ints(out@)[j],
                    start_idx as int,
                ),
            forall|t: int|
                reaches(self.refs_view(), t, start_idx as int) ==> to_ints(out@).contains(t),
            to_ints(out@) == bfs_backward(
                self.ref_rows(),
                seq![start_idx as int],
                0,
                (2 * self.ref_rows().len() + 1) as nat,
            ),
    {
        let ghost m = self.refs_view();
        let ghost rows = self.ref_table.rows();
        let ghost allowed_seq = rows.map_values(|e: EdgeEntry| e.src as int) + rows.map_values(
            |e: EdgeEntry| e.dst as int,
        ) + seq![start_idx as int];
        let ghost allowed = allowed_seq.to_set();
        let ghost fuel_total = (2 * rows.len() + 1) as nat;
        let nrows = self.ref_table.len();
        let mut out: Vec<usize> = Vec::new();
        out.push(start_idx);
        let mut k: usize = 0;
        proof {
            lemma_reaches_self(m, start_idx as int);
            allowed_seq.lemma_cardinality_of_set();
            vstd::seq_lib::seq_to_set_is_finite(allowed_seq);
            assert(allowed_seq[(2 * rows.len()) as int] == start_idx as int);
            assert(allowed_seq.contains(start_idx as int));
            assert(to_ints(out@) =~= seq![start_idx as int]);
            to_ints(out@).unique_seq_to_set();
            assert(to_ints(out@).to_set().subset_of(allowed));
            vstd::set_lib::lemma_len_subset(to_ints(out@).to_set(), allowed);
            assert(allowed.len() <= allowed_seq.len());
        }
        while k < out.len()
            invariant
                k <= out@.len(),
                out@.len() >= 1,
                out@[0] == start_idx,
                to_ints(out@).no_duplicates(),
                forall|j: int| 0 <= j < out@.len() ==> allowed.contains(#[trigger] to_ints(out@)[j]),
                out@.len() <= allowed.len(),
                bfs_backward(rows, seq![start_idx as int], 0, fuel_total) == bfs_backward(
                    rows,
                    to_ints(out@),
                    k as int,
                    (fuel_total - k) as nat,
                ),
                forall|j: int|
                    0 <= j < out@.len() ==> reaches(m, #[trigger] to_ints(out@)[j], start_idx as int),
                forall|j: int, x: int|
                    0 <= j < k && #[trigger] m.contains_key((x, (to_ints(out@)[j]))) ==> to_ints(
                        out@,
                    ).contains(x),
            decreases allowed.len() - out@.len(), out@.len() - k,
        {
            let cur = out[k];
            let ghost len0 = out@.len();
            let ghost snap = to_ints(out@);
            let mut i: usize = 0;
            proof {
                assert(rows.take(0) =~= Seq::<EdgeEntry>::empty());
            }
            while i < nrows
                invariant
                    i <= nrows,
                    k < out@.len(),
                    out@.len() >= len0,
                    cur == out@[k as int],
                    out@[0] == start_idx,
                    to_ints(out@).no_duplicates(),
                    to_ints(out@) == discover_backward(rows.take(i as int), snap, cur as int),
                    forall|j: int|
                        0 <= j < out@.len() ==> allowed.contains(#[trigger] to_ints(out@)[j]),
                    out@.len() <= allowed.len(),
                    forall|j: int|
                        0 <= j < out@.len() ==> reaches(
                            m,
                            #[trigger] to_ints(out@)[j],
                            start_idx as int,
                        ),
                    forall|j: int, x: int|
                        0 <= j < k && #[trigger] m.contains_key((x, (to_ints(out@)[j]))) ==> to_ints(
                            out@,
                        ).contains(x),
                    forall|ii: int|
                        0 <= ii < i && (#[trigger] rows[ii]).dst == cur ==> to_ints(out@).contains(
                            rows[ii].src as int,
                        ),
                decreases nrows - i,
            {
                let ghost prior = to_ints(out@);
                let e = self.ref_table.entry_at(i);
                if e.dst == cur {
                    let s = e.src;
                    proof {
                        lemma_table_map_index(rows, i as int);
                        assert(m.contains_key((s as int, cur as int)));
                    }
                    if !vec_contains_idx(&out, s) {
                        proof {
                            if to_ints(out@).contains(s as int) {
                                let j = choose|j: int|
                                    0 <= j < out@.len() && to_ints(out@)[j] == s as int;
                                assert(out@[j] == s);
                                assert(out@.contains(s));
                            }
                            assert(to_ints(out@)[k as int] == cur as int);
                            assert(reaches(m, cur as int, start_idx as int));
                            lemma_reaches_prepend(m, s as int, cur as int, start_idx as int);
                            assert(allowed_seq[i as int] == s as int);
                            assert(allowed_seq.contains(s as int));
                        }
                        let ghost prev = to_ints(out@);
                        out.push(s);
                        proof {
                            assert(to_ints(out@) =~= prev.push(s as int));
                            assert(to_ints(out@).no_duplicates());
                            to_ints(out@).unique_seq_to_set();
                            assert(to_ints(out@).to_set().subset_of(allowed));
                            vstd::set_lib::lemma_len_subset(to_ints(out@).to_set(), allowed);
                            assert forall|y: int| prev.contains(y) implies to_ints(out@).contains(
                                y,
                            ) by {
                                let j = choose|j: int| 0 <= j < prev.len() && prev[j] == y;
                                assert(to_ints(out@)[j] == y);
                            }
                            assert(to_ints(out@)[out@.len() - 1] == s as int);
                            assert(to_ints(out@).contains(s as int));
                        }
                    } else {
                        proof {
                            let j = choose|j: int| 0 <= j < out@.len() && out@[j] == s;
                            assert(to_ints(out@)[j] == s as int);
                            assert(to_ints(out@).contains(s as int));
                        }
                    }
                }
                proof {
                    assert(rows.take(i + 1).drop_last() =~= rows.take(i as int));
                    assert(rows.take(i + 1).last() == rows[i as int]);
                    assert(to_ints(out@) == discover_backward(rows.take(i + 1), snap, cur as int));
                }
                i += 1;
            }
            proof {
                assert(rows.take(nrows as int) =~= rows);
                assert(to_ints(out@) == discover_backward(rows, snap, cur as int));
                assert(snap[k as int] == cur as int);
                assert(k < snap.len() && fuel_total - k >= 1);
                assert(bfs_backward(rows, snap, k as int, (fuel_total - k) as nat) == bfs_backward(
                    rows,
                    discover_backward(rows, snap, snap[k as int]),
                    k + 1,
                    (fuel_total - k - 1) as nat,
                ));
                assert forall|x: int| #[trigger] m.contains_key(
                    (x, (to_ints(out@)[k as int])),
                ) implies to_ints(out@).contains(x) by {
                    lemma_table_map_domain(rows, (x, cur as int));
                    let ii = choose|ii: int|
                        0 <= ii < rows.len() && entry_key(#[trigger] rows[ii])
                            == (x, cur as int);
                    assert(rows[ii].dst == cur);
                    assert(rows[ii].src as int == x);
                }
            }
            k += 1;
        }
        proof {
            assert forall|t: int| reaches(m, t, start_idx as int) implies to_ints(out@).contains(
                t,
            ) by {
                assert(to_ints(out@)[0] == start_idx as int);
                assert(to_ints(out@).contains(start_idx as int));
                assert forall|x: int, y: int|
                    #![trigger to_ints(out@).contains(y), m.contains_key((x, y))]
                    to_ints(out@).contains(y) && m.contains_key((x, y)) implies to_ints(
                    out@,
                ).contains(x) by {
                    let j = choose|j: int| 0 <= j < out@.len() && to_ints(out@)[j] == y;
                    assert(m.contains_key((x, (to_ints(out@)[j]))));
                }
                lemma_coclosed_reaches(m, to_ints(out@), t, start_idx as int);
            }
            assert(bfs_backward(rows, to_ints(out@), k as int, (fuel_total - k) as nat) == to_ints(
                out@,
            ));
            assert(rows == self.ref_rows());
        }
        out
    }

    /// The filenames of all file-marker nodes (nodes whose content begins
    /// with the file-marker prefix), sorted lexicographically, without
    /// duplicates.
    #[verifier::loop_isolation(false)]
    pub fn list_files(&self) -> (files: Vec<String>)
        requires
            self.wf(),
        ensures
            lex_sorted(files.deep_view()),
            forall|s: Seq<char>|
                #[trigger] files.deep_view().contains(s) <==> (exists|idx: int|
                    0 <= idx < self.nodes_view().len() && (#[trigger] self.nodes_view()[idx]).0
                        == "FILE: "@ + s),
    {
        let ghost ns = self.nodes_view();
        let n = iset_len(&self.node_table);
        let mut files: Vec<String> = Vec::new();
        let mut i: usize = 0;
        proof {
            reveal_strlit("FILE: ");
        }
        while i < n
            invariant
                i <= n,
                lex_sorted(files.deep_view()),
                forall|s: Seq<char>|
                    #[trigger] files.deep_view().contains(s) <==> (exists|idx: int|
                        0 <= idx < i && (#[trigger] ns[idx]).0 == "FILE: "@ + s),
            decreases n - i,
        {
            let ghost prev = files.deep_view();
            match iset_get_index(&self.node_table, i) {
                Some(kv) => {
                    let ghost c = ns[i as int].0;
                    proof {
                        assert(kv.0@ == c);
                    }
                    if is_file_marker(kv.0.as_str()) {
                        let clen = kv.0.as_str().unicode_len();
                        let name = kv.0.as_str().substring_char(6, clen).to_owned();
                        proof {
                            assert(name@ == c.skip(6));
                            assert(c =~= "FILE: "@ + name@);
                        }
                        insert_sorted_dedup(&mut files, name);
                        proof {
                            assert forall|s: Seq<char>| #[trigger] files.deep_view().contains(
                                s,
                            ) implies (exists|idx: int|
                                0 <= idx < i + 1 && (#[trigger] ns[idx]).0 == "FILE: "@ + s) by {
                                if prev.contains(s) {
                                    let idx = choose|idx: int|
                                        0 <= idx < i && (#[trigger] ns[idx]).0 == "FILE: "@ + s;
                                    assert(ns[idx].0 == "FILE: "@ + s);
                                } else {
                                    assert(s == c.skip(6));
                                    assert(ns[i as int].0 == "FILE: "@ + s);
                                }
                            }
                            assert forall|s: Seq<char>|
                                (exists|idx: int|
                                    0 <= idx < i + 1 && (#[trigger] ns[idx]).0 == "FILE: "@
                                        + s) implies #[trigger] files.deep_view().contains(s) by {
                                let idx = choose|idx: int|
                                    0 <= idx < i + 1 && (#[trigger] ns[idx]).0 == "FILE: "@ + s;
                                if idx < i {
                                    assert(prev.contains(s));
                                } else {
                                    assert(("FILE: "@ + s).skip(6) =~= s);
                                    assert(("FILE: "@ + c.skip(6)).skip(6) =~= c.skip(6));
                                    assert(s == c.skip(6));
                                }
                            }
                        }
                    } else {
                        proof {
                            assert forall|s: Seq<char>| (#[trigger] ns[i as int].0) != "FILE: "@
                                + s by {
                                if c == "FILE: "@ + s {
                                    assert(c.len() >= 6);
                                    assert(c.take(6) =~= "FILE: "@);
                                }
                            }
                            assert forall|s: Seq<char>| #[trigger] files.deep_view().contains(
                                s,
                            ) <==> (exists|idx: int|
                                0 <= idx < i + 1 && (#[trigger] ns[idx]).0 == "FILE: "@ + s) by {
                                if files.deep_view().contains(s) {
                                    let idx = choose|idx: int|
                                        0 <= idx < i && (#[trigger] ns[idx]).0 == "FILE: "@ + s;
                                    assert(0 <= idx < i + 1 && ns[idx].0 == "FILE: "@ + s);
                                }
                                if exists|idx: int|
                                    0 <= idx < i + 1 && (#[trigger] ns[idx]).0 == "FILE: "@ + s {
                                    let idx = choose|idx: int|
                                        0 <= idx < i + 1 && (#[trigger] ns[idx]).0 == "FILE: "@
                                            + s;
                                    assert(idx < i);
                                }
                            }
                        }
                    }
                },
                None => {
                    proof {
                        assert(false);
                    }
                },
            }
            i += 1;
        }
        files
    }

    /// The node at an index, or `None` past the end of the store.
    pub fn get_node(&self, idx: usize) -> (r: Option<Node>)
        ensures
            match r {
                Some(n) => idx < self.nodes_view().len() && n@ == self.nodes_view()[idx as int],
                None => idx >= self.nodes_view().len(),
            },
    {
        match iset_get_index(&self.node_table, idx) {
            Some(kv) => Some(Node { content: kv.0.clone(), filename: kv.1.clone() }),
            None => None,
        }
    }

    /// The index of the node with this content and filename, if present.
    pub fn index_of(&self, content: &str, filename: &str) -> (r: Option<usize>)
        requires
            self.wf(),
        ensures
            match r {
                Some(i) => self.nodes_view().contains((content@, filename@)) && i as int
                    == spec_index_of(self.nodes_view(), (content@, filename@)),
                None => !self.nodes_view().contains((content@, filename@)),
            },
    {
        let key = (content.to_owned(), filename.to_owned());
        let r = iset_get_index_of(&self.node_table, &key);
        proof {
            match r {
                Some(i) => lemma_index_unique(self.nodes_view(), i as int, (content@, filename@)),
                None => {},
            }
        }
        r
    }

    /// The node store itself, in insertion order.
    pub fn nodes(&self) -> (r: &IndexSet<(String, String)>)
        ensures
            set_elems(*r) == self.nodes_view(),
    {
        &self.node_table
    }

    /// The structural edge table.
    pub fn edges(&self) -> (r: &EdgeTable)
        ensures
            r@ == self.edges_view(),
            r.wf() <== self.wf(),
    {
        &self.edge_table
    }

    /// The number of nodes in the store.
    pub fn node_count(&self) -> (n: usize)
        ensures
            n == self.nodes_view().len(),
    {
        iset_len(&self.node_table)
    }

    /// The number of structural edges.
    pub fn edge_count(&self) -> (n: usize)
        requires
            self.wf(),
        ensures
            n == self.edges_view().dom().len(),
    {
        proof {
            lemma_table_map_len(self.edge_table.rows());
        }
        self.edge_table.len()
    }
}

impl Default for KnowledgeBase {
    /// An empty knowledge base.
    fn default() -> (kb: KnowledgeBase)
        ensures
            kb.wf(),
            kb.nodes_view() == Seq::<NodeKey>::empty(),
            kb.edges_view() == Map::<(int, int), EdgeV>::empty(),
            kb.refs_view() == Map::<(int, int), EdgeV>::empty(),
    {
        KnowledgeBase::new()
    }
}

} // verus!
