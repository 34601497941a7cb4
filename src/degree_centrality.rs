//! In-degree centrality: each node scored by the number of citations it
//! receives.
use vstd::prelude::*;
use vstd::string::StringExecFns;

use crate::centrality::{Centrality, CentralityRank};
use crate::decimal::{decimal, push_decimal};
use crate::network::{CitationNetwork, NetworkModel};

verus! {

/// The in-degree centrality score of one node.
#[derive(Clone, Copy, Debug)]
pub struct DegreeCentrality {
    pub vertex: usize,
    pub in_degree: usize,
}

impl DegreeCentrality {
    /// The entry for `vertex` with score `in_degree`.
    pub fn new(vertex: usize, in_degree: usize) -> (r: DegreeCentrality)
        ensures
            r == (DegreeCentrality { vertex, in_degree }),
    {
        DegreeCentrality { vertex, in_degree }
    }
}

impl DegreeCentrality {
    /// The entry's one-line description: `vertex {id}: in-degree {count}`.
    pub open spec fn line(&self) -> Seq<char> {
        "vertex "@ + decimal(self.vertex as nat) + ": in-degree "@ + decimal(self.in_degree as nat)
    }

    /// Describes this entry on one line, without a line break.
    pub fn describe(&self) -> (r: String)
        ensures
            r@ == self.line(),
    {
        let mut r = String::from_str("vertex ");
        push_decimal(&mut r, self.vertex);
        r.append(": in-degree ");
        push_decimal(&mut r, self.in_degree);
        r
    }
}

/// Entries are equal when their scores are.
impl PartialEq for DegreeCentrality {
    fn eq(&self, other: &DegreeCentrality) -> (r: bool) {
        self.in_degree == other.in_degree
    }
}

impl vstd::std_specs::cmp::PartialEqSpecImpl for DegreeCentrality {
    open spec fn obeys_eq_spec() -> bool {
        true
    }

    open spec fn eq_spec(&self, other: &DegreeCentrality) -> bool {
        self.in_degree == other.in_degree
    }
}

/// Entries are ordered by score alone.
impl PartialOrd for DegreeCentrality {
    fn partial_cmp(&self, other: &DegreeCentrality) -> (r: Option<std::cmp::Ordering>) {
        if self.in_degree < other.in_degree {
            Some(std::cmp::Ordering::Less)
        } else if self.in_degree > other.in_degree {
            Some(std::cmp::Ordering::Greater)
        } else {
            Some(std::cmp::Ordering::Equal)
        }
    }
}

impl vstd::std_specs::cmp::PartialOrdSpecImpl for DegreeCentrality {
    open spec fn obeys_partial_cmp_spec() -> bool {
        true
    }

    open spec fn partial_cmp_spec(&self, other: &DegreeCentrality) -> Option<std::cmp::Ordering> {
        if self.in_degree < other.in_degree {
            Some(std::cmp::Ordering::Less)
        } else if self.in_degree > other.in_degree {
            Some(std::cmp::Ordering::Greater)
        } else {
            Some(std::cmp::Ordering::Equal)
        }
    }
}

impl Centrality for DegreeCentrality {
    type Score = usize;

    fn vertex(&self) -> (r: usize)
        ensures
            r == self.vertex,
    {
        self.vertex
    }

    fn score(&self) -> (r: usize)
        ensures
            r == self.in_degree,
    {
        self.in_degree
    }
}

/// Each entry's line followed by a line break, in order.
pub open spec fn rendered(s: Seq<DegreeCentrality>) -> Seq<char>
    decreases s.len(),
{
    if s.len() == 0 {
        Seq::empty()
    } else {
        rendered(s.drop_last()) + s.last().line() + seq!['\n']
    }
}

impl CentralityRank<DegreeCentrality> {
    /// Every entry's description, one per line, each line ending with a
    /// line break.
    pub fn render(&self) -> (r: String)
        ensures
            r@ == rendered(self@),
    {
        let mut out = String::new();
        let mut i: usize = 0;
        while i < self.len()
            invariant
                i <= self@.len(),
                out@ == rendered(self@.take(i as int)),
            decreases self@.len() - i,
        {
            let line = self.get(i).describe();
            out.append(line.as_str());
            out.append("\n");
            proof {
                reveal_strlit("\n");
                let t = self@.take(i + 1);
                assert(t.drop_last() =~= self@.take(i as int));
                assert(t.last() == self@[i as int]);
            }
            i = i + 1;
        }
        assert(self@.take(i as int) =~= self@);
        out
    }
}

/// The entry of node `v` in graph `g`.
pub open spec fn degree_entry(g: NetworkModel, v: usize) -> DegreeCentrality {
    DegreeCentrality { vertex: v, in_degree: g.in_degree(v) as usize }
}

/// Scores never increase along `r`.
pub open spec fn sorted_by_degree(r: Seq<DegreeCentrality>) -> bool {
    forall|i: int, j: int| 0 <= i < j < r.len() ==> r[i].in_degree >= r[j].in_degree
}

/// The number of leading entries of `r` whose score is at least `s`: where
/// an entry of score `s` goes, after the entries it ties with.
pub open spec fn insert_pos(r: Seq<DegreeCentrality>, s: usize) -> nat
    decreases r.len(),
{
    if r.len() == 0 || r[0].in_degree < s {
        0
    } else {
        1 + insert_pos(r.drop_first(), s)
    }
}

/// `r` with `e` inserted at its place.
pub open spec fn insert_ranked(r: Seq<DegreeCentrality>, e: DegreeCentrality) -> Seq<
    DegreeCentrality,
> {
    r.insert(insert_pos(r, e.in_degree) as int, e)
}

/// The ranking of the first `k` nodes of `g`: each inserted in node order
/// at its place among those before it.
pub open spec fn degree_ranking_of(g: NetworkModel, k: nat) -> Seq<DegreeCentrality>
    decreases k,
{
    if k == 0 || k > g.nodes.len() {
        Seq::empty()
    } else {
        insert_ranked(degree_ranking_of(g, (k - 1) as nat), degree_entry(g, g.nodes[k - 1]))
    }
}

/// The in-degree ranking of `g`.
pub open spec fn degree_ranking(g: NetworkModel) -> Seq<DegreeCentrality> {
    degree_ranking_of(g, g.nodes.len())
}

/// `r` holds one entry per node of `g`, each with that node's in-degree,
/// highest first.
pub open spec fn ranks_all_nodes(g: NetworkModel, r: Seq<DegreeCentrality>) -> bool {
    &&& r.len() == g.nodes.len()
    &&& sorted_by_degree(r)
    &&& forall|i: int| 0 <= i < r.len() ==> g.nodes.contains(#[trigger] r[i].vertex)
    &&& forall|i: int| 0 <= i < r.len() ==> #[trigger] r[i] == degree_entry(g, r[i].vertex)
    &&& forall|i: int, j: int| 0 <= i < j < r.len() ==> r[i].vertex != r[j].vertex
    &&& forall|v: usize| g.nodes.contains(v) ==> exists|i: int| 0 <= i < r.len() && #[trigger] r[i].vertex == v
}

/// In a sorted sequence, the entries before `insert_pos` score at least
/// `s` and those from it on score less.
proof fn lemma_insert_pos(r: Seq<DegreeCentrality>, s: usize)
    requires
        sorted_by_degree(r),
    ensures
        insert_pos(r, s) <= r.len(),
        forall|i: int| 0 <= i < insert_pos(r, s) ==> #[trigger] r[i].in_degree >= s,
        forall|i: int| insert_pos(r, s) <= i < r.len() ==> #[trigger] r[i].in_degree < s,
    decreases r.len(),
{
    if r.len() > 0 && r[0].in_degree >= s {
        let t = r.drop_first();
        lemma_insert_pos(t, s);
        assert forall|i: int| 0 <= i < insert_pos(r, s) implies #[trigger] r[i].in_degree >= s by {
            if i > 0 {
                assert(r[i] == t[i - 1]);
            }
        }
        assert forall|i: int| insert_pos(r, s) <= i < r.len() implies #[trigger] r[i].in_degree < s by {
            assert(r[i] == t[i - 1]);
        }
    }
}

/// The ranking of a graph's first `k` nodes holds each of them once, with
/// its in-degree, highest first.
proof fn lemma_degree_ranking_of(g: NetworkModel, k: nat)
    requires
        g.wf(),
        k <= g.nodes.len(),
    ensures
        ranks_all_nodes(
            NetworkModel { nodes: g.nodes.take(k as int), preds: g.preds, out_degree: g.out_degree },
            degree_ranking_of(g, k),
        ),
    decreases k,
{
    let h = NetworkModel { nodes: g.nodes.take(k as int), preds: g.preds, out_degree: g.out_degree };
    let r = degree_ranking_of(g, k);
    if k == 0 {
        assert(r.len() == 0);
    } else {
        lemma_degree_ranking_of(g, (k - 1) as nat);
        let h0 = NetworkModel {
            nodes: g.nodes.take(k - 1),
            preds: g.preds,
            out_degree: g.out_degree,
        };
        let r0 = degree_ranking_of(g, (k - 1) as nat);
        let v = g.nodes[k - 1];
        let e = degree_entry(g, v);
        let p = insert_pos(r0, e.in_degree);
        lemma_insert_pos(r0, e.in_degree);
        r0.insert_ensures(p as int, e);
        assert(h.nodes == h0.nodes.push(v));
        assert forall|w: usize| h.nodes.contains(w) <==> (h0.nodes.contains(w) || w == v) by {
            assert(h.nodes[h0.nodes.len() as int] == v);
            if h0.nodes.contains(w) {
                assert(h.nodes[h0.nodes.index_of(w)] == w);
            }
            if h.nodes.contains(w) && w != v {
                assert(h0.nodes[h.nodes.index_of(w)] == w);
            }
        }
        assert(!h0.nodes.contains(v)) by {
            if h0.nodes.contains(v) {
                let j = h0.nodes.index_of(v);
                assert(g.nodes[j] == g.nodes[k - 1]);
            }
        }
        assert forall|i: int| 0 <= i < r.len() implies #[trigger] r[i] == degree_entry(h, r[i].vertex)
            && h.nodes.contains(r[i].vertex) by {
            if i < p {
                assert(r[i] == r0[i]);
                assert(h0.nodes.contains(r0[i].vertex));
            } else if i > p {
                assert(r[i] == r0[i - 1]);
                assert(h0.nodes.contains(r0[i - 1].vertex));
            }
        }
        assert forall|i: int, j: int| 0 <= i < j < r.len() implies r[i].in_degree >= r[j].in_degree
            && r[i].vertex != r[j].vertex by {
            if j < p {
                assert(r[i] == r0[i] && r[j] == r0[j]);
            } else if j == p {
                assert(r[i] == r0[i]);
                assert(h0.nodes.contains(r0[i].vertex));
            } else if i < p {
                assert(r[i] == r0[i] && r[j] == r0[j - 1]);
            } else if i == p {
                assert(r[j] == r0[j - 1]);
                assert(h0.nodes.contains(r0[j - 1].vertex));
            } else {
                assert(r[i] == r0[i - 1] && r[j] == r0[j - 1]);
            }
        }
        assert forall|w: usize| h.nodes.contains(w) implies exists|i: int| 0 <= i < r.len() && #[trigger] r[i].vertex == w by {
            if w == v {
                assert(r[p as int].vertex == w);
            } else {
                let i = choose|i: int| 0 <= i < r0.len() && #[trigger] r0[i].vertex == w;
                if i < p {
                    assert(r[i] == r0[i]);
                } else {
                    assert(r[i + 1] == r0[i]);
                }
            }
        }
    }
}

/// The in-degree ranking of a graph holds each node once, with its
/// in-degree, highest first.
pub proof fn lemma_degree_ranking(g: NetworkModel)
    requires
        g.wf(),
    ensures
        ranks_all_nodes(g, degree_ranking(g)),
{
    lemma_degree_ranking_of(g, g.nodes.len());
    assert(g.nodes.take(g.nodes.len() as int) == g.nodes);
}

/// Finds where an entry of score `s` goes in the sorted `r`.
fn find_insert_pos(r: &Vec<DegreeCentrality>, s: usize) -> (p: usize)
    requires
        sorted_by_degree(r@),
    ensures
        p == insert_pos(r@, s),
        p <= r@.len(),
{
    let mut lo: usize = 0;
    let mut hi: usize = r.len();
    while lo < hi
        invariant
            sorted_by_degree(r@),
            lo <= hi <= r@.len(),
            forall|i: int| 0 <= i < lo ==> #[trigger] r@[i].in_degree >= s,
            forall|i: int| hi <= i < r@.len() ==> #[trigger] r@[i].in_degree < s,
        decreases hi - lo,
    {
        let mid = lo + (hi - lo) / 2;
        if r[mid].in_degree >= s {
            lo = mid + 1;
        } else {
            hi = mid;
        }
    }
    proof {
        lemma_insert_pos(r@, s);
        let q = insert_pos(r@, s);
        if lo < q {
            assert(r@[lo as int].in_degree >= s);
        }
        if q < lo {
            assert(r@[q as int].in_degree >= s);
        }
    }
    lo
}

/// Scores every node of `network` by its in-degree and ranks the entries
/// highest first; entries with equal scores keep node order.
pub fn calculate_degree_centrality(network: &CitationNetwork) -> (r: CentralityRank<
    DegreeCentrality,
>)
    requires
        network.wf(),
    ensures
        r@ == degree_ranking(network@),
        ranks_all_nodes(network@, r@),
{
    let pairs = network.iter();
    let ghost g = network@;
    proof {
        network.lemma_model_wf();
    }
    let mut ranks: Vec<DegreeCentrality> = Vec::new();
    let mut i: usize = 0;
    while i < pairs.len()
        invariant
            g == network@,
            g.wf(),
            pairs@.len() == g.nodes.len(),
            forall|k: int|
                0 <= k < pairs@.len() ==> (#[trigger] pairs@[k]).0 == g.nodes[k] && pairs@[k].1@
                    == g.preds[g.nodes[k]],
            i <= pairs@.len(),
            ranks@ == degree_ranking_of(g, i as nat),
        decreases pairs@.len() - i,
    {
        proof {
            lemma_degree_ranking_of(g, i as nat);
        }
        let (v, preds) = pairs[i];
        let e = DegreeCentrality::new(v, preds.len());
        let p = find_insert_pos(&ranks, e.in_degree);
        ranks.insert(p, e);
        i = i + 1;
    }
    proof {
        lemma_degree_ranking(g);
    }
    CentralityRank::new(ranks)
}

} // verus!
