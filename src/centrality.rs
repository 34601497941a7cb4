//! Scored nodes and the ranking container shared by every centrality
//! measure.
use vstd::prelude::*;

verus! {

/// A node together with its score under some centrality measure.
///
/// Measures differ in the type of their score: a count for in-degree, a real
/// number for PageRank. Entries compare by score.
pub trait Centrality: Copy + PartialOrd {
    /// The type of the score.
    type Score;

    /// The node's identifier.
    fn vertex(&self) -> usize;

    /// The node's score.
    fn score(&self) -> Self::Score;

}

/// The first `n` entries of `s`, or all of them when there are fewer.
pub open spec fn top_of<U>(s: Seq<U>, n: nat) -> Seq<U> {
    if n < s.len() {
        s.take(n as int)
    } else {
        s
    }
}

/// Taking the top `n` keeps `min(n, len)` entries, the leading ones in
/// their order, and taking the top `n` of that changes nothing.
pub proof fn lemma_top<U>(s: Seq<U>, n: nat)
    ensures
        top_of(s, n).len() == if n < s.len() { n } else { s.len() },
        forall|i: int| 0 <= i < top_of(s, n).len() ==> #[trigger] top_of(s, n)[i] == s[i],
        top_of(top_of(s, n), n) == top_of(s, n),
{
}

/// A sequence of scored nodes, highest score first.
pub struct CentralityRank<U: Centrality> {
    ranks: Vec<U>,
}

impl<U: Centrality> View for CentralityRank<U> {
    type V = Seq<U>;

    closed spec fn view(&self) -> Seq<U> {
        self.ranks@
    }
}

impl<U: Centrality> CentralityRank<U> {
    /// Wraps entries that are already in ranking order.
    pub fn new(ranks: Vec<U>) -> (r: CentralityRank<U>)
        ensures
            r@ == ranks@,
    {
        CentralityRank { ranks }
    }

    /// The number of entries.
    pub fn len(&self) -> (r: usize)
        ensures
            r == self@.len(),
    {
        self.ranks.len()
    }

    /// The entry at `index`.
    pub fn get(&self, index: usize) -> (r: &U)
        requires
            index < self@.len(),
        ensures
            *r == self@[index as int],
    {
        &self.ranks[index]
    }

    /// A new ranking that holds the first `n` entries (all of them when
    /// there are fewer), in the same order; `self` is left as it is.
    pub fn top(&self, n: usize) -> (r: CentralityRank<U>)
        ensures
            r@ == top_of(self@, n as nat),
    {
        let k = if n < self.ranks.len() {
            n
        } else {
            self.ranks.len()
        };
        let mut ranks: Vec<U> = Vec::new();
        let mut i: usize = 0;
        while i < k
            invariant
                k <= self.ranks@.len(),
                i <= k,
                ranks@ == self.ranks@.take(i as int),
            decreases k - i,
        {
            let e: U = self.ranks[i];
            ranks.push(e);
            i = i + 1;
            assert(ranks@ =~= self.ranks@.take(i as int));
        }
        assert(ranks@ =~= top_of(self.ranks@, n as nat));
        CentralityRank { ranks }
    }

}

} // verus!
