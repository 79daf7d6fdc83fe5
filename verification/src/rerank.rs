//! Reranking candidates by their full scores.
//!
//! The full score of a document is costly, so the reranker asks for one score at a
//! time and says when it needs no more.
use crate::order::{in_order, is_stable_order, sort_positions, stable_order};
#[allow(unused_imports)]
use crate::order::{comes_before, lemma_stable_order_covers, lemma_stable_order_exists};
use crate::score::Score;
use vstd::prelude::*;

verus! {

/// A scored document.
pub type Scored = (Score, u32);

/// `a` stands at or above `b` in the results: a better score, or the same score and no
/// larger a document id.
pub open spec fn ranks_at_or_above(a: Scored, b: Scored) -> bool {
    a.0.rank() > b.0.rank() || (a.0.rank() == b.0.rank() && a.1 <= b.1)
}

/// Every entry stands at or above those after it.
pub open spec fn is_ranked(pool: Seq<Scored>) -> bool {
    forall|i: int, j: int|
        0 <= i < j < pool.len() ==> ranks_at_or_above(#[trigger] pool[i], #[trigger] pool[j])
}

/// Where `x` goes in a ranked pool: behind the last entry that ranks at or above it.
pub open spec fn place(pool: Seq<Scored>, x: Scored) -> nat
    decreases pool.len(),
{
    if pool.len() == 0 {
        0
    } else if ranks_at_or_above(pool.last(), x) {
        pool.len()
    } else {
        place(pool.drop_last(), x)
    }
}

/// The pool with `x` put in its place.
pub open spec fn with_ranked(pool: Seq<Scored>, x: Scored) -> Seq<Scored> {
    pool.insert(place(pool, x) as int, x)
}

/// What an early-exit rerank holds after some scores.
pub struct Scan {
    /// The best so far, ranked.
    pub kept: Seq<Scored>,
    /// Scores in a row that did not enter the best.
    pub stalls: nat,
    /// The stalls reached the patience.
    pub stopped: bool,
}

/// The early-exit rerank after the first `n` of `items`: the first `k` enter as they come;
/// a later one enters, and the last of the kept leaves, only where it scores above that last;
/// `patience` stalls in a row stop the scan.
pub open spec fn scan(items: Seq<Scored>, k: nat, patience: nat, n: nat) -> Scan
    decreases n,
{
    if n == 0 {
        Scan { kept: Seq::empty(), stalls: 0, stopped: false }
    } else {
        let s = scan(items, k, patience, (n - 1) as nat);
        let x = items[n - 1];
        if s.stopped {
            s
        } else if n <= k {
            Scan { kept: with_ranked(s.kept, x), stalls: 0, stopped: false }
        } else if x.0.above(s.kept.last().0) {
            Scan { kept: with_ranked(s.kept, x).drop_last(), stalls: 0, stopped: false }
        } else {
            Scan { kept: s.kept, stalls: s.stalls + 1, stopped: s.stalls + 1 >= patience }
        }
    }
}

/// Documents with their scores.
pub open spec fn scored(docs: Seq<u32>, scores: Seq<Score>) -> Seq<Scored> {
    Seq::new(scores.len(), |i: int| (scores[i], docs[i]))
}

/// Early exit is on: a patience is set, and there are `k` candidates to fill the best with.
pub open spec fn exits_early(n_docs: nat, k: nat, beta: Option<usize>) -> bool {
    beta is Some && n_docs >= k && k > 0
}

/// No further score is needed.
pub open spec fn is_finished(docs: Seq<u32>, scores: Seq<Score>, k: nat, beta: Option<usize>) -> bool {
    scores.len() == docs.len() || (exits_early(docs.len(), k, beta) && scan(
        scored(docs, scores),
        k,
        beta->0 as nat,
        scores.len(),
    ).stopped)
}

/// The scores are those of a rerank that stopped as soon as it could: numbers, one per
/// candidate from the first on, and none taken after the stalls reached the patience.
pub open spec fn is_reachable(docs: Seq<u32>, scores: Seq<Score>, k: nat, beta: Option<usize>) -> bool {
    &&& scores.len() <= docs.len()
    &&& forall|i: int| 0 <= i < scores.len() ==> !(#[trigger] scores[i]).nan()
    &&& exits_early(docs.len(), k, beta) && scores.len() > 0 ==> !scan(
        scored(docs, scores),
        k,
        beta->0 as nat,
        (scores.len() - 1) as nat,
    ).stopped
}

/// The keys by which a rerank without early exit sorts: best score first.
pub open spec fn score_keys(items: Seq<Scored>) -> Seq<u64> {
    Seq::new(items.len(), |i: int| items[i].0.descending_key() as u64)
}

/// At most the first `k` entries.
pub open spec fn first_k<T>(s: Seq<T>, k: nat) -> Seq<T> {
    if s.len() <= k {
        s
    } else {
        s.take(k as int)
    }
}

/// The reranked results: what an early-exit scan kept, or else all scored documents, best
/// first and cut to `k`; documents of one score keep their candidate order.
pub open spec fn reranked(docs: Seq<u32>, scores: Seq<Score>, k: nat, beta: Option<usize>) -> Seq<
    Scored,
> {
    let items = scored(docs, scores);
    if exits_early(docs.len(), k, beta) {
        scan(items, k, beta->0 as nat, scores.len()).kept
    } else {
        first_k(in_order(score_keys(items), items), k)
    }
}

/// The documents of the candidates.
pub open spec fn docs_of(candidates: Seq<(u32, Score)>) -> Seq<u32> {
    Seq::new(candidates.len(), |i: int| candidates[i].0)
}

/// A rerank in progress: it names the next document to score and takes its score.
pub struct Reranker {
    docs: Vec<u32>,
    k: usize,
    beta: Option<usize>,
    pool: Vec<Scored>,
    fed: usize,
    stalls: usize,
    stopped: bool,
    scores: Ghost<Seq<Score>>,
}

impl Reranker {
    /// The candidates, in order.
    pub closed spec fn docs(self) -> Seq<u32> {
        self.docs@
    }

    /// The number of results asked for.
    pub closed spec fn k(self) -> nat {
        self.k as nat
    }

    /// The patience, where one is set.
    pub closed spec fn beta(self) -> Option<usize> {
        self.beta
    }

    /// The scores taken so far, of the first candidates in order.
    pub closed spec fn scores(self) -> Seq<Score> {
        self.scores@
    }

    /// No further score is needed.
    pub open spec fn finished(self) -> bool {
        is_finished(self.docs(), self.scores(), self.k(), self.beta())
    }

    /// What holds between calls.
    pub closed spec fn wf(self) -> bool {
        let items = scored(self.docs@, self.scores@);
        &&& self.fed == self.scores@.len()
        &&& is_reachable(self.docs@, self.scores@, self.k as nat, self.beta)
        &&& if exits_early(self.docs@.len(), self.k as nat, self.beta) {
            let s = scan(items, self.k as nat, self.beta->0 as nat, self.fed as nat);
            &&& self.pool@ == s.kept
            &&& self.stalls == s.stalls
            &&& self.stopped == s.stopped
            &&& self.stalls <= self.fed
        } else {
            &&& self.pool@ == items
            &&& !self.stopped
        }
    }

    /// Starts a rerank of `candidates` for `k` results. With a `beta`, and at least `k > 0`
    /// candidates, it ends after `beta` scores in a row that do not improve the best `k`.
    pub fn new(candidates: &[(u32, Score)], k: usize, beta: Option<usize>) -> (r: Reranker)
        ensures
            r.wf(),
            r.docs() == docs_of(candidates@),
            r.k() == k,
            r.beta() == beta,
            r.scores() == Seq::<Score>::empty(),
    {
        let mut docs: Vec<u32> = Vec::with_capacity(candidates.len());
        let mut i: usize = 0;
        while i < candidates.len()
            invariant
                i <= candidates@.len(),
                docs@ == Seq::new(i as nat, |j: int| candidates@[j].0),
            decreases candidates@.len() - i,
        {
            docs.push(candidates[i].0);
            i += 1;
            assert(docs@ =~= Seq::new(i as nat, |j: int| candidates@[j].0));
        }
        let r = Reranker {
            docs,
            k,
            beta,
            pool: Vec::new(),
            fed: 0,
            stalls: 0,
            stopped: false,
            scores: Ghost(Seq::empty()),
        };
        assert(r.pool@ =~= scored(r.docs@, r.scores@));
        r
    }

    /// The next document to score, or `None` when the rerank needs no more.
    pub fn next_doc(&self) -> (r: Option<u32>)
        requires
            self.wf(),
        ensures
            r is None <==> self.finished(),
            r is Some ==> r->0 == self.docs()[self.scores().len() as int],
    {
        if self.stopped || self.fed >= self.docs.len() {
            None
        } else {
            Some(self.docs[self.fed])
        }
    }

    /// Takes the score of the document that `next_doc` named.
    pub fn feed(&mut self, score: Score)
        requires
            old(self).wf(),
            !old(self).finished(),
            !score.nan(),
        ensures
            final(self).wf(),
            final(self).docs() == old(self).docs(),
            final(self).k() == old(self).k(),
            final(self).beta() == old(self).beta(),
            final(self).scores() == old(self).scores().push(score),
    {
        let ghost before = scored(self.docs@, self.scores@);
        let ghost after = scored(self.docs@, self.scores@.push(score));
        let x: Scored = (score, self.docs[self.fed]);
        assert(self.fed < self.docs.len());
        let fed: usize = self.fed + 1;
        proof {
            assert(after =~= before.push(x));
            if self.beta is Some {
                lemma_scan_prefix(before, after, self.k as nat, self.beta->0 as nat, self.fed as nat);
            }
        }
        match self.beta {
            Some(patience) if self.docs.len() >= self.k && self.k > 0 => {
                proof {
                    lemma_scan_kept(before, self.k as nat, patience as nat, self.fed as nat);
                }
                if self.fed < self.k {
                    insert_ranked(&mut self.pool, x);
                    self.stalls = 0;
                } else {
                    let worst: Score = self.pool[self.pool.len() - 1].0;
                    if score.is_above(worst) {
                        insert_ranked(&mut self.pool, x);
                        self.pool.pop();
                        self.stalls = 0;
                    } else {
                        self.stalls = self.stalls + 1;
                        if self.stalls >= patience {
                            self.stopped = true;
                        }
                    }
                }
            },
            _ => {
                self.pool.push(x);
            },
        }
        self.fed = fed;
        self.scores = Ghost(self.scores@.push(score));
    }

    /// The results of a finished rerank, best first.
    pub fn finish(self) -> (r: Vec<Scored>)
        requires
            self.wf(),
            self.finished(),
        ensures
            r@ == reranked(self.docs(), self.scores(), self.k(), self.beta()),
            is_reachable(self.docs(), self.scores(), self.k(), self.beta()),
    {
        match self.beta {
            Some(_) if self.docs.len() >= self.k && self.k > 0 => self.pool,
            _ => best_first(&self.pool, self.k),
        }
    }
}

/// The first `k` of `items` in descending score order.
fn best_first(items: &Vec<Scored>, k: usize) -> (r: Vec<Scored>)
    ensures
        r@ == first_k(in_order(score_keys(items@), items@), k as nat),
{
    let mut keys: Vec<u64> = Vec::with_capacity(items.len());
    let mut i: usize = 0;
    while i < items.len()
        invariant
            i <= items@.len(),
            keys@ == score_keys(items@).take(i as int),
        decreases items@.len() - i,
    {
        keys.push(items[i].0.to_descending_key() as u64);
        i += 1;
        assert(keys@ =~= score_keys(items@).take(i as int));
    }
    assert(keys@ =~= score_keys(items@));
    let order: Vec<usize> = sort_positions(&keys);
    let n: usize = if items.len() <= k {
        items.len()
    } else {
        k
    };
    let ghost all = in_order(score_keys(items@), items@);
    let mut r: Vec<Scored> = Vec::with_capacity(n);
    let mut j: usize = 0;
    while j < n
        invariant
            j <= n <= items@.len(),
            is_stable_order(keys@, order@),
            keys@.len() == items@.len(),
            keys@ == score_keys(items@),
            order@ == stable_order(keys@),
            all == in_order(score_keys(items@), items@),
            r@ == all.take(j as int),
        decreases n - j,
    {
        r.push(items[order[j]]);
        j += 1;
        assert(r@ =~= all.take(j as int));
    }
    assert(all.take(items@.len() as int) =~= all);
    r
}

fn insert_ranked(pool: &mut Vec<Scored>, x: Scored)
    requires
        !x.0.nan(),
        forall|i: int| 0 <= i < old(pool)@.len() ==> !(#[trigger] old(pool)@[i]).0.nan(),
    ensures
        final(pool)@ == with_ranked(old(pool)@, x),
{
    let mut at: usize = pool.len();
    assert(pool@.take(at as int) =~= pool@);
    while at > 0 && !(pool[at - 1].0.is_above(x.0) || (pool[at - 1].0.is_at_least(x.0) && pool[at
        - 1].1 <= x.1))
        invariant
            at <= pool@.len(),
            !x.0.nan(),
            forall|i: int| 0 <= i < pool@.len() ==> !(#[trigger] pool@[i]).0.nan(),
            place(pool@.take(at as int), x) == place(pool@, x),
            pool@ == old(pool)@,
        decreases at,
    {
        at -= 1;
        assert(pool@.take(at + 1).drop_last() =~= pool@.take(at as int));
    }
    proof {
        if at > 0 {
            assert(pool@.take(at as int).last() == pool@[at - 1]);
        }
    }
    pool.insert(at, x);
}

proof fn lemma_scan_prefix(a: Seq<Scored>, b: Seq<Scored>, k: nat, patience: nat, n: nat)
    requires
        n <= a.len(),
        n <= b.len(),
        forall|i: int| 0 <= i < n ==> a[i] == b[i],
    ensures
        scan(a, k, patience, n) == scan(b, k, patience, n),
    decreases n,
{
    if n > 0 {
        lemma_scan_prefix(a, b, k, patience, (n - 1) as nat);
        assert(a[n - 1] == b[n - 1]);
    }
}

proof fn lemma_place(pool: Seq<Scored>, x: Scored)
    requires
        is_ranked(pool),
    ensures
        place(pool, x) <= pool.len(),
        forall|i: int| 0 <= i < place(pool, x) ==> ranks_at_or_above(#[trigger] pool[i], x),
        forall|i: int| place(pool, x) <= i < pool.len() ==> ranks_at_or_above(x, #[trigger] pool[i]),
        is_ranked(with_ranked(pool, x)),
        with_ranked(pool, x).len() == pool.len() + 1,
        with_ranked(pool, x).contains(x),
        forall|y: Scored| pool.contains(y) ==> #[trigger] with_ranked(pool, x).contains(y),
        forall|y: Scored| #[trigger]
            with_ranked(pool, x).contains(y) ==> y == x || pool.contains(y),
    decreases pool.len(),
{
    if pool.len() > 0 && !ranks_at_or_above(pool.last(), x) {
        lemma_place(pool.drop_last(), x);
        assert forall|i: int| 0 <= i < place(pool, x) implies ranks_at_or_above(
            #[trigger] pool[i],
            x,
        ) by {
            assert(pool.drop_last()[i] == pool[i]);
        }
        assert forall|i: int| place(pool, x) <= i < pool.len() implies ranks_at_or_above(
            x,
            #[trigger] pool[i],
        ) by {
            if i < pool.len() - 1 {
                assert(pool.drop_last()[i] == pool[i]);
            }
        }
    }
    let at = place(pool, x) as int;
    let more = with_ranked(pool, x);
    assert(more[at] == x);
    assert forall|y: Scored| pool.contains(y) implies #[trigger] more.contains(y) by {
        let i = choose|i: int| 0 <= i < pool.len() && pool[i] == y;
        if i < at {
            assert(more[i] == y);
        } else {
            assert(more[i + 1] == y);
        }
    }
    assert forall|y: Scored| #[trigger] more.contains(y) implies y == x || pool.contains(y) by {
        let i = choose|i: int| 0 <= i < more.len() && more[i] == y;
        if i < at {
            assert(pool[i] == y);
        } else if i > at {
            assert(pool[i - 1] == y);
        }
    }
}

/// What an early-exit scan keeps, as long as it was not stopped before its last score: the best
/// `k` of the scores it took.
proof fn lemma_scan_kept(items: Seq<Scored>, k: nat, patience: nat, n: nat)
    requires
        n <= items.len(),
        k > 0,
        n > 0 ==> !scan(items, k, patience, (n - 1) as nat).stopped,
        forall|i: int| 0 <= i < n ==> !(#[trigger] items[i]).0.nan(),
    ensures
        ({
            let s = scan(items, k, patience, n);
            &&& is_ranked(s.kept)
            &&& s.kept.len() == if n <= k {
                n
            } else {
                k
            }
            &&& s.stalls <= n
            &&& forall|j: int|
                0 <= j < s.kept.len() ==> !(#[trigger] s.kept[j]).0.nan() && items.take(
                    n as int,
                ).contains(s.kept[j])
            &&& forall|i: int|
                0 <= i < n ==> s.kept.contains(#[trigger] items[i]) || (s.kept.len() == k
                    && s.kept.last().0.rank() >= items[i].0.rank())
        }),
    decreases n,
{
    if n > 0 {
        let m = (n - 1) as nat;
        if m > 0 {
            lemma_not_stopped_before(items, k, patience, (m - 1) as nat, m);
        }
        lemma_scan_kept(items, k, patience, m);
        let old_s = scan(items, k, patience, m);
        let s = scan(items, k, patience, n);
        let x = items[m as int];
        let fed = items.take(m as int);
        let now = items.take(n as int);
        assert(now =~= fed.push(x));
        assert(now[m as int] == x);
        assert forall|y: Scored| fed.contains(y) implies #[trigger] now.contains(y) by {
            let i = choose|i: int| 0 <= i < fed.len() && fed[i] == y;
            assert(now[i] == y);
        }
        assert(now.contains(x));
        assert(!x.0.nan());
        lemma_place(old_s.kept, x);
        let more = with_ranked(old_s.kept, x);
        assert forall|j: int| 0 <= j < more.len() implies !(#[trigger] more[j]).0.nan()
            && now.contains(more[j]) by {
            assert(more.contains(more[j]));
            if more[j] != x {
                let i = choose|i: int| 0 <= i < old_s.kept.len() && old_s.kept[i] == more[j];
                assert(fed.contains(old_s.kept[i]));
            }
        }
        if n <= k {
            assert(s.kept == more);
        } else if x.0.above(old_s.kept.last().0) {
            let last = old_s.kept.last();
            assert(!ranks_at_or_above(last, x));
            assert(place(old_s.kept, x) < old_s.kept.len());
            assert(more.last() == last);
            assert(s.kept == more.drop_last());
            assert(s.kept.last().0.rank() >= last.0.rank()) by {
                assert(s.kept.last() == more[more.len() - 2]);
                assert(ranks_at_or_above(more[more.len() - 2], more[more.len() - 1]));
            }
            assert forall|i: int| 0 <= i < n implies s.kept.contains(#[trigger] items[i]) || (
            s.kept.len() == k && s.kept.last().0.rank() >= items[i].0.rank()) by {
                assert(i == m || old_s.kept.contains(items[i]) || last.0.rank()
                    >= items[i].0.rank());
                if more.contains(items[i]) {
                    let j = choose|j: int| 0 <= j < more.len() && more[j] == items[i];
                    if j < more.len() - 1 {
                        assert(s.kept[j] == items[i]);
                    }
                }
            }
            assert forall|j: int| 0 <= j < s.kept.len() implies !(#[trigger] s.kept[j]).0.nan()
                && now.contains(s.kept[j]) by {
                assert(s.kept[j] == more[j]);
            }
            assert(is_ranked(s.kept)) by {
                assert forall|i: int, j: int| 0 <= i < j < s.kept.len() implies ranks_at_or_above(
                    #[trigger] s.kept[i],
                    #[trigger] s.kept[j],
                ) by {
                    assert(s.kept[i] == more[i] && s.kept[j] == more[j]);
                }
            }
        } else {
            assert(s.kept == old_s.kept);
            assert(!old_s.kept[k - 1].0.nan());
        }
    }
}

proof fn lemma_not_stopped_before(items: Seq<Scored>, k: nat, patience: nat, m: nat, n: nat)
    requires
        m <= n,
        !scan(items, k, patience, n).stopped,
    ensures
        !scan(items, k, patience, m).stopped,
    decreases n,
{
    if m < n {
        lemma_not_stopped_before(items, k, patience, m, (n - 1) as nat);
    }
}

/// A rerank without early exit keeps the best `k` of everything it scored.
proof fn lemma_sorted_kept(items: Seq<Scored>, k: nat)
    requires
        items.len() <= usize::MAX,
    ensures
        ({
            let r = first_k(in_order(score_keys(items), items), k);
            &&& r.len() == if items.len() <= k {
                items.len()
            } else {
                k
            }
            &&& forall|i: int, j: int|
                0 <= i < j < r.len() ==> (#[trigger] r[i]).0.rank() >= (#[trigger] r[j]).0.rank()
            &&& forall|j: int| 0 <= j < r.len() ==> items.contains(#[trigger] r[j])
            &&& forall|i: int|
                0 <= i < items.len() ==> k == 0 || r.contains(#[trigger] items[i]) || (r.len() == k
                    && r.last().0.rank() >= items[i].0.rank())
        }),
{
    let keys = score_keys(items);
    let all = in_order(keys, items);
    let p = stable_order(keys);
    lemma_stable_order_exists(keys);
    let r = first_k(all, k);
    assert forall|i: int, j: int| 0 <= i < j < r.len() implies (#[trigger] r[i]).0.rank() >= (
    #[trigger] r[j]).0.rank() by {
        assert(comes_before(keys, p[i] as int, p[j] as int));
    }
    assert forall|j: int| 0 <= j < r.len() implies items.contains(#[trigger] r[j]) by {
        assert(items[p[j] as int] == r[j]);
    }
    assert forall|i: int| 0 <= i < items.len() implies k == 0 || r.contains(#[trigger] items[i]) || (
    r.len() == k && r.last().0.rank() >= items[i].0.rank()) by {
        lemma_stable_order_covers(keys, p, i as usize);
        let j = choose|j: int| 0 <= j < p.len() && p[j] == i as usize;
        if j < r.len() {
            assert(r[j] == items[i]);
        } else if k > 0 {
            assert(comes_before(keys, p[k - 1] as int, p[j] as int));
        }
    }
}

/// The results come in descending score order.
pub proof fn reranked_descends(docs: Seq<u32>, scores: Seq<Score>, k: nat, beta: Option<usize>)
    requires
        is_reachable(docs, scores, k, beta),
        docs.len() <= usize::MAX,
    ensures
        ({
            let r = reranked(docs, scores, k, beta);
            forall|i: int, j: int|
                0 <= i < j < r.len() ==> (#[trigger] r[i]).0.rank() >= (#[trigger] r[j]).0.rank()
        }),
{
    let items = scored(docs, scores);
    let r = reranked(docs, scores, k, beta);
    if exits_early(docs.len(), k, beta) {
        lemma_scan_kept(items, k, beta->0 as nat, scores.len());
        assert forall|i: int, j: int| 0 <= i < j < r.len() implies (#[trigger] r[i]).0.rank() >= (
        #[trigger] r[j]).0.rank() by {
            assert(ranks_at_or_above(r[i], r[j]));
        }
    } else {
        lemma_sorted_kept(items, k);
    }
}

/// A finished rerank gives `k` results, or one per candidate where there are fewer.
pub proof fn reranked_counts(docs: Seq<u32>, scores: Seq<Score>, k: nat, beta: Option<usize>)
    requires
        is_reachable(docs, scores, k, beta),
        is_finished(docs, scores, k, beta),
        docs.len() <= usize::MAX,
    ensures
        reranked(docs, scores, k, beta).len() == if docs.len() <= k {
            docs.len()
        } else {
            k
        },
{
    let items = scored(docs, scores);
    if exits_early(docs.len(), k, beta) {
        lemma_scan_kept(items, k, beta->0 as nat, scores.len());
        if scores.len() <= k {
            lemma_no_stall_while_filling(items, k, beta->0 as nat, scores.len());
        }
    } else {
        lemma_sorted_kept(items, k);
    }
}

/// Every result is a candidate with the score that was taken for it.
pub proof fn reranked_are_candidates(
    docs: Seq<u32>,
    scores: Seq<Score>,
    k: nat,
    beta: Option<usize>,
    j: int,
)
    requires
        is_reachable(docs, scores, k, beta),
        docs.len() <= usize::MAX,
        0 <= j < reranked(docs, scores, k, beta).len(),
    ensures
        exists|i: int|
            0 <= i < scores.len() && #[trigger] docs[i] == reranked(docs, scores, k, beta)[j].1
                && scores[i] == reranked(docs, scores, k, beta)[j].0,
{
    let items = scored(docs, scores);
    let r = reranked(docs, scores, k, beta);
    if exits_early(docs.len(), k, beta) {
        lemma_scan_kept(items, k, beta->0 as nat, scores.len());
        assert(items.take(scores.len() as int) =~= items);
        assert(items.contains(scan(items, k, beta->0 as nat, scores.len()).kept[j]));
    } else {
        lemma_sorted_kept(items, k);
    }
    assert(items.contains(r[j]));
    let i = choose|i: int| 0 <= i < items.len() && items[i] == r[j];
    assert(docs[i] == r[j].1);
}

/// No scored document is passed over: it is among the results, or these are `k` and none of
/// them scores below it.
pub proof fn reranked_is_top_k(
    docs: Seq<u32>,
    scores: Seq<Score>,
    k: nat,
    beta: Option<usize>,
    i: int,
)
    requires
        is_reachable(docs, scores, k, beta),
        docs.len() <= usize::MAX,
        k > 0,
        0 <= i < scores.len(),
    ensures
        ({
            let r = reranked(docs, scores, k, beta);
            r.contains((scores[i], docs[i])) || (r.len() == k && forall|j: int|
                0 <= j < r.len() ==> (#[trigger] r[j]).0.rank() >= scores[i].rank())
        }),
{
    let items = scored(docs, scores);
    assert(items[i] == (scores[i], docs[i]));
    reranked_descends(docs, scores, k, beta);
    if exits_early(docs.len(), k, beta) {
        lemma_scan_kept(items, k, beta->0 as nat, scores.len());
    } else {
        lemma_sorted_kept(items, k);
    }
}

/// A patience that the candidates beyond the first `k` cannot use up never ends a rerank early:
/// every candidate is scored.
pub proof fn long_patience_scores_all(docs: Seq<u32>, scores: Seq<Score>, k: nat, beta: usize)
    requires
        is_reachable(docs, scores, k, Some(beta)),
        is_finished(docs, scores, k, Some(beta)),
        beta + k >= docs.len(),
    ensures
        scores.len() == docs.len(),
{
    if exits_early(docs.len(), k, Some(beta)) && scores.len() < docs.len() {
        lemma_stalls_bounded(scored(docs, scores), k, beta as nat, scores.len());
    }
}

/// Two lists of results score alike: place by place the same score. Documents of one score may
/// stand in another order.
pub open spec fn score_alike(a: Seq<Scored>, b: Seq<Scored>) -> bool {
    &&& a.len() == b.len()
    &&& forall|i: int|
        0 <= i < a.len() ==> (#[trigger] a[i]).0.rank() == (#[trigger] b[i]).0.rank()
}

/// How many of `items` rank at `t` or above.
spec fn count_from(items: Seq<Scored>, t: int) -> nat
    decreases items.len(),
{
    if items.len() == 0 {
        0
    } else {
        count_from(items.drop_last(), t) + if items.last().0.rank() >= t {
            1nat
        } else {
            0
        }
    }
}

spec fn at_most(a: nat, b: nat) -> nat {
    if a <= b {
        a
    } else {
        b
    }
}

spec fn descends(items: Seq<Scored>) -> bool {
    forall|i: int, j: int|
        0 <= i < j < items.len() ==> (#[trigger] items[i]).0.rank() >= (
        #[trigger] items[j]).0.rank()
}

proof fn lemma_count_bounds(items: Seq<Scored>, t: int)
    ensures
        count_from(items, t) <= items.len(),
        (forall|i: int| 0 <= i < items.len() ==> (#[trigger] items[i]).0.rank() >= t)
            ==> count_from(items, t) == items.len(),
    decreases items.len(),
{
    if items.len() > 0 {
        lemma_count_bounds(items.drop_last(), t);
        if forall|i: int| 0 <= i < items.len() ==> (#[trigger] items[i]).0.rank() >= t {
            assert forall|i: int| 0 <= i < items.len() - 1 implies (
            #[trigger] items.drop_last()[i]).0.rank() >= t by {
                assert(items[i].0.rank() >= t);
            }
        }
    }
}

proof fn lemma_count_insert(items: Seq<Scored>, at: int, x: Scored, t: int)
    requires
        0 <= at <= items.len(),
    ensures
        count_from(items.insert(at, x), t) == count_from(items, t) + if x.0.rank() >= t {
            1nat
        } else {
            0
        },
    decreases items.len(),
{
    let more = items.insert(at, x);
    if at == items.len() {
        assert(more.drop_last() =~= items);
    } else {
        lemma_count_insert(items.drop_last(), at, x, t);
        assert(more.drop_last() =~= items.drop_last().insert(at, x));
        assert(more.last() == items.last());
    }
}

/// The number that rank at `t` or above is the number of their positions.
proof fn lemma_count_positions(items: Seq<Scored>, t: int)
    ensures
        positions_from(items, t).finite(),
        positions_from(items, t).len() == count_from(items, t),
    decreases items.len(),
{
    let all = positions_from(items, t);
    if items.len() == 0 {
        assert(all =~= Set::empty());
    } else {
        let front = items.drop_last();
        let last = items.len() - 1;
        lemma_count_positions(front, t);
        if items.last().0.rank() >= t {
            assert(all =~= positions_from(front, t).insert(last));
        } else {
            assert(all =~= positions_from(front, t));
        }
    }
}

spec fn positions_from(items: Seq<Scored>, t: int) -> Set<int> {
    Set::new(|i: int| 0 <= i < items.len() && items[i].0.rank() >= t)
}

/// Sorting changes no count.
proof fn lemma_count_sorted(items: Seq<Scored>, t: int)
    requires
        items.len() <= usize::MAX,
    ensures
        count_from(in_order(score_keys(items), items), t) == count_from(items, t),
{
    let keys = score_keys(items);
    lemma_stable_order_exists(keys);
    let p = stable_order(keys);
    assert(is_stable_order(keys, p));
    let all = in_order(keys, items);
    let from = positions_from(all, t);
    let to = positions_from(items, t);
    lemma_count_positions(all, t);
    lemma_count_positions(items, t);
    let f = |i: int| p[i] as int;
    assert forall|i: int, j: int| from.contains(i) && from.contains(j) && #[trigger] f(i)
        == #[trigger] f(j) implies i == j by {
        if i < j {
            assert(comes_before(keys, p[i] as int, p[j] as int));
        } else if j < i {
            assert(comes_before(keys, p[j] as int, p[i] as int));
        }
    }
    assert forall|x: int| #[trigger] from.map(f).contains(x) <==> to.contains(x) by {
        if from.map(f).contains(x) {
            let i = choose|i: int| from.contains(i) && f(i) == x;
            assert(all[i] == items[p[i] as int]);
        }
        if to.contains(x) {
            lemma_stable_order_covers(keys, p, x as usize);
            let i = choose|i: int| 0 <= i < p.len() && p[i] == x as usize;
            assert(all[i] == items[x]);
            assert(from.contains(i) && f(i) == x);
        }
    }
    assert(from.map(f) =~= to);
    vstd::set_lib::lemma_map_size(from, to, f);
}

/// The first `k` of a descending list count as much as the list, up to `k`.
proof fn lemma_count_first(items: Seq<Scored>, k: nat, t: int)
    requires
        descends(items),
    ensures
        count_from(first_k(items, k), t) == at_most(count_from(items, t), k),
    decreases items.len(),
{
    lemma_count_bounds(items, t);
    if items.len() > k {
        let front = items.drop_last();
        assert forall|i: int, j: int| 0 <= i < j < front.len() implies (
        #[trigger] front[i]).0.rank() >= (#[trigger] front[j]).0.rank() by {
            assert(items[i].0.rank() >= items[j].0.rank());
        }
        lemma_count_first(front, k, t);
        assert(first_k(items, k) =~= first_k(front, k));
        if items.last().0.rank() >= t {
            assert forall|i: int| 0 <= i < front.len() implies (#[trigger] front[i]).0.rank()
                >= t by {
                assert(items[i].0.rank() >= items[items.len() - 1].0.rank());
            }
            lemma_count_bounds(front, t);
        }
    }
}

/// An early-exit scan counts as much as what it took, up to `k`.
proof fn lemma_count_scan(items: Seq<Scored>, k: nat, patience: nat, n: nat, t: int)
    requires
        n <= items.len(),
        k > 0,
        n > 0 ==> !scan(items, k, patience, (n - 1) as nat).stopped,
        forall|i: int| 0 <= i < n ==> !(#[trigger] items[i]).0.nan(),
    ensures
        count_from(scan(items, k, patience, n).kept, t) == at_most(
            count_from(items.take(n as int), t),
            k,
        ),
    decreases n,
{
    if n > 0 {
        let m = (n - 1) as nat;
        if m > 0 {
            lemma_not_stopped_before(items, k, patience, (m - 1) as nat, m);
        }
        lemma_count_scan(items, k, patience, m, t);
        lemma_scan_kept(items, k, patience, m);
        let kept = scan(items, k, patience, m).kept;
        let x = items[m as int];
        assert(items.take(n as int).drop_last() =~= items.take(m as int));
        lemma_count_bounds(items.take(n as int), t);
        lemma_place(kept, x);
        lemma_count_insert(kept, place(kept, x) as int, x, t);
        if n > k {
            let last = kept.last();
            assert(kept[k - 1] == last);
            if last.0.rank() >= t {
                assert forall|i: int| 0 <= i < kept.len() implies (#[trigger] kept[i]).0.rank()
                    >= t by {
                    if i < k - 1 {
                        assert(ranks_at_or_above(kept[i], kept[k - 1]));
                    }
                }
            }
            lemma_count_bounds(kept, t);
            lemma_count_bounds(kept.drop_last(), t);
            if x.0.above(last.0) {
                assert(!ranks_at_or_above(last, x));
                let more = with_ranked(kept, x);
                assert(more.last() == last);
            }
        }
    }
}

/// Descending lists that count alike score alike.
proof fn lemma_counts_decide(a: Seq<Scored>, b: Seq<Scored>, i: int)
    requires
        descends(a),
        descends(b),
        a.len() == b.len(),
        0 <= i < a.len(),
        forall|t: int| #[trigger] count_from(a, t) == count_from(b, t),
    ensures
        a[i].0.rank() <= b[i].0.rank(),
{
    let t = a[i].0.rank() as int;
    if b[i].0.rank() < t {
        lemma_count_at_least(a, i, t);
        lemma_count_below(b, i, t);
        assert(count_from(a, t) == count_from(b, t));
    }
}

proof fn lemma_count_at_least(items: Seq<Scored>, i: int, t: int)
    requires
        descends(items),
        0 <= i < items.len(),
        items[i].0.rank() >= t,
    ensures
        count_from(items, t) > i,
    decreases items.len(),
{
    if i == items.len() - 1 {
        assert forall|j: int| 0 <= j < items.len() implies (#[trigger] items[j]).0.rank() >= t by {
            if j < i {
                assert(items[j].0.rank() >= items[i].0.rank());
            }
        }
        lemma_count_bounds(items, t);
    } else {
        let front = items.drop_last();
        assert forall|a: int, b: int| 0 <= a < b < front.len() implies (
        #[trigger] front[a]).0.rank() >= (#[trigger] front[b]).0.rank() by {
            assert(items[a].0.rank() >= items[b].0.rank());
        }
        lemma_count_at_least(front, i, t);
    }
}

proof fn lemma_count_below(items: Seq<Scored>, i: int, t: int)
    requires
        descends(items),
        0 <= i < items.len(),
        items[i].0.rank() < t,
    ensures
        count_from(items, t) <= i,
    decreases items.len(),
{
    let front = items.drop_last();
    if i == items.len() - 1 {
        lemma_count_bounds(front, t);
    } else {
        assert forall|a: int, b: int| 0 <= a < b < front.len() implies (
        #[trigger] front[a]).0.rank() >= (#[trigger] front[b]).0.rank() by {
            assert(items[a].0.rank() >= items[b].0.rank());
        }
        lemma_count_below(front, i, t);
        assert(items[i].0.rank() >= items[items.len() - 1].0.rank());
    }
}

/// Whatever the patience, the results score as the best `k` of all the documents that were scored.
pub proof fn reranked_scores_as_sorted(
    docs: Seq<u32>,
    scores: Seq<Score>,
    k: nat,
    beta: Option<usize>,
)
    requires
        is_reachable(docs, scores, k, beta),
        docs.len() <= usize::MAX,
    ensures
        score_alike(reranked(docs, scores, k, beta), reranked(docs, scores, k, None)),
{
    if exits_early(docs.len(), k, beta) {
        let items = scored(docs, scores);
        let patience = beta->0 as nat;
        let a = reranked(docs, scores, k, beta);
        let all = in_order(score_keys(items), items);
        let b = reranked(docs, scores, k, None);
        lemma_scan_kept(items, k, patience, scores.len());
        lemma_sorted_kept(items, k);
        lemma_sorted_kept(items, items.len());
        assert(items.take(items.len() as int) =~= items);
        assert(descends(a)) by {
            assert forall|i: int, j: int| 0 <= i < j < a.len() implies (#[trigger] a[i]).0.rank()
                >= (#[trigger] a[j]).0.rank() by {
                assert(ranks_at_or_above(a[i], a[j]));
            }
        }
        assert forall|t: int| #[trigger] count_from(a, t) == count_from(b, t) by {
            lemma_count_scan(items, k, patience, scores.len(), t);
            lemma_count_sorted(items, t);
            lemma_count_first(all, k, t);
        }
        assert forall|i: int| 0 <= i < a.len() implies (#[trigger] a[i]).0.rank() == (
        #[trigger] b[i]).0.rank() by {
            lemma_counts_decide(a, b, i);
            lemma_counts_decide(b, a, i);
        }
    }
}

/// A patience that the candidates beyond the first `k` cannot use up changes no score of the
/// results: a finished rerank gives the scores that one without patience gives.
pub proof fn long_patience_changes_no_score(
    docs: Seq<u32>,
    scores: Seq<Score>,
    all_scores: Seq<Score>,
    k: nat,
    beta: usize,
)
    requires
        is_reachable(docs, scores, k, Some(beta)),
        is_finished(docs, scores, k, Some(beta)),
        is_reachable(docs, all_scores, k, None),
        is_finished(docs, all_scores, k, None),
        forall|i: int|
            0 <= i < scores.len() && i < all_scores.len() ==> #[trigger] scores[i]
                == #[trigger] all_scores[i],
        beta + k >= docs.len(),
        docs.len() <= usize::MAX,
    ensures
        score_alike(reranked(docs, scores, k, Some(beta)), reranked(docs, all_scores, k, None)),
{
    long_patience_scores_all(docs, scores, k, beta);
    assert(scores =~= all_scores);
    reranked_scores_as_sorted(docs, scores, k, Some(beta));
}

/// The coarse scores of the candidates are not used: the same documents in the same order, with
/// whatever coarse scores, are reranked alike.
pub proof fn coarse_scores_are_not_used(
    candidates: Seq<(u32, Score)>,
    others: Seq<(u32, Score)>,
    scores: Seq<Score>,
    k: nat,
    beta: Option<usize>,
)
    requires
        candidates.len() == others.len(),
        forall|i: int|
            0 <= i < candidates.len() ==> (#[trigger] candidates[i]).0 == (#[trigger] others[i]).0,
    ensures
        docs_of(candidates) == docs_of(others),
        is_finished(docs_of(candidates), scores, k, beta) == is_finished(
            docs_of(others),
            scores,
            k,
            beta,
        ),
        reranked(docs_of(candidates), scores, k, beta) == reranked(
            docs_of(others),
            scores,
            k,
            beta,
        ),
{
    assert forall|i: int| 0 <= i < candidates.len() implies docs_of(candidates)[i] == docs_of(
        others,
    )[i] by {
        assert(candidates[i].0 == others[i].0);
    }
    assert(docs_of(candidates) =~= docs_of(others));
}

proof fn lemma_no_stall_while_filling(items: Seq<Scored>, k: nat, patience: nat, n: nat)
    requires
        n <= k,
    ensures
        !scan(items, k, patience, n).stopped,
        scan(items, k, patience, n).stalls == 0,
    decreases n,
{
    if n > 0 {
        lemma_no_stall_while_filling(items, k, patience, (n - 1) as nat);
    }
}

proof fn lemma_stalls_bounded(items: Seq<Scored>, k: nat, patience: nat, n: nat)
    ensures
        scan(items, k, patience, n).stalls <= if n <= k {
            0
        } else {
            n - k
        },
        scan(items, k, patience, n).stopped ==> n > k && scan(items, k, patience, n).stalls
            >= patience,
    decreases n,
{
    if n > 0 {
        lemma_stalls_bounded(items, k, patience, (n - 1) as nat);
    }
}

/// No document occurs twice.
pub open spec fn distinct_docs(items: Seq<Scored>) -> bool {
    forall|i: int, j: int|
        0 <= i < j < items.len() ==> (#[trigger] items[i]).1 != (#[trigger] items[j]).1
}

proof fn lemma_scan_distinct(items: Seq<Scored>, k: nat, patience: nat, n: nat)
    requires
        n <= items.len(),
        k > 0,
        n > 0 ==> !scan(items, k, patience, (n - 1) as nat).stopped,
        forall|i: int| 0 <= i < n ==> !(#[trigger] items[i]).0.nan(),
        distinct_docs(items),
    ensures
        distinct_docs(scan(items, k, patience, n).kept),
    decreases n,
{
    if n > 0 {
        let m = (n - 1) as nat;
        if m > 0 {
            lemma_not_stopped_before(items, k, patience, (m - 1) as nat, m);
        }
        lemma_scan_distinct(items, k, patience, m);
        lemma_scan_kept(items, k, patience, m);
        let kept = scan(items, k, patience, m).kept;
        let x = items[m as int];
        let fed = items.take(m as int);
        assert forall|j: int| 0 <= j < kept.len() implies (#[trigger] kept[j]).1 != x.1 by {
            assert(fed.contains(kept[j]));
            let i = choose|i: int| 0 <= i < fed.len() && fed[i] == kept[j];
            assert(items[i] == kept[j]);
        }
        lemma_place(kept, x);
        let at = place(kept, x) as int;
        let more = with_ranked(kept, x);
        assert forall|i: int, j: int| 0 <= i < j < more.len() implies (#[trigger] more[i]).1 != (
        #[trigger] more[j]).1 by {
            if i == at {
                assert(more[j] == kept[j - 1]);
            } else if j == at {
                assert(more[i] == kept[i]);
            } else {
                let a = if i < at {
                    i
                } else {
                    i - 1
                };
                let b = if j < at {
                    j
                } else {
                    j - 1
                };
                assert(more[i] == kept[a] && more[j] == kept[b]);
            }
        }
    }
}

/// Where the candidates are different documents, so are the results.
pub proof fn reranked_are_distinct(docs: Seq<u32>, scores: Seq<Score>, k: nat, beta: Option<usize>)
    requires
        is_reachable(docs, scores, k, beta),
        docs.len() <= usize::MAX,
        docs.no_duplicates(),
    ensures
        distinct_docs(reranked(docs, scores, k, beta)),
{
    let items = scored(docs, scores);
    assert(distinct_docs(items));
    if exits_early(docs.len(), k, beta) {
        lemma_scan_distinct(items, k, beta->0 as nat, scores.len());
    } else {
        let keys = score_keys(items);
        lemma_stable_order_exists(keys);
        let p = stable_order(keys);
        let r = reranked(docs, scores, k, beta);
        assert forall|i: int, j: int| 0 <= i < j < r.len() implies (#[trigger] r[i]).1 != (
        #[trigger] r[j]).1 by {
            assert(comes_before(keys, p[i] as int, p[j] as int));
            assert(r[i] == items[p[i] as int] && r[j] == items[p[j] as int]);
            assert(docs[p[i] as int] != docs[p[j] as int]);
        }
    }
}

/// Item `i` enters the best `k`: it is among the first `k`, or fewer than `k` before it rank at or
/// above it.
spec fn enters(items: Seq<Scored>, k: nat, i: int) -> bool {
    i < k || positions_from(items.take(i), items[i].0.rank()).len() < k
}

/// The stalls are the items at the end, in a row, that did not enter.
proof fn lemma_stalls_are_a_run(items: Seq<Scored>, k: nat, patience: nat, n: nat)
    requires
        n <= items.len(),
        k > 0,
        n > 0 ==> !scan(items, k, patience, (n - 1) as nat).stopped,
        forall|i: int| 0 <= i < n ==> !(#[trigger] items[i]).0.nan(),
    ensures
        ({
            let s = scan(items, k, patience, n);
            &&& s.stalls <= n
            &&& forall|i: int| n - s.stalls <= i < n ==> !#[trigger] enters(items, k, i)
            &&& s.stalls < n ==> enters(items, k, n - s.stalls - 1)
            &&& s.stopped <==> s.stalls > 0 && s.stalls >= patience
        }),
    decreases n,
{
    if n > 0 {
        let m = (n - 1) as nat;
        if m > 0 {
            lemma_not_stopped_before(items, k, patience, (m - 1) as nat, m);
        }
        lemma_stalls_are_a_run(items, k, patience, m);
        if n > k {
            lemma_enters_above_the_last(items, k, patience, m);
        }
    }
}

/// Once `k` are kept, an item enters exactly if it is above the last of them.
proof fn lemma_enters_above_the_last(items: Seq<Scored>, k: nat, patience: nat, m: nat)
    requires
        k <= m < items.len(),
        k > 0,
        !scan(items, k, patience, (m - 1) as nat).stopped,
        forall|i: int| 0 <= i <= m ==> !(#[trigger] items[i]).0.nan(),
    ensures
        ({
            let kept = scan(items, k, patience, m).kept;
            items[m as int].0.above(kept.last().0) <==> enters(items, k, m as int)
        }),
{
    let x = items[m as int];
    let t = x.0.rank();
    lemma_scan_kept(items, k, patience, m);
    lemma_count_scan(items, k, patience, m, t);
    lemma_count_positions(items.take(m as int), t);
    let kept = scan(items, k, patience, m).kept;
    assert(kept[k - 1] == kept.last());
    lemma_count_bounds(kept, t);
    if kept.last().0.rank() >= t {
        assert forall|i: int| 0 <= i < kept.len() implies (#[trigger] kept[i]).0.rank() >= t by {
            if i < k - 1 {
                assert(ranks_at_or_above(kept[i], kept[k - 1]));
            }
        }
    } else {
        lemma_count_bounds(kept.drop_last(), t);
    }
}

/// A rerank with patience ends exactly when all candidates are scored, or when the last `beta`
/// scores, at least one, lie beyond the first `k` and none of them was among the best `k` when it
/// was taken: of the scores before it, `k` were no worse. It ends no later than that.
pub proof fn rerank_ends_after_stalls(docs: Seq<u32>, scores: Seq<Score>, k: nat, beta: usize)
    requires
        is_reachable(docs, scores, k, Some(beta)),
        docs.len() >= k > 0,
    ensures
        ({
            let improves = |i: int|
                Set::new(|j: int| 0 <= j < i && scores[j].at_least(scores[i])).len() < k;
            let run: int = if beta == 0 {
                1
            } else {
                beta as int
            };
            let ended = |n: int|
                n >= k + run && forall|i: int| n - run <= i < n ==> !#[trigger] improves(i);
            &&& is_finished(docs, scores, k, Some(beta)) <==> scores.len() == docs.len() || ended(
                scores.len() as int,
            )
            &&& forall|n: int| 0 <= n < scores.len() ==> !#[trigger] ended(n)
        }),
{
    let items = scored(docs, scores);
    let improves = |i: int|
        Set::new(|j: int| 0 <= j < i && scores[j].at_least(scores[i])).len() < k;
    let run: int = if beta == 0 {
        1
    } else {
        beta as int
    };
    let ended = |n: int|
        n >= k + run && forall|i: int| n - run <= i < n ==> !#[trigger] improves(i);
    let len = scores.len();
    assert forall|n: int| 0 <= n <= len implies #[trigger] ended(n) == scan(
        items,
        k,
        beta as nat,
        n as nat,
    ).stopped by {
        if n > 0 {
            if n < len {
                lemma_not_stopped_before(items, k, beta as nat, (n - 1) as nat, (len - 1) as nat);
            }
        }
        lemma_stalls_are_a_run(items, k, beta as nat, n as nat);
        lemma_stalls_bounded(items, k, beta as nat, n as nat);
        let s = scan(items, k, beta as nat, n as nat);
        assert forall|i: int| k <= i < n implies #[trigger] improves(i) == enters(items, k, i) by {
            assert(Set::new(|j: int| 0 <= j < i && scores[j].at_least(scores[i]))
                =~= positions_from(items.take(i), items[i].0.rank()));
        }
        if s.stopped {
            assert forall|i: int| n - run <= i < n implies !#[trigger] improves(i) by {
                assert(!enters(items, k, i));
            }
        } else if ended(n) {
            assert(enters(items, k, n - s.stalls - 1));
            assert(!improves(n - s.stalls - 1));
        }
    }
    assert forall|n: int| 0 <= n < len implies !#[trigger] ended(n) by {
        lemma_not_stopped_before(items, k, beta as nat, n as nat, (len - 1) as nat);
    }
    assert(ended(len as int) == scan(items, k, beta as nat, len).stopped);
}

/// Without patience, or where fewer than `k` candidates are there or none is asked for, a rerank
/// ends when all candidates are scored.
pub proof fn rerank_without_patience_scores_all(
    docs: Seq<u32>,
    scores: Seq<Score>,
    k: nat,
    beta: Option<usize>,
)
    requires
        beta is None || docs.len() < k || k == 0,
    ensures
        is_finished(docs, scores, k, beta) <==> scores.len() == docs.len(),
{
}

/// The kept of an early-exit scan stand at different places of the items, and no other item ranks
/// above the last of them.
spec fn are_kept(items: Seq<Scored>, k: nat, n: int, kept: Seq<Scored>, from: Seq<int>) -> bool {
    &&& from.len() == kept.len()
    &&& from.no_duplicates()
    &&& forall|i: int|
        0 <= i < kept.len() ==> 0 <= #[trigger] from[i] < n && kept[i] == items[from[i]]
    &&& forall|x: int|
        0 <= x < n && !from.contains(x) ==> kept.len() == k && kept.last().0.rank() >= (
        #[trigger] items[x]).0.rank()
}

/// What is kept has entered; and of the items that rank with one that is kept, the others that
/// entered have no smaller id, and those that did not come later.
spec fn ties_are_kept(
    items: Seq<Scored>,
    k: nat,
    n: int,
    kept: Seq<Scored>,
    from: Seq<int>,
) -> bool {
    &&& forall|i: int| 0 <= i < kept.len() ==> enters(items, k, #[trigger] from[i])
    &&& forall|i: int, x: int|
        0 <= i < kept.len() && 0 <= x < n && !from.contains(x) && (
        #[trigger] items[x]).0.rank() == items[#[trigger] from[i]].0.rank() ==> if enters(
            items,
            k,
            x,
        ) {
            items[from[i]].1 <= items[x].1
        } else {
            from[i] < x
        }
}

/// The places with one more put in at `at`.
proof fn lemma_one_more_place(
    items: Seq<Scored>,
    kept: Seq<Scored>,
    from: Seq<int>,
    m: int,
    at: int,
)
    requires
        0 <= at <= kept.len(),
        0 <= m < items.len(),
        from.len() == kept.len(),
        from.no_duplicates(),
        forall|i: int|
            0 <= i < kept.len() ==> 0 <= #[trigger] from[i] < m && kept[i] == items[from[i]],
    ensures
        ({
            let wide = from.insert(at, m);
            let more = kept.insert(at, items[m]);
            &&& wide.len() == more.len()
            &&& wide.no_duplicates()
            &&& forall|i: int|
                0 <= i < more.len() ==> 0 <= #[trigger] wide[i] <= m && more[i] == items[wide[i]]
            &&& forall|y: int| #[trigger] wide.contains(y) <==> y == m || from.contains(y)
        }),
{
    let wide = from.insert(at, m);
    let more = kept.insert(at, items[m]);
    assert forall|i: int| 0 <= i < more.len() implies 0 <= #[trigger] wide[i] <= m && more[i]
        == items[wide[i]] && (i != at ==> wide[i] < m) by {
        if i < at {
            assert(wide[i] == from[i]);
        } else if i > at {
            assert(wide[i] == from[i - 1]);
        }
    }
    assert forall|i: int, j: int|
        0 <= i < wide.len() && 0 <= j < wide.len() && i != j implies wide[i] != wide[j] by {
        let a = if i < at {
            i
        } else {
            i - 1
        };
        let b = if j < at {
            j
        } else {
            j - 1
        };
        if i == at {
            assert(wide[j] < m);
        } else if j == at {
            assert(wide[i] < m);
        } else {
            assert(wide[i] == from[a] && wide[j] == from[b]);
        }
    }
    assert forall|y: int| #[trigger] wide.contains(y) <==> y == m || from.contains(y) by {
        if wide.contains(y) && y != m {
            let i = choose|i: int| 0 <= i < wide.len() && wide[i] == y;
            if i < at {
                assert(from[i] == y);
            } else {
                assert(from[i - 1] == y);
            }
        }
        if y == m {
            assert(wide[at] == y);
        }
        if from.contains(y) {
            let i = choose|i: int| 0 <= i < from.len() && from[i] == y;
            if i < at {
                assert(wide[i] == y);
            } else {
                assert(wide[i + 1] == y);
            }
        }
    }
}

proof fn lemma_kept_places(items: Seq<Scored>, k: nat, patience: nat, n: nat) -> (from: Seq<int>)
    requires
        n <= items.len(),
        k > 0,
        n > 0 ==> !scan(items, k, patience, (n - 1) as nat).stopped,
        forall|i: int| 0 <= i < n ==> !(#[trigger] items[i]).0.nan(),
    ensures
        are_kept(items, k, n as int, scan(items, k, patience, n).kept, from),
        ties_are_kept(items, k, n as int, scan(items, k, patience, n).kept, from),
    decreases n,
{
    if n == 0 {
        Seq::empty()
    } else {
        let m = (n - 1) as nat;
        if m > 0 {
            lemma_not_stopped_before(items, k, patience, (m - 1) as nat, m);
        }
        let old_from = lemma_kept_places(items, k, patience, m);
        lemma_scan_kept(items, k, patience, m);
        let kept = scan(items, k, patience, m).kept;
        let now = scan(items, k, patience, n).kept;
        let x = items[m as int];
        lemma_place(kept, x);
        let at = place(kept, x) as int;
        let more = with_ranked(kept, x);
        lemma_one_more_place(items, kept, old_from, m as int, at);
        let wide = old_from.insert(at, m as int);
        if n <= k {
            assert(now == more);
            assert(kept.len() == m);
            assert forall|y: int| 0 <= y < n implies #[trigger] wide.contains(y) by {
                if y < m && !old_from.contains(y) {
                    assert(items[y].0.rank() <= kept.last().0.rank());
                }
            }
            assert(are_kept(items, k, n as int, now, wide));
            assert forall|i: int| 0 <= i < now.len() implies enters(items, k, #[trigger] wide[i]) by {
                assert(wide[i] <= m);
            }
            assert(ties_are_kept(items, k, n as int, now, wide));
            wide
        } else if x.0.above(kept.last().0) {
            assert(now == more.drop_last());
            lemma_one_place_less(items, k, kept, old_from, m as int, x, more, wide, now);
            assert(are_kept(items, k, n as int, now, wide.drop_last()));
            lemma_enters_above_the_last(items, k, patience, m);
            lemma_ties_stay_kept(items, k, kept, old_from, m as int, x, more, wide, now);
            wide.drop_last()
        } else {
            assert(now == kept);
            assert(kept.len() == k);
            assert(kept[k - 1] == kept.last());
            assert(!kept[k - 1].0.nan());
            assert forall|y: int| 0 <= y < n && !old_from.contains(y) implies now.len() == k
                && now.last().0.rank() >= (#[trigger] items[y]).0.rank() by {}
            assert(are_kept(items, k, n as int, now, old_from));
            lemma_enters_above_the_last(items, k, patience, m);
            assert(ties_are_kept(items, k, n as int, now, old_from));
            old_from
        }
    }
}

proof fn lemma_one_place_less(
    items: Seq<Scored>,
    k: nat,
    kept: Seq<Scored>,
    from: Seq<int>,
    m: int,
    x: Scored,
    more: Seq<Scored>,
    wide: Seq<int>,
    now: Seq<Scored>,
)
    requires
        0 <= m < items.len(),
        x == items[m],
        kept.len() == k > 0,
        is_ranked(kept),
        !ranks_at_or_above(kept.last(), x),
        place(kept, x) <= kept.len(),
        more == kept.insert(place(kept, x) as int, x),
        is_ranked(more),
        now == more.drop_last(),
        wide.len() == more.len(),
        wide.no_duplicates(),
        forall|i: int|
            0 <= i < more.len() ==> 0 <= #[trigger] wide[i] <= m && more[i] == items[wide[i]],
        forall|y: int| #[trigger] wide.contains(y) <==> y == m || from.contains(y),
        forall|y: int|
            0 <= y < m && !from.contains(y) ==> kept.last().0.rank() >= (
            #[trigger] items[y]).0.rank(),
    ensures
        are_kept(items, k, m + 1, now, wide.drop_last()),
{
    let less = wide.drop_last();
    lemma_place(kept, x);
    assert(kept[kept.len() - 1] == kept.last());
    assert(place(kept, x) < kept.len());
    assert(more.last() == kept.last());
    assert(ranks_at_or_above(more[more.len() - 2], more[more.len() - 1]));
    assert(now.last() == more[more.len() - 2]);
    assert forall|y: int| 0 <= y < m + 1 && !less.contains(y) implies now.len() == k
        && now.last().0.rank() >= (#[trigger] items[y]).0.rank() by {
        if wide.contains(y) {
            let i = choose|i: int| 0 <= i < wide.len() && wide[i] == y;
            if i < wide.len() - 1 {
                assert(less[i] == y);
            }
            assert(items[y] == more.last());
        }
    }
    assert forall|i: int| 0 <= i < now.len() implies 0 <= #[trigger] less[i] < m + 1 && now[i]
        == items[less[i]] by {
        assert(less[i] == wide[i] && now[i] == more[i]);
    }
    assert forall|i: int, j: int|
        0 <= i < less.len() && 0 <= j < less.len() && i != j implies less[i] != less[j] by {
        assert(less[i] == wide[i] && less[j] == wide[j]);
    }
}

proof fn lemma_ties_stay_kept(
    items: Seq<Scored>,
    k: nat,
    kept: Seq<Scored>,
    from: Seq<int>,
    m: int,
    x: Scored,
    more: Seq<Scored>,
    wide: Seq<int>,
    now: Seq<Scored>,
)
    requires
        0 <= m < items.len(),
        x == items[m],
        kept.len() == k > 0,
        x.0.rank() > kept.last().0.rank(),
        is_ranked(kept),
        are_kept(items, k, m, kept, from),
        ties_are_kept(items, k, m, kept, from),
        enters(items, k, m),
        is_ranked(more),
        more.len() == k + 1,
        more.last() == kept.last(),
        now == more.drop_last(),
        wide.len() == more.len(),
        wide.no_duplicates(),
        forall|i: int|
            0 <= i < more.len() ==> 0 <= #[trigger] wide[i] <= m && more[i] == items[wide[i]],
        forall|y: int| #[trigger] wide.contains(y) <==> y == m || from.contains(y),
    ensures
        ties_are_kept(items, k, m + 1, now, wide.drop_last()),
{
    let less = wide.drop_last();
    assert forall|i: int| 0 <= i < wide.len() implies enters(items, k, #[trigger] wide[i]) && (wide[i]
        != m ==> from.contains(wide[i])) by {
        assert(wide.contains(wide[i]));
        if wide[i] != m {
            let j = choose|j: int| 0 <= j < from.len() && from[j] == wide[i];
            assert(enters(items, k, from[j]));
        }
    }
    assert forall|i: int, y: int|
        0 <= i < now.len() && 0 <= y < m + 1 && !less.contains(y) && (
        #[trigger] items[y]).0.rank() == items[#[trigger] less[i]].0.rank() implies if enters(
        items,
        k,
        y,
    ) {
        items[less[i]].1 <= items[y].1
    } else {
        less[i] < y
    } by {
        assert(less[i] == wide[i]);
        assert(more[i] == items[wide[i]]);
        if wide.contains(y) {
            let a = choose|a: int| 0 <= a < wide.len() && wide[a] == y;
            if a < wide.len() - 1 {
                assert(less[a] == y);
            }
            assert(enters(items, k, wide[a]));
            assert(ranks_at_or_above(more[i], more[more.len() - 1]));
        } else {
            assert(y != m && !from.contains(y));
            assert(kept.last().0.rank() >= items[y].0.rank());
            assert(ranks_at_or_above(more[i], more[more.len() - 1]));
            assert(wide[i] != m);
            let j = choose|j: int| 0 <= j < from.len() && from[j] == wide[i];
            assert(items[from[j]].0.rank() == items[y].0.rank());
        }
    }
    assert forall|i: int| 0 <= i < now.len() implies enters(items, k, #[trigger] less[i]) by {
        assert(less[i] == wide[i]);
    }
}

/// What the results are: documents that were scored, each with its own score and for one scoring
/// only, as many as asked for or all; none above one before it; and no scored document that is left
/// out is above any of them.
pub proof fn results_are_the_best_scored(
    docs: Seq<u32>,
    scores: Seq<Score>,
    k: nat,
    beta: Option<usize>,
)
    requires
        is_reachable(docs, scores, k, beta),
        docs.len() <= usize::MAX,
    ensures
        ({
            let r = reranked(docs, scores, k, beta);
            &&& r.len() <= k && r.len() <= scores.len() && (r.len() == k || r.len() == scores.len())
            &&& exists|from: Seq<int>| #[trigger]
                from.no_duplicates() && from.len() == r.len() && (forall|i: int|
                    0 <= i < r.len() ==> 0 <= #[trigger] from[i] < scores.len() && r[i] == (
                        scores[from[i]],
                        docs[from[i]],
                    )) && (forall|i: int, x: int|
                    0 <= i < r.len() && 0 <= x < scores.len() && !from.contains(x) ==> !(
                    #[trigger] scores[x]).above((#[trigger] r[i]).0))
            &&& forall|i: int, j: int|
                0 <= i < j < r.len() ==> !(#[trigger] r[j]).0.above((#[trigger] r[i]).0)
        }),
{
    let items = scored(docs, scores);
    let r = reranked(docs, scores, k, beta);
    reranked_descends(docs, scores, k, beta);
    if exits_early(docs.len(), k, beta) {
        lemma_scan_kept(items, k, beta->0 as nat, scores.len());
        let from = lemma_kept_places(items, k, beta->0 as nat, scores.len());
        assert forall|i: int| 0 <= i < r.len() implies 0 <= #[trigger] from[i] < scores.len() && r[i]
            == (scores[from[i]], docs[from[i]]) by {
            assert(items[from[i]] == (scores[from[i]], docs[from[i]]));
        }
        assert forall|i: int, x: int|
            0 <= i < r.len() && 0 <= x < scores.len() && !from.contains(x) implies !(
        #[trigger] scores[x]).above((#[trigger] r[i]).0) by {
            assert(items[x].0 == scores[x]);
            if i < r.len() - 1 {
                assert(r[i].0.rank() >= r[r.len() - 1].0.rank());
            }
        }
        assert(from.no_duplicates());
    } else {
        let keys = score_keys(items);
        lemma_stable_order_exists(keys);
        let p = stable_order(keys);
        assert(is_stable_order(keys, p));
        let from: Seq<int> = Seq::new(r.len(), |i: int| p[i] as int);
        lemma_sorted_kept(items, k);
        assert forall|i: int, j: int| 0 <= i < j < p.len() implies #[trigger] p[i] != #[trigger] p[j]
            && items[p[i] as int].0.rank() >= items[p[j] as int].0.rank() by {
            assert(comes_before(keys, p[i] as int, p[j] as int));
        }
        assert(from.no_duplicates()) by {
            assert forall|i: int, j: int|
                0 <= i < from.len() && 0 <= j < from.len() && i != j implies from[i] != from[j] by {
                if i < j {
                    assert(p[i] != p[j]);
                } else {
                    assert(p[j] != p[i]);
                }
            }
        }
        assert forall|i: int| 0 <= i < r.len() implies 0 <= #[trigger] from[i] < scores.len() && r[i]
            == (scores[from[i]], docs[from[i]]) by {
            assert(p[i] < keys.len());
            assert(r[i] == items[p[i] as int]);
        }
        assert forall|i: int, x: int|
            0 <= i < r.len() && 0 <= x < scores.len() && !from.contains(x) implies !(
        #[trigger] scores[x]).above((#[trigger] r[i]).0) by {
            lemma_stable_order_covers(keys, p, x as usize);
            let a = choose|a: int| 0 <= a < p.len() && p[a] == x as usize;
            if a < r.len() {
                assert(from[a] == x);
            }
            assert(p[i] != p[a]);
            assert(items[x].0 == scores[x]);
        }
    }
}

/// Documents of one score stand by ascending id where a rerank can end early, and in candidate
/// order, of which the first stay, where it cannot.
pub proof fn equal_scores_have_an_order(
    docs: Seq<u32>,
    scores: Seq<Score>,
    k: nat,
    beta: Option<usize>,
)
    requires
        is_reachable(docs, scores, k, beta),
        docs.len() <= usize::MAX,
    ensures
        ({
            let r = reranked(docs, scores, k, beta);
            if beta is Some && docs.len() >= k && k > 0 {
                forall|i: int, j: int|
                    0 <= i < j < r.len() && (#[trigger] r[j]).0.at_least((#[trigger] r[i]).0)
                        ==> r[i].1 <= r[j].1
            } else {
                exists|from: Seq<int>| #[trigger]
                    from.no_duplicates() && from.len() == r.len() && (forall|i: int|
                        0 <= i < r.len() ==> 0 <= #[trigger] from[i] < scores.len() && r[i] == (
                            scores[from[i]],
                            docs[from[i]],
                        )) && (forall|i: int, j: int|
                        0 <= i < j < r.len() && scores[#[trigger] from[j]].at_least(
                            scores[#[trigger] from[i]],
                        ) ==> from[i] < from[j]) && (forall|i: int, x: int|
                        0 <= i < r.len() && 0 <= x < scores.len() && !from.contains(x)
                            && #[trigger] scores[x].at_least(scores[#[trigger] from[i]]) ==> from[i]
                            < x)
            }
        }),
{
    let items = scored(docs, scores);
    let r = reranked(docs, scores, k, beta);
    if exits_early(docs.len(), k, beta) {
        lemma_scan_kept(items, k, beta->0 as nat, scores.len());
        assert forall|i: int, j: int|
            0 <= i < j < r.len() && (#[trigger] r[j]).0.at_least((#[trigger] r[i]).0) implies r[i].1
            <= r[j].1 by {
            assert(ranks_at_or_above(r[i], r[j]));
        }
    } else {
        let keys = score_keys(items);
        lemma_stable_order_exists(keys);
        let p = stable_order(keys);
        assert(is_stable_order(keys, p));
        let from: Seq<int> = Seq::new(r.len(), |i: int| p[i] as int);
        assert forall|i: int, j: int| 0 <= i < j < p.len() implies #[trigger] p[i] != #[trigger] p[j]
            && (items[p[j] as int].0.at_least(items[p[i] as int].0) ==> p[i] < p[j]) by {
            assert(comes_before(keys, p[i] as int, p[j] as int));
        }
        assert(from.no_duplicates()) by {
            assert forall|i: int, j: int|
                0 <= i < from.len() && 0 <= j < from.len() && i != j implies from[i] != from[j] by {
                if i < j {
                    assert(p[i] != p[j]);
                } else {
                    assert(p[j] != p[i]);
                }
            }
        }
        assert forall|i: int| 0 <= i < r.len() implies 0 <= #[trigger] from[i] < scores.len() && r[i]
            == (scores[from[i]], docs[from[i]]) by {
            assert(p[i] < keys.len());
            assert(r[i] == items[p[i] as int]);
        }
        assert forall|i: int, j: int|
            0 <= i < j < r.len() && scores[#[trigger] from[j]].at_least(
                scores[#[trigger] from[i]],
            ) implies from[i] < from[j] by {
            assert(p[i] != p[j]);
        }
        assert forall|i: int, x: int|
            0 <= i < r.len() && 0 <= x < scores.len() && !from.contains(x)
                && #[trigger] scores[x].at_least(scores[#[trigger] from[i]]) implies from[i] < x by {
            lemma_stable_order_covers(keys, p, x as usize);
            let a = choose|a: int| 0 <= a < p.len() && p[a] == x as usize;
            if a < r.len() {
                assert(from[a] == x);
            }
            assert(p[i] != p[a]);
        }
    }
}

/// Where a rerank can end early and not all documents of one score are among the results: those of
/// them that were among the best `k` when they were scored lost their place to smaller ids; and the
/// others came later than those that are there.
pub proof fn early_results_of_one_score(docs: Seq<u32>, scores: Seq<Score>, k: nat, beta: usize)
    requires
        is_reachable(docs, scores, k, Some(beta)),
        docs.len() >= k > 0,
    ensures
        ({
            let r = reranked(docs, scores, k, Some(beta));
            let improves = |i: int|
                Set::new(|j: int| 0 <= j < i && scores[j].at_least(scores[i])).len() < k;
            exists|from: Seq<int>| #[trigger]
                from.no_duplicates() && from.len() == r.len() && (forall|i: int|
                    0 <= i < r.len() ==> 0 <= #[trigger] from[i] < scores.len() && r[i] == (
                        scores[from[i]],
                        docs[from[i]],
                    )) && (forall|i: int, x: int|
                    0 <= i < r.len() && 0 <= x < scores.len() && !from.contains(x) && (
                    #[trigger] scores[x]).at_least(scores[#[trigger] from[i]]) ==> if improves(x) {
                        docs[from[i]] <= docs[x]
                    } else {
                        from[i] < x
                    })
        }),
{
    let items = scored(docs, scores);
    let r = reranked(docs, scores, k, Some(beta));
    let improves = |i: int|
        Set::new(|j: int| 0 <= j < i && scores[j].at_least(scores[i])).len() < k;
    lemma_scan_kept(items, k, beta as nat, scores.len());
    let from = lemma_kept_places(items, k, beta as nat, scores.len());
    assert forall|i: int| 0 <= i < r.len() implies 0 <= #[trigger] from[i] < scores.len() && r[i] == (
        scores[from[i]],
        docs[from[i]],
    ) by {
        assert(items[from[i]] == (scores[from[i]], docs[from[i]]));
    }
    assert forall|i: int, x: int|
        0 <= i < r.len() && 0 <= x < scores.len() && !from.contains(x) && (
        #[trigger] scores[x]).at_least(scores[#[trigger] from[i]]) implies if improves(x) {
        docs[from[i]] <= docs[x]
    } else {
        from[i] < x
    } by {
        assert(items[x] == (scores[x], docs[x]) && items[from[i]] == (scores[from[i]], docs[from[i]]));
        if i < r.len() - 1 {
            assert(ranks_at_or_above(r[i], r[r.len() - 1]));
        }
        assert(r.last().0.rank() >= items[x].0.rank());
        assert(items[x].0.rank() == items[from[i]].0.rank());
        let ahead = Set::new(|j: int| 0 <= j < x && scores[j].at_least(scores[x]));
        assert(ahead =~= positions_from(items.take(x), items[x].0.rank()));
        if x < k {
            let all = vstd::set_lib::set_int_range(0, x);
            vstd::set_lib::lemma_int_range(0, x);
            assert(ahead.subset_of(all));
            vstd::set_lib::lemma_len_subset(ahead, all);
        }
        assert(improves(x) == enters(items, k, x));
    }
    assert(from.no_duplicates());
}

/// A rerank in progress is finished exactly if its candidates, with the scores so far, are.
pub proof fn rerank_in_progress_ends(r: &Reranker)
    ensures
        r.scores().len() == r.docs().len() ==> r.finished(),
        r.finished() <==> is_finished(r.docs(), r.scores(), r.k(), r.beta()),
{
}

/// What is scored was asked for: no score is not a number, there are no more scores than
/// candidates, and before the last score the rerank was not at its end.
pub proof fn scores_were_asked_for(
    docs: Seq<u32>,
    scores: Seq<Score>,
    k: nat,
    beta: Option<usize>,
    n: int,
)
    requires
        is_reachable(docs, scores, k, beta),
        0 <= n < scores.len(),
    ensures
        scores.len() <= docs.len(),
        !scores[n].nan(),
        n + 1 == scores.len() ==> !is_finished(docs, scores.take(n), k, beta),
{
    if n + 1 == scores.len() {
        let front = scores.take(n);
        if exits_early(docs.len(), k, beta) {
            lemma_scan_of_front(
                scored(docs, scores),
                scored(docs, front),
                k,
                beta->0 as nat,
                n as nat,
            );
        }
    }
}

proof fn lemma_scan_of_front(a: Seq<Scored>, b: Seq<Scored>, k: nat, patience: nat, n: nat)
    requires
        n <= a.len(),
        n <= b.len(),
        forall|i: int| 0 <= i < n ==> #[trigger] a[i] == #[trigger] b[i],
    ensures
        scan(a, k, patience, n) == scan(b, k, patience, n),
    decreases n,
{
    if n > 0 {
        lemma_scan_of_front(a, b, k, patience, (n - 1) as nat);
        assert(a[n - 1] == b[n - 1]);
    }
}

} // verus!
