use vstd::prelude::*;
use std::collections::BTreeSet;
use crate::interpreter::{
    lemma_lock_response_law, lemma_range_ids_law, DebugState, Interpreter, InterpreterModel, Range,
};
use crate::predictor::{
    inertion_bounded, lemma_finished_within, prepare_fits, rule_bounded, term_within, Config,
    MakeAction, PredictorModel, ACTION_FACTOR, COUNT_BOUND,
};

verus! {

/// Number of interpreters a simulator drives.
pub const SHARD_COUNT: usize = 5;

/// How many terms past the last query's term a simulation goes on.
pub const TERM_DELTA_MAX: u64 = 10;

/// What locking `n` identifiers gives when `next` is the first free one (or
/// `None` once the sequence is used up): the first free identifier afterwards
/// and the granted range. The range ends where `next + n` saturates.
pub open spec fn lock_spec(next: Option<u64>, n: u64) -> (Option<u64>, Option<Range>) {
    if n == 0 {
        (next, None)
    } else {
        match next {
            None => (None, None),
            Some(start) => {
                let end: u64 = if start + n > u64::MAX {
                    u64::MAX
                } else {
                    (start + n) as u64
                };
                (
                    if end != u64::MAX {
                        Some(end)
                    } else {
                        None
                    },
                    Some(Range::with_bounds(start, end)),
                )
            },
        }
    }
}

/// Locks `requests` one after the other, starting with `next` free.
pub open spec fn lock_all(next: Option<u64>, requests: Seq<u64>) -> (Option<u64>, Seq<Option<Range>>)
    decreases requests.len(),
{
    if requests.len() == 0 {
        (next, Seq::empty())
    } else {
        let (n1, rs) = lock_all(next, requests.drop_last());
        let (n2, r) = lock_spec(n1, requests.last());
        (n2, rs.push(r))
    }
}

proof fn lemma_lock_all_len(next: Option<u64>, requests: Seq<u64>)
    ensures
        lock_all(next, requests).1.len() == requests.len(),
    decreases requests.len(),
{
    if requests.len() > 0 {
        lemma_lock_all_len(next, requests.drop_last());
    }
}

/// The shared sequence of identifiers, handing out ranges from the first free one.
struct Sequence {
    id_free_first: Option<u64>,
}

impl Sequence {
    fn new() -> (r: Self)
        ensures
            r.id_free_first == Some(0u64),
    {
        Self { id_free_first: Some(0) }
    }

    fn lock(&mut self, n: u64) -> (r: Option<Range>)
        ensures
            (final(self).id_free_first, r) == lock_spec(old(self).id_free_first, n),
    {
        if n == 0 {
            return None;
        }
        let start = self.id_free_first?;
        let end = start.saturating_add(n);
        self.id_free_first = if end != u64::MAX { Some(end) } else { None };
        Some(Range::from_range(start, end))
    }
}

/// A query of the simulation: the term it arrives in, and the term and
/// identifier it was served with (0 while it was not served).
#[derive(Clone, Copy, Debug, PartialEq, Eq)]
pub struct Query {
    pub index: u64,
    pub term_start: u64,
    pub term_result: u64,
    pub id_result: u64,
}

/// The largest `term_start` of the queries.
pub open spec fn max_term_start(q: Seq<Query>) -> u64
    decreases q.len(),
{
    if q.len() == 0 {
        0
    } else if q.len() == 1 {
        q[0].term_start
    } else {
        let m = max_term_start(q.drop_last());
        if q.last().term_start > m {
            q.last().term_start
        } else {
            m
        }
    }
}

/// The shard that serves a query.
pub open spec fn shard_of(q: Query) -> int {
    ((q.index as usize) as int) % (SHARD_COUNT as int)
}

/// The abstract state of a simulator.
pub struct SimulatorModel<M> {
    pub next_free: Option<u64>,
    pub queries: Seq<Query>,
    pub term_max: u64,
    pub drops: Set<u64>,
    pub terms: Seq<Seq<DebugState>>,
    pub shards: Seq<InterpreterModel<M>>,
}

impl<M: MakeAction> SimulatorModel<M> {
    pub open spec fn initial(config: Config<M>) -> Self {
        SimulatorModel {
            next_free: Some(0),
            queries: Seq::empty(),
            term_max: 0,
            drops: Set::empty(),
            terms: Seq::empty(),
            shards: Seq::new(SHARD_COUNT as nat, |j: int| InterpreterModel::initial(config)),
        }
    }

    pub open spec fn wf(self) -> bool {
        &&& self.shards.len() == SHARD_COUNT
        &&& forall|j: int| 0 <= j < self.shards.len() ==> (#[trigger] self.shards[j]).wf()
    }

    /// The term the simulation is in: that of the first shard.
    pub open spec fn current_term(self) -> u64 {
        self.shards[0].term
    }

    /// Some query was not served yet, as far as `term_result` tells.
    pub open spec fn has_pending(self) -> bool {
        exists|i: int| 0 <= i < self.queries.len() && (#[trigger] self.queries[i]).term_result == 0
    }

    pub open spec fn continues(self) -> bool {
        &&& self.has_pending()
        &&& self.current_term() <= self.term_max + TERM_DELTA_MAX
    }

    /// Serving the queries from index `i` on in term `cur`: served queries are
    /// skipped, the pass stops at the first query of a later term, and every
    /// other query asks its shard for an identifier.
    pub open spec fn serve_from(self, cur: u64, i: nat) -> Self
        decreases self.queries.len() - i,
    {
        if i >= self.queries.len() {
            self
        } else {
            let q = self.queries[i as int];
            if q.term_result != 0 {
                self.serve_from(cur, i + 1)
            } else if q.term_start > cur {
                self
            } else {
                let k = shard_of(q);
                let sh = self.shards[k];
                let r = sh.query_result(q.term_start);
                let next = SimulatorModel {
                    shards: self.shards.update(k, sh.after_query(q.term_start)),
                    queries: match r {
                        Some(id) => self.queries.update(
                            i as int,
                            Query { id_result: id, term_result: cur, ..q },
                        ),
                        None => self.queries,
                    },
                    ..self
                };
                next.serve_from(cur, i + 1)
            }
        }
    }

    /// `serve_from` runs without overflow.
    pub open spec fn serve_fits_from(self, cur: u64, i: nat) -> bool
        decreases self.queries.len() - i,
    {
        if i >= self.queries.len() {
            true
        } else {
            let q = self.queries[i as int];
            if q.term_result != 0 {
                self.serve_fits_from(cur, i + 1)
            } else if q.term_start > cur {
                true
            } else {
                let k = shard_of(q);
                let sh = self.shards[k];
                let r = sh.query_result(q.term_start);
                let next = SimulatorModel {
                    shards: self.shards.update(k, sh.after_query(q.term_start)),
                    queries: match r {
                        Some(id) => self.queries.update(
                            i as int,
                            Query { id_result: id, term_result: cur, ..q },
                        ),
                        None => self.queries,
                    },
                    ..self
                };
                sh.query_fits(q.term_start) && next.serve_fits_from(cur, i + 1)
            }
        }
    }

    pub open spec fn finished_shards(self) -> Seq<InterpreterModel<M>> {
        self.shards.map_values(|sh: InterpreterModel<M>| sh.after_finish())
    }

    pub open spec fn lock_requests(self) -> Seq<u64> {
        self.finished_shards().map_values(|sh: InterpreterModel<M>| sh.lock_request())
    }

    pub open spec fn dump(self) -> Seq<DebugState> {
        self.finished_shards().map_values(|sh: InterpreterModel<M>| sh.debug_state())
    }

    pub open spec fn responses(self) -> Seq<Option<Range>> {
        lock_all(self.next_free, self.lock_requests()).1
    }

    pub open spec fn responded_shards(self) -> Seq<InterpreterModel<M>> {
        Seq::new(
            self.shards.len(),
            |j: int|
                match self.responses()[j] {
                    Some(r) => self.finished_shards()[j].after_lock_response(r),
                    None => self.finished_shards()[j],
                },
        )
    }

    /// The end of a term: every shard finishes it, the lock requests are
    /// recorded with the diagnostics, granted from the sequence in shard order
    /// and handed to the shards, and every shard moves to the next term.
    pub open spec fn after_advance(self) -> Self {
        SimulatorModel {
            next_free: lock_all(self.next_free, self.lock_requests()).0,
            terms: self.terms.push(self.dump()),
            shards: self.responded_shards().map_values(
                |sh: InterpreterModel<M>| sh.after_advance(),
            ),
            ..self
        }
    }

    /// `after_advance` runs without overflow.
    pub open spec fn advance_fits(self) -> bool {
        &&& forall|j: int| 0 <= j < self.shards.len() ==> (#[trigger] self.shards[j]).finish_fits()
        &&& forall|j: int|
            0 <= j < self.shards.len() ==> {
                let f = #[trigger] self.finished_shards()[j];
                &&& prepare_fits(f.config, f.predictor)
                &&& f.debug_fits()
            }
        &&& forall|j: int|
            0 <= j < self.shards.len() ==> match #[trigger] self.responses()[j] {
                Some(r) => self.finished_shards()[j].lock_response_fits(r),
                None => true,
            }
        &&& forall|j: int|
            0 <= j < self.shards.len() ==> (#[trigger] self.responded_shards()[j]).advance_fits()
    }

    /// One round of the simulation: serve the queries, then end the term.
    pub open spec fn step(self) -> Self {
        self.serve_from(self.current_term(), 0).after_advance()
    }

    pub open spec fn step_fits(self) -> bool {
        &&& self.serve_fits_from(self.current_term(), 0)
        &&& self.serve_from(self.current_term(), 0).advance_fits()
    }

    /// At most `n` rounds, while the simulation continues.
    pub open spec fn run_steps(self, n: nat) -> Self
        decreases n,
    {
        if n == 0 || !self.continues() {
            self
        } else {
            self.step().run_steps((n - 1) as nat)
        }
    }

    pub open spec fn run_fits_steps(self, n: nat) -> bool
        decreases n,
    {
        if n == 0 || !self.continues() {
            true
        } else {
            self.step_fits() && self.step().run_fits_steps((n - 1) as nat)
        }
    }

    /// Rounds left before the term passes `term_max + TERM_DELTA_MAX`.
    pub open spec fn run_bound(self) -> nat {
        if self.current_term() <= self.term_max + TERM_DELTA_MAX {
            (self.term_max + TERM_DELTA_MAX + 1 - self.current_term()) as nat
        } else {
            0
        }
    }

    /// The state when the simulation is over.
    pub open spec fn after_run(self) -> Self {
        self.run_steps(self.run_bound())
    }

    /// The whole simulation runs without overflow.
    pub open spec fn run_fits(self) -> bool {
        &&& self.has_pending() ==> self.term_max + TERM_DELTA_MAX <= u64::MAX
        &&& self.run_fits_steps(self.run_bound())
    }
}



/// `rand::random_range` over `lo..hi`: a number drawn at random from the
/// range with the thread-local generator. The crate panics on an empty range,
/// which `requires` rules out; of the draw only its range is stated.
#[verifier::external_body]
fn random_in_range(lo: usize, hi: usize) -> (r: usize)
    requires
        lo < hi,
    ensures
        lo <= r < hi,
{
    rand::random_range(lo..hi)
}

/// The queries of the terms with `c[t]` queries in term `t`, term by term,
/// before their indices are filled in.
pub open spec fn queries_of_counts(c: Seq<usize>) -> Seq<Query>
    decreases c.len(),
{
    if c.len() == 0 {
        Seq::empty()
    } else {
        queries_of_counts(c.drop_last()) + Seq::new(
            c.last() as nat,
            |k: int|
                Query { index: 0, term_start: (c.len() - 1) as u64, term_result: 0, id_result: 0 },
        )
    }
}

/// `q` with every query's index set to its position.
pub open spec fn with_indices(q: Seq<Query>) -> Seq<Query> {
    Seq::new(q.len(), |i: int| Query { index: i as u64, ..q[i] })
}

/// The queries of a list of per-term counts, with indices.
pub open spec fn workload(c: Seq<usize>) -> Seq<Query> {
    with_indices(queries_of_counts(c))
}

/// Number of spikes of 50 queries a list of counts holds.
pub open spec fn spike_total(c: Seq<usize>) -> int
    decreases c.len(),
{
    if c.len() == 0 {
        0
    } else {
        spike_total(c.drop_last()) + (c.last() / 50) as int
    }
}

/// The counts `generate_spikes` can draw: per term 4 to 9 queries plus some
/// spikes of 50, with `term_count / 10` spikes in all.
pub open spec fn spike_counts(c: Seq<usize>, term_count: nat) -> bool {
    &&& c.len() == term_count
    &&& forall|t: int| 0 <= t < c.len() ==> 4 <= #[trigger] c[t] % 50 < 10
    &&& spike_total(c) == term_count / 10
}

/// Spike counts in which only every fourth term keeps its queries.
pub open spec fn sparse_of(c: Seq<usize>) -> Seq<usize> {
    Seq::new(c.len(), |t: int| if t % 4 == 0 { c[t] } else { 0 })
}

/// The counts `generate_gambling` can draw: 4 to 9 queries per term, except
/// 2000 in term 3.
pub open spec fn gambling_counts(c: Seq<usize>, term_count: nat) -> bool {
    &&& c.len() == if term_count > 10 { term_count } else { 10 }
    &&& c[3] == 2000
    &&& forall|t: int| 0 <= t < c.len() && t != 3 ==> 4 <= #[trigger] c[t] < 10
}

proof fn lemma_spike_total_update(c: Seq<usize>, i: int, v: usize)
    requires
        0 <= i < c.len(),
    ensures
        spike_total(c.update(i, v)) == spike_total(c) - (c[i] / 50) as int + (v / 50) as int,
    decreases c.len(),
{
    if i == c.len() - 1 {
        assert(c.update(i, v).drop_last() =~= c.drop_last());
    } else {
        lemma_spike_total_update(c.drop_last(), i, v);
        assert(c.update(i, v).drop_last() =~= c.drop_last().update(i, v));
    }
}

/// Sets every query's index to its position.
fn fill_indices(q: &mut Vec<Query>)
    ensures
        final(q)@ == with_indices(old(q)@),
{
    let n = q.len();
    let mut i: usize = 0;
    while i < n
        invariant
            n == q@.len(),
            n == old(q)@.len(),
            0 <= i <= n,
            forall|k: int| 0 <= k < i ==> (#[trigger] q@[k]) == (Query { index: k as u64, ..old(q)@[k] }),
            forall|k: int| i <= k < n ==> (#[trigger] q@[k]) == old(q)@[k],
        decreases n - i,
    {
        let cur = q[i];
        q[i] = Query { index: i as u64, ..cur };
        i = i + 1;
    }
    assert(q@ =~= with_indices(old(q)@));
}

/// The queries of the per-term counts, with indices.
pub fn queries_from_counts(v: &Vec<usize>) -> (q: Vec<Query>)
    ensures
        q@ == workload(v@),
{
    let mut queries: Vec<Query> = Vec::new();
    let mut term: usize = 0;
    while term < v.len()
        invariant
            0 <= term <= v@.len(),
            queries@ == queries_of_counts(v@.take(term as int)),
        decreases v@.len() - term,
    {
        let count = v[term];
        let ghost before = queries@;
        let mut k: usize = 0;
        while k < count
            invariant
                0 <= k <= count,
                queries@ == before + Seq::new(
                    k as nat,
                    |j: int| Query { index: 0, term_start: term as u64, term_result: 0, id_result: 0 },
                ),
            decreases count - k,
        {
            queries.push(Query { index: 0, term_start: term as u64, term_result: 0, id_result: 0 });
            k = k + 1;
            assert(queries@ =~= before + Seq::new(
                k as nat,
                |j: int| Query { index: 0, term_start: term as u64, term_result: 0, id_result: 0 },
            ));
        }
        assert(v@.take(term + 1).drop_last() =~= v@.take(term as int));
        assert(queries@ =~= queries_of_counts(v@.take(term + 1)));
        term = term + 1;
    }
    assert(v@.take(v@.len() as int) =~= v@);
    fill_indices(&mut queries);
    queries
}

/// A `Vec` of `term_count` counts fits in memory, and so does every count.
pub open spec fn term_count_fits(term_count: usize) -> bool {
    term_count <= usize::MAX / 8
}

/// Per-term counts: 4 to 9 queries drawn for each of `term_count` terms, then
/// `term_count / 10` spikes of 50 queries added to terms drawn at random.
fn draw_spike_counts(term_count: usize) -> (v: Vec<usize>)
    requires
        term_count_fits(term_count),
    ensures
        spike_counts(v@, term_count as nat),
{
    let mut v: Vec<usize> = Vec::new();
    let mut t: usize = 0;
    while t < term_count
        invariant
            0 <= t <= term_count,
            v@.len() == t,
            forall|k: int| 0 <= k < t ==> 4 <= #[trigger] v@[k] < 10,
            spike_total(v@) == 0,
        decreases term_count - t,
    {
        let x = random_in_range(4, 10);
        assert(v@.push(x).drop_last() =~= v@);
        v.push(x);
        t = t + 1;
    }
    let spikes = term_count / 10;
    let mut s: usize = 0;
    while s < spikes
        invariant
            0 <= s <= spikes,
            spikes == term_count / 10,
            term_count_fits(term_count),
            v@.len() == term_count,
            forall|k: int| 0 <= k < v@.len() ==> 4 <= #[trigger] v@[k] % 50 < 10,
            forall|k: int| 0 <= k < v@.len() ==> #[trigger] v@[k] < 10 + 50 * s,
            spike_total(v@) == s,
        decreases spikes - s,
    {
        let index = random_in_range(0, v.len());
        proof {
            lemma_spike_total_update(v@, index as int, (v@[index as int] + 50) as usize);
        }
        let cur = v[index];
        assert(50 * s <= 50 * (usize::MAX / 80)) by (nonlinear_arith)
            requires
                s < spikes,
                spikes == term_count / 10,
                term_count <= usize::MAX / 8,
        ;
        v.set(index, cur + 50);
        s = s + 1;
    }
    v
}

/// Queries with 4 to 9 per term over `term_count` terms, and `term_count / 10`
/// spikes of 50 more queries in terms drawn at random.
pub fn generate_spikes(term_count: usize) -> (q: Vec<Query>)
    requires
        term_count_fits(term_count),
    ensures
        exists|c: Seq<usize>| #[trigger] spike_counts(c, term_count as nat) && q@ == workload(c),
{
    let v = draw_spike_counts(term_count);
    let q = queries_from_counts(&v);
    assert(spike_counts(v@, term_count as nat));
    q
}

/// Like `generate_spikes`, with the queries of every term whose number is not
/// a multiple of 4 dropped.
pub fn generate_sparse(term_count: usize) -> (q: Vec<Query>)
    requires
        term_count_fits(term_count),
    ensures
        exists|c: Seq<usize>| #[trigger] spike_counts(c, term_count as nat) && q@ == workload(sparse_of(c)),
{
    let mut v = draw_spike_counts(term_count);
    let ghost drawn = v@;
    let mut t: usize = 0;
    while t < v.len()
        invariant
            0 <= t <= v@.len(),
            v@.len() == drawn.len(),
            forall|k: int| 0 <= k < t ==> (#[trigger] v@[k]) == sparse_of(drawn)[k],
            forall|k: int| t <= k < v@.len() ==> (#[trigger] v@[k]) == drawn[k],
        decreases v@.len() - t,
    {
        if t % 4 != 0 {
            v.set(t, 0);
        }
        t = t + 1;
    }
    assert(v@ =~= sparse_of(drawn));
    let q = queries_from_counts(&v);
    assert(spike_counts(drawn, term_count as nat));
    q
}

/// Queries with 4 to 9 per term over at least 10 terms, and 2000 in term 3.
pub fn generate_gambling(term_count: usize) -> (q: Vec<Query>)
    ensures
        exists|c: Seq<usize>| #[trigger] gambling_counts(c, term_count as nat) && q@ == workload(c),
{
    let terms = if term_count > 10 { term_count } else { 10 };
    let mut v: Vec<usize> = Vec::new();
    let mut t: usize = 0;
    while t < terms
        invariant
            0 <= t <= terms,
            v@.len() == t,
            forall|k: int| 0 <= k < t ==> 4 <= #[trigger] v@[k] < 10,
        decreases terms - t,
    {
        let x = random_in_range(4, 10);
        v.push(x);
        t = t + 1;
    }
    v.set(3, 2000);
    let q = queries_from_counts(&v);
    assert(gambling_counts(v@, term_count as nat));
    q
}

/// Up to `drop_request_count` terms below `term_count`, drawn at random.
pub fn generate_drops(term_count: usize, drop_request_count: usize) -> (d: BTreeSet<u64>)
    requires
        term_count > 0 || drop_request_count == 0,
    ensures
        d@.finite(),
        d@.len() <= drop_request_count,
        drop_request_count > 0 ==> d@.len() > 0,
        forall|x: u64| #[trigger] d@.contains(x) ==> x < term_count,
{
    let mut drop_request: BTreeSet<u64> = BTreeSet::new();
    let mut i: usize = 0;
    while i < drop_request_count
        invariant
            0 <= i <= drop_request_count,
            term_count > 0 || drop_request_count == 0,
            drop_request@.finite(),
            drop_request@.len() <= i,
            i > 0 ==> drop_request@.len() > 0,
            forall|x: u64| #[trigger] drop_request@.contains(x) ==> x < term_count,
        decreases drop_request_count - i,
    {
        let v = random_in_range(0, term_count);
        drop_request.insert(v as u64);
        assert(drop_request@.contains(v as u64));
        i = i + 1;
    }
    drop_request
}

/// Serving queries keeps the horizon, the number of shards and the shards'
/// terms and configurations.
proof fn lemma_serve_frame<M: MakeAction>(s: SimulatorModel<M>, cur: u64, i: nat)
    requires
        s.shards.len() == SHARD_COUNT,
    ensures
        s.serve_from(cur, i).term_max == s.term_max,
        s.serve_from(cur, i).queries.len() == s.queries.len(),
        s.serve_from(cur, i).shards.len() == s.shards.len(),
        s.serve_from(cur, i).terms == s.terms,
        s.serve_from(cur, i).next_free == s.next_free,
        forall|j: int|
            0 <= j < s.shards.len() ==> (#[trigger] s.serve_from(cur, i).shards[j]).term
                == s.shards[j].term,
    decreases s.queries.len() - i,
{
    if i < s.queries.len() {
        let q = s.queries[i as int];
        if q.term_result != 0 {
            lemma_serve_frame(s, cur, i + 1);
        } else if q.term_start > cur {
        } else {
            let k = shard_of(q);
            let sh = s.shards[k];
            let r = sh.query_result(q.term_start);
            let next = SimulatorModel {
                shards: s.shards.update(k, sh.after_query(q.term_start)),
                queries: match r {
                    Some(id) => s.queries.update(i as int, Query { id_result: id, term_result: cur, ..q }),
                    None => s.queries,
                },
                ..s
            };
            lemma_serve_frame(next, cur, i + 1);
        }
    }
}

/// Ending a term moves every shard to the next term.
proof fn lemma_advance_terms<M: MakeAction>(s: SimulatorModel<M>)
    requires
        s.shards.len() == SHARD_COUNT,
        s.advance_fits(),
    ensures
        s.after_advance().term_max == s.term_max,
        s.after_advance().queries == s.queries,
        s.after_advance().shards.len() == s.shards.len(),
        forall|j: int|
            0 <= j < s.shards.len() ==> (#[trigger] s.after_advance().shards[j]).term
                == s.shards[j].term + 1,
{
    assert forall|j: int| 0 <= j < s.shards.len() implies (#[trigger] s.after_advance().shards[j]).term
        == s.shards[j].term + 1 by {
        assert(s.responded_shards()[j].advance_fits());
    }
}

/// One round moves the simulation to the next term.
proof fn lemma_step_term<M: MakeAction>(s: SimulatorModel<M>)
    requires
        s.shards.len() == SHARD_COUNT,
        s.step_fits(),
    ensures
        s.step().current_term() == s.current_term() + 1,
        s.step().term_max == s.term_max,
        s.step().shards.len() == SHARD_COUNT,
{
    let served = s.serve_from(s.current_term(), 0);
    lemma_serve_frame(s, s.current_term(), 0);
    lemma_advance_terms(served);
}


/// A query that was served in a term after the first: `term_result` is set.
pub open spec fn is_served(q: Query) -> bool {
    q.term_result != 0
}

/// No identifier is held twice: the served queries have distinct identifiers,
/// the pools hold distinct identifiers, none of them held by a served query,
/// and all of them below the first free identifier of the sequence.
pub open spec fn ids_distinct<M>(s: SimulatorModel<M>) -> bool {
    &&& forall|i: int, j: int|
        0 <= i < j < s.queries.len() && is_served(#[trigger] s.queries[i]) && is_served(
            #[trigger] s.queries[j],
        ) ==> s.queries[i].id_result != s.queries[j].id_result
    &&& forall|k: int, a: int, b: int|
        0 <= k < s.shards.len() && 0 <= a < b < s.shards[k].pool.len() ==> #[trigger] s.shards[k].pool[a]
            != #[trigger] s.shards[k].pool[b]
    &&& forall|k1: int, k2: int, a: int, b: int|
        0 <= k1 < s.shards.len() && 0 <= k2 < s.shards.len() && k1 != k2 && 0 <= a < s.shards[k1].pool.len()
            && 0 <= b < s.shards[k2].pool.len() ==> #[trigger] s.shards[k1].pool[a]
            != #[trigger] s.shards[k2].pool[b]
    &&& forall|i: int, k: int, a: int|
        0 <= i < s.queries.len() && is_served(#[trigger] s.queries[i]) && 0 <= k < s.shards.len() && 0 <= a
            < s.shards[k].pool.len() ==> s.queries[i].id_result != #[trigger] s.shards[k].pool[a]
    &&& forall|n: u64|
        s.next_free == Some(n) ==> {
            &&& forall|k: int, a: int|
                0 <= k < s.shards.len() && 0 <= a < s.shards[k].pool.len() ==> #[trigger] s.shards[k].pool[a]
                    < n
            &&& forall|i: int|
                0 <= i < s.queries.len() && is_served(#[trigger] s.queries[i]) ==> s.queries[i].id_result < n
        }
}

proof fn lemma_serve_keeps_ids_distinct<M: MakeAction>(s: SimulatorModel<M>, cur: u64, i: nat)
    requires
        s.shards.len() == SHARD_COUNT,
        ids_distinct(s),
    ensures
        ids_distinct(s.serve_from(cur, i)),
    decreases s.queries.len() - i,
{
    if i < s.queries.len() {
        let q = s.queries[i as int];
        if q.term_result != 0 {
            lemma_serve_keeps_ids_distinct(s, cur, i + 1);
        } else if q.term_start > cur {
        } else {
            let k = shard_of(q);
            let sh = s.shards[k];
            let r = sh.query_result(q.term_start);
            let next = SimulatorModel {
                shards: s.shards.update(k, sh.after_query(q.term_start)),
                queries: match r {
                    Some(id) => s.queries.update(i as int, Query { id_result: id, term_result: cur, ..q }),
                    None => s.queries,
                },
                ..s
            };
            assert(0 <= k < SHARD_COUNT);
            assert forall|k2: int, a: int|
                0 <= k2 < next.shards.len() && 0 <= a < next.shards[k2].pool.len() implies
                #[trigger] next.shards[k2].pool[a] == if k2 == k && sh.pool.len() > 0 {
                    s.shards[k2].pool[a + 1]
                } else {
                    s.shards[k2].pool[a]
                } by {
            }
            match r {
                Some(id) => {
                    assert(id == s.shards[k].pool[0]);
                    assert forall|j: int|
                        0 <= j < next.queries.len() && is_served(#[trigger] next.queries[j]) && j != i
                            implies next.queries[j] == s.queries[j] by {
                    }
                },
                None => {},
            }
            assert(ids_distinct(next)) by {
                assert forall|i1: int, j1: int|
                    0 <= i1 < j1 < next.queries.len() && is_served(#[trigger] next.queries[i1])
                        && is_served(#[trigger] next.queries[j1]) implies next.queries[i1].id_result
                    != next.queries[j1].id_result by {
                    if r is Some {
                        if i1 == i {
                            assert(s.shards[k].pool[0] == sh.pool[0]);
                        } else if j1 == i {
                            assert(s.shards[k].pool[0] == sh.pool[0]);
                        }
                    }
                }
                assert forall|k1: int, a: int, b: int|
                    0 <= k1 < next.shards.len() && 0 <= a < b < next.shards[k1].pool.len() implies
                    #[trigger] next.shards[k1].pool[a] != #[trigger] next.shards[k1].pool[b] by {
                    if k1 == k && sh.pool.len() > 0 {
                        assert(s.shards[k1].pool[a + 1] != s.shards[k1].pool[b + 1]);
                    }
                }
                assert forall|k1: int, k2: int, a: int, b: int|
                    0 <= k1 < next.shards.len() && 0 <= k2 < next.shards.len() && k1 != k2 && 0 <= a
                        < next.shards[k1].pool.len() && 0 <= b < next.shards[k2].pool.len() implies
                    #[trigger] next.shards[k1].pool[a] != #[trigger] next.shards[k2].pool[b] by {
                    if k1 == k && sh.pool.len() > 0 {
                        assert(s.shards[k1].pool[a + 1] != s.shards[k2].pool[b]);
                    } else if k2 == k && sh.pool.len() > 0 {
                        assert(s.shards[k1].pool[a] != s.shards[k2].pool[b + 1]);
                    }
                }
                assert forall|i1: int, k1: int, a: int|
                    0 <= i1 < next.queries.len() && is_served(#[trigger] next.queries[i1]) && 0 <= k1
                        < next.shards.len() && 0 <= a < next.shards[k1].pool.len() implies
                    next.queries[i1].id_result != #[trigger] next.shards[k1].pool[a] by {
                    if r is Some && i1 == i {
                        if k1 == k {
                            assert(s.shards[k].pool[0] != s.shards[k].pool[a + 1]);
                        } else {
                            assert(s.shards[k].pool[0] != s.shards[k1].pool[a]);
                        }
                    } else if k1 == k && sh.pool.len() > 0 {
                        assert(next.shards[k1].pool[a] == s.shards[k1].pool[a + 1]);
                    }
                }
                assert forall|n: u64| next.next_free == Some(n) implies {
                    &&& forall|k1: int, a: int|
                        0 <= k1 < next.shards.len() && 0 <= a < next.shards[k1].pool.len()
                            ==> #[trigger] next.shards[k1].pool[a] < n
                    &&& forall|i1: int|
                        0 <= i1 < next.queries.len() && is_served(#[trigger] next.queries[i1])
                            ==> next.queries[i1].id_result < n
                } by {
                    assert forall|k1: int, a: int|
                        0 <= k1 < next.shards.len() && 0 <= a < next.shards[k1].pool.len() implies
                        #[trigger] next.shards[k1].pool[a] < n by {
                        if k1 == k && sh.pool.len() > 0 {
                            assert(s.shards[k1].pool[a + 1] < n);
                        }
                    }
                    assert forall|i1: int|
                        0 <= i1 < next.queries.len() && is_served(#[trigger] next.queries[i1]) implies
                        next.queries[i1].id_result < n by {
                        if r is Some && i1 == i {
                            assert(s.shards[k].pool[0] < n);
                        }
                    }
                }
            }
            lemma_serve_keeps_ids_distinct(next, cur, i + 1);
        }
    }
}


/// The sequence never grants an identifier twice: the ranges that `lock_all`
/// grants lie at or above the first free identifier, below the next one
/// afterwards, and one after the other.
pub proof fn lemma_lock_all_ranges(next: Option<u64>, requests: Seq<u64>)
    ensures
        lock_all(next, requests).1.len() == requests.len(),
        next is None ==> lock_all(next, requests).0 is None,
        forall|i: int|
            0 <= i < requests.len() && (#[trigger] lock_all(next, requests).1[i]) is Some ==> {
                let r = lock_all(next, requests).1[i]->0;
                &&& next is Some
                &&& next->0 <= r.begin() <= r.end()
                &&& lock_all(next, requests).0 matches Some(m) ==> r.end() <= m
            },
        forall|i: int, j: int|
            0 <= i < j < requests.len() && (#[trigger] lock_all(next, requests).1[i]) is Some && (
            #[trigger] lock_all(next, requests).1[j]) is Some ==> lock_all(next, requests).1[i]->0.end()
                <= lock_all(next, requests).1[j]->0.begin(),
        next matches Some(n) ==> (lock_all(next, requests).0 matches Some(m) ==> n <= m),
    decreases requests.len(),
{
    if requests.len() > 0 {
        let (n1, rs) = lock_all(next, requests.drop_last());
        lemma_lock_all_ranges(next, requests.drop_last());
        let req = requests.last();
        if req != 0 {
            if let Some(start) = n1 {
                let end: u64 = if start + req > u64::MAX { u64::MAX } else { (start + req) as u64 };
                Range::lemma_with_bounds(start, end);
            }
        }
        let (n2, r) = lock_spec(n1, req);
        assert(lock_all(next, requests).1 == rs.push(r));
    }
}

/// Every identifier of a range lies within its bounds.
proof fn lemma_range_ids_within(r: Range)
    ensures
        forall|a: int| 0 <= a < r.ids().len() ==> r.begin() <= #[trigger] r.ids()[a] < r.end(),
        forall|a: int, b: int| 0 <= a < b < r.ids().len() ==> #[trigger] r.ids()[a] < #[trigger] r.ids()[b],
{
}

proof fn lemma_advance_keeps_ids_distinct<M: MakeAction>(s: SimulatorModel<M>)
    requires
        s.shards.len() == SHARD_COUNT,
        ids_distinct(s),
    ensures
        ids_distinct(s.after_advance()),
{
    let t = s.after_advance();
    let fin = s.finished_shards();
    let rs = s.responses();
    let resp = s.responded_shards();
    lemma_lock_all_ranges(s.next_free, s.lock_requests());
    assert(s.lock_requests().len() == SHARD_COUNT);
    // a pool after the term: the old ids, then those of the granted range, or nothing
    assert forall|k: int, a: int| 0 <= k < SHARD_COUNT && 0 <= a < t.shards[k].pool.len() implies {
        let p = #[trigger] t.shards[k].pool[a];
        if a < s.shards[k].pool.len() {
            p == s.shards[k].pool[a]
        } else {
            &&& rs[k] is Some
            &&& rs[k]->0.begin() <= p < rs[k]->0.end()
            &&& rs[k]->0.ids()[a - s.shards[k].pool.len()] == p
        }
    } by {
        assert(t.shards[k] == resp[k].after_advance());
        assert(fin[k].pool == s.shards[k].pool);
        match rs[k] {
            Some(r) => {
                lemma_range_ids_within(r);
                assert(resp[k].pool == s.shards[k].pool + r.ids());
            },
            None => {},
        }
    }
    assert forall|k: int| 0 <= k < SHARD_COUNT implies #[trigger] t.shards[k].pool.len()
        <= resp[k].pool.len() by {
        assert(t.shards[k] == resp[k].after_advance());
    }
    assert(t.queries == s.queries);
    assert(ids_distinct(t)) by {
        assert forall|k: int, a: int, b: int|
            0 <= k < t.shards.len() && 0 <= a < b < t.shards[k].pool.len() implies #[trigger] t.shards[k].pool[a]
            != #[trigger] t.shards[k].pool[b] by {
            let old_len = s.shards[k].pool.len();
            if b < old_len {
            } else if a < old_len {
                let n = s.next_free->0;
                assert(s.shards[k].pool[a] < n);
            } else {
                let r = rs[k]->0;
                lemma_range_ids_within(r);
                assert(r.ids()[a - old_len] < r.ids()[b - old_len]);
            }
        }
        assert forall|k1: int, k2: int, a: int, b: int|
            0 <= k1 < t.shards.len() && 0 <= k2 < t.shards.len() && k1 != k2 && 0 <= a < t.shards[k1].pool.len()
                && 0 <= b < t.shards[k2].pool.len() implies #[trigger] t.shards[k1].pool[a]
            != #[trigger] t.shards[k2].pool[b] by {
            let l1 = s.shards[k1].pool.len();
            let l2 = s.shards[k2].pool.len();
            if a < l1 && b < l2 {
            } else if a < l1 {
                assert(s.shards[k1].pool[a] < s.next_free->0);
            } else if b < l2 {
                assert(s.shards[k2].pool[b] < s.next_free->0);
            } else {
                if k1 < k2 {
                    assert(rs[k1]->0.end() <= rs[k2]->0.begin());
                } else {
                    assert(rs[k2]->0.end() <= rs[k1]->0.begin());
                }
            }
        }
        assert forall|i: int, k: int, a: int|
            0 <= i < t.queries.len() && is_served(#[trigger] t.queries[i]) && 0 <= k < t.shards.len() && 0 <= a
                < t.shards[k].pool.len() implies t.queries[i].id_result != #[trigger] t.shards[k].pool[a] by {
            if a >= s.shards[k].pool.len() {
                assert(s.queries[i].id_result < s.next_free->0);
            }
        }
        assert forall|n: u64| t.next_free == Some(n) implies {
            &&& forall|k: int, a: int|
                0 <= k < t.shards.len() && 0 <= a < t.shards[k].pool.len() ==> #[trigger] t.shards[k].pool[a]
                    < n
            &&& forall|i: int|
                0 <= i < t.queries.len() && is_served(#[trigger] t.queries[i]) ==> t.queries[i].id_result < n
        } by {
            let n0 = s.next_free->0;
            assert(n0 <= n);
            assert forall|k: int, a: int|
                0 <= k < t.shards.len() && 0 <= a < t.shards[k].pool.len() implies #[trigger] t.shards[k].pool[a]
                < n by {
                if a < s.shards[k].pool.len() {
                    assert(s.shards[k].pool[a] < n0);
                }
            }
            assert forall|i: int|
                0 <= i < t.queries.len() && is_served(#[trigger] t.queries[i]) implies t.queries[i].id_result
                < n by {
                assert(s.queries[i].id_result < n0);
            }
        }
    }
}


proof fn lemma_run_steps_keep_ids_distinct<M: MakeAction>(s: SimulatorModel<M>, n: nat)
    requires
        s.shards.len() == SHARD_COUNT,
        ids_distinct(s),
    ensures
        ids_distinct(s.run_steps(n)),
    decreases n,
{
    if n > 0 && s.continues() {
        let served = s.serve_from(s.current_term(), 0);
        lemma_serve_frame(s, s.current_term(), 0);
        lemma_serve_keeps_ids_distinct(s, s.current_term(), 0);
        lemma_advance_keeps_ids_distinct(served);
        assert(s.step().shards.len() == SHARD_COUNT);
        lemma_run_steps_keep_ids_distinct(s.step(), (n - 1) as nat);
    }
}

/// No identifier is handed out twice: when no identifier is held twice before
/// a run (see `ids_distinct`), none is held twice after it, so served queries
/// carry pairwise distinct identifiers.
pub proof fn lemma_run_keeps_ids_distinct<M: MakeAction>(s: SimulatorModel<M>)
    requires
        s.wf(),
        ids_distinct(s),
    ensures
        ids_distinct(s.after_run()),
{
    lemma_run_steps_keep_ids_distinct(s, s.run_bound());
}

/// A fresh simulator given queries none of which is served yet: after the
/// run, any two served queries carry distinct identifiers.
pub proof fn lemma_served_ids_distinct<M: MakeAction>(config: Config<M>, queries: Seq<Query>, i: int, j: int)
    requires
        forall|k: int| 0 <= k < queries.len() ==> (#[trigger] queries[k]).term_result == 0,
        0 <= i < queries.len(),
        0 <= j < queries.len(),
        i != j,
    ensures
        ({
            let done = (SimulatorModel {
                queries,
                term_max: max_term_start(queries),
                ..SimulatorModel::initial(config)
            }).after_run().queries;
            is_served(done[i]) && is_served(done[j]) ==> done[i].id_result != done[j].id_result
        }),
{
    let s = SimulatorModel { queries, term_max: max_term_start(queries), ..SimulatorModel::initial(config) };
    assert(ids_distinct(s));
    assert(s.wf());
    lemma_run_keeps_ids_distinct(s);
    lemma_run_steps_frame(s, s.run_bound());
    let done = s.after_run().queries;
    if i < j {
        assert(is_served(done[i]) && is_served(done[j]) ==> done[i].id_result != done[j].id_result);
    } else {
        assert(is_served(done[j]) && is_served(done[i]) ==> done[j].id_result != done[i].id_result);
    }
}

proof fn lemma_run_steps_frame<M: MakeAction>(s: SimulatorModel<M>, n: nat)
    requires
        s.shards.len() == SHARD_COUNT,
    ensures
        s.run_steps(n).queries.len() == s.queries.len(),
        s.run_steps(n).shards.len() == SHARD_COUNT,
    decreases n,
{
    if n > 0 && s.continues() {
        let served = s.serve_from(s.current_term(), 0);
        lemma_serve_frame(s, s.current_term(), 0);
        assert(s.step().shards.len() == SHARD_COUNT);
        assert(s.step().queries == served.queries);
        lemma_run_steps_frame(s.step(), (n - 1) as nat);
    }
}


/// A served query was served in its own term or later.
pub open spec fn served_in_time<M>(s: SimulatorModel<M>) -> bool {
    forall|i: int|
        0 <= i < s.queries.len() && is_served(#[trigger] s.queries[i]) ==> s.queries[i].term_start
            <= s.queries[i].term_result
}

proof fn lemma_serve_in_time<M: MakeAction>(s: SimulatorModel<M>, cur: u64, i: nat)
    requires
        served_in_time(s),
    ensures
        served_in_time(s.serve_from(cur, i)),
    decreases s.queries.len() - i,
{
    if i < s.queries.len() {
        let q = s.queries[i as int];
        if q.term_result != 0 {
            lemma_serve_in_time(s, cur, i + 1);
        } else if q.term_start > cur {
        } else {
            let k = shard_of(q);
            let sh = s.shards[k];
            let r = sh.query_result(q.term_start);
            let next = SimulatorModel {
                shards: s.shards.update(k, sh.after_query(q.term_start)),
                queries: match r {
                    Some(id) => s.queries.update(i as int, Query { id_result: id, term_result: cur, ..q }),
                    None => s.queries,
                },
                ..s
            };
            assert(served_in_time(next));
            lemma_serve_in_time(next, cur, i + 1);
        }
    }
}

proof fn lemma_run_steps_in_time<M: MakeAction>(s: SimulatorModel<M>, n: nat)
    requires
        served_in_time(s),
    ensures
        served_in_time(s.run_steps(n)),
    decreases n,
{
    if n > 0 && s.continues() {
        lemma_serve_in_time(s, s.current_term(), 0);
        assert(s.step().queries == s.serve_from(s.current_term(), 0).queries);
        lemma_run_steps_in_time(s.step(), (n - 1) as nat);
    }
}

/// No query is served before its term: when this holds before a run, it
/// holds after it.
pub proof fn lemma_run_serves_in_time<M: MakeAction>(s: SimulatorModel<M>)
    requires
        served_in_time(s),
    ensures
        served_in_time(s.after_run()),
{
    lemma_run_steps_in_time(s, s.run_bound());
}

proof fn lemma_run_steps_end<M: MakeAction>(s: SimulatorModel<M>, n: nat)
    requires
        s.shards.len() == SHARD_COUNT,
        s.run_fits_steps(n),
        n >= s.run_bound(),
    ensures
        !s.run_steps(n).continues(),
    decreases n,
{
    if n > 0 && s.continues() {
        lemma_step_term(s);
        lemma_run_steps_end(s.step(), (n - 1) as nat);
    }
}

/// A run comes to an end: afterwards no query has `term_result` 0, or the
/// term has passed `term_max + TERM_DELTA_MAX`.
pub proof fn lemma_run_ends<M: MakeAction>(s: SimulatorModel<M>)
    requires
        s.wf(),
        s.run_fits(),
    ensures
        !s.after_run().continues(),
{
    lemma_run_steps_end(s, s.run_bound());
}


proof fn lemma_lock_all_counts(next: Option<u64>, requests: Seq<u64>)
    ensures
        forall|i: int|
            0 <= i < requests.len() && (#[trigger] lock_all(next, requests).1[i]) is Some
                ==> lock_all(next, requests).1[i]->0.spec_count() <= requests[i],
    decreases requests.len(),
{
    if requests.len() > 0 {
        let (n1, rs) = lock_all(next, requests.drop_last());
        lemma_lock_all_counts(next, requests.drop_last());
        lemma_lock_all_len(next, requests.drop_last());
        let req = requests.last();
        if req != 0 {
            if let Some(start) = n1 {
                let end: u64 = if start + req > u64::MAX { u64::MAX } else { (start + req) as u64 };
                Range::lemma_with_bounds(start, end);
            }
        }
        let (n2, r) = lock_spec(n1, req);
        assert(lock_all(next, requests).1 == rs.push(r));
        assert forall|i: int|
            0 <= i < requests.len() && (#[trigger] lock_all(next, requests).1[i]) is Some implies lock_all(
            next,
            requests,
        ).1[i]->0.spec_count() <= requests[i] by {
            if i < requests.len() - 1 {
                assert(lock_all(next, requests).1[i] == rs[i]);
                assert(requests.drop_last()[i] == requests[i]);
            }
        }
    }
}

/// A shard whose counters stay within `used` queries of this term and whose
/// pool, prediction and predictor stay within `b` queries.
pub open spec fn shard_within<M: MakeAction>(sh: InterpreterModel<M>, b: int, used: int) -> bool {
    &&& 0 <= sh.query_count <= used
    &&& 0 <= sh.reject_count <= used
    &&& 0 <= sh.prediction_count <= 2 * b
    &&& sh.pool.len() <= ACTION_FACTOR * b
    &&& sh.predictor.within(b)
    &&& inertion_bounded(sh.config.inertion)
    &&& rule_bounded(sh.config.action, b)
}

/// A simulation of at most `b` queries, its shards within `b` and `used`,
/// all in the same term, with room for the terms up to the horizon.
pub open spec fn sim_within<M: MakeAction>(s: SimulatorModel<M>, b: int, used: int) -> bool {
    &&& s.shards.len() == SHARD_COUNT
    &&& 0 <= used <= b <= COUNT_BOUND
    &&& s.queries.len() <= b
    &&& forall|k: int| 0 <= k < SHARD_COUNT ==> shard_within(#[trigger] s.shards[k], b, used)
    &&& forall|k: int| 0 <= k < SHARD_COUNT ==> (#[trigger] s.shards[k]).term == s.shards[0].term
    &&& s.term_max + TERM_DELTA_MAX < u64::MAX
}

proof fn lemma_sim_within_mono<M: MakeAction>(s: SimulatorModel<M>, b: int, used: int, more: int)
    requires
        sim_within(s, b, used),
        used <= more <= b,
    ensures
        sim_within(s, b, more),
{
    assert forall|k: int| 0 <= k < SHARD_COUNT implies shard_within(#[trigger] s.shards[k], b, more) by {
        assert(shard_within(s.shards[k], b, used));
    }
}

proof fn lemma_serve_bounded<M: MakeAction>(s: SimulatorModel<M>, cur: u64, i: nat, b: int)
    requires
        sim_within(s, b, i as int),
        i <= s.queries.len(),
    ensures
        s.serve_fits_from(cur, i),
        sim_within(s.serve_from(cur, i), b, s.queries.len() as int),
    decreases s.queries.len() - i,
{
    if i < s.queries.len() {
        let q = s.queries[i as int];
        if q.term_result != 0 {
            lemma_sim_within_mono(s, b, i as int, (i + 1) as int);
            lemma_serve_bounded(s, cur, i + 1, b);
        } else if q.term_start > cur {
            lemma_sim_within_mono(s, b, i as int, s.queries.len() as int);
        } else {
            let k = shard_of(q);
            let sh = s.shards[k];
            let r = sh.query_result(q.term_start);
            let next = SimulatorModel {
                shards: s.shards.update(k, sh.after_query(q.term_start)),
                queries: match r {
                    Some(id) => s.queries.update(i as int, Query { id_result: id, term_result: cur, ..q }),
                    None => s.queries,
                },
                ..s
            };
            assert(shard_within(sh, b, i as int));
            assert forall|k2: int| 0 <= k2 < SHARD_COUNT implies shard_within(#[trigger] next.shards[k2], b, (i + 1) as int) by {
                assert(shard_within(s.shards[k2], b, i as int));
            }
            assert forall|k2: int| 0 <= k2 < SHARD_COUNT implies (#[trigger] next.shards[k2]).term
                == next.shards[0].term by {
                assert(s.shards[k2].term == s.shards[0].term);
            }
            assert(sim_within(next, b, (i + 1) as int));
            lemma_serve_bounded(next, cur, i + 1, b);
        }
    } else {
        lemma_sim_within_mono(s, b, i as int, s.queries.len() as int);
    }
}

proof fn lemma_shard_finish_bounded<M: MakeAction>(sh: InterpreterModel<M>, b: int)
    requires
        shard_within(sh, b, b),
        0 <= b <= COUNT_BOUND,
    ensures
        sh.finish_fits(),
        sh.after_finish().predictor.within(b),
        prepare_fits(sh.after_finish().config, sh.after_finish().predictor),
        0 <= sh.after_finish().recommendation() <= ACTION_FACTOR * b,
        sh.after_finish().debug_fits(),
        0 <= sh.after_finish().predictor.prediction().query_count <= 2 * b,
{
    assert(term_within(sh.term_state(), b));
    lemma_finished_within(sh.predictor, sh.term_state(), sh.config.inertion, b);
    let f = sh.after_finish();
    let pred = f.predictor.prediction();
    assert(rule_bounded(f.config.action, b));
    assert(f.config.action.admits(f.predictor, pred));
    assert(term_within(f.term_state(), b));
    lemma_finished_within(f.predictor, f.term_state(), f.config.inertion, b);
    let g = f.after_finish();
    assert(g.config.action.admits(g.predictor, g.predictor.prediction()));
}

proof fn lemma_advance_bounded<M: MakeAction>(s: SimulatorModel<M>, b: int)
    requires
        sim_within(s, b, b),
        s.current_term() <= s.term_max + TERM_DELTA_MAX,
    ensures
        s.advance_fits(),
        sim_within(s.after_advance(), b, 0),
{
    let fin = s.finished_shards();
    let reqs = s.lock_requests();
    let rs = s.responses();
    let resp = s.responded_shards();
    let t = s.after_advance();
    lemma_lock_all_len(s.next_free, reqs);
    lemma_lock_all_counts(s.next_free, reqs);
    assert forall|k: int| 0 <= k < SHARD_COUNT implies {
        &&& (#[trigger] s.shards[k]).finish_fits()
        &&& prepare_fits(fin[k].config, fin[k].predictor)
        &&& fin[k].debug_fits()
        &&& match rs[k] {
            Some(r) => fin[k].lock_response_fits(r),
            None => true,
        }
        &&& resp[k].advance_fits()
        &&& shard_within(t.shards[k], b, 0)
        &&& t.shards[k].term == s.shards[k].term + 1
    } by {
        let sh = s.shards[k];
        assert(shard_within(sh, b, b));
        lemma_shard_finish_bounded(sh, b);
        assert(fin[k] == sh.after_finish());
        assert(reqs[k] == fin[k].lock_request());
        match rs[k] {
            Some(r) => {
                assert(r.spec_count() <= reqs[k]);
                assert(resp[k] == fin[k].after_lock_response(r));
            },
            None => {
                assert(resp[k] == fin[k]);
            },
        }
        assert(sh.term == s.shards[0].term);
        assert(t.shards[k] == resp[k].after_advance());
    }
    assert(s.advance_fits());
    assert forall|k: int| 0 <= k < SHARD_COUNT implies shard_within(#[trigger] t.shards[k], b, 0) by {
        assert(shard_within(t.shards[k], b, 0) && t.shards[k].term == s.shards[k].term + 1);
    }
    assert forall|k: int| 0 <= k < SHARD_COUNT implies (#[trigger] t.shards[k]).term == t.shards[0].term by {
        assert(shard_within(t.shards[k], b, 0) && t.shards[k].term == s.shards[k].term + 1);
        assert(shard_within(t.shards[0], b, 0) && t.shards[0].term == s.shards[0].term + 1);
        assert(s.shards[k].term == s.shards[0].term);
    }
}

proof fn lemma_run_steps_bounded<M: MakeAction>(s: SimulatorModel<M>, b: int, n: nat)
    requires
        sim_within(s, b, 0),
    ensures
        s.run_fits_steps(n),
    decreases n,
{
    if n > 0 && s.continues() {
        let cur = s.current_term();
        lemma_serve_bounded(s, cur, 0, b);
        lemma_serve_frame(s, cur, 0);
        let served = s.serve_from(cur, 0);
        lemma_sim_within_mono(served, b, s.queries.len() as int, b);
        assert(served.current_term() == cur);
        lemma_advance_bounded(served, b);
        lemma_run_steps_bounded(s.step(), b, (n - 1) as nat);
    }
}

/// A fresh simulation of at most `COUNT_BOUND` queries runs without overflow
/// when its inertion lies between 0 and 1 with a numerator of at most
/// `COUNT_BOUND`, its rule recommends at most `ACTION_FACTOR` identifiers per
/// query (`lemma_rules_bounded` shows it of every rule of this crate), and the
/// queries' terms leave room for the horizon.
pub proof fn lemma_fresh_run_fits<M: MakeAction>(config: Config<M>, queries: Seq<Query>)
    requires
        queries.len() <= COUNT_BOUND,
        inertion_bounded(config.inertion),
        rule_bounded(config.action, queries.len() as int),
        max_term_start(queries) + TERM_DELTA_MAX < u64::MAX,
    ensures
        (SimulatorModel {
            queries,
            term_max: max_term_start(queries),
            ..SimulatorModel::initial(config)
        }).run_fits(),
{
    let s = SimulatorModel { queries, term_max: max_term_start(queries), ..SimulatorModel::initial(config) };
    let b = queries.len() as int;
    assert(PredictorModel::initial().within(b));
    assert forall|k: int| 0 <= k < SHARD_COUNT implies shard_within(#[trigger] s.shards[k], b, 0) by {
        assert(s.shards[k] == InterpreterModel::initial(config));
    }
    assert(sim_within(s, b, 0));
    lemma_run_steps_bounded(s, b, s.run_bound());
}


/// The total of a list of lock requests.
pub open spec fn request_total(requests: Seq<u64>) -> int
    decreases requests.len(),
{
    if requests.len() == 0 {
        0
    } else {
        request_total(requests.drop_last()) + requests.last()
    }
}

/// Locking from the sequence: nothing for a request of 0 or a used-up
/// sequence; otherwise the `n` identifiers from the first free one, after
/// which the next identifier is the first free one. When `start + n` reaches
/// `u64::MAX` the range stops there and the sequence is used up.
pub proof fn lemma_lock_law(next: Option<u64>, n: u64)
    ensures
        n == 0 ==> lock_spec(next, n) == (next, None::<Range>),
        next is None ==> lock_spec(next, n).0 is None && lock_spec(next, n).1 is None,
        next is Some && n > 0 && next->0 + n < u64::MAX ==> {
            &&& lock_spec(next, n).0 == Some((next->0 + n) as u64)
            &&& lock_spec(next, n).1 is Some
            &&& lock_spec(next, n).1->0.begin() == next->0
            &&& lock_spec(next, n).1->0.end() == next->0 + n
        },
        next is Some && n > 0 && next->0 + n >= u64::MAX ==> {
            &&& lock_spec(next, n).0 is None
            &&& lock_spec(next, n).1 is Some
            &&& lock_spec(next, n).1->0.begin() == next->0
            &&& lock_spec(next, n).1->0.end() == u64::MAX
        },
{
    if let Some(start) = next {
        if n > 0 {
            let end: u64 = if start + n > u64::MAX { u64::MAX } else { (start + n) as u64 };
            Range::lemma_with_bounds(start, end);
        }
    }
}

proof fn lemma_request_total_prefix(requests: Seq<u64>, i: int)
    requires
        0 <= i <= requests.len(),
    ensures
        0 <= request_total(requests.take(i)) <= request_total(requests),
    decreases requests.len(),
{
    if i == requests.len() {
        assert(requests.take(i) =~= requests);
        if requests.len() > 0 {
            lemma_request_total_prefix(requests.drop_last(), 0);
        }
    } else {
        lemma_request_total_prefix(requests.drop_last(), i);
        assert(requests.drop_last().take(i) =~= requests.take(i));
    }
}

/// The sequence has no gaps: locking a list of requests that stays short of
/// `u64::MAX` grants, request after request, the ranges that start where the
/// previous one ended, from the first free identifier on; a request of 0 gets
/// nothing; afterwards the first free identifier is the old one plus the total.
pub proof fn lemma_lock_all_contiguous(start: u64, requests: Seq<u64>)
    requires
        start + request_total(requests) < u64::MAX,
    ensures
        lock_all(Some(start), requests).0 == Some((start + request_total(requests)) as u64),
        lock_all(Some(start), requests).1.len() == requests.len(),
        forall|i: int|
            0 <= i < requests.len() ==> {
                let r = #[trigger] lock_all(Some(start), requests).1[i];
                &&& requests[i] == 0 ==> r is None
                &&& requests[i] > 0 ==> {
                    &&& r is Some
                    &&& r->0.begin() == start + request_total(requests.take(i))
                    &&& r->0.end() == start + request_total(requests.take(i)) + requests[i]
                }
            },
    decreases requests.len(),
{
    lemma_lock_all_len(Some(start), requests);
    if requests.len() > 0 {
        let dl = requests.drop_last();
        lemma_request_total_prefix(requests, requests.len() - 1);
        assert(requests.take(requests.len() - 1) =~= dl);
        lemma_lock_all_contiguous(start, dl);
        let (n1, rs) = lock_all(Some(start), dl);
        let req = requests.last();
        lemma_lock_law(n1, req);
        assert(lock_all(Some(start), requests).1 == rs.push(lock_spec(n1, req).1));
        assert forall|i: int| 0 <= i < requests.len() implies {
            let r = #[trigger] lock_all(Some(start), requests).1[i];
            &&& requests[i] == 0 ==> r is None
            &&& requests[i] > 0 ==> {
                &&& r is Some
                &&& r->0.begin() == start + request_total(requests.take(i))
                &&& r->0.end() == start + request_total(requests.take(i)) + requests[i]
            }
        } by {
            if i < requests.len() - 1 {
                assert(dl.take(i) =~= requests.take(i));
                assert(dl[i] == requests[i]);
            }
        }
    }
}


/// The total of a list of per-term query counts.
pub open spec fn count_total(c: Seq<usize>) -> int
    decreases c.len(),
{
    if c.len() == 0 {
        0
    } else {
        count_total(c.drop_last()) + c.last()
    }
}

proof fn lemma_queries_of_counts_terms(c: Seq<usize>)
    requires
        c.len() <= u64::MAX,
    ensures
        queries_of_counts(c).len() == count_total(c),
        forall|k: int|
            0 <= k < queries_of_counts(c).len() ==> {
                let q = #[trigger] queries_of_counts(c)[k];
                let t = q.term_start as int;
                &&& t < c.len()
                &&& count_total(c.take(t)) <= k < count_total(c.take(t + 1))
                &&& q.term_result == 0 && q.id_result == 0
            },
    decreases c.len(),
{
    if c.len() > 0 {
        let dl = c.drop_last();
        lemma_queries_of_counts_terms(dl);
        assert(c.take(c.len() - 1) =~= dl);
        assert(c.take(c.len() as int) =~= c);
        assert forall|k: int| 0 <= k < queries_of_counts(c).len() implies {
            let q = #[trigger] queries_of_counts(c)[k];
            let t = q.term_start as int;
            &&& t < c.len()
            &&& count_total(c.take(t)) <= k < count_total(c.take(t + 1))
            &&& q.term_result == 0 && q.id_result == 0
        } by {
            if k < queries_of_counts(dl).len() {
                let t = queries_of_counts(dl)[k].term_start as int;
                assert(queries_of_counts(c)[k] == queries_of_counts(dl)[k]);
                assert(dl.take(t) =~= c.take(t));
                assert(dl.take(t + 1) =~= c.take(t + 1));
            } else {
                assert(queries_of_counts(c)[k].term_start == (c.len() - 1) as u64);
            }
        }
    }
}

/// The workload of per-term counts: one query per count, numbered by
/// position, unserved, and grouped by term in order: query `k` belongs to the
/// term `t` with `c[0] + .. + c[t-1] <= k < c[0] + .. + c[t]`.
pub proof fn lemma_workload_law(c: Seq<usize>)
    requires
        c.len() <= u64::MAX,
    ensures
        workload(c).len() == count_total(c),
        forall|k: int|
            0 <= k < workload(c).len() ==> {
                let q = #[trigger] workload(c)[k];
                let t = q.term_start as int;
                &&& q.index == k as u64
                &&& q.term_result == 0 && q.id_result == 0
                &&& t < c.len()
                &&& count_total(c.take(t)) <= k < count_total(c.take(t + 1))
            },
{
    lemma_queries_of_counts_terms(c);
    assert forall|k: int| 0 <= k < workload(c).len() implies {
        let q = #[trigger] workload(c)[k];
        let t = q.term_start as int;
        &&& q.index == k as u64
        &&& q.term_result == 0 && q.id_result == 0
        &&& t < c.len()
        &&& count_total(c.take(t)) <= k < count_total(c.take(t + 1))
    } by {
        assert(workload(c)[k].term_start == queries_of_counts(c)[k].term_start);
    }
}

/// The largest `term_start` of a non-empty list of queries is the
/// `term_start` of one of them and at least that of each.
pub proof fn lemma_max_term_start_law(q: Seq<Query>)
    requires
        q.len() > 0,
    ensures
        forall|i: int| 0 <= i < q.len() ==> #[trigger] q[i].term_start <= max_term_start(q),
        exists|i: int| 0 <= i < q.len() && #[trigger] q[i].term_start == max_term_start(q),
    decreases q.len(),
{
    if q.len() == 1 {
        assert(q[0].term_start == max_term_start(q));
    } else {
        let dl = q.drop_last();
        lemma_max_term_start_law(dl);
        let j = choose|i: int| 0 <= i < dl.len() && #[trigger] dl[i].term_start == max_term_start(dl);
        assert forall|i: int| 0 <= i < q.len() implies #[trigger] q[i].term_start <= max_term_start(q) by {
            if i < q.len() - 1 {
                assert(q[i] == dl[i]);
            }
        }
        if q.last().term_start > max_term_start(dl) {
            assert(q[q.len() - 1].term_start == max_term_start(q));
        } else {
            assert(q[j] == dl[j]);
            assert(q[j].term_start == max_term_start(q));
        }
    }
}


/// Ending a term, short of the sequence's end: every shard finishes its term
/// and requests what it lacks; the sequence grants the requests in shard order
/// from the first free identifier, each range starting where the previous one
/// ended; each shard then moves to the next term with its held identifiers
/// plus its grant, or with none when its rule recommends nothing; the
/// diagnostics of every finished shard are recorded.
pub proof fn lemma_end_of_term_law<M: MakeAction>(s: SimulatorModel<M>, n0: u64)
    requires
        s.shards.len() == SHARD_COUNT,
        s.next_free == Some(n0),
        n0 + request_total(s.lock_requests()) < u64::MAX,
        forall|k: int| 0 <= k < SHARD_COUNT ==> (#[trigger] s.shards[k]).term < u64::MAX,
    ensures
        s.after_advance().next_free == Some((n0 + request_total(s.lock_requests())) as u64),
        s.after_advance().terms == s.terms.push(s.dump()),
        s.after_advance().queries == s.queries,
        forall|k: int|
            0 <= k < SHARD_COUNT ==> {
                let f = #[trigger] s.shards[k].after_finish();
                let n = f.lock_request();
                let start = n0 + request_total(s.lock_requests().take(k));
                &&& s.dump()[k] == f.debug_state()
                &&& s.after_advance().shards[k].term == f.term + 1
                &&& (f.recommendation() == 0 ==> s.after_advance().shards[k].pool.len() == 0)
                &&& (f.recommendation() != 0 && n == 0 ==> s.after_advance().shards[k].pool == f.pool)
                &&& (f.recommendation() != 0 && n > 0 ==> {
                    &&& s.after_advance().shards[k].pool.len() == f.pool.len() + n
                    &&& forall|a: int| 0 <= a < f.pool.len() ==> #[trigger] s.after_advance().shards[k].pool[a] == f.pool[a]
                    &&& forall|a: int|
                        0 <= a < n ==> #[trigger] s.after_advance().shards[k].pool[f.pool.len() + a] == start + a
                })
            },
{
    let reqs = s.lock_requests();
    lemma_lock_all_contiguous(n0, reqs);
    assert forall|k: int| 0 <= k < SHARD_COUNT implies {
        let f = #[trigger] s.shards[k].after_finish();
        let n = f.lock_request();
        let start = n0 + request_total(s.lock_requests().take(k));
        &&& s.dump()[k] == f.debug_state()
        &&& s.after_advance().shards[k].term == f.term + 1
        &&& (f.recommendation() == 0 ==> s.after_advance().shards[k].pool.len() == 0)
        &&& (f.recommendation() != 0 && n == 0 ==> s.after_advance().shards[k].pool == f.pool)
        &&& (f.recommendation() != 0 && n > 0 ==> {
            &&& s.after_advance().shards[k].pool.len() == f.pool.len() + n
            &&& forall|a: int| 0 <= a < f.pool.len() ==> #[trigger] s.after_advance().shards[k].pool[a] == f.pool[a]
            &&& forall|a: int|
                0 <= a < n ==> #[trigger] s.after_advance().shards[k].pool[f.pool.len() + a] == start + a
        })
    } by {
        let f = s.shards[k].after_finish();
        assert(s.finished_shards()[k] == f);
        assert(reqs[k] == f.lock_request());
        let rs = s.responses();
        let resp = s.responded_shards();
        assert(s.after_advance().shards[k] == resp[k].after_advance());
        assert(s.dump()[k] == f.debug_state());
        assert(rs[k] == lock_all(Some(n0), reqs).1[k]);
        match rs[k] {
            Some(r) => {
                assert(resp[k] == f.after_lock_response(r));
                lemma_lock_response_law(f, r);
                lemma_range_ids_law(r);
                assert(reqs[k] > 0);
                assert(r.begin() == n0 + request_total(reqs.take(k)));
                assert(r.ids().len() == reqs[k]);
                assert(resp[k].recommendation() == f.recommendation());
            },
            None => {
                assert(resp[k] == f);
                assert(reqs[k] == 0);
            },
        }
        let n = f.lock_request();
        let start = n0 + request_total(s.lock_requests().take(k));
        let np = s.after_advance().shards[k].pool;
        assert(s.after_advance().shards[k].term == f.term + 1);
        assert(f.recommendation() == 0 ==> np.len() == 0);
        assert(f.recommendation() != 0 && n == 0 ==> np == f.pool);
        if f.recommendation() != 0 && n > 0 {
            let r = rs[k]->0;
            assert(np == f.pool + r.ids());
            assert(np.len() == f.pool.len() + n);
            assert forall|a: int| 0 <= a < f.pool.len() implies #[trigger] np[a] == f.pool[a] by {}
            assert forall|a: int| 0 <= a < n implies #[trigger] np[f.pool.len() + a] == start + a by {
                assert(np[f.pool.len() + a] == r.ids()[a]);
            }
        }
    }
}


/// The counts the generators draw: for spikes, `term_count` terms of 4 to 9
/// queries plus whole spikes of 50, `term_count / 10` spikes in all; for
/// sparse spikes, the same with every term whose number is not a multiple of
/// 4 emptied; for gambling, at least 10 terms of 4 to 9 queries except 2000 in
/// term 3.
pub proof fn lemma_generated_counts_law(c: Seq<usize>, term_count: nat)
    ensures
        spike_counts(c, term_count) ==> {
            &&& c.len() == term_count
            &&& forall|t: int| 0 <= t < c.len() ==> 4 <= #[trigger] c[t] % 50 <= 9
            &&& spike_total(c) == term_count / 10
        },
        forall|t: int| 0 <= t < c.len() ==> #[trigger] sparse_of(c)[t] == if t % 4 == 0 { c[t] } else { 0 },
        sparse_of(c).len() == c.len(),
        gambling_counts(c, term_count) ==> {
            &&& c.len() == if term_count >= 10 { term_count } else { 10 }
            &&& c[3] == 2000
            &&& forall|t: int| 0 <= t < c.len() && t != 3 ==> 4 <= #[trigger] c[t] <= 9
        },
{
}

/// Every query is served by the shard numbered by its index modulo 5.
pub proof fn lemma_shard_of_law(q: Query)
    ensures
        0 <= shard_of(q) < 5,
        shard_of(q) == (q.index as usize) as int % 5,
{
}

/// A fresh simulator: identifier 0 is the first free one, there are no
/// queries and no recorded terms, and there are 5 fresh interpreters sharing
/// the configuration.
pub proof fn lemma_initial_simulator_law<M: MakeAction>(config: Config<M>)
    ensures
        ({
            let s = SimulatorModel::initial(config);
            &&& s.next_free == Some(0u64)
            &&& s.queries.len() == 0 && s.terms.len() == 0 && s.term_max == 0
            &&& s.drops.is_empty()
            &&& s.shards.len() == 5
            &&& forall|k: int| 0 <= k < 5 ==> #[trigger] s.shards[k] == InterpreterModel::initial(config)
        }),
{
}

/// Drives `SHARD_COUNT` interpreters through a list of queries, term by term,
/// locking identifiers for them from one shared sequence.
pub struct Simulator<M> {
    sequence: Sequence,
    queries: Vec<Query>,
    term_max: u64,
    drop_term_requests: BTreeSet<u64>,
    lock_requests_inflight: Vec<u64>,
    terms: Vec<Vec<DebugState>>,
    shards: Vec<Interpreter<M>>,
}

impl<M: MakeAction> View for Simulator<M> {
    type V = SimulatorModel<M>;

    closed spec fn view(&self) -> SimulatorModel<M> {
        SimulatorModel {
            next_free: self.sequence.id_free_first,
            queries: self.queries@,
            term_max: self.term_max,
            drops: self.drop_term_requests@,
            terms: self.terms@.map_values(|t: Vec<DebugState>| t@),
            shards: self.shards@.map_values(|sh: Interpreter<M>| sh@),
        }
    }
}

impl<M: MakeAction + Copy> Simulator<M> {
    pub closed spec fn wf(self) -> bool {
        &&& self.shards@.len() == SHARD_COUNT
        &&& forall|j: int| 0 <= j < self.shards@.len() ==> (#[trigger] self.shards@[j]).wf()
    }

    /// A well-formed simulator has a well-formed model.
    pub proof fn lemma_wf(self)
        requires
            self.wf(),
        ensures
            self@.wf(),
    {
        assert forall|j: int| 0 <= j < self@.shards.len() implies (#[trigger] self@.shards[j]).wf() by {
            self.shards@[j].lemma_wf();
        }
    }

    /// A simulator with `SHARD_COUNT` fresh interpreters sharing `config`,
    /// no queries, and a sequence whose first free identifier is 0.
    pub fn new(config: Config<M>) -> (r: Self)
        ensures
            r.wf(),
            r@ == SimulatorModel::initial(config),
    {
        let mut shards: Vec<Interpreter<M>> = Vec::new();
        let mut i: usize = 0;
        while i < SHARD_COUNT
            invariant
                0 <= i <= SHARD_COUNT,
                shards@.len() == i,
                forall|j: int| 0 <= j < i ==> (#[trigger] shards@[j]).wf(),
                forall|j: int| 0 <= j < i ==> (#[trigger] shards@[j])@ == InterpreterModel::initial(config),
            decreases SHARD_COUNT - i,
        {
            shards.push(Interpreter::new(config));
            i = i + 1;
        }
        let r = Self {
            sequence: Sequence::new(),
            queries: Vec::new(),
            drop_term_requests: BTreeSet::new(),
            lock_requests_inflight: Vec::new(),
            term_max: 0,
            terms: Vec::new(),
            shards: shards,
        };
        assert(r@.shards =~= SimulatorModel::<M>::initial(config).shards);
        assert(r@.terms =~= Seq::<Seq<DebugState>>::empty());
        assert(r@.drops =~= Set::<u64>::empty());
        r
    }

    /// Replaces the queries; `term_max` becomes the largest `term_start`.
    pub fn set_queries(&mut self, queries: Vec<Query>)
        requires
            queries@.len() > 0,
        ensures
            final(self).wf() == old(self).wf(),
            final(self)@ == (SimulatorModel {
                queries: queries@,
                term_max: max_term_start(queries@),
                ..old(self)@
            }),
    {
        let n = queries.len();
        let mut m = queries[0].term_start;
        let mut i: usize = 1;
        assert(queries@.take(1).drop_last() =~= Seq::<Query>::empty());
        while i < n
            invariant
                1 <= i <= n,
                n == queries@.len(),
                m == max_term_start(queries@.take(i as int)),
            decreases n - i,
        {
            assert(queries@.take(i + 1).drop_last() =~= queries@.take(i as int));
            if queries[i].term_start > m {
                m = queries[i].term_start;
            }
            i = i + 1;
        }
        assert(queries@.take(n as int) =~= queries@);
        self.term_max = m;
        self.queries = queries;
    }

    /// Records a set of terms whose lock requests are meant to be dropped; the
    /// run does not consult it.
    pub fn set_drop_term_request(&mut self, drop_term_request: BTreeSet<u64>)
        ensures
            final(self).wf() == old(self).wf(),
            final(self)@ == (SimulatorModel { drops: drop_term_request@, ..old(self)@ }),
    {
        self.drop_term_requests = drop_term_request;
    }

    /// A copy of the queries.
    pub fn extract_queries(&self) -> (r: Vec<Query>)
        ensures
            r@ == self@.queries,
    {
        self.queries.clone()
    }

    /// A copy of the diagnostics recorded at the end of each term.
    pub fn extract_terms(&self) -> (r: Vec<Vec<DebugState>>)
        ensures
            r@.map_values(|t: Vec<DebugState>| t@) == self@.terms,
    {
        let mut out: Vec<Vec<DebugState>> = Vec::new();
        let mut i: usize = 0;
        while i < self.terms.len()
            invariant
                0 <= i <= self.terms@.len(),
                out@.len() == i,
                forall|k: int| 0 <= k < i ==> (#[trigger] out@[k])@ == self.terms@[k]@,
            decreases self.terms@.len() - i,
        {
            let src = &self.terms[i];
            let mut row: Vec<DebugState> = Vec::new();
            let mut j: usize = 0;
            while j < src.len()
                invariant
                    0 <= j <= src@.len(),
                    row@ == src@.take(j as int),
                decreases src@.len() - j,
            {
                row.push(src[j]);
                j = j + 1;
                assert(row@ =~= src@.take(j as int));
            }
            assert(row@ =~= src@);
            out.push(row);
            i = i + 1;
        }
        assert(out@.map_values(|t: Vec<DebugState>| t@) =~= self@.terms);
        out
    }


    /// Serves, in order, the queries not served yet whose term has come.
    fn serve_pending_queries(&mut self, current_term: u64)
        requires
            old(self).wf(),
            old(self)@.serve_fits_from(current_term, 0),
        ensures
            final(self).wf(),
            final(self)@ == old(self)@.serve_from(current_term, 0),
    {
        let n = self.queries.len();
        let mut i: usize = 0;
        while i < n
            invariant
                self.wf(),
                n == self.queries@.len(),
                0 <= i <= n,
                old(self)@.serve_from(current_term, 0) == self@.serve_from(current_term, i as nat),
                self@.serve_fits_from(current_term, i as nat),
            ensures
                self.wf(),
                old(self)@.serve_from(current_term, 0) == self@,
            decreases n - i,
        {
            let q = self.queries[i];
            if q.term_result != 0 {
                i = i + 1;
                continue;
            }
            if q.term_start > current_term {
                break;
            }
            let shard_index = q.index as usize % self.shards.len();
            let ghost pre = self@;
            proof {
                self.lemma_wf();
            }
            let result = self.shards[shard_index].handle_query(q.term_start);
            if let Some(id) = result {
                self.queries[i] = Query { id_result: id, term_result: current_term, ..q };
            }
            i = i + 1;
            proof {
                let k = shard_of(q);
                assert(k == shard_index as int);
                assert(self@.shards =~= pre.shards.update(k, pre.shards[k].after_query(q.term_start)));
                match result {
                    Some(id) => {
                        assert(self@.queries =~= pre.queries.update(
                            i - 1,
                            Query { id_result: id, term_result: current_term, ..q },
                        ));
                    },
                    None => {
                        assert(self@.queries =~= pre.queries);
                    },
                }
            }
        }
    }

    fn create_lock_request(&self) -> (r: Vec<u64>)
        requires
            self.wf(),
            forall|j: int|
                0 <= j < self@.shards.len() ==> prepare_fits(
                    (#[trigger] self@.shards[j]).config,
                    self@.shards[j].predictor,
                ),
        ensures
            r@ == self@.shards.map_values(|sh: InterpreterModel<M>| sh.lock_request()),
    {
        let mut out: Vec<u64> = Vec::new();
        let mut i: usize = 0;
        while i < self.shards.len()
            invariant
                self.wf(),
                forall|j: int|
                    0 <= j < self@.shards.len() ==> prepare_fits(
                        (#[trigger] self@.shards[j]).config,
                        self@.shards[j].predictor,
                    ),
                0 <= i <= self.shards@.len(),
                out@ == self@.shards.map_values(|sh: InterpreterModel<M>| sh.lock_request()).take(
                    i as int,
                ),
            decreases self.shards@.len() - i,
        {
            assert(self@.shards[i as int] == self.shards@[i as int]@);
            let n = self.shards[i].create_lock_request();
            out.push(n);
            i = i + 1;
            assert(out@ =~= self@.shards.map_values(|sh: InterpreterModel<M>| sh.lock_request()).take(
                i as int,
            ));
        }
        assert(out@ =~= self@.shards.map_values(|sh: InterpreterModel<M>| sh.lock_request()));
        out
    }

    fn dump(&self) -> (r: Vec<DebugState>)
        requires
            self.wf(),
            forall|j: int| 0 <= j < self@.shards.len() ==> (#[trigger] self@.shards[j]).debug_fits(),
        ensures
            r@ == self@.shards.map_values(|sh: InterpreterModel<M>| sh.debug_state()),
    {
        let mut out: Vec<DebugState> = Vec::new();
        let mut i: usize = 0;
        while i < self.shards.len()
            invariant
                self.wf(),
                forall|j: int| 0 <= j < self@.shards.len() ==> (#[trigger] self@.shards[j]).debug_fits(),
                0 <= i <= self.shards@.len(),
                out@ == self@.shards.map_values(|sh: InterpreterModel<M>| sh.debug_state()).take(
                    i as int,
                ),
            decreases self.shards@.len() - i,
        {
            assert(self@.shards[i as int] == self.shards@[i as int]@);
            let d = self.shards[i].dump_state();
            out.push(d);
            i = i + 1;
            assert(out@ =~= self@.shards.map_values(|sh: InterpreterModel<M>| sh.debug_state()).take(
                i as int,
            ));
        }
        assert(out@ =~= self@.shards.map_values(|sh: InterpreterModel<M>| sh.debug_state()));
        out
    }

    fn handle_lock_response(&mut self, responses: Vec<Option<Range>>)
        requires
            old(self).wf(),
            responses@.len() == old(self)@.shards.len(),
            forall|j: int|
                0 <= j < responses@.len() ==> match #[trigger] responses@[j] {
                    Some(r) => old(self)@.shards[j].lock_response_fits(r),
                    None => true,
                },
        ensures
            final(self).wf(),
            final(self)@ == (SimulatorModel {
                shards: Seq::new(
                    old(self)@.shards.len(),
                    |j: int|
                        match responses@[j] {
                            Some(r) => old(self)@.shards[j].after_lock_response(r),
                            None => old(self)@.shards[j],
                        },
                ),
                ..old(self)@
            }),
    {
        let mut responses = responses;
        let ghost given = responses@;
        let n = self.shards.len();
        let mut i: usize = 0;
        while i < n
            invariant
                self.wf(),
                n == self.shards@.len(),
                0 <= i <= n,
                responses@.len() == n,
                given.len() == n,
                forall|j: int| i <= j < n ==> responses@[j] == given[j],
                forall|j: int|
                    0 <= j < n ==> match #[trigger] given[j] {
                        Some(r) => old(self)@.shards[j].lock_response_fits(r),
                        None => true,
                    },
                forall|j: int|
                    0 <= j < i ==> (#[trigger] self@.shards[j]) == match given[j] {
                        Some(r) => old(self)@.shards[j].after_lock_response(r),
                        None => old(self)@.shards[j],
                    },
                forall|j: int| i <= j < n ==> (#[trigger] self@.shards[j]) == old(self)@.shards[j],
                self.sequence == old(self).sequence,
                self.queries == old(self).queries,
                self.term_max == old(self).term_max,
                self.drop_term_requests == old(self).drop_term_requests,
                self.terms == old(self).terms,
            decreases n - i,
        {
            let mut slot: Option<Range> = None;
            std::mem::swap(&mut slot, &mut responses[i]);
            let ghost pre = self@;
            if let Some(range) = slot {
                assert(self@.shards[i as int] == old(self)@.shards[i as int]);
                self.shards[i].handle_lock_response(range);
            }
            proof {
                assert forall|j: int| 0 <= j < n && j != i implies (#[trigger] self@.shards[j]) == pre.shards[j] by {
                }
            }
            i = i + 1;
        }
        assert(self@.shards =~= Seq::new(
            old(self)@.shards.len(),
            |j: int|
                match given[j] {
                    Some(r) => old(self)@.shards[j].after_lock_response(r),
                    None => old(self)@.shards[j],
                },
        ));
    }


    /// Ends the current term in every shard, records the diagnostics, locks
    /// what the shards request and starts the next term.
    fn advance_term(&mut self, _current_term: u64)
        requires
            old(self).wf(),
            old(self)@.advance_fits(),
        ensures
            final(self).wf(),
            final(self)@ == old(self)@.after_advance(),
    {
        let ghost pre = self@;
        let n = self.shards.len();
        let mut i: usize = 0;
        while i < n
            invariant
                self.wf(),
                n == SHARD_COUNT,
                pre == old(self)@,
                pre.advance_fits(),
                pre.shards.len() == n,
                0 <= i <= n,
                forall|j: int| 0 <= j < i ==> (#[trigger] self@.shards[j]) == pre.shards[j].after_finish(),
                forall|j: int| i <= j < n ==> (#[trigger] self@.shards[j]) == pre.shards[j],
                self.sequence == old(self).sequence,
                self.queries == old(self).queries,
                self.term_max == old(self).term_max,
                self.drop_term_requests == old(self).drop_term_requests,
                self.terms == old(self).terms,
            decreases n - i,
        {
            let ghost before = self@;
            proof {
                self.lemma_wf();
                assert(pre.shards[i as int].finish_fits());
                assert(self.shards@[i as int]@ == self@.shards[i as int]);
            }
            self.shards[i].finish_term();
            assert(self.shards@[i as int]@ == self@.shards[i as int]);
            proof {
                assert forall|j: int| 0 <= j < n && j != i implies (#[trigger] self@.shards[j]) == before.shards[j] by {
                }
            }
            i = i + 1;
        }
        assert(self@.shards =~= pre.finished_shards());
        assert forall|j: int| 0 <= j < self@.shards.len() implies prepare_fits(
            (#[trigger] self@.shards[j]).config,
            self@.shards[j].predictor,
        ) by {
            assert(self@.shards[j] == pre.finished_shards()[j]);
        }
        assert forall|j: int| 0 <= j < self@.shards.len() implies (#[trigger] self@.shards[j]).debug_fits() by {
            assert(self@.shards[j] == pre.finished_shards()[j]);
        }
        let requests = self.create_lock_request();
        assert(requests@ =~= pre.lock_requests());
        let d = self.dump();
        assert(d@ =~= pre.dump());
        self.terms.push(d);
        let ghost mid = self@;
        let mut responses: Vec<Option<Range>> = Vec::new();
        let mut k: usize = 0;
        while k < requests.len()
            invariant
                self.wf(),
                self@.shards == mid.shards,
                self@.terms == mid.terms,
                self@.queries == mid.queries,
                self@.term_max == mid.term_max,
                self@.drops == mid.drops,
                0 <= k <= requests@.len(),
                (self.sequence.id_free_first, responses@) == lock_all(pre.next_free, requests@.take(k as int)),
            decreases requests@.len() - k,
        {
            assert(requests@.take(k + 1).drop_last() =~= requests@.take(k as int));
            let r = self.sequence.lock(requests[k]);
            responses.push(r);
            k = k + 1;
        }
        assert(requests@.take(k as int) =~= requests@);
        proof {
            lemma_lock_all_len(pre.next_free, pre.lock_requests());
            self.lemma_wf();
        }
        assert(responses@ == pre.responses());
        assert(self@.shards == pre.finished_shards());
        self.handle_lock_response(responses);
        assert(self@.shards =~= pre.responded_shards());
        let mut i: usize = 0;
        while i < n
            invariant
                self.wf(),
                n == SHARD_COUNT,
                pre == old(self)@,
                pre.advance_fits(),
                pre.shards.len() == n,
                0 <= i <= n,
                forall|j: int|
                    0 <= j < i ==> (#[trigger] self@.shards[j]) == pre.responded_shards()[j].after_advance(),
                forall|j: int| i <= j < n ==> (#[trigger] self@.shards[j]) == pre.responded_shards()[j],
                self@.next_free == pre.after_advance().next_free,
                self@.terms == pre.after_advance().terms,
                self@.queries == pre.queries,
                self@.term_max == pre.term_max,
                self@.drops == pre.drops,
            decreases n - i,
        {
            let ghost before = self@;
            proof {
                self.lemma_wf();
                assert(pre.responded_shards()[i as int].advance_fits());
                assert(self.shards@[i as int]@ == self@.shards[i as int]);
            }
            self.shards[i].advance_term();
            assert(self.shards@[i as int]@ == self@.shards[i as int]);
            proof {
                assert forall|j: int| 0 <= j < n && j != i implies (#[trigger] self@.shards[j]) == before.shards[j] by {
                }
            }
            i = i + 1;
        }
        assert(self@.shards =~= pre.after_advance().shards);
        assert(self@.terms =~= pre.after_advance().terms);
    }

    /// Runs the simulation: term after term, serves the queries whose term has
    /// come and ends the term, while some query has `term_result` 0 and the term
    /// has not passed `term_max + TERM_DELTA_MAX`.
    pub fn run(&mut self)
        requires
            old(self).wf(),
            old(self)@.run_fits(),
        ensures
            final(self).wf(),
            final(self)@ == old(self)@.after_run(),
    {
        let ghost start = self@;
        let ghost bound = start.run_bound();
        let ghost mut left: nat = bound;
        proof {
            self.lemma_wf();
        }
        while self.has_pending_query()
            invariant
                self.wf(),
                self@.shards.len() == SHARD_COUNT,
                start == old(self)@,
                bound == start.run_bound(),
                start.has_pending() ==> start.term_max + TERM_DELTA_MAX <= u64::MAX,
                left <= bound,
                left == bound ==> self@ == start,
                left < bound ==> start.has_pending(),
                self@.term_max == start.term_max,
                self@.current_term() == start.current_term() + (bound - left),
                start.run_steps(bound) == self@.run_steps(left),
                self@.run_fits_steps(left),
            ensures
                self.wf(),
                start.run_steps(bound) == self@.run_steps(left),
                !self@.continues(),
            decreases left,
        {
            assert(self@.shards[0] == self.shards@[0]@);
            let current_term = self.shards[0].current_term();
            if current_term > self.term_max + TERM_DELTA_MAX {
                break;
            }
            assert(self@.continues());
            assert(left >= 1);
            proof {
                lemma_step_term(self@);
            }
            self.serve_pending_queries(current_term);
            self.advance_term(current_term);
            proof {
                left = (left - 1) as nat;
                self.lemma_wf();
            }
        }
    }

    fn has_pending_query(&self) -> (b: bool)
        ensures
            b == self@.has_pending(),
    {
        let mut i: usize = 0;
        while i < self.queries.len()
            invariant
                0 <= i <= self.queries@.len(),
                forall|k: int| 0 <= k < i ==> (#[trigger] self.queries@[k]).term_result != 0,
            decreases self.queries@.len() - i,
        {
            if self.queries[i].term_result == 0 {
                assert(self@.queries[i as int].term_result == 0);
                return true;
            }
            i = i + 1;
        }
        false
    }
}

} // verus!
