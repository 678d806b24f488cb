use vstd::prelude::*;
use std::collections::VecDeque;
use crate::text::{decimal, push_decimal_i64, push_decimal_u64};
use crate::predictor::{
    prepare_fits, recommended, Config, MakeAction, Predictor, PredictorModel,
    PredictorState, TermState,
};

verus! {

/// A half-open range of identifiers `[begin, end)`.
#[derive(Default)]
pub struct Range {
    begin: u64,
    end: u64,
}

impl Range {
    /// First identifier of the range.
    pub closed spec fn begin(self) -> u64 {
        self.begin
    }

    /// One past the last identifier of the range.
    pub closed spec fn end(self) -> u64 {
        self.end
    }

    /// Number of identifiers left in the range.
    pub open spec fn spec_count(self) -> nat {
        if self.begin() >= self.end() {
            0
        } else {
            (self.end() - self.begin()) as nat
        }
    }

    /// The identifiers of the range, in the order `next` yields them.
    pub open spec fn ids(self) -> Seq<u64> {
        Seq::new(self.spec_count(), |i: int| (self.begin() + i) as u64)
    }

    /// The range `[begin, end)`.
    pub closed spec fn with_bounds(begin: u64, end: u64) -> Range {
        Range { begin, end }
    }

    /// The bounds of `with_bounds`.
    pub proof fn lemma_with_bounds(begin: u64, end: u64)
        ensures
            Range::with_bounds(begin, end).begin() == begin,
            Range::with_bounds(begin, end).end() == end,
    {
    }

    /// The range `[begin, end)`.
    pub fn from_range(begin: u64, end: u64) -> (r: Range)
        ensures
            r == Range::with_bounds(begin, end),
            r.begin() == begin,
            r.end() == end,
    {
        Range { begin, end }
    }

    /// The `count` identifiers from `start` on.
    pub fn from_c_range(start: u64, count: u64) -> (r: Range)
        requires
            start + count <= u64::MAX,
        ensures
            r.begin() == start,
            r.end() == start + count,
            r.spec_count() == count,
    {
        Range { begin: start, end: start + count }
    }

    /// Number of identifiers left.
    pub fn count(&self) -> (c: u64)
        ensures
            c == self.spec_count(),
    {
        if self.is_empty() {
            0
        } else {
            self.end - self.begin
        }
    }

    /// Number of identifiers left, as a `usize`.
    pub fn len(&self) -> (n: usize)
        ensures
            n == self.spec_count() as usize,
    {
        self.count() as usize
    }

    /// No identifier is left.
    pub fn is_empty(&self) -> (b: bool)
        ensures
            b == (self.spec_count() == 0),
    {
        self.begin >= self.end
    }

    /// Takes the first identifier left, if any.
    pub fn next(&mut self) -> (r: Option<u64>)
        ensures
            old(self).spec_count() == 0 ==> r is None && *final(self) == *old(self),
            old(self).spec_count() > 0 ==> {
                &&& r == Some(old(self).begin())
                &&& final(self).begin() == old(self).begin() + 1
                &&& final(self).end() == old(self).end()
            },
            final(self).ids() == if old(self).spec_count() == 0 {
                old(self).ids()
            } else {
                old(self).ids().drop_first()
            },
    {
        if self.is_empty() {
            None
        } else {
            let result = self.begin;
            self.begin += 1;
            proof {
                assert(self.ids() =~= old(self).ids().drop_first());
            }
            Some(result)
        }
    }
}

/// The identifiers of a list of ranges, range after range.
pub open spec fn ranges_ids(s: Seq<Range>) -> Seq<u64>
    decreases s.len(),
{
    if s.len() == 0 {
        Seq::empty()
    } else {
        ranges_ids(s.drop_last()) + s.last().ids()
    }
}

proof fn lemma_ranges_ids_first(s: Seq<Range>)
    requires
        s.len() > 0,
    ensures
        ranges_ids(s) == s[0].ids() + ranges_ids(s.drop_first()),
    decreases s.len(),
{
    if s.len() == 1 {
        assert(s.drop_last() =~= Seq::<Range>::empty());
        assert(s.drop_first() =~= Seq::<Range>::empty());
        assert(ranges_ids(s) =~= s[0].ids() + ranges_ids(s.drop_first()));
    } else {
        lemma_ranges_ids_first(s.drop_last());
        assert(s.drop_last().drop_first() =~= s.drop_first().drop_last());
        assert(s.drop_first().last() == s.last());
        assert(ranges_ids(s) =~= s[0].ids() + ranges_ids(s.drop_first()));
    }
}

proof fn lemma_ranges_ids_push(s: Seq<Range>, r: Range)
    ensures
        ranges_ids(s.push(r)) == ranges_ids(s) + r.ids(),
{
    assert(s.push(r).drop_last() =~= s);
}

/// Identifiers held for queries: a queue of ranges and the number of
/// identifiers they hold.
struct RangeSet {
    id_free_list: VecDeque<Range>,
    count: i64,
}

impl RangeSet {
    /// The held identifiers, in the order `get` hands them out.
    closed spec fn ids(self) -> Seq<u64> {
        ranges_ids(self.id_free_list@)
    }

    closed spec fn wf(self) -> bool {
        self.count == self.ids().len()
    }

    fn new() -> (r: Self)
        ensures
            r.wf(),
            r.ids() == Seq::<u64>::empty(),
    {
        RangeSet { id_free_list: VecDeque::new(), count: 0 }
    }

    fn add(&mut self, r: Range)
        requires
            old(self).wf(),
            old(self).ids().len() + r.spec_count() <= i64::MAX,
        ensures
            final(self).wf(),
            final(self).id_free_list@ == old(self).id_free_list@.push(r),
            final(self).count == old(self).count + r.spec_count(),
            final(self).ids() == old(self).ids() + r.ids(),
    {
        proof {
            lemma_ranges_ids_push(self.id_free_list@, r);
        }
        self.count += r.count() as i64;
        self.id_free_list.push_back(r);
    }

    fn count(&self) -> (c: i64)
        requires
            self.wf(),
        ensures
            c == self.ids().len(),
    {
        self.count
    }

    fn clear(&mut self)
        ensures
            final(self).wf(),
            final(self).id_free_list@.len() == 0,
            final(self).ids() == Seq::<u64>::empty(),
    {
        self.id_free_list.clear();
        self.count = 0;
    }

    /// Hands out the first held identifier, dropping ranges that are used up.
    fn get(&mut self) -> (v: Option<u64>)
        requires
            old(self).wf(),
        ensures
            final(self).wf(),
            old(self).ids().len() == 0 ==> {
                &&& v is None
                &&& final(self).ids() == old(self).ids()
                &&& final(self).id_free_list@.len() == 0
                &&& final(self).count == old(self).count
            },
            old(self).ids().len() > 0 ==> {
                &&& v == Some(old(self).ids()[0])
                &&& final(self).ids() == old(self).ids().drop_first()
                &&& final(self).count == old(self).count - 1
            },
    {
        loop
            invariant
                self.ids() == old(self).ids(),
                self.count == old(self).count,
                old(self).wf(),
            decreases self.id_free_list@.len(),
        {
            let ghost list = self.id_free_list@;
            match self.id_free_list.pop_front() {
                None => {
                    assert(list.len() == 0);
                    return None;
                },
                Some(mut front) => {
                    proof {
                        lemma_ranges_ids_first(list);
                    }
                    let ghost old_front = front;
                    match front.next() {
                        Some(v) => {
                            self.count -= 1;
                            self.id_free_list.push_front(front);
                            proof {
                                assert(self.id_free_list@.drop_first() =~= list.drop_first());
                                lemma_ranges_ids_first(self.id_free_list@);
                                assert(old_front.ids()[0] == v);
                                assert(self.ids() =~= old(self).ids().drop_first());
                            }
                            return Some(v);
                        },
                        None => {
                            assert(old_front.ids() =~= Seq::<u64>::empty());
                            assert(self.ids() =~= old(self).ids());
                        },
                    }
                },
            }
        }
    }
}

/// One term of an interpreter as seen from outside, for diagnostics.
#[derive(Clone, Copy, Debug, PartialEq, Eq)]
pub struct DebugState {
    pub term: u64,
    pub prediction: i64,
    pub actual: i64,
    pub rejected: i64,
    pub id_remained: i64,
    pub id_recommended: i64,
    pub id_request: u64,
}

impl DebugState {
    /// The diagnostics as text, in the form `DebugState { term: 1, prediction: 2, .. }`
    /// with every field in decimal.
    pub fn to_string(&self) -> (r: String)
        ensures
            r@ == "DebugState { term: "@ + decimal(self.term as int)
                + ", prediction: "@ + decimal(self.prediction as int)
                + ", actual: "@ + decimal(self.actual as int)
                + ", rejected: "@ + decimal(self.rejected as int)
                + ", id_remained: "@ + decimal(self.id_remained as int)
                + ", id_recommended: "@ + decimal(self.id_recommended as int)
                + ", id_request: "@ + decimal(self.id_request as int)
                + " }"@,
    {
        let mut out = String::new();
        out.append("DebugState { term: ");
        push_decimal_u64(&mut out, self.term);
        out.append(", prediction: ");
        push_decimal_i64(&mut out, self.prediction);
        out.append(", actual: ");
        push_decimal_i64(&mut out, self.actual);
        out.append(", rejected: ");
        push_decimal_i64(&mut out, self.rejected);
        out.append(", id_remained: ");
        push_decimal_i64(&mut out, self.id_remained);
        out.append(", id_recommended: ");
        push_decimal_i64(&mut out, self.id_recommended);
        out.append(", id_request: ");
        push_decimal_u64(&mut out, self.id_request);
        out.append(" }");
        assert(out@ =~= "DebugState { term: "@ + decimal(self.term as int)
                + ", prediction: "@ + decimal(self.prediction as int)
                + ", actual: "@ + decimal(self.actual as int)
                + ", rejected: "@ + decimal(self.rejected as int)
                + ", id_remained: "@ + decimal(self.id_remained as int)
                + ", id_recommended: "@ + decimal(self.id_recommended as int)
                + ", id_request: "@ + decimal(self.id_request as int)
                + " }"@);
        out
    }
}

/// The abstract state of an interpreter.
pub struct InterpreterModel<M> {
    pub config: Config<M>,
    pub predictor: PredictorModel,
    pub term: u64,
    /// Identifiers held for queries, in the order they are handed out.
    pub pool: Seq<u64>,
    pub query_count: i64,
    pub reject_count: i64,
    pub prediction_count: i64,
}

impl<M: MakeAction> InterpreterModel<M> {
    pub open spec fn initial(config: Config<M>) -> Self {
        InterpreterModel {
            config,
            predictor: PredictorModel::initial(),
            term: 0,
            pool: Seq::empty(),
            query_count: 0,
            reject_count: 0,
            prediction_count: 0,
        }
    }

    pub open spec fn wf(self) -> bool {
        self.pool.len() <= i64::MAX
    }

    /// What the current term looks like to the predictor.
    pub open spec fn term_state(self) -> TermState {
        TermState {
            query_prediction_count: self.prediction_count,
            query_actual_count: self.query_count,
            query_pending_count: self.reject_count,
            id_remained_count: self.pool.len() as i64,
        }
    }

    pub open spec fn lock_response_fits(self, range: Range) -> bool {
        self.pool.len() + range.spec_count() <= i64::MAX
    }

    /// The identifiers of a granted range join the pool.
    pub open spec fn after_lock_response(self, range: Range) -> Self {
        InterpreterModel { pool: self.pool + range.ids(), ..self }
    }

    pub open spec fn query_fits(self, term_id: u64) -> bool {
        &&& term_id == self.term ==> self.query_count < i64::MAX
        &&& self.pool.len() == 0 ==> self.reject_count < i64::MAX
    }

    /// The identifier a query gets: the first of the pool, if any.
    pub open spec fn query_result(self, term_id: u64) -> Option<u64> {
        if self.pool.len() > 0 {
            Some(self.pool[0])
        } else {
            None
        }
    }

    /// A query of this term is counted; a query that gets no identifier is rejected.
    pub open spec fn after_query(self, term_id: u64) -> Self {
        InterpreterModel {
            query_count: if term_id == self.term {
                (self.query_count + 1) as i64
            } else {
                self.query_count
            },
            pool: if self.pool.len() > 0 {
                self.pool.drop_first()
            } else {
                self.pool
            },
            reject_count: if self.pool.len() > 0 {
                self.reject_count
            } else {
                (self.reject_count + 1) as i64
            },
            ..self
        }
    }

    pub open spec fn finish_fits(self) -> bool {
        self.predictor.finish_fits(self.term_state(), self.config.inertion)
    }

    /// The current term is handed to the predictor.
    pub open spec fn after_finish(self) -> Self {
        InterpreterModel {
            predictor: self.predictor.finished(self.term_state(), self.config.inertion),
            ..self
        }
    }

    pub open spec fn recommendation(self) -> i64 {
        recommended(self.config, self.predictor).id_wildcard_recommended_count
    }

    /// How many more identifiers to lock so that the pool holds the recommended
    /// number; none when the recommendation is zero.
    pub open spec fn lock_request(self) -> u64 {
        let r = self.recommendation();
        if r == 0 {
            0
        } else if r < self.pool.len() {
            0
        } else {
            (r - self.pool.len()) as u64
        }
    }

    pub open spec fn advance_fits(self) -> bool {
        &&& self.term < u64::MAX
        &&& prepare_fits(self.config, self.predictor)
    }

    /// The next term starts: counters reset, the prediction is recorded, and the
    /// pool is emptied when the recommendation is zero.
    pub open spec fn after_advance(self) -> Self {
        InterpreterModel {
            term: (self.term + 1) as u64,
            query_count: 0,
            prediction_count: self.predictor.prediction().query_count,
            reject_count: 0,
            pool: if self.recommendation() == 0 {
                Seq::empty()
            } else {
                self.pool
            },
            ..self
        }
    }

    pub open spec fn debug_fits(self) -> bool {
        &&& self.finish_fits()
        &&& prepare_fits(self.config, self.after_finish().predictor)
        &&& prepare_fits(self.config, self.predictor)
    }

    /// The diagnostics of the current term, as if it were finished now.
    pub open spec fn debug_state(self) -> DebugState {
        let t = self.term_state();
        DebugState {
            term: self.term,
            prediction: t.query_prediction_count,
            actual: self.query_count,
            rejected: t.query_pending_count,
            id_remained: t.id_remained_count,
            id_recommended: self.after_finish().recommendation(),
            id_request: self.lock_request(),
        }
    }
}

/// Hands out identifiers to the queries of a shard, term by term, and decides
/// with its predictor how many identifiers to lock for the next term.
pub struct Interpreter<M> {
    predictor: Predictor<M>,
    predictor_state: PredictorState,
    current_term_id: u64,
    wildcard_ids: RangeSet,
    current_term_query_count: i64,
    current_term_query_reject_count: i64,
    current_term_query_prediction_count: i64,
}

impl<M: MakeAction> View for Interpreter<M> {
    type V = InterpreterModel<M>;

    closed spec fn view(&self) -> InterpreterModel<M> {
        InterpreterModel {
            config: self.predictor.config(),
            predictor: self.predictor_state@,
            term: self.current_term_id,
            pool: self.wildcard_ids.ids(),
            query_count: self.current_term_query_count,
            reject_count: self.current_term_query_reject_count,
            prediction_count: self.current_term_query_prediction_count,
        }
    }
}

impl<M: MakeAction> Interpreter<M> {
    pub closed spec fn wf(self) -> bool {
        self.wildcard_ids.wf()
    }

    /// A well-formed interpreter has a well-formed model.
    pub proof fn lemma_wf(self)
        requires
            self.wf(),
        ensures
            self@.wf(),
    {
    }

    /// An interpreter in term 0 with an empty pool and a fresh predictor.
    pub fn new(config: Config<M>) -> (r: Self)
        ensures
            r.wf(),
            r@ == InterpreterModel::initial(config),
    {
        Self {
            predictor: Predictor::new(config),
            predictor_state: PredictorState::default(),
            current_term_id: 0,
            wildcard_ids: RangeSet::new(),
            current_term_query_reject_count: 0,
            current_term_query_count: 0,
            current_term_query_prediction_count: 0,
        }
    }

    /// The term the interpreter is in.
    pub fn current_term(&self) -> (t: u64)
        ensures
            t == self@.term,
    {
        self.current_term_id
    }

    fn make_term_state(&self) -> (t: TermState)
        requires
            self.wf(),
        ensures
            t == self@.term_state(),
    {
        TermState {
            query_prediction_count: self.current_term_query_prediction_count,
            query_actual_count: self.current_term_query_count,
            query_pending_count: self.current_term_query_reject_count,
            id_remained_count: self.wildcard_ids.count() as i64,
        }
    }

    /// Adds the identifiers of a granted range to the pool.
    pub fn handle_lock_response(&mut self, range: Range)
        requires
            old(self).wf(),
            old(self)@.lock_response_fits(range),
        ensures
            final(self).wf(),
            final(self)@ == old(self)@.after_lock_response(range),
    {
        self.wildcard_ids.add(range);
    }

    /// Serves a query that arrived in term `term_id`: hands out the first
    /// identifier of the pool, or rejects the query when the pool is empty.
    pub fn handle_query(&mut self, term_id: u64) -> (r: Option<u64>)
        requires
            old(self).wf(),
            old(self)@.query_fits(term_id),
        ensures
            final(self).wf(),
            r == old(self)@.query_result(term_id),
            final(self)@ == old(self)@.after_query(term_id),
    {
        if term_id == self.current_term_id {
            self.current_term_query_count += 1;
        }
        let result = self.wildcard_ids.get();
        if result.is_none() {
            self.current_term_query_reject_count += 1;
        }
        result
    }

    /// Hands the current term over to the predictor.
    pub fn finish_term(&mut self)
        requires
            old(self).wf(),
            old(self)@.finish_fits(),
        ensures
            final(self).wf(),
            final(self)@ == old(self)@.after_finish(),
    {
        let state = self.make_term_state();
        self.predictor.finish_term(&mut self.predictor_state, state);
    }

    /// How many identifiers to lock so that the pool reaches the recommendation.
    pub fn create_lock_request(&self) -> (n: u64)
        requires
            self.wf(),
            prepare_fits(self@.config, self@.predictor),
        ensures
            n == self@.lock_request(),
    {
        let (_, action) = self.predictor.prepare_next_term(&self.predictor_state);
        let r_count = action.id_wildcard_recommended_count;
        let count = self.wildcard_ids.count();
        if r_count == 0 {
            0
        } else if r_count < count {
            0
        } else {
            (r_count - count) as u64
        }
    }

    /// Starts the next term; the pool is dropped when nothing is recommended.
    pub fn advance_term(&mut self)
        requires
            old(self).wf(),
            old(self)@.advance_fits(),
        ensures
            final(self).wf(),
            final(self)@ == old(self)@.after_advance(),
    {
        let (prediction, action) = self.predictor.prepare_next_term(&self.predictor_state);
        self.current_term_id += 1;
        self.current_term_query_count = 0;
        self.current_term_query_prediction_count = prediction.query_count;
        self.current_term_query_reject_count = 0;
        if action.id_wildcard_recommended_count == 0 {
            self.wildcard_ids.clear();
        }
    }

    /// Diagnostics of the current term, as if it were finished now.
    pub fn dump_state(&self) -> (d: DebugState)
        requires
            self.wf(),
            self@.debug_fits(),
        ensures
            d == self@.debug_state(),
    {
        let state = self.make_term_state();
        let mut predictor_state = self.predictor_state.clone();
        self.predictor.finish_term(&mut predictor_state, state);
        let (_, action) = self.predictor.prepare_next_term(&predictor_state);
        DebugState {
            term: self.current_term(),
            prediction: state.query_prediction_count,
            actual: self.current_term_query_count,
            rejected: state.query_pending_count,
            id_remained: state.id_remained_count,
            id_recommended: action.id_wildcard_recommended_count,
            id_request: self.create_lock_request(),
        }
    }
}

/// A granted lock request tops the pool up to the recommendation: with a
/// non-zero recommendation, the pool plus the requested identifiers holds
/// exactly the larger of the recommendation and what the pool held.
pub proof fn lemma_lock_request_tops_up<M: MakeAction>(m: InterpreterModel<M>, range: Range)
    requires
        m.recommendation() != 0,
        range.spec_count() == m.lock_request(),
    ensures
        m.after_lock_response(range).pool.len() == if m.recommendation() > m.pool.len() {
            m.recommendation() as int
        } else {
            m.pool.len() as int
        },
{
}

/// Identifiers are handed out first in, first out: after a range is granted
/// to an empty pool, the next query gets the range's first identifier.
pub proof fn lemma_first_granted_first_served<M: MakeAction>(m: InterpreterModel<M>, range: Range, term_id: u64)
    requires
        m.pool.len() == 0,
        range.spec_count() > 0,
    ensures
        m.after_lock_response(range).query_result(term_id) == Some(range.begin()),
        m.after_lock_response(range).after_query(term_id).pool == range.ids().drop_first(),
{
    assert(m.after_lock_response(range).pool =~= range.ids());
}

/// A range holds the identifiers from `begin` up to `end`, in order.
pub proof fn lemma_range_ids_law(r: Range)
    ensures
        r.ids().len() == if r.begin() < r.end() { r.end() - r.begin() } else { 0 },
        forall|k: int| 0 <= k < r.ids().len() ==> #[trigger] r.ids()[k] == r.begin() + k,
{
}

/// A granted range's identifiers are appended to the pool; nothing else changes.
pub proof fn lemma_lock_response_law<M: MakeAction>(m: InterpreterModel<M>, range: Range)
    ensures
        ({
            let n = m.after_lock_response(range);
            &&& n.pool.len() == m.pool.len() + range.ids().len()
            &&& forall|k: int| 0 <= k < m.pool.len() ==> #[trigger] n.pool[k] == m.pool[k]
            &&& forall|k: int|
                0 <= k < range.ids().len() ==> #[trigger] n.pool[m.pool.len() + k] == range.begin() + k
            &&& n.term == m.term && n.predictor == m.predictor && n.config == m.config
            &&& n.query_count == m.query_count && n.reject_count == m.reject_count
            &&& n.prediction_count == m.prediction_count
        }),
{
    let n = m.after_lock_response(range);
    assert forall|k: int| 0 <= k < range.ids().len() implies #[trigger] n.pool[m.pool.len() + k]
        == range.begin() + k by {
        assert(n.pool[m.pool.len() + k] == range.ids()[k]);
    }
}

/// Serving a query: it gets the first held identifier, which leaves the pool,
/// or, when none is held, nothing, and it counts as rejected; a query of the
/// current term is counted as seen.
pub proof fn lemma_query_law<M: MakeAction>(m: InterpreterModel<M>, term_id: u64)
    requires
        m.query_fits(term_id),
    ensures
        ({
            let n = m.after_query(term_id);
            let r = m.query_result(term_id);
            &&& m.pool.len() > 0 ==> {
                &&& r == Some(m.pool[0])
                &&& n.pool.len() == m.pool.len() - 1
                &&& forall|k: int| 0 <= k < n.pool.len() ==> #[trigger] n.pool[k] == m.pool[k + 1]
                &&& n.reject_count == m.reject_count
            }
            &&& m.pool.len() == 0 ==> r is None && n.pool.len() == 0 && n.reject_count == m.reject_count + 1
            &&& n.query_count == m.query_count + if term_id == m.term { 1int } else { 0int }
            &&& n.term == m.term && n.predictor == m.predictor && n.config == m.config
            &&& n.prediction_count == m.prediction_count
        }),
{
}

/// Finishing a term hands the predictor the term's prediction, seen and
/// rejected queries and the number of held identifiers; nothing else changes.
pub proof fn lemma_finish_term_law<M: MakeAction>(m: InterpreterModel<M>)
    ensures
        ({
            let n = m.after_finish();
            let t = TermState {
                query_prediction_count: m.prediction_count,
                query_actual_count: m.query_count,
                query_pending_count: m.reject_count,
                id_remained_count: m.pool.len() as i64,
            };
            &&& n.predictor == m.predictor.finished(t, m.config.inertion)
            &&& n.pool == m.pool && n.term == m.term && n.config == m.config
            &&& n.query_count == m.query_count && n.reject_count == m.reject_count
            &&& n.prediction_count == m.prediction_count
        }),
{
}

/// The lock request is what the recommendation exceeds the held identifiers by,
/// and 0 when it does not exceed them.
pub proof fn lemma_lock_request_law<M: MakeAction>(m: InterpreterModel<M>)
    ensures
        ({
            let r = recommended(m.config, m.predictor).id_wildcard_recommended_count as int;
            m.lock_request() as int == if r > m.pool.len() { r - m.pool.len() } else { 0 }
        }),
{
}

/// Starting the next term: the term number grows by one, the counters restart
/// at zero, the predicted query count (mean plus mean absolute deviation) is
/// recorded, and the held identifiers are kept unless the recommendation is
/// zero, in which case they are all dropped.
pub proof fn lemma_advance_law<M: MakeAction>(m: InterpreterModel<M>)
    requires
        m.advance_fits(),
    ensures
        ({
            let n = m.after_advance();
            let r = recommended(m.config, m.predictor).id_wildcard_recommended_count;
            &&& n.term == m.term + 1
            &&& n.query_count == 0 && n.reject_count == 0
            &&& n.prediction_count == m.predictor.stats.mean + m.predictor.stats.MAD
            &&& r != 0 ==> n.pool == m.pool
            &&& r == 0 ==> n.pool.len() == 0
            &&& n.predictor == m.predictor && n.config == m.config
        }),
{
}

/// The diagnostics of a term: its number, the recorded prediction, the queries
/// seen and rejected, the held identifiers, what the rule would recommend once
/// the term is finished, and the current lock request.
pub proof fn lemma_debug_state_law<M: MakeAction>(m: InterpreterModel<M>)
    ensures
        ({
            let d = m.debug_state();
            let t = TermState {
                query_prediction_count: m.prediction_count,
                query_actual_count: m.query_count,
                query_pending_count: m.reject_count,
                id_remained_count: m.pool.len() as i64,
            };
            &&& d.term == m.term
            &&& d.prediction == m.prediction_count
            &&& d.actual == m.query_count
            &&& d.rejected == m.reject_count
            &&& d.id_remained == m.pool.len() as i64
            &&& d.id_recommended == recommended(
                m.config,
                m.predictor.finished(t, m.config.inertion),
            ).id_wildcard_recommended_count
            &&& d.id_request == m.lock_request()
        }),
{
}

/// A fresh interpreter is in term 0 with no identifiers, all counters at zero
/// and a predictor whose history is 10 terms with all counts zero, with zero
/// statistics and a zero maximum.
pub proof fn lemma_initial_interpreter_law<M: MakeAction>(config: Config<M>)
    ensures
        ({
            let m = InterpreterModel::initial(config);
            &&& m.config == config
            &&& m.term == 0 && m.pool.len() == 0
            &&& m.query_count == 0 && m.reject_count == 0 && m.prediction_count == 0
            &&& m.predictor.term.len() == 10
            &&& forall|k: int| 0 <= k < 10 ==> {
                let t = #[trigger] m.predictor.term[k];
                &&& t.query_prediction_count == 0 && t.query_actual_count == 0
                &&& t.query_pending_count == 0 && t.id_remained_count == 0
            }
            &&& m.predictor.stats.mean == 0 && m.predictor.stats.MAD == 0 && m.predictor.stats.MSD == 0
            &&& m.predictor.max == 0
        }),
{
}

} // verus!
