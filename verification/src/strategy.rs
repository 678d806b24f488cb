use vstd::prelude::*;
use crate::predictor::{
    max_i64, rule_bounded, term_within, Action, MakeAction, Prediction, PredictorModel,
    PredictorState, COUNT_BOUND, HISTORY_LEN,
};

verus! {

/// `x` is a value of `i64`.
pub open spec fn fits_i64(x: int) -> bool {
    i64::MIN <= x <= i64::MAX
}

/// The larger of the prediction and the queries actually seen in the last term.
pub open spec fn smart_actual(state: PredictorModel, pred: Prediction) -> i64 {
    max_i64(pred.query_count, state.last_term().query_actual_count)
}

fn last_term_actual_or_predicted(state: &PredictorState, pred: Prediction) -> (d: i64)
    ensures
        d == smart_actual(state@, pred),
{
    let query_count = state.term[HISTORY_LEN - 1].query_actual_count;
    if pred.query_count >= query_count {
        pred.query_count
    } else {
        query_count
    }
}

/// Twice the prediction plus the larger of prediction and last actual count.
#[derive(Default, Clone, Copy, Debug)]
pub struct PredictedPredictedSmartActual {}

impl MakeAction for PredictedPredictedSmartActual {
    open spec fn admits(&self, state: PredictorModel, pred: Prediction) -> bool {
        &&& fits_i64(pred.query_count * 2)
        &&& fits_i64(pred.query_count * 2 + smart_actual(state, pred))
    }

    open spec fn action_of(&self, state: PredictorModel, pred: Prediction) -> Action {
        Action {
            id_wildcard_recommended_count: (pred.query_count * 2 + smart_actual(state, pred)) as i64,
        }
    }

    fn make(&self, state: &PredictorState, pred: Prediction) -> (a: Action) {
        let delta = last_term_actual_or_predicted(state, pred);
        Action { id_wildcard_recommended_count: pred.query_count * 2 + delta }
    }
}

/// The prediction plus twice the larger of prediction and last actual count.
#[derive(Default, Clone, Copy, Debug)]
pub struct PredictedSmartActualSmartActual {}

impl MakeAction for PredictedSmartActualSmartActual {
    open spec fn admits(&self, state: PredictorModel, pred: Prediction) -> bool {
        &&& fits_i64(2 * smart_actual(state, pred))
        &&& fits_i64(pred.query_count + 2 * smart_actual(state, pred))
    }

    open spec fn action_of(&self, state: PredictorModel, pred: Prediction) -> Action {
        Action {
            id_wildcard_recommended_count: (pred.query_count + 2 * smart_actual(state, pred)) as i64,
        }
    }

    fn make(&self, state: &PredictorState, pred: Prediction) -> (a: Action) {
        let delta = last_term_actual_or_predicted(state, pred);
        Action { id_wildcard_recommended_count: pred.query_count + 2 * delta }
    }
}

/// The inner rule's recommendation, or the number of rejected queries of the
/// last term where the inner rule recommends nothing.
#[derive(Default, Clone, Copy, Debug)]
pub struct OrRejected<M> {
    make_action: M,
}

impl<M: MakeAction + Copy> OrRejected<M> {
    pub closed spec fn inner(self) -> M {
        self.make_action
    }

    /// Wraps `make_action`.
    pub fn new(make_action: M) -> (r: Self)
        ensures
            r.inner() == make_action,
    {
        Self { make_action: make_action }
    }
}

impl<M: MakeAction + Copy> MakeAction for OrRejected<M> {
    open spec fn admits(&self, state: PredictorModel, pred: Prediction) -> bool {
        self.inner().admits(state, pred)
    }

    open spec fn action_of(&self, state: PredictorModel, pred: Prediction) -> Action {
        let a = self.inner().action_of(state, pred);
        if a.id_wildcard_recommended_count == 0 {
            Action { id_wildcard_recommended_count: state.last_term().query_pending_count }
        } else {
            a
        }
    }

    fn make(&self, state: &PredictorState, pred: Prediction) -> (a: Action) {
        let action = self.make_action.make(state, pred);
        if action.id_wildcard_recommended_count == 0 {
            Action {
                id_wildcard_recommended_count: state.term[HISTORY_LEN - 1].query_pending_count,
            }
        } else {
            action
        }
    }
}

/// Rejected queries, plus the prediction, plus twice the larger of prediction
/// and last actual count.
#[derive(Default, Clone, Copy, Debug)]
pub struct RejectedPredictedSmartActualSmartActual {}

impl MakeAction for RejectedPredictedSmartActualSmartActual {
    open spec fn admits(&self, state: PredictorModel, pred: Prediction) -> bool {
        let t = state.last_term();
        &&& fits_i64(t.query_pending_count + pred.query_count)
        &&& fits_i64(2 * smart_actual(state, pred))
        &&& fits_i64(t.query_pending_count + pred.query_count + 2 * smart_actual(state, pred))
    }

    open spec fn action_of(&self, state: PredictorModel, pred: Prediction) -> Action {
        let t = state.last_term();
        Action {
            id_wildcard_recommended_count: (t.query_pending_count + pred.query_count + 2
                * smart_actual(state, pred)) as i64,
        }
    }

    fn make(&self, state: &PredictorState, pred: Prediction) -> (a: Action) {
        let term = state.term[HISTORY_LEN - 1];
        let delta = last_term_actual_or_predicted(state, pred);
        Action {
            id_wildcard_recommended_count: term.query_pending_count + pred.query_count + 2 * delta,
        }
    }
}

/// Rejected queries plus the prediction.
#[derive(Default, Clone, Copy, Debug)]
pub struct RejectedPredicted {}

impl MakeAction for RejectedPredicted {
    open spec fn admits(&self, state: PredictorModel, pred: Prediction) -> bool {
        fits_i64(state.last_term().query_pending_count + pred.query_count)
    }

    open spec fn action_of(&self, state: PredictorModel, pred: Prediction) -> Action {
        Action {
            id_wildcard_recommended_count: (state.last_term().query_pending_count
                + pred.query_count) as i64,
        }
    }

    fn make(&self, state: &PredictorState, pred: Prediction) -> (a: Action) {
        let term = state.term[HISTORY_LEN - 1];
        Action { id_wildcard_recommended_count: term.query_pending_count + pred.query_count }
    }
}

/// Rejected queries, plus the prediction, plus the larger of prediction and
/// last actual count.
#[derive(Default, Clone, Copy, Debug)]
pub struct RejectedPredictedSmartActual {}

impl MakeAction for RejectedPredictedSmartActual {
    open spec fn admits(&self, state: PredictorModel, pred: Prediction) -> bool {
        let t = state.last_term();
        &&& fits_i64(t.query_pending_count + pred.query_count)
        &&& fits_i64(t.query_pending_count + pred.query_count + smart_actual(state, pred))
    }

    open spec fn action_of(&self, state: PredictorModel, pred: Prediction) -> Action {
        let t = state.last_term();
        Action {
            id_wildcard_recommended_count: (t.query_pending_count + pred.query_count
                + smart_actual(state, pred)) as i64,
        }
    }

    fn make(&self, state: &PredictorState, pred: Prediction) -> (a: Action) {
        let term = state.term[HISTORY_LEN - 1];
        let delta = last_term_actual_or_predicted(state, pred);
        Action {
            id_wildcard_recommended_count: term.query_pending_count + pred.query_count + delta,
        }
    }
}

/// Rejected queries, plus the prediction, plus the last actual count.
#[derive(Default, Clone, Copy, Debug)]
pub struct RejectedPredictedActual {}

impl MakeAction for RejectedPredictedActual {
    open spec fn admits(&self, state: PredictorModel, pred: Prediction) -> bool {
        let t = state.last_term();
        &&& fits_i64(t.query_pending_count + pred.query_count)
        &&& fits_i64(t.query_pending_count + pred.query_count + t.query_actual_count)
    }

    open spec fn action_of(&self, state: PredictorModel, pred: Prediction) -> Action {
        let t = state.last_term();
        Action {
            id_wildcard_recommended_count: (t.query_pending_count + pred.query_count
                + t.query_actual_count) as i64,
        }
    }

    fn make(&self, state: &PredictorState, pred: Prediction) -> (a: Action) {
        let term = state.term[HISTORY_LEN - 1];
        Action {
            id_wildcard_recommended_count: term.query_pending_count + pred.query_count
                + term.query_actual_count,
        }
    }
}

/// Rejected queries plus the last actual count.
#[derive(Default, Clone, Copy, Debug)]
pub struct RejectedActual {}

impl MakeAction for RejectedActual {
    open spec fn admits(&self, state: PredictorModel, pred: Prediction) -> bool {
        let t = state.last_term();
        fits_i64(t.query_pending_count + t.query_actual_count)
    }

    open spec fn action_of(&self, state: PredictorModel, pred: Prediction) -> Action {
        let t = state.last_term();
        Action {
            id_wildcard_recommended_count: (t.query_pending_count + t.query_actual_count) as i64,
        }
    }

    fn make(&self, state: &PredictorState, _pred: Prediction) -> (a: Action) {
        let term = state.term[HISTORY_LEN - 1];
        Action {
            id_wildcard_recommended_count: term.query_pending_count + term.query_actual_count,
        }
    }
}

/// The rejected queries of the last term.
#[derive(Default, Clone, Copy, Debug)]
pub struct Rejected {}

impl MakeAction for Rejected {
    open spec fn admits(&self, state: PredictorModel, pred: Prediction) -> bool {
        true
    }

    open spec fn action_of(&self, state: PredictorModel, pred: Prediction) -> Action {
        Action { id_wildcard_recommended_count: state.last_term().query_pending_count }
    }

    fn make(&self, state: &PredictorState, _pred: Prediction) -> (a: Action) {
        let term = state.term[HISTORY_LEN - 1];
        Action { id_wildcard_recommended_count: term.query_pending_count }
    }
}

/// The larger of the decaying maximum and three times the prediction.
#[derive(Default, Clone, Copy, Debug)]
pub struct MeldMax3Predicted {}

impl MakeAction for MeldMax3Predicted {
    open spec fn admits(&self, state: PredictorModel, pred: Prediction) -> bool {
        fits_i64(3 * pred.query_count)
    }

    open spec fn action_of(&self, state: PredictorModel, pred: Prediction) -> Action {
        Action {
            id_wildcard_recommended_count: max_i64(state.max, (3 * pred.query_count) as i64),
        }
    }

    fn make(&self, state: &PredictorState, pred: Prediction) -> (a: Action) {
        let m = state.max.get();
        let p = 3 * pred.query_count;
        Action { id_wildcard_recommended_count: if m >= p { m } else { p } }
    }
}

/// Largest value whose square root `ceil_sqrt` handles: `2^52`.
pub const SQRT_DOMAIN_MAX: i64 = 0x10_0000_0000_0000;

/// `r` is the square root of `x` rounded up: the least non-negative `r` with `r * r >= x`.
pub open spec fn is_ceil_sqrt(x: int, r: int) -> bool {
    &&& r >= 0
    &&& r * r >= x
    &&& (r == 0 || (r - 1) * (r - 1) < x)
}

/// The square root of `x` rounded up (0 for `x <= 0`).
pub open spec fn ceil_sqrt(x: int) -> int {
    choose|r: int| is_ceil_sqrt(x, r)
}

proof fn lemma_ceil_sqrt_unique(x: int, r: int)
    requires
        is_ceil_sqrt(x, r),
    ensures
        ceil_sqrt(x) == r,
{
    let c = ceil_sqrt(x);
    assert(is_ceil_sqrt(x, c));
    if c < r {
        assert(c * c <= (r - 1) * (r - 1)) by (nonlinear_arith)
            requires
                0 <= c <= r - 1,
        ;
    } else if c > r {
        assert(r * r <= (c - 1) * (c - 1)) by (nonlinear_arith)
            requires
                0 <= r <= c - 1,
        ;
    }
}

/// The square root of `x` rounded up, for `x` at most `SQRT_DOMAIN_MAX`.
fn ceil_sqrt_i64(x: i64) -> (r: i64)
    requires
        x <= SQRT_DOMAIN_MAX,
    ensures
        r == ceil_sqrt(x as int),
        0 <= r <= 0x400_0000,
{
    if x <= 0 {
        proof {
            lemma_ceil_sqrt_unique(x as int, 0);
        }
        return 0;
    }
    let mut lo: i64 = 0;
    let mut hi: i64 = 0x400_0000;
    assert(hi * hi == SQRT_DOMAIN_MAX);
    while hi - lo > 1
        invariant
            0 <= lo < hi <= 0x400_0000,
            lo * lo < x,
            x <= hi * hi,
        decreases hi - lo,
    {
        let mid = lo + (hi - lo) / 2;
        assert(0 <= mid * mid <= 0x400_0000 * 0x400_0000) by (nonlinear_arith)
            requires
                0 <= mid <= 0x400_0000,
        ;
        if mid * mid >= x {
            hi = mid;
        } else {
            lo = mid;
        }
    }
    proof {
        lemma_ceil_sqrt_unique(x as int, hi as int);
    }
    hi
}

/// The larger of the decaying maximum and the mean plus three rounded-up root
/// mean squared deviations.
#[derive(Default, Clone, Copy, Debug)]
pub struct MeldMax3Sigma {}

impl MakeAction for MeldMax3Sigma {
    open spec fn admits(&self, state: PredictorModel, pred: Prediction) -> bool {
        &&& state.stats.MSD <= SQRT_DOMAIN_MAX
        &&& fits_i64(state.stats.mean + 3 * ceil_sqrt(state.stats.MSD as int))
    }

    open spec fn action_of(&self, state: PredictorModel, pred: Prediction) -> Action {
        let p = (state.stats.mean + 3 * ceil_sqrt(state.stats.MSD as int)) as i64;
        Action { id_wildcard_recommended_count: max_i64(state.max, p) }
    }

    fn make(&self, state: &PredictorState, _pred: Prediction) -> (a: Action) {
        let rmse = ceil_sqrt_i64(state.stats.MSD);
        let m = state.max.get();
        let p = state.stats.mean + 3 * rmse;
        Action { id_wildcard_recommended_count: if m >= p { m } else { p } }
    }
}

/// The larger of the decaying maximum and three times the mean plus three
/// rounded-up root mean squared deviations.
#[derive(Default, Clone, Copy, Debug)]
pub struct MeldMax3MaxPredicted {}

impl MakeAction for MeldMax3MaxPredicted {
    open spec fn admits(&self, state: PredictorModel, pred: Prediction) -> bool {
        &&& state.stats.MSD <= SQRT_DOMAIN_MAX
        &&& fits_i64(state.stats.mean + 3 * ceil_sqrt(state.stats.MSD as int))
        &&& fits_i64(3 * (state.stats.mean + 3 * ceil_sqrt(state.stats.MSD as int)))
    }

    open spec fn action_of(&self, state: PredictorModel, pred: Prediction) -> Action {
        let p = state.stats.mean + 3 * ceil_sqrt(state.stats.MSD as int);
        Action { id_wildcard_recommended_count: max_i64(state.max, (3 * p) as i64) }
    }

    fn make(&self, state: &PredictorState, _pred: Prediction) -> (a: Action) {
        let rmse = ceil_sqrt_i64(state.stats.MSD);
        let m = state.max.get();
        let p = state.stats.mean + 3 * rmse;
        let p3 = 3 * p;
        Action { id_wildcard_recommended_count: if m >= p3 { m } else { p3 } }
    }
}

/// The rules that meld a maximum never recommend less than it.
pub proof fn lemma_meld_rules_keep_max(state: PredictorModel, pred: Prediction)
    ensures
        (MeldMax3Predicted {}).action_of(state, pred).id_wildcard_recommended_count >= state.max,
        (MeldMax3Sigma {}).action_of(state, pred).id_wildcard_recommended_count >= state.max,
        (MeldMax3MaxPredicted {}).action_of(state, pred).id_wildcard_recommended_count >= state.max,
{
}

/// Wrapped in `OrRejected`, a rule recommends zero only when it recommends
/// zero itself and the last term rejected no query; a non-zero
/// recommendation of the rule is kept.
pub proof fn lemma_or_rejected<M: MakeAction + Copy>(rule: OrRejected<M>, state: PredictorModel, pred: Prediction)
    ensures
        rule.inner().action_of(state, pred).id_wildcard_recommended_count != 0 ==> rule.action_of(state, pred)
            == rule.inner().action_of(state, pred),
        rule.action_of(state, pred).id_wildcard_recommended_count == 0 <==> (rule.inner().action_of(
            state,
            pred,
        ).id_wildcard_recommended_count == 0 && state.last_term().query_pending_count == 0),
{
}

proof fn lemma_ceil_sqrt_witness(x: int, r: int)
    requires
        0 <= r,
        x <= r * r,
    ensures
        0 <= ceil_sqrt(x) <= r,
        is_ceil_sqrt(x, ceil_sqrt(x)),
    decreases r,
{
    if r == 0 || (r - 1) * (r - 1) < x {
        assert(is_ceil_sqrt(x, r));
        lemma_ceil_sqrt_unique(x, r);
    } else {
        lemma_ceil_sqrt_witness(x, r - 1);
    }
}

/// The last term of a history within `b` queries has its counts within `b`.
proof fn lemma_last_within(st: PredictorModel, b: int)
    requires
        st.within(b),
    ensures
        term_within(st.last_term(), b),
{
    assert(st.last_term() == st.term[HISTORY_LEN - 1]);
}

/// Every rule of this module recommends, for states within `b` queries, between
/// 0 and `ACTION_FACTOR * b` identifiers, without overflow.
pub proof fn lemma_rules_bounded(b: int)
    requires
        0 <= b <= COUNT_BOUND,
    ensures
        rule_bounded(PredictedPredictedSmartActual {}, b),
        rule_bounded(PredictedSmartActualSmartActual {}, b),
        rule_bounded(RejectedPredictedSmartActualSmartActual {}, b),
        rule_bounded(RejectedPredicted {}, b),
        rule_bounded(RejectedPredictedSmartActual {}, b),
        rule_bounded(RejectedPredictedActual {}, b),
        rule_bounded(RejectedActual {}, b),
        rule_bounded(Rejected {}, b),
        rule_bounded(MeldMax3Predicted {}, b),
        rule_bounded(MeldMax3Sigma {}, b),
        rule_bounded(MeldMax3MaxPredicted {}, b),
{
    assert forall|st: PredictorModel, p: Prediction| st.within(b) && 0 <= p.query_count <= 2 * b implies {
        &&& #[trigger] (PredictedPredictedSmartActual {}).admits(st, p)
        &&& 0 <= (PredictedPredictedSmartActual {}).action_of(st, p).id_wildcard_recommended_count <= 16 * b
    } by {
        lemma_last_within(st, b);
    }
    assert forall|st: PredictorModel, p: Prediction| st.within(b) && 0 <= p.query_count <= 2 * b implies {
        &&& #[trigger] (PredictedSmartActualSmartActual {}).admits(st, p)
        &&& 0 <= (PredictedSmartActualSmartActual {}).action_of(st, p).id_wildcard_recommended_count <= 16 * b
    } by {
        lemma_last_within(st, b);
    }
    assert forall|st: PredictorModel, p: Prediction| st.within(b) && 0 <= p.query_count <= 2 * b implies {
        &&& #[trigger] (RejectedPredictedSmartActualSmartActual {}).admits(st, p)
        &&& 0 <= (RejectedPredictedSmartActualSmartActual {}).action_of(st, p).id_wildcard_recommended_count <= 16 * b
    } by {
        lemma_last_within(st, b);
    }
    assert forall|st: PredictorModel, p: Prediction| st.within(b) && 0 <= p.query_count <= 2 * b implies {
        &&& #[trigger] (RejectedPredicted {}).admits(st, p)
        &&& 0 <= (RejectedPredicted {}).action_of(st, p).id_wildcard_recommended_count <= 16 * b
    } by {
        lemma_last_within(st, b);
    }
    assert forall|st: PredictorModel, p: Prediction| st.within(b) && 0 <= p.query_count <= 2 * b implies {
        &&& #[trigger] (RejectedPredictedSmartActual {}).admits(st, p)
        &&& 0 <= (RejectedPredictedSmartActual {}).action_of(st, p).id_wildcard_recommended_count <= 16 * b
    } by {
        lemma_last_within(st, b);
    }
    assert forall|st: PredictorModel, p: Prediction| st.within(b) && 0 <= p.query_count <= 2 * b implies {
        &&& #[trigger] (RejectedPredictedActual {}).admits(st, p)
        &&& 0 <= (RejectedPredictedActual {}).action_of(st, p).id_wildcard_recommended_count <= 16 * b
    } by {
        lemma_last_within(st, b);
    }
    assert forall|st: PredictorModel, p: Prediction| st.within(b) && 0 <= p.query_count <= 2 * b implies {
        &&& #[trigger] (RejectedActual {}).admits(st, p)
        &&& 0 <= (RejectedActual {}).action_of(st, p).id_wildcard_recommended_count <= 16 * b
    } by {
        lemma_last_within(st, b);
    }
    assert forall|st: PredictorModel, p: Prediction| st.within(b) && 0 <= p.query_count <= 2 * b implies {
        &&& #[trigger] (Rejected {}).admits(st, p)
        &&& 0 <= (Rejected {}).action_of(st, p).id_wildcard_recommended_count <= 16 * b
    } by {
        lemma_last_within(st, b);
    }
    assert forall|st: PredictorModel, p: Prediction| st.within(b) && 0 <= p.query_count <= 2 * b implies {
        &&& #[trigger] (MeldMax3Predicted {}).admits(st, p)
        &&& 0 <= (MeldMax3Predicted {}).action_of(st, p).id_wildcard_recommended_count <= 16 * b
    } by {
        lemma_last_within(st, b);
    }
    assert forall|st: PredictorModel, p: Prediction| st.within(b) && 0 <= p.query_count <= 2 * b implies {
        &&& #[trigger] (MeldMax3Sigma {}).admits(st, p)
        &&& 0 <= (MeldMax3Sigma {}).action_of(st, p).id_wildcard_recommended_count <= 16 * b
    } by {
        lemma_last_within(st, b);
        assert(b * b <= 0x10_0000 * 0x10_0000) by (nonlinear_arith)
            requires
                0 <= b <= 0x10_0000,
        ;
        lemma_ceil_sqrt_witness(st.stats.MSD as int, b);
    }
    assert forall|st: PredictorModel, p: Prediction| st.within(b) && 0 <= p.query_count <= 2 * b implies {
        &&& #[trigger] (MeldMax3MaxPredicted {}).admits(st, p)
        &&& 0 <= (MeldMax3MaxPredicted {}).action_of(st, p).id_wildcard_recommended_count <= 16 * b
    } by {
        lemma_last_within(st, b);
        assert(b * b <= 0x10_0000 * 0x10_0000) by (nonlinear_arith)
            requires
                0 <= b <= 0x10_0000,
        ;
        lemma_ceil_sqrt_witness(st.stats.MSD as int, b);
    }
}

/// Wrapping a bounded rule in `OrRejected` keeps it bounded.
pub proof fn lemma_or_rejected_bounded<M: MakeAction + Copy>(rule: OrRejected<M>, b: int)
    requires
        0 <= b,
        rule_bounded(rule.inner(), b),
    ensures
        rule_bounded(rule, b),
{
    assert forall|st: PredictorModel, p: Prediction| st.within(b) && 0 <= p.query_count <= 2 * b implies {
        &&& #[trigger] rule.admits(st, p)
        &&& 0 <= rule.action_of(st, p).id_wildcard_recommended_count <= 16 * b
    } by {
        lemma_last_within(st, b);
        assert(rule.inner().admits(st, p));
    }
}

/// What each rule recommends, from the last term's seen (`a`) and rejected
/// (`j`) query counts, the prediction `p`, the larger `big` of `p` and `a`,
/// the decaying maximum, and the statistics.
pub proof fn lemma_rule_formulas(state: PredictorModel, pred: Prediction)
    ensures
        ({
            let a = state.term.last().query_actual_count as int;
            let j = state.term.last().query_pending_count as int;
            let p = pred.query_count as int;
            let big = if p >= a { p } else { a };
            let m = state.max as int;
            &&& (PredictedPredictedSmartActual {}).admits(state, pred) ==> (PredictedPredictedSmartActual {}).action_of(
                state,
                pred,
            ).id_wildcard_recommended_count == p * 2 + big
            &&& (PredictedSmartActualSmartActual {}).admits(state, pred) ==> (PredictedSmartActualSmartActual {}).action_of(
                state,
                pred,
            ).id_wildcard_recommended_count == p + 2 * big
            &&& (RejectedPredictedSmartActualSmartActual {}).admits(state, pred) ==> (
            RejectedPredictedSmartActualSmartActual {}).action_of(state, pred).id_wildcard_recommended_count
                == j + p + 2 * big
            &&& (RejectedPredicted {}).admits(state, pred) ==> (RejectedPredicted {}).action_of(
                state,
                pred,
            ).id_wildcard_recommended_count == j + p
            &&& (RejectedPredictedSmartActual {}).admits(state, pred) ==> (RejectedPredictedSmartActual {}).action_of(
                state,
                pred,
            ).id_wildcard_recommended_count == j + p + big
            &&& (RejectedPredictedActual {}).admits(state, pred) ==> (RejectedPredictedActual {}).action_of(
                state,
                pred,
            ).id_wildcard_recommended_count == j + p + a
            &&& (RejectedActual {}).admits(state, pred) ==> (RejectedActual {}).action_of(
                state,
                pred,
            ).id_wildcard_recommended_count == j + a
            &&& (Rejected {}).action_of(state, pred).id_wildcard_recommended_count == j
            &&& (MeldMax3Predicted {}).admits(state, pred) ==> (MeldMax3Predicted {}).action_of(
                state,
                pred,
            ).id_wildcard_recommended_count == if m >= 3 * p { m } else { 3 * p }
        }),
{
}

/// The sigma rules: with `r` the least non-negative number whose square
/// reaches the mean squared deviation, `MeldMax3Sigma` recommends the larger of
/// the decaying maximum and `mean + 3 * r`, and `MeldMax3MaxPredicted` the
/// larger of the maximum and three times that.
pub proof fn lemma_sigma_rule_formulas(state: PredictorModel, pred: Prediction, r: int)
    requires
        r >= 0,
        r * r >= state.stats.MSD,
        r == 0 || (r - 1) * (r - 1) < state.stats.MSD,
    ensures
        ({
            let m = state.max as int;
            let q = state.stats.mean + 3 * r;
            &&& (MeldMax3Sigma {}).admits(state, pred) ==> (MeldMax3Sigma {}).action_of(
                state,
                pred,
            ).id_wildcard_recommended_count == if m >= q { m } else { q }
            &&& (MeldMax3MaxPredicted {}).admits(state, pred) ==> (MeldMax3MaxPredicted {}).action_of(
                state,
                pred,
            ).id_wildcard_recommended_count == if m >= 3 * q { m } else { 3 * q }
        }),
{
    lemma_ceil_sqrt_unique(state.stats.MSD as int, r);
}

} // verus!
