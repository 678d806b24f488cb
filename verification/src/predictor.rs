use vstd::prelude::*;
use crate::text::{decimal, push_decimal_i64};

verus! {

/// Number of finished terms that the predictor remembers.
pub const HISTORY_LEN: usize = 10;

/// Rust's integer division, which rounds toward zero.
pub open spec fn trunc_div(a: int, b: int) -> int {
    if a >= 0 {
        if b > 0 {
            a / b
        } else {
            -(a / (-b))
        }
    } else {
        if b > 0 {
            -((-a) / b)
        } else {
            (-a) / (-b)
        }
    }
}

/// Division that rounds up, for a non-negative dividend and a positive divisor.
pub open spec fn ceil_div(a: int, b: int) -> int {
    (a + b - 1) / b
}

/// Factor `numerator / denominator` by which the remembered maximum decays each term.
#[derive(Clone, Copy, Debug)]
pub struct Inertion {
    numerator: i64,
    denominator: i64,
}

#[derive(Debug, PartialEq, Eq)]
pub enum InertionError {
    ZeroDenominator,
}

impl Inertion {
    #[verifier::type_invariant]
    spec fn nonzero_denominator(self) -> bool {
        self.denominator != 0
    }

    pub closed spec fn numerator(self) -> i64 {
        self.numerator
    }

    pub closed spec fn denominator(self) -> i64 {
        self.denominator
    }

    /// The inertion `num / den`; refused when `den` is zero.
    pub fn new(num: i64, den: i64) -> (r: Result<Self, InertionError>)
        ensures
            den == 0 <==> r is Err,
            r matches Err(e) ==> e == InertionError::ZeroDenominator,
            r matches Ok(i) ==> i.numerator() == num && i.denominator() == den,
    {
        if den == 0 {
            Err(InertionError::ZeroDenominator)
        } else {
            Ok(Self { numerator: num, denominator: den })
        }
    }

    /// The inertion as text: numerator, `/`, denominator, in decimal.
    pub fn to_string(&self) -> (r: String)
        ensures
            r@ == decimal(self.numerator() as int) + seq!['/'] + decimal(self.denominator() as int),
    {
        let mut out = String::new();
        push_decimal_i64(&mut out, self.numerator);
        proof {
            reveal_strlit("/");
        }
        out.append("/");
        push_decimal_i64(&mut out, self.denominator);
        assert(out@ =~= decimal(self.numerator() as int) + seq!['/'] + decimal(
            self.denominator() as int,
        ));
        out
    }
}

/// What one interpreter observed during one term.
#[derive(Clone, Copy, Debug, PartialEq, Eq)]
pub struct TermState {
    pub query_prediction_count: i64,
    pub query_actual_count: i64,
    pub query_pending_count: i64,
    pub id_remained_count: i64,
}

impl TermState {
    pub open spec fn zero() -> TermState {
        TermState {
            query_prediction_count: 0,
            query_actual_count: 0,
            query_pending_count: 0,
            id_remained_count: 0,
        }
    }
}

impl Default for TermState {
    fn default() -> (r: Self)
        ensures
            r == TermState::zero(),
    {
        TermState {
            query_prediction_count: 0,
            query_actual_count: 0,
            query_pending_count: 0,
            id_remained_count: 0,
        }
    }
}

/// How many identifiers a strategy recommends to hold for the next term.
#[derive(Clone, Copy, Debug, PartialEq, Eq)]
pub struct Action {
    pub id_wildcard_recommended_count: i64,
}

/// How many queries are expected in the next term.
#[derive(Clone, Copy, Debug, PartialEq, Eq)]
pub struct Prediction {
    pub query_count: i64,
}

impl<T: Into<i64>> From<T> for Prediction {
    fn from(value: T) -> (r: Prediction) {
        Prediction { query_count: value.into() }
    }
}

impl<T: Into<i64>> vstd::std_specs::convert::FromSpecImpl<T> for Prediction {
    open spec fn obeys_from_spec() -> bool {
        <T as vstd::std_specs::convert::IntoSpec<i64>>::obeys_into_spec()
    }

    open spec fn from_spec(v: T) -> Prediction {
        Prediction { query_count: <T as vstd::std_specs::convert::IntoSpec<i64>>::into_spec(v) }
    }
}


/// Contribution of one term to a statistic around `center`: terms without
/// queries contribute nothing; otherwise order 0 gives the query count, order 1
/// its distance from `center` and order 2 the square of that distance.
pub open spec fn term_weight(t: TermState, center: int, order: nat) -> int {
    if t.query_actual_count > 0 {
        let v = t.query_actual_count as int;
        if order == 0 {
            v
        } else if order == 1 {
            if v >= center { v - center } else { center - v }
        } else {
            (v - center) * (v - center)
        }
    } else {
        0
    }
}

/// Sum of `term_weight` over a sequence of terms.
pub open spec fn weight_sum(s: Seq<TermState>, center: int, order: nat) -> int
    decreases s.len(),
{
    if s.len() == 0 {
        0
    } else {
        weight_sum(s.drop_last(), center, order) + term_weight(s.last(), center, order)
    }
}

/// Number of terms that saw at least one query.
pub open spec fn active_count(s: Seq<TermState>) -> int
    decreases s.len(),
{
    if s.len() == 0 {
        0
    } else {
        active_count(s.drop_last()) + if s.last().query_actual_count > 0 { 1int } else { 0int }
    }
}

/// The divisor of the averages: the number of active terms, and 1 when there is none.
pub open spec fn active_divisor(s: Seq<TermState>) -> int {
    if active_count(s) > 0 {
        active_count(s)
    } else {
        1
    }
}

/// Mean of the query counts of the active terms, rounded up.
pub open spec fn stats_mean(s: Seq<TermState>) -> int {
    ceil_div(weight_sum(s, 0, 0), active_divisor(s))
}

/// Mean absolute deviation from `stats_mean`, rounded up.
pub open spec fn stats_mad(s: Seq<TermState>) -> int {
    ceil_div(weight_sum(s, stats_mean(s), 1), active_divisor(s))
}

/// Mean squared deviation from `stats_mean`, rounded up.
pub open spec fn stats_msd(s: Seq<TermState>) -> int {
    ceil_div(weight_sum(s, stats_mean(s), 2), active_divisor(s))
}

/// The statistics of a history of terms, when they fit in `i64`.
pub open spec fn stats_of(s: Seq<TermState>) -> PredictorStats {
    PredictorStats {
        mean: stats_mean(s) as i64,
        MAD: stats_mad(s) as i64,
        MSD: stats_msd(s) as i64,
    }
}

/// The sums that `PredictorStats::calculate` forms, plus the divisor that
/// rounding up adds to them, stay within `i64`.
pub open spec fn stats_fit(s: Seq<TermState>) -> bool {
    &&& weight_sum(s, 0, 0) + active_divisor(s) <= i64::MAX
    &&& weight_sum(s, stats_mean(s), 1) + active_divisor(s) <= i64::MAX
    &&& weight_sum(s, stats_mean(s), 2) + active_divisor(s) <= i64::MAX
}

proof fn lemma_term_weight_nonneg(t: TermState, center: int, order: nat)
    ensures
        term_weight(t, center, order) >= 0,
{
    if t.query_actual_count > 0 && order >= 2 {
        let d = t.query_actual_count as int - center;
        assert(d * d >= 0) by (nonlinear_arith);
    }
}

proof fn lemma_weight_sum_prefix(s: Seq<TermState>, center: int, order: nat, i: int)
    requires
        0 <= i <= s.len(),
    ensures
        0 <= weight_sum(s.take(i), center, order) <= weight_sum(s, center, order),
    decreases s.len(),
{
    if i == s.len() {
        assert(s.take(i) =~= s);
        lemma_weight_sum_nonneg(s, center, order);
    } else {
        lemma_weight_sum_prefix(s.drop_last(), center, order, i);
        assert(s.drop_last().take(i) =~= s.take(i));
        lemma_term_weight_nonneg(s.last(), center, order);
    }
}

proof fn lemma_weight_sum_nonneg(s: Seq<TermState>, center: int, order: nat)
    ensures
        weight_sum(s, center, order) >= 0,
    decreases s.len(),
{
    if s.len() > 0 {
        lemma_weight_sum_nonneg(s.drop_last(), center, order);
        lemma_term_weight_nonneg(s.last(), center, order);
    }
}

proof fn lemma_active_count_bounds(s: Seq<TermState>)
    ensures
        0 <= active_count(s) <= s.len(),
        active_count(s) <= weight_sum(s, 0, 0),
    decreases s.len(),
{
    if s.len() > 0 {
        lemma_active_count_bounds(s.drop_last());
    }
}

/// `(a + b - 1) / b` for a non-negative `a` and a positive `b`.
fn div_up(a: i64, b: i64) -> (r: i64)
    requires
        a >= 0,
        b > 0,
        a + b <= i64::MAX,
    ensures
        r == ceil_div(a as int, b as int),
{
    (a + b - 1) / b
}

/// Running statistics of the query counts of the remembered terms.
#[allow(non_snake_case)]
#[derive(Clone, Copy, Debug, PartialEq, Eq)]
pub struct PredictorStats {
    pub mean: i64,
    pub MAD: i64,
    pub MSD: i64,
}

impl Default for PredictorStats {
    fn default() -> (r: Self)
        ensures
            r == PredictorStats::zero(),
    {
        PredictorStats { mean: 0, MAD: 0, MSD: 0 }
    }
}

impl PredictorStats {
    pub open spec fn zero() -> PredictorStats {
        PredictorStats { mean: 0, MAD: 0, MSD: 0 }
    }

    /// Resets the statistics to zero.
    pub fn clear(&mut self)
        ensures
            *final(self) == PredictorStats::zero(),
    {
        *self = PredictorStats { mean: 0, MAD: 0, MSD: 0 };
    }

    /// Recomputes the mean, the mean absolute deviation and the mean squared
    /// deviation of the query counts of the terms that saw queries, each rounded up.
    pub fn calculate(&mut self, term: &[TermState])
        requires
            stats_fit(term@),
        ensures
            *final(self) == stats_of(term@),
    {
        let ghost s = term@;
        let n = term.len();
        let mut active: usize = 0;
        let mut sum: i64 = 0;
        let mut i: usize = 0;
        while i < n
            invariant
                n == term@.len(),
                s == term@,
                0 <= i <= n,
                active as int == active_count(s.take(i as int)),
                sum as int == weight_sum(s.take(i as int), 0, 0),
                stats_fit(s),
            decreases n - i,
        {
            let ghost prefix = s.take(i as int);
            assert(s.take(i + 1).drop_last() =~= prefix);
            proof {
                lemma_active_count_bounds(prefix);
                lemma_weight_sum_prefix(s, 0, 0, i + 1);
                lemma_weight_sum_nonneg(s, 0, 0);
                lemma_active_count_bounds(s);
            }
            assert(s.take(i + 1).last() == s[i as int]);
            let v = term[i].query_actual_count;
            if v > 0 {
                proof {
                    lemma_active_count_bounds(s.take(i + 1));
                }
                active = active + 1;
                sum = sum + v;
            }
            i = i + 1;
        }
        assert(s.take(n as int) =~= s);
        proof {
            lemma_active_count_bounds(s);
            lemma_weight_sum_nonneg(s, 0, 0);
        }
        let divisor: i64 = if active > 0 { active as i64 } else { 1 };
        let mean = div_up(sum, divisor);
        assert(mean == stats_mean(s));
        let mut abs_sum: i64 = 0;
        let mut sq_sum: i64 = 0;
        let mut j: usize = 0;
        while j < n
            invariant
                n == term@.len(),
                s == term@,
                0 <= j <= n,
                mean as int == stats_mean(s),
                mean >= 0,
                abs_sum as int == weight_sum(s.take(j as int), mean as int, 1),
                sq_sum as int == weight_sum(s.take(j as int), mean as int, 2),
                stats_fit(s),
            decreases n - j,
        {
            assert(s.take(j + 1).drop_last() =~= s.take(j as int));
            proof {
                lemma_weight_sum_prefix(s, mean as int, 1, j + 1);
                lemma_weight_sum_prefix(s, mean as int, 2, j + 1);
                lemma_term_weight_nonneg(s[j as int], mean as int, 2);
                lemma_weight_sum_nonneg(s.take(j as int), mean as int, 2);
            }
            assert(s.take(j + 1).last() == s[j as int]);
            let v = term[j].query_actual_count;
            if v > 0 {
                let d = v - mean;
                assert(term_weight(s[j as int], mean as int, 2) == d * d);
                let a = if d < 0 { -d } else { d };
                abs_sum = abs_sum + a;
                assert(0 <= d * d <= sq_sum + d * d <= i64::MAX);
                sq_sum = sq_sum + d * d;
            }
            j = j + 1;
        }
        assert(s.take(n as int) =~= s);
        proof {
            lemma_weight_sum_nonneg(s, mean as int, 1);
            lemma_weight_sum_nonneg(s, mean as int, 2);
        }
        let mad = div_up(abs_sum, divisor);
        let msd = div_up(sq_sum, divisor);
        *self = PredictorStats { mean, MAD: mad, MSD: msd };
    }
}

/// The larger of two values.
pub open spec fn max_i64(a: i64, b: i64) -> i64 {
    if a >= b { a } else { b }
}

/// `x * numerator / denominator`, with Rust's division, does not overflow.
pub open spec fn meld_fits(x: i64, inertion: Inertion) -> bool {
    let p = x * inertion.numerator();
    &&& i64::MIN <= p <= i64::MAX
    &&& !(p == i64::MIN && inertion.denominator() == -1)
}

/// `x` scaled by the inertion: `x * numerator / denominator`, rounded toward zero.
pub open spec fn melded(x: i64, inertion: Inertion) -> i64 {
    trunc_div(x * inertion.numerator(), inertion.denominator() as int) as i64
}

proof fn lemma_div_le_half(x: int, d: int)
    requires
        x >= 0,
        d >= 2,
    ensures
        0 <= x / d <= x / 2,
{
    assert(0 <= x / d <= x / 2) by (nonlinear_arith)
        requires
            x >= 0,
            d >= 2,
    ;
}

/// A maximum that decays by the inertion each term.
#[derive(Clone, Copy, Debug)]
pub struct MeldingMax {
    value: i64,
}

impl Default for MeldingMax {
    fn default() -> (r: Self)
        ensures
            r.value() == 0,
    {
        MeldingMax { value: 0 }
    }
}

impl MeldingMax {
    pub closed spec fn value(self) -> i64 {
        self.value
    }

    /// Raises the maximum to `value` when `value` is larger.
    pub fn update(&mut self, value: i64)
        ensures
            final(self).value() == max_i64(old(self).value(), value),
    {
        if value > self.value {
            self.value = value;
        }
    }

    /// The current maximum.
    pub fn get(&self) -> (v: i64)
        ensures
            v == self.value(),
    {
        self.value
    }

    /// Scales the maximum by the inertion, rounding toward zero.
    pub fn meld(&mut self, inertion: &Inertion)
        requires
            meld_fits(old(self).value(), *inertion),
        ensures
            final(self).value() == melded(old(self).value(), *inertion),
    {
        proof {
            use_type_invariant(inertion);
        }
        let x = self.value;
        let p = x * inertion.numerator;
        let den = inertion.denominator;
        // Rust's `/` rounds toward zero; a negative divisor is folded into the sign.
        let q = if den > 0 {
            p / den
        } else if den == i64::MIN {
            if p == i64::MIN { 1 } else { 0 }
        } else if den == -1 {
            -p
        } else {
            let d = -den;
            let q0 = p / d;
            proof {
                if p >= 0 {
                    assert(q0 == (p as int) / (d as int));
                    lemma_div_le_half(p as int, d as int);
                } else {
                    assert(q0 == -((-(p as int)) / (d as int)));
                    lemma_div_le_half(-(p as int), d as int);
                }
            }
            -q0
        };
        assert(q == trunc_div(p as int, den as int));
        self.value = q;
    }
}

/// The abstract state of a predictor: the history of terms (oldest first),
/// the statistics and the decaying maximum.
pub struct PredictorModel {
    pub term: Seq<TermState>,
    pub stats: PredictorStats,
    pub max: i64,
}

/// Everything a predictor remembers between terms.
#[derive(Clone, Copy, Debug)]
pub struct PredictorState {
    pub term: [TermState; 10],
    pub stats: PredictorStats,
    pub max: MeldingMax,
}

impl View for PredictorState {
    type V = PredictorModel;

    open spec fn view(&self) -> PredictorModel {
        PredictorModel { term: self.term@, stats: self.stats, max: self.max.value() }
    }
}

impl PredictorModel {
    /// The state in which a predictor starts.
    pub open spec fn initial() -> PredictorModel {
        PredictorModel {
            term: Seq::new(HISTORY_LEN as nat, |i: int| TermState::zero()),
            stats: PredictorStats::zero(),
            max: 0,
        }
    }

    /// The most recently finished term.
    pub open spec fn last_term(self) -> TermState {
        self.term.last()
    }

    /// The history after `t` is appended and the oldest term dropped.
    pub open spec fn shifted(self, t: TermState) -> Seq<TermState> {
        self.term.drop_first().push(t)
    }

    /// `Predictor::finish_term` on `t` can run without overflow.
    pub open spec fn finish_fits(self, t: TermState, inertion: Inertion) -> bool {
        &&& meld_fits(self.max, inertion)
        &&& stats_fit(self.shifted(t))
    }

    /// The state after the term `t` is finished.
    pub open spec fn finished(self, t: TermState, inertion: Inertion) -> PredictorModel {
        PredictorModel {
            term: self.shifted(t),
            stats: stats_of(self.shifted(t)),
            max: max_i64(melded(self.max, inertion), t.query_actual_count),
        }
    }

    /// The prediction of the number of queries in the next term.
    pub open spec fn prediction(self) -> Prediction {
        Prediction { query_count: (self.stats.mean + self.stats.MAD) as i64 }
    }

    pub open spec fn prediction_fits(self) -> bool {
        i64::MIN <= self.stats.mean + self.stats.MAD <= i64::MAX
    }
}

impl Default for PredictorState {
    fn default() -> (r: Self)
        ensures
            r@ == PredictorModel::initial(),
    {
        let t = TermState {
            query_prediction_count: 0,
            query_actual_count: 0,
            query_pending_count: 0,
            id_remained_count: 0,
        };
        let r = PredictorState {
            term: [t; 10],
            stats: PredictorStats { mean: 0, MAD: 0, MSD: 0 },
            max: MeldingMax { value: 0 },
        };
        assert(r@.term =~= PredictorModel::initial().term);
        r
    }
}

impl PredictorState {
    fn push(&mut self, term: TermState, inertion: &Inertion)
        requires
            meld_fits(old(self)@.max, *inertion),
        ensures
            final(self)@.term == old(self)@.shifted(term),
            final(self)@.stats == PredictorStats::zero(),
            final(self)@.max == max_i64(melded(old(self)@.max, *inertion), term.query_actual_count),
    {
        self.stats.clear();
        self.max.meld(inertion);
        self.max.update(term.query_actual_count);
        let ghost before = self.term@;
        let ghost stats = self.stats;
        let ghost max = self.max;
        let mut i: usize = 0;
        while i < HISTORY_LEN - 1
            invariant
                self.stats == stats,
                self.max == max,
                0 <= i <= HISTORY_LEN - 1,
                self.term@.len() == HISTORY_LEN,
                forall|k: int| 0 <= k < i ==> self.term@[k] == before[k + 1],
                forall|k: int| i <= k < HISTORY_LEN ==> self.term@[k] == before[k],
            decreases HISTORY_LEN - 1 - i,
        {
            let next = self.term[i + 1];
            self.term[i] = next;
            i = i + 1;
        }
        self.term[HISTORY_LEN - 1] = term;
        assert(self.term@ =~= before.drop_first().push(term));
    }
}

/// The prediction of the number of queries in the next term: mean plus mean
/// absolute deviation.
fn make_prediction(state: &PredictorState) -> (p: Prediction)
    requires
        state@.prediction_fits(),
    ensures
        p == state@.prediction(),
{
    Prediction { query_count: state.stats.mean + state.stats.MAD }
}

/// A rule that turns the predictor's state and prediction into a recommended
/// number of identifiers.
pub trait MakeAction {
    /// `make` can compute its recommendation without overflow.
    spec fn admits(&self, state: PredictorModel, pred: Prediction) -> bool;

    /// The recommendation.
    spec fn action_of(&self, state: PredictorModel, pred: Prediction) -> Action;

    fn make(&self, state: &PredictorState, pred: Prediction) -> (a: Action)
        requires
            self.admits(state@, pred),
        ensures
            a == self.action_of(state@, pred),
    ;
}

/// How a predictor melds its maximum and which rule recommends the identifiers.
#[derive(Clone, Copy)]
pub struct Config<M> {
    pub inertion: Inertion,
    pub action: M,
}

/// `Predictor::prepare_next_term` on `state` can run without overflow.
pub open spec fn prepare_fits<M: MakeAction>(config: Config<M>, state: PredictorModel) -> bool {
    &&& state.prediction_fits()
    &&& config.action.admits(state, state.prediction())
}

/// The recommendation of `config` for the term after `state`.
pub open spec fn recommended<M: MakeAction>(config: Config<M>, state: PredictorModel) -> Action {
    config.action.action_of(state, state.prediction())
}

/// Predicts the load of the next term and recommends how many identifiers to hold.
pub struct Predictor<M> {
    config: Config<M>,
}

impl<M: MakeAction> Predictor<M> {
    pub closed spec fn config(self) -> Config<M> {
        self.config
    }

    /// A predictor with the given configuration.
    pub fn new(config: Config<M>) -> (p: Self)
        ensures
            p.config() == config,
    {
        Self { config: config }
    }

    /// Prediction and recommendation for the next term; meant to be called once
    /// the current term has been finished.
    pub fn prepare_next_term(&self, state: &PredictorState) -> (r: (Prediction, Action))
        requires
            prepare_fits(self.config(), state@),
        ensures
            r.0 == state@.prediction(),
            r.1 == recommended(self.config(), state@),
    {
        let prediction = make_prediction(state);
        let action = self.config.action.make(state, prediction);
        (prediction, action)
    }

    /// Appends `term` to the history, melds the maximum into it and recomputes
    /// the statistics.
    pub fn finish_term(&self, state: &mut PredictorState, term: TermState)
        requires
            old(state)@.finish_fits(term, self.config().inertion),
        ensures
            final(state)@ == old(state)@.finished(term, self.config().inertion),
    {
        state.push(term, &self.config.inertion);
        state.stats.calculate(state.term.as_slice());
    }
}

/// The mean is the average query count of the active terms rounded up: the
/// least value whose multiple by their number reaches their sum.
pub proof fn lemma_mean_rounds_up(s: Seq<TermState>)
    ensures
        active_divisor(s) * (stats_mean(s) - 1) < weight_sum(s, 0, 0) <= active_divisor(s) * stats_mean(s),
{
    let n = active_divisor(s);
    let a = weight_sum(s, 0, 0);
    lemma_active_count_bounds(s);
    lemma_weight_sum_nonneg(s, 0, 0);
    assert(n >= 1);
    let m = ceil_div(a, n);
    assert(n * (m - 1) < a <= n * m) by (nonlinear_arith)
        requires
            n >= 1,
            a >= 0,
            m == (a + n - 1) / n,
    ;
}

/// With an inertion between 0 and 1, melding never raises a non-negative
/// maximum and keeps it non-negative.
pub proof fn lemma_meld_decays(x: i64, inertion: Inertion)
    requires
        x >= 0,
        0 <= inertion.numerator() <= inertion.denominator(),
        inertion.denominator() > 0,
        meld_fits(x, inertion),
    ensures
        0 <= melded(x, inertion) <= x,
{
    let num = inertion.numerator() as int;
    let den = inertion.denominator() as int;
    let p = x * num;
    assert(0 <= p <= x * den) by (nonlinear_arith)
        requires
            p == x * num,
            x >= 0,
            0 <= num <= den,
    ;
    assert(0 <= p / den <= x) by (nonlinear_arith)
        requires
            0 <= p <= x * den,
            den > 0,
            x >= 0,
    ;
}

/// Finishing a term keeps the length of the history, makes the term its
/// latest entry, and leaves the maximum at least the term's query count.
pub proof fn lemma_finished_history(state: PredictorModel, t: TermState, inertion: Inertion)
    requires
        state.term.len() == HISTORY_LEN,
    ensures
        state.finished(t, inertion).term.len() == HISTORY_LEN,
        state.finished(t, inertion).last_term() == t,
        state.finished(t, inertion).max >= t.query_actual_count,
        forall|k: int| 0 <= k < HISTORY_LEN - 1 ==> #[trigger] state.finished(t, inertion).term[k] == state.term[k + 1],
{
}

/// Largest number of queries for which `PredictorModel::within` is used to
/// show that the arithmetic stays in range: `2^20`.
pub const COUNT_BOUND: i64 = 0x10_0000;

/// How many times the number of queries a bounded rule may recommend.
pub const ACTION_FACTOR: i64 = 16;

/// A term whose counts stay within `b` queries.
pub open spec fn term_within(t: TermState, b: int) -> bool {
    &&& 0 <= t.query_prediction_count <= 2 * b
    &&& 0 <= t.query_actual_count <= b
    &&& 0 <= t.query_pending_count <= b
    &&& 0 <= t.id_remained_count <= ACTION_FACTOR * b
}

/// An inertion between 0 and 1 with a positive denominator and a small numerator.
pub open spec fn inertion_bounded(inertion: Inertion) -> bool {
    &&& 0 < inertion.denominator()
    &&& 0 <= inertion.numerator() <= inertion.denominator()
    &&& inertion.numerator() <= COUNT_BOUND
}

impl PredictorModel {
    /// The history, the statistics and the maximum stay within `b` queries.
    pub open spec fn within(self, b: int) -> bool {
        &&& self.term.len() == HISTORY_LEN
        &&& forall|k: int| 0 <= k < HISTORY_LEN ==> term_within(#[trigger] self.term[k], b)
        &&& 0 <= self.stats.mean <= b
        &&& 0 <= self.stats.MAD <= b
        &&& 0 <= self.stats.MSD <= b * b
        &&& 0 <= self.max <= b
    }
}

/// A rule that, on states within `b` queries and predictions of at most `2 * b`
/// queries, can always compute its recommendation and recommends between 0 and
/// `ACTION_FACTOR * b` identifiers.
pub open spec fn rule_bounded<M: MakeAction>(rule: M, b: int) -> bool {
    forall|st: PredictorModel, p: Prediction|
        st.within(b) && 0 <= p.query_count <= 2 * b ==> {
            &&& #[trigger] rule.admits(st, p)
            &&& 0 <= rule.action_of(st, p).id_wildcard_recommended_count <= ACTION_FACTOR * b
        }
}

proof fn lemma_weight_sum_le(s: Seq<TermState>, center: int, order: nat, w: int)
    requires
        w >= 0,
        forall|k: int| 0 <= k < s.len() ==> #[trigger] term_weight(s[k], center, order) <= w,
    ensures
        weight_sum(s, center, order) <= active_count(s) * w,
    decreases s.len(),
{
    if s.len() > 0 {
        assert forall|k: int| 0 <= k < s.drop_last().len() implies #[trigger] term_weight(
            s.drop_last()[k],
            center,
            order,
        ) <= w by {
            assert(s.drop_last()[k] == s[k]);
        }
        lemma_weight_sum_le(s.drop_last(), center, order, w);
        assert(term_weight(s[s.len() - 1], center, order) <= w);
        assert(active_count(s.drop_last()) * w + w == (active_count(s.drop_last()) + 1) * w) by (nonlinear_arith);
    }
}

proof fn lemma_ceil_div_le(a: int, n: int, w: int)
    requires
        n >= 1,
        w >= 0,
        0 <= a <= n * w,
    ensures
        0 <= ceil_div(a, n) <= w,
{
    assert(0 <= (a + n - 1) / n <= w) by (nonlinear_arith)
        requires
            n >= 1,
            w >= 0,
            0 <= a <= n * w,
    ;
}

/// The statistics of a history whose query counts stay within `b`: their
/// sums fit, the mean and the mean absolute deviation are at most `b`, and the
/// mean squared deviation at most `b * b`.
pub proof fn lemma_stats_within(s: Seq<TermState>, b: int)
    requires
        0 <= b <= COUNT_BOUND,
        s.len() == HISTORY_LEN,
        forall|k: int| 0 <= k < s.len() ==> 0 <= #[trigger] s[k].query_actual_count <= b,
    ensures
        stats_fit(s),
        0 <= stats_mean(s) <= b,
        0 <= stats_mad(s) <= b,
        0 <= stats_msd(s) <= b * b,
{
    let n = active_divisor(s);
    let c = active_count(s);
    lemma_active_count_bounds(s);
    assert forall|k: int| 0 <= k < s.len() implies #[trigger] term_weight(s[k], 0, 0) <= b by {}
    lemma_weight_sum_le(s, 0, 0, b);
    lemma_weight_sum_nonneg(s, 0, 0);
    assert(c * b <= n * b) by (nonlinear_arith)
        requires
            0 <= c <= n,
            b >= 0,
    ;
    lemma_ceil_div_le(weight_sum(s, 0, 0), n, b);
    let m = stats_mean(s);
    assert forall|k: int| 0 <= k < s.len() implies #[trigger] term_weight(s[k], m, 1) <= b by {}
    assert forall|k: int| 0 <= k < s.len() implies #[trigger] term_weight(s[k], m, 2) <= b * b by {
        if s[k].query_actual_count > 0 {
            let d = s[k].query_actual_count as int - m;
            assert(d * d <= b * b) by (nonlinear_arith)
                requires
                    -b <= d <= b,
            ;
        }
    }
    lemma_weight_sum_le(s, m, 1, b);
    lemma_weight_sum_le(s, m, 2, b * b);
    lemma_weight_sum_nonneg(s, m, 1);
    lemma_weight_sum_nonneg(s, m, 2);
    assert(c * (b * b) <= n * (b * b)) by (nonlinear_arith)
        requires
            0 <= c <= n,
            b >= 0,
    ;
    lemma_ceil_div_le(weight_sum(s, m, 1), n, b);
    lemma_ceil_div_le(weight_sum(s, m, 2), n, b * b);
    assert(n * (b * b) <= 10 * (0x10_0000 * 0x10_0000)) by (nonlinear_arith)
        requires
            1 <= n <= 10,
            0 <= b <= 0x10_0000,
    ;
    assert(n * b <= 10 * 0x10_0000) by (nonlinear_arith)
        requires
            1 <= n <= 10,
            0 <= b <= 0x10_0000,
    ;
}

/// Finishing a term whose counts stay within `b` keeps the predictor within
/// `b` and runs without overflow.
pub proof fn lemma_finished_within(state: PredictorModel, t: TermState, inertion: Inertion, b: int)
    requires
        0 <= b <= COUNT_BOUND,
        state.within(b),
        term_within(t, b),
        inertion_bounded(inertion),
    ensures
        state.finish_fits(t, inertion),
        state.finished(t, inertion).within(b),
{
    let x = state.max;
    let num = inertion.numerator() as int;
    assert(0 <= x * num <= 0x10_0000 * 0x10_0000) by (nonlinear_arith)
        requires
            0 <= x <= b <= 0x10_0000,
            0 <= num <= 0x10_0000,
    ;
    lemma_meld_decays(x, inertion);
    let shifted = state.shifted(t);
    assert forall|k: int| 0 <= k < shifted.len() implies 0 <= #[trigger] shifted[k].query_actual_count <= b by {
        if k < HISTORY_LEN - 1 {
            assert(shifted[k] == state.term[k + 1]);
        }
    }
    lemma_stats_within(shifted, b);
    let f = state.finished(t, inertion);
    assert forall|k: int| 0 <= k < HISTORY_LEN implies term_within(#[trigger] f.term[k], b) by {
        if k < HISTORY_LEN - 1 {
            assert(f.term[k] == state.term[k + 1]);
        }
    }
    assert(f.term.len() == HISTORY_LEN);
    assert(0 <= f.stats.mean <= b);
    assert(0 <= f.stats.MAD <= b);
    assert(b * b <= 0x10_0000 * 0x10_0000) by (nonlinear_arith)
        requires
            0 <= b <= 0x10_0000,
    ;
    assert(0 <= f.stats.MSD <= b * b);
    assert(0 <= f.max <= b);
}

/// The query counts of the terms that saw queries, oldest first.
pub open spec fn active_values(s: Seq<TermState>) -> Seq<int>
    decreases s.len(),
{
    if s.len() == 0 {
        Seq::empty()
    } else if s.last().query_actual_count > 0 {
        active_values(s.drop_last()).push(s.last().query_actual_count as int)
    } else {
        active_values(s.drop_last())
    }
}

/// `term_weight` of a term with `v` queries.
pub open spec fn value_weight(v: int, center: int, order: nat) -> int {
    if order == 0 {
        v
    } else if order == 1 {
        if v >= center { v - center } else { center - v }
    } else {
        (v - center) * (v - center)
    }
}

/// Sum of `value_weight` over a sequence of query counts.
pub open spec fn value_sum(v: Seq<int>, center: int, order: nat) -> int
    decreases v.len(),
{
    if v.len() == 0 {
        0
    } else {
        value_sum(v.drop_last(), center, order) + value_weight(v.last(), center, order)
    }
}

proof fn lemma_weight_sum_values(s: Seq<TermState>, center: int, order: nat)
    ensures
        weight_sum(s, center, order) == value_sum(active_values(s), center, order),
        active_count(s) == active_values(s).len(),
    decreases s.len(),
{
    if s.len() > 0 {
        lemma_weight_sum_values(s.drop_last(), center, order);
        let r = active_values(s.drop_last());
        if s.last().query_actual_count > 0 {
            assert(r.push(s.last().query_actual_count as int).drop_last() =~= r);
        }
    }
}

proof fn lemma_value_sum_remove(v: Seq<int>, j: int, center: int, order: nat)
    requires
        0 <= j < v.len(),
    ensures
        value_sum(v, center, order) == value_sum(v.remove(j), center, order) + value_weight(
            v[j],
            center,
            order,
        ),
    decreases v.len(),
{
    if j == v.len() - 1 {
        assert(v.remove(j) =~= v.drop_last());
    } else {
        lemma_value_sum_remove(v.drop_last(), j, center, order);
        assert(v.drop_last().remove(j) =~= v.remove(j).drop_last());
        assert(v.remove(j).last() == v.last());
    }
}

proof fn lemma_value_sum_permutation(a: Seq<int>, b: Seq<int>, center: int, order: nat)
    requires
        a.to_multiset() == b.to_multiset(),
    ensures
        value_sum(a, center, order) == value_sum(b, center, order),
        a.len() == b.len(),
    decreases a.len(),
{
    broadcast use vstd::seq_lib::group_to_multiset_ensures;

    if a.len() == 0 {
        assert(b.len() == b.to_multiset().len());
    } else {
        let x = a.last();
        assert(a.drop_last().push(x) =~= a);
        assert(a.to_multiset() == a.drop_last().to_multiset().insert(x));
        assert(a.to_multiset().count(x) > 0);
        assert(b.contains(x));
        let j = choose|j: int| 0 <= j < b.len() && b[j] == x;
        assert(b.remove(j).to_multiset() == b.to_multiset().remove(x));
        assert(a.drop_last().to_multiset() =~= a.to_multiset().remove(x));
        lemma_value_sum_permutation(a.drop_last(), b.remove(j), center, order);
        lemma_value_sum_remove(b, j, center, order);
    }
}

/// The statistics depend only on the query counts of the terms that saw
/// queries, taken as a multiset: neither the order of the terms, nor terms
/// without queries, nor the other fields of a term change them, nor whether
/// computing them overflows.
pub proof fn lemma_stats_depend_on_active_counts(s1: Seq<TermState>, s2: Seq<TermState>)
    requires
        active_values(s1).to_multiset() == active_values(s2).to_multiset(),
    ensures
        stats_of(s1) == stats_of(s2),
        stats_fit(s1) == stats_fit(s2),
{
    let v1 = active_values(s1);
    let v2 = active_values(s2);
    lemma_weight_sum_values(s1, 0, 0);
    lemma_weight_sum_values(s2, 0, 0);
    lemma_value_sum_permutation(v1, v2, 0, 0);
    assert(active_divisor(s1) == active_divisor(s2));
    assert(stats_mean(s1) == stats_mean(s2));
    let m = stats_mean(s1);
    lemma_weight_sum_values(s1, m, 1);
    lemma_weight_sum_values(s2, m, 1);
    lemma_value_sum_permutation(v1, v2, m, 1);
    lemma_weight_sum_values(s1, m, 2);
    lemma_weight_sum_values(s2, m, 2);
    lemma_value_sum_permutation(v1, v2, m, 2);
}

proof fn lemma_nonneg_quotient(a: int, d: int)
    requires
        a >= 0,
        d > 0,
    ensures
        0 <= d * (a / d) <= a < d * (a / d) + d,
        a / d >= 0,
{
    vstd::arithmetic::div_mod::lemma_fundamental_div_mod(a, d);
    vstd::arithmetic::div_mod::lemma_mod_bound(a, d);
    let q = a / d;
    assert(q >= 0) by (nonlinear_arith)
        requires
            d > 0,
            a >= 0,
            a < d * q + d,
    ;
    assert(d * q >= 0) by (nonlinear_arith)
        requires
            d > 0,
            q >= 0,
    ;
}

/// Melding divides `x * numerator` by the denominator rounding toward zero:
/// the result times the denominator lies between zero and `x * numerator`,
/// less than one denominator (in absolute value) away from it.
pub proof fn lemma_meld_rounds_toward_zero(x: i64, inertion: Inertion)
    requires
        meld_fits(x, inertion),
        inertion.denominator() != 0,
    ensures
        ({
            let p = x * inertion.numerator();
            let d = inertion.denominator() as int;
            let q = melded(x, inertion) as int;
            let ad = if d > 0 { d } else { -d };
            &&& p >= 0 ==> 0 <= q * d <= p && p < q * d + ad
            &&& p < 0 ==> p <= q * d <= 0 && q * d - ad < p
        }),
{
    let p = x * inertion.numerator();
    let d = inertion.denominator() as int;
    let ad = if d > 0 { d } else { -d };
    let ap = if p >= 0 { p } else { -p };
    lemma_nonneg_quotient(ap, ad);
    let u = ap / ad;
    assert(u <= ap) by (nonlinear_arith)
        requires
            ad >= 1,
            u >= 0,
            ad * u <= ap,
    ;
    let t = trunc_div(p, d);
    assert(t == u || t == -u);
    if ap > i64::MAX {
        assert(p == i64::MIN);
        if ad == 1 {
            assert(d == 1);
            assert(ad * u == u) by (nonlinear_arith)
                requires
                    ad == 1,
            ;
            assert(u == ap);
        } else {
            lemma_div_le_half(ap, ad);
        }
    }
    assert(i64::MIN <= t <= i64::MAX);
    assert(melded(x, inertion) as int == t);
    if d > 0 {
        if p >= 0 {
            assert(t == u);
        } else {
            assert(t == -u);
            assert(t * d == -(ad * u)) by (nonlinear_arith)
                requires
                    t == -u,
                    d == ad,
            ;
        }
    } else {
        if p >= 0 {
            assert(t == -u);
            assert(t * d == ad * u) by (nonlinear_arith)
                requires
                    t == -u,
                    d == -ad,
            ;
        } else {
            assert(t == u);
            assert(t * d == -(ad * u)) by (nonlinear_arith)
                requires
                    t == u,
                    d == -ad,
            ;
        }
    }
    assert(t * d == d * t) by (nonlinear_arith);
    assert(u * ad == ad * u) by (nonlinear_arith);
}

/// Finishing a term: the history drops its oldest term and ends with `t`; the
/// maximum becomes the old maximum melded by the inertion, raised to `t`'s
/// query count; the statistics become those of the new history.
pub proof fn lemma_finish_law(state: PredictorModel, t: TermState, inertion: Inertion)
    requires
        state.term.len() == HISTORY_LEN,
    ensures
        ({
            let f = state.finished(t, inertion);
            let m = melded(state.max, inertion);
            &&& f.term.len() == HISTORY_LEN
            &&& f.term[HISTORY_LEN - 1] == t
            &&& forall|k: int| 0 <= k < HISTORY_LEN - 1 ==> #[trigger] f.term[k] == state.term[k + 1]
            &&& f.max == if m >= t.query_actual_count { m } else { t.query_actual_count }
            &&& f.stats == stats_of(f.term)
        }),
{
    let f = state.finished(t, inertion);
    assert(f.term[HISTORY_LEN - 1] == t);
}

/// The prediction is the mean plus the mean absolute deviation, and the
/// recommendation is the rule's answer for that prediction.
pub proof fn lemma_prediction_law<M: MakeAction>(config: Config<M>, state: PredictorModel)
    requires
        state.prediction_fits(),
    ensures
        state.prediction().query_count == state.stats.mean + state.stats.MAD,
        recommended(config, state) == config.action.action_of(
            state,
            Prediction { query_count: (state.stats.mean + state.stats.MAD) as i64 },
        ),
{
}

/// The mean absolute deviation is the average distance of the active terms'
/// query counts from the mean, rounded up; likewise the mean squared deviation
/// for the squared distance.
pub proof fn lemma_deviations_round_up(s: Seq<TermState>)
    ensures
        active_divisor(s) * (stats_mad(s) - 1) < weight_sum(s, stats_mean(s), 1) <= active_divisor(s)
            * stats_mad(s),
        active_divisor(s) * (stats_msd(s) - 1) < weight_sum(s, stats_mean(s), 2) <= active_divisor(s)
            * stats_msd(s),
{
    let n = active_divisor(s);
    lemma_active_count_bounds(s);
    let m = stats_mean(s);
    lemma_weight_sum_nonneg(s, m, 1);
    lemma_weight_sum_nonneg(s, m, 2);
    let a1 = weight_sum(s, m, 1);
    let a2 = weight_sum(s, m, 2);
    assert(n * (ceil_div(a1, n) - 1) < a1 <= n * ceil_div(a1, n)) by (nonlinear_arith)
        requires
            n >= 1,
            a1 >= 0,
            ceil_div(a1, n) == (a1 + n - 1) / n,
    ;
    assert(n * (ceil_div(a2, n) - 1) < a2 <= n * ceil_div(a2, n)) by (nonlinear_arith)
        requires
            n >= 1,
            a2 >= 0,
            ceil_div(a2, n) == (a2 + n - 1) / n,
    ;
}

/// The sums behind the statistics add up term by term: a single term
/// contributes its query count (order 0), its distance from the centre
/// (order 1) or the square of that distance (order 2) when it saw queries, and
/// nothing otherwise; two histories one after the other contribute the sum of
/// what each contributes. The same holds of the count of active terms.
pub proof fn lemma_weight_sum_law(a: Seq<TermState>, b: Seq<TermState>, t: TermState, center: int)
    ensures
        weight_sum(seq![t], center, 0) == if t.query_actual_count > 0 { t.query_actual_count as int } else { 0 },
        weight_sum(seq![t], center, 1) == if t.query_actual_count > 0 {
            if t.query_actual_count >= center { t.query_actual_count - center } else { center - t.query_actual_count }
        } else {
            0
        },
        weight_sum(seq![t], center, 2) == if t.query_actual_count > 0 {
            (t.query_actual_count - center) * (t.query_actual_count - center)
        } else {
            0
        },
        active_count(seq![t]) == if t.query_actual_count > 0 { 1int } else { 0int },
        forall|order: nat| #[trigger] weight_sum(a + b, center, order) == weight_sum(a, center, order) + weight_sum(b, center, order),
        active_count(a + b) == active_count(a) + active_count(b),
{
    assert(seq![t].drop_last() =~= Seq::<TermState>::empty());
    assert(seq![t].last() == t);
    assert(weight_sum(Seq::<TermState>::empty(), center, 0) == 0);
    assert(weight_sum(Seq::<TermState>::empty(), center, 1) == 0);
    assert(weight_sum(Seq::<TermState>::empty(), center, 2) == 0);
    assert(weight_sum(seq![t], center, 0) == term_weight(t, center, 0));
    assert(weight_sum(seq![t], center, 1) == term_weight(t, center, 1));
    assert(weight_sum(seq![t], center, 2) == term_weight(t, center, 2));
    assert(active_count(Seq::<TermState>::empty()) == 0);
    assert forall|order: nat| #[trigger] weight_sum(a + b, center, order) == weight_sum(a, center, order) + weight_sum(
        b,
        center,
        order,
    ) by {
        lemma_weight_sum_append(a, b, center, order);
    }
    lemma_active_count_append(a, b);
}

proof fn lemma_weight_sum_append(a: Seq<TermState>, b: Seq<TermState>, center: int, order: nat)
    ensures
        weight_sum(a + b, center, order) == weight_sum(a, center, order) + weight_sum(b, center, order),
    decreases b.len(),
{
    if b.len() == 0 {
        assert(a + b =~= a);
    } else {
        lemma_weight_sum_append(a, b.drop_last(), center, order);
        assert((a + b).drop_last() =~= a + b.drop_last());
        assert((a + b).last() == b.last());
    }
}

proof fn lemma_active_count_append(a: Seq<TermState>, b: Seq<TermState>)
    ensures
        active_count(a + b) == active_count(a) + active_count(b),
    decreases b.len(),
{
    if b.len() == 0 {
        assert(a + b =~= a);
    } else {
        lemma_active_count_append(a, b.drop_last());
        assert((a + b).drop_last() =~= a + b.drop_last());
        assert((a + b).last() == b.last());
    }
}

} // verus!
