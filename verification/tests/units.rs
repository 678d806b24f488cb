use std::collections::BTreeSet;

use sql_planner::interpreter::{Interpreter, Range};
use sql_planner::predictor::{
    Action, Config, Inertion, InertionError, MakeAction, MeldingMax, Prediction, Predictor,
    PredictorModel, PredictorState, PredictorStats, TermState,
};
use sql_planner::simulation::{
    generate_drops, generate_gambling, generate_sparse, generate_spikes, queries_from_counts, Query,
    Simulator,
};
use sql_planner::strategy::{
    MeldMax3MaxPredicted, MeldMax3Predicted, MeldMax3Sigma, OrRejected,
    PredictedPredictedSmartActual, PredictedSmartActualSmartActual, Rejected, RejectedActual,
    RejectedPredicted, RejectedPredictedActual, RejectedPredictedSmartActual,
    RejectedPredictedSmartActualSmartActual,
};

fn term(actual: i64, pending: i64) -> TermState {
    TermState {
        query_prediction_count: 0,
        query_actual_count: actual,
        query_pending_count: pending,
        id_remained_count: 0,
    }
}

fn config<M: MakeAction + Copy>(action: M) -> Config<M> {
    Config { inertion: Inertion::new(15, 16).unwrap(), action }
}

#[test]
fn range_next_yields_ids_in_order() {
    let mut r = Range::from_range(5, 8);
    assert_eq!(r.count(), 3);
    assert_eq!(r.len(), 3);
    assert!(!r.is_empty());
    assert_eq!(r.next(), Some(5));
    assert_eq!(r.next(), Some(6));
    assert_eq!(r.count(), 1);
    assert_eq!(r.next(), Some(7));
    assert!(r.is_empty());
    assert_eq!(r.next(), None);
    assert_eq!(r.count(), 0);
}

#[test]
fn range_reversed_bounds_is_empty() {
    let mut r = Range::from_range(9, 4);
    assert!(r.is_empty());
    assert_eq!(r.count(), 0);
    assert_eq!(r.next(), None);
}

#[test]
fn range_from_count() {
    let r = Range::from_c_range(10, 4);
    assert_eq!(r.count(), 4);
    let mut e = Range::from_c_range(10, 0);
    assert!(e.is_empty());
    assert_eq!(e.next(), None);
}

#[test]
fn inertion_rejects_zero_denominator() {
    assert_eq!(Inertion::new(1, 0).unwrap_err(), InertionError::ZeroDenominator);
    assert!(Inertion::new(3, 4).is_ok());
    assert!(Inertion::new(0, -1).is_ok());
}

#[test]
fn stats_of_active_terms() {
    let mut terms = [TermState::default(); 10];
    terms[8] = term(4, 0);
    terms[9] = term(6, 0);
    let mut stats = PredictorStats::default();
    stats.calculate(&terms);
    assert_eq!(stats, PredictorStats { mean: 5, MAD: 1, MSD: 1 });

    let mut terms = [TermState::default(); 10];
    terms[0] = term(3, 0);
    terms[5] = term(4, 0);
    terms[7] = term(-2, 0);
    stats.calculate(&terms);
    assert_eq!(stats, PredictorStats { mean: 4, MAD: 1, MSD: 1 });

    let terms = [TermState::default(); 10];
    stats.calculate(&terms);
    assert_eq!(stats, PredictorStats { mean: 0, MAD: 0, MSD: 0 });

    let mut terms = [TermState::default(); 10];
    terms[1] = term(1, 0);
    terms[2] = term(10, 0);
    terms[3] = term(1, 0);
    stats.calculate(&terms);
    // mean = ceil(12 / 3) = 4, MAD = ceil((3 + 6 + 3) / 3) = 4, MSD = ceil((9 + 36 + 9) / 3) = 18
    assert_eq!(stats, PredictorStats { mean: 4, MAD: 4, MSD: 18 });
}

#[test]
fn stats_clear() {
    let mut stats = PredictorStats { mean: 1, MAD: 2, MSD: 3 };
    stats.clear();
    assert_eq!(stats, PredictorStats { mean: 0, MAD: 0, MSD: 0 });
}

#[test]
fn mean_rounds_up() {
    let mut terms = [TermState::default(); 10];
    terms[0] = term(1, 0);
    terms[1] = term(1, 0);
    terms[2] = term(2, 0);
    let mut stats = PredictorStats::default();
    stats.calculate(&terms);
    // 4 / 3 rounded up
    assert_eq!(stats.mean, 2);
    assert!(3 * (stats.mean - 1) < 4 && 4 <= 3 * stats.mean);
}

#[test]
fn melding_max_update_and_meld() {
    let mut m = MeldingMax::default();
    assert_eq!(m.get(), 0);
    m.update(5);
    assert_eq!(m.get(), 5);
    m.update(3);
    assert_eq!(m.get(), 5);
    m.meld(&Inertion::new(3, 4).unwrap());
    assert_eq!(m.get(), 3);
    m.meld(&Inertion::new(3, -4).unwrap());
    assert_eq!(m.get(), -2);
    m.meld(&Inertion::new(7, 2).unwrap());
    assert_eq!(m.get(), -7);
    m.meld(&Inertion::new(1, i64::MIN).unwrap());
    assert_eq!(m.get(), 0);
}

#[test]
fn meld_decays_between_zero_and_one() {
    let inertion = Inertion::new(15, 16).unwrap();
    let mut m = MeldingMax::default();
    m.update(1000);
    let mut previous = m.get();
    for _ in 0..50 {
        m.meld(&inertion);
        assert!(0 <= m.get() && m.get() <= previous);
        previous = m.get();
    }
}

#[test]
fn finish_term_shifts_history() {
    let predictor = Predictor::new(config(Rejected {}));
    let mut state = PredictorState::default();
    for k in 1..=12 {
        predictor.finish_term(&mut state, term(k, 0));
    }
    for i in 0..10 {
        assert_eq!(state.term[i].query_actual_count, (i + 3) as i64);
    }
    assert_eq!(state.term[9], term(12, 0));
    assert!(state.max.get() >= 12);
    // mean of 3..=12 is 7.5, rounded up
    assert_eq!(state.stats.mean, 8);
}

#[test]
fn prediction_is_mean_plus_mad() {
    let predictor = Predictor::new(config(RejectedPredicted {}));
    let mut state = PredictorState::default();
    state.stats = PredictorStats { mean: 7, MAD: 3, MSD: 0 };
    state.term[9] = term(0, 4);
    let (p, a) = predictor.prepare_next_term(&state);
    assert_eq!(p, Prediction { query_count: 10 });
    assert_eq!(a, Action { id_wildcard_recommended_count: 14 });
    assert_eq!(Prediction::from(6), Prediction { query_count: 6 });
}

fn state_with(actual: i64, pending: i64, max: i64, mean: i64, msd: i64) -> PredictorState {
    let mut state = PredictorState::default();
    state.term[9] = term(actual, pending);
    state.max.update(max);
    state.stats = PredictorStats { mean, MAD: 0, MSD: msd };
    state
}

#[test]
fn strategy_formulas() {
    let s = state_with(7, 2, 0, 0, 0);
    let p = Prediction { query_count: 5 };
    let count = |a: Action| a.id_wildcard_recommended_count;
    assert_eq!(count(PredictedPredictedSmartActual {}.make(&s, p)), 5 * 2 + 7);
    assert_eq!(count(PredictedSmartActualSmartActual {}.make(&s, p)), 5 + 2 * 7);
    assert_eq!(count(RejectedPredictedSmartActualSmartActual {}.make(&s, p)), 2 + 5 + 14);
    assert_eq!(count(RejectedPredicted {}.make(&s, p)), 7);
    assert_eq!(count(RejectedPredictedSmartActual {}.make(&s, p)), 2 + 5 + 7);
    assert_eq!(count(RejectedPredictedActual {}.make(&s, p)), 2 + 5 + 7);
    assert_eq!(count(RejectedActual {}.make(&s, p)), 9);
    assert_eq!(count(Rejected {}.make(&s, p)), 2);
    let q = Prediction { query_count: 9 };
    assert_eq!(count(PredictedPredictedSmartActual {}.make(&s, q)), 9 * 2 + 9);
}

#[test]
fn meld_strategies_keep_the_maximum() {
    let p = Prediction { query_count: 5 };
    let count = |a: Action| a.id_wildcard_recommended_count;
    let s = state_with(0, 0, 40, 2, 10);
    assert_eq!(count(MeldMax3Predicted {}.make(&s, p)), 40);
    // ceil(sqrt(10)) = 4: 2 + 3 * 4 = 14
    assert_eq!(count(MeldMax3Sigma {}.make(&s, p)), 40);
    assert_eq!(count(MeldMax3MaxPredicted {}.make(&s, p)), 42);
    let s = state_with(0, 0, 3, 2, 10);
    assert_eq!(count(MeldMax3Predicted {}.make(&s, p)), 15);
    assert_eq!(count(MeldMax3Sigma {}.make(&s, p)), 14);
    let s = state_with(0, 0, 0, 1, 16);
    assert_eq!(count(MeldMax3Sigma {}.make(&s, p)), 1 + 12);
    let s = state_with(0, 0, 0, 1, 17);
    assert_eq!(count(MeldMax3Sigma {}.make(&s, p)), 1 + 15);
    let s = state_with(0, 0, 0, 1, -3);
    assert_eq!(count(MeldMax3Sigma {}.make(&s, p)), 1);
}

#[test]
fn or_rejected_falls_back_to_rejected_count() {
    let rule = OrRejected::new(PredictedPredictedSmartActual {});
    let s = state_with(0, 6, 0, 0, 0);
    let zero = Prediction { query_count: 0 };
    assert_eq!(rule.make(&s, zero).id_wildcard_recommended_count, 6);
    let p = Prediction { query_count: 2 };
    assert_eq!(rule.make(&s, p).id_wildcard_recommended_count, 2 * 2 + 2);
    let s = state_with(0, 0, 0, 0, 0);
    assert_eq!(rule.make(&s, zero).id_wildcard_recommended_count, 0);
}

#[test]
fn interpreter_serves_granted_ids_first_in_first_out() {
    let mut it = Interpreter::new(config(Rejected {}));
    assert_eq!(it.current_term(), 0);
    assert_eq!(it.handle_query(0), None);
    it.handle_lock_response(Range::from_range(100, 102));
    it.handle_lock_response(Range::from_range(7, 7));
    it.handle_lock_response(Range::from_range(50, 51));
    assert_eq!(it.handle_query(0), Some(100));
    assert_eq!(it.handle_query(0), Some(101));
    assert_eq!(it.handle_query(3), Some(50));
    assert_eq!(it.handle_query(0), None);
    let d = it.dump_state();
    assert_eq!(d.term, 0);
    assert_eq!(d.actual, 4);
    assert_eq!(d.rejected, 2);
    assert_eq!(d.id_remained, 0);
}

#[test]
fn interpreter_requests_up_to_recommendation() {
    let mut it = Interpreter::new(config(Rejected {}));
    for _ in 0..5 {
        assert_eq!(it.handle_query(0), None);
    }
    it.handle_lock_response(Range::from_range(0, 2));
    it.finish_term();
    // recommendation: the 5 rejected queries; 2 identifiers are held
    assert_eq!(it.create_lock_request(), 3);
    it.handle_lock_response(Range::from_c_range(2, 3));
    assert_eq!(it.dump_state().id_remained, 5);
    it.advance_term();
    assert_eq!(it.current_term(), 1);
    assert_eq!(it.handle_query(1), Some(0));
}

#[test]
fn interpreter_clears_pool_when_nothing_is_recommended() {
    let mut it = Interpreter::new(config(Rejected {}));
    it.handle_lock_response(Range::from_range(0, 4));
    it.finish_term();
    assert_eq!(it.create_lock_request(), 0);
    it.advance_term();
    assert_eq!(it.handle_query(1), None);
}

fn simulate<M: MakeAction + Copy>(action: M, queries: Vec<Query>) -> (Vec<Query>, usize) {
    let mut sim = Simulator::new(config(action));
    sim.set_queries(queries);
    sim.set_drop_term_request(BTreeSet::new());
    sim.run();
    (sim.extract_queries(), sim.extract_terms().len())
}

fn served_ids_are_distinct(queries: &[Query]) -> bool {
    let served: Vec<u64> = queries.iter().filter(|q| q.term_result != 0).map(|q| q.id_result).collect();
    let set: BTreeSet<u64> = served.iter().cloned().collect();
    set.len() == served.len()
}

#[test]
fn simulation_serves_in_time_and_ends() {
    let queries = generate_sparse(40);
    let term_max = queries.iter().map(|q| q.term_start).max().unwrap();
    let (done, terms) = simulate(RejectedPredicted {}, queries);
    assert!(done.iter().all(|q| q.term_result == 0 || q.term_start <= q.term_result));
    let pending = done.iter().any(|q| q.term_result == 0);
    // the run stops when nothing is pending or the term passed term_max + 10
    assert!(!pending || terms as u64 > term_max + 10);
    assert!(terms as u64 <= term_max + 11);
}

#[test]
fn simulation_serves_with_distinct_ids() {
    let queries = generate_spikes(30);
    let (done, terms) = simulate(RejectedPredictedSmartActual {}, queries.clone());
    assert_eq!(done.len(), queries.len());
    assert!(terms > 0);
    assert!(served_ids_are_distinct(&done));
    let (done, _) = simulate(OrRejected::new(MeldMax3Sigma {}), generate_gambling(20));
    assert!(served_ids_are_distinct(&done));
}

#[test]
fn simulation_small_scenario() {
    let mut queries = vec![];
    for (index, start) in [1_u64, 1, 2].iter().enumerate() {
        queries.push(Query { index: index as u64, term_start: *start, term_result: 0, id_result: 0 });
    }
    let (done, terms) = simulate(Rejected {}, queries);
    // each query is rejected in its term by its shard (index modulo 5); the
    // rejection is locked for at the end of the term and served in the next
    let results: Vec<(u64, u64)> = done.iter().map(|q| (q.term_result, q.id_result)).collect();
    assert_eq!(results, vec![(2, 0), (2, 1), (3, 2)]);
    assert!(served_ids_are_distinct(&done));
    // every term that was served is ended, the last one included
    assert_eq!(terms, 4);
}

#[test]
fn simulation_serves_rejected_query_next_term() {
    let queries = vec![Query { index: 0, term_start: 0, term_result: 0, id_result: 0 }];
    let (done, terms) = simulate(Rejected {}, queries);
    assert_eq!(terms, 2);
    assert_eq!((done[0].term_result, done[0].id_result), (1, 0));
}

/// A rule that never recommends identifiers.
#[derive(Clone, Copy, Debug)]
struct Never;

impl MakeAction for Never {
    fn admits(&self, _state: PredictorModel, _pred: Prediction) -> bool {
        true
    }

    fn action_of(&self, _state: PredictorModel, _pred: Prediction) -> Action {
        Action { id_wildcard_recommended_count: 0 }
    }

    fn make(&self, _state: &PredictorState, _pred: Prediction) -> Action {
        Action { id_wildcard_recommended_count: 0 }
    }
}

#[test]
fn simulation_stops_at_horizon() {
    // a query that is never given an identifier: the run ends once the term
    // passes 0 + 10
    let queries = vec![Query { index: 0, term_start: 0, term_result: 0, id_result: 0 }];
    let mut sim = Simulator::new(config(Never));
    sim.set_queries(queries);
    sim.run();
    assert_eq!(sim.extract_terms().len(), 11);
    assert_eq!(sim.extract_queries()[0].term_result, 0);
}

fn counts_per_term(queries: &[Query]) -> Vec<usize> {
    let mut counts = vec![];
    for q in queries {
        let t = q.term_start as usize;
        while counts.len() <= t {
            counts.push(0);
        }
        counts[t] += 1;
    }
    counts
}

fn indices_are_positions(queries: &[Query]) -> bool {
    queries.iter().enumerate().all(|(i, q)| q.index == i as u64 && q.term_result == 0 && q.id_result == 0)
}

#[test]
fn spikes_workload_shape() {
    let queries = generate_spikes(100);
    assert!(indices_are_positions(&queries));
    let counts = counts_per_term(&queries);
    assert_eq!(counts.len(), 100);
    assert!(counts.iter().all(|c| 4 <= c % 50 && c % 50 < 10));
    assert_eq!(counts.iter().map(|c| c / 50).sum::<usize>(), 10);
    assert!(queries.windows(2).all(|w| w[0].term_start <= w[1].term_start));
    assert!(counts.iter().any(|c| c % 50 != 4));
}

#[test]
fn sparse_workload_shape() {
    let queries = generate_sparse(40);
    assert!(indices_are_positions(&queries));
    assert!(queries.iter().all(|q| q.term_start % 4 == 0 && q.term_start < 40));
    let counts = counts_per_term(&queries);
    assert!(counts.iter().step_by(4).all(|c| 4 <= c % 50 && c % 50 < 10));
}

#[test]
fn gambling_workload_shape() {
    let queries = generate_gambling(3);
    assert!(indices_are_positions(&queries));
    let counts = counts_per_term(&queries);
    assert_eq!(counts.len(), 10);
    assert_eq!(counts[3], 2000);
    assert!(counts.iter().enumerate().all(|(t, c)| t == 3 || (4 <= *c && *c < 10)));
}

#[test]
fn drops_are_terms_below_count() {
    let drops = generate_drops(1000, 200);
    assert!(drops.len() <= 200);
    assert!(drops.len() > 1);
    assert!(drops.iter().all(|t| *t < 1000));
    assert!(generate_drops(0, 0).is_empty());
}

#[test]
fn inertion_text() {
    assert_eq!(Inertion::new(15, 16).unwrap().to_string(), "15/16");
    assert_eq!(Inertion::new(-3, 40).unwrap().to_string(), "-3/40");
    assert_eq!(
        Inertion::new(i64::MIN, i64::MAX).unwrap().to_string(),
        format!("{}/{}", i64::MIN, i64::MAX)
    );
    assert_eq!(Inertion::new(0, 7).unwrap().to_string(), "0/7");
}

#[test]
fn debug_state_text() {
    let mut it = Interpreter::new(config(Rejected {}));
    it.handle_query(0);
    it.handle_lock_response(Range::from_range(10, 13));
    let d = it.dump_state();
    assert_eq!(d.to_string(), format!("{:?}", d));
    assert_eq!(
        d.to_string(),
        "DebugState { term: 0, prediction: 0, actual: 1, rejected: 1, id_remained: 3, id_recommended: 1, id_request: 0 }"
    );
}

#[test]
fn stats_ignore_order_and_idle_terms() {
    let mut a = [TermState::default(); 10];
    a[0] = term(5, 1);
    a[3] = term(2, 0);
    a[4] = term(-4, 9);
    a[9] = term(11, 3);
    let mut b = [TermState::default(); 10];
    b[1] = term(11, 0);
    b[2] = term(0, 7);
    b[6] = TermState { query_prediction_count: 8, query_actual_count: 5, query_pending_count: 0, id_remained_count: 2 };
    b[8] = term(2, 4);
    let mut sa = PredictorStats::default();
    let mut sb = PredictorStats { mean: 1, MAD: 1, MSD: 1 };
    sa.calculate(&a);
    sb.calculate(&b);
    assert_eq!(sa, sb);
    // mean = ceil(18 / 3) = 6, MAD = ceil((1 + 4 + 5) / 3) = 4, MSD = ceil((1 + 16 + 25) / 3) = 14
    assert_eq!(sa, PredictorStats { mean: 6, MAD: 4, MSD: 14 });
}

#[test]
fn workload_of_given_counts() {
    let q = queries_from_counts(&vec![2, 0, 1]);
    let expected = vec![
        Query { index: 0, term_start: 0, term_result: 0, id_result: 0 },
        Query { index: 1, term_start: 0, term_result: 0, id_result: 0 },
        Query { index: 2, term_start: 2, term_result: 0, id_result: 0 },
    ];
    assert_eq!(q, expected);
    assert!(queries_from_counts(&vec![]).is_empty());
}
