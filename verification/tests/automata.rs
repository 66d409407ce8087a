use katch2::aut::Aut;
use katch2::expr::{Exp, Expr};
use katch2::holes::aut::{DFA, ENFA, NFA};
use katch2::holes::closure::EpsilonClosure;
use katch2::holes::explicit::{aut_to_dfa, ExplicitDFA, WithVisibility};
use katch2::holes::ops::{complement, intersection, union};
use katch2::holes::reach::{backward_reachable, forward_reachable, Reach};
use katch2::holes::search::{get_any_trace, get_any_trace_with_states, is_empty};
use katch2::holes::subset::SubsetDfa;
use katch2::spp::SPPstore;
use std::collections::HashSet;

/// A random expression over the fields, without holes.
fn random_expr(depth: usize, num_fields: u32) -> Exp {
    if depth == 0 || rand::random_range(0..10u32) < 3 {
        return match rand::random_range(0..6u32) {
            0 => Expr::zero(),
            1 => Expr::one(),
            2 => Expr::top(),
            3 => Expr::dup(),
            4 => Expr::assign(rand::random_range(0..num_fields), rand::random()),
            _ => Expr::test(rand::random_range(0..num_fields), rand::random()),
        };
    }
    let d = depth - 1;
    match rand::random_range(0..7u32) {
        0 => Expr::union(random_expr(d, num_fields), random_expr(d, num_fields)),
        1 => Expr::intersect(random_expr(d, num_fields), random_expr(d, num_fields)),
        2 => Expr::xor(random_expr(d, num_fields), random_expr(d, num_fields)),
        3 => Expr::difference(random_expr(d, num_fields), random_expr(d, num_fields)),
        4 => Expr::sequence(random_expr(d, num_fields), random_expr(d, num_fields)),
        5 => Expr::star(random_expr(d, num_fields)),
        _ => Expr::complement(random_expr(d, num_fields)),
    }
}

/// The number of non-empty sets of a table.
fn entries(reach: &Reach<usize>, store: &SPPstore) -> usize {
    reach
        .sets
        .iter()
        .map(|row| row.iter().filter(|s| **s != store.sp.zero).count())
        .sum()
}

/// Generate a random ExplicitDFA from a fuzzed expression.  The DFA's
/// states are dense `usize` indices; SPPs live in `aut`'s shared store,
/// so multiple DFAs from the same `aut` interoperate freely.
fn random_dfa(aut: &mut Aut, expr_depth: usize, num_fields: u32) -> ExplicitDFA {
    let (expr, _) = (random_expr(expr_depth, num_fields), 0);
    let state = aut.expr_to_state(&expr);
    aut_to_dfa(aut, state)
}

/// Generate a random NFA: a [`random_dfa`] with random visibility flags
/// (start kept visible) wrapped in [`EpsilonClosure`].  The closure
/// makes it a real NFA (every wrapper state visible) over the same
/// `usize` state space.
fn random_nfa(
    aut: &mut Aut,
    expr_depth: usize,
    num_fields: u32,
) -> EpsilonClosure<WithVisibility> {
    let dfa = random_dfa(aut, expr_depth, num_fields);
    let n = dfa.num_states();
    let wrapper = WithVisibility {
        inner: dfa,
        visible: (0..n).map(|_| rand::random::<bool>()).collect(),
    };
    EpsilonClosure::new(wrapper)
}

#[test]
fn fuzz_epsilon_closure_emptiness() {
    // Emptiness is a property of the underlying transition graph and is
    // independent of which states are visible.  So wrapping an
    // ExplicitDFA with random visibility flags and pushing it through
    // EpsilonClosure should give the same emptiness verdict.
    let expr_depth = 3;
    let num_fields = 3;
    let max_trials = 40;

    for trial in 0..max_trials {
        let mut aut = Aut::new(num_fields);
        let nfa = random_nfa(&mut aut, expr_depth, num_fields);
        // The underlying ExplicitDFA is two `inner()` hops down; reach in
        // through the field on `RandomVisibility`.
        let dfa_empty = is_empty(&nfa.inner().inner, aut.spp_store_mut());
        let closure_empty = is_empty(&nfa, aut.spp_store_mut());
        assert_eq!(
            dfa_empty, closure_empty,
            "emptiness mismatch on trial {}: dfa={}, closure={}",
            trial, dfa_empty, closure_empty
        );
    }
}

#[test]
fn fuzz_elaborate_step() {
    // For each step of an EpsilonClosure trace, `elaborate_step` should
    // recover an inner-ENFA path from one visible state to the next,
    // possibly through invisible intermediates.  Concatenating these per-
    // step paths yields a full path through the inner ENFA, every step of
    // which must be a valid `inner.transitions` step.
    let expr_depth = 3;
    let num_fields = 3;
    let max_trials = 40;

    for trial in 0..max_trials {
        let mut aut = Aut::new(num_fields);
        let closure = random_nfa(&mut aut, expr_depth, num_fields);

        if is_empty(&closure, aut.spp_store_mut()) {
            continue;
        }

        let trace = get_any_trace_with_states(&closure, aut.spp_store_mut())
            .expect("non-empty closure should yield a trace");
        let (visible_path, output_pkt) = trace;

        let full_path =
            closure.elaborate_trace(aut.spp_store_mut(), &visible_path, &output_pkt);

        // Every consecutive `(q, p) -> (q', p')` in the elaborated path
        // must be backed by a real inner transition matching the packets.
        for i in 0..full_path.len().saturating_sub(1) {
            let (q_a, p_a) = full_path[i].clone();
            let (q_b, p_b) = full_path[i + 1].clone();
            let trans = closure.inner().transitions(aut.spp_store_mut(), &q_a);
            let mut found = false;
            for (spp, q_n) in trans {
                if q_n == q_b && aut.spp_store_mut().accepts(spp, &p_a, &p_b) {
                    found = true;
                    break;
                }
            }
            assert!(
                found,
                "trial {}: elaborated step #{} ({}, {:?}) -> ({}, {:?}) is not a valid inner transition",
                trial, i, q_a, p_a, q_b, p_b,
            );
        }

        // The elaboration starts at the visible start...
        let (start_q, start_p) = &visible_path[0];
        assert_eq!(*start_q, full_path.first().unwrap().0);
        assert_eq!(start_p, &full_path.first().unwrap().1);

        // ...and ends at a state whose inner output emits the trace's
        // output packet -- possibly an invisible state spliced in past the
        // last visible one (the `elaborate_tail` fix).
        let (end_q, end_p) = full_path.last().unwrap().clone();
        let out_spp = closure.inner().output(aut.spp_store_mut(), &end_q);
        assert!(
            aut.spp_store_mut().accepts(out_spp, &end_p, &output_pkt),
            "trial {}: elaborated path ends at ({}, {:?}) which does not emit output {:?}",
            trial,
            end_q,
            end_p,
            output_pkt,
        );
    }
}

#[test]
fn fuzz_subset_dfa() {
    // Wrap a random ExplicitDFA in random visibility + EpsilonClosure to
    // get a real NFA, then determinize it via SubsetDfa.  The DFA must:
    //   * be empty iff the NFA is empty;
    //   * have exactly one start (so dfa_start works);
    //   * accept its own random trace under both dfa_accepts and the
    //     underlying NFA's nfa_accepts.
    let expr_depth = 3;
    let num_fields = 3;
    let max_trials = 40;

    for trial in 0..max_trials {
        let mut aut = Aut::new(num_fields);
        let nfa = random_nfa(&mut aut, expr_depth, num_fields);
        let subset = SubsetDfa::new(nfa);

        let nfa_empty = is_empty(subset.inner(), aut.spp_store_mut());
        let subset_empty = is_empty(&subset, aut.spp_store_mut());
        assert_eq!(
            nfa_empty, subset_empty,
            "trial {}: emptiness mismatch (nfa={}, subset={})",
            trial, nfa_empty, subset_empty
        );

        // Single-start invariant.
        let _ = subset.start(aut.spp_store_mut());

        if !subset_empty {
            let trace = get_any_trace(&subset, aut.spp_store_mut())
                .expect("non-empty subset DFA should yield a trace");
            let (t, output) = trace;
            assert!(
                subset.dfa_accepts(aut.spp_store_mut(), &t, &output),
                "trial {}: subset DFA rejects its own trace",
                trial,
            );
            assert!(
                subset.inner().nfa_accepts(aut.spp_store_mut(), &t, &output),
                "trial {}: underlying NFA rejects the subset DFA's trace",
                trial,
            );
        }
    }
}

#[test]
fn fuzz_reachable_from_trace() {
    // A trace produced by `get_any_trace_with_states` records, for each
    // step after the start, the `(state, current_packet)` pair the trace
    // visits.  Feeding the bare packet trace plus the input back through
    // `reachable_from_trace` must reach at least all of those pairs --
    // it explores the full nondeterministic frontier, which is a
    // superset of any one accepting path.
    let expr_depth = 3;
    let num_fields = 3;
    let max_trials = 40;

    for trial in 0..max_trials {
        let mut aut = Aut::new(num_fields);
        let nfa = random_nfa(&mut aut, expr_depth, num_fields);

        if is_empty(&nfa, aut.spp_store_mut()) {
            continue;
        }

        let (path, _output) = get_any_trace_with_states(&nfa, aut.spp_store_mut())
            .expect("non-empty NFA should yield a trace");
        let trace_pkts: Vec<Vec<bool>> = path.iter().map(|(_, p)| p.clone()).collect();

        let reachable = nfa.reachable_from_trace(aut.spp_store_mut(), &trace_pkts);
        let reachable_set: HashSet<(_, Vec<bool>)> = reachable
            .into_iter()
            .map(|(q, p)| (q, p.to_vec()))
            .collect();

        for (i, (q, p)) in path.iter().enumerate() {
            assert!(
                reachable_set.contains(&(*q, p.clone())),
                "trial {}: path step {} ({:?}, {:?}) missing from reachable_from_trace result",
                trial,
                i,
                q,
                p,
            );
        }
    }
}

#[test]
fn fuzz_complement() {
    // For a DFA `D` and any concrete triple `(input, trace, output)`:
    //   D.dfa_accepts(triple) iff NOT complement(D).dfa_accepts(triple).
    // Verify with a triple from each side (when non-empty).
    let expr_depth = 3;
    let num_fields = 3;
    let max_trials = 40;

    for trial in 0..max_trials {
        let mut aut = Aut::new(num_fields);
        let dfa = random_dfa(&mut aut, expr_depth, num_fields);
        let comp = complement(&dfa);

        // A trace accepted by the original is rejected by the complement.
        if let Some((t, output)) = get_any_trace(&dfa, aut.spp_store_mut()) {
            assert!(
                dfa.dfa_accepts(aut.spp_store_mut(), &t, &output),
                "trial {}: dfa rejects its own trace",
                trial
            );
            assert!(
                !comp.dfa_accepts(aut.spp_store_mut(), &t, &output),
                "trial {}: complement accepts a trace the DFA accepts",
                trial
            );
        }

        // A trace accepted by the complement is rejected by the original.
        if let Some((t, output)) = get_any_trace(&comp, aut.spp_store_mut()) {
            assert!(
                comp.dfa_accepts(aut.spp_store_mut(), &t, &output),
                "trial {}: complement rejects its own trace",
                trial
            );
            assert!(
                !dfa.dfa_accepts(aut.spp_store_mut(), &t, &output),
                "trial {}: dfa accepts a trace the complement accepts",
                trial
            );
        }
    }
}

#[test]
fn fuzz_union() {
    // Property: union(A, B) accepts a triple iff A or B accepts it.
    // Forward: if A or B accepts a triple, union should too.
    // Reverse: any triple union accepts must be accepted by A or B.
    let expr_depth = 3;
    let num_fields = 3;
    let max_trials = 40;

    for trial in 0..max_trials {
        let mut aut = Aut::new(num_fields);
        let nfa1 = random_nfa(&mut aut, expr_depth, num_fields);
        let nfa2 = random_nfa(&mut aut, expr_depth, num_fields);

        // Build the union (an ENFA) and run it through EpsilonClosure to
        // get a queryable NFA -- the union has no real ε states under
        // our list-based start, so the closure is a thin pass-through.
        let union_enfa = union(&nfa1, &nfa2);
        let union_nfa = EpsilonClosure::new(union_enfa);

        // Forward: trace from nfa1 is accepted by union.
        if let Some((t, output)) = get_any_trace(&nfa1, aut.spp_store_mut()) {
            assert!(
                union_nfa.nfa_accepts(aut.spp_store_mut(), &t, &output),
                "trial {}: union rejects a trace nfa1 accepts",
                trial
            );
        }
        // Forward: trace from nfa2 is accepted by union.
        if let Some((t, output)) = get_any_trace(&nfa2, aut.spp_store_mut()) {
            assert!(
                union_nfa.nfa_accepts(aut.spp_store_mut(), &t, &output),
                "trial {}: union rejects a trace nfa2 accepts",
                trial
            );
        }
        // Reverse: trace from union is accepted by nfa1 or nfa2.
        if let Some((t, output)) = get_any_trace(&union_nfa, aut.spp_store_mut()) {
            let in1 = nfa1.nfa_accepts(aut.spp_store_mut(), &t, &output);
            let in2 = nfa2.nfa_accepts(aut.spp_store_mut(), &t, &output);
            assert!(
                in1 || in2,
                "trial {}: union accepts a trace neither nfa1 nor nfa2 accepts",
                trial,
            );
        }
    }
}

#[test]
fn fuzz_intersection() {
    // Property: intersection(A, B) accepts a triple iff both A and B do.
    // Tests both the NFA case and the DFA-DFA case (where the result is
    // a real DFA via the conditional `impl<A: DFA, B: DFA> DFA for ...`).
    let expr_depth = 3;
    let num_fields = 3;
    let max_trials = 40;

    for trial in 0..max_trials {
        let mut aut = Aut::new(num_fields);

        // NFA-NFA case.
        let nfa1 = random_nfa(&mut aut, expr_depth, num_fields);
        let nfa2 = random_nfa(&mut aut, expr_depth, num_fields);
        let inter = intersection(&nfa1, &nfa2);

        // Reverse: any trace from intersection is accepted by both.
        if let Some((t, output)) = get_any_trace(&inter, aut.spp_store_mut()) {
            assert!(
                nfa1.nfa_accepts(aut.spp_store_mut(), &t, &output),
                "trial {}: nfa1 rejects a trace from the intersection",
                trial
            );
            assert!(
                nfa2.nfa_accepts(aut.spp_store_mut(), &t, &output),
                "trial {}: nfa2 rejects a trace from the intersection",
                trial
            );
        }

        // Forward (best-effort): if a trace from nfa1 is also accepted by
        // nfa2, the intersection must accept it.
        if let Some((t, output)) = get_any_trace(&nfa1, aut.spp_store_mut()) {
            if nfa2.nfa_accepts(aut.spp_store_mut(), &t, &output) {
                assert!(
                    inter.nfa_accepts(aut.spp_store_mut(), &t, &output),
                    "trial {}: intersection rejects a trace accepted by both nfa1 and nfa2",
                    trial
                );
            }
        }

        // DFA-DFA case: result is a DFA.
        let dfa1 = random_dfa(&mut aut, expr_depth, num_fields);
        let dfa2 = random_dfa(&mut aut, expr_depth, num_fields);
        let inter_dfa = intersection(&dfa1, &dfa2);

        // Single-start invariant (always trivially holds now).
        let _ = inter_dfa.start(aut.spp_store_mut());

        if let Some((t, output)) = get_any_trace(&inter_dfa, aut.spp_store_mut()) {
            assert!(
                dfa1.dfa_accepts(aut.spp_store_mut(), &t, &output),
                "trial {}: dfa1 rejects a trace from the DFA intersection",
                trial
            );
            assert!(
                dfa2.dfa_accepts(aut.spp_store_mut(), &t, &output),
                "trial {}: dfa2 rejects a trace from the DFA intersection",
                trial
            );
            assert!(
                inter_dfa.dfa_accepts(aut.spp_store_mut(), &t, &output),
                "trial {}: DFA intersection rejects its own trace",
                trial
            );
        }
    }
}

#[test]
fn fuzz_explicit_dfa() {
    let expr_depth = 3;
    let num_fields = 3;
    let max_trials = 40;

    for trial in 0..max_trials {
        let (expr, _) = (random_expr(expr_depth, num_fields), 0);

        let mut aut = Aut::new(num_fields);
        let state = aut.expr_to_state(&expr);

        let dfa = aut_to_dfa(&mut aut, state);

        let our_is_empty = is_empty(&dfa, aut.spp_store_mut());
        let aut_is_empty = aut.is_empty(state);

        assert_eq!(
            our_is_empty, aut_is_empty,
            "is_empty mismatch on trial {} for expr {}: ours={}, aut={}",
            trial, expr.to_text(), our_is_empty, aut_is_empty
        );

        if !our_is_empty {
            let trace = get_any_trace(&dfa, aut.spp_store_mut());
            assert!(
                trace.is_some(),
                "expected a trace for non-empty automaton on trial {} for expr {}",
                trial,
                expr.to_text()
            );
            let (trace_pkts, output) = trace.unwrap();
            let accepted_dfa = dfa.dfa_accepts(aut.spp_store_mut(), &trace_pkts, &output);
            assert!(
                accepted_dfa,
                "trace not accepted by dfa_accepts on trial {} for expr {}: trace={:?}, output={:?}",
                trial, expr.to_text(), trace_pkts, output
            );
            let accepted_nfa = dfa.nfa_accepts(aut.spp_store_mut(), &trace_pkts, &output);
            assert!(
                accepted_nfa,
                "trace not accepted by nfa_accepts on trial {} for expr {}: trace={:?}, output={:?}",
                trial, expr.to_text(), trace_pkts, output
            );
        }
    }
}

// ── backward_reachable ────────────────────────────────────────────────

#[test]
fn backward_single_visible_accepting() {
    // One visible state with output = top; trace of length 1.
    // back[(0,0)] must be exactly {trace[0]} — visible pins the carry,
    // and the top output allows any output packet.
    let mut store = SPPstore::new(3);
    let top = store.top;
    let dfa = ExplicitDFA {
        start: 0,
        transitions: vec![vec![]],
        outputs: vec![top],
    };
    let trace = vec![vec![true, false, true]];
    let output = vec![false, true, false];
    let back = backward_reachable(&dfa, &mut store, &trace, &output, &vec![]);

    assert_eq!(entries(&back, &store), 1);
    let expected = store.sp.singleton(&trace[0]);
    assert_eq!(back.get(&store, &0, 0, trace.len()).unwrap(), expected);
}

#[test]
fn backward_no_output_is_empty() {
    // One visible state with output = zero; nothing can terminate.
    let mut store = SPPstore::new(3);
    let zero = store.zero;
    let dfa = ExplicitDFA {
        start: 0,
        transitions: vec![vec![]],
        outputs: vec![zero],
    };
    let trace = vec![vec![true, false, true]];
    let output = vec![false, true, false];
    let back = backward_reachable(&dfa, &mut store, &trace, &output, &vec![]);
    assert_eq!(entries(&back, &store), 0);
}

#[test]
fn backward_linear_two_visible_states() {
    // 0 --top--> 1, both visible.  output[0]=zero, output[1]=top.
    // back[(1,1)] = {trace[1]}; back[(0,0)] = {trace[0]}; no others.
    let mut store = SPPstore::new(2);
    let top = store.top;
    let zero = store.zero;
    let dfa = ExplicitDFA {
        start: 0,
        transitions: vec![vec![(top, 1)], vec![]],
        outputs: vec![zero, top],
    };
    let trace = vec![vec![false, false], vec![true, true]];
    let output = vec![true, false];
    let back = backward_reachable(&dfa, &mut store, &trace, &output, &vec![]);

    let s0 = store.sp.singleton(&trace[0]);
    let s1 = store.sp.singleton(&trace[1]);
    assert_eq!(back.get(&store, &0, 0, trace.len()).unwrap(), s0);
    assert_eq!(back.get(&store, &1, 1, trace.len()).unwrap(), s1);
    assert_eq!(entries(&back, &store), 2);
}

#[test]
fn backward_with_invisible_intermediate() {
    // 0 (visible) --top--> 1 (invisible) --top--> 2 (visible).
    // output[0]=output[1]=zero, output[2]=top.
    // Trace length 2.  Expected entries:
    //   (2, 1) → {trace[1]}   (visible, pinned)
    //   (1, 0) → all packets  (invisible, transitions to (2,1) via top)
    //   (0, 0) → {trace[0]}   (visible, transitions through 1 to 2)
    let mut store = SPPstore::new(2);
    let top = store.top;
    let zero = store.zero;
    let dfa = ExplicitDFA {
        start: 0,
        transitions: vec![vec![(top, 1)], vec![(top, 2)], vec![]],
        outputs: vec![zero, zero, top],
    };
    let wrap = WithVisibility {
        inner: dfa,
        visible: vec![true, false, true],
    };
    let trace = vec![vec![false, false], vec![true, true]];
    let output = vec![false, true];
    let back = backward_reachable(&wrap, &mut store, &trace, &output, &vec![]);

    let s0 = store.sp.singleton(&trace[0]);
    let s1 = store.sp.singleton(&trace[1]);
    let all = store.sp.one;
    assert_eq!(back.get(&store, &2, 1, trace.len()).unwrap(), s1);
    assert_eq!(back.get(&store, &1, 0, trace.len()).unwrap(), all);
    assert_eq!(back.get(&store, &0, 0, trace.len()).unwrap(), s0);
    assert_eq!(entries(&back, &store), 3);
}

// ── forward_reachable ────────────────────────────────────────────────

#[test]
fn forward_single_state() {
    // One visible state; trace of length 1.  forward[(0, 0)] = {trace[0]}.
    let mut store = SPPstore::new(3);
    let top = store.top;
    let dfa = ExplicitDFA {
        start: 0,
        transitions: vec![vec![]],
        outputs: vec![top],
    };
    let trace = vec![vec![true, false, true]];
    let forward = forward_reachable(&dfa, &mut store, &trace);
    assert_eq!(entries(&forward, &store), 1);
    let expected = store.sp.singleton(&trace[0]);
    assert_eq!(forward.get(&store, &0, 0, trace.len()).unwrap(), expected);
}

#[test]
fn forward_linear_two_visible_states() {
    // 0 --top--> 1, both visible.  forward[(0,0)] = {trace[0]}; forward[(1,1)] = {trace[1]}.
    let mut store = SPPstore::new(2);
    let top = store.top;
    let zero = store.zero;
    let dfa = ExplicitDFA {
        start: 0,
        transitions: vec![vec![(top, 1)], vec![]],
        outputs: vec![zero, zero],
    };
    let trace = vec![vec![false, false], vec![true, true]];
    let forward = forward_reachable(&dfa, &mut store, &trace);
    let s0 = store.sp.singleton(&trace[0]);
    let s1 = store.sp.singleton(&trace[1]);
    assert_eq!(forward.get(&store, &0, 0, trace.len()).unwrap(), s0);
    assert_eq!(forward.get(&store, &1, 1, trace.len()).unwrap(), s1);
    assert_eq!(entries(&forward, &store), 2);
}

#[test]
fn forward_with_invisible_intermediate() {
    // 0 (visible) --top--> 1 (invisible) --top--> 2 (visible).
    // forward[(0,0)] = {trace[0]}; forward[(1,0)] = all packets (no
    // visibility restriction); forward[(2,1)] = {trace[1]}.
    let mut store = SPPstore::new(2);
    let top = store.top;
    let zero = store.zero;
    let dfa = ExplicitDFA {
        start: 0,
        transitions: vec![vec![(top, 1)], vec![(top, 2)], vec![]],
        outputs: vec![zero, zero, zero],
    };
    let wrap = WithVisibility {
        inner: dfa,
        visible: vec![true, false, true],
    };
    let trace = vec![vec![false, false], vec![true, true]];
    let forward = forward_reachable(&wrap, &mut store, &trace);
    let s0 = store.sp.singleton(&trace[0]);
    let s1 = store.sp.singleton(&trace[1]);
    let all = store.sp.one;
    assert_eq!(forward.get(&store, &0, 0, trace.len()).unwrap(), s0);
    assert_eq!(forward.get(&store, &1, 0, trace.len()).unwrap(), all);
    assert_eq!(forward.get(&store, &2, 1, trace.len()).unwrap(), s1);
    assert_eq!(entries(&forward, &store), 3);
}

#[test]
fn forward_dead_end_after_first_step() {
    // 0 (visible) --top--> 1 (visible) --zero--> ... trace requires step but
    // no transition can be taken.  forward only contains (0, 0).
    let mut store = SPPstore::new(2);
    let top = store.top;
    let zero = store.zero;
    let dfa = ExplicitDFA {
        start: 0,
        transitions: vec![vec![(zero, 1)], vec![]],
        outputs: vec![zero, top],
    };
    let trace = vec![vec![false, false], vec![true, true]];
    let forward = forward_reachable(&dfa, &mut store, &trace);
    let s0 = store.sp.singleton(&trace[0]);
    assert_eq!(forward.get(&store, &0, 0, trace.len()).unwrap(), s0);
    assert_eq!(entries(&forward, &store), 1);
}

#[test]
fn backward_unreachable_output_pkt_is_empty() {
    // Output SPP = `one` (identity: only (p, p) accepted).  If
    // output_pkt = [false, false] but trace[0] = [true, true], the only
    // way to terminate at state 0 is pkt = output_pkt = [false, false],
    // but visibility pins pkt = trace[0] = [true, true].  Contradiction:
    // back is empty.
    let mut store = SPPstore::new(2);
    let one = store.one;
    let dfa = ExplicitDFA {
        start: 0,
        transitions: vec![vec![]],
        outputs: vec![one],
    };
    let trace = vec![vec![true, true]];
    let output = vec![false, false];
    let back = backward_reachable(&dfa, &mut store, &trace, &output, &vec![]);
    assert_eq!(entries(&back, &store), 0);
}
