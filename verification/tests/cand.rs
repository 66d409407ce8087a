use katch2::expr::Expr;
use katch2::holes::aut::{DFA, ENFA};
use katch2::holes::cand::{Cand, Input, State};
use katch2::holes::explicit::{expr_to_dfa, ExplicitDFA};
use katch2::holes::ops::{CompState, WithSinkState};
use katch2::spp::SPPstore;
use std::collections::HashMap;

/// Build an `Input` from concrete fields.
fn input(
    pkt_in: &[bool],
    pkt_start: &[bool],
    states: &[usize],
    pkt_end: &[bool],
    pkt_out: &[bool],
) -> Input {
    Input {
        pkt_in: pkt_in.to_vec(),
        pkt_start: pkt_start.to_vec(),
        states: states.to_vec(),
        pkt_end: pkt_end.to_vec(),
        pkt_out: pkt_out.to_vec(),
    }
}

/// Assert the core guarantee: the `Cand` reproduces every example's label.
fn assert_consistent(cand: &Cand<'_>, store: &mut SPPstore, examples: &[(Input, bool)]) {
    for (inp, label) in examples {
        assert_eq!(cand.accepts_input(store, inp), *label, "example mislabeled");
    }
}

/// A *complete* DFA with `num_states` states: every state has a `top`
/// self-loop, so its transition function is total (the invariant [`Cand`]
/// requires) without changing the state count.
fn example_dfa(store: &mut SPPstore, num_states: usize) -> ExplicitDFA {
    ExplicitDFA {
        start: 0,
        transitions: (0..num_states).map(|i| vec![(store.top, i)]).collect(),
        outputs: vec![store.zero; num_states],
    }
}

#[test]
fn empty_accepts_everything() {
    let mut store = SPPstore::new(2);
    let dfa = example_dfa(&mut store, 2);
    let cand = Cand::from_examples(&mut store, &dfa, &[]).unwrap();
    let inp = input(
        &[true, false],
        &[false, true],
        &[0, 0],
        &[true, true],
        &[false, false],
    );
    assert!(cand.accepts_input(&mut store, &inp));
}

#[test]
fn single_positive() {
    let mut store = SPPstore::new(2);
    let examples = vec![(
        input(
            &[true, false],
            &[false, true],
            &[1, 0],
            &[true, true],
            &[false, true],
        ),
        true,
    )];
    let dfa = example_dfa(&mut store, 2);
    let cand = Cand::from_examples(&mut store, &dfa, &examples).unwrap();
    assert_consistent(&cand, &mut store, &examples);
}

#[test]
fn single_negative() {
    let mut store = SPPstore::new(2);
    let examples = vec![(
        input(
            &[false, false],
            &[false, false],
            &[0, 0],
            &[false, false],
            &[false, false],
        ),
        false,
    )];
    let dfa = example_dfa(&mut store, 2);
    let cand = Cand::from_examples(&mut store, &dfa, &examples).unwrap();
    assert_consistent(&cand, &mut store, &examples);
}

#[test]
fn conflict_detected() {
    let mut store = SPPstore::new(1);
    let mk = || input(&[true], &[false], &[0], &[true], &[false]);
    let examples = vec![(mk(), true), (mk(), false)];
    let dfa = example_dfa(&mut store, 1);
    assert!(Cand::from_examples(&mut store, &dfa, &examples).is_err());
}

#[test]
fn duplicate_same_label_ok() {
    let mut store = SPPstore::new(1);
    let mk = || input(&[true], &[false], &[0], &[true], &[false]);
    let examples = vec![(mk(), true), (mk(), true)];
    let dfa = example_dfa(&mut store, 1);
    let cand = Cand::from_examples(&mut store, &dfa, &examples).unwrap();
    assert_consistent(&cand, &mut store, &examples);
}

#[test]
fn multiple_consistent() {
    let mut store = SPPstore::new(2);
    let examples = vec![
        (
            input(
                &[false, false],
                &[false, false],
                &[0, 0],
                &[false, false],
                &[false, false],
            ),
            true,
        ),
        (
            input(
                &[true, false],
                &[true, false],
                &[1, 0],
                &[true, false],
                &[true, false],
            ),
            true,
        ),
        (
            input(
                &[false, true],
                &[true, false],
                &[0, 1],
                &[true, false],
                &[false, true],
            ),
            false,
        ),
        (
            input(
                &[true, true],
                &[true, true],
                &[1, 1],
                &[false, true],
                &[true, true],
            ),
            false,
        ),
    ];
    let dfa = example_dfa(&mut store, 2);
    let cand = Cand::from_examples(&mut store, &dfa, &examples).unwrap();
    assert_consistent(&cand, &mut store, &examples);
}

/// Two prefix cells with non-conflicting suffix evidence must be merged, so
/// evidence observed under one prefix generalizes to the other (the analogue
/// of `merges_compatible_prefixes` in `spp::learner`).
///
/// With `nv = 1`, `ns = 1` a decision path is `[field, state, output]`:
///
/// * A: `(in=0, start=0)`, state 0, `(end=0, out=0)`, positive → `[0, 0, 0] ↦ 1`
/// * B: `(in=1, start=1)`, state 0, `(end=1, out=0)`, negative → `[3, 0, 2] ↦ 0`
///
/// The field-level cells at branches 0 and 3 exercise *disjoint* output
/// branches (0 vs 2), so they are compatible and merge into one class; the
/// merged output node has row `[1, ·, 0, ·]`, and the fill policy (first
/// defined sibling child) completes it to `mk(1, 1, 0, 1)`.  So the query
/// `(in=1, start=1)`, state 0, `(end=0, out=0)` — B's prefix with A's
/// suffix — routes through field branch 3 to the merged class and lands on
/// output branch 0, an accept.  Without merging, B's prefix cell holds only
/// the lone negative and collapses to reject-all, so the query is rejected.
#[test]
fn merges_compatible_prefixes() {
    let mut store = SPPstore::new(1);
    let dfa = example_dfa(&mut store, 1);
    let examples = vec![
        (input(&[false], &[false], &[0], &[false], &[false]), true),
        (input(&[true], &[true], &[0], &[true], &[false]), false),
    ];
    let cand = Cand::from_examples(&mut store, &dfa, &examples).unwrap();
    assert_consistent(&cand, &mut store, &examples);
    assert!(
        cand.accepts_input(
            &mut store,
            &input(&[true], &[true], &[0], &[false], &[false])
        ),
        "positive evidence under prefix (0,0) must generalize to the merged prefix (1,1)"
    );
}

/// The `ENFA` view must agree with `accepts_input`.
///
/// `example_dfa` has no transitions, so (for `num_states >= 1`) a `Middle`
/// node is a dead end and every accepted trace has length 2:
/// `[pkt_in, pkt_start]`.  After the `Start` step the automaton sits in
/// `Middle(n, identity)` with the last packet equal to `pkt_start`, and its
/// `output` is the `Root` SPP reached by walking `n` through the identity
/// state vector.  That is exactly `accepts_input` on the input whose
/// `states` is the identity and whose `pkt_end` is `pkt_start`.
#[test]
fn enfa_matches_accepts_input() {
    const NV: u32 = 2;
    const NS: usize = 2;

    let bits = |n: u32| {
        (0..n)
            .map(|_| rand::random::<bool>())
            .collect::<Vec<bool>>()
    };
    let identity: Vec<usize> = (0..NS).collect();

    for _ in 0..50 {
        let mut store = SPPstore::new(NV);
        let dfa = example_dfa(&mut store, NS);

        // Build from random (deduplicated) examples.
        let mut seen: HashMap<Vec<usize>, bool> = HashMap::new();
        let mut examples: Vec<(Input, bool)> = Vec::new();
        for _ in 0..20 {
            let states: Vec<usize> = (0..NS).map(|_| rand::random_range(0..NS)).collect();
            let inp = input(&bits(NV), &bits(NV), &states, &bits(NV), &bits(NV));
            let label = rand::random::<bool>();
            let mut key: Vec<usize> = Vec::new();
            key.extend(inp.pkt_in.iter().map(|&b| b as usize));
            key.extend(inp.pkt_start.iter().map(|&b| b as usize));
            key.extend(&inp.states);
            key.extend(inp.pkt_end.iter().map(|&b| b as usize));
            key.extend(inp.pkt_out.iter().map(|&b| b as usize));
            if seen.insert(key, label).is_none() {
                examples.push((inp, label));
            }
        }
        let cand = Cand::from_examples(&mut store, &dfa, &examples).unwrap();

        // The two evaluation paths must agree on arbitrary queries.
        for _ in 0..20 {
            let pkt_in = bits(NV);
            let pkt_start = bits(NV);
            let pkt_out = bits(NV);

            let via_input = cand.accepts_input(
                &mut store,
                &input(&pkt_in, &pkt_start, &identity, &pkt_start, &pkt_out),
            );
            let trace = vec![pkt_in, pkt_start];
            let via_enfa = cand.dfa_accepts(&mut store, &trace, &pkt_out);

            assert_eq!(via_input, via_enfa, "ENFA disagrees with accepts_input");
        }
    }
}

#[test]
fn random_consistent() {
    const NV: u32 = 3;
    const NS: u32 = 2;

    for _ in 0..100 {
        let mut store = SPPstore::new(NV);

        // Collect non-conflicting random examples (dedup by input).
        let mut seen: HashMap<Vec<usize>, bool> = HashMap::new();
        let mut examples: Vec<(Input, bool)> = Vec::new();
        for _ in 0..40 {
            let bits = |n: u32| (0..n).map(|_| rand::random::<bool>()).collect::<Vec<_>>();
            let states: Vec<usize> = (0..NS)
                .map(|_| rand::random_range(0..NS as usize))
                .collect();
            let inp = input(&bits(NV), &bits(NV), &states, &bits(NV), &bits(NV));
            let label = rand::random::<bool>();
            let mut key: Vec<usize> = Vec::new();
            key.extend(inp.pkt_in.iter().map(|&b| b as usize));
            key.extend(inp.pkt_start.iter().map(|&b| b as usize));
            key.extend(&inp.states);
            key.extend(inp.pkt_end.iter().map(|&b| b as usize));
            key.extend(inp.pkt_out.iter().map(|&b| b as usize));
            if seen.insert(key, label).is_none() {
                examples.push((inp, label));
            }
        }

        let dfa = example_dfa(&mut store, NS as usize);
        let cand = Cand::from_examples(&mut store, &dfa, &examples).unwrap();
        assert_consistent(&cand, &mut store, &examples);
    }
}

// ---- Cand ENFA over a transition-bearing DFA (`dup; dup`) ----------
//
// Every test above uses `example_dfa`, which has *no* transitions, so a
// `Middle` state is always a dead end and the ENFA only ever accepts
// length-2 traces.  These tests use a real DFA whose states have
// transitions: `dup; dup`, whose DFA is `0 -one-> 1 -one-> 2` with state 2
// the only (dead) accepting state, accepting exactly `[p, p, p] -> p`.

fn two_dup_dfa(store: &mut SPPstore) -> ExplicitDFA {
    expr_to_dfa(&Expr::sequence(Expr::dup(), Expr::dup()), store)
}

/// Totalize `dfa` (add a sink state) and materialize it, satisfying the
/// completeness invariant `Cand` requires of its DFA.
fn complete(store: &mut SPPstore, dfa: &ExplicitDFA) -> ExplicitDFA {
    ExplicitDFA::from_dfa(store, WithSinkState(dfa))
}

/// Sanity: `dup; dup` accepts exactly the length-3 trace `[p, p, p] -> p`
/// (two dup-crossings), and nothing of length 2 or 4.
#[test]
fn two_dup_dfa_accepts_only_length_three() {
    let mut store = SPPstore::new(1);
    let dfa = two_dup_dfa(&mut store);
    let p = vec![false];
    assert!(!dfa.dfa_accepts(&mut store, &[p.clone(), p.clone()], &p));
    assert!(dfa.dfa_accepts(&mut store, &[p.clone(), p.clone(), p.clone()], &p));
    assert!(!dfa.dfa_accepts(
        &mut store,
        &[p.clone(), p.clone(), p.clone(), p.clone()],
        &p
    ));
}

/// Contrast / control: over the (completed) *single*-`dup` DFA, the
/// most-permissive `Cand` accepts `dup`'s length-2 trace `[p, p] -> p` via
/// the `Start -> Middle -> output` path (which needs no `Middle` step).
#[test]
fn top_cand_over_one_dup_accepts_its_length_two_trace() {
    let mut store = SPPstore::new(1);
    let raw = expr_to_dfa(&Expr::dup(), &mut store);
    let dfa = complete(&mut store, &raw);
    let top = Cand::from_examples(&mut store, &dfa, &[]).unwrap();
    let p = vec![false];
    assert!(top.dfa_accepts(&mut store, &[p.clone(), p.clone()], &p));
}

/// Regression test for the `Cand` ENFA stall over a transition-bearing DFA.
///
/// `Cand::from_examples(.., &[])` is the most-permissive candidate
/// (`Cand::top`, "accepts everything"), so over the (completed) `dup; dup`
/// DFA it must accept the length-3 trace `[p, p, p] -> p` that `dup; dup`
/// produces.  Stepping over an *incomplete* DFA would stall when a component
/// hits a dead state; because the DFA is completed (every dead component
/// flows into the sink), the product keeps stepping and reaches length 3.
#[test]
fn top_cand_over_two_dups_reaches_length_three() {
    let mut store = SPPstore::new(1);
    let raw = two_dup_dfa(&mut store);
    let dfa = complete(&mut store, &raw);
    let top = Cand::from_examples(&mut store, &dfa, &[]).unwrap();
    let p = vec![false];

    // The first `Middle` (identity vector over every state of the completed
    // DFA) steps instead of stalling.
    let start = top.start(&mut store);
    let edges = top.transitions(&mut store, &start);
    assert_eq!(edges.len(), 1, "Start has a single routing edge");
    let middle = edges[0].1.clone();
    let identity: Vec<usize> = (0..dfa.num_states()).collect();
    assert!(
        matches!(middle, State::Middle(_, ref v) if *v == identity),
        "Start lands in Middle with the identity state vector"
    );
    assert!(
        !top.transitions(&mut store, &middle).is_empty(),
        "Middle has outgoing transitions (no component stalls on a dead state)"
    );

    // The most-permissive Cand accepts every trace `dup; dup` does — in
    // particular the length-3 `[p, p, p] -> p` (and, being permissive,
    // longer traces too).
    assert!(top.dfa_accepts(&mut store, &[p.clone(), p.clone()], &p));
    assert!(top.dfa_accepts(&mut store, &[p.clone(), p.clone(), p.clone()], &p));
}

/// [`WithSinkState`] totalizes the transition function: the dead state
/// 2 of `dup; dup` steps to the sink, the sink absorbs everything, and a
/// live state both keeps its real edge and routes the uncovered packet pairs
/// to the sink.
#[test]
fn with_sink_state_totalizes_dead_state() {
    let mut store = SPPstore::new(1);
    let dfa = two_dup_dfa(&mut store); // states 0,1,2 with 2 dead
    let comp = WithSinkState(&dfa);

    // Dead state 2 now steps to the sink on every packet pair.
    assert_eq!(
        comp.transitions(&mut store, &CompState::Inner(2)),
        vec![(store.top, CompState::Sink)]
    );
    // The sink absorbs everything.
    assert_eq!(comp.transitions(&mut store, &CompState::Sink), vec![(store.top, CompState::Sink)]);
    // A live state keeps its real successor and routes the rest to the sink.
    let t0 = comp.transitions(&mut store, &CompState::Inner(0));
    assert!(t0.iter().any(|(_, tgt)| *tgt == CompState::Inner(1)));
    assert!(t0.iter().any(|(_, tgt)| *tgt == CompState::Sink));
}
