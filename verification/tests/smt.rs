use katch2::flags::Flags;
use katch2::holes::cand::Input;
use katch2::holes::explicit::ExplicitDFA;
use katch2::holes::smt::{
    all_known, merge_by, pick_atoms, AbstractBit, AbstractClause, AbstractPacket, Atom,
    Existential, Literal, Reading, SmtLearner, SppVar, Z3,
};
use katch2::sp::SP;
use katch2::spp::{SPPstore, SPP};

const N: u32 = 3;

fn spp_accepts(store: &SPPstore, spp: SPP, p1: &[bool], p2: &[bool]) -> bool {
    store.accepts(spp, p1, p2)
}

fn c(b: bool) -> AbstractBit {
    AbstractBit::Concrete(b)
}

fn ap_concrete(bits: &[bool]) -> AbstractPacket {
    bits.iter().map(|&b| c(b)).collect()
}

fn spp_lit(spp: SppVar, ap1: AbstractPacket, ap2: AbstractPacket, polarity: bool) -> Literal {
    Literal::Spp {
        spp,
        ap1,
        ap2,
        polarity,
    }
}

#[test]
fn test_empty() {
    let mut store = SPPstore::new(N);
    let mut learner = Z3::new(N, Flags::new());
    let s = learner.fresh_spp();
    let result = learner.extract(&mut store).unwrap();
    assert_eq!(result.spps[s.0], store.zero);
}

#[test]
fn test_empty_no_spps() {
    // No SPP slots allocated: extract returns an empty map.
    let mut store = SPPstore::new(N);
    let mut learner = Z3::new(N, Flags::new());
    let result = learner.extract(&mut store).unwrap();
    assert!(result.spps.is_empty());
}

#[test]
fn test_single_positive_unit_clause() {
    let mut store = SPPstore::new(N);
    let mut learner = Z3::new(N, Flags::new());
    let s = learner.fresh_spp();
    learner.add_clause(
        AbstractClause {
            literals: vec![spp_lit(
                s,
                ap_concrete(&[false, false, false]),
                ap_concrete(&[true, true, true]),
                true,
            )],
        },
        &mut store.sp,
    );
    let spp = learner.extract(&mut store).unwrap().spps[s.0];
    assert!(spp_accepts(
        &store,
        spp,
        &[false, false, false],
        &[true, true, true],
    ));
}

#[test]
fn test_single_negative_unit_clause() {
    let mut store = SPPstore::new(N);
    let mut learner = Z3::new(N, Flags::new());
    let s = learner.fresh_spp();
    learner.add_clause(
        AbstractClause {
            literals: vec![spp_lit(
                s,
                ap_concrete(&[true, true, true]),
                ap_concrete(&[false, false, false]),
                false,
            )],
        },
        &mut store.sp,
    );
    let spp = learner.extract(&mut store).unwrap().spps[s.0];
    assert!(!spp_accepts(
        &store,
        spp,
        &[true, true, true],
        &[false, false, false],
    ));
}

#[test]
fn test_conflicting_unit_clauses() {
    let mut store = SPPstore::new(N);
    let mut learner = Z3::new(N, Flags::new());
    let s = learner.fresh_spp();
    let ap1 = ap_concrete(&[false, false, false]);
    let ap2 = ap_concrete(&[true, false, false]);
    learner.add_clause(
        AbstractClause {
            literals: vec![spp_lit(s, ap1.clone(), ap2.clone(), true)],
        },
        &mut store.sp,
    );
    learner.add_clause(
        AbstractClause {
            literals: vec![spp_lit(s, ap1, ap2, false)],
        },
        &mut store.sp,
    );
    assert!(learner.extract(&mut store).is_err());
}

#[test]
fn test_disjunctive_clause() {
    let mut store = SPPstore::new(N);
    let mut learner = Z3::new(N, Flags::new());
    let s = learner.fresh_spp();
    // (0,0,0)->(0,0,0) is in SPP  OR  (1,1,1)->(1,1,1) is not in SPP
    learner.add_clause(
        AbstractClause {
            literals: vec![
                spp_lit(
                    s,
                    ap_concrete(&[false, false, false]),
                    ap_concrete(&[false, false, false]),
                    true,
                ),
                spp_lit(
                    s,
                    ap_concrete(&[true, true, true]),
                    ap_concrete(&[true, true, true]),
                    false,
                ),
            ],
        },
        &mut store.sp,
    );
    let spp = learner.extract(&mut store).unwrap().spps[s.0];
    let a = spp_accepts(&store, spp, &[false, false, false], &[false, false, false]);
    let b = spp_accepts(&store, spp, &[true, true, true], &[true, true, true]);
    assert!(a || !b, "clause disjunction not satisfied");
}

#[test]
fn test_two_spps_independent() {
    // Two SPP slots constrained independently: s1 must accept (0,0,0)→(1,1,1),
    // s2 must NOT accept (0,0,0)→(0,0,0).  Both constraints satisfiable
    // in isolation; extract returns one SPP per slot.
    let mut store = SPPstore::new(N);
    let mut learner = Z3::new(N, Flags::new());
    let s1 = learner.fresh_spp();
    let s2 = learner.fresh_spp();
    learner.add_clause(
        AbstractClause {
            literals: vec![spp_lit(
                s1,
                ap_concrete(&[false, false, false]),
                ap_concrete(&[true, true, true]),
                true,
            )],
        },
        &mut store.sp,
    );
    learner.add_clause(
        AbstractClause {
            literals: vec![spp_lit(
                s2,
                ap_concrete(&[false, false, false]),
                ap_concrete(&[false, false, false]),
                false,
            )],
        },
        &mut store.sp,
    );
    let result = learner.extract(&mut store).unwrap();
    assert!(spp_accepts(
        &store,
        result.spps[s1.0],
        &[false, false, false],
        &[true, true, true],
    ));
    assert!(!spp_accepts(
        &store,
        result.spps[s2.0],
        &[false, false, false],
        &[false, false, false],
    ));
}

/// Singleton SP for a concrete packet (test helper, mirrors aut::singleton_sp).
fn singleton_sp_for_test(store: &mut SPPstore, pkt: &[bool]) -> SP {
    store.sp.singleton(pkt)
}

#[test]
fn test_sp_membership_full_set_is_noop() {
    // sp = full set; adding membership shouldn't change satisfiability.
    let mut store = SPPstore::new(N);
    let mut learner = Z3::new(N, Flags::new());
    let _s = learner.fresh_spp();
    let e: Vec<Existential> = (0..N).map(|_| learner.fresh_existential()).collect();
    learner.add_sp_membership(store.sp.one, &e, &store.sp);
    assert!(learner.extract(&mut store).is_ok());
}

#[test]
fn test_sp_membership_empty_set_is_unsat() {
    let mut store = SPPstore::new(N);
    let mut learner = Z3::new(N, Flags::new());
    let _s = learner.fresh_spp();
    let e: Vec<Existential> = (0..N).map(|_| learner.fresh_existential()).collect();
    learner.add_sp_membership(store.sp.zero, &e, &store.sp);
    assert!(learner.extract(&mut store).is_err());
}

#[test]
fn test_sp_membership_singleton_pins_existentials() {
    // Constrain existentials to be a specific packet, then assert a
    // literal that uses them; the resulting SPP must accept that pair.
    let mut store = SPPstore::new(N);
    let mut learner = Z3::new(N, Flags::new());
    let s = learner.fresh_spp();
    let target = vec![true, false, true];
    let e: Vec<Existential> = (0..N).map(|_| learner.fresh_existential()).collect();
    let pkt_sp = singleton_sp_for_test(&mut store, &target);
    learner.add_sp_membership(pkt_sp, &e, &store.sp);

    // Literal: s accepts (existentials, [false, true, false]).  With
    // existentials pinned to `target`, this forces (target, [false,true,false]) ∈ s.
    let out = vec![false, true, false];
    learner.add_clause(
        AbstractClause {
            literals: vec![spp_lit(
                s,
                e.iter().map(|&ev| AbstractBit::Exist(ev)).collect(),
                out.iter().map(|&b| AbstractBit::Concrete(b)).collect(),
                true,
            )],
        },
        &mut store.sp,
    );

    let result = learner.extract(&mut store).unwrap();
    assert!(spp_accepts(&store, result.spps[s.0], &target, &out));
}

#[test]
fn test_clause_spanning_two_spps() {
    // s1 accepts (0,0,0)→(0,0,0)  OR  s2 does NOT accept (1,1,1)→(1,1,1).
    // A disjunction across distinct SPPs.  The learner must satisfy *one*.
    let mut store = SPPstore::new(N);
    let mut learner = Z3::new(N, Flags::new());
    let s1 = learner.fresh_spp();
    let s2 = learner.fresh_spp();
    learner.add_clause(
        AbstractClause {
            literals: vec![
                spp_lit(
                    s1,
                    ap_concrete(&[false, false, false]),
                    ap_concrete(&[false, false, false]),
                    true,
                ),
                spp_lit(
                    s2,
                    ap_concrete(&[true, true, true]),
                    ap_concrete(&[true, true, true]),
                    false,
                ),
            ],
        },
        &mut store.sp,
    );
    let result = learner.extract(&mut store).unwrap();
    let a = spp_accepts(
        &store,
        result.spps[s1.0],
        &[false, false, false],
        &[false, false, false],
    );
    let b = spp_accepts(
        &store,
        result.spps[s2.0],
        &[true, true, true],
        &[true, true, true],
    );
    assert!(a || !b, "no disjunct satisfied across two SPPs");
}

#[test]
fn test_cand_single_positive() {
    // A single positive Cand literal must be reproduced by the learned Cand.
    let mut store = SPPstore::new(N);
    let dfa = ExplicitDFA {
        start: 0,
        transitions: vec![vec![]],
        outputs: vec![store.zero],
    };
    let mut learner = Z3::new(N, Flags::new());
    let cv = learner.fresh_cand(&dfa);
    learner.add_clause(
        AbstractClause {
            literals: vec![Literal::Cand {
                cand: cv,
                pkt_in: ap_concrete(&[false, false, false]),
                pkt_start: ap_concrete(&[true, false, true]),
                states: vec![0],
                pkt_end: ap_concrete(&[true, true, true]),
                pkt_out: ap_concrete(&[false, false, false]),
                polarity: true,
            }],
        },
        &mut store.sp,
    );
    let solution = learner.extract(&mut store).unwrap();
    let cand = &solution.cands[cv.0];
    assert!(cand.accepts_input(
        &mut store,
        &Input {
            pkt_in: vec![false, false, false],
            pkt_start: vec![true, false, true],
            states: vec![0],
            pkt_end: vec![true, true, true],
            pkt_out: vec![false, false, false],
        },
    ));
}

#[test]
fn test_merge_by_collates_adjacent_keys() {
    // Key on `.0`, sum the `.1` of each group: (0,1),(0,2),(1,3) → (0,3),(1,3).
    let merged = merge_by(
        vec![(0, 1), (0, 2), (1, 3)],
        |&(k, _)| k,
        |a, b| (a.0, a.1 + b.1),
    );
    assert_eq!(merged, vec![(0, 3), (1, 3)]);
}

#[test]
fn test_merge_by_unsorted_input() {
    // Groups need not be pre-sorted; `merge_by` sorts first.
    let merged = merge_by(
        vec![(1, 10), (0, 1), (1, 20), (0, 2)],
        |&(k, _)| k,
        |a, b| (a.0, a.1 + b.1),
    );
    assert_eq!(merged, vec![(0, 3), (1, 30)]);
}

#[test]
fn test_spp_member_shared_input_merges() {
    // Two positive membership disjuncts sharing an input set but with
    // different singleton output sets.  After merge they collapse into one
    // disjunct over the unioned output set, so the learned SPP must accept
    // at least one of the two in→out pairs.
    let mut store = SPPstore::new(N);
    let mut learner = Z3::new(N, Flags::new());
    let s = learner.fresh_spp();

    let in_pkt = vec![true, false, true];
    let out_a = vec![false, false, false];
    let out_b = vec![true, true, true];
    let in_sp = singleton_sp_for_test(&mut store, &in_pkt);
    let out_sp_a = singleton_sp_for_test(&mut store, &out_a);
    let out_sp_b = singleton_sp_for_test(&mut store, &out_b);

    learner.add_clause(
        AbstractClause {
            literals: vec![
                Literal::SppMember {
                    spp: s,
                    in_sp,
                    out_sp: out_sp_a,
                },
                Literal::SppMember {
                    spp: s,
                    in_sp,
                    out_sp: out_sp_b,
                },
            ],
        },
        &mut store.sp,
    );

    let spp = learner.extract(&mut store).unwrap().spps[s.0];
    let a = spp_accepts(&store, spp, &in_pkt, &out_a);
    let b = spp_accepts(&store, spp, &in_pkt, &out_b);
    assert!(a || b, "merged membership disjunct not realized");
}

/// Two clauses sharing the atom `(p,q) ∈ s`: a unit clause and a
/// disjunction with a second, unforced atom.  The greedy cover selects the
/// shared atom once, covers the second clause with it, and feeds exactly
/// one example.
fn shared_atom_learner(store: &mut SPPstore, positive: bool) -> (Z3<'static>, SppVar) {
    let p = [false, false, false];
    let q = [true, true, true];
    let r = [true, false, true];
    let t = [false, true, false];
    let mut learner = Z3::new(N, Flags::new());
    let s = learner.fresh_spp();
    learner.add_clause(
        AbstractClause {
            literals: vec![spp_lit(s, ap_concrete(&p), ap_concrete(&q), positive)],
        },
        &mut store.sp,
    );
    learner.add_clause(
        AbstractClause {
            literals: vec![
                spp_lit(s, ap_concrete(&p), ap_concrete(&q), positive),
                spp_lit(s, ap_concrete(&r), ap_concrete(&t), true),
            ],
        },
        &mut store.sp,
    );
    (learner, s)
}

#[test]
fn test_greedy_cover_selects_shared_atom_once() {
    let mut store = SPPstore::new(N);
    let (learner, s) = shared_atom_learner(&mut store, true);
    let selected = learner.select_examples(true).unwrap();
    let examples = &selected.spps[s.0];
    assert_eq!(examples.len(), 1, "shared atom must be selected only once");
    assert_eq!(examples[0].input, vec![false, false, false]);
    assert_eq!(examples[0].output, vec![true, true, true]);
    assert!(examples[0].in_spp);
    assert!(selected.cands.is_empty());
}

#[test]
fn test_greedy_cover_selects_shared_negative_atom_once() {
    // Same shape, with the shared atom appearing negatively: the unit
    // clause forces (p,q) ∉ s, so the second clause is covered by the
    // negative atom and the single example is labelled `false`.
    let mut store = SPPstore::new(N);
    let (learner, s) = shared_atom_learner(&mut store, false);
    let selected = learner.select_examples(true).unwrap();
    let examples = &selected.spps[s.0];
    assert_eq!(examples.len(), 1, "shared atom must be selected only once");
    assert_eq!(examples[0].input, vec![false, false, false]);
    assert_eq!(examples[0].output, vec![true, true, true]);
    assert!(!examples[0].in_spp);
}

#[test]
fn test_select_all_examples_keeps_unshared_atom() {
    // Same clauses, but with minimization off: both atoms — the shared
    // (p,q) and the unforced (r,t) — become examples, deduplicated, each
    // labelled with its value under the model.
    let mut store = SPPstore::new(N);
    let (learner, s) = shared_atom_learner(&mut store, true);
    let selected = learner.select_examples(false).unwrap();
    let examples = &selected.spps[s.0];
    assert_eq!(examples.len(), 2, "both atoms kept, each exactly once");
    assert_eq!(examples[0].input, vec![false, false, false]);
    assert_eq!(examples[0].output, vec![true, true, true]);
    assert!(examples[0].in_spp, "the forced atom keeps its model value");
}

#[test]
fn test_extract_with_shared_atom() {
    // End-to-end: extraction over the shared-atom clauses learns an SPP
    // from the single selected example, which must accept (p,q).
    let mut store = SPPstore::new(N);
    let (mut learner, s) = shared_atom_learner(&mut store, true);
    let spp = learner.extract(&mut store).unwrap().spps[s.0];
    assert!(spp_accepts(
        &store,
        spp,
        &[false, false, false],
        &[true, true, true],
    ));
}

#[test]
fn test_mixed_spp_cand_clause() {
    // One clause spanning an SPP slot and a Cand slot: the learner must
    // satisfy at least one disjunct.
    let mut store = SPPstore::new(N);
    let dfa = ExplicitDFA {
        start: 0,
        transitions: vec![vec![]],
        outputs: vec![store.zero],
    };
    let mut learner = Z3::new(N, Flags::new());
    let s = learner.fresh_spp();
    let cv = learner.fresh_cand(&dfa);
    let input = Input {
        pkt_in: vec![false, false, false],
        pkt_start: vec![true, false, true],
        states: vec![0],
        pkt_end: vec![true, true, true],
        pkt_out: vec![false, false, false],
    };
    learner.add_clause(
        AbstractClause {
            literals: vec![
                spp_lit(
                    s,
                    ap_concrete(&[false, false, false]),
                    ap_concrete(&[true, true, true]),
                    true,
                ),
                Literal::Cand {
                    cand: cv,
                    pkt_in: ap_concrete(&input.pkt_in),
                    pkt_start: ap_concrete(&input.pkt_start),
                    states: input.states.clone(),
                    pkt_end: ap_concrete(&input.pkt_end),
                    pkt_out: ap_concrete(&input.pkt_out),
                    polarity: true,
                },
            ],
        },
        &mut store.sp,
    );
    let solution = learner.extract(&mut store).unwrap();
    let a = spp_accepts(
        &store,
        solution.spps[s.0],
        &[false, false, false],
        &[true, true, true],
    );
    let b = solution.cands[cv.0].accepts_input(&mut store, &input);
    assert!(a || b, "no disjunct satisfied across SPP and Cand");
}

fn reading(slot: usize, value: bool, polarity: bool) -> Reading {
    Reading {
        atom: Atom::Spp(slot, vec![false], vec![true]),
        value,
        polarity,
    }
}

fn slots(sel: &[(Atom, bool)]) -> Vec<(usize, bool)> {
    sel.iter()
        .map(|(a, label)| match a {
            Atom::Spp(k, p, q) => {
                assert_eq!((p, q), (&vec![false], &vec![true]));
                (*k, *label)
            }
            Atom::Cand(k, _) => (*k + 100, *label),
        })
        .collect()
}

#[test]
fn few_atoms_are_picked_where_few_suffice() {
    let clauses = || {
        vec![
            vec![reading(0, false, true), reading(1, false, false), reading(2, true, true)],
            vec![reading(3, true, true), reading(1, false, false)],
            vec![reading(1, false, true), reading(3, true, true)],
            vec![],
        ]
    };
    assert_eq!(slots(&pick_atoms(&clauses(), true)), vec![(1, false), (3, true)]);
    assert_eq!(
        slots(&pick_atoms(&clauses(), false)),
        vec![(0, false), (1, false), (2, true), (3, true)]
    );
    assert!(pick_atoms(&Vec::new(), true).is_empty());
}

#[test]
fn atoms_of_candidates_are_told_apart_by_their_states() {
    let at = |states: Vec<usize>| Reading {
        atom: Atom::Cand(
            0,
            Input {
                pkt_in: vec![false],
                pkt_start: vec![false],
                states,
                pkt_end: vec![true],
                pkt_out: vec![true],
            },
        ),
        value: true,
        polarity: true,
    };
    let clauses = vec![vec![at(vec![0, 1])], vec![at(vec![0, 0])], vec![at(vec![0, 1])]];
    assert_eq!(slots(&pick_atoms(&clauses, true)), vec![(100, true), (100, true)]);
    assert_eq!(slots(&pick_atoms(&clauses, false)), vec![(100, true), (100, true)]);
}

#[test]
fn values_are_known_where_all_are() {
    assert_eq!(all_known(&vec![Some(true), Some(false)]), Some(vec![true, false]));
    assert_eq!(all_known(&vec![Some(true), None, Some(false)]), None);
    assert_eq!(all_known(&vec![]), Some(vec![]));
}
