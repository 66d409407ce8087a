//! Learning what fills holes from clauses.
//!
//! The learner has slots, each for a relation or for a candidate, and collects
//! clauses on them: disjunctions of literals, each of which says that a slot has or
//! does not have an input.  The bits of an input may be variables, which are the same
//! in all clauses.  From the clauses it finds a value for each slot that satisfies
//! them, or that there is none.
use std::collections::HashMap;
use vstd::prelude::*;
use vstd::string::*;
use crate::flags::Flags;
use crate::holes::cand::{
    input_ok, input_path, input_widths, inputs_conflict, inputs_told, same_input, Cand, Input,
};
use crate::holes::explicit::ExplicitDFA;
use crate::holes::learner::{
    branches, examples_conflict, fits, fours, learn_spp, pairs_told, Example,
};
use crate::holes::solver::{
    any_true, apply, assert_formula, asserted, bit_term, bool_const, bool_ite, bool_not, bool_or,
    bool_value, declare, declared, eval, interp_of, is_name, meaning, new_solver, num_term, solve,
    value_of, values_of, Answer, AnyTerm, Formula, Interp, Value,
};
use crate::holes::trie::merged;
use crate::sp::{Pkt, SPstore, SP};
use crate::spp::{SPPstore, SPP};
use crate::text::{
    copy_bits, decimal, join2, lemma_decimal_chars, lemma_decimal_differs, number,
};

verus! {

/// A variable for a bit.
#[derive(Copy, Clone, Debug, PartialEq, Eq, Hash, Structural)]
pub struct Existential(pub usize);

/// A slot for a relation.
#[derive(Copy, Clone, Debug, PartialEq, Eq, Hash, Structural)]
pub struct SppVar(pub usize);

/// A slot for a candidate.
#[derive(Copy, Clone, Debug, PartialEq, Eq, Hash, Structural)]
pub struct CandVar(pub usize);

/// A bit of a packet: known, or a variable.
#[derive(Copy, Clone, Debug, PartialEq, Eq, Structural)]
pub enum AbstractBit {
    Concrete(bool),
    Exist(Existential),
}

/// A packet of such bits.
pub type AbstractPacket = Vec<AbstractBit>;

/// A statement on a slot.
#[derive(Debug)]
pub enum Literal {
    /// The relation has the pair of packets, or does not.
    Spp { spp: SppVar, ap1: AbstractPacket, ap2: AbstractPacket, polarity: bool },
    /// The relation has a pair of packets from the two sets.
    SppMember { spp: SppVar, in_sp: SP, out_sp: SP },
    /// The candidate accepts the input, or does not.
    Cand {
        cand: CandVar,
        pkt_in: AbstractPacket,
        pkt_start: AbstractPacket,
        states: Vec<usize>,
        pkt_end: AbstractPacket,
        pkt_out: AbstractPacket,
        polarity: bool,
    },
}

/// A disjunction of literals.
#[derive(Debug)]
pub struct AbstractClause {
    pub literals: Vec<Literal>,
}

/// A value for each slot, in order.
pub struct Solution<'a> {
    pub spps: Vec<SPP>,
    pub cands: Vec<Cand<'a>>,
}

/// No values satisfy all clauses.
#[derive(Debug, Clone, Copy, PartialEq, Eq, Structural)]
pub struct InconsistentError;

impl InconsistentError {
    /// What is wrong.
    pub fn message(&self) -> (s: String)
        ensures
            s@ == "inconsistent clauses"@,
    {
        "inconsistent clauses".to_string()
    }
}

/// Why no values were found.
#[derive(Debug, Clone, Copy, PartialEq, Eq, Structural)]
pub enum LearnError {
    /// There are none.
    Inconsistent(InconsistentError),
    /// The solver gave up.
    Unknown,
}

// ---- what clauses say ------------------------------------------------------------------------

/// The values of the variables.
pub type Bits = spec_fn(usize) -> bool;

/// What each slot has.
pub struct Guess {
    pub spps: spec_fn(usize, Pkt, Pkt) -> bool,
    pub cands: spec_fn(usize, Pkt, Pkt, Seq<usize>, Pkt, Pkt) -> bool,
}

/// The value of a bit.
pub open spec fn bit_at(b: AbstractBit, e: Bits) -> bool {
    match b {
        AbstractBit::Concrete(x) => x,
        AbstractBit::Exist(v) => e(v.0),
    }
}

/// The packet of a list of bits.
pub open spec fn bits_at(ap: Seq<AbstractBit>, e: Bits) -> Pkt {
    Seq::new(ap.len(), |i: int| bit_at(ap[i], e))
}

/// The packet of a list of variables.
pub open spec fn vars_at(vs: Seq<Existential>, e: Bits) -> Pkt {
    Seq::new(vs.len(), |i: int| e(vs[i].0))
}

/// The relation `k` has a pair of packets from the two sets.
pub open spec fn member(st: SPstore, g: Guess, k: usize, a: SP, b: SP) -> bool {
    exists|p: Pkt, q: Pkt|
        p.len() == st.n() && q.len() == st.n() && st.mem(a, p) && st.mem(b, q) && #[trigger] (
        g.spps)(k, p, q)
}

/// Whether a literal is true.
pub open spec fn lit_true(st: SPstore, l: Literal, g: Guess, e: Bits) -> bool {
    match l {
        Literal::Spp { spp, ap1, ap2, polarity } => (g.spps)(
            spp.0,
            bits_at(ap1@, e),
            bits_at(ap2@, e),
        ) == polarity,
        Literal::SppMember { spp, in_sp, out_sp } => member(st, g, spp.0, in_sp, out_sp),
        Literal::Cand { cand, pkt_in, pkt_start, states, pkt_end, pkt_out, polarity } => (g.cands)(
            cand.0,
            bits_at(pkt_in@, e),
            bits_at(pkt_start@, e),
            states@,
            bits_at(pkt_end@, e),
            bits_at(pkt_out@, e),
        ) == polarity,
    }
}

/// Whether some literal of the list is true.
pub open spec fn clause_true(st: SPstore, ls: Seq<Literal>, g: Guess, e: Bits) -> bool {
    exists|k: int| 0 <= k < ls.len() && lit_true(st, #[trigger] ls[k], g, e)
}

/// The bits are a packet of `n` fields, with the first `m` variables.
pub open spec fn packet_ok(ap: Seq<AbstractBit>, n: nat, m: nat) -> bool {
    ap.len() == n && forall|i: int|
        0 <= i < ap.len() ==> (#[trigger] ap[i] matches AbstractBit::Exist(v) ==> v.0 < m)
}

/// The literal is one on the slots: `s` relations and candidates over automata
/// with `ws` states.
pub open spec fn lit_ok(l: Literal, st: SPstore, n: nat, s: nat, ws: Seq<nat>, m: nat) -> bool {
    match l {
        Literal::Spp { spp, ap1, ap2, polarity } => spp.0 < s && packet_ok(ap1@, n, m)
            && packet_ok(ap2@, n, m),
        Literal::SppMember { spp, in_sp, out_sp } => spp.0 < s && st.n() == n && st.has(in_sp)
            && st.has(out_sp),
        Literal::Cand { cand, pkt_in, pkt_start, states, pkt_end, pkt_out, polarity } => {
            &&& cand.0 < ws.len()
            &&& packet_ok(pkt_in@, n, m)
            &&& packet_ok(pkt_start@, n, m)
            &&& packet_ok(pkt_end@, n, m)
            &&& packet_ok(pkt_out@, n, m)
            &&& states@.len() == ws[cand.0 as int]
            &&& forall|i: int| 0 <= i < states@.len() ==> #[trigger] states@[i] < states@.len()
        },
    }
}

/// The guesses are the same on packets of `n` fields.
pub open spec fn same_guess(n: nat, g: Guess, h: Guess) -> bool {
    &&& forall|k: usize, p: Pkt, q: Pkt|
        #![trigger (g.spps)(k, p, q)]
        #![trigger (h.spps)(k, p, q)]
        p.len() == n && q.len() == n ==> (g.spps)(k, p, q) == (h.spps)(k, p, q)
    &&& forall|k: usize, p: Pkt, q: Pkt, v: Seq<usize>, r: Pkt, s: Pkt|
        #![trigger (g.cands)(k, p, q, v, r, s)]
        #![trigger (h.cands)(k, p, q, v, r, s)]
        p.len() == n && q.len() == n && r.len() == n && s.len() == n ==> (g.cands)(
            k,
            p,
            q,
            v,
            r,
            s,
        ) == (h.cands)(k, p, q, v, r, s)
}

/// The variables have the same values, the first `m` of them.
pub open spec fn same_bits(m: nat, e: Bits, f: Bits) -> bool {
    forall|i: usize| #![trigger e(i)] #![trigger f(i)] i < m ==> e(i) == f(i)
}

/// What the solution says.
pub open spec fn guess_by(st: SPPstore, sol: Solution) -> Guess {
    Guess {
        spps: |k: usize, p: Pkt, q: Pkt| k < sol.spps@.len() && st.rel(sol.spps@[k as int], p, q),
        cands: |k: usize, p: Pkt, q: Pkt, v: Seq<usize>, r: Pkt, s: Pkt|
            k < sol.cands@.len() && sol.cands@[k as int].accepts(st, p, q, v, r, s),
    }
}

proof fn lemma_bits_same(ap: Seq<AbstractBit>, n: nat, m: nat, e: Bits, f: Bits)
    requires
        packet_ok(ap, n, m),
        same_bits(m, e, f),
    ensures
        bits_at(ap, e) == bits_at(ap, f),
{
    assert forall|i: int| 0 <= i < ap.len() implies bits_at(ap, e)[i] == bits_at(ap, f)[i] by {
        if let AbstractBit::Exist(v) = ap[i] {
            assert(e(v.0) == f(v.0));
        }
    }
    assert(bits_at(ap, e) =~= bits_at(ap, f));
}

/// A literal says the same of guesses and variables that are the same.
proof fn lemma_lit_same(
    l: Literal,
    st: SPstore,
    n: nat,
    s: nat,
    ws: Seq<nat>,
    m: nat,
    g: Guess,
    h: Guess,
    e: Bits,
    f: Bits,
)
    requires
        lit_ok(l, st, n, s, ws, m),
        same_guess(n, g, h),
        same_bits(m, e, f),
    ensures
        lit_true(st, l, g, e) == lit_true(st, l, h, f),
{
    match l {
        Literal::Spp { spp, ap1, ap2, polarity } => {
            lemma_bits_same(ap1@, n, m, e, f);
            lemma_bits_same(ap2@, n, m, e, f);
        },
        Literal::SppMember { spp, in_sp, out_sp } => {
            if member(st, g, spp.0, in_sp, out_sp) {
                let (p, q) = choose|p: Pkt, q: Pkt|
                    p.len() == st.n() && q.len() == st.n() && st.mem(in_sp, p) && st.mem(out_sp, q)
                        && #[trigger] (g.spps)(spp.0, p, q);
                assert((h.spps)(spp.0, p, q));
            }
            if member(st, h, spp.0, in_sp, out_sp) {
                let (p, q) = choose|p: Pkt, q: Pkt|
                    p.len() == st.n() && q.len() == st.n() && st.mem(in_sp, p) && st.mem(out_sp, q)
                        && #[trigger] (h.spps)(spp.0, p, q);
                assert((g.spps)(spp.0, p, q));
            }
        },
        Literal::Cand { cand, pkt_in, pkt_start, states, pkt_end, pkt_out, polarity } => {
            lemma_bits_same(pkt_in@, n, m, e, f);
            lemma_bits_same(pkt_start@, n, m, e, f);
            lemma_bits_same(pkt_end@, n, m, e, f);
            lemma_bits_same(pkt_out@, n, m, e, f);
        },
    }
}

/// What CEGIS needs of a learner: slots and variables to allocate, memberships and
/// clauses to assert, and a value for each slot.
pub trait SmtLearner<'a>: Sized {
    /// The number of fields of a packet.
    spec fn n(&self) -> nat;

    /// The number of slots for relations.
    spec fn slots(&self) -> nat;

    /// The automata of the slots for candidates.
    spec fn automata(&self) -> Seq<&'a ExplicitDFA>;

    /// The number of variables.
    spec fn vars(&self) -> nat;

    /// The guess and the values of the variables satisfy all that was asserted.
    spec fn allows(&self, g: Guess, e: Bits) -> bool;

    spec fn wf(&self) -> bool;

    /// Nothing depends on more than the slots and variables that there are.
    proof fn lemma_allows(&self, g: Guess, h: Guess, e: Bits, f: Bits)
        requires
            self.wf(),
            same_guess(self.n(), g, h),
            same_bits(self.vars(), e, f),
        ensures
            self.allows(g, e) == self.allows(h, f),
    ;

    /// A learner for packets with `num_vars` fields.
    fn new(num_vars: u32, flags: Flags) -> (r: Self)
        ensures
            r.wf(),
            r.n() == num_vars,
            r.slots() == 0,
            r.automata().len() == 0,
            r.vars() == 0,
            forall|g: Guess, e: Bits| #[trigger] r.allows(g, e),
    ;

    /// A new slot for a relation.
    fn fresh_spp(&mut self) -> (v: SppVar)
        requires
            old(self).wf(),
            4 * old(self).n() <= u32::MAX,
        ensures
            final(self).wf(),
            final(self).n() == old(self).n(),
            v.0 == old(self).slots(),
            final(self).slots() == old(self).slots() + 1,
            final(self).automata() == old(self).automata(),
            final(self).vars() == old(self).vars(),
            forall|g: Guess, e: Bits| #[trigger]
                final(self).allows(g, e) == old(self).allows(g, e),
    ;

    /// A new slot for a candidate over an automaton.
    fn fresh_cand(&mut self, dfa: &'a ExplicitDFA) -> (v: CandVar)
        requires
            old(self).wf(),
            4 * old(self).n() + dfa.transitions@.len() <= u32::MAX,
        ensures
            final(self).wf(),
            final(self).n() == old(self).n(),
            v.0 == old(self).automata().len(),
            final(self).slots() == old(self).slots(),
            final(self).automata() == old(self).automata().push(dfa),
            final(self).vars() == old(self).vars(),
            forall|g: Guess, e: Bits| #[trigger]
                final(self).allows(g, e) == old(self).allows(g, e),
    ;

    /// A new variable.
    fn fresh_existential(&mut self) -> (v: Existential)
        requires
            old(self).wf(),
        ensures
            final(self).wf(),
            final(self).n() == old(self).n(),
            final(self).slots() == old(self).slots(),
            final(self).automata() == old(self).automata(),
            v.0 == old(self).vars(),
            final(self).vars() == old(self).vars() + 1,
            forall|g: Guess, e: Bits| #[trigger]
                final(self).allows(g, e) == old(self).allows(g, e),
    ;

    /// Assert that the packet of the variables is in the set.
    fn add_sp_membership(&mut self, sp: SP, vars: &Vec<Existential>, sp_store: &SPstore)
        requires
            old(self).wf(),
            sp_store.wf(),
            sp_store.n() == old(self).n(),
            sp_store.has(sp),
            vars@.len() == old(self).n(),
            forall|i: int| 0 <= i < vars@.len() ==> (#[trigger] vars@[i]).0 < old(self).vars(),
        ensures
            final(self).wf(),
            final(self).n() == old(self).n(),
            final(self).slots() == old(self).slots(),
            final(self).automata() == old(self).automata(),
            final(self).vars() == old(self).vars(),
            forall|g: Guess, e: Bits| #[trigger]
                final(self).allows(g, e) == (old(self).allows(g, e) && sp_store.mem(
                    sp,
                    vars_at(vars@, e),
                )),
    ;

    /// Assert that some literal of the clause is true.
    fn add_clause(&mut self, clause: AbstractClause, sp_store: &mut SPstore)
        requires
            old(self).wf(),
            old(sp_store).wf(),
            old(sp_store).n() == old(self).n(),
            forall|i: int|
                0 <= i < clause.literals@.len() ==> lit_ok(
                    #[trigger] clause.literals@[i],
                    *old(sp_store),
                    old(self).n(),
                    old(self).slots(),
                    widths(old(self).automata()),
                    old(self).vars(),
                ),
        ensures
            final(self).wf(),
            final(self).n() == old(self).n(),
            final(self).slots() == old(self).slots(),
            final(self).automata() == old(self).automata(),
            final(self).vars() >= old(self).vars(),
            final(sp_store).wf(),
            final(sp_store).extends(old(sp_store)),
            forall|g: Guess, e: Bits| #[trigger]
                final(self).allows(g, e) ==> old(self).allows(g, e) && clause_true(
                    *old(sp_store),
                    clause.literals@,
                    g,
                    e,
                ),
            forall|g: Guess, e: Bits| #[trigger]
                old(self).allows(g, e) && clause_true(*old(sp_store), clause.literals@, g, e)
                    ==> exists|f: Bits|
                    same_bits(old(self).vars(), e, f) && #[trigger] final(self).allows(g, f),
    ;

    /// A value for each slot that satisfies all that was asserted, or that there is
    /// none.
    fn extract(&mut self, spp_store: &mut SPPstore) -> (r: Result<Solution<'a>, LearnError>)
        requires
            old(self).wf(),
            old(spp_store).wf(),
            old(spp_store).n() == old(self).n(),
        ensures
            final(self).wf(),
            final(self).n() == old(self).n(),
            final(self).slots() == old(self).slots(),
            final(self).automata() == old(self).automata(),
            final(self).vars() == old(self).vars(),
            forall|g: Guess, e: Bits| #[trigger]
                final(self).allows(g, e) == old(self).allows(g, e),
            final(spp_store).wf(),
            final(spp_store).extends(old(spp_store)),
            final(spp_store).sp == old(spp_store).sp,
            r matches Ok(sol) ==> solution_ok(
                *final(spp_store),
                sol,
                old(self).slots(),
                old(self).automata(),
            ) && exists|e: Bits| #[trigger]
                old(self).allows(guess_by(*final(spp_store), sol), e),
            r matches Err(LearnError::Inconsistent(_)) ==> forall|g: Guess, e: Bits| !(
            #[trigger] old(self).allows(g, e)),
    ;
}

/// What a learner answered: values for the slots, that there are none, or neither.
pub enum Reply {
    Values,
    Nothing,
    Unknown,
}

/// The answer as one of these.
pub open spec fn reply_of<T>(r: Result<T, LearnError>) -> Reply {
    match r {
        Ok(_) => Reply::Values,
        Err(LearnError::Inconsistent(_)) => Reply::Nothing,
        Err(LearnError::Unknown) => Reply::Unknown,
    }
}

/// A record of the questions that were put to a learner.  Only asking adds to it.
pub struct Transcript<L> {
    questions: Seq<(L, Reply)>,
}

impl<L> Transcript<L> {
    /// The learner as it was when it was asked, and what it answered, question by question.
    pub closed spec fn asked(&self) -> Seq<(L, Reply)> {
        self.questions
    }

    /// A record without questions.
    pub proof fn blank() -> (t: Transcript<L>)
        ensures
            t.asked().len() == 0,
    {
        Transcript { questions: Seq::empty() }
    }
}

/// Asks a learner for values of the slots, and records the question.
pub(crate) fn ask<'a, L: SmtLearner<'a>>(
    learner: &mut L,
    spp_store: &mut SPPstore,
    Ghost(log): Ghost<Transcript<L>>,
) -> (r: (Result<Solution<'a>, LearnError>, Ghost<Transcript<L>>))
    requires
        old(learner).wf(),
        old(spp_store).wf(),
        old(spp_store).n() == old(learner).n(),
    ensures
        final(learner).wf(),
        final(learner).n() == old(learner).n(),
        final(learner).slots() == old(learner).slots(),
        final(learner).automata() == old(learner).automata(),
        final(learner).vars() == old(learner).vars(),
        forall|g: Guess, e: Bits| #[trigger]
            final(learner).allows(g, e) == old(learner).allows(g, e),
        final(spp_store).wf(),
        final(spp_store).extends(old(spp_store)),
        final(spp_store).sp == old(spp_store).sp,
        r.0 matches Ok(sol) ==> solution_ok(
            *final(spp_store),
            sol,
            old(learner).slots(),
            old(learner).automata(),
        ) && exists|e: Bits| #[trigger]
            old(learner).allows(guess_by(*final(spp_store), sol), e),
        r.0 matches Err(LearnError::Inconsistent(_)) ==> forall|g: Guess, e: Bits| !(
        #[trigger] old(learner).allows(g, e)),
        r.1@.asked() == log.asked().push((*old(learner), reply_of(r.0))),
{
    let ghost o = *learner;
    let r = learner.extract(spp_store);
    let ghost next = Transcript { questions: log.questions.push((o, reply_of(r))) };
    (r, Ghost(next))
}

/// The numbers of states of the automata.
pub open spec fn widths(v: Seq<&ExplicitDFA>) -> Seq<nat> {
    Seq::new(v.len(), |i: int| v[i].transitions@.len())
}

/// The values are what is learned of the selected atoms.
pub open spec fn learned<'a>(
    st: SPPstore,
    sol: Solution<'a>,
    sel: Seq<(AtomModel, bool)>,
) -> bool {
    relations_learned(st, sol.spps@, sel) && candidates_learned(st, sol.cands@, sel)
}

/// The values are relations of the store, and candidates over the automata.
pub open spec fn solution_ok<'a>(
    st: SPPstore,
    sol: Solution<'a>,
    s: nat,
    v: Seq<&'a ExplicitDFA>,
) -> bool {
    &&& sol.spps@.len() == s
    &&& forall|i: int| 0 <= i < sol.spps@.len() ==> st.has(#[trigger] sol.spps@[i])
    &&& sol.cands@.len() == v.len()
    &&& forall|i: int|
        0 <= i < sol.cands@.len() ==> (#[trigger] sol.cands@[i]).dfa == v[i] && sol.cands@[i].wf(
            st,
        )
}


// ---- formulas ----------------------------------------------------------------------------------

/// The name of a variable.
spec fn ename(k: nat) -> Seq<char> {
    "e_"@ + decimal(k)
}

/// The name of a slot for a relation.
spec fn sname(k: nat) -> Seq<char> {
    "spp_mem_"@ + decimal(k)
}

/// The name of a slot for a candidate.
spec fn cname(k: nat) -> Seq<char> {
    "cand_mem_"@ + decimal(k)
}

/// The names are different, and have no zero characters.
proof fn lemma_names(j: nat, k: nat)
    ensures
        ename(j) == ename(k) ==> j == k,
        sname(j) == sname(k) ==> j == k,
        cname(j) == cname(k) ==> j == k,
        ename(j) != sname(k),
        ename(j) != cname(k),
        sname(j) != cname(k),
        is_name(ename(j)),
        is_name(sname(j)),
        is_name(cname(j)),
        ename(j).len() > 0,
        sname(j).len() > 0,
        cname(j).len() > 0,
{
    reveal_strlit("e_");
    reveal_strlit("spp_mem_");
    reveal_strlit("cand_mem_");
    assert("e_"@[0] == 'e' && "e_"@[1] == '_');
    assert("spp_mem_"@[0] == 's');
    assert("cand_mem_"@[0] == 'c');
    assert(ename(j)[0] == 'e');
    assert(sname(j)[0] == 's' && sname(k)[0] == 's');
    assert(cname(k)[0] == 'c');
    if ename(j) == ename(k) {
        assert(ename(j).skip(2) =~= decimal(j));
        assert(ename(k).skip(2) =~= decimal(k));
        lemma_decimal_differs(j, k);
    }
    if sname(j) == sname(k) {
        assert(sname(j).skip(8) =~= decimal(j));
        assert(sname(k).skip(8) =~= decimal(k));
        lemma_decimal_differs(j, k);
    }
    if cname(j) == cname(k) {
        assert(cname(j).skip(9) =~= decimal(j));
        assert(cname(k).skip(9) =~= decimal(k));
        lemma_decimal_differs(j, k);
    }
    lemma_decimal_chars(j);
    assert(is_name("e_"@));
    assert(is_name("spp_mem_"@)) by {
        assert("spp_mem_"@ =~= seq!['s', 'p', 'p', '_', 'm', 'e', 'm', '_']);
    }
    assert(is_name("cand_mem_"@)) by {
        assert("cand_mem_"@ =~= seq!['c', 'a', 'n', 'd', '_', 'm', 'e', 'm', '_']);
    }
    assert forall|i: int| 0 <= i < ename(j).len() implies #[trigger] ename(j)[i] != '\0' by {
        if i < 2 {
            assert(ename(j)[i] == "e_"@[i]);
        } else {
            assert(ename(j)[i] == decimal(j)[i - 2]);
        }
    }
    assert forall|i: int| 0 <= i < sname(j).len() implies #[trigger] sname(j)[i] != '\0' by {
        if i < 8 {
            assert(sname(j)[i] == "spp_mem_"@[i]);
        } else {
            assert(sname(j)[i] == decimal(j)[i - 8]);
        }
    }
    assert forall|i: int| 0 <= i < cname(j).len() implies #[trigger] cname(j)[i] != '\0' by {
        if i < 9 {
            assert(cname(j)[i] == "cand_mem_"@[i]);
        } else {
            assert(cname(j)[i] == decimal(j)[i - 9]);
        }
    }
}

/// The bits of a packet as arguments.
spec fn bit_vals(p: Pkt) -> Seq<Value> {
    Seq::new(p.len(), |i: int| Value::Bit(p[i]))
}

/// States as arguments.
spec fn num_vals(v: Seq<usize>) -> Seq<Value> {
    Seq::new(v.len(), |i: int| Value::Num(v[i] as u64))
}

/// The arguments for a relation.
spec fn spp_vals(p: Pkt, q: Pkt) -> Seq<Value> {
    bit_vals(p) + bit_vals(q)
}

/// The arguments for a candidate.
spec fn cand_vals(p: Pkt, q: Pkt, v: Seq<usize>, r: Pkt, s: Pkt) -> Seq<Value> {
    bit_vals(p) + bit_vals(q) + num_vals(v) + bit_vals(r) + bit_vals(s)
}

/// What an interpretation says of the slots.
spec fn guess_of(i: Interp) -> Guess {
    Guess {
        spps: |k: usize, p: Pkt, q: Pkt| i(sname(k as nat), spp_vals(p, q)),
        cands: |k: usize, p: Pkt, q: Pkt, v: Seq<usize>, r: Pkt, s: Pkt|
            i(cname(k as nat), cand_vals(p, q, v, r, s)),
    }
}

/// What an interpretation says of the variables.
spec fn bits_of(i: Interp) -> Bits {
    |k: usize| i(ename(k as nat), Seq::empty())
}

/// A pair of packets for relation `k`.
spec fn is_spp_call(n: nat, name: Seq<char>, vs: Seq<Value>, k: usize, p: Pkt, q: Pkt) -> bool {
    p.len() == n && q.len() == n && name == sname(k as nat) && vs == spp_vals(p, q)
}

/// An input for candidate `k`.
spec fn is_cand_call(
    n: nat,
    name: Seq<char>,
    vs: Seq<Value>,
    k: usize,
    p: Pkt,
    q: Pkt,
    v: Seq<usize>,
    r: Pkt,
    s: Pkt,
) -> bool {
    &&& p.len() == n
    &&& q.len() == n
    &&& r.len() == n
    &&& s.len() == n
    &&& name == cname(k as nat)
    &&& vs == cand_vals(p, q, v, r, s)
}

/// An interpretation that says what the guess and the values of the variables say.
spec fn interp_from(n: nat, g: Guess, e: Bits) -> Interp {
    |name: Seq<char>, vs: Seq<Value>|
        {
            ||| exists|k: usize| name == #[trigger] ename(k as nat) && e(k) && vs.len() == 0
            ||| exists|k: usize, p: Pkt, q: Pkt| #[trigger]
                is_spp_call(n, name, vs, k, p, q) && (g.spps)(k, p, q)
            ||| exists|k: usize, p: Pkt, q: Pkt, v: Seq<usize>, r: Pkt, s: Pkt| #[trigger]
                is_cand_call(n, name, vs, k, p, q, v, r, s) && (g.cands)(k, p, q, v, r, s)
        }
}

proof fn lemma_bit_vals(p: Pkt, q: Pkt)
    requires
        bit_vals(p) == bit_vals(q),
    ensures
        p == q,
{
    let a = bit_vals(p);
    let b = bit_vals(q);
    assert(a.len() == p.len() && b.len() == q.len());
    assert forall|i: int| 0 <= i < p.len() implies p[i] == q[i] by {
        assert(a[i] == Value::Bit(p[i]));
        assert(b[i] == Value::Bit(q[i]));
    }
    assert(p =~= q);
}

proof fn lemma_spp_vals(n: nat, p: Pkt, q: Pkt, r: Pkt, s: Pkt)
    requires
        p.len() == n,
        q.len() == n,
        r.len() == n,
        s.len() == n,
        spp_vals(p, q) == spp_vals(r, s),
    ensures
        p == r,
        q == s,
{
    assert(spp_vals(p, q).take(n as int) =~= bit_vals(p));
    assert(spp_vals(r, s).take(n as int) =~= bit_vals(r));
    assert(spp_vals(p, q).skip(n as int) =~= bit_vals(q));
    assert(spp_vals(r, s).skip(n as int) =~= bit_vals(s));
    lemma_bit_vals(p, r);
    lemma_bit_vals(q, s);
}

proof fn lemma_cand_vals(
    n: nat,
    p: Pkt,
    q: Pkt,
    v: Seq<usize>,
    r: Pkt,
    s: Pkt,
    p2: Pkt,
    q2: Pkt,
    v2: Seq<usize>,
    r2: Pkt,
    s2: Pkt,
)
    requires
        p.len() == n,
        q.len() == n,
        r.len() == n,
        s.len() == n,
        p2.len() == n,
        q2.len() == n,
        r2.len() == n,
        s2.len() == n,
        cand_vals(p, q, v, r, s) == cand_vals(p2, q2, v2, r2, s2),
    ensures
        p == p2,
        q == q2,
        v == v2,
        r == r2,
        s == s2,
{
    let a = cand_vals(p, q, v, r, s);
    let b = cand_vals(p2, q2, v2, r2, s2);
    assert(a.len() == 4 * n + v.len());
    assert(b.len() == 4 * n + v2.len());
    let m = n as int;
    let k = v.len() as int;
    assert(a.subrange(0, m) =~= bit_vals(p));
    assert(b.subrange(0, m) =~= bit_vals(p2));
    assert(a.subrange(m, 2 * m) =~= bit_vals(q));
    assert(b.subrange(m, 2 * m) =~= bit_vals(q2));
    assert(a.subrange(2 * m, 2 * m + k) =~= num_vals(v));
    assert(b.subrange(2 * m, 2 * m + k) =~= num_vals(v2));
    assert(a.subrange(2 * m + k, 3 * m + k) =~= bit_vals(r));
    assert(b.subrange(2 * m + k, 3 * m + k) =~= bit_vals(r2));
    assert(a.subrange(3 * m + k, 4 * m + k) =~= bit_vals(s));
    assert(b.subrange(3 * m + k, 4 * m + k) =~= bit_vals(s2));
    lemma_bit_vals(p, p2);
    lemma_bit_vals(q, q2);
    lemma_bit_vals(r, r2);
    lemma_bit_vals(s, s2);
    assert forall|i: int| 0 <= i < v.len() implies v[i] == v2[i] by {
        assert(num_vals(v)[i] == num_vals(v2)[i]);
    }
    assert(v =~= v2);
}

/// The interpretation says what it was made from.
proof fn lemma_interp_from(n: nat, g: Guess, e: Bits)
    ensures
        same_guess(n, guess_of(interp_from(n, g, e)), g),
        forall|k: usize| #[trigger] bits_of(interp_from(n, g, e))(k) == e(k),
{
    let i = interp_from(n, g, e);
    let h = guess_of(i);
    assert forall|k: usize| #[trigger] bits_of(i)(k) == e(k) by {
        let name = ename(k as nat);
        let vs = Seq::<Value>::empty();
        if i(name, vs) {
            if exists|j: usize| name == #[trigger] ename(j as nat) && e(j) && vs.len() == 0 {
                let j = choose|j: usize| name == #[trigger] ename(j as nat) && e(j);
                lemma_names(j as nat, k as nat);
            } else if exists|j: usize, p: Pkt, q: Pkt| #[trigger]
                is_spp_call(n, name, vs, j, p, q) && (g.spps)(j, p, q) {
                let (j, p, q) = choose|j: usize, p: Pkt, q: Pkt| #[trigger]
                    is_spp_call(n, name, vs, j, p, q) && (g.spps)(j, p, q);
                lemma_names(k as nat, j as nat);
            } else {
                let (j, p, q, v, r, s) = choose|
                    j: usize,
                    p: Pkt,
                    q: Pkt,
                    v: Seq<usize>,
                    r: Pkt,
                    s: Pkt,
                | #[trigger]
                    is_cand_call(n, name, vs, j, p, q, v, r, s) && (g.cands)(j, p, q, v, r, s);
                lemma_names(k as nat, j as nat);
            }
        }
    }
    assert forall|k: usize, p: Pkt, q: Pkt|
        #![trigger (h.spps)(k, p, q)]
        #![trigger (g.spps)(k, p, q)]
        p.len() == n && q.len() == n implies (h.spps)(k, p, q) == (g.spps)(k, p, q) by {
        let name = sname(k as nat);
        let vs = spp_vals(p, q);
        if (g.spps)(k, p, q) {
            assert(is_spp_call(n, name, vs, k, p, q));
        }
        if i(name, vs) {
            if exists|j: usize| name == #[trigger] ename(j as nat) && e(j) && vs.len() == 0 {
                let j = choose|j: usize| name == #[trigger] ename(j as nat) && e(j);
                lemma_names(j as nat, k as nat);
            } else if exists|j: usize, p2: Pkt, q2: Pkt| #[trigger]
                is_spp_call(n, name, vs, j, p2, q2) && (g.spps)(j, p2, q2) {
                let (j, p2, q2) = choose|j: usize, p2: Pkt, q2: Pkt| #[trigger]
                    is_spp_call(n, name, vs, j, p2, q2) && (g.spps)(j, p2, q2);
                lemma_names(k as nat, j as nat);
                lemma_spp_vals(n, p, q, p2, q2);
            } else {
                let (j, p2, q2, v, r, s) = choose|
                    j: usize,
                    p2: Pkt,
                    q2: Pkt,
                    v: Seq<usize>,
                    r: Pkt,
                    s: Pkt,
                | #[trigger]
                    is_cand_call(n, name, vs, j, p2, q2, v, r, s) && (g.cands)(
                        j,
                        p2,
                        q2,
                        v,
                        r,
                        s,
                    );
                lemma_names(k as nat, j as nat);
            }
        }
    }
    assert forall|k: usize, p: Pkt, q: Pkt, v: Seq<usize>, r: Pkt, s: Pkt|
        #![trigger (h.cands)(k, p, q, v, r, s)]
        #![trigger (g.cands)(k, p, q, v, r, s)]
        p.len() == n && q.len() == n && r.len() == n && s.len() == n implies (h.cands)(
        k,
        p,
        q,
        v,
        r,
        s,
    ) == (g.cands)(k, p, q, v, r, s) by {
        let name = cname(k as nat);
        let vs = cand_vals(p, q, v, r, s);
        if (g.cands)(k, p, q, v, r, s) {
            assert(is_cand_call(n, name, vs, k, p, q, v, r, s));
        }
        if i(name, vs) {
            if exists|j: usize| name == #[trigger] ename(j as nat) && e(j) && vs.len() == 0 {
                let j = choose|j: usize| name == #[trigger] ename(j as nat) && e(j);
                lemma_names(j as nat, k as nat);
            } else if exists|j: usize, p2: Pkt, q2: Pkt| #[trigger]
                is_spp_call(n, name, vs, j, p2, q2) && (g.spps)(j, p2, q2) {
                let (j, p2, q2) = choose|j: usize, p2: Pkt, q2: Pkt| #[trigger]
                    is_spp_call(n, name, vs, j, p2, q2) && (g.spps)(j, p2, q2);
                lemma_names(j as nat, k as nat);
            } else {
                let (j, p2, q2, v2, r2, s2) = choose|
                    j: usize,
                    p2: Pkt,
                    q2: Pkt,
                    v2: Seq<usize>,
                    r2: Pkt,
                    s2: Pkt,
                | #[trigger]
                    is_cand_call(n, name, vs, j, p2, q2, v2, r2, s2) && (g.cands)(
                        j,
                        p2,
                        q2,
                        v2,
                        r2,
                        s2,
                    );
                lemma_names(k as nat, j as nat);
                lemma_cand_vals(n, p, q, v, r, s, p2, q2, v2, r2, s2);
            }
        }
    }
}


/// The literal is on a pair or an input, and not on sets.
spec fn plain(l: Literal) -> bool {
    !(l is SppMember)
}

/// A [`SmtLearner`] on Z3.
pub struct Z3<'a> {
    num_vars: u32,
    flags: Flags,
    solver: z3::Solver,
    spps: Vec<z3::FuncDecl>,
    cands: Vec<z3::FuncDecl>,
    dfas: Vec<&'a ExplicitDFA>,
    existentials: Vec<Formula>,
    /// The clauses in the order in which they were asserted, without literals on
    /// sets.
    clauses: Vec<Vec<Literal>>,
    /// What was asserted of the variables.
    rules: Ghost<spec_fn(Bits) -> bool>,
    /// A store for the meaning of literals that do not depend on one.
    any: Ghost<SPstore>,
}

/// Every clause is true.
spec fn all_true(st: SPstore, cs: Seq<Vec<Literal>>, g: Guess, e: Bits) -> bool {
    forall|c: int| 0 <= c < cs.len() ==> clause_true(st, #[trigger] cs[c]@, g, e)
}

/// `k` times `true`.
spec fn trues(k: nat) -> Seq<bool> {
    Seq::new(k, |i: int| true)
}

/// Which arguments of a candidate with `k` states are bits.
spec fn cand_sorts(n: nat, k: nat) -> Seq<bool> {
    trues(2 * n) + Seq::new(k, |i: int| false) + trues(2 * n)
}

/// The terms are the bits of a packet.
spec fn terms_are(args: Seq<AnyTerm>, ap: Seq<AbstractBit>) -> bool {
    args.len() == ap.len() && forall|k: int, i: Interp|
        #![trigger value_of(args[k], i)]
        0 <= k < args.len() ==> value_of(args[k], i) == Value::Bit(bit_at(ap[k], bits_of(i)))
}

impl<'a> Z3<'a> {
    /// The variables and slots are named as they are numbered.
    spec fn named(&self) -> bool {
        &&& forall|k: int, i: Interp|
            #![trigger meaning(self.existentials@[k], i)]
            0 <= k < self.existentials@.len() ==> meaning(self.existentials@[k], i) == i(
                ename(k as nat),
                Seq::empty(),
            )
        &&& forall|k: int|
            0 <= k < self.spps@.len() ==> #[trigger] declared(self.spps@[k]) == (
                sname(k as nat),
                trues(2 * self.num_vars as nat),
            )
        &&& self.cands@.len() == self.dfas@.len()
        &&& forall|k: int|
            0 <= k < self.cands@.len() ==> #[trigger] declared(self.cands@[k]) == (
                cname(k as nat),
                cand_sorts(self.num_vars as nat, self.dfas@[k].transitions@.len()),
            )
    }

    /// The literals of the clauses are on the slots and variables that there are.
    spec fn clauses_ok(&self) -> bool {
        forall|c: int, k: int|
            #![trigger self.clauses@[c]@[k]]
            0 <= c < self.clauses@.len() && 0 <= k < self.clauses@[c]@.len() ==> plain(
                self.clauses@[c]@[k],
            ) && lit_ok(
                self.clauses@[c]@[k],
                self.any@,
                self.num_vars as nat,
                self.spps@.len(),
                widths(self.dfas@),
                self.existentials@.len(),
            )
    }

    /// The guess and the values satisfy the memberships and the clauses.
    spec fn permits(&self, g: Guess, e: Bits) -> bool {
        (self.rules@)(e) && all_true(self.any@, self.clauses@, g, e)
    }

    /// What was asserted to the solver is what the clauses and memberships say.
    spec fn linked(&self) -> bool {
        forall|i: Interp| #[trigger]
            asserted(self.solver, i) == self.permits(guess_of(i), bits_of(i))
    }

    /// The memberships depend on the variables that there are.
    spec fn rules_ok(&self) -> bool {
        forall|e: Bits, f: Bits|
            #![trigger (self.rules@)(e), (self.rules@)(f)]
            same_bits(self.existentials@.len(), e, f) ==> (self.rules@)(e) == (self.rules@)(f)
    }

    /// The term of a bit.
    fn bit_arg(&self, b: &AbstractBit) -> (r: AnyTerm)
        requires
            self.named(),
            b matches AbstractBit::Exist(v) ==> v.0 < self.existentials@.len(),
        ensures
            forall|i: Interp| #[trigger]
                value_of(r, i) == Value::Bit(bit_at(*b, bits_of(i))),
    {
        match b {
            AbstractBit::Concrete(x) => bit_term(&bool_value(*x)),
            AbstractBit::Exist(v) => bit_term(&self.existentials[v.0]),
        }
    }

    /// Add the terms of the bits of a packet.
    fn push_bits(&self, args: &mut Vec<AnyTerm>, ap: &Vec<AbstractBit>)
        requires
            self.named(),
            packet_ok(ap@, self.num_vars as nat, self.existentials@.len()),
        ensures
            final(args)@.len() == old(args)@.len() + ap@.len(),
            final(args)@.take(old(args)@.len() as int) == old(args)@,
            terms_are(final(args)@.skip(old(args)@.len() as int), ap@),
    {
        let ghost a0 = args@;
        let mut i: usize = 0;
        assert(args@.take(a0.len() as int) =~= a0);
        while i < ap.len()
            invariant
                self.named(),
                packet_ok(ap@, self.num_vars as nat, self.existentials@.len()),
                i <= ap@.len(),
                args@.len() == a0.len() + i,
                args@.take(a0.len() as int) == a0,
                forall|k: int, j: Interp|
                    #![trigger value_of(args@[k], j)]
                    a0.len() <= k < args@.len() ==> value_of(args@[k], j) == Value::Bit(
                        bit_at(ap@[k - a0.len()], bits_of(j)),
                    ),
            decreases ap.len() - i,
        {
            let ghost a1 = args@;
            assert(ap@[i as int] matches AbstractBit::Exist(v) ==> v.0 < self.existentials@.len());
            let t = self.bit_arg(&ap[i]);
            args.push(t);
            proof {
                assert(args@.take(a0.len() as int) =~= a0) by {
                    assert(a1.take(a0.len() as int) =~= a0);
                }
                assert forall|k: int, j: Interp|
                    #![trigger value_of(args@[k], j)]
                    a0.len() <= k < args@.len() implies value_of(args@[k], j) == Value::Bit(
                    bit_at(ap@[k - a0.len()], bits_of(j)),
                ) by {
                    if k < a1.len() {
                        assert(args@[k] == a1[k]);
                    }
                }
            }
            i = i + 1;
        }
        proof {
            let t = args@.skip(a0.len() as int);
            assert forall|k: int, j: Interp|
                #![trigger value_of(t[k], j)]
                0 <= k < t.len() implies value_of(t[k], j) == Value::Bit(
                bit_at(ap@[k], bits_of(j)),
            ) by {
                assert(t[k] == args@[k + a0.len()]);
            }
        }
    }

    /// The statement that relation `k` has the pair.
    fn spp_atom(&self, k: usize, ap1: &Vec<AbstractBit>, ap2: &Vec<AbstractBit>) -> (r: Formula)
        requires
            self.named(),
            k < self.spps@.len(),
            packet_ok(ap1@, self.num_vars as nat, self.existentials@.len()),
            packet_ok(ap2@, self.num_vars as nat, self.existentials@.len()),
        ensures
            forall|i: Interp| #[trigger]
                meaning(r, i) == (guess_of(i).spps)(
                    k,
                    bits_at(ap1@, bits_of(i)),
                    bits_at(ap2@, bits_of(i)),
                ),
    {
        let ghost n = self.num_vars as int;
        let mut args: Vec<AnyTerm> = Vec::new();
        self.push_bits(&mut args, ap1);
        let ghost a1 = args@;
        self.push_bits(&mut args, ap2);
        proof {
            let a = args@;
            assert(a1.skip(0) =~= a1);
            assert(declared(self.spps@[k as int]) == (sname(k as nat), trues((2 * n) as nat)));
            assert(a.take(n) == a1);
            assert forall|x: int, i: Interp| #![trigger value_of(a[x], i)] 0 <= x < a.len()
                implies value_of(a[x], i) == Value::Bit(
                if x < n {
                    bit_at(ap1@[x], bits_of(i))
                } else {
                    bit_at(ap2@[x - n], bits_of(i))
                },
            ) by {
                if x < n {
                    assert(a[x] == a1[x]);
                    assert(a1.skip(0)[x] == a1[x]);
                } else {
                    assert(a[x] == a.skip(n)[x - n]);
                }
            }
            assert forall|i: Interp| #[trigger] values_of(a, i) == spp_vals(
                bits_at(ap1@, bits_of(i)),
                bits_at(ap2@, bits_of(i)),
            ) by {
                assert(values_of(a, i) =~= spp_vals(
                    bits_at(ap1@, bits_of(i)),
                    bits_at(ap2@, bits_of(i)),
                ));
            }
        }
        apply(&self.spps[k], &args)
    }

    /// The statement that candidate `k` accepts the input.
    #[verifier::rlimit(40)]
    fn cand_atom(
        &self,
        k: usize,
        pkt_in: &Vec<AbstractBit>,
        pkt_start: &Vec<AbstractBit>,
        states: &Vec<usize>,
        pkt_end: &Vec<AbstractBit>,
        pkt_out: &Vec<AbstractBit>,
    ) -> (r: Formula)
        requires
            self.named(),
            k < self.cands@.len(),
            packet_ok(pkt_in@, self.num_vars as nat, self.existentials@.len()),
            packet_ok(pkt_start@, self.num_vars as nat, self.existentials@.len()),
            packet_ok(pkt_end@, self.num_vars as nat, self.existentials@.len()),
            packet_ok(pkt_out@, self.num_vars as nat, self.existentials@.len()),
            states@.len() == self.dfas@[k as int].transitions@.len(),
        ensures
            forall|i: Interp| #[trigger]
                meaning(r, i) == (guess_of(i).cands)(
                    k,
                    bits_at(pkt_in@, bits_of(i)),
                    bits_at(pkt_start@, bits_of(i)),
                    states@,
                    bits_at(pkt_end@, bits_of(i)),
                    bits_at(pkt_out@, bits_of(i)),
                ),
    {
        let ghost n = self.num_vars as int;
        let ghost s = states@.len() as int;
        let mut args: Vec<AnyTerm> = Vec::new();
        self.push_bits(&mut args, pkt_in);
        let ghost a1 = args@;
        self.push_bits(&mut args, pkt_start);
        let ghost a2 = args@;
        let mut j: usize = 0;
        while j < states.len()
            invariant
                j <= states@.len(),
                args@.len() == a2.len() + j,
                forall|x: int| 0 <= x < a2.len() ==> #[trigger] args@[x] == a2[x],
                forall|x: int, i: Interp|
                    #![trigger value_of(args@[x], i)]
                    a2.len() <= x < args@.len() ==> value_of(args@[x], i) == Value::Num(
                        states@[x - a2.len()] as u64,
                    ),
            decreases states.len() - j,
        {
            let ghost b = args@;
            args.push(num_term(states[j] as u64));
            proof {
                assert forall|x: int, i: Interp|
                    #![trigger value_of(args@[x], i)]
                    a2.len() <= x < args@.len() implies value_of(args@[x], i) == Value::Num(
                    states@[x - a2.len()] as u64,
                ) by {
                    if x < b.len() {
                        assert(args@[x] == b[x]);
                    }
                }
            }
            j = j + 1;
        }
        let ghost a3 = args@;
        self.push_bits(&mut args, pkt_end);
        let ghost a4 = args@;
        self.push_bits(&mut args, pkt_out);
        proof {
            let a = args@;
            let f = self.cands@[k as int];
            assert(declared(f) == (cname(k as nat), cand_sorts(n as nat, s as nat)));
            assert forall|x: int, i: Interp| #![trigger value_of(a[x], i)] 0 <= x < a.len()
                implies value_of(a[x], i) == (if x < n {
                Value::Bit(bit_at(pkt_in@[x], bits_of(i)))
            } else if x < 2 * n {
                Value::Bit(bit_at(pkt_start@[x - n], bits_of(i)))
            } else if x < 2 * n + s {
                Value::Num(states@[x - 2 * n] as u64)
            } else if x < 3 * n + s {
                Value::Bit(bit_at(pkt_end@[x - 2 * n - s], bits_of(i)))
            } else {
                Value::Bit(bit_at(pkt_out@[x - 3 * n - s], bits_of(i)))
            }) by {
                if x < 3 * n + s {
                    assert(a[x] == a.take(a4.len() as int)[x]);
                    assert(a[x] == a4[x]);
                    if x < 2 * n + s {
                        assert(a4[x] == a4.take(a3.len() as int)[x]);
                        assert(a4[x] == a3[x]);
                        if x < 2 * n {
                            assert(a3[x] == a2[x]);
                            if x < n {
                                assert(a2[x] == a2.take(a1.len() as int)[x]);
                                assert(a1.skip(0)[x] == a1[x]);
                            } else {
                                assert(a2[x] == a2.skip(n)[x - n]);
                            }
                        }
                    } else {
                        assert(a4[x] == a4.skip(a3.len() as int)[x - 2 * n - s]);
                    }
                } else {
                    assert(a[x] == a.skip(a4.len() as int)[x - 3 * n - s]);
                }
            }
            let sorts = cand_sorts(n as nat, s as nat);
            assert(a.len() == 4 * n + s);
            assert(sorts.len() == 4 * n + s);
            assert forall|x: int, i: Interp| #![trigger value_of(a[x], i)] 0 <= x < a.len()
                implies (value_of(a[x], i) is Bit) == sorts[x] by {}
            assert forall|i: Interp| #[trigger] values_of(a, i) == cand_vals(
                bits_at(pkt_in@, bits_of(i)),
                bits_at(pkt_start@, bits_of(i)),
                states@,
                bits_at(pkt_end@, bits_of(i)),
                bits_at(pkt_out@, bits_of(i)),
            ) by {
                let c = cand_vals(
                    bits_at(pkt_in@, bits_of(i)),
                    bits_at(pkt_start@, bits_of(i)),
                    states@,
                    bits_at(pkt_end@, bits_of(i)),
                    bits_at(pkt_out@, bits_of(i)),
                );
                let d = values_of(a, i);
                assert(c.len() == d.len());
                assert forall|x: int| 0 <= x < d.len() implies c[x] == d[x] by {
                    assert(d[x] == value_of(a[x], i));
                }
                assert(c =~= d);
            }
        }
        apply(&self.cands[k], &args)
    }

    /// The formula of a literal.
    fn lit_formula(&self, l: &Literal) -> (r: Formula)
        requires
            self.named(),
            plain(*l),
            lit_ok(
                *l,
                self.any@,
                self.num_vars as nat,
                self.spps@.len(),
                widths(self.dfas@),
                self.existentials@.len(),
            ),
        ensures
            forall|i: Interp| #[trigger]
                meaning(r, i) == lit_true(self.any@, *l, guess_of(i), bits_of(i)),
    {
        match l {
            Literal::Spp { spp, ap1, ap2, polarity } => {
                let a = self.spp_atom(spp.0, ap1, ap2);
                if *polarity {
                    a
                } else {
                    bool_not(&a)
                }
            },
            Literal::SppMember { spp, in_sp, out_sp } => {
                assert(false);
                bool_value(false)
            },
            Literal::Cand { cand, pkt_in, pkt_start, states, pkt_end, pkt_out, polarity } => {
                let a = self.cand_atom(cand.0, pkt_in, pkt_start, states, pkt_end, pkt_out);
                if *polarity {
                    a
                } else {
                    bool_not(&a)
                }
            },
        }
    }
}

/// The disjunction of any number of formulas.
fn any_of(v: Vec<Formula>) -> (r: Formula)
    ensures
        forall|i: Interp| #[trigger] meaning(r, i) == any_true(v@, i),
{
    let ghost v0 = v@;
    if v.len() == 0 {
        return bool_value(false);
    }
    if v.len() <= u32::MAX as usize {
        return bool_or(&v);
    }
    let mut v = v;
    let mut acc = bool_value(false);
    let mut n: usize = v.len();
    while n > 0
        invariant
            n == v@.len(),
            n <= v0.len(),
            v@ == v0.take(n as int),
            forall|i: Interp| #[trigger]
                meaning(acc, i) == any_true(v0.skip(n as int), i),
        decreases n,
    {
        let ghost acc0 = acc;
        let f = v.pop().unwrap();
        let mut two: Vec<Formula> = Vec::new();
        two.push(f);
        two.push(acc);
        acc = bool_or(&two);
        proof {
            assert(v@ =~= v0.take(n - 1));
            assert forall|i: Interp| #[trigger] meaning(acc, i) == any_true(
                v0.skip(n - 1),
                i,
            ) by {
                let s = v0.skip(n as int);
                let t = v0.skip(n - 1);
                assert(two@[0] == f && two@[1] == acc0);
                assert(t[0] == f);
                if any_true(two@, i) {
                    if meaning(f, i) {
                        assert(meaning(t[0], i));
                    } else {
                        assert(meaning(acc0, i));
                        let k = choose|k: int| 0 <= k < s.len() && meaning(#[trigger] s[k], i);
                        assert(t[k + 1] == s[k]);
                    }
                }
                if any_true(t, i) {
                    let k = choose|k: int| 0 <= k < t.len() && meaning(#[trigger] t[k], i);
                    if k > 0 {
                        assert(s[k - 1] == t[k]);
                        assert(meaning(acc0, i));
                        assert(meaning(two@[1], i));
                    } else {
                        assert(meaning(two@[0], i));
                    }
                }
            }
        }
        n = n - 1;
    }
    assert(v0.skip(0) =~= v0);
    acc
}


// ---- sets --------------------------------------------------------------------------------------

/// The formula says that the packet of the variables is in the set.
spec fn set_formula(f: Formula, st: SPstore, a: SP, vs: Seq<Existential>) -> bool {
    forall|i: Interp| #[trigger] meaning(f, i) == st.mem_at(a, vars_at(vs, bits_of(i)))
}

/// The formula of a set that was built.
spec fn built_at(st: SPstore, vs: Seq<Existential>, f: Formula, a: SP, d: int) -> bool {
    0 <= d <= vs.len() && st.has_at((vs.len() - d) as nat, a) && set_formula(f, st, a, vs.skip(d))
}

/// What is recorded was built.
spec fn memo_ok(
    st: SPstore,
    vs: Seq<Existential>,
    built: Seq<Formula>,
    memo: Map<usize, usize>,
) -> bool {
    forall|a: usize| #[trigger]
        memo.contains_key(a) ==> memo[a] < built.len() && exists|d: int| #[trigger]
            built_at(st, vs, built[memo[a] as int], SP(a), d)
}

proof fn lemma_memo_push(
    st: SPstore,
    vs: Seq<Existential>,
    built: Seq<Formula>,
    memo: Map<usize, usize>,
    f: Formula,
)
    requires
        memo_ok(st, vs, built, memo),
    ensures
        memo_ok(st, vs, built.push(f), memo),
{
    assert forall|a: usize| #[trigger] memo.contains_key(a) implies memo[a] < built.push(f).len()
        && exists|d: int| #[trigger] built_at(st, vs, built.push(f)[memo[a] as int], SP(a), d) by {
        let d = choose|d: int| #[trigger] built_at(st, vs, built[memo[a] as int], SP(a), d);
        assert(built.push(f)[memo[a] as int] == built[memo[a] as int]);
        assert(built_at(st, vs, built.push(f)[memo[a] as int], SP(a), d));
    }
}

impl<'a> Z3<'a> {
    /// Everything fits together.
    spec fn sound(&self) -> bool {
        &&& self.named()
        &&& self.clauses_ok()
        &&& self.linked()
        &&& self.rules_ok()
    }

    /// Only what was asserted of the variables, and how many there are, changes.
    spec fn only_vars(&self, o: &Z3<'a>) -> bool {
        &&& self.num_vars == o.num_vars
        &&& self.flags == o.flags
        &&& self.spps@ == o.spps@
        &&& self.cands@ == o.cands@
        &&& self.dfas@ == o.dfas@
        &&& self.clauses@ == o.clauses@
        &&& self.any == o.any
        &&& self.existentials@.len() >= o.existentials@.len()
    }

    proof fn lemma_permits(&self, g: Guess, h: Guess, e: Bits, f: Bits)
        requires
            self.sound(),
            same_guess(self.num_vars as nat, g, h),
            same_bits(self.existentials@.len(), e, f),
        ensures
            self.permits(g, e) == self.permits(h, f),
    {
        assert((self.rules@)(e) == (self.rules@)(f));
        assert forall|c: int| 0 <= c < self.clauses@.len() implies clause_true(
            self.any@,
            #[trigger] self.clauses@[c]@,
            g,
            e,
        ) == clause_true(self.any@, self.clauses@[c]@, h, f) by {
            self.lemma_clause(self.clauses@[c]@, g, h, e, f);
        }
    }

    proof fn lemma_clause(&self, ls: Seq<Literal>, g: Guess, h: Guess, e: Bits, f: Bits)
        requires
            same_guess(self.num_vars as nat, g, h),
            same_bits(self.existentials@.len(), e, f),
            forall|k: int|
                0 <= k < ls.len() ==> lit_ok(
                    #[trigger] ls[k],
                    self.any@,
                    self.num_vars as nat,
                    self.spps@.len(),
                    widths(self.dfas@),
                    self.existentials@.len(),
                ),
        ensures
            clause_true(self.any@, ls, g, e) == clause_true(self.any@, ls, h, f),
    {
        assert forall|k: int| 0 <= k < ls.len() implies lit_true(
            self.any@,
            #[trigger] ls[k],
            g,
            e,
        ) == lit_true(self.any@, ls[k], h, f) by {
            lemma_lit_same(
                ls[k],
                self.any@,
                self.num_vars as nat,
                self.spps@.len(),
                widths(self.dfas@),
                self.existentials@.len(),
                g,
                h,
                e,
                f,
            );
        }
        if clause_true(self.any@, ls, g, e) {
            let k = choose|k: int| 0 <= k < ls.len() && lit_true(self.any@, #[trigger] ls[k], g, e);
            assert(lit_true(self.any@, ls[k], h, f));
        }
        if clause_true(self.any@, ls, h, f) {
            let k = choose|k: int| 0 <= k < ls.len() && lit_true(self.any@, #[trigger] ls[k], h, f);
            assert(lit_true(self.any@, ls[k], g, e));
        }
    }

    /// A new variable.
    fn new_var(&mut self) -> (v: Existential)
        requires
            old(self).sound(),
        ensures
            final(self).sound(),
            final(self).only_vars(old(self)),
            final(self).rules == old(self).rules,
            v.0 == old(self).existentials@.len(),
            final(self).existentials@.len() == old(self).existentials@.len() + 1,
    {
        let id = self.existentials.len();
        let name = join2("e_", number(id).as_str());
        proof {
            lemma_names(id as nat, id as nat);
        }
        let c = bool_const(name.as_str());
        let ghost x0 = self.existentials@;
        self.existentials.push(c);
        proof {
            assert forall|k: int, i: Interp|
                #![trigger meaning(self.existentials@[k], i)]
                0 <= k < self.existentials@.len() implies meaning(self.existentials@[k], i) == i(
                ename(k as nat),
                Seq::empty(),
            ) by {
                if k < x0.len() {
                    assert(self.existentials@[k] == x0[k]);
                }
            }
            self.lemma_more_vars(old(self));
        }
        Existential(id)
    }

    /// More variables keep the clauses and memberships.
    proof fn lemma_more_vars(&self, o: &Z3<'a>)
        requires
            o.sound(),
            self.named(),
            self.only_vars(o),
            self.rules == o.rules,
            self.solver == o.solver,
        ensures
            self.sound(),
    {
        assert forall|c: int, k: int|
            #![trigger self.clauses@[c]@[k]]
            0 <= c < self.clauses@.len() && 0 <= k < self.clauses@[c]@.len() implies plain(
            self.clauses@[c]@[k],
        ) && lit_ok(
            self.clauses@[c]@[k],
            self.any@,
            self.num_vars as nat,
            self.spps@.len(),
            widths(self.dfas@),
            self.existentials@.len(),
        ) by {
            assert(plain(o.clauses@[c]@[k]));
            lemma_lit_more(
                o.clauses@[c]@[k],
                self.any@,
                self.any@,
                self.num_vars as nat,
                o.spps@.len(),
                self.spps@.len(),
                widths(o.dfas@),
                widths(self.dfas@),
                o.existentials@.len(),
                self.existentials@.len(),
            );
        }
        assert forall|i: Interp| #[trigger] asserted(self.solver, i) == self.permits(
            guess_of(i),
            bits_of(i),
        ) by {
            assert(asserted(o.solver, i) == o.permits(guess_of(i), bits_of(i)));
        }
        assert forall|e: Bits, f: Bits|
            #![trigger (self.rules@)(e), (self.rules@)(f)]
            same_bits(self.existentials@.len(), e, f) implies (self.rules@)(e) == (self.rules@)(
            f,
        ) by {
            assert(same_bits(o.existentials@.len(), e, f));
            assert((o.rules@)(e) == (o.rules@)(f));
        }
    }

    /// The formula of a set, from field `d` on.
    fn build_sp_bool(
        &self,
        sp: SP,
        vars: &Vec<Existential>,
        d: usize,
        sp_store: &SPstore,
        built: &mut Vec<Formula>,
        memo: &mut HashMap<usize, usize>,
    ) -> (r: usize)
        requires
            self.named(),
            sp_store.wf(),
            forall|i: int|
                0 <= i < vars@.len() ==> (#[trigger] vars@[i]).0 < self.existentials@.len(),
            d <= vars@.len(),
            sp_store.has_at((vars@.len() - d) as nat, sp),
            memo_ok(*sp_store, vars@, old(built)@, old(memo)@),
        ensures
            r < final(built)@.len(),
            set_formula(final(built)@[r as int], *sp_store, sp, vars@.skip(d as int)),
            memo_ok(*sp_store, vars@, final(built)@, final(memo)@),
            old(built)@.len() <= final(built)@.len(),
            forall|k: int|
                0 <= k < old(built)@.len() ==> #[trigger] final(built)@[k] == old(built)@[k],
        decreases vars.len() - d,
    {
        let ghost vs = vars@;
        let ghost st = *sp_store;
        if let Some(x) = memo.get(&sp.0) {
            let r = *x;
            proof {
                let e = choose|e: int| #[trigger]
                    built_at(st, vs, built@[memo@[sp.0] as int], SP(sp.0), e);
                st.lemma_level(sp, (vs.len() - d) as nat, (vs.len() - e) as nat);
            }
            return r;
        }
        let ghost b0 = built@;
        if d == vars.len() {
            let x = sp_store.leaf_value(sp);
            let f = bool_value(x);
            let r = built.len();
            built.push(f);
            proof {
                assert forall|i: Interp| #[trigger] meaning(f, i) == st.mem_at(
                    sp,
                    vars_at(vs.skip(d as int), bits_of(i)),
                ) by {}
                lemma_memo_push(st, vs, b0, memo@, f);
                assert(built_at(st, vs, built@[r as int], SP(sp.0), d as int));
            }
            let ghost m0 = memo@;
            memo.insert(sp.0, r);
            proof {
                assert forall|a: usize| #[trigger] memo@.contains_key(a) implies memo@[a]
                    < built@.len() && exists|e: int| #[trigger]
                    built_at(st, vs, built@[memo@[a] as int], SP(a), e) by {
                    if a != sp.0 {
                        assert(m0.contains_key(a));
                    }
                }
            }
            return r;
        }
        let (x0, x1) = sp_store.halves(sp, Ghost((vs.len() - d) as nat));
        let i0 = self.build_sp_bool(x0, vars, d + 1, sp_store, built, memo);
        let ghost b1 = built@;
        let i1 = self.build_sp_bool(x1, vars, d + 1, sp_store, built, memo);
        let ghost b2 = built@;
        assert(vs[d as int].0 < self.existentials@.len());
        let f = bool_ite(&self.existentials[vars[d].0], &built[i1], &built[i0]);
        let r = built.len();
        built.push(f);
        let ghost m0 = memo@;
        memo.insert(sp.0, r);
        proof {
            let v = vs.skip(d as int);
            assert(v.drop_first() =~= vs.skip(d + 1));
            assert(b2[i0 as int] == b1[i0 as int]);
            assert forall|i: Interp| #[trigger] meaning(f, i) == st.mem_at(
                sp,
                vars_at(v, bits_of(i)),
            ) by {
                let p = vars_at(v, bits_of(i));
                assert(p.drop_first() =~= vars_at(vs.skip(d + 1), bits_of(i)));
                assert(p[0] == bits_of(i)(vs[d as int].0));
                assert(meaning(self.existentials@[vs[d as int].0 as int], i) == p[0]);
                assert(meaning(b1[i0 as int], i) == st.mem_at(x0, p.drop_first()));
                assert(meaning(b2[i1 as int], i) == st.mem_at(x1, p.drop_first()));
                assert(st.mem_at(sp, p) == st.mem_at(
                    if p[0] {
                        x1
                    } else {
                        x0
                    },
                    p.drop_first(),
                ));
            }
            lemma_memo_push(st, vs, b2, m0, f);
            assert(built@ =~= b2.push(f));
            assert(built_at(st, vs, built@[r as int], SP(sp.0), d as int));
            assert forall|a: usize| #[trigger] memo@.contains_key(a) implies memo@[a]
                < built@.len() && exists|e: int| #[trigger]
                built_at(st, vs, built@[memo@[a] as int], SP(a), e) by {
                if a != sp.0 {
                    assert(m0.contains_key(a));
                    let e = choose|e: int| #[trigger]
                        built_at(st, vs, b2.push(f)[m0[a] as int], SP(a), e);
                    assert(built_at(st, vs, built@[memo@[a] as int], SP(a), e));
                } else {
                    assert(memo@[a] == r);
                    assert(built_at(st, vs, built@[memo@[a] as int], SP(a), d as int));
                }
            }
        }
        r
    }

    /// Assert that the packet of the variables is in the set.
    fn assert_member(&mut self, sp: SP, vars: &Vec<Existential>, sp_store: &SPstore)
        requires
            old(self).sound(),
            sp_store.wf(),
            sp_store.n() == old(self).num_vars,
            sp_store.has(sp),
            vars@.len() == old(self).num_vars,
            forall|i: int|
                0 <= i < vars@.len() ==> (#[trigger] vars@[i]).0 < old(self).existentials@.len(),
        ensures
            final(self).sound(),
            final(self).only_vars(old(self)),
            final(self).existentials@ == old(self).existentials@,
            forall|e: Bits| #[trigger]
                (final(self).rules@)(e) == ((old(self).rules@)(e) && sp_store.mem(
                    sp,
                    vars_at(vars@, e),
                )),
    {
        let mut built: Vec<Formula> = Vec::new();
        let mut memo: HashMap<usize, usize> = HashMap::new();
        let ghost vs = vars@;
        let ghost st = *sp_store;
        proof {
            st.lemma_at(sp);
            assert(vs.skip(0) =~= vs);
        }
        let k = self.build_sp_bool(sp, vars, 0, sp_store, &mut built, &mut memo);
        assert_formula(&mut self.solver, &built[k]);
        let ghost r0 = self.rules@;
        self.rules = Ghost(|e: Bits| r0(e) && st.mem(sp, vars_at(vs, e)));
        proof {
            let o = *old(self);
            assert forall|i: Interp| #[trigger] asserted(self.solver, i) == self.permits(
                guess_of(i),
                bits_of(i),
            ) by {
                assert(asserted(o.solver, i) == o.permits(guess_of(i), bits_of(i)));
                let p = vars_at(vs, bits_of(i));
                assert(meaning(built@[k as int], i) == st.mem_at(sp, p));
                assert(st.mem(sp, p) == st.mem_at(sp, p));
                assert((self.rules@)(bits_of(i)) == (r0(bits_of(i)) && st.mem(sp, p)));
            }
            assert forall|e: Bits, f: Bits|
                #![trigger (self.rules@)(e), (self.rules@)(f)]
                same_bits(self.existentials@.len(), e, f) implies (self.rules@)(e) == (
            self.rules@)(f) by {
                assert(r0(e) == r0(f));
                assert(vars_at(vs, e) =~= vars_at(vs, f)) by {
                    assert forall|i: int| 0 <= i < vs.len() implies vars_at(vs, e)[i] == vars_at(
                        vs,
                        f,
                    )[i] by {
                        assert(vs[i].0 < self.existentials@.len());
                        assert(e(vs[i].0) == f(vs[i].0));
                    }
                }
            }
        }
    }
}

/// A literal stays well formed with more slots and variables.
proof fn lemma_lit_more(
    l: Literal,
    st: SPstore,
    st2: SPstore,
    n: nat,
    s: nat,
    s2: nat,
    ws: Seq<nat>,
    ws2: Seq<nat>,
    m: nat,
    m2: nat,
)
    requires
        lit_ok(l, st, n, s, ws, m),
        plain(l) || st2 == st,
        s <= s2,
        m <= m2,
        ws.len() <= ws2.len(),
        forall|i: int| 0 <= i < ws.len() ==> #[trigger] ws2[i] == ws[i],
    ensures
        lit_ok(l, st2, n, s2, ws2, m2),
{
    match l {
        Literal::Spp { spp, ap1, ap2, polarity } => {
            lemma_packet_more(ap1@, n, m, m2);
            lemma_packet_more(ap2@, n, m, m2);
        },
        Literal::SppMember { spp, in_sp, out_sp } => {},
        Literal::Cand { cand, pkt_in, pkt_start, states, pkt_end, pkt_out, polarity } => {
            lemma_packet_more(pkt_in@, n, m, m2);
            lemma_packet_more(pkt_start@, n, m, m2);
            lemma_packet_more(pkt_end@, n, m, m2);
            lemma_packet_more(pkt_out@, n, m, m2);
            assert(ws2[cand.0 as int] == ws[cand.0 as int]);
        },
    }
}

proof fn lemma_packet_more(ap: Seq<AbstractBit>, n: nat, m: nat, m2: nat)
    requires
        packet_ok(ap, n, m),
        m <= m2,
    ensures
        packet_ok(ap, n, m2),
{
    assert forall|i: int| 0 <= i < ap.len() implies (#[trigger] ap[i] matches AbstractBit::Exist(
        v,
    ) ==> v.0 < m2) by {
        assert(ap[i] matches AbstractBit::Exist(v) ==> v.0 < m);
    }
}


// ---- collating ---------------------------------------------------------------------------------

/// The order of keys.
pub open spec fn key_less(a: (usize, usize), b: (usize, usize)) -> bool {
    a.0 < b.0 || (a.0 == b.0 && a.1 < b.1)
}

/// Group `g` has the first `n` indices with one key, in order.
pub open spec fn is_group(keys: Seq<(usize, usize)>, n: int, g: Seq<usize>) -> bool {
    &&& g.len() > 0
    &&& forall|x: int| 0 <= x < g.len() ==> #[trigger] g[x] < n && keys[g[x] as int]
        == keys[g[0] as int]
    &&& forall|x: int, y: int| #![trigger g[x], g[y]] 0 <= x < y < g.len() ==> g[x] < g[y]
}

/// The first `n` indices, those with one key in a group, in the order of the keys.
pub open spec fn groups_of(keys: Seq<(usize, usize)>, n: int, gs: Seq<Vec<usize>>) -> bool {
    &&& forall|g: int| 0 <= g < gs.len() ==> is_group(keys, n, (#[trigger] gs[g])@)
    &&& forall|g: int, h: int|
        #![trigger gs[g], gs[h]]
        0 <= g < h < gs.len() ==> key_less(keys[gs[g]@[0] as int], keys[gs[h]@[0] as int])
    &&& forall|i: int| 0 <= i < n ==> #[trigger] grouped(gs, i)
}

/// The index is in some group.
pub open spec fn grouped(gs: Seq<Vec<usize>>, i: int) -> bool {
    exists|g: int, x: int| 0 <= g < gs.len() && 0 <= x < gs[g]@.len() && #[trigger] gs[g]@[x] == i
}

/// The indices, those with one key in a group, in the order of the keys.
pub fn group_by(keys: &Vec<(usize, usize)>) -> (gs: Vec<Vec<usize>>)
    ensures
        groups_of(keys@, keys@.len() as int, gs@),
{
    let ghost ks = keys@;
    let mut gs: Vec<Vec<usize>> = Vec::new();
    let mut i: usize = 0;
    while i < keys.len()
        invariant
            ks == keys@,
            i <= ks.len(),
            groups_of(ks, i as int, gs@),
        decreases keys.len() - i,
    {
        let k = keys[i];
        let ghost g0 = gs@;
        let mut g: usize = 0;
        while g < gs.len() && key_before(&keys[gs[g][0]], &k)
            invariant
                ks == keys@,
                i < ks.len(),
                gs@ == g0,
                groups_of(ks, i as int, g0),
                g <= g0.len(),
                forall|h: int| 0 <= h < g ==> key_less(ks[(#[trigger] g0[h])@[0] as int], k),
                forall|h: int|
                    0 <= h < g0.len() ==> (#[trigger] g0[h])@.len() > 0 && g0[h]@[0] < ks.len(),
            decreases gs.len() - g,
        {
            g = g + 1;
        }
        proof {
            assert forall|h: int| 0 <= h < g0.len() implies (#[trigger] g0[h])@.len() > 0
                && g0[h]@[0] < ks.len() by {
                assert(is_group(ks, i as int, g0[h]@));
            }
        }
        if g < gs.len() && keys[gs[g][0]].0 == k.0 && keys[gs[g][0]].1 == k.1 {
            let mut grp = copy_indices(&gs[g]);
            grp.push(i);
            let ghost grp1 = grp@;
            gs.set(g, grp);
            proof {
                assert(is_group(ks, i as int, g0[g as int]@));
                let old_g = g0[g as int]@;
                assert(grp1 =~= old_g.push(i));
                assert(is_group(ks, i + 1, grp1)) by {
                    assert(grp1[0] == old_g[0]);
                    assert forall|x: int| 0 <= x < grp1.len() implies #[trigger] grp1[x] < i + 1
                        && ks[grp1[x] as int] == ks[grp1[0] as int] by {
                        if x < old_g.len() {
                            assert(grp1[x] == old_g[x]);
                        }
                    }
                    assert forall|x: int, y: int|
                        #![trigger grp1[x], grp1[y]]
                        0 <= x < y < grp1.len() implies grp1[x] < grp1[y] by {
                        assert(grp1[x] == old_g[x]);
                        if y < old_g.len() {
                            assert(grp1[y] == old_g[y]);
                        } else {
                            assert(old_g[x] < i);
                        }
                    }
                }
                assert forall|h: int| 0 <= h < gs@.len() implies is_group(
                    ks,
                    i + 1,
                    (#[trigger] gs@[h])@,
                ) by {
                    if h != g {
                        assert(gs@[h] == g0[h]);
                        lemma_group_more(ks, i as int, g0[h]@);
                    }
                }
                assert forall|a: int, b: int|
                    #![trigger gs@[a], gs@[b]]
                    0 <= a < b < gs@.len() implies key_less(
                    ks[gs@[a]@[0] as int],
                    ks[gs@[b]@[0] as int],
                ) by {
                    assert(gs@[a]@[0] == g0[a]@[0]);
                    assert(gs@[b]@[0] == g0[b]@[0]);
                }
                assert forall|j: int| 0 <= j < i + 1 implies #[trigger] grouped(gs@, j) by {
                    if j < i {
                        assert(grouped(g0, j));
                        let (a, x) = choose|a: int, x: int|
                            0 <= a < g0.len() && 0 <= x < g0[a]@.len() && #[trigger] g0[a]@[x] == j;
                        if a == g {
                            assert(gs@[a]@[x] == j);
                        } else {
                            assert(gs@[a] == g0[a]);
                            assert(gs@[a]@[x] == j);
                        }
                    } else {
                        assert(gs@[g as int]@[old_g.len() as int] == j);
                    }
                }
            }
        } else {
            let mut grp: Vec<usize> = Vec::new();
            grp.push(i);
            let ghost grp1 = grp@;
            gs.insert(g, grp);
            proof {
                assert(grp1 =~= seq![i]);
                assert(is_group(ks, i + 1, grp1));
                assert forall|h: int| 0 <= h < gs@.len() implies is_group(
                    ks,
                    i + 1,
                    (#[trigger] gs@[h])@,
                ) by {
                    if h < g {
                        assert(gs@[h] == g0[h]);
                        lemma_group_more(ks, i as int, g0[h]@);
                    } else if h > g {
                        assert(gs@[h] == g0[h - 1]);
                        lemma_group_more(ks, i as int, g0[h - 1]@);
                    }
                }
                if g < g0.len() {
                    let x = ks[g0[g as int]@[0] as int];
                    assert(!key_less(x, k));
                    assert(key_less(k, x));
                }
                assert forall|a: int, b: int|
                    #![trigger gs@[a], gs@[b]]
                    0 <= a < b < gs@.len() implies key_less(
                    ks[gs@[a]@[0] as int],
                    ks[gs@[b]@[0] as int],
                ) by {
                    let ga = if a < g {
                        g0[a]
                    } else {
                        g0[a - 1]
                    };
                    let gb = if b < g {
                        g0[b]
                    } else {
                        g0[b - 1]
                    };
                    if a == g {
                        assert(gs@[b] == g0[b - 1]);
                        if b - 1 > g {
                            assert(key_less(
                                ks[g0[g as int]@[0] as int],
                                ks[g0[b - 1]@[0] as int],
                            ));
                        }
                    } else if b == g {
                        assert(gs@[a] == g0[a]);
                    } else {
                        assert(gs@[a] == ga && gs@[b] == gb);
                    }
                }
                assert forall|j: int| 0 <= j < i + 1 implies #[trigger] grouped(gs@, j) by {
                    if j < i {
                        assert(grouped(g0, j));
                        let (a, x) = choose|a: int, x: int|
                            0 <= a < g0.len() && 0 <= x < g0[a]@.len() && #[trigger] g0[a]@[x] == j;
                        let b = if a < g {
                            a
                        } else {
                            a + 1
                        };
                        assert(gs@[b] == g0[a]);
                        assert(gs@[b]@[x] == j);
                    } else {
                        assert(gs@[g as int]@[0] == j);
                    }
                }
            }
        }
        i = i + 1;
    }
    gs
}

proof fn lemma_group_more(keys: Seq<(usize, usize)>, n: int, g: Seq<usize>)
    requires
        is_group(keys, n, g),
    ensures
        is_group(keys, n + 1, g),
{
    assert forall|x: int| 0 <= x < g.len() implies #[trigger] g[x] < n + 1 && keys[g[x] as int]
        == keys[g[0] as int] by {
        assert(g[x] < n);
    }
}

fn key_before(a: &(usize, usize), b: &(usize, usize)) -> (r: bool)
    ensures
        r == key_less(*a, *b),
{
    a.0 < b.0 || (a.0 == b.0 && a.1 < b.1)
}

fn copy_indices(v: &Vec<usize>) -> (r: Vec<usize>)
    ensures
        r@ == v@,
{
    crate::aut::copy_states(v)
}

/// The items of a group, merged from the left.
pub open spec fn merged_by<T, G: Fn(T, T) -> T>(
    merge: G,
    items: Seq<T>,
    g: Seq<usize>,
    r: T,
) -> bool
    decreases g.len(),
{
    if g.len() <= 1 {
        g.len() == 1 && r == items[g[0] as int]
    } else {
        exists|a: T|
            merged_by(merge, items, g.drop_last(), a) && #[trigger] merge.ensures(
                (a, items[g.last() as int]),
                r,
            )
    }
}

/// The items with one key, merged from the left, in the order of the keys.
pub fn merge_by<T, F: Fn(&T) -> usize, G: Fn(T, T) -> T>(items: Vec<T>, key: F, merge: G) -> (r: Vec<
    T,
>)
    requires
        forall|x: &T| #[trigger] key.requires((x,)),
        forall|a: T, b: T| #[trigger] merge.requires((a, b)),
    ensures
        exists|keys: Seq<(usize, usize)>, gs: Seq<Vec<usize>>|
            keys.len() == items@.len() && (forall|i: int|
                0 <= i < keys.len() ==> key.ensures((&items@[i],), (#[trigger] keys[i]).0)
                    && keys[i].1 == 0) && #[trigger] groups_of(keys, keys.len() as int, gs)
                && r@.len() == gs.len() && forall|g: int|
                0 <= g < gs.len() ==> merged_by(merge, items@, (#[trigger] gs[g])@, r@[g]),
{
    let ghost its = items@;
    let mut keys: Vec<(usize, usize)> = Vec::new();
    let mut slots: Vec<Option<T>> = Vec::new();
    let mut i: usize = 0;
    while i < items.len()
        invariant
            its == items@,
            i <= its.len(),
            forall|x: &T| #[trigger] key.requires((x,)),
            keys@.len() == i,
            forall|j: int|
                0 <= j < i ==> key.ensures((&its[j],), (#[trigger] keys@[j]).0) && keys@[j].1 == 0,
        decreases items.len() - i,
    {
        let k = key(&items[i]);
        keys.push((k, 0));
        i = i + 1;
    }
    let gs = group_by(&keys);
    let mut items = items;
    let mut n: usize = items.len();
    while n > 0
        invariant
            n == items@.len(),
            n <= its.len(),
            items@ == its.take(n as int),
            slots@.len() == its.len() - n,
            forall|j: int| 0 <= j < slots@.len() ==> #[trigger] slots@[j] == Some(
                its[its.len() - 1 - j],
            ),
        decreases n,
    {
        let x = items.pop().unwrap();
        slots.push(Some(x));
        n = n - 1;
        assert(items@ =~= its.take(n as int));
    }
    let total = slots.len();
    let ghost ks = keys@;
    let mut r: Vec<T> = Vec::new();
    let mut g: usize = 0;
    while g < gs.len()
        invariant
            groups_of(ks, ks.len() as int, gs@),
            ks.len() == its.len(),
            total == its.len(),
            slots@.len() == total,
            forall|a: T, b: T| #[trigger] merge.requires((a, b)),
            g <= gs@.len(),
            r@.len() == g,
            forall|h: int, x: int|
                #![trigger gs@[h]@[x]]
                g <= h < gs@.len() && 0 <= x < gs@[h]@.len() ==> slots@[total - 1 - gs@[h]@[x]]
                    == Some(its[gs@[h]@[x] as int]),
            forall|h: int| 0 <= h < g ==> merged_by(merge, its, (#[trigger] gs@[h])@, r@[h]),
        decreases gs.len() - g,
    {
        let grp = &gs[g];
        let ghost gv = grp@;
        let ghost s0 = slots@;
        proof {
            assert(is_group(ks, ks.len() as int, gs@[g as int]@));
            assert(gv[0] < ks.len());
            assert(gs@[g as int]@[0] == gv[0]);
        }
        let mut acc = take_item(&mut slots, total - 1 - grp[0]);
        let mut x: usize = 1;
        assert(gv.take(1) =~= seq![gv[0]]);
        assert(merged_by(merge, its, gv.take(1), acc));
        while x < grp.len()
            invariant
                groups_of(ks, ks.len() as int, gs@),
                gv == grp@,
                gv == gs@[g as int]@,
                g < gs@.len(),
                is_group(ks, ks.len() as int, gv),
                ks.len() == its.len(),
                total == its.len(),
                slots@.len() == total,
                forall|a: T, b: T| #[trigger] merge.requires((a, b)),
                1 <= x <= gv.len(),
                merged_by(merge, its, gv.take(x as int), acc),
                forall|y: int|
                    x <= y < gv.len() ==> slots@[total - 1 - #[trigger] gv[y]] == Some(
                        its[gv[y] as int],
                    ),
                forall|h: int, y: int|
                    #![trigger gs@[h]@[y]]
                    g < h < gs@.len() && 0 <= y < gs@[h]@.len() ==> slots@[total - 1
                        - gs@[h]@[y]] == Some(its[gs@[h]@[y] as int]),
            decreases grp.len() - x,
        {
            assert(gv[x as int] < ks.len());
            let b = take_item(&mut slots, total - 1 - grp[x]);
            let ghost a0 = acc;
            acc = merge(acc, b);
            proof {
                let t = gv.take(x + 1);
                assert(t.drop_last() =~= gv.take(x as int));
                assert(t.last() == gv[x as int]);
                assert(merge.ensures((a0, its[t.last() as int]), acc));
                assert(merged_by(merge, its, t, acc));
                assert forall|y: int| x + 1 <= y < gv.len() implies slots@[total - 1
                    - #[trigger] gv[y]] == Some(its[gv[y] as int]) by {
                    assert(gv[x as int] < gv[y]);
                }
                assert forall|h: int, y: int|
                    #![trigger gs@[h]@[y]]
                    g < h < gs@.len() && 0 <= y < gs@[h]@.len() implies slots@[total - 1
                    - gs@[h]@[y]] == Some(its[gs@[h]@[y] as int]) by {
                    lemma_groups_apart(ks, gs@, g as int, x as int, h, y);
                }
            }
            x = x + 1;
        }
        assert(gv.take(x as int) =~= gv);
        r.push(acc);
        g = g + 1;
    }
    proof {
        assert(groups_of(ks, ks.len() as int, gs@));
    }
    r
}

/// Groups of different keys have different indices.
proof fn lemma_groups_apart(
    ks: Seq<(usize, usize)>,
    gs: Seq<Vec<usize>>,
    g: int,
    x: int,
    h: int,
    y: int,
)
    requires
        groups_of(ks, ks.len() as int, gs),
        0 <= g < h < gs.len(),
        0 <= x < gs[g]@.len(),
        0 <= y < gs[h]@.len(),
    ensures
        gs[g]@[x] != gs[h]@[y],
        gs[h]@[y] < ks.len(),
{
    assert(is_group(ks, ks.len() as int, gs[g]@));
    assert(is_group(ks, ks.len() as int, gs[h]@));
    assert(gs[g]@[x] < ks.len());
    assert(gs[h]@[y] < ks.len());
}

/// The item of a slot, which is left empty.
fn take_item<T>(slots: &mut Vec<Option<T>>, i: usize) -> (r: T)
    requires
        i < old(slots)@.len(),
        old(slots)@[i as int] is Some,
    ensures
        Some(r) == old(slots)@[i as int],
        final(slots)@ == old(slots)@.update(i as int, None),
{
    slots.push(None);
    let r = slots.swap_remove(i);
    assert(slots@ =~= old(slots)@.update(i as int, None));
    r.unwrap()
}


/// A relation slot with two sets.
type Member = (SppVar, SP, SP);

/// Some member of the list has a pair of packets from its sets.
spec fn any_member(st: SPstore, g: Guess, ms: Seq<Member>) -> bool {
    exists|k: int| 0 <= k < ms.len() && member(st, g, (#[trigger] ms[k]).0.0, ms[k].1, ms[k].2)
}

/// The sets are sets of the store, and the slots are there.
spec fn members_ok(st: SPstore, s: nat, ms: Seq<Member>) -> bool {
    forall|k: int|
        0 <= k < ms.len() ==> (#[trigger] ms[k]).0.0 < s && st.has(ms[k].1) && st.has(ms[k].2)
}

/// Both sets of every member have packets.
spec fn inhabited(st: SPstore, ms: Seq<Member>) -> bool {
    forall|k: int|
        0 <= k < ms.len() ==> (#[trigger] ms[k]).1 != st.zero && ms[k].2 != st.zero
}

proof fn lemma_member_ext(st: SPstore, o: SPstore, g: Guess, k: usize, a: SP, b: SP)
    requires
        st.extends(&o),
        o.has(a),
        o.has(b),
    ensures
        member(st, g, k, a, b) == member(o, g, k, a, b),
{
    if member(st, g, k, a, b) {
        let (p, q) = choose|p: Pkt, q: Pkt|
            p.len() == st.n() && q.len() == st.n() && st.mem(a, p) && st.mem(b, q) && #[trigger] (
            g.spps)(k, p, q);
        assert(o.mem(a, p) && o.mem(b, q));
        assert((g.spps)(k, p, q));
    }
    if member(o, g, k, a, b) {
        let (p, q) = choose|p: Pkt, q: Pkt|
            p.len() == o.n() && q.len() == o.n() && o.mem(a, p) && o.mem(b, q) && #[trigger] (
            g.spps)(k, p, q);
        assert(st.mem(a, p) && st.mem(b, q));
        assert((g.spps)(k, p, q));
    }
}

/// Uniting one of the sets is the same as having either.
proof fn lemma_member_union(st: SPstore, g: Guess, k: usize, a: SP, b: SP, c: SP, u: SP)
    requires
        forall|p: Pkt|
            #![trigger st.mem(u, p)]
            p.len() == st.n() ==> st.mem(u, p) == (st.mem(b, p) || st.mem(c, p)),
    ensures
        member(st, g, k, a, u) == (member(st, g, k, a, b) || member(st, g, k, a, c)),
        member(st, g, k, u, a) == (member(st, g, k, b, a) || member(st, g, k, c, a)),
{
    if member(st, g, k, a, u) {
        let (p, q) = choose|p: Pkt, q: Pkt|
            p.len() == st.n() && q.len() == st.n() && st.mem(a, p) && st.mem(u, q) && #[trigger] (
            g.spps)(k, p, q);
        assert((g.spps)(k, p, q));
        assert(st.mem(b, q) || st.mem(c, q));
    }
    if member(st, g, k, a, b) {
        let (p, q) = choose|p: Pkt, q: Pkt|
            p.len() == st.n() && q.len() == st.n() && st.mem(a, p) && st.mem(b, q) && #[trigger] (
            g.spps)(k, p, q);
        assert(st.mem(u, q));
        assert((g.spps)(k, p, q));
    }
    if member(st, g, k, a, c) {
        let (p, q) = choose|p: Pkt, q: Pkt|
            p.len() == st.n() && q.len() == st.n() && st.mem(a, p) && st.mem(c, q) && #[trigger] (
            g.spps)(k, p, q);
        assert(st.mem(u, q));
        assert((g.spps)(k, p, q));
    }
    if member(st, g, k, u, a) {
        let (p, q) = choose|p: Pkt, q: Pkt|
            p.len() == st.n() && q.len() == st.n() && st.mem(u, p) && st.mem(a, q) && #[trigger] (
            g.spps)(k, p, q);
        assert((g.spps)(k, p, q));
        assert(st.mem(b, p) || st.mem(c, p));
    }
    if member(st, g, k, b, a) {
        let (p, q) = choose|p: Pkt, q: Pkt|
            p.len() == st.n() && q.len() == st.n() && st.mem(b, p) && st.mem(a, q) && #[trigger] (
            g.spps)(k, p, q);
        assert(st.mem(u, p));
        assert((g.spps)(k, p, q));
    }
    if member(st, g, k, c, a) {
        let (p, q) = choose|p: Pkt, q: Pkt|
            p.len() == st.n() && q.len() == st.n() && st.mem(c, p) && st.mem(a, q) && #[trigger] (
            g.spps)(k, p, q);
        assert(st.mem(u, p));
        assert((g.spps)(k, p, q));
    }
}

/// The key of a member: its slot and one of its sets.
spec fn member_key(m: Member, outputs: bool) -> (usize, usize) {
    (
        m.0.0,
        if outputs {
            m.1.0
        } else {
            m.2.0
        },
    )
}

/// Some member of the group has a pair of packets from its sets.
spec fn group_member(st: SPstore, g: Guess, ms: Seq<Member>, grp: Seq<usize>, x: int) -> bool {
    exists|y: int|
        0 <= y < x && member(
            st,
            g,
            ms[(#[trigger] grp[y]) as int].0.0,
            ms[grp[y] as int].1,
            ms[grp[y] as int].2,
        )
}

/// The members of a group as one, with the sets that may differ united.
fn unite_group(
    sp_store: &mut SPstore,
    ms: &Vec<Member>,
    grp: &Vec<usize>,
    outputs: bool,
    Ghost(s): Ghost<nat>,
    Ghost(keys): Ghost<Seq<(usize, usize)>>,
) -> (r: Member)
    requires
        old(sp_store).wf(),
        members_ok(*old(sp_store), s, ms@),
        inhabited(*old(sp_store), ms@),
        keys.len() == ms@.len(),
        forall|i: int| 0 <= i < keys.len() ==> #[trigger] keys[i] == member_key(ms@[i], outputs),
        is_group(keys, keys.len() as int, grp@),
    ensures
        final(sp_store).wf(),
        final(sp_store).extends(old(sp_store)),
        r.0.0 < s,
        final(sp_store).has(r.1),
        final(sp_store).has(r.2),
        r.1 != final(sp_store).zero,
        r.2 != final(sp_store).zero,
        forall|g: Guess|
            member(*final(sp_store), g, r.0.0, r.1, r.2) == #[trigger] group_member(
                *old(sp_store),
                g,
                ms@,
                grp@,
                grp@.len() as int,
            ),
{
    let ghost o = *sp_store;
    let ghost gv = grp@;
    proof {
        assert(gv[0] < keys.len());
        o.lemma_consts();
    }
    let first = ms[grp[0]];
    let ghost m0 = ms@[gv[0] as int];
    let slot = first.0;
    let fixed = if outputs {
        first.1
    } else {
        first.2
    };
    let mut acc = if outputs {
        first.2
    } else {
        first.1
    };
    let mut x: usize = 1;
    proof {
        assert forall|g: Guess| (if outputs {
            member(o, g, slot.0, fixed, acc)
        } else {
            member(o, g, slot.0, acc, fixed)
        }) == #[trigger] group_member(o, g, ms@, gv, 1) by {
            if group_member(o, g, ms@, gv, 1) {
                let y = choose|y: int|
                    0 <= y < 1 && member(
                        o,
                        g,
                        ms@[(#[trigger] gv[y]) as int].0.0,
                        ms@[gv[y] as int].1,
                        ms@[gv[y] as int].2,
                    );
                assert(y == 0);
            }
            if member(o, g, m0.0.0, m0.1, m0.2) {
                assert(ms@[gv[0] as int] == m0);
                assert(group_member(o, g, ms@, gv, 1));
            }
        }
    }
    while x < grp.len()
        invariant
            o.wf(),
            sp_store.wf(),
            sp_store.extends(&o),
            members_ok(o, s, ms@),
            inhabited(o, ms@),
            keys.len() == ms@.len(),
            forall|i: int|
                0 <= i < keys.len() ==> #[trigger] keys[i] == member_key(ms@[i], outputs),
            gv == grp@,
            is_group(keys, keys.len() as int, gv),
            1 <= x <= gv.len(),
            m0 == ms@[gv[0] as int],
            slot == m0.0,
            fixed == (if outputs {
                m0.1
            } else {
                m0.2
            }),
            o.has(fixed),
            fixed != o.zero,
            sp_store.has(acc),
            acc != sp_store.zero,
            forall|g: Guess|
                (if outputs {
                    member(*sp_store, g, slot.0, fixed, acc)
                } else {
                    member(*sp_store, g, slot.0, acc, fixed)
                }) == #[trigger] group_member(o, g, ms@, gv, x as int),
        decreases grp.len() - x,
    {
        let ghost s1 = *sp_store;
        let ghost acc1 = acc;
        proof {
            assert(gv[x as int] < keys.len());
            assert(keys[gv[x as int] as int] == keys[gv[0] as int]);
        }
        let m = ms[grp[x]];
        let ghost mx = ms@[gv[x as int] as int];
        let other = if outputs {
            m.2
        } else {
            m.1
        };
        proof {
            assert(mx.0 == slot);
            assert(o.has(mx.1) && o.has(mx.2));
            if outputs {
                assert(mx.1 == fixed);
            } else {
                assert(mx.2 == fixed);
            }
        }
        acc = sp_store.union(acc, other);
        proof {
            let s2 = *sp_store;
            s1.lemma_nonzero(acc1);
            s2.lemma_nonzero(acc);
            let p0 = choose|p: Pkt| p.len() == s1.n() && s1.mem(acc1, p);
            assert(s2.mem(acc, p0));
            assert forall|g: Guess|
                (if outputs {
                    member(s2, g, slot.0, fixed, acc)
                } else {
                    member(s2, g, slot.0, acc, fixed)
                }) == #[trigger] group_member(o, g, ms@, gv, x + 1) by {
                assert(group_member(o, g, ms@, gv, x as int) == (if outputs {
                    member(s1, g, slot.0, fixed, acc1)
                } else {
                    member(s1, g, slot.0, acc1, fixed)
                }));
                assert forall|p: Pkt|
                    #![trigger s2.mem(acc, p)]
                    p.len() == s2.n() implies s2.mem(acc, p) == (s2.mem(acc1, p) || s2.mem(
                    other,
                    p,
                )) by {
                    assert(s2.mem(acc1, p) == s1.mem(acc1, p));
                    assert(s2.mem(other, p) == s1.mem(other, p));
                }
                lemma_member_union(s2, g, slot.0, fixed, acc1, other, acc);
                if outputs {
                    lemma_member_ext(s2, s1, g, slot.0, fixed, acc1);
                    lemma_member_ext(s2, o, g, slot.0, fixed, other);
                } else {
                    lemma_member_ext(s2, s1, g, slot.0, acc1, fixed);
                    lemma_member_ext(s2, o, g, slot.0, other, fixed);
                }
                if group_member(o, g, ms@, gv, x + 1) {
                    let y = choose|y: int|
                        0 <= y < x + 1 && member(
                            o,
                            g,
                            ms@[(#[trigger] gv[y]) as int].0.0,
                            ms@[gv[y] as int].1,
                            ms@[gv[y] as int].2,
                        );
                    if y < x {
                        assert(group_member(o, g, ms@, gv, x as int));
                    }
                }
                if group_member(o, g, ms@, gv, x as int) {
                    let y = choose|y: int|
                        0 <= y < x && member(
                            o,
                            g,
                            ms@[(#[trigger] gv[y]) as int].0.0,
                            ms@[gv[y] as int].1,
                            ms@[gv[y] as int].2,
                        );
                    assert(group_member(o, g, ms@, gv, x + 1));
                }
                if member(o, g, mx.0.0, mx.1, mx.2) {
                    assert(ms@[gv[x as int] as int] == mx);
                    assert(group_member(o, g, ms@, gv, x + 1));
                }
            }
        }
        x = x + 1;
    }
    if outputs {
        (slot, fixed, acc)
    } else {
        (slot, acc, fixed)
    }
}

/// The members, with those that share a slot and one of the sets united.
fn collate(sp_store: &mut SPstore, ms: &Vec<Member>, outputs: bool, Ghost(s): Ghost<nat>) -> (r: Vec<
    Member,
>)
    requires
        old(sp_store).wf(),
        members_ok(*old(sp_store), s, ms@),
        inhabited(*old(sp_store), ms@),
    ensures
        final(sp_store).wf(),
        final(sp_store).extends(old(sp_store)),
        members_ok(*final(sp_store), s, r@),
        inhabited(*final(sp_store), r@),
        forall|g: Guess| #[trigger]
            any_member(*final(sp_store), g, r@) == any_member(*old(sp_store), g, ms@),
{
    let ghost o = *sp_store;
    let mut keys: Vec<(usize, usize)> = Vec::new();
    let mut i: usize = 0;
    while i < ms.len()
        invariant
            i <= ms@.len(),
            keys@.len() == i,
            forall|j: int| 0 <= j < i ==> #[trigger] keys@[j] == member_key(ms@[j], outputs),
        decreases ms.len() - i,
    {
        let m = ms[i];
        keys.push(
            (
                m.0.0,
                if outputs {
                    m.1.0
                } else {
                    m.2.0
                },
            ),
        );
        i = i + 1;
    }
    let gs = group_by(&keys);
    let ghost ks = keys@;
    let mut r: Vec<Member> = Vec::new();
    let mut x: usize = 0;
    proof {
        o.lemma_consts();
    }
    while x < gs.len()
        invariant
            o.wf(),
            sp_store.wf(),
            sp_store.extends(&o),
            members_ok(o, s, ms@),
            inhabited(o, ms@),
            ks.len() == ms@.len(),
            forall|j: int|
                0 <= j < ks.len() ==> #[trigger] ks[j] == member_key(ms@[j], outputs),
            groups_of(ks, ks.len() as int, gs@),
            x <= gs@.len(),
            r@.len() == x,
            members_ok(*sp_store, s, r@),
            inhabited(*sp_store, r@),
            forall|y: int, g: Guess|
                #![trigger group_member(o, g, ms@, gs@[y]@, gs@[y]@.len() as int)]
                0 <= y < x ==> member(*sp_store, g, r@[y].0.0, r@[y].1, r@[y].2) == group_member(
                    o,
                    g,
                    ms@,
                    gs@[y]@,
                    gs@[y]@.len() as int,
                ),
        decreases gs.len() - x,
    {
        let ghost s1 = *sp_store;
        let ghost r1 = r@;
        proof {
            assert(is_group(ks, ks.len() as int, gs@[x as int]@));
            assert forall|k: int| 0 <= k < ms@.len() implies (#[trigger] ms@[k]).0.0 < s && s1.has(
                ms@[k].1,
            ) && s1.has(ms@[k].2) by {
                assert(o.has(ms@[k].1) && o.has(ms@[k].2));
            }
            assert forall|k: int| 0 <= k < ms@.len() implies (#[trigger] ms@[k]).1 != s1.zero
                && ms@[k].2 != s1.zero by {
                assert(ms@[k].1 != o.zero);
            }
        }
        let m = unite_group(sp_store, ms, &gs[x], outputs, Ghost(s), Ghost(ks));
        r.push(m);
        proof {
            let s2 = *sp_store;
            assert forall|k: int| 0 <= k < r@.len() implies (#[trigger] r@[k]).0.0 < s && s2.has(
                r@[k].1,
            ) && s2.has(r@[k].2) && r@[k].1 != s2.zero && r@[k].2 != s2.zero by {
                if k < r1.len() {
                    assert(r@[k] == r1[k]);
                    assert(s1.has(r1[k].1) && r1[k].1 != s1.zero);
                }
            }
            assert forall|y: int, g: Guess|
                #![trigger group_member(o, g, ms@, gs@[y]@, gs@[y]@.len() as int)]
                0 <= y < x + 1 implies member(s2, g, r@[y].0.0, r@[y].1, r@[y].2)
                == group_member(o, g, ms@, gs@[y]@, gs@[y]@.len() as int) by {
                if y < x {
                    assert(r@[y] == r1[y]);
                    assert(s1.has(r1[y].1) && s1.has(r1[y].2));
                    lemma_member_ext(s2, s1, g, r1[y].0.0, r1[y].1, r1[y].2);
                } else {
                    let gv = gs@[y]@;
                    let n = gv.len() as int;
                    assert(group_member(s1, g, ms@, gv, n) == member(
                        s2,
                        g,
                        m.0.0,
                        m.1,
                        m.2,
                    ));
                    assert forall|z: int| 0 <= z < n implies member(
                        s1,
                        g,
                        ms@[(#[trigger] gv[z]) as int].0.0,
                        ms@[gv[z] as int].1,
                        ms@[gv[z] as int].2,
                    ) == member(
                        o,
                        g,
                        ms@[gv[z] as int].0.0,
                        ms@[gv[z] as int].1,
                        ms@[gv[z] as int].2,
                    ) by {
                        assert(gv[z] < ks.len());
                        let t = ms@[gv[z] as int];
                        lemma_member_ext(s1, o, g, t.0.0, t.1, t.2);
                    }
                }
            }
        }
        x = x + 1;
    }
    proof {
        let st = *sp_store;
        assert forall|g: Guess| #[trigger] any_member(st, g, r@) == any_member(o, g, ms@) by {
            if any_member(st, g, r@) {
                let y = choose|y: int|
                    0 <= y < r@.len() && member(st, g, (#[trigger] r@[y]).0.0, r@[y].1, r@[y].2);
                let gv = gs@[y]@;
                assert(group_member(o, g, ms@, gv, gv.len() as int));
                let z = choose|z: int|
                    0 <= z < gv.len() && member(
                        o,
                        g,
                        ms@[(#[trigger] gv[z]) as int].0.0,
                        ms@[gv[z] as int].1,
                        ms@[gv[z] as int].2,
                    );
                assert(is_group(ks, ks.len() as int, gs@[y]@));
                assert(gv[z] < ks.len());
                assert(any_member(o, g, ms@));
            }
            if any_member(o, g, ms@) {
                let k = choose|k: int|
                    0 <= k < ms@.len() && member(o, g, (#[trigger] ms@[k]).0.0, ms@[k].1, ms@[k].2);
                assert(grouped(gs@, k));
                let (y, z) = choose|y: int, z: int|
                    0 <= y < gs@.len() && 0 <= z < gs@[y]@.len() && #[trigger] gs@[y]@[z] == k;
                let gv = gs@[y]@;
                assert(ms@[gv[z] as int] == ms@[k]);
                assert(group_member(o, g, ms@, gv, gv.len() as int));
                assert(member(st, g, r@[y].0.0, r@[y].1, r@[y].2));
            }
        }
    }
    r
}


/// The member is a literal of the list.
spec fn stated(ls: Seq<Literal>, m: Member) -> bool {
    exists|j: int|
        0 <= j < ls.len() && #[trigger] ls[j] == (Literal::SppMember {
            spp: m.0,
            in_sp: m.1,
            out_sp: m.2,
        })
}

/// The literals on sets, and the others in order.
fn split_members(literals: Vec<Literal>, Ghost(st): Ghost<SPstore>) -> (r: (
    Vec<Member>,
    Vec<Literal>,
))
    ensures
        forall|k: int| 0 <= k < r.1@.len() ==> plain(#[trigger] r.1@[k]) && literals@.contains(
            r.1@[k],
        ),
        forall|k: int| 0 <= k < r.0@.len() ==> stated(literals@, #[trigger] r.0@[k]),
        forall|g: Guess, e: Bits| #[trigger]
            clause_true(st, literals@, g, e) == (any_member(st, g, r.0@) || clause_true(
                st,
                r.1@,
                g,
                e,
            )),
{
    let ghost ls = literals@;
    let mut literals = literals;
    let mut rev: Vec<Literal> = Vec::new();
    let mut n: usize = literals.len();
    while n > 0
        invariant
            n == literals@.len(),
            n <= ls.len(),
            literals@ == ls.take(n as int),
            rev@.len() == ls.len() - n,
            forall|j: int| 0 <= j < rev@.len() ==> #[trigger] rev@[j] == ls[ls.len() - 1 - j],
        decreases n,
    {
        let l = literals.pop().unwrap();
        rev.push(l);
        n = n - 1;
        assert(literals@ =~= ls.take(n as int));
    }
    let mut members: Vec<Member> = Vec::new();
    let mut others: Vec<Literal> = Vec::new();
    let mut m: usize = rev.len();
    while m > 0
        invariant
            m == rev@.len(),
            m <= ls.len(),
            forall|j: int| 0 <= j < rev@.len() ==> #[trigger] rev@[j] == ls[ls.len() - 1 - j],
            forall|k: int|
                0 <= k < others@.len() ==> plain(#[trigger] others@[k]) && ls.contains(others@[k]),
            forall|k: int| 0 <= k < members@.len() ==> stated(ls, #[trigger] members@[k]),
            forall|g: Guess, e: Bits|
                #[trigger] clause_true(st, ls.take(ls.len() - m), g, e) == (any_member(
                    st,
                    g,
                    members@,
                ) || clause_true(st, others@, g, e)),
        decreases m,
    {
        let ghost d = ls.len() - m;
        let ghost ms0 = members@;
        let ghost os0 = others@;
        let l = rev.pop().unwrap();
        assert(l == ls[d]);
        let ghost l0 = l;
        match l {
            Literal::SppMember { spp, in_sp, out_sp } => {
                members.push((spp, in_sp, out_sp));
            },
            other => {
                others.push(other);
            },
        }
        proof {
            let t = ls.take(d);
            let t1 = ls.take(d + 1);
            assert(t1 =~= t.push(l0));
            assert forall|g: Guess, e: Bits|
                #[trigger] clause_true(st, t1, g, e) == (any_member(st, g, members@)
                    || clause_true(st, others@, g, e)) by {
                assert(clause_true(st, t, g, e) == (any_member(st, g, ms0) || clause_true(
                    st,
                    os0,
                    g,
                    e,
                )));
                lemma_clause_push(st, t, l0, g, e);
                if l0 is SppMember {
                    lemma_member_push(st, g, ms0, members@.last());
                    assert(members@ =~= ms0.push(members@.last()));
                } else {
                    lemma_clause_push(st, os0, l0, g, e);
                    assert(others@ =~= os0.push(l0));
                }
            }
            assert forall|k: int| 0 <= k < others@.len() implies plain(#[trigger] others@[k])
                && ls.contains(others@[k]) by {
                if k < os0.len() {
                    assert(others@[k] == os0[k]);
                } else {
                    assert(ls[d] == l0);
                }
            }
            assert forall|k: int| 0 <= k < members@.len() implies stated(
                ls,
                #[trigger] members@[k],
            ) by {
                if k < ms0.len() {
                    assert(members@[k] == ms0[k]);
                } else {
                    assert(ls[d] == l0);
                }
            }
        }
        m = m - 1;
    }
    assert(ls.take(ls.len() - m) =~= ls);
    (members, others)
}

proof fn lemma_clause_push(st: SPstore, ls: Seq<Literal>, l: Literal, g: Guess, e: Bits)
    ensures
        clause_true(st, ls.push(l), g, e) == (clause_true(st, ls, g, e) || lit_true(st, l, g, e)),
{
    let t = ls.push(l);
    if clause_true(st, ls, g, e) {
        let k = choose|k: int| 0 <= k < ls.len() && lit_true(st, #[trigger] ls[k], g, e);
        assert(t[k] == ls[k]);
    }
    if lit_true(st, l, g, e) {
        assert(t[ls.len() as int] == l);
    }
    if clause_true(st, t, g, e) {
        let k = choose|k: int| 0 <= k < t.len() && lit_true(st, #[trigger] t[k], g, e);
        if k < ls.len() {
            assert(t[k] == ls[k]);
        }
    }
}

proof fn lemma_member_push(st: SPstore, g: Guess, ms: Seq<Member>, m: Member)
    ensures
        any_member(st, g, ms.push(m)) == (any_member(st, g, ms) || member(
            st,
            g,
            m.0.0,
            m.1,
            m.2,
        )),
{
    let t = ms.push(m);
    if any_member(st, g, ms) {
        let k = choose|k: int|
            0 <= k < ms.len() && member(st, g, (#[trigger] ms[k]).0.0, ms[k].1, ms[k].2);
        assert(t[k] == ms[k]);
    }
    if member(st, g, m.0.0, m.1, m.2) {
        assert(t[ms.len() as int] == m);
    }
    if any_member(st, g, t) {
        let k = choose|k: int|
            0 <= k < t.len() && member(st, g, (#[trigger] t[k]).0.0, t[k].1, t[k].2);
        if k < ms.len() {
            assert(t[k] == ms[k]);
        }
    }
}

/// The members whose sets both have packets.
fn drop_empty(sp_store: &SPstore, ms: Vec<Member>, Ghost(s): Ghost<nat>) -> (r: Vec<Member>)
    requires
        sp_store.wf(),
        members_ok(*sp_store, s, ms@),
    ensures
        members_ok(*sp_store, s, r@),
        inhabited(*sp_store, r@),
        forall|g: Guess| #[trigger]
            any_member(*sp_store, g, r@) == any_member(*sp_store, g, ms@),
{
    let ghost st = *sp_store;
    let mut r: Vec<Member> = Vec::new();
    let mut i: usize = 0;
    while i < ms.len()
        invariant
            st == *sp_store,
            st.wf(),
            members_ok(st, s, ms@),
            i <= ms@.len(),
            members_ok(st, s, r@),
            inhabited(st, r@),
            forall|g: Guess|
                any_member(st, g, r@) == #[trigger] any_member(st, g, ms@.take(i as int)),
        decreases ms.len() - i,
    {
        let m = ms[i];
        let ghost r0 = r@;
        let ghost m0 = ms@[i as int];
        assert(st.has(m0.1) && st.has(m0.2) && m0.0.0 < s);
        let full = !sp_store.is_zero(m.1) && !sp_store.is_zero(m.2);
        if full {
            r.push(m);
        }
        proof {
            st.lemma_nonzero(m0.1);
            st.lemma_nonzero(m0.2);
            assert(ms@.take(i + 1) =~= ms@.take(i as int).push(m0));
            assert forall|g: Guess| any_member(st, g, r@) == #[trigger] any_member(
                st,
                g,
                ms@.take(i + 1),
            ) by {
                lemma_member_push(st, g, ms@.take(i as int), m0);
                assert(any_member(st, g, r0) == any_member(st, g, ms@.take(i as int)));
                if full {
                    lemma_member_push(st, g, r0, m0);
                    assert(r@ =~= r0.push(m0));
                } else {
                    if member(st, g, m0.0.0, m0.1, m0.2) {
                        let (p, q) = choose|p: Pkt, q: Pkt|
                            p.len() == st.n() && q.len() == st.n() && st.mem(m0.1, p) && st.mem(
                                m0.2,
                                q,
                            ) && #[trigger] (g.spps)(m0.0.0, p, q);
                        assert(false);
                    }
                }
            }
        }
        i = i + 1;
    }
    assert(ms@.take(i as int) =~= ms@);
    r
}

/// Bits that are the variables from `v` on.
spec fn var_bits(ap: Seq<AbstractBit>, v: nat) -> bool {
    forall|i: int|
        0 <= i < ap.len() ==> #[trigger] ap[i] == AbstractBit::Exist(
            Existential((v + i) as usize),
        ) && v + i <= usize::MAX
}

/// The values `e` up to variable `v`, and then those of the packets.
spec fn extended_bits(e: Bits, v: nat, p: Pkt, q: Pkt) -> Bits {
    |i: usize|
        if i < v {
            e(i)
        } else if i < v + p.len() {
            p[i - v]
        } else {
            q[i - v - p.len()]
        }
}

proof fn lemma_extended_bits(
    e: Bits,
    v: nat,
    p: Pkt,
    q: Pkt,
    ap1: Seq<AbstractBit>,
    ap2: Seq<AbstractBit>,
)
    requires
        ap1.len() == p.len(),
        ap2.len() == q.len(),
        var_bits(ap1, v),
        var_bits(ap2, v + p.len()),
    ensures
        same_bits(v, e, extended_bits(e, v, p, q)),
        bits_at(ap1, extended_bits(e, v, p, q)) == p,
        bits_at(ap2, extended_bits(e, v, p, q)) == q,
{
    let f = extended_bits(e, v, p, q);
    assert forall|i: int| 0 <= i < p.len() implies bits_at(ap1, f)[i] == p[i] by {
        assert(ap1[i] == AbstractBit::Exist(Existential((v + i) as usize)));
    }
    assert(bits_at(ap1, f) =~= p);
    assert forall|i: int| 0 <= i < q.len() implies bits_at(ap2, f)[i] == q[i] by {
        assert(ap2[i] == AbstractBit::Exist(Existential((v + p.len() + i) as usize)));
    }
    assert(bits_at(ap2, f) =~= q);
}

impl<'a> Z3<'a> {
    /// As many new variables as a packet has fields, as variables and as bits.
    fn new_packet(&mut self) -> (r: (Vec<Existential>, Vec<AbstractBit>))
        requires
            old(self).sound(),
        ensures
            final(self).sound(),
            final(self).only_vars(old(self)),
            final(self).rules == old(self).rules,
            final(self).existentials@.len() == old(self).existentials@.len() + old(self).num_vars,
            r.0@.len() == old(self).num_vars,
            r.1@.len() == old(self).num_vars,
            var_bits(r.1@, old(self).existentials@.len()),
            packet_ok(r.1@, old(self).num_vars as nat, final(self).existentials@.len()),
            forall|i: int|
                0 <= i < r.0@.len() ==> (#[trigger] r.0@[i]).0 < final(self).existentials@.len(),
            forall|e: Bits| #[trigger] bits_at(r.1@, e) == vars_at(r.0@, e),
    {
        let ghost o = *self;
        let ghost v0 = self.existentials@.len();
        let mut vars: Vec<Existential> = Vec::new();
        let mut bits: Vec<AbstractBit> = Vec::new();
        let n = self.num_vars;
        let mut i: u32 = 0;
        while i < n
            invariant
                o == *old(self),
                self.sound(),
                self.only_vars(&o),
                self.rules == o.rules,
                v0 == o.existentials@.len(),
                n == o.num_vars,
                i <= n,
                self.existentials@.len() == v0 + i,
                vars@.len() == i,
                bits@.len() == i,
                forall|j: int|
                    0 <= j < i ==> (#[trigger] vars@[j]).0 == v0 + j && bits@[j]
                        == AbstractBit::Exist(vars@[j]),
            decreases n - i,
        {
            let v = self.new_var();
            vars.push(v);
            bits.push(AbstractBit::Exist(v));
            i = i + 1;
        }
        proof {
            assert forall|j: int| 0 <= j < bits@.len() implies #[trigger] bits@[j]
                == AbstractBit::Exist(Existential((v0 + j) as usize)) && v0 + j
                <= usize::MAX by {
                assert(vars@[j].0 == v0 + j);
            }
            assert forall|e: Bits| #[trigger] bits_at(bits@, e) == vars_at(vars@, e) by {
                assert forall|j: int| 0 <= j < bits@.len() implies bits_at(bits@, e)[j] == vars_at(
                    vars@,
                    e,
                )[j] by {
                    assert(vars@[j].0 == v0 + j);
                }
                assert(bits_at(bits@, e) =~= vars_at(vars@, e));
            }
        }
        (vars, bits)
    }

    /// The literal of a member: a pair of packets of new variables, asserted to be in
    /// its sets.
    fn member_literal(&mut self, m: &Member, sp_store: &SPstore) -> (l: Literal)
        requires
            old(self).sound(),
            sp_store.wf(),
            sp_store.n() == old(self).num_vars,
            m.0.0 < old(self).spps@.len(),
            sp_store.has(m.1),
            sp_store.has(m.2),
        ensures
            final(self).sound(),
            final(self).only_vars(old(self)),
            l matches Literal::Spp { spp, ap1, ap2, polarity } && spp == m.0 && polarity
                && ap1@.len() == old(self).num_vars && ap2@.len() == old(self).num_vars
                && var_bits(ap1@, old(self).existentials@.len()) && var_bits(
                ap2@,
                old(self).existentials@.len() + old(self).num_vars as nat,
            ) && forall|e: Bits| #[trigger]
                (final(self).rules@)(e) == ((old(self).rules@)(e) && sp_store.mem(
                    m.1,
                    bits_at(ap1@, e),
                ) && sp_store.mem(m.2, bits_at(ap2@, e))),
            lit_ok(
                l,
                final(self).any@,
                final(self).num_vars as nat,
                final(self).spps@.len(),
                widths(final(self).dfas@),
                final(self).existentials@.len(),
            ),
    {
        let ghost o = *self;
        let (v1, ap1) = self.new_packet();
        let ghost a1 = *self;
        let (v2, ap2) = self.new_packet();
        let ghost a2 = *self;
        proof {
            lemma_packet_more(
                ap1@,
                o.num_vars as nat,
                a1.existentials@.len(),
                a2.existentials@.len(),
            );
            assert forall|i: int| 0 <= i < v1@.len() implies (#[trigger] v1@[i]).0
                < a2.existentials@.len() by {
                assert(v1@[i].0 < a1.existentials@.len());
            }
        }
        self.assert_member(m.1, &v1, sp_store);
        let ghost a3 = *self;
        self.assert_member(m.2, &v2, sp_store);
        proof {
            assert forall|e: Bits| #[trigger] (self.rules@)(e) == ((o.rules@)(e) && sp_store.mem(
                m.1,
                bits_at(ap1@, e),
            ) && sp_store.mem(m.2, bits_at(ap2@, e))) by {
                assert((a3.rules@)(e) == ((a2.rules@)(e) && sp_store.mem(m.1, vars_at(v1@, e))));
            }
        }
        Literal::Spp { spp: m.0, ap1, ap2, polarity: true }
    }

    /// The literals of the members, of which those hold that can hold.
    spec fn realized(&self, st: SPstore, ls: Seq<Literal>, ms: Seq<Member>, g: Guess, e: Bits) -> bool {
        forall|k: int|
            0 <= k < ls.len() && member(st, g, (#[trigger] ms[k]).0.0, ms[k].1, ms[k].2)
                ==> lit_true(self.any@, ls[k], g, e)
    }

    /// Every literal of a member that holds says that the member does.
    spec fn honest(&self, st: SPstore, ls: Seq<Literal>, ms: Seq<Member>, g: Guess, e: Bits) -> bool {
        forall|k: int|
            0 <= k < ls.len() && lit_true(self.any@, #[trigger] ls[k], g, e) ==> member(
                st,
                g,
                ms[k].0.0,
                ms[k].1,
                ms[k].2,
            )
    }

    /// Some values of the new variables go with the guess and the old values.
    spec fn realizable(
        &self,
        st: SPstore,
        v: nat,
        ls: Seq<Literal>,
        ms: Seq<Member>,
        g: Guess,
        e: Bits,
    ) -> bool {
        exists|f: Bits|
            same_bits(v, e, f) && #[trigger] self.permits(g, f) && self.realized(st, ls, ms, g, f)
    }

    /// The literals of the members.
    fn member_literals(&mut self, ms: &Vec<Member>, sp_store: &SPstore) -> (ls: Vec<Literal>)
        requires
            old(self).sound(),
            sp_store.wf(),
            sp_store.n() == old(self).num_vars,
            members_ok(*sp_store, old(self).spps@.len(), ms@),
            inhabited(*sp_store, ms@),
        ensures
            final(self).sound(),
            final(self).only_vars(old(self)),
            ls@.len() == ms@.len(),
            forall|k: int|
                0 <= k < ls@.len() ==> plain(#[trigger] ls@[k]) && lit_ok(
                    ls@[k],
                    final(self).any@,
                    final(self).num_vars as nat,
                    final(self).spps@.len(),
                    widths(final(self).dfas@),
                    final(self).existentials@.len(),
                ),
            forall|g: Guess, e: Bits| #[trigger]
                final(self).permits(g, e) ==> old(self).permits(g, e) && final(self).honest(
                    *sp_store,
                    ls@,
                    ms@,
                    g,
                    e,
                ),
            forall|g: Guess, e: Bits| #[trigger]
                old(self).permits(g, e) ==> final(self).realizable(
                    *sp_store,
                    old(self).existentials@.len(),
                    ls@,
                    ms@,
                    g,
                    e,
                ),
    {
        let ghost o = *self;
        let ghost st = *sp_store;
        let ghost n = self.num_vars as nat;
        let ghost v0 = self.existentials@.len();
        let mut ls: Vec<Literal> = Vec::new();
        let mut i: usize = 0;
        proof {
            assert forall|g: Guess, e: Bits| #[trigger] o.permits(g, e) implies self.realizable(
                st,
                v0,
                ls@,
                ms@,
                g,
                e,
            ) by {
                assert(same_bits(v0, e, e));
                assert(self.permits(g, e) && self.realized(st, ls@, ms@, g, e));
            }
        }
        while i < ms.len()
            invariant
                o == *old(self),
                st == *sp_store,
                st.wf(),
                st.n() == n,
                n == o.num_vars,
                v0 == o.existentials@.len(),
                members_ok(st, o.spps@.len(), ms@),
                inhabited(st, ms@),
                self.sound(),
                self.only_vars(&o),
                i <= ms@.len(),
                ls@.len() == i,
                forall|k: int|
                    0 <= k < i ==> plain(#[trigger] ls@[k]) && lit_ok(
                        ls@[k],
                        self.any@,
                        n,
                        self.spps@.len(),
                        widths(self.dfas@),
                        self.existentials@.len(),
                    ),
                forall|g: Guess, e: Bits| #[trigger]
                    self.permits(g, e) ==> o.permits(g, e) && self.honest(st, ls@, ms@, g, e),
                forall|g: Guess, e: Bits| #[trigger]
                    o.permits(g, e) ==> self.realizable(st, v0, ls@, ms@, g, e),
            decreases ms.len() - i,
        {
            let ghost a1 = *self;
            let ghost ls1 = ls@;
            let ghost m = ms@[i as int];
            assert(m.0.0 < o.spps@.len() && st.has(m.1) && st.has(m.2));
            let l = self.member_literal(&ms[i], sp_store);
            let ghost l0 = l;
            ls.push(l);
            proof {
                let a2 = *self;
                let ap1 = l0->Spp_ap1@;
                let ap2 = l0->Spp_ap2@;
                let v1 = a1.existentials@.len();
                assert forall|k: int| 0 <= k < i + 1 implies plain(#[trigger] ls@[k]) && lit_ok(
                    ls@[k],
                    a2.any@,
                    n,
                    a2.spps@.len(),
                    widths(a2.dfas@),
                    a2.existentials@.len(),
                ) by {
                    if k < i {
                        assert(ls@[k] == ls1[k]);
                        lemma_lit_more(
                            ls1[k],
                            a1.any@,
                            a2.any@,
                            n,
                            a1.spps@.len(),
                            a2.spps@.len(),
                            widths(a1.dfas@),
                            widths(a2.dfas@),
                            a1.existentials@.len(),
                            a2.existentials@.len(),
                        );
                    }
                }
                assert forall|g: Guess, e: Bits| #[trigger] a2.permits(g, e) implies o.permits(
                    g,
                    e,
                ) && a2.honest(st, ls@, ms@, g, e) by {
                    assert((a2.rules@)(e));
                    assert(a1.permits(g, e));
                    assert(a1.honest(st, ls1, ms@, g, e));
                    assert forall|k: int|
                        0 <= k < ls@.len() && lit_true(a2.any@, #[trigger] ls@[k], g, e)
                        implies member(st, g, ms@[k].0.0, ms@[k].1, ms@[k].2) by {
                        if k < i {
                            assert(ls@[k] == ls1[k]);
                            assert(lit_true(a1.any@, ls1[k], g, e));
                        } else {
                            let p = bits_at(ap1, e);
                            let q = bits_at(ap2, e);
                            assert((g.spps)(m.0.0, p, q));
                        }
                    }
                }
                assert forall|g: Guess, e: Bits| #[trigger] o.permits(g, e) implies a2.realizable(
                    st,
                    v0,
                    ls@,
                    ms@,
                    g,
                    e,
                ) by {
                    assert(a1.realizable(st, v0, ls1, ms@, g, e));
                    let f = choose|f: Bits|
                        same_bits(v0, e, f) && #[trigger] a1.permits(g, f) && a1.realized(
                            st,
                            ls1,
                            ms@,
                            g,
                            f,
                        );
                    st.lemma_nonzero(m.1);
                    st.lemma_nonzero(m.2);
                    let (p, q) = if member(st, g, m.0.0, m.1, m.2) {
                        choose|p: Pkt, q: Pkt|
                            p.len() == n && q.len() == n && st.mem(m.1, p) && st.mem(m.2, q)
                                && #[trigger] (g.spps)(m.0.0, p, q)
                    } else {
                        (
                            choose|p: Pkt| p.len() == n && st.mem(m.1, p),
                            choose|q: Pkt| q.len() == n && st.mem(m.2, q),
                        )
                    };
                    assert(ms@[i as int].1 != st.zero && ms@[i as int].2 != st.zero);
                    assert(p.len() == n && q.len() == n && st.mem(m.1, p) && st.mem(m.2, q));
                    let h = extended_bits(f, v1, p, q);
                    lemma_extended_bits(f, v1, p, q, ap1, ap2);
                    assert(same_guess(n, g, g));
                    a1.lemma_permits(g, g, f, h);
                    assert((a1.rules@)(h));
                    assert((a2.rules@)(h));
                    assert(a2.permits(g, h));
                    assert(same_bits(v0, e, h)) by {
                        assert forall|x: usize| #![trigger h(x)] x < v0 implies e(x) == h(x) by {
                            assert(f(x) == e(x));
                        }
                    }
                    assert(a2.realized(st, ls@, ms@, g, h)) by {
                        assert forall|k: int|
                            0 <= k < ls@.len() && member(
                                st,
                                g,
                                (#[trigger] ms@[k]).0.0,
                                ms@[k].1,
                                ms@[k].2,
                            ) implies lit_true(a2.any@, ls@[k], g, h) by {
                            if k < i {
                                assert(ls@[k] == ls1[k]);
                                assert(lit_true(a1.any@, ls1[k], g, f));
                                lemma_lit_same(
                                    ls1[k],
                                    a1.any@,
                                    n,
                                    a1.spps@.len(),
                                    widths(a1.dfas@),
                                    v1,
                                    g,
                                    g,
                                    f,
                                    h,
                                );
                            }
                        }
                    }
                }
            }
            i = i + 1;
        }
        ls
    }
}


impl<'a> Z3<'a> {
    /// Assert a clause of literals that are not on sets.
    fn assert_clause(&mut self, ls: Vec<Literal>)
        requires
            old(self).sound(),
            forall|k: int|
                0 <= k < ls@.len() ==> plain(#[trigger] ls@[k]) && lit_ok(
                    ls@[k],
                    old(self).any@,
                    old(self).num_vars as nat,
                    old(self).spps@.len(),
                    widths(old(self).dfas@),
                    old(self).existentials@.len(),
                ),
        ensures
            final(self).sound(),
            final(self).num_vars == old(self).num_vars,
            final(self).flags == old(self).flags,
            final(self).spps@ == old(self).spps@,
            final(self).cands@ == old(self).cands@,
            final(self).dfas@ == old(self).dfas@,
            final(self).any == old(self).any,
            final(self).existentials@ == old(self).existentials@,
            final(self).rules == old(self).rules,
            forall|g: Guess, e: Bits| #[trigger]
                final(self).permits(g, e) == (old(self).permits(g, e) && clause_true(
                    old(self).any@,
                    ls@,
                    g,
                    e,
                )),
    {
        let ghost o = *self;
        let ghost lv = ls@;
        let mut fs: Vec<Formula> = Vec::new();
        let mut i: usize = 0;
        while i < ls.len()
            invariant
                o == *self,
                o.sound(),
                lv == ls@,
                i <= lv.len(),
                forall|k: int|
                    0 <= k < lv.len() ==> plain(#[trigger] lv[k]) && lit_ok(
                        lv[k],
                        o.any@,
                        o.num_vars as nat,
                        o.spps@.len(),
                        widths(o.dfas@),
                        o.existentials@.len(),
                    ),
                fs@.len() == i,
                forall|k: int, j: Interp|
                    #![trigger meaning(fs@[k], j)]
                    0 <= k < i ==> meaning(fs@[k], j) == lit_true(
                        o.any@,
                        lv[k],
                        guess_of(j),
                        bits_of(j),
                    ),
            decreases ls.len() - i,
        {
            let ghost fs0 = fs@;
            assert(plain(lv[i as int]));
            let f = self.lit_formula(&ls[i]);
            fs.push(f);
            proof {
                assert forall|k: int, j: Interp|
                    #![trigger meaning(fs@[k], j)]
                    0 <= k < i + 1 implies meaning(fs@[k], j) == lit_true(
                    o.any@,
                    lv[k],
                    guess_of(j),
                    bits_of(j),
                ) by {
                    if k < i {
                        assert(fs@[k] == fs0[k]);
                    }
                }
            }
            i = i + 1;
        }
        let ghost fv = fs@;
        let body = any_of(fs);
        assert_formula(&mut self.solver, &body);
        let ghost c0 = self.clauses@;
        self.clauses.push(ls);
        proof {
            assert forall|g: Guess, e: Bits| #[trigger] self.permits(g, e) == (o.permits(g, e)
                && clause_true(o.any@, lv, g, e)) by {
                if self.permits(g, e) {
                    assert(self.clauses@[c0.len() as int]@ == lv);
                    assert forall|c: int| 0 <= c < c0.len() implies clause_true(
                        o.any@,
                        #[trigger] c0[c]@,
                        g,
                        e,
                    ) by {
                        assert(self.clauses@[c] == c0[c]);
                    }
                }
                if o.permits(g, e) && clause_true(o.any@, lv, g, e) {
                    assert forall|c: int| 0 <= c < self.clauses@.len() implies clause_true(
                        o.any@,
                        #[trigger] self.clauses@[c]@,
                        g,
                        e,
                    ) by {
                        if c < c0.len() {
                            assert(self.clauses@[c] == c0[c]);
                        }
                    }
                }
            }
            assert forall|j: Interp| #[trigger] asserted(self.solver, j) == self.permits(
                guess_of(j),
                bits_of(j),
            ) by {
                assert(asserted(o.solver, j) == o.permits(guess_of(j), bits_of(j)));
                if any_true(fv, j) {
                    let k = choose|k: int| 0 <= k < fv.len() && meaning(#[trigger] fv[k], j);
                    assert(lit_true(o.any@, lv[k], guess_of(j), bits_of(j)));
                }
                if clause_true(o.any@, lv, guess_of(j), bits_of(j)) {
                    let k = choose|k: int|
                        0 <= k < lv.len() && lit_true(
                            o.any@,
                            #[trigger] lv[k],
                            guess_of(j),
                            bits_of(j),
                        );
                    assert(meaning(fv[k], j));
                }
            }
            assert forall|c: int, k: int|
                #![trigger self.clauses@[c]@[k]]
                0 <= c < self.clauses@.len() && 0 <= k < self.clauses@[c]@.len() implies plain(
                self.clauses@[c]@[k],
            ) && lit_ok(
                self.clauses@[c]@[k],
                self.any@,
                self.num_vars as nat,
                self.spps@.len(),
                widths(self.dfas@),
                self.existentials@.len(),
            ) by {
                if c < c0.len() {
                    assert(self.clauses@[c] == c0[c]);
                    assert(plain(o.clauses@[c]@[k]));
                } else {
                    assert(plain(lv[k]));
                }
            }
        }
    }

    /// Assert a clause.
    #[verifier::rlimit(40)]
    fn assert_any_clause(&mut self, literals: Vec<Literal>, sp_store: &mut SPstore)
        requires
            old(self).sound(),
            old(sp_store).wf(),
            old(sp_store).n() == old(self).num_vars,
            forall|k: int|
                0 <= k < literals@.len() ==> lit_ok(
                    #[trigger] literals@[k],
                    *old(sp_store),
                    old(self).num_vars as nat,
                    old(self).spps@.len(),
                    widths(old(self).dfas@),
                    old(self).existentials@.len(),
                ),
        ensures
            final(self).sound(),
            final(self).num_vars == old(self).num_vars,
            final(self).flags == old(self).flags,
            final(self).spps@ == old(self).spps@,
            final(self).cands@ == old(self).cands@,
            final(self).dfas@ == old(self).dfas@,
            final(self).existentials@.len() >= old(self).existentials@.len(),
            final(sp_store).wf(),
            final(sp_store).extends(old(sp_store)),
            forall|g: Guess, e: Bits| #[trigger]
                final(self).permits(g, e) ==> old(self).permits(g, e) && clause_true(
                    *old(sp_store),
                    literals@,
                    g,
                    e,
                ),
            forall|g: Guess, e: Bits| #[trigger]
                old(self).permits(g, e) && clause_true(*old(sp_store), literals@, g, e)
                    ==> exists|f: Bits|
                    same_bits(old(self).existentials@.len(), e, f) && #[trigger] final(self).permits(g, f),
    {
        let ghost o = *self;
        let ghost so = *sp_store;
        let ghost n = self.num_vars as nat;
        let ghost s = self.spps@.len();
        let ghost ls0 = literals@;
        let (members, others) = split_members(literals, Ghost(so));
        let ghost ms0 = members@;
        let ghost os0 = others@;
        proof {
            so.lemma_consts();
            assert forall|k: int| 0 <= k < ms0.len() implies (#[trigger] ms0[k]).0.0 < s && so.has(
                ms0[k].1,
            ) && so.has(ms0[k].2) by {
                assert(stated(ls0, ms0[k]));
                let j = choose|j: int|
                    0 <= j < ls0.len() && #[trigger] ls0[j] == (Literal::SppMember {
                        spp: ms0[k].0,
                        in_sp: ms0[k].1,
                        out_sp: ms0[k].2,
                    });
                assert(lit_ok(ls0[j], so, n, s, widths(o.dfas@), o.existentials@.len()));
            }
        }
        let members = drop_empty(sp_store, members, Ghost(s));
        let ghost ms1 = members@;
        let members = if self.flags.clause_merge() {
            let once = collate(sp_store, &members, true, Ghost(s));
            collate(sp_store, &once, false, Ghost(s))
        } else {
            members
        };
        let ghost ms2 = members@;
        let ghost st = *sp_store;
        proof {
            assert forall|g: Guess| #[trigger] any_member(st, g, ms2) == any_member(so, g, ms0) by {
                assert(any_member(so, g, ms1) == any_member(so, g, ms0));
            }
        }
        let mut ls = self.member_literals(&members, sp_store);
        let ghost a1 = *self;
        let ghost ml = ls@;
        let mut others = others;
        ls.append(&mut others);
        let ghost lv = ls@;
        proof {
            assert(lv =~= ml + os0);
            assert forall|k: int| 0 <= k < lv.len() implies plain(#[trigger] lv[k]) && lit_ok(
                lv[k],
                a1.any@,
                n,
                a1.spps@.len(),
                widths(a1.dfas@),
                a1.existentials@.len(),
            ) by {
                if k < ml.len() {
                    assert(lv[k] == ml[k]);
                } else {
                    let l = os0[k - ml.len()];
                    assert(lv[k] == l);
                    assert(plain(l) && ls0.contains(l));
                    let j = choose|j: int| 0 <= j < ls0.len() && ls0[j] == l;
                    assert(lit_ok(ls0[j], so, n, s, widths(o.dfas@), o.existentials@.len()));
                    lemma_lit_more(
                        l,
                        so,
                        a1.any@,
                        n,
                        s,
                        a1.spps@.len(),
                        widths(o.dfas@),
                        widths(a1.dfas@),
                        o.existentials@.len(),
                        a1.existentials@.len(),
                    );
                }
            }
        }
        self.assert_clause(ls);
        proof {
            let v0 = o.existentials@.len();
            assert forall|g: Guess, e: Bits| #[trigger] self.permits(g, e) implies o.permits(g, e)
                && clause_true(so, ls0, g, e) by {
                assert(a1.permits(g, e) && clause_true(a1.any@, lv, g, e));
                assert(a1.honest(st, ml, ms2, g, e));
                let k = choose|k: int|
                    0 <= k < lv.len() && lit_true(a1.any@, #[trigger] lv[k], g, e);
                assert(clause_true(so, ls0, g, e) == (any_member(so, g, ms0) || clause_true(
                    so,
                    os0,
                    g,
                    e,
                )));
                if k < ml.len() {
                    assert(lv[k] == ml[k]);
                    assert(member(st, g, ms2[k].0.0, ms2[k].1, ms2[k].2));
                    assert(any_member(st, g, ms2));
                } else {
                    let l = os0[k - ml.len()];
                    assert(lv[k] == l);
                    assert(plain(l));
                    assert(lit_true(so, l, g, e));
                    assert(clause_true(so, os0, g, e));
                }
            }
            assert forall|g: Guess, e: Bits| #[trigger] o.permits(g, e) && clause_true(
                so,
                ls0,
                g,
                e,
            ) implies exists|f: Bits| same_bits(v0, e, f) && #[trigger] self.permits(g, f) by {
                assert(a1.realizable(st, v0, ml, ms2, g, e));
                let f = choose|f: Bits|
                    same_bits(v0, e, f) && #[trigger] a1.permits(g, f) && a1.realized(
                        st,
                        ml,
                        ms2,
                        g,
                        f,
                    );
                assert(clause_true(so, ls0, g, e) == (any_member(so, g, ms0) || clause_true(
                    so,
                    os0,
                    g,
                    e,
                )));
                if any_member(so, g, ms0) {
                    assert(any_member(st, g, ms2));
                    let k = choose|k: int|
                        0 <= k < ms2.len() && member(
                            st,
                            g,
                            (#[trigger] ms2[k]).0.0,
                            ms2[k].1,
                            ms2[k].2,
                        );
                    assert(a1.realized(st, ml, ms2, g, f));
                    assert(member(st, g, ms2[k].0.0, ms2[k].1, ms2[k].2));
                    assert(ml.len() == ms2.len());
                    assert(lit_true(a1.any@, ml[k], g, f));
                    assert(lv[k] == ml[k]);
                } else {
                    let k = choose|k: int| 0 <= k < os0.len() && lit_true(
                        so,
                        #[trigger] os0[k],
                        g,
                        e,
                    );
                    let l = os0[k];
                    assert(plain(l) && ls0.contains(l));
                    let j = choose|j: int| 0 <= j < ls0.len() && ls0[j] == l;
                    assert(lit_ok(ls0[j], so, n, s, widths(o.dfas@), v0));
                    assert(same_guess(n, g, g));
                    lemma_lit_same(l, so, n, s, widths(o.dfas@), v0, g, g, e, f);
                    assert(lv[k + ml.len()] == l);
                    assert(lit_true(a1.any@, lv[k + ml.len()], g, f));
                }
                assert(clause_true(a1.any@, lv, g, f));
                assert(self.permits(g, f));
            }
        }
    }
}


// ---- extraction --------------------------------------------------------------------------------

/// An input of a slot, with known bits.
#[derive(Debug)]
pub enum Atom {
    Spp(usize, Vec<bool>, Vec<bool>),
    Cand(usize, Input),
}

/// Whether the slot has the input.
spec fn atom_true(a: Atom, g: Guess) -> bool {
    match a {
        Atom::Spp(k, p, q) => (g.spps)(k, p@, q@),
        Atom::Cand(k, x) => (g.cands)(
            k,
            x.pkt_in@,
            x.pkt_start@,
            x.states@,
            x.pkt_end@,
            x.pkt_out@,
        ),
    }
}

/// The atoms are the same.
spec fn same_atom(a: Atom, b: Atom) -> bool {
    match (a, b) {
        (Atom::Spp(k, p, q), Atom::Spp(j, r, s)) => k == j && p@ == r@ && q@ == s@,
        (Atom::Cand(k, x), Atom::Cand(j, y)) => k == j && same_input(x, y),
        _ => false,
    }
}

/// The atom is that of the literal, with the values of the variables.
spec fn atom_of(a: Atom, l: Literal, e: Bits) -> bool {
    match (a, l) {
        (Atom::Spp(k, p, q), Literal::Spp { spp, ap1, ap2, polarity }) => k == spp.0 && p@
            == bits_at(ap1@, e) && q@ == bits_at(ap2@, e),
        (
            Atom::Cand(k, x),
            Literal::Cand { cand, pkt_in, pkt_start, states, pkt_end, pkt_out, polarity },
        ) => {
            &&& k == cand.0
            &&& x.pkt_in@ == bits_at(pkt_in@, e)
            &&& x.pkt_start@ == bits_at(pkt_start@, e)
            &&& x.states@ == states@
            &&& x.pkt_end@ == bits_at(pkt_end@, e)
            &&& x.pkt_out@ == bits_at(pkt_out@, e)
        },
        _ => false,
    }
}

/// Whether the literal says that the slot has the input.
spec fn polarity_of(l: Literal) -> bool {
    match l {
        Literal::Spp { spp, ap1, ap2, polarity } => polarity,
        Literal::SppMember { spp, in_sp, out_sp } => true,
        Literal::Cand { cand, pkt_in, pkt_start, states, pkt_end, pkt_out, polarity } => polarity,
    }
}

/// The atom is one of the slots.
spec fn atom_ok(a: Atom, n: nat, s: nat, ws: Seq<nat>) -> bool {
    match a {
        Atom::Spp(k, p, q) => k < s && p@.len() == n && q@.len() == n,
        Atom::Cand(k, x) => k < ws.len() && input_ok(x, n, ws[k as int]),
    }
}

fn is_same_atom(a: &Atom, b: &Atom) -> (r: bool)
    ensures
        r == same_atom(*a, *b),
{
    match (a, b) {
        (Atom::Spp(k, p, q), Atom::Spp(j, r, s)) => *k == *j && same_bools(p, r) && same_bools(q, s),
        (Atom::Cand(k, x), Atom::Cand(j, y)) => *k == *j && same_bools(&x.pkt_in, &y.pkt_in)
            && same_bools(&x.pkt_start, &y.pkt_start) && crate::aut::same_states(
            &x.states,
            &y.states,
        ) && same_bools(&x.pkt_end, &y.pkt_end) && same_bools(&x.pkt_out, &y.pkt_out),
        _ => false,
    }
}

fn same_bools(a: &Vec<bool>, b: &Vec<bool>) -> (r: bool)
    ensures
        r == (a@ == b@),
{
    if a.len() != b.len() {
        return false;
    }
    let mut i: usize = 0;
    while i < a.len()
        invariant
            a@.len() == b@.len(),
            i <= a@.len(),
            forall|j: int| 0 <= j < i ==> a@[j] == b@[j],
        decreases a.len() - i,
    {
        if a[i] != b[i] {
            assert(a@[i as int] != b@[i as int]);
            return false;
        }
        i = i + 1;
    }
    assert(a@ =~= b@);
    true
}

fn copy_input(x: &Input) -> (r: Input)
    ensures
        same_input(*x, r),
{
    Input {
        pkt_in: copy_bits(&x.pkt_in),
        pkt_start: copy_bits(&x.pkt_start),
        states: crate::aut::copy_states(&x.states),
        pkt_end: copy_bits(&x.pkt_end),
        pkt_out: copy_bits(&x.pkt_out),
    }
}

/// The values are those of the first variables.
spec fn values_are(values: Seq<bool>, e: Bits) -> bool {
    forall|k: int| 0 <= k < values.len() ==> #[trigger] values[k] == e(k as usize)
}

/// The packet of the bits.
fn ground_bits(ap: &Vec<AbstractBit>, values: &Vec<bool>, Ghost(e): Ghost<Bits>, Ghost(n): Ghost<
    nat,
>) -> (p: Vec<bool>)
    requires
        values_are(values@, e),
        packet_ok(ap@, n, values@.len()),
    ensures
        p@ == bits_at(ap@, e),
        p@.len() == n,
{
    let mut p: Vec<bool> = Vec::new();
    let mut i: usize = 0;
    while i < ap.len()
        invariant
            values_are(values@, e),
            packet_ok(ap@, n, values@.len()),
            i <= ap@.len(),
            p@.len() == i,
            forall|j: int| 0 <= j < i ==> #[trigger] p@[j] == bit_at(ap@[j], e),
        decreases ap.len() - i,
    {
        assert(ap@[i as int] matches AbstractBit::Exist(v) ==> v.0 < values@.len());
        let b = match ap[i] {
            AbstractBit::Concrete(x) => x,
            AbstractBit::Exist(v) => {
                assert(values@[v.0 as int] == e(v.0));
                values[v.0]
            },
        };
        p.push(b);
        i = i + 1;
    }
    assert(p@ =~= bits_at(ap@, e));
    p
}

/// Known bits.
pub fn concrete(pkt: &Vec<bool>) -> (ap: Vec<AbstractBit>)
    ensures
        ap@.len() == pkt@.len(),
        forall|i: int|
            0 <= i < pkt@.len() ==> #[trigger] ap@[i] == AbstractBit::Concrete(pkt@[i]),
        forall|e: Bits| #[trigger] bits_at(ap@, e) == pkt@,
{
    let mut ap: Vec<AbstractBit> = Vec::new();
    let mut i: usize = 0;
    while i < pkt.len()
        invariant
            i <= pkt@.len(),
            ap@.len() == i,
            forall|j: int| 0 <= j < i ==> #[trigger] ap@[j] == AbstractBit::Concrete(pkt@[j]),
        decreases pkt.len() - i,
    {
        ap.push(AbstractBit::Concrete(pkt[i]));
        i = i + 1;
    }
    proof {
        assert forall|e: Bits| #[trigger] bits_at(ap@, e) == pkt@ by {
            assert(bits_at(ap@, e) =~= pkt@);
        }
    }
    ap
}

/// Atoms with labels.
type Labelled = Vec<(Atom, bool)>;

/// Every label is what the guess says.
spec fn labels_right(sel: Seq<(Atom, bool)>, g: Guess) -> bool {
    forall|x: int| 0 <= x < sel.len() ==> (#[trigger] sel[x]).1 == atom_true(sel[x].0, g)
}

spec fn atoms_ok(sel: Seq<(Atom, bool)>, n: nat, s: nat, ws: Seq<nat>) -> bool {
    forall|x: int| 0 <= x < sel.len() ==> atom_ok((#[trigger] sel[x]).0, n, s, ws)
}

/// A literal of the clause has a selected atom, with the label that makes the literal
/// true.
spec fn covered(sel: Seq<(Atom, bool)>, ls: Seq<Literal>, e: Bits) -> bool {
    exists|k: int, x: int|
        0 <= k < ls.len() && 0 <= x < sel.len() && #[trigger] atom_of(
            sel[x].0,
            #[trigger] ls[k],
            e,
        ) && sel[x].1 == polarity_of(ls[k])
}

/// An atom as a mathematical value.
pub enum AtomModel {
    Spp(usize, Pkt, Pkt),
    Cand(usize, Pkt, Pkt, Seq<usize>, Pkt, Pkt),
}

impl Atom {
    pub open spec fn model(&self) -> AtomModel {
        match *self {
            Atom::Spp(k, p, q) => AtomModel::Spp(k, p@, q@),
            Atom::Cand(k, x) => AtomModel::Cand(
                k,
                x.pkt_in@,
                x.pkt_start@,
                x.states@,
                x.pkt_end@,
                x.pkt_out@,
            ),
        }
    }

    /// The same atom.
    fn copy(&self) -> (r: Atom)
        ensures
            r.model() == self.model(),
    {
        match self {
            Atom::Spp(k, p, q) => Atom::Spp(*k, copy_bits(p), copy_bits(q)),
            Atom::Cand(k, x) => Atom::Cand(*k, copy_input(x)),
        }
    }
}

/// What a model says of a literal: its atom, whether the slot has the input, and
/// whether the literal says that it has.
#[derive(Debug)]
pub struct Reading {
    pub atom: Atom,
    pub value: bool,
    pub polarity: bool,
}

/// A reading as a mathematical value.
pub struct ReadModel {
    pub atom: AtomModel,
    pub value: bool,
    pub polarity: bool,
}

impl Reading {
    pub open spec fn model(&self) -> ReadModel {
        ReadModel { atom: self.atom.model(), value: self.value, polarity: self.polarity }
    }
}

/// The readings of a clause.
pub open spec fn reads(rs: Seq<Reading>) -> Seq<ReadModel> {
    rs.map_values(|r: Reading| r.model())
}

/// The readings of all clauses.
pub open spec fn all_reads(cs: Seq<Vec<Reading>>) -> Seq<Seq<ReadModel>> {
    cs.map_values(|c: Vec<Reading>| reads(c@))
}

/// The atoms and their labels.
pub open spec fn models(sel: Seq<(Atom, bool)>) -> Seq<(AtomModel, bool)> {
    sel.map_values(|a: (Atom, bool)| (a.0.model(), a.1))
}

/// The atom is selected.
pub open spec fn known(sel: Seq<(AtomModel, bool)>, a: AtomModel) -> bool {
    exists|x: int| 0 <= x < sel.len() && (#[trigger] sel[x]).0 == a
}

/// Every atom of the first `k` literals is selected, with its value.
pub open spec fn with_all(
    sel: Seq<(AtomModel, bool)>,
    rs: Seq<ReadModel>,
    k: int,
) -> Seq<(AtomModel, bool)>
    decreases k,
{
    if k <= 0 || k > rs.len() {
        sel
    } else {
        let s = with_all(sel, rs, k - 1);
        if known(s, rs[k - 1].atom) {
            s
        } else {
            s.push((rs[k - 1].atom, rs[k - 1].value))
        }
    }
}

/// A literal of the clause is true whose atom is selected.
pub open spec fn covered_already(sel: Seq<(AtomModel, bool)>, rs: Seq<ReadModel>) -> bool {
    exists|k: int|
        0 <= k < rs.len() && (#[trigger] rs[k]).value == rs[k].polarity && known(sel, rs[k].atom)
}

/// The first literal from `k` on that is true.
pub open spec fn first_true(rs: Seq<ReadModel>, k: int) -> int
    decreases rs.len() - k,
{
    if k < 0 || k >= rs.len() || rs[k].value == rs[k].polarity {
        k
    } else {
        first_true(rs, k + 1)
    }
}

/// The atoms that are selected after a clause.  With `minimize`, the atom of the first
/// true literal is added if that of no true literal was there; without, all atoms are.
pub open spec fn pick(
    sel: Seq<(AtomModel, bool)>,
    rs: Seq<ReadModel>,
    minimize: bool,
) -> Seq<(AtomModel, bool)> {
    if !minimize {
        with_all(sel, rs, rs.len() as int)
    } else if covered_already(sel, rs) || first_true(rs, 0) >= rs.len() {
        sel
    } else {
        sel.push((rs[first_true(rs, 0)].atom, rs[first_true(rs, 0)].polarity))
    }
}

/// The atoms that are selected after the first `k` clauses.
pub open spec fn picked(cs: Seq<Seq<ReadModel>>, k: int, minimize: bool) -> Seq<(AtomModel, bool)>
    decreases k,
{
    if k <= 0 || k > cs.len() {
        Seq::empty()
    } else {
        pick(picked(cs, k - 1, minimize), cs[k - 1], minimize)
    }
}

/// Whether the atom is among the selected ones.
fn has_atom(sel: &Labelled, a: &Atom) -> (r: bool)
    ensures
        r == known(models(sel@), a.model()),
{
    let mut x: usize = 0;
    while x < sel.len()
        invariant
            x <= sel@.len(),
            forall|y: int| 0 <= y < x ==> (#[trigger] models(sel@)[y]).0 != a.model(),
        decreases sel.len() - x,
    {
        assert(models(sel@)[x as int] == (sel@[x as int].0.model(), sel@[x as int].1));
        if is_same_atom(&sel[x].0, a) {
            assert(models(sel@)[x as int].0 == a.model());
            return true;
        }
        x = x + 1;
    }
    false
}

/// Selects atoms for a clause.
fn pick_clause(sel: &mut Labelled, rs: &Vec<Reading>, minimize: bool)
    ensures
        models(final(sel)@) == pick(models(old(sel)@), reads(rs@), minimize),
{
    let ghost m0 = models(sel@);
    let ghost ms = reads(rs@);
    let mut k: usize = 0;
    if !minimize {
        while k < rs.len()
            invariant
                ms == reads(rs@),
                k <= rs@.len(),
                models(sel@) == with_all(m0, ms, k as int),
            decreases rs.len() - k,
        {
            let ghost m1 = models(sel@);
            assert(ms[k as int] == rs@[k as int].model());
            if !has_atom(sel, &rs[k].atom) {
                sel.push((rs[k].atom.copy(), rs[k].value));
                proof {
                    assert(models(sel@) =~= m1.push((ms[k as int].atom, ms[k as int].value)));
                }
            }
            k = k + 1;
        }
        return;
    }
    let mut first: Option<usize> = None;
    while k < rs.len()
        invariant
            minimize,
            m0 == models(old(sel)@),
            models(sel@) == m0,
            ms == reads(rs@),
            k <= rs@.len(),
            match first {
                Some(f) => f < k && first_true(ms, 0) == f,
                None => first_true(ms, 0) == first_true(ms, k as int),
            },
            forall|j: int|
                0 <= j < k && (#[trigger] ms[j]).value == ms[j].polarity ==> !known(
                    m0,
                    ms[j].atom,
                ),
        decreases rs.len() - k,
    {
        assert(ms[k as int] == rs@[k as int].model());
        if rs[k].value == rs[k].polarity {
            if has_atom(sel, &rs[k].atom) {
                assert(covered_already(m0, ms));
                return;
            }
            if first.is_none() {
                first = Some(k);
            }
        }
        k = k + 1;
    }
    match first {
        Some(f) => {
            assert(ms[f as int] == rs@[f as int].model());
            sel.push((rs[f].atom.copy(), rs[f].polarity));
            proof {
                assert(models(sel@) =~= m0.push((ms[f as int].atom, ms[f as int].polarity)));
            }
        },
        None => {},
    }
}

/// Selects atoms for all clauses, in order.
pub fn pick_atoms(cs: &Vec<Vec<Reading>>, minimize: bool) -> (sel: Vec<(Atom, bool)>)
    ensures
        models(sel@) == picked(all_reads(cs@), cs@.len() as int, minimize),
{
    let ghost ms = all_reads(cs@);
    let mut sel: Vec<(Atom, bool)> = Vec::new();
    let mut c: usize = 0;
    proof {
        assert(models(sel@) =~= Seq::<(AtomModel, bool)>::empty());
    }
    while c < cs.len()
        invariant
            ms == all_reads(cs@),
            c <= cs@.len(),
            models(sel@) == picked(ms, c as int, minimize),
        decreases cs.len() - c,
    {
        pick_clause(&mut sel, &cs[c], minimize);
        assert(ms[c as int] == reads(cs@[c as int]@));
        c = c + 1;
    }
    sel
}

/// The values, if all are known.
pub fn all_known(values: &Vec<Option<bool>>) -> (r: Option<Vec<bool>>)
    ensures
        r is Some <==> forall|k: int| 0 <= k < values@.len() ==> (#[trigger] values@[k]) is Some,
        r matches Some(v) ==> v@.len() == values@.len() && forall|k: int|
            0 <= k < v@.len() ==> values@[k] == Some(#[trigger] v@[k]),
{
    let mut v: Vec<bool> = Vec::new();
    let mut i: usize = 0;
    while i < values.len()
        invariant
            i <= values@.len(),
            v@.len() == i,
            forall|k: int| 0 <= k < i ==> values@[k] == Some(#[trigger] v@[k]),
        decreases values.len() - i,
    {
        match values[i] {
            Some(b) => {
                v.push(b);
            },
            None => {
                assert(values@[i as int] is None);
                return None;
            },
        }
        i = i + 1;
    }
    proof {
        assert forall|k: int| 0 <= k < values@.len() implies (#[trigger] values@[k]) is Some by {
            assert(values@[k] == Some(v@[k]));
        }
    }
    Some(v)
}

/// The atom of a literal, with the values of the variables.
spec fn lit_atom(l: Literal, e: Bits) -> AtomModel {
    match l {
        Literal::Spp { spp, ap1, ap2, polarity } => AtomModel::Spp(
            spp.0,
            bits_at(ap1@, e),
            bits_at(ap2@, e),
        ),
        Literal::SppMember { spp, in_sp, out_sp } => AtomModel::Spp(
            spp.0,
            Seq::empty(),
            Seq::empty(),
        ),
        Literal::Cand { cand, pkt_in, pkt_start, states, pkt_end, pkt_out, polarity } =>
        AtomModel::Cand(
            cand.0,
            bits_at(pkt_in@, e),
            bits_at(pkt_start@, e),
            states@,
            bits_at(pkt_end@, e),
            bits_at(pkt_out@, e),
        ),
    }
}

/// Whether the slot has the input.
spec fn model_true(a: AtomModel, g: Guess) -> bool {
    match a {
        AtomModel::Spp(k, p, q) => (g.spps)(k, p, q),
        AtomModel::Cand(k, p, q, v, r, s) => (g.cands)(k, p, q, v, r, s),
    }
}

/// What the guess and the values say of a literal.
spec fn read_of(l: Literal, g: Guess, e: Bits) -> ReadModel {
    ReadModel {
        atom: lit_atom(l, e),
        value: model_true(lit_atom(l, e), g),
        polarity: polarity_of(l),
    }
}

/// What the guess and the values say of the clauses.
spec fn reads_of(cs: Seq<Vec<Literal>>, g: Guess, e: Bits) -> Seq<Seq<ReadModel>> {
    cs.map_values(|c: Vec<Literal>| c@.map_values(|l: Literal| read_of(l, g, e)))
}

/// Every label is what the guess says.
spec fn right(sel: Seq<(AtomModel, bool)>, g: Guess) -> bool {
    forall|x: int| 0 <= x < sel.len() ==> (#[trigger] sel[x]).1 == model_true(sel[x].0, g)
}

/// Every selected atom is that of a literal.
spec fn drawn_of(sel: Seq<(AtomModel, bool)>, cs: Seq<Seq<ReadModel>>, k: int) -> bool {
    forall|x: int| 0 <= x < sel.len() ==> from_reads((#[trigger] sel[x]).0, cs, k)
}

/// The atom is that of a literal of the first `k` clauses.
spec fn from_reads(a: AtomModel, cs: Seq<Seq<ReadModel>>, k: int) -> bool {
    exists|c: int, j: int|
        0 <= c < k && 0 <= j < cs[c].len() && (#[trigger] cs[c][j]).atom == a
}

/// A literal has a selected atom, with the label that makes the literal true.
spec fn hit(sel: Seq<(AtomModel, bool)>, rs: Seq<ReadModel>) -> bool {
    exists|j: int, x: int|
        0 <= j < rs.len() && 0 <= x < sel.len() && (#[trigger] sel[x]).0 == (
        #[trigger] rs[j]).atom && sel[x].1 == rs[j].polarity
}

/// The values are what the guess says.
spec fn reads_right(rs: Seq<ReadModel>, g: Guess) -> bool {
    forall|j: int| 0 <= j < rs.len() ==> (#[trigger] rs[j]).value == model_true(rs[j].atom, g)
}

/// A literal of the clause is true.
spec fn read_true(rs: Seq<ReadModel>) -> bool {
    exists|j: int| 0 <= j < rs.len() && (#[trigger] rs[j]).value == rs[j].polarity
}

/// The first true literal is true, and none before it is.
proof fn lemma_first_true(rs: Seq<ReadModel>, k: int)
    requires
        0 <= k <= rs.len(),
    ensures
        k <= first_true(rs, k) <= rs.len(),
        first_true(rs, k) < rs.len() ==> rs[first_true(rs, k)].value == rs[first_true(
            rs,
            k,
        )].polarity,
        forall|j: int| k <= j < first_true(rs, k) ==> (#[trigger] rs[j]).value != rs[j].polarity,
    decreases rs.len() - k,
{
    if k < rs.len() && rs[k].value != rs[k].polarity {
        lemma_first_true(rs, k + 1);
    }
}

/// Selecting all atoms keeps the labels right, and selects them.
proof fn lemma_with_all(
    sel: Seq<(AtomModel, bool)>,
    cs: Seq<Seq<ReadModel>>,
    c: int,
    k: int,
    g: Guess,
)
    requires
        0 <= c < cs.len(),
        0 <= k <= cs[c].len(),
        right(sel, g),
        drawn_of(sel, cs, c),
        reads_right(cs[c], g),
    ensures
        right(with_all(sel, cs[c], k), g),
        drawn_of(with_all(sel, cs[c], k), cs, c + 1),
        sel.len() <= with_all(sel, cs[c], k).len(),
        forall|x: int| 0 <= x < sel.len() ==> #[trigger] with_all(sel, cs[c], k)[x] == sel[x],
        forall|j: int| 0 <= j < k ==> known(with_all(sel, cs[c], k), (#[trigger] cs[c][j]).atom),
    decreases k,
{
    let rs = cs[c];
    if k > 0 {
        lemma_with_all(sel, cs, c, k - 1, g);
        let s = with_all(sel, rs, k - 1);
        let t = with_all(sel, rs, k);
        assert(rs[k - 1].value == model_true(rs[k - 1].atom, g));
        assert forall|x: int| 0 <= x < t.len() implies from_reads(
            (#[trigger] t[x]).0,
            cs,
            c + 1,
        ) by {
            if x < s.len() {
                assert(t[x] == s[x]);
                assert(from_reads(s[x].0, cs, c + 1));
            } else {
                assert(cs[c][k - 1].atom == t[x].0);
            }
        }
        assert forall|j: int| 0 <= j < k implies known(t, (#[trigger] cs[c][j]).atom) by {
            if j < k - 1 {
                assert(known(s, rs[j].atom));
                let x = choose|x: int| 0 <= x < s.len() && (#[trigger] s[x]).0 == rs[j].atom;
                assert(t[x] == s[x]);
            } else if t.len() > s.len() {
                assert(t[s.len() as int].0 == rs[j].atom);
            }
        }
    } else {
        assert forall|x: int| 0 <= x < sel.len() implies from_reads(
            (#[trigger] sel[x]).0,
            cs,
            c + 1,
        ) by {
            assert(from_reads(sel[x].0, cs, c));
            let (d, j) = choose|d: int, j: int|
                0 <= d < c && 0 <= j < cs[d].len() && (#[trigger] cs[d][j]).atom == sel[x].0;
            assert(cs[d][j].atom == sel[x].0);
        }
    }
}

/// The atoms of a clause keep the labels right, and make the clause true if a literal
/// of it is.
proof fn lemma_pick(
    sel: Seq<(AtomModel, bool)>,
    cs: Seq<Seq<ReadModel>>,
    c: int,
    minimize: bool,
    g: Guess,
)
    requires
        0 <= c < cs.len(),
        right(sel, g),
        drawn_of(sel, cs, c),
        reads_right(cs[c], g),
        read_true(cs[c]),
    ensures
        right(pick(sel, cs[c], minimize), g),
        drawn_of(pick(sel, cs[c], minimize), cs, c + 1),
        sel.len() <= pick(sel, cs[c], minimize).len(),
        forall|x: int| 0 <= x < sel.len() ==> #[trigger] pick(sel, cs[c], minimize)[x] == sel[x],
        hit(pick(sel, cs[c], minimize), cs[c]),
{
    let rs = cs[c];
    let t = pick(sel, rs, minimize);
    let j0 = choose|j: int| 0 <= j < rs.len() && (#[trigger] rs[j]).value == rs[j].polarity;
    lemma_with_all(sel, cs, c, 0, g);
    assert(drawn_of(sel, cs, c + 1));
    if !minimize {
        lemma_with_all(sel, cs, c, rs.len() as int, g);
        assert(known(t, cs[c][j0].atom));
        let x = choose|x: int| 0 <= x < t.len() && (#[trigger] t[x]).0 == cs[c][j0].atom;
        assert(t[x].1 == model_true(t[x].0, g));
        assert(t[x].0 == rs[j0].atom);
        assert(hit(t, rs));
    } else {
        lemma_first_true(rs, 0);
        if covered_already(sel, rs) {
            let k = choose|k: int|
                0 <= k < rs.len() && (#[trigger] rs[k]).value == rs[k].polarity && known(
                    sel,
                    rs[k].atom,
                );
            let x = choose|x: int| 0 <= x < sel.len() && (#[trigger] sel[x]).0 == rs[k].atom;
            assert(sel[x].1 == model_true(sel[x].0, g));
            assert(hit(t, rs));
        } else {
            let f = first_true(rs, 0);
            if f >= rs.len() {
                assert(rs[j0].value != rs[j0].polarity);
            }
            assert(t == sel.push((rs[f].atom, rs[f].polarity)));
            assert(rs[f].value == model_true(rs[f].atom, g));
            assert forall|x: int| 0 <= x < t.len() implies from_reads(
                (#[trigger] t[x]).0,
                cs,
                c + 1,
            ) by {
                if x < sel.len() {
                    assert(t[x] == sel[x]);
                    assert(from_reads(sel[x].0, cs, c + 1));
                } else {
                    assert(cs[c][f].atom == t[x].0);
                }
            }
            assert(t[sel.len() as int].0 == rs[f].atom);
            assert(hit(t, rs));
        }
    }
}

/// The atoms of all clauses have the right labels, and make the clauses true.
proof fn lemma_picked(cs: Seq<Seq<ReadModel>>, k: int, minimize: bool, g: Guess)
    requires
        0 <= k <= cs.len(),
        forall|c: int| 0 <= c < cs.len() ==> reads_right(#[trigger] cs[c], g),
        forall|c: int| 0 <= c < cs.len() ==> read_true(#[trigger] cs[c]),
    ensures
        right(picked(cs, k, minimize), g),
        drawn_of(picked(cs, k, minimize), cs, k),
        forall|c: int| 0 <= c < k ==> hit(picked(cs, k, minimize), #[trigger] cs[c]),
    decreases k,
{
    if k > 0 {
        lemma_picked(cs, k - 1, minimize, g);
        let s = picked(cs, k - 1, minimize);
        let t = picked(cs, k, minimize);
        assert(reads_right(cs[k - 1], g));
        lemma_pick(s, cs, k - 1, minimize, g);
        assert forall|c: int| 0 <= c < k implies hit(t, #[trigger] cs[c]) by {
            if c < k - 1 {
                let rs = cs[c];
                assert(hit(s, cs[c]));
                let (j, x) = choose|j: int, x: int|
                    0 <= j < rs.len() && 0 <= x < s.len() && (#[trigger] s[x]).0 == (
                    #[trigger] rs[j]).atom && s[x].1 == rs[j].polarity;
                assert(t[x] == s[x]);
                assert(rs[j].atom == t[x].0);
            }
        }
    }
}

/// The model of an atom says whether it is true and of which literal it is.
proof fn lemma_atom_model(a: Atom, l: Literal, g: Guess, e: Bits)
    requires
        plain(l),
    ensures
        atom_true(a, g) == model_true(a.model(), g),
        atom_of(a, l, e) <==> a.model() == lit_atom(l, e),
{
}

/// A clause with a selected atom that makes it true is covered.
proof fn lemma_hit_covers(sel: Seq<(Atom, bool)>, ls: Seq<Literal>, g: Guess, e: Bits)
    requires
        forall|k: int| 0 <= k < ls.len() ==> plain(#[trigger] ls[k]),
        hit(models(sel), ls.map_values(|l: Literal| read_of(l, g, e))),
    ensures
        covered(sel, ls, e),
{
    let ms = models(sel);
    let rs = ls.map_values(|l: Literal| read_of(l, g, e));
    let (j, x) = choose|j: int, x: int|
        0 <= j < rs.len() && 0 <= x < ms.len() && (#[trigger] ms[x]).0 == (#[trigger] rs[j]).atom
            && ms[x].1 == rs[j].polarity;
    assert(rs[j] == read_of(ls[j], g, e));
    assert(ms[x] == (sel[x].0.model(), sel[x].1));
    lemma_atom_model(sel[x].0, ls[j], g, e);
    assert(atom_of(sel[x].0, ls[j], e));
}

/// The atom of a literal is one of the slots.
proof fn lemma_atom_ok(
    a: Atom,
    l: Literal,
    e: Bits,
    st: SPstore,
    n: nat,
    s: nat,
    ws: Seq<nat>,
    m: nat,
)
    requires
        plain(l),
        lit_ok(l, st, n, s, ws, m),
        a.model() == lit_atom(l, e),
    ensures
        atom_ok(a, n, s, ws),
{
}

proof fn lemma_atom_lit(a: Atom, l: Literal, st: SPstore, g: Guess, e: Bits)
    requires
        plain(l),
        atom_of(a, l, e),
    ensures
        lit_true(st, l, g, e) == (atom_true(a, g) == polarity_of(l)),
{
}

/// The examples of each slot.
#[derive(Debug)]
pub struct SelectedExamples {
    pub spps: Vec<Vec<Example>>,
    pub cands: Vec<Vec<(Input, bool)>>,
}

impl<'a> Z3<'a> {
    /// The values of the variables in the model, if it has one for each of them.
    fn read_vars(&self, m: &z3::Model) -> (r: Option<Vec<bool>>)
        requires
            self.named(),
        ensures
            r matches Some(v) ==> v@.len() == self.existentials@.len() && values_are(
                v@,
                bits_of(interp_of(*m)),
            ),
            self.existentials@.len() == 0 ==> r is Some,
    {
        let ghost e = bits_of(interp_of(*m));
        let mut found: Vec<Option<bool>> = Vec::new();
        let mut i: usize = 0;
        while i < self.existentials.len()
            invariant
                self.named(),
                e == bits_of(interp_of(*m)),
                i <= self.existentials@.len(),
                found@.len() == i,
                forall|k: int|
                    0 <= k < i ==> (#[trigger] found@[k] matches Some(b) ==> b == e(k as usize)),
            decreases self.existentials.len() - i,
        {
            let b = eval(m, &self.existentials[i]);
            assert(meaning(self.existentials@[i as int], interp_of(*m)) == e(i));
            found.push(b);
            i = i + 1;
        }
        let r = all_known(&found);
        proof {
            if r is Some {
                let v = r->Some_0@;
                assert forall|k: int| 0 <= k < v.len() implies #[trigger] v[k] == e(k as usize) by {
                    assert(found@[k] == Some(v[k]));
                }
            }
        }
        r
    }

    /// The atom of a literal, with the values of the variables.
    fn ground(&self, l: &Literal, values: &Vec<bool>, Ghost(e): Ghost<Bits>) -> (a: Atom)
        requires
            values_are(values@, e),
            values@.len() == self.existentials@.len(),
            plain(*l),
            lit_ok(
                *l,
                self.any@,
                self.num_vars as nat,
                self.spps@.len(),
                widths(self.dfas@),
                self.existentials@.len(),
            ),
        ensures
            atom_of(a, *l, e),
            atom_ok(a, self.num_vars as nat, self.spps@.len(), widths(self.dfas@)),
    {
        let ghost n = self.num_vars as nat;
        match l {
            Literal::Spp { spp, ap1, ap2, polarity } => {
                let p = ground_bits(ap1, values, Ghost(e), Ghost(n));
                let q = ground_bits(ap2, values, Ghost(e), Ghost(n));
                Atom::Spp(spp.0, p, q)
            },
            Literal::SppMember { spp, in_sp, out_sp } => {
                assert(false);
                Atom::Spp(0, Vec::new(), Vec::new())
            },
            Literal::Cand { cand, pkt_in, pkt_start, states, pkt_end, pkt_out, polarity } => {
                let x = Input {
                    pkt_in: ground_bits(pkt_in, values, Ghost(e), Ghost(n)),
                    pkt_start: ground_bits(pkt_start, values, Ghost(e), Ghost(n)),
                    states: crate::aut::copy_states(states),
                    pkt_end: ground_bits(pkt_end, values, Ghost(e), Ghost(n)),
                    pkt_out: ground_bits(pkt_out, values, Ghost(e), Ghost(n)),
                };
                Atom::Cand(cand.0, x)
            },
        }
    }

    /// Whether the slot has the input in the model.
    fn atom_value(&self, m: &z3::Model, a: &Atom) -> (r: Option<bool>)
        requires
            self.named(),
            atom_ok(*a, self.num_vars as nat, self.spps@.len(), widths(self.dfas@)),
        ensures
            r matches Some(b) ==> b == atom_true(*a, guess_of(interp_of(*m))),
    {
        match a {
            Atom::Spp(k, p, q) => {
                let f = self.spp_atom(*k, &concrete(p), &concrete(q));
                eval(m, &f)
            },
            Atom::Cand(k, x) => {
                let f = self.cand_atom(
                    *k,
                    &concrete(&x.pkt_in),
                    &concrete(&x.pkt_start),
                    &x.states,
                    &concrete(&x.pkt_end),
                    &concrete(&x.pkt_out),
                );
                eval(m, &f)
            },
        }
    }

    /// What the model says of a clause, if it says it of each literal.
    fn read_clause(&self, m: &z3::Model, values: &Vec<bool>, ls: &Vec<Literal>) -> (r: Option<
        Vec<Reading>,
    >)
        requires
            self.sound(),
            values_are(values@, bits_of(interp_of(*m))),
            values@.len() == self.existentials@.len(),
            forall|k: int|
                0 <= k < ls@.len() ==> plain(#[trigger] ls@[k]) && lit_ok(
                    ls@[k],
                    self.any@,
                    self.num_vars as nat,
                    self.spps@.len(),
                    widths(self.dfas@),
                    self.existentials@.len(),
                ),
        ensures
            r matches Some(rs) ==> reads(rs@) == ls@.map_values(
                |l: Literal| read_of(l, guess_of(interp_of(*m)), bits_of(interp_of(*m))),
            ),
            ls@.len() == 0 ==> r is Some,
    {
        let ghost g = guess_of(interp_of(*m));
        let ghost e = bits_of(interp_of(*m));
        let ghost want = ls@.map_values(|l: Literal| read_of(l, g, e));
        let mut rs: Vec<Reading> = Vec::new();
        let mut k: usize = 0;
        proof {
            assert(reads(rs@) =~= want.take(0));
        }
        while k < ls.len()
            invariant
                self.sound(),
                g == guess_of(interp_of(*m)),
                e == bits_of(interp_of(*m)),
                want == ls@.map_values(|l: Literal| read_of(l, g, e)),
                values_are(values@, e),
                values@.len() == self.existentials@.len(),
                forall|j: int|
                    0 <= j < ls@.len() ==> plain(#[trigger] ls@[j]) && lit_ok(
                        ls@[j],
                        self.any@,
                        self.num_vars as nat,
                        self.spps@.len(),
                        widths(self.dfas@),
                        self.existentials@.len(),
                    ),
                k <= ls@.len(),
                reads(rs@) == want.take(k as int),
            decreases ls.len() - k,
        {
            let ghost l0 = ls@[k as int];
            let ghost rs0 = reads(rs@);
            assert(plain(l0));
            let atom = self.ground(&ls[k], values, Ghost(e));
            let value = match self.atom_value(m, &atom) {
                Some(b) => b,
                None => {
                    return None;
                },
            };
            let polarity = match &ls[k] {
                Literal::Spp { spp, ap1, ap2, polarity } => *polarity,
                Literal::SppMember { spp, in_sp, out_sp } => true,
                Literal::Cand { cand, pkt_in, pkt_start, states, pkt_end, pkt_out, polarity } =>
                *polarity,
            };
            let r = Reading { atom, value, polarity };
            let ghost r0 = r.model();
            proof {
                lemma_atom_model(r.atom, l0, g, e);
                assert(r0 == read_of(l0, g, e));
            }
            rs.push(r);
            proof {
                assert(reads(rs@) =~= rs0.push(r0));
                assert(want.take(k + 1) =~= want.take(k as int).push(want[k as int]));
            }
            k = k + 1;
        }
        proof {
            assert(want.take(ls@.len() as int) =~= want);
        }
        Some(rs)
    }
}

/// The relation slot `k` has the example for the atom.
spec fn spp_given(exs: Seq<Example>, p: Pkt, q: Pkt, label: bool) -> bool {
    exists|y: int|
        0 <= y < exs.len() && (#[trigger] exs[y]).input@ == p && exs[y].output@ == q
            && exs[y].in_spp == label
}

/// The candidate slot has the example for the input.
spec fn cand_given(exs: Seq<(Input, bool)>, x: Input, label: bool) -> bool {
    exists|y: int|
        0 <= y < exs.len() && same_input((#[trigger] exs[y]).0, x) && exs[y].1 == label
}

/// The selected atoms of relation slot `k` among the first `i`, with their labels.
pub open spec fn spp_part(sel: Seq<(AtomModel, bool)>, k: usize, i: int) -> Seq<(Pkt, Pkt, bool)>
    decreases i,
{
    if i <= 0 || i > sel.len() {
        Seq::empty()
    } else {
        let rest = spp_part(sel, k, i - 1);
        match sel[i - 1].0 {
            AtomModel::Spp(j, p, q) => if j == k {
                rest.push((p, q, sel[i - 1].1))
            } else {
                rest
            },
            AtomModel::Cand(j, p, q, v, r, s) => rest,
        }
    }
}

/// The selected atoms of candidate slot `k` among the first `i`, with their labels.
pub open spec fn cand_part(sel: Seq<(AtomModel, bool)>, k: usize, i: int) -> Seq<(AtomModel, bool)>
    decreases i,
{
    if i <= 0 || i > sel.len() {
        Seq::empty()
    } else {
        let rest = cand_part(sel, k, i - 1);
        match sel[i - 1].0 {
            AtomModel::Spp(j, p, q) => rest,
            AtomModel::Cand(j, p, q, v, r, s) => if j == k {
                rest.push(sel[i - 1])
            } else {
                rest
            },
        }
    }
}

/// The examples of a relation slot as mathematical values.
pub open spec fn spp_models(exs: Seq<Example>) -> Seq<(Pkt, Pkt, bool)> {
    exs.map_values(|x: Example| (x.input@, x.output@, x.in_spp))
}

/// The examples of candidate slot `k` as mathematical values.
pub open spec fn cand_models(exs: Seq<(Input, bool)>, k: usize) -> Seq<(AtomModel, bool)> {
    exs.map_values(|x: (Input, bool)| (Atom::Cand(k, x.0).model(), x.1))
}

/// The examples are the selected atoms, slot by slot.
pub open spec fn examples_are(x: SelectedExamples, sel: Seq<(AtomModel, bool)>) -> bool {
    &&& forall|k: usize|
        k < x.spps@.len() ==> spp_models((#[trigger] x.spps@[k as int])@) == spp_part(
            sel,
            k,
            sel.len() as int,
        )
    &&& forall|k: usize|
        k < x.cands@.len() ==> cand_models((#[trigger] x.cands@[k as int])@, k) == cand_part(
            sel,
            k,
            sel.len() as int,
        )
}

/// The relation is what is learned of the examples: the empty one of none, else what
/// merging prefixes gives that go together.
pub open spec fn relation_from(st: SPPstore, x: SPP, exs: Seq<Example>) -> bool {
    if exs.len() == 0 {
        x == st.zero
    } else {
        forall|p: Pkt, q: Pkt|
            p.len() == st.n() && q.len() == st.n() ==> #[trigger] st.rel(x, p, q) == merged(
                seq![pairs_told(exs)],
                0,
                fours(st.n()),
                branches(p, q),
            )
    }
}

/// The relation is what is learned of the labelled pairs.
pub open spec fn relation_learned(st: SPPstore, x: SPP, part: Seq<(Pkt, Pkt, bool)>) -> bool {
    exists|exs: Seq<Example>| #[trigger] spp_models(exs) == part && relation_from(st, x, exs)
}

/// The candidate is what is learned of the examples: that which accepts everything of none,
/// else what merging prefixes gives that go together.
pub open spec fn candidate_from<'a>(st: SPPstore, c: Cand<'a>, exs: Seq<(Input, bool)>) -> bool {
    forall|x: Input|
        input_ok(x, st.n(), c.width()) ==> (#[trigger] c.takes(st, x) <==> exs.len() == 0 || merged(
            seq![inputs_told(exs)],
            0,
            input_widths(st.n(), c.width()),
            input_path(x),
        ))
}

/// The candidate of slot `k` is what is learned of the labelled atoms.
pub open spec fn candidate_learned<'a>(
    st: SPPstore,
    c: Cand<'a>,
    k: usize,
    part: Seq<(AtomModel, bool)>,
) -> bool {
    exists|exs: Seq<(Input, bool)>| #[trigger]
        cand_models(exs, k) == part && candidate_from(st, c, exs)
}

/// The relations are what is learned of the selected atoms, slot by slot.
pub open spec fn relations_learned(
    st: SPPstore,
    v: Seq<SPP>,
    sel: Seq<(AtomModel, bool)>,
) -> bool {
    forall|k: usize|
        k < v.len() ==> relation_learned(
            st,
            #[trigger] v[k as int],
            spp_part(sel, k, sel.len() as int),
        )
}

/// The candidates are what is learned of the selected atoms, slot by slot.
pub open spec fn candidates_learned<'a>(
    st: SPPstore,
    v: Seq<Cand<'a>>,
    sel: Seq<(AtomModel, bool)>,
) -> bool {
    forall|k: usize|
        k < v.len() ==> candidate_learned(
            st,
            #[trigger] v[k as int],
            k,
            cand_part(sel, k, sel.len() as int),
        )
}

proof fn lemma_relation_kept(st: SPPstore, o: SPPstore, x: SPP, part: Seq<(Pkt, Pkt, bool)>)
    requires
        st.extends(&o),
        o.has(x),
        relation_learned(o, x, part),
    ensures
        relation_learned(st, x, part),
{
    let exs = choose|exs: Seq<Example>| #[trigger]
        spp_models(exs) == part && relation_from(o, x, exs);
    if exs.len() > 0 {
        assert forall|p: Pkt, q: Pkt| p.len() == st.n() && q.len() == st.n() implies
            #[trigger] st.rel(x, p, q) == merged(
            seq![pairs_told(exs)],
            0,
            fours(st.n()),
            branches(p, q),
        ) by {
            assert(o.rel(x, p, q) == st.rel(x, p, q));
        }
    }
    assert(relation_from(st, x, exs));
}

proof fn lemma_candidate_kept<'a>(
    st: SPPstore,
    o: SPPstore,
    c: Cand<'a>,
    k: usize,
    part: Seq<(AtomModel, bool)>,
)
    requires
        st.extends(&o),
        c.wf(o),
        candidate_learned(o, c, k, part),
    ensures
        candidate_learned(st, c, k, part),
{
    let exs = choose|exs: Seq<(Input, bool)>| #[trigger]
        cand_models(exs, k) == part && candidate_from(o, c, exs);
    assert forall|x: Input| input_ok(x, st.n(), c.width()) implies (#[trigger] c.takes(st, x)
        <==> exs.len() == 0 || merged(
        seq![inputs_told(exs)],
        0,
        input_widths(st.n(), c.width()),
        input_path(x),
    )) by {
        c.lemma_takes_store(st, o, x);
        assert(c.takes(o, x) == c.takes(st, x));
    }
    assert(candidate_from(st, c, exs));
}

/// The examples of relation slot `k`.
fn spp_examples(
    sel: &Labelled,
    k: usize,
    Ghost(g): Ghost<Guess>,
    Ghost(n): Ghost<nat>,
    Ghost(s): Ghost<nat>,
    Ghost(ws): Ghost<Seq<nat>>,
) -> (exs: Vec<Example>)
    requires
        labels_right(sel@, g),
        atoms_ok(sel@, n, s, ws),
    ensures
        forall|y: int|
            0 <= y < exs@.len() ==> (#[trigger] exs@[y]).input@.len() == n
                && exs@[y].output@.len() == n && exs@[y].in_spp == (g.spps)(
                k,
                exs@[y].input@,
                exs@[y].output@,
            ),
        forall|x: int|
            0 <= x < sel@.len() ==> (#[trigger] sel@[x].0 matches Atom::Spp(j, p, q) ==> j == k
                ==> spp_given(exs@, p@, q@, sel@[x].1)),
        spp_models(exs@) == spp_part(models(sel@), k, sel@.len() as int),
{
    let mut exs: Vec<Example> = Vec::new();
    let mut i: usize = 0;
    proof {
        assert(spp_models(exs@) =~= Seq::empty());
    }
    while i < sel.len()
        invariant
            labels_right(sel@, g),
            atoms_ok(sel@, n, s, ws),
            i <= sel@.len(),
            spp_models(exs@) == spp_part(models(sel@), k, i as int),
            forall|y: int|
                0 <= y < exs@.len() ==> (#[trigger] exs@[y]).input@.len() == n
                    && exs@[y].output@.len() == n && exs@[y].in_spp == (g.spps)(
                    k,
                    exs@[y].input@,
                    exs@[y].output@,
                ),
            forall|x: int|
                0 <= x < i ==> (#[trigger] sel@[x].0 matches Atom::Spp(j, p, q) ==> j == k
                    ==> spp_given(exs@, p@, q@, sel@[x].1)),
        decreases sel.len() - i,
    {
        let ghost e0 = exs@;
        assert(sel@[i as int].1 == atom_true(sel@[i as int].0, g));
        assert(atom_ok(sel@[i as int].0, n, s, ws));
        assert(models(sel@)[i as int] == (sel@[i as int].0.model(), sel@[i as int].1));
        if let Atom::Spp(j, p, q) = &sel[i].0 {
            if *j == k {
                exs.push(
                    Example { input: copy_bits(p), output: copy_bits(q), in_spp: sel[i].1 },
                );
                proof {
                    let last = exs@[e0.len() as int];
                    assert(last.input@ == p@);
                    assert(spp_models(exs@) =~= spp_models(e0).push(
                        (p@, q@, sel@[i as int].1),
                    ));
                    assert(spp_given(exs@, p@, q@, sel@[i as int].1));
                    assert forall|y: int| 0 <= y < exs@.len() implies (
                    #[trigger] exs@[y]).input@.len() == n && exs@[y].output@.len() == n
                        && exs@[y].in_spp == (g.spps)(k, exs@[y].input@, exs@[y].output@) by {
                        if y < e0.len() {
                            assert(exs@[y] == e0[y]);
                        }
                    }
                }
            }
        }
        proof {
            assert forall|x: int| 0 <= x < i + 1 implies (#[trigger] sel@[x].0 matches Atom::Spp(
                j,
                p,
                q,
            ) ==> j == k ==> spp_given(exs@, p@, q@, sel@[x].1)) by {
                if x < i {
                    if let Atom::Spp(j, p, q) = sel@[x].0 {
                        if j == k {
                            assert(spp_given(e0, p@, q@, sel@[x].1));
                            let y = choose|y: int|
                                0 <= y < e0.len() && (#[trigger] e0[y]).input@ == p@
                                    && e0[y].output@ == q@ && e0[y].in_spp == sel@[x].1;
                            assert(exs@[y] == e0[y]);
                        }
                    }
                }
            }
        }
        i = i + 1;
    }
    exs
}

/// The examples of candidate slot `k`.
fn cand_examples(
    sel: &Labelled,
    k: usize,
    Ghost(g): Ghost<Guess>,
    Ghost(n): Ghost<nat>,
    Ghost(s): Ghost<nat>,
    Ghost(ws): Ghost<Seq<nat>>,
) -> (exs: Vec<(Input, bool)>)
    requires
        labels_right(sel@, g),
        atoms_ok(sel@, n, s, ws),
        k < ws.len(),
    ensures
        forall|y: int|
            0 <= y < exs@.len() ==> input_ok((#[trigger] exs@[y]).0, n, ws[k as int])
                && exs@[y].1 == (g.cands)(
                k,
                exs@[y].0.pkt_in@,
                exs@[y].0.pkt_start@,
                exs@[y].0.states@,
                exs@[y].0.pkt_end@,
                exs@[y].0.pkt_out@,
            ),
        forall|x: int|
            0 <= x < sel@.len() ==> (#[trigger] sel@[x].0 matches Atom::Cand(j, z) ==> j == k
                ==> cand_given(exs@, z, sel@[x].1)),
        cand_models(exs@, k) == cand_part(models(sel@), k, sel@.len() as int),
{
    let mut exs: Vec<(Input, bool)> = Vec::new();
    let mut i: usize = 0;
    proof {
        assert(cand_models(exs@, k) =~= Seq::empty());
    }
    while i < sel.len()
        invariant
            labels_right(sel@, g),
            atoms_ok(sel@, n, s, ws),
            k < ws.len(),
            i <= sel@.len(),
            cand_models(exs@, k) == cand_part(models(sel@), k, i as int),
            forall|y: int|
                0 <= y < exs@.len() ==> input_ok((#[trigger] exs@[y]).0, n, ws[k as int])
                    && exs@[y].1 == (g.cands)(
                    k,
                    exs@[y].0.pkt_in@,
                    exs@[y].0.pkt_start@,
                    exs@[y].0.states@,
                    exs@[y].0.pkt_end@,
                    exs@[y].0.pkt_out@,
                ),
            forall|x: int|
                0 <= x < i ==> (#[trigger] sel@[x].0 matches Atom::Cand(j, z) ==> j == k
                    ==> cand_given(exs@, z, sel@[x].1)),
        decreases sel.len() - i,
    {
        let ghost e0 = exs@;
        assert(sel@[i as int].1 == atom_true(sel@[i as int].0, g));
        assert(atom_ok(sel@[i as int].0, n, s, ws));
        assert(models(sel@)[i as int] == (sel@[i as int].0.model(), sel@[i as int].1));
        if let Atom::Cand(j, z) = &sel[i].0 {
            if *j == k {
                exs.push((copy_input(z), sel[i].1));
                proof {
                    let last = exs@[e0.len() as int];
                    assert(same_input(last.0, *z));
                    assert(cand_models(exs@, k) =~= cand_models(e0, k).push(
                        models(sel@)[i as int],
                    ));
                    assert(cand_given(exs@, *z, sel@[i as int].1));
                    assert forall|y: int| 0 <= y < exs@.len() implies input_ok(
                        (#[trigger] exs@[y]).0,
                        n,
                        ws[k as int],
                    ) && exs@[y].1 == (g.cands)(
                        k,
                        exs@[y].0.pkt_in@,
                        exs@[y].0.pkt_start@,
                        exs@[y].0.states@,
                        exs@[y].0.pkt_end@,
                        exs@[y].0.pkt_out@,
                    ) by {
                        if y < e0.len() {
                            assert(exs@[y] == e0[y]);
                        }
                    }
                }
            }
        }
        proof {
            assert forall|x: int| 0 <= x < i + 1 implies (#[trigger] sel@[x].0 matches Atom::Cand(
                j,
                z,
            ) ==> j == k ==> cand_given(exs@, z, sel@[x].1)) by {
                if x < i {
                    if let Atom::Cand(j, z) = sel@[x].0 {
                        if j == k {
                            assert(cand_given(e0, z, sel@[x].1));
                            let y = choose|y: int|
                                0 <= y < e0.len() && same_input((#[trigger] e0[y]).0, z)
                                    && e0[y].1 == sel@[x].1;
                            assert(exs@[y] == e0[y]);
                        }
                    }
                }
            }
        }
        i = i + 1;
    }
    exs
}

impl<'a> Z3<'a> {
    /// Select atoms that make all clauses true in the model, if the model says of each
    /// literal whether it is true.
    fn select_atoms(&self, m: &z3::Model, minimize: bool) -> (r: Option<Labelled>)
        requires
            self.sound(),
            asserted(self.solver, interp_of(*m)),
        ensures
            r matches Some(sel) ==> {
                &&& models(sel@) == picked(
                    reads_of(self.clauses@, guess_of(interp_of(*m)), bits_of(interp_of(*m))),
                    self.clauses@.len() as int,
                    minimize,
                )
                &&& labels_right(sel@, guess_of(interp_of(*m)))
                &&& atoms_ok(sel@, self.num_vars as nat, self.spps@.len(), widths(self.dfas@))
                &&& forall|c: int|
                    0 <= c < self.clauses@.len() ==> covered(
                        sel@,
                        #[trigger] self.clauses@[c]@,
                        bits_of(interp_of(*m)),
                    )
            },
            self.existentials@.len() == 0 && self.clauses@.len() == 0 ==> r is Some,
    {
        let ghost g = guess_of(interp_of(*m));
        let ghost e = bits_of(interp_of(*m));
        let ghost want = reads_of(self.clauses@, g, e);
        let values = match self.read_vars(m) {
            Some(v) => v,
            None => {
                return None;
            },
        };
        let mut cs: Vec<Vec<Reading>> = Vec::new();
        let mut c: usize = 0;
        proof {
            assert(all_reads(cs@) =~= want.take(0));
        }
        while c < self.clauses.len()
            invariant
                self.sound(),
                g == guess_of(interp_of(*m)),
                e == bits_of(interp_of(*m)),
                want == reads_of(self.clauses@, g, e),
                values_are(values@, e),
                values@.len() == self.existentials@.len(),
                c <= self.clauses@.len(),
                all_reads(cs@) == want.take(c as int),
            decreases self.clauses.len() - c,
        {
            let ghost cs0 = all_reads(cs@);
            proof {
                let ls = self.clauses@[c as int]@;
                assert forall|k: int| 0 <= k < ls.len() implies plain(#[trigger] ls[k]) && lit_ok(
                    ls[k],
                    self.any@,
                    self.num_vars as nat,
                    self.spps@.len(),
                    widths(self.dfas@),
                    self.existentials@.len(),
                ) by {
                    assert(plain(self.clauses@[c as int]@[k]));
                }
            }
            let rs = match self.read_clause(m, &values, &self.clauses[c]) {
                Some(rs) => rs,
                None => {
                    return None;
                },
            };
            let ghost ms = reads(rs@);
            cs.push(rs);
            proof {
                assert(all_reads(cs@) =~= cs0.push(ms));
                assert(want.take(c + 1) =~= want.take(c as int).push(want[c as int]));
            }
            c = c + 1;
        }
        let sel = pick_atoms(&cs, minimize);
        proof {
            assert(want.take(self.clauses@.len() as int) =~= want);
            assert(self.permits(g, e));
            self.lemma_selected(g, e, sel@, minimize);
        }
        Some(sel)
    }

    /// What the guess says of a clause that it makes true.
    proof fn lemma_clause_read(&self, g: Guess, e: Bits, c: int)
        requires
            self.sound(),
            self.permits(g, e),
            0 <= c < self.clauses@.len(),
        ensures
            reads_right(reads_of(self.clauses@, g, e)[c], g),
            read_true(reads_of(self.clauses@, g, e)[c]),
    {
        let ls = self.clauses@[c]@;
        let rs = reads_of(self.clauses@, g, e)[c];
        assert(rs == ls.map_values(|l: Literal| read_of(l, g, e)));
        assert(clause_true(self.any@, self.clauses@[c]@, g, e));
        let j = choose|j: int| 0 <= j < ls.len() && lit_true(self.any@, #[trigger] ls[j], g, e);
        assert(plain(self.clauses@[c]@[j]));
        assert(rs[j] == read_of(ls[j], g, e));
    }

    /// An atom of a clause is one of the slots.
    proof fn lemma_drawn(&self, g: Guess, e: Bits, a: Atom)
        requires
            self.sound(),
            from_reads(
                a.model(),
                reads_of(self.clauses@, g, e),
                self.clauses@.len() as int,
            ),
        ensures
            atom_true(a, g) == model_true(a.model(), g),
            atom_ok(a, self.num_vars as nat, self.spps@.len(), widths(self.dfas@)),
    {
        let cs = reads_of(self.clauses@, g, e);
        let (c, j) = choose|c: int, j: int|
            0 <= c < cs.len() && 0 <= j < cs[c].len() && (#[trigger] cs[c][j]).atom == a.model();
        let l = self.clauses@[c]@[j];
        assert(plain(self.clauses@[c]@[j]));
        assert(cs[c][j] == read_of(l, g, e));
        lemma_atom_model(a, l, g, e);
        lemma_atom_ok(
            a,
            l,
            e,
            self.any@,
            self.num_vars as nat,
            self.spps@.len(),
            widths(self.dfas@),
            self.existentials@.len(),
        );
    }

    /// Atoms that were picked by what the guess says make all clauses true.
    proof fn lemma_selected(&self, g: Guess, e: Bits, sel: Seq<(Atom, bool)>, minimize: bool)
        requires
            self.sound(),
            self.permits(g, e),
            models(sel) == picked(
                reads_of(self.clauses@, g, e),
                self.clauses@.len() as int,
                minimize,
            ),
        ensures
            labels_right(sel, g),
            atoms_ok(sel, self.num_vars as nat, self.spps@.len(), widths(self.dfas@)),
            forall|c: int|
                0 <= c < self.clauses@.len() ==> covered(sel, #[trigger] self.clauses@[c]@, e),
    {
        let cs = reads_of(self.clauses@, g, e);
        let ms = models(sel);
        let n = self.clauses@.len() as int;
        assert forall|c: int| 0 <= c < cs.len() implies reads_right(#[trigger] cs[c], g)
            && read_true(cs[c]) by {
            self.lemma_clause_read(g, e, c);
        }
        lemma_picked(cs, n, minimize, g);
        assert forall|x: int| 0 <= x < sel.len() implies (#[trigger] sel[x]).1 == atom_true(
            sel[x].0,
            g,
        ) && atom_ok(sel[x].0, self.num_vars as nat, self.spps@.len(), widths(self.dfas@)) by {
            assert(ms[x] == (sel[x].0.model(), sel[x].1));
            assert(from_reads(ms[x].0, cs, n));
            self.lemma_drawn(g, e, sel[x].0);
        }
        assert forall|c: int| 0 <= c < n implies covered(sel, #[trigger] self.clauses@[c]@, e) by {
            let ls = self.clauses@[c]@;
            assert forall|k: int| 0 <= k < ls.len() implies plain(#[trigger] ls[k]) by {
                assert(plain(self.clauses@[c]@[k]));
            }
            assert(hit(ms, cs[c]));
            lemma_hit_covers(sel, ls, g, e);
        }
    }

    /// The atoms that are selected for the clauses under a guess and values of the
    /// variables.
    pub closed spec fn picks(&self, g: Guess, e: Bits, minimize: bool) -> Seq<(AtomModel, bool)> {
        picked(reads_of(self.clauses@, g, e), self.clauses@.len() as int, minimize)
    }

    /// The selected atoms have a literal of every clause, with the label that makes it
    /// true.
    pub closed spec fn picks_cover(&self, g: Guess, e: Bits, sel: Seq<(AtomModel, bool)>) -> bool {
        forall|c: int|
            0 <= c < self.clauses@.len() ==> hit(sel, #[trigger] reads_of(self.clauses@, g, e)[c])
    }

    /// A guess that agrees with examples that cover the clauses satisfies them.
    proof fn lemma_cover(
        &self,
        g: Guess,
        h: Guess,
        e: Bits,
        sel: Seq<(Atom, bool)>,
        x: SelectedExamples,
    )
        requires
            self.sound(),
            self.permits(g, e),
            atoms_ok(sel, self.num_vars as nat, self.spps@.len(), widths(self.dfas@)),
            forall|c: int|
                0 <= c < self.clauses@.len() ==> covered(sel, #[trigger] self.clauses@[c]@, e),
            x.spps@.len() == self.spps@.len(),
            x.cands@.len() == self.dfas@.len(),
            forall|y: int|
                0 <= y < sel.len() ==> (#[trigger] sel[y].0 matches Atom::Spp(j, p, q)
                    ==> spp_given(x.spps@[j as int]@, p@, q@, sel[y].1)),
            forall|y: int|
                0 <= y < sel.len() ==> (#[trigger] sel[y].0 matches Atom::Cand(j, z)
                    ==> cand_given(x.cands@[j as int]@, z, sel[y].1)),
            self.examples_of(h, x),
        ensures
            self.permits(h, e),
    {
        assert forall|c: int| 0 <= c < self.clauses@.len() implies clause_true(
            self.any@,
            #[trigger] self.clauses@[c]@,
            h,
            e,
        ) by {
            let ls = self.clauses@[c]@;
            assert(covered(sel, self.clauses@[c]@, e));
            let (k, y) = choose|k: int, y: int|
                0 <= k < ls.len() && 0 <= y < sel.len() && #[trigger] atom_of(
                    sel[y].0,
                    #[trigger] ls[k],
                    e,
                ) && sel[y].1 == polarity_of(ls[k]);
            assert(plain(self.clauses@[c]@[k]));
            assert(atom_ok(
                sel[y].0,
                self.num_vars as nat,
                self.spps@.len(),
                widths(self.dfas@),
            ));
            match sel[y].0 {
                Atom::Spp(j, p, q) => {
                    let exs = x.spps@[j as int]@;
                    assert(spp_given(exs, p@, q@, sel[y].1));
                    let z = choose|z: int|
                        0 <= z < exs.len() && (#[trigger] exs[z]).input@ == p@ && exs[z].output@
                            == q@ && exs[z].in_spp == sel[y].1;
                    assert(x.spps@[j as int]@[z].in_spp == (h.spps)(j, p@, q@));
                },
                Atom::Cand(j, v) => {
                    let exs = x.cands@[j as int]@;
                    assert(cand_given(exs, v, sel[y].1));
                    let z = choose|z: int|
                        0 <= z < exs.len() && same_input((#[trigger] exs[z]).0, v) && exs[z].1
                            == sel[y].1;
                    assert(x.cands@[j as int]@[z].1 == sel[y].1);
                },
            }
            assert(lit_true(self.any@, ls[k], h, e));
        }
    }

    /// Examples for the slots that make all clauses true, or why there are none: with
    /// `minimize` only as many as are needed.  They are the atoms that are selected
    /// under some guess that satisfies the clauses, and every guess that agrees with
    /// them satisfies the clauses too.
    pub fn select_examples(&self, minimize: bool) -> (r: Result<SelectedExamples, LearnError>)
        requires
            self.wf(),
        ensures
            r matches Err(LearnError::Inconsistent(_)) ==> forall|g: Guess, e: Bits| !(
            #[trigger] self.allows(g, e)),
            r matches Ok(x) ==> x.spps@.len() == self.slots() && x.cands@.len()
                == self.automata().len() && exists|g: Guess, e: Bits|
                {
                    &&& #[trigger] self.allows(g, e)
                    &&& self.examples_of(g, x)
                    &&& examples_are(x, self.picks(g, e, minimize))
                    &&& self.picks_cover(g, e, self.picks(g, e, minimize))
                    &&& forall|h: Guess| #[trigger] self.examples_of(h, x) ==> self.allows(h, e)
                },
    {
        match solve(&self.solver) {
            Answer::Unsat => {
                proof {
                    assert forall|g: Guess, e: Bits| !(#[trigger] self.allows(g, e)) by {
                        self.lemma_unsat(g, e);
                    }
                }
                Err(LearnError::Inconsistent(InconsistentError))
            },
            Answer::Unknown => Err(LearnError::Unknown),
            Answer::Sat(m) => {
                let sel = match self.select_atoms(&m, minimize) {
                    Some(sel) => sel,
                    None => {
                        return Err(LearnError::Unknown);
                    },
                };
                let ghost g = guess_of(interp_of(m));
                let ghost e = bits_of(interp_of(m));
                let ghost n = self.num_vars as nat;
                let ghost s = self.spps@.len();
                let ghost ws = widths(self.dfas@);
                let mut spps: Vec<Vec<Example>> = Vec::new();
                let mut k: usize = 0;
                while k < self.spps.len()
                    invariant
                        k <= self.spps@.len(),
                        spps@.len() == k,
                        labels_right(sel@, g),
                        atoms_ok(sel@, n, s, ws),
                        forall|j: int, y: int|
                            #![trigger spps@[j]@[y]]
                            0 <= j < k && 0 <= y < spps@[j]@.len() ==> spps@[j]@[y].in_spp == (
                            g.spps)(j as usize, spps@[j]@[y].input@, spps@[j]@[y].output@),
                        forall|j: usize|
                            j < k ==> spp_models((#[trigger] spps@[j as int])@) == spp_part(
                                models(sel@),
                                j,
                                sel@.len() as int,
                            ),
                        forall|y: int|
                            0 <= y < sel@.len() ==> (#[trigger] sel@[y].0 matches Atom::Spp(j, p, q)
                                ==> j < k ==> spp_given(spps@[j as int]@, p@, q@, sel@[y].1)),
                    decreases self.spps.len() - k,
                {
                    let ghost s1 = spps@;
                    let exs = spp_examples(&sel, k, Ghost(g), Ghost(n), Ghost(s), Ghost(ws));
                    spps.push(exs);
                    proof {
                        assert forall|j: int, y: int|
                            #![trigger spps@[j]@[y]]
                            0 <= j < k + 1 && 0 <= y < spps@[j]@.len() implies spps@[j]@[y].in_spp
                            == (g.spps)(
                            j as usize,
                            spps@[j]@[y].input@,
                            spps@[j]@[y].output@,
                        ) by {
                            if j < k {
                                assert(spps@[j] == s1[j]);
                            } else {
                                assert(spps@[j]@ == exs@);
                            }
                        }
                    }
                    k = k + 1;
                }
                let mut cands: Vec<Vec<(Input, bool)>> = Vec::new();
                let mut k: usize = 0;
                while k < self.dfas.len()
                    invariant
                        k <= self.dfas@.len(),
                        cands@.len() == k,
                        ws.len() == self.dfas@.len(),
                        labels_right(sel@, g),
                        atoms_ok(sel@, n, s, ws),
                        forall|j: int, y: int|
                            #![trigger cands@[j]@[y]]
                            0 <= j < k && 0 <= y < cands@[j]@.len() ==> cands@[j]@[y].1 == (
                            g.cands)(
                                j as usize,
                                cands@[j]@[y].0.pkt_in@,
                                cands@[j]@[y].0.pkt_start@,
                                cands@[j]@[y].0.states@,
                                cands@[j]@[y].0.pkt_end@,
                                cands@[j]@[y].0.pkt_out@,
                            ),
                        forall|j: usize|
                            j < k ==> cand_models((#[trigger] cands@[j as int])@, j) == cand_part(
                                models(sel@),
                                j,
                                sel@.len() as int,
                            ),
                        forall|y: int|
                            0 <= y < sel@.len() ==> (#[trigger] sel@[y].0 matches Atom::Cand(j, z)
                                ==> j < k ==> cand_given(cands@[j as int]@, z, sel@[y].1)),
                    decreases self.dfas.len() - k,
                {
                    let ghost s1 = cands@;
                    let exs = cand_examples(&sel, k, Ghost(g), Ghost(n), Ghost(s), Ghost(ws));
                    cands.push(exs);
                    proof {
                        assert forall|j: int, y: int|
                            #![trigger cands@[j]@[y]]
                            0 <= j < k + 1 && 0 <= y < cands@[j]@.len() implies cands@[j]@[y].1
                            == (g.cands)(
                            j as usize,
                            cands@[j]@[y].0.pkt_in@,
                            cands@[j]@[y].0.pkt_start@,
                            cands@[j]@[y].0.states@,
                            cands@[j]@[y].0.pkt_end@,
                            cands@[j]@[y].0.pkt_out@,
                        ) by {
                            if j < k {
                                assert(cands@[j] == s1[j]);
                            } else {
                                assert(cands@[j]@ == exs@);
                            }
                        }
                    }
                    k = k + 1;
                }
                let x = SelectedExamples { spps, cands };
                proof {
                    assert(self.allows(g, e));
                    assert(self.examples_of(g, x));
                    let ps = self.picks(g, e, minimize);
                    assert(models(sel@) == ps);
                    assert(ps.len() == sel@.len());
                    assert(examples_are(x, ps));
                    assert forall|c: int| 0 <= c < self.clauses@.len() implies reads_right(
                        #[trigger] reads_of(self.clauses@, g, e)[c],
                        g,
                    ) && read_true(reads_of(self.clauses@, g, e)[c]) by {
                        self.lemma_clause_read(g, e, c);
                    }
                    lemma_picked(
                        reads_of(self.clauses@, g, e),
                        self.clauses@.len() as int,
                        minimize,
                        g,
                    );
                    assert forall|h: Guess| #[trigger] self.examples_of(h, x) implies self.allows(
                        h,
                        e,
                    ) by {
                        assert forall|y: int| 0 <= y < sel@.len() implies (
                        #[trigger] sel@[y].0 matches Atom::Spp(j, p, q) ==> spp_given(
                            x.spps@[j as int]@,
                            p@,
                            q@,
                            sel@[y].1,
                        )) by {
                            assert(atom_ok(sel@[y].0, n, s, ws));
                        }
                        assert forall|y: int| 0 <= y < sel@.len() implies (
                        #[trigger] sel@[y].0 matches Atom::Cand(j, z) ==> cand_given(
                            x.cands@[j as int]@,
                            z,
                            sel@[y].1,
                        )) by {
                            assert(atom_ok(sel@[y].0, n, s, ws));
                        }
                        self.lemma_cover(g, h, e, sel@, x);
                    }
                }
                Ok(x)
            },
        }
    }

    /// The labels of the examples are what the guess says.
    pub open spec fn examples_of(&self, g: Guess, x: SelectedExamples) -> bool {
        &&& forall|j: int, y: int|
            #![trigger x.spps@[j]@[y]]
            0 <= j < x.spps@.len() && 0 <= y < x.spps@[j]@.len() ==> x.spps@[j]@[y].in_spp == (
            g.spps)(j as usize, x.spps@[j]@[y].input@, x.spps@[j]@[y].output@)
        &&& forall|j: int, y: int|
            #![trigger x.cands@[j]@[y]]
            0 <= j < x.cands@.len() && 0 <= y < x.cands@[j]@.len() ==> x.cands@[j]@[y].1 == (
            g.cands)(
                j as usize,
                x.cands@[j]@[y].0.pkt_in@,
                x.cands@[j]@[y].0.pkt_start@,
                x.cands@[j]@[y].0.states@,
                x.cands@[j]@[y].0.pkt_end@,
                x.cands@[j]@[y].0.pkt_out@,
            )
    }

    /// Where nothing satisfies the formulas, no guess satisfies the clauses.
    proof fn lemma_unsat(&self, g: Guess, e: Bits)
        requires
            self.sound(),
            forall|i: Interp| !#[trigger] asserted(self.solver, i),
        ensures
            !self.permits(g, e),
    {
        let n = self.num_vars as nat;
        let i = interp_from(n, g, e);
        lemma_interp_from(n, g, e);
        assert(!asserted(self.solver, i));
        assert(same_bits(self.existentials@.len(), bits_of(i), e));
        self.lemma_permits(guess_of(i), g, bits_of(i), e);
    }

    /// A relation for each slot that agrees with the selected atoms.
    fn learn_relations(
        &self,
        store: &mut SPPstore,
        sel: &Labelled,
        Ghost(g): Ghost<Guess>,
    ) -> (r: Vec<SPP>)
        requires
            old(store).wf(),
            old(store).n() == self.num_vars,
            labels_right(sel@, g),
            atoms_ok(sel@, self.num_vars as nat, self.spps@.len(), widths(self.dfas@)),
        ensures
            final(store).wf(),
            final(store).extends(old(store)),
            final(store).sp == old(store).sp,
            r@.len() == self.spps@.len(),
            forall|k: int| 0 <= k < r@.len() ==> final(store).has(#[trigger] r@[k]),
            forall|x: int|
                0 <= x < sel@.len() ==> (#[trigger] sel@[x].0 matches Atom::Spp(k, p, q)
                    ==> final(store).rel(r@[k as int], p@, q@) == sel@[x].1),
            relations_learned(*final(store), r@, models(sel@)),
    {
        let ghost o = *store;
        let ghost n = self.num_vars as nat;
        let ghost s = self.spps@.len();
        let ghost ws = widths(self.dfas@);
        let mut r: Vec<SPP> = Vec::new();
        let mut k: usize = 0;
        proof {
            o.lemma_wf();
        }
        while k < self.spps.len()
            invariant
                o.wf(),
                store.wf(),
                store.extends(&o),
                store.sp == o.sp,
                o.n() == n,
                s == self.spps@.len(),
                labels_right(sel@, g),
                atoms_ok(sel@, n, s, ws),
                k <= s,
                r@.len() == k,
                forall|j: int| 0 <= j < k ==> store.has(#[trigger] r@[j]),
                relations_learned(*store, r@, models(sel@)),
                forall|x: int|
                    0 <= x < sel@.len() ==> (#[trigger] sel@[x].0 matches Atom::Spp(j, p, q) ==> j
                        < k ==> store.rel(r@[j as int], p@, q@) == sel@[x].1),
            decreases self.spps.len() - k,
        {
            let ghost s1 = *store;
            let ghost r1 = r@;
            let exs = spp_examples(sel, k, Ghost(g), Ghost(n), Ghost(s), Ghost(ws));
            proof {
                if examples_conflict(exs@) {
                    let (a, b) = choose|a: int, b: int|
                        0 <= a < exs@.len() && 0 <= b < exs@.len() && (#[trigger] exs@[a]).input@
                            == (#[trigger] exs@[b]).input@ && exs@[a].output@ == exs@[b].output@
                            && exs@[a].in_spp != exs@[b].in_spp;
                    assert(false);
                }
            }
            let learned = learn_spp(&exs, store);
            let y = match learned {
                Ok(y) => y,
                Err(_) => {
                    assert(false);
                    store.zero
                },
            };
            r.push(y);
            proof {
                let s2 = *store;
                let ms = models(sel@);
                assert forall|j: usize| j < r@.len() implies relation_learned(
                    s2,
                    #[trigger] r@[j as int],
                    spp_part(ms, j, ms.len() as int),
                ) by {
                    if j < k {
                        assert(r@[j as int] == r1[j as int]);
                        assert(s1.has(r1[j as int]));
                        lemma_relation_kept(
                            s2,
                            s1,
                            r1[j as int],
                            spp_part(ms, j, ms.len() as int),
                        );
                    } else {
                        assert(spp_models(exs@).len() == exs@.len());
                        assert(relation_from(s2, y, exs@));
                        assert(spp_models(exs@) == spp_part(ms, k, ms.len() as int));
                    }
                }
                assert forall|j: int| 0 <= j < k + 1 implies s2.has(#[trigger] r@[j]) by {
                    if j < k {
                        assert(r@[j] == r1[j]);
                        assert(s1.has(r1[j]));
                    }
                }
                assert forall|x: int| 0 <= x < sel@.len() implies (#[trigger] sel@[x].0 matches Atom::Spp(
                    j,
                    p,
                    q,
                ) ==> j < k + 1 ==> s2.rel(r@[j as int], p@, q@) == sel@[x].1) by {
                    assert(atom_ok(sel@[x].0, n, s, ws));
                    if let Atom::Spp(j, p, q) = sel@[x].0 {
                        if j < k {
                            assert(r@[j as int] == r1[j as int]);
                            assert(s1.has(r1[j as int]));
                            assert(s1.rel(r1[j as int], p@, q@) == s2.rel(
                                r1[j as int],
                                p@,
                                q@,
                            ));
                        } else if j == k {
                            assert(spp_given(exs@, p@, q@, sel@[x].1));
                            let z = choose|z: int|
                                0 <= z < exs@.len() && (#[trigger] exs@[z]).input@ == p@
                                    && exs@[z].output@ == q@ && exs@[z].in_spp == sel@[x].1;
                            assert(s2.rel(y, exs@[z].input@, exs@[z].output@) == exs@[z].in_spp);
                        }
                    }
                }
            }
            k = k + 1;
        }
        r
    }

    /// A candidate for each slot that agrees with the selected atoms.
    fn learn_candidates(
        &self,
        store: &mut SPPstore,
        sel: &Labelled,
        Ghost(g): Ghost<Guess>,
    ) -> (r: Vec<Cand<'a>>)
        requires
            old(store).wf(),
            old(store).n() == self.num_vars,
            labels_right(sel@, g),
            atoms_ok(sel@, self.num_vars as nat, self.spps@.len(), widths(self.dfas@)),
        ensures
            final(store).wf(),
            final(store).extends(old(store)),
            final(store).sp == old(store).sp,
            r@.len() == self.dfas@.len(),
            forall|k: int|
                0 <= k < r@.len() ==> (#[trigger] r@[k]).dfa == self.dfas@[k] && r@[k].wf(
                    *final(store),
                ),
            forall|x: int|
                0 <= x < sel@.len() ==> (#[trigger] sel@[x].0 matches Atom::Cand(k, z)
                    ==> r@[k as int].takes(*final(store), z) == sel@[x].1),
            candidates_learned(*final(store), r@, models(sel@)),
    {
        let ghost o = *store;
        let ghost n = self.num_vars as nat;
        let ghost s = self.spps@.len();
        let ghost ws = widths(self.dfas@);
        let mut r: Vec<Cand<'a>> = Vec::new();
        let mut k: usize = 0;
        proof {
            o.lemma_wf();
        }
        while k < self.dfas.len()
            invariant
                o.wf(),
                store.wf(),
                store.extends(&o),
                store.sp == o.sp,
                o.n() == n,
                ws == widths(self.dfas@),
                labels_right(sel@, g),
                atoms_ok(sel@, n, s, ws),
                k <= self.dfas@.len(),
                r@.len() == k,
                forall|j: int|
                    0 <= j < k ==> (#[trigger] r@[j]).dfa == self.dfas@[j] && r@[j].wf(*store),
                candidates_learned(*store, r@, models(sel@)),
                forall|x: int|
                    0 <= x < sel@.len() ==> (#[trigger] sel@[x].0 matches Atom::Cand(j, z) ==> j < k
                        ==> r@[j as int].takes(*store, z) == sel@[x].1),
            decreases self.dfas.len() - k,
        {
            let ghost s1 = *store;
            let ghost r1 = r@;
            let exs = cand_examples(sel, k, Ghost(g), Ghost(n), Ghost(s), Ghost(ws));
            proof {
                if inputs_conflict(exs@) {
                    let (a, b) = choose|a: int, b: int|
                        0 <= a < exs@.len() && 0 <= b < exs@.len() && same_input(
                            (#[trigger] exs@[a]).0,
                            (#[trigger] exs@[b]).0,
                        ) && exs@[a].1 != exs@[b].1;
                    assert(false);
                }
            }
            let learned = Cand::from_examples(store, self.dfas[k], exs.as_slice());
            match learned {
                Ok(c) => {
                    let ghost c0 = c;
                    r.push(c);
                    proof {
                        let s2 = *store;
                        let ms = models(sel@);
                        assert forall|j: usize| j < r@.len() implies candidate_learned(
                            s2,
                            #[trigger] r@[j as int],
                            j,
                            cand_part(ms, j, ms.len() as int),
                        ) by {
                            if j < k {
                                assert(r@[j as int] == r1[j as int]);
                                lemma_candidate_kept(
                                    s2,
                                    s1,
                                    r1[j as int],
                                    j,
                                    cand_part(ms, j, ms.len() as int),
                                );
                            } else {
                                assert(cand_models(exs@, k).len() == exs@.len());
                                assert(candidate_from(s2, c0, exs@)) by {
                                    assert forall|x: Input|
                                        input_ok(x, s2.n(), c0.width()) implies (
                                    #[trigger] c0.takes(s2, x) <==> exs@.len() == 0 || merged(
                                        seq![inputs_told(exs@)],
                                        0,
                                        input_widths(s2.n(), c0.width()),
                                        input_path(x),
                                    )) by {}
                                }
                                assert(cand_models(exs@, k) == cand_part(ms, k, ms.len() as int));
                            }
                        }
                        assert forall|j: int| 0 <= j < k + 1 implies (#[trigger] r@[j]).dfa
                            == self.dfas@[j] && r@[j].wf(s2) by {
                            if j < k {
                                assert(r@[j] == r1[j]);
                                r1[j].lemma_wf_store(s2, s1);
                            }
                        }
                        assert forall|x: int| 0 <= x < sel@.len() implies (
                        #[trigger] sel@[x].0 matches Atom::Cand(j, z) ==> j < k + 1
                            ==> r@[j as int].takes(s2, z) == sel@[x].1) by {
                            assert(atom_ok(sel@[x].0, n, s, ws));
                            if let Atom::Cand(j, z) = sel@[x].0 {
                                if j < k {
                                    assert(r@[j as int] == r1[j as int]);
                                    assert(r1[j as int].takes(s1, z) == sel@[x].1);
                                    r1[j as int].lemma_takes_store(s2, s1, z);
                                } else if j == k {
                                    assert(cand_given(exs@, z, sel@[x].1));
                                    let y = choose|y: int|
                                        0 <= y < exs@.len() && same_input((#[trigger] exs@[y]).0, z)
                                            && exs@[y].1 == sel@[x].1;
                                    assert(c0.takes(s2, exs@[y].0) == exs@[y].1);
                                }
                            }
                        }
                    }
                },
                Err(_) => {
                    assert(false);
                },
            }
            k = k + 1;
        }
        r
    }
}


impl<'a> SmtLearner<'a> for Z3<'a> {
    closed spec fn n(&self) -> nat {
        self.num_vars as nat
    }

    closed spec fn slots(&self) -> nat {
        self.spps@.len()
    }

    closed spec fn automata(&self) -> Seq<&'a ExplicitDFA> {
        self.dfas@
    }

    closed spec fn vars(&self) -> nat {
        self.existentials@.len()
    }

    closed spec fn allows(&self, g: Guess, e: Bits) -> bool {
        self.permits(g, e)
    }

    closed spec fn wf(&self) -> bool {
        self.sound()
    }

    proof fn lemma_allows(&self, g: Guess, h: Guess, e: Bits, f: Bits) {
        self.lemma_permits(g, h, e, f);
    }

    fn new(num_vars: u32, flags: Flags) -> (r: Z3<'a>)
        ensures
            r.covers() == flags.cover(),
    {
        let solver = new_solver();
        let r = Z3 {
            num_vars,
            flags,
            solver,
            spps: Vec::new(),
            cands: Vec::new(),
            dfas: Vec::new(),
            existentials: Vec::new(),
            clauses: Vec::new(),
            rules: Ghost(|e: Bits| true),
            any: Ghost(arbitrary()),
        };
        proof {
            assert forall|g: Guess, e: Bits| #[trigger] r.permits(g, e) by {
                assert(all_true(r.any@, r.clauses@, g, e));
            }
        }
        r
    }

    fn fresh_spp(&mut self) -> (v: SppVar)
        ensures
            final(self).covers() == old(self).covers(),
    {
        let ghost o = *self;
        let id = self.spps.len();
        let name = join2("spp_mem_", number(id).as_str());
        proof {
            lemma_names(id as nat, id as nat);
        }
        let sorts = all_bits(2 * self.num_vars as usize);
        let f = declare(name.as_str(), &sorts);
        let ghost f0 = self.spps@;
        self.spps.push(f);
        proof {
            assert(sorts@ =~= trues(2 * self.num_vars as nat));
            assert forall|k: int| 0 <= k < self.spps@.len() implies #[trigger] declared(
                self.spps@[k],
            ) == (sname(k as nat), trues(2 * self.num_vars as nat)) by {
                if k < f0.len() {
                    assert(self.spps@[k] == f0[k]);
                    assert(declared(f0[k]) == (sname(k as nat), trues(2 * self.num_vars as nat)));
                }
            }
            self.lemma_more_slots(&o);
        }
        SppVar(id)
    }

    fn fresh_cand(&mut self, dfa: &'a ExplicitDFA) -> (v: CandVar)
        ensures
            final(self).covers() == old(self).covers(),
    {
        let ghost o = *self;
        let id = self.cands.len();
        let name = join2("cand_mem_", number(id).as_str());
        proof {
            lemma_names(id as nat, id as nat);
        }
        let ghost n = self.num_vars as nat;
        let ns = dfa.num_states();
        let mut sorts = all_bits(2 * self.num_vars as usize);
        let mut i: usize = 0;
        while i < ns
            invariant
                4 * n + ns <= u32::MAX,
                i <= ns,
                sorts@.len() == 2 * n + i,
                forall|j: int| 0 <= j < sorts@.len() ==> #[trigger] sorts@[j] == (j < 2 * n),
            decreases ns - i,
        {
            sorts.push(false);
            i = i + 1;
        }
        let mut tail = all_bits(2 * self.num_vars as usize);
        sorts.append(&mut tail);
        proof {
            assert(sorts@ =~= cand_sorts(n, ns as nat));
        }
        let f = declare(name.as_str(), &sorts);
        let ghost f0 = self.cands@;
        let ghost d0 = self.dfas@;
        self.cands.push(f);
        self.dfas.push(dfa);
        proof {
            assert(self.dfas@ =~= d0.push(dfa));
            assert forall|k: int| 0 <= k < self.cands@.len() implies #[trigger] declared(
                self.cands@[k],
            ) == (cname(k as nat), cand_sorts(n, self.dfas@[k].transitions@.len())) by {
                if k < f0.len() {
                    assert(self.cands@[k] == f0[k]);
                    assert(self.dfas@[k] == d0[k]);
                    assert(declared(f0[k]) == (
                        cname(k as nat),
                        cand_sorts(n, d0[k].transitions@.len()),
                    ));
                }
            }
            self.lemma_more_slots(&o);
        }
        CandVar(id)
    }

    fn fresh_existential(&mut self) -> (v: Existential)
        ensures
            final(self).covers() == old(self).covers(),
    {
        self.new_var()
    }

    fn add_sp_membership(&mut self, sp: SP, vars: &Vec<Existential>, sp_store: &SPstore)
        ensures
            final(self).covers() == old(self).covers(),
    {
        self.assert_member(sp, vars, sp_store);
    }

    fn add_clause(&mut self, clause: AbstractClause, sp_store: &mut SPstore)
        ensures
            final(self).covers() == old(self).covers(),
    {
        let ghost o = *self;
        let ghost so = *sp_store;
        let ghost ls = clause.literals@;
        self.assert_any_clause(clause.literals, sp_store);
        proof {
            assert forall|g: Guess, e: Bits| #[trigger] self.allows(g, e) implies o.allows(g, e)
                && clause_true(so, ls, g, e) by {
                assert(self.permits(g, e));
            }
            assert forall|g: Guess, e: Bits| #[trigger] o.allows(g, e) && clause_true(
                so,
                ls,
                g,
                e,
            ) implies exists|f: Bits| same_bits(o.vars(), e, f) && #[trigger] self.allows(
                g,
                f,
            ) by {
                assert(o.permits(g, e) && clause_true(so, ls, g, e));
                let f = choose|f: Bits|
                    same_bits(o.existentials@.len(), e, f) && #[trigger] self.permits(g, f);
                assert(same_bits(o.vars(), e, f) && self.allows(g, f));
            }
        }
    }

    /// The values are what is learned of the atoms that are selected under some guess that
    /// satisfies the clauses.
    fn extract(&mut self, spp_store: &mut SPPstore) -> (r: Result<Solution<'a>, LearnError>)
        ensures
            *final(self) == *old(self),
            r matches Ok(sol) ==> exists|g: Guess, e: Bits| #[trigger]
                old(self).allows(g, e) && learned(
                    *final(spp_store),
                    sol,
                    old(self).picks(g, e, old(self).covers()),
                ),
    {
        let r = self.find_solution(spp_store);
        proof {
            if r is Ok {
                let st = *spp_store;
                let sol = r->Ok_0;
                assert(self.solves(st, sol));
                let e = choose|e: Bits| #[trigger] self.permits(guess_by(st, sol), e);
                assert(old(self).allows(guess_by(st, sol), e));
                let (g, f) = choose|g: Guess, f: Bits| #[trigger]
                    self.permits(g, f) && learned(st, sol, self.picks(g, f, self.covers()));
                assert(old(self).allows(g, f));
            } else if r->Err_0 is Inconsistent {
                assert forall|g: Guess, e: Bits| !(#[trigger] old(self).allows(g, e)) by {
                    assert(!self.permits(g, e));
                }
            }
        }
        r
    }
}

impl<'a> Z3<'a> {
    /// Only as many atoms are selected as are needed.
    pub closed spec fn covers(&self) -> bool {
        self.flags.cover()
    }

    /// Some values of the variables go with the solution.
    spec fn solves(&self, st: SPPstore, sol: Solution<'a>) -> bool {
        exists|e: Bits| #[trigger] self.permits(guess_by(st, sol), e)
    }

    /// A value for each slot, or why there is none.  The values are what is learned of the
    /// atoms that are selected under some guess that satisfies the clauses.
    fn find_solution(&self, spp_store: &mut SPPstore) -> (r: Result<Solution<'a>, LearnError>)
        requires
            self.sound(),
            old(spp_store).wf(),
            old(spp_store).n() == self.num_vars,
        ensures
            final(spp_store).wf(),
            final(spp_store).extends(old(spp_store)),
            final(spp_store).sp == old(spp_store).sp,
            r matches Ok(sol) ==> solution_ok(
                *final(spp_store),
                sol,
                self.spps@.len(),
                self.dfas@,
            ),
            r matches Ok(sol) ==> self.solves(*final(spp_store), sol),
            r matches Ok(sol) ==> exists|g: Guess, e: Bits| #[trigger]
                self.permits(g, e) && learned(
                    *final(spp_store),
                    sol,
                    self.picks(g, e, self.covers()),
                ),
            r matches Err(LearnError::Inconsistent(_)) ==> forall|g: Guess, e: Bits| !(
            #[trigger] self.permits(g, e)),
    {
        let ghost o = *spp_store;
        proof {
            o.lemma_wf();
        }
        match solve(&self.solver) {
            Answer::Unsat => {
                proof {
                    assert forall|g: Guess, e: Bits| !(#[trigger] self.permits(g, e)) by {
                        self.lemma_unsat(g, e);
                    }
                }
                Err(LearnError::Inconsistent(InconsistentError))
            },
            Answer::Unknown => Err(LearnError::Unknown),
            Answer::Sat(m) => {
                let sel = match self.select_atoms(&m, self.flags.example_cover()) {
                    Some(sel) => sel,
                    None => {
                        return Err(LearnError::Unknown);
                    },
                };
                let ghost g = guess_of(interp_of(m));
                let ghost e = bits_of(interp_of(m));
                let spps = self.learn_relations(spp_store, &sel, Ghost(g));
                let ghost s1 = *spp_store;
                let cands = self.learn_candidates(spp_store, &sel, Ghost(g));
                let ghost s2 = *spp_store;
                let sol = Solution { spps, cands };
                proof {
                    let h = guess_by(s2, sol);
                    let ms = models(sel@);
                    assert(ms == self.picks(g, e, self.covers()));
                    assert forall|k: usize| k < sol.spps@.len() implies relation_learned(
                        s2,
                        #[trigger] sol.spps@[k as int],
                        spp_part(ms, k, ms.len() as int),
                    ) by {
                        assert(s1.has(sol.spps@[k as int]));
                        lemma_relation_kept(
                            s2,
                            s1,
                            sol.spps@[k as int],
                            spp_part(ms, k, ms.len() as int),
                        );
                    }
                    assert(learned(s2, sol, ms));
                    let n = self.num_vars as nat;
                    assert forall|i: int| 0 <= i < sol.spps@.len() implies s2.has(
                        #[trigger] sol.spps@[i],
                    ) by {
                        assert(s1.has(sol.spps@[i]));
                    }
                    assert(self.permits(g, e));
                    assert forall|c: int| 0 <= c < self.clauses@.len() implies clause_true(
                        self.any@,
                        #[trigger] self.clauses@[c]@,
                        h,
                        e,
                    ) by {
                        let ls = self.clauses@[c]@;
                        assert(covered(sel@, ls, e));
                        let (k, x) = choose|k: int, x: int|
                            0 <= k < ls.len() && 0 <= x < sel@.len() && #[trigger] atom_of(
                                sel@[x].0,
                                #[trigger] ls[k],
                                e,
                            ) && sel@[x].1 == polarity_of(ls[k]);
                        assert(plain(self.clauses@[c]@[k]));
                        lemma_atom_lit(sel@[x].0, ls[k], self.any@, h, e);
                        assert(atom_ok(
                            sel@[x].0,
                            n,
                            self.spps@.len(),
                            widths(self.dfas@),
                        ));
                        assert(atom_true(sel@[x].0, h) == sel@[x].1) by {
                            match sel@[x].0 {
                                Atom::Spp(j, p, q) => {
                                    assert(s1.rel(sol.spps@[j as int], p@, q@) == sel@[x].1);
                                    assert(s1.has(sol.spps@[j as int]));
                                    assert(s2.rel(sol.spps@[j as int], p@, q@) == s1.rel(
                                        sol.spps@[j as int],
                                        p@,
                                        q@,
                                    ));
                                },
                                Atom::Cand(j, z) => {
                                    assert(sol.cands@[j as int].takes(s2, z) == sel@[x].1);
                                },
                            }
                        }
                        assert(lit_true(self.any@, ls[k], h, e));
                    }
                    assert(self.permits(h, e));
                    assert(self.solves(s2, sol));
                }
                Ok(sol)
            },
        }
    }
}

/// `n` arguments that are bits.
fn all_bits(n: usize) -> (v: Vec<bool>)
    ensures
        v@ == trues(n as nat),
{
    let mut v: Vec<bool> = Vec::new();
    let mut i: usize = 0;
    while i < n
        invariant
            i <= n,
            v@.len() == i,
            forall|j: int| 0 <= j < i ==> #[trigger] v@[j],
        decreases n - i,
    {
        v.push(true);
        i = i + 1;
    }
    assert(v@ =~= trues(n as nat));
    v
}

impl<'a> Z3<'a> {
    /// More slots keep the clauses and memberships.
    proof fn lemma_more_slots(&self, o: &Z3<'a>)
        requires
            o.sound(),
            self.named(),
            self.num_vars == o.num_vars,
            self.clauses == o.clauses,
            self.any == o.any,
            self.existentials == o.existentials,
            self.rules == o.rules,
            self.solver == o.solver,
            self.spps@.len() >= o.spps@.len(),
            self.dfas@.len() >= o.dfas@.len(),
            forall|i: int| 0 <= i < o.dfas@.len() ==> #[trigger] self.dfas@[i] == o.dfas@[i],
        ensures
            self.sound(),
    {
        assert forall|c: int, k: int|
            #![trigger self.clauses@[c]@[k]]
            0 <= c < self.clauses@.len() && 0 <= k < self.clauses@[c]@.len() implies plain(
            self.clauses@[c]@[k],
        ) && lit_ok(
            self.clauses@[c]@[k],
            self.any@,
            self.num_vars as nat,
            self.spps@.len(),
            widths(self.dfas@),
            self.existentials@.len(),
        ) by {
            assert(plain(o.clauses@[c]@[k]));
            lemma_lit_more(
                o.clauses@[c]@[k],
                self.any@,
                self.any@,
                self.num_vars as nat,
                o.spps@.len(),
                self.spps@.len(),
                widths(o.dfas@),
                widths(self.dfas@),
                o.existentials@.len(),
                self.existentials@.len(),
            );
        }
        assert forall|i: Interp| #[trigger] asserted(self.solver, i) == self.permits(
            guess_of(i),
            bits_of(i),
        ) by {
            assert(asserted(o.solver, i) == o.permits(guess_of(i), bits_of(i)));
        }
        assert forall|e: Bits, f: Bits|
            #![trigger (self.rules@)(e), (self.rules@)(f)]
            same_bits(self.existentials@.len(), e, f) implies (self.rules@)(e) == (self.rules@)(
            f,
        ) by {
            assert((o.rules@)(e) == (o.rules@)(f));
        }
    }
}

} // verus!
