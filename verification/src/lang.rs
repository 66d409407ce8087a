//! Languages of packet strings.
//!
//! A word is a sequence of at least two packets: the packet that enters, the
//! packets that are recorded on the way, and the packet that leaves.
use vstd::prelude::*;
use crate::expr::Term;
use crate::sp::Pkt;
use crate::spp::{chain, link, star_of};

verus! {

pub type Word = Seq<Pkt>;

/// A language, as the predicate of its words.
pub type Lang = spec_fn(Word) -> bool;

/// A word over packets of `n` fields.
pub open spec fn is_word(n: nat, w: Word) -> bool {
    &&& w.len() >= 2
    &&& forall|i: int| 0 <= i < w.len() ==> (#[trigger] w[i]).len() == n
}

/// The languages have the same words.
pub open spec fn same(n: nat, a: Lang, b: Lang) -> bool {
    forall|w: Word| #![trigger a(w)] #![trigger b(w)] is_word(n, w) ==> a(w) == b(w)
}

/// The packets of a list.
pub open spec fn packets(v: Seq<Vec<bool>>) -> Seq<Pkt> {
    v.map_values(|p: Vec<bool>| p@)
}

/// The word of two packets.
pub open spec fn pair(p: Pkt, q: Pkt) -> Word {
    seq![p, q]
}

/// The word up to packet `i`, and then `m`.
pub open spec fn front(w: Word, i: int, m: Pkt) -> Word {
    w.take(i + 1).push(m)
}

/// `m`, and then the word after packet `i`.
pub open spec fn back(w: Word, i: int, m: Pkt) -> Word {
    seq![m] + w.skip(i + 1)
}

/// The word splits after packet `i`, at `m`, into a word of `a` and one of `b`.
pub open spec fn cut(n: nat, a: Lang, b: Lang, w: Word, i: int, m: Pkt) -> bool {
    &&& 0 <= i <= w.len() - 2
    &&& m.len() == n
    &&& a(front(w, i, m))
    &&& b(back(w, i, m))
}

/// One packet in, the same packet out.
pub open spec fn unit() -> Lang {
    |w: Word| w.len() == 2 && w[0] == w[1]
}

/// One step of a relation.
pub open spec fn once(r: spec_fn(Pkt, Pkt) -> bool) -> Lang {
    |w: Word| w.len() == 2 && r(w[0], w[1])
}

/// A word of `a`, and then one of `b`, joined at a packet.
pub open spec fn cat(n: nat, a: Lang, b: Lang) -> Lang {
    |w: Word| exists|i: int, m: Pkt| #[trigger] cut(n, a, b, w, i, m)
}

/// `k` words of `a`.
pub open spec fn pow(n: nat, a: Lang, k: nat) -> Lang
    decreases k,
{
    if k == 0 {
        unit()
    } else {
        cat(n, a, pow(n, a, (k - 1) as nat))
    }
}

/// Any number of words of `a`.
pub open spec fn star(n: nat, a: Lang) -> Lang {
    |w: Word| exists|k: nat| #[trigger] pow(n, a, k)(w)
}

/// A word of `a` after one recorded step.
pub open spec fn next(a: Lang) -> Lang {
    |w: Word| w.len() >= 3 && a(w.skip(1))
}

/// From packet `j` on the word is in `b`, and from every packet before in `a`.
pub open spec fn until_at(a: Lang, b: Lang, w: Word, j: int) -> bool {
    &&& 0 <= j <= w.len() - 2
    &&& b(w.skip(j))
    &&& forall|i: int| 0 <= i < j ==> a(#[trigger] w.skip(i))
}

/// `a` until `b`.
pub open spec fn until(a: Lang, b: Lang) -> Lang {
    |w: Word| exists|j: int| #[trigger] until_at(a, b, w, j)
}

/// The language of a core expression without holes, over packets of `n` fields.
pub open spec fn lang(t: Term, n: nat) -> Lang
    decreases t,
{
    match t {
        Term::One => unit(),
        Term::Top => |w: Word| true,
        Term::Dup => |w: Word| w.len() == 3 && w[0] == w[1] && w[1] == w[2],
        Term::End => |w: Word| w.len() == 2,
        Term::Assign(f, v) => |w: Word| w.len() == 2 && w[1] == w[0].update(f as int, v),
        Term::Test(f, v) => |w: Word| w.len() == 2 && w[0] == w[1] && w[0][f as int] == v,
        Term::Union(a, b) => |w: Word| lang(*a, n)(w) || lang(*b, n)(w),
        Term::Intersect(a, b) => |w: Word| lang(*a, n)(w) && lang(*b, n)(w),
        Term::Xor(a, b) => |w: Word| lang(*a, n)(w) != lang(*b, n)(w),
        Term::Difference(a, b) => |w: Word| lang(*a, n)(w) && !lang(*b, n)(w),
        Term::Complement(a) => |w: Word| !lang(*a, n)(w),
        Term::Sequence(a, b) => cat(n, lang(*a, n), lang(*b, n)),
        Term::Star(a) => star(n, lang(*a, n)),
        Term::LtlNext(a) => next(lang(*a, n)),
        Term::LtlUntil(a, b) => until(lang(*a, n), lang(*b, n)),
        _ => |w: Word| false,
    }
}

/// A core expression without holes whose fields are below `n`.
pub open spec fn closed_over(t: Term, n: nat) -> bool
    decreases t,
{
    match t {
        Term::Zero | Term::One | Term::Top | Term::Dup | Term::End => true,
        Term::Assign(f, _) => f < n,
        Term::Test(f, _) => f < n,
        Term::Union(a, b) => closed_over(*a, n) && closed_over(*b, n),
        Term::Intersect(a, b) => closed_over(*a, n) && closed_over(*b, n),
        Term::Xor(a, b) => closed_over(*a, n) && closed_over(*b, n),
        Term::Difference(a, b) => closed_over(*a, n) && closed_over(*b, n),
        Term::Sequence(a, b) => closed_over(*a, n) && closed_over(*b, n),
        Term::LtlUntil(a, b) => closed_over(*a, n) && closed_over(*b, n),
        Term::Complement(a) => closed_over(*a, n),
        Term::Star(a) => closed_over(*a, n),
        Term::LtlNext(a) => closed_over(*a, n),
        _ => false,
    }
}

// ---- words ---------------------------------------------------------------------

pub proof fn lemma_parts(n: nat, w: Word, i: int, m: Pkt)
    requires
        is_word(n, w),
        0 <= i <= w.len() - 2,
        m.len() == n,
    ensures
        is_word(n, front(w, i, m)),
        is_word(n, back(w, i, m)),
        front(w, i, m).len() == i + 2,
        back(w, i, m).len() == w.len() - i,
        front(w, i, m)[0] == w[0],
        front(w, i, m).last() == m,
        back(w, i, m)[0] == m,
{
    let f = front(w, i, m);
    let b = back(w, i, m);
    assert forall|j: int| 0 <= j < f.len() implies (#[trigger] f[j]).len() == n by {
        if j <= i {
            assert(f[j] == w[j]);
        }
    }
    assert forall|j: int| 0 <= j < b.len() implies (#[trigger] b[j]).len() == n by {
        if j > 0 {
            assert(b[j] == w[i + j]);
        }
    }
}

pub proof fn lemma_tail(n: nat, w: Word, j: int)
    requires
        is_word(n, w),
        0 <= j <= w.len() - 2,
    ensures
        is_word(n, w.skip(j)),
        w.skip(j)[0] == w[j],
        w.skip(j).len() == w.len() - j,
{
    assert forall|i: int| 0 <= i < w.skip(j).len() implies (#[trigger] w.skip(j)[i]).len() == n by {
        assert(w.skip(j)[i] == w[i + j]);
    }
}

/// The word `w` with packet `p` before it.
pub open spec fn cons(p: Pkt, w: Word) -> Word {
    seq![p] + w
}

/// What is left of `a` after packet `p`.
pub open spec fn after(a: Lang, p: Pkt) -> Lang {
    |u: Word| a(cons(p, u))
}

pub proof fn lemma_cons(n: nat, p: Pkt, w: Word)
    requires
        is_word(n, w),
        p.len() == n,
    ensures
        is_word(n, cons(p, w)),
        cons(p, w).len() == w.len() + 1,
        cons(p, w)[0] == p,
        cons(p, w).skip(1) == w,
        forall|i: int| 1 <= i <= w.len() ==> cons(p, w)[i] == w[i - 1],
{
    let c = cons(p, w);
    assert(c.skip(1) =~= w);
    assert forall|i: int| 0 <= i < c.len() implies (#[trigger] c[i]).len() == n by {
        if i > 0 {
            assert(c[i] == w[i - 1]);
        }
    }
}

pub proof fn lemma_uncons(n: nat, w: Word)
    requires
        is_word(n, w),
        w.len() >= 3,
    ensures
        is_word(n, w.skip(1)),
        cons(w[0], w.skip(1)) == w,
{
    lemma_tail(n, w, 1);
    assert(cons(w[0], w.skip(1)) =~= w);
}

// ---- congruence -----------------------------------------------------------------

pub proof fn lemma_cut_same(n: nat, a: Lang, b: Lang, c: Lang, d: Lang, w: Word, i: int, m: Pkt)
    requires
        same(n, a, c),
        same(n, b, d),
        is_word(n, w),
        cut(n, a, b, w, i, m),
    ensures
        cut(n, c, d, w, i, m),
{
    lemma_parts(n, w, i, m);
    assert(a(front(w, i, m)) == c(front(w, i, m)));
    assert(b(back(w, i, m)) == d(back(w, i, m)));
}

pub proof fn lemma_cat_same(n: nat, a: Lang, b: Lang, c: Lang, d: Lang)
    requires
        same(n, a, c),
        same(n, b, d),
    ensures
        same(n, cat(n, a, b), cat(n, c, d)),
{
    assert forall|w: Word| is_word(n, w) implies cat(n, a, b)(w) == cat(n, c, d)(w) by {
        if cat(n, a, b)(w) {
            let (i, m) = choose|i: int, m: Pkt| #[trigger] cut(n, a, b, w, i, m);
            lemma_cut_same(n, a, b, c, d, w, i, m);
        }
        if cat(n, c, d)(w) {
            let (i, m) = choose|i: int, m: Pkt| #[trigger] cut(n, c, d, w, i, m);
            lemma_cut_same(n, c, d, a, b, w, i, m);
        }
    }
}

pub proof fn lemma_pow_same(n: nat, a: Lang, b: Lang, k: nat)
    requires
        same(n, a, b),
    ensures
        same(n, pow(n, a, k), pow(n, b, k)),
    decreases k,
{
    if k > 0 {
        lemma_pow_same(n, a, b, (k - 1) as nat);
        lemma_cat_same(n, a, pow(n, a, (k - 1) as nat), b, pow(n, b, (k - 1) as nat));
    }
}

pub proof fn lemma_star_same_lang(n: nat, a: Lang, b: Lang)
    requires
        same(n, a, b),
    ensures
        same(n, star(n, a), star(n, b)),
{
    assert forall|w: Word| is_word(n, w) implies star(n, a)(w) == star(n, b)(w) by {
        if star(n, a)(w) {
            let k = choose|k: nat| #[trigger] pow(n, a, k)(w);
            lemma_pow_same(n, a, b, k);
            assert(pow(n, b, k)(w));
        }
        if star(n, b)(w) {
            let k = choose|k: nat| #[trigger] pow(n, b, k)(w);
            lemma_pow_same(n, a, b, k);
            assert(pow(n, a, k)(w));
        }
    }
}

pub proof fn lemma_next_same(n: nat, a: Lang, b: Lang)
    requires
        same(n, a, b),
    ensures
        same(n, next(a), next(b)),
{
    assert forall|w: Word| is_word(n, w) implies next(a)(w) == next(b)(w) by {
        if w.len() >= 3 {
            lemma_tail(n, w, 1);
            assert(a(w.skip(1)) == b(w.skip(1)));
        }
    }
}

proof fn lemma_until_at_same(n: nat, a: Lang, b: Lang, c: Lang, d: Lang, w: Word, j: int)
    requires
        same(n, a, c),
        same(n, b, d),
        is_word(n, w),
        until_at(a, b, w, j),
    ensures
        until_at(c, d, w, j),
{
    lemma_tail(n, w, j);
    assert(b(w.skip(j)) == d(w.skip(j)));
    assert forall|i: int| 0 <= i < j implies c(#[trigger] w.skip(i)) by {
        lemma_tail(n, w, i);
        assert(a(w.skip(i)) == c(w.skip(i)));
    }
}

pub proof fn lemma_until_same(n: nat, a: Lang, b: Lang, c: Lang, d: Lang)
    requires
        same(n, a, c),
        same(n, b, d),
    ensures
        same(n, until(a, b), until(c, d)),
{
    assert forall|w: Word| is_word(n, w) implies until(a, b)(w) == until(c, d)(w) by {
        if until(a, b)(w) {
            let j = choose|j: int| #[trigger] until_at(a, b, w, j);
            lemma_until_at_same(n, a, b, c, d, w, j);
        }
        if until(c, d)(w) {
            let j = choose|j: int| #[trigger] until_at(c, d, w, j);
            lemma_until_at_same(n, c, d, a, b, w, j);
        }
    }
}

// ---- algebra ---------------------------------------------------------------------

/// Nothing is changed by passing packets on, before or after.
pub proof fn lemma_cat_unit(n: nat, a: Lang)
    ensures
        same(n, cat(n, unit(), a), a),
        same(n, cat(n, a, unit()), a),
{
    assert forall|w: Word| is_word(n, w) implies cat(n, unit(), a)(w) == a(w) by {
        if cat(n, unit(), a)(w) {
            let (i, m) = choose|i: int, m: Pkt| #[trigger] cut(n, unit(), a, w, i, m);
            lemma_parts(n, w, i, m);
            assert(i == 0);
            assert(front(w, 0, m)[1] == m);
            assert(back(w, 0, m) =~= w);
        }
        if a(w) {
            assert(back(w, 0, w[0]) =~= w);
            lemma_parts(n, w, 0, w[0]);
            assert(front(w, 0, w[0])[1] == w[0]);
            assert(cut(n, unit(), a, w, 0, w[0]));
        }
    }
    assert forall|w: Word| is_word(n, w) implies cat(n, a, unit())(w) == a(w) by {
        let e = w.len() - 2;
        if cat(n, a, unit())(w) {
            let (i, m) = choose|i: int, m: Pkt| #[trigger] cut(n, a, unit(), w, i, m);
            lemma_parts(n, w, i, m);
            assert(i == e);
            assert(back(w, i, m)[1] == w.last());
            assert(front(w, i, m) =~= w);
        }
        if a(w) {
            assert(front(w, e, w.last()) =~= w);
            lemma_parts(n, w, e, w.last());
            assert(back(w, e, w.last())[1] == w.last());
            assert(cut(n, a, unit(), w, e, w.last()));
        }
    }
}

/// Joining is associative.
pub proof fn lemma_cat_assoc(n: nat, a: Lang, b: Lang, c: Lang)
    ensures
        same(n, cat(n, cat(n, a, b), c), cat(n, a, cat(n, b, c))),
{
    assert forall|w: Word| is_word(n, w) implies cat(n, cat(n, a, b), c)(w) == cat(
        n,
        a,
        cat(n, b, c),
    )(w) by {
        if cat(n, cat(n, a, b), c)(w) {
            let (i, m) = choose|i: int, m: Pkt| #[trigger] cut(n, cat(n, a, b), c, w, i, m);
            let u = front(w, i, m);
            lemma_parts(n, w, i, m);
            let (j, k) = choose|j: int, k: Pkt| #[trigger] cut(n, a, b, u, j, k);
            lemma_parts(n, u, j, k);
            lemma_parts(n, w, j, k);
            assert(front(w, j, k) =~= front(u, j, k));
            let v = back(w, j, k);
            assert(front(v, i - j, m) =~= back(u, j, k));
            assert(back(v, i - j, m) =~= back(w, i, m));
            assert(cut(n, b, c, v, i - j, m));
            assert(cut(n, a, cat(n, b, c), w, j, k));
        }
        if cat(n, a, cat(n, b, c))(w) {
            let (j, k) = choose|j: int, k: Pkt| #[trigger] cut(n, a, cat(n, b, c), w, j, k);
            let v = back(w, j, k);
            lemma_parts(n, w, j, k);
            let (l, m) = choose|l: int, m: Pkt| #[trigger] cut(n, b, c, v, l, m);
            lemma_parts(n, v, l, m);
            let i = j + l;
            lemma_parts(n, w, i, m);
            let u = front(w, i, m);
            assert(front(u, j, k) =~= front(w, j, k));
            assert(back(u, j, k) =~= front(v, l, m));
            assert(back(w, i, m) =~= back(v, l, m));
            assert(cut(n, a, b, u, j, k));
            assert(cut(n, cat(n, a, b), c, w, i, m));
        }
    }
}

/// `k` and then `l` words are `k + l` words.
pub proof fn lemma_pow_add(n: nat, a: Lang, k: nat, l: nat)
    ensures
        same(n, cat(n, pow(n, a, k), pow(n, a, l)), pow(n, a, k + l)),
    decreases k,
{
    if k == 0 {
        lemma_cat_unit(n, pow(n, a, l));
    } else {
        let k1 = (k - 1) as nat;
        lemma_pow_add(n, a, k1, l);
        lemma_cat_assoc(n, a, pow(n, a, k1), pow(n, a, l));
        lemma_cat_same(
            n,
            a,
            cat(n, pow(n, a, k1), pow(n, a, l)),
            a,
            pow(n, a, (k1 + l) as nat),
        );
        assert((k + l - 1) as nat == k1 + l);
    }
}

/// Iterating twice is iterating once.
pub proof fn lemma_star_star(n: nat, a: Lang)
    ensures
        same(n, star(n, star(n, a)), star(n, a)),
{
    assert forall|w: Word| is_word(n, w) implies star(n, star(n, a))(w) == star(n, a)(w) by {
        if star(n, star(n, a))(w) {
            let k = choose|k: nat| #[trigger] pow(n, star(n, a), k)(w);
            lemma_pow_star(n, a, k, w);
        }
        if star(n, a)(w) {
            lemma_cat_unit(n, star(n, a));
            assert(cat(n, star(n, a), unit())(w));
            assert(pow(n, star(n, a), 0) == unit());
            assert(pow(n, star(n, a), 1)(w));
        }
    }
}

proof fn lemma_pow_star(n: nat, a: Lang, k: nat, w: Word)
    requires
        is_word(n, w),
        pow(n, star(n, a), k)(w),
    ensures
        star(n, a)(w),
    decreases k,
{
    if k == 0 {
        assert(pow(n, a, 0)(w));
    } else {
        let s = star(n, a);
        let (i, m) = choose|i: int, m: Pkt| #[trigger]
            cut(n, s, pow(n, s, (k - 1) as nat), w, i, m);
        lemma_parts(n, w, i, m);
        lemma_pow_star(n, a, (k - 1) as nat, back(w, i, m));
        let x = choose|x: nat| #[trigger] pow(n, a, x)(front(w, i, m));
        let y = choose|y: nat| #[trigger] pow(n, a, y)(back(w, i, m));
        lemma_pow_add(n, a, x, y);
        assert(cut(n, pow(n, a, x), pow(n, a, y), w, i, m));
        assert(cat(n, pow(n, a, x), pow(n, a, y))(w));
        assert(pow(n, a, x + y)(w));
    }
}

// ---- steps -----------------------------------------------------------------------

/// What `a` does in a single step.
pub open spec fn steps_of(a: Lang) -> spec_fn(Pkt, Pkt) -> bool {
    |p: Pkt, q: Pkt| a(pair(p, q))
}

/// A joined word of two packets is two steps.
pub proof fn lemma_cat_step(n: nat, a: Lang, b: Lang, p: Pkt, q: Pkt)
    requires
        p.len() == n,
        q.len() == n,
    ensures
        cat(n, a, b)(pair(p, q)) <==> exists|m: Pkt|
            m.len() == n && #[trigger] a(pair(p, m)) && b(pair(m, q)),
{
    let w = pair(p, q);
    assert(is_word(n, w));
    if cat(n, a, b)(w) {
        let (i, m) = choose|i: int, m: Pkt| #[trigger] cut(n, a, b, w, i, m);
        assert(i == 0);
        assert(front(w, 0, m) =~= pair(p, m));
        assert(back(w, 0, m) =~= pair(m, q));
    }
    if exists|m: Pkt| m.len() == n && #[trigger] a(pair(p, m)) && b(pair(m, q)) {
        let m = choose|m: Pkt| m.len() == n && #[trigger] a(pair(p, m)) && b(pair(m, q));
        assert(front(w, 0, m) =~= pair(p, m));
        assert(back(w, 0, m) =~= pair(m, q));
        assert(cut(n, a, b, w, 0, m));
    }
}

/// The single steps of an iteration are the iterated single steps.
pub proof fn lemma_star_step(n: nat, a: Lang, p: Pkt, q: Pkt)
    requires
        p.len() == n,
        q.len() == n,
    ensures
        star(n, a)(pair(p, q)) <==> star_of(steps_of(a), n, p, q),
{
    if star(n, a)(pair(p, q)) {
        let k = choose|k: nat| #[trigger] pow(n, a, k)(pair(p, q));
        lemma_pow_step(n, a, k, p, q);
    }
    if star_of(steps_of(a), n, p, q) {
        let ps = choose|ps: Seq<Pkt>| #[trigger]
            chain(steps_of(a), n, ps) && ps[0] == p && ps.last() == q;
        lemma_chain_pow(n, a, ps);
        assert(pow(n, a, (ps.len() - 1) as nat)(pair(p, q)));
    }
}

proof fn lemma_pow_step(n: nat, a: Lang, k: nat, p: Pkt, q: Pkt)
    requires
        p.len() == n,
        q.len() == n,
        pow(n, a, k)(pair(p, q)),
    ensures
        star_of(steps_of(a), n, p, q),
    decreases k,
{
    let f = steps_of(a);
    if k == 0 {
        assert(chain(f, n, seq![p]));
    } else {
        lemma_cat_step(n, a, pow(n, a, (k - 1) as nat), p, q);
        let m = choose|m: Pkt|
            m.len() == n && #[trigger] a(pair(p, m)) && pow(n, a, (k - 1) as nat)(pair(m, q));
        lemma_pow_step(n, a, (k - 1) as nat, m, q);
        crate::spp::lemma_star_closed(f, n, p, m, m);
        crate::spp::lemma_star_closed(f, n, p, m, q);
        assert(f(p, m));
    }
}

proof fn lemma_chain_pow(n: nat, a: Lang, ps: Seq<Pkt>)
    requires
        chain(steps_of(a), n, ps),
    ensures
        pow(n, a, (ps.len() - 1) as nat)(pair(ps[0], ps.last())),
    decreases ps.len(),
{
    if ps.len() > 1 {
        let qs = ps.drop_first();
        assert forall|i: int| 0 <= i < qs.len() - 1 implies #[trigger] link(steps_of(a), qs, i) by {
            assert(link(steps_of(a), ps, i + 1));
        }
        lemma_chain_pow(n, a, qs);
        assert(link(steps_of(a), ps, 0));
        lemma_cat_step(n, a, pow(n, a, (ps.len() - 2) as nat), ps[0], ps.last());
        assert(a(pair(ps[0], qs[0])));
        assert(ps[1].len() == n);
    }
}

// ---- longer words ------------------------------------------------------------------

/// A longer joined word either takes one step of `a` and goes on in `b`, or
/// records a packet within `a`.
pub proof fn lemma_cat_cons(n: nat, a: Lang, b: Lang, p: Pkt, v: Word)
    requires
        p.len() == n,
        is_word(n, v),
    ensures
        cat(n, a, b)(cons(p, v)) <==> {
            ||| exists|m: Pkt| m.len() == n && #[trigger] a(pair(p, m)) && b(cons(m, v))
            ||| exists|i: int, m: Pkt|
                #[trigger] cut(n, after(a, p), b, v, i, m)
        },
{
    let w = cons(p, v);
    let d = after(a, p);
    lemma_cons(n, p, v);
    if cat(n, a, b)(w) {
        let (i, m) = choose|i: int, m: Pkt| #[trigger] cut(n, a, b, w, i, m);
        if i == 0 {
            assert(front(w, 0, m) =~= pair(p, m));
            assert(back(w, 0, m) =~= cons(m, v));
        } else {
            assert(front(w, i, m) =~= cons(p, front(v, i - 1, m)));
            assert(back(w, i, m) =~= back(v, i - 1, m));
            assert(cut(n, d, b, v, i - 1, m));
        }
    }
    if exists|m: Pkt| m.len() == n && #[trigger] a(pair(p, m)) && b(cons(m, v)) {
        let m = choose|m: Pkt| m.len() == n && #[trigger] a(pair(p, m)) && b(cons(m, v));
        assert(front(w, 0, m) =~= pair(p, m));
        assert(back(w, 0, m) =~= cons(m, v));
        assert(cut(n, a, b, w, 0, m));
    }
    if exists|i: int, m: Pkt| #[trigger] cut(n, d, b, v, i, m) {
        let (i, m) = choose|i: int, m: Pkt| #[trigger] cut(n, d, b, v, i, m);
        assert(front(w, i + 1, m) =~= cons(p, front(v, i, m)));
        assert(back(w, i + 1, m) =~= back(v, i, m));
        assert(cut(n, a, b, w, i + 1, m));
    }
}

/// From some `m` that iterated steps lead to, the word records a packet within
/// `a` and then goes on.
pub open spec fn star_tail(n: nat, a: Lang, p: Pkt, v: Word, m: Pkt, i: int, x: Pkt) -> bool {
    &&& m.len() == n
    &&& star_of(steps_of(a), n, p, m)
    &&& cut(n, after(a, m), star(n, a), v, i, x)
}

/// A longer word of an iteration takes single steps of `a`, records a packet
/// within `a`, and goes on with the iteration.
pub proof fn lemma_star_cons(n: nat, a: Lang, p: Pkt, v: Word)
    requires
        p.len() == n,
        is_word(n, v),
    ensures
        star(n, a)(cons(p, v)) <==> exists|m: Pkt, i: int, x: Pkt| #[trigger]
            star_tail(n, a, p, v, m, i, x),
{
    if star(n, a)(cons(p, v)) {
        let k = choose|k: nat| #[trigger] pow(n, a, k)(cons(p, v));
        lemma_pow_cons(n, a, k, p, v);
    }
    if exists|m: Pkt, i: int, x: Pkt| #[trigger] star_tail(n, a, p, v, m, i, x) {
        let (m, i, x) = choose|m: Pkt, i: int, x: Pkt| #[trigger]
            star_tail(n, a, p, v, m, i, x);
        let d = after(a, m);
        lemma_cat_cons(n, a, star(n, a), m, v);
        assert(cat(n, a, star(n, a))(cons(m, v)));
        lemma_cons(n, m, v);
        lemma_cons(n, p, v);
        // One word and then any number is any number.
        let w1 = cons(m, v);
        let (j, y) = choose|j: int, y: Pkt| #[trigger] cut(n, a, star(n, a), w1, j, y);
        lemma_parts(n, w1, j, y);
        let k = choose|k: nat| #[trigger] pow(n, a, k)(back(w1, j, y));
        assert(cut(n, a, pow(n, a, k), w1, j, y));
        assert(pow(n, a, (k + 1) as nat)(w1));
        // The steps before it.
        lemma_star_step(n, a, p, m);
        let l = choose|l: nat| #[trigger] pow(n, a, l)(pair(p, m));
        lemma_pow_add(n, a, l, (k + 1) as nat);
        let w = cons(p, v);
        assert(front(w, 0, m) =~= pair(p, m));
        assert(back(w, 0, m) =~= w1);
        assert(cut(n, pow(n, a, l), pow(n, a, (k + 1) as nat), w, 0, m));
        assert(cat(n, pow(n, a, l), pow(n, a, (k + 1) as nat))(w));
        assert(pow(n, a, (l + (k + 1)) as nat)(w));
    }
}

proof fn lemma_pow_cons(n: nat, a: Lang, k: nat, p: Pkt, v: Word)
    requires
        p.len() == n,
        is_word(n, v),
        pow(n, a, k)(cons(p, v)),
    ensures
        exists|m: Pkt, i: int, x: Pkt| #[trigger] star_tail(n, a, p, v, m, i, x),
    decreases k,
{
    lemma_cons(n, p, v);
    if k > 0 {
        let b = pow(n, a, (k - 1) as nat);
        let f = steps_of(a);
        lemma_cat_cons(n, a, b, p, v);
        if exists|m: Pkt| m.len() == n && #[trigger] a(pair(p, m)) && b(cons(m, v)) {
            let m = choose|m: Pkt| m.len() == n && #[trigger] a(pair(p, m)) && b(cons(m, v));
            lemma_pow_cons(n, a, (k - 1) as nat, m, v);
            let (m2, i, x) = choose|m2: Pkt, i: int, x: Pkt| #[trigger]
                star_tail(n, a, m, v, m2, i, x);
            assert(f(p, m));
            crate::spp::lemma_star_closed(f, n, p, m, m);
            crate::spp::lemma_star_closed(f, n, p, m, m2);
            assert(star_tail(n, a, p, v, m2, i, x));
        } else {
            let d = after(a, p);
            let (i, x) = choose|i: int, x: Pkt| #[trigger] cut(n, d, b, v, i, x);
            assert(star(n, a)(back(v, i, x)));
            crate::spp::lemma_star_closed(f, n, p, p, p);
            assert(cut(n, d, star(n, a), v, i, x));
            assert(star_tail(n, a, p, v, p, i, x));
        }
    }
}

/// A longer word of `a U b` is in `b`, or it is in `a` and its rest in `a U b`.
pub proof fn lemma_until_cons(n: nat, a: Lang, b: Lang, p: Pkt, v: Word)
    requires
        p.len() == n,
        is_word(n, v),
    ensures
        until(a, b)(cons(p, v)) <==> b(cons(p, v)) || (a(cons(p, v)) && until(a, b)(v)),
{
    let w = cons(p, v);
    lemma_cons(n, p, v);
    assert(w.skip(0) =~= w);
    if until(a, b)(w) {
        let j = choose|j: int| #[trigger] until_at(a, b, w, j);
        if j > 0 {
            assert(a(w.skip(0)));
            assert(w.skip(j) =~= v.skip(j - 1));
            assert forall|i: int| 0 <= i < j - 1 implies a(#[trigger] v.skip(i)) by {
                assert(w.skip(i + 1) =~= v.skip(i));
            }
            assert(until_at(a, b, v, j - 1));
        }
    }
    if b(w) {
        assert(until_at(a, b, w, 0));
    }
    if a(w) && until(a, b)(v) {
        let j = choose|j: int| #[trigger] until_at(a, b, v, j);
        assert(w.skip(j + 1) =~= v.skip(j));
        assert forall|i: int| 0 <= i < j + 1 implies a(#[trigger] w.skip(i)) by {
            if i > 0 {
                assert(w.skip(i) =~= v.skip(i - 1));
            }
        }
        assert(until_at(a, b, w, j + 1));
    }
}

/// The single steps of `a U b` are those of `b`.
pub proof fn lemma_until_step(n: nat, a: Lang, b: Lang, p: Pkt, q: Pkt)
    ensures
        until(a, b)(pair(p, q)) <==> b(pair(p, q)),
{
    let w = pair(p, q);
    assert(w.skip(0) =~= w);
    if b(w) {
        assert(until_at(a, b, w, 0));
    }
}

} // verus!
