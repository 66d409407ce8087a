//! Languages whose words carry a bound on the number of their parts.
//!
//! A weighed language holds of a word and a number when the word is made of at
//! most that many parts.  Leaving the number out gives an ordinary language; with
//! it, reading a word part by part is seen to come to an end.
use vstd::prelude::*;
use crate::lang::{
    back, cat, cut, front, is_word, lemma_cat_same, lemma_parts, pow, same, star, unit, Lang, Word,
};
use crate::sp::Pkt;

verus! {

/// The words of a language, each with a bound on its parts.
pub type Weighed = spec_fn(Word, nat) -> bool;

/// A larger bound holds too.
pub open spec fn upward(a: Weighed) -> bool {
    forall|w: Word, c: nat, d: nat| #![trigger a(w, c), a(w, d)] a(w, c) && c <= d ==> a(w, d)
}

/// Every word of `a` is one of `b`, within the same bound.
pub open spec fn within(n: nat, a: Weighed, b: Weighed) -> bool {
    forall|w: Word, c: nat| #![trigger a(w, c)] #![trigger b(w, c)] is_word(n, w) && a(w, c) ==> b(w, c)
}

/// The language without its bounds.
pub open spec fn erase(a: Weighed) -> Lang {
    |w: Word| exists|c: nat| #[trigger] a(w, c)
}

/// The word splits after packet `i`, at `m`, into a word of `a` within `d` parts
/// and one of `b` within the rest of `c`.
pub open spec fn weighed_cut(
    n: nat,
    a: Weighed,
    b: Weighed,
    w: Word,
    c: nat,
    i: int,
    m: Pkt,
    d: nat,
) -> bool {
    &&& 0 <= i <= w.len() - 2
    &&& m.len() == n
    &&& d <= c
    &&& a(front(w, i, m), d)
    &&& b(back(w, i, m), (c - d) as nat)
}

/// No part: one packet in, the same packet out.
pub open spec fn weighed_unit() -> Weighed {
    |w: Word, c: nat| unit()(w)
}

/// A word of `a`, and then one of `b`.
pub open spec fn weighed_cat(n: nat, a: Weighed, b: Weighed) -> Weighed {
    |w: Word, c: nat| exists|i: int, m: Pkt, d: nat| #[trigger] weighed_cut(n, a, b, w, c, i, m, d)
}

/// A word of `a`, with one part more.
pub open spec fn weighed_more(a: Weighed) -> Weighed {
    |w: Word, c: nat| c > 0 && a(w, (c - 1) as nat)
}

/// `k` words of `a`, each with one part more and the end with two.
pub open spec fn weighed_pow(n: nat, a: Weighed, k: nat) -> Weighed
    decreases k,
{
    if k == 0 {
        weighed_more(weighed_more(weighed_unit()))
    } else {
        weighed_more(weighed_cat(n, a, weighed_pow(n, a, (k - 1) as nat)))
    }
}

/// Any number of words of `a`.
pub open spec fn weighed_star(n: nat, a: Weighed) -> Weighed {
    |w: Word, c: nat| exists|k: nat| #[trigger] weighed_pow(n, a, k)(w, c)
}

/// One word of each language of the list, in order.
pub open spec fn weighed_list(n: nat, ls: Seq<Weighed>) -> Weighed
    decreases ls.len(),
{
    if ls.len() == 0 {
        weighed_unit()
    } else {
        weighed_cat(n, ls[0], weighed_list(n, ls.skip(1)))
    }
}

/// One word of each language of the list, in order.
pub open spec fn lang_list(n: nat, ls: Seq<Lang>) -> Lang
    decreases ls.len(),
{
    if ls.len() == 0 {
        unit()
    } else {
        cat(n, ls[0], lang_list(n, ls.skip(1)))
    }
}

pub proof fn lemma_cat_up(n: nat, a: Weighed, b: Weighed)
    requires
        upward(b),
    ensures
        upward(weighed_cat(n, a, b)),
{
    let r = weighed_cat(n, a, b);
    assert forall|w: Word, c: nat, d: nat| #![trigger r(w, c), r(w, d)] r(w, c) && c <= d implies r(
        w,
        d,
    ) by {
        let (i, m, e) = choose|i: int, m: Pkt, e: nat| #[trigger]
            weighed_cut(n, a, b, w, c, i, m, e);
        assert(b(back(w, i, m), (c - e) as nat));
        assert(b(back(w, i, m), (d - e) as nat));
        assert(weighed_cut(n, a, b, w, d, i, m, e));
    }
}

pub proof fn lemma_list_up(n: nat, ls: Seq<Weighed>)
    ensures
        (forall|i: int| 0 <= i < ls.len() ==> upward(#[trigger] ls[i])) ==> upward(
            weighed_list(n, ls),
        ),
    decreases ls.len(),
{
    if ls.len() > 0 {
        let t = ls.skip(1);
        lemma_list_up(n, t);
        if forall|i: int| 0 <= i < ls.len() ==> upward(#[trigger] ls[i]) {
            assert forall|i: int| 0 <= i < t.len() implies upward(#[trigger] t[i]) by {
                assert(t[i] == ls[i + 1]);
            }
            lemma_cat_up(n, ls[0], weighed_list(n, t));
        }
    }
}

pub proof fn lemma_more_up(a: Weighed)
    requires
        upward(a),
    ensures
        upward(weighed_more(a)),
{
    let r = weighed_more(a);
    assert forall|w: Word, c: nat, d: nat| #![trigger r(w, c), r(w, d)] r(w, c) && c <= d implies r(
        w,
        d,
    ) by {
        assert(a(w, (c - 1) as nat));
        assert(a(w, (d - 1) as nat));
    }
}

pub proof fn lemma_pow_up(n: nat, a: Weighed, k: nat)
    ensures
        upward(weighed_pow(n, a, k)),
    decreases k,
{
    if k > 0 {
        lemma_pow_up(n, a, (k - 1) as nat);
        lemma_cat_up(n, a, weighed_pow(n, a, (k - 1) as nat));
        lemma_more_up(weighed_cat(n, a, weighed_pow(n, a, (k - 1) as nat)));
    } else {
        lemma_more_up(weighed_unit());
        lemma_more_up(weighed_more(weighed_unit()));
    }
}

pub proof fn lemma_star_up(n: nat, a: Weighed)
    ensures
        upward(weighed_star(n, a)),
{
    let r = weighed_star(n, a);
    assert forall|w: Word, c: nat, d: nat| #![trigger r(w, c), r(w, d)] r(w, c) && c <= d implies r(
        w,
        d,
    ) by {
        let k = choose|k: nat| #[trigger] weighed_pow(n, a, k)(w, c);
        lemma_pow_up(n, a, k);
        assert(weighed_pow(n, a, k)(w, d));
    }
}

pub proof fn lemma_cat_within(n: nat, a: Weighed, b: Weighed, c: Weighed, d: Weighed)
    requires
        within(n, a, c),
        within(n, b, d),
    ensures
        within(n, weighed_cat(n, a, b), weighed_cat(n, c, d)),
{
    assert forall|w: Word, k: nat| is_word(n, w) && #[trigger] weighed_cat(n, a, b)(
        w,
        k,
    ) implies weighed_cat(n, c, d)(w, k) by {
        let (i, m, e) = choose|i: int, m: Pkt, e: nat| #[trigger]
            weighed_cut(n, a, b, w, k, i, m, e);
        lemma_parts(n, w, i, m);
        assert(a(front(w, i, m), e));
        assert(b(back(w, i, m), (k - e) as nat));
        assert(weighed_cut(n, c, d, w, k, i, m, e));
    }
}

pub proof fn lemma_more_within(n: nat, a: Weighed, b: Weighed)
    requires
        within(n, a, b),
    ensures
        within(n, weighed_more(a), weighed_more(b)),
{
    assert forall|w: Word, c: nat| is_word(n, w) && #[trigger] weighed_more(a)(
        w,
        c,
    ) implies weighed_more(b)(w, c) by {
        assert(a(w, (c - 1) as nat));
    }
}

pub proof fn lemma_pow_within(n: nat, a: Weighed, b: Weighed, k: nat)
    requires
        within(n, a, b),
    ensures
        within(n, weighed_pow(n, a, k), weighed_pow(n, b, k)),
    decreases k,
{
    if k > 0 {
        let j = (k - 1) as nat;
        lemma_pow_within(n, a, b, j);
        lemma_cat_within(n, a, weighed_pow(n, a, j), b, weighed_pow(n, b, j));
        lemma_more_within(
            n,
            weighed_cat(n, a, weighed_pow(n, a, j)),
            weighed_cat(n, b, weighed_pow(n, b, j)),
        );
    }
}

pub proof fn lemma_star_within(n: nat, a: Weighed, b: Weighed)
    requires
        within(n, a, b),
    ensures
        within(n, weighed_star(n, a), weighed_star(n, b)),
{
    assert forall|w: Word, c: nat| is_word(n, w) && #[trigger] weighed_star(n, a)(
        w,
        c,
    ) implies weighed_star(n, b)(w, c) by {
        let k = choose|k: nat| #[trigger] weighed_pow(n, a, k)(w, c);
        lemma_pow_within(n, a, b, k);
        assert(weighed_pow(n, b, k)(w, c));
    }
}

pub proof fn lemma_list_within(n: nat, a: Seq<Weighed>, b: Seq<Weighed>)
    requires
        a.len() == b.len(),
        forall|i: int| 0 <= i < a.len() ==> within(n, #[trigger] a[i], b[i]),
    ensures
        within(n, weighed_list(n, a), weighed_list(n, b)),
    decreases a.len(),
{
    if a.len() > 0 {
        let s = a.skip(1);
        let t = b.skip(1);
        assert forall|i: int| 0 <= i < s.len() implies within(n, #[trigger] s[i], t[i]) by {
            assert(s[i] == a[i + 1]);
            assert(t[i] == b[i + 1]);
        }
        lemma_list_within(n, s, t);
        lemma_cat_within(n, a[0], weighed_list(n, s), b[0], weighed_list(n, t));
    }
}

proof fn lemma_unit_left(n: nat, a: Weighed, w: Word, c: nat)
    requires
        upward(a),
        is_word(n, w),
    ensures
        weighed_cat(n, weighed_unit(), a)(w, c) == a(w, c),
{
    let u = weighed_unit();
    let l = weighed_cat(n, u, a);
    if l(w, c) {
        let (i, m, d) = choose|i: int, m: Pkt, d: nat| #[trigger]
            weighed_cut(n, u, a, w, c, i, m, d);
        lemma_parts(n, w, i, m);
        assert(i == 0);
        assert(front(w, 0, m)[1] == m);
        assert(back(w, 0, m) =~= w);
        assert(a(w, (c - d) as nat));
        assert(a(w, c));
    }
    if a(w, c) {
        assert(back(w, 0, w[0]) =~= w);
        lemma_parts(n, w, 0, w[0]);
        assert(front(w, 0, w[0])[1] == w[0]);
        assert((c - 0) as nat == c);
        assert(weighed_cut(n, u, a, w, c, 0, w[0], 0));
    }
}

proof fn lemma_unit_right(n: nat, a: Weighed, w: Word, c: nat)
    requires
        upward(a),
        is_word(n, w),
    ensures
        weighed_cat(n, a, weighed_unit())(w, c) == a(w, c),
{
    let u = weighed_unit();
    let r = weighed_cat(n, a, u);
    if r(w, c) {
        let (i, m, d) = choose|i: int, m: Pkt, d: nat| #[trigger]
            weighed_cut(n, a, u, w, c, i, m, d);
        lemma_parts(n, w, i, m);
        assert(i == w.len() - 2);
        assert(back(w, i, m)[1] == w.last());
        assert(front(w, i, m) =~= w);
        assert(a(w, d));
        assert(a(w, c));
    }
    if a(w, c) {
        let e = w.len() - 2;
        assert(front(w, e, w.last()) =~= w);
        lemma_parts(n, w, e, w.last());
        assert(back(w, e, w.last())[1] == w.last());
        assert(weighed_cut(n, a, u, w, c, e, w.last(), c));
    }
}

pub proof fn lemma_weighed_unit(n: nat, a: Weighed)
    requires
        upward(a),
    ensures
        within(n, weighed_cat(n, weighed_unit(), a), a),
        within(n, a, weighed_cat(n, weighed_unit(), a)),
        within(n, weighed_cat(n, a, weighed_unit()), a),
        within(n, a, weighed_cat(n, a, weighed_unit())),
{
    let u = weighed_unit();
    let l = weighed_cat(n, u, a);
    let r = weighed_cat(n, a, u);
    assert forall|w: Word, c: nat| is_word(n, w) && #[trigger] l(w, c) implies a(w, c) by {
        lemma_unit_left(n, a, w, c);
    }
    assert forall|w: Word, c: nat| is_word(n, w) && #[trigger] a(w, c) implies l(w, c) by {
        lemma_unit_left(n, a, w, c);
    }
    assert forall|w: Word, c: nat| is_word(n, w) && #[trigger] r(w, c) implies a(w, c) by {
        lemma_unit_right(n, a, w, c);
    }
    assert forall|w: Word, c: nat| is_word(n, w) && #[trigger] a(w, c) implies r(w, c) by {
        lemma_unit_right(n, a, w, c);
    }
}

pub proof fn lemma_weighed_assoc(n: nat, a: Weighed, b: Weighed, c: Weighed)
    ensures
        within(
            n,
            weighed_cat(n, weighed_cat(n, a, b), c),
            weighed_cat(n, a, weighed_cat(n, b, c)),
        ),
        within(
            n,
            weighed_cat(n, a, weighed_cat(n, b, c)),
            weighed_cat(n, weighed_cat(n, a, b), c),
        ),
{
    let ab = weighed_cat(n, a, b);
    let bc = weighed_cat(n, b, c);
    let l = weighed_cat(n, ab, c);
    let r = weighed_cat(n, a, bc);
    assert forall|w: Word, t: nat| is_word(n, w) && #[trigger] l(w, t) implies r(w, t) by {
        let (i, m, d) = choose|i: int, m: Pkt, d: nat| #[trigger]
            weighed_cut(n, ab, c, w, t, i, m, d);
        let u = front(w, i, m);
        lemma_parts(n, w, i, m);
        let (j, k, e) = choose|j: int, k: Pkt, e: nat| #[trigger]
            weighed_cut(n, a, b, u, d, j, k, e);
        lemma_parts(n, u, j, k);
        lemma_parts(n, w, j, k);
        assert(front(w, j, k) =~= front(u, j, k));
        let v = back(w, j, k);
        assert(front(v, i - j, m) =~= back(u, j, k));
        assert(back(v, i - j, m) =~= back(w, i, m));
        assert((((t - e) as nat) - ((d - e) as nat)) as nat == (t - d) as nat);
        assert(weighed_cut(n, b, c, v, (t - e) as nat, i - j, m, (d - e) as nat));
        assert(weighed_cut(n, a, bc, w, t, j, k, e));
    }
    assert forall|w: Word, t: nat| is_word(n, w) && #[trigger] r(w, t) implies l(w, t) by {
        let (j, k, e) = choose|j: int, k: Pkt, e: nat| #[trigger]
            weighed_cut(n, a, bc, w, t, j, k, e);
        let v = back(w, j, k);
        lemma_parts(n, w, j, k);
        let (x, m, f) = choose|x: int, m: Pkt, f: nat| #[trigger]
            weighed_cut(n, b, c, v, (t - e) as nat, x, m, f);
        lemma_parts(n, v, x, m);
        let i = j + x;
        lemma_parts(n, w, i, m);
        let u = front(w, i, m);
        assert(front(u, j, k) =~= front(w, j, k));
        assert(back(u, j, k) =~= front(v, x, m));
        assert(back(w, i, m) =~= back(v, x, m));
        assert(((e + f) - e) as nat == f);
        assert((t - (e + f)) as nat == (((t - e) as nat) - f) as nat);
        assert(weighed_cut(n, a, b, u, e + f, j, k, e));
        assert(weighed_cut(n, ab, c, w, t, i, m, e + f));
    }
}

/// The words of two lists, one after the other.
pub proof fn lemma_list_add(n: nat, a: Seq<Weighed>, b: Seq<Weighed>)
    requires
        forall|i: int| 0 <= i < a.len() ==> upward(#[trigger] a[i]),
        forall|i: int| 0 <= i < b.len() ==> upward(#[trigger] b[i]),
    ensures
        within(
            n,
            weighed_list(n, a + b),
            weighed_cat(n, weighed_list(n, a), weighed_list(n, b)),
        ),
        within(
            n,
            weighed_cat(n, weighed_list(n, a), weighed_list(n, b)),
            weighed_list(n, a + b),
        ),
    decreases a.len(),
{
    if a.len() == 0 {
        assert(a + b =~= b);
        lemma_list_up(n, b);
        lemma_weighed_unit(n, weighed_list(n, b));
    } else {
        let t = a.skip(1);
        assert forall|i: int| 0 <= i < t.len() implies upward(#[trigger] t[i]) by {
            assert(t[i] == a[i + 1]);
        }
        lemma_list_add(n, t, b);
        assert((a + b).skip(1) =~= t + b);
        assert((a + b)[0] == a[0]);
        let x = weighed_list(n, t);
        let y = weighed_list(n, b);
        lemma_weighed_assoc(n, a[0], x, y);
        lemma_cat_within(n, a[0], weighed_list(n, t + b), a[0], weighed_cat(n, x, y));
        lemma_cat_within(n, a[0], weighed_cat(n, x, y), a[0], weighed_list(n, t + b));
    }
}

pub proof fn lemma_list_one(n: nat, a: Weighed)
    requires
        upward(a),
    ensures
        within(n, weighed_list(n, seq![a]), a),
        within(n, a, weighed_list(n, seq![a])),
{
    let s = seq![a];
    let t = s.skip(1);
    assert(s.len() == 1 && s[0] == a && t.len() == 0);
    assert(weighed_list(n, t) == weighed_unit());
    assert(weighed_list(n, s) == weighed_cat(n, a, weighed_unit()));
    lemma_weighed_unit(n, a);
}

// ---- leaving the bounds out --------------------------------------------------------

pub proof fn lemma_erase_cat(n: nat, a: Weighed, b: Weighed)
    ensures
        same(n, erase(weighed_cat(n, a, b)), cat(n, erase(a), erase(b))),
{
    let l = erase(weighed_cat(n, a, b));
    let r = cat(n, erase(a), erase(b));
    assert forall|w: Word| is_word(n, w) implies l(w) == r(w) by {
        if l(w) {
            let c = choose|c: nat| #[trigger] weighed_cat(n, a, b)(w, c);
            let (i, m, d) = choose|i: int, m: Pkt, d: nat| #[trigger]
                weighed_cut(n, a, b, w, c, i, m, d);
            assert(a(front(w, i, m), d));
            assert(b(back(w, i, m), (c - d) as nat));
            assert(cut(n, erase(a), erase(b), w, i, m));
        }
        if r(w) {
            let (i, m) = choose|i: int, m: Pkt| #[trigger] cut(n, erase(a), erase(b), w, i, m);
            let d = choose|d: nat| #[trigger] a(front(w, i, m), d);
            let e = choose|e: nat| #[trigger] b(back(w, i, m), e);
            assert(((d + e) - d) as nat == e);
            assert(weighed_cut(n, a, b, w, d + e, i, m, d));
            assert(weighed_cat(n, a, b)(w, d + e));
        }
    }
}

pub proof fn lemma_erase_more(a: Weighed, w: Word)
    ensures
        erase(weighed_more(a))(w) == erase(a)(w),
{
    if erase(weighed_more(a))(w) {
        let c = choose|c: nat| #[trigger] weighed_more(a)(w, c);
        assert(a(w, (c - 1) as nat));
    }
    if erase(a)(w) {
        let c = choose|c: nat| #[trigger] a(w, c);
        assert(((c + 1) - 1) as nat == c);
        assert(weighed_more(a)(w, c + 1));
    }
}

pub proof fn lemma_erase_pow(n: nat, a: Weighed, k: nat)
    ensures
        same(n, erase(weighed_pow(n, a, k)), pow(n, erase(a), k)),
    decreases k,
{
    if k == 0 {
        assert forall|w: Word| is_word(n, w) implies erase(weighed_pow(n, a, k))(w) == pow(
            n,
            erase(a),
            k,
        )(w) by {
            lemma_erase_more(weighed_unit(), w);
            lemma_erase_more(weighed_more(weighed_unit()), w);
            if unit()(w) {
                assert(weighed_unit()(w, 0));
            }
        }
    } else {
        let j = (k - 1) as nat;
        lemma_erase_pow(n, a, j);
        lemma_erase_cat(n, a, weighed_pow(n, a, j));
        lemma_cat_same(
            n,
            erase(a),
            erase(weighed_pow(n, a, j)),
            erase(a),
            pow(n, erase(a), j),
        );
        assert forall|w: Word| is_word(n, w) implies erase(weighed_pow(n, a, k))(w) == pow(
            n,
            erase(a),
            k,
        )(w) by {
            lemma_erase_more(weighed_cat(n, a, weighed_pow(n, a, j)), w);
            assert(erase(weighed_cat(n, a, weighed_pow(n, a, j)))(w) == cat(
                n,
                erase(a),
                erase(weighed_pow(n, a, j)),
            )(w));
        }
    }
}

pub proof fn lemma_erase_star(n: nat, a: Weighed)
    ensures
        same(n, erase(weighed_star(n, a)), star(n, erase(a))),
{
    assert forall|w: Word| is_word(n, w) implies erase(weighed_star(n, a))(w) == star(
        n,
        erase(a),
    )(w) by {
        if erase(weighed_star(n, a))(w) {
            let c = choose|c: nat| #[trigger] weighed_star(n, a)(w, c);
            let k = choose|k: nat| #[trigger] weighed_pow(n, a, k)(w, c);
            lemma_erase_pow(n, a, k);
            assert(erase(weighed_pow(n, a, k))(w));
            assert(pow(n, erase(a), k)(w));
        }
        if star(n, erase(a))(w) {
            let k = choose|k: nat| #[trigger] pow(n, erase(a), k)(w);
            lemma_erase_pow(n, a, k);
            assert(erase(weighed_pow(n, a, k))(w));
            let c = choose|c: nat| #[trigger] weighed_pow(n, a, k)(w, c);
            assert(weighed_star(n, a)(w, c));
        }
    }
}

/// Each language of a list without its bounds.
pub open spec fn erased(ls: Seq<Weighed>) -> Seq<Lang> {
    ls.map_values(|a: Weighed| erase(a))
}

pub proof fn lemma_erase_list(n: nat, ls: Seq<Weighed>)
    ensures
        same(n, erase(weighed_list(n, ls)), lang_list(n, erased(ls))),
    decreases ls.len(),
{
    if ls.len() == 0 {
        assert forall|w: Word| is_word(n, w) implies erase(weighed_list(n, ls))(w) == lang_list(
            n,
            erased(ls),
        )(w) by {
            if unit()(w) {
                assert(weighed_list(n, ls)(w, 0));
            }
        }
    } else {
        let t = ls.skip(1);
        lemma_erase_list(n, t);
        assert(erased(ls).skip(1) =~= erased(t));
        lemma_erase_cat(n, ls[0], weighed_list(n, t));
        lemma_cat_same(
            n,
            erase(ls[0]),
            erase(weighed_list(n, t)),
            erase(ls[0]),
            lang_list(n, erased(t)),
        );
        assert(erased(ls)[0] == erase(ls[0]));
    }
}

// ---- the same words within no more parts ------------------------------------------

/// The same words, in `b` within no more parts than in `a`.
pub open spec fn tight(n: nat, a: Weighed, b: Weighed) -> bool {
    &&& within(n, a, b)
    &&& forall|w: Word| is_word(n, w) && #[trigger] erase(b)(w) ==> erase(a)(w)
}

pub proof fn lemma_tight_both(n: nat, a: Weighed, b: Weighed)
    requires
        within(n, a, b),
        within(n, b, a),
    ensures
        tight(n, a, b),
{
    assert forall|w: Word| is_word(n, w) && #[trigger] erase(b)(w) implies erase(a)(w) by {
        let c = choose|c: nat| #[trigger] b(w, c);
        assert(a(w, c));
    }
}

pub proof fn lemma_tight_trans(n: nat, a: Weighed, b: Weighed, c: Weighed)
    requires
        tight(n, a, b),
        tight(n, b, c),
    ensures
        tight(n, a, c),
{
    assert forall|w: Word| is_word(n, w) && #[trigger] erase(c)(w) implies erase(a)(w) by {
        assert(erase(b)(w));
    }
    assert forall|w: Word, k: nat| is_word(n, w) && #[trigger] a(w, k) implies c(w, k) by {
        assert(b(w, k));
    }
}

pub proof fn lemma_tight_cat(n: nat, a: Weighed, b: Weighed, c: Weighed, d: Weighed)
    requires
        tight(n, a, c),
        tight(n, b, d),
    ensures
        tight(n, weighed_cat(n, a, b), weighed_cat(n, c, d)),
{
    lemma_cat_within(n, a, b, c, d);
    lemma_erase_cat(n, a, b);
    lemma_erase_cat(n, c, d);
    let x = weighed_cat(n, a, b);
    let y = weighed_cat(n, c, d);
    assert forall|w: Word| is_word(n, w) && #[trigger] erase(y)(w) implies erase(x)(w) by {
        assert(cat(n, erase(c), erase(d))(w));
        let (i, m) = choose|i: int, m: Pkt| #[trigger] cut(n, erase(c), erase(d), w, i, m);
        lemma_parts(n, w, i, m);
        assert(erase(c)(front(w, i, m)));
        assert(erase(d)(back(w, i, m)));
        assert(cut(n, erase(a), erase(b), w, i, m));
        assert(cat(n, erase(a), erase(b))(w));
    }
}

/// The words of the list with one language more at its end.
pub proof fn lemma_list_push(n: nat, ls: Seq<Weighed>, a: Weighed)
    requires
        forall|i: int| 0 <= i < ls.len() ==> upward(#[trigger] ls[i]),
        upward(a),
    ensures
        tight(n, weighed_list(n, ls.push(a)), weighed_cat(n, weighed_list(n, ls), a)),
        tight(n, weighed_cat(n, weighed_list(n, ls), a), weighed_list(n, ls.push(a))),
{
    let s = seq![a];
    assert(s.len() == 1 && s[0] == a);
    assert(ls.push(a) =~= ls + s);
    lemma_list_add(n, ls, s);
    lemma_list_one(n, a);
    let x = weighed_list(n, ls);
    let y = weighed_list(n, ls.push(a));
    let z = weighed_cat(n, x, weighed_list(n, s));
    let t = weighed_cat(n, x, a);
    lemma_cat_within(n, x, weighed_list(n, s), x, a);
    lemma_cat_within(n, x, a, x, weighed_list(n, s));
    lemma_tight_both(n, y, z);
    lemma_tight_both(n, z, y);
    lemma_tight_both(n, z, t);
    lemma_tight_both(n, t, z);
    lemma_tight_trans(n, y, z, t);
    lemma_tight_trans(n, t, z, y);
}

} // verus!
