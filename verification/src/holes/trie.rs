//! Generalising examples to a layered decision diagram.
//!
//! An example is a path of decisions and a label.  The examples are put into a
//! trie.  From the root down, subtries of one level that do not contradict each
//! other are then merged, each into the first that it goes with, so that what is
//! known under one prefix is used under another.  A branch that no example takes
//! goes where the first branch that one takes goes.
use vstd::prelude::*;

verus! {

/// A trie of decisions.  A leaf has the label of the paths that end there.
pub enum Trie {
    Leaf(bool),
    Branch(Vec<Option<Box<Trie>>>),
}

/// The label of a path, if the trie has it.
pub open spec fn lookup(t: Trie, path: Seq<usize>) -> Option<bool>
    decreases path.len(),
{
    match t {
        Trie::Leaf(b) => if path.len() == 0 {
            Some(b)
        } else {
            None
        },
        Trie::Branch(ch) => if path.len() > 0 && path[0] < ch@.len() {
            match ch@[path[0] as int] {
                Some(c) => lookup(*c, path.skip(1)),
                None => None,
            }
        } else {
            None
        },
    }
}

/// The label of a path in a trie that may be missing.
pub open spec fn lookup_in(t: Option<Box<Trie>>, path: Seq<usize>) -> Option<bool> {
    match t {
        Some(c) => lookup(*c, path),
        None => None,
    }
}

/// Every path of the trie makes a decision of each of the widths, and every
/// branch has a path.
pub open spec fn proper(t: Trie, ws: Seq<usize>) -> bool
    decreases ws.len(), 0nat,
{
    if ws.len() == 0 {
        t is Leaf
    } else {
        match t {
            Trie::Leaf(_) => false,
            Trie::Branch(ch) => {
                &&& ch@.len() == ws[0]
                &&& exists|i: int| 0 <= i < ch@.len() && (#[trigger] ch@[i]) is Some
                &&& forall|i: int|
                    0 <= i < ch@.len() ==> proper_in(#[trigger] ch@[i], ws.skip(1))
            },
        }
    }
}

pub open spec fn proper_in(t: Option<Box<Trie>>, ws: Seq<usize>) -> bool
    decreases ws.len(), 1nat,
{
    t matches Some(c) ==> proper(*c, ws)
}

/// A path that makes a decision of each of the widths.
pub open spec fn path_ok(path: Seq<usize>, ws: Seq<usize>) -> bool {
    &&& path.len() == ws.len()
    &&& forall|i: int| 0 <= i < path.len() ==> #[trigger] path[i] < ws[i]
}

/// The tries have no path with different labels.
pub open spec fn agree(a: Trie, b: Trie) -> bool {
    forall|q: Seq<usize>|
        #![trigger lookup(a, q)]
        #![trigger lookup(b, q)]
        lookup(a, q) is Some && lookup(b, q) is Some ==> lookup(a, q) == lookup(b, q)
}

// ---- what the diagram says -----------------------------------------------------------

/// What is known: the labels of some paths.
pub type Known = Map<Seq<usize>, bool>;

/// What the trie knows.
pub open spec fn known_of(t: Trie) -> Known {
    Map::new(|q: Seq<usize>| lookup(t, q) is Some, |q: Seq<usize>| lookup(t, q).unwrap())
}

/// What each trie knows.
pub open spec fn knowns(v: Seq<Box<Trie>>) -> Seq<Known> {
    Seq::new(v.len(), |i: int| known_of(*v[i]))
}

/// What is known after branch `b`.
pub open spec fn after(m: Known, b: usize) -> Known {
    Map::new(|q: Seq<usize>| m.contains_key(seq![b] + q), |q: Seq<usize>| m[seq![b] + q])
}

/// Nothing is known.
pub open spec fn nothing(m: Known) -> bool {
    forall|q: Seq<usize>| !(#[trigger] m.contains_key(q))
}

/// No path has different labels.
pub open spec fn go_together(a: Known, b: Known) -> bool {
    forall|q: Seq<usize>|
        #![trigger a.contains_key(q)]
        #![trigger b.contains_key(q)]
        a.contains_key(q) && b.contains_key(q) ==> a[q] == b[q]
}

/// The first class from `k` on that goes together with what is known; else one more.
pub open spec fn fit(classes: Seq<Known>, m: Known, k: int) -> int
    decreases classes.len() - k,
{
    if k < 0 || k >= classes.len() || go_together(classes[k], m) {
        k
    } else {
        fit(classes, m, k + 1)
    }
}

/// The classes with what is known merged into the first that it goes together with.
pub open spec fn put(classes: Seq<Known>, m: Known) -> Seq<Known> {
    let k = fit(classes, m, 0);
    if k < classes.len() {
        classes.update(k, m.union_prefer_right(classes[k]))
    } else {
        classes.push(m)
    }
}

/// The classes with what is known after the first `b` branches put into them, and the
/// class of each branch that something is known after.
pub open spec fn branched(m: Known, classes: Seq<Known>, b: int) -> (
    Seq<Known>,
    Seq<Option<usize>>,
)
    decreases b,
{
    if b <= 0 {
        (classes, Seq::empty())
    } else {
        let r = branched(m, classes, b - 1);
        let s = after(m, (b - 1) as usize);
        if nothing(s) {
            (r.0, r.1.push(None))
        } else {
            (put(r.0, s), r.1.push(Some(fit(r.0, s, 0) as usize)))
        }
    }
}

/// The first class that is there, from branch `i` on.
pub open spec fn first_there(ss: Seq<Option<usize>>, i: int) -> usize
    decreases ss.len() - i,
{
    if i < 0 || i >= ss.len() {
        0
    } else {
        match ss[i] {
            Some(k) => k,
            None => first_there(ss, i + 1),
        }
    }
}

/// The class of each branch; that of the first where none is there.
pub open spec fn filled_in(ss: Seq<Option<usize>>) -> Seq<usize> {
    Seq::new(
        ss.len(),
        |i: int|
            match ss[i] {
                Some(k) => k,
                None => first_there(ss, 0),
            },
    )
}

/// The rows of the first `i` classes of a level with branches to `w`, and the classes of
/// the next level.
pub open spec fn leveled(level: Seq<Known>, w: int, i: int) -> (Seq<Seq<usize>>, Seq<Known>)
    decreases i,
{
    if i <= 0 {
        (Seq::empty(), Seq::empty())
    } else {
        let before = leveled(level, w, i - 1);
        let r = branched(level[i - 1], before.1, w);
        (before.0.push(filled_in(r.1)), r.0)
    }
}

/// The label of a path from class `c` of a level on, in the diagram that comes of merging
/// what goes together, level by level.
pub open spec fn merged(level: Seq<Known>, c: int, ws: Seq<usize>, q: Seq<usize>) -> bool
    decreases ws.len(),
{
    if ws.len() == 0 {
        level[c][Seq::empty()]
    } else {
        let r = leveled(level, ws[0] as int, level.len() as int);
        merged(r.1, r.0[c][q[0] as int] as int, ws.skip(1), q.skip(1))
    }
}

/// Tries agree if what they know goes together.
proof fn lemma_together(a: Trie, b: Trie)
    ensures
        agree(a, b) == go_together(known_of(a), known_of(b)),
{
    let x = known_of(a);
    let y = known_of(b);
    if agree(a, b) {
        assert forall|q: Seq<usize>| #![trigger x.contains_key(q)]
            x.contains_key(q) && y.contains_key(q) implies x[q] == y[q] by {
            assert(lookup(a, q) == lookup(b, q));
        }
    }
    if go_together(x, y) {
        assert forall|q: Seq<usize>|
            #![trigger lookup(a, q)]
            #![trigger lookup(b, q)]
            lookup(a, q) is Some && lookup(b, q) is Some implies lookup(a, q) == lookup(b, q) by {
            assert(x.contains_key(q) && y.contains_key(q));
        }
    }
}

/// A trie knows something.
proof fn lemma_something(t: Trie, ws: Seq<usize>)
    requires
        proper(t, ws),
    ensures
        !nothing(known_of(t)),
    decreases ws.len(),
{
    let m = known_of(t);
    if ws.len() == 0 {
        assert(m.contains_key(Seq::empty()));
    } else {
        let ch = t->Branch_0@;
        let i = choose|i: int| 0 <= i < ch.len() && (#[trigger] ch[i]) is Some;
        assert(proper_in(ch[i], ws.skip(1)));
        let c = *ch[i].unwrap();
        lemma_something(c, ws.skip(1));
        let q = choose|q: Seq<usize>| #[trigger] known_of(c).contains_key(q);
        let p = seq![i as usize] + q;
        assert(ch.len() == ws[0]);
        assert(p.skip(1) =~= q);
        assert(lookup(t, p) == lookup(c, q));
        assert(m.contains_key(p));
    }
}

/// What a trie knows after a branch is what the branch knows.
proof fn lemma_after(t: Trie, b: usize)
    requires
        t is Branch,
        b < t->Branch_0@.len(),
    ensures
        match t->Branch_0@[b as int] {
            Some(c) => after(known_of(t), b) == known_of(*c),
            None => nothing(after(known_of(t), b)),
        },
{
    let m = after(known_of(t), b);
    assert forall|q: Seq<usize>| lookup(t, #[trigger] (seq![b] + q)) == lookup_in(
        t->Branch_0@[b as int],
        q,
    ) by {
        let p = seq![b] + q;
        assert(p.skip(1) =~= q);
        assert(p[0] == b);
    }
    match t->Branch_0@[b as int] {
        Some(c) => {
            assert(m =~= known_of(*c));
        },
        None => {
            assert forall|q: Seq<usize>| !(#[trigger] m.contains_key(q)) by {
                assert(lookup(t, seq![b] + q) is None);
            }
        },
    }
}

/// The slot of a list, which is left empty.
fn take_slot(ch: &mut Vec<Option<Box<Trie>>>, i: usize) -> (r: Option<Box<Trie>>)
    requires
        i < old(ch)@.len(),
    ensures
        r == old(ch)@[i as int],
        final(ch)@ == old(ch)@.update(i as int, None),
{
    ch.push(None);
    let r = ch.swap_remove(i);
    assert(ch@ =~= old(ch)@.update(i as int, None));
    r
}

/// No branches.
fn empty_slots(n: usize) -> (ch: Vec<Option<Box<Trie>>>)
    ensures
        ch@.len() == n,
        forall|i: int| 0 <= i < n ==> (#[trigger] ch@[i]) is None,
{
    let mut ch: Vec<Option<Box<Trie>>> = Vec::new();
    let mut i: usize = 0;
    while i < n
        invariant
            i <= n,
            ch@.len() == i,
            forall|j: int| 0 <= j < i ==> (#[trigger] ch@[j]) is None,
        decreases n - i,
    {
        ch.push(None);
        i = i + 1;
    }
    ch
}

/// The trie with one path more, from depth `d` on.  `None` if the trie has the
/// path with the other label.
fn insert(t: Option<Box<Trie>>, path: &Vec<usize>, d: usize, ws: &Vec<usize>, label: bool) -> (r:
    Option<Box<Trie>>)
    requires
        path_ok(path@, ws@),
        d <= ws@.len(),
        proper_in(t, ws@.skip(d as int)),
    ensures
        r is None <==> lookup_in(t, path@.skip(d as int)) == Some(!label),
        r matches Some(c) ==> proper(*c, ws@.skip(d as int)) && lookup(
            *c,
            path@.skip(d as int),
        ) == Some(label) && forall|q: Seq<usize>|
            #![trigger lookup(*c, q)]
            q != path@.skip(d as int) ==> lookup(*c, q) == lookup_in(t, q),
    decreases ws.len() - d,
{
    let ghost p = path@.skip(d as int);
    let ghost w = ws@.skip(d as int);
    if d == ws.len() {
        assert(p.len() == 0);
        match t {
            Some(c) => match *c {
                Trie::Leaf(b) => if b == label {
                    let r = Box::new(Trie::Leaf(b));
                    assert forall|q: Seq<usize>| #![trigger lookup(*r, q)] q != p implies lookup(
                        *r,
                        q,
                    ) == lookup_in(t, q) by {}
                    Some(r)
                } else {
                    None
                },
                Trie::Branch(_) => {
                    assert(false);
                    None
                },
            },
            None => {
                let r = Box::new(Trie::Leaf(label));
                proof {
                    assert forall|q: Seq<usize>| #![trigger lookup(*r, q)] q != p implies lookup(
                        *r,
                        q,
                    ) == lookup_in(t, q) by {
                        if q.len() == 0 {
                            assert(q =~= p);
                        }
                    }
                }
                Some(r)
            },
        }
    } else {
        let b = path[d];
        proof {
            assert(p[0] == b);
            assert(w[0] == ws@[d as int]);
            assert(p.skip(1) =~= path@.skip(d + 1));
            assert(w.skip(1) =~= ws@.skip(d + 1));
        }
        let mut ch: Vec<Option<Box<Trie>>> = match t {
            Some(c) => match *c {
                Trie::Branch(ch) => ch,
                Trie::Leaf(_) => {
                    assert(false);
                    Vec::new()
                },
            },
            None => empty_slots(ws[d]),
        };
        let ghost ch0 = ch@;
        proof {
            assert forall|q: Seq<usize>| #[trigger] lookup_in(t, q) == (if q.len() > 0 && q[0]
                < ch0.len() {
                lookup_in(ch0[q[0] as int], q.skip(1))
            } else {
                None
            }) by {}
            assert(proper_in(ch0[b as int], w.skip(1)));
        }
        let slot = take_slot(&mut ch, b);
        let sub = insert(slot, path, d + 1, ws, label);
        match sub {
            None => {
                assert(lookup_in(t, p) == Some(!label));
                None
            },
            Some(c) => {
                let ghost c1 = *c;
                ch.set(b, Some(c));
                let ghost ch1 = ch@;
                let r = Box::new(Trie::Branch(ch));
                proof {
                    assert(lookup_in(t, p) == lookup_in(ch0[b as int], p.skip(1)));
                    assert(ch1[b as int] is Some);
                    assert forall|i: int| 0 <= i < ch1.len() implies proper_in(
                        #[trigger] ch1[i],
                        w.skip(1),
                    ) by {
                        if i != b {
                            assert(ch1[i] == ch0[i]);
                        }
                    }
                    assert(lookup(*r, p) == lookup(c1, p.skip(1)));
                    assert forall|q: Seq<usize>| #![trigger lookup(*r, q)] q != p implies lookup(
                        *r,
                        q,
                    ) == lookup_in(t, q) by {
                        if q.len() > 0 && q[0] < ch1.len() {
                            if q[0] == b {
                                if q.skip(1) == p.skip(1) {
                                    assert(q =~= seq![b] + q.skip(1));
                                    assert(p =~= seq![b] + p.skip(1));
                                    assert(false);
                                }
                                assert(lookup(*r, q) == lookup(c1, q.skip(1)));
                            } else {
                                assert(ch1[q[0] as int] == ch0[q[0] as int]);
                            }
                        }
                    }
                }
                Some(r)
            },
        }
    }
}

/// Whether the tries have no path with different labels.
fn compatible(a: &Trie, b: &Trie, Ghost(ws): Ghost<Seq<usize>>) -> (r: bool)
    requires
        proper(*a, ws),
        proper(*b, ws),
    ensures
        r == agree(*a, *b),
    decreases ws.len(),
{
    match (a, b) {
        (Trie::Leaf(x), Trie::Leaf(y)) => {
            proof {
                assert(lookup(*a, Seq::empty()) == Some(*x));
                assert(lookup(*b, Seq::empty()) == Some(*y));
            }
            *x == *y
        },
        (Trie::Branch(ca), Trie::Branch(cb)) => {
            let mut i: usize = 0;
            while i < ca.len()
                invariant
                    i <= ca@.len(),
                    ca@.len() == cb@.len(),
                    ws.len() > 0,
                    *a == Trie::Branch(*ca),
                    *b == Trie::Branch(*cb),
                    forall|j: int| 0 <= j < ca@.len() ==> proper_in(#[trigger] ca@[j], ws.skip(1)),
                    forall|j: int| 0 <= j < cb@.len() ==> proper_in(#[trigger] cb@[j], ws.skip(1)),
                    forall|j: int|
                        0 <= j < i && (#[trigger] ca@[j]) is Some && cb@[j] is Some ==> agree(
                            *ca@[j].unwrap(),
                            *cb@[j].unwrap(),
                        ),
                decreases ca.len() - i,
            {
                assert(proper_in(ca@[i as int], ws.skip(1)));
                assert(proper_in(cb@[i as int], ws.skip(1)));
                if let (Some(x), Some(y)) = (&ca[i], &cb[i]) {
                    if !compatible(x, y, Ghost(ws.skip(1))) {
                        proof {
                            let q = choose|q: Seq<usize>|
                                #![trigger lookup(**x, q)]
                                lookup(**x, q) is Some && lookup(**y, q) is Some && lookup(**x, q)
                                    != lookup(**y, q);
                            let p = seq![i] + q;
                            assert(p.skip(1) =~= q);
                            assert(lookup(*a, p) == lookup(**x, q));
                            assert(lookup(*b, p) == lookup(**y, q));
                        }
                        return false;
                    }
                }
                i = i + 1;
            }
            proof {
                assert forall|q: Seq<usize>|
                    #![trigger lookup(*a, q)]
                    #![trigger lookup(*b, q)]
                    lookup(*a, q) is Some && lookup(*b, q) is Some implies lookup(*a, q) == lookup(
                    *b,
                    q,
                ) by {
                    let k = q[0] as int;
                    let x = *ca@[k].unwrap();
                    let y = *cb@[k].unwrap();
                    assert(agree(x, y));
                    assert(lookup(*a, q) == lookup(x, q.skip(1)));
                    assert(lookup(*b, q) == lookup(y, q.skip(1)));
                }
            }
            true
        },
        _ => {
            assert(false);
            false
        },
    }
}

/// The paths of both tries, which do not contradict each other.
fn merge(a: Box<Trie>, b: Box<Trie>, Ghost(ws): Ghost<Seq<usize>>) -> (r: Box<Trie>)
    requires
        proper(*a, ws),
        proper(*b, ws),
        agree(*a, *b),
    ensures
        proper(*r, ws),
        forall|q: Seq<usize>|
            #![trigger lookup(*r, q)]
            lookup(*r, q) == (if lookup(*a, q) is Some {
                lookup(*a, q)
            } else {
                lookup(*b, q)
            }),
    decreases ws.len(),
{
    let ghost a0 = *a;
    let ghost b0 = *b;
    match (*a, *b) {
        (Trie::Branch(ca), Trie::Branch(cb)) => {
            let ghost ca0 = ca@;
            let ghost cb0 = cb@;
            let mut ca = ca;
            let mut cb = cb;
            let mut i: usize = 0;
            while i < ca.len()
                invariant
                    i <= ca@.len(),
                    ca@.len() == ca0.len(),
                    cb@.len() == cb0.len(),
                    ca0.len() == cb0.len(),
                    ws.len() > 0,
                    a0 is Branch,
                    b0 is Branch,
                    a0->Branch_0@ == ca0,
                    b0->Branch_0@ == cb0,
                    agree(a0, b0),
                    forall|j: int| 0 <= j < ca0.len() ==> proper_in(#[trigger] ca0[j], ws.skip(1)),
                    forall|j: int| 0 <= j < cb0.len() ==> proper_in(#[trigger] cb0[j], ws.skip(1)),
                    forall|j: int| i <= j < ca0.len() ==> #[trigger] ca@[j] == ca0[j],
                    forall|j: int| i <= j < cb0.len() ==> #[trigger] cb@[j] == cb0[j],
                    forall|j: int| 0 <= j < i ==> proper_in(#[trigger] ca@[j], ws.skip(1)),
                    forall|j: int|
                        0 <= j < i ==> ((#[trigger] ca@[j]) is Some <==> ca0[j] is Some || cb0[j]
                            is Some),
                    forall|j: int, q: Seq<usize>|
                        #![trigger lookup_in(ca@[j], q)]
                        0 <= j < i ==> lookup_in(ca@[j], q) == (if lookup_in(ca0[j], q) is Some {
                            lookup_in(ca0[j], q)
                        } else {
                            lookup_in(cb0[j], q)
                        }),
                decreases ca.len() - i,
            {
                proof {
                    assert(ca@[i as int] == ca0[i as int]);
                    assert(cb@[i as int] == cb0[i as int]);
                    assert(proper_in(ca0[i as int], ws.skip(1)));
                    assert(proper_in(cb0[i as int], ws.skip(1)));
                }
                let x = take_slot(&mut ca, i);
                let y = take_slot(&mut cb, i);
                let z: Option<Box<Trie>> = match (x, y) {
                    (Some(u), Some(v)) => {
                        proof {
                            assert forall|q: Seq<usize>|
                                #![trigger lookup(*u, q)]
                                #![trigger lookup(*v, q)]
                                lookup(*u, q) is Some && lookup(*v, q) is Some implies lookup(
                                *u,
                                q,
                            ) == lookup(*v, q) by {
                                let p = seq![i] + q;
                                assert(p.skip(1) =~= q);
                                assert(lookup(a0, p) == lookup(*u, q));
                                assert(lookup(b0, p) == lookup(*v, q));
                            }
                        }
                        Some(merge(u, v, Ghost(ws.skip(1))))
                    },
                    (Some(u), None) => Some(u),
                    (None, v) => v,
                };
                ca.set(i, z);
                i = i + 1;
            }
            let ghost ca1 = ca@;
            let r = Box::new(Trie::Branch(ca));
            proof {
                let k = choose|k: int| 0 <= k < ca0.len() && (#[trigger] ca0[k]) is Some;
                assert(ca1[k] is Some);
                assert forall|q: Seq<usize>|
                    #![trigger lookup(*r, q)]
                    lookup(*r, q) == (if lookup(a0, q) is Some {
                        lookup(a0, q)
                    } else {
                        lookup(b0, q)
                    }) by {
                    if q.len() > 0 && q[0] < ca1.len() {
                        let j = q[0] as int;
                        let p = q.skip(1);
                        assert(lookup(*r, q) == lookup_in(ca1[j], p));
                        assert(lookup(a0, q) == lookup_in(ca0[j], p));
                        assert(lookup(b0, q) == lookup_in(cb0[j], p));
                    }
                }
            }
            r
        },
        (x, _) => {
            proof {
                assert(x is Leaf);
                assert forall|q: Seq<usize>|
                    #![trigger lookup(x, q)]
                    lookup(x, q) == (if lookup(a0, q) is Some {
                        lookup(a0, q)
                    } else {
                        lookup(b0, q)
                    }) by {
                    if q.len() > 0 {
                        assert(lookup(b0, q) is None);
                    }
                }
            }
            Box::new(x)
        },
    }
}


// ---- levels ----------------------------------------------------------------------------

/// A layered decision diagram: entry `rows[d][c][b]` is the class of level `d + 1`
/// that branch `b` of class `c` of level `d` leads to, and the classes of the last
/// level have labels.  The diagram begins at class 0 of level 0.
pub struct Layers {
    pub rows: Vec<Vec<Vec<usize>>>,
    pub leaves: Vec<bool>,
}

impl Layers {
    /// The number of classes of level `d`.
    pub open spec fn count(&self, d: int) -> nat {
        if d < self.rows@.len() {
            self.rows@[d]@.len()
        } else {
            self.leaves@.len()
        }
    }

    /// Row `c` of level `d` has an entry for each branch, all of them classes.
    pub open spec fn row_wf(&self, ws: Seq<usize>, d: int, c: int) -> bool {
        &&& self.rows@[d]@[c]@.len() == ws[d]
        &&& forall|b: int|
            0 <= b < self.rows@[d]@[c]@.len() ==> #[trigger] self.rows@[d]@[c]@[b] < self.count(
                d + 1,
            )
    }

    pub open spec fn wf(&self, ws: Seq<usize>) -> bool {
        &&& self.rows@.len() == ws.len()
        &&& self.count(0) >= 1
        &&& forall|d: int, c: int|
            0 <= d < ws.len() && 0 <= c < self.rows@[d]@.len() ==> #[trigger] self.row_wf(ws, d, c)
    }

    /// The class of level `d + path.len()` that the path leads to from class `c` of
    /// level `d`.
    pub open spec fn class(&self, d: int, c: int, path: Seq<usize>) -> int
        decreases path.len(),
    {
        if path.len() == 0 {
            c
        } else {
            self.class(d + 1, self.rows@[d]@[c]@[path[0] as int] as int, path.skip(1))
        }
    }

    /// The label that the path leads to from class `c` of level `d`.
    pub open spec fn label(&self, d: int, c: int, path: Seq<usize>) -> bool {
        self.leaves@[self.class(d, c, path)]
    }
}

/// The list of tries of one level.
pub open spec fn all_proper(v: Seq<Box<Trie>>, ws: Seq<usize>) -> bool {
    forall|i: int| 0 <= i < v.len() ==> proper(*#[trigger] v[i], ws)
}

/// What the slot has is also in the class that is given for it.
pub open spec fn slot_kept(
    t: Option<Box<Trie>>,
    c: Option<usize>,
    classes: Seq<Box<Trie>>,
) -> bool {
    match t {
        Some(s) => c matches Some(k) && k < classes.len() && forall|q: Seq<usize>|
            #![trigger lookup(*s, q)]
            lookup(*s, q) is Some ==> lookup(*classes[k as int], q) == lookup(*s, q),
        None => c is None,
    }
}

/// The classes grew: what each has it keeps.
pub open spec fn grown(a: Seq<Box<Trie>>, b: Seq<Box<Trie>>) -> bool {
    &&& a.len() <= b.len()
    &&& forall|k: int, q: Seq<usize>|
        #![trigger lookup(*b[k], q)]
        0 <= k < a.len() && lookup(*a[k], q) is Some ==> lookup(*b[k], q) == lookup(*a[k], q)
}

/// Merge a trie into the first class that it agrees with, or make it a new class.
fn classify(classes: &mut Vec<Box<Trie>>, t: Box<Trie>, Ghost(ws): Ghost<Seq<usize>>) -> (k: usize)
    requires
        all_proper(old(classes)@, ws),
        proper(*t, ws),
    ensures
        all_proper(final(classes)@, ws),
        grown(old(classes)@, final(classes)@),
        slot_kept(Some(t), Some(k), final(classes)@),
        forall|j: int|
            0 <= j < k ==> !agree(#[trigger] *old(classes)@[j], *t),
        k < old(classes)@.len() ==> agree(*old(classes)@[k as int], *t),
        k == old(classes)@.len() || final(classes)@.len() == old(classes)@.len(),
        k <= old(classes)@.len(),
        k == fit(knowns(old(classes)@), known_of(*t), 0),
        knowns(final(classes)@) == put(knowns(old(classes)@), known_of(*t)),
{
    let ghost c0 = classes@;
    let mut k: usize = 0;
    while k < classes.len()
        invariant
            classes@ == c0,
            k <= c0.len(),
            c0 == old(classes)@,
            all_proper(c0, ws),
            proper(*t, ws),
            forall|j: int| 0 <= j < k ==> !agree(#[trigger] *c0[j], *t),
            fit(knowns(c0), known_of(*t), 0) == fit(knowns(c0), known_of(*t), k as int),
        decreases classes.len() - k,
    {
        assert(proper(*c0[k as int], ws));
        proof {
            lemma_together(*c0[k as int], *t);
            assert(knowns(c0)[k as int] == known_of(*c0[k as int]));
        }
        if compatible(&classes[k], &t, Ghost(ws)) {
            let ghost t0 = *t;
            let spare = Box::new(Trie::Leaf(false));
            classes.push(spare);
            let old_class = classes.swap_remove(k);
            let joined = merge(old_class, t, Ghost(ws));
            let ghost j0 = *joined;
            classes.set(k, joined);
            proof {
                assert(classes@ =~= c0.update(k as int, joined));
                let m = known_of(t0);
                assert(known_of(j0) =~= m.union_prefer_right(known_of(*c0[k as int]))) by {
                    assert forall|q: Seq<usize>| #[trigger] lookup(j0, q) == (if lookup(
                        *c0[k as int],
                        q,
                    ) is Some {
                        lookup(*c0[k as int], q)
                    } else {
                        lookup(t0, q)
                    }) by {}
                }
                assert(knowns(classes@) =~= put(knowns(c0), m));
                assert forall|i: int| 0 <= i < classes@.len() implies proper(
                    *#[trigger] classes@[i],
                    ws,
                ) by {
                    if i != k {
                        assert(classes@[i] == c0[i]);
                    }
                }
                assert forall|i: int, q: Seq<usize>|
                    #![trigger lookup(*classes@[i], q)]
                    0 <= i < c0.len() && lookup(*c0[i], q) is Some implies lookup(*classes@[i], q)
                    == lookup(*c0[i], q) by {
                    if i != k {
                        assert(classes@[i] == c0[i]);
                    }
                }
                assert forall|q: Seq<usize>|
                    #![trigger lookup(t0, q)]
                    lookup(t0, q) is Some implies lookup(*classes@[k as int], q) == lookup(
                    t0,
                    q,
                ) by {
                    assert(lookup(j0, q) == (if lookup(*c0[k as int], q) is Some {
                        lookup(*c0[k as int], q)
                    } else {
                        lookup(t0, q)
                    }));
                }
            }
            return k;
        }
        k = k + 1;
    }
    let ghost t1 = *t;
    classes.push(t);
    proof {
        assert(knowns(classes@) =~= knowns(c0).push(known_of(t1)));
        assert forall|i: int| 0 <= i < classes@.len() implies proper(
            *#[trigger] classes@[i],
            ws,
        ) by {
            if i < c0.len() {
                assert(classes@[i] == c0[i]);
            }
        }
    }
    k
}

proof fn lemma_slot_grown(
    t: Option<Box<Trie>>,
    c: Option<usize>,
    a: Seq<Box<Trie>>,
    b: Seq<Box<Trie>>,
)
    requires
        slot_kept(t, c, a),
        grown(a, b),
    ensures
        slot_kept(t, c, b),
{
    if t is Some {
        let s = t.unwrap();
        let k = c.unwrap();
        assert forall|q: Seq<usize>| #![trigger lookup(*s, q)] lookup(*s, q) is Some implies lookup(
            *b[k as int],
            q,
        ) == lookup(*s, q) by {
            assert(lookup(*a[k as int], q) == lookup(*s, q));
            assert(lookup(*b[k as int], q) == lookup(*a[k as int], q));
        }
    }
}

/// Entries in place of the missing ones: the first that is there.
fn fill_row(row: &Vec<Option<usize>>) -> (r: Vec<usize>)
    requires
        exists|i: int| 0 <= i < row@.len() && (#[trigger] row@[i]) is Some,
    ensures
        r@.len() == row@.len(),
        forall|i: int|
            0 <= i < row@.len() ==> match #[trigger] row@[i] {
                Some(k) => r@[i] == k,
                None => exists|j: int|
                    0 <= j < row@.len() && #[trigger] row@[j] == Some(r@[i]) && forall|l: int|
                        0 <= l < j ==> (#[trigger] row@[l]) is None,
            },
        r@ == filled_in(row@),
{
    let mut f: usize = 0;
    while f < row.len() && row[f].is_none()
        invariant
            f <= row@.len(),
            exists|i: int| 0 <= i < row@.len() && (#[trigger] row@[i]) is Some,
            forall|i: int| 0 <= i < f ==> (#[trigger] row@[i]) is None,
            first_there(row@, 0) == first_there(row@, f as int),
        decreases row.len() - f,
    {
        f = f + 1;
    }
    assert(f < row@.len());
    let fill: usize = row[f].unwrap();
    let mut r: Vec<usize> = Vec::new();
    let mut i: usize = 0;
    while i < row.len()
        invariant
            i <= row@.len(),
            f < row@.len(),
            row@[f as int] == Some(fill),
            fill == first_there(row@, 0),
            forall|l: int| 0 <= l < f ==> (#[trigger] row@[l]) is None,
            r@.len() == i,
            forall|j: int|
                0 <= j < i ==> match #[trigger] row@[j] {
                    Some(k) => r@[j] == k,
                    None => r@[j] == fill,
                },
        decreases row.len() - i,
    {
        match row[i] {
            Some(k) => r.push(k),
            None => r.push(fill),
        }
        i = i + 1;
    }
    proof {
        assert(r@ =~= filled_in(row@)) by {
            assert forall|i: int| 0 <= i < row@.len() implies r@[i] == #[trigger] filled_in(
                row@,
            )[i] by {
                assert(row@[i] is Some || row@[i] is None);
            }
        }
        assert forall|i: int| 0 <= i < row@.len() implies match #[trigger] row@[i] {
            Some(k) => r@[i] == k,
            None => exists|j: int|
                0 <= j < row@.len() && #[trigger] row@[j] == Some(r@[i]) && forall|l: int|
                    0 <= l < j ==> (#[trigger] row@[l]) is None,
        } by {
            if row@[i] is None {
                assert(row@[f as int] == Some(r@[i]));
            }
        }
    }
    r
}

/// The branches of a trie lead to classes that have what they have.
pub open spec fn row_kept(t: Trie, row: Seq<usize>, classes: Seq<Box<Trie>>) -> bool {
    &&& forall|b: int| 0 <= b < row.len() ==> #[trigger] row[b] < classes.len()
    &&& forall|q: Seq<usize>|
        #![trigger lookup(t, q)]
        lookup(t, q) is Some ==> q.len() > 0 && q[0] < row.len() && lookup(
            *classes[row[q[0] as int] as int],
            q.skip(1),
        ) == lookup(t, q)
}

proof fn lemma_row_grown(t: Trie, row: Seq<usize>, a: Seq<Box<Trie>>, b: Seq<Box<Trie>>)
    requires
        row_kept(t, row, a),
        grown(a, b),
    ensures
        row_kept(t, row, b),
{
    assert forall|i: int| 0 <= i < row.len() implies #[trigger] row[i] < b.len() by {
        assert(row[i] < a.len());
    }
    assert forall|q: Seq<usize>| #![trigger lookup(t, q)] lookup(t, q) is Some implies q.len() > 0
        && q[0] < row.len() && lookup(*b[row[q[0] as int] as int], q.skip(1)) == lookup(t, q) by {
        let k = row[q[0] as int] as int;
        assert(lookup(*a[k], q.skip(1)) == lookup(t, q));
        assert(lookup(*b[k], q.skip(1)) == lookup(*a[k], q.skip(1)));
    }
}

/// The branches of one class, merged into the classes of the next level.
fn merge_row(t: Box<Trie>, classes: &mut Vec<Box<Trie>>, w: usize, Ghost(ws): Ghost<Seq<usize>>) -> (row:
    Vec<usize>)
    requires
        ws.len() > 0,
        w == ws[0],
        proper(*t, ws),
        all_proper(old(classes)@, ws.skip(1)),
    ensures
        row@.len() == w,
        all_proper(final(classes)@, ws.skip(1)),
        grown(old(classes)@, final(classes)@),
        final(classes)@.len() > 0,
        row_kept(*t, row@, final(classes)@),
        knowns(final(classes)@) == branched(known_of(*t), knowns(old(classes)@), w as int).0,
        row@ == filled_in(branched(known_of(*t), knowns(old(classes)@), w as int).1),
{
    let ghost t0 = *t;
    let ghost c0 = classes@;
    let mut ch: Vec<Option<Box<Trie>>> = match *t {
        Trie::Branch(ch) => ch,
        Trie::Leaf(_) => {
            assert(false);
            Vec::new()
        },
    };
    let ghost ch0 = ch@;
    let mut slots: Vec<Option<usize>> = Vec::new();
    let mut b: usize = 0;
    while b < ch.len()
        invariant
            ws.len() > 0,
            t0 is Branch,
            t0->Branch_0@ == ch0,
            ch@.len() == ch0.len(),
            knowns(classes@) == branched(known_of(t0), knowns(c0), b as int).0,
            slots@ == branched(known_of(t0), knowns(c0), b as int).1,
            b <= ch0.len(),
            slots@.len() == b,
            all_proper(classes@, ws.skip(1)),
            grown(c0, classes@),
            forall|j: int| 0 <= j < ch0.len() ==> proper_in(#[trigger] ch0[j], ws.skip(1)),
            forall|j: int| b <= j < ch0.len() ==> #[trigger] ch@[j] == ch0[j],
            forall|j: int| 0 <= j < b ==> slot_kept(#[trigger] ch0[j], slots@[j], classes@),
        decreases ch.len() - b,
    {
        let ghost c1 = classes@;
        proof {
            assert(ch@[b as int] == ch0[b as int]);
            assert(proper_in(ch0[b as int], ws.skip(1)));
        }
        proof {
            lemma_after(t0, b);
            if ch0[b as int] is Some {
                lemma_something(*ch0[b as int].unwrap(), ws.skip(1));
            }
        }
        let x = take_slot(&mut ch, b);
        let ghost s1 = slots@;
        match x {
            Some(s) => {
                let k = classify(classes, s, Ghost(ws.skip(1)));
                slots.push(Some(k));
            },
            None => {
                slots.push(None);
            },
        }
        proof {
            assert(grown(c1, classes@));
            assert forall|j: int| 0 <= j < b + 1 implies slot_kept(
                #[trigger] ch0[j],
                slots@[j],
                classes@,
            ) by {
                if j < b {
                    assert(slots@[j] == s1[j]);
                    lemma_slot_grown(ch0[j], s1[j], c1, classes@);
                }
            }
            assert(grown(c0, classes@)) by {
                assert forall|k: int, q: Seq<usize>|
                    #![trigger lookup(*classes@[k], q)]
                    0 <= k < c0.len() && lookup(*c0[k], q) is Some implies lookup(*classes@[k], q)
                    == lookup(*c0[k], q) by {
                    assert(lookup(*c1[k], q) == lookup(*c0[k], q));
                }
            }
        }
        b = b + 1;
    }
    proof {
        let k = choose|k: int| 0 <= k < ch0.len() && (#[trigger] ch0[k]) is Some;
        assert(slot_kept(ch0[k], slots@[k], classes@));
        assert(slots@[k] is Some);
    }
    let row = fill_row(&slots);
    proof {
        assert forall|i: int| 0 <= i < row@.len() implies #[trigger] row@[i] < classes@.len() by {
            assert(slot_kept(ch0[i], slots@[i], classes@));
            if slots@[i] is None {
                let j = choose|j: int|
                    0 <= j < slots@.len() && #[trigger] slots@[j] == Some(row@[i]) && forall|
                        l: int,
                    |
                        0 <= l < j ==> (#[trigger] slots@[l]) is None;
                assert(slot_kept(ch0[j], slots@[j], classes@));
            }
        }
        assert forall|q: Seq<usize>| #![trigger lookup(t0, q)] lookup(t0, q) is Some implies q.len()
            > 0 && q[0] < row@.len() && lookup(*classes@[row@[q[0] as int] as int], q.skip(1))
            == lookup(t0, q) by {
            let j = q[0] as int;
            assert(slot_kept(ch0[j], slots@[j], classes@));
            let s = ch0[j].unwrap();
            assert(lookup(t0, q) == lookup(*s, q.skip(1)));
        }
    }
    row
}

/// The branches of all classes of a level, merged into the classes of the next.
fn merge_level(level: Vec<Box<Trie>>, w: usize, Ghost(ws): Ghost<Seq<usize>>) -> (r: (
    Vec<Vec<usize>>,
    Vec<Box<Trie>>,
))
    requires
        ws.len() > 0,
        w == ws[0],
        level@.len() > 0,
        all_proper(level@, ws),
    ensures
        r.0@.len() == level@.len(),
        r.1@.len() > 0,
        all_proper(r.1@, ws.skip(1)),
        forall|i: int|
            0 <= i < level@.len() ==> (#[trigger] r.0@[i])@.len() == w && row_kept(
                *level@[i],
                r.0@[i]@,
                r.1@,
            ),
        knowns(r.1@) == leveled(knowns(level@), w as int, level@.len() as int).1,
        forall|i: int|
            0 <= i < level@.len() ==> (#[trigger] r.0@[i])@ == leveled(
                knowns(level@),
                w as int,
                level@.len() as int,
            ).0[i],
{
    let ghost l0 = level@;
    let mut level = level;
    let mut rows: Vec<Vec<usize>> = Vec::new();
    let mut classes: Vec<Box<Trie>> = Vec::new();
    let mut i: usize = 0;
    proof {
        assert(knowns(classes@) =~= Seq::empty());
    }
    while i < level.len()
        invariant
            ws.len() > 0,
            w == ws[0],
            l0.len() > 0,
            all_proper(l0, ws),
            level@.len() == l0.len(),
            i <= l0.len(),
            forall|j: int| i <= j < l0.len() ==> #[trigger] level@[j] == l0[j],
            rows@.len() == i,
            i > 0 ==> classes@.len() > 0,
            knowns(classes@) == leveled(knowns(l0), w as int, i as int).1,
            leveled(knowns(l0), w as int, i as int).0.len() == i,
            forall|j: int|
                0 <= j < i ==> (#[trigger] rows@[j])@ == leveled(
                    knowns(l0),
                    w as int,
                    i as int,
                ).0[j],
            all_proper(classes@, ws.skip(1)),
            forall|j: int|
                0 <= j < i ==> (#[trigger] rows@[j])@.len() == w && row_kept(
                    *l0[j],
                    rows@[j]@,
                    classes@,
                ),
        decreases level.len() - i,
    {
        let ghost c1 = classes@;
        let ghost rows1 = rows@;
        assert(level@[i as int] == l0[i as int]);
        assert(proper(*l0[i as int], ws));
        level.push(Box::new(Trie::Leaf(false)));
        let t = level.swap_remove(i);
        let row = merge_row(t, &mut classes, w, Ghost(ws));
        rows.push(row);
        proof {
            assert(knowns(l0)[i as int] == known_of(*l0[i as int]));
            let before = leveled(knowns(l0), w as int, i as int);
            let now = leveled(knowns(l0), w as int, i + 1);
            assert(now.0 == before.0.push(row@));
            assert forall|j: int| 0 <= j < i + 1 implies (#[trigger] rows@[j])@ == now.0[j] by {
                if j < i {
                    assert(rows@[j] == rows1[j]);
                    assert(rows1[j]@ == before.0[j]);
                }
            }
            assert forall|j: int| 0 <= j < i + 1 implies (#[trigger] rows@[j])@.len() == w
                && row_kept(*l0[j], rows@[j]@, classes@) by {
                if j < i {
                    assert(rows@[j] == rows1[j]);
                    lemma_row_grown(*l0[j], rows1[j]@, c1, classes@);
                }
            }
        }
        i = i + 1;
    }
    (rows, classes)
}


/// The path occurs among the first `k` examples with the label.
pub open spec fn exampled(es: Seq<(Vec<usize>, bool)>, k: int, q: Seq<usize>, label: bool) -> bool {
    exists|i: int| 0 <= i < k && (#[trigger] es[i]).0@ == q && es[i].1 == label
}

/// Some path occurs with both labels.
pub open spec fn conflicting(es: Seq<(Vec<usize>, bool)>) -> bool {
    exists|i: int, j: int|
        0 <= i < es.len() && 0 <= j < es.len() && (#[trigger] es[i]).0@ == (#[trigger] es[j]).0@
            && es[i].1 != es[j].1
}

/// What the examples tell.
pub open spec fn told(es: Seq<(Vec<usize>, bool)>) -> Known {
    Map::new(
        |q: Seq<usize>|
            exampled(es, es.len() as int, q, true) || exampled(es, es.len() as int, q, false),
        |q: Seq<usize>| exampled(es, es.len() as int, q, true),
    )
}

/// The trie of the examples, or `None` if some path occurs with both labels.
fn build(ws: &Vec<usize>, examples: &Vec<(Vec<usize>, bool)>) -> (r: Option<Box<Trie>>)
    requires
        examples@.len() > 0,
        forall|i: int| 0 <= i < examples@.len() ==> path_ok((#[trigger] examples@[i]).0@, ws@),
    ensures
        r is None <==> conflicting(examples@),
        r matches Some(t) ==> proper(*t, ws@) && forall|q: Seq<usize>, l: bool|
            #![trigger exampled(examples@, examples@.len() as int, q, l)]
            exampled(examples@, examples@.len() as int, q, l) ==> lookup(*t, q) == Some(l),
        r matches Some(t) ==> known_of(*t) == told(examples@),
{
    let ghost es = examples@;
    let mut t: Option<Box<Trie>> = None;
    let mut i: usize = 0;
    assert(ws@.skip(0) =~= ws@);
    while i < examples.len()
        invariant
            es == examples@,
            i <= es.len(),
            ws@.skip(0) == ws@,
            forall|j: int| 0 <= j < es.len() ==> path_ok((#[trigger] es[j]).0@, ws@),
            proper_in(t, ws@),
            i > 0 ==> t is Some,
            forall|q: Seq<usize>, l: bool|
                #![trigger exampled(es, i as int, q, l)]
                exampled(es, i as int, q, l) <==> lookup_in(t, q) == Some(l),
        decreases examples.len() - i,
    {
        let ghost t0 = t;
        let ghost p = es[i as int].0@;
        let label = examples[i].1;
        assert(p.skip(0) =~= p);
        let r = insert(t, &examples[i].0, 0, ws, label);
        match r {
            None => {
                proof {
                    assert(lookup_in(t0, p) == Some(!label));
                    assert(exampled(es, i as int, p, !label));
                    let j = choose|j: int|
                        0 <= j < i && (#[trigger] es[j]).0@ == p && es[j].1 == !label;
                    assert(es[j].0@ == es[i as int].0@ && es[j].1 != es[i as int].1);
                }
                return None;
            },
            Some(c) => {
                let ghost c1 = *c;
                t = Some(c);
                proof {
                    assert forall|q: Seq<usize>, l: bool|
                        #![trigger exampled(es, i + 1, q, l)]
                        exampled(es, i + 1, q, l) <==> lookup_in(t, q) == Some(l) by {
                        assert(exampled(es, i as int, q, l) <==> lookup_in(t0, q) == Some(l));
                        if exampled(es, i + 1, q, l) {
                            let j = choose|j: int|
                                0 <= j < i + 1 && (#[trigger] es[j]).0@ == q && es[j].1 == l;
                            if j < i {
                                assert(exampled(es, i as int, q, l));
                                if q == p {
                                    assert(lookup_in(t0, p) != Some(!label));
                                    assert(l == label);
                                } else {
                                    assert(lookup(c1, q) == lookup_in(t0, q));
                                }
                            }
                        }
                        if lookup_in(t, q) == Some(l) {
                            if q == p {
                                assert(es[i as int].0@ == q && es[i as int].1 == l);
                            } else {
                                assert(lookup(c1, q) == lookup_in(t0, q));
                                let j = choose|j: int|
                                    0 <= j < i && (#[trigger] es[j]).0@ == q && es[j].1 == l;
                                assert(es[j].0@ == q);
                            }
                        }
                    }
                }
            },
        }
        i = i + 1;
    }
    proof {
        if conflicting(es) {
            let (a, b) = choose|a: int, b: int|
                0 <= a < es.len() && 0 <= b < es.len() && (#[trigger] es[a]).0@ == (
                #[trigger] es[b]).0@ && es[a].1 != es[b].1;
            assert(exampled(es, es.len() as int, es[a].0@, es[a].1));
            assert(exampled(es, es.len() as int, es[b].0@, es[b].1));
        }
        let m = known_of(*t.unwrap());
        let k = es.len() as int;
        assert(m =~= told(es)) by {
            assert forall|q: Seq<usize>| #[trigger]
                m.contains_key(q) == told(es).contains_key(q) by {
                assert(exampled(es, k, q, true) <==> lookup_in(t, q) == Some(true));
                assert(exampled(es, k, q, false) <==> lookup_in(t, q) == Some(false));
                match lookup_in(t, q) {
                    Some(b) => {
                        assert(b || !b);
                        assert(lookup(*t.unwrap(), q) == Some(b));
                    },
                    None => {
                        assert(lookup(*t.unwrap(), q) is None);
                    },
                }
            }
            assert forall|q: Seq<usize>| #[trigger] m.contains_key(q) implies m[q] == told(
                es,
            )[q] by {
                assert(exampled(es, k, q, true) <==> lookup_in(t, q) == Some(true));
            }
        }
    }
    t
}

impl Layers {
    /// What the tries of a level have, the diagram has from their classes on.
    proof fn lemma_label(
        &self,
        ws: Seq<usize>,
        hist: Seq<Seq<Box<Trie>>>,
        d: int,
        c: int,
        q: Seq<usize>,
    )
        requires
            self.rows@.len() == ws.len(),
            hist.len() == ws.len() + 1,
            0 <= d <= ws.len(),
            0 <= c < hist[d].len(),
            forall|e: int, k: int|
                0 <= e < ws.len() && 0 <= k < hist[e].len() ==> #[trigger] row_kept(
                    *hist[e][k],
                    self.rows@[e]@[k]@,
                    hist[e + 1],
                ),
            forall|k: int|
                0 <= k < hist[ws.len() as int].len() ==> *#[trigger] hist[ws.len() as int][k]
                    == Trie::Leaf(self.leaves@[k]),
            lookup(*hist[d][c], q) is Some,
            q.len() == ws.len() - d,
        ensures
            self.label(d, c, q) == lookup(*hist[d][c], q).unwrap(),
        decreases ws.len() - d,
    {
        if d < ws.len() {
            let t = *hist[d][c];
            let row = self.rows@[d]@[c]@;
            assert(row_kept(t, row, hist[d + 1]));
            let k = row[q[0] as int] as int;
            assert(lookup(*hist[d + 1][k], q.skip(1)) == lookup(t, q));
            self.lemma_label(ws, hist, d + 1, k, q.skip(1));
        } else {
            assert(*hist[ws.len() as int][c] == Trie::Leaf(self.leaves@[c]));
        }
    }
}

impl Layers {
    /// The labels of the diagram are those that merging gives.
    proof fn lemma_merged(
        &self,
        ws: Seq<usize>,
        hist: Seq<Seq<Box<Trie>>>,
        d: int,
        c: int,
        q: Seq<usize>,
    )
        requires
            self.rows@.len() == ws.len(),
            hist.len() == ws.len() + 1,
            0 <= d <= ws.len(),
            0 <= c < hist[d].len(),
            forall|e: int|
                0 <= e < ws.len() ==> knowns(hist[e + 1]) == (#[trigger] leveled(
                    knowns(hist[e]),
                    ws[e] as int,
                    hist[e].len() as int,
                )).1,
            forall|e: int, k: int|
                #![trigger self.rows@[e]@[k]]
                0 <= e < ws.len() && 0 <= k < hist[e].len() ==> self.rows@[e]@[k]@ == leveled(
                    knowns(hist[e]),
                    ws[e] as int,
                    hist[e].len() as int,
                ).0[k] && self.rows@[e]@[k]@.len() == ws[e] && forall|b: int|
                    0 <= b < ws[e] ==> #[trigger] self.rows@[e]@[k]@[b] < hist[e + 1].len(),
            forall|k: int|
                0 <= k < hist[ws.len() as int].len() ==> *#[trigger] hist[ws.len() as int][k]
                    == Trie::Leaf(self.leaves@[k]),
            path_ok(q, ws.skip(d)),
        ensures
            self.label(d, c, q) == merged(knowns(hist[d]), c, ws.skip(d), q),
        decreases ws.len() - d,
    {
        let w = ws.skip(d);
        if d < ws.len() {
            assert(w.skip(1) =~= ws.skip(d + 1));
            assert(w[0] == ws[d]);
            assert(q[0] < w[0]);
            let row = self.rows@[d]@[c]@;
            assert(self.rows@[d]@[c]@.len() == ws[d]);
            let k = row[q[0] as int] as int;
            assert(self.rows@[d]@[c]@[q[0] as int] < hist[d + 1].len());
            let r = leveled(knowns(hist[d]), ws[d] as int, hist[d].len() as int);
            assert(r.1 == knowns(hist[d + 1]));
            assert(path_ok(q.skip(1), ws.skip(d + 1))) by {
                assert forall|i: int| 0 <= i < q.skip(1).len() implies #[trigger] q.skip(1)[i]
                    < ws.skip(d + 1)[i] by {
                    assert(q[i + 1] < w[i + 1]);
                }
            }
            self.lemma_merged(ws, hist, d + 1, k, q.skip(1));
        } else {
            let t = *hist[d][c];
            assert(*hist[ws.len() as int][c] == Trie::Leaf(self.leaves@[c]));
            assert(lookup(t, Seq::empty()) == Some(self.leaves@[c]));
            assert(knowns(hist[d])[c] == known_of(t));
            assert(known_of(t).contains_key(Seq::empty()));
        }
    }
}

/// A diagram that gives every example its label; `None` if some path occurs with
/// both labels.  To every other path it gives the label that merging gives it.
pub fn generalize(ws: &Vec<usize>, examples: &Vec<(Vec<usize>, bool)>) -> (r: Option<Layers>)
    requires
        examples@.len() > 0,
        forall|i: int| 0 <= i < examples@.len() ==> path_ok((#[trigger] examples@[i]).0@, ws@),
    ensures
        r is None <==> conflicting(examples@),
        r matches Some(l) ==> l.wf(ws@) && forall|i: int|
            0 <= i < examples@.len() ==> l.label(0, 0, (#[trigger] examples@[i]).0@)
                == examples@[i].1,
        r matches Some(l) ==> forall|q: Seq<usize>|
            path_ok(q, ws@) ==> #[trigger] l.label(0, 0, q) == merged(
                seq![told(examples@)],
                0,
                ws@,
                q,
            ),
{
    let root = match build(ws, examples) {
        None => {
            return None;
        },
        Some(t) => t,
    };
    let ghost w0 = ws@;
    let ghost root0 = *root;
    let mut level: Vec<Box<Trie>> = Vec::new();
    level.push(root);
    let mut rows: Vec<Vec<Vec<usize>>> = Vec::new();
    let ghost mut hist: Seq<Seq<Box<Trie>>> = seq![level@];
    let mut d: usize = 0;
    assert(w0.skip(0) =~= w0);
    while d < ws.len()
        invariant
            w0 == ws@,
            d <= w0.len(),
            rows@.len() == d,
            hist.len() == d + 1,
            hist[d as int] == level@,
            hist[0].len() == 1,
            *hist[0][0] == root0,
            level@.len() > 0,
            all_proper(level@, w0.skip(d as int)),
            forall|e: int| 0 <= e < d ==> (#[trigger] rows@[e])@.len() == hist[e].len(),
            forall|e: int, k: int|
                0 <= e < d && 0 <= k < hist[e].len() ==> (#[trigger] rows@[e]@[k])@.len() == w0[e]
                    && row_kept(*hist[e][k], rows@[e]@[k]@, hist[e + 1]) && rows@[e]@[k]@
                    == leveled(knowns(hist[e]), w0[e] as int, hist[e].len() as int).0[k],
            forall|e: int|
                0 <= e < d ==> knowns(hist[e + 1]) == (#[trigger] leveled(
                    knowns(hist[e]),
                    w0[e] as int,
                    hist[e].len() as int,
                )).1,
        decreases ws.len() - d,
    {
        let ghost hist0 = hist;
        let ghost rows0 = rows@;
        let ghost l0 = level@;
        let ghost w = w0.skip(d as int);
        assert(w[0] == w0[d as int]);
        assert(w.skip(1) =~= w0.skip(d + 1));
        let (row, next) = merge_level(level, ws[d], Ghost(w));
        let ghost row1 = row@;
        rows.push(row);
        level = next;
        proof {
            hist = hist0.push(level@);
            assert forall|e: int, k: int|
                0 <= e < d + 1 && 0 <= k < hist[e].len() implies (#[trigger] rows@[e]@[k])@.len()
                == w0[e] && row_kept(*hist[e][k], rows@[e]@[k]@, hist[e + 1]) && rows@[e]@[k]@
                == leveled(knowns(hist[e]), w0[e] as int, hist[e].len() as int).0[k] by {
                assert(hist[e] == hist0[e]);
                if e < d {
                    assert(rows@[e] == rows0[e]);
                    assert(rows0[e]@[k]@.len() == w0[e]);
                    assert(hist[e + 1] == hist0[e + 1]);
                } else {
                    assert(rows@[e]@ == row1);
                    assert(row1[k]@.len() == w0[e]);
                }
            }
            assert forall|e: int| 0 <= e < d + 1 implies knowns(hist[e + 1]) == (
            #[trigger] leveled(knowns(hist[e]), w0[e] as int, hist[e].len() as int)).1 by {
                assert(hist[e] == hist0[e]);
                if e < d {
                    assert(hist[e + 1] == hist0[e + 1]);
                    assert(knowns(hist0[e + 1]) == leveled(
                        knowns(hist0[e]),
                        w0[e] as int,
                        hist0[e].len() as int,
                    ).1);
                }
            }
            assert forall|e: int| 0 <= e < d + 1 implies (#[trigger] rows@[e])@.len()
                == hist[e].len() by {
                assert(hist[e] == hist0[e]);
                if e < d {
                    assert(rows@[e] == rows0[e]);
                }
            }
        }
        d = d + 1;
    }
    let mut leaves: Vec<bool> = Vec::new();
    let mut i: usize = 0;
    while i < level.len()
        invariant
            i <= level@.len(),
            all_proper(level@, Seq::empty()),
            leaves@.len() == i,
            forall|j: int| 0 <= j < i ==> *#[trigger] level@[j] == Trie::Leaf(leaves@[j]),
        decreases level.len() - i,
    {
        assert(proper(*level@[i as int], Seq::empty()));
        match &*level[i] {
            Trie::Leaf(b) => leaves.push(*b),
            Trie::Branch(_) => {
                assert(false);
                leaves.push(false);
            },
        }
        i = i + 1;
    }
    let l = Layers { rows, leaves };
    proof {
        assert forall|e: int, k: int|
            0 <= e < w0.len() && 0 <= k < hist[e].len() implies #[trigger] row_kept(
            *hist[e][k],
            l.rows@[e]@[k]@,
            hist[e + 1],
        ) by {
            assert(l.rows@[e]@[k]@.len() == w0[e]);
        }
        assert forall|e: int, c: int|
            0 <= e < w0.len() && 0 <= c < l.rows@[e]@.len() implies #[trigger] l.row_wf(
            w0,
            e,
            c,
        ) by {
            assert(l.rows@[e]@.len() == hist[e].len());
            assert(l.rows@[e]@[c]@.len() == w0[e]);
            assert(row_kept(*hist[e][c], l.rows@[e]@[c]@, hist[e + 1]));
            if e + 1 < w0.len() {
                assert(l.rows@[e + 1]@.len() == hist[e + 1].len());
            }
        }
        if w0.len() > 0 {
            assert(l.rows@[0]@.len() == hist[0].len());
        }
        assert forall|q: Seq<usize>| path_ok(q, w0) implies #[trigger] l.label(0, 0, q) == merged(
            seq![told(examples@)],
            0,
            w0,
            q,
        ) by {
            assert forall|e: int, k: int|
                #![trigger l.rows@[e]@[k]]
                0 <= e < w0.len() && 0 <= k < hist[e].len() implies l.rows@[e]@[k]@ == leveled(
                knowns(hist[e]),
                w0[e] as int,
                hist[e].len() as int,
            ).0[k] && l.rows@[e]@[k]@.len() == w0[e] && forall|b: int|
                0 <= b < w0[e] ==> #[trigger] l.rows@[e]@[k]@[b] < hist[e + 1].len() by {
                assert(row_kept(*hist[e][k], l.rows@[e]@[k]@, hist[e + 1]));
            }
            assert(knowns(hist[0]) =~= seq![told(examples@)]);
            l.lemma_merged(w0, hist, 0, 0, q);
        }
        assert forall|j: int| 0 <= j < examples@.len() implies l.label(
            0,
            0,
            (#[trigger] examples@[j]).0@,
        ) == examples@[j].1 by {
            let q = examples@[j].0@;
            assert(exampled(examples@, examples@.len() as int, q, examples@[j].1));
            l.lemma_label(w0, hist, 0, 0, q);
        }
    }
    Some(l)
}

} // verus!
