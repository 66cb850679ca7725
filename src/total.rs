use vstd::prelude::*;

use crate::Address;

verus! {

/// Sum of `f` over the elements of `s`, element by element.
pub open spec fn total(s: Seq<Address>, f: spec_fn(Address) -> int) -> int
    decreases s.len(),
{
    if s.len() == 0 {
        0
    } else {
        total(s.drop_last(), f) + f(s.last())
    }
}

/// `s` with every occurrence of `o` left out, order kept.
pub open spec fn without(s: Seq<Address>, o: Address) -> Seq<Address>
    decreases s.len(),
{
    if s.len() == 0 {
        s
    } else if s.last() == o {
        without(s.drop_last(), o)
    } else {
        without(s.drop_last(), o).push(s.last())
    }
}

pub proof fn lemma_total_push(s: Seq<Address>, x: Address, f: spec_fn(Address) -> int)
    ensures
        total(s.push(x), f) == total(s, f) + f(x),
{
    assert(s.push(x).drop_last() =~= s);
}

pub proof fn lemma_total_concat(s1: Seq<Address>, s2: Seq<Address>, f: spec_fn(Address) -> int)
    ensures
        total(s1 + s2, f) == total(s1, f) + total(s2, f),
    decreases s2.len(),
{
    if s2.len() == 0 {
        assert(s1 + s2 =~= s1);
    } else {
        assert((s1 + s2).drop_last() =~= s1 + s2.drop_last());
        lemma_total_concat(s1, s2.drop_last(), f);
    }
}

/// Summing the constant one counts the elements.
pub proof fn lemma_total_len(s: Seq<Address>, f: spec_fn(Address) -> int)
    requires
        forall|x: Address| #[trigger] f(x) == 1,
    ensures
        total(s, f) == s.len(),
    decreases s.len(),
{
    if s.len() > 0 {
        lemma_total_len(s.drop_last(), f);
    }
}

pub proof fn lemma_total_nonneg(s: Seq<Address>, f: spec_fn(Address) -> int)
    requires
        forall|x: Address| #[trigger] f(x) >= 0,
    ensures
        total(s, f) >= 0,
    decreases s.len(),
{
    if s.len() > 0 {
        lemma_total_nonneg(s.drop_last(), f);
    }
}

/// Changing `f` at one point `o` changes the sum over a duplicate-free `s`
/// by the difference at `o`, if `o` occurs in `s`.
pub proof fn lemma_total_point(
    s: Seq<Address>,
    f: spec_fn(Address) -> int,
    g: spec_fn(Address) -> int,
    o: Address,
)
    requires
        s.no_duplicates(),
        forall|x: Address| x != o ==> #[trigger] f(x) == g(x),
    ensures
        total(s, g) == total(s, f) + if s.contains(o) { g(o) - f(o) } else { 0 },
    decreases s.len(),
{
    if s.len() > 0 {
        let t = s.drop_last();
        assert(t.no_duplicates()) by {
            assert forall|i: int, j: int| 0 <= i < t.len() && 0 <= j < t.len() && i != j
                implies t[i] != t[j] by {
                assert(t[i] == s[i] && t[j] == s[j]);
            }
        }
        lemma_total_point(t, f, g, o);
        if s.last() == o {
            assert(!t.contains(o)) by {
                if t.contains(o) {
                    let i = choose|i: int| 0 <= i < t.len() && t[i] == o;
                    assert(s[i] == s[s.len() - 1]);
                }
            }
            assert(s.contains(o)) by {
                assert(s[s.len() - 1] == o);
            }
        } else {
            assert(s.contains(o) == t.contains(o)) by {
                if s.contains(o) {
                    let i = choose|i: int| 0 <= i < s.len() && s[i] == o;
                    assert(i < s.len() - 1);
                    assert(t[i] == o);
                }
                if t.contains(o) {
                    let i = choose|i: int| 0 <= i < t.len() && t[i] == o;
                    assert(s[i] == o);
                }
            }
        }
    }
}

/// Facts on `without`: what it keeps, its length and its sum.
pub proof fn lemma_without(s: Seq<Address>, o: Address, f: spec_fn(Address) -> int)
    requires
        s.no_duplicates(),
    ensures
        forall|x: Address| #[trigger] without(s, o).contains(x) <==> (x != o && s.contains(x)),
        without(s, o).no_duplicates(),
        without(s, o).len() == if s.contains(o) { s.len() - 1 } else { s.len() as int },
        total(without(s, o), f) == total(s, f) - if s.contains(o) { f(o) } else { 0 },
    decreases s.len(),
{
    if s.len() > 0 {
        let t = s.drop_last();
        let w = without(t, o);
        assert(t.no_duplicates()) by {
            assert forall|i: int, j: int| 0 <= i < t.len() && 0 <= j < t.len() && i != j
                implies t[i] != t[j] by {
                assert(t[i] == s[i] && t[j] == s[j]);
            }
        }
        lemma_without(t, o, f);
        assert forall|x: Address| s.contains(x) <==> (t.contains(x) || x == s.last()) by {
            if s.contains(x) {
                let i = choose|i: int| 0 <= i < s.len() && s[i] == x;
                if i < s.len() - 1 {
                    assert(t[i] == x);
                }
            }
            if t.contains(x) {
                let i = choose|i: int| 0 <= i < t.len() && t[i] == x;
                assert(s[i] == x);
            }
            if x == s.last() {
                assert(s[s.len() - 1] == x);
            }
        }
        assert(!t.contains(s.last())) by {
            if t.contains(s.last()) {
                let i = choose|i: int| 0 <= i < t.len() && t[i] == s.last();
                assert(s[i] == s[s.len() - 1]);
            }
        }
        if s.last() != o {
            let l = s.last();
            assert forall|x: Address| w.push(l).contains(x) <==> (w.contains(x) || x == l) by {
                if w.push(l).contains(x) {
                    let i = choose|i: int| 0 <= i < w.push(l).len() && w.push(l)[i] == x;
                    if i < w.len() {
                        assert(w[i] == x);
                    }
                }
                if w.contains(x) {
                    let i = choose|i: int| 0 <= i < w.len() && w[i] == x;
                    assert(w.push(l)[i] == x);
                }
                if x == l {
                    assert(w.push(l)[w.len() as int] == x);
                }
            }
            assert(w.push(l).no_duplicates()) by {
                assert forall|i: int, j: int|
                    0 <= i < w.push(l).len() && 0 <= j < w.push(l).len() && i != j
                    implies w.push(l)[i] != w.push(l)[j] by {
                    if i < w.len() && j < w.len() {
                        assert(w.push(l)[i] == w[i] && w.push(l)[j] == w[j]);
                    } else if i < w.len() {
                        assert(w.contains(w[i]));
                    } else {
                        assert(w.contains(w[j]));
                    }
                }
            }
            lemma_total_push(w, l, f);
        }
        assert forall|x: Address| #[trigger] without(s, o).contains(x) <==> (x != o
            && s.contains(x)) by {
            assert(w.contains(x) <==> (x != o && t.contains(x)));
        }
    }
}

} // verus!
