use vstd::prelude::*;

verus! {

/// `s` with every occurrence of `x` taken out, the rest in order.
pub open spec fn without<T>(s: Seq<T>, x: T) -> Seq<T> {
    s.filter(|y: T| y != x)
}

/// `s` with every occurrence of `x` turned into `y`.
pub open spec fn renamed(s: Seq<u32>, x: u32, y: u32) -> Seq<u32> {
    Seq::new(s.len(), |i: int| if s[i] == x { y } else { s[i] })
}

/// Whether some element occurs in both sequences.
pub open spec fn intersects<T>(a: Seq<T>, b: Seq<T>) -> bool {
    exists|i: int| 0 <= i < a.len() && b.contains(#[trigger] a[i])
}

pub proof fn lemma_without_push<T>(s: Seq<T>, e: T, x: T)
    ensures
        without(s.push(e), x) == if e != x {
            without(s, x).push(e)
        } else {
            without(s, x)
        },
{
    s.lemma_filter_push(e, |y: T| y != x);
}

pub proof fn lemma_without_empty<T>(x: T)
    ensures
        without(Seq::<T>::empty(), x) == Seq::<T>::empty(),
{
    reveal(Seq::filter);
}

/// What `without` keeps: exactly the elements of `s` other than `x`.
pub proof fn lemma_without_contains<T>(s: Seq<T>, x: T, y: T)
    ensures
        without(s, x).contains(y) <==> (s.contains(y) && y != x),
    decreases s.len(),
{
    reveal(Seq::filter);
    if s.len() == 0 {
    } else {
        let init = s.drop_last();
        lemma_without_contains(init, x, y);
        assert(s == init.push(s.last()));
        lemma_without_push(init, s.last(), x);
        let w = without(init, x);
        if s.last() != x {
            assert(without(s, x) == w.push(s.last()));
            if without(s, x).contains(y) {
                let i = choose|i: int| 0 <= i < w.len() + 1 && w.push(s.last())[i] == y;
                if i < w.len() {
                    assert(w[i] == y);
                    assert(w.contains(y));
                    let j = choose|j: int| 0 <= j < init.len() && init[j] == y;
                    assert(s[j] == y);
                } else {
                    assert(s[s.len() - 1] == y);
                }
            }
            if s.contains(y) && y != x {
                let j = choose|j: int| 0 <= j < s.len() && s[j] == y;
                if j < init.len() {
                    assert(init[j] == y);
                    assert(init.contains(y));
                    let i = choose|i: int| 0 <= i < w.len() && w[i] == y;
                    assert(w.push(s.last())[i] == y);
                } else {
                    assert(w.push(s.last())[w.len() as int] == y);
                }
            }
        } else {
            assert(without(s, x) == w);
            if s.contains(y) && y != x {
                let j = choose|j: int| 0 <= j < s.len() && s[j] == y;
                assert(init[j] == y);
            }
            if w.contains(y) {
                let j = choose|j: int| 0 <= j < init.len() && init[j] == y;
                assert(s[j] == y);
            }
        }
    }
}

/// Taking an element out of a sequence without repeats leaves none.
pub proof fn lemma_without_no_duplicates<T>(s: Seq<T>, x: T)
    requires
        s.no_duplicates(),
    ensures
        without(s, x).no_duplicates(),
    decreases s.len(),
{
    reveal(Seq::filter);
    if s.len() == 0 {
    } else {
        let init = s.drop_last();
        lemma_without_no_duplicates(init, x);
        assert(s == init.push(s.last()));
        lemma_without_push(init, s.last(), x);
        let w = without(init, x);
        if s.last() != x {
            lemma_without_contains(init, x, s.last());
            if init.contains(s.last()) {
                let j = choose|j: int| 0 <= j < init.len() && init[j] == s.last();
                assert(s[j] == s[s.len() - 1]);
            }
            assert(!w.contains(s.last()));
            assert forall|i: int, j: int| 0 <= i < w.len() + 1 && 0 <= j < w.len() + 1 && i != j
                implies w.push(s.last())[i] != w.push(s.last())[j] by {
                if i < w.len() && j < w.len() {
                } else if i < w.len() {
                    assert(w.contains(w[i]));
                } else {
                    assert(w.contains(w[j]));
                }
            }
        }
    }
}

/// With no repeats in `s` and `x` in it, `without` removes exactly one element.
pub proof fn lemma_without_len<T>(s: Seq<T>, x: T)
    requires
        s.no_duplicates(),
    ensures
        without(s, x).len() == if s.contains(x) { s.len() - 1 } else { s.len() as int },
    decreases s.len(),
{
    reveal(Seq::filter);
    if s.len() == 0 {
    } else {
        let init = s.drop_last();
        lemma_without_len(init, x);
        assert(s == init.push(s.last()));
        lemma_without_push(init, s.last(), x);
        if s.last() == x {
            if init.contains(x) {
                let j = choose|j: int| 0 <= j < init.len() && init[j] == x;
                assert(s[j] == s[s.len() - 1]);
            }
            assert(s[s.len() - 1] == x);
        } else {
            if init.contains(x) {
                let j = choose|j: int| 0 <= j < init.len() && init[j] == x;
                assert(s[j] == x);
            }
            if s.contains(x) {
                let j = choose|j: int| 0 <= j < s.len() && s[j] == x;
                assert(init[j] == x);
            }
        }
    }
}

} // verus!
