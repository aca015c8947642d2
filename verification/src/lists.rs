//! Mathematical operations on sequences that the contracts of this crate are written in.
use vstd::prelude::*;

verus! {

/// How often `x` occurs in `s`.
pub open spec fn occurrences<T>(s: Seq<T>, x: T) -> nat
    decreases s.len(),
{
    if s.len() == 0 {
        0
    } else {
        occurrences(s.drop_last(), x) + if s.last() == x {
            1nat
        } else {
            0nat
        }
    }
}

/// `s` with every occurrence of `x` taken out; the rest keeps its order.
pub open spec fn without<T>(s: Seq<T>, x: T) -> Seq<T> {
    s.filter(|y: T| y != x)
}

/// `s` with every element of `xs` taken out; the rest keeps its order.
pub open spec fn without_all<T>(s: Seq<T>, xs: Seq<T>) -> Seq<T> {
    s.filter(|y: T| !xs.contains(y))
}

/// `s` after an access to `x`: `x` stands last, the others keep their order.
pub open spec fn touch<T>(s: Seq<T>, x: T) -> Seq<T> {
    without(s, x).push(x)
}

/// `s` after accesses to the elements of `xs`, first to last.
pub open spec fn touch_all<T>(s: Seq<T>, xs: Seq<T>) -> Seq<T>
    decreases xs.len(),
{
    if xs.len() == 0 {
        s
    } else {
        touch(touch_all(s, xs.drop_last()), xs.last())
    }
}

/// The number of blocks of `block_size` tokens that `tokens` tokens take up.
pub open spec fn blocks_for(tokens: nat, block_size: nat) -> nat {
    if block_size == 0 {
        0
    } else {
        ((tokens + block_size - 1) / block_size as int) as nat
    }
}

/// The sum of `f` over the values of `m`.
pub open spec fn total<V>(m: Map<i32, V>, f: spec_fn(V) -> nat) -> nat
    decreases m.dom().len(),
{
    if m.dom().finite() && m.dom().len() > 0 {
        let k = m.dom().choose();
        f(m[k]) + total(m.remove(k), f)
    } else {
        0
    }
}

/// The sum of the numbers of `s`.
pub open spec fn sum(s: Seq<u32>) -> nat
    decreases s.len(),
{
    if s.len() == 0 {
        0
    } else {
        sum(s.drop_last()) + s.last() as nat
    }
}

/// Any value may be taken out of a sum first.
pub proof fn lemma_total_remove<V>(m: Map<i32, V>, f: spec_fn(V) -> nat, k: i32)
    requires
        m.dom().finite(),
        m.contains_key(k),
    ensures
        total(m, f) == f(m[k]) + total(m.remove(k), f),
    decreases m.dom().len(),
{
    let c = m.dom().choose();
    assert(m.dom().contains(c)) by {
        assert(m.dom().contains(k));
    }
    if c != k {
        lemma_total_remove(m.remove(c), f, k);
        lemma_total_remove(m.remove(k), f, c);
        assert(m.remove(c).remove(k) =~= m.remove(k).remove(c));
    }
}

/// What setting a value does to a sum.
pub proof fn lemma_total_insert<V>(m: Map<i32, V>, f: spec_fn(V) -> nat, k: i32, v: V)
    requires
        m.dom().finite(),
    ensures
        total(m.insert(k, v), f) + (if m.contains_key(k) {
            f(m[k])
        } else {
            0
        }) == total(m, f) + f(v),
{
    let n = m.insert(k, v);
    lemma_total_remove(n, f, k);
    if m.contains_key(k) {
        lemma_total_remove(m, f, k);
        assert(n.remove(k) =~= m.remove(k));
    } else {
        assert(n.remove(k) =~= m);
    }
}

/// A sum is positive exactly when a summand is.
pub proof fn lemma_total_positive<V>(m: Map<i32, V>, f: spec_fn(V) -> nat)
    requires
        m.dom().finite(),
    ensures
        total(m, f) > 0 <==> exists|k: i32| #[trigger] m.contains_key(k) && f(m[k]) > 0,
    decreases m.dom().len(),
{
    if m.dom().len() > 0 {
        let c = m.dom().choose();
        let r = m.remove(c);
        lemma_total_positive(r, f);
        if exists|k: i32| #[trigger] m.contains_key(k) && f(m[k]) > 0 {
            let k = choose|k: i32| #[trigger] m.contains_key(k) && f(m[k]) > 0;
            if k != c {
                assert(r.contains_key(k) && f(r[k]) > 0);
            }
        }
        if total(m, f) > 0 {
            if f(m[c]) > 0 {
                assert(m.contains_key(c));
            } else {
                let k = choose|k: i32| #[trigger] r.contains_key(k) && f(r[k]) > 0;
                assert(m.contains_key(k) && f(m[k]) > 0);
            }
        }
    } else {
        assert forall|k: i32| !m.contains_key(k) by {
            assert(!m.dom().contains(k));
        }
    }
}

pub proof fn lemma_occurrences_push<T>(s: Seq<T>, x: T, y: T)
    ensures
        occurrences(s.push(x), y) == occurrences(s, y) + if x == y {
            1nat
        } else {
            0nat
        },
{
    assert(s.push(x).drop_last() =~= s);
}

pub proof fn lemma_occurrences_positive<T>(s: Seq<T>, x: T)
    ensures
        occurrences(s, x) > 0 <==> s.contains(x),
    decreases s.len(),
{
    if s.len() > 0 {
        let r = s.drop_last();
        lemma_occurrences_positive(r, x);
        if s.contains(x) {
            let i = s.index_of(x);
            if i < r.len() {
                assert(r[i] == x);
                assert(r.contains(x));
            }
        }
        if r.contains(x) {
            let i = r.index_of(x);
            assert(s[i] == x);
        }
        if s.last() == x {
            assert(s[s.len() - 1] == x);
        }
    }
}

pub proof fn lemma_occurrences_add<T>(s: Seq<T>, t: Seq<T>, x: T)
    ensures
        occurrences(s + t, x) == occurrences(s, x) + occurrences(t, x),
    decreases t.len(),
{
    if t.len() == 0 {
        assert(s + t =~= s);
    } else {
        assert((s + t).drop_last() =~= s + t.drop_last());
        lemma_occurrences_add(s, t.drop_last(), x);
    }
}

/// What replacing one element does to the number of occurrences.
pub proof fn lemma_occurrences_update<T>(s: Seq<T>, i: int, x: T, y: T)
    requires
        0 <= i < s.len(),
    ensures
        occurrences(s.update(i, x), y) + (if s[i] == y {
            1nat
        } else {
            0nat
        }) == occurrences(s, y) + (if x == y {
            1nat
        } else {
            0nat
        }),
    decreases s.len(),
{
    let u = s.update(i, x);
    if i == s.len() - 1 {
        assert(u.drop_last() =~= s.drop_last());
    } else {
        assert(u.drop_last() =~= s.drop_last().update(i, x));
        lemma_occurrences_update(s.drop_last(), i, x, y);
    }
}

/// In a sequence without duplicates an element occurs once or not at all.
pub proof fn lemma_occurrences_once<T>(s: Seq<T>, x: T)
    requires
        s.no_duplicates(),
    ensures
        occurrences(s, x) == (if s.contains(x) {
            1nat
        } else {
            0nat
        }),
    decreases s.len(),
{
    lemma_occurrences_positive(s, x);
    if s.len() > 0 {
        let r = s.drop_last();
        lemma_occurrences_once(r, x);
        if s.last() == x && r.contains(x) {
            let i = r.index_of(x);
            assert(s[i] == s[s.len() - 1]);
        }
    }
}

/// What `without` keeps: everything but `x`, and no element twice that was there once.
pub proof fn lemma_without<T>(s: Seq<T>, x: T)
    ensures
        forall|y: T| #[trigger] without(s, x).contains(y) <==> s.contains(y) && y != x,
        s.no_duplicates() ==> without(s, x).no_duplicates(),
        without(s, x).len() <= s.len(),
    decreases s.len(),
{
    lemma_filter(s, |y: T| y != x);
}

/// What `without_all` keeps: everything that is not in `xs`.
pub proof fn lemma_without_all<T>(s: Seq<T>, xs: Seq<T>)
    ensures
        forall|y: T| #[trigger] without_all(s, xs).contains(y) <==> s.contains(y) && !xs.contains(y),
        s.no_duplicates() ==> without_all(s, xs).no_duplicates(),
{
    lemma_filter(s, |y: T| !xs.contains(y));
}

/// What a filter keeps: everything that qualifies.
pub proof fn lemma_filter<T>(s: Seq<T>, p: spec_fn(T) -> bool)
    ensures
        forall|y: T| #[trigger] s.filter(p).contains(y) <==> s.contains(y) && p(y),
        s.no_duplicates() ==> s.filter(p).no_duplicates(),
        s.filter(p).len() <= s.len(),
    decreases s.len(),
{
    reveal(Seq::filter);
    if s.len() > 0 {
        let r = s.drop_last();
        let fr = r.filter(p);
        let f = s.filter(p);
        lemma_filter(r, p);
        assert forall|y: T| #[trigger] f.contains(y) <==> s.contains(y) && p(y) by {
            assert(fr.contains(y) <==> r.contains(y) && p(y));
            if s.contains(y) && p(y) {
                let i = s.index_of(y);
                if i < r.len() {
                    assert(r[i] == y);
                    let j = fr.index_of(y);
                    assert(f[j] == y);
                } else {
                    assert(f[f.len() - 1] == y);
                }
            }
            if f.contains(y) {
                let j = f.index_of(y);
                if j < fr.len() {
                    assert(fr[j] == y);
                    let i = r.index_of(y);
                    assert(s[i] == y);
                } else {
                    assert(s[s.len() - 1] == y);
                }
            }
        }
        if s.no_duplicates() {
            assert(r.no_duplicates());
            if p(s.last()) {
                assert(!fr.contains(s.last())) by {
                    if r.contains(s.last()) {
                        let i = r.index_of(s.last());
                        assert(s[i] == s[s.len() - 1]);
                    }
                }
            }
        }
    }
}

/// Taking out `xs` and then `x` is taking out `xs` with `x` behind it.
pub proof fn lemma_without_all_push<T>(s: Seq<T>, xs: Seq<T>, x: T)
    ensures
        without(without_all(s, xs), x) == without_all(s, xs.push(x)),
    decreases s.len(),
{
    reveal(Seq::filter);
    let q = xs.push(x);
    if s.len() > 0 {
        let l = s.last();
        lemma_without_all_push(s.drop_last(), xs, x);
        let a = without_all(s.drop_last(), xs);
        if xs.contains(l) {
            let i = xs.index_of(l);
            assert(q[i] == l);
        } else {
            assert(without_all(s, xs) =~= a.push(l));
            assert(a.push(l).drop_last() =~= a);
            if l == x {
                assert(q[q.len() - 1] == l);
            } else if q.contains(l) {
                let i = q.index_of(l);
                assert(xs[i] == l);
            }
        }
    }
}

/// Taking out nothing changes nothing.
pub proof fn lemma_without_all_empty<T>(s: Seq<T>)
    ensures
        without_all(s, Seq::empty()) == s,
    decreases s.len(),
{
    reveal(Seq::filter);
    if s.len() > 0 {
        lemma_without_all_empty(s.drop_last());
        assert(s.drop_last().push(s.last()) =~= s);
    }
}

/// Taking `x` out of a sequence with `y` behind it.
pub proof fn lemma_without_push<T>(s: Seq<T>, y: T, x: T)
    ensures
        without(s.push(y), x) == if y == x {
            without(s, x)
        } else {
            without(s, x).push(y)
        },
{
    reveal(Seq::filter);
    assert(s.push(y).drop_last() =~= s);
}

/// What is not there need not be taken out.
pub proof fn lemma_without_absent<T>(s: Seq<T>, x: T)
    requires
        !s.contains(x),
    ensures
        without(s, x) == s,
    decreases s.len(),
{
    reveal(Seq::filter);
    if s.len() > 0 {
        assert(s.last() == s[s.len() - 1]);
        assert forall|y: T| s.drop_last().contains(y) implies s.contains(y) by {
            let i = s.drop_last().index_of(y);
            assert(s[i] == y);
        }
        lemma_without_absent(s.drop_last(), x);
        assert(s.drop_last().push(s.last()) =~= s);
    }
}

/// A second access in a row changes nothing.
pub proof fn lemma_touch_twice<T>(s: Seq<T>, x: T)
    ensures
        touch(touch(s, x), x) == touch(s, x),
{
    let w = without(s, x);
    lemma_without_push(w, x, x);
    lemma_without(s, x);
    assert(!w.contains(x));
    lemma_without_absent(w, x);
}

/// What is tracked after an access: what was tracked before, and `x`.
pub proof fn lemma_touch<T>(s: Seq<T>, x: T)
    ensures
        forall|y: T| #[trigger] touch(s, x).contains(y) <==> s.contains(y) || y == x,
        s.no_duplicates() ==> touch(s, x).no_duplicates(),
{
    lemma_without(s, x);
    let w = without(s, x);
    assert forall|y: T| #[trigger] touch(s, x).contains(y) <==> s.contains(y) || y == x by {
        if s.contains(y) && y != x {
            assert(w.contains(y));
            let i = w.index_of(y);
            assert(touch(s, x)[i] == y);
        }
        if y == x {
            assert(touch(s, x)[w.len() as int] == y);
        }
        if touch(s, x).contains(y) && y != x {
            let i = touch(s, x).index_of(y);
            assert(w[i] == y);
            assert(w.contains(y));
        }
    }
    assert(!w.contains(x));
}

pub proof fn lemma_touch_all<T>(s: Seq<T>, xs: Seq<T>)
    ensures
        forall|y: T| #[trigger] touch_all(s, xs).contains(y) <==> s.contains(y) || xs.contains(y),
        s.no_duplicates() ==> touch_all(s, xs).no_duplicates(),
    decreases xs.len(),
{
    if xs.len() > 0 {
        let r = xs.drop_last();
        lemma_touch_all(s, r);
        lemma_touch(touch_all(s, r), xs.last());
        assert forall|y: T| #[trigger] touch_all(s, xs).contains(y) <==> s.contains(y) || xs.contains(y) by {
            assert(touch_all(s, r).contains(y) <==> s.contains(y) || r.contains(y));
            if xs.contains(y) {
                let i = xs.index_of(y);
                if i < r.len() {
                    assert(r[i] == y);
                    assert(r.contains(y));
                }
            }
            if r.contains(y) {
                let i = r.index_of(y);
                assert(xs[i] == y);
            }
            assert(xs[xs.len() - 1] == xs.last());
        }
    }
}

/// One more access at the end.
pub proof fn lemma_touch_all_push<T>(s: Seq<T>, xs: Seq<T>, x: T)
    ensures
        touch_all(s, xs.push(x)) == touch(touch_all(s, xs), x),
{
    assert(xs.push(x).drop_last() =~= xs);
}

pub proof fn lemma_touch_all_add<T>(s: Seq<T>, xs: Seq<T>, ys: Seq<T>)
    ensures
        touch_all(s, xs + ys) == touch_all(touch_all(s, xs), ys),
    decreases ys.len(),
{
    if ys.len() == 0 {
        assert(xs + ys =~= xs);
    } else {
        assert((xs + ys).drop_last() =~= xs + ys.drop_last());
        lemma_touch_all_add(s, xs, ys.drop_last());
    }
}

/// One more token takes one more block exactly when the last block is full.
pub proof fn lemma_blocks_for_step(tokens: nat, block_size: nat)
    requires
        block_size > 0,
    ensures
        tokens % block_size == 0 ==> {
            &&& blocks_for(tokens, block_size) == tokens / block_size
            &&& blocks_for(tokens + 1, block_size) == blocks_for(tokens, block_size) + 1
        },
        tokens % block_size != 0 ==> {
            &&& blocks_for(tokens, block_size) == tokens / block_size + 1
            &&& blocks_for(tokens + 1, block_size) == blocks_for(tokens, block_size)
        },
{
    let n = tokens as int;
    let b = block_size as int;
    let q = n / b;
    let r = n % b;
    vstd::arithmetic::div_mod::lemma_fundamental_div_mod(n, b);
    assert(b * q == q * b) by (nonlinear_arith);
    assert((q + 1) * b == q * b + b) by (nonlinear_arith);
    if r == 0 {
        vstd::arithmetic::div_mod::lemma_fundamental_div_mod_converse(n + b - 1, b, q, b - 1);
        vstd::arithmetic::div_mod::lemma_fundamental_div_mod_converse(n + b, b, q + 1, 0);
    } else {
        vstd::arithmetic::div_mod::lemma_fundamental_div_mod_converse(n + b - 1, b, q + 1, r - 1);
        vstd::arithmetic::div_mod::lemma_fundamental_div_mod_converse(n + b, b, q + 1, r);
    }
}

/// A whole block of further tokens takes one more block.
pub proof fn lemma_blocks_for_full(tokens: nat, block_size: nat)
    requires
        block_size > 0,
    ensures
        blocks_for(tokens + block_size, block_size) == blocks_for(tokens, block_size) + 1,
{
    let b = block_size as int;
    vstd::arithmetic::div_mod::lemma_div_plus_one(tokens + b - 1, b);
}

} // verus!
