//! How two lists relate: which elements stay, how often, and in which order.
use vstd::prelude::*;

verus! {

/// `x` stands somewhere before `y` in `s`.
pub open spec fn before<T>(s: Seq<T>, x: T, y: T) -> bool {
    exists|i: int, j: int|
        #![trigger s[i], s[j]]
        0 <= i < j < s.len() && s[i] == x && s[j] == y
}

/// `rest` is what is left of `s` when the elements of `gone` leave: none of them is there any
/// more, every other element is there as often as before, and the others keep their order.
pub open spec fn thinned<T>(s: Seq<T>, gone: Set<T>, rest: Seq<T>) -> bool {
    &&& forall|x: T| #[trigger] rest.contains(x) <==> s.contains(x) && !gone.contains(x)
    &&& forall|x: T|
        !gone.contains(x) ==> #[trigger] rest.to_multiset().count(x) == s.to_multiset().count(x)
    &&& forall|x: T, y: T|
        !gone.contains(x) && !gone.contains(y) ==> (#[trigger] before(rest, x, y) <==> before(
            s,
            x,
            y,
        ))
}

/// `after` is `s` once the elements of `used` have been used, the last of them last: each of them
/// stands behind everything that was not used, what was not used keeps its order, and nothing else
/// comes or goes.
pub open spec fn refreshed<T>(s: Seq<T>, used: Set<T>, after: Seq<T>) -> bool {
    &&& forall|x: T| #[trigger] after.contains(x) <==> s.contains(x) || used.contains(x)
    &&& forall|x: T, y: T|
        !used.contains(x) && !used.contains(y) ==> (#[trigger] before(after, x, y) <==> before(
            s,
            x,
            y,
        ))
    &&& forall|x: T, y: T|
        s.contains(x) && !used.contains(x) && used.contains(y) ==> #[trigger] before(after, x, y)
    &&& forall|x: T, y: T|
        used.contains(x) && !used.contains(y) ==> !#[trigger] before(after, x, y)
}

/// What one more element at the end does to the order.
pub proof fn lemma_before_push<T>(s: Seq<T>, l: T, x: T, y: T)
    ensures
        before(s.push(l), x, y) <==> before(s, x, y) || (s.contains(x) && y == l),
{
    let p = s.push(l);
    if before(s, x, y) {
        let (i, j) = choose|i: int, j: int|
            #![trigger s[i], s[j]]
            0 <= i < j < s.len() && s[i] == x && s[j] == y;
        assert(p[i] == x && p[j] == y);
    }
    if s.contains(x) && y == l {
        let i = s.index_of(x);
        assert(p[i] == x && p[s.len() as int] == y);
    }
    if before(p, x, y) {
        let (i, j) = choose|i: int, j: int|
            #![trigger p[i], p[j]]
            0 <= i < j < p.len() && p[i] == x && p[j] == y;
        assert(s[i] == x);
        if j < s.len() {
            assert(s[j] == y);
        }
    }
}

/// Where elements stand once, order is the order of their positions.
pub proof fn lemma_before_index<T>(s: Seq<T>, x: T, y: T)
    requires
        s.no_duplicates(),
    ensures
        before(s, x, y) <==> s.contains(x) && s.contains(y) && s.index_of(x) < s.index_of(y),
{
    if before(s, x, y) {
        let (i, j) = choose|i: int, j: int|
            #![trigger s[i], s[j]]
            0 <= i < j < s.len() && s[i] == x && s[j] == y;
        assert(s[s.index_of(x)] == s[i]);
        assert(s[s.index_of(y)] == s[j]);
    }
    if s.contains(x) && s.contains(y) && s.index_of(x) < s.index_of(y) {
        assert(s[s.index_of(x)] == x && s[s.index_of(y)] == y);
    }
}

/// A filter thins a list out.
pub proof fn lemma_filter_thins<T>(s: Seq<T>, p: spec_fn(T) -> bool, gone: Set<T>)
    requires
        forall|x: T| #[trigger] gone.contains(x) <==> !p(x),
    ensures
        thinned(s, gone, s.filter(p)),
    decreases s.len(),
{
    reveal(Seq::filter);
    broadcast use vstd::seq_lib::group_to_multiset_ensures;
    broadcast use vstd::multiset::group_multiset_axioms;

    crate::lists::lemma_filter(s, p);
    if s.len() > 0 {
        let r = s.drop_last();
        let l = s.last();
        let fr = r.filter(p);
        lemma_filter_thins(r, p, gone);
        crate::lists::lemma_filter(r, p);
        assert(s =~= r.push(l));
        assert forall|x: T, y: T|
            !gone.contains(x) && !gone.contains(y) implies (#[trigger] before(s.filter(p), x, y)
            <==> before(s, x, y)) by {
            lemma_before_push(r, l, x, y);
            lemma_before_push(fr, l, x, y);
            assert(before(fr, x, y) <==> before(r, x, y));
            assert(fr.contains(x) <==> r.contains(x) && p(x));
        }
        assert forall|x: T| !gone.contains(x) implies #[trigger] s.filter(p).to_multiset().count(x)
            == s.to_multiset().count(x) by {
            assert(fr.to_multiset().count(x) == r.to_multiset().count(x));
            assert(r.push(l).to_multiset() =~= r.to_multiset().insert(l));
            assert(fr.push(l).to_multiset() =~= fr.to_multiset().insert(l));
        }
    }
}

/// Where an element stands once, taking it out is removing that place.
pub proof fn lemma_thinned_once<T>(s: Seq<T>, i: int)
    requires
        s.no_duplicates(),
        0 <= i < s.len(),
    ensures
        crate::lists::without(s, s[i]) == s.remove(i),
    decreases s.len(),
{
    reveal(Seq::filter);
    let x = s[i];
    let r = s.drop_last();
    if i == s.len() - 1 {
        assert(!r.contains(x)) by {
            if r.contains(x) {
                assert(s[r.index_of(x)] == s[i]);
            }
        }
        crate::lists::lemma_without_absent(r, x);
        assert(s.remove(i) =~= r);
    } else {
        lemma_thinned_once(r, i);
        assert(s.remove(i) =~= r.remove(i).push(s.last()));
        assert(s.last() == s[s.len() - 1]);
    }
}

/// `without` thins a list out.
pub proof fn lemma_without_thins<T>(s: Seq<T>, x: T)
    ensures
        thinned(s, Set::empty().insert(x), crate::lists::without(s, x)),
        forall|i: int|
            s.no_duplicates() && 0 <= i < s.len() && #[trigger] s[i] == x ==> crate::lists::without(
                s,
                x,
            ) == s.remove(i),
        !s.contains(x) ==> crate::lists::without(s, x) == s,
{
    lemma_filter_thins(s, |y: T| y != x, Set::empty().insert(x));
    assert forall|i: int|
        s.no_duplicates() && 0 <= i < s.len() && #[trigger] s[i]
            == x implies crate::lists::without(s, x) == s.remove(i) by {
        lemma_thinned_once(s, i);
    }
    if !s.contains(x) {
        crate::lists::lemma_without_absent(s, x);
    }
}

/// `without_all` thins a list out.
pub proof fn lemma_without_all_thins<T>(s: Seq<T>, xs: Seq<T>)
    ensures
        thinned(s, Set::new(|x: T| xs.contains(x)), crate::lists::without_all(s, xs)),
{
    lemma_filter_thins(s, |y: T| !xs.contains(y), Set::new(|x: T| xs.contains(x)));
}

/// `touch` refreshes one element.
pub proof fn lemma_touch_refreshes<T>(s: Seq<T>, x: T)
    ensures
        refreshed(s, Set::empty().insert(x), crate::lists::touch(s, x)),
        crate::lists::touch(s, x).len() > 0,
        crate::lists::touch(s, x).last() == x,
        forall|y: T| !#[trigger] before(crate::lists::touch(s, x), x, y),
        s.no_duplicates() ==> crate::lists::touch(s, x).no_duplicates(),
{
    let w = crate::lists::without(s, x);
    let t = crate::lists::touch(s, x);
    let used = Set::empty().insert(x);
    lemma_without_thins(s, x);
    crate::lists::lemma_touch(s, x);
    assert(!w.contains(x));
    assert forall|y: T, z: T| #[trigger] before(t, y, z) <==> (before(w, y, z) || (w.contains(y)
        && z == x)) by {
        lemma_before_push(w, x, y, z);
    }
    assert forall|y: T, z: T| #[trigger] before(w, y, z) implies w.contains(y) && w.contains(z) by {
        let (i, j) = choose|i: int, j: int|
            #![trigger w[i], w[j]]
            0 <= i < j < w.len() && w[i] == y && w[j] == z;
    }
    assert forall|y: T, z: T|
        !used.contains(y) && !used.contains(z) implies (#[trigger] before(t, y, z) <==> before(
        s,
        y,
        z,
    )) by {
        assert(before(w, y, z) <==> before(s, y, z));
    }
}

/// `touch_all` refreshes the elements, in the order of their last use.
pub proof fn lemma_touch_all_refreshes<T>(s: Seq<T>, xs: Seq<T>)
    ensures
        refreshed(s, Set::new(|x: T| xs.contains(x)), crate::lists::touch_all(s, xs)),
        xs.len() > 0 ==> crate::lists::touch_all(s, xs).len() > 0 && crate::lists::touch_all(
            s,
            xs,
        ).last() == xs.last(),
        forall|i: int, j: int|
            #![trigger xs[i], xs[j]]
            0 <= i < j < xs.len() && (forall|m: int| i < m < xs.len() ==> #[trigger] xs[m] != xs[i])
                ==> before(crate::lists::touch_all(s, xs), xs[i], xs[j]) && !before(
                crate::lists::touch_all(s, xs),
                xs[j],
                xs[i],
            ),
        s.no_duplicates() ==> crate::lists::touch_all(s, xs).no_duplicates(),
    decreases xs.len(),
{
    let t = crate::lists::touch_all(s, xs);
    let used = Set::new(|x: T| xs.contains(x));
    if xs.len() > 0 {
        let r = xs.drop_last();
        let l = xs.last();
        let tr = crate::lists::touch_all(s, r);
        let used_r = Set::new(|x: T| r.contains(x));
        lemma_touch_all_refreshes(s, r);
        lemma_touch_refreshes(tr, l);
        assert forall|x: T| #[trigger] xs.contains(x) <==> r.contains(x) || x == l by {
            if r.contains(x) {
                assert(xs[r.index_of(x)] == x);
            }
            if x == l {
                assert(xs[xs.len() - 1] == x);
            }
            if xs.contains(x) && x != l {
                assert(r[xs.index_of(x)] == x);
            }
        }
        assert forall|x: T| #[trigger] t.contains(x) <==> s.contains(x) || used.contains(x) by {
            assert(tr.contains(x) <==> s.contains(x) || used_r.contains(x));
        }
        assert forall|x: T, y: T|
            !used.contains(x) && !used.contains(y) implies (#[trigger] before(t, x, y) <==> before(
            s,
            x,
            y,
        )) by {
            assert(before(t, x, y) <==> before(tr, x, y));
            assert(before(tr, x, y) <==> before(s, x, y));
        }
        assert forall|x: T, y: T|
            s.contains(x) && !used.contains(x) && used.contains(y) implies #[trigger] before(
            t,
            x,
            y,
        ) by {
            assert(tr.contains(x));
            if y != l {
                assert(before(tr, x, y));
                assert(before(t, x, y) <==> before(tr, x, y));
            }
        }
        assert forall|x: T, y: T|
            used.contains(x) && !used.contains(y) implies !#[trigger] before(t, x, y) by {
            if x != l {
                assert(before(t, x, y) <==> before(tr, x, y));
                assert(used_r.contains(x));
            }
        }
        assert forall|i: int, j: int|
            #![trigger xs[i], xs[j]]
            0 <= i < j < xs.len() && (forall|m: int|
                i < m < xs.len() ==> #[trigger] xs[m] != xs[i]) implies before(t, xs[i], xs[j])
            && !before(t, xs[j], xs[i]) by {
            let x = xs[i];
            let y = xs[j];
            assert(r[i] == x);
            assert(xs[xs.len() - 1] != x);
            assert(tr.contains(x)) by {
                assert(used_r.contains(x));
            }
            if y == l {
                assert(before(t, x, l));
            } else {
                assert(r[j] == y);
                assert forall|m: int| i < m < r.len() implies #[trigger] r[m] != r[i] by {
                    assert(xs[m] != xs[i]);
                }
                assert(before(tr, r[i], r[j]));
                assert(before(t, x, y) <==> before(tr, x, y));
                assert(before(t, y, x) <==> before(tr, y, x));
            }
        }
    }
}

/// Counting occurrences one by one is counting them in a multiset.
pub proof fn lemma_occurrences_are_counted<T>(s: Seq<T>, x: T)
    ensures
        crate::lists::occurrences(s, x) == s.to_multiset().count(x),
    decreases s.len(),
{
    broadcast use vstd::seq_lib::group_to_multiset_ensures;
    broadcast use vstd::multiset::group_multiset_axioms;

    if s.len() == 0 {
        assert(!s.contains(x));
    } else {
        let r = s.drop_last();
        lemma_occurrences_are_counted(r, x);
        assert(s =~= r.push(s.last()));
        assert(r.push(s.last()).to_multiset() =~= r.to_multiset().insert(s.last()));
    }
}

} // verus!
