use vstd::prelude::*;

verus! {

/// `closer(a, b)` answered that `a` lies strictly nearer than `b`.
pub open spec fn is_closer<T, F: Fn(&T, &T) -> bool>(closer: F, a: T, b: T) -> bool {
    closer.ensures((&a, &b), true)
}

/// `closer` may be called on any two values and gives one answer for each pair.
pub open spec fn is_comparison<T, F: Fn(&T, &T) -> bool>(closer: F) -> bool {
    &&& forall|a: &T, b: &T| #[trigger] closer.requires((a, b))
    &&& forall|a: &T, b: &T|
        #[trigger] closer.ensures((a, b), true) ==> !closer.ensures((a, b), false)
}

/// `closer` orders values as `<` orders distances: irreflexive, transitive, and
/// with ties (neither nearer) forming classes.
pub open spec fn is_strict_weak_order<T, F: Fn(&T, &T) -> bool>(closer: F) -> bool {
    &&& forall|a: T| !#[trigger] is_closer(closer, a, a)
    &&& forall|a: T, b: T, c: T|
        #[trigger] is_closer(closer, a, b) && #[trigger] is_closer(closer, b, c) ==> is_closer(
            closer,
            a,
            c,
        )
    &&& forall|a: T, b: T, c: T|
        #[trigger] is_closer(closer, a, b) ==> is_closer(closer, a, c) || #[trigger] is_closer(
            closer,
            c,
            b,
        )
}

/// The index of the nearest hit, found by walking the hits in order and
/// keeping the current best until a hit strictly nearer than it comes.
pub open spec fn nearest_of<T, F: Fn(&T, &T) -> bool>(hits: Seq<Option<T>>, closer: F) -> Option<
    int,
>
    decreases hits.len(),
{
    if hits.len() == 0 {
        None
    } else {
        let prev = nearest_of(hits.drop_last(), closer);
        match hits.last() {
            None => prev,
            Some(h) => match prev {
                None => Some(hits.len() - 1),
                Some(b) => if is_closer(closer, h, hits[b].unwrap()) {
                    Some(hits.len() - 1)
                } else {
                    prev
                },
            },
        }
    }
}

/// An index as an integer.
pub open spec fn index_of(r: Option<usize>) -> Option<int> {
    match r {
        None => None,
        Some(k) => Some(k as int),
    }
}

/// The nearest hit is a hit, there is one whenever some object was hit, and no
/// later hit is strictly nearer than it.
pub proof fn lemma_nearest_is_hit<T, F: Fn(&T, &T) -> bool>(hits: Seq<Option<T>>, closer: F)
    ensures
        nearest_of(hits, closer) is None <==> forall|i: int|
            0 <= i < hits.len() ==> #[trigger] hits[i] is None,
        nearest_of(hits, closer) matches Some(k) ==> {
            &&& 0 <= k < hits.len()
            &&& hits[k] is Some
            &&& forall|j: int|
                k < j < hits.len() && #[trigger] hits[j] is Some ==> !is_closer(
                    closer,
                    hits[j].unwrap(),
                    hits[k].unwrap(),
                )
        },
    decreases hits.len(),
{
    if hits.len() > 0 {
        let pre = hits.drop_last();
        lemma_nearest_is_hit(pre, closer);
        assert forall|i: int| 0 <= i < pre.len() implies pre[i] == #[trigger] hits[i] by {}
        if nearest_of(hits, closer) is None {
            assert forall|i: int| 0 <= i < hits.len() implies #[trigger] hits[i] is None by {
                if i < pre.len() {
                    assert(pre[i] is None);
                }
            }
        }
    }
}

/// Under a strict weak order, the nearest hit is the first of the nearest: no
/// hit is strictly nearer than it, and it is strictly nearer than every hit
/// before it, so of two hits at an equal distance the earlier wins.
pub proof fn lemma_nearest_is_first_minimum<T, F: Fn(&T, &T) -> bool>(
    hits: Seq<Option<T>>,
    closer: F,
)
    requires
        is_strict_weak_order(closer),
    ensures
        nearest_of(hits, closer) matches Some(k) ==> {
            &&& forall|j: int|
                0 <= j < hits.len() && #[trigger] hits[j] is Some ==> !is_closer(
                    closer,
                    hits[j].unwrap(),
                    hits[k].unwrap(),
                )
            &&& forall|j: int|
                0 <= j < k && #[trigger] hits[j] is Some ==> is_closer(
                    closer,
                    hits[k].unwrap(),
                    hits[j].unwrap(),
                )
        },
    decreases hits.len(),
{
    if hits.len() > 0 {
        let pre = hits.drop_last();
        let n = hits.len() - 1;
        lemma_nearest_is_first_minimum(pre, closer);
        lemma_nearest_is_hit(pre, closer);
        lemma_nearest_is_hit(hits, closer);
        assert forall|i: int| 0 <= i < pre.len() implies pre[i] == #[trigger] hits[i] by {}
        if let Some(h) = hits.last() {
            if let Some(m) = nearest_of(pre, closer) {
                let hm = hits[m].unwrap();
                if is_closer(closer, h, hm) {
                    assert forall|j: int|
                        0 <= j < hits.len() && #[trigger] hits[j] is Some implies !is_closer(
                        closer,
                        hits[j].unwrap(),
                        h,
                    ) by {
                        if j < n {
                            assert(pre[j] is Some);
                        }
                    }
                    assert forall|j: int| 0 <= j < n && #[trigger] hits[j] is Some implies is_closer(
                        closer,
                        h,
                        hits[j].unwrap(),
                    ) by {
                        assert(pre[j] is Some);
                        assert(!is_closer(closer, hits[j].unwrap(), hm));
                    }
                } else {
                    assert forall|j: int|
                        0 <= j < hits.len() && #[trigger] hits[j] is Some implies !is_closer(
                        closer,
                        hits[j].unwrap(),
                        hm,
                    ) by {
                        if j < n {
                            assert(pre[j] is Some);
                        }
                    }
                    assert forall|j: int| 0 <= j < m && #[trigger] hits[j] is Some implies is_closer(
                        closer,
                        hm,
                        hits[j].unwrap(),
                    ) by {
                        assert(pre[j] is Some);
                    }
                }
            } else {
                assert forall|j: int| 0 <= j < n implies #[trigger] hits[j] is None by {
                    assert(pre[j] is None);
                }
            }
        } else {
            if let Some(m) = nearest_of(pre, closer) {
                assert forall|j: int|
                    0 <= j < hits.len() && #[trigger] hits[j] is Some implies !is_closer(
                    closer,
                    hits[j].unwrap(),
                    hits[m].unwrap(),
                ) by {
                    if j < n {
                        assert(pre[j] is Some);
                    }
                }
                assert forall|j: int| 0 <= j < m && #[trigger] hits[j] is Some implies is_closer(
                    closer,
                    hits[m].unwrap(),
                    hits[j].unwrap(),
                ) by {
                    assert(pre[j] is Some);
                }
            }
        }
    }
}

/// Picks the nearest of the hits that a ray made on the objects of a scene,
/// one entry per object in order (`None` where the object was missed).
/// `closer(a, b)` says whether hit `a` lies strictly nearer than hit `b`; a
/// hit replaces the current best only when strictly nearer, so on a tie the
/// earlier object wins. Returns `None` when no object was hit.
pub fn nearest_hit<T, F: Fn(&T, &T) -> bool>(hits: &Vec<Option<T>>, closer: F) -> (r: Option<
    usize,
>)
    requires
        is_comparison(closer),
    ensures
        index_of(r) == nearest_of(hits@, closer),
        r is None <==> forall|i: int| 0 <= i < hits@.len() ==> #[trigger] hits@[i] is None,
        r matches Some(k) ==> {
            &&& k < hits@.len()
            &&& hits@[k as int] is Some
            &&& forall|j: int|
                k < j < hits@.len() && #[trigger] hits@[j] is Some ==> !is_closer(
                    closer,
                    hits@[j].unwrap(),
                    hits@[k as int].unwrap(),
                )
        },
{
    let mut best: Option<usize> = None;
    let mut i: usize = 0;
    while i < hits.len()
        invariant
            i <= hits@.len(),
            is_comparison(closer),
            index_of(best) == nearest_of(hits@.take(i as int), closer),
            best matches Some(b) ==> b < i && hits@[b as int] is Some,
        decreases hits@.len() - i,
    {
        proof {
            assert(hits@.take(i as int + 1).drop_last() =~= hits@.take(i as int));
        }
        if let Some(h) = &hits[i] {
            match best {
                None => {
                    best = Some(i);
                },
                Some(b) => {
                    if let Some(bh) = &hits[b] {
                        if closer(h, bh) {
                            best = Some(i);
                        }
                    }
                },
            }
        }
        i += 1;
    }
    proof {
        assert(hits@.take(hits@.len() as int) =~= hits@);
        lemma_nearest_is_hit(hits@, closer);
    }
    best
}

/// Resolves what a ray sees: `background` when no object was hit, else what
/// `shade` gives for the nearest hit (the object's index and its hit), as
/// picked by `nearest_hit`.
pub fn shade_nearest<T, C, F: Fn(&T, &T) -> bool, S: FnOnce(usize, &T) -> C>(
    hits: &Vec<Option<T>>,
    closer: F,
    background: C,
    shade: S,
) -> (r: C)
    requires
        is_comparison(closer),
        forall|k: usize, h: &T| #[trigger] shade.requires((k, h)),
    ensures
        match nearest_of(hits@, closer) {
            None => r == background,
            Some(k) => shade.ensures((k as usize, &hits@[k].unwrap()), r),
        },
        (forall|i: int| 0 <= i < hits@.len() ==> #[trigger] hits@[i] is None) ==> r == background,
{
    match nearest_hit(hits, closer) {
        None => background,
        Some(k) => shade(k, hits[k].as_ref().unwrap()),
    }
}

} // verus!
