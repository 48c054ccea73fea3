//! Lists with unique keys read as finite maps: the index tables and the
//! backlink graph keep their entries in vectors and are specified through
//! this view.
use vstd::prelude::*;

verus! {

/// The map from key to entry of a list.
pub open spec fn keyed<T>(v: Seq<T>, key: spec_fn(T) -> Seq<char>) -> Map<Seq<char>, T>
    decreases v.len(),
{
    if v.len() == 0 {
        Map::empty()
    } else {
        keyed(v.drop_last(), key).insert(key(v.last()), v.last())
    }
}

/// No two entries share a key.
pub open spec fn unique_keys<T>(v: Seq<T>, key: spec_fn(T) -> Seq<char>) -> bool {
    forall|i: int, j: int| 0 <= i < j < v.len() ==> key(#[trigger] v[i]) != key(#[trigger] v[j])
}

pub proof fn lemma_keyed_domain<T>(v: Seq<T>, key: spec_fn(T) -> Seq<char>, k: Seq<char>)
    ensures
        keyed(v, key).contains_key(k) <==> exists|i: int| 0 <= i < v.len() && key(#[trigger] v[i]) == k,
    decreases v.len(),
{
    if v.len() > 0 {
        lemma_keyed_domain(v.drop_last(), key, k);
        if exists|i: int| 0 <= i < v.len() && key(#[trigger] v[i]) == k {
            let i = choose|i: int| 0 <= i < v.len() && key(#[trigger] v[i]) == k;
            if i < v.len() - 1 {
                assert(v.drop_last()[i] == v[i]);
            }
        }
        if exists|i: int| 0 <= i < v.len() - 1 && key(#[trigger] v.drop_last()[i]) == k {
            let i = choose|i: int| 0 <= i < v.len() - 1 && key(#[trigger] v.drop_last()[i]) == k;
            assert(v[i] == v.drop_last()[i]);
        }
    }
}

pub proof fn lemma_keyed_value<T>(v: Seq<T>, key: spec_fn(T) -> Seq<char>, i: int)
    requires
        unique_keys(v, key),
        0 <= i < v.len(),
    ensures
        keyed(v, key).contains_key(key(v[i])),
        keyed(v, key)[key(v[i])] == v[i],
    decreases v.len(),
{
    if i < v.len() - 1 {
        assert(v.drop_last()[i] == v[i]);
        lemma_keyed_value(v.drop_last(), key, i);
    }
}

pub proof fn lemma_keyed_update<T>(v: Seq<T>, key: spec_fn(T) -> Seq<char>, i: int, x: T)
    requires
        unique_keys(v, key),
        0 <= i < v.len(),
        key(x) == key(v[i]),
    ensures
        keyed(v.update(i, x), key) == keyed(v, key).insert(key(x), x),
        unique_keys(v.update(i, x), key),
    decreases v.len(),
{
    let w = v.update(i, x);
    if i == v.len() - 1 {
        assert(w.drop_last() =~= v.drop_last());
        assert(keyed(w, key) =~= keyed(v, key).insert(key(x), x));
    } else {
        assert(w.drop_last() =~= v.drop_last().update(i, x));
        lemma_keyed_update(v.drop_last(), key, i, x);
        assert(key(v.last()) != key(x)) by {
            assert(key(v[i]) != key(v[v.len() - 1]));
        }
        assert(keyed(w, key) =~= keyed(v, key).insert(key(x), x));
    }
    assert forall|a: int, b: int| 0 <= a < b < w.len() implies key(#[trigger] w[a]) != key(#[trigger] w[b]) by {
        assert(key(v[a]) != key(v[b]));
    }
}

pub proof fn lemma_keyed_push<T>(v: Seq<T>, key: spec_fn(T) -> Seq<char>, x: T)
    requires
        unique_keys(v, key),
        !keyed(v, key).contains_key(key(x)),
    ensures
        keyed(v.push(x), key) == keyed(v, key).insert(key(x), x),
        unique_keys(v.push(x), key),
{
    assert(v.push(x).drop_last() =~= v);
    lemma_keyed_domain(v, key, key(x));
    let w = v.push(x);
    assert forall|a: int, b: int| 0 <= a < b < w.len() implies key(#[trigger] w[a]) != key(#[trigger] w[b]) by {
        if b == v.len() {
            assert(w[a] == v[a]);
        } else {
            assert(key(v[a]) != key(v[b]));
        }
    }
}

pub proof fn lemma_keyed_remove<T>(v: Seq<T>, key: spec_fn(T) -> Seq<char>, i: int)
    requires
        unique_keys(v, key),
        0 <= i < v.len(),
    ensures
        keyed(v.remove(i), key) == keyed(v, key).remove(key(v[i])),
        unique_keys(v.remove(i), key),
    decreases v.len(),
{
    let w = v.remove(i);
    if i == v.len() - 1 {
        assert(w =~= v.drop_last());
        lemma_keyed_domain(v.drop_last(), key, key(v[i]));
        assert(!keyed(v.drop_last(), key).contains_key(key(v[i]))) by {
            if exists|j: int| 0 <= j < v.len() - 1 && key(#[trigger] v.drop_last()[j]) == key(v[i]) {
                let j = choose|j: int| 0 <= j < v.len() - 1 && key(#[trigger] v.drop_last()[j]) == key(v[i]);
                assert(key(v[j]) != key(v[i]));
            }
        }
        assert(keyed(w, key) =~= keyed(v, key).remove(key(v[i])));
    } else {
        assert(w.drop_last() =~= v.drop_last().remove(i));
        assert(w.last() == v.last());
        lemma_keyed_remove(v.drop_last(), key, i);
        assert(key(v.last()) != key(v[i]));
        assert(v.drop_last()[i] == v[i]);
        assert(keyed(w, key) =~= keyed(v, key).remove(key(v[i])));
    }
    assert forall|a: int, b: int| 0 <= a < b < w.len() implies key(#[trigger] w[a]) != key(#[trigger] w[b]) by {
        let a2 = if a < i { a } else { a + 1 };
        let b2 = if b < i { b } else { b + 1 };
        assert(w[a] == v[a2]);
        assert(w[b] == v[b2]);
        assert(key(v[a2]) != key(v[b2]));
    }
}

/// The entries of `v` that satisfy `p`, in order.
pub open spec fn keep<T>(v: Seq<T>, p: spec_fn(T) -> bool) -> Seq<T>
    decreases v.len(),
{
    if v.len() == 0 {
        Seq::empty()
    } else if p(v.last()) {
        keep(v.drop_last(), p).push(v.last())
    } else {
        keep(v.drop_last(), p)
    }
}

pub proof fn lemma_keep_contains<T>(v: Seq<T>, p: spec_fn(T) -> bool, x: T)
    ensures
        keep(v, p).contains(x) <==> (v.contains(x) && p(x)),
    decreases v.len(),
{
    if v.len() > 0 {
        let d = v.drop_last();
        lemma_keep_contains(d, p, x);
        if keep(v, p).contains(x) {
            if p(v.last()) && x == v.last() {
                assert(v[v.len() - 1] == x);
            } else {
                if p(v.last()) {
                    let j = choose|j: int| 0 <= j < keep(v, p).len() && keep(v, p)[j] == x;
                    assert(keep(d, p).push(v.last())[j] == x);
                    assert(keep(d, p)[j] == x);
                }
                assert(keep(d, p).contains(x));
                let q = choose|q: int| 0 <= q < d.len() && d[q] == x;
                assert(v[q] == x);
            }
        }
        if v.contains(x) && p(x) {
            let q = choose|q: int| 0 <= q < v.len() && v[q] == x;
            if q == v.len() - 1 {
                assert(keep(v, p)[keep(v, p).len() - 1] == x);
            } else {
                assert(d[q] == x);
                assert(keep(d, p).contains(x));
                if p(v.last()) {
                    let j = choose|j: int| 0 <= j < keep(d, p).len() && keep(d, p)[j] == x;
                    assert(keep(v, p)[j] == x);
                }
            }
        }
    }
}

pub proof fn lemma_keep_all<T>(v: Seq<T>, p: spec_fn(T) -> bool)
    requires
        forall|i: int| 0 <= i < v.len() ==> p(#[trigger] v[i]),
    ensures
        keep(v, p) == v,
    decreases v.len(),
{
    if v.len() > 0 {
        let d = v.drop_last();
        assert forall|i: int| 0 <= i < d.len() implies p(#[trigger] d[i]) by {
            assert(d[i] == v[i]);
        }
        lemma_keep_all(d, p);
        assert(p(v[v.len() - 1]));
        assert(d.push(v.last()) =~= v);
    }
}

/// The entries of `m` that satisfy `p`.
pub open spec fn restrict<T>(m: Map<Seq<char>, T>, p: spec_fn(T) -> bool) -> Map<Seq<char>, T> {
    Map::new(|k: Seq<char>| m.contains_key(k) && p(m[k]), |k: Seq<char>| m[k])
}

pub proof fn lemma_keyed_keep<T>(v: Seq<T>, key: spec_fn(T) -> Seq<char>, p: spec_fn(T) -> bool)
    requires
        unique_keys(v, key),
    ensures
        keyed(keep(v, p), key) == restrict(keyed(v, key), p),
        unique_keys(keep(v, p), key),
        forall|x: T| keep(v, p).contains(x) ==> v.contains(x) && p(x),
    decreases v.len(),
{
    if v.len() > 0 {
        let d = v.drop_last();
        assert(unique_keys(d, key)) by {
            assert forall|a: int, b: int| 0 <= a < b < d.len() implies key(#[trigger] d[a]) != key(#[trigger] d[b]) by {
                assert(key(v[a]) != key(v[b]));
            }
        }
        lemma_keyed_keep(d, key, p);
        lemma_keyed_domain(d, key, key(v.last()));
        assert(!keyed(d, key).contains_key(key(v.last()))) by {
            if exists|j: int| 0 <= j < d.len() && key(#[trigger] d[j]) == key(v.last()) {
                let j = choose|j: int| 0 <= j < d.len() && key(#[trigger] d[j]) == key(v.last());
                assert(key(v[j]) != key(v[v.len() - 1]));
            }
        }
        if p(v.last()) {
            let kd = keep(d, p);
            lemma_keyed_domain(kd, key, key(v.last()));
            assert(!keyed(kd, key).contains_key(key(v.last())));
            let w = kd.push(v.last());
            assert(w.drop_last() =~= kd);
            assert(keyed(keep(v, p), key) =~= restrict(keyed(v, key), p));
            assert forall|a: int, b: int| 0 <= a < b < w.len() implies key(#[trigger] w[a]) != key(#[trigger] w[b]) by {
                if b == kd.len() {
                    assert(w[a] == kd[a]);
                    assert(keyed(kd, key).contains_key(key(kd[a]))) by {
                        lemma_keyed_domain(kd, key, key(kd[a]));
                    }
                } else {
                    assert(w[a] == kd[a]);
                    assert(w[b] == kd[b]);
                }
            }
            assert forall|x: T| w.contains(x) implies v.contains(x) && p(x) by {
                let j = choose|j: int| 0 <= j < w.len() && w[j] == x;
                if j < kd.len() {
                    assert(w[j] == kd[j]);
                    assert(kd.contains(x));
                    assert(d.contains(x));
                    let q = choose|q: int| 0 <= q < d.len() && d[q] == x;
                    assert(d[q] == v[q]);
                } else {
                    assert(v[v.len() - 1] == x);
                }
            }
        } else {
            assert(keyed(keep(v, p), key) =~= restrict(keyed(v, key), p));
            assert forall|x: T| keep(v, p).contains(x) implies v.contains(x) && p(x) by {
                assert(keep(d, p).contains(x));
                assert(d.contains(x));
                let q = choose|q: int| 0 <= q < d.len() && d[q] == x;
                assert(d[q] == v[q]);
            }
        }
    } else {
        assert(keyed(keep(v, p), key) =~= restrict(keyed(v, key), p));
    }
}

} // verus!
