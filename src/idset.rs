//! Sets of ids kept in a `Vec` without repeats.
use vstd::prelude::*;

verus! {

/// The ids held by `v`, as a set.
pub open spec fn id_set(v: Seq<usize>) -> Set<usize> {
    Set::new(|x: usize| v.contains(x))
}

/// The ids of `v` strictly increase.
pub open spec fn sorted(v: Seq<usize>) -> bool {
    forall|a: int, b: int| 0 <= a < b < v.len() ==> v[a] < v[b]
}

/// Two increasing id lists that hold the same ids are the same list.
pub proof fn lemma_sorted_unique(a: Seq<usize>, b: Seq<usize>)
    requires
        sorted(a),
        sorted(b),
        id_set(a) == id_set(b),
    ensures
        a == b,
    decreases a.len(),
{
    assert forall|x: usize| a.contains(x) <==> b.contains(x) by {
        assert(id_set(a).contains(x) == a.contains(x));
        assert(id_set(b).contains(x) == b.contains(x));
        assert(id_set(a).contains(x) == id_set(b).contains(x));
    }
    if a.len() == 0 {
        if b.len() > 0 {
            assert(b.contains(b[0]));
        }
        assert(a =~= b);
    } else {
        assert(a.contains(a[0]));
        assert(b.len() > 0);
        assert(b.contains(b[0]));
        let i = choose|i: int| 0 <= i < a.len() && a[i] == b[0];
        let j = choose|j: int| 0 <= j < b.len() && b[j] == a[0];
        assert(a[0] <= a[i]);
        assert(b[0] <= b[j]);
        assert(a[0] == b[0]);
        let ra = a.drop_first();
        let rb = b.drop_first();
        assert(id_set(ra) =~= id_set(rb)) by {
            assert forall|x: usize| ra.contains(x) <==> rb.contains(x) by {
                if ra.contains(x) {
                    let k = choose|k: int| 0 <= k < ra.len() && ra[k] == x;
                    assert(a[k + 1] == x);
                    assert(a.contains(x));
                    let m = choose|m: int| 0 <= m < b.len() && b[m] == x;
                    assert(m != 0);
                    assert(rb[m - 1] == x);
                }
                if rb.contains(x) {
                    let k = choose|k: int| 0 <= k < rb.len() && rb[k] == x;
                    assert(b[k + 1] == x);
                    assert(b.contains(x));
                    let m = choose|m: int| 0 <= m < a.len() && a[m] == x;
                    assert(m != 0);
                    assert(ra[m - 1] == x);
                }
            }
        }
        lemma_sorted_unique(ra, rb);
        assert(a =~= b) by {
            assert forall|k: int| 0 <= k < a.len() implies a[k] == b[k] by {
                if k > 0 {
                    assert(a[k] == ra[k - 1]);
                    assert(b[k] == rb[k - 1]);
                }
            }
        }
    }
}

/// Adds `x` to the ids of `v` unless it is already there.
pub fn insert_id(v: &mut Vec<usize>, x: usize)
    requires
        old(v)@.no_duplicates(),
    ensures
        final(v)@.no_duplicates(),
        id_set(final(v)@) == id_set(old(v)@).insert(x),
        sorted(old(v)@) ==> sorted(final(v)@),
        !old(v)@.contains(x) && (forall|k: int| 0 <= k < old(v)@.len() ==> old(v)@[k] < x) ==> final(v)@ == old(v)@.push(x),
        old(v)@.contains(x) ==> final(v)@ == old(v)@,
{
    let present = contains_id(v, x);
    if !present {
        let mut p: usize = 0;
        while p < v.len() && v[p] < x
            invariant
                p <= v@.len(),
                forall|k: int| 0 <= k < p ==> v@[k] < x,
            decreases v@.len() - p,
        {
            p = p + 1;
        }
        let ghost prev = v@;
        v.insert(p, x);
        proof {
            assert forall|y: usize| #[trigger] v@.contains(y) <==> prev.contains(y) || y == x by {
                if v@.contains(y) {
                    let i = choose|i: int| 0 <= i < v@.len() && v@[i] == y;
                    if i < p {
                        assert(prev[i] == y);
                    } else if i > p {
                        assert(prev[i - 1] == y);
                    }
                }
                if prev.contains(y) {
                    let i = choose|i: int| 0 <= i < prev.len() && prev[i] == y;
                    if i < p {
                        assert(v@[i] == y);
                    } else {
                        assert(v@[i + 1] == y);
                    }
                }
                if y == x {
                    assert(v@[p as int] == y);
                }
            }
            assert forall|i: int, j: int| 0 <= i < v@.len() && 0 <= j < v@.len() && i != j implies v@[i] != v@[j] by {
                let i2 = if i < p { i } else { i - 1 };
                let j2 = if j < p { j } else { j - 1 };
                if i == p {
                    assert(prev.contains(v@[j]));
                } else if j == p {
                    assert(prev.contains(v@[i]));
                } else {
                    assert(v@[i] == prev[i2]);
                    assert(v@[j] == prev[j2]);
                }
            }
            if sorted(prev) {
                assert forall|i: int, j: int| 0 <= i < j < v@.len() implies v@[i] < v@[j] by {
                    if j == p {
                        assert(v@[i] == prev[i]);
                    } else if i == p {
                        assert(v@[j] == prev[j - 1]);
                        if p < prev.len() {
                            assert(!(prev[p as int] < x));
                            assert(prev[p as int] != x) by { assert(prev.contains(prev[p as int])); }
                            if j - 1 > p {
                                assert(prev[p as int] < prev[j - 1]);
                            }
                        }
                    } else {
                        let i2 = if i < p { i } else { i - 1 };
                        let j2 = if j < p { j } else { j - 1 };
                        assert(v@[i] == prev[i2]);
                        assert(v@[j] == prev[j2]);
                    }
                }
            }
            if forall|k: int| 0 <= k < prev.len() ==> prev[k] < x {
                assert(p == prev.len());
                assert(v@ =~= prev.push(x));
            }
        }
    }
    assert(id_set(v@) =~= id_set(old(v)@).insert(x));
}

/// Takes `x` out of the ids of `v`.
pub fn remove_id(v: &mut Vec<usize>, x: usize)
    requires
        old(v)@.no_duplicates(),
    ensures
        final(v)@.no_duplicates(),
        id_set(final(v)@) == id_set(old(v)@).remove(x),
        sorted(old(v)@) ==> sorted(final(v)@),
{
    let mut out: Vec<usize> = Vec::new();
    let mut i: usize = 0;
    while i < v.len()
        invariant
            i <= v@.len(),
            v@.no_duplicates(),
            out@.no_duplicates(),
            forall|y: usize| out@.contains(y) <==> (y != x && exists|k: int| 0 <= k < i && v@[k] == y),
            sorted(v@) ==> sorted(out@),
            sorted(v@) ==> forall|a: int| 0 <= a < out@.len() ==> exists|k: int| 0 <= k < i && v@[k] == #[trigger] out@[a],
        decreases v@.len() - i,
    {
        let y = v[i];
        if y != x {
            proof {
                assert(!out@.contains(y)) by {
                    if out@.contains(y) {
                        let k = choose|k: int| 0 <= k < i && v@[k] == y;
                        assert(v@[k] == v@[i as int]);
                    }
                }
            }
            let ghost prev = out@;
            out.push(y);
            proof {
                assert forall|z: usize| #[trigger] out@.contains(z) <==> prev.contains(z) || z == y by {
                    if out@.contains(z) {
                        let j = choose|j: int| 0 <= j < out@.len() && out@[j] == z;
                        if j < prev.len() {
                            assert(prev[j] == z);
                        }
                    }
                    if prev.contains(z) {
                        let j = choose|j: int| 0 <= j < prev.len() && prev[j] == z;
                        assert(out@[j] == z);
                    }
                    if z == y {
                        assert(out@[prev.len() as int] == z);
                    }
                }
                assert forall|z: usize| out@.contains(z) <==> (z != x && exists|k: int| 0 <= k < i + 1 && v@[k] == z) by {
                    if z != x && exists|k: int| 0 <= k < i + 1 && v@[k] == z {
                        let k = choose|k: int| 0 <= k < i + 1 && v@[k] == z;
                        if k < i {
                            assert(prev.contains(z));
                        }
                    }
                }
                assert forall|a: int, b: int| 0 <= a < b < out@.len() implies out@[a] != out@[b] by {
                    if b == out@.len() - 1 {
                        assert(prev[a] == out@[a]);
                        assert(prev.contains(out@[a]));
                    }
                }
                if sorted(v@) {
                    assert forall|a: int| 0 <= a < out@.len() implies exists|k: int| 0 <= k < i + 1 && v@[k] == #[trigger] out@[a] by {
                        if a < prev.len() {
                            assert(out@[a] == prev[a]);
                            let k = choose|k: int| 0 <= k < i && v@[k] == #[trigger] prev[a];
                        } else {
                            assert(v@[i as int] == out@[a]);
                        }
                    }
                    assert forall|a: int, b: int| 0 <= a < b < out@.len() implies out@[a] < out@[b] by {
                        assert(out@[a] == prev[a]);
                        if b == out@.len() - 1 {
                            let k = choose|k: int| 0 <= k < i && v@[k] == #[trigger] prev[a];
                            assert(v@[k] < v@[i as int]);
                        } else {
                            assert(out@[b] == prev[b]);
                        }
                    }
                }
            }
        } else {
            proof {
                assert forall|z: usize| out@.contains(z) <==> (z != x && exists|k: int| 0 <= k < i + 1 && v@[k] == z) by {
                    if z != x && exists|k: int| 0 <= k < i + 1 && v@[k] == z {
                        let k = choose|k: int| 0 <= k < i + 1 && v@[k] == z;
                        assert(k < i);
                    }
                }
            }
        }
        i = i + 1;
    }
    *v = out;
    assert(id_set(v@) =~= id_set(old(v)@).remove(x)) by {
        assert forall|y: usize| old(v)@.contains(y) && y != x implies v@.contains(y) by {
            let k = choose|k: int| 0 <= k < old(v)@.len() && old(v)@[k] == y;
        }
    }
}

/// Whether `x` is one of the ids of `v`.
pub fn contains_id(v: &Vec<usize>, x: usize) -> (r: bool)
    ensures
        r == v@.contains(x),
{
    let mut i: usize = 0;
    while i < v.len()
        invariant
            i <= v@.len(),
            forall|k: int| 0 <= k < i ==> v@[k] != x,
        decreases v@.len() - i,
    {
        if v[i] == x {
            return true;
        }
        i = i + 1;
    }
    false
}

} // verus!
