//! Enumeration of combinations.
use vstd::prelude::*;

verus! {

/// The `k`-element combinations of `s` (for `1 <= k <= s.len()`), in
/// lexicographic order of positions, each listing its items in the order of
/// `s`.
pub open spec fn combos<T>(s: Seq<T>, k: nat) -> Seq<Seq<T>>
    decreases s.len(), 1nat, 0nat,
{
    if k == 1 {
        Seq::new(s.len(), |i: int| seq![s[i]])
    } else if k == s.len() {
        seq![s]
    } else {
        combos_from(s, k, 0)
    }
}

/// The `k`-element combinations of `s` whose first item stands at position
/// `i` or later.
pub open spec fn combos_from<T>(s: Seq<T>, k: nat, i: nat) -> Seq<Seq<T>>
    decreases s.len(), 0nat, s.len() - i,
{
    if k == 0 || i + k > s.len() {
        Seq::empty()
    } else {
        prefixed(s[i as int], combos(s.subrange((i + 1) as int, s.len() as int), (k - 1) as nat)) + combos_from(
            s,
            k,
            i + 1,
        )
    }
}

/// Each sequence of `rest` with `x` put in front.
pub open spec fn prefixed<T>(x: T, rest: Seq<Seq<T>>) -> Seq<Seq<T>> {
    Seq::new(rest.len(), |j: int| seq![x] + rest[j])
}

/// Vectors of vectors seen as sequences of sequences.
pub open spec fn view_all<T>(v: Seq<Vec<T>>) -> Seq<Seq<T>> {
    Seq::new(v.len(), |i: int| v[i]@)
}

/// All `k`-element combinations of `items`, in lexicographic order of
/// positions.
pub fn enumerate_combos<T: Copy>(items: Vec<T>, k: usize) -> (r: Vec<Vec<T>>)
    requires
        1 <= k <= items@.len(),
    ensures
        view_all(r@) == combos(items@, k as nat),
    decreases items@.len(),
{
    let n = items.len();
    if k == 1 {
        let mut r: Vec<Vec<T>> = Vec::new();
        let mut i: usize = 0;
        while i < n
            invariant
                i <= n,
                n == items@.len(),
                r@.len() == i,
                forall|j: int| 0 <= j < i ==> (#[trigger] r@[j])@ == seq![items@[j]],
            decreases n - i,
        {
            let mut single: Vec<T> = Vec::new();
            single.push(items[i]);
            r.push(single);
            i = i + 1;
        }
        assert(view_all(r@) =~= combos(items@, k as nat));
        return r;
    }
    if k == n {
        let mut r: Vec<Vec<T>> = Vec::new();
        r.push(items);
        assert(view_all(r@) =~= combos(r@[0]@, k as nat));
        return r;
    }
    let ghost s = items@;
    let mut r: Vec<Vec<T>> = Vec::new();
    let mut i: usize = 0;
    while i < n - k + 1
        invariant
            2 <= k < n,
            n == items@.len(),
            s == items@,
            i <= n - k + 1,
            view_all(r@) + combos_from(s, k as nat, i as nat) == combos_from(s, k as nat, 0),
        decreases n - k + 1 - i,
    {
        let x: T = items[i];
        let mut tail: Vec<T> = Vec::new();
        let mut t: usize = i + 1;
        while t < n
            invariant
                i < t <= n,
                n == items@.len(),
                tail@ == items@.subrange(i + 1, t as int),
            decreases n - t,
        {
            tail.push(items[t]);
            assert(tail@ =~= items@.subrange(i + 1, t + 1));
            t = t + 1;
        }
        let remainder = enumerate_combos(tail, k - 1);
        let ghost rest = combos(s.subrange(i + 1, n as int), (k - 1) as nat);
        let ghost before = view_all(r@);
        let mut j: usize = 0;
        while j < remainder.len()
            invariant
                j <= remainder@.len(),
                view_all(remainder@) == rest,
                view_all(r@) == before + prefixed(x, rest).subrange(0, j as int),
            decreases remainder@.len() - j,
        {
            let y = &remainder[j];
            let mut combo: Vec<T> = Vec::new();
            combo.push(x);
            let mut u: usize = 0;
            while u < y.len()
                invariant
                    u <= y@.len(),
                    combo@ == seq![x] + y@.subrange(0, u as int),
                decreases y@.len() - u,
            {
                combo.push(y[u]);
                assert(combo@ =~= seq![x] + y@.subrange(0, u + 1));
                u = u + 1;
            }
            assert(y@ == rest[j as int]);
            assert(combo@ =~= prefixed(x, rest)[j as int]);
            let ghost old_r = r@;
            let ghost c = combo@;
            assert(rest.len() == remainder@.len());
            r.push(combo);
            assert(view_all(r@) =~= view_all(old_r).push(c));
            assert(view_all(r@) =~= before + prefixed(x, rest).subrange(0, j + 1));
            j = j + 1;
        }
        assert(prefixed(x, rest).subrange(0, j as int) =~= prefixed(x, rest));
        assert(combos_from(s, k as nat, i as nat) == prefixed(x, rest) + combos_from(
            s,
            k as nat,
            (i + 1) as nat,
        ));
        assert(view_all(r@) + combos_from(s, k as nat, (i + 1) as nat) =~= combos_from(
            s,
            k as nat,
            0,
        ));
        i = i + 1;
    }
    assert(combos_from(s, k as nat, i as nat) =~= Seq::<Seq<T>>::empty());
    assert(view_all(r@) =~= combos(items@, k as nat));
    r
}

} // verus!
