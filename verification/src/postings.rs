//! Posting lists: strictly ascending sequences of document numbers, and the
//! set operations on them that a query needs.

use vstd::prelude::*;

verus! {

/// Whether `s` is strictly ascending. Such a list holds no number twice.
pub open spec fn is_ascending(s: Seq<usize>) -> bool {
    forall|i: int, j: int| 0 <= i < j < s.len() ==> s[i] < s[j]
}

/// Whether `s` lists exactly the numbers of `set`, in ascending order.
pub open spec fn lists(s: Seq<usize>, set: Set<usize>) -> bool {
    is_ascending(s) && forall|x: usize| s.contains(x) <==> set.contains(x)
}

/// The posting list of a set of document numbers: the one sequence that is
/// strictly ascending and holds exactly the numbers of the set.
pub open spec fn ascending_of(set: Set<usize>) -> Seq<usize> {
    choose|s: Seq<usize>| lists(s, set)
}

/// The documents of both `a` and `b`.
pub open spec fn intersection(a: Seq<usize>, b: Seq<usize>) -> Seq<usize> {
    ascending_of(a.to_set().intersect(b.to_set()))
}

/// The documents of `a` or of `b`.
pub open spec fn union(a: Seq<usize>, b: Seq<usize>) -> Seq<usize> {
    ascending_of(a.to_set().union(b.to_set()))
}

/// The documents of `a` that are not in `b`.
pub open spec fn difference(a: Seq<usize>, b: Seq<usize>) -> Seq<usize> {
    ascending_of(a.to_set().difference(b.to_set()))
}

/// The document numbers `0, 1, ..` below `n`, in order.
pub open spec fn universe(n: nat) -> Seq<usize> {
    Seq::new(n, |i: int| i as usize)
}

/// `s` with `v` put in its place; `s` itself where it holds `v` already.
pub open spec fn with_document(s: Seq<usize>, v: usize) -> Seq<usize> {
    ascending_of(s.to_set().insert(v))
}

/// Two ascending lists of the same numbers are the same list.
pub proof fn lemma_ascending_unique(a: Seq<usize>, b: Seq<usize>)
    requires
        is_ascending(a),
        is_ascending(b),
        forall|x: usize| a.contains(x) <==> b.contains(x),
    ensures
        a == b,
    decreases a.len(),
{
    if a.len() == 0 {
        if b.len() > 0 {
            assert(b.contains(b[0]));
        }
        assert(a =~= b);
    } else {
        let top = a.last();
        assert(a.contains(top));
        assert(b.contains(top));
        let k = choose|k: int| 0 <= k < b.len() && b[k] == top;
        if k < b.len() - 1 {
            let other = b[b.len() - 1];
            assert(b.contains(other));
            assert(a.contains(other));
            let m = choose|m: int| 0 <= m < a.len() && a[m] == other;
            assert(a[m] <= a[a.len() - 1]);
        }
        let a0 = a.drop_last();
        let b0 = b.drop_last();
        assert forall|x: usize| a0.contains(x) <==> b0.contains(x) by {
            if a0.contains(x) {
                let i = choose|i: int| 0 <= i < a0.len() && a0[i] == x;
                assert(a[i] == x);
                assert(a.contains(x));
                let j = choose|j: int| 0 <= j < b.len() && b[j] == x;
                assert(a[i] < a[a.len() - 1]);
                assert(b0[j] == x);
            }
            if b0.contains(x) {
                let j = choose|j: int| 0 <= j < b0.len() && b0[j] == x;
                assert(b[j] == x);
                assert(b.contains(x));
                let i = choose|i: int| 0 <= i < a.len() && a[i] == x;
                assert(b[j] < b[b.len() - 1]);
                assert(a0[i] == x);
            }
        }
        lemma_ascending_unique(a0, b0);
        assert(a =~= a0.push(top));
        assert(b =~= b0.push(top));
    }
}

/// An ascending list of the numbers of a set is the posting list of the set.
pub proof fn lemma_ascending_of(s: Seq<usize>, set: Set<usize>)
    requires
        lists(s, set),
    ensures
        ascending_of(set) == s,
{
    let chosen = ascending_of(set);
    assert(lists(chosen, set));
    lemma_ascending_unique(chosen, s);
}

/// An ascending list is the posting list of its own numbers.
pub proof fn lemma_ascending_of_own(s: Seq<usize>)
    requires
        is_ascending(s),
    ensures
        ascending_of(s.to_set()) == s,
{
    lemma_ascending_of(s, s.to_set());
}

/// The documents of `first` that `second` holds too.
pub fn intersect(first: &Vec<usize>, second: &Vec<usize>) -> (res: Vec<usize>)
    requires
        is_ascending(first@),
        is_ascending(second@),
    ensures
        res@ == intersection(first@, second@),
        lists(res@, first@.to_set().intersect(second@.to_set())),
{
    let mut res: Vec<usize> = Vec::new();
    let mut i: usize = 0;
    let mut j: usize = 0;
    while i < first.len() && j < second.len()
        invariant
            i <= first.len(),
            j <= second.len(),
            is_ascending(first@),
            is_ascending(second@),
            is_ascending(res@),
            forall|k: int|
                0 <= k < res@.len() ==> first@.contains(#[trigger] res@[k]) && second@.contains(res@[k]),
            forall|k: int|
                0 <= k < res@.len() ==> (i < first.len() ==> #[trigger] res@[k] < first@[i as int]) && (j
                    < second.len() ==> res@[k] < second@[j as int]),
            forall|a: int, b: int|
                0 <= a < first.len() && 0 <= b < second.len() && #[trigger] first@[a] == #[trigger] second@[b]
                    && (a < i || b < j) ==> res@.contains(first@[a]),
        decreases first.len() - i + second.len() - j,
    {
        let ghost before = res@;
        if first[i] == second[j] {
            res.push(first[i]);
            assert(res@[res@.len() - 1] == first@[i as int]);
            assert forall|a: int, b: int|
                0 <= a < first.len() && 0 <= b < second.len() && #[trigger] first@[a] == #[trigger] second@[b]
                    && (a < i + 1 || b < j + 1) implies res@.contains(first@[a]) by {
                if a < i || b < j {
                    assert(before.contains(first@[a]));
                    let k = choose|k: int| 0 <= k < before.len() && before[k] == first@[a];
                    assert(res@[k] == first@[a]);
                } else {
                    assert(a == i || b == j);
                    assert(first@[a] == first@[i as int]);
                }
            }
            assert forall|k: int| 0 <= k < res@.len() implies first@.contains(#[trigger] res@[k])
                && second@.contains(res@[k]) by {
                if k < before.len() {
                    assert(res@[k] == before[k]);
                }
            }
            i += 1;
            j += 1;
        } else if first[i] < second[j] {
            i += 1;
        } else {
            j += 1;
        }
    }
    proof {
        let both = first@.to_set().intersect(second@.to_set());
        assert forall|x: usize| res@.contains(x) <==> both.contains(x) by {
            if both.contains(x) {
                let a = choose|a: int| 0 <= a < first@.len() && first@[a] == x;
                let b = choose|b: int| 0 <= b < second@.len() && second@[b] == x;
                assert(first@[a] == second@[b]);
                assert(a < i || b < j);
            }
        }
        lemma_ascending_of(res@, both);
    }
    res
}


/// The documents of `first` that `second` does not hold.
pub fn intersect_not(first: &Vec<usize>, second: &Vec<usize>) -> (res: Vec<usize>)
    requires
        is_ascending(first@),
        is_ascending(second@),
    ensures
        res@ == difference(first@, second@),
        lists(res@, first@.to_set().difference(second@.to_set())),
{
    let mut res: Vec<usize> = Vec::new();
    let mut i: usize = 0;
    let mut j: usize = 0;
    while i < first.len()
        invariant
            i <= first.len(),
            j <= second.len(),
            is_ascending(first@),
            is_ascending(second@),
            is_ascending(res@),
            forall|k: int|
                0 <= k < res@.len() ==> first@.contains(#[trigger] res@[k]) && !second@.contains(res@[k]),
            forall|k: int| 0 <= k < res@.len() && i < first.len() ==> #[trigger] res@[k] < first@[i as int],
            forall|a: int|
                0 <= a < i ==> second@.contains(#[trigger] first@[a]) || res@.contains(first@[a]),
            forall|b: int| 0 <= b < j && i < first.len() ==> #[trigger] second@[b] < first@[i as int],
        decreases first.len() - i + second.len() - j,
    {
        let ghost before = res@;
        if j < second.len() && first[i] == second[j] {
            assert(second@.contains(first@[i as int]));
            i += 1;
            j += 1;
        } else if j >= second.len() || first[i] < second[j] {
            assert(!second@.contains(first@[i as int])) by {
                if second@.contains(first@[i as int]) {
                    let b = choose|b: int| 0 <= b < second@.len() && second@[b] == first@[i as int];
                    if b >= j {
                        assert(second@[j as int] <= second@[b]);
                    }
                }
            }
            res.push(first[i]);
            assert(res@[res@.len() - 1] == first@[i as int]);
            assert forall|k: int| 0 <= k < res@.len() implies first@.contains(#[trigger] res@[k])
                && !second@.contains(res@[k]) by {
                if k < before.len() {
                    assert(res@[k] == before[k]);
                }
            }
            assert forall|a: int| 0 <= a < i + 1 implies second@.contains(#[trigger] first@[a])
                || res@.contains(first@[a]) by {
                if a < i && before.contains(first@[a]) {
                    let k = choose|k: int| 0 <= k < before.len() && before[k] == first@[a];
                    assert(res@[k] == first@[a]);
                }
            }
            i += 1;
        } else {
            j += 1;
        }
    }
    proof {
        let rest = first@.to_set().difference(second@.to_set());
        assert forall|x: usize| res@.contains(x) <==> rest.contains(x) by {
            if rest.contains(x) {
                let a = choose|a: int| 0 <= a < first@.len() && first@[a] == x;
                assert(second@.contains(first@[a]) || res@.contains(first@[a]));
            }
        }
        lemma_ascending_of(res@, rest);
    }
    res
}

/// The documents of `first` or of `second`, each once.
pub fn merge(first: &Vec<usize>, second: &Vec<usize>) -> (res: Vec<usize>)
    requires
        is_ascending(first@),
        is_ascending(second@),
    ensures
        res@ == union(first@, second@),
        lists(res@, first@.to_set().union(second@.to_set())),
{
    let mut res: Vec<usize> = Vec::new();
    let mut i: usize = 0;
    let mut j: usize = 0;
    while i < first.len() || j < second.len()
        invariant
            i <= first.len(),
            j <= second.len(),
            is_ascending(first@),
            is_ascending(second@),
            is_ascending(res@),
            forall|k: int|
                0 <= k < res@.len() ==> first@.contains(#[trigger] res@[k]) || second@.contains(res@[k]),
            forall|k: int|
                0 <= k < res@.len() ==> (i < first.len() ==> #[trigger] res@[k] < first@[i as int]) && (j
                    < second.len() ==> res@[k] < second@[j as int]),
            forall|a: int| 0 <= a < i ==> res@.contains(#[trigger] first@[a]),
            forall|b: int| 0 <= b < j ==> res@.contains(#[trigger] second@[b]),
        decreases first.len() - i + second.len() - j,
    {
        let ghost before = res@;
        let ghost i0 = i;
        let ghost j0 = j;
        let next: usize;
        if j >= second.len() || (i < first.len() && first[i] < second[j]) {
            next = first[i];
            assert(first@.contains(first@[i as int]));
            i += 1;
        } else if i >= first.len() || second[j] < first[i] {
            next = second[j];
            assert(second@.contains(second@[j as int]));
            j += 1;
        } else {
            next = first[i];
            assert(first@.contains(first@[i as int]));
            i += 1;
            j += 1;
        }
        res.push(next);
        assert(res@[res@.len() - 1] == next);
        assert forall|k: int| 0 <= k < res@.len() implies first@.contains(#[trigger] res@[k])
            || second@.contains(res@[k]) by {
            if k < before.len() {
                assert(res@[k] == before[k]);
            }
        }
        assert forall|a: int| 0 <= a < i implies res@.contains(#[trigger] first@[a]) by {
            if a < i0 {
                let k = choose|k: int| 0 <= k < before.len() && before[k] == first@[a];
                assert(res@[k] == first@[a]);
            }
        }
        assert forall|b: int| 0 <= b < j implies res@.contains(#[trigger] second@[b]) by {
            if b < j0 {
                let k = choose|k: int| 0 <= k < before.len() && before[k] == second@[b];
                assert(res@[k] == second@[b]);
            }
        }
    }
    proof {
        let all = first@.to_set().union(second@.to_set());
        assert forall|x: usize| res@.contains(x) <==> all.contains(x) by {
            if first@.contains(x) {
                let a = choose|a: int| 0 <= a < first@.len() && first@[a] == x;
                assert(res@.contains(first@[a]));
            }
            if second@.contains(x) {
                let b = choose|b: int| 0 <= b < second@.len() && second@[b] == x;
                assert(res@.contains(second@[b]));
            }
        }
        lemma_ascending_of(res@, all);
    }
    res
}

/// Puts the document `v` into the list `p` at its place; leaves `p` as it is
/// where it holds `v` already.
pub fn sorted_insert(p: &mut Vec<usize>, v: usize)
    requires
        is_ascending(old(p)@),
    ensures
        final(p)@ == with_document(old(p)@, v),
        lists(final(p)@, old(p)@.to_set().insert(v)),
        final(p)@.len() == if old(p)@.contains(v) {
            old(p)@.len()
        } else {
            old(p)@.len() + 1
        },
{
    let ghost before = p@;
    let ghost target = before.to_set().insert(v);
    let mut low: usize = 0;
    let mut high: usize = p.len();
    while low < high
        invariant
            low <= high <= p.len(),
            p@ == before,
            is_ascending(before),
            forall|k: int| 0 <= k < low ==> #[trigger] before[k] < v,
            forall|k: int| high <= k < before.len() ==> #[trigger] before[k] >= v,
        decreases high - low,
    {
        let mid = low + (high - low) / 2;
        if p[mid] < v {
            assert forall|k: int| 0 <= k < mid + 1 implies #[trigger] before[k] < v by {
                assert(before[k] <= before[mid as int]);
            }
            low = mid + 1;
        } else {
            assert forall|k: int| mid <= k < before.len() implies #[trigger] before[k] >= v by {
                assert(before[mid as int] <= before[k]);
            }
            high = mid;
        }
    }
    if low < p.len() && p[low] == v {
        proof {
            assert(before[low as int] == v);
            assert(target =~= before.to_set());
            lemma_ascending_of_own(before);
        }
        return ;
    }
    proof {
        assert(!before.contains(v)) by {
            if before.contains(v) {
                let k = choose|k: int| 0 <= k < before.len() && before[k] == v;
                if k > low {
                    assert(before[low as int] < before[k]);
                }
            }
        }
    }
    p.insert(low, v);
    proof {
        let after = p@;
        assert(after == before.insert(low as int, v));
        assert forall|i: int, j: int| 0 <= i < j < after.len() implies after[i] < after[j] by {
            if j < low {
                assert(after[i] == before[i] && after[j] == before[j]);
            } else if j == low {
                assert(after[i] == before[i]);
            } else if i == low {
                assert(after[j] == before[j - 1]);
            } else if i < low {
                assert(after[i] == before[i] && after[j] == before[j - 1]);
            } else {
                assert(after[i] == before[i - 1] && after[j] == before[j - 1]);
            }
        }
        assert forall|x: usize| after.contains(x) <==> target.contains(x) by {
            if after.contains(x) {
                let k = choose|k: int| 0 <= k < after.len() && after[k] == x;
                if k < low {
                    assert(before[k] == x);
                } else if k > low {
                    assert(before[k - 1] == x);
                }
            }
            if x == v {
                assert(after[low as int] == v);
            }
            if before.contains(x) {
                let k = choose|k: int| 0 <= k < before.len() && before[k] == x;
                if k < low {
                    assert(after[k] == x);
                } else {
                    assert(after[k + 1] == x);
                }
            }
        }
        lemma_ascending_of(after, target);
    }
}

/// The document numbers below `n`, in order.
pub fn all_documents(n: usize) -> (res: Vec<usize>)
    ensures
        res@ == universe(n as nat),
        is_ascending(res@),
{
    let mut res: Vec<usize> = Vec::new();
    let mut i: usize = 0;
    while i < n
        invariant
            i <= n,
            res@ == universe(i as nat),
        decreases n - i,
    {
        res.push(i);
        i += 1;
        assert(res@ =~= universe(i as nat));
    }
    res
}

} // verus!
