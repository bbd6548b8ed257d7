//! Total orders on the values that an ordered container holds.

use vstd::prelude::*;
use vstd::std_specs::iter::IteratorSpec;

verus! {

/// How one value stands to another.
#[derive(Clone, Copy, Debug, PartialEq, Eq, Structural)]
pub enum Comparison {
    Less,
    Equal,
    Greater,
}

/// A type whose values are totally ordered by what they hold (their view).
pub trait Ordered: View + Sized {
    /// Whether `a` comes strictly before `b`.
    spec fn before(a: Self::V, b: Self::V) -> bool;

    /// Nothing comes before itself.
    proof fn before_irreflexive(a: Self::V)
        ensures
            !Self::before(a, a),
    ;

    /// What comes before something that comes before `c` comes before `c`.
    proof fn before_transitive(a: Self::V, b: Self::V, c: Self::V)
        requires
            Self::before(a, b),
            Self::before(b, c),
        ensures
            Self::before(a, c),
    ;

    /// Of two different values one comes before the other.
    proof fn before_total(a: Self::V, b: Self::V)
        ensures
            Self::before(a, b) || a == b || Self::before(b, a),
    ;

    /// Compares `self` with `other`.
    fn compare(&self, other: &Self) -> (c: Comparison)
        ensures
            match c {
                Comparison::Less => Self::before(self@, other@),
                Comparison::Equal => self@ == other@,
                Comparison::Greater => Self::before(other@, self@),
            },
    ;
}

impl Ordered for u64 {
    open spec fn before(a: u64, b: u64) -> bool {
        a < b
    }

    proof fn before_irreflexive(a: u64) {
    }

    proof fn before_transitive(a: u64, b: u64, c: u64) {
    }

    proof fn before_total(a: u64, b: u64) {
    }

    fn compare(&self, other: &Self) -> (c: Comparison) {
        if *self < *other {
            Comparison::Less
        } else if *self == *other {
            Comparison::Equal
        } else {
            Comparison::Greater
        }
    }
}

impl Ordered for usize {
    open spec fn before(a: usize, b: usize) -> bool {
        a < b
    }

    proof fn before_irreflexive(a: usize) {
    }

    proof fn before_transitive(a: usize, b: usize, c: usize) {
    }

    proof fn before_total(a: usize, b: usize) {
    }

    fn compare(&self, other: &Self) -> (c: Comparison) {
        if *self < *other {
            Comparison::Less
        } else if *self == *other {
            Comparison::Equal
        } else {
            Comparison::Greater
        }
    }
}

/// Whether the text `a` comes before the text `b` in dictionary order, the
/// characters taken by their code points: at the first place where the two
/// differ `a` has the smaller character, or `a` ends there and `b` goes on.
pub open spec fn text_before(a: Seq<char>, b: Seq<char>) -> bool
    decreases a.len(),
{
    if b.len() == 0 {
        false
    } else if a.len() == 0 {
        true
    } else if a[0] == b[0] {
        text_before(a.drop_first(), b.drop_first())
    } else {
        a[0] < b[0]
    }
}

impl Ordered for String {
    open spec fn before(a: Seq<char>, b: Seq<char>) -> bool {
        text_before(a, b)
    }

    proof fn before_irreflexive(a: Seq<char>)
        decreases a.len(),
    {
        if a.len() > 0 {
            Self::before_irreflexive(a.drop_first());
        }
    }

    proof fn before_transitive(a: Seq<char>, b: Seq<char>, c: Seq<char>)
        decreases a.len(),
    {
        if a.len() > 0 && b.len() > 0 && c.len() > 0 {
            if a[0] == b[0] && b[0] == c[0] {
                Self::before_transitive(a.drop_first(), b.drop_first(), c.drop_first());
            }
        }
    }

    proof fn before_total(a: Seq<char>, b: Seq<char>)
        decreases a.len(),
    {
        if a.len() > 0 && b.len() > 0 {
            if a[0] == b[0] {
                Self::before_total(a.drop_first(), b.drop_first());
                if a.drop_first() == b.drop_first() {
                    assert(a =~= seq![a[0]] + a.drop_first());
                    assert(b =~= seq![b[0]] + b.drop_first());
                }
            }
        } else if a.len() == 0 && b.len() == 0 {
            assert(a =~= b);
        }
    }

    fn compare(&self, other: &Self) -> (c: Comparison) {
        let mut xs = self.as_str().chars();
        let mut ys = other.as_str().chars();
        let ghost a = self@;
        let ghost b = other@;
        let ghost mut k: int = 0;
        assert(a.skip(0) =~= a);
        assert(b.skip(0) =~= b);
        assert(a.take(0) =~= b.take(0));
        loop
            invariant
                0 <= k <= a.len(),
                k <= b.len(),
                a == self@,
                b == other@,
                xs.remaining() == a.skip(k),
                ys.remaining() == b.skip(k),
                a.take(k) == b.take(k),
                text_before(a, b) == text_before(a.skip(k), b.skip(k)),
                text_before(b, a) == text_before(b.skip(k), a.skip(k)),
            decreases a.len() - k,
        {
            let x = xs.next();
            let y = ys.next();
            match (x, y) {
                (None, None) => {
                    assert(a.take(k) =~= a);
                    assert(b.take(k) =~= b);
                    return Comparison::Equal;
                },
                (None, Some(_)) => {
                    return Comparison::Less;
                },
                (Some(_), None) => {
                    return Comparison::Greater;
                },
                (Some(p), Some(q)) => {
                    assert(p == a.skip(k)[0] && q == b.skip(k)[0]);
                    if p < q {
                        return Comparison::Less;
                    } else if q < p {
                        return Comparison::Greater;
                    } else {
                        assert(p == q);
                        assert(a.skip(k).drop_first() =~= a.skip(k + 1));
                        assert(b.skip(k).drop_first() =~= b.skip(k + 1));
                        assert(a.take(k + 1) =~= a.take(k).push(p));
                        assert(b.take(k + 1) =~= b.take(k).push(q));
                        proof {
                            k = k + 1;
                        }
                    }
                },
            }
        }
    }
}


/// Whether each element of `s` comes before all that follow it. Such a
/// sequence holds nothing twice.
pub open spec fn ascending<T: Ordered>(s: Seq<T::V>) -> bool {
    forall|i: int, j: int| 0 <= i < j < s.len() ==> T::before(#[trigger] s[i], #[trigger] s[j])
}

/// How many elements of `s` come before `e`.
pub open spec fn lower_count<T: Ordered>(s: Seq<T::V>, e: T::V) -> nat
    decreases s.len(),
{
    if s.len() == 0 {
        0
    } else {
        lower_count::<T>(s.drop_last(), e) + if T::before(s.last(), e) {
            1nat
        } else {
            0nat
        }
    }
}

/// `s` with `e` put in behind the elements that come before it; `s` itself
/// where it holds `e` already.
pub open spec fn ordered_insert<T: Ordered>(s: Seq<T::V>, e: T::V) -> Seq<T::V> {
    if s.contains(e) {
        s
    } else {
        s.insert(lower_count::<T>(s, e) as int, e)
    }
}

/// What the elements of `es` give when they are put, one after the other, into
/// a sequence that starts empty.
pub open spec fn inserted_all<T: Ordered>(es: Seq<T::V>) -> Seq<T::V>
    decreases es.len(),
{
    if es.len() == 0 {
        Seq::empty()
    } else {
        ordered_insert::<T>(inserted_all::<T>(es.drop_last()), es.last())
    }
}

/// In an ascending sequence the elements that come before `e` are the first
/// `lower_count` ones.
pub proof fn lemma_lower_count_prefix<T: Ordered>(s: Seq<T::V>, e: T::V)
    requires
        ascending::<T>(s),
    ensures
        lower_count::<T>(s, e) <= s.len(),
        forall|i: int| 0 <= i < lower_count::<T>(s, e) ==> T::before(#[trigger] s[i], e),
        forall|i: int| lower_count::<T>(s, e) <= i < s.len() ==> !T::before(#[trigger] s[i], e),
    decreases s.len(),
{
    if s.len() > 0 {
        let t = s.drop_last();
        assert forall|i: int, j: int| 0 <= i < j < t.len() implies T::before(
            #[trigger] t[i],
            #[trigger] t[j],
        ) by {
            assert(t[i] == s[i] && t[j] == s[j]);
        }
        lemma_lower_count_prefix::<T>(t, e);
        let c = lower_count::<T>(t, e) as int;
        if T::before(s.last(), e) {
            assert forall|i: int| 0 <= i < t.len() implies T::before(#[trigger] t[i], e) by {
                assert(t[i] == s[i]);
                T::before_transitive(s[i], s.last(), e);
            }
            if c < t.len() {
                assert(!T::before(t[c], e));
            }
            assert(c == t.len());
            assert forall|i: int| 0 <= i < lower_count::<T>(s, e) implies T::before(
                #[trigger] s[i],
                e,
            ) by {
                if i < t.len() {
                    assert(s[i] == t[i]);
                }
            }
        } else {
            assert forall|i: int| 0 <= i < lower_count::<T>(s, e) implies T::before(
                #[trigger] s[i],
                e,
            ) by {
                assert(s[i] == t[i]);
            }
            assert forall|i: int| lower_count::<T>(s, e) <= i < s.len() implies !T::before(
                #[trigger] s[i],
                e,
            ) by {
                if i < t.len() {
                    assert(s[i] == t[i]);
                }
            }
        }
    }
}

/// Where `pos` parts the elements of `s` that come before `e` from those that
/// do not, `pos` elements come before `e`.
pub proof fn lemma_lower_count_is<T: Ordered>(s: Seq<T::V>, e: T::V, pos: int)
    requires
        0 <= pos <= s.len(),
        forall|i: int| 0 <= i < pos ==> T::before(#[trigger] s[i], e),
        forall|i: int| pos <= i < s.len() ==> !T::before(#[trigger] s[i], e),
    ensures
        lower_count::<T>(s, e) == pos,
    decreases s.len(),
{
    if s.len() > 0 {
        let t = s.drop_last();
        let last = s.len() - 1;
        assert(s.last() == s[last]);
        if pos == s.len() {
            assert forall|i: int| 0 <= i < pos - 1 implies T::before(#[trigger] t[i], e) by {
                assert(t[i] == s[i]);
            }
            lemma_lower_count_is::<T>(t, e, pos - 1);
        } else {
            assert forall|i: int| 0 <= i < pos implies T::before(#[trigger] t[i], e) by {
                assert(t[i] == s[i]);
            }
            assert forall|i: int| pos <= i < t.len() implies !T::before(#[trigger] t[i], e) by {
                assert(t[i] == s[i]);
            }
            lemma_lower_count_is::<T>(t, e, pos);
        }
    }
}

/// Putting `e` into an ascending sequence gives an ascending sequence that
/// holds `e` and what the sequence held, and nothing else.
pub proof fn lemma_ordered_insert<T: Ordered>(s: Seq<T::V>, e: T::V)
    requires
        ascending::<T>(s),
    ensures
        ascending::<T>(ordered_insert::<T>(s, e)),
        forall|x: T::V| ordered_insert::<T>(s, e).contains(x) <==> (x == e || s.contains(x)),
        ordered_insert::<T>(s, e).len() == if s.contains(e) {
            s.len()
        } else {
            s.len() + 1
        },
{
    let r = ordered_insert::<T>(s, e);
    if s.contains(e) {
    } else {
        let c = lower_count::<T>(s, e) as int;
        lemma_lower_count_prefix::<T>(s, e);
        assert forall|i: int, j: int| 0 <= i < j < r.len() implies T::before(
            #[trigger] r[i],
            #[trigger] r[j],
        ) by {
            if j < c {
                assert(r[i] == s[i] && r[j] == s[j]);
            } else if j == c {
                assert(r[i] == s[i]);
            } else if i == c {
                assert(r[j] == s[j - 1]);
                assert(s.contains(s[j - 1]));
                T::before_total(s[j - 1], e);
            } else if i < c {
                assert(r[i] == s[i] && r[j] == s[j - 1]);
            } else {
                assert(r[i] == s[i - 1] && r[j] == s[j - 1]);
            }
        }
        assert forall|x: T::V| r.contains(x) <==> (x == e || s.contains(x)) by {
            if r.contains(x) {
                let i = choose|i: int| 0 <= i < r.len() && r[i] == x;
                if i < c {
                    assert(s[i] == x);
                } else if i > c {
                    assert(s[i - 1] == x);
                }
            }
            if x == e {
                assert(r[c] == e);
            }
            if s.contains(x) {
                let i = choose|i: int| 0 <= i < s.len() && s[i] == x;
                if i < c {
                    assert(r[i] == x);
                } else {
                    assert(r[i + 1] == x);
                }
            }
        }
    }
}

/// An ascending sequence holds nothing twice.
pub proof fn lemma_ascending_no_duplicates<T: Ordered>(s: Seq<T::V>)
    requires
        ascending::<T>(s),
    ensures
        s.no_duplicates(),
{
    assert forall|i: int, j: int| 0 <= i < s.len() && 0 <= j < s.len() && i != j implies s[i]
        != s[j] by {
        if i < j {
            assert(T::before(s[i], s[j]));
            T::before_irreflexive(s[i]);
        } else {
            assert(T::before(s[j], s[i]));
            T::before_irreflexive(s[i]);
        }
    }
}

/// Whatever is put into an empty sequence, in whatever order and however
/// often: what comes out is ascending, holds each element that was put in and
/// no other, and is as long as there were distinct elements.
pub proof fn lemma_inserted_all<T: Ordered>(es: Seq<T::V>)
    ensures
        ascending::<T>(inserted_all::<T>(es)),
        forall|x: T::V| inserted_all::<T>(es).contains(x) <==> es.contains(x),
        inserted_all::<T>(es).no_duplicates(),
        inserted_all::<T>(es).len() == es.to_set().len(),
    decreases es.len(),
{
    let r = inserted_all::<T>(es);
    if es.len() == 0 {
        assert(es.to_set() =~= Set::<T::V>::empty());
    } else {
        let front = es.drop_last();
        let before = inserted_all::<T>(front);
        lemma_inserted_all::<T>(front);
        lemma_ordered_insert::<T>(before, es.last());
        assert forall|x: T::V| r.contains(x) <==> es.contains(x) by {
            if es.contains(x) {
                let i = choose|i: int| 0 <= i < es.len() && es[i] == x;
                if i < front.len() {
                    assert(front[i] == x);
                }
            }
            if front.contains(x) {
                let i = choose|i: int| 0 <= i < front.len() && front[i] == x;
                assert(es[i] == x);
            }
            if x == es.last() {
                assert(es[es.len() - 1] == x);
            }
        }
    }
    lemma_ascending_no_duplicates::<T>(r);
    r.unique_seq_to_set();
    assert(r.to_set() =~= es.to_set());
}

} // verus!
