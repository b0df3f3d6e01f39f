//! Strict total orders on keys, and maps kept in key order.

use vstd::prelude::*;

verus! {

/// Where one key stands relative to another.
pub enum Rank {
    Less,
    Equal,
    Greater,
}

/// A key type with a strict total order that agrees with equality.
pub trait Key: Sized {
    /// Whether `self` comes strictly before `other`.
    spec fn before(self, other: Self) -> bool;

    proof fn irreflexive(a: Self)
        ensures
            !a.before(a),
    ;

    proof fn transitive(a: Self, b: Self, c: Self)
        requires
            a.before(b),
            b.before(c),
        ensures
            a.before(c),
    ;

    proof fn total(a: Self, b: Self)
        ensures
            a.before(b) || b.before(a) || a == b,
    ;

    /// Compares two keys.
    fn rank(&self, other: &Self) -> (rank: Rank)
        ensures
            match rank {
                Rank::Less => self.before(*other),
                Rank::Equal => *self == *other,
                Rank::Greater => other.before(*self),
            },
    ;

    /// Copies a key.
    fn duplicate(&self) -> (copy: Self)
        ensures
            copy == *self,
    ;
}

/// A condition on keys.
pub trait KeyPredicate<K> {
    /// Whether `key` meets the condition.
    spec fn holds(&self, key: K) -> bool;

    fn test(&self, key: &K) -> (met: bool)
        ensures
            met == self.holds(*key),
    ;
}

/// Whether `keys` is strictly ascending.
pub open spec fn ascending<K: Key>(keys: Seq<K>) -> bool {
    forall|i: int, j: int|
        0 <= i < j < keys.len() ==> #[trigger] keys[i].before(#[trigger] keys[j])
}

pub proof fn lemma_before_asymmetric<K: Key>(a: K, b: K)
    requires
        a.before(b),
    ensures
        !b.before(a),
        a != b,
{
    K::irreflexive(a);
    if b.before(a) {
        K::transitive(a, b, a);
    }
}

/// Ascending keys are pairwise distinct.
pub proof fn lemma_ascending_distinct<K: Key>(keys: Seq<K>)
    requires
        ascending(keys),
    ensures
        keys.no_duplicates(),
        forall|i: int, j: int| 0 <= i < j < keys.len() ==> !(#[trigger] keys[j]).before(#[trigger] keys[i]),
{
    assert forall|i: int, j: int| 0 <= i < j < keys.len() implies #[trigger] keys[i] != #[trigger] keys[j]
        && !keys[j].before(keys[i]) by {
        lemma_before_asymmetric(keys[i], keys[j]);
    }
}

/// Two ascending sequences with the same members are equal.
pub proof fn lemma_ascending_unique<K: Key>(a: Seq<K>, b: Seq<K>)
    requires
        ascending(a),
        ascending(b),
        a.to_set() =~= b.to_set(),
    ensures
        a == b,
    decreases a.len(),
{
    lemma_ascending_distinct(a);
    lemma_ascending_distinct(b);
    a.unique_seq_to_set();
    b.unique_seq_to_set();
    if a.len() > 0 {
        let la = a.last();
        let lb = b.last();
        assert(a.to_set().contains(la));
        assert(b.to_set().contains(lb));
        assert(a.contains(lb) && b.contains(la));
        let i = choose|i: int| 0 <= i < a.len() && a[i] == lb;
        let j = choose|j: int| 0 <= j < b.len() && b[j] == la;
        if i < a.len() - 1 {
            assert(a[i].before(a[a.len() - 1]));
            if j < b.len() - 1 {
                assert(b[j].before(b[b.len() - 1]));
                lemma_before_asymmetric(la, lb);
            }
            K::irreflexive(la);
        }
        assert(la == lb);
        let a2 = a.drop_last();
        let b2 = b.drop_last();
        assert(a2.to_set() =~= b2.to_set()) by {
            assert forall|k: K| a2.contains(k) implies b2.contains(k) by {
                let n = choose|n: int| 0 <= n < a2.len() && a2[n] == k;
                assert(a[n] == k);
                assert(a.to_set().contains(k));
                assert(b.contains(k));
                let m = choose|m: int| 0 <= m < b.len() && b[m] == k;
                assert(m < b.len() - 1);
                assert(b2[m] == k);
            }
            assert forall|k: K| b2.contains(k) implies a2.contains(k) by {
                let n = choose|n: int| 0 <= n < b2.len() && b2[n] == k;
                assert(b[n] == k);
                assert(b.to_set().contains(k));
                assert(a.contains(k));
                let m = choose|m: int| 0 <= m < a.len() && a[m] == k;
                assert(m < a.len() - 1);
                assert(a2[m] == k);
            }
        }
        lemma_ascending_unique(a2, b2);
        assert(a =~= a2.push(la));
        assert(b =~= b2.push(lb));
    } else {
        assert(a =~= b);
    }
}

impl Key for u8 {
    open spec fn before(self, other: Self) -> bool {
        self < other
    }

    proof fn irreflexive(a: Self) {
    }

    proof fn transitive(a: Self, b: Self, c: Self) {
    }

    proof fn total(a: Self, b: Self) {
    }

    fn rank(&self, other: &Self) -> Rank {
        if *self < *other {
            Rank::Less
        } else if *self == *other {
            Rank::Equal
        } else {
            Rank::Greater
        }
    }

    fn duplicate(&self) -> Self {
        *self
    }
}

impl Key for u32 {
    open spec fn before(self, other: Self) -> bool {
        self < other
    }

    proof fn irreflexive(a: Self) {
    }

    proof fn transitive(a: Self, b: Self, c: Self) {
    }

    proof fn total(a: Self, b: Self) {
    }

    fn rank(&self, other: &Self) -> Rank {
        if *self < *other {
            Rank::Less
        } else if *self == *other {
            Rank::Equal
        } else {
            Rank::Greater
        }
    }

    fn duplicate(&self) -> Self {
        *self
    }
}

impl Key for u64 {
    open spec fn before(self, other: Self) -> bool {
        self < other
    }

    proof fn irreflexive(a: Self) {
    }

    proof fn transitive(a: Self, b: Self, c: Self) {
    }

    proof fn total(a: Self, b: Self) {
    }

    fn rank(&self, other: &Self) -> Rank {
        assert(self.before(*other) == (*self < *other));
        assert(other.before(*self) == (*other < *self));
        if *self < *other {
            Rank::Less
        } else if *self == *other {
            Rank::Equal
        } else {
            Rank::Greater
        }
    }

    fn duplicate(&self) -> Self {
        *self
    }
}

impl<A: Key, B: Key> Key for (A, B) {
    /// Lexicographic: the first component decides, then the second.
    open spec fn before(self, other: Self) -> bool {
        self.0.before(other.0) || (self.0 == other.0 && self.1.before(other.1))
    }

    proof fn irreflexive(a: Self) {
        A::irreflexive(a.0);
        B::irreflexive(a.1);
    }

    proof fn transitive(a: Self, b: Self, c: Self) {
        if a.0.before(b.0) && b.0.before(c.0) {
            A::transitive(a.0, b.0, c.0);
        }
        if a.1.before(b.1) && b.1.before(c.1) {
            B::transitive(a.1, b.1, c.1);
        }
    }

    proof fn total(a: Self, b: Self) {
        A::total(a.0, b.0);
        B::total(a.1, b.1);
    }

    fn rank(&self, other: &Self) -> Rank {
        match self.0.rank(&other.0) {
            Rank::Less => Rank::Less,
            Rank::Greater => Rank::Greater,
            Rank::Equal => self.1.rank(&other.1),
        }
    }

    fn duplicate(&self) -> Self {
        (self.0.duplicate(), self.1.duplicate())
    }
}

/// Whether `a` and `b` agree before `i` and `a` is smaller at `i`.
pub open spec fn smaller_at(a: Seq<u8>, b: Seq<u8>, i: int) -> bool {
    &&& 0 <= i < a.len()
    &&& i < b.len()
    &&& a[i] < b[i]
    &&& forall|j: int| 0 <= j < i ==> a[j] == b[j]
}

impl<const N: usize> Key for [u8; N] {
    /// Lexicographic on the bytes.
    open spec fn before(self, other: Self) -> bool {
        exists|i: int| smaller_at(self@, other@, i)
    }

    proof fn irreflexive(a: Self) {
    }

    proof fn transitive(a: Self, b: Self, c: Self) {
        let i = choose|i: int| smaller_at(a@, b@, i);
        let j = choose|j: int| smaller_at(b@, c@, j);
        let k = if i < j {
            i
        } else {
            j
        };
        assert(smaller_at(a@, c@, k));
    }

    proof fn total(a: Self, b: Self) {
        if a@ != b@ {
            assert(exists|j: int| 0 <= j < N && a@[j] != b@[j]) by {
                if forall|j: int| 0 <= j < N ==> a@[j] == b@[j] {
                    assert(a@ =~= b@);
                }
            }
            lemma_first_difference(a@, b@, N as int);
        } else {
            assert(a =~= b);
        }
    }

    fn rank(&self, other: &Self) -> Rank {
        let mut i: usize = 0;
        while i < N
            invariant
                i <= N,
                forall|j: int| 0 <= j < i ==> self@[j] == other@[j],
            decreases N - i,
        {
            if self[i] < other[i] {
                assert(smaller_at(self@, other@, i as int));
                return Rank::Less;
            }
            if self[i] > other[i] {
                assert(smaller_at(other@, self@, i as int));
                return Rank::Greater;
            }
            i += 1;
        }
        assert(self@ =~= other@);
        assert(*self =~= *other);
        Rank::Equal
    }

    fn duplicate(&self) -> Self {
        *self
    }
}

proof fn lemma_first_difference(a: Seq<u8>, b: Seq<u8>, n: int)
    requires
        a.len() == b.len(),
        0 <= n <= a.len(),
        exists|j: int| 0 <= j < n && a[j] != b[j],
    ensures
        exists|i: int| smaller_at(a, b, i) || smaller_at(b, a, i),
    decreases n,
{
    if exists|j: int| 0 <= j < n - 1 && a[j] != b[j] {
        lemma_first_difference(a, b, n - 1);
    } else if a[n - 1] < b[n - 1] {
        assert(smaller_at(a, b, n - 1));
    } else {
        assert(smaller_at(b, a, n - 1));
    }
}

/// Numbers are ordered by size, and byte strings by the first byte in which they
/// differ.
pub proof fn law_order_is_by_size<const N: usize>(a: u64, b: u64, left: [u8; N], right: [u8; N], i: int)
    requires
        0 <= i < N,
        forall|j: int| 0 <= j < i ==> left@[j] == right@[j],
        left@[i] < right@[i],
    ensures
        a.before(b) <==> a < b,
        left.before(right),
        !right.before(left),
{
    assert(smaller_at(left@, right@, i));
    lemma_before_asymmetric(left, right);
}

/// The first part of a pair decides, and the second only where the first is the same.
pub proof fn law_first_part_decides<A: Key, B: Key>(left: (A, B), right: (A, B))
    ensures
        left.0.before(right.0) ==> left.before(right) && !right.before(left),
        left.0 == right.0 ==> (left.before(right) <==> left.1.before(right.1)),
{
    if left.0.before(right.0) {
        lemma_before_asymmetric(left.0, right.0);
    }
    A::irreflexive(left.0);
}

} // verus!
