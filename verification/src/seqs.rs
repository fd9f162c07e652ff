//! Small facts about sequences that the queues of work rest on.
use vstd::prelude::*;

verus! {

/// What a sequence holds after a push.
pub proof fn lemma_push_contains<T>(before: Seq<T>, x: T, t: T)
    ensures
        before.push(x).contains(t) <==> before.contains(t) || t == x,
{
    let after = before.push(x);
    if before.contains(t) {
        let i = choose|i: int| 0 <= i < before.len() && before[i] == t;
        assert(after[i] == t);
    }
    if t == x {
        assert(after[before.len() as int] == t);
    }
    if after.contains(t) {
        let i = choose|i: int| 0 <= i < after.len() && after[i] == t;
        if i < before.len() {
            assert(before[i] == t);
        }
    }
}

/// A push of something new keeps a sequence free of duplicates.
pub proof fn lemma_push_distinct<T>(before: Seq<T>, x: T)
    requires
        before.no_duplicates(),
        !before.contains(x),
    ensures
        before.push(x).no_duplicates(),
{
    let after = before.push(x);
    assert forall|i: int, j: int| 0 <= i < after.len() && 0 <= j < after.len() && i != j implies after[i]
        != after[j] by {
        if i < before.len() {
            assert(before.contains(after[i]));
        }
        if j < before.len() {
            assert(before.contains(after[j]));
        }
    }
}

/// What a sequence without duplicates holds once its last element is taken off.
pub proof fn lemma_drop_last_contains<T>(s: Seq<T>, t: T)
    requires
        s.no_duplicates(),
        s.len() > 0,
    ensures
        s.drop_last().no_duplicates(),
        s.contains(s.last()),
        s.drop_last().contains(t) <==> s.contains(t) && t != s.last(),
{
    let rest = s.drop_last();
    assert(s[s.len() - 1] == s.last());
    if rest.contains(t) {
        let i = choose|i: int| 0 <= i < rest.len() && rest[i] == t;
        assert(s[i] == t);
    }
    if s.contains(t) && t != s.last() {
        let i = choose|i: int| 0 <= i < s.len() && s[i] == t;
        assert(rest[i] == t);
    }
}

/// What two sequences joined hold.
pub proof fn lemma_concat_contains<T>(a: Seq<T>, b: Seq<T>, t: T)
    ensures
        (a + b).contains(t) <==> a.contains(t) || b.contains(t),
{
    let joined = a + b;
    if a.contains(t) {
        let i = choose|i: int| 0 <= i < a.len() && a[i] == t;
        assert(joined[i] == t);
    }
    if b.contains(t) {
        let i = choose|i: int| 0 <= i < b.len() && b[i] == t;
        assert(joined[a.len() + i] == t);
    }
    if joined.contains(t) {
        let i = choose|i: int| 0 <= i < joined.len() && joined[i] == t;
        if i < a.len() {
            assert(a[i] == t);
        } else {
            assert(b[i - a.len()] == t);
        }
    }
}

/// Two sequences without duplicates that share nothing join to one without duplicates.
pub proof fn lemma_concat_distinct<T>(a: Seq<T>, b: Seq<T>)
    requires
        a.no_duplicates(),
        b.no_duplicates(),
        forall|t: T| !(a.contains(t) && b.contains(t)),
    ensures
        (a + b).no_duplicates(),
{
    let joined = a + b;
    assert forall|i: int, j: int| 0 <= i < joined.len() && 0 <= j < joined.len() && i != j implies joined[i]
        != joined[j] by {
        if i < a.len() {
            assert(a.contains(joined[i]));
        } else {
            assert(b[i - a.len()] == joined[i]);
            assert(b.contains(joined[i]));
        }
        if j < a.len() {
            assert(a.contains(joined[j]));
        } else {
            assert(b[j - a.len()] == joined[j]);
            assert(b.contains(joined[j]));
        }
    }
}

/// The items of `a` stand in rising rank.
pub open spec fn ranked<T>(a: Seq<T>, rank: spec_fn(T) -> int) -> bool {
    forall|i: int, j: int| 0 <= i < j < a.len() ==> rank(#[trigger] a[i]) < rank(#[trigger] a[j])
}

/// Two sequences in rising rank that hold the same items are the same sequence.
pub proof fn lemma_ranked_unique<T>(a: Seq<T>, b: Seq<T>, rank: spec_fn(T) -> int)
    requires
        ranked(a, rank),
        ranked(b, rank),
        forall|x: T| a.contains(x) <==> b.contains(x),
    ensures
        a =~= b,
    decreases a.len(),
{
    if a.len() == 0 {
        if b.len() > 0 {
            assert(b.contains(b[0]));
            assert(a.contains(b[0]));
        }
    } else if b.len() == 0 {
        assert(a.contains(a[0]));
        assert(b.contains(a[0]));
    } else {
        let x = a.last();
        let y = b.last();
        assert(a.contains(x));
        assert(b.contains(y));
        assert(b.contains(x));
        assert(a.contains(y));
        let j = choose|j: int| 0 <= j < b.len() && b[j] == x;
        let i = choose|i: int| 0 <= i < a.len() && a[i] == y;
        if j < b.len() - 1 {
            assert(rank(b[j]) < rank(b[b.len() - 1]));
            if i < a.len() - 1 {
                assert(rank(a[i]) < rank(a[a.len() - 1]));
            }
            assert(false);
        }
        assert(x == y);
        let a0 = a.drop_last();
        let b0 = b.drop_last();
        assert forall|z: T| a0.contains(z) <==> b0.contains(z) by {
            if a0.contains(z) {
                let k = choose|k: int| 0 <= k < a0.len() && a0[k] == z;
                assert(a[k] == z);
                assert(rank(a[k]) < rank(a[a.len() - 1]));
                assert(a.contains(z));
                assert(b.contains(z));
                let m = choose|m: int| 0 <= m < b.len() && b[m] == z;
                assert(m < b.len() - 1);
                assert(b0[m] == z);
            }
            if b0.contains(z) {
                let k = choose|k: int| 0 <= k < b0.len() && b0[k] == z;
                assert(b[k] == z);
                assert(rank(b[k]) < rank(b[b.len() - 1]));
                assert(b.contains(z));
                assert(a.contains(z));
                let m = choose|m: int| 0 <= m < a.len() && a[m] == z;
                assert(m < a.len() - 1);
                assert(a0[m] == z);
            }
        }
        assert(ranked(a0, rank)) by {
            assert forall|i: int, j: int| 0 <= i < j < a0.len() implies rank(#[trigger] a0[i]) < rank(
                #[trigger] a0[j],
            ) by {
                assert(a0[i] == a[i] && a0[j] == a[j]);
            }
        }
        assert(ranked(b0, rank)) by {
            assert forall|i: int, j: int| 0 <= i < j < b0.len() implies rank(#[trigger] b0[i]) < rank(
                #[trigger] b0[j],
            ) by {
                assert(b0[i] == b[i] && b0[j] == b[j]);
            }
        }
        lemma_ranked_unique(a0, b0, rank);
        assert(a =~= a0.push(x));
        assert(b =~= b0.push(y));
    }
}

} // verus!
