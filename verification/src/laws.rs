//! Library-wide laws, stated once and proved for every input.

use crate::context::dedup_first_seen;
use crate::typeref::lemma_ref_lt_asymmetric;
use crate::typeref::ref_lt;
use crate::typeref::TypeRefKey;
use vstd::prelude::*;

verus! {

/// How often `x` occurs in a list of names.
pub open spec fn name_count(names: Seq<Seq<char>>, x: Seq<char>) -> nat
    decreases names,
{
    if names.len() == 0 {
        0
    } else {
        name_count(names.drop_last(), x) + (if names.last() == x {
            1nat
        } else {
            0nat
        })
    }
}

proof fn lemma_name_count_zero(names: Seq<Seq<char>>, x: Seq<char>)
    requires
        !names.contains(x),
    ensures
        name_count(names, x) == 0,
    decreases names.len(),
{
    if names.len() > 0 {
        assert(!names.drop_last().contains(x)) by {
            if names.drop_last().contains(x) {
                let i = choose|i: int|
                    0 <= i < names.drop_last().len() && names.drop_last()[i] == x;
                assert(names[i] == x);
            }
        }
        lemma_name_count_zero(names.drop_last(), x);
        assert(names.last() != x) by {
            if names.last() == x {
                assert(names[names.len() - 1] == x);
            }
        }
    }
}

/// Law: an interface name that occurs in a slot table, however many
/// slots bind it, appears exactly once in the deduplicated list of
/// distinct interfaces.
pub proof fn lemma_dedup_once(names: Seq<Seq<char>>, x: Seq<char>)
    requires
        names.contains(x),
    ensures
        name_count(dedup_first_seen(names), x) == 1,
    decreases names.len(),
{
    let t = names.drop_last();
    let p = dedup_first_seen(t);
    crate::context::lemma_dedup_contains(t, x);
    if t.contains(names.last()) {
        assert(dedup_first_seen(names) == p);
        if x == names.last() {
            lemma_dedup_once(t, x);
        } else {
            assert(t.contains(x)) by {
                let i = choose|i: int| 0 <= i < names.len() && names[i] == x;
                assert(i < names.len() - 1);
                assert(t[i] == x);
            }
            lemma_dedup_once(t, x);
        }
    } else {
        assert(dedup_first_seen(names) == p.push(names.last()));
        assert(dedup_first_seen(names).drop_last() =~= p);
        if x == names.last() {
            assert(!p.contains(x));
            lemma_name_count_zero(p, x);
        } else {
            assert(t.contains(x)) by {
                let i = choose|i: int| 0 <= i < names.len() && names[i] == x;
                assert(i < names.len() - 1);
                assert(t[i] == x);
            }
            lemma_dedup_once(t, x);
        }
    }
}

/// Law: a name bound by no slot does not appear at all.
pub proof fn lemma_dedup_absent(names: Seq<Seq<char>>, x: Seq<char>)
    requires
        !names.contains(x),
    ensures
        name_count(dedup_first_seen(names), x) == 0,
{
    crate::context::lemma_dedup_contains(names, x);
    lemma_name_count_zero(dedup_first_seen(names), x);
}

/// Strictly ascending in reference order.
pub open spec fn keys_sorted(s: Seq<TypeRefKey>) -> bool {
    forall|i: int, j: int| 0 <= i < j < s.len() ==> ref_lt(#[trigger] s[i], #[trigger] s[j])
}

proof fn lemma_sorted_tail_set(a: Seq<TypeRefKey>)
    requires
        keys_sorted(a),
        a.len() >= 1,
    ensures
        a.drop_first().to_set() =~= a.to_set().remove(a[0]),
{
    let t = a.drop_first();
    assert forall|k: TypeRefKey| #[trigger] t.to_set().contains(k) implies a.to_set().remove(
        a[0],
    ).contains(k) by {
        let i = choose|i: int| 0 <= i < t.len() && t[i] == k;
        assert(a[i + 1] == k);
        assert(a.to_set().contains(k));
        assert(ref_lt(a[0], a[i + 1]));
        lemma_ref_lt_asymmetric(a[0], a[0]);
        assert(k != a[0]);
    }
    assert forall|k: TypeRefKey| a.to_set().remove(a[0]).contains(k) implies #[trigger] t.to_set().contains(
        k,
    ) by {
        let i = choose|i: int| 0 <= i < a.len() && a[i] == k;
        assert(i >= 1);
        assert(t[i - 1] == k);
    }
}

/// Law: one set of type references has exactly one sorted listing, so
/// however the references were discovered, resolution lists and
/// processes them in a single, reproducible order.
pub proof fn lemma_sorted_refs_canonical(a: Seq<TypeRefKey>, b: Seq<TypeRefKey>)
    requires
        keys_sorted(a),
        keys_sorted(b),
        a.to_set() == b.to_set(),
    ensures
        a == b,
    decreases a.len(),
{
    if a.len() == 0 {
        if b.len() > 0 {
            assert(b.to_set().contains(b[0]));
            assert(a.to_set().contains(b[0]));
            let i = choose|i: int| 0 <= i < a.len() && a[i] == b[0];
            assert(false);
        }
        assert(a =~= b);
    } else if b.len() == 0 {
        assert(a.to_set().contains(a[0]));
        assert(b.to_set().contains(a[0]));
        let i = choose|i: int| 0 <= i < b.len() && b[i] == a[0];
        assert(false);
    } else {
        assert(a[0] == b[0]) by {
            assert(a.to_set().contains(a[0]));
            assert(b.to_set().contains(b[0]));
            assert(b.to_set().contains(a[0]));
            assert(a.to_set().contains(b[0]));
            let j = choose|j: int| 0 <= j < b.len() && b[j] == a[0];
            let i = choose|i: int| 0 <= i < a.len() && a[i] == b[0];
            if i > 0 && j > 0 {
                assert(ref_lt(b[0], b[j]));
                assert(ref_lt(a[0], a[i]));
                lemma_ref_lt_asymmetric(a[0], b[0]);
                assert(false);
            }
        }
        lemma_sorted_tail_set(a);
        lemma_sorted_tail_set(b);
        assert(a.drop_first().to_set() == b.drop_first().to_set());
        lemma_sorted_refs_canonical(a.drop_first(), b.drop_first());
        assert(a =~= seq![a[0]] + a.drop_first());
        assert(b =~= seq![b[0]] + b.drop_first());
    }
}

} // verus!
