//! Ordered, duplicate-free vectors of type references.
//!
//! Resolution keeps every working collection of type references sorted
//! in the processing order and free of duplicates, so that one set of
//! references is always listed in exactly one way.

use crate::typeref::cmp_type_ref;
use crate::typeref::lemma_ref_lt_asymmetric;
use crate::typeref::lemma_ref_lt_connected;
use crate::typeref::lemma_ref_lt_transitive;
use crate::typeref::lemma_wf_key_eq;
use crate::typeref::ref_lt;
use crate::typeref::type_ref_wf;
use crate::typeref::TypeRef;
use crate::typeref::TypeRefKey;
use vstd::prelude::*;

verus! {

/// The keys of a sequence of references.
pub open spec fn ref_keys(s: Seq<TypeRef>) -> Seq<TypeRefKey> {
    s.map_values(|t: TypeRef| t@)
}

/// The set of keys of a sequence of references.
pub open spec fn key_set(s: Seq<TypeRef>) -> Set<TypeRefKey> {
    ref_keys(s).to_set()
}

/// Strictly ascending in processing order, hence duplicate-free.
pub open spec fn refs_sorted(s: Seq<TypeRef>) -> bool {
    forall|i: int, j: int| 0 <= i < j < s.len() ==> ref_lt(#[trigger] s[i]@, #[trigger] s[j]@)
}

/// Every reference is well formed.
pub open spec fn refs_wf(s: Seq<TypeRef>) -> bool {
    forall|i: int| 0 <= i < s.len() ==> type_ref_wf(#[trigger] s[i]@)
}

/// `ref_lt` is irreflexive.
pub proof fn lemma_ref_lt_irreflexive(a: TypeRefKey)
    ensures
        !ref_lt(a, a),
{
    lemma_ref_lt_asymmetric(a, a);
}

/// Whether `a` comes strictly before `b` in processing order.
pub fn ref_is_lt(a: &TypeRef, b: &TypeRef) -> (r: bool)
    ensures
        r == ref_lt(a@, b@),
{
    matches!(cmp_type_ref(a, b), core::cmp::Ordering::Less)
}

/// Whether `a` and `b` have the same path and name.
pub fn ref_key_eq(a: &TypeRef, b: &TypeRef) -> (r: bool)
    ensures
        r == (a@.path == b@.path && a@.name == b@.name),
{
    matches!(cmp_type_ref(a, b), core::cmp::Ordering::Equal)
}

/// Whether the key of `t` is present in `v`.
pub fn contains_ref(v: &Vec<TypeRef>, t: &TypeRef) -> (r: bool)
    requires
        refs_wf(v@),
        type_ref_wf(t@),
    ensures
        r == key_set(v@).contains(t@),
{
    let mut i: usize = 0;
    while i < v.len()
        invariant
            refs_wf(v@),
            type_ref_wf(t@),
            0 <= i <= v@.len(),
            forall|j: int|
                0 <= j < i ==> !((#[trigger] v@[j]@).path == t@.path && v@[j]@.name == t@.name),
        decreases v@.len() - i,
    {
        if ref_key_eq(&v[i], t) {
            proof {
                lemma_wf_key_eq(v@[i as int]@, t@);
                assert(ref_keys(v@)[i as int] == t@);
                assert(ref_keys(v@).contains(t@));
            }
            return true;
        }
        i = i + 1;
    }
    proof {
        if key_set(v@).contains(t@) {
            let j = choose|j: int| 0 <= j < ref_keys(v@).len() && ref_keys(v@)[j] == t@;
            assert(v@[j]@.path == t@.path && v@[j]@.name == t@.name);
            assert(false);
        }
    }
    false
}

/// Inserts `t` at its place in the order unless its key is already
/// present: the key set grows by exactly the key of `t`.
pub fn insert_ref(v: &mut Vec<TypeRef>, t: TypeRef)
    requires
        refs_sorted(old(v)@),
        refs_wf(old(v)@),
        type_ref_wf(t@),
    ensures
        refs_sorted(final (v)@),
        refs_wf(final (v)@),
        key_set(final (v)@) == key_set(old(v)@).insert(t@),
        final (v)@.len() <= old(v)@.len() + 1,
        !key_set(old(v)@).contains(t@) ==> final (v)@.len() == old(v)@.len() + 1,
{
    let ghost orig = v@;
    let mut i: usize = 0;
    while i < v.len() && ref_is_lt(&v[i], &t)
        invariant
            v@ == orig,
            refs_sorted(v@),
            refs_wf(v@),
            type_ref_wf(t@),
            0 <= i <= v@.len(),
            forall|j: int| 0 <= j < i ==> ref_lt((#[trigger] v@[j]@), t@),
        decreases v@.len() - i,
    {
        i = i + 1;
    }
    if i < v.len() && ref_key_eq(&v[i], &t) {
        proof {
            assert(type_ref_wf(v@[i as int]@));
            lemma_wf_key_eq(v@[i as int]@, t@);
            assert(ref_keys(v@)[i as int] == t@);
            assert(ref_keys(v@).contains(t@));
            assert(key_set(v@).insert(t@) =~= key_set(v@));
        }
        return ;
    }
    proof {
        if i < v@.len() && !ref_lt(t@, v@[i as int]@) {
            lemma_ref_lt_connected(v@[i as int]@, t@);
            assert(false);
        }
        assert forall|j: int| i <= j < v@.len() implies ref_lt(t@, (#[trigger] v@[j]@)) by {
            if j > i {
                lemma_ref_lt_transitive(t@, v@[i as int]@, v@[j]@);
            }
        }
    }
    let ghost before = v@;
    v.insert(i, t);
    proof {
        let now = v@;
        assert(now == before.subrange(0, i as int).push(t) + before.subrange(
            i as int,
            before.len() as int,
        ));
        assert forall|m: int| 0 <= m < now.len() implies (if m < i {
            now[m] == before[m]
        } else if m == i {
            now[m] == t
        } else {
            now[m] == before[m - 1]
        }) by {}
        assert forall|i1: int, j1: int|
            0 <= i1 < j1 < now.len() implies ref_lt((#[trigger] now[i1]@), (#[trigger] now[j1]@)) by {
            if j1 < i {
                assert(ref_lt(before[i1]@, before[j1]@));
            } else if j1 == i {
                assert(ref_lt(before[i1]@, t@));
            } else if i1 < i {
                assert(ref_lt(now[i1]@, now[j1]@) || now[j1]@ == t@ || ref_lt(
                    before[i1]@,
                    before[j1 - 1]@,
                ));
            } else if i1 == i {
                assert(ref_lt(t@, before[j1 - 1]@));
            } else {
                assert(ref_lt(before[i1 - 1]@, before[j1 - 1]@));
            }
        }
        assert(refs_sorted(now));
        assert forall|m: int| 0 <= m < now.len() implies type_ref_wf((#[trigger] now[m]@)) by {
            if m < i {
                assert(type_ref_wf(before[m]@));
            } else if m > i {
                assert(type_ref_wf(before[m - 1]@));
            }
        }
        assert forall|k: TypeRefKey| #[trigger]
            key_set(now).contains(k) implies key_set(before).insert(t@).contains(k) by {
            let m = choose|m: int| 0 <= m < ref_keys(now).len() && ref_keys(now)[m] == k;
            if m < i {
                assert(ref_keys(before)[m] == k);
                assert(ref_keys(before).contains(k));
            } else if m > i {
                assert(ref_keys(before)[m - 1] == k);
                assert(ref_keys(before).contains(k));
            }
        }
        assert forall|k: TypeRefKey| #[trigger]
            key_set(before).insert(t@).contains(k) implies key_set(now).contains(k) by {
            if k == t@ {
                assert(ref_keys(now)[i as int] == k);
                assert(ref_keys(now).contains(k));
            } else {
                let m = choose|m: int| 0 <= m < ref_keys(before).len() && ref_keys(before)[m] == k;
                if m < i {
                    assert(ref_keys(now)[m] == k);
                } else {
                    assert(ref_keys(now)[m + 1] == k);
                }
                assert(ref_keys(now).contains(k));
            }
        }
        assert(key_set(now) =~= key_set(before).insert(t@));
    }
}

} // verus!
