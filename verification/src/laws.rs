use vstd::prelude::*;
use std::cmp::Ordering;

use crate::{
    Value, ObjMap, vsize, vseq_size, entries_size, spec_rank, spec_resolve, key_index, has_key,
    lookup, keys_of, canon_keys, obj_wf, cmp_value, cmp_elems, cmp_objects, cmp_obj_values,
    lemma_vsize_pos, lemma_vseq_size_skip, lemma_entries_size_elem,
    lemma_key_index, lemma_canon_keys_has, lemma_resolve_props,
};
use crate::text::{
    cmp_chars, cmp_key_seqs, ord_rev, lemma_cmp_chars_eq, lemma_cmp_chars_flip,
    lemma_cmp_chars_trans, lemma_cmp_key_seqs_eq, lemma_cmp_key_seqs_flip,
    lemma_cmp_key_seqs_trans, lemma_sort_keys_ensures, lemma_sorted_unique,
};

verus! {

/// Antisymmetry: swapping the operands reverses the outcome, so `a < b`
/// rules out `b < a`, and `a = b` gives `b = a`.
pub proof fn lemma_cmp_antisymmetric(a: Value, b: Value)
    ensures
        cmp_value(b, a) == ord_rev(cmp_value(a, b)),
    decreases vsize(a) + vsize(b), 0int,
{
    lemma_resolve_props(a);
    lemma_resolve_props(b);
    if spec_rank(a) == spec_rank(b) {
        match (spec_resolve(a), spec_resolve(b)) {
            (Value::Null, Value::Null) => {},
            (Value::Bool(_), Value::Bool(_)) => {},
            (Value::Number(_), Value::Number(_)) => {},
            (Value::String(x), Value::String(y)) => {
                lemma_cmp_chars_flip(x@, y@);
            },
            (Value::Array(x), Value::Array(y)) => {
                assert(vsize(spec_resolve(a)) == 1 + vseq_size(x@));
                assert(vsize(spec_resolve(b)) == 1 + vseq_size(y@));
                assert(x@.skip(0) =~= x@);
                assert(y@.skip(0) =~= y@);
                lemma_elems_flip(x@, y@, 0);
            },
            (Value::Object(x), Value::Object(y)) => {
                assert(vsize(spec_resolve(a)) == 1 + entries_size(x@));
                assert(vsize(spec_resolve(b)) == 1 + entries_size(y@));
                lemma_cmp_key_seqs_flip(canon_keys(x), canon_keys(y));
                lemma_cmp_key_seqs_eq(canon_keys(x), canon_keys(y));
                if cmp_key_seqs(canon_keys(x), canon_keys(y)) == Ordering::Equal {
                    lemma_obj_values_flip(x, y, canon_keys(x), 0);
                }
            },
            _ => {
                assert(false);
            },
        }
    }
}

proof fn lemma_elems_flip(x: Seq<Value>, y: Seq<Value>, i: int)
    ensures
        cmp_elems(y, x, i) == ord_rev(cmp_elems(x, y, i)),
    decreases vseq_size(x.skip(i)) + vseq_size(y.skip(i)), 1int,
{
    if 0 <= i && i < x.len() && i < y.len() {
        lemma_vseq_size_skip(x, i);
        lemma_vseq_size_skip(y, i);
        lemma_vsize_pos(x[i]);
        lemma_vsize_pos(y[i]);
        lemma_cmp_antisymmetric(x[i], y[i]);
        if cmp_value(x[i], y[i]) == Ordering::Equal {
            lemma_elems_flip(x, y, i + 1);
        }
    }
}

proof fn lemma_obj_values_flip(x: ObjMap, y: ObjMap, ks: Seq<Seq<char>>, i: int)
    ensures
        cmp_obj_values(y, x, ks, i) == ord_rev(cmp_obj_values(x, y, ks, i)),
    decreases entries_size(x@) + entries_size(y@), 1 + ks.len() - i,
{
    if 0 <= i && i < ks.len() {
        if has_key(x, ks[i]) && has_key(y, ks[i]) {
            lemma_key_index(x@, ks[i]);
            lemma_key_index(y@, ks[i]);
            lemma_entries_size_elem(x@, key_index(x@, ks[i]));
            lemma_entries_size_elem(y@, key_index(y@, ks[i]));
            lemma_cmp_antisymmetric(lookup(x, ks[i]), lookup(y, ks[i]));
            if cmp_value(lookup(x, ks[i]), lookup(y, ks[i])) == Ordering::Equal {
                lemma_obj_values_flip(x, y, ks, i + 1);
            }
        } else {
            lemma_obj_values_flip(x, y, ks, i + 1);
        }
    }
}

/// Reflexivity: every value compares equal to itself.
pub proof fn lemma_cmp_reflexive(a: Value)
    ensures
        cmp_value(a, a) == Ordering::Equal,
{
    lemma_cmp_antisymmetric(a, a);
}

/// Totality: any two values are comparable, and exactly one of
/// `a < b`, `a = b`, `a > b` holds, where `b < a` is `a > b`.
pub proof fn lemma_cmp_total(a: Value, b: Value)
    ensures
        cmp_value(a, b) == Ordering::Less || cmp_value(a, b) == Ordering::Equal || cmp_value(
            a,
            b,
        ) == Ordering::Greater,
        cmp_value(a, b) == Ordering::Less <==> cmp_value(b, a) == Ordering::Greater,
        cmp_value(a, b) == Ordering::Equal <==> cmp_value(b, a) == Ordering::Equal,
        cmp_value(a, b) == Ordering::Greater <==> cmp_value(b, a) == Ordering::Less,
{
    lemma_cmp_antisymmetric(a, b);
}

/// Transitivity of the strict order and of equivalence, across all
/// variant combinations, including mixed ranks.
pub proof fn lemma_cmp_transitive(a: Value, b: Value, c: Value)
    ensures
        cmp_value(a, b) == Ordering::Less && cmp_value(b, c) == Ordering::Less ==> cmp_value(
            a,
            c,
        ) == Ordering::Less,
        cmp_value(a, b) == Ordering::Equal && cmp_value(b, c) == Ordering::Equal ==> cmp_value(
            a,
            c,
        ) == Ordering::Equal,
        cmp_value(a, b) == Ordering::Less && cmp_value(b, c) == Ordering::Equal ==> cmp_value(
            a,
            c,
        ) == Ordering::Less,
        cmp_value(a, b) == Ordering::Equal && cmp_value(b, c) == Ordering::Less ==> cmp_value(
            a,
            c,
        ) == Ordering::Less,
    decreases vsize(a) + vsize(b) + vsize(c), 0int,
{
    lemma_resolve_props(a);
    lemma_resolve_props(b);
    lemma_resolve_props(c);
    if spec_rank(a) == spec_rank(b) && spec_rank(b) == spec_rank(c) {
        match (spec_resolve(a), spec_resolve(b), spec_resolve(c)) {
            (Value::Null, Value::Null, Value::Null) => {},
            (Value::Bool(_), Value::Bool(_), Value::Bool(_)) => {},
            (Value::Number(_), Value::Number(_), Value::Number(_)) => {},
            (Value::String(x), Value::String(y), Value::String(z)) => {
                lemma_cmp_chars_eq(x@, y@);
                lemma_cmp_chars_eq(y@, z@);
                lemma_cmp_chars_eq(x@, z@);
                if cmp_chars(x@, y@) == Ordering::Less && cmp_chars(y@, z@) == Ordering::Less {
                    lemma_cmp_chars_trans(x@, y@, z@);
                }
            },
            (Value::Array(x), Value::Array(y), Value::Array(z)) => {
                assert(vsize(spec_resolve(a)) == 1 + vseq_size(x@));
                assert(vsize(spec_resolve(b)) == 1 + vseq_size(y@));
                assert(vsize(spec_resolve(c)) == 1 + vseq_size(z@));
                assert(x@.skip(0) =~= x@);
                assert(y@.skip(0) =~= y@);
                assert(z@.skip(0) =~= z@);
                lemma_elems_trans(x@, y@, z@, 0);
            },
            (Value::Object(x), Value::Object(y), Value::Object(z)) => {
                assert(vsize(spec_resolve(a)) == 1 + entries_size(x@));
                assert(vsize(spec_resolve(b)) == 1 + entries_size(y@));
                assert(vsize(spec_resolve(c)) == 1 + entries_size(z@));
                let kx = canon_keys(x);
                let ky = canon_keys(y);
                let kz = canon_keys(z);
                lemma_cmp_key_seqs_eq(kx, ky);
                lemma_cmp_key_seqs_eq(ky, kz);
                lemma_cmp_key_seqs_eq(kx, kz);
                if cmp_key_seqs(kx, ky) == Ordering::Less && cmp_key_seqs(ky, kz)
                    == Ordering::Less {
                    lemma_cmp_key_seqs_trans(kx, ky, kz);
                }
                if cmp_key_seqs(kx, ky) == Ordering::Equal && cmp_key_seqs(ky, kz)
                    == Ordering::Equal {
                    lemma_canon_keys_has(x);
                    lemma_canon_keys_has(y);
                    lemma_canon_keys_has(z);
                    assert forall|j: int| 0 <= j < kx.len() implies has_key(x, #[trigger] kx[j])
                        && has_key(y, kx[j]) && has_key(z, kx[j]) by {
                        assert(kx.contains(kx[j]));
                        assert(ky.contains(kx[j]));
                        assert(kz.contains(kx[j]));
                    }
                    lemma_obj_values_trans(x, y, z, kx, 0);
                }
            },
            _ => {
                assert(false);
            },
        }
    }
}

proof fn lemma_elems_trans(x: Seq<Value>, y: Seq<Value>, z: Seq<Value>, i: int)
    ensures
        cmp_elems(x, y, i) == Ordering::Less && cmp_elems(y, z, i) == Ordering::Less
            ==> cmp_elems(x, z, i) == Ordering::Less,
        cmp_elems(x, y, i) == Ordering::Equal && cmp_elems(y, z, i) == Ordering::Equal
            ==> cmp_elems(x, z, i) == Ordering::Equal,
        cmp_elems(x, y, i) == Ordering::Less && cmp_elems(y, z, i) == Ordering::Equal
            ==> cmp_elems(x, z, i) == Ordering::Less,
        cmp_elems(x, y, i) == Ordering::Equal && cmp_elems(y, z, i) == Ordering::Less
            ==> cmp_elems(x, z, i) == Ordering::Less,
    decreases vseq_size(x.skip(i)) + vseq_size(y.skip(i)) + vseq_size(z.skip(i)), 1int,
{
    if 0 <= i && i < x.len() && i < y.len() && i < z.len() {
        lemma_vseq_size_skip(x, i);
        lemma_vseq_size_skip(y, i);
        lemma_vseq_size_skip(z, i);
        lemma_vsize_pos(x[i]);
        lemma_vsize_pos(y[i]);
        lemma_vsize_pos(z[i]);
        lemma_cmp_transitive(x[i], y[i], z[i]);
        lemma_elems_trans(x, y, z, i + 1);
    }
}

proof fn lemma_obj_values_trans(x: ObjMap, y: ObjMap, z: ObjMap, ks: Seq<Seq<char>>, i: int)
    requires
        forall|j: int|
            0 <= j < ks.len() ==> has_key(x, #[trigger] ks[j]) && has_key(y, ks[j]) && has_key(
                z,
                ks[j],
            ),
    ensures
        cmp_obj_values(x, y, ks, i) == Ordering::Less && cmp_obj_values(y, z, ks, i)
            == Ordering::Less ==> cmp_obj_values(x, z, ks, i) == Ordering::Less,
        cmp_obj_values(x, y, ks, i) == Ordering::Equal && cmp_obj_values(y, z, ks, i)
            == Ordering::Equal ==> cmp_obj_values(x, z, ks, i) == Ordering::Equal,
        cmp_obj_values(x, y, ks, i) == Ordering::Less && cmp_obj_values(y, z, ks, i)
            == Ordering::Equal ==> cmp_obj_values(x, z, ks, i) == Ordering::Less,
        cmp_obj_values(x, y, ks, i) == Ordering::Equal && cmp_obj_values(y, z, ks, i)
            == Ordering::Less ==> cmp_obj_values(x, z, ks, i) == Ordering::Less,
    decreases entries_size(x@) + entries_size(y@) + entries_size(z@), 1 + ks.len() - i,
{
    if 0 <= i && i < ks.len() {
        lemma_key_index(x@, ks[i]);
        lemma_key_index(y@, ks[i]);
        lemma_key_index(z@, ks[i]);
        lemma_entries_size_elem(x@, key_index(x@, ks[i]));
        lemma_entries_size_elem(y@, key_index(y@, ks[i]));
        lemma_entries_size_elem(z@, key_index(z@, ks[i]));
        lemma_cmp_transitive(lookup(x, ks[i]), lookup(y, ks[i]), lookup(z, ks[i]));
        lemma_obj_values_trans(x, y, z, ks, i + 1);
    }
}

/// Values that compare equal are interchangeable against any third value.
pub proof fn lemma_cmp_congruent(a: Value, b: Value, c: Value)
    requires
        cmp_value(a, b) == Ordering::Equal,
    ensures
        cmp_value(a, c) == cmp_value(b, c),
        cmp_value(c, a) == cmp_value(c, b),
{
    lemma_cmp_antisymmetric(a, b);
    lemma_cmp_antisymmetric(a, c);
    lemma_cmp_antisymmetric(b, c);
    lemma_cmp_transitive(a, b, c);
    lemma_cmp_transitive(c, a, b);
    lemma_cmp_transitive(b, a, c);
    lemma_cmp_transitive(c, b, a);
}

/// Rank dominance: a value of strictly smaller rank sorts strictly first,
/// whatever the contents; Null < Bool < Number < String < Array < Object.
pub proof fn lemma_rank_dominates(a: Value, b: Value)
    requires
        spec_rank(a) < spec_rank(b),
    ensures
        cmp_value(a, b) == Ordering::Less,
        cmp_value(b, a) == Ordering::Greater,
{
}

proof fn lemma_obj_values_equal(x: ObjMap, y: ObjMap, ks: Seq<Seq<char>>, i: int)
    requires
        forall|j: int|
            0 <= j < ks.len() ==> has_key(x, #[trigger] ks[j]) && has_key(y, ks[j]) && lookup(
                x,
                ks[j],
            ) == lookup(y, ks[j]),
    ensures
        cmp_obj_values(x, y, ks, i) == Ordering::Equal,
    decreases ks.len() - i,
{
    if 0 <= i && i < ks.len() {
        lemma_cmp_reflexive(lookup(x, ks[i]));
        lemma_obj_values_equal(x, y, ks, i + 1);
    }
}

/// Iteration-order independence: two objects that hold the same keys with
/// the same values compare equal, in whatever order their entries were
/// inserted; the comparator only sees the canonically sorted keys.
pub proof fn lemma_object_order_independent(x: ObjMap, y: ObjMap)
    requires
        obj_wf(x),
        obj_wf(y),
        forall|k: Seq<char>| #[trigger] has_key(x, k) <==> has_key(y, k),
        forall|k: Seq<char>| #[trigger] has_key(x, k) ==> lookup(x, k) == lookup(y, k),
    ensures
        cmp_objects(x, y) == Ordering::Equal,
        cmp_value(Value::Object(x), Value::Object(y)) == Ordering::Equal,
{
    broadcast use vstd::seq_lib::group_to_multiset_ensures;

    lemma_canon_keys_has(x);
    lemma_canon_keys_has(y);
    lemma_sort_keys_ensures(keys_of(x));
    lemma_sort_keys_ensures(keys_of(y));
    assert(keys_of(x).no_duplicates()) by {
        assert forall|i: int, j: int|
            0 <= i < keys_of(x).len() && 0 <= j < keys_of(x).len() && i != j implies keys_of(x)[i]
            != keys_of(x)[j] by {
            if i < j {
                assert(x@[i].0@ != x@[j].0@);
            } else {
                assert(x@[j].0@ != x@[i].0@);
            }
        }
    }
    assert(keys_of(y).no_duplicates()) by {
        assert forall|i: int, j: int|
            0 <= i < keys_of(y).len() && 0 <= j < keys_of(y).len() && i != j implies keys_of(y)[i]
            != keys_of(y)[j] by {
            if i < j {
                assert(y@[i].0@ != y@[j].0@);
            } else {
                assert(y@[j].0@ != y@[i].0@);
            }
        }
    }
    keys_of(x).lemma_multiset_has_no_duplicates();
    keys_of(y).lemma_multiset_has_no_duplicates();
    assert(canon_keys(x).to_multiset() =~= canon_keys(y).to_multiset()) by {
        assert forall|k: Seq<char>|
            canon_keys(x).to_multiset().count(k) == canon_keys(y).to_multiset().count(k) by {
            assert(canon_keys(x).to_multiset() == keys_of(x).to_multiset());
            assert(canon_keys(y).to_multiset() == keys_of(y).to_multiset());
            if has_key(x, k) {
                assert(canon_keys(x).contains(k));
                assert(canon_keys(y).contains(k));
                assert(keys_of(x).to_multiset().count(k) == 1);
                assert(keys_of(y).to_multiset().count(k) == 1);
            } else {
                assert(!canon_keys(x).contains(k));
                assert(!canon_keys(y).contains(k));
                assert(keys_of(x).to_multiset().count(k) == 0);
                assert(keys_of(y).to_multiset().count(k) == 0);
            }
        }
    }
    lemma_sorted_unique(canon_keys(x), canon_keys(y));
    lemma_cmp_key_seqs_eq(canon_keys(x), canon_keys(y));
    assert forall|j: int| 0 <= j < canon_keys(x).len() implies has_key(
        x,
        #[trigger] canon_keys(x)[j],
    ) && has_key(y, canon_keys(x)[j]) && lookup(x, canon_keys(x)[j]) == lookup(
        y,
        canon_keys(x)[j],
    ) by {
        assert(canon_keys(x).contains(canon_keys(x)[j]));
    }
    lemma_obj_values_equal(x, y, canon_keys(x), 0);
}

/// External transparency: a wrapped value compares exactly as the value
/// it wraps, on either side, and compares equal to it.
pub proof fn lemma_external_transparent(b: Box<Value>, w: Value)
    ensures
        cmp_value(Value::External(b), w) == cmp_value(*b, w),
        cmp_value(w, Value::External(b)) == cmp_value(w, *b),
        cmp_value(Value::External(b), *b) == Ordering::Equal,
{
    lemma_cmp_reflexive(*b);
}

} // verus!
