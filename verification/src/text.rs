use vstd::prelude::*;
use std::cmp::Ordering;

verus! {

/// Natural lexicographic three-way comparison of two character sequences,
/// ordering characters by code point.
pub open spec fn cmp_chars(a: Seq<char>, b: Seq<char>) -> Ordering
    decreases a.len(),
{
    if a.len() == 0 && b.len() == 0 {
        Ordering::Equal
    } else if a.len() == 0 {
        Ordering::Less
    } else if b.len() == 0 {
        Ordering::Greater
    } else if (a[0] as int) < (b[0] as int) {
        Ordering::Less
    } else if (b[0] as int) < (a[0] as int) {
        Ordering::Greater
    } else {
        cmp_chars(a.drop_first(), b.drop_first())
    }
}

/// Reversal of a comparison outcome, as swapping the operands would give.
pub open spec fn ord_rev(o: Ordering) -> Ordering {
    match o {
        Ordering::Less => Ordering::Greater,
        Ordering::Equal => Ordering::Equal,
        Ordering::Greater => Ordering::Less,
    }
}

/// `a` sorts at or before `b` in the canonical key order.
pub open spec fn key_le(a: Seq<char>, b: Seq<char>) -> bool {
    cmp_chars(a, b) != Ordering::Greater
}

pub proof fn lemma_cmp_chars_eq(a: Seq<char>, b: Seq<char>)
    ensures
        cmp_chars(a, b) == Ordering::Equal <==> a == b,
    decreases a.len(),
{
    if a.len() == 0 && b.len() == 0 {
        assert(a =~= b);
    } else if a.len() == 0 || b.len() == 0 {
    } else if (a[0] as int) == (b[0] as int) {
        lemma_cmp_chars_eq(a.drop_first(), b.drop_first());
        if cmp_chars(a, b) == Ordering::Equal {
            assert(a.drop_first() == b.drop_first());
            assert(a.len() == b.len());
            assert forall|i: int| 0 <= i < a.len() implies a[i] == b[i] by {
                if i > 0 {
                    assert(a.drop_first()[i - 1] == b.drop_first()[i - 1]);
                }
            }
            assert(a =~= b);
        } else {
            if a == b {
                assert(a.drop_first() =~= b.drop_first());
            }
        }
    } else {
        if a == b {
            assert(a[0] == b[0]);
        }
    }
}

pub proof fn lemma_cmp_chars_flip(a: Seq<char>, b: Seq<char>)
    ensures
        cmp_chars(b, a) == ord_rev(cmp_chars(a, b)),
    decreases a.len(),
{
    if a.len() > 0 && b.len() > 0 && (a[0] as int) == (b[0] as int) {
        lemma_cmp_chars_flip(a.drop_first(), b.drop_first());
    }
}

pub proof fn lemma_cmp_chars_trans(a: Seq<char>, b: Seq<char>, c: Seq<char>)
    requires
        cmp_chars(a, b) == Ordering::Less,
        cmp_chars(b, c) == Ordering::Less,
    ensures
        cmp_chars(a, c) == Ordering::Less,
    decreases a.len() + b.len() + c.len(),
{
    if a.len() == 0 {
    } else if b.len() > 0 && c.len() > 0 {
        if (a[0] as int) == (b[0] as int) && (b[0] as int) == (c[0] as int) {
            lemma_cmp_chars_trans(a.drop_first(), b.drop_first(), c.drop_first());
        }
    }
}

/// Lexicographic three-way comparison of two sequences of keys: the first
/// differing key decides, and a strict prefix sorts before its extension.
pub open spec fn cmp_key_seqs(a: Seq<Seq<char>>, b: Seq<Seq<char>>) -> Ordering
    decreases a.len(),
{
    if a.len() == 0 && b.len() == 0 {
        Ordering::Equal
    } else if a.len() == 0 {
        Ordering::Less
    } else if b.len() == 0 {
        Ordering::Greater
    } else {
        match cmp_chars(a[0], b[0]) {
            Ordering::Equal => cmp_key_seqs(a.drop_first(), b.drop_first()),
            c => c,
        }
    }
}

pub proof fn lemma_cmp_key_seqs_eq(a: Seq<Seq<char>>, b: Seq<Seq<char>>)
    ensures
        cmp_key_seqs(a, b) == Ordering::Equal <==> a == b,
    decreases a.len(),
{
    if a.len() == 0 && b.len() == 0 {
        assert(a =~= b);
    } else if a.len() == 0 || b.len() == 0 {
    } else {
        lemma_cmp_chars_eq(a[0], b[0]);
        lemma_cmp_key_seqs_eq(a.drop_first(), b.drop_first());
        if cmp_chars(a[0], b[0]) == Ordering::Equal {
            if cmp_key_seqs(a, b) == Ordering::Equal {
                assert(a.drop_first() == b.drop_first());
                assert(a.len() == b.len());
                assert forall|i: int| 0 <= i < a.len() implies a[i] == b[i] by {
                    if i > 0 {
                        assert(a.drop_first()[i - 1] == b.drop_first()[i - 1]);
                    }
                }
                assert(a =~= b);
            } else {
                if a == b {
                    assert(a.drop_first() =~= b.drop_first());
                }
            }
        } else {
            if a == b {
                assert(a[0] == b[0]);
            }
        }
    }
}

pub proof fn lemma_cmp_key_seqs_flip(a: Seq<Seq<char>>, b: Seq<Seq<char>>)
    ensures
        cmp_key_seqs(b, a) == ord_rev(cmp_key_seqs(a, b)),
    decreases a.len(),
{
    if a.len() > 0 && b.len() > 0 {
        lemma_cmp_chars_flip(a[0], b[0]);
        lemma_cmp_chars_eq(a[0], b[0]);
        if cmp_chars(a[0], b[0]) == Ordering::Equal {
            lemma_cmp_key_seqs_flip(a.drop_first(), b.drop_first());
        }
    }
}

pub proof fn lemma_cmp_key_seqs_trans(a: Seq<Seq<char>>, b: Seq<Seq<char>>, c: Seq<Seq<char>>)
    requires
        cmp_key_seqs(a, b) == Ordering::Less,
        cmp_key_seqs(b, c) == Ordering::Less,
    ensures
        cmp_key_seqs(a, c) == Ordering::Less,
    decreases a.len() + b.len() + c.len(),
{
    if a.len() == 0 {
    } else if b.len() > 0 && c.len() > 0 {
        lemma_cmp_chars_eq(a[0], b[0]);
        lemma_cmp_chars_eq(b[0], c[0]);
        lemma_cmp_chars_eq(a[0], c[0]);
        match (cmp_chars(a[0], b[0]), cmp_chars(b[0], c[0])) {
            (Ordering::Equal, Ordering::Equal) => {
                lemma_cmp_key_seqs_trans(a.drop_first(), b.drop_first(), c.drop_first());
            },
            (Ordering::Equal, Ordering::Less) => {
                assert(a[0] == b[0]);
            },
            (Ordering::Less, Ordering::Equal) => {
                assert(b[0] == c[0]);
            },
            (Ordering::Less, Ordering::Less) => {
                lemma_cmp_chars_trans(a[0], b[0], c[0]);
            },
            _ => {},
        }
    }
}

/// Insert a key into a sequence that is sorted in the canonical key order,
/// keeping it sorted.
pub open spec fn insert_sorted(k: Seq<char>, s: Seq<Seq<char>>) -> Seq<Seq<char>>
    decreases s.len(),
{
    if s.len() == 0 {
        seq![k]
    } else if key_le(k, s[0]) {
        seq![k] + s
    } else {
        seq![s[0]] + insert_sorted(k, s.drop_first())
    }
}

/// Sort a sequence of keys into ascending canonical key order by repeated
/// insertion.
pub open spec fn sort_keys(s: Seq<Seq<char>>) -> Seq<Seq<char>>
    decreases s.len(),
{
    if s.len() == 0 {
        Seq::empty()
    } else {
        insert_sorted(s.last(), sort_keys(s.drop_last()))
    }
}

/// The keys stand in ascending canonical order.
pub open spec fn keys_sorted(s: Seq<Seq<char>>) -> bool {
    forall|i: int, j: int| 0 <= i < j < s.len() ==> key_le(#[trigger] s[i], #[trigger] s[j])
}

pub proof fn lemma_key_le_total(a: Seq<char>, b: Seq<char>)
    ensures
        key_le(a, b) || key_le(b, a),
        key_le(a, b) && key_le(b, a) ==> a == b,
{
    lemma_cmp_chars_flip(a, b);
    lemma_cmp_chars_eq(a, b);
}

pub proof fn lemma_key_le_trans(a: Seq<char>, b: Seq<char>, c: Seq<char>)
    requires
        key_le(a, b),
        key_le(b, c),
    ensures
        key_le(a, c),
{
    lemma_cmp_chars_eq(a, b);
    lemma_cmp_chars_eq(b, c);
    lemma_cmp_chars_flip(a, c);
    if cmp_chars(a, b) == Ordering::Less && cmp_chars(b, c) == Ordering::Less {
        lemma_cmp_chars_trans(a, b, c);
    }
}

pub proof fn lemma_insert_sorted_ensures(k: Seq<char>, s: Seq<Seq<char>>)
    requires
        keys_sorted(s),
    ensures
        keys_sorted(insert_sorted(k, s)),
        insert_sorted(k, s).to_multiset() == s.to_multiset().insert(k),
        insert_sorted(k, s).len() == s.len() + 1,
        forall|x: Seq<char>|
            #[trigger] insert_sorted(k, s).contains(x) <==> x == k || s.contains(x),
    decreases s.len(),
{
    broadcast use vstd::seq_lib::group_to_multiset_ensures;

    let r = insert_sorted(k, s);
    if s.len() == 0 {
        assert(r =~= Seq::empty().push(k));
        assert(Seq::<Seq<char>>::empty().push(k).to_multiset() =~= s.to_multiset().insert(k));
        assert forall|x: Seq<char>| #[trigger] r.contains(x) implies x == k || s.contains(x) by {
            assert(r[0] == k);
        }
        assert(r.contains(k)) by {
            assert(r[0] == k);
        }
    } else if key_le(k, s[0]) {
        assert(r =~= seq![k] + s);
        assert(r =~= s.insert(0, k));
        assert(s.insert(0, k).to_multiset() == s.to_multiset().insert(k)) by {
            vstd::seq_lib::to_multiset_insert(s, 0, k);
        }
        assert forall|i: int, j: int| 0 <= i < j < r.len() implies key_le(
            #[trigger] r[i],
            #[trigger] r[j],
        ) by {
            if i == 0 {
                if j > 1 {
                    lemma_key_le_trans(k, s[0], s[j - 1]);
                }
            }
        }
        assert forall|x: Seq<char>| #[trigger] r.contains(x) implies x == k || s.contains(x) by {
            let ix = choose|ix: int| 0 <= ix < r.len() && r[ix] == x;
            if ix > 0 {
                assert(s[ix - 1] == x);
            }
        }
        assert(r.contains(k)) by {
            assert(r[0] == k);
        }
        assert forall|x: Seq<char>| s.contains(x) implies r.contains(x) by {
            let ix = choose|ix: int| 0 <= ix < s.len() && s[ix] == x;
            assert(r[ix + 1] == x);
        }
    } else {
        let t = insert_sorted(k, s.drop_first());
        assert(keys_sorted(s.drop_first())) by {
            assert(forall|i: int, j: int|
                0 <= i < j < s.drop_first().len() ==> key_le(
                    #[trigger] s.drop_first()[i],
                    #[trigger] s.drop_first()[j],
                ));
        }
        lemma_insert_sorted_ensures(k, s.drop_first());
        assert(r =~= seq![s[0]] + t);
        // multiset: r is t with s[0] put in front, s likewise over its tail
        broadcast use vstd::multiset::group_multiset_axioms;

        assert(r =~= t.insert(0, s[0]));
        vstd::seq_lib::to_multiset_insert(t, 0, s[0]);
        assert(s =~= s.drop_first().insert(0, s[0]));
        vstd::seq_lib::to_multiset_insert(s.drop_first(), 0, s[0]);
        assert(r.to_multiset() =~= s.to_multiset().insert(k));
        // sortedness: s[0] is le everything in t
        assert(key_le(s[0], k)) by {
            lemma_key_le_total(k, s[0]);
        }
        assert forall|i: int, j: int| 0 <= i < j < r.len() implies key_le(
            #[trigger] r[i],
            #[trigger] r[j],
        ) by {
            if i == 0 {
                assert(t.contains(r[j])) by {
                    assert(r[j] == t[j - 1]);
                }
                let x = r[j];
                if x == k {
                    assert(key_le(s[0], k));
                } else {
                    assert(s.drop_first().contains(x));
                    let ix = choose|ix: int| 0 <= ix < s.drop_first().len() && s.drop_first()[ix]
                        == x;
                    assert(s[ix + 1] == x);
                    assert(key_le(s[0], x));
                }
            } else {
                assert(key_le(t[i - 1], t[j - 1]));
            }
        }
        assert forall|x: Seq<char>| #[trigger] r.contains(x) implies x == k || s.contains(x) by {
            let ix = choose|ix: int| 0 <= ix < r.len() && r[ix] == x;
            if ix == 0 {
                assert(s[0] == x);
            } else {
                assert(t.contains(x)) by {
                    assert(t[ix - 1] == x);
                }
                if x != k {
                    assert(s.drop_first().contains(x));
                    let iy = choose|iy: int| 0 <= iy < s.drop_first().len() && s.drop_first()[iy]
                        == x;
                    assert(s[iy + 1] == x);
                }
            }
        }
        assert forall|x: Seq<char>| x == k || s.contains(x) implies r.contains(x) by {
            if x == k {
                assert(t.contains(k));
                let ix = choose|ix: int| 0 <= ix < t.len() && t[ix] == k;
                assert(r[ix + 1] == k);
            } else {
                let ix = choose|ix: int| 0 <= ix < s.len() && s[ix] == x;
                if ix == 0 {
                    assert(r[0] == x);
                } else {
                    assert(s.drop_first()[ix - 1] == x);
                    assert(t.contains(x));
                    let iy = choose|iy: int| 0 <= iy < t.len() && t[iy] == x;
                    assert(r[iy + 1] == x);
                }
            }
        }
    }
}

/// Inserting a key at the first position whose key it sorts at or before
/// is exactly what `insert_sorted` does.
pub proof fn lemma_insert_sorted_at(k: Seq<char>, s: Seq<Seq<char>>, j: int)
    requires
        keys_sorted(s),
        0 <= j <= s.len(),
        forall|l: int| 0 <= l < j ==> !key_le(k, #[trigger] s[l]),
        j < s.len() ==> key_le(k, s[j]),
    ensures
        insert_sorted(k, s) == s.insert(j, k),
    decreases s.len(),
{
    if s.len() == 0 {
        assert(insert_sorted(k, s) =~= s.insert(0, k));
    } else if key_le(k, s[0]) {
        assert(j == 0) by {
            if j > 0 {
                assert(!key_le(k, s[0]));
            }
        }
        assert(seq![k] + s =~= s.insert(0, k));
    } else {
        assert(j >= 1) by {
            if j == 0 {
                assert(key_le(k, s[0]));
            }
        }
        let d = s.drop_first();
        assert(keys_sorted(d)) by {
            assert(forall|p: int, q: int|
                0 <= p < q < d.len() ==> key_le(#[trigger] d[p], #[trigger] d[q]));
        }
        assert(forall|l: int| 0 <= l < j - 1 ==> !key_le(k, #[trigger] d[l])) by {
            assert(forall|l: int| 0 <= l < j - 1 ==> d[l] == s[l + 1]);
        }
        assert(j - 1 < d.len() ==> key_le(k, d[j - 1]));
        lemma_insert_sorted_at(k, d, j - 1);
        assert(seq![s[0]] + d.insert(j - 1, k) =~= s.insert(j, k));
    }
}

pub proof fn lemma_sort_keys_ensures(s: Seq<Seq<char>>)
    ensures
        keys_sorted(sort_keys(s)),
        sort_keys(s).to_multiset() == s.to_multiset(),
        sort_keys(s).len() == s.len(),
        forall|x: Seq<char>| #[trigger] sort_keys(s).contains(x) <==> s.contains(x),
    decreases s.len(),
{
    broadcast use vstd::seq_lib::group_to_multiset_ensures;

    if s.len() == 0 {
        assert(sort_keys(s) =~= s);
    } else {
        let d = s.drop_last();
        lemma_sort_keys_ensures(d);
        lemma_insert_sorted_ensures(s.last(), sort_keys(d));
        assert(s =~= d.push(s.last()));
        assert(d.push(s.last()).to_multiset() == d.to_multiset().insert(s.last()));
        assert(sort_keys(s).to_multiset() =~= s.to_multiset());
        assert forall|x: Seq<char>| #[trigger] sort_keys(s).contains(x) implies s.contains(x) by {
            if x == s.last() {
                assert(s[s.len() - 1] == x);
            } else {
                assert(d.contains(x));
                let ix = choose|ix: int| 0 <= ix < d.len() && d[ix] == x;
                assert(s[ix] == x);
            }
        }
        assert forall|x: Seq<char>| s.contains(x) implies sort_keys(s).contains(x) by {
            let ix = choose|ix: int| 0 <= ix < s.len() && s[ix] == x;
            if ix == s.len() - 1 {
                assert(x == s.last());
            } else {
                assert(d[ix] == x);
            }
        }
    }
}

/// Two sorted key sequences with the same multiset of keys are the same
/// sequence: the canonical order is unique.
pub proof fn lemma_sorted_unique(a: Seq<Seq<char>>, b: Seq<Seq<char>>)
    requires
        keys_sorted(a),
        keys_sorted(b),
        a.to_multiset() == b.to_multiset(),
    ensures
        a == b,
    decreases a.len(),
{
    broadcast use vstd::seq_lib::group_to_multiset_ensures;

    if a.len() == 0 {
        assert(b.to_multiset().len() == 0);
        assert(a =~= b);
    } else {
        a.to_multiset_ensures();
        b.to_multiset_ensures();
        assert(b.to_multiset().len() == a.to_multiset().len());
        assert(b.len() == a.len());
        assert(b.len() > 0);
        // the two head keys are both minimal over the same multiset, so equal
        assert(b.to_multiset().count(a[0]) > 0) by {
            assert(a.contains(a[0]));
        }
        assert(b.contains(a[0]));
        assert(a.contains(b[0])) by {
            assert(b.contains(b[0]));
            assert(a.to_multiset().count(b[0]) > 0);
        }
        let ia = choose|i: int| 0 <= i < a.len() && a[i] == b[0];
        let ib = choose|i: int| 0 <= i < b.len() && b[i] == a[0];
        assert(key_le(a[0], b[0])) by {
            if ia > 0 {
            } else {
                lemma_key_le_total(a[0], b[0]);
            }
        }
        assert(key_le(b[0], a[0])) by {
            if ib > 0 {
            } else {
                lemma_key_le_total(a[0], b[0]);
            }
        }
        lemma_key_le_total(a[0], b[0]);
        assert(a[0] == b[0]);
        assert(a.drop_first().to_multiset() == b.drop_first().to_multiset()) by {
            a.to_multiset_ensures();
            b.to_multiset_ensures();
            assert(a.remove(0) =~= a.drop_first());
            assert(b.remove(0) =~= b.drop_first());
            assert(a.remove(0).to_multiset() =~= a.to_multiset().remove(a[0]));
            assert(b.remove(0).to_multiset() =~= b.to_multiset().remove(b[0]));
        }
        assert(keys_sorted(a.drop_first())) by {
            assert(forall|i: int, j: int|
                0 <= i < j < a.drop_first().len() ==> key_le(
                    #[trigger] a.drop_first()[i],
                    #[trigger] a.drop_first()[j],
                ));
        }
        assert(keys_sorted(b.drop_first())) by {
            assert(forall|i: int, j: int|
                0 <= i < j < b.drop_first().len() ==> key_le(
                    #[trigger] b.drop_first()[i],
                    #[trigger] b.drop_first()[j],
                ));
        }
        lemma_sorted_unique(a.drop_first(), b.drop_first());
        assert forall|i: int| 0 <= i < a.len() implies a[i] == b[i] by {
            if i > 0 {
                assert(a.drop_first()[i - 1] == b.drop_first()[i - 1]);
            }
        }
        assert(a =~= b);
    }
}

} // verus!
