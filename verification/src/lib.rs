use vstd::prelude::*;
use std::cmp::Ordering;

pub mod laws;
pub mod text;

verus! {

/// A JSON-like value: the type over which the total order is defined.
pub enum Value {
    Null,
    Bool(bool),
    Number(Number),
    String(String),
    Array(Vec<Value>),
    Object(ObjMap),
    External(Box<Value>),
}

/// Numeric payload of a `Value`; every number compared here is
/// integer-representable.
#[derive(Clone, Copy)]
pub struct Number {
    repr: i64,
}

/// Associative map from text keys to values, with unique keys, preserving
/// insertion order for iteration.
pub struct ObjMap {
    entries: Vec<(String, Value)>,
}

impl View for ObjMap {
    type V = Seq<(String, Value)>;

    closed spec fn view(&self) -> Seq<(String, Value)> {
        self.entries@
    }
}

impl View for Number {
    type V = int;

    closed spec fn view(&self) -> int {
        self.repr as int
    }
}

/// Structural size of a value, used as a termination measure for the
/// recursive comparison.
pub open spec fn vsize(v: Value) -> nat
    decreases v,
{
    match v {
        Value::Null => 1,
        Value::Bool(_) => 1,
        Value::Number(_) => 1,
        Value::String(_) => 1,
        Value::Array(elems) => 1 + vseq_size(elems@),
        Value::Object(m) => 1 + entries_size(m@),
        Value::External(inner) => 1 + vsize(*inner),
    }
}

pub open spec fn vseq_size(s: Seq<Value>) -> nat
    decreases s,
{
    if s.len() == 0 {
        0
    } else {
        vsize(s[0]) + vseq_size(s.drop_first())
    }
}

pub open spec fn entries_size(s: Seq<(String, Value)>) -> nat
    decreases s,
{
    if s.len() == 0 {
        0
    } else {
        1 + vsize(s[0].1) + entries_size(s.drop_first())
    }
}

/// Fixed precedence of each variant: Null, Bool, Number, String, Array,
/// Object, in that order; External is transparent and takes the rank of the
/// value it wraps.
pub open spec fn spec_rank(v: Value) -> int
    decreases v,
{
    match v {
        Value::Null => 0,
        Value::Bool(_) => 1,
        Value::Number(_) => 2,
        Value::String(_) => 3,
        Value::Array(_) => 4,
        Value::Object(_) => 5,
        Value::External(inner) => spec_rank(*inner),
    }
}

/// Strip every External wrapper: the first non-External value reached.
pub open spec fn spec_resolve(v: Value) -> Value
    decreases v,
{
    match v {
        Value::External(inner) => spec_resolve(*inner),
        _ => v,
    }
}

/// Position of the first entry with the given key, or -1 when absent.
pub open spec fn key_index(es: Seq<(String, Value)>, k: Seq<char>) -> int
    decreases es.len(),
{
    if es.len() == 0 {
        -1
    } else if es[0].0@ == k {
        0
    } else if key_index(es.drop_first(), k) < 0 {
        -1
    } else {
        1 + key_index(es.drop_first(), k)
    }
}

pub open spec fn has_key(m: ObjMap, k: Seq<char>) -> bool {
    key_index(m@, k) >= 0
}

/// The value stored at the first entry with the given key.
pub open spec fn lookup(m: ObjMap, k: Seq<char>) -> Value
    recommends
        has_key(m, k),
{
    m@[key_index(m@, k)].1
}

/// The keys of a map, in the order its entries stand.
pub open spec fn keys_of(m: ObjMap) -> Seq<Seq<char>> {
    m@.map_values(|p: (String, Value)| p.0@)
}

/// The keys of a map in ascending canonical order: the comparator never
/// trusts the map's own iteration order.
pub open spec fn canon_keys(m: ObjMap) -> Seq<Seq<char>> {
    text::sort_keys(keys_of(m))
}

/// No two entries share a key.
pub open spec fn obj_wf(m: ObjMap) -> bool {
    forall|i: int, j: int|
        0 <= i < j < m@.len() ==> (#[trigger] m@[i]).0@ != (#[trigger] m@[j]).0@
}

pub open spec fn cmp_bool(x: bool, y: bool) -> Ordering {
    if x == y {
        Ordering::Equal
    } else if !x {
        Ordering::Less
    } else {
        Ordering::Greater
    }
}

pub open spec fn cmp_int(x: int, y: int) -> Ordering {
    if x < y {
        Ordering::Less
    } else if y < x {
        Ordering::Greater
    } else {
        Ordering::Equal
    }
}

/// The total order over values: rank decides first; at equal rank both
/// operands are stripped of External wrappers and compared structurally.
pub open spec fn cmp_value(a: Value, b: Value) -> Ordering
    decreases vsize(a) + vsize(b), 0int,
    via cmp_value_decreases
{
    if spec_rank(a) < spec_rank(b) {
        Ordering::Less
    } else if spec_rank(b) < spec_rank(a) {
        Ordering::Greater
    } else {
        match (spec_resolve(a), spec_resolve(b)) {
            (Value::Null, Value::Null) => Ordering::Equal,
            (Value::Bool(x), Value::Bool(y)) => cmp_bool(x, y),
            (Value::Number(x), Value::Number(y)) => cmp_int(x@, y@),
            (Value::String(x), Value::String(y)) => text::cmp_chars(x@, y@),
            (Value::Array(x), Value::Array(y)) => cmp_elems(x@, y@, 0),
            (Value::Object(x), Value::Object(y)) => cmp_objects(x, y),
            _ => Ordering::Equal,
        }
    }
}

/// Lexicographic comparison of two element sequences from position `i` on,
/// each element pair compared by the value order itself.
pub open spec fn cmp_elems(x: Seq<Value>, y: Seq<Value>, i: int) -> Ordering
    recommends
        0 <= i,
    decreases vseq_size(x.skip(i)) + vseq_size(y.skip(i)), 1int,
    via cmp_elems_decreases
{
    if i < 0 || (i >= x.len() && i >= y.len()) {
        Ordering::Equal
    } else if i >= x.len() {
        Ordering::Less
    } else if i >= y.len() {
        Ordering::Greater
    } else {
        match cmp_value(x[i], y[i]) {
            Ordering::Equal => cmp_elems(x, y, i + 1),
            c => c,
        }
    }
}

/// Object comparison: the canonically sorted key sequences decide first;
/// only when they agree are the values at the shared keys compared, in
/// that same canonical order.
pub open spec fn cmp_objects(x: ObjMap, y: ObjMap) -> Ordering
    decreases entries_size(x@) + entries_size(y@), 2 + canon_keys(x).len(),
{
    match text::cmp_key_seqs(canon_keys(x), canon_keys(y)) {
        Ordering::Equal => cmp_obj_values(x, y, canon_keys(x), 0),
        c => c,
    }
}

/// Per-key value comparison along a key sequence: the first non-equal
/// value pair decides; keys missing on either side are passed over.
pub open spec fn cmp_obj_values(x: ObjMap, y: ObjMap, ks: Seq<Seq<char>>, i: int) -> Ordering
    recommends
        0 <= i,
    decreases entries_size(x@) + entries_size(y@), 1 + ks.len() - i,
    via cmp_obj_values_decreases
{
    if i < 0 || i >= ks.len() {
        Ordering::Equal
    } else if has_key(x, ks[i]) && has_key(y, ks[i]) {
        match cmp_value(lookup(x, ks[i]), lookup(y, ks[i])) {
            Ordering::Equal => cmp_obj_values(x, y, ks, i + 1),
            c => c,
        }
    } else {
        cmp_obj_values(x, y, ks, i + 1)
    }
}

pub proof fn lemma_vsize_pos(v: Value)
    ensures
        vsize(v) >= 1,
{
}

pub proof fn lemma_vseq_size_skip(s: Seq<Value>, i: int)
    requires
        0 <= i < s.len(),
    ensures
        vseq_size(s.skip(i)) == vsize(s[i]) + vseq_size(s.skip(i + 1)),
{
    assert(s.skip(i).len() > 0);
    assert(s.skip(i)[0] == s[i]);
    assert(s.skip(i).drop_first() =~= s.skip(i + 1));
}

pub proof fn lemma_vseq_size_elem(s: Seq<Value>, j: int)
    requires
        0 <= j < s.len(),
    ensures
        vsize(s[j]) <= vseq_size(s),
    decreases s.len(),
{
    if j == 0 {
    } else {
        lemma_vseq_size_elem(s.drop_first(), j - 1);
        assert(s.drop_first()[j - 1] == s[j]);
    }
}

pub proof fn lemma_entries_size_elem(es: Seq<(String, Value)>, j: int)
    requires
        0 <= j < es.len(),
    ensures
        1 + vsize(es[j].1) <= entries_size(es),
    decreases es.len(),
{
    if j == 0 {
    } else {
        lemma_entries_size_elem(es.drop_first(), j - 1);
        assert(es.drop_first()[j - 1] == es[j]);
    }
}

pub proof fn lemma_key_index(es: Seq<(String, Value)>, k: Seq<char>)
    ensures
        -1 <= key_index(es, k) < es.len(),
        key_index(es, k) >= 0 ==> es[key_index(es, k)].0@ == k,
        forall|j: int|
            0 <= j < es.len() && j < key_index(es, k) ==> (#[trigger] es[j]).0@ != k,
        key_index(es, k) < 0 ==> forall|j: int| 0 <= j < es.len() ==> (#[trigger] es[j]).0@ != k,
    decreases es.len(),
{
    if es.len() == 0 {
    } else if es[0].0@ == k {
    } else {
        lemma_key_index(es.drop_first(), k);
        let r = key_index(es.drop_first(), k);
        if r >= 0 {
            assert(es[1 + r] == es.drop_first()[r]);
            assert forall|j: int| 0 <= j < es.len() && j < 1 + r implies (#[trigger] es[j]).0@
                != k by {
                if j > 0 {
                    assert(es.drop_first()[j - 1] == es[j]);
                }
            }
        } else {
            assert forall|j: int| 0 <= j < es.len() implies (#[trigger] es[j]).0@ != k by {
                if j > 0 {
                    assert(es.drop_first()[j - 1] == es[j]);
                }
            }
        }
    }
}

/// The first entry whose key matches is the one `key_index` names.
pub proof fn lemma_key_index_first(es: Seq<(String, Value)>, k: Seq<char>, i: int)
    requires
        0 <= i < es.len(),
        es[i].0@ == k,
        forall|j: int| 0 <= j < i ==> (#[trigger] es[j]).0@ != k,
    ensures
        key_index(es, k) == i,
    decreases es.len(),
{
    if i == 0 {
    } else {
        assert(es[0].0@ != k);
        assert(es.drop_first()[i - 1] == es[i]);
        assert forall|j: int| 0 <= j < i - 1 implies (#[trigger] es.drop_first()[j]).0@ != k by {
            assert(es.drop_first()[j] == es[j + 1]);
        }
        lemma_key_index_first(es.drop_first(), k, i - 1);
    }
}

/// A key stands in the canonical key sequence exactly when the map holds it.
pub proof fn lemma_canon_keys_has(m: ObjMap)
    ensures
        forall|k: Seq<char>| #[trigger] canon_keys(m).contains(k) <==> has_key(m, k),
        canon_keys(m).len() == m@.len(),
        text::keys_sorted(canon_keys(m)),
{
    text::lemma_sort_keys_ensures(keys_of(m));
    assert forall|k: Seq<char>| #[trigger] canon_keys(m).contains(k) <==> has_key(m, k) by {
        lemma_key_index(m@, k);
        if canon_keys(m).contains(k) {
            assert(keys_of(m).contains(k));
            let j = choose|j: int| 0 <= j < keys_of(m).len() && keys_of(m)[j] == k;
            assert(m@[j].0@ == k);
            if key_index(m@, k) < 0 {
                assert(false);
            }
        }
        if has_key(m, k) {
            let ki = key_index(m@, k);
            assert(keys_of(m)[ki] == k);
            assert(keys_of(m).contains(k));
        }
    }
}

pub proof fn lemma_resolve_props(v: Value)
    ensures
        spec_rank(spec_resolve(v)) == spec_rank(v),
        !(spec_resolve(v) is External),
        vsize(spec_resolve(v)) <= vsize(v),
        spec_resolve(spec_resolve(v)) == spec_resolve(v),
    decreases v,
{
    match v {
        Value::External(inner) => {
            lemma_resolve_props(*inner);
        },
        _ => {},
    }
}

#[via_fn]
proof fn cmp_value_decreases(a: Value, b: Value) {
    lemma_resolve_props(a);
    lemma_resolve_props(b);
    match (spec_resolve(a), spec_resolve(b)) {
        (Value::Array(x), Value::Array(y)) => {
            assert(x@.skip(0) =~= x@);
            assert(y@.skip(0) =~= y@);
        },
        _ => {},
    }
}

#[via_fn]
proof fn cmp_elems_decreases(x: Seq<Value>, y: Seq<Value>, i: int) {
    if 0 <= i && i < x.len() && i < y.len() {
        lemma_vseq_size_skip(x, i);
        lemma_vseq_size_skip(y, i);
        lemma_vsize_pos(x[i]);
        lemma_vsize_pos(y[i]);
    }
}

impl Number {
    /// Wrap an integer as a numeric value.
    pub fn from_i64(i: i64) -> (r: Number)
        ensures
            r@ == i as int,
    {
        Number { repr: i }
    }

    /// Fallible integer extraction; every number this module builds is
    /// integer-representable, so it always succeeds.
    pub fn as_i64(&self) -> (r: Option<i64>)
        ensures
            r matches Some(x) && x as int == self@,
    {
        Some(self.repr)
    }
}

impl Value {
    /// The wrapped boolean, when this value is a Bool.
    pub fn as_bool(&self) -> (r: Option<bool>)
        ensures
            match *self {
                Value::Bool(b) => r == Some(b),
                _ => r is None,
            },
    {
        match self {
            Value::Bool(b) => Some(*b),
            _ => None,
        }
    }

    /// The wrapped text, when this value is a String.
    pub fn as_str(&self) -> (r: Option<&str>)
        ensures
            match *self {
                Value::String(s) => r matches Some(t) && t@ == s@,
                _ => r is None,
            },
    {
        match self {
            Value::String(s) => Some(s.as_str()),
            _ => None,
        }
    }
}

/// Fixed precedence of the variant a value unwraps to.
pub fn type_rank(v: &Value) -> (r: i64)
    ensures
        r == spec_rank(*v),
    decreases v,
{
    match v {
        Value::Null => 0,
        Value::Bool(_) => 1,
        Value::Number(_) => 2,
        Value::String(_) => 3,
        Value::Array(_) => 4,
        Value::Object(_) => 5,
        Value::External(inner) => type_rank(&**inner),
    }
}

/// Strip every External wrapper, returning the first non-External value.
pub fn resolve_external(v: &Value) -> (r: &Value)
    ensures
        *r == spec_resolve(*v),
    decreases v,
{
    match v {
        Value::External(inner) => resolve_external(&**inner),
        _ => v,
    }
}

/// Compare two numbers by their integer values.
pub fn cmp_number(a: &Number, b: &Number) -> (r: Ordering)
    ensures
        r == cmp_int(a@, b@),
{
    match (a.as_i64(), b.as_i64()) {
        (Some(x), Some(y)) => {
            if x < y {
                Ordering::Less
            } else if y < x {
                Ordering::Greater
            } else {
                Ordering::Equal
            }
        },
        _ => vstd::pervasive::unreached(),
    }
}

impl ObjMap {
    /// An empty map.
    pub fn new() -> (r: ObjMap)
        ensures
            r@ == Seq::<(String, Value)>::empty(),
            obj_wf(r),
    {
        ObjMap { entries: Vec::new() }
    }

    /// The value at a key, if the map holds it.
    pub fn get(&self, k: &str) -> (r: Option<&Value>)
        ensures
            match r {
                Some(v) => has_key(*self, k@) && *v == lookup(*self, k@),
                None => !has_key(*self, k@),
            },
    {
        let n = self.entries.len();
        let mut i: usize = 0;
        while i < n
            invariant
                i <= n,
                n == self@.len(),
                forall|j: int| 0 <= j < i ==> (#[trigger] self@[j]).0@ != k@,
            decreases n - i,
        {
            let c = cmp_str(self.entries[i].0.as_str(), k);
            proof {
                text::lemma_cmp_chars_eq(self@[i as int].0@, k@);
            }
            match c {
                Ordering::Equal => {
                    proof {
                        lemma_key_index_first(self@, k@, i as int);
                    }
                    return Some(&self.entries[i].1);
                },
                _ => {},
            }
            i = i + 1;
        }
        proof {
            lemma_key_index(self@, k@);
            if key_index(self@, k@) >= 0 {
                assert(self@[key_index(self@, k@)].0@ == k@);
            }
        }
        None
    }

    /// Put a value at a key: an entry already holding the key is replaced
    /// in place, a new key is appended.
    pub fn insert(&mut self, k: String, v: Value)
        ensures
            key_index(old(self)@, k@) >= 0 ==> final(self)@ == old(self)@.update(
                key_index(old(self)@, k@),
                (k, v),
            ),
            key_index(old(self)@, k@) < 0 ==> final(self)@ == old(self)@.push((k, v)),
            obj_wf(*old(self)) ==> obj_wf(*final(self)),
    {
        let n = self.entries.len();
        let mut i: usize = 0;
        while i < n
            invariant
                *self == *old(self),
                i <= n,
                n == self@.len(),
                forall|j: int| 0 <= j < i ==> (#[trigger] self@[j]).0@ != k@,
            decreases n - i,
        {
            let c = cmp_str(self.entries[i].0.as_str(), k.as_str());
            proof {
                text::lemma_cmp_chars_eq(self@[i as int].0@, k@);
            }
            match c {
                Ordering::Equal => {
                    proof {
                        lemma_key_index_first(self@, k@, i as int);
                    }
                    let ghost before = self@;
                    self.entries.remove(i);
                    self.entries.insert(i, (k, v));
                    proof {
                        assert(self@ =~= before.update(i as int, (k, v)));
                        if obj_wf(*old(self)) {
                            assert forall|p: int, q: int|
                                0 <= p < q < self@.len() implies (#[trigger] self@[p]).0@ != (
                            #[trigger] self@[q]).0@ by {
                                assert(before[p].0@ == self@[p].0@);
                                assert(before[q].0@ == self@[q].0@);
                            }
                        }
                    }
                    return ;
                },
                _ => {},
            }
            i = i + 1;
        }
        proof {
            lemma_key_index(self@, k@);
            if key_index(self@, k@) >= 0 {
                assert(self@[key_index(self@, k@)].0@ == k@);
            }
        }
        let ghost before = self@;
        self.entries.push((k, v));
        proof {
            if obj_wf(*old(self)) {
                assert forall|p: int, q: int|
                    0 <= p < q < self@.len() implies (#[trigger] self@[p]).0@ != (
                #[trigger] self@[q]).0@ by {
                    if q < before.len() {
                        assert(before[p].0@ != before[q].0@);
                    } else {
                        assert(self@[q].0@ == k@);
                        assert(before[p].0@ != k@);
                    }
                }
            }
        }
    }

    /// The keys in the order their entries stand, for iteration elsewhere;
    /// comparison never relies on this order.
    pub fn keys(&self) -> (r: Vec<String>)
        ensures
            r@.map_values(|s: String| s@) == keys_of(*self),
    {
        let n = self.entries.len();
        let mut r: Vec<String> = Vec::new();
        let mut i: usize = 0;
        while i < n
            invariant
                i <= n,
                n == self@.len(),
                r@.len() == i,
                r@.map_values(|s: String| s@) =~= keys_of(*self).take(i as int),
            decreases n - i,
        {
            r.push(self.entries[i].0.clone());
            proof {
                assert(r@.map_values(|s: String| s@) =~= keys_of(*self).take(i as int + 1));
            }
            i = i + 1;
        }
        proof {
            assert(keys_of(*self).take(n as int) =~= keys_of(*self));
        }
        r
    }
}

/// Compare two strings character by character in natural lexicographic
/// order.
pub fn cmp_str(a: &str, b: &str) -> (r: Ordering)
    ensures
        r == text::cmp_chars(a@, b@),
{
    let alen = a.unicode_len();
    let blen = b.unicode_len();
    let mut i: usize = 0;
    proof {
        assert(a@.skip(0) =~= a@);
        assert(b@.skip(0) =~= b@);
    }
    while i < alen && i < blen
        invariant
            i <= alen,
            i <= blen,
            alen == a@.len(),
            blen == b@.len(),
            text::cmp_chars(a@, b@) == text::cmp_chars(a@.skip(i as int), b@.skip(i as int)),
        decreases alen - i,
    {
        let ca = a.get_char(i);
        let cb = b.get_char(i);
        if (ca as u32) < (cb as u32) {
            proof {
                assert(a@.skip(i as int)[0] == ca);
                assert(b@.skip(i as int)[0] == cb);
            }
            return Ordering::Less;
        } else if (cb as u32) < (ca as u32) {
            proof {
                assert(a@.skip(i as int)[0] == ca);
                assert(b@.skip(i as int)[0] == cb);
            }
            return Ordering::Greater;
        }
        proof {
            assert(a@.skip(i as int)[0] == ca);
            assert(b@.skip(i as int)[0] == cb);
            assert(a@.skip(i as int).drop_first() =~= a@.skip(i as int + 1));
            assert(b@.skip(i as int).drop_first() =~= b@.skip(i as int + 1));
        }
        i = i + 1;
    }
    proof {
        assert(a@.skip(i as int).len() == alen - i);
        assert(b@.skip(i as int).len() == blen - i);
    }
    if alen < blen {
        Ordering::Less
    } else if blen < alen {
        Ordering::Greater
    } else {
        Ordering::Equal
    }
}

/// The map's keys in ascending canonical order: the canonical sorted-keys
/// accessor the comparator uses, independent of iteration order.
pub fn sorted_keys(m: &ObjMap) -> (r: Vec<String>)
    ensures
        r@.map_values(|s: String| s@) == canon_keys(*m),
{
    let ks = m.keys();
    let n = ks.len();
    let mut r: Vec<String> = Vec::new();
    let mut i: usize = 0;
    proof {
        assert(keys_of(*m).take(0) =~= Seq::<Seq<char>>::empty());
        assert(r@.map_values(|s: String| s@) =~= Seq::<Seq<char>>::empty());
    }
    while i < n
        invariant
            i <= n,
            n == ks@.len(),
            ks@.map_values(|s: String| s@) == keys_of(*m),
            r@.map_values(|s: String| s@) == text::sort_keys(keys_of(*m).take(i as int)),
            text::keys_sorted(r@.map_values(|s: String| s@)),
            r@.len() == i,
        decreases n - i,
    {
        let k = ks[i].clone();
        let ghost rv = r@.map_values(|s: String| s@);
        let ghost kv = k@;
        let rlen = r.len();
        let mut j: usize = 0;
        loop
            invariant_except_break
                j <= rlen,
                rlen == r@.len(),
                rv == r@.map_values(|s: String| s@),
                kv == k@,
                forall|l: int| 0 <= l < j ==> !text::key_le(kv, #[trigger] rv[l]),
            ensures
                j <= rlen,
                forall|l: int| 0 <= l < j ==> !text::key_le(kv, #[trigger] rv[l]),
                j < rlen ==> text::key_le(kv, rv[j as int]),
            decreases rlen - j,
        {
            if j >= rlen {
                break ;
            }
            let c = cmp_str(k.as_str(), r[j].as_str());
            proof {
                assert(rv[j as int] == r@[j as int]@);
            }
            match c {
                Ordering::Greater => {
                },
                _ => {
                    break ;
                },
            }
            j = j + 1;
        }
        proof {
            text::lemma_insert_sorted_at(kv, rv, j as int);
        }
        r.insert(j, k);
        proof {
            assert(r@.map_values(|s: String| s@) =~= rv.insert(j as int, kv));
            assert(r@.map_values(|s: String| s@) == text::insert_sorted(kv, rv));
            text::lemma_sort_keys_ensures(keys_of(*m).take(i as int));
            text::lemma_insert_sorted_ensures(kv, rv);
            let t1 = keys_of(*m).take(i as int + 1);
            assert(t1.drop_last() =~= keys_of(*m).take(i as int));
            assert(t1.last() == keys_of(*m)[i as int]);
            assert(kv == keys_of(*m)[i as int]) by {
                assert(ks@.map_values(|s: String| s@)[i as int] == ks@[i as int]@);
            }
            assert(r@.map_values(|s: String| s@) == text::sort_keys(t1));
        }
        i = i + 1;
    }
    proof {
        assert(keys_of(*m).take(n as int) =~= keys_of(*m));
    }
    r
}

/// Lexicographic comparison of two key lists.
fn cmp_key_vecs(x: &Vec<String>, y: &Vec<String>) -> (r: Ordering)
    ensures
        r == text::cmp_key_seqs(
            x@.map_values(|s: String| s@),
            y@.map_values(|s: String| s@),
        ),
{
    let ghost xv = x@.map_values(|s: String| s@);
    let ghost yv = y@.map_values(|s: String| s@);
    let xlen = x.len();
    let ylen = y.len();
    let mut i: usize = 0;
    proof {
        assert(xv.skip(0) =~= xv);
        assert(yv.skip(0) =~= yv);
    }
    while i < xlen && i < ylen
        invariant
            i <= xlen,
            i <= ylen,
            xlen == x@.len(),
            ylen == y@.len(),
            xv == x@.map_values(|s: String| s@),
            yv == y@.map_values(|s: String| s@),
            text::cmp_key_seqs(xv, yv) == text::cmp_key_seqs(
                xv.skip(i as int),
                yv.skip(i as int),
            ),
        decreases xlen - i,
    {
        let c = cmp_str(x[i].as_str(), y[i].as_str());
        proof {
            assert(xv.skip(i as int)[0] == xv[i as int]);
            assert(yv.skip(i as int)[0] == yv[i as int]);
            assert(xv[i as int] == x@[i as int]@);
            assert(yv[i as int] == y@[i as int]@);
        }
        match c {
            Ordering::Equal => {},
            _ => {
                return c;
            },
        }
        proof {
            assert(xv.skip(i as int).drop_first() =~= xv.skip(i as int + 1));
            assert(yv.skip(i as int).drop_first() =~= yv.skip(i as int + 1));
        }
        i = i + 1;
    }
    proof {
        assert(xv.skip(i as int).len() == xlen - i);
        assert(yv.skip(i as int).len() == ylen - i);
    }
    if xlen < ylen {
        Ordering::Less
    } else if ylen < xlen {
        Ordering::Greater
    } else {
        Ordering::Equal
    }
}

/// Lexicographic comparison of two element vectors by the value order.
fn cmp_value_vecs(x: &Vec<Value>, y: &Vec<Value>) -> (r: Ordering)
    ensures
        r == cmp_elems(x@, y@, 0),
    decreases vseq_size(x@) + vseq_size(y@), 1int,
{
    let xlen = x.len();
    let ylen = y.len();
    let mut i: usize = 0;
    while i < xlen && i < ylen
        invariant
            i <= xlen,
            i <= ylen,
            xlen == x@.len(),
            ylen == y@.len(),
            cmp_elems(x@, y@, 0) == cmp_elems(x@, y@, i as int),
        decreases xlen - i,
    {
        proof {
            lemma_vseq_size_elem(x@, i as int);
            lemma_vseq_size_elem(y@, i as int);
        }
        let c = (&x[i]).cmp(&y[i]);
        match c {
            Ordering::Equal => {},
            _ => {
                return c;
            },
        }
        i = i + 1;
    }
    if xlen < ylen {
        Ordering::Less
    } else if ylen < xlen {
        Ordering::Greater
    } else {
        Ordering::Equal
    }
}

/// Compare two objects: canonically sorted key sequences first, then the
/// values at the shared keys in that order.
pub fn cmp_object(a: &ObjMap, b: &ObjMap) -> (r: Ordering)
    ensures
        r == cmp_objects(*a, *b),
    decreases entries_size(a@) + entries_size(b@), 2int,
{
    let ka = sorted_keys(a);
    let kb = sorted_keys(b);
    let c = cmp_key_vecs(&ka, &kb);
    match c {
        Ordering::Equal => {},
        _ => {
            return c;
        },
    }
    proof {
        text::lemma_cmp_key_seqs_eq(canon_keys(*a), canon_keys(*b));
        lemma_canon_keys_has(*a);
        lemma_canon_keys_has(*b);
    }
    let ghost ks = canon_keys(*a);
    let n = ka.len();
    let mut i: usize = 0;
    while i < n
        invariant
            i <= n,
            n == ka@.len(),
            ka@.map_values(|s: String| s@) == canon_keys(*a),
            canon_keys(*b) == canon_keys(*a),
            ks == canon_keys(*a),
            ks.len() == n,
            forall|k: Seq<char>| #[trigger] canon_keys(*a).contains(k) <==> has_key(*a, k),
            forall|k: Seq<char>| #[trigger] canon_keys(*b).contains(k) <==> has_key(*b, k),
            cmp_obj_values(*a, *b, ks, 0) == cmp_obj_values(*a, *b, ks, i as int),
        decreases n - i,
    {
        let k = &ka[i];
        proof {
            assert(k@ == ka@.map_values(|s: String| s@)[i as int]);
            assert(ks[i as int] == k@);
            assert(ks.contains(k@));
            assert(has_key(*a, k@));
            assert(has_key(*b, k@));
        }
        let va = a.get(k.as_str());
        let vb = b.get(k.as_str());
        match (va, vb) {
            (Some(xv), Some(yv)) => {
                proof {
                    lemma_key_index(a@, k@);
                    lemma_key_index(b@, k@);
                    lemma_entries_size_elem(a@, key_index(a@, k@));
                    lemma_entries_size_elem(b@, key_index(b@, k@));
                }
                let c = xv.cmp(yv);
                match c {
                    Ordering::Equal => {
                        proof {
                            assert(cmp_obj_values(*a, *b, ks, i as int) == cmp_obj_values(
                                *a,
                                *b,
                                ks,
                                i as int + 1,
                            ));
                        }
                    },
                    _ => {
                        proof {
                            text::lemma_cmp_key_seqs_eq(canon_keys(*a), canon_keys(*b));
                            assert(cmp_obj_values(*a, *b, ks, i as int) == c);
                        }
                        return c;
                    },
                }
            },
            _ => {
                return vstd::pervasive::unreached();
            },
        }
        i = i + 1;
    }
    proof {
        text::lemma_cmp_key_seqs_eq(canon_keys(*a), canon_keys(*b));
    }
    Ordering::Equal
}

impl Value {
    /// The total order over values: rank decides first; at equal rank both
    /// operands are stripped of External wrappers and compared structurally.
    pub fn cmp(&self, other: &Value) -> (r: Ordering)
        ensures
            r == cmp_value(*self, *other),
        decreases vsize(*self) + vsize(*other), 0int,
    {
        let ra = type_rank(self);
        let rb = type_rank(other);
        if ra < rb {
            Ordering::Less
        } else if rb < ra {
            Ordering::Greater
        } else {
            let x = resolve_external(self);
            let y = resolve_external(other);
            proof {
                lemma_resolve_props(*self);
                lemma_resolve_props(*other);
            }
            match (x, y) {
                (Value::Null, Value::Null) => Ordering::Equal,
                (Value::Bool(p), Value::Bool(q)) => {
                    if *p == *q {
                        Ordering::Equal
                    } else if !*p {
                        Ordering::Less
                    } else {
                        Ordering::Greater
                    }
                },
                (Value::Number(p), Value::Number(q)) => cmp_number(p, q),
                (Value::String(p), Value::String(q)) => cmp_str(p.as_str(), q.as_str()),
                (Value::Array(p), Value::Array(q)) => cmp_value_vecs(p, q),
                (Value::Object(p), Value::Object(q)) => cmp_object(p, q),
                _ => {
                    proof {
                        assert(false);
                    }
                    vstd::pervasive::unreached()
                },
            }
        }
    }

    /// Total comparison never fails.
    pub fn partial_cmp(&self, other: &Value) -> (r: Option<Ordering>)
        ensures
            r == Some(cmp_value(*self, *other)),
    {
        Some(self.cmp(other))
    }
}

impl ObjMap {
    /// Objects order as their wrapped values would.
    pub fn cmp(&self, other: &ObjMap) -> (r: Ordering)
        ensures
            r == cmp_objects(*self, *other),
    {
        cmp_object(self, other)
    }

    /// Total comparison never fails.
    pub fn partial_cmp(&self, other: &ObjMap) -> (r: Option<Ordering>)
        ensures
            r == Some(cmp_objects(*self, *other)),
    {
        Some(self.cmp(other))
    }
}

#[via_fn]
proof fn cmp_obj_values_decreases(x: ObjMap, y: ObjMap, ks: Seq<Seq<char>>, i: int) {
    if 0 <= i && i < ks.len() && has_key(x, ks[i]) && has_key(y, ks[i]) {
        lemma_key_index(x@, ks[i]);
        lemma_key_index(y@, ks[i]);
        lemma_entries_size_elem(x@, key_index(x@, ks[i]));
        lemma_entries_size_elem(y@, key_index(y@, ks[i]));
    }
}

} // verus!
