//! The flat parameter store: an ordered mapping from dotted key to a
//! scalar-or-sequence value, with overwrite and accumulate insertion, the
//! argument-pair parser, the merge step, per-command validation, and the
//! display redaction transform.
use vstd::prelude::*;

use crate::error::Error;
use crate::strutil::{
    contains_str, has_prefix, is_digit, parse_u64, spec_contains_seq, spec_has_prefix,
    spec_parse_u64, str_eq,
};

verus! {

/// The mathematical value of one store entry. Numbers always carry their
/// canonical decimal text: the downstream request wants string-typed scalars,
/// and `Num` only records that the caller wrote a bare number, so that a
/// structured document passes through with its literal types intact.
/// `Json` carries a nested array or object verbatim, as its compact JSON text.
pub enum Val {
    Str(Seq<char>),
    Bool(bool),
    Num(Seq<char>),
    Null,
    StrList(Seq<Seq<char>>),
    Json(Seq<char>),
}

/// One parameter value: a string, a boolean, a number held as its decimal
/// text, a null, an ordered sequence of strings (a key supplied repeatedly),
/// or a nested structure carried as JSON text.
#[derive(Debug, PartialEq)]
pub enum Value {
    Str(String),
    Bool(bool),
    Num(String),
    Null,
    StrList(Vec<String>),
    Json(String),
}

impl View for Value {
    type V = Val;

    open spec fn view(&self) -> Val {
        match self {
            Value::Str(s) => Val::Str(s@),
            Value::Bool(b) => Val::Bool(*b),
            Value::Num(s) => Val::Num(s@),
            Value::Null => Val::Null,
            Value::StrList(l) => Val::StrList(l.deep_view()),
            Value::Json(s) => Val::Json(s@),
        }
    }
}

/// A store is modelled as the ordered sequence of its (key, value) entries.
pub type StoreModel = Seq<(Seq<char>, Val)>;

pub open spec fn entries_view(es: Seq<(String, Value)>) -> StoreModel {
    es.map_values(|e: (String, Value)| (e.0@, e.1@))
}

pub open spec fn contains_key(m: StoreModel, k: Seq<char>) -> bool {
    exists|i: int| 0 <= i < m.len() && (#[trigger] m[i].0) == k
}

/// The index of the first entry with key `k`.
pub open spec fn key_index(m: StoreModel, k: Seq<char>) -> int
    decreases m.len(),
{
    if m.len() == 0 {
        0
    } else if m[0].0 == k {
        0
    } else {
        1 + key_index(m.drop_first(), k)
    }
}

/// The value under key `k`: the first entry with that key, if any.
pub open spec fn lookup(m: StoreModel, k: Seq<char>) -> Option<Val> {
    if contains_key(m, k) {
        Some(m[key_index(m, k)].1)
    } else {
        None
    }
}

/// Well-formed store: keys are unique.
pub open spec fn wf(m: StoreModel) -> bool {
    forall|i: int, j: int| 0 <= i < j < m.len() ==> (#[trigger] m[i].0) != (#[trigger] m[j].0)
}

/// Insertion with overwrite-if-present semantics: an existing entry keeps its
/// position and takes the new value; a new key is appended.
pub open spec fn upsert(m: StoreModel, k: Seq<char>, v: Val) -> StoreModel {
    if contains_key(m, k) {
        m.update(key_index(m, k), (k, v))
    } else {
        m.push((k, v))
    }
}

/// How a repeated occurrence of a key changes its current value: a scalar
/// string becomes a two-element sequence, a sequence grows, anything else is
/// overwritten.
pub open spec fn append_val(cur: Val, v: Seq<char>) -> Val {
    match cur {
        Val::Str(s) => Val::StrList(seq![s, v]),
        Val::StrList(l) => Val::StrList(l.push(v)),
        _ => Val::Str(v),
    }
}

/// Insert-or-append semantics used by the argument-pair parser.
pub open spec fn upsert_append(m: StoreModel, k: Seq<char>, v: Seq<char>) -> StoreModel {
    if contains_key(m, k) {
        m.update(key_index(m, k), (k, append_val(m[key_index(m, k)].1, v)))
    } else {
        m.push((k, Val::Str(v)))
    }
}

/// Merging `over` into `base`, entry by entry in order: on a key collision
/// the entry of `over` wins.
pub open spec fn spec_merge(base: StoreModel, over: StoreModel) -> StoreModel
    decreases over.len(),
{
    if over.len() == 0 {
        base
    } else {
        upsert(spec_merge(base, over.drop_last()), over.last().0, over.last().1)
    }
}

/// The store built from an entry list by repeated overwriting insertion.
pub open spec fn store_of_entries(es: StoreModel) -> StoreModel {
    spec_merge(Seq::empty(), es)
}

pub proof fn lemma_key_index_of_first(m: StoreModel, k: Seq<char>, i: int)
    requires
        0 <= i < m.len(),
        m[i].0 == k,
        forall|j: int| 0 <= j < i ==> (#[trigger] m[j].0) != k,
    ensures
        contains_key(m, k),
        key_index(m, k) == i,
    decreases i,
{
    if i == 0 {
    } else {
        lemma_key_index_of_first(m.drop_first(), k, i - 1);
    }
}

pub proof fn lemma_key_index_bounds(m: StoreModel, k: Seq<char>)
    requires
        contains_key(m, k),
    ensures
        0 <= key_index(m, k) < m.len(),
        m[key_index(m, k)].0 == k,
        forall|j: int| 0 <= j < key_index(m, k) ==> (#[trigger] m[j].0) != k,
    decreases m.len(),
{
    if m.len() > 0 && m[0].0 != k {
        assert(contains_key(m.drop_first(), k)) by {
            let w = choose|i: int| 0 <= i < m.len() && (#[trigger] m[i].0) == k;
            assert(m.drop_first()[w - 1].0 == k);
        }
        lemma_key_index_bounds(m.drop_first(), k);
        assert forall|j: int| 0 <= j < key_index(m, k) implies (#[trigger] m[j].0) != k by {
            if j > 0 {
                assert(m.drop_first()[j - 1].0 == m[j].0);
            }
        }
    }
}

/// Under uniqueness of keys, the entry at any position is what lookup of its
/// key returns.
pub proof fn lemma_lookup_at(m: StoreModel, i: int)
    requires
        wf(m),
        0 <= i < m.len(),
    ensures
        lookup(m, m[i].0) == Some(m[i].1),
{
    let k = m[i].0;
    assert(contains_key(m, k));
    lemma_key_index_bounds(m, k);
    let ki = key_index(m, k);
    if ki != i {
        assert(m[ki].0 != m[i].0);
    }
}

/// What overwriting insertion does to lookups: the inserted key maps to the
/// new value, every other key is untouched, and uniqueness is preserved.
pub proof fn lemma_upsert_props(m: StoreModel, k: Seq<char>, v: Val)
    requires
        wf(m),
    ensures
        wf(upsert(m, k, v)),
        lookup(upsert(m, k, v), k) == Some(v),
        forall|k2: Seq<char>| k2 != k ==> lookup(upsert(m, k, v), k2) == lookup(m, k2),
        forall|k2: Seq<char>|
            contains_key(upsert(m, k, v), k2) == (k2 == k || contains_key(m, k2)),
{
    let u = upsert(m, k, v);
    if contains_key(m, k) {
        lemma_key_index_bounds(m, k);
        let ki = key_index(m, k);
        assert(forall|j: int| 0 <= j < u.len() && j != ki ==> u[j] == m[j]);
        assert(wf(u));
        lemma_key_index_of_first(u, k, ki);
        assert(lookup(u, k) == Some(v));
        assert forall|k2: Seq<char>| k2 != k implies lookup(u, k2) == lookup(m, k2)
            && (contains_key(u, k2) == contains_key(m, k2)) by {
            if contains_key(m, k2) {
                lemma_key_index_bounds(m, k2);
                let ki2 = key_index(m, k2);
                assert(u[ki2].0 == k2);
                assert(forall|j: int| 0 <= j < ki2 ==> (#[trigger] u[j].0) != k2);
                lemma_key_index_of_first(u, k2, ki2);
            } else {
                if contains_key(u, k2) {
                    let w = choose|i: int| 0 <= i < u.len() && (#[trigger] u[i].0) == k2;
                    assert(m[w].0 == k2);
                }
            }
        }
    } else {
        assert(u == m.push((k, v)));
        assert forall|i: int, j: int| 0 <= i < j < u.len() implies u[i].0 != u[j].0 by {
            if j == u.len() - 1 {
                assert(m[i].0 == u[i].0);
            }
        }
        lemma_key_index_of_first(u, k, m.len() as int);
        assert forall|k2: Seq<char>| k2 != k implies lookup(u, k2) == lookup(m, k2)
            && (contains_key(u, k2) == contains_key(m, k2)) by {
            if contains_key(m, k2) {
                lemma_key_index_bounds(m, k2);
                let ki2 = key_index(m, k2);
                assert(u[ki2].0 == k2);
                lemma_key_index_of_first(u, k2, ki2);
            } else {
                if contains_key(u, k2) {
                    let w = choose|i: int| 0 <= i < u.len() && (#[trigger] u[i].0) == k2;
                    assert(w < m.len() ==> m[w].0 == k2);
                }
            }
        }
    }
}

/// The insert-or-append analogue of `lemma_upsert_props`.
pub proof fn lemma_upsert_append_props(m: StoreModel, k: Seq<char>, v: Seq<char>)
    requires
        wf(m),
    ensures
        wf(upsert_append(m, k, v)),
        lookup(upsert_append(m, k, v), k) == Some(
            match lookup(m, k) {
                Some(cur) => append_val(cur, v),
                None => Val::Str(v),
            },
        ),
        forall|k2: Seq<char>| k2 != k ==> lookup(upsert_append(m, k, v), k2) == lookup(m, k2),
        forall|k2: Seq<char>|
            contains_key(upsert_append(m, k, v), k2) == (k2 == k || contains_key(m, k2)),
{
    if contains_key(m, k) {
        lemma_key_index_bounds(m, k);
        lemma_upsert_props(m, k, append_val(m[key_index(m, k)].1, v));
        assert(upsert_append(m, k, v) == upsert(m, k, append_val(m[key_index(m, k)].1, v)));
    } else {
        lemma_upsert_props(m, k, Val::Str(v));
        assert(upsert_append(m, k, v) == upsert(m, k, Val::Str(v)));
    }
}

/// Merging preserves uniqueness of keys.
pub proof fn lemma_merge_wf(base: StoreModel, over: StoreModel)
    requires
        wf(base),
    ensures
        wf(spec_merge(base, over)),
    decreases over.len(),
{
    if over.len() > 0 {
        lemma_merge_wf(base, over.drop_last());
        lemma_upsert_props(spec_merge(base, over.drop_last()), over.last().0, over.last().1);
    }
}

/// Merging an empty store into a store leaves it unchanged.
pub proof fn lemma_merge_right_empty(m: StoreModel)
    ensures
        spec_merge(m, Seq::empty()) == m,
{
}

/// Merging a store into an empty store yields that store unchanged.
pub proof fn lemma_merge_left_empty(m: StoreModel)
    requires
        wf(m),
    ensures
        spec_merge(Seq::empty(), m) == m,
    decreases m.len(),
{
    if m.len() > 0 {
        assert(wf(m.drop_last()));
        lemma_merge_left_empty(m.drop_last());
        assert(!contains_key(m.drop_last(), m.last().0)) by {
            if contains_key(m.drop_last(), m.last().0) {
                let w = choose|i: int|
                    0 <= i < m.drop_last().len() && (#[trigger] m.drop_last()[i].0) == m.last().0;
                assert(m[w].0 == m[m.len() - 1].0);
            }
        }
        assert(m.drop_last().push(m.last()) =~= m);
    }
}

/// Precedence: after a merge, every key the overriding store defines maps to
/// the overriding store's value, whatever the base holds.
pub proof fn lemma_merge_precedence(base: StoreModel, over: StoreModel, k: Seq<char>)
    requires
        wf(base),
        wf(over),
        contains_key(over, k),
    ensures
        lookup(spec_merge(base, over), k) == lookup(over, k),
    decreases over.len(),
{
    let prev = spec_merge(base, over.drop_last());
    lemma_merge_wf(base, over.drop_last());
    lemma_upsert_props(prev, over.last().0, over.last().1);
    lemma_key_index_bounds(over, k);
    let ki = key_index(over, k);
    if ki == over.len() - 1 {
        lemma_lookup_at(over, ki);
    } else {
        assert(over[ki].0 != over[over.len() - 1].0);
        assert(contains_key(over.drop_last(), k)) by {
            assert(over.drop_last()[ki].0 == k);
        }
        assert(wf(over.drop_last()));
        lemma_merge_precedence(base, over.drop_last(), k);
        lemma_key_index_bounds(over.drop_last(), k);
        lemma_key_index_of_first(over.drop_last(), k, ki);
        lemma_lookup_at(over, ki);
        lemma_lookup_at(over.drop_last(), ki);
    }
}

/// A key the overriding store does not define keeps the base store's value.
pub proof fn lemma_merge_base_kept(base: StoreModel, over: StoreModel, k: Seq<char>)
    requires
        wf(base),
        !contains_key(over, k),
    ensures
        lookup(spec_merge(base, over), k) == lookup(base, k),
    decreases over.len(),
{
    if over.len() > 0 {
        assert(!contains_key(over.drop_last(), k)) by {
            if contains_key(over.drop_last(), k) {
                let w = choose|i: int|
                    0 <= i < over.drop_last().len() && (#[trigger] over.drop_last()[i].0) == k;
                assert(over[w].0 == k);
            }
        }
        lemma_merge_base_kept(base, over.drop_last(), k);
        lemma_merge_wf(base, over.drop_last());
        lemma_upsert_props(spec_merge(base, over.drop_last()), over.last().0, over.last().1);
        assert(over.last().0 != k) by {
            assert(over[over.len() - 1].0 == over.last().0);
        }
    }
}

impl Value {
    /// A copy with the same mathematical value.
    pub fn duplicate(&self) -> (r: Value)
        ensures
            r@ == self@,
    {
        match self {
            Value::Str(s) => Value::Str(s.clone()),
            Value::Bool(b) => Value::Bool(*b),
            Value::Num(s) => Value::Num(s.clone()),
            Value::Null => Value::Null,
            Value::StrList(l) => {
                let mut c: Vec<String> = Vec::new();
                let mut i: usize = 0;
                while i < l.len()
                    invariant
                        0 <= i <= l.len(),
                        c.len() == i,
                        forall|j: int| 0 <= j < i ==> c@[j]@ == l@[j]@,
                    decreases l.len() - i,
                {
                    c.push(l[i].clone());
                    i = i + 1;
                }
                assert(c.deep_view() =~= l.deep_view());
                Value::StrList(c)
            },
            Value::Json(s) => Value::Json(s.clone()),
        }
    }
}

/// The flat parameter store: an ordered mapping from dotted key to value,
/// with unique keys.
#[derive(Debug)]
pub struct Params {
    entries: Vec<(String, Value)>,
}

impl View for Params {
    type V = StoreModel;

    closed spec fn view(&self) -> StoreModel {
        entries_view(self.entries@)
    }
}

impl Params {
    /// The empty store.
    pub fn from_empty() -> (r: Params)
        ensures
            r@ == Seq::<(Seq<char>, Val)>::empty(),
            wf(r@),
    {
        let r = Params { entries: Vec::new() };
        proof {
            assert(r@ =~= Seq::<(Seq<char>, Val)>::empty());
        }
        r
    }

    /// Lookup; absence is not an error.
    pub fn get(&self, key: &str) -> (r: Option<&Value>)
        ensures
            match r {
                Some(v) => lookup(self@, key@) == Some(v@),
                None => lookup(self@, key@) is None,
            },
    {
        let mut i: usize = 0;
        while i < self.entries.len()
            invariant
                0 <= i <= self.entries.len(),
                self@.len() == self.entries.len(),
                forall|j: int| 0 <= j < i ==> (#[trigger] self@[j].0) != key@,
            decreases self.entries.len() - i,
        {
            let e = &self.entries[i];
            if str_eq(e.0.as_str(), key) {
                proof {
                    lemma_key_index_of_first(self@, key@, i as int);
                }
                return Some(&e.1);
            }
            i = i + 1;
        }
        proof {
            if contains_key(self@, key@) {
                let w = choose|j: int| 0 <= j < self@.len() && (#[trigger] self@[j].0) == key@;
            }
        }
        None
    }

    /// Overwrite-if-present insertion.
    pub fn insert(&mut self, key: &str, value: Value)
        requires
            wf(old(self)@),
        ensures
            final(self)@ == upsert(old(self)@, key@, value@),
            wf(final(self)@),
    {
        let mut i: usize = 0;
        while i < self.entries.len()
            invariant
                self == old(self),
                wf(old(self)@),
                0 <= i <= self.entries.len(),
                forall|j: int| 0 <= j < i ==> (#[trigger] self@[j].0) != key@,
            decreases self.entries.len() - i,
        {
            let hit = {
                let e = &self.entries[i];
                str_eq(e.0.as_str(), key)
            };
            if hit {
                proof {
                    lemma_key_index_of_first(self@, key@, i as int);
                    lemma_upsert_props(old(self)@, key@, value@);
                }
                self.entries.set(i, (key.to_owned(), value));
                proof {
                    assert(self@ =~= upsert(old(self)@, key@, value@));
                }
                return ;
            }
            i = i + 1;
        }
        proof {
            if contains_key(self@, key@) {
                let w = choose|j: int| 0 <= j < self@.len() && (#[trigger] self@[j].0) == key@;
            }
        }
        proof {
            lemma_upsert_props(old(self)@, key@, value@);
        }
        self.entries.push((key.to_owned(), value));
        proof {
            assert(self@ =~= upsert(old(self)@, key@, value@));
        }
    }

    /// Insert-or-append: a repeated key accumulates into a sequence of
    /// strings; a fresh key is inserted as a scalar string.
    pub fn insert_or_append(&mut self, key: &str, value: String)
        requires
            wf(old(self)@),
        ensures
            final(self)@ == upsert_append(old(self)@, key@, value@),
            wf(final(self)@),
    {
        let mut i: usize = 0;
        while i < self.entries.len()
            invariant
                self == old(self),
                wf(old(self)@),
                0 <= i <= self.entries.len(),
                forall|j: int| 0 <= j < i ==> (#[trigger] self@[j].0) != key@,
            decreases self.entries.len() - i,
        {
            let hit = {
                let e = &self.entries[i];
                str_eq(e.0.as_str(), key)
            };
            if hit {
                proof {
                    lemma_key_index_of_first(self@, key@, i as int);
                    lemma_upsert_append_props(old(self)@, key@, value@);
                }
                let pair = self.entries.remove(i);
                let (k0, v0) = pair;
                let newv = match v0 {
                    Value::Str(s) => {
                        let mut l: Vec<String> = Vec::new();
                        l.push(s);
                        l.push(value);
                        proof {
                            assert(l.deep_view() =~= seq![old(self)@[i as int].1->Str_0, value@]);
                        }
                        Value::StrList(l)
                    },
                    Value::StrList(mut l) => {
                        l.push(value);
                        Value::StrList(l)
                    },
                    _ => Value::Str(value),
                };
                proof {
                    assert(newv@ == append_val(old(self)@[i as int].1, value@)) by {
                        if old(self)@[i as int].1 is StrList {
                            assert(newv@->StrList_0 =~= old(self)@[i as int].1->StrList_0.push(
                                value@,
                            ));
                        }
                    }
                }
                self.entries.insert(i, (k0, newv));
                proof {
                    assert(self@ =~= upsert_append(old(self)@, key@, value@));
                }
                return ;
            }
            i = i + 1;
        }
        proof {
            if contains_key(self@, key@) {
                let w = choose|j: int| 0 <= j < self@.len() && (#[trigger] self@[j].0) == key@;
            }
        }
        proof {
            lemma_upsert_append_props(old(self)@, key@, value@);
        }
        self.entries.push((key.to_owned(), Value::Str(value)));
        proof {
            assert(self@ =~= upsert_append(old(self)@, key@, value@));
        }
    }

    /// Merge `other` into this store; on a key collision the entry of
    /// `other` wins.
    pub fn merge(&mut self, other: Params)
        requires
            wf(old(self)@),
        ensures
            final(self)@ == spec_merge(old(self)@, other@),
            wf(final(self)@),
    {
        let n = other.entries.len();
        let mut i: usize = 0;
        while i < n
            invariant
                0 <= i <= n,
                n == other@.len(),
                wf(self@),
                self@ == spec_merge(old(self)@, other@.take(i as int)),
            decreases n - i,
        {
            let e = &other.entries[i];
            let v = e.1.duplicate();
            self.insert(e.0.as_str(), v);
            proof {
                assert(other@.take(i + 1).drop_last() =~= other@.take(i as int));
                assert(other@.take(i + 1).last() == other@[i as int]);
            }
            i = i + 1;
        }
        proof {
            assert(other@.take(n as int) =~= other@);
        }
    }

    /// The read-only view of the entries, for display and serialization.
    pub fn as_map(&self) -> (r: &Vec<(String, Value)>)
        ensures
            entries_view(r@) == self@,
    {
        &self.entries
    }
}

/// A token that opens a new key: it starts with `--`.
pub open spec fn is_flag(t: Seq<char>) -> bool {
    spec_has_prefix(t, "--"@)
}

/// The first index at or after `i` holding a `--`-prefixed token, or the end
/// of the token list.
pub open spec fn value_end(toks: Seq<Seq<char>>, i: int) -> int
    decreases toks.len() - i when 0 <= i <= toks.len()
{
    if i >= toks.len() {
        toks.len() as int
    } else if is_flag(toks[i]) {
        i
    } else {
        value_end(toks, i + 1)
    }
}

proof fn lemma_value_end_props(toks: Seq<Seq<char>>, i: int)
    requires
        0 <= i <= toks.len(),
    ensures
        i <= value_end(toks, i) <= toks.len(),
        forall|q: int| i <= q < value_end(toks, i) ==> !is_flag(#[trigger] toks[q]),
        value_end(toks, i) < toks.len() ==> is_flag(toks[value_end(toks, i)]),
    decreases toks.len() - i,
{
    if i < toks.len() && !is_flag(toks[i]) {
        lemma_value_end_props(toks, i + 1);
    }
}

proof fn lemma_value_end_eq(toks: Seq<Seq<char>>, i: int, j: int)
    requires
        0 <= i <= j <= toks.len(),
        forall|q: int| i <= q < j ==> !is_flag(#[trigger] toks[q]),
        j < toks.len() ==> is_flag(toks[j]),
    ensures
        value_end(toks, i) == j,
    decreases j - i,
{
    if i < j {
        lemma_value_end_eq(toks, i + 1, j);
    }
}

/// The tokens `toks[i..j]` joined into one string with single spaces.
pub open spec fn join_tokens(toks: Seq<Seq<char>>, i: int, j: int) -> Seq<char>
    decreases j - i when i <= j
{
    if j <= i {
        Seq::empty()
    } else if j == i + 1 {
        toks[i]
    } else {
        toks[i] + seq![' '] + join_tokens(toks, i + 1, j)
    }
}

proof fn lemma_join_tokens_snoc(toks: Seq<Seq<char>>, i: int, j: int)
    requires
        i < j,
    ensures
        join_tokens(toks, i, j + 1) == join_tokens(toks, i, j) + seq![' '] + toks[j],
    decreases j - i,
{
    if j == i + 1 {
    } else {
        lemma_join_tokens_snoc(toks, i + 1, j);
        assert(join_tokens(toks, i, j + 1) == toks[i] + seq![' '] + join_tokens(toks, i + 1, j + 1));
        assert(toks[i] + seq![' '] + (join_tokens(toks, i + 1, j) + seq![' '] + toks[j]) =~= (toks[i]
            + seq![' '] + join_tokens(toks, i + 1, j)) + seq![' '] + toks[j]);
    }
}

/// What parsing the token list from position `i` onward adds to the store
/// `acc`: each `--key` takes the run of following non-flag tokens, joined
/// with spaces, as its value; a key with no value token, or a stray token
/// where a key was expected, fails.
pub open spec fn parse_args_from(toks: Seq<Seq<char>>, i: int, acc: StoreModel) -> Option<
    StoreModel,
>
    decreases toks.len() - i when 0 <= i <= toks.len() via parse_args_from_decreases
{
    if i >= toks.len() {
        Some(acc)
    } else if !is_flag(toks[i]) {
        None
    } else {
        if value_end(toks, i + 1) == i + 1 {
            None
        } else {
            parse_args_from(
                toks,
                value_end(toks, i + 1),
                upsert_append(acc, toks[i].skip(2), join_tokens(toks, i + 1, value_end(toks, i + 1))),
            )
        }
    }
}

#[via_fn]
proof fn parse_args_from_decreases(toks: Seq<Seq<char>>, i: int, acc: StoreModel) {
    if 0 <= i < toks.len() && is_flag(toks[i]) {
        lemma_value_end_props(toks, i + 1);
    }
}

/// What the argument-pair parser yields on a whole token list; an empty list
/// fails.
pub open spec fn parse_args(toks: Seq<Seq<char>>) -> Option<StoreModel> {
    if toks.len() == 0 {
        None
    } else {
        parse_args_from(toks, 0, Seq::empty())
    }
}

/// A wide character class driving redaction: a key whose text contains a
/// sensitive-looking substring has its value masked for display.
pub open spec fn is_sensitive_key(k: Seq<char>) -> bool {
    spec_contains_seq(k, "token"@) || spec_contains_seq(k, "secret"@) || spec_contains_seq(
        k,
        "password"@,
    ) || spec_contains_seq(k, "credential"@)
}

/// The fixed string shown in place of a sensitive value.
pub open spec fn mask_text() -> Seq<char> {
    "[redacted]"@
}

/// The store as displayed: every entry kept, sensitive keys' values masked.
pub open spec fn redacted(m: StoreModel) -> StoreModel {
    m.map_values(
        |e: (Seq<char>, Val)|
            (
                e.0,
                if is_sensitive_key(e.0) {
                    Val::Str(mask_text())
                } else {
                    e.1
                },
            ),
    )
}

pub open spec fn all_digits_range(t: Seq<char>, lo: int, hi: int) -> bool {
    forall|q: int| lo <= q < hi ==> is_digit(#[trigger] t[q])
}

/// A decimal number: an optional leading minus sign, then digits, optionally
/// followed by a decimal point and more digits.
pub open spec fn spec_is_numeric(t: Seq<char>) -> bool {
    let b = if t.len() > 0 && t[0] == '-' {
        1int
    } else {
        0int
    };
    (t.len() > b && all_digits_range(t, b, t.len() as int)) || (exists|d: int|
        b + 1 <= d <= t.len() - 2 && #[trigger] t[d] == '.' && all_digits_range(t, b, d)
            && all_digits_range(t, d + 1, t.len() as int))
}

pub open spec fn duration_key() -> Seq<char> {
    "antithesis.duration"@
}

pub open spec fn config_image_key() -> Seq<char> {
    "antithesis.config_image"@
}

pub open spec fn images_key() -> Seq<char> {
    "antithesis.images"@
}

pub open spec fn dbg_session_id_key() -> Seq<char> {
    "antithesis.debugging.session_id"@
}

pub open spec fn dbg_input_hash_key() -> Seq<char> {
    "antithesis.debugging.input_hash"@
}

pub open spec fn dbg_vtime_key() -> Seq<char> {
    "antithesis.debugging.vtime"@
}

/// The scalar text of a value, if it has one: strings and numbers do.
pub open spec fn scalar_text(v: Val) -> Option<Seq<char>> {
    match v {
        Val::Str(t) => Some(t),
        Val::Num(t) => Some(t),
        _ => None,
    }
}

/// The key is present with a nonempty scalar text.
pub open spec fn present_nonempty(m: StoreModel, k: Seq<char>) -> bool {
    match lookup(m, k) {
        Some(v) => match scalar_text(v) {
            Some(t) => t.len() > 0,
            None => false,
        },
        None => false,
    }
}

/// The key is present with a non-vacuous value of any shape.
pub open spec fn key_provided(m: StoreModel, k: Seq<char>) -> bool {
    match lookup(m, k) {
        Some(v) => match v {
            Val::Str(t) => t.len() > 0,
            Val::Num(t) => t.len() > 0,
            Val::StrList(l) => l.len() > 0,
            Val::Bool(_) => true,
            Val::Null => false,
            Val::Json(t) => t.len() > 0,
        },
        None => false,
    }
}

/// The key is present with a numeric scalar text.
pub open spec fn key_numeric(m: StoreModel, k: Seq<char>) -> bool {
    match lookup(m, k) {
        Some(v) => match scalar_text(v) {
            Some(t) => spec_is_numeric(t),
            None => false,
        },
        None => false,
    }
}

/// The key is absent, or present as a scalar whose text is a nonempty digit
/// string that fits a 64-bit count of minutes.
pub open spec fn duration_ok(m: StoreModel) -> bool {
    match lookup(m, duration_key()) {
        Some(v) => match scalar_text(v) {
            Some(t) => spec_parse_u64(t) is Some,
            None => false,
        },
        None => true,
    }
}

/// The test-launch profile: a configuration identity and an image reference
/// must be provided, and the duration, if present, must be a non-negative
/// integer.
pub open spec fn test_launch_valid(m: StoreModel) -> bool {
    key_provided(m, config_image_key()) && key_provided(m, images_key()) && duration_ok(m)
}

/// The debug-session profile: the three coordinates of a debugging moment
/// must be present and nonempty, and the virtual time must be numeric.
pub open spec fn debug_session_valid(m: StoreModel) -> bool {
    present_nonempty(m, dbg_session_id_key()) && present_nonempty(m, dbg_input_hash_key())
        && present_nonempty(m, dbg_vtime_key()) && key_numeric(m, dbg_vtime_key())
}

pub open spec fn missing_msg(k: Seq<char>) -> Seq<char> {
    "missing required parameter: "@ + k
}

pub open spec fn numeric_msg(k: Seq<char>) -> Seq<char> {
    "parameter must be numeric: "@ + k
}

pub open spec fn nonneg_int_msg(k: Seq<char>) -> Seq<char> {
    "parameter must be a non-negative integer: "@ + k
}

/// The message of the first violation the test-launch profile reports.
pub open spec fn test_error_msg(m: StoreModel) -> Seq<char> {
    if !key_provided(m, config_image_key()) {
        missing_msg(config_image_key())
    } else if !key_provided(m, images_key()) {
        missing_msg(images_key())
    } else {
        nonneg_int_msg(duration_key())
    }
}

/// The message of the first violation the debug-session profile reports.
pub open spec fn debug_error_msg(m: StoreModel) -> Seq<char> {
    if !present_nonempty(m, dbg_session_id_key()) {
        missing_msg(dbg_session_id_key())
    } else if !present_nonempty(m, dbg_input_hash_key()) {
        missing_msg(dbg_input_hash_key())
    } else if !present_nonempty(m, dbg_vtime_key()) {
        missing_msg(dbg_vtime_key())
    } else {
        numeric_msg(dbg_vtime_key())
    }
}

fn is_digit_char(c: char) -> (r: bool)
    ensures
        r == is_digit(c),
{
    '0' <= c && c <= '9'
}

fn tok_is_flag(t: &String) -> (r: bool)
    ensures
        r == is_flag(t@),
{
    has_prefix(t.as_str(), "--")
}

/// A decimal-number test on a string slice.
pub fn is_numeric_str(s: &str) -> (r: bool)
    ensures
        r == spec_is_numeric(s@),
{
    let n = s.unicode_len();
    let b: usize = if n > 0 && s.get_char(0) == '-' {
        1
    } else {
        0
    };
    if n == b {
        return false;
    }
    let mut i: usize = b;
    while i < n && is_digit_char(s.get_char(i))
        invariant
            b <= i <= n,
            n == s@.len(),
            all_digits_range(s@, b as int, i as int),
        decreases n - i,
    {
        i = i + 1;
    }
    if i == n {
        return true;
    }
    assert(!is_digit(s@[i as int]));
    if s.get_char(i) != '.' || i == b || i + 1 == n {
        proof {
            assert forall|d: int|
                !(b + 1 <= d <= s@.len() - 2 && #[trigger] s@[d] == '.' && all_digits_range(
                    s@,
                    b as int,
                    d,
                ) && all_digits_range(s@, d + 1, s@.len() as int)) by {
                if b + 1 <= d <= s@.len() - 2 && s@[d] == '.' {
                    if d < i {
                        assert(is_digit(s@[d]));
                    } else if d == i {
                        assert(s@[i as int] != '.' || i == b || i + 1 == n);
                    } else {
                        assert(!all_digits_range(s@, b as int, d));
                    }
                }
            }
        }
        return false;
    }
    let dot: usize = i;
    let mut j: usize = dot + 1;
    while j < n && is_digit_char(s.get_char(j))
        invariant
            dot + 1 <= j <= n,
            n == s@.len(),
            all_digits_range(s@, dot + 1, j as int),
        decreases n - j,
    {
        j = j + 1;
    }
    if j == n {
        proof {
            assert(b + 1 <= dot <= s@.len() - 2 && s@[dot as int] == '.' && all_digits_range(
                s@,
                b as int,
                dot as int,
            ) && all_digits_range(s@, dot + 1, s@.len() as int));
        }
        return true;
    }
    proof {
        assert(!is_digit(s@[j as int]));
        assert forall|d: int|
            !(b + 1 <= d <= s@.len() - 2 && #[trigger] s@[d] == '.' && all_digits_range(
                s@,
                b as int,
                d,
            ) && all_digits_range(s@, d + 1, s@.len() as int)) by {
            if b + 1 <= d <= s@.len() - 2 && s@[d] == '.' {
                if d < dot {
                    assert(is_digit(s@[d]));
                } else if d == dot {
                    assert(!all_digits_range(s@, d + 1, s@.len() as int));
                } else {
                    assert(!all_digits_range(s@, b as int, d)) by {
                        assert(!is_digit(s@[dot as int]));
                    }
                }
            }
        }
        assert(!all_digits_range(s@, b as int, s@.len() as int));
    }
    false
}

impl Params {
    /// Parse `--key value` argument pairs into a store. A repeated key
    /// accumulates its values in order; the run of non-flag tokens after a
    /// key is joined with single spaces into one scalar value. An empty
    /// token list, a stray value without a key, and a key without a value
    /// are each rejected.
    pub fn from_args(args: &Vec<String>) -> (r: Result<Params, Error>)
        ensures
            match r {
                Ok(p) => parse_args(args.deep_view()) == Some(p@) && wf(p@),
                Err(e) => parse_args(args.deep_view()) is None && e is InvalidArgs,
            },
    {
        let ghost toks = args.deep_view();
        if args.len() == 0 {
            return Err(Error::InvalidArgs("no arguments provided".to_owned()));
        }
        let mut store = Params::from_empty();
        let mut i: usize = 0;
        while i < args.len()
            invariant
                0 <= i <= args.len(),
                toks == args.deep_view(),
                toks.len() == args.len(),
                args.len() > 0,
                wf(store@),
                parse_args_from(toks, 0, Seq::empty()) == parse_args_from(toks, i as int, store@),
            decreases args.len() - i,
        {
            proof {
                assert(toks[i as int] == args@[i as int]@);
            }
            let t = &args[i];
            if !has_prefix(t.as_str(), "--") {
                return Err(
                    Error::InvalidArgs("expected a --key token in the argument list".to_owned()),
                );
            }
            let tlen = t.as_str().unicode_len();
            proof {
                reveal_strlit("--");
            }
            let key = t.as_str().substring_char(2, tlen);
            proof {
                assert(key@ =~= toks[i as int].skip(2));
            }
            let mut val = String::new();
            let mut count: usize = 0;
            let mut j: usize = i + 1;
            while j < args.len() && !tok_is_flag(&args[j])
                invariant
                    i + 1 <= j <= args.len(),
                    toks == args.deep_view(),
                    toks.len() == args.len(),
                    j == i + 1 + count,
                    forall|q: int| i + 1 <= q < j ==> !is_flag(#[trigger] toks[q]),
                    count > 0 ==> val@ == join_tokens(toks, i + 1, j as int),
                    count == 0 ==> val@ == Seq::<char>::empty(),
                decreases args.len() - j,
            {
                proof {
                    assert(toks[j as int] == args@[j as int]@);
                }
                if count > 0 {
                    val.append(" ");
                    proof {
                        reveal_strlit(" ");
                        assert(" "@ =~= seq![' ']);
                    }
                }
                val.append(args[j].as_str());
                proof {
                    if count > 0 {
                        lemma_join_tokens_snoc(toks, i + 1, j as int);
                    }
                }
                count = count + 1;
                j = j + 1;
            }
            proof {
                lemma_value_end_eq(toks, i + 1, j as int);
            }
            if count == 0 {
                proof {
                    assert(parse_args_from(toks, i as int, store@) is None);
                }
                return Err(
                    Error::InvalidArgs("missing value for the last --key token".to_owned()),
                );
            }
            proof {
                lemma_upsert_append_props(store@, key@, val@);
                assert(parse_args_from(toks, i as int, store@) == parse_args_from(
                    toks,
                    j as int,
                    upsert_append(store@, toks[i as int].skip(2), join_tokens(toks, i + 1, j as int)),
                ));
            }
            store.insert_or_append(key, val);
            i = j;
        }
        proof {
            assert(parse_args_from(toks, i as int, store@) == Some(store@));
        }
        Ok(store)
    }

    fn key_provided_check(&self, key: &str) -> (r: bool)
        ensures
            r == key_provided(self@, key@),
    {
        match self.get(key) {
            None => false,
            Some(v) => match v {
                Value::Str(t) => t.as_str().unicode_len() > 0,
                Value::Num(t) => t.as_str().unicode_len() > 0,
                Value::StrList(l) => l.len() > 0,
                Value::Bool(_) => true,
                Value::Null => false,
                Value::Json(t) => t.as_str().unicode_len() > 0,
            },
        }
    }

    fn present_nonempty_check(&self, key: &str) -> (r: bool)
        ensures
            r == present_nonempty(self@, key@),
    {
        match self.get(key) {
            None => false,
            Some(v) => match v {
                Value::Str(t) => t.as_str().unicode_len() > 0,
                Value::Num(t) => t.as_str().unicode_len() > 0,
                _ => false,
            },
        }
    }

    fn missing_error(key: &str) -> (r: Error)
        ensures
            r matches Error::InvalidArgs(m) && m@ == missing_msg(key@),
    {
        let mut m = "missing required parameter: ".to_owned();
        m.append(key);
        Error::InvalidArgs(m)
    }

    /// Validate the store for a test-launch request. Succeeds exactly when
    /// the profile holds; otherwise reports the first violation, naming the
    /// offending key. The store itself is never changed.
    pub fn validate_test_params(&self) -> (r: Result<(), Error>)
        ensures
            r is Ok <==> test_launch_valid(self@),
            r matches Err(e) ==> e matches Error::InvalidArgs(m) && m@ == test_error_msg(self@),
    {
        if !self.key_provided_check("antithesis.config_image") {
            return Err(Self::missing_error("antithesis.config_image"));
        }
        if !self.key_provided_check("antithesis.images") {
            return Err(Self::missing_error("antithesis.images"));
        }
        let dur_ok = match self.get("antithesis.duration") {
            None => true,
            Some(v) => match v {
                Value::Str(t) => parse_u64(t.as_str()).is_some(),
                Value::Num(t) => parse_u64(t.as_str()).is_some(),
                _ => false,
            },
        };
        if !dur_ok {
            let mut m = "parameter must be a non-negative integer: ".to_owned();
            m.append("antithesis.duration");
            return Err(Error::InvalidArgs(m));
        }
        Ok(())
    }

    /// Validate the store for a debug-session request. Succeeds exactly when
    /// the profile holds; otherwise reports the first violation, naming the
    /// offending key. The store itself is never changed.
    pub fn validate_debugging_params(&self) -> (r: Result<(), Error>)
        ensures
            r is Ok <==> debug_session_valid(self@),
            r matches Err(e) ==> e matches Error::InvalidArgs(m) && m@ == debug_error_msg(self@),
    {
        if !self.present_nonempty_check("antithesis.debugging.session_id") {
            return Err(Self::missing_error("antithesis.debugging.session_id"));
        }
        if !self.present_nonempty_check("antithesis.debugging.input_hash") {
            return Err(Self::missing_error("antithesis.debugging.input_hash"));
        }
        if !self.present_nonempty_check("antithesis.debugging.vtime") {
            return Err(Self::missing_error("antithesis.debugging.vtime"));
        }
        let num_ok = match self.get("antithesis.debugging.vtime") {
            None => false,
            Some(v) => match v {
                Value::Str(t) => is_numeric_str(t.as_str()),
                Value::Num(t) => is_numeric_str(t.as_str()),
                _ => false,
            },
        };
        if !num_ok {
            let mut m = "parameter must be numeric: ".to_owned();
            m.append("antithesis.debugging.vtime");
            return Err(Error::InvalidArgs(m));
        }
        Ok(())
    }

    /// The duration parameter in minutes, when present as a parseable
    /// nonempty digit string.
    pub fn duration_minutes(&self) -> (r: Option<u64>)
        ensures
            r == spec_duration_minutes(self@),
    {
        match self.get("antithesis.duration") {
            None => None,
            Some(v) => match v {
                Value::Str(t) => parse_u64(t.as_str()),
                Value::Num(t) => parse_u64(t.as_str()),
                _ => None,
            },
        }
    }

    /// A display-safe copy: every entry kept in order, the value of any
    /// sensitive-looking key replaced by a fixed mask. The store itself is
    /// never changed.
    pub fn to_redacted_map(&self) -> (r: Params)
        ensures
            r@ == redacted(self@),
            wf(self@) ==> wf(r@),
    {
        let n = self.entries.len();
        let mut out: Vec<(String, Value)> = Vec::new();
        let mut i: usize = 0;
        while i < n
            invariant
                0 <= i <= n,
                n == self.entries.len(),
                self@.len() == n,
                out.len() == i,
                forall|q: int| 0 <= q < i ==> entries_view(out@)[q] == redacted(self@)[q],
            decreases n - i,
        {
            let e = &self.entries[i];
            let key = e.0.as_str();
            let sensitive = contains_str(key, "token") || contains_str(key, "secret")
                || contains_str(key, "password") || contains_str(key, "credential");
            let v = if sensitive {
                Value::Str("[redacted]".to_owned())
            } else {
                e.1.duplicate()
            };
            out.push((e.0.clone(), v));
            i = i + 1;
        }
        let r = Params { entries: out };
        proof {
            assert(r@ =~= redacted(self@));
            if wf(self@) {
                assert forall|a: int, b: int| 0 <= a < b < r@.len() implies r@[a].0 != r@[b].0 by {
                    assert(r@[a].0 == self@[a].0 && r@[b].0 == self@[b].0);
                }
            }
        }
        r
    }
}

/// The duration parameter of a store, as a count of minutes.
pub open spec fn spec_duration_minutes(m: StoreModel) -> Option<u64> {
    match lookup(m, duration_key()) {
        Some(v) => match scalar_text(v) {
            Some(t) => spec_parse_u64(t),
            None => None,
        },
        None => None,
    }
}

} // verus!
