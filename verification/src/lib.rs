//! A small JSON-like text format: a scanner that turns text into tokens and a
//! recursive-descent parser that turns tokens into a tree of [`Value`]s.
//!
//! Numeric literals are kept as their validated literal text rather than being
//! converted to a machine float; the grammar accepted for them is stated by
//! [`scanner::valid_number_text`].
use vstd::prelude::*;

pub mod parser;
pub mod properties;
pub mod scanner;

verus! {

broadcast use vstd::std_specs::vec::group_vec_axioms, vstd::seq::group_seq_axioms;

/// Mathematical model of a parsed value. An object is modelled as a map from
/// key to value, so object equality is independent of insertion order.
pub enum SpecValue {
    Str(Seq<char>),
    Num(Seq<char>),
    Bool(bool),
    Null,
    Arr(Seq<SpecValue>),
    Obj(Map<Seq<char>, SpecValue>),
}

/// A mapping from string keys to values, with unique keys; the last write to a
/// key wins. Entries are kept in first-insertion order, but the order is not
/// part of the model: the view is a `Map`.
#[derive(PartialEq, Debug)]
pub struct Object {
    entries: Vec<(String, Value)>,
}

/// One node of a parsed tree.
#[derive(PartialEq, Debug)]
pub enum Value {
    String(String),
    Array(Vec<Value>),
    Object(Object),
    Boolean(bool),
    Number(String),
    Null,
}

/// Whether some entry has `k` as its key.
pub open spec fn has_key(entries: Seq<(String, Value)>, k: Seq<char>) -> bool {
    exists|p: int| 0 <= p < entries.len() && entries[p].0@ == k
}

/// No two entries share a key.
pub open spec fn distinct_keys(entries: Seq<(String, Value)>) -> bool {
    forall|p: int, q: int|
        0 <= p < q < entries.len() ==> entries[p].0@ != entries[q].0@
}

impl Object {
    /// The entries as a sequence, in first-insertion order.
    pub closed spec fn entry_seq(self) -> Seq<(String, Value)> {
        self.entries@
    }

    /// The object's invariant: its entries' keys are unique.
    pub open spec fn wf(self) -> bool {
        distinct_keys(self.entry_seq())
    }
}

/// The views of a sequence of values, in order.
pub open spec fn values_view(elems: Seq<Value>) -> Seq<SpecValue>
    decreases elems,
{
    if elems.len() == 0 {
        Seq::empty()
    } else {
        seq![elems[0]@] + values_view(elems.skip(1))
    }
}

/// Folds the entries into a map, later entries overriding earlier ones.
pub open spec fn entries_map_from(
    acc: Map<Seq<char>, SpecValue>,
    entries: Seq<(String, Value)>,
) -> Map<Seq<char>, SpecValue>
    decreases entries,
{
    if entries.len() == 0 {
        acc
    } else {
        entries_map_from(acc.insert(entries[0].0@, entries[0].1@), entries.skip(1))
    }
}

impl View for Object {
    type V = Map<Seq<char>, SpecValue>;

    open spec fn view(&self) -> Map<Seq<char>, SpecValue>
        decreases self,
    {
        entries_map_from(Map::empty(), self.entry_seq())
    }
}

/// Appending an entry folds in as one more map insertion.
proof fn lemma_entries_map_push(
    acc: Map<Seq<char>, SpecValue>,
    entries: Seq<(String, Value)>,
    p: (String, Value),
)
    ensures
        entries_map_from(acc, entries.push(p)) == entries_map_from(acc, entries).insert(
            p.0@,
            p.1@,
        ),
    decreases entries.len(),
{
    if entries.len() == 0 {
        assert(entries.push(p)[0] == p);
        assert(entries.push(p).skip(1) =~= Seq::<(String, Value)>::empty());
        assert(entries_map_from(acc, entries.push(p)) == entries_map_from(
            acc.insert(p.0@, p.1@),
            entries.push(p).skip(1),
        ));
        assert(entries_map_from(acc, entries.push(p)) == acc.insert(p.0@, p.1@));
        assert(entries_map_from(acc, entries) == acc);
    } else {
        assert(entries.push(p)[0] == entries[0]);
        assert(entries.push(p).skip(1) =~= entries.skip(1).push(p));
        lemma_entries_map_push(acc.insert(entries[0].0@, entries[0].1@), entries.skip(1), p);
        assert(entries_map_from(acc, entries.push(p)) == entries_map_from(
            acc.insert(entries[0].0@, entries[0].1@),
            entries.skip(1).push(p),
        ));
        assert(entries_map_from(acc, entries) == entries_map_from(
            acc.insert(entries[0].0@, entries[0].1@),
            entries.skip(1),
        ));
    }
}

/// An insertion whose key no entry carries commutes with the fold.
proof fn lemma_entries_map_insert_absent(
    acc: Map<Seq<char>, SpecValue>,
    entries: Seq<(String, Value)>,
    k: Seq<char>,
    x: SpecValue,
)
    requires
        !has_key(entries, k),
    ensures
        entries_map_from(acc.insert(k, x), entries) == entries_map_from(acc, entries).insert(
            k,
            x,
        ),
    decreases entries.len(),
{
    if entries.len() == 0 {
    } else {
        assert(entries[0].0@ != k);
        assert(acc.insert(k, x).insert(entries[0].0@, entries[0].1@) =~= acc.insert(
            entries[0].0@,
            entries[0].1@,
        ).insert(k, x));
        assert(!has_key(entries.skip(1), k)) by {
            if has_key(entries.skip(1), k) {
                let p = choose|p: int| 0 <= p < entries.skip(1).len() && entries.skip(1)[p].0@
                    == k;
                assert(entries[p + 1].0@ == k);
            }
        }
        lemma_entries_map_insert_absent(
            acc.insert(entries[0].0@, entries[0].1@),
            entries.skip(1),
            k,
            x,
        );
    }
}

/// Overwriting the one entry that carries a key folds in as one more map
/// insertion with that key.
proof fn lemma_entries_map_update(
    acc: Map<Seq<char>, SpecValue>,
    entries: Seq<(String, Value)>,
    j: int,
    p: (String, Value),
)
    requires
        0 <= j < entries.len(),
        entries[j].0@ == p.0@,
        distinct_keys(entries),
    ensures
        entries_map_from(acc, entries.update(j, p)) == entries_map_from(acc, entries).insert(
            p.0@,
            p.1@,
        ),
    decreases entries.len(),
{
    let k = p.0@;
    if j == 0 {
        assert(entries.update(0, p).skip(1) =~= entries.skip(1));
        assert(entries.update(0, p)[0] == p);
        assert(!has_key(entries.skip(1), k)) by {
            if has_key(entries.skip(1), k) {
                let q = choose|q: int| 0 <= q < entries.skip(1).len() && entries.skip(1)[q].0@
                    == k;
                assert(entries[q + 1].0@ == k);
            }
        }
        lemma_entries_map_insert_absent(acc, entries.skip(1), k, p.1@);
        lemma_entries_map_insert_absent(acc, entries.skip(1), k, entries[0].1@);
        assert(entries_map_from(acc, entries.skip(1)).insert(k, entries[0].1@).insert(k, p.1@)
            =~= entries_map_from(acc, entries.skip(1)).insert(k, p.1@));
    } else {
        assert(entries.update(j, p).skip(1) =~= entries.skip(1).update(j - 1, p));
        assert(entries.update(j, p)[0] == entries[0]);
        assert(entries.skip(1)[j - 1] == entries[j]);
        assert(distinct_keys(entries.skip(1))) by {
            assert forall|a: int, b: int|
                0 <= a < b < entries.skip(1).len() implies entries.skip(1)[a].0@ != entries.skip(
                1,
            )[b].0@ by {
                assert(entries[a + 1].0@ != entries[b + 1].0@);
            }
        }
        lemma_entries_map_update(
            acc.insert(entries[0].0@, entries[0].1@),
            entries.skip(1),
            j - 1,
            p,
        );
    }
}

impl Object {
    /// The empty mapping.
    pub fn new() -> (r: Object)
        ensures
            r@ == Map::<Seq<char>, SpecValue>::empty(),
            r.wf(),
            r.entry_seq() == Seq::<(String, Value)>::empty(),
    {
        Object { entries: Vec::new() }
    }

    /// Binds `key` to `value`. A key already present keeps its place in the
    /// entry order but takes the new value: the last write wins.
    #[verifier::loop_isolation(false)]
    pub fn insert(&mut self, key: String, value: Value)
        requires
            old(self).wf(),
        ensures
            final(self)@ == old(self)@.insert(key@, value@),
            final(self).wf(),
    {
        let n = self.entries.len();
        let mut idx: usize = 0;
        while idx < n
            invariant
                0 <= idx <= n,
                self == old(self),
                forall|m: int| 0 <= m < idx ==> self.entries@[m].0@ != key@,
            decreases n - idx,
        {
            if self.entries[idx].0 == key {
                proof {
                    lemma_entries_map_update(
                        Map::empty(),
                        self.entries@,
                        idx as int,
                        (key, value),
                    );
                }
                let ghost prior = self.entries@;
                self.entries.set(idx, (key, value));
                proof {
                    assert forall|m: int|
                        0 <= m < self.entries@.len() implies self.entries@[m].0@
                        == prior[m].0@ by {}
                    assert forall|p: int, q: int|
                        0 <= p < q < self.entries@.len() implies self.entries@[p].0@
                        != self.entries@[q].0@ by {
                        assert(self.entries@[p].0@ == prior[p].0@);
                        assert(self.entries@[q].0@ == prior[q].0@);
                    }
                }
                return ;
            }
            idx = idx + 1;
        }
        proof {
            lemma_entries_map_push(Map::empty(), self.entries@, (key, value));
        }
        self.entries.push((key, value));
    }
}

/// A key no entry carries is bound by the fold exactly as `acc` binds it.
proof fn lemma_entries_map_absent(
    acc: Map<Seq<char>, SpecValue>,
    entries: Seq<(String, Value)>,
    k: Seq<char>,
)
    requires
        !has_key(entries, k),
    ensures
        entries_map_from(acc, entries).contains_key(k) == acc.contains_key(k),
        acc.contains_key(k) ==> entries_map_from(acc, entries)[k] == acc[k],
    decreases entries.len(),
{
    if entries.len() > 0 {
        assert(entries[0].0@ != k);
        assert(!has_key(entries.skip(1), k)) by {
            if has_key(entries.skip(1), k) {
                let p = choose|p: int| 0 <= p < entries.skip(1).len() && entries.skip(1)[p].0@
                    == k;
                assert(entries[p + 1].0@ == k);
            }
        }
        lemma_entries_map_absent(acc.insert(entries[0].0@, entries[0].1@), entries.skip(1), k);
    }
}

/// With unique keys, the fold binds a key carried by entry `j` to exactly
/// that entry's value.
proof fn lemma_entries_map_found(
    acc: Map<Seq<char>, SpecValue>,
    entries: Seq<(String, Value)>,
    k: Seq<char>,
    j: int,
)
    requires
        distinct_keys(entries),
        0 <= j < entries.len(),
        entries[j].0@ == k,
    ensures
        entries_map_from(acc, entries).contains_key(k),
        entries_map_from(acc, entries)[k] == entries[j].1@,
    decreases entries.len(),
{
    if j == 0 {
        assert(!has_key(entries.skip(1), k)) by {
            if has_key(entries.skip(1), k) {
                let p = choose|p: int| 0 <= p < entries.skip(1).len() && entries.skip(1)[p].0@
                    == k;
                assert(entries[p + 1].0@ == k);
            }
        }
        lemma_entries_map_absent(acc.insert(k, entries[0].1@), entries.skip(1), k);
    } else {
        assert(entries.skip(1)[j - 1] == entries[j]);
        assert(distinct_keys(entries.skip(1))) by {
            assert forall|a: int, b: int|
                0 <= a < b < entries.skip(1).len() implies entries.skip(1)[a].0@ != entries.skip(
                1,
            )[b].0@ by {
                assert(entries[a + 1].0@ != entries[b + 1].0@);
            }
        }
        lemma_entries_map_found(
            acc.insert(entries[0].0@, entries[0].1@),
            entries.skip(1),
            k,
            j - 1,
        );
    }
}

impl Object {
    /// The value bound to `key`, if any.
    #[verifier::loop_isolation(false)]
    pub fn get(&self, key: &String) -> (r: Option<&Value>)
        requires
            self.wf(),
        ensures
            match r {
                Some(v) => self@.contains_key(key@) && v@ == self@[key@],
                None => !self@.contains_key(key@),
            },
    {
        let n = self.entries.len();
        let mut idx: usize = 0;
        while idx < n
            invariant
                0 <= idx <= n,
                forall|m: int| 0 <= m < idx ==> self.entries@[m].0@ != key@,
            decreases n - idx,
        {
            if self.entries[idx].0 == *key {
                proof {
                    lemma_entries_map_found(Map::empty(), self.entries@, key@, idx as int);
                }
                return Some(&self.entries[idx].1);
            }
            idx = idx + 1;
        }
        proof {
            assert(!has_key(self.entries@, key@));
            lemma_entries_map_absent(Map::empty(), self.entries@, key@);
        }
        None
    }

    /// The number of entries.
    pub fn len(&self) -> (r: usize)
        ensures
            r == self.entry_seq().len(),
    {
        self.entries.len()
    }

    /// The entries, in first-insertion order.
    pub fn entries(&self) -> (r: &Vec<(String, Value)>)
        ensures
            r@ == self.entry_seq(),
    {
        &self.entries
    }
}

impl View for Value {
    type V = SpecValue;

    open spec fn view(&self) -> SpecValue
        decreases self,
    {
        match self {
            Value::String(s) => SpecValue::Str(s@),
            Value::Number(t) => SpecValue::Num(t@),
            Value::Boolean(b) => SpecValue::Bool(*b),
            Value::Null => SpecValue::Null,
            Value::Array(elems) => SpecValue::Arr(values_view(elems@)),
            Value::Object(obj) => SpecValue::Obj(obj@),
        }
    }
}

/// The value a whole text stands for: tokenize, then parse. `None` when the
/// text is malformed at either stage.
pub open spec fn spec_from_text(s: Seq<char>) -> Option<SpecValue> {
    match scanner::spec_tokenize(s) {
        None => None,
        Some(ts) => parser::spec_parse(ts),
    }
}

impl Value {
    /// Parses a text into a value tree; `None` on any lexical or structural
    /// error.
    pub fn from_str(input: &str) -> (r: Option<Value>)
        ensures
            match r {
                Some(v) => spec_from_text(input@) == Some(v@),
                None => spec_from_text(input@) is None,
            },
    {
        let tokens = match scanner::tokenize(input) {
            Some(ts) => ts,
            None => {
                return None;
            },
        };
        parser::parse(&tokens)
    }
}

} // verus!
