use vstd::prelude::*;

verus! {

// =============================================================================
// Value
// =============================================================================

// Conversions

/// Values that can become a `String`: `&str` and `String` itself.
pub trait IntoString {
    spec fn string_view(&self) -> Seq<char>;

    fn into_string(self) -> (res: String)
        ensures
            res@ == self.string_view(),
    ;
}

impl<'a> IntoString for &'a str {
    open spec fn string_view(&self) -> Seq<char> {
        (**self)@
    }

    fn into_string(self) -> (res: String) {
        String::from_str(self)
    }
}

impl IntoString for String {
    open spec fn string_view(&self) -> Seq<char> {
        (*self)@
    }

    fn into_string(self) -> (res: String) {
        self
    }
}

/// Collections of values that can become strings: vectors and arrays.
pub trait IntoStringList {
    spec fn strings_view(&self) -> Seq<Seq<char>>;

    fn into_strings(self) -> (res: Vec<String>)
        ensures
            res@.map_values(|s: String| string_view(s)) == self.strings_view(),
    ;
}

/// Collections of pairs of values that can become strings: vectors and
/// arrays.
pub trait IntoPairList {
    spec fn pairs_view(&self) -> Seq<(Seq<char>, Seq<char>)>;

    fn into_pairs(self) -> (res: Vec<(String, String)>)
        ensures
            res@.map_values(|p: (String, String)| pair_view(p)) == self.pairs_view(),
    ;
}

impl<U: IntoString> IntoStringList for Vec<U> {
    open spec fn strings_view(&self) -> Seq<Seq<char>> {
        self@.map_values(|u: U| u.string_view())
    }

    fn into_strings(self) -> (res: Vec<String>) {
        let ghost source = self@;
        let mut items: Vec<String> = Vec::new();
        for u in it: self
            invariant
                it.seq() == source,
                items@.len() == it.index(),
                forall|i: int|
                    0 <= i < it.index() ==> #[trigger] string_view(items@[i])
                        == source[i].string_view(),
        {
            items.push(u.into_string());
        }
        assert(items@.map_values(|s: String| string_view(s)) =~= source.map_values(
            |u: U| u.string_view(),
        ));
        items
    }
}

impl<U: IntoString + Copy, const N: usize> IntoStringList for [U; N] {
    open spec fn strings_view(&self) -> Seq<Seq<char>> {
        self@.map_values(|u: U| u.string_view())
    }

    fn into_strings(self) -> (res: Vec<String>) {
        let source = self.as_slice();
        let mut items: Vec<String> = Vec::new();
        let mut i: usize = 0;
        while i < source.len()
            invariant
                source@ == self@,
                i <= source@.len(),
                items@.len() == i,
                forall|j: int|
                    0 <= j < i ==> #[trigger] string_view(items@[j]) == source@[j].string_view(),
            decreases source@.len() - i,
        {
            let u = source[i];
            items.push(u.into_string());
            i = i + 1;
        }
        assert(items@.map_values(|s: String| string_view(s)) =~= self@.map_values(
            |u: U| u.string_view(),
        ));
        items
    }
}

impl<U: IntoString, V: IntoString> IntoPairList for Vec<(U, V)> {
    open spec fn pairs_view(&self) -> Seq<(Seq<char>, Seq<char>)> {
        self@.map_values(|p: (U, V)| (p.0.string_view(), p.1.string_view()))
    }

    fn into_pairs(self) -> (res: Vec<(String, String)>) {
        let ghost source = self@;
        let mut pairs: Vec<(String, String)> = Vec::new();
        for pair in it: self
            invariant
                it.seq() == source,
                pairs@.len() == it.index(),
                forall|i: int|
                    0 <= i < it.index() ==> #[trigger] pair_view(pairs@[i]) == (
                        source[i].0.string_view(),
                        source[i].1.string_view(),
                    ),
        {
            let (u, v) = pair;
            pairs.push((u.into_string(), v.into_string()));
        }
        assert(pairs@.map_values(|p: (String, String)| pair_view(p)) =~= source.map_values(
            |p: (U, V)| (p.0.string_view(), p.1.string_view()),
        ));
        pairs
    }
}

impl<U: IntoString + Copy, V: IntoString + Copy, const N: usize> IntoPairList for [(U, V); N] {
    open spec fn pairs_view(&self) -> Seq<(Seq<char>, Seq<char>)> {
        self@.map_values(|p: (U, V)| (p.0.string_view(), p.1.string_view()))
    }

    fn into_pairs(self) -> (res: Vec<(String, String)>) {
        let source = self.as_slice();
        let mut pairs: Vec<(String, String)> = Vec::new();
        let mut i: usize = 0;
        while i < source.len()
            invariant
                source@ == self@,
                i <= source@.len(),
                pairs@.len() == i,
                forall|j: int|
                    0 <= j < i ==> #[trigger] pair_view(pairs@[j]) == (
                        source@[j].0.string_view(),
                        source@[j].1.string_view(),
                    ),
            decreases source@.len() - i,
        {
            let (u, v) = source[i];
            pairs.push((u.into_string(), v.into_string()));
            i = i + 1;
        }
        assert(pairs@.map_values(|p: (String, String)| pair_view(p)) =~= self@.map_values(
            |p: (U, V)| (p.0.string_view(), p.1.string_view()),
        ));
        pairs
    }
}

// -----------------------------------------------------------------------------

// Types

/// The value of a template variable: a string (item), a list of strings, or
/// an associative array of (name, value) string pairs.
#[derive(Debug, Eq, PartialEq)]
pub enum Value {
    AssociativeArray(Vec<(String, String)>),
    Item(String),
    List(Vec<String>),
}

/// The mathematical content of a [`Value`].
pub enum ValueModel {
    AssociativeArray(Seq<(Seq<char>, Seq<char>)>),
    Item(Seq<char>),
    List(Seq<Seq<char>>),
}

pub open spec fn pair_view(pair: (String, String)) -> (Seq<char>, Seq<char>) {
    (pair.0@, pair.1@)
}

pub open spec fn string_view(s: String) -> Seq<char> {
    s@
}

impl View for Value {
    type V = ValueModel;

    open spec fn view(&self) -> ValueModel {
        match self {
            Value::AssociativeArray(pairs) => ValueModel::AssociativeArray(
                pairs@.map_values(|p: (String, String)| pair_view(p)),
            ),
            Value::Item(item) => ValueModel::Item(item@),
            Value::List(items) => ValueModel::List(items@.map_values(|s: String| string_view(s))),
        }
    }
}

impl ValueModel {
    /// Lists and associative arrays with no members are undefined (RFC 6570,
    /// section 2.3); every item, including the empty string, is defined.
    pub open spec fn defined(self) -> bool {
        match self {
            ValueModel::AssociativeArray(pairs) => pairs.len() > 0,
            ValueModel::List(items) => items.len() > 0,
            ValueModel::Item(_) => true,
        }
    }
}

impl Value {
    /// An associative array of the given (name, value) pairs, in order.
    ///
    /// The pairs come from a vector or an array, whose order is the order of
    /// the array. A map whose walk order is unspecified (such as a
    /// `HashMap`) is not accepted: the order of the pairs is part of the
    /// value and of its expansion.
    pub fn associative_array<P: IntoPairList>(value: P) -> (res: Self)
        ensures
            res@ == ValueModel::AssociativeArray(value.pairs_view()),
    {
        let pairs = value.into_pairs();
        let res = Value::AssociativeArray(pairs);
        assert(res@->AssociativeArray_0 =~= value.pairs_view());
        res
    }

    /// An item (a single string).
    pub fn item<T: IntoString>(value: T) -> (res: Self)
        ensures
            res@ == ValueModel::Item(value.string_view()),
    {
        Value::Item(value.into_string())
    }

    /// A list of the given strings, in order.
    pub fn list<L: IntoStringList>(value: L) -> (res: Self)
        ensures
            res@ == ValueModel::List(value.strings_view()),
    {
        let items = value.into_strings();
        let res = Value::List(items);
        assert(res@->List_0 =~= value.strings_view());
        res
    }

    /// Whether the value is defined (see [`ValueModel::defined`]).
    pub fn defined(&self) -> (res: bool)
        ensures
            res == self@.defined(),
    {
        match self {
            Value::AssociativeArray(pairs) => pairs.len() > 0,
            Value::List(items) => items.len() > 0,
            Value::Item(_) => true,
        }
    }
}


impl Clone for Value {
    fn clone(&self) -> (res: Self)
        ensures
            res@ == self@,
    {
        match self {
            Value::AssociativeArray(pairs) => {
                let mut copy: Vec<(String, String)> = Vec::new();
                let mut i: usize = 0;
                while i < pairs.len()
                    invariant
                        i <= pairs@.len(),
                        copy@.len() == i,
                        forall|j: int|
                            0 <= j < i ==> #[trigger] pair_view(copy@[j]) == pair_view(pairs@[j]),
                    decreases pairs@.len() - i,
                {
                    copy.push((pairs[i].0.clone(), pairs[i].1.clone()));
                    i = i + 1;
                }
                let res = Value::AssociativeArray(copy);
                assert(res@->AssociativeArray_0 =~= self@->AssociativeArray_0);
                res
            },
            Value::Item(item) => Value::Item(item.clone()),
            Value::List(items) => {
                let mut copy: Vec<String> = Vec::new();
                let mut i: usize = 0;
                while i < items.len()
                    invariant
                        i <= items@.len(),
                        copy@.len() == i,
                        forall|j: int|
                            0 <= j < i ==> #[trigger] string_view(copy@[j]) == string_view(items@[j]),
                    decreases items@.len() - i,
                {
                    copy.push(items[i].clone());
                    i = i + 1;
                }
                let res = Value::List(copy);
                assert(res@->List_0 =~= self@->List_0);
                res
            },
        }
    }
}

// =============================================================================
// Values
// =============================================================================

/// The values of the variables of a template expansion, by variable name.
///
/// The entries are held in a vector in which no name occurs twice, and
/// names are compared directly, so that `add` and `get` have exact
/// contracts over the map of values by name.
#[derive(Debug)]
pub struct Values {
    values: Vec<(String, Value)>,
}

impl Values {
    /// No name occurs twice.
    #[verifier::type_invariant]
    spec fn names_distinct(self) -> bool {
        forall|i: int, j: int|
            0 <= i < j < self.values@.len() ==> #[trigger] self.values@[i].0@
                != #[trigger] self.values@[j].0@
    }

    closed spec fn has_entry(self, name: Seq<char>) -> bool {
        exists|i: int| 0 <= i < self.values@.len() && #[trigger] self.values@[i].0@ == name
    }

    closed spec fn entry_index(self, name: Seq<char>) -> int {
        choose|i: int| 0 <= i < self.values@.len() && #[trigger] self.values@[i].0@ == name
    }
}

impl View for Values {
    type V = Map<Seq<char>, ValueModel>;

    closed spec fn view(&self) -> Map<Seq<char>, ValueModel> {
        Map::new(
            |name: Seq<char>| self.has_entry(name),
            |name: Seq<char>| self.values@[self.entry_index(name)].1@,
        )
    }
}

impl Values {
    proof fn lemma_entry(self, i: int)
        requires
            self.names_distinct(),
            0 <= i < self.values@.len(),
        ensures
            self@.contains_key(self.values@[i].0@),
            self@[self.values@[i].0@] == self.values@[i].1@,
    {
        let name = self.values@[i].0@;
        assert(self.has_entry(name));
        let j = self.entry_index(name);
        assert(self.values@[j].0@ == name);
        if i < j {
            assert(self.values@[i].0@ != self.values@[j].0@);
        } else if j < i {
            assert(self.values@[j].0@ != self.values@[i].0@);
        }
    }

    /// No values.
    pub fn new() -> (res: Self)
        ensures
            res@ == Map::<Seq<char>, ValueModel>::empty(),
    {
        let res = Values { values: Vec::new() };
        assert(res@ =~= Map::<Seq<char>, ValueModel>::empty());
        res
    }

    /// The values with `key` bound to `value`, replacing any earlier value of
    /// `key`.
    pub fn add<K: IntoString>(self, key: K, value: Value) -> (res: Self)
        ensures
            res@ == self@.insert(key.string_view(), value@),
    {
        proof {
            use_type_invariant(&self);
        }
        let key_string = key.into_string();
        let ghost old_self = self;
        let mut values = self.values;
        let mut i: usize = 0;
        while i < values.len()
            invariant
                values@ == old_self.values@,
                old_self == self,
                old_self.names_distinct(),
                key_string@ == key.string_view(),
                i <= values@.len(),
                forall|j: int| 0 <= j < i ==> #[trigger] values@[j].0@ != key_string@,
            decreases values@.len() - i,
        {
            if values[i].0 == key_string {
                let ghost before = values@;
                values.set(i, (key_string, value));
                let res = Values { values };
                proof {
                    assert forall|a: int, b: int|
                        0 <= a < b < res.values@.len() implies #[trigger] res.values@[a].0@
                        != #[trigger] res.values@[b].0@ by {
                        assert(old_self.values@[a].0@ != old_self.values@[b].0@);
                    }
                    assert forall|name: Seq<char>| #[trigger]
                        res@.contains_key(name) == old_self@.insert(key_string@, value@).contains_key(
                            name,
                        ) by {
                        if old_self.has_entry(name) {
                            let j = old_self.entry_index(name);
                            if j == i {
                                assert(res.values@[j].0@ == name);
                            } else {
                                assert(res.values@[j].0@ == name);
                            }
                        }
                        if res.has_entry(name) {
                            let j = res.entry_index(name);
                            if j != i {
                                assert(old_self.values@[j].0@ == name);
                            }
                        }
                        if name == key_string@ {
                            assert(res.values@[i as int].0@ == name);
                        }
                    }
                    assert forall|name: Seq<char>| #[trigger]
                        res@.contains_key(name) implies res@[name] == old_self@.insert(
                        key_string@,
                        value@,
                    )[name] by {
                        let j = res.entry_index(name);
                        res.lemma_entry(j);
                        if j != i {
                            old_self.lemma_entry(j);
                        }
                    }
                    assert(res@ =~= old_self@.insert(key_string@, value@));
                }
                return res;
            }
            i = i + 1;
        }
        let ghost before = values@;
        values.push((key_string, value));
        let res = Values { values };
        proof {
            assert forall|a: int, b: int|
                0 <= a < b < res.values@.len() implies #[trigger] res.values@[a].0@
                != #[trigger] res.values@[b].0@ by {
                if b < before.len() {
                    assert(old_self.values@[a].0@ != old_self.values@[b].0@);
                }
            }
            let n = before.len() as int;
            assert forall|name: Seq<char>| #[trigger]
                res@.contains_key(name) == old_self@.insert(key_string@, value@).contains_key(name) by {
                if old_self.has_entry(name) {
                    let j = old_self.entry_index(name);
                    assert(res.values@[j].0@ == name);
                }
                if res.has_entry(name) {
                    let j = res.entry_index(name);
                    if j != n {
                        assert(old_self.values@[j].0@ == name);
                    }
                }
                if name == key_string@ {
                    assert(res.values@[n].0@ == name);
                }
            }
            assert forall|name: Seq<char>| #[trigger]
                res@.contains_key(name) implies res@[name] == old_self@.insert(key_string@, value@)[name] by {
                let j = res.entry_index(name);
                res.lemma_entry(j);
                if j != n {
                    old_self.lemma_entry(j);
                }
            }
            assert(res@ =~= old_self@.insert(key_string@, value@));
        }
        res
    }

    /// The value of `key`, if it has one.
    pub fn get(&self, key: &str) -> (res: Option<&Value>)
        ensures
            match res {
                Some(value) => self@.contains_key(key@) && value@ == self@[key@],
                None => !self@.contains_key(key@),
            },
    {
        proof {
            use_type_invariant(self);
        }
        let name = String::from_str(key);
        let mut i: usize = 0;
        while i < self.values.len()
            invariant
                self.names_distinct(),
                name@ == key@,
                i <= self.values@.len(),
                forall|j: int| 0 <= j < i ==> #[trigger] self.values@[j].0@ != name@,
            decreases self.values@.len() - i,
        {
            if self.values[i].0 == name {
                proof {
                    self.lemma_entry(i as int);
                }
                let found = &self.values[i].1;
                assert(found@ == self.values@[i as int].1@);
                return Some(found);
            }
            i = i + 1;
        }
        proof {
            if self.has_entry(key@) {
                let j = self.entry_index(key@);
                assert(self.values@[j].0@ == key@);
            }
        }
        None
    }
}

impl Clone for Values {
    fn clone(&self) -> (res: Self)
        ensures
            res@ == self@,
    {
        proof {
            use_type_invariant(self);
        }
        let mut values: Vec<(String, Value)> = Vec::new();
        let mut i: usize = 0;
        while i < self.values.len()
            invariant
                self.names_distinct(),
                i <= self.values@.len(),
                values@.len() == i,
                forall|j: int| 0 <= j < i ==> #[trigger] values@[j].0@ == self.values@[j].0@,
                forall|j: int| 0 <= j < i ==> #[trigger] values@[j].1@ == self.values@[j].1@,
            decreases self.values@.len() - i,
        {
            values.push((self.values[i].0.clone(), self.values[i].1.clone()));
            i = i + 1;
        }
        let res = Values { values };
        proof {
            assert forall|name: Seq<char>| #[trigger] res@.dom().contains(name) == self@.dom().contains(name) by {
                if res.has_entry(name) {
                    let j = res.entry_index(name);
                    assert(self.values@[j].0@ == name);
                }
                if self.has_entry(name) {
                    let j = self.entry_index(name);
                    assert(res.values@[j].0@ == name);
                }
            }
            assert(res@.dom() =~= self@.dom());
            assert forall|name: Seq<char>| #[trigger] res@.contains_key(name) implies res@[name]
                == self@[name] by {
                let j = res.entry_index(name);
                res.lemma_entry(j);
                self.lemma_entry(j);
            }
            assert(res@ =~= self@);
        }
        res
    }
}

impl Default for Values {
    fn default() -> (res: Self)
        ensures
            res@ == Map::<Seq<char>, ValueModel>::empty(),
    {
        Values::new()
    }
}

// -----------------------------------------------------------------------------

// Properties

/// A read gives back what a write wrote: after `add(key, value)`, `get(key)`
/// finds `value`, and every other name keeps the value it had, or none.
pub proof fn law_get_after_add(
    values: Map<Seq<char>, ValueModel>,
    key: Seq<char>,
    value: ValueModel,
    other: Seq<char>,
)
    requires
        other != key,
    ensures
        values.insert(key, value).contains_key(key),
        values.insert(key, value)[key] == value,
        values.insert(key, value).contains_key(other) == values.contains_key(other),
        values.contains_key(other) ==> values.insert(key, value)[other] == values[other],
{
}

} // verus!
