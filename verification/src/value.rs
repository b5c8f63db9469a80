//! The structured value tree: scalars, ordered arrays and string-keyed tables.
//!
//! `ConfigValue` is the executable tree; `ValueView` is its mathematical model,
//! in which a table is a map from key to value and the order of its entries
//! does not matter.
use vstd::prelude::*;
use crate::codec::toml_tree;
use crate::config::ConfigError;

verus! {

/// A node of a configuration document.
///
/// A table keeps its entries in a vector; a well-formed table holds no key
/// twice. A float is carried as the TOML value it came from, and a datetime as
/// the TOML datetime: neither is looked into here.
#[derive(Debug, PartialEq)]
pub enum ConfigValue {
    String(String),
    Integer(i64),
    Float(toml::Value),
    Boolean(bool),
    Datetime(toml::value::Datetime),
    Array(Vec<ConfigValue>),
    Table(Vec<(String, ConfigValue)>),
}

/// The mathematical model of a [`ConfigValue`].
///
/// `Float` holds the bit pattern of the number. The model of a
/// `ConfigValue::Float` is the tree of the TOML value that it carries, which
/// is a `Float` where the value is well-formed.
pub ghost enum ValueView {
    String(Seq<char>),
    Integer(i64),
    Float(u64),
    Boolean(bool),
    Datetime(toml::value::Datetime),
    Array(Seq<ValueView>),
    Table(Map<Seq<char>, ValueView>),
}

/// The map that a sequence of entries stands for: later entries win.
pub open spec fn table_of<V>(entries: Seq<(Seq<char>, V)>) -> Map<Seq<char>, V>
    decreases entries.len(),
{
    if entries.len() == 0 {
        Map::empty()
    } else {
        table_of(entries.drop_last()).insert(entries.last().0, entries.last().1)
    }
}

/// No key occurs at two positions.
pub open spec fn keys_distinct<V>(entries: Seq<(Seq<char>, V)>) -> bool {
    forall|i: int, j: int|
        0 <= i < j < entries.len() ==> (#[trigger] entries[i]).0 != (#[trigger] entries[j]).0
}

/// Some entry has the key `key`.
pub open spec fn has_key<V>(entries: Seq<(Seq<char>, V)>, key: Seq<char>) -> bool {
    exists|i: int| 0 <= i < entries.len() && (#[trigger] entries[i]).0 == key
}

/// The empty table.
pub open spec fn empty_table() -> ValueView {
    ValueView::Table(Map::empty())
}

impl ConfigValue {
    /// The model of this value: see [`ValueView`].
    pub open spec fn model(&self) -> ValueView
        decreases self,
    {
        match self {
            ConfigValue::String(s) => ValueView::String(s@),
            ConfigValue::Integer(i) => ValueView::Integer(*i),
            ConfigValue::Float(f) => toml_tree(*f),
            ConfigValue::Boolean(b) => ValueView::Boolean(*b),
            ConfigValue::Datetime(d) => ValueView::Datetime(*d),
            ConfigValue::Array(a) => ValueView::Array(
                Seq::new(
                    a.len() as nat,
                    |i: int|
                        if 0 <= i < a.len() {
                            a[i].model()
                        } else {
                            empty_table()
                        },
                ),
            ),
            ConfigValue::Table(t) => ValueView::Table(table_of(Self::entry_models(*t))),
        }
    }

    /// The entries of a table, each key by its view and each value by its model.
    pub open spec fn entry_models(t: Vec<(String, ConfigValue)>) -> Seq<(Seq<char>, ValueView)>
        decreases t,
    {
        Seq::new(
            t.len() as nat,
            |i: int|
                if 0 <= i < t.len() {
                    (t[i].0@, t[i].1.model())
                } else {
                    (Seq::empty(), empty_table())
                },
        )
    }
}

impl View for ConfigValue {
    type V = ValueView;

    open spec fn view(&self) -> ValueView {
        self.model()
    }
}

/// The entries of a table, each key and value by its view.
pub open spec fn entry_views(t: Seq<(String, ConfigValue)>) -> Seq<(Seq<char>, ValueView)> {
    Seq::new(t.len(), |i: int| (t[i].0@, t[i].1@))
}

/// The elements of an array, each by its view.
pub open spec fn element_views(a: Seq<ConfigValue>) -> Seq<ValueView> {
    Seq::new(a.len(), |i: int| a[i]@)
}

impl ConfigValue {
    /// Well-formedness: no table holds a key twice, and what a `Float`
    /// carries is a float.
    pub open spec fn wf(&self) -> bool
        decreases self,
    {
        match self {
            ConfigValue::Float(f) => toml_tree(*f) is Float,
            ConfigValue::Array(a) => forall|i: int| 0 <= i < a.len() ==> (#[trigger] a[i]).wf(),
            ConfigValue::Table(t) => {
                &&& forall|i: int| 0 <= i < t.len() ==> (#[trigger] t[i]).1.wf()
                &&& keys_distinct(entry_views(t@))
            },
            _ => true,
        }
    }

    /// A table without entries.
    pub fn new_table() -> (r: ConfigValue)
        ensures
            r@ == empty_table(),
            r.wf(),
    {
        let entries: Vec<(String, ConfigValue)> = Vec::new();
        proof {
            Self::lemma_table_view(entries);
            assert(entry_views(entries@) =~= Seq::empty());
        }
        ConfigValue::Table(entries)
    }

    /// The view of an array is the sequence of its elements' views.
    pub proof fn lemma_array_view(a: Vec<ConfigValue>)
        ensures
            ConfigValue::Array(a)@ == ValueView::Array(element_views(a@)),
    {
        let v = ConfigValue::Array(a);
        assert(v@ is Array);
        assert(v@->Array_0.len() == a.len());
        assert(v@->Array_0 =~= element_views(a@));
    }

    /// The view of a table is the map of its entries' views.
    pub proof fn lemma_table_view(t: Vec<(String, ConfigValue)>)
        ensures
            ConfigValue::Table(t)@ == ValueView::Table(table_of(entry_views(t@))),
    {
        assert(Self::entry_models(t) =~= entry_views(t@));
    }
}

/// A key is in the map of `entries` exactly when some entry has it.
pub proof fn lemma_table_of_dom<V>(entries: Seq<(Seq<char>, V)>, key: Seq<char>)
    ensures
        table_of(entries).contains_key(key) <==> has_key(entries, key),
    decreases entries.len(),
{
    if entries.len() > 0 {
        let init = entries.drop_last();
        lemma_table_of_dom(init, key);
        if has_key(init, key) {
            let i = choose|i: int| 0 <= i < init.len() && (#[trigger] init[i]).0 == key;
            assert(entries[i].0 == key);
        }
        if has_key(entries, key) {
            let i = choose|i: int| 0 <= i < entries.len() && (#[trigger] entries[i]).0 == key;
            if i < entries.len() - 1 {
                assert(init[i].0 == key);
            }
        } else {
            assert(entries[entries.len() - 1].0 != key);
        }
    }
}

/// With distinct keys, the map of `entries` sends each entry's key to its value.
pub proof fn lemma_table_of_lookup<V>(entries: Seq<(Seq<char>, V)>, i: int)
    requires
        keys_distinct(entries),
        0 <= i < entries.len(),
    ensures
        table_of(entries).contains_key(entries[i].0),
        table_of(entries)[entries[i].0] == entries[i].1,
    decreases entries.len(),
{
    let init = entries.drop_last();
    if i < entries.len() - 1 {
        assert forall|a: int, b: int| 0 <= a < b < init.len() implies (#[trigger] init[a]).0 != (
        #[trigger] init[b]).0 by {
            assert(init[a] == entries[a] && init[b] == entries[b]);
        }
        lemma_table_of_lookup(init, i);
        assert(entries[i].0 != entries[entries.len() - 1].0);
    }
}

/// Replacing the value of entry `i` replaces the value at its key.
pub proof fn lemma_table_of_update<V>(entries: Seq<(Seq<char>, V)>, i: int, x: V)
    requires
        keys_distinct(entries),
        0 <= i < entries.len(),
    ensures
        table_of(entries.update(i, (entries[i].0, x))) == table_of(entries).insert(entries[i].0, x),
        keys_distinct(entries.update(i, (entries[i].0, x))),
    decreases entries.len(),
{
    let key = entries[i].0;
    let after = entries.update(i, (key, x));
    let init = entries.drop_last();
    assert forall|a: int, b: int| 0 <= a < b < after.len() implies (#[trigger] after[a]).0 != (
    #[trigger] after[b]).0 by {
        assert(after[a].0 == entries[a].0 && after[b].0 == entries[b].0);
    }
    if i == entries.len() - 1 {
        assert(after.drop_last() =~= init);
        assert(table_of(after) =~= table_of(entries).insert(key, x));
    } else {
        assert forall|a: int, b: int| 0 <= a < b < init.len() implies (#[trigger] init[a]).0 != (
        #[trigger] init[b]).0 by {
            assert(init[a] == entries[a] && init[b] == entries[b]);
        }
        lemma_table_of_update(init, i, x);
        assert(after.drop_last() =~= init.update(i, (key, x)));
        assert(entries[i].0 != entries[entries.len() - 1].0);
        assert(table_of(after) =~= table_of(entries).insert(key, x));
    }
}

/// Taking entry `i` out takes its key out of the map.
pub proof fn lemma_table_of_remove<V>(entries: Seq<(Seq<char>, V)>, i: int)
    requires
        keys_distinct(entries),
        0 <= i < entries.len(),
    ensures
        table_of(entries.remove(i)) == table_of(entries).remove(entries[i].0),
        keys_distinct(entries.remove(i)),
    decreases entries.len(),
{
    let key = entries[i].0;
    let after = entries.remove(i);
    let init = entries.drop_last();
    assert forall|a: int, b: int| 0 <= a < b < after.len() implies (#[trigger] after[a]).0 != (
    #[trigger] after[b]).0 by {
        let a0 = if a < i { a } else { a + 1 };
        let b0 = if b < i { b } else { b + 1 };
        assert(after[a] == entries[a0] && after[b] == entries[b0]);
    }
    assert forall|a: int, b: int| 0 <= a < b < init.len() implies (#[trigger] init[a]).0 != (
    #[trigger] init[b]).0 by {
        assert(init[a] == entries[a] && init[b] == entries[b]);
    }
    if i == entries.len() - 1 {
        assert(after =~= init);
        lemma_table_of_dom(init, key);
        if has_key(init, key) {
            let k = choose|k: int| 0 <= k < init.len() && (#[trigger] init[k]).0 == key;
            assert(entries[k].0 == key);
        }
        assert(table_of(after) =~= table_of(entries).remove(key));
    } else {
        lemma_table_of_remove(init, i);
        assert(after.drop_last() =~= init.remove(i));
        assert(after.last() == entries.last());
        assert(entries[i].0 != entries[entries.len() - 1].0);
        assert(table_of(after) =~= table_of(entries).remove(key));
    }
}

/// Giving entry `i` a key that no other entry has moves its value to that key.
pub proof fn lemma_table_of_rekey<V>(entries: Seq<(Seq<char>, V)>, i: int, key: Seq<char>)
    requires
        keys_distinct(entries),
        0 <= i < entries.len(),
        key == entries[i].0 || !has_key(entries, key),
    ensures
        keys_distinct(entries.update(i, (key, entries[i].1))),
        table_of(entries.update(i, (key, entries[i].1))) == table_of(entries).remove(
            entries[i].0,
        ).insert(key, entries[i].1),
{
    let after = entries.update(i, (key, entries[i].1));
    let want = table_of(entries).remove(entries[i].0).insert(key, entries[i].1);
    assert forall|a: int, b: int| 0 <= a < b < after.len() implies (#[trigger] after[a]).0 != (
    #[trigger] after[b]).0 by {
        if a == i {
            assert(entries[b].0 != entries[i].0);
        } else if b == i {
            assert(entries[a].0 != entries[i].0);
        } else {
            assert(after[a] == entries[a] && after[b] == entries[b]);
        }
    }
    assert forall|k: Seq<char>| table_of(after).contains_key(k) <==> want.contains_key(k) by {
        lemma_table_of_dom(after, k);
        lemma_table_of_dom(entries, k);
        if has_key(after, k) {
            let a = choose|a: int| 0 <= a < after.len() && (#[trigger] after[a]).0 == k;
            if a != i {
                assert(entries[a].0 == k);
            }
        }
        if has_key(entries, k) && k != entries[i].0 {
            let a = choose|a: int| 0 <= a < entries.len() && (#[trigger] entries[a]).0 == k;
            assert(after[a].0 == k);
        }
        if k == key {
            assert(after[i].0 == k);
        }
    }
    assert forall|k: Seq<char>| table_of(after).contains_key(k) implies table_of(after)[k]
        == want[k] by {
        lemma_table_of_dom(after, k);
        let a = choose|a: int| 0 <= a < after.len() && (#[trigger] after[a]).0 == k;
        lemma_table_of_lookup(after, a);
        if a != i {
            assert(entries[a].0 == k);
            lemma_table_of_lookup(entries, a);
        }
    }
    assert(table_of(after) =~= want);
}

/// Appending an entry with a new key keeps the keys distinct.
pub proof fn lemma_push_distinct<V>(entries: Seq<(Seq<char>, V)>, e: (Seq<char>, V))
    requires
        keys_distinct(entries),
        !has_key(entries, e.0),
    ensures
        keys_distinct(entries.push(e)),
{
    let after = entries.push(e);
    assert forall|a: int, b: int| 0 <= a < b < after.len() implies (#[trigger] after[a]).0 != (
    #[trigger] after[b]).0 by {
        assert(after[a] == entries[a]);
        if b < entries.len() {
            assert(after[b] == entries[b]);
        }
    }
}

/// The position of the first entry with the given key.
pub fn find_entry(entries: &Vec<(String, ConfigValue)>, key: &String) -> (r: Option<usize>)
    ensures
        match r {
            Some(i) => i < entries.len() && entries[i as int].0@ == key@ && forall|k: int|
                0 <= k < i ==> (#[trigger] entries[k]).0@ != key@,
            None => !has_key(entry_views(entries@), key@),
        },
{
    let mut i: usize = 0;
    while i < entries.len()
        invariant
            i <= entries.len(),
            forall|k: int| 0 <= k < i ==> (#[trigger] entries[k]).0@ != key@,
        decreases entries.len() - i,
    {
        if entries[i].0 == *key {
            return Some(i);
        }
        i = i + 1;
    }
    proof {
        let e = entry_views(entries@);
        assert forall|k: int| 0 <= k < e.len() implies (#[trigger] e[k]).0 != key@ by {
            assert(entries[k].0@ != key@);
        }
    }
    None
}

/// The value under `key` in the table `v`; nothing where `v` is no table or
/// has no such key.
pub open spec fn field(v: ValueView, key: Seq<char>) -> Option<ValueView> {
    match v {
        ValueView::Table(m) => if m.contains_key(key) {
            Some(m[key])
        } else {
            None
        },
        _ => None,
    }
}

/// The element at position `i` of the array `v`; nothing where `v` is no
/// array or is shorter.
pub open spec fn element(v: ValueView, i: nat) -> Option<ValueView> {
    match v {
        ValueView::Array(a) => if i < a.len() {
            Some(a[i as int])
        } else {
            None
        },
        _ => None,
    }
}

impl ConfigValue {
    /// The string that this value is.
    pub fn as_str(&self) -> (r: Result<&str, ConfigError>)
        ensures
            match r {
                Ok(s) => self@ == ValueView::String(s@),
                Err(e) => e == ConfigError::TypeMismatch && !(self is String),
            },
    {
        match self {
            ConfigValue::String(s) => Ok(s.as_str()),
            _ => Err(ConfigError::TypeMismatch),
        }
    }

    /// The integer that this value is.
    pub fn as_integer(&self) -> (r: Result<i64, ConfigError>)
        ensures
            match r {
                Ok(i) => self@ == ValueView::Integer(i),
                Err(e) => e == ConfigError::TypeMismatch && !(self is Integer),
            },
    {
        match self {
            ConfigValue::Integer(i) => Ok(*i),
            _ => Err(ConfigError::TypeMismatch),
        }
    }

    /// The boolean that this value is.
    pub fn as_bool(&self) -> (r: Result<bool, ConfigError>)
        ensures
            match r {
                Ok(b) => self@ == ValueView::Boolean(b),
                Err(e) => e == ConfigError::TypeMismatch && !(self is Boolean),
            },
    {
        match self {
            ConfigValue::Boolean(b) => Ok(*b),
            _ => Err(ConfigError::TypeMismatch),
        }
    }

    /// The datetime that this value is.
    pub fn as_datetime(&self) -> (r: Result<&toml::value::Datetime, ConfigError>)
        ensures
            match r {
                Ok(d) => self@ == ValueView::Datetime(*d),
                Err(e) => e == ConfigError::TypeMismatch && !(self is Datetime),
            },
    {
        match self {
            ConfigValue::Datetime(d) => Ok(d),
            _ => Err(ConfigError::TypeMismatch),
        }
    }

    /// The value under `key`, if this is a table that has the key.
    pub fn get(&self, key: &str) -> (r: Option<&ConfigValue>)
        requires
            self.wf(),
        ensures
            match r {
                Some(v) => field(self@, key@) == Some(v@) && v.wf(),
                None => field(self@, key@) is None,
            },
    {
        match self {
            ConfigValue::Table(entries) => {
                proof {
                    Self::lemma_table_view(*entries);
                    lemma_table_of_dom(entry_views(entries@), key@);
                }
                match find_entry(entries, &key.to_owned()) {
                    Some(i) => {
                        proof {
                            lemma_table_of_lookup(entry_views(entries@), i as int);
                        }
                        Some(&entries[i].1)
                    },
                    None => None,
                }
            },
            _ => None,
        }
    }

    /// The element at position `i`, if this is an array that long.
    pub fn index(&self, i: usize) -> (r: Option<&ConfigValue>)
        requires
            self.wf(),
        ensures
            match r {
                Some(v) => element(self@, i as nat) == Some(v@) && v.wf(),
                None => element(self@, i as nat) is None,
            },
    {
        match self {
            ConfigValue::Array(items) => {
                proof {
                    Self::lemma_array_view(*items);
                }
                if i < items.len() {
                    Some(&items[i])
                } else {
                    None
                }
            },
            _ => None,
        }
    }

    /// Puts `value` under `key` in this table and hands out what stood there.
    /// A value that is no table is left as it is, and `value` comes back.
    pub fn insert(&mut self, key: String, value: ConfigValue) -> (r: Option<ConfigValue>)
        requires
            old(self).wf(),
            value.wf(),
        ensures
            final(self).wf(),
            match old(self)@ {
                ValueView::Table(m) => final(self)@ == ValueView::Table(m.insert(key@, value@))
                    && match r {
                    Some(v) => m.contains_key(key@) && m[key@] == v@ && v.wf(),
                    None => !m.contains_key(key@),
                },
                _ => final(self)@ == old(self)@ && (r matches Some(v) && v@ == value@),
            },
    {
        match self {
            ConfigValue::Table(entries) => {
                let ghost before = *entries;
                let ghost ev = entry_views(before@);
                proof {
                    Self::lemma_table_view(before);
                    lemma_table_of_dom(ev, key@);
                }
                match find_entry(entries, &key) {
                    Some(i) => {
                        proof {
                            lemma_table_of_lookup(ev, i as int);
                            lemma_table_of_update(ev, i as int, value@);
                        }
                        let mut slot = value;
                        core::mem::swap(&mut entries[i].1, &mut slot);
                        proof {
                            assert(entry_views(entries@) =~= ev.update(i as int, (ev[i as int].0, value@)));
                            Self::lemma_table_view(*entries);
                            assert forall|k: int| 0 <= k < entries.len() implies (
                            #[trigger] entries[k]).1.wf() by {
                                if k != i {
                                    assert(entries[k] == before[k]);
                                }
                            }
                        }
                        Some(slot)
                    },
                    None => {
                        entries.push((key, value));
                        proof {
                            lemma_push_distinct(ev, (key@, value@));
                            assert(entry_views(entries@) =~= ev.push((key@, value@)));
                            assert(entry_views(entries@).drop_last() =~= ev);
                            Self::lemma_table_view(*entries);
                            assert forall|k: int| 0 <= k < entries.len() implies (
                            #[trigger] entries[k]).1.wf() by {
                                if k < before.len() {
                                    assert(entries[k] == before[k]);
                                }
                            }
                        }
                        None
                    },
                }
            },
            _ => Some(value),
        }
    }

    /// Takes `key` out of this table and hands out what stood there.
    pub fn remove(&mut self, key: &str) -> (r: Option<ConfigValue>)
        requires
            old(self).wf(),
        ensures
            final(self).wf(),
            match field(old(self)@, key@) {
                Some(v) => (r matches Some(x) && x@ == v && x.wf()) && final(self)@
                    == ValueView::Table(old(self)@->Table_0.remove(key@)),
                None => r is None && final(self)@ == old(self)@,
            },
    {
        match self {
            ConfigValue::Table(entries) => {
                let ghost before = *entries;
                let ghost ev = entry_views(before@);
                proof {
                    Self::lemma_table_view(before);
                    lemma_table_of_dom(ev, key@);
                }
                match find_entry(entries, &key.to_owned()) {
                    Some(i) => {
                        proof {
                            lemma_table_of_lookup(ev, i as int);
                            lemma_table_of_remove(ev, i as int);
                        }
                        let entry = entries.remove(i);
                        proof {
                            assert(entry_views(entries@) =~= ev.remove(i as int));
                            Self::lemma_table_view(*entries);
                            assert forall|k: int| 0 <= k < entries.len() implies (
                            #[trigger] entries[k]).1.wf() by {
                                let k0 = if k < i {
                                    k
                                } else {
                                    k + 1
                                };
                                assert(entries[k] == before[k0]);
                            }
                        }
                        Some(entry.1)
                    },
                    None => None,
                }
            },
            _ => None,
        }
    }
}

} // verus!
