//! Documents as TOML text, read and written by the `toml` crate.
//!
//! The crate's parser and writer are called as they are; what they return is
//! named, not described. The conversion between the crate's values and
//! [`ConfigValue`] is verified, one level of the tree at a time.
use vstd::prelude::*;
use crate::config::ConfigError;
use crate::value::{
    element_views, entry_views, find_entry, keys_distinct, lemma_table_of_dom,
    lemma_table_of_lookup, table_of, ConfigValue, ValueView,
};

verus! {

/// `toml::Value`, a TOML value of any kind. Nothing of its inside is known
/// here; what it holds is named by `toml_tree`.
#[verifier::external_type_specification]
#[verifier::external_body]
pub struct ExTomlValue(toml::Value);

/// `toml::value::Datetime`, a TOML date, time or both. It is carried, never
/// looked into.
#[verifier::external_type_specification]
#[verifier::external_body]
pub struct ExDatetime(toml::value::Datetime);

/// `toml::de::Error`, what `toml::from_str` fails with.
#[verifier::external_type_specification]
#[verifier::external_body]
pub struct ExDeError(toml::de::Error);

/// `toml::ser::Error`, what `toml::to_string` and `toml::to_string_pretty`
/// fail with.
#[verifier::external_type_specification]
#[verifier::external_body]
pub struct ExSerError(toml::ser::Error);

/// The tree that a TOML value holds: its kind, and below an array or a table
/// the trees of its elements or entries. `toml_unpack` and `toml_pack` say how
/// it goes with the variants of `toml::Value`.
pub uninterp spec fn toml_tree(v: toml::Value) -> ValueView;

/// The tree that `toml::from_str` reads from a text, if it reads one.
pub uninterp spec fn toml_parsed(text: Seq<char>) -> Option<ValueView>;

/// The text that `toml::to_string` writes for a tree, if it writes one.
pub uninterp spec fn toml_text(tree: ValueView) -> Option<Seq<char>>;

/// The text that `toml::to_string_pretty` writes for a tree, if it writes one.
pub uninterp spec fn toml_pretty_text(tree: ValueView) -> Option<Seq<char>>;

/// One level of a TOML value: its kind and what stands directly below it.
pub enum TomlNode {
    String(String),
    Integer(i64),
    Float(toml::Value),
    Boolean(bool),
    Datetime(toml::value::Datetime),
    Array(Vec<toml::Value>),
    Table(Vec<(String, toml::Value)>),
}

/// The trees of a vector of TOML values.
pub open spec fn item_trees(items: Seq<toml::Value>) -> Seq<ValueView> {
    Seq::new(items.len(), |i: int| toml_tree(items[i]))
}

/// The keys and trees of a vector of TOML table entries.
pub open spec fn entry_trees(entries: Seq<(String, toml::Value)>) -> Seq<(Seq<char>, ValueView)> {
    Seq::new(entries.len(), |i: int| (entries[i].0@, toml_tree(entries[i].1)))
}

impl TomlNode {
    /// The tree that this level and the values below it make up.
    pub open spec fn tree(self) -> ValueView {
        match self {
            TomlNode::String(s) => ValueView::String(s@),
            TomlNode::Integer(i) => ValueView::Integer(i),
            TomlNode::Float(f) => toml_tree(f),
            TomlNode::Boolean(b) => ValueView::Boolean(b),
            TomlNode::Datetime(d) => ValueView::Datetime(d),
            TomlNode::Array(items) => ValueView::Array(item_trees(items@)),
            TomlNode::Table(entries) => ValueView::Table(table_of(entry_trees(entries@))),
        }
    }

    /// A float is carried whole; a table holds no key twice.
    pub open spec fn wf(self) -> bool {
        match self {
            TomlNode::Float(f) => toml_tree(f) is Float,
            TomlNode::Table(entries) => keys_distinct(entry_trees(entries@)),
            _ => true,
        }
    }
}

/// `toml::from_str`, reading a whole document into a `toml::Value`. The result
/// is named by `toml_parsed`: the same text always reads the same, and an
/// error means that it reads as nothing.
#[verifier::external_body]
fn toml_from_str(text: &str) -> (r: Result<toml::Value, toml::de::Error>)
    ensures
        match r {
            Ok(v) => toml_parsed(text@) == Some(toml_tree(v)),
            Err(_) => toml_parsed(text@) is None,
        },
{
    toml::from_str(text)
}

/// `toml::to_string` on a `toml::Value`. The result is named by `toml_text`:
/// it depends on the tree alone (a table is kept in the order of its keys,
/// so the tree fixes the value), and an error means that the tree has no
/// text.
#[verifier::external_body]
fn toml_to_string(v: &toml::Value) -> (r: Result<String, toml::ser::Error>)
    ensures
        match r {
            Ok(s) => toml_text(toml_tree(*v)) == Some(s@),
            Err(_) => toml_text(toml_tree(*v)) is None,
        },
{
    toml::to_string(v)
}

/// `toml::to_string_pretty` on a `toml::Value`, named by `toml_pretty_text`
/// in the same way.
#[verifier::external_body]
fn toml_to_string_pretty(v: &toml::Value) -> (r: Result<String, toml::ser::Error>)
    ensures
        match r {
            Ok(s) => toml_pretty_text(toml_tree(*v)) == Some(s@),
            Err(_) => toml_pretty_text(toml_tree(*v)) is None,
        },
{
    toml::to_string_pretty(v)
}

/// Takes a `toml::Value` apart by its variant. A string, integer, boolean or
/// datetime hands out its field; a float is handed out whole; an array hands
/// out its vector; a table hands out its entries in the order of
/// `toml::map::Map::into_iter`, which walks a `BTreeMap` and so holds no key
/// twice.
#[verifier::external_body]
fn toml_unpack(v: toml::Value) -> (n: TomlNode)
    ensures
        n.tree() == toml_tree(v),
        n.wf(),
{
    match v {
        toml::Value::String(s) => TomlNode::String(s),
        toml::Value::Integer(i) => TomlNode::Integer(i),
        toml::Value::Float(f) => TomlNode::Float(toml::Value::Float(f)),
        toml::Value::Boolean(b) => TomlNode::Boolean(b),
        toml::Value::Datetime(d) => TomlNode::Datetime(d),
        toml::Value::Array(a) => TomlNode::Array(a),
        toml::Value::Table(t) => TomlNode::Table(t.into_iter().collect()),
    }
}

/// Builds a `toml::Value` of the variant that the node names. A float is the
/// value that was carried; a table is collected from its entries, which must
/// not hold a key twice.
#[verifier::external_body]
fn toml_pack(n: TomlNode) -> (v: toml::Value)
    requires
        n.wf(),
    ensures
        toml_tree(v) == n.tree(),
{
    match n {
        TomlNode::String(s) => toml::Value::String(s),
        TomlNode::Integer(i) => toml::Value::Integer(i),
        TomlNode::Float(f) => f,
        TomlNode::Boolean(b) => toml::Value::Boolean(b),
        TomlNode::Datetime(d) => toml::Value::Datetime(d),
        TomlNode::Array(a) => toml::Value::Array(a),
        TomlNode::Table(t) => toml::Value::Table(t.into_iter().collect()),
    }
}

/// `toml::Value::as_float`, and `to_bits` of the number it hands out: the
/// tree of a float holds that bit pattern, and only a float has a number to
/// hand out.
#[verifier::external_body]
fn toml_float_bits(v: &toml::Value) -> (r: Option<u64>)
    ensures
        match r {
            Some(bits) => toml_tree(*v) == ValueView::Float(bits),
            None => !(toml_tree(*v) is Float),
        },
{
    v.as_float().map(|f| f.to_bits())
}

/// `==` of `toml::value::Datetime`, which compares all its fields.
#[verifier::external_body]
fn datetime_eq(a: &toml::value::Datetime, b: &toml::value::Datetime) -> (r: bool)
    ensures
        r == (*a == *b),
{
    a == b
}

/// `Clone` of `toml::Value`: the copy holds the same tree.
pub assume_specification[ <toml::Value as Clone>::clone ](v: &toml::Value) -> (r: toml::Value)
    ensures
        toml_tree(r) == toml_tree(*v),
;

/// `Clone` of `toml::value::Datetime`: the copy is the same datetime.
pub assume_specification[ <toml::value::Datetime as Clone>::clone ](
    d: &toml::value::Datetime,
) -> (r: toml::value::Datetime)
    ensures
        r == *d,
;

/// The map of a sequence of entries has a finite domain.
pub proof fn lemma_table_of_finite(entries: Seq<(Seq<char>, ValueView)>)
    ensures
        table_of(entries).dom().finite(),
    decreases entries.len(),
{
    if entries.len() > 0 {
        lemma_table_of_finite(entries.drop_last());
    }
}

/// Converts a TOML value into a document value that holds the same tree.
pub fn from_toml(v: toml::Value) -> (r: ConfigValue)
    ensures
        r@ == toml_tree(v),
        r.wf(),
    decreases toml_tree(v),
{
    match toml_unpack(v) {
        TomlNode::String(s) => ConfigValue::String(s),
        TomlNode::Integer(i) => ConfigValue::Integer(i),
        TomlNode::Float(f) => ConfigValue::Float(f),
        TomlNode::Boolean(b) => ConfigValue::Boolean(b),
        TomlNode::Datetime(d) => ConfigValue::Datetime(d),
        TomlNode::Array(items) => {
            let mut items = items;
            let ghost all = items@;
            let n = items.len();
            let mut back: Vec<ConfigValue> = Vec::new();
            while items.len() > 0
                invariant
                    toml_tree(v) == ValueView::Array(item_trees(all)),
                    n == all.len(),
                    items.len() + back.len() == n,
                    items@ == all.take(items.len() as int),
                    forall|k: int|
                        0 <= k < back.len() ==> (#[trigger] back[k])@ == toml_tree(all[n - 1 - k])
                            && back[k].wf(),
                decreases items.len(),
            {
                let ghost at = items.len() - 1;
                let item = items.pop().unwrap();
                proof {
                    assert(item == all[at]);
                    assert(item_trees(all)[at] == toml_tree(item));
                    assert(items@ =~= all.take(at));
                    let t = toml_tree(v);
                    assert(t->Array_0 == item_trees(all));
                    assert(decreases_to!(t => t->Array_0));
                    assert(decreases_to!(t->Array_0 => t->Array_0[at]));
                }
                back.push(from_toml(item));
            }
            let mut out: Vec<ConfigValue> = Vec::new();
            let ghost reversed = back@;
            while back.len() > 0
                invariant
                    n == reversed.len(),
                    back.len() + out.len() == n,
                    back@ == reversed.take(back.len() as int),
                    forall|k: int| 0 <= k < out.len() ==> (#[trigger] out[k]) == reversed[n - 1 - k],
                decreases back.len(),
            {
                let ghost at = back.len() - 1;
                let item = back.pop().unwrap();
                proof {
                    assert(item == reversed[at]);
                    assert(back@ =~= reversed.take(at));
                }
                out.push(item);
            }
            proof {
                ConfigValue::lemma_array_view(out);
                assert(element_views(out@) =~= item_trees(all));
            }
            ConfigValue::Array(out)
        },
        TomlNode::Table(entries) => {
            let mut entries = entries;
            let ghost all = entries@;
            let n = entries.len();
            let mut back: Vec<(String, ConfigValue)> = Vec::new();
            proof {
                lemma_table_of_finite(entry_trees(all));
            }
            while entries.len() > 0
                invariant
                    toml_tree(v) == ValueView::Table(table_of(entry_trees(all))),
                    table_of(entry_trees(all)).dom().finite(),
                    keys_distinct(entry_trees(all)),
                    n == all.len(),
                    entries.len() + back.len() == n,
                    entries@ == all.take(entries.len() as int),
                    forall|k: int|
                        0 <= k < back.len() ==> (#[trigger] back[k]).0@ == all[n - 1 - k].0@
                            && back[k].1@ == toml_tree(all[n - 1 - k].1) && back[k].1.wf(),
                decreases entries.len(),
            {
                let ghost at = entries.len() - 1;
                let entry = entries.pop().unwrap();
                proof {
                    assert(entry == all[at]);
                    assert(entry_trees(all)[at] == (entry.0@, toml_tree(entry.1)));
                    lemma_table_of_lookup(entry_trees(all), at);
                    assert(entries@ =~= all.take(at));
                    let t = toml_tree(v);
                    assert(t->Table_0 == table_of(entry_trees(all)));
                    assert(decreases_to!(t => t->Table_0));
                    assert(decreases_to!(t->Table_0 => t->Table_0[entry.0@]));
                }
                let value = from_toml(entry.1);
                back.push((entry.0, value));
            }
            let mut out: Vec<(String, ConfigValue)> = Vec::new();
            let ghost reversed = back@;
            while back.len() > 0
                invariant
                    n == reversed.len(),
                    back.len() + out.len() == n,
                    back@ == reversed.take(back.len() as int),
                    forall|k: int| 0 <= k < out.len() ==> (#[trigger] out[k]) == reversed[n - 1 - k],
                decreases back.len(),
            {
                let ghost at = back.len() - 1;
                let entry = back.pop().unwrap();
                proof {
                    assert(entry == reversed[at]);
                    assert(back@ =~= reversed.take(at));
                }
                out.push(entry);
            }
            proof {
                ConfigValue::lemma_table_view(out);
                assert(entry_views(out@) =~= entry_trees(all));
            }
            ConfigValue::Table(out)
        },
    }
}

/// Converts a document value into a TOML value that holds the same tree.
#[verifier::loop_isolation(false)]
pub fn to_toml(v: &ConfigValue) -> (r: toml::Value)
    requires
        v.wf(),
    ensures
        toml_tree(r) == v@,
    decreases v,
{
    match v {
        ConfigValue::String(s) => toml_pack(TomlNode::String(s.clone())),
        ConfigValue::Integer(i) => toml_pack(TomlNode::Integer(*i)),
        ConfigValue::Float(f) => toml_pack(TomlNode::Float(f.clone())),
        ConfigValue::Boolean(b) => toml_pack(TomlNode::Boolean(*b)),
        ConfigValue::Datetime(d) => toml_pack(TomlNode::Datetime(d.clone())),
        ConfigValue::Array(items) => {
            let mut out: Vec<toml::Value> = Vec::new();
            let mut i: usize = 0;
            while i < items.len()
                invariant
                    i <= items.len(),
                    out.len() == i,
                    forall|k: int| 0 <= k < items.len() ==> (#[trigger] items[k]).wf(),
                    forall|k: int| 0 <= k < i ==> toml_tree(#[trigger] out[k]) == items[k]@,
                decreases items.len() - i,
            {
                out.push(to_toml(&items[i]));
                i = i + 1;
            }
            proof {
                ConfigValue::lemma_array_view(*items);
                assert(item_trees(out@) =~= element_views(items@));
            }
            toml_pack(TomlNode::Array(out))
        },
        ConfigValue::Table(entries) => {
            let mut out: Vec<(String, toml::Value)> = Vec::new();
            let mut i: usize = 0;
            while i < entries.len()
                invariant
                    i <= entries.len(),
                    out.len() == i,
                    forall|k: int| 0 <= k < entries.len() ==> (#[trigger] entries[k]).1.wf(),
                    forall|k: int|
                        0 <= k < i ==> (#[trigger] out[k]).0@ == entries[k].0@ && toml_tree(
                            out[k].1,
                        ) == entries[k].1@,
                decreases entries.len() - i,
            {
                out.push((entries[i].0.clone(), to_toml(&entries[i].1)));
                i = i + 1;
            }
            proof {
                ConfigValue::lemma_table_view(*entries);
                assert(entry_trees(out@) =~= entry_views(entries@));
            }
            toml_pack(TomlNode::Table(out))
        },
    }
}

/// Reads a TOML document.
pub fn parse(text: &str) -> (r: Result<ConfigValue, ConfigError>)
    ensures
        match r {
            Ok(v) => toml_parsed(text@) == Some(v@) && v.wf(),
            Err(e) => e == ConfigError::MalformedDocument && toml_parsed(text@) is None,
        },
{
    match toml_from_str(text) {
        Ok(v) => Ok(from_toml(v)),
        Err(_) => Err(ConfigError::MalformedDocument),
    }
}

/// Writes a document as TOML, laid out for reading.
pub fn serialize(v: &ConfigValue) -> (r: Result<String, ConfigError>)
    requires
        v.wf(),
    ensures
        match r {
            Ok(s) => toml_pretty_text(v@) == Some(s@),
            Err(e) => e == ConfigError::Unrepresentable && toml_pretty_text(v@) is None,
        },
{
    match toml_to_string_pretty(&to_toml(v)) {
        Ok(s) => Ok(s),
        Err(_) => Err(ConfigError::Unrepresentable),
    }
}

/// Writes a value as TOML on as few lines as it takes.
pub fn render(v: &ConfigValue) -> (r: Result<String, ConfigError>)
    requires
        v.wf(),
    ensures
        match r {
            Ok(s) => toml_text(v@) == Some(s@),
            Err(e) => e == ConfigError::Unrepresentable && toml_text(v@) is None,
        },
{
    match toml_to_string(&to_toml(v)) {
        Ok(s) => Ok(s),
        Err(_) => Err(ConfigError::Unrepresentable),
    }
}

/// Whether the first `n` entries and entry `n` have different keys.
fn key_is_new(entries: &Vec<(String, ConfigValue)>, n: usize) -> (r: bool)
    requires
        n < entries.len(),
    ensures
        r == forall|k: int| 0 <= k < n ==> (#[trigger] entries[k]).0@ != entries[n as int].0@,
{
    let mut k: usize = 0;
    while k < n
        invariant
            k <= n,
            n < entries.len(),
            forall|j: int| 0 <= j < k ==> (#[trigger] entries[j]).0@ != entries[n as int].0@,
        decreases n - k,
    {
        if entries[k].0 == entries[n].0 {
            return false;
        }
        k = k + 1;
    }
    true
}

/// Whether a document value is well-formed.
#[verifier::loop_isolation(false)]
pub fn well_formed(v: &ConfigValue) -> (ok: bool)
    ensures
        ok == v.wf(),
    decreases v,
{
    match v {
        ConfigValue::Float(f) => toml_float_bits(f).is_some(),
        ConfigValue::Array(items) => {
            let mut i: usize = 0;
            while i < items.len()
                invariant
                    i <= items.len(),
                    forall|k: int| 0 <= k < i ==> (#[trigger] items[k]).wf(),
                decreases items.len() - i,
            {
                if !well_formed(&items[i]) {
                    return false;
                }
                i = i + 1;
            }
            true
        },
        ConfigValue::Table(entries) => {
            let ghost ev = entry_views(entries@);
            let mut i: usize = 0;
            while i < entries.len()
                invariant
                    i <= entries.len(),
                    forall|k: int| 0 <= k < i ==> (#[trigger] entries[k]).1.wf(),
                    forall|a: int, b: int|
                        0 <= a < b < i ==> (#[trigger] ev[a]).0 != (#[trigger] ev[b]).0,
                decreases entries.len() - i,
            {
                if !well_formed(&entries[i].1) {
                    return false;
                }
                if !key_is_new(entries, i) {
                    proof {
                        let k = choose|k: int|
                            0 <= k < i && (#[trigger] entries[k]).0@ == entries[i as int].0@;
                        assert(ev[k].0 == ev[i as int].0);
                    }
                    return false;
                }
                proof {
                    assert forall|a: int, b: int| 0 <= a < b < i + 1 implies (#[trigger] ev[a]).0 != (
                    #[trigger] ev[b]).0 by {
                        if b == i {
                            assert(entries[a].0@ != entries[i as int].0@);
                        }
                    }
                }
                i = i + 1;
            }
            true
        },
        _ => true,
    }
}

/// The bit pattern of the floating-point number that a value is.
pub fn float_bits(v: &ConfigValue) -> (r: Result<u64, ConfigError>)
    ensures
        match r {
            Ok(bits) => v@ == ValueView::Float(bits),
            Err(e) => e == ConfigError::TypeMismatch && !(v is Float && v.wf()),
        },
{
    match v {
        ConfigValue::Float(f) => match toml_float_bits(f) {
            Some(bits) => Ok(bits),
            None => Err(ConfigError::TypeMismatch),
        },
        _ => Err(ConfigError::TypeMismatch),
    }
}

/// Whether every key of `a` is a key of `b`.
fn keys_covered(a: &Vec<(String, ConfigValue)>, b: &Vec<(String, ConfigValue)>) -> (r: bool)
    ensures
        r == forall|k: Seq<char>| #[trigger]
            table_of(entry_views(a@)).contains_key(k) ==> table_of(entry_views(b@)).contains_key(k),
{
    let ghost ma = table_of(entry_views(a@));
    let ghost mb = table_of(entry_views(b@));
    let mut i: usize = 0;
    while i < a.len()
        invariant
            i <= a.len(),
            ma == table_of(entry_views(a@)),
            mb == table_of(entry_views(b@)),
            forall|j: int| 0 <= j < i ==> mb.contains_key((#[trigger] a[j]).0@),
        decreases a.len() - i,
    {
        let ghost key = a[i as int].0@;
        proof {
            assert(entry_views(a@)[i as int].0 == key);
            lemma_table_of_dom(entry_views(a@), key);
            lemma_table_of_dom(entry_views(b@), key);
        }
        match find_entry(b, &a[i].0) {
            Some(j) => {
                assert(entry_views(b@)[j as int].0 == key);
            },
            None => {
                assert(ma.contains_key(key) && !mb.contains_key(key));
                return false;
            },
        }
        i = i + 1;
    }
    proof {
        assert forall|k: Seq<char>| #[trigger] ma.contains_key(k) implies mb.contains_key(k) by {
            lemma_table_of_dom(entry_views(a@), k);
            let j = choose|j: int| 0 <= j < a.len() && (#[trigger] entry_views(a@)[j]).0 == k;
            assert(a[j].0@ == k);
        }
    }
    true
}

/// Whether every key of `a` stands in `b` with a value of the same view.
#[verifier::loop_isolation(false)]
fn entries_covered(a: &Vec<(String, ConfigValue)>, b: &Vec<(String, ConfigValue)>) -> (r: bool)
    requires
        ConfigValue::Table(*a).wf(),
        ConfigValue::Table(*b).wf(),
    ensures
        r == forall|k: Seq<char>| #[trigger]
            table_of(entry_views(a@)).contains_key(k) ==> table_of(entry_views(b@)).contains_key(k)
                && table_of(entry_views(a@))[k] == table_of(entry_views(b@))[k],
    decreases ConfigValue::Table(*a), 0nat,
{
    let ghost ma = table_of(entry_views(a@));
    let ghost mb = table_of(entry_views(b@));
    let mut i: usize = 0;
    while i < a.len()
        invariant
            i <= a.len(),
            forall|j: int|
                0 <= j < i ==> mb.contains_key((#[trigger] a[j]).0@) && a[j].1@ == mb[a[j].0@],
        decreases a.len() - i,
    {
        let ghost key = a[i as int].0@;
        proof {
            lemma_table_of_lookup(entry_views(a@), i as int);
            assert(entry_views(a@)[i as int].0 == key);
            lemma_table_of_dom(entry_views(b@), key);
        }
        match find_entry(b, &a[i].0) {
            Some(j) => {
                proof {
                    lemma_table_of_lookup(entry_views(b@), j as int);
                }
                if !same(&a[i].1, &b[j].1) {
                    assert(ma.contains_key(key) && ma[key] != mb[key]);
                    return false;
                }
            },
            None => {
                assert(ma.contains_key(key) && !mb.contains_key(key));
                return false;
            },
        }
        i = i + 1;
    }
    proof {
        assert forall|k: Seq<char>| #[trigger] ma.contains_key(k) implies mb.contains_key(k)
            && ma[k] == mb[k] by {
            lemma_table_of_dom(entry_views(a@), k);
            let j = choose|j: int| 0 <= j < a.len() && (#[trigger] entry_views(a@)[j]).0 == k;
            lemma_table_of_lookup(entry_views(a@), j);
            assert(a[j].0@ == k);
        }
    }
    true
}

/// Whether two documents hold the same tree. The order in which a table
/// keeps its entries makes no difference.
#[verifier::loop_isolation(false)]
pub fn same(a: &ConfigValue, b: &ConfigValue) -> (r: bool)
    requires
        a.wf(),
        b.wf(),
    ensures
        r == (a@ == b@),
    decreases a, 1nat,
{
    match (a, b) {
        (ConfigValue::String(x), ConfigValue::String(y)) => *x == *y,
        (ConfigValue::Integer(x), ConfigValue::Integer(y)) => *x == *y,
        (ConfigValue::Boolean(x), ConfigValue::Boolean(y)) => *x == *y,
        (ConfigValue::Float(x), ConfigValue::Float(y)) => toml_float_bits(x) == toml_float_bits(y),
        (ConfigValue::Datetime(x), ConfigValue::Datetime(y)) => datetime_eq(x, y),
        (ConfigValue::Array(x), ConfigValue::Array(y)) => {
            proof {
                ConfigValue::lemma_array_view(*x);
                ConfigValue::lemma_array_view(*y);
            }
            if x.len() != y.len() {
                assert(element_views(x@).len() != element_views(y@).len());
                return false;
            }
            let mut i: usize = 0;
            while i < x.len()
                invariant
                    i <= x.len(),
                    forall|k: int| 0 <= k < i ==> (#[trigger] x[k])@ == y[k]@,
                decreases x.len() - i,
            {
                if !same(&x[i], &y[i]) {
                    assert(element_views(x@)[i as int] != element_views(y@)[i as int]);
                    return false;
                }
                i = i + 1;
            }
            assert(element_views(x@) =~= element_views(y@));
            true
        },
        (ConfigValue::Table(x), ConfigValue::Table(y)) => {
            proof {
                ConfigValue::lemma_table_view(*x);
                ConfigValue::lemma_table_view(*y);
            }
            let forth = entries_covered(x, y);
            let back = keys_covered(y, x);
            proof {
                let mx = table_of(entry_views(x@));
                let my = table_of(entry_views(y@));
                if forth && back {
                    assert(mx =~= my);
                }
            }
            forth && back
        },
        _ => false,
    }
}

/// Whether the text that is written for a document reads back as the
/// document.
pub fn round_trips(v: &ConfigValue) -> (ok: bool)
    requires
        v.wf(),
    ensures
        ok == match toml_pretty_text(v@) {
            Some(text) => toml_parsed(text) == Some(v@),
            None => false,
        },
{
    match serialize(v) {
        Ok(text) => match parse(text.as_str()) {
            Ok(back) => same(v, &back),
            Err(_) => false,
        },
        Err(_) => false,
    }
}

} // verus!
