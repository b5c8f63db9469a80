//! Dotted paths into a document: finding the place that a path leads to,
//! with or without making the tables that are missing on the way.
use vstd::prelude::*;
use crate::config::ConfigError;
use crate::text::{index_of_text, parse_index, split, split_on, views};
use crate::value::{
    element_views, empty_table, entry_views, find_entry, lemma_push_distinct, lemma_table_of_dom,
    lemma_table_of_lookup, lemma_table_of_update, table_of, ConfigValue, ValueView,
};

verus! {

/// The segments of a dotted path.
pub open spec fn segments(path: Seq<char>) -> Seq<Seq<char>> {
    split_on(path, '.')
}

/// The child of `v` that the path segment `seg` names: in a table the value at
/// that key, in an array the element at the index that `seg` writes. A scalar
/// has no children.
pub open spec fn child(v: ValueView, seg: Seq<char>) -> Option<ValueView> {
    match v {
        ValueView::Table(m) => if m.contains_key(seg) {
            Some(m[seg])
        } else {
            None
        },
        ValueView::Array(a) => match index_of_text(seg) {
            Some(i) => if i < a.len() {
                Some(a[i as int])
            } else {
                None
            },
            None => None,
        },
        _ => None,
    }
}

/// The value that the segments lead to from `v`, one child per segment. With
/// `create`, a table that lacks the next key is taken to hold an empty table
/// there; an array is never extended. `None` where the way runs into a scalar,
/// past an array, or (without `create`) to a key that is not there.
pub open spec fn resolve(v: ValueView, segs: Seq<Seq<char>>, create: bool) -> Option<ValueView>
    decreases segs.len(),
{
    if segs.len() == 0 {
        Some(v)
    } else {
        let seg = segs[0];
        let rest = segs.drop_first();
        match v {
            ValueView::Table(m) => if m.contains_key(seg) {
                resolve(m[seg], rest, create)
            } else if create {
                resolve(empty_table(), rest, create)
            } else {
                None
            },
            ValueView::Array(a) => match index_of_text(seg) {
                Some(i) => if i < a.len() {
                    resolve(a[i as int], rest, create)
                } else {
                    None
                },
                None => None,
            },
            _ => None,
        }
    }
}

/// `v` with `x` in the place that the segments lead to, the tables that were
/// missing on the way made. Where the segments lead nowhere, `v` itself.
pub open spec fn placed(v: ValueView, segs: Seq<Seq<char>>, x: ValueView) -> ValueView
    decreases segs.len(),
{
    if segs.len() == 0 {
        x
    } else {
        let seg = segs[0];
        let rest = segs.drop_first();
        match v {
            ValueView::Table(m) => {
                let c = if m.contains_key(seg) {
                    m[seg]
                } else {
                    empty_table()
                };
                ValueView::Table(m.insert(seg, placed(c, rest, x)))
            },
            ValueView::Array(a) => match index_of_text(seg) {
                Some(i) => if i < a.len() {
                    ValueView::Array(a.update(i as int, placed(a[i as int], rest, x)))
                } else {
                    v
                },
                None => v,
            },
            _ => v,
        }
    }
}

/// The document after `x` was set at the path: the place is found with
/// `create`, and `x` put there. `None` where the place cannot be found.
pub open spec fn assign(v: ValueView, segs: Seq<Seq<char>>, x: ValueView) -> Option<ValueView> {
    if resolve(v, segs, true) is Some {
        Some(placed(v, segs, x))
    } else {
        None
    }
}

/// The document after the last segment was unset: the segments before it
/// lead, without `create`, to a table that has the last segment as a key, and
/// the key is taken out of that table. `None` where they lead to no table, or
/// to one without the key.
pub open spec fn erase(v: ValueView, segs: Seq<Seq<char>>) -> Option<ValueView> {
    if segs.len() == 0 {
        None
    } else {
        match resolve(v, segs.drop_last(), false) {
            Some(ValueView::Table(m)) => if m.contains_key(segs.last()) {
                Some(placed(v, segs.drop_last(), ValueView::Table(m.remove(segs.last()))))
            } else {
                None
            },
            _ => None,
        }
    }
}

/// What a write through a path leaves: the written document on success, the
/// old one and `NoSuchKey` on failure.
pub open spec fn written(
    before: ValueView,
    outcome: Option<ValueView>,
    r: Result<(), ConfigError>,
    after: ValueView,
) -> bool {
    match outcome {
        Some(v) => r is Ok && after == v,
        None => r == Err::<(), ConfigError>(ConfigError::NoSuchKey) && after == before,
    }
}

/// From an empty table every path leads somewhere, once the tables are made.
pub proof fn lemma_resolve_creates(segs: Seq<Seq<char>>)
    ensures
        resolve(empty_table(), segs, true) is Some,
    decreases segs.len(),
{
    if segs.len() > 0 {
        lemma_resolve_creates(segs.drop_first());
    }
}

/// The place that the segments from position `from` on lead to, as a slot
/// that can be read and written. With `create`, tables that are missing on
/// the way are made. On success the document is, in the end, the old one with
/// whatever the slot then holds put in that place; on failure it is unchanged.
pub fn slot_at<'a>(node: &'a mut ConfigValue, segs: &Vec<String>, from: usize, create: bool) -> (r:
    Result<&'a mut ConfigValue, ConfigError>)
    requires
        old(node).wf(),
        from <= segs.len(),
    ensures
        r matches Ok(slot) ==> resolve(old(node)@, views(segs@).skip(from as int), create) == Some(
            slot@,
        ),
        r matches Ok(slot) ==> slot.wf(),
        r matches Ok(slot) ==> (final(slot).wf() ==> final(node).wf()),
        r matches Ok(slot) ==> final(node)@ == placed(
            old(node)@,
            views(segs@).skip(from as int),
            final(slot)@,
        ),
        r matches Err(e) ==> e == ConfigError::NoSuchKey,
        r matches Err(e) ==> resolve(old(node)@, views(segs@).skip(from as int), create) is None,
        r matches Err(e) ==> final(node)@ == old(node)@,
        r matches Err(e) ==> final(node).wf(),
    decreases segs.len() - from,
{
    if from == segs.len() {
        return Ok(node);
    }
    let ghost fin = *final(node);
    let ghost path = views(segs@).skip(from as int);
    proof {
        let rest = views(segs@).skip(from as int);
        assert(rest[0] == segs[from as int]@);
        assert(rest.drop_first() =~= views(segs@).skip(from + 1));
    }
    match node {
        ConfigValue::Table(entries) => {
            let ghost before = *entries;
            let ghost after = *final(entries);
            let ghost key = segs[from as int]@;
            let ghost m = table_of(entry_views(before@));
            proof {
                ConfigValue::lemma_table_view(before);
                ConfigValue::lemma_table_view(after);
                lemma_table_of_dom(entry_views(before@), key);
            }
            let idx = match find_entry(entries, &segs[from]) {
                Some(i) => {
                    proof {
                        lemma_table_of_lookup(entry_views(before@), i as int);
                    }
                    i
                },
                None => {
                    if !create {
                        return Err(ConfigError::NoSuchKey);
                    }
                    entries.push((segs[from].clone(), ConfigValue::new_table()));
                    proof {
                        lemma_resolve_creates(path.drop_first());
                        lemma_push_distinct(entry_views(before@), (key, empty_table()));
                        assert(entry_views(entries@) =~= entry_views(before@).push(
                            (key, empty_table()),
                        ));
                        assert(entry_views(entries@).drop_last() =~= entry_views(before@));
                    }
                    entries.len() - 1
                },
            };
            let ghost mid = *entries;
            let ghost ev = entry_views(mid@);
            assert(ev[idx as int] == (key, mid[idx as int].1@));
            assert(mid[idx as int].1.wf());
            match slot_at(&mut entries[idx].1, segs, from + 1, create) {
                Ok(slot) => {
                    proof {
                        let c2 = after[idx as int].1@;
                        assert(fin == ConfigValue::Table(after));
                        assert(after@ == mid@.update(idx as int, after[idx as int]));
                        lemma_table_of_update(ev, idx as int, c2);
                        assert(entry_views(after@) =~= ev.update(idx as int, (key, c2)));
                        assert(table_of(ev).insert(key, c2) =~= m.insert(key, c2));
                        assert forall|k: int|
                            0 <= k < after.len() && final(slot).wf() implies (
                        #[trigger] after[k]).1.wf() by {
                            if k != idx {
                                assert(after[k] == mid[k]);
                            }
                        }
                    }
                    Ok(slot)
                },
                Err(e) => {
                    proof {
                        let c2 = after[idx as int].1@;
                        assert(after@ == mid@.update(idx as int, after[idx as int]));
                        lemma_table_of_update(ev, idx as int, c2);
                        assert(entry_views(after@) =~= ev.update(idx as int, (key, c2)));
                        assert(m.insert(key, c2) =~= m);
                        assert forall|k: int| 0 <= k < after.len() implies (
                        #[trigger] after[k]).1.wf() by {
                            if k != idx {
                                assert(after[k] == mid[k]);
                            }
                        }
                    }
                    Err(e)
                },
            }
        },
        ConfigValue::Array(items) => {
            proof {
                ConfigValue::lemma_array_view(*items);
            }
            match parse_index(segs[from].as_str()) {
                Some(i) => if i < items.len() {
                    let ghost before = *items;
                    let ghost after = *final(items);
                    proof {
                        ConfigValue::lemma_array_view(after);
                    }
                    match slot_at(&mut items[i], segs, from + 1, create) {
                        Ok(slot) => {
                            proof {
                                assert(fin == ConfigValue::Array(after));
                                assert(after@ == before@.update(i as int, after[i as int]));
                                assert(element_views(after@) =~= element_views(before@).update(
                                    i as int,
                                    after[i as int]@,
                                ));
                                assert forall|k: int|
                                    0 <= k < after.len() && final(slot).wf() implies (
                                #[trigger] after[k]).wf() by {
                                    if k != i {
                                        assert(after[k] == before[k]);
                                    }
                                }
                            }
                            Ok(slot)
                        },
                        Err(e) => {
                            proof {
                                assert(after@ == before@.update(i as int, after[i as int]));
                                assert(element_views(after@) =~= element_views(before@));
                                assert forall|k: int| 0 <= k < after.len() implies (
                                #[trigger] after[k]).wf() by {
                                    if k != i {
                                        assert(after[k] == before[k]);
                                    }
                                }
                            }
                            Err(e)
                        },
                    }
                } else {
                    Err(ConfigError::NoSuchKey)
                },
                None => Err(ConfigError::NoSuchKey),
            }
        },
        _ => Err(ConfigError::NoSuchKey),
    }
}

/// The place that a dotted path leads to, as a slot that can be read and
/// written.
pub fn find_key<'a>(root: &'a mut ConfigValue, path: &str, create: bool) -> (r: Result<
    &'a mut ConfigValue,
    ConfigError,
>)
    requires
        old(root).wf(),
    ensures
        r matches Ok(slot) ==> resolve(old(root)@, segments(path@), create) == Some(slot@),
        r matches Ok(slot) ==> slot.wf(),
        r matches Ok(slot) ==> (final(slot).wf() ==> final(root).wf()),
        r matches Ok(slot) ==> final(root)@ == placed(old(root)@, segments(path@), final(slot)@),
        r matches Err(e) ==> e == ConfigError::NoSuchKey,
        r matches Err(e) ==> resolve(old(root)@, segments(path@), create) is None,
        r matches Err(e) ==> final(root)@ == old(root)@,
        r matches Err(e) ==> final(root).wf(),
{
    let segs = split(path, '.');
    assert(views(segs@).skip(0) =~= views(segs@));
    slot_at(root, &segs, 0, create)
}

/// The child of `node` that `seg` names.
pub fn child_of<'a>(node: &'a ConfigValue, seg: &String) -> (r: Option<&'a ConfigValue>)
    requires
        node.wf(),
    ensures
        match r {
            Some(c) => child(node@, seg@) == Some(c@) && c.wf(),
            None => child(node@, seg@) is None,
        },
{
    match node {
        ConfigValue::Table(entries) => {
            proof {
                ConfigValue::lemma_table_view(*entries);
                lemma_table_of_dom(entry_views(entries@), seg@);
            }
            match find_entry(entries, seg) {
                Some(i) => {
                    proof {
                        lemma_table_of_lookup(entry_views(entries@), i as int);
                    }
                    Some(&entries[i].1)
                },
                None => None,
            }
        },
        ConfigValue::Array(items) => {
            proof {
                ConfigValue::lemma_array_view(*items);
            }
            match parse_index(seg.as_str()) {
                Some(i) => if i < items.len() {
                    Some(&items[i])
                } else {
                    None
                },
                None => None,
            }
        },
        _ => None,
    }
}

/// The value that the segments lead to, for reading.
pub fn find<'a>(root: &'a ConfigValue, segs: &Vec<String>) -> (r: Result<&'a ConfigValue, ConfigError>)
    requires
        root.wf(),
    ensures
        match r {
            Ok(v) => resolve(root@, views(segs@), false) == Some(v@) && v.wf(),
            Err(e) => e == ConfigError::NoSuchKey && resolve(root@, views(segs@), false) is None,
        },
{
    let mut cur = root;
    let mut i: usize = 0;
    assert(views(segs@).skip(0) =~= views(segs@));
    while i < segs.len()
        invariant
            i <= segs.len(),
            cur.wf(),
            resolve(root@, views(segs@), false) == resolve(cur@, views(segs@).skip(i as int), false),
        decreases segs.len() - i,
    {
        proof {
            let rest = views(segs@).skip(i as int);
            assert(rest[0] == segs[i as int]@);
            assert(rest.drop_first() =~= views(segs@).skip(i + 1));
        }
        match child_of(cur, &segs[i]) {
            Some(c) => {
                cur = c;
            },
            None => {
                return Err(ConfigError::NoSuchKey);
            },
        }
        i = i + 1;
    }
    Ok(cur)
}

/// What stands in a place is found there, whatever was put in it.
pub proof fn lemma_set_then_get(v: ValueView, segs: Seq<Seq<char>>, x: ValueView, create: bool)
    requires
        resolve(v, segs, create) is Some,
    ensures
        resolve(placed(v, segs, x), segs, false) == Some(x),
    decreases segs.len(),
{
    if segs.len() > 0 {
        let seg = segs[0];
        let rest = segs.drop_first();
        match v {
            ValueView::Table(m) => {
                let c = if m.contains_key(seg) {
                    m[seg]
                } else {
                    empty_table()
                };
                lemma_set_then_get(c, rest, x, create);
            },
            ValueView::Array(a) => {
                let i = index_of_text(seg).unwrap();
                lemma_set_then_get(a[i as int], rest, x, create);
            },
            _ => {},
        }
    }
}

/// Putting back what stands in a place changes nothing.
pub proof fn lemma_placed_same(v: ValueView, segs: Seq<Seq<char>>)
    requires
        resolve(v, segs, false) is Some,
    ensures
        placed(v, segs, resolve(v, segs, false).unwrap()) == v,
    decreases segs.len(),
{
    if segs.len() > 0 {
        let seg = segs[0];
        let rest = segs.drop_first();
        match v {
            ValueView::Table(m) => {
                lemma_placed_same(m[seg], rest);
                assert(m.insert(seg, m[seg]) =~= m);
            },
            ValueView::Array(a) => {
                let i = index_of_text(seg).unwrap();
                lemma_placed_same(a[i as int], rest);
                assert(a.update(i as int, a[i as int]) =~= a);
            },
            _ => {},
        }
    }
}

/// Following a path is following all but its last segment, and then the last.
pub proof fn lemma_resolve_last(v: ValueView, segs: Seq<Seq<char>>)
    requires
        segs.len() > 0,
    ensures
        resolve(v, segs, false) == match resolve(v, segs.drop_last(), false) {
            Some(parent) => child(parent, segs.last()),
            None => None,
        },
    decreases segs.len(),
{
    let seg = segs[0];
    let rest = segs.drop_first();
    if segs.len() == 1 {
        assert(rest.len() == 0);
        assert(segs.drop_last().len() == 0);
        match child(v, seg) {
            Some(c) => {
                assert(resolve(c, rest, false) == Some(c));
            },
            None => {},
        }
    } else {
        assert(segs.drop_last().drop_first() =~= rest.drop_last());
        assert(segs.drop_last()[0] == seg);
        assert(rest.last() == segs.last());
        match child(v, seg) {
            Some(c) => {
                lemma_resolve_last(c, rest);
            },
            None => {},
        }
    }
}

/// What was set at a path is found there.
pub proof fn lemma_assign_then_resolve(v: ValueView, segs: Seq<Seq<char>>, x: ValueView)
    requires
        assign(v, segs, x) is Some,
    ensures
        resolve(assign(v, segs, x).unwrap(), segs, false) == Some(x),
{
    lemma_set_then_get(v, segs, x, true);
}

/// After a key was unset, its path leads to nothing.
pub proof fn lemma_erase_then_resolve(v: ValueView, segs: Seq<Seq<char>>)
    requires
        erase(v, segs) is Some,
    ensures
        resolve(erase(v, segs).unwrap(), segs, false) is None,
{
    let parent = resolve(v, segs.drop_last(), false).unwrap();
    let cut = ValueView::Table(parent->Table_0.remove(segs.last()));
    lemma_set_then_get(v, segs.drop_last(), cut, false);
    lemma_resolve_last(erase(v, segs).unwrap(), segs);
}

/// Every path can be set in an empty table.
pub proof fn lemma_assign_creates(segs: Seq<Seq<char>>, x: ValueView)
    ensures
        assign(empty_table(), segs, x) is Some,
{
    lemma_resolve_creates(segs);
}

} // verus!
