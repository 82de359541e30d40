use vstd::prelude::*;

use crate::helpers::{
    create_array, find_key, from_list, key_pos, lemma_key_pos_bounds, next_index_key, next_index_of,
    obj_put, object_from_list, object_insert, push_item_to_array, Object,
};
use crate::text::{decimal, digit_char, index_key};
use crate::value::{
    entries_model, items_model, lemma_array_view, lemma_object_view, Json, Skel, Skeleton, Value,
};

verus! {

pub open spec fn leaf_json(v: Option<Seq<char>>) -> Json {
    match v {
        Some(s) => Json::Str(s),
        None => Json::Null,
    }
}

/// The value that a skeleton stands for where nothing was before it.
///
/// An index segment becomes a one-item array at index zero, and a one-entry
/// object under its index otherwise, as if merged into an empty array.
pub open spec fn built(s: Skel) -> Json
    decreases s,
{
    match s {
        Skel::Leaf(v) => leaf_json(v),
        Skel::Named(k, t) => Json::Obj(seq![(k, built(*t))]),
        Skel::Append(t) => Json::Arr(seq![built(*t)]),
        Skel::Indexed(i, t) => if i == 0 {
            Json::Arr(seq![built(*t)])
        } else {
            Json::Obj(seq![(decimal(i), built(*t))])
        },
    }
}

pub open spec fn is_container(j: Json) -> bool {
    j is Arr || j is Obj
}

pub open spec fn rank(j: Json) -> nat {
    match j {
        Json::Arr(_) => 2,
        _ => 1,
    }
}

/// The tree that results from merging skeleton `from` into tree `to`.
///
/// Into an object: a null leaf changes nothing, a string leaf replaces the
/// object, an append stores its item under the index after the largest
/// index key, and a name or an index (as a key) merges into the entry under
/// it, or adds one. An index entry that holds a scalar is overwritten.
///
/// Into an array: a null leaf changes nothing, a string leaf and an append
/// add an item at the end, and an index merges into the item there, or adds
/// the next item. An index past the end, or a name, turns the array into an
/// object keyed by the items' indices and merges into that.
///
/// Into a string or a null: the old value and the new one become a
/// two-item array.
pub open spec fn merged(to: Json, from: Skel) -> Json
    decreases from, rank(to),
{
    match to {
        Json::Obj(o) => match from {
            Skel::Leaf(None) => to,
            Skel::Leaf(Some(s)) => Json::Str(s),
            Skel::Append(t) => Json::Obj(obj_put(o, decimal(next_index_of(o)), built(*t))),
            Skel::Indexed(i, t) => {
                let k = decimal(i);
                match key_pos(o, k) {
                    Some(p) => if is_container(o[p].1) {
                        Json::Obj(o.update(p, (k, merged(o[p].1, *t))))
                    } else {
                        Json::Obj(o.update(p, (k, built(*t))))
                    },
                    None => Json::Obj(o.push((k, built(*t)))),
                }
            },
            Skel::Named(k, t) => match key_pos(o, k) {
                Some(p) => Json::Obj(o.update(p, (k, merged(o[p].1, *t)))),
                None => Json::Obj(o.push((k, built(*t)))),
            },
        },
        Json::Arr(a) => match from {
            Skel::Leaf(None) => to,
            Skel::Leaf(Some(s)) => Json::Arr(a.push(Json::Str(s))),
            Skel::Append(t) => Json::Arr(a.push(built(*t))),
            Skel::Indexed(i, t) => if i < a.len() {
                Json::Arr(a.update(i as int, merged(a[i as int], *t)))
            } else if i == a.len() {
                Json::Arr(a.push(built(*t)))
            } else {
                merged(Json::Obj(from_list(a)), from)
            },
            Skel::Named(_, _) => merged(Json::Obj(from_list(a)), from),
        },
        _ => Json::Arr(seq![to, built(from)]),
    }
}

/// Whether merging `from` into `to` changes the variant of `to`.
pub open spec fn changes_kind(to: Json, from: Skel) -> bool {
    match to {
        Json::Obj(_) => from matches Skel::Leaf(Some(_)),
        Json::Arr(a) => match from {
            Skel::Named(_, _) => true,
            Skel::Indexed(i, _) => i > a.len(),
            _ => false,
        },
        _ => true,
    }
}

pub open spec fn same_variant(a: Json, b: Json) -> bool {
    (a is Null && b is Null) || (a is Str && b is Str) || (a is Arr && b is Arr) || (a is Obj
        && b is Obj)
}

/// A merge changes the variant of the tree exactly where `changes_kind` says so.
pub proof fn lemma_changes_kind(to: Json, from: Skel)
    ensures
        changes_kind(to, from) <==> !same_variant(merged(to, from), to),
{
    match to {
        Json::Arr(a) => match from {
            Skel::Named(_, _) => {
                assert(merged(Json::Obj(from_list(a)), from) is Obj);
            },
            Skel::Indexed(i, t) => {
                if i > a.len() {
                    let o = from_list(a);
                    let k = decimal(i);
                    assert(merged(Json::Obj(o), from) is Obj);
                }
            },
            _ => {},
        },
        _ => {},
    }
}

/// Materializes a skeleton where nothing was before it.
pub fn build(from: &Skeleton) -> (r: Value)
    ensures
        r@ == built(from@),
    decreases from,
{
    match from {
        Skeleton::Leaf(Some(s)) => Value::String(s.clone()),
        Skeleton::Leaf(None) => Value::Null,
        Skeleton::Named(k, t) => {
            let v = build(t);
            let entries: Object = vec![(k.clone(), v)];
            proof {
                lemma_object_view(entries);
                assert(entries_model(entries@) =~= seq![(k@, built(t@))]);
            }
            Value::Object(entries)
        },
        Skeleton::Append(t) => {
            let mut list = create_array();
            let v = build(t);
            push_item_to_array(&mut list, v);
            proof {
                lemma_array_view(list->Array_0);
                assert(items_model(list->Array_0@) =~= seq![built(t@)]);
            }
            list
        },
        Skeleton::Indexed(i, t) => {
            let v = build(t);
            if *i == 0 {
                let mut list = create_array();
                push_item_to_array(&mut list, v);
                proof {
                    lemma_array_view(list->Array_0);
                    assert(items_model(list->Array_0@) =~= seq![built(t@)]);
                }
                list
            } else {
                let entries: Object = vec![(index_key(*i as u128), v)];
                proof {
                    lemma_object_view(entries);
                    assert(entries_model(entries@) =~= seq![(decimal(*i as nat), built(t@))]);
                }
                Value::Object(entries)
            }
        },
    }
}

/// Takes the value out of entry `p` of `tree`, leaving a null value there.
fn take_entry(tree: &mut Object, p: usize) -> (r: (String, Value))
    requires
        p < old(tree)@.len(),
    ensures
        r == old(tree)@[p as int],
        final(tree)@ == old(tree)@.update(p as int, final(tree)@[p as int]),
{
    let mut slot = (String::new(), Value::Null);
    tree.set_and_swap(p, &mut slot);
    slot
}


/// Stores the item of an append skeleton under the next free index key.
fn merge_object_and_array(tree: &mut Object, from: &Skeleton)
    requires
        *from is Append,
    ensures
        Json::Obj(entries_model(final(tree)@)) == merged(
            Json::Obj(entries_model(old(tree)@)),
            from@,
        ),
{
    let t = match from {
        Skeleton::Append(t) => t,
        _ => {
            proof {
                assert(false);
            }
            return ;
        },
    };
    let key = next_index_key(tree);
    let item = build(t);
    object_insert(tree, key, item);
}

/// Places the item of an index skeleton under the index as a key.
fn merge_object_and_merger(tree: &mut Object, from: &Skeleton)
    requires
        *from is Indexed,
    ensures
        Json::Obj(entries_model(final(tree)@)) == merged(
            Json::Obj(entries_model(old(tree)@)),
            from@,
        ),
    decreases from, 0nat,
{
    let (idx, t) = match from {
        Skeleton::Indexed(i, t) => (*i, t),
        _ => {
            proof {
                assert(false);
            }
            return ;
        },
    };
    let key = index_key(idx as u128);
    let ghost o = entries_model(tree@);
    proof {
        lemma_key_pos_bounds(o, key@);
    }
    match find_key(tree, &key) {
        Some(p) => {
            let container = match &tree[p].1 {
                Value::Array(_) => true,
                Value::Object(_) => true,
                _ => false,
            };
            if container {
                let (k, child) = take_entry(tree, p);
                let v = merged_value(child, t);
                tree.set(p, (k, v));
                assert(entries_model(tree@) =~= o.update(p as int, (key@, merged(o[p as int].1, t@))));
            } else {
                let v = build(t);
                tree.set(p, (key, v));
                assert(entries_model(tree@) =~= o.update(p as int, (decimal(idx as nat), built(t@))));
            }
        },
        None => {
            let v = build(t);
            tree.push((key, v));
            assert(entries_model(tree@) =~= o.push((decimal(idx as nat), built(t@))));
        },
    }
}

/// Merges a named skeleton into the entry under its name, or adds the entry.
fn merge_object_and_object(tree: &mut Object, from: &Skeleton)
    requires
        *from is Named,
    ensures
        Json::Obj(entries_model(final(tree)@)) == merged(
            Json::Obj(entries_model(old(tree)@)),
            from@,
        ),
    decreases from, 0nat,
{
    let (key, t) = match from {
        Skeleton::Named(k, t) => (k, t),
        _ => {
            proof {
                assert(false);
            }
            return ;
        },
    };
    let ghost o = entries_model(tree@);
    proof {
        lemma_key_pos_bounds(o, key@);
    }
    match find_key(tree, key) {
        Some(p) => {
            let (k, child) = take_entry(tree, p);
            let v = merged_value(child, t);
            tree.set(p, (k, v));
            assert(entries_model(tree@) =~= o.update(p as int, (key@, merged(o[p as int].1, t@))));
        },
        None => {
            let v = build(t);
            tree.push((key.clone(), v));
            assert(entries_model(tree@) =~= o.push((key@, built(t@))));
        },
    }
}

/// Appends the item of an append skeleton.
fn merge_list_and_list(items: &mut Vec<Value>, from: &Skeleton)
    requires
        *from is Append,
    ensures
        Json::Arr(items_model(final(items)@)) == merged(Json::Arr(items_model(old(items)@)), from@),
{
    let t = match from {
        Skeleton::Append(t) => t,
        _ => {
            proof {
                assert(false);
            }
            return ;
        },
    };
    let v = build(t);
    items.push(v);
    assert(items_model(items@) =~= items_model(old(items)@).push(built(t@)));
}

/// Appends the string of a leaf skeleton.
fn merge_list_and_string(items: &mut Vec<Value>, from: &Skeleton)
    requires
        *from matches Skeleton::Leaf(Some(_)),
    ensures
        Json::Arr(items_model(final(items)@)) == merged(Json::Arr(items_model(old(items)@)), from@),
{
    let v = build(from);
    items.push(v);
    assert(items_model(items@) =~= items_model(old(items)@).push(built(from@)));
}

/// Merges an index skeleton into an array: into the item at the index, as a
/// new last item, or, past the end, into the array turned into an object.
fn merge_list_and_merger(items: Vec<Value>, from: &Skeleton) -> (r: Value)
    requires
        *from is Indexed,
    ensures
        r@ == merged(Json::Arr(items_model(items@)), from@),
    decreases from, 1nat,
{
    let (idx, t) = match from {
        Skeleton::Indexed(i, t) => (*i, t),
        _ => {
            proof {
                assert(false);
            }
            return Value::Null;
        },
    };
    let ghost a = items_model(items@);
    let mut items = items;
    if idx < items.len() {
        let mut slot = Value::Null;
        items.set_and_swap(idx, &mut slot);
        let v = merged_value(slot, t);
        items.set(idx, v);
        assert(items_model(items@) =~= a.update(idx as int, merged(a[idx as int], t@)));
        proof {
            lemma_array_view(items);
        }
        Value::Array(items)
    } else if idx == items.len() {
        let v = build(t);
        items.push(v);
        assert(items_model(items@) =~= a.push(built(t@)));
        proof {
            lemma_array_view(items);
        }
        Value::Array(items)
    } else {
        let list = Value::Array(items);
        let promoted = object_from_list(&list);
        match promoted {
            Value::Object(mut tree) => {
                proof {
                    lemma_object_view(tree);
                }
                merge_object_and_merger(&mut tree, from);
                proof {
                    lemma_object_view(tree);
                }
                Value::Object(tree)
            },
            _ => {
                proof {
                    assert(false);
                }
                Value::Null
            },
        }
    }
}

/// Merges a named skeleton into an array, which becomes an object first.
fn merge_list_and_object(items: Vec<Value>, from: &Skeleton) -> (r: Value)
    requires
        *from is Named,
    ensures
        r@ == merged(Json::Arr(items_model(items@)), from@),
    decreases from, 1nat,
{
    let list = Value::Array(items);
    let promoted = object_from_list(&list);
    match promoted {
        Value::Object(mut tree) => {
            proof {
                lemma_object_view(tree);
            }
            merge_object_and_object(&mut tree, from);
            proof {
                lemma_object_view(tree);
            }
            Value::Object(tree)
        },
        _ => {
            proof {
                assert(false);
            }
            Value::Null
        },
    }
}

/// Puts a scalar and what a skeleton stands for side by side in a new array.
fn merge_string_and_json(to: Value, from: &Skeleton) -> (r: Value)
    requires
        !(to is Array || to is Object),
    ensures
        r@ == Json::Arr(seq![to@, built(from@)]),
{
    let ghost first = to@;
    let mut list = create_array();
    proof {
        lemma_array_view(list->Array_0);
    }
    push_item_to_array(&mut list, to);
    push_item_to_array(&mut list, build(from));
    proof {
        lemma_array_view(list->Array_0);
        assert(items_model(list->Array_0@) =~= seq![first, built(from@)]);
    }
    list
}

/// The tree that results from merging `from` into `to`.
fn merged_value(to: Value, from: &Skeleton) -> (r: Value)
    ensures
        r@ == merged(to@, from@),
    decreases from, rank(to@),
{
    match to {
        Value::Object(mut tree) => {
            proof {
                lemma_object_view(tree);
            }
            match from {
                Skeleton::Leaf(None) => Value::Object(tree),
                Skeleton::Leaf(Some(s)) => Value::String(s.clone()),
                Skeleton::Append(_) => {
                    merge_object_and_array(&mut tree, from);
                    proof {
                        lemma_object_view(tree);
                    }
                    Value::Object(tree)
                },
                Skeleton::Indexed(_, _) => {
                    merge_object_and_merger(&mut tree, from);
                    proof {
                        lemma_object_view(tree);
                    }
                    Value::Object(tree)
                },
                Skeleton::Named(_, _) => {
                    merge_object_and_object(&mut tree, from);
                    proof {
                        lemma_object_view(tree);
                    }
                    Value::Object(tree)
                },
            }
        },
        Value::Array(mut items) => {
            proof {
                lemma_array_view(items);
            }
            match from {
                Skeleton::Leaf(None) => Value::Array(items),
                Skeleton::Leaf(Some(_)) => {
                    merge_list_and_string(&mut items, from);
                    proof {
                        lemma_array_view(items);
                    }
                    Value::Array(items)
                },
                Skeleton::Append(_) => {
                    merge_list_and_list(&mut items, from);
                    proof {
                        lemma_array_view(items);
                    }
                    Value::Array(items)
                },
                Skeleton::Indexed(_, _) => merge_list_and_merger(items, from),
                Skeleton::Named(_, _) => merge_list_and_object(items, from),
            }
        },
        _ => merge_string_and_json(to, from),
    }
}

/// Whether merging `from` into `to` changes the variant of `to`.
fn replaces(to: &Value, from: &Skeleton) -> (r: bool)
    ensures
        r == changes_kind(to@, from@),
{
    match to {
        Value::Object(_) => match from {
            Skeleton::Leaf(Some(_)) => true,
            _ => false,
        },
        Value::Array(items) => {
            proof {
                lemma_array_view(*items);
            }
            match from {
                Skeleton::Named(_, _) => true,
                Skeleton::Indexed(i, _) => *i > items.len(),
                _ => false,
            }
        },
        _ => true,
    }
}

/// Merges skeleton `from` into the tree `to`.
///
/// Where the merge keeps the variant of `to`, `to` is updated in place and
/// the result is `None`. Where the variant must change (an object overwritten
/// by a string, an array turned into an object, a scalar turned into an
/// array), `to` is left as it was and the result holds its replacement.
pub fn merge(to: &mut Value, from: &Skeleton) -> (r: Option<Value>)
    ensures
        match r {
            Some(v) => v@ == merged(old(to)@, from@) && *final(to) == *old(to),
            None => final(to)@ == merged(old(to)@, from@),
        },
        r is Some <==> !same_variant(merged(old(to)@, from@), old(to)@),
        well_formed(old(to)@) ==> well_formed(merged(old(to)@, from@)),
{
    proof {
        lemma_changes_kind(to@, from@);
        if well_formed(to@) {
            lemma_merged_wf(to@, from@);
        }
    }
    if replaces(to, from) {
        Some(merged_value(to.duplicate(), from))
    } else {
        let mut cur = Value::Null;
        std::mem::swap(to, &mut cur);
        *to = merged_value(cur, from);
        None
    }
}


/// No two entries of `o` share a key.
pub open spec fn keys_unique(o: Seq<(Seq<char>, Json)>) -> bool {
    forall|i: int, j: int| 0 <= i < j < o.len() ==> o[i].0 != o[j].0
}

/// Every object in the tree holds each key once.
pub open spec fn well_formed(j: Json) -> bool
    decreases j,
{
    match j {
        Json::Arr(a) => forall|i: int| 0 <= i < a.len() ==> well_formed(#[trigger] a[i]),
        Json::Obj(o) => keys_unique(o) && forall|i: int|
            0 <= i < o.len() ==> well_formed(#[trigger] o[i].1),
        _ => true,
    }
}

proof fn lemma_decimal_nonempty(n: nat)
    ensures
        decimal(n).len() >= 1,
    decreases n,
{
    if n >= 10 {
        lemma_decimal_nonempty(n / 10);
    }
}

proof fn lemma_decimal_injective(a: nat, b: nat)
    requires
        decimal(a) == decimal(b),
    ensures
        a == b,
    decreases a,
{
    lemma_decimal_nonempty(a / 10);
    lemma_decimal_nonempty(b / 10);
    if a < 10 && b < 10 {
        assert(decimal(a) == seq![digit_char(a)]);
        assert(decimal(b) == seq![digit_char(b)]);
        assert(decimal(a)[0] == decimal(b)[0]);
        assert(((a + '0' as u32) as char) as u32 == a + '0' as u32);
        assert(((b + '0' as u32) as char) as u32 == b + '0' as u32);
        assert(seq![digit_char(a)][0] == digit_char(a));
        assert(seq![digit_char(b)][0] == digit_char(b));
        assert(digit_char(a) == digit_char(b));
        assert(a == b);
    } else if a >= 10 && b >= 10 {
        assert(decimal(a).drop_last() =~= decimal(a / 10));
        assert(decimal(b).drop_last() =~= decimal(b / 10));
        assert(decimal(a).last() == decimal(b).last());
        assert(decimal(a).last() == digit_char(a % 10));
        assert(decimal(b).last() == digit_char(b % 10));
        assert((((a % 10) + '0' as u32) as char) as u32 == (a % 10) + '0' as u32);
        assert((((b % 10) + '0' as u32) as char) as u32 == (b % 10) + '0' as u32);
        assert(digit_char(a % 10) == digit_char(b % 10));
        assert(a % 10 == b % 10);
        lemma_decimal_injective(a / 10, b / 10);
        assert(a == b);
    } else {
        assert(decimal(a).len() != decimal(b).len());
    }
}

proof fn lemma_built_wf(s: Skel)
    ensures
        well_formed(built(s)),
    decreases s,
{
    match s {
        Skel::Leaf(_) => {},
        Skel::Named(_, t) => lemma_built_wf(*t),
        Skel::Append(t) => lemma_built_wf(*t),
        Skel::Indexed(_, t) => lemma_built_wf(*t),
    }
}

proof fn lemma_obj_put_wf(o: Seq<(Seq<char>, Json)>, k: Seq<char>, v: Json)
    requires
        well_formed(Json::Obj(o)),
        well_formed(v),
    ensures
        well_formed(Json::Obj(obj_put(o, k, v))),
{
    lemma_key_pos_bounds(o, k);
    let r = obj_put(o, k, v);
    assert forall|i: int| 0 <= i < r.len() implies well_formed(#[trigger] r[i].1) by {
        if i < o.len() && r[i] != (k, v) {
            assert(r[i] == o[i]);
        }
    }
}

proof fn lemma_from_list_wf(a: Seq<Json>)
    requires
        well_formed(Json::Arr(a)),
    ensures
        well_formed(Json::Obj(from_list(a))),
{
    let o = from_list(a);
    assert forall|i: int, j: int| 0 <= i < j < o.len() implies o[i].0 != o[j].0 by {
        if o[i].0 == o[j].0 {
            lemma_decimal_injective(i as nat, j as nat);
        }
    }
    assert forall|i: int| 0 <= i < o.len() implies well_formed(#[trigger] o[i].1) by {
        assert(o[i].1 == a[i]);
        assert(0 <= i < a.len());
        let w = Json::Arr(a);
        assert(well_formed(w));
        assert(w->Arr_0[i] == a[i]);
        assert(well_formed(a[i]));
    }
}

/// Merging keeps every object's keys unique.
pub proof fn lemma_merged_wf(to: Json, from: Skel)
    requires
        well_formed(to),
    ensures
        well_formed(merged(to, from)),
    decreases from, rank(to),
{
    match to {
        Json::Obj(o) => match from {
            Skel::Leaf(_) => {},
            Skel::Append(t) => {
                lemma_built_wf(*t);
                lemma_obj_put_wf(o, decimal(next_index_of(o)), built(*t));
            },
            Skel::Indexed(i, t) => {
                let k = decimal(i);
                lemma_key_pos_bounds(o, k);
                lemma_built_wf(*t);
                match key_pos(o, k) {
                    Some(p) => {
                        let nv = if is_container(o[p].1) {
                            lemma_merged_wf(o[p].1, *t);
                            merged(o[p].1, *t)
                        } else {
                            built(*t)
                        };
                        let r = o.update(p, (k, nv));
                        assert forall|x: int| 0 <= x < r.len() implies well_formed(
                            #[trigger] r[x].1,
                        ) by {
                            if x != p {
                                assert(r[x] == o[x]);
                            }
                        }
                    },
                    None => {
                        lemma_obj_put_wf(o, k, built(*t));
                    },
                }
            },
            Skel::Named(k, t) => {
                lemma_key_pos_bounds(o, k);
                lemma_built_wf(*t);
                match key_pos(o, k) {
                    Some(p) => {
                        lemma_merged_wf(o[p].1, *t);
                        let r = o.update(p, (k, merged(o[p].1, *t)));
                        assert forall|x: int| 0 <= x < r.len() implies well_formed(
                            #[trigger] r[x].1,
                        ) by {
                            if x != p {
                                assert(r[x] == o[x]);
                            }
                        }
                    },
                    None => {
                        lemma_obj_put_wf(o, k, built(*t));
                    },
                }
            },
        },
        Json::Arr(a) => match from {
            Skel::Leaf(_) => {
                let r = a.push(built(from));
                lemma_built_wf(from);
                assert forall|x: int| 0 <= x < r.len() implies well_formed(#[trigger] r[x]) by {
                    if x < a.len() {
                        assert(r[x] == a[x]);
                    }
                }
            },
            Skel::Append(t) => {
                let r = a.push(built(*t));
                lemma_built_wf(*t);
                assert forall|x: int| 0 <= x < r.len() implies well_formed(#[trigger] r[x]) by {
                    if x < a.len() {
                        assert(r[x] == a[x]);
                    }
                }
            },
            Skel::Indexed(i, t) => {
                if i < a.len() {
                    lemma_merged_wf(a[i as int], *t);
                    let r = a.update(i as int, merged(a[i as int], *t));
                    assert forall|x: int| 0 <= x < r.len() implies well_formed(#[trigger] r[x]) by {
                        if x != i {
                            assert(r[x] == a[x]);
                        }
                    }
                } else if i == a.len() {
                    let r = a.push(built(*t));
                    lemma_built_wf(*t);
                    assert forall|x: int| 0 <= x < r.len() implies well_formed(#[trigger] r[x]) by {
                        if x < a.len() {
                            assert(r[x] == a[x]);
                        }
                    }
                } else {
                    lemma_from_list_wf(a);
                    lemma_merged_wf(Json::Obj(from_list(a)), from);
                }
            },
            Skel::Named(_, _) => {
                lemma_from_list_wf(a);
                lemma_merged_wf(Json::Obj(from_list(a)), from);
            },
        },
        _ => {
            lemma_built_wf(from);
        },
    }
}

} // verus!
