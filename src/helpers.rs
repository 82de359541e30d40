use vstd::prelude::*;

use crate::text::{decimal, index_key, index_value, parse_index};
use crate::value::{entries_model, items_model, Json, Value};

verus! {

/// The entries of an object, in the order in which their keys arrived.
pub type Object = Vec<(String, Value)>;

/// The position of the first entry of `o` under key `k`.
pub open spec fn key_pos(o: Seq<(Seq<char>, Json)>, k: Seq<char>) -> Option<int>
    decreases o.len(),
{
    if o.len() == 0 {
        None
    } else {
        match key_pos(o.drop_last(), k) {
            Some(p) => Some(p),
            None => if o.last().0 == k {
                Some(o.len() - 1)
            } else {
                None
            },
        }
    }
}

/// `o` with `v` stored under `k`: in place of the first entry under `k`, or
/// as a new last entry.
pub open spec fn obj_put(o: Seq<(Seq<char>, Json)>, k: Seq<char>, v: Json) -> Seq<(Seq<char>, Json)> {
    match key_pos(o, k) {
        Some(p) => o.update(p, (k, v)),
        None => o.push((k, v)),
    }
}

/// The entries of the object that holds the items of `a` under their indices.
pub open spec fn from_list(a: Seq<Json>) -> Seq<(Seq<char>, Json)> {
    Seq::new(a.len(), |i: int| (decimal(i as nat), a[i]))
}

/// The largest index among the keys of `o` that read as indices.
pub open spec fn max_index(o: Seq<(Seq<char>, Json)>) -> Option<nat>
    decreases o.len(),
{
    if o.len() == 0 {
        None
    } else {
        let rest = max_index(o.drop_last());
        match index_value(o.last().0) {
            Some(n) => match rest {
                Some(m) => if n >= m {
                    Some(n)
                } else {
                    Some(m)
                },
                None => Some(n),
            },
            None => rest,
        }
    }
}

/// The index after the largest index key of `o`, or zero where there is none.
pub open spec fn next_index_of(o: Seq<(Seq<char>, Json)>) -> nat {
    match max_index(o) {
        Some(m) => m + 1,
        None => 0,
    }
}

pub proof fn lemma_key_pos_prefix(o: Seq<(Seq<char>, Json)>, k: Seq<char>, j: int)
    requires
        0 <= j <= o.len(),
        key_pos(o.take(j), k) is Some,
    ensures
        key_pos(o, k) == key_pos(o.take(j), k),
    decreases o.len(),
{
    if j < o.len() {
        assert(o.drop_last().take(j) =~= o.take(j));
        lemma_key_pos_prefix(o.drop_last(), k, j);
    } else {
        assert(o.take(j) =~= o);
    }
}

pub proof fn lemma_key_pos_bounds(o: Seq<(Seq<char>, Json)>, k: Seq<char>)
    ensures
        match key_pos(o, k) {
            Some(p) => 0 <= p < o.len() && o[p].0 == k,
            None => forall|i: int| 0 <= i < o.len() ==> #[trigger] o[i].0 != k,
        },
    decreases o.len(),
{
    if o.len() > 0 {
        lemma_key_pos_bounds(o.drop_last(), k);
        assert forall|i: int| 0 <= i < o.len() - 1 implies #[trigger] o[i] == o.drop_last()[i] by {}
    }
}

/// The position of the entry under `key`, if there is one.
pub fn find_key(obj: &Object, key: &String) -> (r: Option<usize>)
    ensures
        match r {
            Some(p) => key_pos(entries_model(obj@), key@) == Some(p as int),
            None => key_pos(entries_model(obj@), key@) is None,
        },
{
    let ghost m = entries_model(obj@);
    let mut i: usize = 0;
    while i < obj.len()
        invariant
            i <= obj.len(),
            m == entries_model(obj@),
            key_pos(m.take(i as int), key@) is None,
        decreases obj.len() - i,
    {
        assert(m.take(i + 1).drop_last() =~= m.take(i as int));
        if obj[i].0 == *key {
            proof {
                lemma_key_pos_prefix(m, key@, i + 1);
            }
            return Some(i);
        }
        i = i + 1;
    }
    assert(m.take(i as int) =~= m);
    None
}

/// Stores `value` under `key`, in place of an entry under the same key.
pub fn object_insert(obj: &mut Object, key: String, value: Value)
    ensures
        entries_model(final(obj)@) == obj_put(entries_model(old(obj)@), key@, value@),
{
    let ghost m = entries_model(obj@);
    proof {
        lemma_key_pos_bounds(m, key@);
    }
    match find_key(obj, &key) {
        Some(p) => {
            obj.set(p, (key, value));
            assert(entries_model(obj@) =~= obj_put(m, key@, value@));
        },
        None => {
            obj.push((key, value));
            assert(entries_model(obj@) =~= obj_put(m, key@, value@));
        },
    }
}

/// The largest index among the keys of `obj` that read as indices.
pub fn index(obj: &Object) -> (r: Option<usize>)
    ensures
        match r {
            Some(n) => max_index(entries_model(obj@)) == Some(n as nat),
            None => max_index(entries_model(obj@)) is None,
        },
{
    let ghost m = entries_model(obj@);
    let mut best: Option<usize> = None;
    let mut i: usize = 0;
    while i < obj.len()
        invariant
            i <= obj.len(),
            m == entries_model(obj@),
            match best {
                Some(n) => max_index(m.take(i as int)) == Some(n as nat),
                None => max_index(m.take(i as int)) is None,
            },
        decreases obj.len() - i,
    {
        assert(m.take(i + 1).drop_last() =~= m.take(i as int));
        assert(m.take(i + 1).last() == m[i as int]);
        match parse_index(obj[i].0.as_str()) {
            Some(n) => {
                match best {
                    Some(b) => {
                        if n >= b {
                            best = Some(n);
                        }
                    },
                    None => {
                        best = Some(n);
                    },
                }
            },
            None => {},
        }
        i = i + 1;
    }
    assert(m.take(i as int) =~= m);
    best
}

/// The index after the largest index key of `obj`, or zero where there is none.
pub fn next_index(obj: &Object) -> (r: usize)
    requires
        max_index(entries_model(obj@)) != Some(usize::MAX as nat),
    ensures
        r == next_index_of(entries_model(obj@)),
{
    match index(obj) {
        Some(idx) => idx + 1,
        None => 0,
    }
}

/// The key under which an item appended to `obj` is stored.
pub fn next_index_key(obj: &Object) -> (r: String)
    ensures
        r@ == decimal(next_index_of(entries_model(obj@))),
{
    match index(obj) {
        Some(idx) => index_key(idx as u128 + 1),
        None => index_key(0),
    }
}

/// The object that holds the items of the array `obj` under their indices.
pub fn object_from_list(obj: &Value) -> (r: Value)
    requires
        obj is Array,
    ensures
        r@ == Json::Obj(from_list(items_model(obj->Array_0@))),
{
    let list = match obj {
        Value::Array(list) => list,
        _ => {
            assert(false);
            return Value::Null;
        },
    };
    let mut tree: Object = Vec::new();
    let mut idx: usize = 0;
    while idx < list.len()
        invariant
            idx <= list.len(),
            obj->Array_0 == *list,
            tree@.len() == idx,
            entries_model(tree@) =~= from_list(items_model(list@)).take(idx as int),
        decreases list.len() - idx,
    {
        let key = index_key(idx as u128);
        let item = list[idx].duplicate();
        let ghost key_v = key;
        let ghost item_v = item;
        let ghost before = tree@;
        tree.push((key, item));
        assert forall|j: int| 0 <= j <= idx implies #[trigger] entries_model(tree@)[j] == from_list(
            items_model(list@),
        )[j] by {
            if j < idx {
                assert(tree@[j] == before[j]);
                assert(entries_model(before)[j] == from_list(items_model(list@)).take(idx as int)[j]);
            } else {
                assert(tree@[j] == (key_v, item_v));
                assert(items_model(list@)[j] == list@[j]@);
            }
        }
        idx = idx + 1;
    }
    let r = Value::Object(tree);
    assert(entries_model(tree@) =~= from_list(items_model(list@)));
    assert(r@ == Json::Obj(entries_model(tree@))) by {
        if let Json::Obj(a) = r@ {
            assert(a =~= entries_model(tree@));
        }
    }
    r
}

/// An empty array.
pub fn create_array() -> (r: Value)
    ensures
        r@ == Json::Arr(Seq::empty()),
{
    let r = Value::Array(Vec::new());
    assert(r@ == Json::Arr(Seq::empty())) by {
        if let Json::Arr(a) = r@ {
            assert(a =~= Seq::empty());
        }
    }
    r
}

/// Appends `item` to the array `array`.
pub fn push_item_to_array(array: &mut Value, item: Value)
    requires
        *old(array) is Array,
    ensures
        *final(array) is Array,
        items_model(final(array)->Array_0@) == items_model(old(array)->Array_0@).push(item@),
{
    match array {
        Value::Array(vec) => {
            vec.push(item);
        },
        _ => {},
    }
    assert(items_model(array->Array_0@) =~= items_model(old(array)->Array_0@).push(item@));
}

} // verus!
