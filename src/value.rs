use vstd::prelude::*;

verus! {

/// The tree that a query string parses into.
///
/// An `Object` keeps its entries in the order in which their keys first
/// arrived; a well-formed object holds each key once.
#[derive(Debug, PartialEq)]
pub enum Value {
    Null,
    String(String),
    Array(Vec<Value>),
    Object(Vec<(String, Value)>),
}

/// The mathematical model of a [`Value`].
pub enum Json {
    Null,
    Str(Seq<char>),
    Arr(Seq<Json>),
    Obj(Seq<(Seq<char>, Json)>),
}

/// The value that a single key/value pair contributes, shaped by its key path.
///
/// `Named` stands for a key segment, `Append` for an empty `[]` segment and
/// `Indexed` for a numeric segment, whose container is decided only when the
/// skeleton meets the tree it is merged into.
#[derive(Debug)]
pub enum Skeleton {
    Leaf(Option<String>),
    Named(String, Box<Skeleton>),
    Append(Box<Skeleton>),
    Indexed(usize, Box<Skeleton>),
}

/// The mathematical model of a [`Skeleton`]; a `None` leaf is a null value.
pub enum Skel {
    Leaf(Option<Seq<char>>),
    Named(Seq<char>, Box<Skel>),
    Append(Box<Skel>),
    Indexed(nat, Box<Skel>),
}

/// Models a list of values.
pub open spec fn items_model(items: Seq<Value>) -> Seq<Json> {
    Seq::new(items.len(), |i: int| items[i]@)
}

/// Models the entries of an object.
pub open spec fn entries_model(entries: Seq<(String, Value)>) -> Seq<(Seq<char>, Json)> {
    Seq::new(entries.len(), |i: int| (entries[i].0@, entries[i].1@))
}

impl Value {
    pub open spec fn view(&self) -> Json
        decreases self,
    {
        match self {
            Value::Null => Json::Null,
            Value::String(s) => Json::Str(s@),
            Value::Array(items) => Json::Arr(
                Seq::new(
                    items.len() as nat,
                    |i: int|
                        if 0 <= i < items.len() {
                            items[i].view()
                        } else {
                            Json::Null
                        },
                ),
            ),
            Value::Object(entries) => Json::Obj(
                Seq::new(
                    entries.len() as nat,
                    |i: int|
                        if 0 <= i < entries.len() {
                            (entries[i].0@, entries[i].1.view())
                        } else {
                            (Seq::empty(), Json::Null)
                        },
                ),
            ),
        }
    }

    /// A deep copy of the tree.
    pub fn duplicate(&self) -> (r: Value)
        ensures
            r@ == self@,
        decreases self,
    {
        match self {
            Value::Null => Value::Null,
            Value::String(s) => Value::String(s.clone()),
            Value::Array(items) => {
                let mut out: Vec<Value> = Vec::new();
                let mut i: usize = 0;
                while i < items.len()
                    invariant
                        i <= items.len(),
                        *self == Value::Array(*items),
                        out@.len() == i,
                        forall|j: int| 0 <= j < i ==> #[trigger] out@[j]@ == items@[j]@,
                    decreases items.len() - i,
                {
                    proof {
                        vstd::std_specs::vec::axiom_vec_index_decreases(*items, i as int);
                        assert(decreases_to!(*self => self->Array_0));
                    }
                    out.push(items[i].duplicate());
                    i = i + 1;
                }
                let r = Value::Array(out);
                assert(r@ == self@) by {
                    if let Json::Arr(a) = r@ {
                        if let Json::Arr(b) = self@ {
                            assert forall|j: int| 0 <= j < a.len() implies a[j] == b[j] by {
                                assert(out@[j]@ == items@[j]@);
                            }
                            assert(a =~= b);
                        }
                    }
                }
                r
            },
            Value::Object(entries) => {
                let mut out: Vec<(String, Value)> = Vec::new();
                let mut i: usize = 0;
                while i < entries.len()
                    invariant
                        i <= entries.len(),
                        *self == Value::Object(*entries),
                        out@.len() == i,
                        forall|j: int|
                            0 <= j < i ==> #[trigger] out@[j].0@ == entries@[j].0@ && out@[j].1@
                                == entries@[j].1@,
                    decreases entries.len() - i,
                {
                    let k = entries[i].0.clone();
                    proof {
                        vstd::std_specs::vec::axiom_vec_index_decreases(*entries, i as int);
                        assert(decreases_to!(*self => self->Object_0));
                        assert(decreases_to!(entries@[i as int] => entries@[i as int].1));
                    }
                    let v = entries[i].1.duplicate();
                    out.push((k, v));
                    i = i + 1;
                }
                let r = Value::Object(out);
                assert(r@ == self@) by {
                    if let Json::Obj(a) = r@ {
                        if let Json::Obj(b) = self@ {
                            assert(a =~= b);
                        }
                    }
                }
                r
            },
        }
    }
}

impl Skeleton {
    pub open spec fn view(&self) -> Skel
        decreases self,
    {
        match self {
            Skeleton::Leaf(v) => Skel::Leaf(
                match v {
                    Some(s) => Some(s@),
                    None => None,
                },
            ),
            Skeleton::Named(k, t) => Skel::Named(k@, Box::new(t.view())),
            Skeleton::Append(t) => Skel::Append(Box::new(t.view())),
            Skeleton::Indexed(i, t) => Skel::Indexed(*i as nat, Box::new(t.view())),
        }
    }
}

} // verus!

verus! {

pub proof fn lemma_object_view(e: Vec<(String, Value)>)
    ensures
        Value::Object(e)@ == Json::Obj(entries_model(e@)),
{
    let v = Value::Object(e);
    if let Json::Obj(a) = v@ {
        assert(a =~= entries_model(e@));
    }
}

pub proof fn lemma_array_view(items: Vec<Value>)
    ensures
        Value::Array(items)@ == Json::Arr(items_model(items@)),
{
    let v = Value::Array(items);
    if let Json::Arr(a) = v@ {
        assert(a =~= items_model(items@));
    }
}

} // verus!
