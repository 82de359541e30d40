use vstd::prelude::*;

use crate::helpers::{key_pos, lemma_key_pos_bounds};
use crate::merge::{built, merged, same_variant};
use crate::parser::{
    bracket_groups, fold_pairs, key_segments, leading_name, lemma_leading_name,
    pair_skel, pairs_of, parsed, percent_decoded, root_merge, scan_groups,
};
use crate::text::index_value;
use crate::value::{Json, Skel};

verus! {

pub open spec fn is_bracket(c: char) -> bool {
    c == '[' || c == ']'
}

/// A pair whose key has no bracket: it has a value, and its key is not empty
/// and does not read as an index once decoded.
pub open spec fn flat_pair(p: (Seq<char>, Option<Seq<char>>)) -> bool {
    &&& p.1 is Some
    &&& p.0.len() > 0
    &&& forall|i: int| 0 <= i < p.0.len() ==> !is_bracket(#[trigger] p.0[i])
    &&& index_value(percent_decoded(p.0)) is None
}

/// The decoded key and value of each pair whose key is not empty.
pub open spec fn decoded_pairs(ps: Seq<(Seq<char>, Option<Seq<char>>)>) -> Seq<
    (Seq<char>, Seq<char>),
>
    decreases ps.len(),
{
    if ps.len() == 0 {
        Seq::empty()
    } else {
        let r = decoded_pairs(ps.drop_last());
        let p = ps.last();
        if p.0.len() == 0 {
            r
        } else {
            r.push((percent_decoded(p.0), percent_decoded(p.1->Some_0)))
        }
    }
}

/// The values given under key `k`, in input order.
pub open spec fn values_for(ds: Seq<(Seq<char>, Seq<char>)>, k: Seq<char>) -> Seq<Seq<char>>
    decreases ds.len(),
{
    if ds.len() == 0 {
        Seq::empty()
    } else {
        let r = values_for(ds.drop_last(), k);
        if ds.last().0 == k {
            r.push(ds.last().1)
        } else {
            r
        }
    }
}

/// The keys of the pairs, each once, in the order of their first arrival.
pub open spec fn distinct_keys(ds: Seq<(Seq<char>, Seq<char>)>) -> Seq<Seq<char>>
    decreases ds.len(),
{
    if ds.len() == 0 {
        Seq::empty()
    } else {
        let d = distinct_keys(ds.drop_last());
        if d.contains(ds.last().0) {
            d
        } else {
            d.push(ds.last().0)
        }
    }
}

/// One value is a string; several are an array of strings.
pub open spec fn group_value(vs: Seq<Seq<char>>) -> Json {
    if vs.len() == 1 {
        Json::Str(vs[0])
    } else {
        Json::Arr(vs.map_values(|v: Seq<char>| Json::Str(v)))
    }
}

/// The object that maps each key to the values given under it.
pub open spec fn grouped(ds: Seq<(Seq<char>, Seq<char>)>) -> Json {
    Json::Obj(distinct_keys(ds).map_values(|k: Seq<char>| (k, group_value(values_for(ds, k)))))
}

proof fn lemma_distinct_keys(ds: Seq<(Seq<char>, Seq<char>)>)
    ensures
        forall|i: int, j: int|
            0 <= i < j < distinct_keys(ds).len() ==> distinct_keys(ds)[i] != distinct_keys(
                ds,
            )[j],
        forall|k: Seq<char>| #[trigger]
            distinct_keys(ds).contains(k) <==> values_for(ds, k).len() > 0,
    decreases ds.len(),
{
    if ds.len() > 0 {
        lemma_distinct_keys(ds.drop_last());
        let d = distinct_keys(ds.drop_last());
        if !d.contains(ds.last().0) {
            let e = d.push(ds.last().0);
            assert forall|k: Seq<char>| #[trigger] e.contains(k) <==> values_for(ds, k).len() > 0 by {
                if k == ds.last().0 {
                    assert(e[d.len() as int] == k);
                } else {
                    if e.contains(k) {
                        let i = choose|i: int| 0 <= i < e.len() && e[i] == k;
                        assert(d[i] == k);
                    }
                    if d.contains(k) {
                        let i = choose|i: int| 0 <= i < d.len() && d[i] == k;
                        assert(e[i] == k);
                    }
                }
            }
        } else {
            assert forall|k: Seq<char>| #[trigger] d.contains(k) <==> values_for(ds, k).len()
                > 0 by {
                if k == ds.last().0 {
                }
            }
        }
    }
}

proof fn lemma_scan_no_brackets(k: Seq<char>, n: nat)
    requires
        n <= k.len(),
        forall|i: int| 0 <= i < k.len() ==> !is_bracket(#[trigger] k[i]),
    ensures
        scan_groups(k, n) == (None::<int>, Seq::<Seq<char>>::empty()),
    decreases n,
{
    if n > 0 {
        lemma_scan_no_brackets(k, (n - 1) as nat);
        assert(!is_bracket(k[n - 1]));
    }
}

/// The skeleton of a flat pair is its decoded key naming its decoded value.
proof fn lemma_flat_pair_skel(p: (Seq<char>, Option<Seq<char>>))
    requires
        flat_pair(p),
    ensures
        pair_skel(p.0, p.1) == Skel::Named(
            percent_decoded(p.0),
            Box::new(Skel::Leaf(Some(percent_decoded(p.1->Some_0)))),
        ),
{
    let k = p.0;
    lemma_leading_name(k);
    assert(leading_name(k).len() == k.len());
    assert(leading_name(k) =~= k);
    lemma_scan_no_brackets(k, k.len());
    assert(bracket_groups(k) =~= Seq::<Seq<char>>::empty());
    let segs = key_segments(k);
    assert(segs =~= seq![percent_decoded(k)]);
    assert(segs.drop_first() =~= Seq::<Seq<char>>::empty());
}

/// Merging one more value under `dk` into the grouped object of `ds` gives
/// the grouped object of `ds` with that pair added.
proof fn lemma_group_step(ds: Seq<(Seq<char>, Seq<char>)>, dk: Seq<char>, dv: Seq<char>)
    ensures
        merged(grouped(ds), Skel::Named(dk, Box::new(Skel::Leaf(Some(dv))))) == grouped(
            ds.push((dk, dv)),
        ),
{
    let ds2 = ds.push((dk, dv));
    let d = distinct_keys(ds);
    let g = d.map_values(|k: Seq<char>| (k, group_value(values_for(ds, k))));
    let leaf = Skel::Leaf(Some(dv));
    lemma_distinct_keys(ds);
    lemma_key_pos_bounds(g, dk);
    assert(ds2.drop_last() =~= ds);
    assert forall|k: Seq<char>| k != dk implies #[trigger] values_for(ds2, k) == values_for(ds, k) by {}
    assert(values_for(ds2, dk) == values_for(ds, dk).push(dv));
    if d.contains(dk) {
        let p = choose|p: int| 0 <= p < d.len() && d[p] == dk;
        let q = key_pos(g, dk)->Some_0;
        assert(g[p].0 == dk);
        assert(q == p);
        let vs = values_for(ds, dk);
        let old_v = group_value(vs);
        let new_v = merged(old_v, leaf);
        assert(new_v == group_value(vs.push(dv))) by {
            if vs.len() == 1 {
                assert(vs.push(dv).map_values(|v: Seq<char>| Json::Str(v)) =~= seq![
                    Json::Str(vs[0]),
                    built(leaf),
                ]);
            } else {
                assert(vs.push(dv).map_values(|v: Seq<char>| Json::Str(v)) =~= vs.map_values(
                    |v: Seq<char>| Json::Str(v),
                ).push(Json::Str(dv)));
            }
        }
        assert(distinct_keys(ds2) == d);
        assert(g.update(p, (dk, new_v)) =~= distinct_keys(ds2).map_values(
            |k: Seq<char>| (k, group_value(values_for(ds2, k))),
        ));
    } else {
        assert(key_pos(g, dk) is None) by {
            if key_pos(g, dk) is Some {
                let q = key_pos(g, dk)->Some_0;
                assert(d[q] == dk);
            }
        }
        assert(values_for(ds, dk) =~= Seq::<Seq<char>>::empty());
        assert(values_for(ds2, dk) =~= seq![dv]);
        assert(distinct_keys(ds2) == d.push(dk));
        assert(g.push((dk, built(leaf))) =~= distinct_keys(ds2).map_values(
            |k: Seq<char>| (k, group_value(values_for(ds2, k))),
        ));
    }
}

/// A pair with an empty key has a skeleton that is a bare leaf.
proof fn lemma_empty_key_skel(v: Option<Seq<char>>)
    ensures
        pair_skel(Seq::empty(), v) is Leaf,
{
    let k = Seq::<char>::empty();
    lemma_leading_name(k);
    assert(key_segments(k) =~= Seq::<Seq<char>>::empty());
}

proof fn lemma_fold_flat(ps: Seq<(Seq<char>, Option<Seq<char>>)>)
    requires
        forall|j: int| 0 <= j < ps.len() ==> (#[trigger] ps[j]).0.len() == 0 || flat_pair(ps[j]),
    ensures
        fold_pairs(ps) == grouped(decoded_pairs(ps)),
    decreases ps.len(),
{
    if ps.len() == 0 {
        assert(distinct_keys(decoded_pairs(ps)).map_values(
            |k: Seq<char>| (k, group_value(values_for(decoded_pairs(ps), k))),
        ) =~= Seq::empty());
    } else {
        let q = ps.drop_last();
        let p = ps.last();
        assert forall|j: int| 0 <= j < q.len() implies (#[trigger] q[j]).0.len() == 0 || flat_pair(
            q[j],
        ) by {
            assert(q[j] == ps[j]);
        }
        lemma_fold_flat(q);
        assert(p == ps[ps.len() - 1]);
        if p.0.len() == 0 {
            assert(p.0 =~= Seq::<char>::empty());
            lemma_empty_key_skel(p.1);
            let s = pair_skel(p.0, p.1);
            assert(s == Skel::Leaf(s->Leaf_0));
            assert(grouped(decoded_pairs(q)) is Obj);
            assert(root_merge(fold_pairs(q), s) == fold_pairs(q));
        } else {
            lemma_flat_pair_skel(p);
            let dk = percent_decoded(p.0);
            let dv = percent_decoded(p.1->Some_0);
            lemma_group_step(decoded_pairs(q), dk, dv);
            let s = Skel::Named(dk, Box::new(Skel::Leaf(Some(dv))));
            assert(merged(grouped(decoded_pairs(q)), s) is Obj);
            assert(same_variant(merged(fold_pairs(q), s), fold_pairs(q)));
        }
    }
}

/// Where every pair either has an empty key, and is then ignored, or has a
/// value and a key with no bracket that does not read as an index, parsing
/// groups the values by key: a key given once maps to its string, a key
/// given several times to the array of its strings in input order, and keys
/// appear in the order of their first arrival.
pub proof fn law_flat_keys_group(input: Seq<char>)
    requires
        forall|j: int|
            0 <= j < pairs_of(percent_decoded(input)).len() ==> (#[trigger] pairs_of(
                percent_decoded(input),
            )[j]).0.len() == 0 || flat_pair(pairs_of(percent_decoded(input))[j]),
    ensures
        parsed(input) == grouped(decoded_pairs(pairs_of(percent_decoded(input)))),
{
    lemma_fold_flat(pairs_of(percent_decoded(input)));
}

/// A string that arrives at a path already holding a value: it replaces an
/// object, is appended to an array, and is put beside a string or a null in
/// a new two-item array. So a repeated scalar key accumulates its values
/// rather than keeping only the last.
pub proof fn law_string_at_existing_path(to: Json, v: Seq<char>)
    ensures
        merged(to, Skel::Leaf(Some(v))) == match to {
            Json::Obj(_) => Json::Str(v),
            Json::Arr(a) => Json::Arr(a.push(Json::Str(v))),
            _ => Json::Arr(seq![to, Json::Str(v)]),
        },
{
}

} // verus!
