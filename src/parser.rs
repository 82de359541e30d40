use vstd::prelude::*;

use crate::merge::{merge, merged, same_variant, well_formed};
use crate::text::{chars_of, index_value, parse_index};
use crate::value::{Json, Skel, Skeleton, Value};

verus! {

/// Distinguishes the ways a query string can fail to parse.
#[derive(Debug)]
pub enum ParseErrorKind {
    DecodingError,
    Other,
}

/// Why a query string could not be parsed.
#[derive(Debug)]
pub struct ParseError {
    pub kind: ParseErrorKind,
    pub message: String,
}

pub type ParseResult<T> = Result<T, ParseError>;

/// The text that percent-decoding `s` gives, with invalid UTF-8 replaced.
pub uninterp spec fn percent_decoded(s: Seq<char>) -> Seq<char>;

/// Relies on `percent_encoding::percent_decode` and
/// `PercentDecode::decode_utf8_lossy`: every `%` followed by two hex digits
/// becomes the byte they denote, and invalid UTF-8 becomes U+FFFD. The
/// lossy decoding never fails, and text without `%` comes back unchanged.
#[verifier::external_body]
pub fn decode_component(source: &str) -> (r: Result<String, String>)
    ensures
        r is Ok,
        r->Ok_0@ == percent_decoded(source@),
        !source@.contains('%') ==> r->Ok_0@ == source@,
{
    Ok(percent_encoding::percent_decode(source.as_bytes()).decode_utf8_lossy().to_string())
}

/// Marks each position of `s` that holds `]` followed by `=`.
pub open spec fn close_marks(s: Seq<char>) -> Seq<bool> {
    Seq::new(
        if s.len() > 0 {
            (s.len() - 1) as nat
        } else {
            0
        },
        |i: int| s[i] == ']' && s[i + 1] == '=',
    )
}

/// Where a pair splits into key and value: at the first `=` that follows a
/// `]`, else at the first `=`.
pub open spec fn separator(s: Seq<char>) -> Option<int> {
    match close_marks(s).index_of_first(true) {
        Some(i) => Some(i + 1),
        None => s.index_of_first('='),
    }
}

/// The key and, where the pair has a separator, the value of a pair.
pub open spec fn pair_of(s: Seq<char>) -> (Seq<char>, Option<Seq<char>>) {
    match separator(s) {
        Some(p) => (s.take(p), Some(s.skip(p + 1))),
        None => (s, None),
    }
}

/// `s` cut at every `c`; an empty text gives one empty part.
pub open spec fn split_on(s: Seq<char>, c: char) -> Seq<Seq<char>>
    decreases s.len(),
{
    if s.len() == 0 {
        seq![Seq::empty()]
    } else {
        let parts = split_on(s.drop_last(), c);
        if s.last() == c {
            parts.push(Seq::empty())
        } else {
            parts.update(parts.len() - 1, parts.last().push(s.last()))
        }
    }
}

/// The pairs of a decoded query string, in order.
pub open spec fn pairs_of(s: Seq<char>) -> Seq<(Seq<char>, Option<Seq<char>>)> {
    split_on(s, '&').map_values(|p: Seq<char>| pair_of(p))
}

pub open spec fn opt_view(o: Option<&str>) -> Option<Seq<char>> {
    match o {
        Some(s) => Some(s@),
        None => None,
    }
}

/// A position that holds `true`, with none before it, is the first one.
proof fn lemma_first_true(m: Seq<bool>, i: int)
    requires
        0 <= i < m.len(),
        m[i],
        forall|j: int| 0 <= j < i ==> !m[j],
    ensures
        m.index_of_first(true) == Some(i),
{
    m.index_of_first_ensures(true);
}

/// A position that holds `c`, with none before it, is the first one.
proof fn lemma_first_char(s: Seq<char>, c: char, i: int)
    requires
        0 <= i < s.len(),
        s[i] == c,
        forall|j: int| 0 <= j < i ==> s[j] != c,
    ensures
        s.index_of_first(c) == Some(i),
{
    s.index_of_first_ensures(c);
}

/// Splits a pair into its key and, where it has a separator, its value.
pub fn parse_pair(part: &str) -> (r: (&str, Option<&str>))
    ensures
        (r.0@, opt_view(r.1)) == pair_of(part@),
{
    let cs = chars_of(part);
    let n = cs.len();
    let ghost marks = close_marks(part@);
    let mut sep: Option<usize> = None;
    let mut i: usize = 0;
    while sep.is_none() && i < n
        invariant
            cs@ == part@,
            n == cs.len(),
            i <= n,
            marks == close_marks(part@),
            match sep {
                Some(p) => 1 <= p < n && marks.index_of_first(true) == Some(p - 1),
                None => forall|j: int| 0 <= j < i && j < marks.len() ==> !marks[j],
            },
        decreases n - i,
    {
        if i + 1 < n && cs[i] == ']' && cs[i + 1] == '=' {
            proof {
                lemma_first_true(marks, i as int);
            }
            sep = Some(i + 1);
        }
        i = i + 1;
    }
    proof {
        marks.index_of_first_ensures(true);
    }
    if sep.is_none() {
        let mut j: usize = 0;
        while sep.is_none() && j < n
            invariant
                cs@ == part@,
                n == cs.len(),
                j <= n,
                marks.index_of_first(true) is None,
                match sep {
                    Some(p) => p < n && part@.index_of_first('=') == Some(p as int),
                    None => forall|k: int| 0 <= k < j ==> part@[k] != '=',
                },
            decreases n - j,
        {
            if cs[j] == '=' {
                proof {
                    lemma_first_char(part@, '=', j as int);
                }
                sep = Some(j);
            }
            j = j + 1;
        }
        proof {
            part@.index_of_first_ensures('=');
        }
    }
    match sep {
        None => (part, None),
        Some(pos) => {
            let key = part.substring_char(0, pos);
            let val = part.substring_char(pos + 1, n);
            assert(key@ =~= part@.take(pos as int));
            assert(val@ =~= part@.skip(pos + 1));
            (key, Some(val))
        },
    }
}

/// Cuts a decoded query string at every `&` and splits each part into its
/// key and value.
pub fn parse_pairs(body: &str) -> (r: Vec<(&str, Option<&str>)>)
    ensures
        r@.len() == pairs_of(body@).len(),
        forall|i: int|
            0 <= i < r@.len() ==> (#[trigger] r@[i].0@, opt_view(r@[i].1)) == pairs_of(body@)[i],
{
    let cs = chars_of(body);
    let n = cs.len();
    let mut pairs: Vec<(&str, Option<&str>)> = Vec::new();
    let ghost mut parts: Seq<Seq<char>> = Seq::empty();
    let mut start: usize = 0;
    let mut i: usize = 0;
    assert(body@.take(0) =~= Seq::<char>::empty());
    assert(parts.push(body@.subrange(0, 0)) =~= seq![Seq::<char>::empty()]);
    while i < n
        invariant
            cs@ == body@,
            n == cs.len(),
            start <= i <= n,
            split_on(body@.take(i as int), '&') == parts.push(body@.subrange(start as int, i as int)),
            pairs@.len() == parts.len(),
            forall|j: int|
                0 <= j < parts.len() ==> (#[trigger] pairs@[j].0@, opt_view(pairs@[j].1))
                    == pair_of(parts[j]),
        decreases n - i,
    {
        let ghost prev = body@.take(i as int);
        assert(body@.take(i + 1).drop_last() =~= prev);
        if cs[i] == '&' {
            let part = body.substring_char(start, i);
            let pair = parse_pair(part);
            pairs.push(pair);
            proof {
                parts = parts.push(body@.subrange(start as int, i as int));
            }
            start = i + 1;
            assert(body@.subrange(start as int, i + 1) =~= Seq::<char>::empty());
        } else {
            assert(body@.subrange(start as int, i + 1) =~= body@.subrange(start as int, i as int).push(
                cs@[i as int],
            ));
        }
        i = i + 1;
    }
    let part = body.substring_char(start, n);
    let pair = parse_pair(part);
    pairs.push(pair);
    proof {
        assert(body@.take(n as int) =~= body@);
        parts = parts.push(body@.subrange(start as int, n as int));
        assert(pairs_of(body@) =~= parts.map_values(|p: Seq<char>| pair_of(p)));
    }
    pairs
}


/// Marks each position of a key that holds `[`.
pub open spec fn open_marks(k: Seq<char>) -> Seq<bool> {
    Seq::new(k.len(), |i: int| k[i] == '[')
}

/// The part of a key before its first `[`, or the whole key where it has none.
pub open spec fn leading_name(k: Seq<char>) -> Seq<char> {
    match open_marks(k).index_of_first(true) {
        Some(p) => k.take(p),
        None => k,
    }
}

/// A left-to-right scan of the first `n` characters of a key: the position
/// of the `[` still open, and the groups `[...]` closed so far. A `[` opens a
/// group (dropping one still open); a `]` closes the open group, if any.
pub open spec fn scan_groups(k: Seq<char>, n: nat) -> (Option<int>, Seq<Seq<char>>)
    decreases n,
{
    if n == 0 {
        (None, Seq::empty())
    } else {
        let (open, groups) = scan_groups(k, (n - 1) as nat);
        let i = n - 1;
        if k[i] == '[' {
            (Some(i), groups)
        } else if k[i] == ']' {
            match open {
                Some(p) => (None, groups.push(k.subrange(p, i + 1))),
                None => (None, groups),
            }
        } else {
            (open, groups)
        }
    }
}

/// The bracket groups of a key, brackets included, from left to right.
pub open spec fn bracket_groups(k: Seq<char>) -> Seq<Seq<char>> {
    scan_groups(k, k.len()).1
}

/// The decoded segments of a key: its leading name, where it is not empty,
/// then each bracket group.
pub open spec fn key_segments(k: Seq<char>) -> Seq<Seq<char>> {
    (if leading_name(k).len() > 0 {
        seq![percent_decoded(leading_name(k))]
    } else {
        Seq::empty()
    }) + bracket_groups(k).map_values(|g: Seq<char>| percent_decoded(g))
}

pub open spec fn strings_model(v: Seq<String>) -> Seq<Seq<char>> {
    Seq::new(v.len(), |i: int| v[i]@)
}

pub(crate) proof fn lemma_leading_name(k: Seq<char>)
    ensures
        leading_name(k).len() <= k.len(),
        leading_name(k).len() > 0 <==> (k.len() > 0 && k[0] != '['),
        forall|j: int| 0 <= j < leading_name(k).len() ==> #[trigger] k[j] != '[',
        leading_name(k).len() < k.len() ==> k[leading_name(k).len() as int] == '[',
        leading_name(k) == k.take(leading_name(k).len() as int),
{
    let m = open_marks(k);
    m.index_of_first_ensures(true);
    assert(k.take(k.len() as int) =~= k);
    if !m.contains(true) {
        assert forall|j: int| 0 <= j < k.len() implies #[trigger] k[j] != '[' by {
            assert(!m[j]);
        }
    } else {
        let p = m.index_of_first(true)->Some_0;
        assert forall|j: int| 0 <= j < p implies #[trigger] k[j] != '[' by {
            assert(!m[j]);
        }
        assert(m[p]);
    }
}

/// Splits a key into its segments: the name before the first `[`, where
/// it is not empty, then every bracket group, each one percent-decoded.
pub fn parse_key(key: &str) -> (r: ParseResult<Vec<String>>)
    ensures
        r is Ok,
        strings_model(r->Ok_0@) == key_segments(key@),
{
    let cs = chars_of(key);
    let n = cs.len();
    let mut keys: Vec<String> = Vec::new();
    let mut p: usize = 0;
    while p < n && cs[p] != '['
        invariant
            cs@ == key@,
            n == cs.len(),
            p <= n,
            forall|j: int| 0 <= j < p ==> #[trigger] key@[j] != '[',
        decreases n - p,
    {
        p = p + 1;
    }
    proof {
        lemma_leading_name(key@);
        let l = leading_name(key@).len() as int;
        if p < l {
            assert(key@[p as int] != '[');
        }
        if l < p {
            assert(key@[l] != '[');
        }
        assert(p == l);
        assert(key@.take(p as int) == leading_name(key@));
    }
    if p > 0 {
        let parent = key.substring_char(0, p);
        assert(parent@ =~= leading_name(key@));
        match decode_component(parent) {
            Ok(decoded_key) => keys.push(decoded_key),
            Err(err_msg) => {
                return Err(ParseError { kind: ParseErrorKind::DecodingError, message: err_msg });
            },
        }
    }
    let ghost lead = strings_model(keys@);
    assert(lead =~= (if leading_name(key@).len() > 0 {
        seq![percent_decoded(leading_name(key@))]
    } else {
        Seq::empty()
    }));
    let mut prev_bracket: Option<usize> = None;
    let mut idx: usize = 0;
    while idx < n
        invariant
            cs@ == key@,
            n == cs.len(),
            idx <= n,
            scan_groups(key@, idx as nat).0 == match prev_bracket {
                Some(b) => Some(b as int),
                None => None::<int>,
            },
            match prev_bracket {
                Some(b) => b < idx,
                None => true,
            },
            strings_model(keys@) == lead + scan_groups(key@, idx as nat).1.map_values(
                |g: Seq<char>| percent_decoded(g),
            ),
        decreases n - idx,
    {
        let ch = cs[idx];
        let ghost before = scan_groups(key@, idx as nat).1;
        if ch == '[' {
            prev_bracket = Some(idx);
        } else if ch == ']' {
            if let Some(prev_idx) = prev_bracket {
                prev_bracket = None;
                let child = key.substring_char(prev_idx, idx + 1);
                let ghost old_keys = keys@;
                match decode_component(child) {
                    Ok(decoded_key) => keys.push(decoded_key),
                    Err(err_msg) => {
                        return Err(
                            ParseError { kind: ParseErrorKind::DecodingError, message: err_msg },
                        );
                    },
                }
                assert(strings_model(keys@) =~= strings_model(old_keys).push(
                    percent_decoded(child@),
                ));
                assert(before.push(child@).map_values(|g: Seq<char>| percent_decoded(g))
                    =~= before.map_values(|g: Seq<char>| percent_decoded(g)).push(
                    percent_decoded(child@),
                ));
                assert(strings_model(keys@) =~= lead + before.push(child@).map_values(
                    |g: Seq<char>| percent_decoded(g),
                ));
            } else {
                prev_bracket = None;
            }
        }
        idx = idx + 1;
    }
    Ok(keys)
}

/// A segment with its one pair of surrounding brackets taken off.
pub open spec fn cleaned(s: Seq<char>) -> Seq<char> {
    if s.len() >= 2 && s[0] == '[' && s.last() == ']' {
        s.subrange(1, s.len() - 1)
    } else {
        s
    }
}

/// Takes off the brackets around a segment, where it has them.
pub fn cleanup_key(key: &str) -> (r: &str)
    ensures
        r@ == cleaned(key@),
{
    let n = key.unicode_len();
    if n >= 2 && key.get_char(0) == '[' && key.get_char(n - 1) == ']' {
        key.substring_char(1, n - 1)
    } else {
        key
    }
}


/// The skeleton of a bracket segment in front of `rest`: `[]` appends, a
/// segment that reads as an index (once its brackets are off) is an index,
/// and any other is a name.
pub open spec fn child_skel(seg: Seq<char>, rest: Skel) -> Skel {
    if seg == seq!['[', ']'] {
        Skel::Append(Box::new(rest))
    } else {
        match index_value(cleaned(seg)) {
            Some(n) => Skel::Indexed(n, Box::new(rest)),
            None => Skel::Named(cleaned(seg), Box::new(rest)),
        }
    }
}

/// The skeleton of a leading name in front of `rest`: the name as it
/// stands, an index where it reads as one.
pub open spec fn name_skel(name: Seq<char>, rest: Skel) -> Skel {
    match index_value(name) {
        Some(n) => Skel::Indexed(n, Box::new(rest)),
        None => Skel::Named(name, Box::new(rest)),
    }
}

/// The skeleton of bracket segments in front of a leaf.
pub open spec fn segments_skel(segs: Seq<Seq<char>>, leaf: Option<Seq<char>>) -> Skel
    decreases segs.len(),
{
    if segs.len() == 0 {
        Skel::Leaf(leaf)
    } else {
        child_skel(segs[0], segments_skel(segs.drop_first(), leaf))
    }
}

pub open spec fn leaf_of(val: Option<Seq<char>>) -> Option<Seq<char>> {
    match val {
        Some(v) => Some(percent_decoded(v)),
        None => None,
    }
}

/// The skeleton of one pair: its decoded value (null where the pair has no
/// `=`) at the end of the path that its key spells.
pub open spec fn pair_skel(key: Seq<char>, val: Option<Seq<char>>) -> Skel {
    let segs = key_segments(key);
    if leading_name(key).len() > 0 {
        name_skel(segs[0], segments_skel(segs.drop_first(), leaf_of(val)))
    } else {
        segments_skel(segs, leaf_of(val))
    }
}

/// Merges a skeleton into the root, which stays an object: a skeleton that
/// would replace the root is dropped.
pub open spec fn root_merge(acc: Json, s: Skel) -> Json {
    if same_variant(merged(acc, s), acc) {
        merged(acc, s)
    } else {
        acc
    }
}

/// The tree that the pairs give, merged one by one into an empty object.
pub open spec fn fold_pairs(ps: Seq<(Seq<char>, Option<Seq<char>>)>) -> Json
    decreases ps.len(),
{
    if ps.len() == 0 {
        Json::Obj(Seq::empty())
    } else {
        root_merge(fold_pairs(ps.drop_last()), pair_skel(ps.last().0, ps.last().1))
    }
}

/// The tree that a query string stands for.
pub open spec fn parsed(input: Seq<char>) -> Json {
    fold_pairs(pairs_of(percent_decoded(input)))
}

/// Whether a segment is the empty group `[]`.
fn is_append_segment(seg: &str) -> (r: bool)
    ensures
        r == (seg@ == seq!['[', ']']),
{
    let n = seg.unicode_len();
    let r = n == 2 && seg.get_char(0) == '[' && seg.get_char(1) == ']';
    proof {
        if r {
            assert(seg@ =~= seq!['[', ']']);
        }
    }
    r
}

/// The skeleton of the segments `keys[from..]` in front of the leaf `val`.
pub fn apply_object(keys: &Vec<String>, from: usize, val: Option<String>) -> (r: Skeleton)
    requires
        from <= keys.len(),
    ensures
        r@ == segments_skel(
            strings_model(keys@).skip(from as int),
            match val {
                Some(s) => Some(s@),
                None => None,
            },
        ),
    decreases keys.len() - from,
{
    let ghost segs = strings_model(keys@).skip(from as int);
    if from < keys.len() {
        assert(segs.drop_first() =~= strings_model(keys@).skip(from + 1));
        let key = keys[from].as_str();
        let rest = apply_object(keys, from + 1, val);
        if is_append_segment(key) {
            Skeleton::Append(Box::new(rest))
        } else {
            let key = cleanup_key(key);
            match parse_index(key) {
                Some(idx) => Skeleton::Indexed(idx, Box::new(rest)),
                None => Skeleton::Named(key.to_string(), Box::new(rest)),
            }
        }
    } else {
        assert(segs.len() == 0);
        Skeleton::Leaf(val)
    }
}

/// The skeleton of a leading name in front of `rest`.
fn apply_name(name: &String, rest: Skeleton) -> (r: Skeleton)
    ensures
        r@ == name_skel(name@, rest@),
{
    match parse_index(name.as_str()) {
        Some(idx) => Skeleton::Indexed(idx, Box::new(rest)),
        None => Skeleton::Named(name.clone(), Box::new(rest)),
    }
}

/// Whether a key has a name before its first `[`.
fn has_leading_name(key: &str) -> (r: bool)
    ensures
        r == (leading_name(key@).len() > 0),
{
    proof {
        lemma_leading_name(key@);
    }
    if key.unicode_len() == 0 {
        false
    } else {
        key.get_char(0) != '['
    }
}

/// Parses a query string that has already been percent-decoded as a whole.
///
/// The text is cut into pairs at every `&`, and each pair becomes a
/// skeleton that is merged, in input order, into a tree that starts as an
/// empty object. Key segments and values are still percent-decoded one by
/// one.
pub fn parse_decoded(decoded_params: &str) -> (r: ParseResult<Value>)
    ensures
        r is Ok,
        r->Ok_0@ == fold_pairs(pairs_of(decoded_params@)),
        well_formed(r->Ok_0@),
{
    let tree: Vec<(String, Value)> = Vec::new();
    proof {
        crate::value::lemma_object_view(tree);
        assert(crate::value::entries_model(tree@) =~= Seq::empty());
    }
    let mut obj = Value::Object(tree);
    let pairs = parse_pairs(decoded_params);
    let ghost ps = pairs_of(decoded_params@);
    proof {
        assert(ps.take(0).len() == 0);
    }
    let mut i: usize = 0;
    while i < pairs.len()
        invariant
            pairs@.len() == ps.len(),
            ps == pairs_of(decoded_params@),
            forall|j: int|
                0 <= j < pairs@.len() ==> (#[trigger] pairs@[j].0@, opt_view(pairs@[j].1))
                    == ps[j],
            i <= pairs.len(),
            obj@ == fold_pairs(ps.take(i as int)),
            well_formed(obj@),
        decreases pairs.len() - i,
    {
        let (key, value) = pairs[i];
        let keys = match parse_key(key) {
            Ok(keys) => keys,
            Err(e) => {
                return Err(e);
            },
        };
        let leaf = match value {
            Some(v) => match decode_component(v) {
                Ok(val) => Some(val),
                Err(err) => {
                    return Err(ParseError { kind: ParseErrorKind::DecodingError, message: err });
                },
            },
            None => None,
        };
        let ghost leaf_v = match &leaf {
            Some(s) => Some(s@),
            None => None::<Seq<char>>,
        };
        assert(ps[i as int] == (key@, opt_view(value)));
        assert(leaf_v == leaf_of(opt_view(value)));
        let ghost segs = strings_model(keys@);
        let partial = if has_leading_name(key) {
            let rest = apply_object(&keys, 1, leaf);
            assert(segs.skip(1) =~= segs.drop_first());
            assert(keys@[0]@ == segs[0]);
            apply_name(&keys[0], rest)
        } else {
            let r = apply_object(&keys, 0, leaf);
            assert(segs.skip(0) =~= segs);
            r
        };
        assert(partial@ == pair_skel(ps[i as int].0, ps[i as int].1));
        assert(ps.take(i + 1).drop_last() =~= ps.take(i as int));
        let _ = merge(&mut obj, &partial);
        i = i + 1;
    }
    assert(ps.take(i as int) =~= ps);
    Ok(obj)
}


/// Parses a query string into a tree: the whole input is percent-decoded,
/// then parsed as `parse_decoded` says.
pub fn parse(params: &str) -> (r: ParseResult<Value>)
    ensures
        r is Ok,
        r->Ok_0@ == parsed(params@),
        well_formed(r->Ok_0@),
{
    let decoded_params = match decode_component(params) {
        Ok(val) => val,
        Err(err) => {
            return Err(ParseError { kind: ParseErrorKind::DecodingError, message: err });
        },
    };
    parse_decoded(decoded_params.as_str())
}

} // verus!
