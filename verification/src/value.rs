use vstd::prelude::*;

verus! {

broadcast use vstd::std_specs::vec::group_vec_axioms;

/// One node of the parsed tree, as the specification sees it: strings
/// as character sequences, numbers unbounded, an object as a mapping
/// from key to node.
pub enum SpecValue {
    Str(Seq<char>),
    Num(int),
    Bool(bool),
    Obj(Map<Seq<char>, SpecValue>),
    Arr(Seq<SpecValue>),
}

/// One node of the parsed output tree. A number holds the exact integer
/// the grammar admits. An object holds its pairs with unique keys, in
/// the order their keys first appeared; a later pair for the same key
/// overwrites the value in place, so the last write wins.
#[derive(PartialEq, Debug)]
pub enum JsonValue {
    String(String),
    Number(i32),
    Boolean(bool),
    Object(Vec<(String, JsonValue)>),
    Array(Vec<JsonValue>),
}

/// The mapping that a sequence of key-value pairs stands for: a later
/// pair overrides an earlier one with the same key.
pub open spec fn pairs_map(qs: Seq<(Seq<char>, SpecValue)>) -> Map<Seq<char>, SpecValue>
    decreases qs.len(),
{
    if qs.len() == 0 {
        Map::empty()
    } else {
        pairs_map(qs.drop_last()).insert(qs.last().0, qs.last().1)
    }
}

/// The tree a value stands for.
pub open spec fn deep_value(v: JsonValue) -> SpecValue
    decreases v,
    via deep_value_dec
{
    match v {
        JsonValue::String(s) => SpecValue::Str(s@),
        JsonValue::Number(n) => SpecValue::Num(n as int),
        JsonValue::Boolean(b) => SpecValue::Bool(b),
        JsonValue::Object(ps) => SpecValue::Obj(pairs_map(pairs_view(ps@))),
        JsonValue::Array(a) => SpecValue::Arr(arr_view(a@)),
    }
}

/// An element list as the specification sees it.
pub open spec fn arr_view(a: Seq<JsonValue>) -> Seq<SpecValue>
    decreases a,
    via arr_view_dec
{
    if a.len() == 0 {
        Seq::empty()
    } else {
        arr_view(a.drop_last()).push(deep_value(a.last()))
    }
}

/// A pair list as the specification sees it: keys as character
/// sequences, values as abstract nodes.
pub open spec fn pairs_view(ps: Seq<(String, JsonValue)>) -> Seq<(Seq<char>, SpecValue)>
    decreases ps,
    via pairs_view_dec
{
    if ps.len() == 0 {
        Seq::empty()
    } else {
        pairs_view(ps.drop_last()).push((ps.last().0@, deep_value(ps.last().1)))
    }
}

#[via_fn]
proof fn deep_value_dec(v: JsonValue) {
    match v {
        JsonValue::Object(ps) => {
            assert(decreases_to!(v => ps));
            assert(decreases_to!(ps => ps@));
        }
        JsonValue::Array(a) => {
            assert(decreases_to!(v => a));
            assert(decreases_to!(a => a@));
        }
        _ => {}
    }
}

#[via_fn]
proof fn arr_view_dec(a: Seq<JsonValue>) {
    if a.len() != 0 {
        assert(a.drop_last() =~= a.subrange(0, a.len() - 1));
        assert(decreases_to!(a => a.subrange(0, a.len() - 1)));
        assert(decreases_to!(a => a[a.len() - 1]));
    }
}

#[via_fn]
proof fn pairs_view_dec(ps: Seq<(String, JsonValue)>) {
    if ps.len() != 0 {
        assert(ps.drop_last() =~= ps.subrange(0, ps.len() - 1));
        assert(decreases_to!(ps => ps.subrange(0, ps.len() - 1)));
        assert(decreases_to!(ps => ps[ps.len() - 1]));
        assert(decreases_to!(ps[ps.len() - 1] => ps[ps.len() - 1].1));
    }
}

impl View for JsonValue {
    type V = SpecValue;

    open spec fn view(&self) -> SpecValue {
        deep_value(*self)
    }
}

/// What each position of a viewed element list holds.
pub proof fn lemma_arr_view(a: Seq<JsonValue>)
    ensures
        arr_view(a).len() == a.len(),
        forall|k: int| 0 <= k < a.len() ==> arr_view(a)[k] == deep_value(#[trigger] a[k]),
    decreases a.len(),
{
    if a.len() > 0 {
        lemma_arr_view(a.drop_last());
        assert forall|k: int| 0 <= k < a.len() implies arr_view(a)[k] == deep_value(
            #[trigger] a[k],
        ) by {
            if k < a.len() - 1 {
                assert(a.drop_last()[k] == a[k]);
                assert(arr_view(a)[k] == arr_view(a.drop_last())[k]);
            } else {
                assert(a.last() == a[k]);
            }
        }
    }
}

/// What each position of a viewed pair list holds.
pub proof fn lemma_pairs_view(ps: Seq<(String, JsonValue)>)
    ensures
        pairs_view(ps).len() == ps.len(),
        forall|k: int|
            0 <= k < ps.len() ==> pairs_view(ps)[k] == ((#[trigger] ps[k]).0@, deep_value(
                ps[k].1,
            )),
    decreases ps.len(),
{
    if ps.len() > 0 {
        lemma_pairs_view(ps.drop_last());
        assert forall|k: int| 0 <= k < ps.len() implies pairs_view(ps)[k] == ((
        #[trigger] ps[k]).0@, deep_value(ps[k].1)) by {
            if k < ps.len() - 1 {
                assert(ps.drop_last()[k] == ps[k]);
                assert(pairs_view(ps)[k] == pairs_view(ps.drop_last())[k]);
            } else {
                assert(ps.last() == ps[k]);
            }
        }
    }
}

/// No two pairs carry the same key.
pub open spec fn unique_keys(qs: Seq<(Seq<char>, SpecValue)>) -> bool {
    forall|k1: int, k2: int| 0 <= k1 < k2 < qs.len() ==> (#[trigger] qs[k1]).0 != (
    #[trigger] qs[k2]).0
}

/// A key stands in the mapping of a pair list exactly when some pair
/// carries it.
pub proof fn lemma_pairs_map_dom(qs: Seq<(Seq<char>, SpecValue)>)
    ensures
        forall|x: Seq<char>|
            pairs_map(qs).dom().contains(x) <==> exists|k: int|
                0 <= k < qs.len() && (#[trigger] qs[k]).0 == x,
    decreases qs.len(),
{
    if qs.len() > 0 {
        lemma_pairs_map_dom(qs.drop_last());
        let l = qs.last();
        assert forall|x: Seq<char>| pairs_map(qs).dom().contains(x) implies exists|k: int|
            0 <= k < qs.len() && (#[trigger] qs[k]).0 == x by {
            if x == l.0 {
                assert((qs[qs.len() - 1]).0 == x);
            } else {
                assert(pairs_map(qs.drop_last()).dom().contains(x));
                let k = choose|k: int|
                    0 <= k < qs.drop_last().len() && (#[trigger] qs.drop_last()[k]).0 == x;
                assert(qs.drop_last()[k] == qs[k]);
                assert((qs[k]).0 == x);
            }
        }
        assert forall|x: Seq<char>|
            (exists|k: int| 0 <= k < qs.len() && (#[trigger] qs[k]).0 == x) implies pairs_map(
            qs,
        ).dom().contains(x) by {
            let k = choose|k: int| 0 <= k < qs.len() && (#[trigger] qs[k]).0 == x;
            if k < qs.len() - 1 {
                assert(qs.drop_last()[k] == qs[k]);
                assert((qs.drop_last()[k]).0 == x);
                assert(pairs_map(qs.drop_last()).dom().contains(x));
            }
        }
    }
}

/// Overwriting the value of the one pair that carries a key acts on the
/// mapping as inserting the key with the new value.
pub proof fn lemma_pairs_map_update(
    qs: Seq<(Seq<char>, SpecValue)>,
    idx: int,
    key: Seq<char>,
    v: SpecValue,
)
    requires
        unique_keys(qs),
        0 <= idx < qs.len(),
        qs[idx].0 == key,
    ensures
        pairs_map(qs.update(idx, (key, v))) == pairs_map(qs).insert(key, v),
    decreases qs.len(),
{
    let l = qs.last();
    let qs2 = qs.update(idx, (key, v));
    if idx == qs.len() - 1 {
        assert(qs2.drop_last() =~= qs.drop_last());
        assert(qs2.last() == (key, v));
        assert(pairs_map(qs2) == pairs_map(qs.drop_last()).insert(key, v));
        assert(pairs_map(qs.drop_last()).insert(key, l.1).insert(key, v) =~= pairs_map(
            qs.drop_last(),
        ).insert(key, v));
    } else {
        assert(l.0 != key) by {
            assert(qs[idx].0 != (qs[qs.len() - 1]).0);
        }
        assert(qs2.drop_last() =~= qs.drop_last().update(idx, (key, v)));
        assert(qs2.last() == l);
        assert(unique_keys(qs.drop_last())) by {
            assert(forall|k1: int, k2: int|
                0 <= k1 < k2 < qs.drop_last().len() ==> qs.drop_last()[k1] == qs[k1]
                    && qs.drop_last()[k2] == qs[k2]);
        }
        assert(qs.drop_last()[idx] == qs[idx]);
        lemma_pairs_map_update(qs.drop_last(), idx, key, v);
        assert(pairs_map(qs2) == pairs_map(qs.drop_last()).insert(key, v).insert(l.0, l.1));
        assert(pairs_map(qs.drop_last()).insert(key, v).insert(l.0, l.1) =~= pairs_map(
            qs.drop_last(),
        ).insert(l.0, l.1).insert(key, v));
    }
}

/// Puts a pair into the list: an existing pair with the same key has its
/// value overwritten in place, otherwise the pair is appended. In the
/// list's mapping the key now carries the given value.
pub fn obj_insert(pairs: &mut Vec<(String, JsonValue)>, key: String, val: JsonValue)
    requires
        unique_keys(pairs_view(old(pairs)@)),
    ensures
        unique_keys(pairs_view(final(pairs)@)),
        pairs_map(pairs_view(final(pairs)@)) == pairs_map(pairs_view(old(pairs)@)).insert(
            key@,
            val@,
        ),
{
    proof {
        lemma_pairs_view(pairs@);
    }
    let ghost qs = pairs_view(old(pairs)@);
    let mut idx: usize = 0;
    let mut found: bool = false;
    loop
        invariant
            pairs@ == old(pairs)@,
            0 <= idx <= pairs.len(),
            qs == pairs_view(pairs@),
            qs.len() == pairs.len(),
            forall|k: int| 0 <= k < idx ==> (#[trigger] qs[k]).0 != key@,
            found ==> idx < pairs.len() && qs[idx as int].0 == key@,
        ensures
            pairs@ == old(pairs)@,
            found ==> idx < pairs.len() && qs[idx as int].0 == key@,
            !found ==> forall|k: int| 0 <= k < qs.len() ==> (#[trigger] qs[k]).0 != key@,
        decreases pairs.len() - idx,
    {
        proof {
            lemma_pairs_view(pairs@);
        }
        if idx >= pairs.len() {
            break;
        }
        if pairs[idx].0 == key {
            found = true;
            break;
        }
        idx = idx + 1;
    }
    if found {
        pairs[idx] = (key, val);
        proof {
            lemma_pairs_view(old(pairs)@);
            lemma_pairs_view(pairs@);
            let qs2 = pairs_view(pairs@);
            assert(pairs@ == old(pairs)@.update(idx as int, (key, val)));
            assert forall|k: int| 0 <= k < qs2.len() implies qs2[k] == qs.update(
                idx as int,
                (key@, val@),
            )[k] by {
                assert(qs2[k] == ((#[trigger] pairs@[k]).0@, deep_value(pairs@[k].1)));
                if k != idx as int {
                    assert(pairs@[k] == old(pairs)@[k]);
                    assert(qs[k] == ((old(pairs)@[k]).0@, deep_value(old(pairs)@[k].1)));
                } else {
                    assert(pairs@[k] == (key, val));
                }
            }
            assert(qs2 =~= qs.update(idx as int, (key@, val@)));
            lemma_pairs_map_update(qs, idx as int, key@, val@);
            assert forall|k1: int, k2: int| 0 <= k1 < k2 < qs2.len() implies (
            #[trigger] qs2[k1]).0 != (#[trigger] qs2[k2]).0 by {
                assert(qs2[k1].0 == qs[k1].0 && qs2[k2].0 == qs[k2].0);
            }
        }
    } else {
        pairs.push((key, val));
        proof {
            lemma_pairs_view(old(pairs)@);
            lemma_pairs_view(pairs@);
            let qs2 = pairs_view(pairs@);
            assert forall|k: int| 0 <= k < qs.len() implies qs2[k] == qs[k] by {
                assert(pairs@[k] == old(pairs)@[k]);
                assert(qs2[k] == ((#[trigger] pairs@[k]).0@, deep_value(pairs@[k].1)));
                assert(qs[k] == ((old(pairs)@[k]).0@, deep_value(old(pairs)@[k].1)));
            }
            assert(qs2.drop_last() =~= qs);
            assert(qs2.last() == (key@, val@));
            assert(pairs_map(qs2) == pairs_map(qs).insert(key@, val@));
            assert forall|k1: int, k2: int| 0 <= k1 < k2 < qs2.len() implies (
            #[trigger] qs2[k1]).0 != (#[trigger] qs2[k2]).0 by {
                if k2 == qs2.len() - 1 {
                    assert(qs2[k1] == qs[k1]);
                    assert(qs2[k2].0 == key@);
                } else {
                    assert(qs2[k1] == qs[k1] && qs2[k2] == qs[k2]);
                }
            }
        }
    }
}

} // verus!
