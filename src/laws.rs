//! Properties that relate encoding and decoding, and that hold of every
//! input.
use vstd::prelude::*;
use crate::wood::{Wood, children, initial_text, is_leaf_of};
use crate::error::{DewoodifyError, error_at};
use crate::codec::{Wooder, Dewooder, Woodable, Dewoodable, DefaultBiwooder};
use crate::primitives::{is_true_word, is_false_word};
use crate::decimal::lemma_int_text_round_trip;
use crate::sequence::{SequenceTran, TaggedSequenceTran, PairBi, seq_fails_at, pair_leaf_msg, pair_arity_msg};
use crate::scan::{first_hit, rotated};
use crate::render::{rendered, lemma_leaf_text_read, lemma_reading};
use crate::map::{HashMapBi, TaggedHashMapBi, map_of_pairs};
use crate::sequence::{pair_woodifies, seq_dewoodifies};
use std::collections::HashMap;
use std::hash::Hash;
use vstd::std_specs::hash::obeys_key_model;

verus! {

proof fn lemma_words_apart()
    ensures
        !is_true_word("false"@),
        !is_true_word("⟂"@),
        !is_true_word("no"@),
        !is_false_word("true"@),
{
    reveal_strlit("true");
    reveal_strlit("false");
    reveal_strlit("⊤");
    reveal_strlit("⟂");
    reveal_strlit("yes");
    reveal_strlit("no");
    assert("false"@.len() != "true"@.len());
    assert("false"@.len() != "⊤"@.len());
    assert("false"@.len() != "yes"@.len());
    assert("⟂"@[0] != "⊤"@[0]);
    assert("⟂"@.len() != "true"@.len());
    assert("⟂"@.len() != "yes"@.len());
    assert("no"@.len() != "true"@.len());
    assert("no"@.len() != "⊤"@.len());
    assert("no"@.len() != "yes"@.len());
    assert("true"@.len() != "false"@.len());
    assert("true"@.len() != "⟂"@.len());
    assert("true"@.len() != "no"@.len());
}

/// Decoding the encoding of a boolean gives it back.
pub proof fn lemma_bool_round_trip(b: bool, w: Wood, r: Result<bool, DewoodifyError>)
    requires
        b.woodifies(w),
        <bool as Dewoodable>::dewoodifies(w, r),
    ensures
        r == Ok::<bool, DewoodifyError>(b),
{
    reveal_strlit("true");
    reveal_strlit("false");
    reveal_strlit("⊤");
    reveal_strlit("⟂");
    reveal_strlit("yes");
    reveal_strlit("no");
    lemma_words_apart();
}

/// A boolean decodes exactly when its leading text is one of the three words
/// for true or the three for false.
pub proof fn lemma_bool_words(w: Wood, r: Result<bool, DewoodifyError>)
    requires
        <bool as Dewoodable>::dewoodifies(w, r),
    ensures
        r is Ok <==> (is_true_word(initial_text(w)) || is_false_word(initial_text(w))),
        r == Ok::<bool, DewoodifyError>(true) <==> is_true_word(initial_text(w)),
        r == Ok::<bool, DewoodifyError>(false) <==> is_false_word(initial_text(w)),
{
    reveal_strlit("true");
    reveal_strlit("false");
    reveal_strlit("⊤");
    reveal_strlit("⟂");
    reveal_strlit("yes");
    reveal_strlit("no");
    lemma_words_apart();
}

/// Decoding the encoding of a string gives the same text back.
pub proof fn lemma_string_round_trip(s: String, w: Wood, r: Result<String, DewoodifyError>)
    requires
        s.woodifies(w),
        <String as Dewoodable>::dewoodifies(w, r),
    ensures
        r matches Ok(t) && t@ == s@,
{
}

/// Decoding the encoding of a character gives it back.
pub proof fn lemma_char_round_trip(c: char, w: Wood, r: Result<char, DewoodifyError>)
    requires
        c.woodifies(w),
        <char as Dewoodable>::dewoodifies(w, r),
    ensures
        r == Ok::<char, DewoodifyError>(c),
{
}

/// Decoding the encoding of an `i64` gives it back.
pub proof fn lemma_i64_round_trip(i: i64, w: Wood, r: Result<i64, DewoodifyError>)
    requires
        i.woodifies(w),
        <i64 as Dewoodable>::dewoodifies(w, r),
    ensures
        r == Ok::<i64, DewoodifyError>(i),
{
    lemma_int_text_round_trip(i as int, true);
}

/// Decoding the encoding of an `isize` gives it back.
pub proof fn lemma_isize_round_trip(i: isize, w: Wood, r: Result<isize, DewoodifyError>)
    requires
        i.woodifies(w),
        <isize as Dewoodable>::dewoodifies(w, r),
    ensures
        r == Ok::<isize, DewoodifyError>(i),
{
    lemma_int_text_round_trip(i as int, true);
}

/// Decoding the encoding of an `i32` gives it back.
pub proof fn lemma_i32_round_trip(i: i32, w: Wood, r: Result<i32, DewoodifyError>)
    requires
        i.woodifies(w),
        <i32 as Dewoodable>::dewoodifies(w, r),
    ensures
        r == Ok::<i32, DewoodifyError>(i),
{
    lemma_int_text_round_trip(i as int, true);
}

/// Decoding the encoding of a `u64` gives it back.
pub proof fn lemma_u64_round_trip(i: u64, w: Wood, r: Result<u64, DewoodifyError>)
    requires
        i.woodifies(w),
        <u64 as Dewoodable>::dewoodifies(w, r),
    ensures
        r == Ok::<u64, DewoodifyError>(i),
{
    lemma_int_text_round_trip(i as int, false);
}

/// Decoding the encoding of a `u32` gives it back.
pub proof fn lemma_u32_round_trip(i: u32, w: Wood, r: Result<u32, DewoodifyError>)
    requires
        i.woodifies(w),
        <u32 as Dewoodable>::dewoodifies(w, r),
    ensures
        r == Ok::<u32, DewoodifyError>(i),
{
    lemma_int_text_round_trip(i as int, false);
}

/// Decoding the encoding of a `usize` gives it back.
pub proof fn lemma_usize_round_trip(i: usize, w: Wood, r: Result<usize, DewoodifyError>)
    requires
        i.woodifies(w),
        <usize as Dewoodable>::dewoodifies(w, r),
    ensures
        r == Ok::<usize, DewoodifyError>(i),
{
    lemma_int_text_round_trip(i as int, false);
}

/// `inner` gives `x` back, up to `same`, from every encoding of it.
pub open spec fn round_trips_on<T, S: Wooder<T> + Dewooder<T>>(inner: S, same: spec_fn(T, T) -> bool, x: T) -> bool {
    forall|w: Wood, r: Result<T, DewoodifyError>|
        #[trigger] inner.woodifies(x, w) && #[trigger] inner.dewoodifies(w, r) ==> (r matches Ok(y) && same(x, y))
}

/// Where the element strategy gives back what it encodes, so does the
/// sequence strategy, element by element and in order.
pub proof fn lemma_sequence_round_trip<T, S: Wooder<T> + Dewooder<T>>(
    t: SequenceTran<S>,
    same: spec_fn(T, T) -> bool,
    v: Vec<T>,
    w: Wood,
    r: Result<Vec<T>, DewoodifyError>,
)
    requires
        forall|i: int| 0 <= i < v@.len() ==> round_trips_on(t.0, same, #[trigger] v@[i]),
        t.woodifies(v, w),
        t.dewoodifies(w, r),
    ensures
        r matches Ok(u) && u@.len() == v@.len() && forall|i: int| 0 <= i < v@.len() ==> same(v@[i], #[trigger] u@[i]),
{
    let ws = children(w);
    match r {
        Ok(u) => {
            assert forall|i: int| 0 <= i < v@.len() implies same(v@[i], #[trigger] u@[i]) by {
                assert(t.0.woodifies(v@[i], ws[i]));
                assert(t.0.dewoodifies(ws[i], Ok(u@[i])));
            }
        },
        Err(e) => {
            let k = choose|k: int| seq_fails_at(t.0, ws, k, e);
            assert(t.0.woodifies(v@[k], ws[k]));
            assert(t.0.dewoodifies(ws[k], Err(e)));
        },
    }
}

/// Where the key and value strategies give back what they encode, so does
/// the pair strategy.
pub proof fn lemma_pair_round_trip<K, V, KT: Wooder<K> + Dewooder<K>, VT: Wooder<V> + Dewooder<V>>(
    t: PairBi<KT, VT>,
    same_key: spec_fn(K, K) -> bool,
    same_value: spec_fn(V, V) -> bool,
    v: (K, V),
    w: Wood,
    r: Result<(K, V), DewoodifyError>,
)
    requires
        round_trips_on(t.0, same_key, v.0),
        round_trips_on(t.1, same_value, v.1),
        t.woodifies(v, w),
        t.dewoodifies(w, r),
    ensures
        r matches Ok(u) && same_key(v.0, u.0) && same_value(v.1, u.1),
{
    let ws = children(w);
    match r {
        Ok(u) => {
            assert(t.0.dewoodifies(ws[0], Ok(u.0)));
            assert(t.1.dewoodifies(ws[1], Ok(u.1)));
        },
        Err(e) => {
            if t.0.dewoodifies(ws[0], Err(e)) {
            } else {
                assert(t.1.dewoodifies(ws[1], Err(e)));
            }
        },
    }
}

/// A tag-checked sequence decodes only where the first child is a leaf whose
/// text is the tag; otherwise it fails at the empty branch or at that first
/// child, with a message for each of the three shapes.
pub proof fn lemma_tag_checked<T, S: Dewooder<T>>(t: TaggedSequenceTran<S>, w: Wood, r: Result<Vec<T>, DewoodifyError>)
    requires
        t.dewoodifies(w, r),
    ensures
        r is Ok ==> children(w).len() > 0 && is_leaf_of(children(w)[0], t.0@),
        children(w).len() == 0 ==> (r matches Err(e) && error_at(e, w, "expected \""@ + t.0@ + "\" at beginning, but the wood was empty"@)),
        children(w).len() > 0 && children(w)[0] is Branch ==> (r matches Err(e)
            && error_at(e, children(w)[0], "expected \""@ + t.0@ + "\" here, but instead there was a branch wood"@)),
        children(w).len() > 0 && children(w)[0] is Leaf && !is_leaf_of(children(w)[0], t.0@) ==> (r matches Err(e)
            && error_at(e, children(w)[0], "expected \""@ + t.0@ + "\" here, but instead there was \""@ + initial_text(children(w)[0]) + "\""@)),
{
}

/// Pair decoding needs a branch of exactly two children: a leaf, or a branch
/// of any other length, fails at that node.
pub proof fn lemma_pair_shape<K, V, KT: Dewooder<K>, VT: Dewooder<V>>(t: PairBi<KT, VT>, w: Wood, r: Result<(K, V), DewoodifyError>)
    requires
        t.dewoodifies(w, r),
    ensures
        w is Leaf ==> (r matches Err(e) && error_at(e, w, pair_leaf_msg())),
        w is Branch && children(w).len() != 2 ==> (r matches Err(e) && error_at(e, w, pair_arity_msg(children(w).len() as int))),
        r is Ok ==> w is Branch && children(w).len() == 2,
{
}

/// Where the fields are looked up in the order they are written, a lookup
/// from the cursor at `eye` lands on the next match `j` at or after it, having
/// looked at `j - eye + 1` children and none past `j`.
pub proof fn lemma_seek_in_order(li: Seq<Wood>, eye: int, key: Seq<char>, j: int)
    requires
        0 <= eye <= j < li.len(),
        initial_text(li[j]) == key,
        forall|i: int| eye <= i < j ==> initial_text(#[trigger] li[i]) != key,
    ensures
        first_hit(li, eye, key, j - eye),
        rotated(eye, j - eye, li.len() as int) == j,
{
    let n = li.len() as int;
    vstd::arithmetic::div_mod::lemma_small_mod(j as nat, n as nat);
    assert forall|i: int| 0 <= i < j - eye implies initial_text(#[trigger] li[rotated(eye, i, n)]) != key by {
        vstd::arithmetic::div_mod::lemma_small_mod((eye + i) as nat, n as nat);
        assert(initial_text(li[eye + i]) != key);
    }
}

proof fn lemma_map_of_pairs_keys<K, V>(ps: Seq<(K, V)>)
    ensures
        forall|k: K| #[trigger] map_of_pairs(ps).contains_key(k) <==> exists|i: int| 0 <= i < ps.len() && (#[trigger] ps[i]).0 == k,
        forall|i: int| 0 <= i < ps.len() && (forall|j: int| i < j < ps.len() ==> (#[trigger] ps[j]).0 != ps[i].0)
            ==> map_of_pairs(ps)[(#[trigger] ps[i]).0] == ps[i].1,
    decreases ps.len(),
{
    if ps.len() > 0 {
        let q = ps.drop_last();
        lemma_map_of_pairs_keys(q);
        assert(map_of_pairs(ps) == map_of_pairs(q).insert(ps.last().0, ps.last().1));
        assert forall|k: K| #[trigger] map_of_pairs(ps).contains_key(k) <==> exists|i: int| 0 <= i < ps.len() && (#[trigger] ps[i]).0 == k by {
            if map_of_pairs(ps).contains_key(k) {
                if k == ps.last().0 {
                    assert(ps[ps.len() - 1].0 == k);
                } else {
                    assert(map_of_pairs(q).contains_key(k));
                    let i = choose|i: int| 0 <= i < q.len() && (#[trigger] q[i]).0 == k;
                    assert(ps[i] == q[i]);
                }
            }
            if exists|i: int| 0 <= i < ps.len() && (#[trigger] ps[i]).0 == k {
                let i = choose|i: int| 0 <= i < ps.len() && (#[trigger] ps[i]).0 == k;
                if i < ps.len() - 1 {
                    assert(q[i] == ps[i]);
                    assert(map_of_pairs(q).contains_key(k));
                }
            }
        }
        assert forall|i: int| 0 <= i < ps.len() && (forall|j: int| i < j < ps.len() ==> (#[trigger] ps[j]).0 != ps[i].0)
            implies map_of_pairs(ps)[(#[trigger] ps[i]).0] == ps[i].1 by {
            if i < ps.len() - 1 {
                assert(ps[ps.len() - 1].0 != ps[i].0);
                assert(q[i] == ps[i]);
                assert forall|j: int| i < j < q.len() implies (#[trigger] q[j]).0 != q[i].0 by {
                    assert(q[j] == ps[j]);
                }
            }
        }
    }
}

/// The map that a list of the entries of `m` builds, each entry once, is `m`.
proof fn lemma_map_of_entries<K, V>(es: Seq<(K, V)>, m: Map<K, V>)
    requires
        es.no_duplicates(),
        es.to_set() == m.kv_pairs(),
    ensures
        map_of_pairs(es) == m,
{
    lemma_map_of_pairs_keys(es);
    assert forall|i: int| 0 <= i < es.len() implies m.contains_key((#[trigger] es[i]).0) && m[es[i].0] == es[i].1 by {
        assert(es.to_set().contains(es[i]));
    }
    assert forall|i: int, j: int| 0 <= i < es.len() && 0 <= j < es.len() && i != j implies (#[trigger] es[i]).0 != (#[trigger] es[j]).0 by {
        if es[i].0 == es[j].0 {
            assert(es[i] == es[j]);
        }
    }
    assert forall|k: K| #[trigger] m.contains_key(k) implies map_of_pairs(es).contains_key(k) && map_of_pairs(es)[k] == m[k] by {
        assert(m.kv_pairs().contains((k, m[k])));
        assert(es.to_set().contains((k, m[k])));
        let i = choose|i: int| 0 <= i < es.len() && es[i] == (k, m[k]);
        assert(es[i].0 == k);
        assert forall|j: int| i < j < es.len() implies (#[trigger] es[j]).0 != es[i].0 by {
            assert(es[i].0 != es[j].0);
        }
    }
    assert forall|k: K| #[trigger] map_of_pairs(es).contains_key(k) implies m.contains_key(k) by {
        let i = choose|i: int| 0 <= i < es.len() && (#[trigger] es[i]).0 == k;
        assert(m.contains_key(es[i].0));
    }
    assert(map_of_pairs(es) =~= m);
}

/// Where keys follow the hash-table model and the key and value strategies
/// give back exactly what they encode, decoding the encoding of a map gives
/// the same map.
pub proof fn lemma_map_round_trip<K: Eq + Hash, V: Eq + Hash, KT: Wooder<K> + Dewooder<K>, VT: Wooder<V> + Dewooder<V>>(
    t: HashMapBi<KT, VT>,
    m: HashMap<K, V>,
    w: Wood,
    r: Result<HashMap<K, V>, DewoodifyError>,
)
    requires
        obeys_key_model::<K>(),
        forall|k: K| #[trigger] m@.contains_key(k)
            ==> round_trips_on(t.0, |a: K, b: K| a == b, k) && round_trips_on(t.1, |a: V, b: V| a == b, m@[k]),
        t.woodifies(m, w),
        t.dewoodifies(w, r),
    ensures
        r matches Ok(u) && u@ == m@,
{
    let ws = children(w);
    let es = choose|es: Seq<(K, V)>| {
        &&& es.len() == ws.len()
        &&& es.no_duplicates()
        &&& es.to_set() == m@.kv_pairs()
        &&& forall|i: int| 0 <= i < es.len() ==> pair_woodifies(t.0, t.1, es[i].0, es[i].1, #[trigger] ws[i])
    };
    assert forall|i: int| 0 <= i < es.len() implies m@.contains_key((#[trigger] es[i]).0) && m@[es[i].0] == es[i].1 by {
        assert(es.to_set().contains(es[i]));
    }
    match r {
        Ok(u) => {
            let ps = choose|ps: Seq<(K, V)>| {
                &&& #[trigger] seq_dewoodifies(PairBi(t.0, t.1), ws, ps)
                &&& obeys_key_model::<K>() ==> u@ == map_of_pairs(ps)
            };
            assert forall|i: int| 0 <= i < ps.len() implies #[trigger] ps[i] == es[i] by {
                assert(pair_woodifies(t.0, t.1, es[i].0, es[i].1, ws[i]));
                assert(m@.contains_key(es[i].0));
                assert(PairBi(t.0, t.1).dewoodifies(ws[i], Ok(ps[i])));
                let c = children(ws[i]);
                assert(t.0.woodifies(es[i].0, c[0]));
                assert(t.0.dewoodifies(c[0], Ok(ps[i].0)));
                assert(t.1.woodifies(es[i].1, c[1]));
                assert(t.1.dewoodifies(c[1], Ok(ps[i].1)));
            }
            assert(ps =~= es);
            lemma_map_of_entries(es, m@);
        },
        Err(e) => {
            let k = choose|k: int| seq_fails_at(PairBi(t.0, t.1), ws, k, e);
            assert(pair_woodifies(t.0, t.1, es[k].0, es[k].1, ws[k]));
            assert(m@.contains_key(es[k].0));
            assert(PairBi(t.0, t.1).dewoodifies(ws[k], Err(e)));
            let c = children(ws[k]);
            assert(t.0.woodifies(es[k].0, c[0]));
            assert(t.1.woodifies(es[k].1, c[1]));
            if t.0.dewoodifies(c[0], Err(e)) {
            } else {
                assert(t.1.dewoodifies(c[1], Err(e)));
            }
        },
    }
}

/// Where the element strategy gives back what it encodes, so does the
/// tag-checked sequence strategy: the tag it writes is the one it checks.
pub proof fn lemma_tagged_sequence_round_trip<T, S: Wooder<T> + Dewooder<T>>(
    t: TaggedSequenceTran<S>,
    same: spec_fn(T, T) -> bool,
    v: Vec<T>,
    w: Wood,
    r: Result<Vec<T>, DewoodifyError>,
)
    requires
        forall|i: int| 0 <= i < v@.len() ==> round_trips_on(t.1, same, #[trigger] v@[i]),
        t.woodifies(v, w),
        t.dewoodifies(w, r),
    ensures
        r matches Ok(u) && u@.len() == v@.len() && forall|i: int| 0 <= i < v@.len() ==> same(v@[i], #[trigger] u@[i]),
{
    let ws = children(w).drop_first();
    match r {
        Ok(u) => {
            assert forall|i: int| 0 <= i < v@.len() implies same(v@[i], #[trigger] u@[i]) by {
                assert(t.1.woodifies(v@[i], ws[i]));
                assert(t.1.dewoodifies(ws[i], Ok(u@[i])));
            }
        },
        Err(e) => {
            let k = choose|k: int| seq_fails_at(t.1, ws, k, e);
            assert(t.1.woodifies(v@[k], ws[k]));
            assert(t.1.dewoodifies(ws[k], Err(e)));
        },
    }
}

/// Where the element type's own encoding round-trips, so does that of a
/// vector of it.
pub proof fn lemma_vec_round_trip<T: Woodable + Dewoodable>(
    same: spec_fn(T, T) -> bool,
    v: Vec<T>,
    w: Wood,
    r: Result<Vec<T>, DewoodifyError>,
)
    requires
        forall|i: int| 0 <= i < v@.len() ==> round_trips_on::<T, DefaultBiwooder>(DefaultBiwooder, same, #[trigger] v@[i]),
        v.woodifies(w),
        <Vec<T> as Dewoodable>::dewoodifies(w, r),
    ensures
        r matches Ok(u) && u@.len() == v@.len() && forall|i: int| 0 <= i < v@.len() ==> same(v@[i], #[trigger] u@[i]),
{
    lemma_sequence_round_trip::<T, DefaultBiwooder>(SequenceTran(DefaultBiwooder), same, v, w, r);
}

/// A tree that renders as a leaf does is a leaf with the same text: what the
/// parser reads back from an encoded leaf is that leaf, up to position.
pub proof fn lemma_leaf_read_back(w: Wood, read: Wood)
    requires
        w is Leaf,
        rendered(read) == rendered(w),
    ensures
        is_leaf_of(read, initial_text(w)),
{
    lemma_leaf_text_read(read, initial_text(w));
}

/// Decoding what is read back from the text of an encoded `bool` gives it back.
pub proof fn lemma_bool_text_round_trip(v: bool, w: Wood, read: Wood, r: Result<bool, DewoodifyError>)
    requires
        v.woodifies(w),
        rendered(read) == rendered(w),
        <bool as Dewoodable>::dewoodifies(read, r),
    ensures
        r == Ok::<bool, DewoodifyError>(v),
{
    lemma_leaf_read_back(w, read);
    lemma_bool_round_trip(v, read, r);
}

/// Decoding what is read back from the text of an encoded `char` gives it back.
pub proof fn lemma_char_text_round_trip(v: char, w: Wood, read: Wood, r: Result<char, DewoodifyError>)
    requires
        v.woodifies(w),
        rendered(read) == rendered(w),
        <char as Dewoodable>::dewoodifies(read, r),
    ensures
        r == Ok::<char, DewoodifyError>(v),
{
    lemma_leaf_read_back(w, read);
    lemma_char_round_trip(v, read, r);
}

/// Decoding what is read back from the text of an encoded `i64` gives it back.
pub proof fn lemma_i64_text_round_trip(v: i64, w: Wood, read: Wood, r: Result<i64, DewoodifyError>)
    requires
        v.woodifies(w),
        rendered(read) == rendered(w),
        <i64 as Dewoodable>::dewoodifies(read, r),
    ensures
        r == Ok::<i64, DewoodifyError>(v),
{
    lemma_leaf_read_back(w, read);
    lemma_i64_round_trip(v, read, r);
}

/// Decoding what is read back from the text of an encoded `isize` gives it back.
pub proof fn lemma_isize_text_round_trip(v: isize, w: Wood, read: Wood, r: Result<isize, DewoodifyError>)
    requires
        v.woodifies(w),
        rendered(read) == rendered(w),
        <isize as Dewoodable>::dewoodifies(read, r),
    ensures
        r == Ok::<isize, DewoodifyError>(v),
{
    lemma_leaf_read_back(w, read);
    lemma_isize_round_trip(v, read, r);
}

/// Decoding what is read back from the text of an encoded `i32` gives it back.
pub proof fn lemma_i32_text_round_trip(v: i32, w: Wood, read: Wood, r: Result<i32, DewoodifyError>)
    requires
        v.woodifies(w),
        rendered(read) == rendered(w),
        <i32 as Dewoodable>::dewoodifies(read, r),
    ensures
        r == Ok::<i32, DewoodifyError>(v),
{
    lemma_leaf_read_back(w, read);
    lemma_i32_round_trip(v, read, r);
}

/// Decoding what is read back from the text of an encoded `u64` gives it back.
pub proof fn lemma_u64_text_round_trip(v: u64, w: Wood, read: Wood, r: Result<u64, DewoodifyError>)
    requires
        v.woodifies(w),
        rendered(read) == rendered(w),
        <u64 as Dewoodable>::dewoodifies(read, r),
    ensures
        r == Ok::<u64, DewoodifyError>(v),
{
    lemma_leaf_read_back(w, read);
    lemma_u64_round_trip(v, read, r);
}

/// Decoding what is read back from the text of an encoded `u32` gives it back.
pub proof fn lemma_u32_text_round_trip(v: u32, w: Wood, read: Wood, r: Result<u32, DewoodifyError>)
    requires
        v.woodifies(w),
        rendered(read) == rendered(w),
        <u32 as Dewoodable>::dewoodifies(read, r),
    ensures
        r == Ok::<u32, DewoodifyError>(v),
{
    lemma_leaf_read_back(w, read);
    lemma_u32_round_trip(v, read, r);
}

/// Decoding what is read back from the text of an encoded `usize` gives it back.
pub proof fn lemma_usize_text_round_trip(v: usize, w: Wood, read: Wood, r: Result<usize, DewoodifyError>)
    requires
        v.woodifies(w),
        rendered(read) == rendered(w),
        <usize as Dewoodable>::dewoodifies(read, r),
    ensures
        r == Ok::<usize, DewoodifyError>(v),
{
    lemma_leaf_read_back(w, read);
    lemma_usize_round_trip(v, read, r);
}

/// Decoding what is read back from the text of an encoded `String` gives it back.
pub proof fn lemma_string_text_round_trip(v: String, w: Wood, read: Wood, r: Result<String, DewoodifyError>)
    requires
        v.woodifies(w),
        rendered(read) == rendered(w),
        <String as Dewoodable>::dewoodifies(read, r),
    ensures
        r matches Ok(u) && u@ == v@,
{
    lemma_leaf_read_back(w, read);
    lemma_string_round_trip(v, read, r);
}

/// A tree that renders as a branch does is a branch with as many children,
/// each rendering as the matching child does.
pub proof fn lemma_branch_read_back(w: Wood, read: Wood)
    requires
        w is Branch,
        rendered(read) == rendered(w),
    ensures
        read is Branch,
        children(read).len() == children(w).len(),
        forall|i: int| 0 <= i < children(w).len() ==> rendered(#[trigger] children(read)[i]) == rendered(children(w)[i]),
{
    assert(rendered(w) + Seq::<char>::empty() == rendered(read) + Seq::<char>::empty());
    lemma_reading(w, read, Seq::empty(), Seq::empty());
}

/// `inner` gives back, up to `same`, every value that it encodes, also from
/// any tree that renders as the encoding does: from what the parser reads
/// back from the encoding's text.
pub open spec fn text_round_trips<T, S: Wooder<T> + Dewooder<T>>(inner: S, same: spec_fn(T, T) -> bool) -> bool {
    forall|x: T| #[trigger] text_round_trips_on(inner, same, x)
}

/// `inner` gives `x` back, up to `same`, from every tree that renders as an
/// encoding of it does.
pub open spec fn text_round_trips_on<T, S: Wooder<T> + Dewooder<T>>(inner: S, same: spec_fn(T, T) -> bool, x: T) -> bool {
    forall|w: Wood, read: Wood, r: Result<T, DewoodifyError>|
        #[trigger] inner.woodifies(x, w) && rendered(read) == rendered(w) && #[trigger] inner.dewoodifies(read, r)
            ==> (r matches Ok(y) && same(x, y))
}

/// Strings read back from their text.
pub proof fn lemma_string_text_round_trips()
    ensures
        text_round_trips::<String, DefaultBiwooder>(DefaultBiwooder, |a: String, b: String| a@ == b@),
{
    assert forall|x: String, w: Wood, read: Wood, r: Result<String, DewoodifyError>|
        #[trigger] DefaultBiwooder.woodifies(x, w) && rendered(read) == rendered(w) && #[trigger] DefaultBiwooder.dewoodifies(read, r)
        implies (r matches Ok(y) && (|a: String, b: String| a@ == b@)(x, y)) by {
        lemma_string_text_round_trip(x, w, read, r);
    }
}

/// Booleans read back from their text.
pub proof fn lemma_bool_text_round_trips()
    ensures
        text_round_trips::<bool, DefaultBiwooder>(DefaultBiwooder, |a: bool, b: bool| a == b),
{
    assert forall|x: bool, w: Wood, read: Wood, r: Result<bool, DewoodifyError>|
        #[trigger] DefaultBiwooder.woodifies(x, w) && rendered(read) == rendered(w) && #[trigger] DefaultBiwooder.dewoodifies(read, r)
        implies (r matches Ok(y) && (|a: bool, b: bool| a == b)(x, y)) by {
        lemma_bool_text_round_trip(x, w, read, r);
    }
}

/// Where the element strategy reads back from text what it encodes, so does
/// the sequence strategy.
pub proof fn lemma_sequence_text_round_trip<T, S: Wooder<T> + Dewooder<T>>(
    t: SequenceTran<S>,
    same: spec_fn(T, T) -> bool,
    v: Vec<T>,
    w: Wood,
    read: Wood,
    r: Result<Vec<T>, DewoodifyError>,
)
    requires
        forall|i: int| 0 <= i < v@.len() ==> text_round_trips_on(t.0, same, #[trigger] v@[i]),
        t.woodifies(v, w),
        rendered(read) == rendered(w),
        t.dewoodifies(read, r),
    ensures
        r matches Ok(u) && u@.len() == v@.len() && forall|i: int| 0 <= i < v@.len() ==> same(v@[i], #[trigger] u@[i]),
{
    lemma_branch_read_back(w, read);
    let ws = children(w);
    let rs = children(read);
    match r {
        Ok(u) => {
            assert forall|i: int| 0 <= i < v@.len() implies same(v@[i], #[trigger] u@[i]) by {
                assert(t.0.woodifies(v@[i], ws[i]));
                assert(rendered(rs[i]) == rendered(ws[i]));
                assert(t.0.dewoodifies(rs[i], Ok(u@[i])));
            }
        },
        Err(e) => {
            let k = choose|k: int| seq_fails_at(t.0, rs, k, e);
            assert(t.0.woodifies(v@[k], ws[k]));
            assert(rendered(rs[k]) == rendered(ws[k]));
            assert(t.0.dewoodifies(rs[k], Err(e)));
        },
    }
}

/// Where the key and value strategies read back from text what they encode,
/// so does the pair strategy.
pub proof fn lemma_pair_text_round_trip<K, V, KT: Wooder<K> + Dewooder<K>, VT: Wooder<V> + Dewooder<V>>(
    t: PairBi<KT, VT>,
    same_key: spec_fn(K, K) -> bool,
    same_value: spec_fn(V, V) -> bool,
    v: (K, V),
    w: Wood,
    read: Wood,
    r: Result<(K, V), DewoodifyError>,
)
    requires
        text_round_trips_on(t.0, same_key, v.0),
        text_round_trips_on(t.1, same_value, v.1),
        t.woodifies(v, w),
        rendered(read) == rendered(w),
        t.dewoodifies(read, r),
    ensures
        r matches Ok(u) && same_key(v.0, u.0) && same_value(v.1, u.1),
{
    lemma_branch_read_back(w, read);
    let ws = children(w);
    let rs = children(read);
    assert(rendered(rs[0]) == rendered(ws[0]));
    assert(rendered(rs[1]) == rendered(ws[1]));
    match r {
        Ok(u) => {
            assert(t.0.dewoodifies(rs[0], Ok(u.0)));
            assert(t.1.dewoodifies(rs[1], Ok(u.1)));
        },
        Err(e) => {
            if t.0.dewoodifies(rs[0], Err(e)) {
            } else {
                assert(t.1.dewoodifies(rs[1], Err(e)));
            }
        },
    }
}

/// Where keys follow the hash-table model and the key and value strategies
/// read back from text exactly what they encode, decoding what is read back
/// from the text of an encoded map gives the same map.
pub proof fn lemma_map_text_round_trip<K: Eq + Hash, V: Eq + Hash, KT: Wooder<K> + Dewooder<K>, VT: Wooder<V> + Dewooder<V>>(
    t: HashMapBi<KT, VT>,
    m: HashMap<K, V>,
    w: Wood,
    read: Wood,
    r: Result<HashMap<K, V>, DewoodifyError>,
)
    requires
        obeys_key_model::<K>(),
        forall|k: K| #[trigger] m@.contains_key(k)
            ==> text_round_trips_on(t.0, |a: K, b: K| a == b, k) && text_round_trips_on(t.1, |a: V, b: V| a == b, m@[k]),
        t.woodifies(m, w),
        rendered(read) == rendered(w),
        t.dewoodifies(read, r),
    ensures
        r matches Ok(u) && u@ == m@,
{
    lemma_branch_read_back(w, read);
    let ws = children(w);
    let rs = children(read);
    let es = choose|es: Seq<(K, V)>| {
        &&& es.len() == ws.len()
        &&& es.no_duplicates()
        &&& es.to_set() == m@.kv_pairs()
        &&& forall|i: int| 0 <= i < es.len() ==> pair_woodifies(t.0, t.1, es[i].0, es[i].1, #[trigger] ws[i])
    };
    assert forall|i: int| 0 <= i < es.len() implies m@.contains_key((#[trigger] es[i]).0) && m@[es[i].0] == es[i].1 by {
        assert(es.to_set().contains(es[i]));
    }
    match r {
        Ok(u) => {
            let ps = choose|ps: Seq<(K, V)>| {
                &&& #[trigger] seq_dewoodifies(PairBi(t.0, t.1), rs, ps)
                &&& obeys_key_model::<K>() ==> u@ == map_of_pairs(ps)
            };
            assert forall|i: int| 0 <= i < ps.len() implies #[trigger] ps[i] == es[i] by {
                assert(pair_woodifies(t.0, t.1, es[i].0, es[i].1, ws[i]));
                assert(m@.contains_key(es[i].0));
                assert(PairBi(t.0, t.1).dewoodifies(rs[i], Ok(ps[i])));
                assert(rendered(rs[i]) == rendered(ws[i]));
                lemma_branch_read_back(ws[i], rs[i]);
                let c = children(ws[i]);
                let d = children(rs[i]);
                assert(rendered(d[0]) == rendered(c[0]));
                assert(rendered(d[1]) == rendered(c[1]));
                assert(t.0.woodifies(es[i].0, c[0]));
                assert(t.0.dewoodifies(d[0], Ok(ps[i].0)));
                assert(t.1.woodifies(es[i].1, c[1]));
                assert(t.1.dewoodifies(d[1], Ok(ps[i].1)));
            }
            assert(ps =~= es);
            lemma_map_of_entries(es, m@);
        },
        Err(e) => {
            let k = choose|k: int| seq_fails_at(PairBi(t.0, t.1), rs, k, e);
            assert(pair_woodifies(t.0, t.1, es[k].0, es[k].1, ws[k]));
            assert(m@.contains_key(es[k].0));
            assert(PairBi(t.0, t.1).dewoodifies(rs[k], Err(e)));
            assert(rendered(rs[k]) == rendered(ws[k]));
            lemma_branch_read_back(ws[k], rs[k]);
            let c = children(ws[k]);
            let d = children(rs[k]);
            assert(rendered(d[0]) == rendered(c[0]));
            assert(rendered(d[1]) == rendered(c[1]));
            assert(t.0.woodifies(es[k].0, c[0]));
            assert(t.1.woodifies(es[k].1, c[1]));
            if t.0.dewoodifies(d[0], Err(e)) {
            } else {
                assert(t.1.dewoodifies(d[1], Err(e)));
            }
        },
    }
}

/// The same for tag-checked maps: where keys follow the hash-table model and the key and value strategies
/// give back exactly what they encode, decoding the encoding of a map gives
/// the same map.
pub proof fn lemma_tagged_map_round_trip<'a, K: Eq + Hash, V: Eq + Hash, KT: Wooder<K> + Dewooder<K>, VT: Wooder<V> + Dewooder<V>>(
    t: TaggedHashMapBi<'a, KT, VT>,
    m: HashMap<K, V>,
    w: Wood,
    r: Result<HashMap<K, V>, DewoodifyError>,
)
    requires
        obeys_key_model::<K>(),
        forall|k: K| #[trigger] m@.contains_key(k)
            ==> round_trips_on(t.1, |a: K, b: K| a == b, k) && round_trips_on(t.2, |a: V, b: V| a == b, m@[k]),
        t.woodifies(m, w),
        t.dewoodifies(w, r),
    ensures
        r matches Ok(u) && u@ == m@,
{
    let ws = children(w).drop_first();
    let es = choose|es: Seq<(K, V)>| {
        &&& es.len() == ws.len()
        &&& es.no_duplicates()
        &&& es.to_set() == m@.kv_pairs()
        &&& forall|i: int| 0 <= i < es.len() ==> pair_woodifies(t.1, t.2, es[i].0, es[i].1, #[trigger] ws[i])
    };
    assert forall|i: int| 0 <= i < es.len() implies m@.contains_key((#[trigger] es[i]).0) && m@[es[i].0] == es[i].1 by {
        assert(es.to_set().contains(es[i]));
    }
    match r {
        Ok(u) => {
            let ps = choose|ps: Seq<(K, V)>| {
                &&& #[trigger] seq_dewoodifies(PairBi(t.1, t.2), ws, ps)
                &&& obeys_key_model::<K>() ==> u@ == map_of_pairs(ps)
            };
            assert forall|i: int| 0 <= i < ps.len() implies #[trigger] ps[i] == es[i] by {
                assert(pair_woodifies(t.1, t.2, es[i].0, es[i].1, ws[i]));
                assert(m@.contains_key(es[i].0));
                assert(PairBi(t.1, t.2).dewoodifies(ws[i], Ok(ps[i])));
                let c = children(ws[i]);
                assert(t.1.woodifies(es[i].0, c[0]));
                assert(t.1.dewoodifies(c[0], Ok(ps[i].0)));
                assert(t.2.woodifies(es[i].1, c[1]));
                assert(t.2.dewoodifies(c[1], Ok(ps[i].1)));
            }
            assert(ps =~= es);
            lemma_map_of_entries(es, m@);
        },
        Err(e) => {
            let k = choose|k: int| seq_fails_at(PairBi(t.1, t.2), ws, k, e);
            assert(pair_woodifies(t.1, t.2, es[k].0, es[k].1, ws[k]));
            assert(m@.contains_key(es[k].0));
            assert(PairBi(t.1, t.2).dewoodifies(ws[k], Err(e)));
            let c = children(ws[k]);
            assert(t.1.woodifies(es[k].0, c[0]));
            assert(t.2.woodifies(es[k].1, c[1]));
            if t.1.dewoodifies(c[0], Err(e)) {
            } else {
                assert(t.2.dewoodifies(c[1], Err(e)));
            }
        },
    }
}

/// A tag-checked sequence encoded under one tag fails to decode under
/// another.
pub proof fn lemma_tagged_sequence_other_tag<T, S: Wooder<T> + Dewooder<T>>(
    t: TaggedSequenceTran<S>,
    other: TaggedSequenceTran<S>,
    v: Vec<T>,
    w: Wood,
    r: Result<Vec<T>, DewoodifyError>,
)
    requires
        t.woodifies(v, w),
        other.0@ != t.0@,
        other.dewoodifies(w, r),
    ensures
        r is Err,
{
}

} // verus!
