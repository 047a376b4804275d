//! Maps, plain and tag-checked: a branch of two-element key/value branches.
use vstd::prelude::*;
use std::collections::HashMap;
use std::hash::Hash;
use vstd::std_specs::hash::obeys_key_model;
use crate::wood::{Wood, children, is_leaf_of};
use crate::error::{DewoodifyError, error_at};
use crate::codec::{Wooder, Dewooder, Woodable, Dewoodable, DefaultWooder, DefaultDewooder};
use crate::sequence::{PairBi, pair_woodifies, woodify_pair, dewoodify_pair, seq_dewoodifies, seq_fails_at, decodes_some, tag_problem, ensure_tag};

verus! {

broadcast use vstd::std_specs::hash::group_hash_axioms;

/// The map that inserting the pairs of `ps` in order builds: where a key
/// comes more than once, the last value stays.
pub open spec fn map_of_pairs<K, V>(ps: Seq<(K, V)>) -> Map<K, V>
    decreases ps.len(),
{
    if ps.len() == 0 {
        Map::empty()
    } else {
        map_of_pairs(ps.drop_last()).insert(ps.last().0, ps.last().1)
    }
}

/// `ws` holds one key/value branch per entry of `m`, in some order, each
/// entry once.
pub open spec fn map_woodifies<K, V, KT: Wooder<K>, VT: Wooder<V>>(kt: KT, vt: VT, m: Map<K, V>, ws: Seq<Wood>) -> bool {
    exists|es: Seq<(K, V)>| {
        &&& es.len() == ws.len()
        &&& es.no_duplicates()
        &&& es.to_set() == m.kv_pairs()
        &&& forall|i: int| 0 <= i < es.len() ==> pair_woodifies(kt, vt, es[i].0, es[i].1, #[trigger] ws[i])
    }
}

/// `r` is an outcome of decoding the key/value branches `ws` into a map.
pub open spec fn map_outcome<K, V, KT: Dewooder<K>, VT: Dewooder<V>>(kt: KT, vt: VT, ws: Seq<Wood>, r: Result<HashMap<K, V>, DewoodifyError>) -> bool {
    match r {
        Ok(m) => exists|ps: Seq<(K, V)>| {
            &&& #[trigger] seq_dewoodifies(PairBi(kt, vt), ws, ps)
            &&& obeys_key_model::<K>() ==> m@ == map_of_pairs(ps)
        },
        Err(e) => exists|k: int| seq_fails_at(PairBi(kt, vt), ws, k, e),
    }
}

/// Relies on `HashMap::iter`: it visits each entry of the map once, in an
/// order of its own.
#[verifier::external_body]
fn map_entries<K, V>(m: &HashMap<K, V>) -> (r: Vec<(&K, &V)>)
    ensures
        obeys_key_model::<K>() ==> {
            &&& r@.unref().no_duplicates()
            &&& r@.unref().to_set() == m@.kv_pairs()
            &&& r@.len() == m@.dom().len()
        },
{
    m.iter().collect()
}

/// Encodes each of the entries `i` as a key/value branch, appended to `o`.
fn woodify_map<K, V, KeyWooder: Wooder<K>, ValWooder: Wooder<V>>(ktr: &KeyWooder, vtr: &ValWooder, i: &Vec<(&K, &V)>, o: &mut Vec<Wood>)
    requires
        ktr.woodify_ready(),
        vtr.woodify_ready(),
    ensures
        final(o)@.len() == old(o)@.len() + i@.len(),
        final(o)@.subrange(0, old(o)@.len() as int) == old(o)@,
        forall|j: int| 0 <= j < i@.len() ==> pair_woodifies(*ktr, *vtr, *i@[j].0, *i@[j].1, #[trigger] final(o)@[old(o)@.len() + j]),
{
    let ghost start = o@.len();
    let mut n: usize = 0;
    while n < i.len()
        invariant
            ktr.woodify_ready(),
            vtr.woodify_ready(),
            n <= i@.len(),
            start == old(o)@.len(),
            o@.len() == start + n,
            o@.subrange(0, start as int) == old(o)@,
            forall|j: int| 0 <= j < n ==> pair_woodifies(*ktr, *vtr, *i@[j].0, *i@[j].1, #[trigger] o@[start + j]),
        decreases i@.len() - n,
    {
        let (k, x) = i[n];
        let w = woodify_pair(ktr, vtr, k, x);
        o.push(w);
        proof {
            assert(o@.subrange(0, start as int) =~= old(o)@);
        }
        n = n + 1;
    }
}

/// Encodes a map: one key/value branch per entry, appended to `o`.
fn woodify_map_into<K, V, KeyWooder: Wooder<K>, ValWooder: Wooder<V>>(ktr: &KeyWooder, vtr: &ValWooder, m: &HashMap<K, V>, o: &mut Vec<Wood>)
    requires
        ktr.woodify_ready(),
        vtr.woodify_ready(),
    ensures
        final(o)@.len() >= old(o)@.len(),
        final(o)@.subrange(0, old(o)@.len() as int) == old(o)@,
        obeys_key_model::<K>() ==> map_woodifies(*ktr, *vtr, m@, final(o)@.subrange(old(o)@.len() as int, final(o)@.len() as int)),
{
    let entries = map_entries(m);
    woodify_map(ktr, vtr, &entries, o);
    proof {
        if obeys_key_model::<K>() {
            let ws = o@.subrange(old(o)@.len() as int, o@.len() as int);
            let es = entries@.unref();
            assert forall|j: int| 0 <= j < es.len() implies pair_woodifies(*ktr, *vtr, es[j].0, es[j].1, #[trigger] ws[j]) by {
                assert(ws[j] == o@[old(o)@.len() + j]);
            }
            assert(es.len() == ws.len());
        }
    }
}

/// Decodes each of `i` as a key/value branch, appending the pairs to `o`,
/// and stops at the first failure.
fn dewoodify_map<K, V, KeyTran: Dewooder<K>, ValTran: Dewooder<V>>(ktr: &KeyTran, vtr: &ValTran, i: &[Wood], o: &mut Vec<(K, V)>) -> (r: Result<(), DewoodifyError>)
    requires
        ktr.dewoodify_ready(),
        vtr.dewoodify_ready(),
    ensures
        final(o)@.len() >= old(o)@.len(),
        final(o)@.subrange(0, old(o)@.len() as int) == old(o)@,
        r is Ok ==> final(o)@.len() == old(o)@.len() + i@.len()
            && seq_dewoodifies(PairBi(*ktr, *vtr), i@, final(o)@.subrange(old(o)@.len() as int, final(o)@.len() as int)),
        r matches Err(e) ==> exists|k: int| seq_fails_at(PairBi(*ktr, *vtr), i@, k, e),
{
    let ghost start = o@.len();
    let ghost pb = PairBi(*ktr, *vtr);
    let mut n: usize = 0;
    while n < i.len()
        invariant
            ktr.dewoodify_ready(),
            vtr.dewoodify_ready(),
            n <= i@.len(),
            o@.len() == start + n,
            start == old(o)@.len(),
            o@.subrange(0, start as int) == old(o)@,
            pb == PairBi(*ktr, *vtr),
            forall|j: int| 0 <= j < n ==> pb.dewoodifies(#[trigger] i@[j], Ok(o@[start + j])),
        decreases i@.len() - n,
    {
        match dewoodify_pair(ktr, vtr, &i[n]) {
            Ok(p) => {
                o.push(p);
                proof {
                    assert(o@.subrange(0, start as int) =~= old(o)@);
                }
            },
            Err(e) => {
                proof {
                    assert forall|j: int| 0 <= j < n implies #[trigger] decodes_some::<(K, V), PairBi<KeyTran, ValTran>>(pb, i@[j]) by {
                        assert(pb.dewoodifies(i@[j], Ok(o@[start + j])));
                    }
                    assert(seq_fails_at(pb, i@, n as int, e));
                }
                return Err(e);
            },
        }
        n = n + 1;
    }
    proof {
        let tail = o@.subrange(start as int, o@.len() as int);
        assert(tail.len() == i@.len());
        assert forall|j: int| 0 <= j < i@.len() implies pb.dewoodifies(#[trigger] i@[j], Ok(tail[j])) by {
            assert(tail[j] == o@[start + j]);
        }
    }
    Ok(())
}

/// Inserts the pairs in order into a new map.
fn map_from_pairs<K: Eq + Hash, V>(ps: Vec<(K, V)>) -> (r: HashMap<K, V>)
    ensures
        obeys_key_model::<K>() ==> r@ == map_of_pairs(ps@),
{
    let ghost all = ps@;
    let mut m: HashMap<K, V> = HashMap::new();
    for p in it: ps.into_iter()
        invariant
            it.seq() == all,
            obeys_key_model::<K>() ==> m@ == map_of_pairs(all.take(it.index() as int)),
    {
        let ghost before = it.index();
        proof {
            assert(all.take(before + 1).drop_last() =~= all.take(before as int));
        }
        let (k, x) = p;
        m.insert(k, x);
    }
    proof {
        assert(all.take(all.len() as int) =~= all);
    }
    m
}

/// Decodes the key/value branches `ws` into a map.
fn dewoodify_map_from<K: Eq + Hash, V, KeyTran: Dewooder<K>, ValTran: Dewooder<V>>(ktr: &KeyTran, vtr: &ValTran, ws: &[Wood]) -> (r: Result<HashMap<K, V>, DewoodifyError>)
    requires
        ktr.dewoodify_ready(),
        vtr.dewoodify_ready(),
    ensures
        map_outcome(*ktr, *vtr, ws@, r),
{
    let mut ret: Vec<(K, V)> = Vec::new();
    match dewoodify_map(ktr, vtr, ws, &mut ret) {
        Ok(()) => {
            proof {
                assert(ret@.subrange(0, ret@.len() as int) =~= ret@);
            }
            let ghost ps = ret@;
            let m = map_from_pairs(ret);
            proof {
                assert(seq_dewoodifies(PairBi(*ktr, *vtr), ws@, ps));
            }
            Ok(m)
        },
        Err(e) => Err(e),
    }
}

/// Encodes a map as a branch of key/value branches.
fn woodify_map_branch<K, V, KeyWooder: Wooder<K>, ValWooder: Wooder<V>>(ktr: &KeyWooder, vtr: &ValWooder, m: &HashMap<K, V>) -> (r: Wood)
    requires
        ktr.woodify_ready(),
        vtr.woodify_ready(),
    ensures
        r is Branch,
        obeys_key_model::<K>() ==> map_woodifies(*ktr, *vtr, m@, children(r)),
{
    let mut ret: Vec<Wood> = Vec::new();
    woodify_map_into(ktr, vtr, m, &mut ret);
    proof {
        assert(ret@.subrange(0, ret@.len() as int) =~= ret@);
    }
    Wood::branch(ret)
}

impl<K: Eq + Hash + Woodable, V: Eq + Hash + Woodable> Woodable for HashMap<K, V> {
    open spec fn woodifies(&self, w: Wood) -> bool {
        &&& w is Branch
        &&& obeys_key_model::<K>() ==> map_woodifies(DefaultWooder, DefaultWooder, self@, children(w))
    }

    fn woodify(&self) -> (r: Wood) {
        woodify_map_branch(&DefaultWooder, &DefaultWooder, self)
    }
}

impl<K: Eq + Hash + Dewoodable, V: Eq + Hash + Dewoodable> Dewoodable for HashMap<K, V> {
    open spec fn dewoodifies(w: Wood, r: Result<HashMap<K, V>, DewoodifyError>) -> bool {
        map_outcome(DefaultDewooder, DefaultDewooder, children(w), r)
    }

    fn dewoodify(v: &Wood) -> (r: Result<HashMap<K, V>, DewoodifyError>) {
        dewoodify_map_from(&DefaultDewooder, &DefaultDewooder, v.contents())
    }
}

/// A strategy for maps: a branch of key/value branches, with one strategy
/// for keys and one for values.
#[derive(Clone)]
pub struct HashMapBi<KeyTran, ValTran>(pub KeyTran, pub ValTran);

impl<K: Eq + Hash, V: Eq + Hash, KeyTran: Wooder<K>, ValTran: Wooder<V>> Wooder<HashMap<K, V>> for HashMapBi<KeyTran, ValTran> {
    open spec fn woodify_ready(&self) -> bool {
        self.0.woodify_ready() && self.1.woodify_ready()
    }

    open spec fn woodifies(&self, v: HashMap<K, V>, w: Wood) -> bool {
        &&& w is Branch
        &&& obeys_key_model::<K>() ==> map_woodifies(self.0, self.1, v@, children(w))
    }

    fn woodify(&self, v: &HashMap<K, V>) -> (r: Wood) {
        woodify_map_branch(&self.0, &self.1, v)
    }
}

impl<K: Eq + Hash, V: Eq + Hash, KeyTran: Dewooder<K>, ValTran: Dewooder<V>> Dewooder<HashMap<K, V>> for HashMapBi<KeyTran, ValTran> {
    open spec fn dewoodify_ready(&self) -> bool {
        self.0.dewoodify_ready() && self.1.dewoodify_ready()
    }

    open spec fn dewoodifies(&self, w: Wood, r: Result<HashMap<K, V>, DewoodifyError>) -> bool {
        map_outcome(self.0, self.1, children(w), r)
    }

    fn dewoodify(&self, v: &Wood) -> (r: Result<HashMap<K, V>, DewoodifyError>) {
        dewoodify_map_from(&self.0, &self.1, v.contents())
    }
}

/// A strategy for maps written after a leading tag leaf.
#[derive(Clone)]
pub struct TaggedHashMapBi<'a, KeyTran, ValTran>(pub &'a str, pub KeyTran, pub ValTran);

impl<'a, K: Eq + Hash, V: Eq + Hash, KeyTran: Wooder<K>, ValTran: Wooder<V>> Wooder<HashMap<K, V>> for TaggedHashMapBi<'a, KeyTran, ValTran> {
    open spec fn woodify_ready(&self) -> bool {
        self.1.woodify_ready() && self.2.woodify_ready()
    }

    open spec fn woodifies(&self, v: HashMap<K, V>, w: Wood) -> bool {
        &&& w is Branch
        &&& children(w).len() > 0
        &&& is_leaf_of(children(w)[0], self.0@)
        &&& obeys_key_model::<K>() ==> map_woodifies(self.1, self.2, v@, children(w).drop_first())
    }

    fn woodify(&self, v: &HashMap<K, V>) -> (r: Wood) {
        let mut ret: Vec<Wood> = Vec::new();
        ret.push(Wood::leaf(String::from_str(self.0)));
        let ghost first = ret@[0];
        woodify_map_into(&self.1, &self.2, v, &mut ret);
        proof {
            assert(ret@.subrange(0, 1)[0] == ret@[0]);
            assert(ret@[0] == first);
            assert(ret@.subrange(1, ret@.len() as int) =~= ret@.drop_first());
        }
        Wood::branch(ret)
    }
}

impl<'a, K: Eq + Hash, V: Eq + Hash, KeyTran: Dewooder<K>, ValTran: Dewooder<V>> Dewooder<HashMap<K, V>> for TaggedHashMapBi<'a, KeyTran, ValTran> {
    open spec fn dewoodify_ready(&self) -> bool {
        self.1.dewoodify_ready() && self.2.dewoodify_ready()
    }

    open spec fn dewoodifies(&self, w: Wood, r: Result<HashMap<K, V>, DewoodifyError>) -> bool {
        match tag_problem(w, self.0@) {
            None => map_outcome(self.1, self.2, children(w).drop_first(), r),
            Some((n, m)) => r matches Err(e) && error_at(e, n, m),
        }
    }

    fn dewoodify(&self, v: &Wood) -> (r: Result<HashMap<K, V>, DewoodifyError>) {
        let it = ensure_tag(v, self.0)?;
        dewoodify_map_from(&self.1, &self.2, it)
    }
}

} // verus!
