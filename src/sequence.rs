//! Sequences, tag-checked sequences and pairs.
use vstd::prelude::*;
use crate::wood::{Wood, children, is_leaf_of};
use crate::error::{DewoodifyError, error_at};
use crate::codec::{Wooder, Dewooder, Woodable, Dewoodable, DefaultBiwooder};
use crate::text::str_eq;
use crate::decimal::{int_text, format_int};

verus! {

/// `ws` encodes the values `vs` one for one, in order.
pub open spec fn seq_woodifies<T, S: Wooder<T>>(inner: S, vs: Seq<T>, ws: Seq<Wood>) -> bool {
    &&& ws.len() == vs.len()
    &&& forall|i: int| 0 <= i < vs.len() ==> inner.woodifies(vs[i], #[trigger] ws[i])
}

/// Every node of `ws` decodes, in order, to the values `vs`.
pub open spec fn seq_dewoodifies<T, S: Dewooder<T>>(inner: S, ws: Seq<Wood>, vs: Seq<T>) -> bool {
    &&& vs.len() == ws.len()
    &&& forall|i: int| 0 <= i < ws.len() ==> inner.dewoodifies(#[trigger] ws[i], Ok(vs[i]))
}

/// `w` decodes to some value under `inner`.
pub open spec fn decodes_some<T, S: Dewooder<T>>(inner: S, w: Wood) -> bool {
    exists|x: T| inner.dewoodifies(w, Ok(x))
}

/// The nodes of `ws` before index `k` decode, and the one at `k` fails with `e`.
pub open spec fn seq_fails_at<T, S: Dewooder<T>>(inner: S, ws: Seq<Wood>, k: int, e: DewoodifyError) -> bool {
    &&& 0 <= k < ws.len()
    &&& forall|i: int| 0 <= i < k ==> #[trigger] decodes_some::<T, S>(inner, ws[i])
    &&& inner.dewoodifies(ws[k], Err(e))
}

/// `r` is an outcome of decoding the nodes `ws` one by one: all of them, or
/// the first failure.
pub open spec fn seq_outcome<T, S: Dewooder<T>>(inner: S, ws: Seq<Wood>, r: Result<Vec<T>, DewoodifyError>) -> bool {
    match r {
        Ok(out) => seq_dewoodifies(inner, ws, out@),
        Err(e) => exists|k: int| seq_fails_at(inner, ws, k, e),
    }
}

/// Encodes each of `v` with `inner` and appends the trees to `output`.
pub fn woodify_seq_into<T, S: Wooder<T>>(inner: &S, v: &[T], output: &mut Vec<Wood>)
    requires
        inner.woodify_ready(),
    ensures
        final(output)@.len() == old(output)@.len() + v@.len(),
        final(output)@.subrange(0, old(output)@.len() as int) == old(output)@,
        seq_woodifies(*inner, v@, final(output)@.subrange(old(output)@.len() as int, final(output)@.len() as int)),
{
    let ghost start = output@.len();
    let mut i: usize = 0;
    while i < v.len()
        invariant
            inner.woodify_ready(),
            i <= v@.len(),
            output@.len() == start + i,
            start == old(output)@.len(),
            output@.subrange(0, start as int) == old(output)@,
            forall|j: int| 0 <= j < i ==> inner.woodifies(v@[j], #[trigger] output@[start + j]),
        decreases v@.len() - i,
    {
        let w = inner.woodify(&v[i]);
        output.push(w);
        proof {
            assert(output@.subrange(0, start as int) =~= old(output)@);
        }
        i = i + 1;
    }
    proof {
        let tail = output@.subrange(start as int, output@.len() as int);
        assert forall|j: int| 0 <= j < v@.len() implies inner.woodifies(v@[j], #[trigger] tail[j]) by {
            assert(tail[j] == output@[start + j]);
        }
    }
}

/// Decodes each of `v` with `inner`, appending the values to `output`, and
/// stops at the first failure.
pub fn dewoodify_seq_into<T, S: Dewooder<T>>(inner: &S, v: &[Wood], output: &mut Vec<T>) -> (r: Result<(), DewoodifyError>)
    requires
        inner.dewoodify_ready(),
    ensures
        final(output)@.subrange(0, old(output)@.len() as int) == old(output)@,
        r is Ok ==> final(output)@.len() == old(output)@.len() + v@.len()
            && seq_dewoodifies(*inner, v@, final(output)@.subrange(old(output)@.len() as int, final(output)@.len() as int)),
        r matches Err(e) ==> exists|k: int| seq_fails_at(*inner, v@, k, e),
{
    let ghost start = output@.len();
    let mut i: usize = 0;
    while i < v.len()
        invariant
            inner.dewoodify_ready(),
            i <= v@.len(),
            output@.len() == start + i,
            start == old(output)@.len(),
            output@.subrange(0, start as int) == old(output)@,
            forall|j: int| 0 <= j < i ==> inner.dewoodifies(#[trigger] v@[j], Ok(output@[start + j])),
        decreases v@.len() - i,
    {
        match inner.dewoodify(&v[i]) {
            Ok(x) => {
                output.push(x);
                proof {
                    assert(output@.subrange(0, start as int) =~= old(output)@);
                }
            },
            Err(e) => {
                proof {
                    assert forall|j: int| 0 <= j < i implies #[trigger] decodes_some::<T, S>(*inner, v@[j]) by {
                        assert(inner.dewoodifies(v@[j], Ok(output@[start + j])));
                    }
                    assert(seq_fails_at(*inner, v@, i as int, e));
                }
                return Err(e);
            },
        }
        i = i + 1;
    }
    proof {
        let tail = output@.subrange(start as int, output@.len() as int);
        assert(tail.len() == v@.len());
        assert forall|j: int| 0 <= j < v@.len() implies inner.dewoodifies(#[trigger] v@[j], Ok(tail[j])) by {
            assert(tail[j] == output@[start + j]);
        }
    }
    Ok(())
}

/// Decodes all of `v` into a new vector.
fn dewoodify_seq<T, S: Dewooder<T>>(inner: &S, v: &[Wood]) -> (r: Result<Vec<T>, DewoodifyError>)
    requires
        inner.dewoodify_ready(),
    ensures
        seq_outcome(*inner, v@, r),
{
    let mut ret: Vec<T> = Vec::new();
    match dewoodify_seq_into(inner, v, &mut ret) {
        Ok(()) => {
            proof {
                assert(ret@.subrange(0, ret@.len() as int) =~= ret@);
            }
            Ok(ret)
        },
        Err(e) => Err(e),
    }
}

/// Encodes all of `v` as a branch.
fn woodify_seq<T, S: Wooder<T>>(inner: &S, v: &[T]) -> (r: Wood)
    requires
        inner.woodify_ready(),
    ensures
        r is Branch,
        seq_woodifies(*inner, v@, children(r)),
{
    let mut ret: Vec<Wood> = Vec::new();
    woodify_seq_into(inner, v, &mut ret);
    proof {
        assert(ret@.subrange(0, ret@.len() as int) =~= ret@);
    }
    Wood::branch(ret)
}

impl<T: Woodable> Woodable for Vec<T> {
    open spec fn woodifies(&self, w: Wood) -> bool {
        w is Branch && seq_woodifies(DefaultBiwooder, self@, children(w))
    }

    fn woodify(&self) -> (r: Wood) {
        woodify_seq(&DefaultBiwooder, self.as_slice())
    }
}

impl<T: Dewoodable> Dewoodable for Vec<T> {
    open spec fn dewoodifies(w: Wood, r: Result<Vec<T>, DewoodifyError>) -> bool {
        seq_outcome(DefaultBiwooder, children(w), r)
    }

    fn dewoodify(v: &Wood) -> (r: Result<Vec<T>, DewoodifyError>) {
        dewoodify_seq(&DefaultBiwooder, v.contents())
    }
}

/// A strategy for vectors: a branch with one child per element, each
/// handled by the inner strategy.
#[derive(Clone, Copy)]
pub struct SequenceTran<SubTran>(pub SubTran);

impl<T, SubTran: Wooder<T>> Wooder<Vec<T>> for SequenceTran<SubTran> {
    open spec fn woodify_ready(&self) -> bool {
        self.0.woodify_ready()
    }

    open spec fn woodifies(&self, v: Vec<T>, w: Wood) -> bool {
        w is Branch && seq_woodifies(self.0, v@, children(w))
    }

    fn woodify(&self, v: &Vec<T>) -> (r: Wood) {
        woodify_seq(&self.0, v.as_slice())
    }
}

impl<T, SubTran: Dewooder<T>> Dewooder<Vec<T>> for SequenceTran<SubTran> {
    open spec fn dewoodify_ready(&self) -> bool {
        self.0.dewoodify_ready()
    }

    open spec fn dewoodifies(&self, w: Wood, r: Result<Vec<T>, DewoodifyError>) -> bool {
        seq_outcome(self.0, children(w), r)
    }

    fn dewoodify(&self, v: &Wood) -> (r: Result<Vec<T>, DewoodifyError>) {
        dewoodify_seq(&self.0, v.contents())
    }
}

/// Where a branch fails to start with the leaf `tag`: the offending node
/// and the message; `None` where it does start so.
pub open spec fn tag_problem(w: Wood, tag: Seq<char>) -> Option<(Wood, Seq<char>)> {
    let cs = children(w);
    if cs.len() == 0 {
        Some((w, "expected \""@ + tag + "\" at beginning, but the wood was empty"@))
    } else {
        match cs[0] {
            Wood::Leaf(l) => if l.v@ == tag {
                None
            } else {
                Some((cs[0], "expected \""@ + tag + "\" here, but instead there was \""@ + l.v@ + "\""@))
            },
            Wood::Branch(_) => Some((cs[0], "expected \""@ + tag + "\" here, but instead there was a branch wood"@)),
        }
    }
}

/// Checks that `v` starts with the leaf `tag` and gives the children after it.
pub fn ensure_tag<'b>(v: &'b Wood, tag: &str) -> (r: Result<&'b [Wood], DewoodifyError>)
    ensures
        match tag_problem(*v, tag@) {
            None => r matches Ok(rest) && rest@ == children(*v).drop_first(),
            Some((n, m)) => r matches Err(e) && error_at(e, n, m),
        },
{
    let all = v.contents();
    if all.len() == 0 {
        let mut msg = String::from_str("expected \"");
        msg.append(tag);
        msg.append("\" at beginning, but the wood was empty");
        return Err(DewoodifyError::new(v, msg));
    }
    let name_wood = &all[0];
    match name_wood {
        Wood::Leaf(at) => {
            let name = at.v.as_str();
            if str_eq(name, tag) {
                let (_, rest) = all.split_at(1);
                Ok(rest)
            } else {
                let mut msg = String::from_str("expected \"");
                msg.append(tag);
                msg.append("\" here, but instead there was \"");
                msg.append(name);
                msg.append("\"");
                Err(DewoodifyError::new(name_wood, msg))
            }
        },
        Wood::Branch(_) => {
            let mut msg = String::from_str("expected \"");
            msg.append(tag);
            msg.append("\" here, but instead there was a branch wood");
            Err(DewoodifyError::new(name_wood, msg))
        },
    }
}

/// A strategy for vectors written after a leading tag leaf.
#[derive(Clone, Copy)]
pub struct TaggedSequenceTran<'a, SubTran>(pub &'a str, pub SubTran);

impl<'a, T, SubTran: Wooder<T>> Wooder<Vec<T>> for TaggedSequenceTran<'a, SubTran> {
    open spec fn woodify_ready(&self) -> bool {
        self.1.woodify_ready()
    }

    open spec fn woodifies(&self, v: Vec<T>, w: Wood) -> bool {
        &&& w is Branch
        &&& children(w).len() > 0
        &&& is_leaf_of(children(w)[0], self.0@)
        &&& seq_woodifies(self.1, v@, children(w).drop_first())
    }

    fn woodify(&self, v: &Vec<T>) -> (r: Wood) {
        let mut ret: Vec<Wood> = Vec::new();
        ret.push(Wood::leaf(String::from_str(self.0)));
        let ghost first = ret@[0];
        woodify_seq_into(&self.1, v.as_slice(), &mut ret);
        proof {
            assert(ret@.subrange(0, 1)[0] == ret@[0]);
            assert(ret@[0] == first);
            assert(ret@.subrange(1, ret@.len() as int) =~= ret@.drop_first());
        }
        Wood::branch(ret)
    }
}

impl<'a, T, SubTran: Dewooder<T>> Dewooder<Vec<T>> for TaggedSequenceTran<'a, SubTran> {
    open spec fn dewoodify_ready(&self) -> bool {
        self.1.dewoodify_ready()
    }

    open spec fn dewoodifies(&self, w: Wood, r: Result<Vec<T>, DewoodifyError>) -> bool {
        match tag_problem(w, self.0@) {
            None => seq_outcome(self.1, children(w).drop_first(), r),
            Some((n, m)) => r matches Err(e) && error_at(e, n, m),
        }
    }

    fn dewoodify(&self, v: &Wood) -> (r: Result<Vec<T>, DewoodifyError>) {
        let it = ensure_tag(v, self.0)?;
        dewoodify_seq(&self.1, it)
    }
}

/// The message for a branch of the wrong length where a pair was expected.
pub open spec fn pair_arity_msg(n: int) -> Seq<char> {
    "expected a pair, two elements, but the branch here has "@ + int_text(n)
}

pub open spec fn pair_leaf_msg() -> Seq<char> {
    "expected a pair, but the wood here is an leaf"@
}

/// `r` is an outcome of decoding `w` as a two-element branch, key first.
pub open spec fn pair_outcome<K, V, KT: Dewooder<K>, VT: Dewooder<V>>(kt: KT, vt: VT, w: Wood, r: Result<(K, V), DewoodifyError>) -> bool {
    match w {
        Wood::Leaf(_) => r matches Err(e) && error_at(e, w, pair_leaf_msg()),
        Wood::Branch(b) => if b.v@.len() != 2 {
            r matches Err(e) && error_at(e, w, pair_arity_msg(b.v@.len() as int))
        } else {
            match r {
                Ok((k, x)) => kt.dewoodifies(b.v@[0], Ok(k)) && vt.dewoodifies(b.v@[1], Ok(x)),
                Err(e) => kt.dewoodifies(b.v@[0], Err(e))
                    || (decodes_some::<K, KT>(kt, b.v@[0]) && vt.dewoodifies(b.v@[1], Err(e))),
            }
        },
    }
}

/// Decodes a two-element branch with one strategy for the key and one for
/// the value.
pub fn dewoodify_pair<K, V, KeyTran: Dewooder<K>, ValTran: Dewooder<V>>(kt: &KeyTran, vt: &ValTran, v: &Wood) -> (r: Result<(K, V), DewoodifyError>)
    requires
        kt.dewoodify_ready(),
        vt.dewoodify_ready(),
    ensures
        pair_outcome(*kt, *vt, *v, r),
{
    match v {
        Wood::Branch(lc) => {
            if lc.v.len() == 2 {
                let k = kt.dewoodify(&lc.v[0])?;
                let x = vt.dewoodify(&lc.v[1])?;
                Ok((k, x))
            } else {
                let mut msg = String::from_str("expected a pair, two elements, but the branch here has ");
                let count = format_int(lc.v.len() as i128);
                msg.append(count.as_str());
                Err(DewoodifyError::new(v, msg))
            }
        },
        Wood::Leaf(_) => Err(DewoodifyError::new(v, String::from_str("expected a pair, but the wood here is an leaf"))),
    }
}

/// `w` is a two-element branch encoding the key and the value.
pub open spec fn pair_woodifies<K, V, KT: Wooder<K>, VT: Wooder<V>>(kt: KT, vt: VT, k: K, x: V, w: Wood) -> bool {
    &&& w is Branch
    &&& children(w).len() == 2
    &&& kt.woodifies(k, children(w)[0])
    &&& vt.woodifies(x, children(w)[1])
}

/// Encodes a key and a value as a two-element branch.
pub(crate) fn woodify_pair<K, V, KT: Wooder<K>, VT: Wooder<V>>(kt: &KT, vt: &VT, k: &K, x: &V) -> (r: Wood)
    requires
        kt.woodify_ready(),
        vt.woodify_ready(),
    ensures
        pair_woodifies(*kt, *vt, *k, *x, r),
{
    let a = kt.woodify(k);
    let b = vt.woodify(x);
    let mut ret: Vec<Wood> = Vec::new();
    ret.push(a);
    ret.push(b);
    Wood::branch(ret)
}

/// A strategy for pairs: a two-element branch, key first.
#[derive(Clone, Copy)]
pub struct PairBi<KeyTran, ValTran>(pub KeyTran, pub ValTran);

impl<K, V, KeyTran: Wooder<K>, ValTran: Wooder<V>> Wooder<(K, V)> for PairBi<KeyTran, ValTran> {
    open spec fn woodify_ready(&self) -> bool {
        self.0.woodify_ready() && self.1.woodify_ready()
    }

    open spec fn woodifies(&self, v: (K, V), w: Wood) -> bool {
        pair_woodifies(self.0, self.1, v.0, v.1, w)
    }

    fn woodify(&self, v: &(K, V)) -> (r: Wood) {
        woodify_pair(&self.0, &self.1, &v.0, &v.1)
    }
}

impl<K, V, KeyTran: Dewooder<K>, ValTran: Dewooder<V>> Dewooder<(K, V)> for PairBi<KeyTran, ValTran> {
    open spec fn dewoodify_ready(&self) -> bool {
        self.0.dewoodify_ready() && self.1.dewoodify_ready()
    }

    open spec fn dewoodifies(&self, w: Wood, r: Result<(K, V), DewoodifyError>) -> bool {
        pair_outcome(self.0, self.1, w, r)
    }

    fn dewoodify(&self, v: &Wood) -> (r: Result<(K, V), DewoodifyError>) {
        dewoodify_pair(&self.0, &self.1, v)
    }
}

} // verus!
