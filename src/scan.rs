//! An optimistic cursor for looking up named fields among a branch's children.
use vstd::prelude::*;
use crate::wood::{Wood, children, initial_text};
use crate::error::{DewoodifyError, error_at};
use crate::text::str_eq;

verus! {

/// A cursor over the children after the first of one branch, for looking up
/// `(key value)` fields. Each lookup starts where the last one matched, so
/// fields asked for in the order they are written are found without rescanning.
pub struct FieldScanning<'a> {
    pub v: &'a Wood,
    pub li: &'a [Wood],
    pub eye: usize,
}

/// The index reached `k` steps after `eye`, wrapping round `n` children.
pub open spec fn rotated(eye: int, k: int, n: int) -> int {
    (eye + k) % n
}

/// Among `li`, walking from `eye` with wrap-around, the `k`th step is the
/// first child whose leading text is `key`.
pub open spec fn first_hit(li: Seq<Wood>, eye: int, key: Seq<char>, k: int) -> bool {
    &&& 0 <= k < li.len()
    &&& initial_text(li[rotated(eye, k, li.len() as int)]) == key
    &&& forall|j: int| 0 <= j < k ==> initial_text(#[trigger] li[rotated(eye, j, li.len() as int)]) != key
}

/// Some child of `li` has leading text `key`.
pub open spec fn has_key(li: Seq<Wood>, key: Seq<char>) -> bool {
    exists|i: int| 0 <= i < li.len() && initial_text(#[trigger] li[i]) == key
}

/// The message of a failed lookup of `key`.
pub open spec fn missing_key_msg(key: Seq<char>) -> Seq<char> {
    "could not find key \""@ + key + "\""@
}

/// The message of a key that has no value after it.
pub open spec fn no_value_msg() -> Seq<char> {
    "expected a subwood, but the wood has no tail"@
}

impl<'a> FieldScanning<'a> {
    /// The cursor is usable: it points at a child, or there are none.
    pub open spec fn wf(&self) -> bool {
        self.li@.len() == 0 || self.eye < self.li@.len()
    }

    pub fn new(v: &'a Wood) -> (r: Self)
        ensures
            r.v == v,
            r.li@ == (if children(*v).len() == 0 { Seq::empty() } else { children(*v).drop_first() }),
            r.eye == 0,
            r.wf(),
    {
        FieldScanning { v, li: v.tail(), eye: 0 }
    }

    /// Finds the child whose leading text is `key`, starting at the cursor and
    /// wrapping round, and returns the node after the key in it. The cursor is
    /// left on the matched child. Where no child matches, every child has been
    /// looked at once and the cursor is back where it started.
    pub fn seek(&mut self, key: &str) -> (r: Result<&'a Wood, DewoodifyError>)
        requires
            old(self).wf(),
        ensures
            final(self).v == old(self).v,
            final(self).li == old(self).li,
            final(self).wf(),
            has_key(old(self).li@, key@) <==> exists|k: int| first_hit(old(self).li@, old(self).eye as int, key@, k),
            forall|k: int| #[trigger] first_hit(old(self).li@, old(self).eye as int, key@, k) ==> {
                let c = old(self).li@[rotated(old(self).eye as int, k, old(self).li@.len() as int)];
                &&& final(self).eye == rotated(old(self).eye as int, k, old(self).li@.len() as int)
                &&& children(c).len() >= 2 ==> r == Ok::<&Wood, DewoodifyError>(&children(c)[1])
                &&& children(c).len() < 2 ==> (r matches Err(e) && error_at(e, c, no_value_msg()))
            },
            !has_key(old(self).li@, key@) ==> {
                &&& final(self).eye == old(self).eye
                &&& r matches Err(e) && error_at(e, *old(self).v, missing_key_msg(key@))
            },
    {
        let n = self.li.len();
        let ghost eye0 = self.eye as int;
        let mut k: usize = 0;
        proof {
            if n > 0 {
                vstd::arithmetic::div_mod::lemma_small_mod(eye0 as nat, n as nat);
            }
        }
        while k < n
            invariant
                n == self.li@.len(),
                self.v == old(self).v,
                self.li == old(self).li,
                eye0 == old(self).eye,
                old(self).wf(),
                k <= n,
                n > 0 ==> self.eye == rotated(eye0, k as int, n as int),
                n == 0 ==> self.eye == eye0,
                forall|j: int| 0 <= j < k ==> initial_text(#[trigger] self.li@[rotated(eye0, j, n as int)]) != key@,
            decreases n - k,
        {
            let c = &self.li[self.eye];
            if str_eq(c.initial_str(), key) {
                proof {
                    assert(first_hit(self.li@, eye0, key@, k as int));
                    assert forall|k2: int| #[trigger] first_hit(self.li@, eye0, key@, k2) implies k2 == k by {
                        if k2 < k {
                            assert(initial_text(self.li@[rotated(eye0, k2, n as int)]) != key@);
                        } else if k2 > k {
                            assert(initial_text(self.li@[rotated(eye0, k as int, n as int)]) != key@);
                        }
                    }
                    assert(has_key(self.li@, key@));
                }
                let rest = c.tail();
                if rest.len() > 0 {
                    return Ok(&rest[0]);
                } else {
                    let mut msg = String::new();
                    msg.append("expected a subwood, but the wood has no tail");
                    return Err(DewoodifyError::new(c, msg));
                }
            }
            proof {
                assert((eye0 + k + 1) % (n as int) == if self.eye + 1 >= n { 0 } else { self.eye + 1 }) by {
                    let x = eye0 + k;
                    assert(self.eye == x % (n as int));
                    vstd::arithmetic::div_mod::lemma_fundamental_div_mod(x, n as int);
                    let q = x / (n as int);
                    assert(x == q * n + self.eye) by (nonlinear_arith)
                        requires x == n * q + self.eye;
                    if self.eye + 1 < n {
                        vstd::arithmetic::div_mod::lemma_fundamental_div_mod_converse(x + 1, n as int, q, self.eye + 1);
                    } else {
                        assert(x + 1 == (q + 1) * n + 0) by (nonlinear_arith)
                            requires x == q * n + self.eye, self.eye + 1 == n;
                        vstd::arithmetic::div_mod::lemma_fundamental_div_mod_converse(x + 1, n as int, q + 1, 0);
                    }
                }
            }
            self.eye = self.eye + 1;
            if self.eye >= n {
                self.eye = 0;
            }
            k = k + 1;
        }
        proof {
            if n > 0 {
                assert(rotated(eye0, n as int, n as int) == eye0) by {
                    vstd::arithmetic::div_mod::lemma_add_mod_noop(eye0, n as int, n as int);
                    vstd::arithmetic::div_mod::lemma_mod_self_0(n as int);
                    vstd::arithmetic::div_mod::lemma_small_mod(eye0 as nat, n as nat);
                }
            }
            assert forall|k2: int| !first_hit(self.li@, eye0, key@, k2) by {
                if 0 <= k2 < n {
                    assert(initial_text(self.li@[rotated(eye0, k2, n as int)]) != key@);
                }
            }
            assert forall|i: int| 0 <= i < n implies initial_text(#[trigger] self.li@[i]) != key@ by {
                let j = if i >= eye0 { i - eye0 } else { i + n - eye0 };
                assert(rotated(eye0, j, n as int) == i) by {
                    if i >= eye0 {
                        vstd::arithmetic::div_mod::lemma_small_mod(i as nat, n as nat);
                    } else {
                        vstd::arithmetic::div_mod::lemma_add_mod_noop(i, n as int, n as int);
                        vstd::arithmetic::div_mod::lemma_mod_self_0(n as int);
                        vstd::arithmetic::div_mod::lemma_small_mod(i as nat, n as nat);
                    }
                }
                assert(initial_text(self.li@[rotated(eye0, j, n as int)]) != key@);
            }
        }
        let mut msg = String::new();
        msg.append("could not find key \"");
        msg.append(key);
        msg.append("\"");
        Err(DewoodifyError::new(self.v, msg))
    }
}

} // verus!
