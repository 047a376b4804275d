//! Rendering a tree as text: leaves as bare words, or quoted where they hold
//! a character that the syntax gives a meaning to; branches in parentheses
//! with their children separated by single spaces.
use vstd::prelude::*;
use crate::wood::{Wood, children, initial_text};

verus! {

/// Characters that end a bare word.
pub open spec fn is_special(c: char) -> bool {
    c == ' ' || c == '\t' || c == '\n' || c == '\r' || c == '(' || c == ')' || c == ':' || c == '"' || c == '\\'
}

/// A leaf's text must be quoted where it is empty or holds a special character.
pub open spec fn needs_quotes(s: Seq<char>) -> bool {
    s.len() == 0 || exists|i: int| 0 <= i < s.len() && is_special(#[trigger] s[i])
}

/// The text inside quotes: a backslash before each quote and backslash.
pub open spec fn escaped(s: Seq<char>) -> Seq<char>
    decreases s.len(),
{
    if s.len() == 0 {
        Seq::empty()
    } else {
        let c = s.last();
        escaped(s.drop_last()) + if c == '"' || c == '\\' { seq!['\\', c] } else { seq![c] }
    }
}

pub open spec fn leaf_text(s: Seq<char>) -> Seq<char> {
    if needs_quotes(s) {
        seq!['"'] + escaped(s) + seq!['"']
    } else {
        s
    }
}

/// The text of a tree.
pub open spec fn rendered(w: Wood) -> Seq<char>
    decreases w, 1nat,
{
    match w {
        Wood::Leaf(l) => leaf_text(l.v@),
        Wood::Branch(b) => seq!['('] + rendered_children(w, b.v@.len() as nat) + seq![')'],
    }
}

/// The text of the first `n` children of `w`, separated by spaces.
pub open spec fn rendered_children(w: Wood, n: nat) -> Seq<char>
    decreases w, 0nat, n,
{
    if n == 0 || n > children(w).len() {
        Seq::empty()
    } else if n == 1 {
        rendered(children(w)[0])
    } else {
        rendered_children(w, (n - 1) as nat) + seq![' '] + rendered(children(w)[n - 1])
    }
}

fn needs_quoting(s: &str) -> (r: bool)
    ensures
        r == needs_quotes(s@),
{
    let n = s.unicode_len();
    if n == 0 {
        return true;
    }
    let mut i: usize = 0;
    while i < n
        invariant
            n == s@.len(),
            i <= n,
            forall|j: int| 0 <= j < i ==> !is_special(#[trigger] s@[j]),
        decreases n - i,
    {
        let c = s.get_char(i);
        if c == ' ' || c == '\t' || c == '\n' || c == '\r' || c == '(' || c == ')' || c == ':' || c == '"' || c == '\\' {
            return true;
        }
        i = i + 1;
    }
    false
}

fn write_leaf(out: &mut String, s: &str)
    ensures
        final(out)@ == old(out)@ + leaf_text(s@),
{
    if !needs_quoting(s) {
        out.append(s);
        return;
    }
    proof {
        reveal_strlit("\"");
        reveal_strlit("\\");
    }
    out.append("\"");
    let ghost start = out@;
    let n = s.unicode_len();
    let mut i: usize = 0;
    while i < n
        invariant
            n == s@.len(),
            i <= n,
            out@ == start + escaped(s@.take(i as int)),
        decreases n - i,
    {
        let c = s.get_char(i);
        let ghost mid = out@;
        if c == '"' || c == '\\' {
            out.append("\\");
        }
        out.append(s.substring_char(i, i + 1));
        proof {
            let t = s@.take(i + 1);
            assert(t.drop_last() =~= s@.take(i as int));
            assert(t.last() == c);
            assert(s@.subrange(i as int, i + 1) =~= seq![c]);
            let piece = if c == '"' || c == '\\' { seq!['\\', c] } else { seq![c] };
            assert(escaped(t) == escaped(s@.take(i as int)) + piece);
            reveal_strlit("\\");
            assert("\\"@ =~= seq!['\\']);
            assert(out@ =~= mid + piece);
            assert(out@ =~= start + escaped(t));
        }
        i = i + 1;
    }
    out.append("\"");
    proof {
        assert("\""@ =~= seq!['"']);
        assert(s@.take(n as int) =~= s@);
        assert(out@ =~= old(out)@ + leaf_text(s@));
    }
}

fn write_wood(out: &mut String, w: &Wood)
    ensures
        final(out)@ == old(out)@ + rendered(*w),
    decreases w,
{
    match w {
        Wood::Leaf(l) => write_leaf(out, l.v.as_str()),
        Wood::Branch(b) => {
            proof {
                reveal_strlit("(");
                reveal_strlit(")");
                reveal_strlit(" ");
            }
            out.append("(");
            let ghost start = out@;
            let n = b.v.len();
            let mut i: usize = 0;
            while i < n
                invariant
                    n == b.v@.len(),
                    children(*w) == b.v@,
                    i <= n,
                    out@ == start + rendered_children(*w, i as nat),
                decreases n - i,
            {
                let ghost before = out@;
                if i > 0 {
                    out.append(" ");
                }
                let ghost mid = out@;
                write_wood(out, &b.v[i]);
                proof {
                    assert(b.v@[i as int] == children(*w)[i as int]);
                    reveal_strlit(" ");
                    assert(" "@ =~= seq![' ']);
                    if i == 0 {
                        assert(rendered_children(*w, 1) == rendered(children(*w)[0]));
                        assert(rendered_children(*w, 0) == Seq::<char>::empty());
                    } else {
                        assert(rendered_children(*w, (i + 1) as nat) == rendered_children(*w, i as nat) + seq![' '] + rendered(children(*w)[i as int]));
                    }
                    assert(out@ =~= start + rendered_children(*w, (i + 1) as nat));
                }
                i = i + 1;
            }
            out.append(")");
            proof {
                assert("("@ =~= seq!['(']);
                assert(")"@ =~= seq![')']);
                assert(out@ =~= old(out)@ + rendered(*w));
            }
        },
    }
}

impl Wood {
    /// The text of this tree.
    pub fn to_string(&self) -> (r: String)
        ensures
            r@ == rendered(*self),
    {
        let mut out = String::new();
        write_wood(&mut out, self);
        out
    }
}

/// The text of `w` is not empty, and starts with neither a space, a `)` nor
/// a `:`.
pub proof fn lemma_rendered_start(w: Wood)
    ensures
        rendered(w).len() > 0,
        rendered(w)[0] == '(' || rendered(w)[0] == '"' || !is_special(rendered(w)[0]),
{
    match w {
        Wood::Leaf(l) => {
            if !needs_quotes(l.v@) {
                assert(!is_special(l.v@[0]));
            }
        },
        Wood::Branch(b) => {},
    }
}

/// Appending one more child to the text of the first `k`.
pub proof fn lemma_children_step(w: Wood, k: nat)
    requires
        k < children(w).len(),
    ensures
        rendered_children(w, k + 1) == (if k == 0 { Seq::empty() } else { rendered_children(w, k) + seq![' '] })
            + rendered(children(w)[k as int]),
{
    if k == 0 {
        assert(Seq::<char>::empty() + rendered(children(w)[0]) =~= rendered(children(w)[0]));
    }
}

/// The text of the first `k` children starts the text of the first `m`.
pub proof fn lemma_children_prefix(w: Wood, k: nat, m: nat)
    requires
        k <= m <= children(w).len(),
    ensures
        rendered_children(w, m).len() >= rendered_children(w, k).len(),
        rendered_children(w, m).take(rendered_children(w, k).len() as int) == rendered_children(w, k),
    decreases m - k,
{
    if k < m {
        lemma_children_prefix(w, k, (m - 1) as nat);
        lemma_children_step(w, (m - 1) as nat);
        let a = rendered_children(w, k);
        let b = rendered_children(w, (m - 1) as nat);
        let c = rendered_children(w, m);
        assert(c.take(b.len() as int) =~= b);
        assert(c.take(a.len() as int) =~= b.take(a.len() as int));
    } else {
        assert(rendered_children(w, m).take(rendered_children(w, m).len() as int) =~= rendered_children(w, m));
    }
}

/// Trees whose children render alike render alike.
pub proof fn lemma_children_alike(a: Wood, b: Wood, k: nat)
    requires
        k <= children(a).len(),
        k <= children(b).len(),
        forall|i: int| 0 <= i < k ==> rendered(#[trigger] children(a)[i]) == rendered(children(b)[i]),
    ensures
        rendered_children(a, k) == rendered_children(b, k),
    decreases k,
{
    if k > 1 {
        lemma_children_alike(a, b, (k - 1) as nat);
        assert(rendered(children(a)[k - 1]) == rendered(children(b)[k - 1]));
    } else if k == 1 {
        assert(rendered(children(a)[0]) == rendered(children(b)[0]));
    }
}

/// Escaping works character by character.
pub proof fn lemma_escaped_append(a: Seq<char>, b: Seq<char>)
    ensures
        escaped(a + b) == escaped(a) + escaped(b),
    decreases b.len(),
{
    if b.len() == 0 {
        assert(a + b =~= a);
        assert(escaped(a) + escaped(b) =~= escaped(a));
    } else {
        lemma_escaped_append(a, b.drop_last());
        assert((a + b).drop_last() =~= a + b.drop_last());
        assert((a + b).last() == b.last());
        let c = b.last();
        let piece = if c == '"' || c == '\\' { seq!['\\', c] } else { seq![c] };
        assert(escaped(b) == escaped(b.drop_last()) + piece);
        assert(escaped(a + b) =~= escaped(a) + escaped(b));
    }
}

/// The escaped text of one character.
pub proof fn lemma_escaped_one(c: char)
    ensures
        escaped(seq![c]) == (if c == '"' || c == '\\' { seq!['\\', c] } else { seq![c] }),
{
    let s = seq![c];
    assert(s.drop_last() =~= Seq::<char>::empty());
    assert(s.last() == c);
    assert(escaped(Seq::<char>::empty()) == Seq::<char>::empty());
    let piece = if c == '"' || c == '\\' { seq!['\\', c] } else { seq![c] };
    assert(escaped(s) == escaped(s.drop_last()) + piece);
    assert(Seq::<char>::empty() + piece =~= piece);
}

proof fn lemma_escaped_len(s: Seq<char>)
    ensures
        escaped(s).len() >= s.len(),
    decreases s.len(),
{
    if s.len() > 0 {
        lemma_escaped_len(s.drop_last());
    }
}

/// Different texts escape differently.
pub proof fn lemma_escaped_injective(a: Seq<char>, b: Seq<char>)
    requires
        escaped(a) == escaped(b),
    ensures
        a == b,
    decreases a.len() + b.len(),
{
    lemma_escaped_len(a);
    lemma_escaped_len(b);
    if a.len() == 0 || b.len() == 0 {
        assert(a =~= b);
    } else {
        let x = a.last();
        let y = b.last();
        let px = if x == '"' || x == '\\' { seq!['\\', x] } else { seq![x] };
        let py = if y == '"' || y == '\\' { seq!['\\', y] } else { seq![y] };
        let ea = escaped(a.drop_last());
        let eb = escaped(b.drop_last());
        assert(escaped(a) == ea + px);
        assert(escaped(b) == eb + py);
        assert((ea + px).last() == x);
        assert((eb + py).last() == y);
        assert(x == y);
        assert(ea =~= (ea + px).take(ea.len() as int));
        assert(eb =~= (eb + py).take(eb.len() as int));
        lemma_escaped_injective(a.drop_last(), b.drop_last());
        assert(a =~= a.drop_last().push(x));
        assert(b =~= b.drop_last().push(y));
    }
}

/// A tree that renders as a leaf's text is a leaf with that text.
pub proof fn lemma_leaf_text_read(w: Wood, t: Seq<char>)
    requires
        rendered(w) == leaf_text(t),
    ensures
        w matches Wood::Leaf(l) && l.v@ == t,
{
    lemma_rendered_start(w);
    match w {
        Wood::Branch(_) => {
            if !needs_quotes(t) {
                assert(!is_special(t[0]));
            }
            assert(rendered(w)[0] == '(');
        },
        Wood::Leaf(l) => {
            let u = l.v@;
            if needs_quotes(u) && needs_quotes(t) {
                let a = seq!['"'] + escaped(u) + seq!['"'];
                let b = seq!['"'] + escaped(t) + seq!['"'];
                assert(escaped(u) =~= a.subrange(1, a.len() - 1));
                assert(escaped(t) =~= b.subrange(1, b.len() - 1));
                lemma_escaped_injective(u, t);
            } else if needs_quotes(u) {
                assert(!is_special(t[0]));
                assert(rendered(w)[0] == '"');
            } else if needs_quotes(t) {
                assert(!is_special(u[0]));
                assert(leaf_text(t)[0] == '"');
            }
        },
    }
}

/// What may follow an item in rendered text: the end, a space or a `)`.
pub open spec fn delimited(rest: Seq<char>) -> bool {
    rest.len() == 0 || rest[0] == ' ' || rest[0] == ')'
}

/// Quoted text ends at its first unescaped quote.
proof fn lemma_escaped_prefix(t: Seq<char>, u: Seq<char>, ra: Seq<char>, rb: Seq<char>)
    requires
        escaped(t) + seq!['"'] + ra == escaped(u) + seq!['"'] + rb,
    ensures
        t == u,
    decreases t.len() + u.len(),
{
    let x = escaped(t) + seq!['"'] + ra;
    if t.len() > 0 {
        lemma_escaped_one(t[0]);
        lemma_escaped_append(seq![t[0]], t.skip(1));
        assert(seq![t[0]] + t.skip(1) =~= t);
    }
    if u.len() > 0 {
        lemma_escaped_one(u[0]);
        lemma_escaped_append(seq![u[0]], u.skip(1));
        assert(seq![u[0]] + u.skip(1) =~= u);
    }
    if t.len() == 0 && u.len() == 0 {
        assert(t =~= u);
    } else if t.len() == 0 {
        assert(escaped(t) =~= Seq::<char>::empty());
        assert(x[0] == '"');
        assert(x[0] == escaped(u)[0]);
    } else if u.len() == 0 {
        assert(escaped(u) =~= Seq::<char>::empty());
        assert(x[0] == '"');
        assert(x[0] == escaped(t)[0]);
    } else {
        let pt = escaped(seq![t[0]]);
        let pu = escaped(seq![u[0]]);
        assert(x[0] == pt[0]);
        assert(x[0] == pu[0]);
        if pt.len() == 2 {
            assert(pu[0] == '\\');
            assert(pu.len() == 2);
            assert(x[1] == pt[1]);
            assert(x[1] == pu[1]);
        }
        if pu.len() == 2 {
            assert(pt[0] == '\\');
        }
        assert(t[0] == u[0]);
        assert(pt == pu);
        let rest_t = escaped(t.skip(1)) + seq!['"'] + ra;
        let rest_u = escaped(u.skip(1)) + seq!['"'] + rb;
        assert(x =~= pt + rest_t);
        assert(escaped(u) + seq!['"'] + rb =~= pu + rest_u);
        assert(rest_t =~= x.skip(pt.len() as int));
        assert(rest_u =~= (pu + rest_u).skip(pu.len() as int));
        lemma_escaped_prefix(t.skip(1), u.skip(1), ra, rb);
    }
}

/// Rendered text reads only one way: where the text of `a` then `ra` is the
/// text of `b` then `rb`, both followed by what may end an item, `a` and `b`
/// render the same, are the same kind of node, and a leaf's text or a
/// branch's children's texts agree.
#[verifier::spinoff_prover]
pub proof fn lemma_reading(a: Wood, b: Wood, ra: Seq<char>, rb: Seq<char>)
    requires
        rendered(a) + ra == rendered(b) + rb,
        delimited(ra),
        delimited(rb),
    ensures
        rendered(a) == rendered(b),
        a is Leaf <==> b is Leaf,
        a is Leaf ==> initial_text(a) == initial_text(b),
        a is Branch ==> children(a).len() == children(b).len()
            && forall|i: int| 0 <= i < children(a).len() ==> rendered(#[trigger] children(a)[i]) == rendered(children(b)[i]),
    decreases a, 1nat,
{
    let x = rendered(a) + ra;
    lemma_rendered_start(a);
    lemma_rendered_start(b);
    assert(x[0] == rendered(a)[0]);
    assert(x[0] == rendered(b)[0]);
    match a {
        Wood::Branch(ba) => {
            assert(b is Branch) by {
                if let Wood::Leaf(lb) = b {
                    if needs_quotes(lb.v@) {
                    } else {
                        assert(!is_special(lb.v@[0]));
                    }
                }
            }
            let ma = children(a).len() as nat;
            let mb = children(b).len() as nat;
            let ia = rendered_children(a, ma);
            let ib = rendered_children(b, mb);
            assert(x.skip(1) =~= ia + seq![')'] + ra);
            assert((rendered(b) + rb).skip(1) =~= ib + seq![')'] + rb);
            lemma_reading_children(a, b, 0, ra, rb);
            lemma_children_alike(a, b, ma);
        },
        Wood::Leaf(la) => {
            let t = la.v@;
            match b {
                Wood::Branch(_) => {
                    if !needs_quotes(t) {
                        assert(!is_special(t[0]));
                    }
                },
                Wood::Leaf(lb) => {
                    let u = lb.v@;
                    if needs_quotes(t) != needs_quotes(u) {
                        if needs_quotes(t) {
                            assert(!is_special(u[0]));
                        } else {
                            assert(!is_special(t[0]));
                        }
                    } else if needs_quotes(t) {
                        assert(x.skip(1) =~= escaped(t) + seq!['"'] + ra);
                        assert((rendered(b) + rb).skip(1) =~= escaped(u) + seq!['"'] + rb);
                        lemma_escaped_prefix(t, u, ra, rb);
                    } else {
                        assert forall|i: int| 0 <= i < t.len() implies !is_special(#[trigger] t[i]) by {
                            assert(!(0 <= i < t.len() && is_special(t[i])));
                        }
                        assert forall|i: int| 0 <= i < u.len() implies !is_special(#[trigger] u[i]) by {
                            assert(!(0 <= i < u.len() && is_special(u[i])));
                        }
                        if t.len() < u.len() {
                            assert(x[t.len() as int] == u[t.len() as int]);
                            assert(x[t.len() as int] == ra[0]);
                        } else if u.len() < t.len() {
                            assert(x[u.len() as int] == t[u.len() as int]);
                            assert((rendered(b) + rb)[u.len() as int] == rb[0]);
                        }
                        assert(t =~= x.take(t.len() as int));
                        assert(u =~= (rendered(b) + rb).take(u.len() as int));
                    }
                },
            }
        },
    }
}

/// The children of two branches read alike, given that the first `k` do.
#[verifier::spinoff_prover]
#[verifier::rlimit(50)]
proof fn lemma_reading_children(a: Wood, b: Wood, k: nat, ra: Seq<char>, rb: Seq<char>)
    requires
        a is Branch,
        b is Branch,
        rendered_children(a, children(a).len() as nat) + seq![')'] + ra == rendered_children(b, children(b).len() as nat) + seq![')'] + rb,
        delimited(ra),
        delimited(rb),
        k <= children(a).len(),
        k <= children(b).len(),
        forall|i: int| 0 <= i < k ==> rendered(#[trigger] children(a)[i]) == rendered(children(b)[i]),
    ensures
        children(a).len() == children(b).len(),
        forall|i: int| 0 <= i < children(a).len() ==> rendered(#[trigger] children(a)[i]) == rendered(children(b)[i]),
    decreases a, 0nat, children(a).len() - k,
{
    let ma = children(a).len() as nat;
    let mb = children(b).len() as nat;
    let x = rendered_children(a, ma) + seq![')'] + ra;
    let y = rendered_children(b, mb) + seq![')'] + rb;
    lemma_children_alike(a, b, k);
    let o = rendered_children(a, k).len() as int;
    lemma_children_prefix(a, k, ma);
    lemma_children_prefix(b, k, mb);
    let sep: Seq<char> = if k == 0 { Seq::empty() } else { seq![' '] };
    if k < ma {
        lemma_children_step(a, k);
        lemma_children_prefix(a, k + 1, ma);
        lemma_rendered_start(children(a)[k as int]);
        assert(x[o + sep.len()] == rendered(children(a)[k as int])[0]) by {
            let nx = rendered_children(a, k + 1);
            assert(nx =~= rendered_children(a, k) + sep + rendered(children(a)[k as int]));
            assert(x[o + sep.len()] == rendered_children(a, ma)[o + sep.len()]);
            assert(rendered_children(a, ma)[o + sep.len()] == nx[o + sep.len()]);
        }
        if k > 0 {
            assert(x[o] == ' ') by {
                let nx = rendered_children(a, k + 1);
                assert(x[o] == rendered_children(a, ma)[o]);
                assert(rendered_children(a, ma)[o] == nx[o]);
            }
        }
    } else {
        assert(x[o] == ')');
    }
    if k < mb {
        lemma_children_step(b, k);
        lemma_children_prefix(b, k + 1, mb);
        lemma_rendered_start(children(b)[k as int]);
        assert(y[o + sep.len()] == rendered(children(b)[k as int])[0]) by {
            let ny = rendered_children(b, k + 1);
            assert(ny =~= rendered_children(b, k) + sep + rendered(children(b)[k as int]));
            assert(y[o + sep.len()] == rendered_children(b, mb)[o + sep.len()]);
            assert(rendered_children(b, mb)[o + sep.len()] == ny[o + sep.len()]);
        }
        if k > 0 {
            assert(y[o] == ' ') by {
                let ny = rendered_children(b, k + 1);
                assert(y[o] == rendered_children(b, mb)[o]);
                assert(rendered_children(b, mb)[o] == ny[o]);
            }
        }
    } else {
        assert(y[o] == ')');
    }
    if k < ma && k < mb {
        let ca = children(a)[k as int];
        let cb = children(b)[k as int];
        let na = rendered_children(a, k + 1);
        let nb = rendered_children(b, k + 1);
        let after_a = x.skip(na.len() as int);
        let after_b = y.skip(nb.len() as int);
        assert(x =~= na + after_a) by {
            assert(x.take(na.len() as int) =~= na);
        }
        assert(y =~= nb + after_b) by {
            assert(y.take(nb.len() as int) =~= nb);
        }
        assert(na =~= rendered_children(a, k) + sep + rendered(ca));
        assert(nb =~= rendered_children(b, k) + sep + rendered(cb));
        assert(x.skip(o + sep.len()) =~= rendered(ca) + after_a);
        assert(y.skip(o + sep.len()) =~= rendered(cb) + after_b);
        assert(delimited(after_a)) by {
            if k + 1 < ma {
                lemma_children_step(a, k + 1);
                lemma_children_prefix(a, k + 2, ma);
                let n2 = rendered_children(a, k + 2);
                assert(after_a[0] == x[na.len() as int]);
                assert(x[na.len() as int] == rendered_children(a, ma)[na.len() as int]);
                assert(rendered_children(a, ma)[na.len() as int] == n2[na.len() as int]);
            } else {
                assert(after_a[0] == x[na.len() as int]);
            }
        }
        assert(delimited(after_b)) by {
            if k + 1 < mb {
                lemma_children_step(b, k + 1);
                lemma_children_prefix(b, k + 2, mb);
                let n2 = rendered_children(b, k + 2);
                assert(after_b[0] == y[nb.len() as int]);
                assert(y[nb.len() as int] == rendered_children(b, mb)[nb.len() as int]);
                assert(rendered_children(b, mb)[nb.len() as int] == n2[nb.len() as int]);
            } else {
                assert(after_b[0] == y[nb.len() as int]);
            }
        }
        match a {
            Wood::Branch(ba) => {
                assert(ca == ba.v@[k as int]);
                lemma_reading(ca, cb, after_a, after_b);
            },
            Wood::Leaf(_) => {},
        }
        lemma_reading_children(a, b, k + 1, ra, rb);
    }
}

} // verus!
