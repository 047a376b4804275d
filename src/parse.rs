//! Reading text into a tree. Words are leaves; parentheses make branches;
//! `a:b` is the two-element branch `(a b)`, and `a:b:c` is `(a (b c))`;
//! quoted text is a leaf, with `\` before a quote or backslash, and `\n` and
//! `\t` for a newline and a tab. Several items at the top make a branch of
//! them; a single item is returned as it is.
use vstd::prelude::*;
use crate::wood::{Wood, Leaf, Branch, children, initial_text};
use crate::error::PositionedError;
use crate::render::{
    rendered, rendered_children, is_special, needs_quotes, escaped, lemma_rendered_start,
    lemma_children_step, lemma_children_prefix, lemma_children_alike, lemma_escaped_append, lemma_escaped_one,
    delimited,
};

verus! {

/// Texts at least this long are refused, so that positions fit.
pub const TEXT_LIMIT: usize = 0x7fff_ffff;

pub open spec fn is_space(c: char) -> bool {
    c == ' ' || c == '\t' || c == '\r' || c == '\n'
}

/// The characters from `pos` on.
pub open spec fn from(chars: Seq<char>, pos: int) -> Seq<char> {
    chars.subrange(pos, chars.len() as int)
}

/// `s` is a way to write a tree that renders as `w` does: its rendering, or,
/// for a two-element branch whose first child is a bare word `t`, `t:`
/// followed by a way to write the second child.
pub open spec fn writes(s: Seq<char>, w: Wood) -> bool
    decreases s.len(),
{
    s == rendered(w) || ({
        let t = initial_text(children(w)[0]);
        &&& w is Branch
        &&& children(w).len() == 2
        &&& children(w)[0] is Leaf
        &&& !needs_quotes(t)
        &&& t.len() + 1 <= s.len()
        &&& s.take(t.len() as int) == t
        &&& s[t.len() as int] == ':'
        &&& writes(s.skip(t.len() as int + 1), children(w)[1])
    })
}

/// `s` writes the items `ws`, one after another, separated by single spaces.
pub open spec fn writes_items(s: Seq<char>, ws: Seq<Wood>) -> bool
    decreases ws.len(),
{
    if ws.len() == 0 {
        s.len() == 0
    } else if ws.len() == 1 {
        writes(s, ws[0])
    } else {
        exists|k: int| 0 <= k < s.len() && #[trigger] s[k] == ' ' && writes(s.take(k), ws[0])
            && writes_items(s.skip(k + 1), ws.drop_first())
    }
}

/// `t` is what reading the items `ws` at the top gives: the one item itself,
/// or a branch of all of them, each rendering as the item does.
pub open spec fn read_as(t: Wood, ws: Seq<Wood>) -> bool {
    if ws.len() == 1 {
        rendered(t) == rendered(ws[0])
    } else {
        &&& t is Branch
        &&& children(t).len() == ws.len()
        &&& forall|i: int| 0 <= i < ws.len() ==> rendered(#[trigger] children(t)[i]) == rendered(ws[i])
    }
}

/// What the parser promises of its outcome `r` on the text `s`.
pub open spec fn parse_promise(s: Seq<char>, r: Result<Wood, PositionedError>) -> bool {
    &&& s.len() < TEXT_LIMIT && (exists|w: Wood| rendered(w) == s) ==> (r matches Ok(w2) && rendered(w2) == s)
    &&& s.len() < TEXT_LIMIT && (exists|ws: Seq<Wood>| writes_items(s, ws)) ==> (r matches Ok(t)
        && exists|ws: Seq<Wood>| writes_items(s, ws) && read_as(t, ws))
}

/// A written item is not empty and starts with no space, `)` or `:`.
proof fn lemma_writes_start(s: Seq<char>, w: Wood)
    requires
        writes(s, w),
    ensures
        s.len() > 0,
        s[0] == '(' || s[0] == '"' || !is_special(s[0]),
{
    lemma_rendered_start(w);
    if s != rendered(w) {
        let t = initial_text(children(w)[0]);
        assert(t.len() > 0);
        assert(s[0] == s.take(t.len() as int)[0]);
        assert(!is_special(t[0]));
    }
}

spec fn place_ok(n: int, pos: int, line: int, col: int) -> bool {
    &&& n < TEXT_LIMIT
    &&& 0 <= pos <= n
    &&& 1 <= line <= pos + 1
    &&& 1 <= col <= pos + 1
}

fn error_at(line: usize, column: usize, msg: &str) -> (r: PositionedError)
    ensures
        r.line == #[verifier::truncate] (line as isize),
        r.column == #[verifier::truncate] (column as isize),
        r.msg@ == msg@,
{
    PositionedError { line: #[verifier::truncate] (line as isize), column: #[verifier::truncate] (column as isize), msg: String::from_str(msg) }
}

/// Moves past the character `c`.
fn step(c: char, pos: usize, line: usize, col: usize, n: usize) -> (r: (usize, usize, usize))
    requires
        pos < n,
        place_ok(n as int, pos as int, line as int, col as int),
    ensures
        r.0 == pos + 1,
        place_ok(n as int, r.0 as int, r.1 as int, r.2 as int),
{
    if c == '\n' {
        (pos + 1, line + 1, 1)
    } else {
        (pos + 1, line, col + 1)
    }
}

fn is_word_end(c: char) -> (r: bool)
    ensures
        r == is_special(c),
{
    c == ' ' || c == '\t' || c == '\n' || c == '\r' || c == '(' || c == ')' || c == ':' || c == '"' || c == '\\'
}

fn is_space_char(c: char) -> (r: bool)
    ensures
        r == is_space(c),
{
    c == ' ' || c == '\t' || c == '\r' || c == '\n'
}

/// Reads a bare word: the longest run of ordinary characters from `pos`.
fn parse_word(s: &str, chars: &Vec<char>, pos: usize, line: usize, col: usize) -> (r: (Wood, usize, usize, usize))
    requires
        chars@ == s@,
        pos < chars@.len(),
        place_ok(chars@.len() as int, pos as int, line as int, col as int),
        !is_special(chars@[pos as int]),
    ensures
        pos < r.1 <= chars@.len(),
        place_ok(chars@.len() as int, r.1 as int, r.2 as int, r.3 as int),
        r.0 matches Wood::Leaf(l) && l.v@ == chars@.subrange(pos as int, r.1 as int),
        forall|j: int| pos <= j < r.1 ==> !is_special(#[trigger] chars@[j]),
        r.1 == chars@.len() || is_special(chars@[r.1 as int]),
{
    let n = chars.len();
    let mut p = pos;
    let mut c = col;
    while p < n && !is_word_end(chars[p])
        invariant
            n == chars@.len(),
            pos <= p <= n,
            place_ok(n as int, pos as int, line as int, col as int),
            c == col + (p - pos),
            forall|j: int| pos <= j < p ==> !is_special(#[trigger] chars@[j]),
        decreases n - p,
    {
        p = p + 1;
        c = c + 1;
    }
    let w = Wood::Leaf(Leaf {
        line: #[verifier::truncate] (line as isize),
        column: #[verifier::truncate] (col as isize),
        v: String::from_str(s.substring_char(pos, p)),
    });
    (w, p, line, c)
}

/// Reads quoted text starting at the quote at `pos`. Where the text there is
/// the rendering of the leaf `t` followed by `rest`, it reads exactly that.
fn parse_quoted(s: &str, chars: &Vec<char>, pos: usize, line: usize, col: usize, Ghost(t): Ghost<Seq<char>>, Ghost(rest): Ghost<Seq<char>>) -> (r: Result<(Wood, usize, usize, usize), PositionedError>)
    requires
        chars@ == s@,
        pos < chars@.len(),
        place_ok(chars@.len() as int, pos as int, line as int, col as int),
        chars@[pos as int] == '"',
    ensures
        r matches Ok((_, p2, l2, c2)) ==> pos < p2 && place_ok(chars@.len() as int, p2 as int, l2 as int, c2 as int),
        from(chars@, pos as int) == seq!['"'] + escaped(t) + seq!['"'] + rest ==> (r matches Ok((w2, p2, _, _))
            && (w2 matches Wood::Leaf(l) && l.v@ == t) && p2 == pos + escaped(t).len() + 2),
{
    let n = chars.len();
    let ghost premise = from(chars@, pos as int) == seq!['"'] + escaped(t) + seq!['"'] + rest;
    let ghost mut j: int = 0;
    let mut text = String::new();
    let (mut p, mut l, mut c) = step('"', pos, line, col, n);
    let mut closed = false;
    proof {
        if premise {
            assert(t.take(0) =~= Seq::<char>::empty());
            assert(text@ =~= t.take(0));
        }
    }
    while p < n && !closed
        invariant
            n == chars@.len(),
            chars@ == s@,
            place_ok(n as int, p as int, l as int, c as int),
            pos < p,
            premise == (from(chars@, pos as int) == seq!['"'] + escaped(t) + seq!['"'] + rest),
            premise ==> 0 <= j <= t.len() && text@ == t.take(j),
            premise && closed ==> j == t.len() && p == pos + escaped(t).len() + 2,
            premise && !closed ==> p == pos + 1 + escaped(t.take(j)).len(),
        decreases n - p,
    {
        let ghost jt = t.take(j);
        let ghost js = t.skip(j);
        proof {
            if premise {
                assert(jt + js =~= t);
                lemma_escaped_append(jt, js);
                let whole = seq!['"'] + escaped(t) + seq!['"'] + rest;
                assert(from(chars@, p as int) =~= whole.skip(1 + escaped(jt).len() as int));
                assert(whole.skip(1 + escaped(jt).len() as int) =~= escaped(js) + seq!['"'] + rest);
                if j < t.len() {
                    let ch = t[j];
                    assert(seq![ch] + t.skip(j + 1) =~= js);
                    lemma_escaped_append(seq![ch], t.skip(j + 1));
                    lemma_escaped_one(ch);
                    lemma_escaped_append(jt, seq![ch]);
                    assert(t.take(j + 1) =~= jt + seq![ch]);
                }
            }
        }
        let d = chars[p];
        if d == '"' {
            proof {
                if premise {
                    if j < t.len() {
                        let ch = t[j];
                        assert(from(chars@, p as int)[0] == d);
                        assert(escaped(js)[0] == (if ch == '"' || ch == '\\' { '\\' } else { ch }));
                    } else {
                        assert(js =~= Seq::<char>::empty());
                        assert(jt =~= t);
                    }
                }
            }
            closed = true;
            let (p2, l2, c2) = step(d, p, l, c, n);
            p = p2;
            l = l2;
            c = c2;
        } else if d == '\\' && p + 1 < n {
            let e = chars[p + 1];
            proof {
                if premise {
                    if j == t.len() {
                        assert(js =~= Seq::<char>::empty());
                        assert(from(chars@, p as int)[0] == '"');
                    }
                    let ch = t[j];
                    assert(from(chars@, p as int)[0] == d);
                    assert(ch == '"' || ch == '\\');
                    assert(from(chars@, p as int)[1] == e);
                    assert(e == ch);
                }
            }
            if e == 'n' {
                text.append("\n");
            } else if e == 't' {
                text.append("\t");
            } else {
                text.append(s.substring_char(p + 1, p + 2));
            }
            proof {
                if premise {
                    assert(s@.subrange(p + 1, p + 2) =~= seq![e]);
                    assert(text@ =~= t.take(j + 1));
                    j = j + 1;
                }
            }
            p = p + 2;
            c = c + 2;
        } else {
            text.append(s.substring_char(p, p + 1));
            proof {
                if premise {
                    if j == t.len() {
                        assert(js =~= Seq::<char>::empty());
                        assert(from(chars@, p as int)[0] == '"');
                    }
                    let ch = t[j];
                    assert(from(chars@, p as int)[0] == d);
                    assert(ch == d);
                    assert(s@.subrange(p as int, p + 1) =~= seq![d]);
                    assert(text@ =~= t.take(j + 1));
                    j = j + 1;
                }
            }
            let (p2, l2, c2) = step(d, p, l, c, n);
            p = p2;
            l = l2;
            c = c2;
        }
    }
    if !closed {
        proof {
            if premise {
                lemma_escaped_append(t.take(j), t.skip(j));
                assert(t.take(j) + t.skip(j) =~= t);
                assert(from(chars@, pos as int).len() == n - pos);
            }
        }
        return Err(error_at(line, col, "unterminated quoted text"));
    }
    proof {
        if premise {
            assert(t.take(j) =~= t);
        }
    }
    let w = Wood::Leaf(Leaf { line: #[verifier::truncate] (line as isize), column: #[verifier::truncate] (col as isize), v: text });
    Ok((w, p, l, c))
}

/// Reads one item at `pos`: a word, quoted text or a parenthesised branch,
/// and then, after a `:`, the item that pairs with it. Where the text there is
/// the rendering of `w` followed by `rest`, it reads a tree that renders the
/// same, and exactly that text.
fn parse_item(
    s: &str,
    chars: &Vec<char>,
    pos: usize,
    line: usize,
    col: usize,
    Ghost(w): Ghost<Wood>,
    Ghost(wr): Ghost<Seq<char>>,
    Ghost(rest): Ghost<Seq<char>>,
) -> (r: Result<(Wood, usize, usize, usize), PositionedError>)
    requires
        chars@ == s@,
        place_ok(chars@.len() as int, pos as int, line as int, col as int),
    ensures
        r matches Ok((_, p2, l2, c2)) ==> pos < p2 && place_ok(chars@.len() as int, p2 as int, l2 as int, c2 as int),
        from(chars@, pos as int) == wr + rest && writes(wr, w) && delimited(rest) ==> (r matches Ok((w2, p2, _, _))
            && rendered(w2) == rendered(w) && p2 == pos + wr.len()),
    decreases chars@.len() - pos, 0nat,
{
    let n = chars.len();
    let ghost premise = from(chars@, pos as int) == rendered(w) + rest && delimited(rest);
    let ghost paired = from(chars@, pos as int) == wr + rest && writes(wr, w) && delimited(rest) && wr != rendered(w);
    let ghost t0 = initial_text(children(w)[0]);
    proof {
        if from(chars@, pos as int) == wr + rest && writes(wr, w) && delimited(rest) {
            lemma_writes_start(wr, w);
            assert(from(chars@, pos as int).len() == chars@.len() - pos);
            assert(from(chars@, pos as int)[0] == wr[0]);
        }
        if paired {
            assert(t0.len() > 0);
            assert(wr[0] == wr.take(t0.len() as int)[0]);
            assert(!is_special(t0[0]));
        }
        if premise {
            lemma_rendered_start(w);
            assert(from(chars@, pos as int).len() == chars@.len() - pos);
            assert(from(chars@, pos as int)[0] == rendered(w)[0]);
        }
    }
    if pos >= n {
        return Err(error_at(line, col, "expected an item"));
    }
    let c = chars[pos];
    let first: (Wood, usize, usize, usize);
    if c == '(' {
        let (p1, l1, c1) = step(c, pos, line, col, n);
        let ghost m = children(w).len();
        proof {
            if premise {
                assert(w is Branch);
                assert(rendered(w) == seq!['('] + rendered_children(w, m as nat) + seq![')']);
                let inner = rendered_children(w, m as nat);
                assert(from(chars@, pos as int) == seq!['('] + inner + seq![')'] + rest);
                assert(from(chars@, p1 as int) =~= from(chars@, pos as int).skip(1));
                assert((seq!['('] + inner + seq![')'] + rest).skip(1) =~= inner + seq![')'] + rest);
            }
        }
        match parse_list(s, chars, p1, l1, c1, line, col, Ghost(w), Ghost(rest)) {
            Ok((items, p2, l2, c2)) => {
                let b = Wood::Branch(Branch { line: #[verifier::truncate] (line as isize), column: #[verifier::truncate] (col as isize), v: items });
                proof {
                    if premise {
                        lemma_children_alike(b, w, m as nat);
                    }
                }
                first = (b, p2, l2, c2);
            },
            Err(e) => {
                return Err(e);
            },
        }
    } else if c == '"' {
        let ghost t = match w {
            Wood::Leaf(l) => l.v@,
            Wood::Branch(_) => Seq::empty(),
        };
        proof {
            if premise {
                assert(w is Leaf);
                assert(needs_quotes(t));
                assert(rendered(w) == seq!['"'] + escaped(t) + seq!['"']);
            }
        }
        match parse_quoted(s, chars, pos, line, col, Ghost(t), Ghost(rest)) {
            Ok(x) => {
                first = x;
            },
            Err(e) => {
                return Err(e);
            },
        }
    } else if is_word_end(c) {
        return Err(error_at(line, col, "expected an item"));
    } else {
        let x = parse_word(s, chars, pos, line, col);
        proof {
            if premise {
                let t = match w {
                    Wood::Leaf(l) => l.v@,
                    Wood::Branch(_) => Seq::empty(),
                };
                assert(w is Leaf);
                assert(!needs_quotes(t));
                assert(rendered(w) == t);
                let p = x.1 as int;
                assert forall|i: int| 0 <= i < t.len() implies !is_special(#[trigger] t[i]) by {
                    assert(!(0 <= i < t.len() && is_special(t[i])));
                }
                if p < pos + t.len() {
                    assert(chars@[p] == from(chars@, pos as int)[p - pos]);
                    assert(chars@[p] == t[p - pos]);
                }
                if p > pos + t.len() {
                    let q = pos + t.len();
                    assert(!is_special(chars@[q]));
                    assert(chars@[q] == from(chars@, pos as int)[t.len() as int]);
                    assert(chars@[q] == rest[0]);
                }
                assert(p == pos + t.len());
                assert(chars@.subrange(pos as int, p) =~= t);
            }
            if paired {
                let t = t0;
                let p = x.1 as int;
                assert forall|i: int| 0 <= i < t.len() implies !is_special(#[trigger] t[i]) by {
                    assert(!(0 <= i < t.len() && is_special(t[i])));
                }
                if p < pos + t.len() {
                    assert(chars@[p] == from(chars@, pos as int)[p - pos]);
                    assert(from(chars@, pos as int)[p - pos] == wr[p - pos]);
                    assert(wr[p - pos] == wr.take(t.len() as int)[p - pos]);
                }
                let q = pos + t.len();
                assert(chars@[q] == from(chars@, pos as int)[t.len() as int]);
                assert(chars@[q] == ':');
                assert(p == pos + t.len());
                assert forall|i: int| 0 <= i < t.len() implies chars@.subrange(pos as int, p)[i] == t[i] by {
                    assert(chars@[pos + i] == from(chars@, pos as int)[i]);
                    assert(from(chars@, pos as int)[i] == wr[i]);
                    assert(wr[i] == wr.take(t.len() as int)[i]);
                }
                assert(chars@.subrange(pos as int, p) =~= t);
            }
        }
        first = x;
    }
    let (w1, p, l, cl) = first;
    proof {
        if premise && p < n {
            assert(chars@[p as int] == from(chars@, pos as int)[rendered(w).len() as int]);
            assert(chars@[p as int] == rest[0]);
        }
        if paired {
            assert(p < n);
        }
    }
    let ghost second_text = wr.skip(t0.len() as int + 1);
    proof {
        if paired {
            assert(from(chars@, p + 1) =~= from(chars@, pos as int).skip(t0.len() as int + 1));
            assert(from(chars@, pos as int).skip(t0.len() as int + 1) =~= second_text + rest);
        }
    }
    if p < n && chars[p] == ':' {
        let (p1, l1, c1) = step(':', p, l, cl, n);
        match parse_item(s, chars, p1, l1, c1, Ghost(children(w)[1]), Ghost(second_text), Ghost(rest)) {
            Ok((w2, p2, l2, c2)) => {
                let mut v: Vec<Wood> = Vec::new();
                v.push(w1);
                v.push(w2);
                let b = Wood::Branch(Branch { line: #[verifier::truncate] (line as isize), column: #[verifier::truncate] (col as isize), v });
                proof {
                    if paired {
                        assert(children(b)[0] == w1);
                        assert(rendered(children(b)[0]) == rendered(children(w)[0]));
                        assert(rendered(children(b)[1]) == rendered(children(w)[1]));
                        lemma_children_alike(b, w, 2);
                    }
                }
                Ok((b, p2, l2, c2))
            },
            Err(e) => Err(e),
        }
    } else {
        Ok((w1, p, l, cl))
    }
}

/// Reads the items of a branch whose `(` came just before `pos`, and its
/// `)`. Where the text there is the rendering of the children of `w`, then
/// `)`, then `rest`, it reads trees that render as those children do.
fn parse_list(
    s: &str,
    chars: &Vec<char>,
    pos: usize,
    line: usize,
    col: usize,
    open_line: usize,
    open_col: usize,
    Ghost(w): Ghost<Wood>,
    Ghost(rest): Ghost<Seq<char>>,
) -> (r: Result<(Vec<Wood>, usize, usize, usize), PositionedError>)
    requires
        chars@ == s@,
        place_ok(chars@.len() as int, pos as int, line as int, col as int),
    ensures
        r matches Ok((_, p2, l2, c2)) ==> pos < p2 && place_ok(chars@.len() as int, p2 as int, l2 as int, c2 as int),
        w is Branch && from(chars@, pos as int) == rendered_children(w, children(w).len() as nat) + seq![')'] + rest && delimited(rest)
            ==> (r matches Ok((items, p2, _, _)) && items@.len() == children(w).len()
            && (forall|i: int| 0 <= i < items@.len() ==> rendered(#[trigger] items@[i]) == rendered(children(w)[i]))
            && p2 == pos + rendered_children(w, children(w).len() as nat).len() + 1),
    decreases chars@.len() - pos, 1nat,
{
    let n = chars.len();
    let ghost m = children(w).len() as nat;
    let ghost whole = rendered_children(w, m);
    let ghost premise = w is Branch && from(chars@, pos as int) == whole + seq![')'] + rest && delimited(rest);
    let mut items: Vec<Wood> = Vec::new();
    let mut p = pos;
    let mut l = line;
    let mut c = col;
    loop
        invariant
            n == chars@.len(),
            chars@ == s@,
            place_ok(n as int, p as int, l as int, c as int),
            pos <= p,
            m == children(w).len(),
            whole == rendered_children(w, m),
            premise == (w is Branch && from(chars@, pos as int) == whole + seq![')'] + rest && delimited(rest)),
            premise ==> items@.len() <= m && p == pos + rendered_children(w, items@.len() as nat).len()
                && forall|i: int| 0 <= i < items@.len() ==> rendered(#[trigger] items@[i]) == rendered(children(w)[i]),
        decreases n - p,
    {
        let ghost k = items@.len() as nat;
        let ghost p0 = p as int;
        let ghost sep: Seq<char> = if k == 0 { Seq::empty() } else { seq![' '] };
        proof {
            if premise {
                lemma_children_prefix(w, k, m);
                assert(from(chars@, pos as int).take(rendered_children(w, k).len() as int) =~= rendered_children(w, k));
                if k < m {
                    lemma_children_prefix(w, k + 1, m);
                    lemma_children_step(w, k);
                    lemma_rendered_start(children(w)[k as int]);
                    let next = rendered_children(w, k + 1);
                    assert(next == sep + rendered(children(w)[k as int]) || next == rendered_children(w, k) + sep + rendered(children(w)[k as int]));
                    assert(next =~= rendered_children(w, k) + sep + rendered(children(w)[k as int]));
                    assert(whole.take(next.len() as int) == next);
                    assert(p0 - pos == rendered_children(w, k).len());
                    assert(next.len() <= whole.len());
                    assert(from(chars@, pos as int).len() == whole.len() + 1 + rest.len());
                    assert(p0 - pos + sep.len() < next.len());
                    assert(chars@[p0 + sep.len()] == from(chars@, pos as int)[p0 - pos + sep.len()]);
                    assert(from(chars@, pos as int)[p0 - pos + sep.len()] == whole[p0 - pos + sep.len()]);
                    assert(whole[p0 - pos + sep.len()] == next[p0 - pos + sep.len()]);
                    assert(next[p0 - pos + sep.len()] == rendered(children(w)[k as int])[0]);
                    if k > 0 {
                        let at = rendered_children(w, k).len() as int;
                        assert(next[at] == ' ');
                        assert(whole[at] == next[at]);
                        assert(from(chars@, pos as int)[at] == whole[at]);
                        assert(chars@[p0] == from(chars@, pos as int)[at]);
                    }
                } else {
                    assert(chars@[p0] == from(chars@, pos as int)[whole.len() as int]);
                }
            }
        }
        while p < n && is_space_char(chars[p])
            invariant
                n == chars@.len(),
                place_ok(n as int, p as int, l as int, c as int),
                pos <= p0 <= p,
                premise ==> k <= m,
                premise ==> (p == p0 || (p == p0 + 1 && 0 < k < m)),
                premise && k < m ==> p0 + sep.len() < n && !is_space(chars@[p0 + sep.len()]),
                premise && k < m && k > 0 ==> chars@[p0] == ' ',
                premise && k == m ==> p0 < n && chars@[p0] == ')',
                sep.len() == (if k == 0 { 0int } else { 1int }),
            decreases n - p,
        {
            let (p2, l2, c2) = step(chars[p], p, l, c, n);
            p = p2;
            l = l2;
            c = c2;
        }
        if p >= n {
            return Err(error_at(open_line, open_col, "unclosed '('"));
        }
        if chars[p] == ')' {
            let (p2, l2, c2) = step(')', p, l, c, n);
            proof {
                if premise {
                    if k < m {
                        lemma_rendered_start(children(w)[k as int]);
                    }
                }
            }
            return Ok((items, p2, l2, c2));
        }
        let ghost child = if k < m { children(w)[k as int] } else { w };
        let ghost after = from(chars@, p as int).skip(rendered(child).len() as int);
        proof {
            if premise {
                assert(k < m);
                assert(p == p0 + sep.len());
                let next = rendered_children(w, k + 1);
                assert(from(chars@, p as int).take(rendered(child).len() as int) =~= rendered(child)) by {
                    assert forall|i: int| 0 <= i < rendered(child).len() implies from(chars@, p as int)[i] == rendered(child)[i] by {
                        assert(from(chars@, p as int)[i] == chars@[p + i]);
                        assert(chars@[p + i] == from(chars@, pos as int)[p - pos + i]);
                        assert(p - pos + i < next.len());
                        assert(from(chars@, pos as int)[p - pos + i] == whole[p - pos + i]);
                        assert(whole[p - pos + i] == next[p - pos + i]);
                    }
                }
                assert(from(chars@, p as int) =~= rendered(child) + after);
                if k + 1 < m {
                    lemma_children_prefix(w, k + 2, m);
                    lemma_children_step(w, k + 1);
                    let next2 = rendered_children(w, k + 2);
                    assert(next.len() < next2.len());
                    assert(next2.len() <= whole.len());
                    assert(p - pos + rendered(child).len() == next.len());
                    assert(after[0] == from(chars@, p as int)[rendered(child).len() as int]);
                    assert(from(chars@, p as int)[rendered(child).len() as int] == chars@[p + rendered(child).len()]);
                    assert(chars@[p + rendered(child).len()] == from(chars@, pos as int)[next.len() as int]);
                    assert(after[0] == whole[next.len() as int]);
                    assert(whole[next.len() as int] == next2[next.len() as int]);
                } else {
                    assert(after[0] == from(chars@, pos as int)[whole.len() as int]);
                }
            }
        }
        match parse_item(s, chars, p, l, c, Ghost(child), Ghost(rendered(child)), Ghost(after)) {
            Ok((it, p2, l2, c2)) => {
                items.push(it);
                proof {
                    if premise {
                        lemma_children_step(w, k);
                        assert(rendered_children(w, k + 1).len() == rendered_children(w, k).len() + sep.len() + rendered(child).len());
                    }
                }
                p = p2;
                l = l2;
                c = c2;
            },
            Err(e) => {
                return Err(e);
            },
        }
    }
}

/// Reads text into a tree, or reports where and why it could not. A text
/// that writes some items one after another (each a rendering, or an `a:b`
/// pair), short of the length limit, reads as those items; in particular
/// the text of any tree reads back as a tree with that same text.
#[verifier::spinoff_prover]
#[verifier::rlimit(100)]
pub fn parse_termpose(s: &str) -> (r: Result<Wood, PositionedError>)
    ensures
        s@.len() < TEXT_LIMIT && (exists|w: Wood| rendered(w) == s@) ==> (r matches Ok(w2) && rendered(w2) == s@),
        s@.len() < TEXT_LIMIT && (exists|ws: Seq<Wood>| writes_items(s@, ws)) ==> (r matches Ok(t)
            && exists|ws: Seq<Wood>| writes_items(s@, ws) && read_as(t, ws)),
{
    let n = s.unicode_len();
    if n >= TEXT_LIMIT {
        return Err(error_at(1, 1, "text too long"));
    }
    let mut chars: Vec<char> = Vec::new();
    let mut i: usize = 0;
    while i < n
        invariant
            n == s@.len(),
            i <= n,
            chars@ == s@.take(i as int),
        decreases n - i,
    {
        chars.push(s.get_char(i));
        proof {
            assert(chars@ =~= s@.take(i + 1));
        }
        i = i + 1;
    }
    proof {
        assert(s@.take(n as int) =~= s@);
    }
    let ghost rendered_one = exists|w: Wood| rendered(w) == s@;
    let ghost w0 = choose|w: Wood| rendered(w) == s@;
    let ghost ws0: Seq<Wood> = if rendered_one { seq![w0] } else { choose|ws: Seq<Wood>| writes_items(s@, ws) };
    let ghost premise = exists|ws: Seq<Wood>| writes_items(s@, ws);
    let ghost len = ws0.len();
    proof {
        if rendered_one {
            assert(writes(s@, w0));
            assert(writes_items(s@, ws0));
            assert(premise);
        }
        if premise {
            assert(writes_items(s@, ws0));
            if len > 0 {
                if len == 1 {
                    lemma_writes_start(s@, ws0[0]);
                } else {
                    let k = choose|k: int| 0 <= k < s@.len() && #[trigger] s@[k] == ' ' && writes(s@.take(k), ws0[0])
                        && writes_items(s@.skip(k + 1), ws0.drop_first());
                }
            }
            assert(from(chars@, 0) =~= s@);
            assert(ws0.skip(0) =~= ws0);
        }
    }
    let mut items: Vec<Wood> = Vec::new();
    let mut p: usize = 0;
    let mut l: usize = 1;
    let mut c: usize = 1;
    loop
        invariant
            n == chars@.len(),
            chars@ == s@,
            place_ok(n as int, p as int, l as int, c as int),
            premise == (exists|ws: Seq<Wood>| writes_items(s@, ws)),
            len == ws0.len(),
            premise ==> writes_items(s@, ws0),
            premise ==> (len > 0 ==> n > 0),
            premise ==> (len == 0 ==> n == 0),
            rendered_one == (exists|w: Wood| rendered(w) == s@),
            rendered_one ==> premise && ws0 == seq![w0] && rendered(w0) == s@,
            premise ==> items@.len() <= len,
            premise ==> forall|i: int| 0 <= i < items@.len() ==> rendered(#[trigger] items@[i]) == rendered(ws0[i]),
            premise && items@.len() == 0 ==> p == 0,
            premise && 0 < items@.len() < len ==> p < n && chars@[p as int] == ' '
                && writes_items(from(chars@, p as int).skip(1), ws0.skip(items@.len() as int)),
            premise && items@.len() == len && len > 0 ==> p == n,
        ensures
            premise ==> items@.len() == len && forall|i: int| 0 <= i < items@.len() ==> rendered(#[trigger] items@[i]) == rendered(ws0[i]),
        decreases n - p,
    {
        let ghost j = items@.len() as int;
        let ghost p0 = p as int;
        let ghost sep: int = if j == 0 { 0 } else { 1 };
        let ghost item_text: Seq<char> = if j == 0 { s@ } else { from(chars@, p0).skip(1) };
        let ghost todo = ws0.skip(j);
        proof {
            if premise && j < len {
                assert(item_text == from(chars@, p0 + sep)) by {
                    if j == 0 {
                        assert(from(chars@, 0) =~= s@);
                    } else {
                        assert(from(chars@, p0).skip(1) =~= from(chars@, p0 + 1));
                    }
                }
                if j == 0 {
                    assert(ws0.skip(0) =~= ws0);
                }
                assert(writes_items(item_text, todo));
                assert(todo.len() > 0);
                if todo.len() == 1 {
                    lemma_writes_start(item_text, todo[0]);
                } else {
                    let k = choose|k: int| 0 <= k < item_text.len() && #[trigger] item_text[k] == ' '
                        && writes(item_text.take(k), todo[0]) && writes_items(item_text.skip(k + 1), todo.drop_first());
                    lemma_writes_start(item_text.take(k), todo[0]);
                    assert(item_text[0] == item_text.take(k)[0]);
                }
                assert(chars@[p0 + sep] == item_text[0]);
            }
        }
        while p < n && is_space_char(chars[p])
            invariant
                n == chars@.len(),
                place_ok(n as int, p as int, l as int, c as int),
                p0 <= p,
                premise ==> items@.len() <= len,
                premise ==> (p == p0 || (p == p0 + 1 && 0 < j < len)),
                premise && j < len ==> p0 + sep < n && !is_space(chars@[p0 + sep]),
                premise && 0 < j < len ==> chars@[p0] == ' ',
                premise && j == len && len > 0 ==> p0 == n,
                premise && len == 0 ==> n == 0,
                j == items@.len(),
                sep == (if j == 0 { 0int } else { 1int }),
            decreases n - p,
        {
            let (p2, l2, c2) = step(chars[p], p, l, c, n);
            p = p2;
            l = l2;
            c = c2;
        }
        if p >= n {
            break;
        }
        if chars[p] == ')' {
            proof {
                if premise {
                    assert(p == p0 + sep);
                    assert(j < len);
                    assert(chars@[p0 + sep] == item_text[0]);
                    assert(false);
                }
                if exists|w: Wood| rendered(w) == s@ {
                    assert(rendered_one);
                    assert(premise);
                }
            }
            return Err(error_at(l, c, "unmatched ')'"));
        }
        let ghost single = todo.len() == 1;
        let ghost k: int = if single { item_text.len() as int } else {
            choose|k: int| 0 <= k < item_text.len() && #[trigger] item_text[k] == ' '
                && writes(item_text.take(k), todo[0]) && writes_items(item_text.skip(k + 1), todo.drop_first())
        };
        let ghost this_text = item_text.take(k);
        let ghost after = item_text.skip(k);
        proof {
            if premise {
                assert(j < len);
                assert(p == p0 + sep);
                assert(from(chars@, p as int) == item_text);
                assert(item_text =~= this_text + after);
                if single {
                    assert(this_text =~= item_text);
                    assert(after =~= Seq::<char>::empty());
                }
                assert(writes(this_text, todo[0]));
                assert(delimited(after));
            }
        }
        match parse_item(s, &chars, p, l, c, Ghost(todo[0]), Ghost(this_text), Ghost(after)) {
            Ok((it, p2, l2, c2)) => {
                items.push(it);
                proof {
                    if premise {
                        assert(todo[0] == ws0[j]);
                        assert(p2 == p + k);
                        if !single {
                            assert(from(chars@, p2 as int) =~= after);
                            assert(after.skip(1) =~= item_text.skip(k + 1));
                            assert(todo.drop_first() =~= ws0.skip(j + 1));
                            assert(chars@[p2 as int] == after[0]);
                        } else {
                            assert(todo.len() == 1);
                            assert(j + 1 == len);
                        }
                    }
                }
                p = p2;
                l = l2;
                c = c2;
            },
            Err(e) => {
                proof {
                    if exists|w: Wood| rendered(w) == s@ {
                        assert(rendered_one);
                        assert(premise);
                    }
                }
                return Err(e);
            },
        }
    }
    let ghost pick = ws0;
    proof {
        if premise {
            assert(writes_items(s@, pick) && (items@.len() == 1 ==> read_as(items@[0], pick)));
        }
    }
    if items.len() == 1 {
        match items.pop() {
            Some(w) => {
                proof {
                    if premise {
                        assert(read_as(w, pick));
                    }
                    if rendered_one {
                        assert(rendered(w) == rendered(w0));
                    }
                }
                Ok(w)
            },
            None => Err(error_at(l, c, "expected an item")),
        }
    } else {
        let t = Wood::Branch(Branch { line: 1, column: 1, v: items });
        proof {
            if premise {
                assert(read_as(t, pick));
            }
        }
        Ok(t)
    }
}

} // verus!
