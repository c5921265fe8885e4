use crate::node::{leaf_count, Node};
use crate::operators::{binary_symbol, unary_symbol};
use vstd::prelude::*;
use vstd::string::*;

verus! {

/// The character sequences of a list of strings.
pub open spec fn texts_view(texts: Seq<String>) -> Seq<Seq<char>> {
    texts.map_values(|s: String| s@)
}

/// The fully parenthesized infix form of a tree, with `texts` giving the
/// text of each leaf from left to right.
pub open spec fn render_of(n: Node, texts: Seq<Seq<char>>) -> Seq<char>
    decreases n,
{
    match n {
        Node::Binary { operation, left, right } => {
            let k = leaf_count(*left) as int;
            seq!['('] + render_of(*left, texts.take(k)) + seq![' '] + binary_symbol(operation)
                + seq![' '] + render_of(*right, texts.skip(k)) + seq![')']
        },
        Node::Unary { operation, operand } => seq!['('] + unary_symbol(operation) + seq![' ']
            + render_of(*operand, texts) + seq![')'],
        Node::Value(_) => if texts.len() > 0 {
            texts[0]
        } else {
            Seq::empty()
        },
    }
}

/// `+1` for an opening parenthesis, `-1` for a closing one, `0` otherwise.
pub open spec fn paren_delta(c: char) -> int {
    if c == '(' {
        1
    } else if c == ')' {
        -1
    } else {
        0
    }
}

/// Opening minus closing parentheses in `s`.
pub open spec fn depth(s: Seq<char>) -> int
    decreases s.len(),
{
    if s.len() == 0 {
        0
    } else {
        depth(s.drop_last()) + paren_delta(s.last())
    }
}

/// Every prefix of `s` has depth at least `k`.
pub open spec fn prefixes_at_least(s: Seq<char>, k: int) -> bool {
    forall|i: int| 0 <= i <= s.len() ==> #[trigger] depth(s.take(i)) >= k
}

/// No prefix closes more parentheses than it opened, and the whole closes
/// all it opened.
pub open spec fn balanced(s: Seq<char>) -> bool {
    prefixes_at_least(s, 0) && depth(s) == 0
}

/// `s` holds no parenthesis.
pub open spec fn paren_free(s: Seq<char>) -> bool {
    forall|i: int| 0 <= i < s.len() ==> s[i] != '(' && s[i] != ')'
}

/// The characters that operator symbols are written with.
pub open spec fn is_symbol_char(c: char) -> bool {
    c == '+' || c == '-' || c == '*' || c == '/' || c == '^' || c == 'e' || c == 'l' || c == 'n'
        || c == '\u{221a}'
}

/// The symbol characters of `s`, in order.
pub open spec fn symbol_chars(s: Seq<char>) -> Seq<char>
    decreases s.len(),
{
    if s.len() == 0 {
        s
    } else if is_symbol_char(s.last()) {
        symbol_chars(s.drop_last()).push(s.last())
    } else {
        symbol_chars(s.drop_last())
    }
}

/// The operator symbols of a tree's nodes, each once, in infix order.
pub open spec fn symbols_of(n: Node) -> Seq<char>
    decreases n,
{
    match n {
        Node::Binary { operation, left, right } => symbols_of(*left) + binary_symbol(operation)
            + symbols_of(*right),
        Node::Unary { operation, operand } => unary_symbol(operation) + symbols_of(*operand),
        Node::Value(_) => Seq::empty(),
    }
}

proof fn lemma_depth_concat(a: Seq<char>, b: Seq<char>)
    ensures
        depth(a + b) == depth(a) + depth(b),
    decreases b.len(),
{
    if b.len() > 0 {
        assert((a + b).drop_last() =~= a + b.drop_last());
        lemma_depth_concat(a, b.drop_last());
    } else {
        assert(a + b =~= a);
    }
}

proof fn lemma_prefixes_concat(a: Seq<char>, b: Seq<char>, k: int)
    requires
        prefixes_at_least(a, k),
        prefixes_at_least(b, k - depth(a)),
    ensures
        prefixes_at_least(a + b, k),
{
    assert forall|i: int| 0 <= i <= (a + b).len() implies #[trigger] depth((a + b).take(i)) >= k by {
        if i <= a.len() {
            assert((a + b).take(i) =~= a.take(i));
        } else {
            assert((a + b).take(i) =~= a + b.take(i - a.len()));
            lemma_depth_concat(a, b.take(i - a.len()));
            assert(depth(b.take(i - a.len())) >= k - depth(a));
        }
    }
}

proof fn lemma_paren_free(s: Seq<char>)
    requires
        paren_free(s),
    ensures
        depth(s) == 0,
        prefixes_at_least(s, 0),
    decreases s.len(),
{
    if s.len() > 0 {
        lemma_paren_free(s.drop_last());
    }
    assert forall|i: int| 0 <= i <= s.len() implies #[trigger] depth(s.take(i)) >= 0 by {
        lemma_paren_free_depth(s.take(i));
    }
}

proof fn lemma_paren_free_depth(s: Seq<char>)
    requires
        paren_free(s),
    ensures
        depth(s) == 0,
    decreases s.len(),
{
    if s.len() > 0 {
        lemma_paren_free_depth(s.drop_last());
    }
}

proof fn lemma_symbol_chars_concat(a: Seq<char>, b: Seq<char>)
    ensures
        symbol_chars(a + b) == symbol_chars(a) + symbol_chars(b),
    decreases b.len(),
{
    if b.len() > 0 {
        assert((a + b).drop_last() =~= a + b.drop_last());
        lemma_symbol_chars_concat(a, b.drop_last());
        assert(symbol_chars(a + b) =~= symbol_chars(a) + symbol_chars(b));
    } else {
        assert(a + b =~= a);
        assert(symbol_chars(a) + symbol_chars(b) =~= symbol_chars(a));
    }
}

proof fn lemma_symbol_chars_none(s: Seq<char>)
    requires
        forall|i: int| 0 <= i < s.len() ==> !is_symbol_char(#[trigger] s[i]),
    ensures
        symbol_chars(s) == Seq::<char>::empty(),
    decreases s.len(),
{
    if s.len() > 0 {
        lemma_symbol_chars_none(s.drop_last());
    }
}

proof fn lemma_symbol_chars_all(s: Seq<char>)
    requires
        forall|i: int| 0 <= i < s.len() ==> is_symbol_char(#[trigger] s[i]),
    ensures
        symbol_chars(s) == s,
    decreases s.len(),
{
    if s.len() > 0 {
        lemma_symbol_chars_all(s.drop_last());
        assert(s.drop_last().push(s.last()) =~= s);
    }
}

/// The render of any tree whose leaf texts hold no parenthesis is balanced:
/// it closes every parenthesis it opens, never closing one before it opened.
pub proof fn render_is_balanced(n: Node, texts: Seq<Seq<char>>)
    requires
        texts.len() == leaf_count(n),
        forall|i: int| 0 <= i < texts.len() ==> paren_free(#[trigger] texts[i]),
    ensures
        balanced(render_of(n, texts)),
    decreases n,
{
    let open = seq!['('];
    let close = seq![')'];
    let space = seq![' '];
    assert(depth(open.drop_last()) == 0);
    assert(depth(close.drop_last()) == 0);
    lemma_paren_free(space);
    assert(prefixes_at_least(open, 0)) by {
        assert forall|i: int| 0 <= i <= open.len() implies #[trigger] depth(open.take(i)) >= 0 by {
            if i == 0 {
                assert(open.take(i).len() == 0);
            } else {
                assert(open.take(i) =~= open);
            }
        }
    }
    assert(prefixes_at_least(close, -1)) by {
        assert forall|i: int| 0 <= i <= close.len() implies #[trigger] depth(close.take(i)) >= -1 by {
            if i == 0 {
                assert(close.take(i).len() == 0);
            } else {
                assert(close.take(i) =~= close);
            }
        }
    }
    match n {
        Node::Binary { operation, left, right } => {
            let k = leaf_count(*left) as int;
            let l = render_of(*left, texts.take(k));
            let r = render_of(*right, texts.skip(k));
            let sym = binary_symbol(operation);
            render_is_balanced(*left, texts.take(k));
            render_is_balanced(*right, texts.skip(k));
            lemma_paren_free(sym);
            let body = l + space + sym + space + r;
            lemma_prefixes_concat(l, space, 0);
            lemma_depth_concat(l, space);
            lemma_prefixes_concat(l + space, sym, 0);
            lemma_depth_concat(l + space, sym);
            lemma_prefixes_concat(l + space + sym, space, 0);
            lemma_depth_concat(l + space + sym, space);
            lemma_prefixes_concat(l + space + sym + space, r, 0);
            lemma_depth_concat(l + space + sym + space, r);
            assert(prefixes_at_least(body, -1));
            lemma_prefixes_concat(open, body, 0);
            lemma_depth_concat(open, body);
            lemma_prefixes_concat(open + body, close, 0);
            lemma_depth_concat(open + body, close);
            assert(render_of(n, texts) =~= open + body + close);
        },
        Node::Unary { operation, operand } => {
            let x = render_of(*operand, texts);
            let sym = unary_symbol(operation);
            render_is_balanced(*operand, texts);
            lemma_paren_free(sym);
            let body = sym + space + x;
            lemma_prefixes_concat(sym, space, 0);
            lemma_depth_concat(sym, space);
            lemma_prefixes_concat(sym + space, x, 0);
            lemma_depth_concat(sym + space, x);
            assert(prefixes_at_least(body, -1));
            lemma_prefixes_concat(open, body, 0);
            lemma_depth_concat(open, body);
            lemma_prefixes_concat(open + body, close, 0);
            lemma_depth_concat(open + body, close);
            assert(render_of(n, texts) =~= open + body + close);
        },
        Node::Value(_) => {
            lemma_paren_free(texts[0]);
        },
    }
}

/// Where no leaf text holds a character that operator symbols are written
/// with, the symbol characters of the render are exactly the symbols of the
/// tree's operator nodes, one per node, in infix order.
pub proof fn render_symbols_once_per_node(n: Node, texts: Seq<Seq<char>>)
    requires
        texts.len() == leaf_count(n),
        forall|i: int, j: int|
            0 <= i < texts.len() && 0 <= j < texts[i].len() ==> !is_symbol_char(
                #[trigger] texts[i][j],
            ),
    ensures
        symbol_chars(render_of(n, texts)) == symbols_of(n),
    decreases n,
{
    let open = seq!['('];
    let close = seq![')'];
    let space = seq![' '];
    lemma_symbol_chars_none(open);
    lemma_symbol_chars_none(close);
    lemma_symbol_chars_none(space);
    match n {
        Node::Binary { operation, left, right } => {
            let k = leaf_count(*left) as int;
            let l = render_of(*left, texts.take(k));
            let r = render_of(*right, texts.skip(k));
            let sym = binary_symbol(operation);
            render_symbols_once_per_node(*left, texts.take(k));
            render_symbols_once_per_node(*right, texts.skip(k));
            lemma_symbol_chars_all(sym);
            lemma_symbol_chars_concat(open, l);
            lemma_symbol_chars_concat(open + l, space);
            lemma_symbol_chars_concat(open + l + space, sym);
            lemma_symbol_chars_concat(open + l + space + sym, space);
            lemma_symbol_chars_concat(open + l + space + sym + space, r);
            lemma_symbol_chars_concat(open + l + space + sym + space + r, close);
            assert(symbol_chars(render_of(n, texts)) =~= symbols_of(n));
        },
        Node::Unary { operation, operand } => {
            let x = render_of(*operand, texts);
            let sym = unary_symbol(operation);
            render_symbols_once_per_node(*operand, texts);
            lemma_symbol_chars_all(sym);
            lemma_symbol_chars_concat(open, sym);
            lemma_symbol_chars_concat(open + sym, space);
            lemma_symbol_chars_concat(open + sym + space, x);
            lemma_symbol_chars_concat(open + sym + space + x, close);
            assert(symbol_chars(render_of(n, texts)) =~= symbols_of(n));
        },
        Node::Value(_) => {
            assert forall|j: int| 0 <= j < texts[0].len() implies !is_symbol_char(
                #[trigger] texts[0][j],
            ) by {
                assert(!is_symbol_char(texts[0][j]));
            }
            lemma_symbol_chars_none(texts[0]);
        },
    }
}

impl Node {
    /// Appends the infix form of the tree to `out`, taking the leaves' texts
    /// from `texts` starting at index `start`; returns the index after the
    /// last text used.
    fn render_into(&self, texts: &Vec<String>, start: usize, out: &mut String) -> (next: usize)
        requires
            start + leaf_count(*self) <= texts.len(),
        ensures
            next == start + leaf_count(*self),
            final(out)@ == old(out)@ + render_of(
                *self,
                texts_view(texts@).subrange(start as int, next as int),
            ),
        decreases self,
    {
        let ghost all = texts_view(texts@);
        match self {
            Node::Binary { operation, left, right } => {
                proof {
                    reveal_strlit("(");
                    reveal_strlit(" ");
                    reveal_strlit(")");
                }
                out.append("(");
                let mid = left.render_into(texts, start, out);
                out.append(" ");
                out.append(operation.symbol());
                out.append(" ");
                let next = right.render_into(texts, mid, out);
                out.append(")");
                proof {
                    let whole = all.subrange(start as int, next as int);
                    let k = leaf_count(**left) as int;
                    assert(whole.take(k) =~= all.subrange(start as int, mid as int));
                    assert(whole.skip(k) =~= all.subrange(mid as int, next as int));
                    assert(final(out)@ =~= old(out)@ + render_of(*self, whole));
                }
                next
            },
            Node::Unary { operation, operand } => {
                proof {
                    reveal_strlit("(");
                    reveal_strlit(" ");
                    reveal_strlit(")");
                }
                out.append("(");
                out.append(operation.symbol());
                out.append(" ");
                let next = operand.render_into(texts, start, out);
                out.append(")");
                assert(final(out)@ =~= old(out)@ + render_of(
                    *self,
                    all.subrange(start as int, next as int),
                ));
                next
            },
            Node::Value(_) => {
                out.append(texts[start].as_str());
                assert(all.subrange(start as int, start + 1)[0] == texts@[start as int]@);
                start + 1
            },
        }
    }

    /// The fully parenthesized infix form of the tree: `(l op r)` for a
    /// binary node, `(op x)` for a unary one, and for each leaf, from left to
    /// right, the next of `leaf_texts`.
    pub fn render(&self, leaf_texts: &Vec<String>) -> (r: String)
        requires
            leaf_texts.len() == leaf_count(*self),
        ensures
            r@ == render_of(*self, texts_view(leaf_texts@)),
    {
        let mut out = String::new();
        self.render_into(leaf_texts, 0, &mut out);
        assert(texts_view(leaf_texts@).subrange(0, leaf_texts.len() as int) =~= texts_view(
            leaf_texts@,
        ));
        out
    }
}

} // verus!
