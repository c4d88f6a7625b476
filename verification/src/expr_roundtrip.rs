//! Printing an expression and parsing the text gives the expression back,
//! for expressions whose keywords can stand in printed form.
use vstd::prelude::*;
use crate::boolean_expr::{
    any_operator_at, display, has_operator_between, is_boundary, keyword_end, lemma_skip_ws_bounds,
    level_op, looks_like_group, op_and, op_not, op_or, operator_at, operator_within, paren_scan,
    parse_keyword_spec, parse_level, parse_rest, parse_spec, skip_ws, starts_with_at, Expr,
};
use crate::text::{is_ws, trim, trim_end, trim_start};

verus! {

/// Operator `op` stands at `i` inside keyword `k`, the ends of `k` counting
/// as boundaries.
pub open spec fn operator_in_keyword(k: Seq<char>, i: int, op: Seq<char>) -> bool {
    &&& starts_with_at(k, i, op)
    &&& (i == 0 || is_boundary(k[i - 1]))
    &&& (i + op.len() == k.len() || is_boundary(k[i + op.len()]))
}

/// `k` can stand as a keyword in printed form: it is not empty, starts and
/// ends with a character other than white space, holds no parenthesis, and
/// no `AND`, `OR` or `NOT` stands in it between boundaries.
pub open spec fn printable_keyword(k: Seq<char>) -> bool {
    &&& k.len() > 0
    &&& !is_ws(k[0])
    &&& !is_ws(k[k.len() - 1])
    &&& forall|i: int| 0 <= i < k.len() ==> #[trigger] k[i] != '(' && k[i] != ')'
    &&& forall|i: int|
        0 <= i < k.len() ==> !operator_in_keyword(k, i, op_and()) && !operator_in_keyword(
            k,
            i,
            op_or(),
        ) && !operator_in_keyword(k, i, op_not())
}

/// Every keyword of the expression can stand in printed form.
pub open spec fn printable(e: Expr) -> bool
    decreases e,
{
    match e {
        Expr::Keyword(k) => printable_keyword(k),
        Expr::And(l, r) => printable(*l) && printable(*r),
        Expr::Or(l, r) => printable(*l) && printable(*r),
        Expr::Not(x) => printable(*x),
    }
}

/// `d` stands in `inp` at `p`.
pub open spec fn text_at(inp: Seq<char>, p: int, d: Seq<char>) -> bool {
    0 <= p && p + d.len() <= inp.len() && inp.subrange(p, p + d.len()) == d
}

proof fn lemma_text_at_index(inp: Seq<char>, p: int, d: Seq<char>, j: int)
    requires
        text_at(inp, p, d),
        0 <= j < d.len(),
    ensures
        inp[p + j] == d[j],
{
    assert(inp.subrange(p, p + d.len())[j] == inp[p + j]);
}

/// A stretch of text without parentheses leaves the scan for a closing
/// parenthesis where it was.
proof fn lemma_scan_plain(inp: Seq<char>, i: int, len: int, depth: nat)
    requires
        0 <= i,
        0 <= len,
        i + len <= inp.len(),
        forall|j: int| i <= j < i + len ==> #[trigger] inp[j] != '(' && inp[j] != ')',
    ensures
        paren_scan(inp, i, depth) == paren_scan(inp, i + len, depth),
    decreases len,
{
    if len > 0 {
        assert(inp[i] != '(' && inp[i] != ')');
        lemma_scan_plain(inp, i + 1, len - 1, depth);
    }
}

proof fn lemma_text_at_concat(inp: Seq<char>, p: int, a: Seq<char>, b: Seq<char>)
    requires
        text_at(inp, p, a + b),
    ensures
        text_at(inp, p, a),
        text_at(inp, p + a.len(), b),
{
    assert forall|j: int| 0 <= j < a.len() implies #[trigger] inp.subrange(p, p + a.len())[j] == a[j] by {
        lemma_text_at_index(inp, p, a + b, j);
    }
    assert(inp.subrange(p, p + a.len()) =~= a);
    assert forall|j: int| 0 <= j < b.len() implies #[trigger] inp.subrange(
        p + a.len(),
        p + a.len() + b.len(),
    )[j] == b[j] by {
        lemma_text_at_index(inp, p, a + b, a.len() + j);
    }
    assert(inp.subrange(p + a.len(), p + a.len() + b.len()) =~= b);
}

/// The printed form is not empty and starts with an opening parenthesis or
/// with the keyword's first character.
proof fn lemma_display_start(e: Expr)
    requires
        printable(e),
    ensures
        display(e).len() > 0,
        !is_ws(display(e)[0]),
        e is Keyword ==> display(e) == e->Keyword_0,
        !(e is Keyword) ==> display(e)[0] == '(',
{
    reveal_strlit("(");
    reveal_strlit("(NOT ");
    match e {
        Expr::Keyword(k) => {},
        Expr::And(l, r) => {
            assert(display(e)[0] == ("("@ + display(*l))[0]);
        },
        Expr::Or(l, r) => {
            assert(display(e)[0] == ("("@ + display(*l))[0]);
        },
        Expr::Not(x) => {
            assert(display(e)[0] == ("(NOT "@)[0]);
        },
    }
}

/// The pieces of a printed binary expression `(l OP r)` standing at `p`:
/// `(` at `p`, `l` at `p + 1`, the operator text after it, `r`, and `)`.
proof fn lemma_binary_pieces(inp: Seq<char>, p: int, dl: Seq<char>, op: Seq<char>, dr: Seq<char>)
    requires
        text_at(inp, p, "("@ + dl + op + dr + ")"@),
    ensures
        inp[p] == '(',
        text_at(inp, p + 1, dl),
        text_at(inp, p + 1 + dl.len(), op),
        text_at(inp, p + 1 + dl.len() + op.len(), dr),
        inp[p + 1 + dl.len() + op.len() + dr.len()] == ')',
        ("("@ + dl + op + dr + ")"@).len() == dl.len() + op.len() + dr.len() + 2,
{
    reveal_strlit("(");
    reveal_strlit(")");
    let a = "("@ + dl + op + dr;
    lemma_text_at_concat(inp, p, a, ")"@);
    lemma_text_at_concat(inp, p, "("@ + dl + op, dr);
    lemma_text_at_concat(inp, p, "("@ + dl, op);
    lemma_text_at_concat(inp, p, "("@, dl);
    lemma_text_at_index(inp, p, "("@, 0);
    lemma_text_at_index(inp, p + a.len(), ")"@, 0);
}

/// A printed expression leaves the scan for the closing parenthesis of an
/// enclosing group where it was.
proof fn lemma_scan_display(inp: Seq<char>, p: int, e: Expr, depth: nat)
    requires
        depth >= 1,
        printable(e),
        text_at(inp, p, display(e)),
    ensures
        paren_scan(inp, p, depth) == paren_scan(inp, p + display(e).len(), depth),
    decreases e,
{
    reveal_strlit(" AND ");
    reveal_strlit(" OR ");
    reveal_strlit("NOT ");
    reveal_strlit("(NOT ");
    reveal_strlit("(");
    match e {
        Expr::Keyword(k) => {
            assert forall|j: int| p <= j < p + k.len() implies #[trigger] inp[j] != '(' && inp[j] != ')' by {
                lemma_text_at_index(inp, p, k, j - p);
                assert(k[j - p] != '(' && k[j - p] != ')');
            }
            lemma_scan_plain(inp, p, k.len() as int, depth);
        },
        Expr::And(l, r) => {
            let op = " AND "@;
            let dl = display(*l);
            let dr = display(*r);
            lemma_binary_pieces(inp, p, dl, op, dr);
            let n = p + 1 + dl.len();
            lemma_scan_display(inp, p + 1, *l, depth + 1);
            assert forall|j: int| n <= j < n + op.len() implies #[trigger] inp[j] != '(' && inp[j] != ')' by {
                lemma_text_at_index(inp, n, op, j - n);
            }
            lemma_scan_plain(inp, n, op.len() as int, depth + 1);
            lemma_scan_display(inp, n + op.len(), *r, depth + 1);
        },
        Expr::Or(l, r) => {
            let op = " OR "@;
            let dl = display(*l);
            let dr = display(*r);
            lemma_binary_pieces(inp, p, dl, op, dr);
            let n = p + 1 + dl.len();
            lemma_scan_display(inp, p + 1, *l, depth + 1);
            assert forall|j: int| n <= j < n + op.len() implies #[trigger] inp[j] != '(' && inp[j] != ')' by {
                lemma_text_at_index(inp, n, op, j - n);
            }
            lemma_scan_plain(inp, n, op.len() as int, depth + 1);
            lemma_scan_display(inp, n + op.len(), *r, depth + 1);
        },
        Expr::Not(x) => {
            assert("(NOT "@ =~= "("@ + "NOT "@);
            let dx = display(*x);
            assert(display(e) =~= "("@ + Seq::<char>::empty() + "NOT "@ + dx + ")"@);
            lemma_binary_pieces(inp, p, Seq::<char>::empty(), "NOT "@, dx);
            let q = p + 1 + 4;
            assert forall|j: int| p + 1 <= j < p + 5 implies #[trigger] inp[j] != '(' && inp[j] != ')' by {
                lemma_text_at_index(inp, p + 1, "NOT "@, j - (p + 1));
            }
            lemma_scan_plain(inp, p + 1, 4, depth + 1);
            lemma_scan_display(inp, q, *x, depth + 1);
        },
    }
}

/// What may follow a printed operand at `n`: the end of the input, a
/// closing parenthesis (inside a group), or a space and then `AND` or `OR`.
pub open spec fn follows_operand(inp: Seq<char>, n: int, allow_right_paren: bool) -> bool {
    ||| n == inp.len()
    ||| (allow_right_paren && 0 <= n < inp.len() && inp[n] == ')')
    ||| (0 <= n < inp.len() && inp[n] == ' ' && (operator_at(inp, n + 1, op_and()) || operator_at(
        inp,
        n + 1,
        op_or(),
    )))
}

/// The context of a printed keyword `k` at `p`: a boundary or the start
/// before it, an operand's follower after it.
pub open spec fn keyword_in_context(inp: Seq<char>, p: int, k: Seq<char>, allow_right_paren: bool) -> bool {
    &&& printable_keyword(k)
    &&& text_at(inp, p, k)
    &&& (p == 0 || is_boundary(inp[p - 1]))
    &&& follows_operand(inp, p + k.len(), allow_right_paren)
}

proof fn lemma_no_operator_in_keyword(
    inp: Seq<char>,
    p: int,
    k: Seq<char>,
    allow_right_paren: bool,
    j: int,
    op: Seq<char>,
)
    requires
        keyword_in_context(inp, p, k, allow_right_paren),
        p <= j < p + k.len(),
        op == op_and() || op == op_or() || op == op_not(),
    ensures
        !operator_at(inp, j, op),
{
    let n = p + k.len();
    if operator_at(inp, j, op) {
        if j + op.len() <= n {
            let i = j - p;
            assert forall|t: int| 0 <= t < op.len() implies #[trigger] k.subrange(i, i + op.len())[t]
                == op[t] by {
                lemma_text_at_index(inp, p, k, i + t);
                assert(inp.subrange(j, j + op.len())[t] == inp[j + t]);
            }
            assert(k.subrange(i, i + op.len()) =~= op);
            if i > 0 {
                lemma_text_at_index(inp, p, k, i - 1);
            }
            if i + op.len() < k.len() {
                lemma_text_at_index(inp, p, k, i + op.len());
            }
            assert(operator_in_keyword(k, i, op));
        } else {
            assert(inp.subrange(j, j + op.len())[n - j] == inp[n]);
            assert(inp[n] == op[n - j]);
            assert(n < inp.len());
        }
    }
}

proof fn lemma_keyword_end_run(inp: Seq<char>, p: int, k: Seq<char>, allow_right_paren: bool, j: int)
    requires
        keyword_in_context(inp, p, k, allow_right_paren),
        p <= j <= p + k.len(),
    ensures
        keyword_end(inp, j, allow_right_paren) == keyword_end(inp, p + k.len(), allow_right_paren),
    decreases p + k.len() - j,
{
    if j < p + k.len() {
        lemma_text_at_index(inp, p, k, j - p);
        assert(k[j - p] != ')');
        lemma_no_operator_in_keyword(inp, p, k, allow_right_paren, j, op_and());
        lemma_no_operator_in_keyword(inp, p, k, allow_right_paren, j, op_or());
        lemma_no_operator_in_keyword(inp, p, k, allow_right_paren, j, op_not());
        lemma_keyword_end_run(inp, p, k, allow_right_paren, j + 1);
    }
}

proof fn lemma_trim_keyword(k: Seq<char>)
    requires
        printable_keyword(k),
    ensures
        trim(k) == k,
        trim(k.push(' ')) == k,
{
    assert(trim_start(k) == k);
    assert(trim_end(k) == k);
    let kp = k.push(' ');
    assert(kp[0] == k[0]);
    assert(trim_start(kp) == kp);
    assert(kp.drop_last() =~= k);
    assert(trim_end(kp) == trim_end(k));
}

/// A printed keyword in its context parses at level 0 to that keyword; the
/// parse ends at its end or after the space that follows it.
proof fn lemma_parse_keyword(inp: Seq<char>, p0: int, p: int, k: Seq<char>, allow_right_paren: bool)
    requires
        keyword_in_context(inp, p, k, allow_right_paren),
        0 <= p0 <= p,
        skip_ws(inp, p0) == p,
    ensures
        parse_level(inp, p0, allow_right_paren, 0) matches Ok((x, r)) && x == Expr::Keyword(k)
            && p + k.len() <= r <= inp.len() && skip_ws(inp, r) == skip_ws(inp, p + k.len()),
{
    let n = p + k.len();
    lemma_text_at_index(inp, p, k, 0);
    lemma_no_operator_in_keyword(inp, p, k, allow_right_paren, p, op_not());
    assert(!looks_like_group(inp, p));
    lemma_keyword_end_run(inp, p, k, allow_right_paren, p);
    lemma_trim_keyword(k);
    let e = keyword_end(inp, p, allow_right_paren);
    if n == inp.len() {
        assert(e == n);
        assert(inp.subrange(p, n) =~= k);
    } else if allow_right_paren && inp[n] == ')' {
        assert(e == n);
        assert(inp.subrange(p, n) =~= k);
    } else {
        assert(inp[n] == ' ');
        assert(!any_operator_at(inp, n));
        assert(any_operator_at(inp, n + 1));
        assert(keyword_end(inp, n + 1, allow_right_paren) == n + 1);
        assert(keyword_end(inp, n, allow_right_paren) == keyword_end(inp, n + 1, allow_right_paren));
        assert(e == n + 1);
        assert(inp.subrange(p, n + 1) =~= k.push(' '));
        assert(skip_ws(inp, n) == skip_ws(inp, n + 1));
    }
    assert(parse_keyword_spec(inp, p, allow_right_paren) == Ok::<(Expr, int), Seq<char>>(
        (Expr::Keyword(k), e),
    ));
}

/// The layout of a printed binary expression `(l OP r)` at `p`, with `l`
/// ending at `n`, the operator word at `a = n + 1` and `)` at `c`.
proof fn lemma_binary_layout(inp: Seq<char>, p: int, l: Expr, op: Seq<char>, r: Expr, word: Seq<char>)
    requires
        printable(l),
        printable(r),
        (op == " AND "@ && word == op_and()) || (op == " OR "@ && word == op_or()),
        text_at(inp, p, "("@ + display(l) + op + display(r) + ")"@),
    ensures
        ({
            let n = p + 1 + display(l).len();
            let a = n + 1;
            let b = a + word.len() + 1;
            let c = b + display(r).len();
            &&& inp[p] == '('
            &&& text_at(inp, p + 1, display(l))
            &&& skip_ws(inp, p + 1) == p + 1
            &&& follows_operand(inp, n, true)
            &&& skip_ws(inp, n) == a
            &&& operator_at(inp, a, word)
            &&& !operator_at(inp, a, op_and()) || word == op_and()
            &&& text_at(inp, b, display(r))
            &&& is_boundary(inp[b - 1])
            &&& skip_ws(inp, b - 1) == b
            &&& c < inp.len()
            &&& inp[c] == ')'
            &&& follows_operand(inp, c, true)
            &&& skip_ws(inp, c) == c
            &&& paren_scan(inp, p, 0) == Some(c)
            &&& has_operator_between(inp, p + 1, c)
            &&& looks_like_group(inp, p)
            &&& !operator_at(inp, p, op_not())
            &&& ("("@ + display(l) + op + display(r) + ")"@).len() == c + 1 - p
        }),
{
    reveal_strlit(" AND ");
    reveal_strlit(" OR ");
    let dl = display(l);
    let dr = display(r);
    lemma_binary_pieces(inp, p, dl, op, dr);
    lemma_display_start(l);
    lemma_display_start(r);
    let n = p + 1 + dl.len();
    let a = n + 1;
    let b = a + word.len() + 1;
    let c = b + dr.len();
    assert(op.len() == word.len() + 2);
    lemma_text_at_index(inp, p + 1, dl, 0);
    lemma_text_at_index(inp, b, dr, 0);
    assert forall|t: int| 0 <= t < op.len() implies #[trigger] inp[n + t] == op[t] by {
        lemma_text_at_index(inp, n, op, t);
    }
    assert(inp[n + 0] == op[0]);
    assert(inp[n + 1] == op[1]);
    assert(inp[n + op.len() - 1] == op[op.len() - 1]);
    assert(inp.subrange(a, a + word.len()) =~= word) by {
        assert forall|t: int| 0 <= t < word.len() implies #[trigger] inp.subrange(a, a + word.len())[t]
            == word[t] by {
            assert(inp[n + (t + 1)] == op[t + 1]);
        }
    }
    assert(skip_ws(inp, p + 1) == p + 1);
    assert(skip_ws(inp, a) == a);
    assert(skip_ws(inp, n) == a);
    assert(skip_ws(inp, b) == b);
    assert(skip_ws(inp, b - 1) == b);
    assert(skip_ws(inp, c) == c);
    lemma_scan_display(inp, p + 1, l, 1);
    assert forall|j: int| n <= j < n + op.len() implies #[trigger] inp[j] != '(' && inp[j] != ')' by {
        assert(inp[n + (j - n)] == op[j - n]);
    }
    lemma_scan_plain(inp, n, op.len() as int, 1);
    lemma_scan_display(inp, b, r, 1);
    assert(paren_scan(inp, p, 0) == Some(c));
    assert(operator_within(inp, p + 1, c, a, word));
    assert(inp[a] == word[0]);
    assert(has_operator_between(inp, p + 1, c));
}

/// The layout of a printed negation `(NOT x)` at `p`, with `)` at `c`.
proof fn lemma_not_layout(inp: Seq<char>, p: int, x: Expr)
    requires
        printable(x),
        text_at(inp, p, display(Expr::Not(Box::new(x)))),
    ensures
        ({
            let c = p + 5 + display(x).len();
            &&& inp[p] == '('
            &&& skip_ws(inp, p + 1) == p + 1
            &&& operator_at(inp, p + 1, op_not())
            &&& text_at(inp, p + 5, display(x))
            &&& is_boundary(inp[p + 4])
            &&& skip_ws(inp, p + 4) == p + 5
            &&& c < inp.len()
            &&& inp[c] == ')'
            &&& follows_operand(inp, c, true)
            &&& skip_ws(inp, c) == c
            &&& paren_scan(inp, p, 0) == Some(c)
            &&& has_operator_between(inp, p + 1, c)
            &&& looks_like_group(inp, p)
            &&& !operator_at(inp, p, op_not())
            &&& display(Expr::Not(Box::new(x))).len() == c + 1 - p
        }),
{
    reveal_strlit("NOT ");
    reveal_strlit("(NOT ");
    reveal_strlit("(");
    let op = "NOT "@;
    let dx = display(x);
    let e = Expr::Not(Box::new(x));
    assert("(NOT "@ =~= "("@ + op);
    assert(display(e) =~= "("@ + Seq::<char>::empty() + op + dx + ")"@);
    lemma_binary_pieces(inp, p, Seq::<char>::empty(), op, dx);
    lemma_display_start(x);
    let c = p + 5 + dx.len();
    lemma_text_at_index(inp, p + 5, dx, 0);
    assert forall|t: int| 0 <= t < 4 implies #[trigger] inp[p + 1 + t] == op[t] by {
        lemma_text_at_index(inp, p + 1, op, t);
    }
    assert(inp[p + 1 + 0] == op[0]);
    assert(inp[p + 1 + 1] == op[1]);
    assert(inp[p + 1 + 2] == op[2]);
    assert(inp[p + 1 + 3] == op[3]);
    assert(skip_ws(inp, p + 1) == p + 1);
    assert(skip_ws(inp, p + 5) == p + 5);
    assert(skip_ws(inp, p + 4) == p + 5);
    assert(skip_ws(inp, c) == c);
    assert(inp.subrange(p + 1, p + 4) =~= op_not());
    assert forall|j: int| p + 1 <= j < p + 5 implies #[trigger] inp[j] != '(' && inp[j] != ')' by {
        assert(inp[p + 1 + (j - (p + 1))] == op[j - (p + 1)]);
    }
    lemma_scan_plain(inp, p + 1, 4, 1);
    lemma_scan_display(inp, p + 5, x, 1);
    assert(paren_scan(inp, p, 0) == Some(c));
    assert(operator_within(inp, p + 1, c, p + 1, op_not()));
    assert(has_operator_between(inp, p + 1, c));
}

/// A group at `p` whose inside parses to `e` up to its `)` at `c` parses to
/// `e` at level 0.
proof fn lemma_group_parse(inp: Seq<char>, p0: int, p: int, e: Expr, c: int, allow_right_paren: bool)
    requires
        0 <= p0 <= p,
        skip_ws(inp, p0) == p,
        looks_like_group(inp, p),
        !operator_at(inp, p, op_not()),
        parse_level(inp, p + 1, true, 2) == Ok::<(Expr, int), Seq<char>>((e, c)),
        0 <= c < inp.len(),
        inp[c] == ')',
        skip_ws(inp, c) == c,
    ensures
        parse_level(inp, p0, allow_right_paren, 0) == Ok::<(Expr, int), Seq<char>>((e, c + 1)),
{
}

/// A printed operand in its context parses at level 0 to itself; the parse
/// ends at its end or, after a keyword, past the space that follows it.
proof fn lemma_parse_operand(inp: Seq<char>, p0: int, p: int, e: Expr, allow_right_paren: bool)
    requires
        printable(e),
        text_at(inp, p, display(e)),
        0 <= p0 <= p,
        skip_ws(inp, p0) == p,
        p == 0 || is_boundary(inp[p - 1]),
        follows_operand(inp, p + display(e).len(), allow_right_paren),
    ensures
        parse_level(inp, p0, allow_right_paren, 0) matches Ok((x, r)) && x == e && p + display(
            e,
        ).len() <= r <= inp.len() && skip_ws(inp, r) == skip_ws(inp, p + display(e).len()),
    decreases e,
{
    match e {
        Expr::Keyword(k) => {
            lemma_parse_keyword(inp, p0, p, k, allow_right_paren);
        },
        Expr::And(l, r) => {
            lemma_binary_layout(inp, p, *l, " AND "@, *r, op_and());
            let n = p + 1 + display(*l).len();
            let a = n + 1;
            let c = a + 4 + display(*r).len();
            lemma_parse_operand(inp, p + 1, p + 1, *l, true);
            lemma_parse_operand(inp, a + 3, a + 4, *r, true);
            lemma_and_inside(inp, p, *l, *r, n, c);
            lemma_group_parse(inp, p0, p, e, c, allow_right_paren);
        },
        Expr::Or(l, r) => {
            lemma_binary_layout(inp, p, *l, " OR "@, *r, op_or());
            let n = p + 1 + display(*l).len();
            let a = n + 1;
            let c = a + 3 + display(*r).len();
            lemma_parse_operand(inp, p + 1, p + 1, *l, true);
            lemma_parse_operand(inp, a + 2, a + 3, *r, true);
            lemma_or_inside(inp, p, *l, *r, n, c);
            lemma_group_parse(inp, p0, p, e, c, allow_right_paren);
        },
        Expr::Not(x) => {
            lemma_not_layout(inp, p, *x);
            let c = p + 5 + display(*x).len();
            lemma_parse_operand(inp, p + 4, p + 5, *x, true);
            lemma_not_inside(inp, p, *x, c);
            lemma_group_parse(inp, p0, p, e, c, allow_right_paren);
        },
    }
}

proof fn lemma_and_inside(inp: Seq<char>, p: int, l: Expr, r: Expr, n: int, c: int)
    requires
        0 <= p,
        n == p + 1 + display(l).len(),
        c == n + 5 + display(r).len(),
        c < inp.len(),
        inp[c] == ')',
        skip_ws(inp, c) == c,
        skip_ws(inp, n) == n + 1,
        operator_at(inp, n + 1, op_and()),
        parse_level(inp, p + 1, true, 0) matches Ok((x, r1)) && x == l && n <= r1 <= inp.len()
            && skip_ws(inp, r1) == skip_ws(inp, n),
        parse_level(inp, n + 4, true, 0) matches Ok((x, r2)) && x == r && c <= r2 <= inp.len()
            && skip_ws(inp, r2) == skip_ws(inp, c),
    ensures
        parse_level(inp, p + 1, true, 2) == Ok::<(Expr, int), Seq<char>>(
            (Expr::And(Box::new(l), Box::new(r)), c),
        ),
{
    let e = Expr::And(Box::new(l), Box::new(r));
    let (x1, r1) = parse_level(inp, p + 1, true, 0)->Ok_0;
    let (x2, r2) = parse_level(inp, n + 4, true, 0)->Ok_0;
    lemma_skip_ws_bounds(inp, r1);
    assert(level_op(1) == op_and());
    assert(parse_rest(inp, e, r2, true, 1) == Ok::<(Expr, int), Seq<char>>((e, c)));
    assert(parse_rest(inp, l, r1, true, 1) == Ok::<(Expr, int), Seq<char>>((e, c)));
    assert(parse_level(inp, p + 1, true, 1) == Ok::<(Expr, int), Seq<char>>((e, c)));
    assert(parse_rest(inp, e, c, true, 2) == Ok::<(Expr, int), Seq<char>>((e, c)));
}

proof fn lemma_or_inside(inp: Seq<char>, p: int, l: Expr, r: Expr, n: int, c: int)
    requires
        0 <= p,
        n == p + 1 + display(l).len(),
        c == n + 4 + display(r).len(),
        c < inp.len(),
        inp[c] == ')',
        skip_ws(inp, c) == c,
        skip_ws(inp, n) == n + 1,
        skip_ws(inp, n + 1) == n + 1,
        operator_at(inp, n + 1, op_or()),
        inp[n + 1] == 'O',
        parse_level(inp, p + 1, true, 0) matches Ok((x, r1)) && x == l && n <= r1 <= inp.len()
            && skip_ws(inp, r1) == skip_ws(inp, n),
        parse_level(inp, n + 3, true, 0) matches Ok((x, r2)) && x == r && c <= r2 <= inp.len()
            && skip_ws(inp, r2) == skip_ws(inp, c),
    ensures
        parse_level(inp, p + 1, true, 2) == Ok::<(Expr, int), Seq<char>>(
            (Expr::Or(Box::new(l), Box::new(r)), c),
        ),
{
    let e = Expr::Or(Box::new(l), Box::new(r));
    let a = n + 1;
    let (x1, r1) = parse_level(inp, p + 1, true, 0)->Ok_0;
    let (x2, r2) = parse_level(inp, n + 3, true, 0)->Ok_0;
    lemma_skip_ws_bounds(inp, r1);
    assert(level_op(1) == op_and());
    assert(level_op(2) == op_or());
    assert(!operator_at(inp, a, op_and()));
    assert(parse_rest(inp, l, r1, true, 1) == Ok::<(Expr, int), Seq<char>>((l, a)));
    assert(parse_level(inp, p + 1, true, 1) == Ok::<(Expr, int), Seq<char>>((l, a)));
    assert(parse_rest(inp, r, r2, true, 1) == Ok::<(Expr, int), Seq<char>>((r, c)));
    assert(parse_level(inp, n + 3, true, 1) == Ok::<(Expr, int), Seq<char>>((r, c)));
    assert(parse_rest(inp, e, c, true, 2) == Ok::<(Expr, int), Seq<char>>((e, c)));
    assert(parse_rest(inp, l, a, true, 2) == Ok::<(Expr, int), Seq<char>>((e, c)));
}

proof fn lemma_not_inside(inp: Seq<char>, p: int, x: Expr, c: int)
    requires
        0 <= p,
        c == p + 5 + display(x).len(),
        c < inp.len(),
        inp[c] == ')',
        skip_ws(inp, c) == c,
        skip_ws(inp, p + 1) == p + 1,
        operator_at(inp, p + 1, op_not()),
        parse_level(inp, p + 4, true, 0) matches Ok((y, r1)) && y == x && c <= r1 <= inp.len()
            && skip_ws(inp, r1) == skip_ws(inp, c),
    ensures
        parse_level(inp, p + 1, true, 2) == Ok::<(Expr, int), Seq<char>>(
            (Expr::Not(Box::new(x)), c),
        ),
{
    let e = Expr::Not(Box::new(x));
    let (y, r1) = parse_level(inp, p + 4, true, 0)->Ok_0;
    assert(parse_level(inp, p + 1, true, 0) == Ok::<(Expr, int), Seq<char>>((e, r1)));
    assert(parse_rest(inp, e, r1, true, 1) == Ok::<(Expr, int), Seq<char>>((e, c)));
    assert(parse_level(inp, p + 1, true, 1) == Ok::<(Expr, int), Seq<char>>((e, c)));
    assert(parse_rest(inp, e, c, true, 2) == Ok::<(Expr, int), Seq<char>>((e, c)));
}

/// Printing an expression whose keywords can stand in printed form (not
/// empty, no white space at either end, no parenthesis, no `AND`, `OR` or
/// `NOT` between boundaries) and parsing the text gives the expression back.
pub proof fn parse_of_display_gives_the_expression(e: Expr)
    requires
        printable(e),
    ensures
        parse_spec(display(e)) == Ok::<Expr, Seq<char>>(e),
{
    let d = display(e);
    lemma_display_start(e);
    assert(d.subrange(0, d.len() as int) =~= d);
    assert(skip_ws(d, 0) == 0);
    lemma_parse_operand(d, 0, 0, e, false);
    let (x, r) = parse_level(d, 0, false, 0)->Ok_0;
    assert(skip_ws(d, r) == d.len());
    assert(!operator_at(d, d.len() as int, op_and()));
    assert(!operator_at(d, d.len() as int, op_or()));
    assert(parse_rest(d, e, r, false, 1) == Ok::<(Expr, int), Seq<char>>((e, d.len() as int)));
    assert(parse_level(d, 0, false, 1) == Ok::<(Expr, int), Seq<char>>((e, d.len() as int)));
    assert(parse_rest(d, e, d.len() as int, false, 2) == Ok::<(Expr, int), Seq<char>>(
        (e, d.len() as int),
    ));
    assert(parse_level(d, 0, false, 2) == Ok::<(Expr, int), Seq<char>>((e, d.len() as int)));
}

/// The operands after the first of an `AND` chain, each after ` AND `.
pub open spec fn and_rest_text(ts: Seq<Expr>) -> Seq<char>
    decreases ts.len(),
{
    if ts.len() == 0 {
        Seq::empty()
    } else {
        " AND "@ + display(ts[0]) + and_rest_text(ts.drop_first())
    }
}

/// `left` joined by `AND` with each of `ts` in turn, nesting to the left.
pub open spec fn fold_and(left: Expr, ts: Seq<Expr>) -> Expr
    decreases ts.len(),
{
    if ts.len() == 0 {
        left
    } else {
        fold_and(Expr::And(Box::new(left), Box::new(ts[0])), ts.drop_first())
    }
}

/// A term: operands joined by `AND`, as text.
pub open spec fn term_text(t: (Expr, Seq<Expr>)) -> Seq<char> {
    display(t.0) + and_rest_text(t.1)
}

/// A term's tree: its operands joined by `AND`, nesting to the left.
pub open spec fn term_tree(t: (Expr, Seq<Expr>)) -> Expr {
    fold_and(t.0, t.1)
}

/// The terms after the first of a query, each after ` OR `.
pub open spec fn or_rest_text(ts: Seq<(Expr, Seq<Expr>)>) -> Seq<char>
    decreases ts.len(),
{
    if ts.len() == 0 {
        Seq::empty()
    } else {
        " OR "@ + term_text(ts[0]) + or_rest_text(ts.drop_first())
    }
}

/// `left` joined by `OR` with each term of `ts` in turn, nesting to the left.
pub open spec fn fold_or(left: Expr, ts: Seq<(Expr, Seq<Expr>)>) -> Expr
    decreases ts.len(),
{
    if ts.len() == 0 {
        left
    } else {
        fold_or(Expr::Or(Box::new(left), Box::new(term_tree(ts[0]))), ts.drop_first())
    }
}

/// Every operand of a term can stand in printed form.
pub open spec fn printable_term(t: (Expr, Seq<Expr>)) -> bool {
    printable(t.0) && forall|i: int| 0 <= i < t.1.len() ==> printable(#[trigger] t.1[i])
}

proof fn lemma_skip_ws_again(inp: Seq<char>, p: int)
    ensures
        skip_ws(inp, skip_ws(inp, p)) == skip_ws(inp, p),
    decreases inp.len() - p,
{
    if 0 <= p < inp.len() && is_ws(inp[p]) {
        lemma_skip_ws_again(inp, p + 1);
    }
}

/// What may follow a term at `n` at the top level: the end, or ` OR`.
pub open spec fn follows_term(inp: Seq<char>, n: int) -> bool {
    ||| n == inp.len()
    ||| (0 <= n < inp.len() && inp[n] == ' ' && operator_at(inp, n + 1, op_or()))
}

proof fn lemma_op_text(inp: Seq<char>, m: int, op: Seq<char>, word: Seq<char>)
    requires
        (op == " AND "@ && word == op_and()) || (op == " OR "@ && word == op_or()),
        text_at(inp, m, op),
        m + op.len() < inp.len(),
    ensures
        inp[m] == ' ',
        inp[m + 1] == word[0],
        inp[m + op.len() - 1] == ' ',
        operator_at(inp, m + 1, word),
        skip_ws(inp, m) == m + 1,
{
    reveal_strlit(" AND ");
    reveal_strlit(" OR ");
    assert forall|t: int| 0 <= t < op.len() implies #[trigger] inp[m + t] == op[t] by {
        lemma_text_at_index(inp, m, op, t);
    }
    assert(inp[m + 0] == op[0]);
    assert(inp[m + 1] == op[1]);
    assert(inp[m + op.len() - 1] == op[op.len() - 1]);
    assert(inp.subrange(m + 1, m + 1 + word.len()) =~= word) by {
        assert forall|t: int| 0 <= t < word.len() implies #[trigger] inp.subrange(
            m + 1,
            m + 1 + word.len(),
        )[t] == word[t] by {
            assert(inp[m + (t + 1)] == op[t + 1]);
        }
    }
    assert(skip_ws(inp, m + 1) == m + 1);
}

/// The rest of an `AND` chain after its operands so far, folded into `left`
/// and ending at `m`, parses to the whole chain folded to the left.
proof fn lemma_parse_and_rest(inp: Seq<char>, left: Expr, r: int, m: int, ts: Seq<Expr>)
    requires
        forall|i: int| 0 <= i < ts.len() ==> printable(#[trigger] ts[i]),
        text_at(inp, m, and_rest_text(ts)),
        0 <= r <= inp.len(),
        skip_ws(inp, r) == skip_ws(inp, m),
        follows_term(inp, m + and_rest_text(ts).len()),
    ensures
        parse_rest(inp, left, r, false, 1) == Ok::<(Expr, int), Seq<char>>(
            (fold_and(left, ts), skip_ws(inp, m + and_rest_text(ts).len())),
        ),
    decreases ts.len(),
{
    reveal_strlit(" AND ");
    let n = m + and_rest_text(ts).len();
    assert(level_op(1) == op_and());
    lemma_skip_ws_bounds(inp, r);
    if ts.len() == 0 {
        if n < inp.len() {
            assert(skip_ws(inp, n + 1) == n + 1);
            assert(skip_ws(inp, n) == n + 1);
            assert(!operator_at(inp, n + 1, op_and()));
        } else {
            assert(skip_ws(inp, n) == n);
        }
    } else {
        let t0 = ts[0];
        let d0 = display(t0);
        let rest = ts.drop_first();
        assert(and_rest_text(ts) == " AND "@ + d0 + and_rest_text(rest));
        lemma_text_at_concat(inp, m, " AND "@ + d0, and_rest_text(rest));
        lemma_text_at_concat(inp, m, " AND "@, d0);
        lemma_display_start(t0);
        lemma_op_text(inp, m, " AND "@, op_and());
        let m1 = m + 5 + d0.len();
        lemma_text_at_index(inp, m + 5, d0, 0);
        assert(skip_ws(inp, m + 5) == m + 5);
        assert(skip_ws(inp, m + 4) == m + 5);
        assert forall|i: int| 0 <= i < rest.len() implies printable(#[trigger] rest[i]) by {
            assert(rest[i] == ts[i + 1]);
        }
        if rest.len() > 0 {
            assert(and_rest_text(rest) == " AND "@ + display(rest[0]) + and_rest_text(rest.drop_first()));
            lemma_text_at_concat(inp, m1, " AND "@ + display(rest[0]), and_rest_text(rest.drop_first()));
            lemma_text_at_concat(inp, m1, " AND "@, display(rest[0]));
            lemma_display_start(rest[0]);
            lemma_op_text(inp, m1, " AND "@, op_and());
            assert(follows_operand(inp, m1, false));
        } else {
            assert(m1 == n);
            assert(follows_operand(inp, m1, false));
        }
        lemma_parse_operand(inp, m + 4, m + 5, t0, false);
        let (x2, r2) = parse_level(inp, m + 4, false, 0)->Ok_0;
        lemma_skip_ws_again(inp, m1);
        lemma_parse_and_rest(inp, Expr::And(Box::new(left), Box::new(t0)), r2, m1, rest);
        assert(parse_rest(inp, left, r, false, 1) == parse_rest(
            inp,
            Expr::And(Box::new(left), Box::new(t0)),
            r2,
            false,
            1,
        ));
    }
}

/// A term standing at `p` parses at level 1 to its operands folded to the
/// left by `AND`.
proof fn lemma_parse_term(inp: Seq<char>, p0: int, p: int, t: (Expr, Seq<Expr>))
    requires
        printable_term(t),
        text_at(inp, p, term_text(t)),
        0 <= p0 <= p,
        skip_ws(inp, p0) == p,
        p == 0 || is_boundary(inp[p - 1]),
        follows_term(inp, p + term_text(t).len()),
    ensures
        parse_level(inp, p0, false, 1) == Ok::<(Expr, int), Seq<char>>(
            (term_tree(t), skip_ws(inp, p + term_text(t).len())),
        ),
{
    reveal_strlit(" AND ");
    let d0 = display(t.0);
    let m = p + d0.len();
    let n = p + term_text(t).len();
    lemma_text_at_concat(inp, p, d0, and_rest_text(t.1));
    if t.1.len() > 0 {
        assert(and_rest_text(t.1) == " AND "@ + display(t.1[0]) + and_rest_text(t.1.drop_first()));
        lemma_text_at_concat(inp, m, " AND "@ + display(t.1[0]), and_rest_text(t.1.drop_first()));
        lemma_text_at_concat(inp, m, " AND "@, display(t.1[0]));
        lemma_display_start(t.1[0]);
        lemma_op_text(inp, m, " AND "@, op_and());
    } else {
        assert(m == n);
    }
    assert(follows_operand(inp, m, false));
    lemma_parse_operand(inp, p0, p, t.0, false);
    let (x, r) = parse_level(inp, p0, false, 0)->Ok_0;
    lemma_parse_and_rest(inp, t.0, r, m, t.1);
}

/// The rest of a query after its terms so far, folded into `left` and
/// ending at `m`, parses to the whole query folded to the left by `OR`.
proof fn lemma_parse_or_rest(inp: Seq<char>, left: Expr, r: int, m: int, ts: Seq<(Expr, Seq<Expr>)>)
    requires
        forall|i: int| 0 <= i < ts.len() ==> printable_term(#[trigger] ts[i]),
        text_at(inp, m, or_rest_text(ts)),
        m + or_rest_text(ts).len() == inp.len(),
        0 <= r <= inp.len(),
        skip_ws(inp, r) == skip_ws(inp, m),
    ensures
        parse_rest(inp, left, r, false, 2) == Ok::<(Expr, int), Seq<char>>(
            (fold_or(left, ts), inp.len() as int),
        ),
    decreases ts.len(),
{
    reveal_strlit(" OR ");
    assert(level_op(2) == op_or());
    lemma_skip_ws_bounds(inp, r);
    if ts.len() == 0 {
        assert(skip_ws(inp, m) == m);
    } else {
        let t0 = ts[0];
        let tx = term_text(t0);
        let rest = ts.drop_first();
        assert(or_rest_text(ts) == " OR "@ + tx + or_rest_text(rest));
        lemma_text_at_concat(inp, m, " OR "@ + tx, or_rest_text(rest));
        lemma_text_at_concat(inp, m, " OR "@, tx);
        lemma_text_at_concat(inp, m + 4, display(t0.0), and_rest_text(t0.1));
        lemma_display_start(t0.0);
        lemma_op_text(inp, m, " OR "@, op_or());
        let m1 = m + 4 + tx.len();
        lemma_text_at_index(inp, m + 4, display(t0.0), 0);
        assert(skip_ws(inp, m + 4) == m + 4);
        assert(skip_ws(inp, m + 3) == m + 4);
        assert forall|i: int| 0 <= i < rest.len() implies printable_term(#[trigger] rest[i]) by {
            assert(rest[i] == ts[i + 1]);
        }
        if rest.len() > 0 {
            assert(or_rest_text(rest) == " OR "@ + term_text(rest[0]) + or_rest_text(rest.drop_first()));
            lemma_text_at_concat(inp, m1, " OR "@ + term_text(rest[0]), or_rest_text(rest.drop_first()));
            lemma_text_at_concat(inp, m1, " OR "@, term_text(rest[0]));
            lemma_text_at_concat(inp, m1 + 4, display(rest[0].0), and_rest_text(rest[0].1));
            lemma_display_start(rest[0].0);
            lemma_op_text(inp, m1, " OR "@, op_or());
        }
        assert(follows_term(inp, m1));
        lemma_parse_term(inp, m + 3, m + 4, t0);
        let r2 = skip_ws(inp, m1);
        lemma_skip_ws_bounds(inp, m1);
        lemma_skip_ws_again(inp, m1);
        lemma_parse_or_rest(inp, Expr::Or(Box::new(left), Box::new(term_tree(t0))), r2, m1, rest);
        assert(parse_rest(inp, left, r, false, 2) == parse_rest(
            inp,
            Expr::Or(Box::new(left), Box::new(term_tree(t0))),
            r2,
            false,
            2,
        ));
    }
}

/// A query without grouping parentheses at its top, made of terms joined by
/// `OR` whose operands are joined by `AND`, parses with `AND` binding tighter
/// than `OR` and each chain nesting to the left: `a OR b OR c` gives
/// `Or(Or(a, b), c)`, `a AND b OR c` gives `Or(And(a, b), c)`. The operands
/// are printed expressions (keywords or parenthesised groups) whose keywords
/// can stand in printed form.
pub proof fn flat_query_parses_left_nested(first: (Expr, Seq<Expr>), rest: Seq<(Expr, Seq<Expr>)>)
    requires
        printable_term(first),
        forall|i: int| 0 <= i < rest.len() ==> printable_term(#[trigger] rest[i]),
    ensures
        parse_spec(term_text(first) + or_rest_text(rest)) == Ok::<Expr, Seq<char>>(
            fold_or(term_tree(first), rest),
        ),
{
    reveal_strlit(" OR ");
    let inp = term_text(first) + or_rest_text(rest);
    let m = term_text(first).len() as int;
    assert(inp.subrange(0, inp.len() as int) =~= inp);
    lemma_text_at_concat(inp, 0, term_text(first), or_rest_text(rest));
    lemma_text_at_concat(inp, 0, display(first.0), and_rest_text(first.1));
    lemma_display_start(first.0);
    lemma_text_at_index(inp, 0, display(first.0), 0);
    assert(skip_ws(inp, 0) == 0);
    if rest.len() > 0 {
        assert(or_rest_text(rest) == " OR "@ + term_text(rest[0]) + or_rest_text(rest.drop_first()));
        lemma_text_at_concat(inp, m, " OR "@ + term_text(rest[0]), or_rest_text(rest.drop_first()));
        lemma_text_at_concat(inp, m, " OR "@, term_text(rest[0]));
        lemma_text_at_concat(inp, m + 4, display(rest[0].0), and_rest_text(rest[0].1));
        lemma_display_start(rest[0].0);
        lemma_op_text(inp, m, " OR "@, op_or());
    }
    assert(follows_term(inp, m));
    lemma_parse_term(inp, 0, 0, first);
    let r = skip_ws(inp, m);
    lemma_skip_ws_bounds(inp, m);
    lemma_skip_ws_again(inp, m);
    lemma_parse_or_rest(inp, term_tree(first), r, m, rest);
    assert(parse_level(inp, 0, false, 2) == Ok::<(Expr, int), Seq<char>>(
        (fold_or(term_tree(first), rest), inp.len() as int),
    ));
    assert(skip_ws(inp, inp.len() as int) == inp.len());
}

} // verus!
