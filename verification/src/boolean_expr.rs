//! Boolean keyword expressions: the syntax tree, its parser and its evaluation.
//!
//! Grammar (operators are recognised in upper case only):
//!
//! ```text
//! Expression := Term (OR Term)*
//! Term       := Factor (AND Factor)*
//! Factor     := NOT Factor | Keyword | '(' Expression ')'
//! Keyword    := any phrase that is not an operator
//! ```
use vstd::prelude::*;

use crate::text::{
    chars_of, dedup_strings, difference_strings, distinct_strings, intersect_strings, is_whitespace, is_ws,
    string_from_chars, string_set, trim, trim_start, trimmed_range, union_strings,
};

verus! {

/// Syntax tree of a boolean keyword expression.
#[derive(Debug, PartialEq, Eq)]
pub enum BooleanExpr {
    /// A single keyword (or keyword phrase).
    Keyword(String),
    /// Intersection of the two operands.
    And(Box<BooleanExpr>, Box<BooleanExpr>),
    /// Union of the two operands.
    Or(Box<BooleanExpr>, Box<BooleanExpr>),
    /// Complement of the operand.
    Not(Box<BooleanExpr>),
}

/// Mathematical model of a [`BooleanExpr`]: keywords are character sequences.
pub enum Expr {
    Keyword(Seq<char>),
    And(Box<Expr>, Box<Expr>),
    Or(Box<Expr>, Box<Expr>),
    Not(Box<Expr>),
}

impl BooleanExpr {
    /// The model of this expression.
    pub open spec fn model(&self) -> Expr
        decreases self,
    {
        match self {
            BooleanExpr::Keyword(k) => Expr::Keyword(k@),
            BooleanExpr::And(l, r) => Expr::And(Box::new(l.model()), Box::new(r.model())),
            BooleanExpr::Or(l, r) => Expr::Or(Box::new(l.model()), Box::new(r.model())),
            BooleanExpr::Not(e) => Expr::Not(Box::new(e.model())),
        }
    }
}

impl View for BooleanExpr {
    type V = Expr;

    open spec fn view(&self) -> Expr {
        self.model()
    }
}

// ---------------------------------------------------------------------------
// Keywords, evaluation and display.
// ---------------------------------------------------------------------------

/// The keywords that occur in an expression.
pub open spec fn keywords_of(e: Expr) -> Set<Seq<char>>
    decreases e,
{
    match e {
        Expr::Keyword(k) => set![k],
        Expr::And(l, r) => keywords_of(*l).union(keywords_of(*r)),
        Expr::Or(l, r) => keywords_of(*l).union(keywords_of(*r)),
        Expr::Not(x) => keywords_of(*x),
    }
}

/// The file-id set of the first entry for `k` in `results`, or the empty set.
pub open spec fn lookup_results(results: Seq<(Seq<char>, Set<Seq<char>>)>, k: Seq<char>) -> Set<
    Seq<char>,
>
    decreases results.len(),
{
    if results.len() == 0 {
        Set::empty()
    } else if results[0].0 == k {
        results[0].1
    } else {
        lookup_results(results.drop_first(), k)
    }
}

/// Every file id that some keyword's results hold.
pub open spec fn known_fids(results: Seq<(Seq<char>, Set<Seq<char>>)>) -> Set<Seq<char>>
    decreases results.len(),
{
    if results.len() == 0 {
        Set::empty()
    } else {
        known_fids(results.drop_last()).union(results.last().1)
    }
}

/// The set an expression evaluates to: AND intersects, OR unites, NOT takes
/// the complement within the known file ids.
pub open spec fn eval_expr(e: Expr, results: Seq<(Seq<char>, Set<Seq<char>>)>) -> Set<Seq<char>>
    decreases e,
{
    match e {
        Expr::Keyword(k) => lookup_results(results, k),
        Expr::And(l, r) => eval_expr(*l, results).intersect(eval_expr(*r, results)),
        Expr::Or(l, r) => eval_expr(*l, results).union(eval_expr(*r, results)),
        Expr::Not(x) => known_fids(results).difference(eval_expr(*x, results)),
    }
}

/// The known file ids, each once.
fn known_fid_list(results: &Vec<(String, Vec<String>)>) -> (r: Vec<String>)
    ensures
        distinct_strings(r@),
        string_set(r@) == known_fids(results_model(results@)),
{
    let mut r: Vec<String> = Vec::new();
    let mut i: usize = 0;
    proof {
        assert(string_set(r@) =~= Set::<Seq<char>>::empty());
        assert(results_model(results@).take(0) =~= Seq::<(Seq<char>, Set<Seq<char>>)>::empty());
    }
    while i < results.len()
        invariant
            i <= results@.len(),
            distinct_strings(r@),
            string_set(r@) == known_fids(results_model(results@).take(i as int)),
        decreases results@.len() - i,
    {
        let fids = dedup_strings(&results[i].1);
        r = union_strings(&r, &fids);
        proof {
            let m = results_model(results@);
            assert(m.take(i + 1).drop_last() =~= m.take(i as int));
            assert(m.take(i + 1).last() == m[i as int]);
        }
        i = i + 1;
    }
    proof {
        assert(results_model(results@).take(results@.len() as int) =~= results_model(results@));
    }
    r
}

/// The textual form of an expression, fully parenthesised.
pub open spec fn display(e: Expr) -> Seq<char>
    decreases e,
{
    match e {
        Expr::Keyword(k) => k,
        Expr::And(l, r) => "("@ + display(*l) + " AND "@ + display(*r) + ")"@,
        Expr::Or(l, r) => "("@ + display(*l) + " OR "@ + display(*r) + ")"@,
        Expr::Not(x) => "(NOT "@ + display(*x) + ")"@,
    }
}

/// Model of keyword query results: each keyword with the set of its file ids.
pub open spec fn results_model(results: Seq<(String, Vec<String>)>) -> Seq<(Seq<char>, Set<Seq<char>>)> {
    results.map_values(|entry: (String, Vec<String>)| (entry.0@, string_set(entry.1@)))
}

impl BooleanExpr {
    /// All keywords of the expression, each once.
    pub fn get_keywords(&self) -> (r: Vec<String>)
        ensures
            distinct_strings(r@),
            string_set(r@) == keywords_of(self@),
        decreases self,
    {
        match self {
            BooleanExpr::Keyword(kw) => {
                let mut v = Vec::new();
                v.push(kw.clone());
                proof {
                    assert(string_set(v@) =~= set![kw@]) by {
                        assert(v@[0]@ == kw@);
                    }
                }
                v
            },
            BooleanExpr::And(left, right) => {
                let l = left.get_keywords();
                let r = right.get_keywords();
                union_strings(&l, &r)
            },
            BooleanExpr::Or(left, right) => {
                let l = left.get_keywords();
                let r = right.get_keywords();
                union_strings(&l, &r)
            },
            BooleanExpr::Not(expr) => expr.get_keywords(),
        }
    }

    /// Evaluates the expression against the file ids found for each keyword.
    pub fn evaluate(&self, keyword_results: &Vec<(String, Vec<String>)>) -> (r: Vec<String>)
        ensures
            distinct_strings(r@),
            string_set(r@) == eval_expr(self@, results_model(keyword_results@)),
        decreases self,
    {
        match self {
            BooleanExpr::Keyword(kw) => lookup_keyword(keyword_results, kw),
            BooleanExpr::And(left, right) => {
                let l = left.evaluate(keyword_results);
                let r = right.evaluate(keyword_results);
                intersect_strings(&l, &r)
            },
            BooleanExpr::Or(left, right) => {
                let l = left.evaluate(keyword_results);
                let r = right.evaluate(keyword_results);
                union_strings(&l, &r)
            },
            BooleanExpr::Not(expr) => {
                let operand = expr.evaluate(keyword_results);
                let known = known_fid_list(keyword_results);
                difference_strings(&known, &operand)
            },
        }
    }

    /// The textual form of the expression.
    pub fn to_string(&self) -> (s: String)
        ensures
            s@ == display(self@),
        decreases self,
    {
        match self {
            BooleanExpr::Keyword(kw) => kw.clone(),
            BooleanExpr::And(left, right) => {
                let mut s = String::from_str("(");
                let l = left.to_string();
                let r = right.to_string();
                s.append(l.as_str());
                s.append(" AND ");
                s.append(r.as_str());
                s.append(")");
                s
            },
            BooleanExpr::Or(left, right) => {
                let mut s = String::from_str("(");
                let l = left.to_string();
                let r = right.to_string();
                s.append(l.as_str());
                s.append(" OR ");
                s.append(r.as_str());
                s.append(")");
                s
            },
            BooleanExpr::Not(expr) => {
                let mut s = String::from_str("(NOT ");
                let x = expr.to_string();
                s.append(x.as_str());
                s.append(")");
                s
            },
        }
    }
}

/// The file ids recorded for `kw`, each once; none if `kw` has no entry.
fn lookup_keyword(keyword_results: &Vec<(String, Vec<String>)>, kw: &String) -> (r: Vec<String>)
    ensures
        distinct_strings(r@),
        string_set(r@) == lookup_results(results_model(keyword_results@), kw@),
{
    let ghost model = results_model(keyword_results@);
    assert(model.skip(0) =~= model);
    let mut i: usize = 0;
    while i < keyword_results.len()
        invariant
            i <= keyword_results.len(),
            model == results_model(keyword_results@),
            lookup_results(model, kw@) == lookup_results(model.skip(i as int), kw@),
        decreases keyword_results.len() - i,
    {
        assert(model.skip(i as int).drop_first() =~= model.skip(i + 1));
        assert(model.skip(i as int)[0] == model[i as int]);
        if keyword_results[i].0 == *kw {
            return dedup_strings(&keyword_results[i].1);
        }
        i = i + 1;
    }
    let v: Vec<String> = Vec::new();
    proof {
        assert(string_set(v@) =~= Set::<Seq<char>>::empty());
    }
    v
}

// ---------------------------------------------------------------------------
// Specification of the parser, over the characters of the input.
// ---------------------------------------------------------------------------

/// Characters that may stand next to an operator.
pub open spec fn is_boundary(c: char) -> bool {
    is_ws(c) || c == '(' || c == ')' || c == ',' || c == ';'
}

pub open spec fn op_and() -> Seq<char> {
    seq!['A', 'N', 'D']
}

pub open spec fn op_or() -> Seq<char> {
    seq!['O', 'R']
}

pub open spec fn op_not() -> Seq<char> {
    seq!['N', 'O', 'T']
}

/// `inp[p..]` starts with `op`.
pub open spec fn starts_with_at(inp: Seq<char>, p: int, op: Seq<char>) -> bool {
    0 <= p && p + op.len() <= inp.len() && inp.subrange(p, p + op.len()) == op
}

/// `op` stands at `p` as an operator: it is preceded and followed by a boundary
/// character or by an end of the input.
pub open spec fn operator_at(inp: Seq<char>, p: int, op: Seq<char>) -> bool {
    &&& starts_with_at(inp, p, op)
    &&& (p == 0 || is_boundary(inp[p - 1]))
    &&& (p + op.len() == inp.len() || is_boundary(inp[p + op.len()]))
}

pub open spec fn any_operator_at(inp: Seq<char>, p: int) -> bool {
    operator_at(inp, p, op_and()) || operator_at(inp, p, op_or()) || operator_at(inp, p, op_not())
}

/// The first position at or after `p` that does not hold white space.
pub open spec fn skip_ws(inp: Seq<char>, p: int) -> int
    decreases inp.len() - p,
{
    if 0 <= p < inp.len() && is_ws(inp[p]) {
        skip_ws(inp, p + 1)
    } else {
        p
    }
}

/// Scans for the parenthesis that closes the group, `depth` groups being open.
pub open spec fn paren_scan(inp: Seq<char>, i: int, depth: nat) -> Option<int>
    decreases inp.len() - i,
{
    if i < 0 || i >= inp.len() {
        None
    } else if inp[i] == '(' {
        paren_scan(inp, i + 1, depth + 1)
    } else if inp[i] == ')' {
        if depth <= 1 {
            Some(i)
        } else {
            paren_scan(inp, i + 1, (depth - 1) as nat)
        }
    } else {
        paren_scan(inp, i + 1, depth)
    }
}

/// `op` stands at `i` inside `inp[start..end]`, with boundaries on both sides.
pub open spec fn operator_within(inp: Seq<char>, start: int, end: int, i: int, op: Seq<char>) -> bool {
    &&& i + op.len() <= end
    &&& inp.subrange(i, i + op.len()) == op
    &&& (i == start || is_boundary(inp[i - 1]))
    &&& (i + op.len() >= end || is_boundary(inp[i + op.len()]))
}

/// Some operator stands inside `inp[start..end]`.
pub open spec fn has_operator_between(inp: Seq<char>, start: int, end: int) -> bool {
    exists|i: int|
        #![trigger inp[i]]
        start <= i < end && !is_boundary(inp[i]) && (operator_within(inp, start, end, i, op_and())
            || operator_within(inp, start, end, i, op_or()) || operator_within(
            inp,
            start,
            end,
            i,
            op_not(),
        ))
}

/// A parenthesis at `p` opens a group: it is closed and the group holds an operator.
pub open spec fn looks_like_group(inp: Seq<char>, p: int) -> bool {
    &&& 0 <= p < inp.len()
    &&& inp[p] == '('
    &&& match paren_scan(inp, p, 0) {
        Some(close) => has_operator_between(inp, p + 1, close),
        None => false,
    }
}

/// End of the keyword phrase that starts at `p`.
pub open spec fn keyword_end(inp: Seq<char>, p: int, allow_right_paren: bool) -> int
    decreases inp.len() - p,
{
    if 0 <= p < inp.len() && !(allow_right_paren && inp[p] == ')') && !any_operator_at(inp, p) {
        keyword_end(inp, p + 1, allow_right_paren)
    } else {
        p
    }
}

/// Outcome of parsing from a position: the expression and the position after it, or a message.
pub type ParseOutcome = Result<(Expr, int), Seq<char>>;

pub open spec fn msg_expected_keyword() -> Seq<char> {
    "Expected keyword"@
}

pub open spec fn msg_expected_paren() -> Seq<char> {
    "Expected ')'"@
}

/// Text that `{:?}` gives for a character.
pub uninterp spec fn char_debug_text(c: char) -> Seq<char>;

pub open spec fn msg_unexpected_token(c: char) -> Seq<char> {
    "Unexpected token after expression: Some("@ + char_debug_text(c) + ")"@
}

/// A keyword phrase at `p`: the trimmed text up to the next operator.
pub open spec fn parse_keyword_spec(inp: Seq<char>, p: int, allow_right_paren: bool) -> ParseOutcome {
    let e = keyword_end(inp, p, allow_right_paren);
    let k = trim(inp.subrange(p, e));
    if k.len() == 0 {
        Err(msg_expected_keyword())
    } else {
        Ok((Expr::Keyword(k), e))
    }
}

/// Operator of a binary level: `OR` joins terms, `AND` joins factors.
pub open spec fn level_op(level: nat) -> Seq<char> {
    if level >= 2 {
        op_or()
    } else {
        op_and()
    }
}

pub open spec fn level_combine(level: nat, left: Expr, right: Expr) -> Expr {
    if level >= 2 {
        Expr::Or(Box::new(left), Box::new(right))
    } else {
        Expr::And(Box::new(left), Box::new(right))
    }
}

pub proof fn lemma_skip_ws_bounds(inp: Seq<char>, p: int)
    requires
        0 <= p <= inp.len(),
    ensures
        p <= skip_ws(inp, p) <= inp.len(),
    decreases inp.len() - p,
{
    if 0 <= p < inp.len() && is_ws(inp[p]) {
        lemma_skip_ws_bounds(inp, p + 1);
    }
}

/// Parses the expression of the given level at `p`: level 2 is an expression,
/// level 1 a term, level 0 a factor.
pub open spec fn parse_level(inp: Seq<char>, p: int, allow_right_paren: bool, level: nat) -> ParseOutcome
    decreases inp.len() - p, level, 1nat,
{
    if p < 0 || p > inp.len() {
        Err(Seq::empty())
    } else if level == 0 {
        let q = skip_ws(inp, p);
        proof {
            lemma_skip_ws_bounds(inp, p);
        }
        if operator_at(inp, q, op_not()) {
            match parse_level(inp, q + 3, allow_right_paren, 0) {
                Ok((e, r)) => Ok((Expr::Not(Box::new(e)), r)),
                Err(m) => Err(m),
            }
        } else if looks_like_group(inp, q) {
            match parse_level(inp, q + 1, true, 2) {
                Ok((e, r)) => {
                    let s = skip_ws(inp, r);
                    if 0 <= s < inp.len() && inp[s] == ')' {
                        Ok((e, s + 1))
                    } else {
                        Err(msg_expected_paren())
                    }
                },
                Err(m) => Err(m),
            }
        } else {
            parse_keyword_spec(inp, q, allow_right_paren)
        }
    } else {
        match parse_level(inp, p, allow_right_paren, (level - 1) as nat) {
            Ok((left, r)) => if p <= r <= inp.len() {
                parse_rest(inp, left, r, allow_right_paren, level)
            } else {
                Err(Seq::empty())
            },
            Err(m) => Err(m),
        }
    }
}

/// Continues a binary level after its first operand `left`, which ends at `p`.
pub open spec fn parse_rest(
    inp: Seq<char>,
    left: Expr,
    p: int,
    allow_right_paren: bool,
    level: nat,
) -> ParseOutcome
    decreases inp.len() - p, level, 0nat,
{
    if p < 0 || p > inp.len() || level == 0 {
        Err(Seq::empty())
    } else {
        let q = skip_ws(inp, p);
        proof {
            lemma_skip_ws_bounds(inp, p);
        }
        if allow_right_paren && 0 <= q < inp.len() && inp[q] == ')' {
            Ok((left, q))
        } else if operator_at(inp, q, level_op(level)) {
            match parse_level(inp, q + level_op(level).len(), allow_right_paren, (level - 1) as nat) {
                Ok((right, r)) => if p < r <= inp.len() {
                    parse_rest(inp, level_combine(level, left, right), r, allow_right_paren, level)
                } else {
                    Err(Seq::empty())
                },
                Err(m) => Err(m),
            }
        } else {
            Ok((left, q))
        }
    }
}

/// What parsing the whole input gives.
pub open spec fn parse_spec(inp: Seq<char>) -> Result<Expr, Seq<char>> {
    match parse_level(inp, skip_ws(inp, 0), false, 2) {
        Ok((e, r)) => {
            let s = skip_ws(inp, r);
            if s >= inp.len() {
                Ok(e)
            } else {
                Err(msg_unexpected_token(inp[s]))
            }
        },
        Err(m) => Err(m),
    }
}

/// A parse outcome as it is seen through the models of its parts.
pub open spec fn outcome_of(r: Result<BooleanExpr, String>, pos: int) -> ParseOutcome {
    match r {
        Ok(e) => Ok((e@, pos)),
        Err(m) => Err(m@),
    }
}

// ---------------------------------------------------------------------------
// The parser.
// ---------------------------------------------------------------------------

/// Text that `{:?}` gives for a character, as `core::fmt::Debug` writes it.
#[verifier::external_body]
fn debug_char(c: char) -> (s: String)
    ensures
        s@ == char_debug_text(c),
{
    format!("{:?}", c)
}

fn and_operator() -> (v: Vec<char>)
    ensures
        v@ == op_and(),
{
    let mut v = Vec::new();
    v.push('A');
    v.push('N');
    v.push('D');
    v
}

fn or_operator() -> (v: Vec<char>)
    ensures
        v@ == op_or(),
{
    let mut v = Vec::new();
    v.push('O');
    v.push('R');
    v
}

fn not_operator() -> (v: Vec<char>)
    ensures
        v@ == op_not(),
{
    let mut v = Vec::new();
    v.push('N');
    v.push('O');
    v.push('T');
    v
}

/// Recursive-descent parser over the characters of the input.
pub struct Parser {
    input: Vec<char>,
    pos: usize,
}

impl Parser {
    /// The characters being parsed.
    pub closed spec fn chars(&self) -> Seq<char> {
        self.input@
    }

    /// The current position, in characters.
    pub closed spec fn position(&self) -> int {
        self.pos as int
    }

    pub closed spec fn wf(&self) -> bool {
        self.pos <= self.input.len()
    }

    pub fn new(input: &str) -> (p: Parser)
        ensures
            p.wf(),
            p.chars() == input@,
            p.position() == 0,
    {
        Parser { input: chars_of(input), pos: 0 }
    }

    pub fn is_eof(&self) -> (b: bool)
        ensures
            b == (self.position() >= self.chars().len()),
    {
        self.pos >= self.input.len()
    }

    pub fn peek_char(&self) -> (c: Option<char>)
        requires
            self.wf(),
        ensures
            c == (if self.position() < self.chars().len() {
                Some(self.chars()[self.position()])
            } else {
                None
            }),
    {
        if self.pos < self.input.len() {
            Some(self.input[self.pos])
        } else {
            None
        }
    }

    pub fn advance_char(&mut self) -> (c: Option<char>)
        requires
            old(self).wf(),
        ensures
            final(self).wf(),
            final(self).chars() == old(self).chars(),
            c == (if old(self).position() < old(self).chars().len() {
                Some(old(self).chars()[old(self).position()])
            } else {
                None
            }),
            final(self).position() == (if c is Some {
                old(self).position() + 1
            } else {
                old(self).position()
            }),
    {
        let ch = self.peek_char();
        if ch.is_some() {
            self.pos = self.pos + 1;
        }
        ch
    }

    pub fn skip_whitespace(&mut self)
        requires
            old(self).wf(),
        ensures
            final(self).wf(),
            final(self).chars() == old(self).chars(),
            final(self).position() == skip_ws(old(self).chars(), old(self).position()),
    {
        while self.pos < self.input.len() && is_whitespace(self.input[self.pos])
            invariant
                self.wf(),
                self.chars() == old(self).chars(),
                skip_ws(self.chars(), old(self).position()) == skip_ws(
                    self.chars(),
                    self.position(),
                ),
            decreases self.input.len() - self.pos,
        {
            self.pos = self.pos + 1;
        }
    }

    pub fn prev_char(&self) -> (c: Option<char>)
        requires
            self.wf(),
        ensures
            c == (if self.position() > 0 {
                Some(self.chars()[self.position() - 1])
            } else {
                None
            }),
    {
        if self.pos > 0 {
            Some(self.input[self.pos - 1])
        } else {
            None
        }
    }

    pub fn is_operator_boundary(ch: char) -> (b: bool)
        ensures
            b == is_boundary(ch),
    {
        is_whitespace(ch) || ch == '(' || ch == ')' || ch == ',' || ch == ';'
    }

    /// Whether `op` starts at `start` in the input.
    fn starts_with_at(&self, start: usize, op: &Vec<char>) -> (b: bool)
        requires
            self.wf(),
        ensures
            b == starts_with_at(self.chars(), start as int, op@),
    {
        if op.len() > self.input.len() || start > self.input.len() - op.len() {
            return false;
        }
        let mut i: usize = 0;
        while i < op.len()
            invariant
                i <= op.len(),
                start + op.len() <= self.input.len(),
                forall|j: int| 0 <= j < i ==> self.input@[start + j] == op@[j],
            decreases op.len() - i,
        {
            if self.input[start + i] != op[i] {
                assert(self.input@.subrange(start as int, start + op.len())[i as int] != op@[i as int]);
                return false;
            }
            i = i + 1;
        }
        assert(self.input@.subrange(start as int, start + op.len()) =~= op@);
        true
    }

    pub fn matches_operator_at(&self, op: &Vec<char>) -> (b: bool)
        requires
            self.wf(),
        ensures
            b == operator_at(self.chars(), self.position(), op@),
    {
        if !self.starts_with_at(self.pos, op) {
            return false;
        }
        let before_ok = match self.prev_char() {
            Some(ch) => Self::is_operator_boundary(ch),
            None => true,
        };
        let after_pos = self.pos + op.len();
        let after_ok = if after_pos < self.input.len() {
            Self::is_operator_boundary(self.input[after_pos])
        } else {
            true
        };
        before_ok && after_ok
    }

    pub fn consume_operator(&mut self, op: &Vec<char>) -> (b: bool)
        requires
            old(self).wf(),
        ensures
            final(self).wf(),
            final(self).chars() == old(self).chars(),
            b == operator_at(old(self).chars(), old(self).position(), op@),
            final(self).position() == (if b {
                old(self).position() + op@.len()
            } else {
                old(self).position()
            }),
    {
        if self.matches_operator_at(op) {
            self.pos = self.pos + op.len();
            true
        } else {
            false
        }
    }

    pub fn find_matching_paren(&self) -> (r: Option<usize>)
        requires
            self.wf(),
        ensures
            r matches Some(i) ==> paren_scan(self.chars(), self.position(), 0) == Some(i as int),
            r is None ==> paren_scan(self.chars(), self.position(), 0) is None,
    {
        let mut depth: usize = 0;
        let mut index = self.pos;
        while index < self.input.len()
            invariant
                self.pos <= index <= self.input.len(),
                depth <= index - self.pos,
                paren_scan(self.chars(), self.position(), 0) == paren_scan(
                    self.chars(),
                    index as int,
                    depth as nat,
                ),
            decreases self.input.len() - index,
        {
            let ch = self.input[index];
            if ch == '(' {
                depth = depth + 1;
            } else if ch == ')' {
                if depth <= 1 {
                    return Some(index);
                }
                depth = depth - 1;
            }
            index = index + 1;
        }
        None
    }

    /// Whether `op` stands as an operator at `index` inside `[start, end)`.
    fn operator_within(&self, start: usize, end: usize, index: usize, op: &Vec<char>) -> (b: bool)
        requires
            self.wf(),
            start <= index < end <= self.chars().len(),
        ensures
            b == operator_within(self.chars(), start as int, end as int, index as int, op@),
    {
        if op.len() > end - index {
            return false;
        }
        if !self.starts_with_at(index, op) {
            return false;
        }
        let before_ok = if index == start {
            true
        } else {
            Self::is_operator_boundary(self.input[index - 1])
        };
        let after_pos = index + op.len();
        let after_ok = if after_pos >= end {
            true
        } else {
            Self::is_operator_boundary(self.input[after_pos])
        };
        before_ok && after_ok
    }

    pub fn contains_top_level_operator(&self, start: usize, end: usize) -> (b: bool)
        requires
            self.wf(),
            end <= self.chars().len(),
        ensures
            b == has_operator_between(self.chars(), start as int, end as int),
    {
        let and_op = and_operator();
        let or_op = or_operator();
        let not_op = not_operator();
        let mut index = start;
        while index < end
            invariant
                self.wf(),
                start <= index,
                end <= self.input.len(),
                and_op@ == op_and(),
                or_op@ == op_or(),
                not_op@ == op_not(),
                forall|i: int|
                    #![trigger self.input@[i]]
                    start <= i < index ==> !(!is_boundary(self.input@[i]) && (operator_within(
                        self.input@,
                        start as int,
                        end as int,
                        i,
                        op_and(),
                    ) || operator_within(self.input@, start as int, end as int, i, op_or())
                        || operator_within(self.input@, start as int, end as int, i, op_not()))),
            decreases end - index,
        {
            let ch = self.input[index];
            if !Self::is_operator_boundary(ch) {
                if self.operator_within(start, end, index, &and_op) || self.operator_within(
                    start,
                    end,
                    index,
                    &or_op,
                ) || self.operator_within(start, end, index, &not_op) {
                    return true;
                }
            }
            index = index + 1;
        }
        false
    }

    pub fn looks_like_group(&self) -> (b: bool)
        requires
            self.wf(),
        ensures
            b == looks_like_group(self.chars(), self.position()),
    {
        if self.peek_char() != Some('(') {
            return false;
        }
        match self.find_matching_paren() {
            Some(close_pos) => {
                proof {
                    lemma_paren_scan_bounds(self.chars(), self.position(), 0);
                }
                self.contains_top_level_operator(self.pos + 1, close_pos)
            },
            None => false,
        }
    }

    /// Expression := Term (OR Term)*
    pub fn parse_expression(&mut self, allow_right_paren: bool) -> (r: Result<BooleanExpr, String>)
        requires
            old(self).wf(),
        ensures
            final(self).wf(),
            final(self).chars() == old(self).chars(),
            outcome_of(r, final(self).position()) == parse_level(
                old(self).chars(),
                old(self).position(),
                allow_right_paren,
                2,
            ),
            r is Ok ==> final(self).position() >= old(self).position(),
        decreases old(self).chars().len() - old(self).position(), 2nat, 1nat,
    {
        self.parse_binary(allow_right_paren, 2)
    }

    /// Term := Factor (AND Factor)*
    pub fn parse_term(&mut self, allow_right_paren: bool) -> (r: Result<BooleanExpr, String>)
        requires
            old(self).wf(),
        ensures
            final(self).wf(),
            final(self).chars() == old(self).chars(),
            outcome_of(r, final(self).position()) == parse_level(
                old(self).chars(),
                old(self).position(),
                allow_right_paren,
                1,
            ),
            r is Ok ==> final(self).position() >= old(self).position(),
        decreases old(self).chars().len() - old(self).position(), 1nat, 1nat,
    {
        self.parse_binary(allow_right_paren, 1)
    }

    /// A left-associative chain of operands of the level below, joined by the
    /// operator of `level` (`OR` for expressions, `AND` for terms).
    fn parse_binary(&mut self, allow_right_paren: bool, level: u8) -> (r: Result<BooleanExpr, String>)
        requires
            old(self).wf(),
            1 <= level <= 2,
        ensures
            final(self).wf(),
            final(self).chars() == old(self).chars(),
            outcome_of(r, final(self).position()) == parse_level(
                old(self).chars(),
                old(self).position(),
                allow_right_paren,
                level as nat,
            ),
            r is Ok ==> final(self).position() >= old(self).position(),
        decreases old(self).chars().len() - old(self).position(), level as nat, 0nat,
    {
        let ghost inp = self.chars();
        let ghost p0 = self.position();
        let op = if level == 2 {
            or_operator()
        } else {
            and_operator()
        };
        let first = if level == 2 {
            self.parse_term(allow_right_paren)
        } else {
            self.parse_factor(allow_right_paren)
        };
        let mut left = match first {
            Ok(e) => e,
            Err(m) => {
                return Err(m);
            },
        };
        loop
            invariant
                self.wf(),
                self.chars() == inp,
                inp == old(self).chars(),
                p0 == old(self).position(),
                1 <= level <= 2,
                op@ == level_op(level as nat),
                p0 <= self.position() <= inp.len(),
                parse_level(inp, p0, allow_right_paren, level as nat) == parse_rest(
                    inp,
                    left@,
                    self.position(),
                    allow_right_paren,
                    level as nat,
                ),
            decreases inp.len() - self.position(),
        {
            let ghost p = self.position();
            self.skip_whitespace();
            proof {
                lemma_skip_ws_bounds(inp, p);
            }
            if allow_right_paren && self.peek_char() == Some(')') {
                return Ok(left);
            }
            if self.consume_operator(&op) {
                let next = if level == 2 {
                    self.parse_term(allow_right_paren)
                } else {
                    self.parse_factor(allow_right_paren)
                };
                match next {
                    Ok(right) => {
                        left = if level == 2 {
                            BooleanExpr::Or(Box::new(left), Box::new(right))
                        } else {
                            BooleanExpr::And(Box::new(left), Box::new(right))
                        };
                    },
                    Err(m) => {
                        return Err(m);
                    },
                }
            } else {
                return Ok(left);
            }
        }
    }

    pub fn parse_keyword_phrase(&mut self, allow_right_paren: bool) -> (r: Result<
        BooleanExpr,
        String,
    >)
        requires
            old(self).wf(),
        ensures
            final(self).wf(),
            final(self).chars() == old(self).chars(),
            outcome_of(r, final(self).position()) == parse_keyword_spec(
                old(self).chars(),
                old(self).position(),
                allow_right_paren,
            ),
            r is Ok ==> final(self).position() > old(self).position(),
    {
        let ghost inp = self.chars();
        let and_op = and_operator();
        let or_op = or_operator();
        let not_op = not_operator();
        let start = self.pos;
        while self.pos < self.input.len()
            invariant
                self.wf(),
                self.chars() == inp,
                start <= self.pos,
                and_op@ == op_and(),
                or_op@ == op_or(),
                not_op@ == op_not(),
                keyword_end(inp, start as int, allow_right_paren) == keyword_end(
                    inp,
                    self.position(),
                    allow_right_paren,
                ),
            ensures
                self.wf(),
                self.chars() == inp,
                start <= self.pos,
                keyword_end(inp, start as int, allow_right_paren) == self.position(),
            decreases self.input.len() - self.pos,
        {
            let ch = self.input[self.pos];
            if allow_right_paren && ch == ')' {
                break;
            }
            if self.matches_operator_at(&and_op) || self.matches_operator_at(&or_op)
                || self.matches_operator_at(&not_op) {
                break;
            }
            self.pos = self.pos + 1;
        }
        let keyword = trimmed_range(&self.input, start, self.pos);
        if keyword.len() == 0 {
            Err(String::from_str("Expected keyword"))
        } else {
            proof {
                if self.pos == start {
                    assert(inp.subrange(start as int, start as int) =~= Seq::<char>::empty());
                    assert(trim(Seq::<char>::empty()) =~= Seq::<char>::empty());
                }
            }
            Ok(BooleanExpr::Keyword(string_from_chars(keyword.as_slice())))
        }
    }

    /// Factor := NOT Factor | Keyword | '(' Expression ')'
    pub fn parse_factor(&mut self, allow_right_paren: bool) -> (r: Result<BooleanExpr, String>)
        requires
            old(self).wf(),
        ensures
            final(self).wf(),
            final(self).chars() == old(self).chars(),
            outcome_of(r, final(self).position()) == parse_level(
                old(self).chars(),
                old(self).position(),
                allow_right_paren,
                0,
            ),
            r is Ok ==> final(self).position() > old(self).position(),
        decreases old(self).chars().len() - old(self).position(), 0nat, 1nat,
    {
        let ghost inp = self.chars();
        let ghost p0 = self.position();
        self.skip_whitespace();
        proof {
            lemma_skip_ws_bounds(inp, p0);
        }
        let not_op = not_operator();
        if self.consume_operator(&not_op) {
            return match self.parse_factor(allow_right_paren) {
                Ok(expr) => Ok(BooleanExpr::Not(Box::new(expr))),
                Err(m) => Err(m),
            };
        }
        if self.peek_char() == Some('(') && self.looks_like_group() {
            self.advance_char();
            let expr = match self.parse_expression(true) {
                Ok(e) => e,
                Err(m) => {
                    return Err(m);
                },
            };
            let ghost r1 = self.position();
            self.skip_whitespace();
            proof {
                lemma_skip_ws_bounds(inp, r1);
            }
            if self.peek_char() != Some(')') {
                return Err(String::from_str("Expected ')'"));
            }
            self.advance_char();
            return Ok(expr);
        }
        self.parse_keyword_phrase(allow_right_paren)
    }

    pub fn parse(&mut self) -> (r: Result<BooleanExpr, String>)
        requires
            old(self).wf(),
            old(self).position() == 0,
        ensures
            match r {
                Ok(e) => parse_spec(old(self).chars()) == Ok::<Expr, Seq<char>>(e@),
                Err(m) => parse_spec(old(self).chars()) == Err::<Expr, Seq<char>>(m@),
            },
    {
        let ghost inp = self.chars();
        self.skip_whitespace();
        let expr = match self.parse_expression(false) {
            Ok(e) => e,
            Err(m) => {
                return Err(m);
            },
        };
        self.skip_whitespace();
        if !self.is_eof() {
            let c = self.input[self.pos];
            let mut msg = String::from_str("Unexpected token after expression: Some(");
            let shown = debug_char(c);
            msg.append(shown.as_str());
            msg.append(")");
            return Err(msg);
        }
        Ok(expr)
    }
}

proof fn lemma_paren_scan_bounds(inp: Seq<char>, i: int, depth: nat)
    ensures
        paren_scan(inp, i, depth) matches Some(c) ==> i <= c < inp.len() && 0 <= c,
    decreases inp.len() - i,
{
    if i < 0 || i >= inp.len() {
    } else if inp[i] == '(' {
        lemma_paren_scan_bounds(inp, i + 1, depth + 1);
    } else if inp[i] == ')' {
        if depth > 1 {
            lemma_paren_scan_bounds(inp, i + 1, (depth - 1) as nat);
        }
    } else {
        lemma_paren_scan_bounds(inp, i + 1, depth);
    }
}

/// Parses a boolean keyword expression.
pub fn parse_boolean_expr(input: &str) -> (r: Result<BooleanExpr, String>)
    ensures
        match r {
            Ok(e) => parse_spec(input@) == Ok::<Expr, Seq<char>>(e@),
            Err(m) => parse_spec(input@) == Err::<Expr, Seq<char>>(m@),
        },
{
    let mut parser = Parser::new(input);
    parser.parse()
}

/// A keyword's reply as the expression reads it: the keyword and its file
/// ids (nothing for a failed reply).
pub open spec fn reply_model(r: Result<(String, Vec<String>), String>) -> (Seq<char>, Set<Seq<char>>) {
    match r {
        Ok(p) => (p.0@, string_set(p.1@)),
        Err(_) => (Seq::empty(), Set::empty()),
    }
}

/// Reply `k` is the first failed one.
pub open spec fn first_failed_reply(rs: Seq<Result<(String, Vec<String>), String>>, k: int) -> bool {
    &&& 0 <= k < rs.len()
    &&& rs[k] is Err
    &&& forall|i: int| 0 <= i < k ==> (#[trigger] rs[i]) is Ok
}

/// The answer to a boolean query from the replies for its keywords, in the
/// order they came: the first failed reply's message, or else the file ids
/// that the expression selects, each once, in increasing order.
pub fn boolean_answer(expr: &BooleanExpr, replies: &Vec<Result<(String, Vec<String>), String>>) -> (r:
    Result<Vec<String>, String>)
    ensures
        (r is Err) <==> exists|j: int| 0 <= j < replies@.len() && (#[trigger] replies@[j]) is Err,
        r matches Err(m) ==> exists|k: int|
            first_failed_reply(replies@, k) && (#[trigger] replies@[k] matches Err(e) && e@ == m@),
        r matches Ok(fids) ==> {
            &&& crate::routing::sorted_names(fids@.map_values(|s: String| s@))
            &&& distinct_strings(fids@)
            &&& string_set(fids@) == eval_expr(
                expr@,
                replies@.map_values(|x: Result<(String, Vec<String>), String>| reply_model(x)),
            )
        },
{
    let mut results: Vec<(String, Vec<String>)> = Vec::new();
    let mut i: usize = 0;
    while i < replies.len()
        invariant
            i <= replies@.len(),
            results@.len() == i,
            forall|j: int| 0 <= j < i ==> (#[trigger] replies@[j]) is Ok,
            forall|j: int|
                0 <= j < i ==> (#[trigger] results_model(results@)[j]) == reply_model(replies@[j]),
        decreases replies@.len() - i,
    {
        match &replies[i] {
            Ok(p) => {
                let fids = crate::proofs::copy_strings(&p.1);
                let ghost before = results@;
                results.push((p.0.clone(), fids));
                proof {
                    assert(fids@.map_values(|s: String| s@).len() == fids@.len());
                    assert(p.1@.map_values(|s: String| s@).len() == p.1@.len());
                    assert(string_set(fids@) =~= string_set(p.1@)) by {
                        assert forall|k: Seq<char>| string_set(fids@).contains(k) implies string_set(
                            p.1@,
                        ).contains(k) by {
                            let m = choose|m: int| 0 <= m < fids@.len() && fids@[m]@ == k;
                            assert(fids@.map_values(|s: String| s@)[m] == k);
                            assert(p.1@.map_values(|s: String| s@)[m] == k);
                            assert(p.1@[m]@ == k);
                        }
                        assert forall|k: Seq<char>| string_set(p.1@).contains(k) implies string_set(
                            fids@,
                        ).contains(k) by {
                            let m = choose|m: int| 0 <= m < p.1@.len() && p.1@[m]@ == k;
                            assert(p.1@.map_values(|s: String| s@)[m] == k);
                            assert(fids@.map_values(|s: String| s@)[m] == k);
                            assert(fids@[m]@ == k);
                        }
                    }
                    assert forall|j: int| 0 <= j < i + 1 implies (#[trigger] results_model(
                        results@,
                    )[j]) == reply_model(replies@[j]) by {
                        if j < i {
                            assert(results@[j] == before[j]);
                            assert(results_model(before)[j] == reply_model(replies@[j]));
                        }
                    }
                }
            },
            Err(e) => {
                let m = e.clone();
                proof {
                    assert(first_failed_reply(replies@, i as int));
                }
                return Err(m);
            },
        }
        i = i + 1;
    }
    proof {
        assert(results_model(results@) =~= replies@.map_values(
            |x: Result<(String, Vec<String>), String>| reply_model(x),
        ));
    }
    let selected = expr.evaluate(&results);
    let sorted = crate::routing::sort_strings(&selected);
    Ok(sorted)
}

} // verus!

verus! {

/// `op` occurs somewhere in `inp`.
pub open spec fn occurs_in(inp: Seq<char>, op: Seq<char>) -> bool {
    exists|i: int| starts_with_at(inp, i, op)
}

proof fn lemma_skip_ws_idempotent(inp: Seq<char>, p: int)
    ensures
        skip_ws(inp, skip_ws(inp, p)) == skip_ws(inp, p),
    decreases inp.len() - p,
{
    if 0 <= p < inp.len() && is_ws(inp[p]) {
        lemma_skip_ws_idempotent(inp, p + 1);
    }
}

proof fn lemma_skip_ws_trim_start(inp: Seq<char>, p: int)
    requires
        0 <= p <= inp.len(),
    ensures
        trim_start(inp.subrange(skip_ws(inp, p), inp.len() as int)) == trim_start(
            inp.subrange(p, inp.len() as int),
        ),
    decreases inp.len() - p,
{
    if 0 <= p < inp.len() && is_ws(inp[p]) {
        lemma_skip_ws_trim_start(inp, p + 1);
        assert(inp.subrange(p, inp.len() as int).drop_first() =~= inp.subrange(
            p + 1,
            inp.len() as int,
        ));
    }
}

proof fn lemma_keyword_runs_to_end(inp: Seq<char>, p: int)
    requires
        0 <= p <= inp.len(),
        !occurs_in(inp, op_and()),
        !occurs_in(inp, op_or()),
        !occurs_in(inp, op_not()),
    ensures
        keyword_end(inp, p, false) == inp.len(),
    decreases inp.len() - p,
{
    if p < inp.len() {
        assert(!starts_with_at(inp, p, op_and()));
        assert(!starts_with_at(inp, p, op_or()));
        assert(!starts_with_at(inp, p, op_not()));
        lemma_keyword_runs_to_end(inp, p + 1);
    }
}

/// Operators are recognised in upper case only: an input in which none of
/// `AND`, `OR`, `NOT` occurs parses to one keyword, the input with its
/// surrounding white space trimmed (so `rust and storage` is one phrase).
pub proof fn operator_free_input_is_one_keyword(inp: Seq<char>)
    requires
        !occurs_in(inp, op_and()),
        !occurs_in(inp, op_or()),
        !occurs_in(inp, op_not()),
        trim(inp).len() > 0,
    ensures
        parse_spec(inp) == Ok::<Expr, Seq<char>>(Expr::Keyword(trim(inp))),
{
    let n = inp.len() as int;
    let p = skip_ws(inp, 0);
    lemma_skip_ws_bounds(inp, 0);
    lemma_skip_ws_idempotent(inp, 0);
    lemma_skip_ws_trim_start(inp, 0);
    assert(inp.subrange(0, n) =~= inp);
    lemma_keyword_runs_to_end(inp, p);
    assert(!starts_with_at(inp, p, op_not()));
    assert(!has_operator_between(inp, p + 1, n)) by {
        if has_operator_between(inp, p + 1, n) {
            let i = choose|i: int|
                #![trigger inp[i]]
                p + 1 <= i < n && !is_boundary(inp[i]) && (operator_within(
                    inp,
                    p + 1,
                    n,
                    i,
                    op_and(),
                ) || operator_within(inp, p + 1, n, i, op_or()) || operator_within(
                    inp,
                    p + 1,
                    n,
                    i,
                    op_not(),
                ));
            assert(starts_with_at(inp, i, op_and()) || starts_with_at(inp, i, op_or())
                || starts_with_at(inp, i, op_not()));
        }
    }
    if looks_like_group(inp, p) {
        let close = paren_scan(inp, p, 0)->0;
        lemma_paren_scan_bounds(inp, p, 0);
        assert(has_operator_between(inp, p + 1, close));
        let i = choose|i: int|
            #![trigger inp[i]]
            p + 1 <= i < close && !is_boundary(inp[i]) && (operator_within(
                inp,
                p + 1,
                close,
                i,
                op_and(),
            ) || operator_within(inp, p + 1, close, i, op_or()) || operator_within(
                inp,
                p + 1,
                close,
                i,
                op_not(),
            ));
        assert(starts_with_at(inp, i, op_and()) || starts_with_at(inp, i, op_or())
            || starts_with_at(inp, i, op_not()));
    }
    let kw = Expr::Keyword(trim(inp));
    assert(parse_level(inp, p, false, 0) == Ok::<(Expr, int), Seq<char>>((kw, n)));
    assert(skip_ws(inp, n) == n);
    assert(parse_rest(inp, kw, n, false, 1) == Ok::<(Expr, int), Seq<char>>((kw, n)));
    assert(parse_level(inp, p, false, 1) == Ok::<(Expr, int), Seq<char>>((kw, n)));
    assert(parse_rest(inp, kw, n, false, 2) == Ok::<(Expr, int), Seq<char>>((kw, n)));
    assert(parse_level(inp, p, false, 2) == Ok::<(Expr, int), Seq<char>>((kw, n)));
}

} // verus!
