//! The access-policy parser: a single-pass tokenizer and a recursive-
//! descent parser for the grammar
//!
//! ```text
//! expr   := term   ( '|' term   )*
//! term   := factor ( '&' factor )*
//! factor := '(' expr ')' | name
//! name   := non-empty run of characters that are none of & | ( )
//! ```
//!
//! OR binds weaker than AND and both are left-associative. The whole
//! parse is mirrored by spec functions over the token views, so the
//! resulting tree is a function of the input string alone.
use vstd::prelude::*;
use vstd::string::StrSliceExecFns;

use crate::abe_attribute::AbeAttribute;
use crate::access_tree;
use crate::access_tree::{tree_view, AccessTree, TreeV};
use crate::errors::parse_error::ParseError;

verus! {

#[derive(Debug, Clone, PartialEq)]
pub enum Token {
    Variable(String),
    And,
    Or,
    OpenParen,
    CloseParen,
}

/// The mathematical content of a token.
pub enum TokV {
    Variable(Seq<char>),
    And,
    Or,
    Open,
    Close,
}

/// The mathematical content of a syntax tree.
pub enum AstV {
    Var(Seq<char>),
    Node(char, Box<AstV>, Box<AstV>),
}

#[derive(Debug, PartialEq)]
pub enum AstNode {
    Variable(String),
    BinaryOp(char, Box<AstNode>, Box<AstNode>),
}

/// The mathematical content of a syntax tree value.
pub open spec fn ast_view(a: AstNode) -> AstV
    decreases a,
{
    match a {
        AstNode::Variable(name) => AstV::Var(name@),
        AstNode::BinaryOp(op, left, right) => AstV::Node(
            op,
            Box::new(ast_view(*left)),
            Box::new(ast_view(*right)),
        ),
    }
}

impl View for AstNode {
    type V = AstV;

    open spec fn view(&self) -> AstV {
        ast_view(*self)
    }
}

pub open spec fn tok_view(t: Token) -> TokV {
    match t {
        Token::Variable(name) => TokV::Variable(name@),
        Token::And => TokV::And,
        Token::Or => TokV::Or,
        Token::OpenParen => TokV::Open,
        Token::CloseParen => TokV::Close,
    }
}

/// The views of a positioned token list.
pub open spec fn tok_views(s: Seq<(Token, usize)>) -> Seq<TokV> {
    s.map_values(|p: (Token, usize)| tok_view(p.0))
}

/// Whether a character is one of the four operator characters; any
/// other character belongs to a name.
pub open spec fn is_special(c: char) -> bool {
    c == '&' || c == '|' || c == '(' || c == ')'
}

pub open spec fn special_tok(c: char) -> TokV {
    if c == '&' {
        TokV::And
    } else if c == '|' {
        TokV::Or
    } else if c == '(' {
        TokV::Open
    } else {
        TokV::Close
    }
}

pub open spec fn pending(acc: Seq<char>) -> Seq<TokV> {
    if acc.len() == 0 {
        Seq::<TokV>::empty()
    } else {
        seq![TokV::Variable(acc)]
    }
}

/// The tokens of the input's remainder, given the name characters
/// accumulated so far: a name token is emitted when an operator
/// character or the end of the input follows it.
pub open spec fn toks(s: Seq<char>, acc: Seq<char>) -> Seq<TokV>
    decreases s.len(),
{
    if s.len() == 0 {
        pending(acc)
    } else if is_special(s[0]) {
        pending(acc) + seq![special_tok(s[0])] + toks(s.drop_first(), Seq::<char>::empty())
    } else {
        toks(s.drop_first(), acc.push(s[0]))
    }
}

/// The tokens of a policy string.
pub open spec fn tokens_spec(s: Seq<char>) -> Seq<TokV> {
    toks(s, Seq::<char>::empty())
}

/// The factor starting at token `i`: a parenthesized expression or a
/// single name; `None` on a syntax error.
pub open spec fn sp_factor(t: Seq<TokV>, i: int) -> Option<(AstV, int)>
    decreases t.len() - i, 0int,
{
    if i < 0 || i >= t.len() {
        None
    } else {
        match t[i] {
            TokV::Open => match sp_expr(t, i + 1) {
                Some((e, j)) => if j < t.len() && t[j] is Close {
                    Some((e, j + 1))
                } else {
                    None
                },
                None => None,
            },
            TokV::Variable(name) => Some((AstV::Var(name), i + 1)),
            _ => None,
        }
    }
}

/// The AND chain continuing at token `i` with `left` already parsed.
pub open spec fn sp_term_more(t: Seq<TokV>, i: int, left: AstV) -> Option<(AstV, int)>
    decreases t.len() - i, 2int,
{
    if 0 <= i < t.len() && t[i] is And {
        match sp_factor(t, i + 1) {
            Some((r, j)) => if i < j && j <= t.len() {
                sp_term_more(t, j, AstV::Node('&', Box::new(left), Box::new(r)))
            } else {
                None
            },
            None => None,
        }
    } else {
        Some((left, i))
    }
}

/// The term (AND chain of factors) starting at token `i`.
pub open spec fn sp_term(t: Seq<TokV>, i: int) -> Option<(AstV, int)>
    decreases t.len() - i, 1int,
{
    match sp_factor(t, i) {
        Some((l, j)) => if i < j && j <= t.len() {
            sp_term_more(t, j, l)
        } else {
            None
        },
        None => None,
    }
}

/// The OR chain continuing at token `i` with `left` already parsed.
pub open spec fn sp_expr_more(t: Seq<TokV>, i: int, left: AstV) -> Option<(AstV, int)>
    decreases t.len() - i, 4int,
{
    if 0 <= i < t.len() && t[i] is Or {
        match sp_term(t, i + 1) {
            Some((r, j)) => if i < j && j <= t.len() {
                sp_expr_more(t, j, AstV::Node('|', Box::new(left), Box::new(r)))
            } else {
                None
            },
            None => None,
        }
    } else {
        Some((left, i))
    }
}

/// The expression (OR chain of terms) starting at token `i`.
pub open spec fn sp_expr(t: Seq<TokV>, i: int) -> Option<(AstV, int)>
    decreases t.len() - i, 3int,
{
    match sp_term(t, i) {
        Some((l, j)) => if i < j && j <= t.len() {
            sp_expr_more(t, j, l)
        } else {
            None
        },
        None => None,
    }
}

/// The syntax tree of a whole token list: one expression with nothing
/// after it.
pub open spec fn sp_parse(t: Seq<TokV>) -> Option<AstV> {
    match sp_expr(t, 0) {
        Some((a, j)) => if j == t.len() {
            Some(a)
        } else {
            None
        },
        None => None,
    }
}

/// The access tree a syntax tree lowers to: names become leaves
/// without index or value, operators become AND / OR nodes.
pub open spec fn ast_to_tree(a: AstV) -> Option<TreeV>
    decreases a,
{
    match a {
        AstV::Var(name) => Some(
            TreeV::Leaf {
                attribute: crate::abe_attribute::AttrV { index: None, name, value: None },
                value: None,
            },
        ),
        AstV::Node(op, left, right) => {
            if op == '&' || op == '|' {
                match (ast_to_tree(*left), ast_to_tree(*right)) {
                    (Some(l), Some(r)) => Some(
                        TreeV::Op {
                            op: if op == '&' {
                                access_tree::TreeOperator::And
                            } else {
                                access_tree::TreeOperator::Or
                            },
                            left: Box::new(l),
                            right: Box::new(r),
                            value: None,
                        },
                    ),
                    _ => None,
                }
            } else {
                None
            }
        },
    }
}

/// Whether a syntax tree holds only the two operator characters the
/// grammar produces.
pub open spec fn ast_ops_ok(a: AstV) -> bool
    decreases a,
{
    match a {
        AstV::Var(_) => true,
        AstV::Node(op, left, right) => (op == '&' || op == '|') && ast_ops_ok(*left)
            && ast_ops_ok(*right),
    }
}

proof fn lemma_sp_factor_ops(t: Seq<TokV>, i: int)
    ensures
        sp_factor(t, i) matches Some(p) ==> ast_ops_ok(p.0),
    decreases t.len() - i, 0int,
{
    if 0 <= i < t.len() {
        match t[i] {
            TokV::Open => {
                lemma_sp_expr_ops(t, i + 1);
            },
            _ => {},
        }
    }
}

proof fn lemma_sp_term_more_ops(t: Seq<TokV>, i: int, left: AstV)
    requires
        ast_ops_ok(left),
    ensures
        sp_term_more(t, i, left) matches Some(p) ==> ast_ops_ok(p.0),
    decreases t.len() - i, 2int,
{
    if 0 <= i < t.len() && t[i] is And {
        lemma_sp_factor_ops(t, i + 1);
        match sp_factor(t, i + 1) {
            Some((r, j)) => {
                if i < j && j <= t.len() {
                    lemma_sp_term_more_ops(t, j, AstV::Node('&', Box::new(left), Box::new(r)));
                }
            },
            None => {},
        }
    }
}

proof fn lemma_sp_term_ops(t: Seq<TokV>, i: int)
    ensures
        sp_term(t, i) matches Some(p) ==> ast_ops_ok(p.0),
    decreases t.len() - i, 1int,
{
    lemma_sp_factor_ops(t, i);
    match sp_factor(t, i) {
        Some((l, j)) => {
            if i < j && j <= t.len() {
                lemma_sp_term_more_ops(t, j, l);
            }
        },
        None => {},
    }
}

proof fn lemma_sp_expr_more_ops(t: Seq<TokV>, i: int, left: AstV)
    requires
        ast_ops_ok(left),
    ensures
        sp_expr_more(t, i, left) matches Some(p) ==> ast_ops_ok(p.0),
    decreases t.len() - i, 4int,
{
    if 0 <= i < t.len() && t[i] is Or {
        lemma_sp_term_ops(t, i + 1);
        match sp_term(t, i + 1) {
            Some((r, j)) => {
                if i < j && j <= t.len() {
                    lemma_sp_expr_more_ops(t, j, AstV::Node('|', Box::new(left), Box::new(r)));
                }
            },
            None => {},
        }
    }
}

proof fn lemma_sp_expr_ops(t: Seq<TokV>, i: int)
    ensures
        sp_expr(t, i) matches Some(p) ==> ast_ops_ok(p.0),
    decreases t.len() - i, 3int,
{
    lemma_sp_term_ops(t, i);
    match sp_term(t, i) {
        Some((l, j)) => {
            if i < j && j <= t.len() {
                lemma_sp_expr_more_ops(t, j, l);
            }
        },
        None => {},
    }
}

proof fn lemma_ast_ops_to_tree(a: AstV)
    requires
        ast_ops_ok(a),
    ensures
        ast_to_tree(a) is Some,
    decreases a,
{
    match a {
        AstV::Var(_) => {},
        AstV::Node(op, left, right) => {
            lemma_ast_ops_to_tree(*left);
            lemma_ast_ops_to_tree(*right);
        },
    }
}

/// The access tree denoted by a policy string, if it is grammatical.
pub open spec fn parse_result_spec(input: Seq<char>) -> Option<TreeV> {
    match sp_parse(tokens_spec(input)) {
        Some(a) => ast_to_tree(a),
        None => None,
    }
}

/// Parser determinism: the tree denoted by a policy string is a
/// function of the string alone, so two parses of equal inputs yield
/// structurally equal trees.
pub proof fn lemma_parser_deterministic(input1: Seq<char>, input2: Seq<char>)
    requires
        input1 == input2,
    ensures
        parse_result_spec(input1) == parse_result_spec(input2),
{
}

pub struct AccessTreeParser {
    pub tokens: Vec<(Token, usize)>,
    pub position: usize,
    pub end: usize,
}

impl AccessTreeParser {
    /// Tokenizes a policy string: runs of non-operator characters
    /// become name tokens; the four operator characters become their
    /// own tokens. Each token remembers the character position it
    /// started at.
    pub fn new(input: &str) -> (r: AccessTreeParser)
        ensures
            tok_views(r.tokens@) == tokens_spec(input@),
            r.position == 0,
    {
        let n = input.unicode_len();
        let mut tokens: Vec<(Token, usize)> = Vec::new();
        let mut start: usize = 0;
        let mut i: usize = 0;
        proof {
            assert(input@.skip(0) =~= input@);
            assert(input@.subrange(0, 0) =~= Seq::<char>::empty());
            assert(tok_views(tokens@) =~= Seq::<TokV>::empty());
            assert(Seq::<TokV>::empty() + toks(input@, Seq::<char>::empty()) =~= toks(
                input@,
                Seq::<char>::empty(),
            ));
        }
        while i < n
            invariant
                start <= i <= n,
                n == input@.len(),
                tokens_spec(input@) == tok_views(tokens@) + toks(
                    input@.skip(i as int),
                    input@.subrange(start as int, i as int),
                ),
            decreases n - i,
        {
            let c = input.get_char(i);
            let ghost rest = input@.skip(i as int);
            let ghost acc = input@.subrange(start as int, i as int);
            proof {
                assert(rest[0] == input@[i as int]);
                assert(rest.drop_first() =~= input@.skip(i + 1));
            }
            if c == '&' || c == '|' || c == '(' || c == ')' {
                if start < i {
                    let name = input.substring_char(start, i).to_owned();
                    tokens.push((Token::Variable(name), start));
                }
                let tok = if c == '&' {
                    Token::And
                } else if c == '|' {
                    Token::Or
                } else if c == '(' {
                    Token::OpenParen
                } else {
                    Token::CloseParen
                };
                tokens.push((tok, i));
                proof {
                    assert(input@.subrange(i + 1, i + 1) =~= Seq::<char>::empty());
                    assert(toks(rest, acc) == pending(acc) + seq![special_tok(rest[0])] + toks(
                        input@.skip(i + 1),
                        Seq::<char>::empty(),
                    ));
                    assert(tokens_spec(input@) =~= tok_views(tokens@) + toks(
                        input@.skip(i + 1),
                        input@.subrange(i + 1, i + 1),
                    ));
                }
                start = i + 1;
            } else {
                proof {
                    assert(!is_special(rest[0]));
                    assert(acc.push(input@[i as int]) =~= input@.subrange(start as int, i + 1));
                }
            }
            i += 1;
        }
        if start < i {
            let name = input.substring_char(start, i).to_owned();
            tokens.push((Token::Variable(name), start));
        }
        proof {
            assert(input@.skip(n as int) =~= Seq::<char>::empty());
            assert(tok_views(tokens@) =~= tokens_spec(input@));
        }
        AccessTreeParser { tokens, position: 0, end: n }
    }

    fn advance(&mut self)
        requires
            old(self).position < old(self).tokens@.len(),
        ensures
            final(self).tokens@ == old(self).tokens@,
            final(self).position == old(self).position + 1,
            final(self).end == old(self).end,
    {
        let n = self.tokens.len();
        if self.position < n {
            self.position += 1;
        } else {
            proof {
                assert(false);
            }
        }
    }

    fn parse_variable(&mut self) -> (r: Result<AstNode, ParseError>)
        requires
            old(self).position <= old(self).tokens@.len(),
        ensures
            final(self).tokens@ == old(self).tokens@,
            final(self).position <= final(self).tokens@.len(),
            final(self).end == old(self).end,
            r matches Ok(a) ==> {
                &&& old(self).position < old(self).tokens@.len()
                &&& tok_views(old(self).tokens@)[old(self).position as int] matches TokV::Variable(
                    n,
                ) && a@ == AstV::Var(n)
                &&& final(self).position == old(self).position + 1
            },
            r is Err ==> (old(self).position >= old(self).tokens@.len() || !(tok_views(
                old(self).tokens@,
            )[old(self).position as int] is Variable)),
            (r is Err && old(self).position < old(self).tokens@.len()) ==> (r matches Err(e)
                && e.message@ == "Invalid token"@ && e.position == old(self).tokens@[old(
                self,
            ).position as int].1),
            (r is Err && old(self).position >= old(self).tokens@.len()) ==> (r matches Err(e)
                && e.message@ == "Expected variable but got None"@ && e.position == old(
                self,
            ).end),
    {
        if self.position < self.tokens.len() {
            match &self.tokens[self.position].0 {
                Token::Variable(name) => {
                    let name = name.clone();
                    self.advance();
                    Ok(AstNode::Variable(name))
                },
                _ => Err(ParseError::new("Invalid token", self.tokens[self.position].1)),
            }
        } else {
            Err(ParseError::new("Expected variable but got None", self.end))
        }
    }

    fn parse_factor(&mut self) -> (r: Result<AstNode, ParseError>)
        requires
            old(self).position <= old(self).tokens@.len(),
        ensures
            final(self).tokens@ == old(self).tokens@,
            final(self).position <= final(self).tokens@.len(),
            final(self).end == old(self).end,
            r matches Ok(a) ==> sp_factor(tok_views(old(self).tokens@), old(self).position as int)
                == Some((a@, final(self).position as int)) && old(self).position < final(self).position,
            r is Err ==> sp_factor(tok_views(old(self).tokens@), old(self).position as int)
                is None,
            (old(self).position < old(self).tokens@.len() && tok_views(
                old(self).tokens@,
            )[old(self).position as int] is Open && sp_expr(
                tok_views(old(self).tokens@),
                old(self).position + 1,
            ) is Some && !({
                let j = sp_expr(tok_views(old(self).tokens@), old(self).position + 1)->Some_0.1;
                j < old(self).tokens@.len() && tok_views(old(self).tokens@)[j] is Close
            })) ==> (r matches Err(e) && e.message@ == "Expected closing parenthesis"@
                && e.position == ({
                let j = sp_expr(tok_views(old(self).tokens@), old(self).position + 1)->Some_0.1;
                if j < old(self).tokens@.len() {
                    old(self).tokens@[j].1
                } else {
                    old(self).end
                }
            })),
        decreases old(self).tokens@.len() - old(self).position, 0int,
    {
        let ghost tv = tok_views(self.tokens@);
        let ghost i0 = self.position as int;
        let mut open = false;
        if self.position < self.tokens.len() {
            match &self.tokens[self.position].0 {
                Token::OpenParen => {
                    open = true;
                },
                _ => {},
            }
        }
        if open {
            self.advance();
            let expr = match self.parse_expr() {
                Ok(e) => e,
                Err(e) => {
                    return Err(e);
                },
            };
            let mut close = false;
            if self.position < self.tokens.len() {
                match &self.tokens[self.position].0 {
                    Token::CloseParen => {
                        close = true;
                    },
                    _ => {},
                }
            }
            if close {
                self.advance();
                Ok(expr)
            } else if self.position < self.tokens.len() {
                Err(ParseError::new("Expected closing parenthesis", self.tokens[self.position].1))
            } else {
                Err(ParseError::new("Expected closing parenthesis", self.end))
            }
        } else {
            self.parse_variable()
        }
    }

    fn parse_term(&mut self) -> (r: Result<AstNode, ParseError>)
        requires
            old(self).position <= old(self).tokens@.len(),
        ensures
            final(self).tokens@ == old(self).tokens@,
            final(self).position <= final(self).tokens@.len(),
            final(self).end == old(self).end,
            r matches Ok(a) ==> sp_term(tok_views(old(self).tokens@), old(self).position as int)
                == Some((a@, final(self).position as int)) && old(self).position < final(self).position,
            r is Err ==> sp_term(tok_views(old(self).tokens@), old(self).position as int) is None,
        decreases old(self).tokens@.len() - old(self).position, 1int,
    {
        let ghost tv = tok_views(self.tokens@);
        let ghost i0 = self.position as int;
        let mut left = match self.parse_factor() {
            Ok(l) => l,
            Err(e) => {
                return Err(e);
            },
        };
        loop
            invariant
                self.position <= self.tokens@.len(),
                self.tokens@ == old(self).tokens@,
                self.end == old(self).end,
                tv == tok_views(self.tokens@),
                i0 == old(self).position as int,
                i0 < self.position as int,
                sp_term(tv, i0) == sp_term_more(tv, self.position as int, left@),
            decreases self.tokens@.len() - self.position,
        {
            let mut more = false;
            if self.position < self.tokens.len() {
                match &self.tokens[self.position].0 {
                    Token::And => {
                        more = true;
                    },
                    _ => {},
                }
            }
            if !more {
                proof {
                    assert(sp_term_more(tv, self.position as int, left@) == Some(
                        (left@, self.position as int),
                    ));
                }
                return Ok(left);
            }
            let ghost pos_before = self.position as int;
            self.advance();
            let right = match self.parse_factor() {
                Ok(r2) => r2,
                Err(e) => {
                    proof {
                        assert(sp_term_more(tv, pos_before, left@) is None);
                    }
                    return Err(e);
                },
            };
            left = AstNode::BinaryOp('&', Box::new(left), Box::new(right));
        }
    }

    fn parse_expr(&mut self) -> (r: Result<AstNode, ParseError>)
        requires
            old(self).position <= old(self).tokens@.len(),
        ensures
            final(self).tokens@ == old(self).tokens@,
            final(self).position <= final(self).tokens@.len(),
            final(self).end == old(self).end,
            r matches Ok(a) ==> sp_expr(tok_views(old(self).tokens@), old(self).position as int)
                == Some((a@, final(self).position as int)) && old(self).position < final(self).position,
            r is Err ==> sp_expr(tok_views(old(self).tokens@), old(self).position as int) is None,
        decreases old(self).tokens@.len() - old(self).position, 2int,
    {
        let ghost tv = tok_views(self.tokens@);
        let ghost i0 = self.position as int;
        let mut left = match self.parse_term() {
            Ok(l) => l,
            Err(e) => {
                return Err(e);
            },
        };
        loop
            invariant
                self.position <= self.tokens@.len(),
                self.tokens@ == old(self).tokens@,
                self.end == old(self).end,
                tv == tok_views(self.tokens@),
                i0 == old(self).position as int,
                i0 < self.position as int,
                sp_expr(tv, i0) == sp_expr_more(tv, self.position as int, left@),
            decreases self.tokens@.len() - self.position,
        {
            let mut more = false;
            if self.position < self.tokens.len() {
                match &self.tokens[self.position].0 {
                    Token::Or => {
                        more = true;
                    },
                    _ => {},
                }
            }
            if !more {
                proof {
                    assert(sp_expr_more(tv, self.position as int, left@) == Some(
                        (left@, self.position as int),
                    ));
                }
                return Ok(left);
            }
            let ghost pos_before = self.position as int;
            self.advance();
            let right = match self.parse_term() {
                Ok(r2) => r2,
                Err(e) => {
                    proof {
                        assert(sp_expr_more(tv, pos_before, left@) is None);
                    }
                    return Err(e);
                },
            };
            left = AstNode::BinaryOp('|', Box::new(left), Box::new(right));
        }
    }

    /// Parses the whole token list into a syntax tree; trailing tokens
    /// after the top-level expression are an error.
    pub fn generate_ast(&mut self) -> (r: Result<AstNode, ParseError>)
        requires
            old(self).position == 0,
        ensures
            r matches Ok(a) ==> sp_parse(tok_views(old(self).tokens@)) == Some(a@),
            r is Err ==> sp_parse(tok_views(old(self).tokens@)) is None,
            (sp_expr(tok_views(old(self).tokens@), 0) is Some && sp_expr(
                tok_views(old(self).tokens@),
                0,
            )->Some_0.1 < old(self).tokens@.len()) ==> (r matches Err(e) && e.message@
                == "Unexpected tokens after parsing was complete"@ && e.position == old(
                self,
            ).tokens@[sp_expr(tok_views(old(self).tokens@), 0)->Some_0.1].1),
    {
        let ghost tv = tok_views(self.tokens@);
        let ast = match self.parse_expr() {
            Ok(a) => a,
            Err(e) => {
                return Err(e);
            },
        };
        if self.position < self.tokens.len() {
            return Err(
                ParseError::new(
                    "Unexpected tokens after parsing was complete",
                    self.tokens[self.position].1,
                ),
            );
        }
        Ok(ast)
    }

    fn ast_to_access_tree(&self, ast: AstNode) -> (r: Result<AccessTree, ParseError>)
        ensures
            r matches Ok(t) ==> ast_to_tree(ast_view(ast)) == Some(tree_view(t)),
            r matches Err(e) ==> ast_to_tree(ast_view(ast)) is None && e.message@
                == "Invalid operator"@,
        decreases ast,
    {
        match ast {
            AstNode::Variable(name) => Ok(
                AccessTree::Leaf(
                    access_tree::Leaf { attribute: AbeAttribute::new(name.as_str()), value: None },
                ),
            ),
            AstNode::BinaryOp(op, left, right) => {
                let operator = if op == '|' {
                    access_tree::TreeOperator::Or
                } else if op == '&' {
                    access_tree::TreeOperator::And
                } else {
                    return Err(ParseError::new("Invalid operator", self.position));
                };
                let left_tree = match self.ast_to_access_tree(*left) {
                    Ok(t) => t,
                    Err(e) => {
                        return Err(e);
                    },
                };
                let right_tree = match self.ast_to_access_tree(*right) {
                    Ok(t) => t,
                    Err(e) => {
                        return Err(e);
                    },
                };
                Ok(
                    AccessTree::Operator(
                        access_tree::Operator {
                            operator,
                            left: Box::new(left_tree),
                            right: Box::new(right_tree),
                            value: None,
                        },
                    ),
                )
            },
        }
    }

    /// Parses the policy string the parser was built from into an
    /// access tree: exactly the tree `parse_result_spec` denotes.
    pub fn parse(&mut self) -> (r: Result<AccessTree, ParseError>)
        requires
            old(self).position == 0,
        ensures
            r is Ok <==> sp_parse(tok_views(old(self).tokens@)) is Some,
            r matches Ok(t) ==> match sp_parse(tok_views(old(self).tokens@)) {
                Some(a) => ast_to_tree(a) == Some(tree_view(t)),
                None => false,
            },
    {
        let ghost tv = tok_views(self.tokens@);
        let ast = match self.generate_ast() {
            Ok(a) => a,
            Err(e) => {
                return Err(e);
            },
        };
        proof {
            lemma_sp_expr_ops(tv, 0);
            lemma_ast_ops_to_tree(ast_view(ast));
        }
        self.ast_to_access_tree(ast)
    }
}

} // verus!
