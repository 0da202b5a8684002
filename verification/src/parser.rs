//! The parser: recursive descent from a token sequence to an AST.
//!
//! One token of lookahead dispatches on the current token: a number or
//! string token becomes a literal leaf; an opening parenthesis opens a
//! call expression, whose name is the next token's text, taken as it
//! stands whatever its kind, and whose parameters are expressions up
//! to the matching closing parenthesis. Every failure is surfaced as a
//! value; no partial tree is ever returned.

use vstd::prelude::*;

use crate::token::{SpecToken, Token, TokenKind, view_tokens};

verus! {

/// The class of a literal AST node.
#[derive(Clone, Copy, Debug, PartialEq, Eq, Structural)]
pub enum LiteralKind {
    NumberLiteral,
    StringLiteral,
}

/// One node of the abstract syntax tree.
///
/// `Program` is the root and holds the top-level expressions in source
/// order. `Literal` is a leaf and holds the raw text of a number or
/// string token. `CallExpression` holds the name that followed its
/// opening parenthesis and its parameters in source order.
#[derive(Debug, PartialEq)]
pub enum Node {
    Program { body: Vec<Node> },
    Literal { kind: LiteralKind, value: String },
    CallExpression { name: String, params: Vec<Node> },
}

/// The mathematical model of an AST node.
pub enum SpecNode {
    Program { body: Seq<SpecNode> },
    Literal { kind: LiteralKind, value: Seq<char> },
    CallExpression { name: Seq<char>, params: Seq<SpecNode> },
}

impl View for Node {
    type V = SpecNode;

    open spec fn view(&self) -> SpecNode
        decreases self,
    {
        match self {
            Node::Program { body } => SpecNode::Program { body: view_nodes(body@) },
            Node::Literal { kind, value } => SpecNode::Literal { kind: *kind, value: value@ },
            Node::CallExpression { name, params } => SpecNode::CallExpression {
                name: name@,
                params: view_nodes(params@),
            },
        }
    }
}

/// The model of a node sequence: each node replaced by its model.
pub open spec fn view_nodes(nodes: Seq<Node>) -> Seq<SpecNode>
    decreases nodes,
{
    if nodes.len() > 0 {
        seq![nodes[0]@] + view_nodes(nodes.drop_first())
    } else {
        Seq::empty()
    }
}

/// A node sequence's model has the same length, and holds the model of
/// each node, in order.
pub proof fn lemma_view_nodes(nodes: Seq<Node>)
    ensures
        view_nodes(nodes).len() == nodes.len(),
        forall|i: int| 0 <= i < nodes.len() ==> view_nodes(nodes)[i] == nodes[i]@,
    decreases nodes.len(),
{
    if nodes.len() > 0 {
        lemma_view_nodes(nodes.drop_first());
        assert(view_nodes(nodes) == seq![nodes[0]@] + view_nodes(nodes.drop_first()));
        assert forall|i: int| 0 <= i < nodes.len() implies view_nodes(nodes)[i] == nodes[i]@ by {
            if i > 0 {
                assert(view_nodes(nodes)[i] == view_nodes(nodes.drop_first())[i - 1]);
                assert(nodes.drop_first()[i - 1] == nodes[i]);
            }
        }
    }
}

/// Appending one node to a sequence appends its model to the model.
pub proof fn lemma_view_nodes_push(nodes: Seq<Node>, n: Node)
    ensures
        view_nodes(nodes.push(n)) == view_nodes(nodes).push(n@),
{
    lemma_view_nodes(nodes);
    lemma_view_nodes(nodes.push(n));
    assert(view_nodes(nodes.push(n)) =~= view_nodes(nodes).push(n@));
}

/// A parse failure, as the model states it.
pub enum SpecParseError {
    /// The token at the point of failure starts no expression, or was
    /// found where a closing parenthesis was owed.
    UnexpectedToken { token: SpecToken },
    /// A token was owed but the sequence was exhausted.
    UnexpectedEndOfInput,
}

/// A parse failure: the token that fits no rule at its position, or a
/// premature end of the token sequence.
#[derive(Debug, PartialEq)]
pub enum ParseError {
    UnexpectedToken { token: Token },
    UnexpectedEndOfInput,
}

impl View for ParseError {
    type V = SpecParseError;

    open spec fn view(&self) -> SpecParseError {
        match self {
            ParseError::UnexpectedToken { token } => SpecParseError::UnexpectedToken {
                token: token@,
            },
            ParseError::UnexpectedEndOfInput => SpecParseError::UnexpectedEndOfInput,
        }
    }
}

/// A `Paren` token that opens a call expression.
pub open spec fn is_open_paren(t: SpecToken) -> bool {
    t.kind == TokenKind::Paren && t.value == seq!['(']
}

/// A `Paren` token that closes a call expression.
pub open spec fn is_close_paren(t: SpecToken) -> bool {
    t.kind == TokenKind::Paren && t.value == seq![')']
}

/// The expression the model parses at position `i`: the node and the
/// position just past it, or the failure.
///
/// A number or string token is a literal. An opening parenthesis must
/// be followed by a name token (any token serves; its text becomes the
/// call's name), the parameter expressions, and a closing parenthesis.
/// Anything else, a closing parenthesis included, starts no expression.
pub open spec fn parse_expr(toks: Seq<SpecToken>, i: nat) -> Result<
    (SpecNode, nat),
    SpecParseError,
> decreases toks.len() - i, 0int,
{
    if i >= toks.len() {
        Err(SpecParseError::UnexpectedEndOfInput)
    } else {
        let t = toks[i as int];
        if t.kind == TokenKind::Number {
            Ok((SpecNode::Literal { kind: LiteralKind::NumberLiteral, value: t.value }, i + 1))
        } else if t.kind == TokenKind::Str {
            Ok((SpecNode::Literal { kind: LiteralKind::StringLiteral, value: t.value }, i + 1))
        } else if is_open_paren(t) {
            if i + 1 >= toks.len() {
                Err(SpecParseError::UnexpectedEndOfInput)
            } else {
                let name = toks[i as int + 1].value;
                match parse_params(toks, (i + 2) as nat) {
                    Ok((params, close)) => Ok(
                        (SpecNode::CallExpression { name, params }, (close + 1) as nat),
                    ),
                    Err(e) => Err(e),
                }
            }
        } else {
            Err(SpecParseError::UnexpectedToken { token: t })
        }
    }
}

/// The parameter list the model parses from position `i` up to a
/// closing parenthesis: the parameter nodes in order and the position
/// of the closing parenthesis, which is not consumed here.
///
/// The arm guarded on `i < j` can never be taken, since a parsed
/// expression always ends past where it began
/// ([`lemma_parse_expr_advances`]); the guard only bounds the
/// recursion.
pub open spec fn parse_params(toks: Seq<SpecToken>, i: nat) -> Result<
    (Seq<SpecNode>, nat),
    SpecParseError,
> decreases toks.len() - i, 1int,
{
    if i >= toks.len() {
        Err(SpecParseError::UnexpectedEndOfInput)
    } else if is_close_paren(toks[i as int]) {
        Ok((Seq::empty(), i))
    } else {
        match parse_expr(toks, i) {
            Ok((n, j)) => if i < j <= toks.len() {
                match parse_params(toks, j) {
                    Ok((rest, close)) => Ok((seq![n] + rest, close)),
                    Err(e) => Err(e),
                }
            } else {
                Err(SpecParseError::UnexpectedEndOfInput)
            },
            Err(e) => Err(e),
        }
    }
}

/// The top-level forms the model parses from position `i` until the
/// token sequence is exhausted, in source order.
///
/// The guarded arm is dead code, exactly as in [`parse_params`].
pub open spec fn parse_forms(toks: Seq<SpecToken>, i: nat) -> Result<Seq<SpecNode>, SpecParseError>
    decreases toks.len() - i, 2int,
{
    if i >= toks.len() {
        Ok(Seq::empty())
    } else {
        match parse_expr(toks, i) {
            Ok((n, j)) => if i < j <= toks.len() {
                match parse_forms(toks, j) {
                    Ok(rest) => Ok(seq![n] + rest),
                    Err(e) => Err(e),
                }
            } else {
                Err(SpecParseError::UnexpectedEndOfInput)
            },
            Err(e) => Err(e),
        }
    }
}

/// The whole parse: a `Program` holding the top-level forms in source
/// order, or the first failure.
pub open spec fn spec_parse_program(toks: Seq<SpecToken>) -> Result<SpecNode, SpecParseError> {
    match parse_forms(toks, 0) {
        Ok(body) => Ok(SpecNode::Program { body }),
        Err(e) => Err(e),
    }
}

/// A parsed expression ends past where it began and within the input.
pub proof fn lemma_parse_expr_advances(toks: Seq<SpecToken>, i: nat)
    ensures
        match parse_expr(toks, i) {
            Ok((n, j)) => i < j <= toks.len(),
            Err(_) => true,
        },
    decreases toks.len() - i, 0int,
{
    if i < toks.len() {
        let t = toks[i as int];
        if is_open_paren(t) && t.kind != TokenKind::Number && t.kind != TokenKind::Str && i + 1
            < toks.len() {
            lemma_parse_params_bounds(toks, (i + 2) as nat);
        }
    }
}

/// A parsed parameter list ends on a closing parenthesis within the
/// input, at or past where it began.
pub proof fn lemma_parse_params_bounds(toks: Seq<SpecToken>, i: nat)
    ensures
        match parse_params(toks, i) {
            Ok((ps, close)) => i <= close < toks.len() && is_close_paren(toks[close as int]),
            Err(_) => true,
        },
    decreases toks.len() - i, 1int,
{
    if i < toks.len() && !is_close_paren(toks[i as int]) {
        lemma_parse_expr_advances(toks, i);
        match parse_expr(toks, i) {
            Ok((n, j)) => {
                lemma_parse_params_bounds(toks, j);
            },
            Err(_) => {},
        }
    }
}

/// A parsed expression is local: tokens appended after the input
/// change nothing about an expression that parses.
pub proof fn lemma_parse_expr_extend(toks: Seq<SpecToken>, ext: Seq<SpecToken>, i: nat)
    ensures
        parse_expr(toks, i) is Ok ==> parse_expr(toks + ext, i) == parse_expr(toks, i),
    decreases toks.len() - i, 0int,
{
    if i < toks.len() {
        let t = toks[i as int];
        assert((toks + ext)[i as int] == t);
        if t.kind != TokenKind::Number && t.kind != TokenKind::Str && is_open_paren(t) && i + 1
            < toks.len() {
            assert((toks + ext)[i as int + 1] == toks[i as int + 1]);
            lemma_parse_params_extend(toks, ext, (i + 2) as nat);
        }
    }
}

/// As [`lemma_parse_expr_extend`], for a parameter list that parses.
pub proof fn lemma_parse_params_extend(toks: Seq<SpecToken>, ext: Seq<SpecToken>, i: nat)
    ensures
        parse_params(toks, i) is Ok ==> parse_params(toks + ext, i) == parse_params(toks, i),
    decreases toks.len() - i, 1int,
{
    if i < toks.len() {
        assert((toks + ext)[i as int] == toks[i as int]);
        if !is_close_paren(toks[i as int]) {
            lemma_parse_expr_advances(toks, i);
            lemma_parse_expr_extend(toks, ext, i);
            match parse_expr(toks, i) {
                Ok((n, j)) => {
                    if i < j <= toks.len() {
                        lemma_parse_params_extend(toks, ext, j);
                    }
                },
                Err(_) => {},
            }
        }
    }
}

/// Parsing after a fixed prefix is parsing the suffix: positions
/// shift by the prefix's length and nothing else changes, failures
/// included.
pub proof fn lemma_parse_expr_shift(pre: Seq<SpecToken>, toks: Seq<SpecToken>, i: nat)
    ensures
        match parse_expr(toks, i) {
            Ok((n, j)) => parse_expr(pre + toks, (pre.len() + i) as nat) == Ok::<
                (SpecNode, nat),
                SpecParseError,
            >((n, (pre.len() + j) as nat)),
            Err(e) => parse_expr(pre + toks, (pre.len() + i) as nat) == Err::<
                (SpecNode, nat),
                SpecParseError,
            >(e),
        },
    decreases toks.len() - i, 0int,
{
    if i < toks.len() {
        let t = toks[i as int];
        assert((pre + toks)[pre.len() as int + i] == t);
        if t.kind != TokenKind::Number && t.kind != TokenKind::Str && is_open_paren(t) && i + 1
            < toks.len() {
            assert((pre + toks)[pre.len() as int + i + 1] == toks[i as int + 1]);
            lemma_parse_params_shift(pre, toks, (i + 2) as nat);
        }
    }
}

/// As [`lemma_parse_expr_shift`], for a parameter list.
pub proof fn lemma_parse_params_shift(pre: Seq<SpecToken>, toks: Seq<SpecToken>, i: nat)
    ensures
        match parse_params(toks, i) {
            Ok((ps, close)) => parse_params(pre + toks, (pre.len() + i) as nat) == Ok::<
                (Seq<SpecNode>, nat),
                SpecParseError,
            >((ps, (pre.len() + close) as nat)),
            Err(e) => parse_params(pre + toks, (pre.len() + i) as nat) == Err::<
                (Seq<SpecNode>, nat),
                SpecParseError,
            >(e),
        },
    decreases toks.len() - i, 1int,
{
    if i < toks.len() {
        assert((pre + toks)[pre.len() as int + i] == toks[i as int]);
        if !is_close_paren(toks[i as int]) {
            lemma_parse_expr_shift(pre, toks, i);
            match parse_expr(toks, i) {
                Ok((n, j)) => {
                    if i < j <= toks.len() {
                        lemma_parse_params_shift(pre, toks, j);
                    }
                },
                Err(_) => {},
            }
        }
    }
}

/// As [`lemma_parse_expr_shift`], for the top-level forms.
pub proof fn lemma_parse_forms_shift(pre: Seq<SpecToken>, toks: Seq<SpecToken>, i: nat)
    ensures
        match parse_forms(toks, i) {
            Ok(body) => parse_forms(pre + toks, (pre.len() + i) as nat) == Ok::<
                Seq<SpecNode>,
                SpecParseError,
            >(body),
            Err(e) => parse_forms(pre + toks, (pre.len() + i) as nat) == Err::<
                Seq<SpecNode>,
                SpecParseError,
            >(e),
        },
    decreases toks.len() - i, 2int,
{
    if i < toks.len() {
        lemma_parse_expr_shift(pre, toks, i);
        match parse_expr(toks, i) {
            Ok((n, j)) => {
                if i < j <= toks.len() {
                    lemma_parse_forms_shift(pre, toks, j);
                }
            },
            Err(_) => {},
        }
    }
}

proof fn lemma_parse_forms_concat_from(toks1: Seq<SpecToken>, toks2: Seq<SpecToken>, i: nat)
    requires
        i <= toks1.len(),
        parse_forms(toks1, i) is Ok,
    ensures
        match (parse_forms(toks1, i), parse_forms(toks2, 0)) {
            (Ok(b1), Ok(b2)) => parse_forms(toks1 + toks2, i) == Ok::<
                Seq<SpecNode>,
                SpecParseError,
            >(b1 + b2),
            (Ok(b1), Err(e)) => parse_forms(toks1 + toks2, i) == Err::<
                Seq<SpecNode>,
                SpecParseError,
            >(e),
            _ => true,
        },
    decreases toks1.len() - i,
{
    if i >= toks1.len() {
        lemma_parse_forms_shift(toks1, toks2, 0);
        match parse_forms(toks2, 0) {
            Ok(b2) => {
                assert(Seq::<SpecNode>::empty() + b2 =~= b2);
            },
            Err(_) => {},
        }
    } else {
        lemma_parse_expr_advances(toks1, i);
        lemma_parse_expr_extend(toks1, toks2, i);
        match parse_expr(toks1, i) {
            Ok((n, j)) => {
                lemma_parse_forms_concat_from(toks1, toks2, j);
                match (parse_forms(toks1, j), parse_forms(toks2, 0)) {
                    (Ok(rest1), Ok(b2)) => {
                        assert(seq![n] + (rest1 + b2) =~= (seq![n] + rest1) + b2);
                    },
                    _ => {},
                }
            },
            Err(_) => {},
        }
    }
}

/// Order and count of top-level forms are preserved: a program that
/// parses, followed by further tokens, parses to its own forms
/// followed, in order, by whatever the further tokens parse to - and
/// fails exactly where the further tokens fail.
pub proof fn lemma_parse_forms_concat(toks1: Seq<SpecToken>, toks2: Seq<SpecToken>)
    requires
        parse_forms(toks1, 0) is Ok,
    ensures
        match (parse_forms(toks1, 0), parse_forms(toks2, 0)) {
            (Ok(b1), Ok(b2)) => parse_forms(toks1 + toks2, 0) == Ok::<
                Seq<SpecNode>,
                SpecParseError,
            >(b1 + b2),
            (Ok(b1), Err(e)) => parse_forms(toks1 + toks2, 0) == Err::<
                Seq<SpecNode>,
                SpecParseError,
            >(e),
            _ => true,
        },
{
    lemma_parse_forms_concat_from(toks1, toks2, 0);
}

/// Order and count of call parameters are preserved: a complete
/// expression followed by a parameter list parses as the longer
/// parameter list, with that expression's node in front - and fails
/// exactly where the remaining parameters fail.
pub proof fn lemma_parse_params_concat(toks1: Seq<SpecToken>, toks2: Seq<SpecToken>)
    ensures
        match (parse_expr(toks1, 0), parse_params(toks2, 0)) {
            (Ok((n, j)), Ok((ps, close))) => j == toks1.len() ==> parse_params(toks1 + toks2, 0)
                == Ok::<(Seq<SpecNode>, nat), SpecParseError>(
                (seq![n] + ps, (toks1.len() + close) as nat),
            ),
            (Ok((n, j)), Err(e)) => j == toks1.len() ==> parse_params(toks1 + toks2, 0) == Err::<
                (Seq<SpecNode>, nat),
                SpecParseError,
            >(e),
            _ => true,
        },
{
    lemma_parse_expr_advances(toks1, 0);
    lemma_parse_expr_extend(toks1, toks2, 0);
    lemma_parse_params_shift(toks1, toks2, 0);
    if toks1.len() > 0 && parse_expr(toks1, 0) is Ok {
        assert(seq!['('][0] == '(');
        assert(!is_close_paren(toks1[0]));
        assert((toks1 + toks2)[0] == toks1[0]);
    }
}

/// The parameters collected so far agree with the model: what the
/// model says of the whole parameter list from `start` is the nodes
/// already collected followed by whatever it says of the rest from
/// `cur`.
spec fn params_inv(toks: Seq<SpecToken>, start: nat, cur: nat, ps: Seq<Node>) -> bool {
    match parse_params(toks, cur) {
        Ok((rest, close)) => parse_params(toks, start) == Ok::<
            (Seq<SpecNode>, nat),
            SpecParseError,
        >((view_nodes(ps) + rest, close)),
        Err(e) => parse_params(toks, start) == Err::<(Seq<SpecNode>, nat), SpecParseError>(e),
    }
}

proof fn lemma_params_step(
    toks: Seq<SpecToken>,
    start: nat,
    cur: nat,
    next: nat,
    ps: Seq<Node>,
    n: Node,
)
    requires
        params_inv(toks, start, cur, ps),
        cur < toks.len(),
        !is_close_paren(toks[cur as int]),
        parse_expr(toks, cur) == Ok::<(SpecNode, nat), SpecParseError>((n@, next)),
        cur < next <= toks.len(),
    ensures
        params_inv(toks, start, next, ps.push(n)),
{
    lemma_view_nodes_push(ps, n);
    match parse_params(toks, next) {
        Ok((rest, close)) => {
            assert(view_nodes(ps) + (seq![n@] + rest) =~= view_nodes(ps.push(n)) + rest);
        },
        Err(e) => {},
    }
}

/// The top-level forms collected so far agree with the model, as in
/// [`params_inv`].
spec fn forms_inv(toks: Seq<SpecToken>, start: nat, cur: nat, body: Seq<Node>) -> bool {
    match parse_forms(toks, cur) {
        Ok(rest) => parse_forms(toks, start) == Ok::<Seq<SpecNode>, SpecParseError>(
            view_nodes(body) + rest,
        ),
        Err(e) => parse_forms(toks, start) == Err::<Seq<SpecNode>, SpecParseError>(e),
    }
}

proof fn lemma_forms_step(
    toks: Seq<SpecToken>,
    start: nat,
    cur: nat,
    next: nat,
    body: Seq<Node>,
    n: Node,
)
    requires
        forms_inv(toks, start, cur, body),
        cur < toks.len(),
        parse_expr(toks, cur) == Ok::<(SpecNode, nat), SpecParseError>((n@, next)),
        cur < next <= toks.len(),
    ensures
        forms_inv(toks, start, next, body.push(n)),
{
    lemma_view_nodes_push(body, n);
    match parse_forms(toks, next) {
        Ok(rest) => {
            assert(view_nodes(body) + (seq![n@] + rest) =~= view_nodes(body.push(n)) + rest);
        },
        Err(e) => {},
    }
}

/// The parser: owns the token sequence and a cursor into it.
pub struct Parser {
    tokens: Vec<Token>,
    current: usize,
}

impl Parser {
    /// The model of the token sequence being parsed.
    pub closed spec fn toks(&self) -> Seq<SpecToken> {
        view_tokens(self.tokens@)
    }

    /// The cursor: the position of the token looked at next.
    pub closed spec fn pos(&self) -> nat {
        self.current as nat
    }

    /// A parser over `tokens`, with the cursor at the start.
    pub fn new(tokens: Vec<Token>) -> (r: Self)
        ensures
            r.toks() == view_tokens(tokens@),
            r.pos() == 0,
    {
        Parser { tokens, current: 0 }
    }

    fn advance(&mut self)
        requires
            old(self).pos() < old(self).toks().len(),
        ensures
            final(self).tokens == old(self).tokens,
            final(self).current == old(self).current + 1,
    {
        proof {
            assert(self.tokens@.len() == self.tokens.len());
        }
        self.current = self.current + 1;
    }

    fn current_token(&self) -> (r: Option<Token>)
        ensures
            match r {
                Some(t) => self.pos() < self.toks().len() && t@ == self.toks()[self.pos() as int],
                None => self.pos() >= self.toks().len(),
            },
    {
        if self.current < self.tokens.len() {
            let t = &self.tokens[self.current];
            let value = t.value.clone();
            Some(Token { kind: t.kind, value })
        } else {
            None
        }
    }

    /// Parses one expression at the cursor and leaves the cursor just
    /// past it: exactly what the model `parse_expr` says, node and end
    /// position alike, or its failure.
    pub fn parse_expression(&mut self) -> (r: Result<Node, ParseError>)
        ensures
            final(self).toks() == old(self).toks(),
            match r {
                Ok(node) => parse_expr(old(self).toks(), old(self).pos()) == Ok::<
                    (SpecNode, nat),
                    SpecParseError,
                >((node@, final(self).pos())),
                Err(e) => parse_expr(old(self).toks(), old(self).pos()) == Err::<
                    (SpecNode, nat),
                    SpecParseError,
                >(e@),
            },
        decreases self.toks().len() - self.pos(),
    {
        let ghost toks = self.toks();
        let ghost i = self.pos();
        match self.current_token() {
            None => Err(ParseError::UnexpectedEndOfInput),
            Some(token) => {
                match token.kind {
                    TokenKind::Number => {
                        self.advance();
                        Ok(Node::Literal { kind: LiteralKind::NumberLiteral, value: token.value })
                    },
                    TokenKind::Str => {
                        self.advance();
                        Ok(Node::Literal { kind: LiteralKind::StringLiteral, value: token.value })
                    },
                    TokenKind::Paren => {
                        let open: String = "(".to_owned();
                        proof {
                            reveal_strlit("(");
                            assert(open@ =~= seq!['(']);
                        }
                        if token.value == open {
                            self.advance();
                            match self.current_token() {
                                None => Err(ParseError::UnexpectedEndOfInput),
                                Some(name_token) => {
                                    self.advance();
                                    let name = name_token.value;
                                    let mut params: Vec<Node> = Vec::new();
                                    let ghost start = self.pos();
                                    proof {
                                        match parse_params(toks, start) {
                                            Ok((rest, close)) => {
                                                assert(view_nodes(params@) + rest =~= rest);
                                            },
                                            Err(_) => {},
                                        }
                                    }
                                    loop
                                        invariant
                                            self.toks() == toks,
                                            toks == old(self).toks(),
                                            i == old(self).pos(),
                                            i + 2 == start,
                                            start <= self.pos() <= toks.len(),
                                            i + 1 < toks.len(),
                                            is_open_paren(toks[i as int]),
                                            name@ == toks[i as int + 1].value,
                                            params_inv(toks, start, self.pos(), params@),
                                        ensures
                                            self.toks() == toks,
                                            toks == old(self).toks(),
                                            i == old(self).pos(),
                                            i + 1 < toks.len(),
                                            is_open_paren(toks[i as int]),
                                            name@ == toks[i as int + 1].value,
                                            self.pos() < toks.len(),
                                            is_close_paren(toks[self.pos() as int]),
                                            parse_params(toks, start) == Ok::<
                                                (Seq<SpecNode>, nat),
                                                SpecParseError,
                                            >((view_nodes(params@), self.pos())),
                                        decreases toks.len() - self.pos(),
                                    {
                                        let ghost cur = self.pos();
                                        match self.current_token() {
                                            None => {
                                                return Err(ParseError::UnexpectedEndOfInput);
                                            },
                                            Some(t) => {
                                                let close: String = ")".to_owned();
                                                proof {
                                                    reveal_strlit(")");
                                                    assert(close@ =~= seq![')']);
                                                }
                                                if (match t.kind {
                                                    TokenKind::Paren => true,
                                                    _ => false,
                                                }) && t.value == close {
                                                    proof {
                                                        assert(is_close_paren(toks[cur as int]));
                                                        match parse_params(toks, cur) {
                                                            Ok((rest, _)) => {
                                                                assert(view_nodes(params@) + rest
                                                                    =~= view_nodes(params@));
                                                            },
                                                            Err(_) => {},
                                                        }
                                                    }
                                                    break ;
                                                }
                                                proof {
                                                    lemma_parse_expr_advances(toks, cur);
                                                }
                                                match self.parse_expression() {
                                                    Ok(node) => {
                                                        proof {
                                                            lemma_params_step(
                                                                toks,
                                                                start,
                                                                cur,
                                                                self.pos(),
                                                                params@,
                                                                node,
                                                            );
                                                        }
                                                        params.push(node);
                                                    },
                                                    Err(e) => {
                                                        return Err(e);
                                                    },
                                                }
                                            },
                                        }
                                    }
                                    proof {
                                        assert(view_nodes(params@) + Seq::<SpecNode>::empty()
                                            =~= view_nodes(params@));
                                    }
                                    self.advance();
                                    Ok(Node::CallExpression { name, params })
                                },
                            }
                        } else {
                            Err(ParseError::UnexpectedToken { token })
                        }
                    },
                    TokenKind::Name => Err(ParseError::UnexpectedToken { token }),
                }
            },
        }
    }

    /// Parses the whole remaining token sequence into a `Program`
    /// holding its top-level forms in source order, consuming every
    /// token: exactly what the model `parse_forms` says, or its first
    /// failure.
    pub fn parse_program(&mut self) -> (r: Result<Node, ParseError>)
        ensures
            final(self).toks() == old(self).toks(),
            match parse_forms(old(self).toks(), old(self).pos()) {
                Ok(body) => r matches Ok(node) && node@ == (SpecNode::Program { body }) && (old(
                    self,
                ).pos() <= old(self).toks().len() ==> final(self).pos() == old(self).toks().len()),
                Err(e) => r matches Err(pe) && pe@ == e,
            },
    {
        let ghost toks = self.toks();
        let ghost i0 = self.pos();
        let mut body: Vec<Node> = Vec::new();
        proof {
            match parse_forms(toks, i0) {
                Ok(rest) => {
                    assert(view_nodes(body@) + rest =~= rest);
                },
                Err(_) => {},
            }
        }
        while self.current < self.tokens.len()
            invariant
                self.toks() == toks,
                toks == old(self).toks(),
                i0 == old(self).pos(),
                i0 <= toks.len() ==> self.pos() <= toks.len(),
                self.toks().len() == self.tokens@.len(),
                self.current as nat == self.pos(),
                forms_inv(toks, i0, self.pos(), body@),
            decreases toks.len() - self.pos(),
        {
            let ghost cur = self.pos();
            proof {
                lemma_parse_expr_advances(toks, cur);
            }
            match self.parse_expression() {
                Ok(node) => {
                    proof {
                        lemma_forms_step(toks, i0, cur, self.pos(), body@, node);
                    }
                    body.push(node);
                },
                Err(e) => {
                    return Err(e);
                },
            }
        }
        proof {
            assert(view_nodes(body@) + Seq::<SpecNode>::empty() =~= view_nodes(body@));
        }
        Ok(Node::Program { body })
    }
}

} // verus!
