use vstd::prelude::*;
use crate::lexer::{Lexer, Token, TokenModel, lex, lemma_lex_progress};

verus! {

/// An expression of the language.
///
/// A numeric literal carries the text of its numeral, as its token did.
#[derive(Debug, PartialEq)]
pub enum ExpressionAST {
    Number(String),
    Variable(String),
    Binary(char, Box<ExpressionAST>, Box<ExpressionAST>),
    Call(String, Vec<ExpressionAST>),
}

/// The mathematical value of an expression.
pub enum Expr {
    Number(Seq<char>),
    Variable(Seq<char>),
    Binary(char, Box<Expr>, Box<Expr>),
    Call(Seq<char>, Seq<Expr>),
}

/// A function's name and the names of its parameters.
#[derive(Debug, PartialEq)]
pub struct PrototypeAST(pub String, pub Vec<String>);

/// The mathematical value of a prototype.
pub struct Proto {
    pub name: Seq<char>,
    pub params: Seq<Seq<char>>,
}

/// A function definition: a prototype and a body.
#[derive(Debug, PartialEq)]
pub struct FunctionAST(pub PrototypeAST, pub ExpressionAST);

/// The mathematical value of a function definition.
pub struct Function {
    pub proto: Proto,
    pub body: Expr,
}

/// The value of an expression.
pub open spec fn expr_view(e: ExpressionAST) -> Expr
    decreases e, 0nat,
{
    match e {
        ExpressionAST::Number(t) => Expr::Number(t@),
        ExpressionAST::Variable(n) => Expr::Variable(n@),
        ExpressionAST::Binary(op, l, r) => Expr::Binary(
            op,
            Box::new(expr_view(*l)),
            Box::new(expr_view(*r)),
        ),
        ExpressionAST::Call(n, args) => Expr::Call(n@, args_view(args@, args@.len())),
    }
}

/// The values of the first `n` expressions of `args`.
pub open spec fn args_view(args: Seq<ExpressionAST>, n: nat) -> Seq<Expr>
    decreases args, n,
{
    if n == 0 || n > args.len() {
        Seq::empty()
    } else {
        args_view(args, (n - 1) as nat).push(expr_view(args[n - 1]))
    }
}

impl ExpressionAST {
    pub open spec fn view(&self) -> Expr {
        expr_view(*self)
    }
}

impl PrototypeAST {
    pub open spec fn view(&self) -> Proto {
        Proto { name: self.0@, params: self.1@.map_values(|a: String| a@) }
    }
}

impl FunctionAST {
    pub open spec fn view(&self) -> Function {
        Function { proto: self.0@, body: self.1@ }
    }
}

/// What went wrong in a failed parse.
pub enum ParseError {
    ExpectedCloseParen,
    UnknownToken,
    ExpectedArgumentSeparator,
    ExpectedFunctionName,
    ExpectedPrototypeClose,
}

/// The message reported for each error.
pub open spec fn message(e: ParseError) -> Seq<char> {
    match e {
        ParseError::ExpectedCloseParen => "expected ')'"@,
        ParseError::UnknownToken => "unknown token when expecting an expression"@,
        ParseError::ExpectedArgumentSeparator => "expected ')' or ',' in argument list"@,
        ParseError::ExpectedFunctionName => "expected function name in prototype"@,
        ParseError::ExpectedPrototypeClose => "expected ')' in prototype"@,
    }
}

/// Where a parse stands: the current token, and the position of the
/// tokenizer's current character behind it.
pub struct PState {
    pub tok: TokenModel,
    pub pos: int,
}

/// The state after the current token is consumed, when the tokenizer stood
/// at `pos`.
pub open spec fn advance(s: Seq<char>, pos: int) -> PState {
    PState { tok: lex(s, pos).0, pos: lex(s, pos).1 }
}

/// How much input is left: the characters not yet read, and one for a
/// current token that is not the end of input.
pub open spec fn measure(s: Seq<char>, st: PState) -> nat {
    let rest: int = if 0 <= st.pos <= s.len() { s.len() - st.pos } else { 0 };
    (rest + if st.tok is Eof { 0int } else { 1int }) as nat
}

/// Consuming a token other than the end of input leaves less input.
pub proof fn lemma_advance_measure(s: Seq<char>, st: PState)
    requires
        !(st.tok is Eof),
    ensures
        measure(s, advance(s, st.pos)) < measure(s, st),
{
    lemma_lex_progress(s, st.pos);
}

/// The binding strength of a binary operator; -1 for any other token.
pub open spec fn precedence(t: TokenModel) -> int {
    match t {
        TokenModel::Char(c) => if c == '<' {
            10
        } else if c == '+' || c == '-' {
            20
        } else if c == '*' {
            40
        } else {
            -1
        },
        _ => -1,
    }
}

pub open spec fn is_char(t: TokenModel, c: char) -> bool {
    t == TokenModel::Char(c)
}

/// primary := number | identifier-expression | '(' expression ')'
pub open spec fn primary_spec(s: Seq<char>, st: PState) -> Result<(Expr, PState), ParseError>
    decreases measure(s, st), 2nat,
{
    match st.tok {
        TokenModel::Number(t) => Ok((Expr::Number(t), advance(s, st.pos))),
        TokenModel::Identifier(_) => identifier_spec(s, st),
        TokenModel::Char(c) => if c == '(' {
            paren_spec(s, st)
        } else {
            Err(ParseError::UnknownToken)
        },
        _ => Err(ParseError::UnknownToken),
    }
}

/// identifier-expression := identifier | identifier '(' arguments ')'
pub open spec fn identifier_spec(s: Seq<char>, st: PState) -> Result<(Expr, PState), ParseError>
    decreases measure(s, st), 1nat,
{
    match st.tok {
        TokenModel::Identifier(name) => {
            let st1 = advance(s, st.pos);
            if !is_char(st1.tok, '(') {
                Ok((Expr::Variable(name), st1))
            } else {
                let st2 = advance(s, st1.pos);
                if is_char(st2.tok, ')') {
                    Ok((Expr::Call(name, Seq::empty()), advance(s, st2.pos)))
                } else {
                    proof {
                        lemma_advance_measure(s, st);
                        lemma_advance_measure(s, st1);
                    }
                    match args_spec(s, st2) {
                        Ok((args, st3)) => Ok((Expr::Call(name, args), st3)),
                        Err(e) => Err(e),
                    }
                }
            }
        },
        _ => Err(ParseError::UnknownToken),
    }
}

/// arguments := expression (',' expression)* ')'
pub open spec fn args_spec(s: Seq<char>, st: PState) -> Result<(Seq<Expr>, PState), ParseError>
    decreases measure(s, st), 4nat,
{
    match expression_spec(s, st) {
        Ok((arg, st1)) => if is_char(st1.tok, ')') {
            Ok((seq![arg], advance(s, st1.pos)))
        } else if is_char(st1.tok, ',') {
            // always true (see the no_backtrack lemmas); it bounds the recursion
            if measure(s, st1) <= measure(s, st) {
                proof {
                    lemma_advance_measure(s, st1);
                }
                match args_spec(s, advance(s, st1.pos)) {
                    Ok((rest, st2)) => Ok((seq![arg] + rest, st2)),
                    Err(e) => Err(e),
                }
            } else {
                Err(ParseError::ExpectedArgumentSeparator)
            }
        } else {
            Err(ParseError::ExpectedArgumentSeparator)
        },
        Err(e) => Err(e),
    }
}

/// parenthesized := '(' expression ')'
pub open spec fn paren_spec(s: Seq<char>, st: PState) -> Result<(Expr, PState), ParseError>
    decreases measure(s, st), 1nat,
{
    if !is_char(st.tok, '(') {
        Err(ParseError::UnknownToken)
    } else {
        proof {
            lemma_advance_measure(s, st);
        }
        match expression_spec(s, advance(s, st.pos)) {
            Ok((e, st1)) => if is_char(st1.tok, ')') {
                Ok((e, advance(s, st1.pos)))
            } else {
                Err(ParseError::ExpectedCloseParen)
            },
            Err(e) => Err(e),
        }
    }
}

/// expression := primary (operator primary)*, grouped by precedence
pub open spec fn expression_spec(s: Seq<char>, st: PState) -> Result<(Expr, PState), ParseError>
    decreases measure(s, st), 3nat,
{
    match primary_spec(s, st) {
        Ok((lhs, st1)) => {
            // always true (see the no_backtrack lemmas); it bounds the recursion
            if measure(s, st1) <= measure(s, st) {
                bin_rhs_spec(s, st1, 0, lhs)
            } else {
                Err(ParseError::UnknownToken)
            }
        },
        Err(e) => Err(e),
    }
}

/// The operator of an operator token.
pub open spec fn op_of(t: TokenModel) -> char {
    match t {
        TokenModel::Char(c) => c,
        _ => ' ',
    }
}

/// Precedence climbing: extends `lhs` with the operators of precedence at
/// least `min` that follow it.
pub open spec fn bin_rhs_spec(s: Seq<char>, st: PState, min: int, lhs: Expr) -> Result<
    (Expr, PState),
    ParseError,
>
    decreases measure(s, st), 0nat,
{
    let p = precedence(st.tok);
    if p < 0 || p < min {
        Ok((lhs, st))
    } else {
        let op = op_of(st.tok);
        let st1 = advance(s, st.pos);
        proof {
            lemma_advance_measure(s, st);
        }
        match primary_spec(s, st1) {
            Ok((rhs, st2)) => {
                // always true (see the no_backtrack lemmas); it bounds the recursion
                if measure(s, st2) <= measure(s, st1) {
                    if p < precedence(st2.tok) {
                        match bin_rhs_spec(s, st2, p + 1, rhs) {
                            Ok((rhs2, st3)) => if measure(s, st3) <= measure(s, st2) {
                                bin_rhs_spec(
                                    s,
                                    st3,
                                    min,
                                    Expr::Binary(op, Box::new(lhs), Box::new(rhs2)),
                                )
                            } else {
                                Err(ParseError::UnknownToken)
                            },
                            Err(e) => Err(e),
                        }
                    } else {
                        bin_rhs_spec(s, st2, min, Expr::Binary(op, Box::new(lhs), Box::new(rhs)))
                    }
                } else {
                    Err(ParseError::UnknownToken)
                }
            },
            Err(e) => Err(e),
        }
    }
}

/// The parameter list of a prototype: identifiers, with commas anywhere among
/// them, up to the first other token; and the state at that token.
pub open spec fn params_spec(s: Seq<char>, st: PState) -> (Seq<Seq<char>>, PState)
    decreases measure(s, st),
{
    match st.tok {
        TokenModel::Identifier(a) => {
            proof {
                lemma_advance_measure(s, st);
            }
            let r = params_spec(s, advance(s, st.pos));
            (seq![a] + r.0, r.1)
        },
        TokenModel::Char(c) => if c == ',' {
            proof {
                lemma_advance_measure(s, st);
            }
            params_spec(s, advance(s, st.pos))
        } else {
            (Seq::empty(), st)
        },
        _ => (Seq::empty(), st),
    }
}

/// prototype := identifier '(' parameters ')'
pub open spec fn prototype_spec(s: Seq<char>, st: PState) -> Result<(Proto, PState), ParseError> {
    match st.tok {
        TokenModel::Identifier(name) => {
            let st1 = advance(s, st.pos);
            if !is_char(st1.tok, '(') {
                Err(ParseError::ExpectedFunctionName)
            } else {
                let (params, end) = params_spec(s, advance(s, st1.pos));
                if is_char(end.tok, ')') {
                    Ok((Proto { name, params }, advance(s, end.pos)))
                } else {
                    Err(ParseError::ExpectedPrototypeClose)
                }
            }
        },
        _ => Err(ParseError::ExpectedFunctionName),
    }
}

/// definition := 'def' prototype expression, from the state after 'def'.
pub open spec fn definition_spec(s: Seq<char>, st: PState) -> Result<(Function, PState), ParseError> {
    match prototype_spec(s, st) {
        Ok((proto, st1)) => match expression_spec(s, st1) {
            Ok((body, st2)) => Ok((Function { proto, body }, st2)),
            Err(e) => Err(e),
        },
        Err(e) => Err(e),
    }
}

/// A top-level expression, as a function with no name and no parameters.
pub open spec fn top_level_spec(s: Seq<char>, st: PState) -> Result<(Function, PState), ParseError> {
    match expression_spec(s, st) {
        Ok((body, st1)) => Ok(
            (Function { proto: Proto { name: Seq::empty(), params: Seq::empty() }, body }, st1),
        ),
        Err(e) => Err(e),
    }
}

/// A successful parse ends no further back than `st`.
pub open spec fn no_backtrack<T>(s: Seq<char>, r: Result<(T, PState), ParseError>, st: PState) -> bool {
    match r {
        Ok((_, st1)) => measure(s, st1) <= measure(s, st),
        Err(_) => true,
    }
}

/// A successful parse of a primary expression never moves back.
pub proof fn lemma_primary_no_backtrack(s: Seq<char>, st: PState)
    ensures
        no_backtrack(s, primary_spec(s, st), st),
    decreases measure(s, st), 2nat,
{
    match st.tok {
        TokenModel::Number(_) => lemma_advance_measure(s, st),
        TokenModel::Identifier(_) => lemma_identifier_no_backtrack(s, st),
        TokenModel::Char(c) => if c == '(' {
            lemma_paren_no_backtrack(s, st);
        },
        _ => {},
    }
}

/// A successful parse of an identifier expression never moves back.
pub proof fn lemma_identifier_no_backtrack(s: Seq<char>, st: PState)
    ensures
        no_backtrack(s, identifier_spec(s, st), st),
    decreases measure(s, st), 1nat,
{
    if st.tok is Identifier {
        lemma_advance_measure(s, st);
        let st1 = advance(s, st.pos);
        if is_char(st1.tok, '(') {
            lemma_advance_measure(s, st1);
            let st2 = advance(s, st1.pos);
            if is_char(st2.tok, ')') {
                lemma_advance_measure(s, st2);
            } else {
                lemma_args_no_backtrack(s, st2);
            }
        }
    }
}

/// A successful parse of an argument list never moves back.
pub proof fn lemma_args_no_backtrack(s: Seq<char>, st: PState)
    ensures
        no_backtrack(s, args_spec(s, st), st),
    decreases measure(s, st), 4nat,
{
    lemma_expression_no_backtrack(s, st);
    if let Ok((_, st1)) = expression_spec(s, st) {
        if is_char(st1.tok, ')') {
            lemma_advance_measure(s, st1);
        } else if is_char(st1.tok, ',') {
            lemma_advance_measure(s, st1);
            lemma_args_no_backtrack(s, advance(s, st1.pos));
        }
    }
}

/// A successful parse of a parenthesized expression never moves back.
pub proof fn lemma_paren_no_backtrack(s: Seq<char>, st: PState)
    ensures
        no_backtrack(s, paren_spec(s, st), st),
    decreases measure(s, st), 1nat,
{
    if is_char(st.tok, '(') {
        lemma_advance_measure(s, st);
        lemma_expression_no_backtrack(s, advance(s, st.pos));
        if let Ok((_, st1)) = expression_spec(s, advance(s, st.pos)) {
            if is_char(st1.tok, ')') {
                lemma_advance_measure(s, st1);
            }
        }
    }
}

/// A successful parse of an expression never moves back.
pub proof fn lemma_expression_no_backtrack(s: Seq<char>, st: PState)
    ensures
        no_backtrack(s, expression_spec(s, st), st),
    decreases measure(s, st), 3nat,
{
    lemma_primary_no_backtrack(s, st);
    if let Ok((lhs, st1)) = primary_spec(s, st) {
        lemma_bin_rhs_no_backtrack(s, st1, 0, lhs);
    }
}

/// A successful round of precedence climbing never moves back.
pub proof fn lemma_bin_rhs_no_backtrack(s: Seq<char>, st: PState, min: int, lhs: Expr)
    ensures
        no_backtrack(s, bin_rhs_spec(s, st, min, lhs), st),
    decreases measure(s, st), 0nat,
{
    let p = precedence(st.tok);
    if !(p < 0 || p < min) {
        let op = op_of(st.tok);
        let st1 = advance(s, st.pos);
        lemma_advance_measure(s, st);
        lemma_primary_no_backtrack(s, st1);
        if let Ok((rhs, st2)) = primary_spec(s, st1) {
            if p < precedence(st2.tok) {
                lemma_bin_rhs_no_backtrack(s, st2, p + 1, rhs);
                if let Ok((rhs2, st3)) = bin_rhs_spec(s, st2, p + 1, rhs) {
                    lemma_bin_rhs_no_backtrack(
                        s,
                        st3,
                        min,
                        Expr::Binary(op, Box::new(lhs), Box::new(rhs2)),
                    );
                }
            } else {
                lemma_bin_rhs_no_backtrack(
                    s,
                    st2,
                    min,
                    Expr::Binary(op, Box::new(lhs), Box::new(rhs)),
                );
            }
        }
    }
}

/// A successful round of precedence climbing with a non-negative threshold
/// stops at a token that binds more loosely than the threshold.
pub proof fn lemma_bin_rhs_stops(s: Seq<char>, st: PState, min: int, lhs: Expr)
    requires
        0 <= min,
    ensures
        match bin_rhs_spec(s, st, min, lhs) {
            Ok((_, st1)) => precedence(st1.tok) < min,
            Err(_) => true,
        },
    decreases measure(s, st),
{
    let p = precedence(st.tok);
    if !(p < 0 || p < min) {
        let op = op_of(st.tok);
        let st1 = advance(s, st.pos);
        lemma_advance_measure(s, st);
        lemma_primary_no_backtrack(s, st1);
        if let Ok((rhs, st2)) = primary_spec(s, st1) {
            if p < precedence(st2.tok) {
                lemma_bin_rhs_no_backtrack(s, st2, p + 1, rhs);
                if let Ok((rhs2, st3)) = bin_rhs_spec(s, st2, p + 1, rhs) {
                    lemma_bin_rhs_stops(
                        s,
                        st3,
                        min,
                        Expr::Binary(op, Box::new(lhs), Box::new(rhs2)),
                    );
                }
            } else {
                lemma_bin_rhs_stops(s, st2, min, Expr::Binary(op, Box::new(lhs), Box::new(rhs)));
            }
        }
    }
}

/// An item of an expression read left to right: an operator, or an operand
/// that is not a binary operation.
pub enum Piece {
    Op(char),
    Leaf(Expr),
}

/// The items of an expression, left to right.
pub open spec fn inorder(e: Expr) -> Seq<Piece>
    decreases e,
{
    match e {
        Expr::Binary(op, l, r) => inorder(*l) + seq![Piece::Op(op)] + inorder(*r),
        _ => seq![Piece::Leaf(e)],
    }
}

/// The operators of precedence at least `min` that follow, each with the
/// primary expression after it, read left to right; and the state after them.
pub open spec fn chain(s: Seq<char>, st: PState, min: int) -> Result<(Seq<Piece>, PState), ParseError>
    decreases measure(s, st),
{
    let p = precedence(st.tok);
    if p < 0 || p < min {
        Ok((Seq::empty(), st))
    } else {
        let st1 = advance(s, st.pos);
        proof {
            lemma_advance_measure(s, st);
            lemma_primary_no_backtrack(s, st1);
        }
        match primary_spec(s, st1) {
            Ok((rhs, st2)) => match chain(s, st2, min) {
                Ok((c, st3)) => Ok((seq![Piece::Op(op_of(st.tok))] + inorder(rhs) + c, st3)),
                Err(e) => Err(e),
            },
            Err(e) => Err(e),
        }
    }
}

/// A chain at a lower threshold is the chain at a higher one followed by the
/// chain at the lower threshold from where that one stops.
proof fn lemma_chain_split(s: Seq<char>, st: PState, hi: int, lo: int)
    requires
        0 <= lo <= hi,
    ensures
        match chain(s, st, hi) {
            Ok((c1, st1)) => chain(s, st, lo) == match chain(s, st1, lo) {
                Ok((c2, st2)) => Ok((c1 + c2, st2)),
                Err(e) => Err(e),
            },
            Err(_) => true,
        },
    decreases measure(s, st),
{
    let p = precedence(st.tok);
    if p < 0 || p < hi {
        if let Ok((c2, st2)) = chain(s, st, lo) {
            assert(Seq::<Piece>::empty() + c2 =~= c2);
        }
    } else {
        let st1 = advance(s, st.pos);
        lemma_advance_measure(s, st);
        lemma_primary_no_backtrack(s, st1);
        if let Ok((rhs, st2)) = primary_spec(s, st1) {
            lemma_chain_split(s, st2, hi, lo);
            if let Ok((c1, st3)) = chain(s, st2, hi) {
                if let Ok((c2, st4)) = chain(s, st3, lo) {
                    let head = seq![Piece::Op(op_of(st.tok))] + inorder(rhs);
                    assert(head + (c1 + c2) =~= (head + c1) + c2);
                }
            }
        }
    }
}

/// Precedence climbing keeps every item in input order: the result reads
/// as `lhs` followed by the operators and operands it consumed.
pub proof fn lemma_bin_rhs_inorder(s: Seq<char>, st: PState, min: int, lhs: Expr)
    requires
        0 <= min,
    ensures
        match bin_rhs_spec(s, st, min, lhs) {
            Ok((r, st1)) => match chain(s, st, min) {
                Ok((c, st2)) => st2 == st1 && inorder(r) == inorder(lhs) + c,
                Err(_) => false,
            },
            Err(_) => true,
        },
    decreases measure(s, st),
{
    let p = precedence(st.tok);
    if p < 0 || p < min {
        assert(inorder(lhs) + Seq::<Piece>::empty() =~= inorder(lhs));
    } else {
        let op = op_of(st.tok);
        let st1 = advance(s, st.pos);
        lemma_advance_measure(s, st);
        lemma_primary_no_backtrack(s, st1);
        if let Ok((rhs, st2)) = primary_spec(s, st1) {
            let head = seq![Piece::Op(op)] + inorder(rhs);
            if p < precedence(st2.tok) {
                lemma_bin_rhs_no_backtrack(s, st2, p + 1, rhs);
                lemma_bin_rhs_inorder(s, st2, p + 1, rhs);
                lemma_chain_split(s, st2, p + 1, min);
                if let Ok((rhs2, st3)) = bin_rhs_spec(s, st2, p + 1, rhs) {
                    let lhs2 = Expr::Binary(op, Box::new(lhs), Box::new(rhs2));
                    lemma_bin_rhs_inorder(s, st3, min, lhs2);
                    if let Ok((c1, _)) = chain(s, st2, p + 1) {
                        if let Ok((c2, _)) = chain(s, st3, min) {
                            assert(inorder(lhs2) =~= inorder(lhs) + seq![Piece::Op(op)] + (
                            inorder(rhs) + c1));
                            assert((inorder(lhs) + seq![Piece::Op(op)] + (inorder(rhs) + c1)) + c2
                                =~= inorder(lhs) + (head + (c1 + c2)));
                            assert(head + (c1 + c2) =~= seq![Piece::Op(op)] + inorder(rhs) + (c1
                                + c2));
                        }
                    }
                }
            } else {
                let lhs2 = Expr::Binary(op, Box::new(lhs), Box::new(rhs));
                lemma_bin_rhs_inorder(s, st2, min, lhs2);
                if let Ok((c2, _)) = chain(s, st2, min) {
                    assert(inorder(lhs2) + c2 =~= inorder(lhs) + (head + c2));
                }
            }
        }
    }
}

/// The result of a parse: a value, or a message saying what went wrong.
pub type ParseResult<T> = Result<T, String>;

/// `r` is the outcome `spec` describes: on success the expression, with the
/// parser left at `after`; on failure the error's message.
pub open spec fn expr_outcome(
    r: ParseResult<ExpressionAST>,
    spec: Result<(Expr, PState), ParseError>,
    after: PState,
) -> bool {
    match spec {
        Ok((e, st)) => match r {
            Ok(v) => v@ == e && after == st,
            Err(_) => false,
        },
        Err(k) => match r {
            Ok(_) => false,
            Err(m) => m@ == message(k),
        },
    }
}

/// `r` is the outcome `spec` describes, for a prototype.
pub open spec fn proto_outcome(
    r: ParseResult<PrototypeAST>,
    spec: Result<(Proto, PState), ParseError>,
    after: PState,
) -> bool {
    match spec {
        Ok((e, st)) => match r {
            Ok(v) => v@ == e && after == st,
            Err(_) => false,
        },
        Err(k) => match r {
            Ok(_) => false,
            Err(m) => m@ == message(k),
        },
    }
}

/// `r` is the outcome `spec` describes, for a function.
pub open spec fn function_outcome(
    r: ParseResult<FunctionAST>,
    spec: Result<(Function, PState), ParseError>,
    after: PState,
) -> bool {
    match spec {
        Ok((e, st)) => match r {
            Ok(v) => v@ == e && after == st,
            Err(_) => false,
        },
        Err(k) => match r {
            Ok(_) => false,
            Err(m) => m@ == message(k),
        },
    }
}

/// `pre` followed by the arguments that `r` parsed.
pub open spec fn after_args(pre: Seq<Expr>, r: Result<(Seq<Expr>, PState), ParseError>) -> Result<
    (Seq<Expr>, PState),
    ParseError,
> {
    match r {
        Ok((rest, st)) => Ok((pre + rest, st)),
        Err(e) => Err(e),
    }
}

pub open spec fn names_view(v: Seq<String>) -> Seq<Seq<char>> {
    v.map_values(|a: String| a@)
}

proof fn lemma_args_view_prefix(a: Seq<ExpressionAST>, x: ExpressionAST, n: nat)
    requires
        n <= a.len(),
    ensures
        args_view(a.push(x), n) == args_view(a, n),
    decreases n,
{
    if n > 0 {
        lemma_args_view_prefix(a, x, (n - 1) as nat);
        assert(a.push(x)[n - 1] == a[n - 1]);
    }
}

proof fn lemma_args_view_push(a: Seq<ExpressionAST>, x: ExpressionAST)
    ensures
        args_view(a.push(x), a.len() + 1) == args_view(a, a.len()).push(expr_view(x)),
{
    lemma_args_view_prefix(a, x, a.len());
    assert(a.push(x)[a.len() as int] == x);
}

/// The binding strength of the operator that `tok` is; -1 if it is none.
fn get_token_precedence(tok: &Token) -> (r: isize)
    ensures
        r == precedence(tok@),
{
    match tok {
        Token::Char('<') => 10,
        Token::Char('+') => 20,
        Token::Char('-') => 20,
        Token::Char('*') => 40,
        _ => -1,
    }
}

/// A recursive-descent parser over a tokenizer, holding one token of
/// lookahead.
pub struct Parser {
    lexer: Lexer,
    cur_token: Option<Token>,
}

impl Parser {
    /// The characters the parser reads.
    pub closed spec fn source(&self) -> Seq<char> {
        self.lexer.source()
    }

    /// The position of the tokenizer's current character.
    pub closed spec fn position(&self) -> int {
        self.lexer.position()
    }

    /// Whether a token has been read into the lookahead buffer.
    pub closed spec fn has_token(&self) -> bool {
        self.cur_token is Some
    }

    /// The token in the lookahead buffer.
    pub closed spec fn token(&self) -> TokenModel {
        match self.cur_token {
            Some(t) => t@,
            None => TokenModel::Eof,
        }
    }

    pub closed spec fn wf(&self) -> bool {
        self.lexer.wf()
    }

    pub open spec fn state(&self) -> PState {
        PState { tok: self.token(), pos: self.position() }
    }

    pub fn new(lexer: Lexer) -> (r: Parser)
        requires
            lexer.wf(),
        ensures
            r.wf(),
            !r.has_token(),
            r.source() == lexer.source(),
            r.position() == lexer.position(),
    {
        Parser { lexer, cur_token: None }
    }

    /// The token in the lookahead buffer.
    pub fn cur_token(&self) -> (t: &Token)
        requires
            self.has_token(),
        ensures
            t@ == self.token(),
    {
        self.cur_token.as_ref().unwrap()
    }

    /// Reads the next token into the lookahead buffer.
    pub fn get_next_token(&mut self)
        requires
            old(self).wf(),
        ensures
            final(self).wf(),
            final(self).has_token(),
            final(self).source() == old(self).source(),
            final(self).state() == advance(old(self).source(), old(self).position()),
    {
        self.cur_token = Some(self.lexer.next_token());
    }

    /// number-expression := number
    pub fn parse_number_expr(&mut self) -> (r: ParseResult<ExpressionAST>)
        requires
            old(self).wf(),
            old(self).has_token(),
            old(self).token() is Number,
        ensures
            final(self).wf(),
            final(self).has_token(),
            final(self).source() == old(self).source(),
            expr_outcome(r, primary_spec(old(self).source(), old(self).state()), final(self).state()),
            r is Ok ==> measure(old(self).source(), final(self).state()) <= measure(
                old(self).source(),
                old(self).state(),
            ),
    {
        let ghost s = self.source();
        let ghost st0 = self.state();
        proof {
            lemma_advance_measure(s, st0);
        }
        match self.cur_token.take() {
            Some(Token::Number(number)) => {
                self.get_next_token();
                Ok(ExpressionAST::Number(number))
            },
            other => {
                proof {
                    assert(false);
                }
                self.cur_token = other;
                Err(String::new())
            },
        }
    }

    /// parenthesized := '(' expression ')'
    pub fn parse_parenthesis_expr(&mut self) -> (r: ParseResult<ExpressionAST>)
        requires
            old(self).wf(),
            old(self).has_token(),
            is_char(old(self).token(), '('),
        ensures
            final(self).wf(),
            final(self).has_token(),
            final(self).source() == old(self).source(),
            expr_outcome(r, paren_spec(old(self).source(), old(self).state()), final(self).state()),
            r is Ok ==> measure(old(self).source(), final(self).state()) <= measure(
                old(self).source(),
                old(self).state(),
            ),
        decreases measure(old(self).source(), old(self).state()), 1nat,
    {
        let ghost s = self.source();
        let ghost st0 = self.state();
        proof {
            lemma_advance_measure(s, st0);
        }
        self.get_next_token();
        let v = match self.parse_expression() {
            Ok(v) => v,
            Err(m) => return Err(m),
        };
        if matches!(self.cur_token(), Token::Char(')')) {
            proof {
                lemma_advance_measure(s, self.state());
            }
            self.get_next_token();
            Ok(v)
        } else {
            Err("expected ')'".to_owned())
        }
    }

    /// identifier-expression := identifier | identifier '(' arguments ')'
    #[verifier::loop_isolation(false)]
    pub fn parse_identifier_expr(&mut self) -> (r: ParseResult<ExpressionAST>)
        requires
            old(self).wf(),
            old(self).has_token(),
            old(self).token() is Identifier,
        ensures
            final(self).wf(),
            final(self).has_token(),
            final(self).source() == old(self).source(),
            expr_outcome(r, identifier_spec(old(self).source(), old(self).state()), final(self).state()),
            r is Ok ==> measure(old(self).source(), final(self).state()) <= measure(
                old(self).source(),
                old(self).state(),
            ),
        decreases measure(old(self).source(), old(self).state()), 1nat,
    {
        let ghost s = self.source();
        let ghost st0 = self.state();
        proof {
            lemma_advance_measure(s, st0);
        }
        let id_name = match self.cur_token.take() {
            Some(Token::Identifier(id)) => {
                self.get_next_token();
                id
            },
            other => {
                proof {
                    assert(false);
                }
                self.cur_token = other;
                return Err(String::new());
            },
        };
        if !matches!(self.cur_token(), Token::Char('(')) {
            return Ok(ExpressionAST::Variable(id_name));
        }
        let ghost st1 = self.state();
        proof {
            lemma_advance_measure(s, st1);
        }
        self.get_next_token();
        let ghost st2 = self.state();
        let mut args: Vec<ExpressionAST> = Vec::new();
        if matches!(self.cur_token(), Token::Char(')')) {
            proof {
                lemma_advance_measure(s, st2);
            }
            self.get_next_token();
            proof {
                assert(args_view(args@, 0) =~= Seq::<Expr>::empty());
            }
            return Ok(ExpressionAST::Call(id_name, args));
        }
        proof {
            assert(args_view(args@, 0) =~= Seq::<Expr>::empty());
            match args_spec(s, st2) {
                Ok((rest, st)) => assert(Seq::<Expr>::empty() + rest =~= rest),
                Err(_) => {},
            }
        }
        loop
            invariant
                self.wf(),
                self.has_token(),
                self.source() == s,
                measure(s, self.state()) < measure(s, st0),
                args_spec(s, st2) == after_args(
                    args_view(args@, args@.len()),
                    args_spec(s, self.state()),
                ),
            decreases measure(s, self.state()),
        {
            let ghost cur = self.state();
            let arg = match self.parse_expression() {
                Ok(a) => a,
                Err(m) => return Err(m),
            };
            let ghost pre = args_view(args@, args@.len());
            proof {
                lemma_args_view_push(args@, arg);
            }
            args.push(arg);
            if matches!(self.cur_token(), Token::Char(')')) {
                proof {
                    lemma_advance_measure(s, self.state());
                    assert(pre + seq![arg@] =~= pre.push(arg@));
                }
                self.get_next_token();
                return Ok(ExpressionAST::Call(id_name, args));
            }
            if !matches!(self.cur_token(), Token::Char(',')) {
                return Err("expected ')' or ',' in argument list".to_owned());
            }
            proof {
                lemma_advance_measure(s, self.state());
                match args_spec(s, advance(s, self.position())) {
                    Ok((rest, st)) => assert(pre.push(arg@) + rest =~= pre + (seq![arg@] + rest)),
                    Err(_) => {},
                }
            }
            self.get_next_token();
        }
    }

    /// primary := identifier-expression | number | parenthesized
    pub fn parse_primary(&mut self) -> (r: ParseResult<ExpressionAST>)
        requires
            old(self).wf(),
            old(self).has_token(),
        ensures
            final(self).wf(),
            final(self).has_token(),
            final(self).source() == old(self).source(),
            expr_outcome(r, primary_spec(old(self).source(), old(self).state()), final(self).state()),
            r is Ok ==> measure(old(self).source(), final(self).state()) <= measure(
                old(self).source(),
                old(self).state(),
            ),
            !(old(self).token() is Identifier) && !(old(self).token() is Number) && !is_char(
                old(self).token(),
                '(',
            ) ==> final(self).state() == old(self).state(),
        decreases measure(old(self).source(), old(self).state()), 2nat,
    {
        match self.cur_token() {
            Token::Identifier(_) => self.parse_identifier_expr(),
            Token::Number(_) => self.parse_number_expr(),
            Token::Char('(') => self.parse_parenthesis_expr(),
            _ => Err("unknown token when expecting an expression".to_owned()),
        }
    }

    /// expression := primary (operator primary)*, grouped by precedence
    pub fn parse_expression(&mut self) -> (r: ParseResult<ExpressionAST>)
        requires
            old(self).wf(),
            old(self).has_token(),
        ensures
            final(self).wf(),
            final(self).has_token(),
            final(self).source() == old(self).source(),
            expr_outcome(r, expression_spec(old(self).source(), old(self).state()), final(self).state()),
            r is Ok ==> measure(old(self).source(), final(self).state()) <= measure(
                old(self).source(),
                old(self).state(),
            ),
        decreases measure(old(self).source(), old(self).state()), 3nat,
    {
        let lhs = match self.parse_primary() {
            Ok(l) => l,
            Err(m) => return Err(m),
        };
        self.parse_bin_op_rhs(0, lhs)
    }

    /// Precedence climbing: extends `lhs` with the operators of precedence
    /// at least `expr_prec` that follow it.
    #[verifier::loop_isolation(false)]
    fn parse_bin_op_rhs(&mut self, expr_prec: isize, lhs: ExpressionAST) -> (r: ParseResult<
        ExpressionAST,
    >)
        requires
            old(self).wf(),
            old(self).has_token(),
            0 <= expr_prec,
        ensures
            final(self).wf(),
            final(self).has_token(),
            final(self).source() == old(self).source(),
            expr_outcome(
                r,
                bin_rhs_spec(old(self).source(), old(self).state(), expr_prec as int, lhs@),
                final(self).state(),
            ),
            r is Ok ==> measure(old(self).source(), final(self).state()) <= measure(
                old(self).source(),
                old(self).state(),
            ),
            r is Ok ==> precedence(final(self).token()) < expr_prec,
            match r {
                Ok(v) => match chain(old(self).source(), old(self).state(), expr_prec as int) {
                    Ok((c, st)) => st == final(self).state() && inorder(v@) == inorder(lhs@) + c,
                    Err(_) => false,
                },
                Err(_) => true,
            },
            precedence(old(self).token()) < expr_prec ==> r is Ok && r->Ok_0@ == lhs@
                && final(self).state() == old(self).state(),
        decreases measure(old(self).source(), old(self).state()), 0nat,
    {
        let ghost s = self.source();
        let ghost st0 = self.state();
        proof {
            lemma_bin_rhs_stops(s, st0, expr_prec as int, lhs@);
            lemma_bin_rhs_inorder(s, st0, expr_prec as int, lhs@);
        }
        let ghost lhs0 = lhs@;
        let mut lhs = lhs;
        loop
            invariant
                self.wf(),
                self.has_token(),
                self.source() == s,
                0 <= expr_prec,
                measure(s, self.state()) <= measure(s, st0),
                bin_rhs_spec(s, st0, expr_prec as int, lhs0) == bin_rhs_spec(
                    s,
                    self.state(),
                    expr_prec as int,
                    lhs@,
                ),
            decreases measure(s, self.state()),
        {
            let ghost cur = self.state();
            let token_prec = get_token_precedence(self.cur_token());
            if token_prec < expr_prec {
                return Ok(lhs);
            }
            proof {
                lemma_advance_measure(s, cur);
            }
            let binop = match self.cur_token.take() {
                Some(Token::Char(c)) => {
                    self.get_next_token();
                    c
                },
                other => {
                    proof {
                        assert(false);
                    }
                    self.cur_token = other;
                    return Err(String::new());
                },
            };
            let mut rhs = match self.parse_primary() {
                Ok(r) => r,
                Err(m) => return Err(m),
            };
            let next_prec = get_token_precedence(self.cur_token());
            if token_prec < next_prec {
                rhs = match self.parse_bin_op_rhs(token_prec + 1, rhs) {
                    Ok(r) => r,
                    Err(m) => return Err(m),
                };
            }
            lhs = ExpressionAST::Binary(binop, Box::new(lhs), Box::new(rhs));
        }
    }

    /// prototype := identifier '(' parameters ')'
    ///
    /// When the current token is not an identifier, fails without consuming
    /// anything.
    pub fn parse_prototype(&mut self) -> (r: ParseResult<PrototypeAST>)
        requires
            old(self).wf(),
            old(self).has_token(),
        ensures
            final(self).wf(),
            final(self).has_token(),
            final(self).source() == old(self).source(),
            proto_outcome(r, prototype_spec(old(self).source(), old(self).state()), final(self).state()),
            !(old(self).token() is Identifier) ==> final(self).state() == old(self).state(),
    {
        let ghost s = self.source();
        let id_name = match self.cur_token.take() {
            Some(Token::Identifier(id)) => {
                self.get_next_token();
                id
            },
            other => {
                self.cur_token = other;
                return Err("expected function name in prototype".to_owned());
            },
        };
        if !matches!(self.cur_token(), Token::Char('(')) {
            return Err("expected function name in prototype".to_owned());
        }
        let ghost paren_pos = self.position();
        let mut args: Vec<String> = Vec::new();
        proof {
            let r = params_spec(s, advance(s, paren_pos));
            assert(names_view(args@) + r.0 =~= r.0);
        }
        loop
            invariant_except_break
                params_spec(s, advance(s, paren_pos)) == (
                    names_view(args@) + params_spec(s, advance(s, self.position())).0,
                    params_spec(s, advance(s, self.position())).1,
                ),
            invariant
                self.wf(),
                self.source() == s,
            ensures
                self.has_token(),
                params_spec(s, advance(s, paren_pos)) == (names_view(args@), self.state()),
            decreases s.len() - self.position(),
        {
            let ghost before = names_view(args@);
            proof {
                lemma_lex_progress(s, self.position());
            }
            self.get_next_token();
            let ghost st = self.state();
            match self.cur_token.take() {
                Some(Token::Identifier(arg)) => {
                    args.push(arg);
                    proof {
                        let r = params_spec(s, advance(s, st.pos));
                        assert(names_view(args@) =~= before.push(arg@));
                        assert(before + (seq![arg@] + r.0) =~= names_view(args@) + r.0);
                    }
                },
                Some(Token::Char(',')) => {},
                other => {
                    self.cur_token = other;
                    proof {
                        assert(before + Seq::<Seq<char>>::empty() =~= before);
                    }
                    break;
                },
            }
        }
        if !matches!(self.cur_token(), Token::Char(')')) {
            return Err("expected ')' in prototype".to_owned());
        }
        self.get_next_token();
        Ok(PrototypeAST(id_name, args))
    }

    /// definition := 'def' prototype expression
    pub fn parse_definition(&mut self) -> (r: ParseResult<FunctionAST>)
        requires
            old(self).wf(),
            old(self).has_token(),
            old(self).token() is Def,
        ensures
            final(self).wf(),
            final(self).has_token(),
            final(self).source() == old(self).source(),
            function_outcome(
                r,
                definition_spec(old(self).source(), advance(old(self).source(), old(self).position())),
                final(self).state(),
            ),
    {
        self.get_next_token();
        let proto = match self.parse_prototype() {
            Ok(p) => p,
            Err(m) => return Err(m),
        };
        let expr = match self.parse_expression() {
            Ok(e) => e,
            Err(m) => return Err(m),
        };
        Ok(FunctionAST(proto, expr))
    }

    /// external := 'extern' prototype
    pub fn parse_extern(&mut self) -> (r: ParseResult<PrototypeAST>)
        requires
            old(self).wf(),
            old(self).has_token(),
            old(self).token() is Extern,
        ensures
            final(self).wf(),
            final(self).has_token(),
            final(self).source() == old(self).source(),
            proto_outcome(
                r,
                prototype_spec(old(self).source(), advance(old(self).source(), old(self).position())),
                final(self).state(),
            ),
    {
        self.get_next_token();
        self.parse_prototype()
    }

    /// top-level-expression := expression, wrapped in a function with no
    /// name and no parameters.
    pub fn parse_top_level_expr(&mut self) -> (r: ParseResult<FunctionAST>)
        requires
            old(self).wf(),
            old(self).has_token(),
        ensures
            final(self).wf(),
            final(self).has_token(),
            final(self).source() == old(self).source(),
            function_outcome(r, top_level_spec(old(self).source(), old(self).state()), final(self).state()),
    {
        let e = match self.parse_expression() {
            Ok(e) => e,
            Err(m) => return Err(m),
        };
        let proto = PrototypeAST(String::new(), Vec::new());
        proof {
            assert(proto@.params =~= Seq::<Seq<char>>::empty());
        }
        Ok(FunctionAST(proto, e))
    }
}

} // verus!
