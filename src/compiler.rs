//! A single-pass Pratt compiler from source text to a chunk of bytecode.
use vstd::prelude::*;
use vstd::string::StringSliceAdditionalSpecFns;

use crate::chunk::{
    constant_operands, decode, lemma_constant_operands_append, lemma_effect_append,
    lemma_effect_grow, lemma_effect_shift, lemma_opcodes_append, lemma_well_formed_append,
    lemma_well_formed_grow, numeral_indices, op_byte, opcodes, runnable, stack_effect, well_formed,
    Chunk, Numeral, OpCode,
};
use crate::object::Obj;
use crate::scanner::{
    good_start, has_error_token, is_open_string, kinds_from, lemma_newlines_monotone,
    newlines_before, lemma_kinds_from_nonempty, lemma_next_pos, next_kind, next_pos,
    token_kinds, trivia_end, Scanner, Token, TokenType,
};
use crate::value::{Val, Value};

verus! {

broadcast use Scanner::lemma_pos_bounds, crate::chunk::lemma_whole_subrange;

/// Where a compile error points.
#[derive(Debug, Clone, Copy, PartialEq, Eq)]
pub enum ErrorSite<'a> {
    /// At the end of the input.
    AtEnd,
    /// At a token the scanner rejected; the message says why.
    Unplaced,
    /// At the token with this lexeme.
    At(&'a str),
}

/// A compile error: the line, the place and the message.
#[derive(Debug, Clone, Copy, PartialEq, Eq)]
pub struct Diagnostic<'a> {
    pub line: u32,
    pub site: ErrorSite<'a>,
    pub message: &'a str,
}

/// Binding strength of operators, weakest first.
#[derive(Debug, Clone, Copy, PartialEq, Eq, Structural)]
pub enum Precedence {
    Lowest,
    Assignment,
    Or,
    And,
    Equality,
    Comparison,
    Term,
    Factor,
    Unary,
    Call,
    Primary,
}

pub open spec fn level(p: Precedence) -> nat {
    match p {
        Precedence::Lowest => 0,
        Precedence::Assignment => 1,
        Precedence::Or => 2,
        Precedence::And => 3,
        Precedence::Equality => 4,
        Precedence::Comparison => 5,
        Precedence::Term => 6,
        Precedence::Factor => 7,
        Precedence::Unary => 8,
        Precedence::Call => 9,
        Precedence::Primary => 10,
    }
}

/// Precedence of the infix operator a token stands for; `Lowest` for the rest.
pub open spec fn infix_precedence(kind: TokenType) -> Precedence {
    match kind {
        TokenType::Minus | TokenType::Plus => Precedence::Term,
        TokenType::Slash | TokenType::Star => Precedence::Factor,
        TokenType::BangEqual | TokenType::EqualEqual => Precedence::Equality,
        TokenType::Greater | TokenType::GreaterEqual | TokenType::Less
        | TokenType::LessEqual => Precedence::Comparison,
        _ => Precedence::Lowest,
    }
}

/// Tokens that can begin an expression.
pub open spec fn has_prefix(kind: TokenType) -> bool {
    match kind {
        TokenType::LeftParen | TokenType::Minus | TokenType::Bang | TokenType::Number
        | TokenType::String | TokenType::False | TokenType::Nil | TokenType::True => true,
        _ => false,
    }
}

/// The opcodes an infix operator compiles to. `!=`, `>=` and `<=` are
/// lowered to a comparison followed by `Not`.
pub open spec fn lowered(kind: TokenType) -> Seq<OpCode> {
    match kind {
        TokenType::BangEqual => seq![OpCode::Equal, OpCode::Not],
        TokenType::EqualEqual => seq![OpCode::Equal],
        TokenType::Greater => seq![OpCode::Greater],
        TokenType::GreaterEqual => seq![OpCode::Less, OpCode::Not],
        TokenType::Less => seq![OpCode::Less],
        TokenType::LessEqual => seq![OpCode::Greater, OpCode::Not],
        TokenType::Plus => seq![OpCode::Add],
        TokenType::Minus => seq![OpCode::Subtract],
        TokenType::Star => seq![OpCode::Multiply],
        _ => seq![OpCode::Divide],
    }
}

/// The expression at the front of `ts` whose infix operators bind at least
/// at level `prec`: the opcodes it compiles to, in postfix order, and the
/// tokens after it. `None` when there is no such expression.
pub open spec fn parse_expression(ts: Seq<TokenType>, prec: nat) -> Option<(Seq<OpCode>, Seq<TokenType>)>
    decreases ts.len(), 0nat,
{
    if ts.len() == 0 {
        None
    } else {
        match parse_prefix(ts[0], ts.skip(1)) {
            Some((code, rest)) => if rest.len() < ts.len() {
                parse_infix(rest, prec, code)
            } else {
                None
            },
            None => None,
        }
    }
}

/// The prefix expression that starts with a token of kind `kind` and goes on
/// with `ts`.
pub open spec fn parse_prefix(kind: TokenType, ts: Seq<TokenType>) -> Option<(Seq<OpCode>, Seq<TokenType>)>
    decreases ts.len(), 1nat,
{
    match kind {
        TokenType::LeftParen => match parse_expression(ts, level(Precedence::Assignment)) {
            Some((code, rest)) => if rest.len() > 0 && rest[0] == TokenType::RightParen {
                Some((code, rest.skip(1)))
            } else {
                None
            },
            None => None,
        },
        TokenType::Minus => match parse_expression(ts, level(Precedence::Unary)) {
            Some((code, rest)) => Some((code.push(OpCode::Negate), rest)),
            None => None,
        },
        TokenType::Bang => match parse_expression(ts, level(Precedence::Unary)) {
            Some((code, rest)) => Some((code.push(OpCode::Not), rest)),
            None => None,
        },
        TokenType::Number | TokenType::String => Some((seq![OpCode::Constant], ts)),
        TokenType::False => Some((seq![OpCode::False], ts)),
        TokenType::Nil => Some((seq![OpCode::Nil], ts)),
        TokenType::True => Some((seq![OpCode::True], ts)),
        _ => None,
    }
}

/// Infix operators of level at least `prec` applied, left to right, to the
/// operand compiled to `left`.
pub open spec fn parse_infix(ts: Seq<TokenType>, prec: nat, left: Seq<OpCode>) -> Option<
    (Seq<OpCode>, Seq<TokenType>),
>
    decreases ts.len(), 2nat,
{
    if ts.len() > 0 && 1 <= prec <= level(infix_precedence(ts[0])) {
        match parse_expression(ts.skip(1), level(infix_precedence(ts[0])) + 1) {
            Some((right, rest)) => if rest.len() < ts.len() {
                parse_infix(rest, prec, left + right + lowered(ts[0]))
            } else {
                None
            },
            None => None,
        }
    } else {
        Some((left, ts))
    }
}

/// What a token adds to the constant pool: a number literal adds a number
/// whose value the embedding program fills in (until then, the bits of
/// `+0.0`); a string literal adds its text without the quotes.
pub open spec fn literal_value(kind: TokenType, lexeme: Seq<u8>) -> Seq<Val> {
    if kind == TokenType::Number {
        seq![Val::Number(0)]
    } else if kind == TokenType::String {
        seq![Val::Str(lexeme.subrange(1, lexeme.len() - 1))]
    } else {
        Seq::empty()
    }
}

/// The constants that the literals from `pos` on add, in order.
pub open spec fn literals_from(s: Seq<u8>, pos: int) -> Seq<Val>
    decreases s.len() - pos,
{
    let kind = next_kind(s, pos);
    let end = next_pos(s, pos);
    if pos < 0 || pos > s.len() || kind == TokenType::EOF || end <= pos || end > s.len() {
        Seq::empty()
    } else {
        literal_value(kind, s.subrange(trivia_end(s, pos), end)) + literals_from(s, end)
    }
}

/// The constants that the literals of a whole text add, in order.
pub open spec fn source_literals(s: Seq<u8>) -> Seq<Val> {
    literals_from(s, 0)
}

/// Tokens that compile to a single instruction that pushes a value.
pub open spec fn is_operand(kind: TokenType) -> bool {
    kind == TokenType::Number || kind == TokenType::String || kind == TokenType::False || kind
        == TokenType::Nil || kind == TokenType::True
}

/// The instruction an operand token compiles to.
pub open spec fn operand_code(kind: TokenType) -> Seq<OpCode> {
    match kind {
        TokenType::False => seq![OpCode::False],
        TokenType::Nil => seq![OpCode::Nil],
        TokenType::True => seq![OpCode::True],
        _ => seq![OpCode::Constant],
    }
}

/// Operators of one level group to the left: `a - b - c` compiles as
/// `(a - b) - c`, the first operator applied before the third operand is
/// pushed.
pub proof fn lemma_left_associative(
    a: TokenType,
    first: TokenType,
    b: TokenType,
    second: TokenType,
    c: TokenType,
)
    requires
        is_operand(a),
        is_operand(b),
        is_operand(c),
        level(infix_precedence(first)) >= 1,
        infix_precedence(second) == infix_precedence(first),
    ensures
        parse_expression(seq![a, first, b, second, c, TokenType::EOF], 1) == Some(
            (
                operand_code(a) + operand_code(b) + lowered(first) + operand_code(c) + lowered(
                    second,
                ),
                seq![TokenType::EOF],
            ),
        ),
{
    let end = seq![TokenType::EOF];
    let ts = seq![a, first, b, second, c, TokenType::EOF];
    let lv = level(infix_precedence(first)) + 1;
    let pa = operand_code(a);
    let pb = operand_code(b);
    let pc = operand_code(c);
    let t1 = seq![first, b, second, c, TokenType::EOF];
    let t2 = seq![b, second, c, TokenType::EOF];
    let t3 = seq![second, c, TokenType::EOF];
    let t4 = seq![c, TokenType::EOF];
    assert(ts.skip(1) =~= t1);
    assert(t1.skip(1) =~= t2);
    assert(t2.skip(1) =~= t3);
    assert(t3.skip(1) =~= t4);
    assert(t4.skip(1) =~= end);
    assert(parse_prefix(c, end) == Some((pc, end)));
    assert(parse_infix(end, lv, pc) == Some((pc, end)));
    assert(parse_expression(t4, lv) == Some((pc, end)));
    assert(parse_prefix(b, t3) == Some((pb, t3)));
    assert(parse_infix(t3, lv, pb) == Some((pb, t3)));
    assert(parse_expression(t2, lv) == Some((pb, t3)));
    let left = pa + pb + lowered(first);
    let all = left + pc + lowered(second);
    assert(parse_infix(end, 1, all) == Some((all, end)));
    assert(parse_infix(t3, 1, left) == Some((all, end)));
    assert(parse_prefix(a, t1) == Some((pa, t1)));
    assert(parse_infix(t1, 1, pa) == Some((all, end)));
}

/// The pool size after asking for `k` constants: at most 256.
pub open spec fn min_pool(k: int) -> int {
    if k < 256 {
        k
    } else {
        256
    }
}

/// The operand that loads the constant asked for as number `k`: `k` while
/// the pool has room, 0 once it is full.
pub open spec fn pool_index(k: int) -> int {
    if k < 256 {
        k
    } else {
        0
    }
}

/// Whether `operands` are `start`, `start + 1`, and so on.
pub open spec fn numbered_from(operands: Seq<u8>, start: int) -> bool {
    forall|i: int| 0 <= i < operands.len() ==> operands[i] == start + i
}

/// How many `Constant` instructions `ops` holds.
pub open spec fn constant_count(ops: Seq<OpCode>) -> nat
    decreases ops.len(),
{
    if ops.len() == 0 {
        0
    } else {
        constant_count(ops.drop_last()) + if ops.last() == OpCode::Constant {
            1nat
        } else {
            0nat
        }
    }
}

pub proof fn lemma_constant_count_append(a: Seq<OpCode>, b: Seq<OpCode>)
    ensures
        constant_count(a + b) == constant_count(a) + constant_count(b),
    decreases b.len(),
{
    if b.len() == 0 {
        assert(a + b =~= a);
    } else {
        assert((a + b).drop_last() =~= a + b.drop_last());
        lemma_constant_count_append(a, b.drop_last());
    }
}

/// The infix operators after an operand only add to its code.
pub proof fn lemma_infix_count(ts: Seq<TokenType>, prec: nat, left: Seq<OpCode>)
    requires
        parse_infix(ts, prec, left) is Some,
    ensures
        ({
            let (ops, rest) = parse_infix(ts, prec, left)->0;
            constant_count(ops) >= constant_count(left)
        }),
    decreases ts.len(),
{
    if ts.len() > 0 && 1 <= prec <= level(infix_precedence(ts[0])) {
        let (right, rest) = parse_expression(ts.skip(1), level(infix_precedence(ts[0])) + 1)->0;
        let next = left + right + lowered(ts[0]);
        lemma_infix_count(rest, prec, next);
        lemma_constant_count_append(left + right, lowered(ts[0]));
        lemma_constant_count_append(left, right);
    }
}

/// Well-formed code has one operand for each `Constant`.
pub proof fn lemma_operand_count(code: Seq<u8>, n: int)
    requires
        well_formed(code, n),
    ensures
        constant_operands(code).len() == constant_count(opcodes(code)),
    decreases code.len(),
{
    if code.len() > 0 {
        let op = decode(code[0])->0;
        let k: int = if op == OpCode::Constant {
            2
        } else {
            1
        };
        lemma_operand_count(code.skip(k), n);
        lemma_single_count(op);
        lemma_constant_count_append(seq![op], opcodes(code.skip(k)));
    } else {
        assert(constant_count(opcodes(code)) == 0);
    }
}

proof fn lemma_lowered_count(kind: TokenType)
    ensures
        constant_count(lowered(kind)) == 0,
{
    let ops = lowered(kind);
    assert(constant_count(Seq::<OpCode>::empty()) == 0);
    if ops.len() == 2 {
        assert(ops.drop_last().drop_last() =~= Seq::<OpCode>::empty());
        assert(constant_count(ops.drop_last()) == 0);
    } else {
        assert(ops.drop_last() =~= Seq::<OpCode>::empty());
    }
}

proof fn lemma_single_count(op: OpCode)
    ensures
        constant_count(seq![op]) == if op == OpCode::Constant {
            1nat
        } else {
            0nat
        },
{
    assert(seq![op].drop_last() =~= Seq::<OpCode>::empty());
    assert(constant_count(Seq::<OpCode>::empty()) == 0);
}

/// The code of an infix operator: the right operand's, then the operator's.
pub open spec fn infix_result(ts: Seq<TokenType>, kind: TokenType) -> Option<
    (Seq<OpCode>, Seq<TokenType>),
> {
    match parse_expression(ts, level(infix_precedence(kind)) + 1) {
        Some((right, rest)) => Some((right + lowered(kind), rest)),
        None => None,
    }
}

impl Precedence {
    fn level(self) -> (r: u8)
        ensures
            r == level(self),
    {
        match self {
            Precedence::Lowest => 0,
            Precedence::Assignment => 1,
            Precedence::Or => 2,
            Precedence::And => 3,
            Precedence::Equality => 4,
            Precedence::Comparison => 5,
            Precedence::Term => 6,
            Precedence::Factor => 7,
            Precedence::Unary => 8,
            Precedence::Call => 9,
            Precedence::Primary => 10,
        }
    }

    /// The next stronger level.
    fn incr(self) -> (r: Precedence)
        requires
            self != Precedence::Primary,
        ensures
            level(r) == level(self) + 1,
    {
        match self {
            Precedence::Lowest => Precedence::Assignment,
            Precedence::Assignment => Precedence::Or,
            Precedence::Or => Precedence::And,
            Precedence::And => Precedence::Equality,
            Precedence::Equality => Precedence::Comparison,
            Precedence::Comparison => Precedence::Term,
            Precedence::Term => Precedence::Factor,
            Precedence::Factor => Precedence::Unary,
            Precedence::Unary => Precedence::Call,
            _ => Precedence::Primary,
        }
    }
}

fn precedence_for(kind: TokenType) -> (r: Precedence)
    ensures
        r == infix_precedence(kind),
{
    match kind {
        TokenType::Minus | TokenType::Plus => Precedence::Term,
        TokenType::Slash | TokenType::Star => Precedence::Factor,
        TokenType::BangEqual | TokenType::EqualEqual => Precedence::Equality,
        TokenType::Greater | TokenType::GreaterEqual | TokenType::Less
        | TokenType::LessEqual => Precedence::Comparison,
        _ => Precedence::Lowest,
    }
}

fn prefix_exists(kind: TokenType) -> (r: bool)
    ensures
        r == has_prefix(kind),
{
    match kind {
        TokenType::LeftParen | TokenType::Minus | TokenType::Bang | TokenType::Number
        | TokenType::String | TokenType::False | TokenType::Nil | TokenType::True => true,
        _ => false,
    }
}

/// Where an error at `token` points.
pub open spec fn site_of<'a>(token: Token<'a>) -> ErrorSite<'a> {
    if token.token_type == TokenType::EOF {
        ErrorSite::AtEnd
    } else if token.token_type == TokenType::Error {
        ErrorSite::Unplaced
    } else {
        ErrorSite::At(token.slice)
    }
}

/// The message of the error token that a scan from `k`, past trivia, yields.
pub open spec fn scan_error_message(s: Seq<u8>, k: int) -> Seq<char> {
    if is_open_string(s, k) {
        "Unterminated string."@
    } else {
        "Unexpected character"@
    }
}

/// Two tokens of lookahead state over a scanner, and the first error met.
/// Once an error is recorded the parser is in panic mode: later errors are
/// not reported.
struct Parser<'a> {
    scanner: Scanner<'a>,
    current: Token<'a>,
    previous: Token<'a>,
    error: Option<Diagnostic<'a>>,
}

impl<'a> Parser<'a> {
    spec fn wf(&self) -> bool {
        &&& self.scanner.wf()
        &&& self.current.token_type == TokenType::EOF ==> self.scanner.pos()
            == self.scanner.bytes().len()
        &&& self.current.token_type == TokenType::String ==> self.current.slice.spec_bytes().len()
            >= 2
        &&& self.previous.token_type == TokenType::String
            ==> self.previous.slice.spec_bytes().len() >= 2
        &&& self.current.line == 1 + newlines_before(self.scanner.bytes(), self.scanner.pos())
        &&& 1 <= self.previous.line <= self.current.line
    }

    /// Kinds of the current token and of those after it.
    spec fn toks(&self) -> Seq<TokenType> {
        if self.current.token_type == TokenType::EOF {
            seq![TokenType::EOF]
        } else {
            seq![self.current.token_type] + kinds_from(self.scanner.bytes(), self.scanner.pos())
        }
    }

    /// The constants that the current token and those after it add.
    spec fn lits(&self) -> Seq<Val> {
        if self.current.token_type == TokenType::EOF {
            Seq::empty()
        } else {
            literal_value(self.current.token_type, self.current.slice.spec_bytes())
                + literals_from(self.scanner.bytes(), self.scanner.pos())
        }
    }

    /// The first error recorded in `next` is "Expect expression." at this
    /// parser's current token.
    spec fn expect_expression_at_current(&self, next: &Self) -> bool {
        next.error matches Some(d) && d.line == self.current.line && d.site == site_of(
            self.current,
        ) && d.message@ == "Expect expression."@
    }

    /// The constants that the previous token adds.
    spec fn previous_literal(&self) -> Seq<Val> {
        literal_value(self.previous.token_type, self.previous.slice.spec_bytes())
    }

    /// No error token lies ahead.
    spec fn clean(&self) -> bool {
        !has_error_token(self.scanner.bytes(), self.scanner.pos())
    }

    /// Input left to read: the unread bytes, and one more while the current
    /// token is not the end.
    spec fn measure(&self) -> int {
        (self.scanner.bytes().len() - self.scanner.pos()) + if self.current.token_type
            == TokenType::EOF {
            0int
        } else {
            1int
        }
    }

    fn new(scanner: Scanner<'a>) -> (r: Self)
        requires
            scanner.wf(),
            scanner.pos() == 0,
        ensures
            r.wf(),
            r.scanner == scanner,
            r.error is None,
            r.current.token_type == TokenType::Error,
            r.previous.token_type == TokenType::Error,
    {
        let placeholder = Token { token_type: TokenType::Error, line: 1, slice: "" };
        Self { scanner, current: placeholder, previous: placeholder, error: None }
    }

    /// Moves to the next token that is not an error, reporting the errors
    /// passed over.
    fn advance(&mut self)
        requires
            old(self).wf(),
        ensures
            final(self).wf(),
            final(self).scanner.bytes() == old(self).scanner.bytes(),
            final(self).previous == old(self).current,
            final(self).current.token_type != TokenType::Error,
            final(self).measure() <= old(self).measure(),
            old(self).current.token_type != TokenType::EOF ==> final(self).measure() < old(self).measure(),
            old(self).error is Some ==> final(self).error == old(self).error,
            old(self).current.token_type != TokenType::EOF ==> final(self).toks() == old(self).toks().skip(1),
            old(self).current.token_type == TokenType::EOF ==> final(self).toks() == old(self).toks(),
            final(self).toks().len() >= 1,
            old(self).clean() ==> final(self).clean() && final(self).error == old(self).error,
            final(self).error is None ==> old(self).clean() == final(self).clean(),
            old(self).current.token_type != TokenType::EOF ==> old(self).lits()
                == final(self).previous_literal() + final(self).lits(),
            old(self).current.token_type == TokenType::EOF ==> final(self).lits() == old(self).lits(),
            ({
                let s = old(self).scanner.bytes();
                let q = good_start(s, old(self).scanner.pos());
                &&& final(self).current.token_type == next_kind(s, q)
                &&& final(self).scanner.pos() == next_pos(s, q)
                &&& final(self).current.line == 1 + newlines_before(s, final(self).scanner.pos())
                &&& final(self).current.token_type != TokenType::EOF
                    ==> final(self).current.slice@ == old(self).scanner.chars().subrange(
                    trivia_end(s, q),
                    final(self).scanner.pos(),
                )
            }),
            ({
                let s = old(self).scanner.bytes();
                let p = old(self).scanner.pos();
                old(self).error is None && next_kind(s, p) == TokenType::Error ==> (final(self).error matches Some(d) && d.line == 1 + newlines_before(s, next_pos(s, p))
                    && d.site == ErrorSite::Unplaced && d.message@ == scan_error_message(
                    s,
                    trivia_end(s, p),
                ))
            }),
    {
        self.previous = self.current;
        proof {
            lemma_kinds_from_nonempty(self.scanner.bytes(), self.scanner.pos());
            if old(self).current.token_type != TokenType::EOF {
                assert(old(self).toks().skip(1) =~= kinds_from(
                    self.scanner.bytes(),
                    self.scanner.pos(),
                ));
            }
        }
        loop
            invariant
                kinds_from(self.scanner.bytes(), self.scanner.pos()) == kinds_from(
                    old(self).scanner.bytes(),
                    old(self).scanner.pos(),
                ),
                old(self).clean() ==> self.scanner.pos() == old(self).scanner.pos() && self.error
                    == old(self).error,
                self.error is None ==> has_error_token(self.scanner.bytes(), self.scanner.pos())
                    == !old(self).clean(),
                literals_from(self.scanner.bytes(), self.scanner.pos()) == literals_from(
                    old(self).scanner.bytes(),
                    old(self).scanner.pos(),
                ),
                self.scanner.wf(),
                self.scanner.bytes() == old(self).scanner.bytes(),
                self.previous == old(self).current,
                self.scanner.pos() >= old(self).scanner.pos(),
                old(self).wf(),
                self.previous.token_type == TokenType::String
                    ==> self.previous.slice.spec_bytes().len() >= 2,
                old(self).error is Some ==> self.error == old(self).error,
                self.scanner.chars() == old(self).scanner.chars(),
                self.scanner.pos() == old(self).scanner.pos() ==> self.error == old(self).error,
                good_start(self.scanner.bytes(), self.scanner.pos()) == good_start(
                    old(self).scanner.bytes(),
                    old(self).scanner.pos(),
                ),
                ({
                    let s = old(self).scanner.bytes();
                    let p = old(self).scanner.pos();
                    self.scanner.pos() != p ==> next_kind(s, p) == TokenType::Error && (old(self).error is None ==> (self.error matches Some(d) && d.line == 1
                        + newlines_before(s, next_pos(s, p)) && d.site == ErrorSite::Unplaced
                        && d.message@ == scan_error_message(s, trivia_end(s, p))))
                }),
            decreases self.scanner.bytes().len() - self.scanner.pos(),
        {
            let ghost at = self.scanner.pos();
            proof {
                lemma_next_pos(self.scanner.bytes(), at);
            }
            self.current = self.scanner.scan_token();
            if self.current.token_type != TokenType::Error {
                proof {
                    lemma_newlines_monotone(
                        self.scanner.bytes(),
                        old(self).scanner.pos(),
                        self.scanner.pos(),
                    );
                    lemma_kinds_from_nonempty(self.scanner.bytes(), self.scanner.pos());
                    if self.current.token_type != TokenType::EOF {
                        assert(self.toks() =~= kinds_from(self.scanner.bytes(), at));
                        assert(self.lits() =~= literals_from(self.scanner.bytes(), at));
                    }
                }
                return;
            }
            let ghost before_error = self.error;
            self.error_at_current(self.current.slice);
            proof {
                let s = old(self).scanner.bytes();
                if at == old(self).scanner.pos() && before_error is None {
                    assert(self.current.line == 1 + newlines_before(s, next_pos(s, at)));
                    assert(self.current.slice@ == scan_error_message(s, trivia_end(s, at)));
                    assert(site_of(self.current) == ErrorSite::Unplaced);
                }
            }
        }
    }

    /// Advances over a token of kind `kind`, or reports `message`.
    fn consume(&mut self, kind: TokenType, message: &'a str)
        requires
            old(self).wf(),
        ensures
            final(self).wf(),
            final(self).scanner.bytes() == old(self).scanner.bytes(),
            final(self).measure() <= old(self).measure(),
            old(self).error is Some ==> final(self).error == old(self).error,
            old(self).current.token_type != kind ==> final(self).error is Some,
            final(self).toks().len() <= old(self).toks().len(),
            old(self).current.token_type == kind && kind != TokenType::EOF ==> final(self).toks()
                == old(self).toks().skip(1),
            old(self).current.token_type != kind ==> final(self).toks() == old(self).toks(),
            old(self).clean() && old(self).current.token_type == kind ==> final(self).clean()
                && final(self).error == old(self).error,
            final(self).error is None ==> old(self).clean() == final(self).clean(),
            old(self).current.token_type == kind && kind != TokenType::EOF ==> old(self).lits()
                == final(self).previous_literal() + final(self).lits(),
            old(self).current.token_type == kind && kind == TokenType::EOF ==> final(self).lits()
                == old(self).lits(),
            old(self).current.token_type == kind ==> final(self).previous == old(self).current,
            old(self).previous.line <= final(self).previous.line,
            old(self).current.token_type != kind && old(self).error is None ==> final(self).error
                == Some(
                Diagnostic { line: old(self).current.line, site: site_of(old(self).current), message },
            ),
    {
        if self.current.token_type == kind {
            self.advance();
            return;
        }
        self.error_at_current(message);
    }

    fn error_at_current(&mut self, message: &'a str)
        ensures
            final(self).scanner == old(self).scanner,
            final(self).current == old(self).current,
            final(self).previous == old(self).previous,
            final(self).error is Some,
            old(self).error is Some ==> final(self).error == old(self).error,
            old(self).error is None ==> final(self).error->0.message == message,
            old(self).error is None ==> final(self).error == Some(
                Diagnostic { line: old(self).current.line, site: site_of(old(self).current), message },
            ),
    {
        let token = self.current;
        self.error_at(token, message);
    }

    fn error(&mut self, message: &'a str)
        ensures
            final(self).scanner == old(self).scanner,
            final(self).current == old(self).current,
            final(self).previous == old(self).previous,
            final(self).error is Some,
            old(self).error is Some ==> final(self).error == old(self).error,
            old(self).error is None ==> final(self).error->0.message == message,
            old(self).error is None ==> final(self).error == Some(
                Diagnostic {
                    line: old(self).previous.line,
                    site: site_of(old(self).previous),
                    message,
                },
            ),
    {
        let token = self.previous;
        self.error_at(token, message);
    }

    /// Records an error at `token`, unless one is recorded already.
    fn error_at(&mut self, token: Token<'a>, message: &'a str)
        ensures
            final(self).scanner == old(self).scanner,
            final(self).current == old(self).current,
            final(self).previous == old(self).previous,
            old(self).error is Some ==> final(self).error == old(self).error,
            old(self).error is None ==> final(self).error == Some(
                Diagnostic {
                    line: token.line,
                    site: if token.token_type == TokenType::EOF {
                        ErrorSite::AtEnd
                    } else if token.token_type == TokenType::Error {
                        ErrorSite::Unplaced
                    } else {
                        ErrorSite::At(token.slice)
                    },
                    message,
                },
            ),
    {
        if self.error.is_some() {
            return;
        }
        let site = if token.token_type == TokenType::EOF {
            ErrorSite::AtEnd
        } else if token.token_type == TokenType::Error {
            ErrorSite::Unplaced
        } else {
            ErrorSite::At(token.slice)
        };
        self.error = Some(Diagnostic { line: token.line, site, message });
    }
}

/// The parser and the chunk it fills.
struct Compiler<'a> {
    parser: Parser<'a>,
    chunk: Chunk,
}

impl<'a> Compiler<'a> {
    spec fn inv(&self) -> bool {
        &&& self.parser.wf()
        &&& self.chunk.wf()
        &&& lines_ordered(self.chunk@.lines, self.parser.previous.line as int)
    }

    spec fn n_constants(&self) -> int {
        self.chunk@.constants.len() as int
    }

    /// What every step keeps: the invariant, the input, the code and
    /// constants so far, and the first error.
    spec fn leads_to(&self, next: &Self) -> bool {
        &&& next.inv()
        &&& next.parser.scanner.bytes() == self.parser.scanner.bytes()
        &&& next.parser.measure() <= self.parser.measure()
        &&& self.chunk@.code.len() <= next.chunk@.code.len()
        &&& next.chunk@.code.subrange(0, self.chunk@.code.len() as int) == self.chunk@.code
        &&& self.chunk@.constants.len() <= next.chunk@.constants.len()
        &&& self.parser.error is Some ==> next.parser.error == self.parser.error
        &&& next.parser.toks().len() <= self.parser.toks().len()
        &&& well_formed(self.emitted(next), next.n_constants())
        &&& next.parser.error is None ==> self.parser.clean() == next.parser.clean()
        &&& next.chunk@.constants.subrange(0, self.n_constants()) == self.chunk@.constants
        &&& self.chunk.numerals_match() ==> next.chunk.numerals_match()
    }

    /// The constants added between two states.
    spec fn added(&self, next: &Self) -> Seq<Val> {
        next.chunk@.constants.subrange(self.n_constants(), next.n_constants())
    }

    /// Without an error, the constants added are those of the literals
    /// consumed, the previous token's first.
    spec fn adds_prefix_literals(&self, next: &Self) -> bool {
        next.parser.error is None ==> self.parser.previous_literal() + self.parser.lits()
            == self.added(next) + next.parser.lits()
    }

    /// Without an error, the constants added are those of the literals
    /// consumed.
    spec fn adds_literals(&self, next: &Self) -> bool {
        next.parser.error is None ==> self.parser.lits() == self.added(next) + next.parser.lits()
    }

    /// Without an error, each `Constant` emitted added one constant, and
    /// loads it: the operands count up from the size of the pool before.
    spec fn counts(&self, next: &Self) -> bool {
        next.parser.error is None ==> {
            &&& next.n_constants() == self.n_constants() + constant_count(
                opcodes(self.emitted(next)),
            )
            &&& numbered_from(constant_operands(self.emitted(next)), self.n_constants())
        }
    }

    /// Each `Constant` emitted loads a new constant while the pool has room,
    /// and constant 0 once it is full.
    spec fn capped(&self, next: &Self) -> bool {
        &&& next.n_constants() == min_pool(self.n_constants() + constant_count(
            opcodes(self.emitted(next)),
        ))
        &&& forall|i: int|
            0 <= i < constant_operands(self.emitted(next)).len() ==> #[trigger] constant_operands(
                self.emitted(next),
            )[i] == pool_index(self.n_constants() + i)
    }

    /// No error so far, none ahead in the input, and the grammar accepts
    /// what comes.
    spec fn may_parse(&self, parsed: Option<(Seq<OpCode>, Seq<TokenType>)>) -> bool {
        &&& self.parser.error is None
        &&& self.parser.clean()
        &&& parsed is Some
    }

    /// The only error recorded, if any, is a full constant pool.
    spec fn pool_error_only(&self) -> bool {
        self.parser.error matches Some(d) ==> d.message@ == "Too many constants in one chunk."@
    }

    /// No error so far, none ahead in the input, the grammar accepts what
    /// comes, and its constants fit in the pool.
    spec fn may_succeed(&self, parsed: Option<(Seq<OpCode>, Seq<TokenType>)>) -> bool {
        &&& self.parser.error is None
        &&& self.parser.clean()
        &&& parsed matches Some((ops, rest)) && self.n_constants() + constant_count(ops) <= 256
    }

    /// Without an error, the code emitted between two states is the prefix
    /// expression that `kind` starts, over the tokens that were current.
    spec fn emits_parse(&self, next: &Self, prec: nat) -> bool {
        next.parser.error is None ==> parse_expression(self.parser.toks(), prec) == Some(
            (opcodes(self.emitted(next)), next.parser.toks()),
        )
    }

    /// Without an error, the code emitted between two states is the right
    /// operand of the infix operator `kind`, then the operator.
    spec fn emits_infix(&self, next: &Self, kind: TokenType) -> bool {
        next.parser.error is None ==> match parse_expression(
            self.parser.toks(),
            level(infix_precedence(kind)) + 1,
        ) {
            Some((right, rest)) => opcodes(self.emitted(next)) == right + lowered(kind)
                && next.parser.toks() == rest,
            None => false,
        }
    }

    spec fn emits_prefix(&self, next: &Self, kind: TokenType) -> bool {
        next.parser.error is None ==> parse_prefix(kind, self.parser.toks()) == Some(
            (opcodes(self.emitted(next)), next.parser.toks()),
        )
    }

    /// The code emitted between two states.
    spec fn emitted(&self, next: &Self) -> Seq<u8> {
        next.chunk@.code.subrange(self.chunk@.code.len() as int, next.chunk@.code.len() as int)
    }

    /// Without an error, the code emitted between two states takes the stack
    /// from `depth` to one value more than `depth - consumed`.
    spec fn emits_expression(&self, next: &Self, depth: int) -> bool {
        next.parser.error is None ==> stack_effect(self.emitted(next), next.n_constants(), depth)
            == Some(1int)
    }

    fn emit_op(&mut self, op: OpCode)
        requires
            old(self).inv(),
            op != OpCode::Constant,
        ensures
            old(self).leads_to(final(self)),
            final(self).chunk@.code == old(self).chunk@.code.push(op_byte(op)),
            final(self).chunk@.lines == old(self).chunk@.lines.push(old(self).parser.previous.line),
            final(self).chunk@.constants == old(self).chunk@.constants,
            final(self).parser == old(self).parser,
            opcodes(old(self).emitted(final(self))) == seq![op],
            old(self).counts(final(self)),
            old(self).capped(final(self)),
    {
        let byte = op.to_byte();
        let ghost code = self.chunk@.code;
        proof {
            let one = seq![byte];
            assert(one.skip(1) =~= Seq::<u8>::empty());
            assert(well_formed(one.skip(1), self.n_constants()));
            assert(well_formed(one, self.n_constants()));
            lemma_well_formed_append(code, one, self.n_constants());
            assert(code + one =~= code.push(byte));
        }
        self.chunk.write(byte, self.parser.previous.line);
        assert(self.chunk@.code.subrange(0, code.len() as int) =~= code);
        assert(old(self).emitted(self) =~= seq![byte]);
        assert(opcodes(seq![byte].skip(1)) =~= Seq::<OpCode>::empty());
        assert(opcodes(seq![byte]) =~= seq![op]);
        proof {
            lemma_single_count(op);
            assert(constant_operands(seq![byte].skip(1)) =~= Seq::<u8>::empty());
            assert(constant_operands(seq![byte]) =~= Seq::<u8>::empty());
        }
    }

    fn emit_ops(&mut self, first: OpCode, second: OpCode)
        requires
            old(self).inv(),
            first != OpCode::Constant,
            second != OpCode::Constant,
        ensures
            old(self).leads_to(final(self)),
            final(self).chunk@.code == old(self).chunk@.code.push(op_byte(first)).push(
                op_byte(second),
            ),
            final(self).chunk@.constants == old(self).chunk@.constants,
            final(self).parser == old(self).parser,
            opcodes(old(self).emitted(final(self))) == seq![first, second],
            old(self).counts(final(self)),
            old(self).capped(final(self)),
    {
        self.emit_op(first);
        let ghost mid = *self;
        self.emit_op(second);
        proof {
            lemma_chain(old(self), &mid, self);
            lemma_opcodes_append(old(self).emitted(&mid), mid.emitted(self), mid.n_constants());
            assert(seq![first] + seq![second] =~= seq![first, second]);
            lemma_counts_chain(old(self), &mid, self);
            lemma_capped_chain(old(self), &mid, self);
        }
    }

    /// Adds `value` to the constant pool and returns its index, or reports an
    /// error and returns 0 when the pool is full.
    fn make_constant(&mut self, value: Value, numeral: Option<String>) -> (r: u8)
        requires
            old(self).inv(),
            (value@ is Number) == (numeral is Some),
        ensures
            old(self).leads_to(final(self)),
            final(self).chunk@.code == old(self).chunk@.code,
            (r as int) < final(self).n_constants(),
            final(self).parser.scanner == old(self).parser.scanner,
            final(self).parser.current == old(self).parser.current,
            final(self).parser.previous == old(self).parser.previous,
            final(self).chunk@.lines == old(self).chunk@.lines,
            old(self).n_constants() < 256 ==> {
                &&& final(self).chunk@.constants == old(self).chunk@.constants.push(value@)
                &&& r == old(self).n_constants()
                &&& final(self).parser == old(self).parser
                &&& numeral matches Some(text) ==> final(self).chunk@.numerals == old(self).chunk@.numerals.push(Numeral { constant: r as usize, text })
            },
            old(self).n_constants() >= 256 ==> {
                &&& final(self).chunk@.constants == old(self).chunk@.constants
                &&& r == 0
                &&& final(self).parser.error is Some
                &&& old(self).parser.error is None ==> final(self).parser.error->0.message@
                    == "Too many constants in one chunk."@
            },
    {
        if self.chunk.constants().len() >= 256 {
            self.parser.error("Too many constants in one chunk.");
            assert(self.chunk@.code.subrange(0, self.chunk@.code.len() as int)
                =~= self.chunk@.code);
            return 0;
        }
        let ghost v = value@;
        let index = self.chunk.add_constant(value);
        assert(self.chunk@.constants.subrange(0, old(self).n_constants())
            =~= old(self).chunk@.constants);
        assert(self.chunk@.constants.drop_last() =~= old(self).chunk@.constants);
        if let Some(text) = numeral {
            self.chunk.add_numeral(index, text);
            assert(numeral_indices(self.chunk@.numerals) =~= numeral_indices(
                old(self).chunk@.numerals,
            ).push(index as int));
        }
        proof {
            lemma_well_formed_grow(
                old(self).chunk@.code,
                old(self).n_constants(),
                self.n_constants(),
            );
        }
        assert(self.chunk@.code.subrange(0, self.chunk@.code.len() as int) =~= self.chunk@.code);
        index as u8
    }

    /// Emits `Constant index`.
    fn emit_constant_index(&mut self, index: u8)
        requires
            old(self).inv(),
            (index as int) < old(self).n_constants(),
        ensures
            old(self).leads_to(final(self)),
            final(self).chunk@.code == old(self).chunk@.code.push(op_byte(OpCode::Constant)).push(
                index,
            ),
            final(self).chunk@.lines == old(self).chunk@.lines.push(
                old(self).parser.previous.line,
            ).push(old(self).parser.previous.line),
            final(self).chunk@.constants == old(self).chunk@.constants,
            final(self).parser == old(self).parser,
    {
        let opcode = OpCode::Constant.to_byte();
        let ghost code = self.chunk@.code;
        proof {
            let two = seq![opcode, index];
            assert(two.skip(2) =~= Seq::<u8>::empty());
            assert(well_formed(two.skip(2), self.n_constants()));
            assert(well_formed(two, self.n_constants()));
            lemma_well_formed_append(code, two, self.n_constants());
            assert(code + two =~= code.push(opcode).push(index));
        }
        self.chunk.write(opcode, self.parser.previous.line);
        self.chunk.write(index, self.parser.previous.line);
        assert(self.chunk@.code.subrange(0, code.len() as int) =~= code);
        assert(old(self).emitted(self) =~= seq![opcode, index]);
    }

    /// Adds `value` to the pool and emits an instruction that pushes it.
    fn emit_constant(&mut self, value: Value)
        requires
            old(self).inv(),
            !(value@ is Number),
        ensures
            old(self).leads_to(final(self)),
            old(self).emits_expression(final(self), 0),
            final(self).parser.scanner == old(self).parser.scanner,
            final(self).parser.current == old(self).parser.current,
            final(self).parser.previous == old(self).parser.previous,
            old(self).n_constants() < 256 ==> final(self).chunk@.constants
                == old(self).chunk@.constants.push(value@),
            old(self).emitted(final(self)).len() == 2,
            old(self).emitted(final(self))[0] == op_byte(OpCode::Constant),
            old(self).parser.error is None && old(self).n_constants() < 256 ==> final(self).parser.error is None,
            opcodes(old(self).emitted(final(self))) == seq![OpCode::Constant],
            old(self).counts(final(self)),
            old(self).capped(final(self)),
            old(self).parser.error is None ==> final(self).pool_error_only(),
    {
        let index = self.make_constant(value, None);
        self.emit_constant_index(index);
        proof {
            let e = old(self).emitted(final(self));
            assert(e =~= seq![op_byte(OpCode::Constant), index]);
            assert(e.skip(2) =~= Seq::<u8>::empty());
            assert(stack_effect(e.skip(2), final(self).n_constants(), 1) == Some(1int));
            assert(opcodes(e.skip(2)) =~= Seq::<OpCode>::empty());
            assert(opcodes(e) =~= seq![OpCode::Constant]);
            lemma_single_count(OpCode::Constant);
            assert(constant_operands(e.skip(2)) =~= Seq::<u8>::empty());
            assert(constant_operands(e) =~= seq![index]);
        }
    }

    fn end_compiler(&mut self)
        requires
            old(self).inv(),
        ensures
            old(self).leads_to(final(self)),
            final(self).chunk@.code == old(self).chunk@.code.push(op_byte(OpCode::Return)),
            final(self).chunk@.constants == old(self).chunk@.constants,
            final(self).chunk@.lines == old(self).chunk@.lines.push(old(self).parser.previous.line),
            final(self).parser == old(self).parser,
            old(self).capped(final(self)),
    {
        self.emit_op(OpCode::Return);
    }

    /// Compiles the number literal just consumed. Its value is left for the
    /// embedding program to convert: the constant is recorded among the
    /// chunk's numerals.
    fn number(&mut self)
        requires
            old(self).inv(),
            old(self).parser.previous.token_type == TokenType::Number,
        ensures
            old(self).leads_to(final(self)),
            old(self).emits_expression(final(self), 0),
            old(self).emits_prefix(final(self), TokenType::Number),
            old(self).counts(final(self)),
            old(self).capped(final(self)),
            old(self).adds_prefix_literals(final(self)),
            old(self).parser.error is None ==> final(self).pool_error_only(),
            old(self).parser.error is None && old(self).n_constants() < 256 ==> final(self).parser.error is None,
            final(self).parser.scanner == old(self).parser.scanner,
            final(self).parser.current == old(self).parser.current,
            final(self).parser.previous == old(self).parser.previous,
    {
        let text = self.parser.previous.slice.to_owned();
        let ghost before = *self;
        let index = self.make_constant(Value::Number(0), Some(text));
        self.emit_constant_index(index);
        proof {
            let e = before.emitted(self);
            assert(self.chunk@.code.subrange(0, before.chunk@.code.len() as int)
                =~= before.chunk@.code);
            assert(e =~= seq![op_byte(OpCode::Constant), index]);
            assert(e.skip(2) =~= Seq::<u8>::empty());
            assert(stack_effect(e.skip(2), self.n_constants(), 1) == Some(1int));
            assert(opcodes(e.skip(2)) =~= Seq::<OpCode>::empty());
            assert(opcodes(e) =~= seq![OpCode::Constant]);
            lemma_single_count(OpCode::Constant);
            assert(constant_operands(e.skip(2)) =~= Seq::<u8>::empty());
            assert(constant_operands(e) =~= seq![index]);
            if self.parser.error is None {
                assert(before.added(self) =~= seq![Val::Number(0)]);
                assert(before.parser.previous_literal() =~= seq![Val::Number(0)]);
            }
        }
    }

    /// Compiles the string literal just consumed.
    fn string(&mut self)
        requires
            old(self).inv(),
            old(self).parser.previous.token_type == TokenType::String,
        ensures
            old(self).leads_to(final(self)),
            old(self).emits_expression(final(self), 0),
            old(self).emits_prefix(final(self), TokenType::String),
            old(self).counts(final(self)),
            old(self).capped(final(self)),
            old(self).adds_prefix_literals(final(self)),
            old(self).parser.error is None ==> final(self).pool_error_only(),
            old(self).parser.error is None && old(self).n_constants() < 256 ==> final(self).parser.error is None,
            final(self).parser.scanner == old(self).parser.scanner,
            final(self).parser.current == old(self).parser.current,
            final(self).parser.previous == old(self).parser.previous,
    {
        let lexeme = self.parser.previous.slice;
        let value = Value::Obj(Obj::copy_string(lexeme));
        self.emit_constant(value);
        proof {
            if self.parser.error is None {
                assert(old(self).added(self) =~= seq![value@]);
            }
            let e = old(self).emitted(self);
            assert(opcodes(e.skip(2)) =~= Seq::<OpCode>::empty());
            assert(opcodes(e) =~= seq![OpCode::Constant]);
        }
    }

    /// Compiles the `false`, `nil` or `true` just consumed.
    fn literal(&mut self)
        requires
            old(self).inv(),
            old(self).parser.previous.token_type == TokenType::False
                || old(self).parser.previous.token_type == TokenType::Nil
                || old(self).parser.previous.token_type == TokenType::True,
        ensures
            old(self).leads_to(final(self)),
            old(self).emits_expression(final(self), 0),
            old(self).emits_prefix(final(self), old(self).parser.previous.token_type),
            final(self).parser == old(self).parser,
            old(self).counts(final(self)),
            old(self).capped(final(self)),
            old(self).adds_prefix_literals(final(self)),
    {
        let op = match self.parser.previous.token_type {
            TokenType::False => OpCode::False,
            TokenType::Nil => OpCode::Nil,
            _ => OpCode::True,
        };
        self.emit_op(op);
        proof {
            let e = old(self).emitted(final(self));
            assert(e =~= seq![op_byte(op)]);
            assert(e.skip(1) =~= Seq::<u8>::empty());
            assert(stack_effect(e.skip(1), self.n_constants(), 1) == Some(1int));
            assert(opcodes(e.skip(1)) =~= Seq::<OpCode>::empty());
            assert(opcodes(e) =~= seq![op]);
            assert(old(self).added(self) =~= Seq::<Val>::empty());
            assert(old(self).parser.previous_literal() =~= Seq::<Val>::empty());
        }
    }

    /// Compiles a parenthesised expression whose `(` was just consumed.
    fn grouping(&mut self)
        requires
            old(self).inv(),
            old(self).parser.previous.token_type == TokenType::LeftParen,
        ensures
            old(self).leads_to(final(self)),
            old(self).emits_expression(final(self), 0),
            old(self).emits_prefix(final(self), TokenType::LeftParen),
            old(self).counts(final(self)),
            old(self).capped(final(self)),
            old(self).adds_prefix_literals(final(self)),
            old(self).may_succeed(parse_prefix(TokenType::LeftParen, old(self).parser.toks()))
                ==> final(self).parser.error is None,
            old(self).may_parse(parse_prefix(TokenType::LeftParen, old(self).parser.toks()))
                ==> final(self).pool_error_only(),
            old(self).parser.error is None && old(self).parser.clean() && unclosed_group(
                old(self).parser.toks(),
                old(self).n_constants(),
            ) ==> paren_expected(old(self).parser.toks(), &final(self).parser),
        decreases old(self).parser.measure(), 2int,
    {
        self.expression();
        let ghost mid = *self;
        self.parser.consume(TokenType::RightParen, "Expect ')' after expression.");
        proof {
            assert(self.chunk@.code.subrange(0, mid.chunk@.code.len() as int) =~= mid.chunk@.code);
            lemma_chain(old(self), &mid, self);
            assert(mid.emitted(self) =~= Seq::<u8>::empty());
            assert(old(self).emitted(self) =~= old(self).emitted(&mid));
            if mid.parser.error is None {
                assert(mid.parser.toks()[0] == mid.parser.current.token_type);
                if mid.parser.current.token_type != TokenType::RightParen {
                    assert(self.parser.error->0.message@ == "Expect ')' after expression."@);
                }
            }
            assert(mid.added(self) =~= Seq::<Val>::empty());
            assert(old(self).parser.previous_literal() =~= Seq::<Val>::empty());
            if self.parser.error is None {
                assert(self.parser.previous_literal() =~= Seq::<Val>::empty());
            }
        }
    }

    /// Compiles a `-` or `!` just consumed and its operand.
    fn unary(&mut self)
        requires
            old(self).inv(),
            old(self).parser.previous.token_type == TokenType::Minus
                || old(self).parser.previous.token_type == TokenType::Bang,
        ensures
            old(self).leads_to(final(self)),
            old(self).emits_expression(final(self), 0),
            old(self).emits_prefix(final(self), old(self).parser.previous.token_type),
            old(self).counts(final(self)),
            old(self).capped(final(self)),
            old(self).may_succeed(
                parse_prefix(old(self).parser.previous.token_type, old(self).parser.toks()),
            ) ==> final(self).parser.error is None,
            old(self).may_parse(
                parse_prefix(old(self).parser.previous.token_type, old(self).parser.toks()),
            ) ==> final(self).pool_error_only(),
            old(self).adds_prefix_literals(final(self)),
        decreases old(self).parser.measure(), 1int,
    {
        let operator_type = self.parser.previous.token_type;
        self.parse_precedence(Precedence::Unary);
        let ghost mid = *self;
        let op = if operator_type == TokenType::Bang {
            OpCode::Not
        } else {
            OpCode::Negate
        };
        self.emit_op(op);
        proof {
            lemma_chain(old(self), &mid, self);
            let n = self.n_constants();
            let tail = mid.emitted(self);
            assert(tail =~= seq![op_byte(op)]);
            assert(tail.skip(1) =~= Seq::<u8>::empty());
            assert(stack_effect(tail.skip(1), n, 1) == Some(1int));
            if self.parser.error is None {
                lemma_effect_append(old(self).emitted(&mid), tail, n, 0);
            }
            lemma_opcodes_append(old(self).emitted(&mid), tail, mid.n_constants());
            assert(opcodes(old(self).emitted(self)) =~= opcodes(old(self).emitted(&mid)).push(op));
            lemma_counts_chain(old(self), &mid, self);
            lemma_capped_chain(old(self), &mid, self);
            lemma_single_count(op);
            lemma_constant_count_append(opcodes(old(self).emitted(&mid)), seq![op]);
            assert(opcodes(old(self).emitted(&mid)).push(op) =~= opcodes(old(self).emitted(&mid))
                + seq![op]);
            assert(mid.added(self) =~= Seq::<Val>::empty());
            assert(old(self).parser.previous_literal() =~= Seq::<Val>::empty());
            let parsed = parse_expression(old(self).parser.toks(), level(Precedence::Unary));
            if parsed is Some {
                let (code, rest) = parsed->0;
                lemma_constant_count_append(code, seq![op]);
                assert(code.push(op) =~= code + seq![op]);
            }
        }
    }

    /// Compiles the right operand of the infix operator just consumed, and
    /// the operator.
    #[verifier::rlimit(40)]
    fn binary(&mut self)
        requires
            old(self).inv(),
            level(infix_precedence(old(self).parser.previous.token_type)) >= 1,
        ensures
            old(self).leads_to(final(self)),
            old(self).emits_expression(final(self), 1),
            old(self).emits_infix(final(self), old(self).parser.previous.token_type),
            old(self).counts(final(self)),
            old(self).capped(final(self)),
            old(self).may_succeed(
                infix_result(old(self).parser.toks(), old(self).parser.previous.token_type),
            ) ==> final(self).parser.error is None,
            old(self).may_parse(
                infix_result(old(self).parser.toks(), old(self).parser.previous.token_type),
            ) ==> final(self).pool_error_only(),
            old(self).adds_prefix_literals(final(self)),
        decreases old(self).parser.measure(), 1int,
    {
        let operator_type = self.parser.previous.token_type;
        let rule = precedence_for(operator_type);
        self.parse_precedence(rule.incr());
        let ghost mid = *self;
        match operator_type {
            TokenType::BangEqual => self.emit_ops(OpCode::Equal, OpCode::Not),
            TokenType::EqualEqual => self.emit_op(OpCode::Equal),
            TokenType::Greater => self.emit_op(OpCode::Greater),
            TokenType::GreaterEqual => self.emit_ops(OpCode::Less, OpCode::Not),
            TokenType::Less => self.emit_op(OpCode::Less),
            TokenType::LessEqual => self.emit_ops(OpCode::Greater, OpCode::Not),
            TokenType::Plus => self.emit_op(OpCode::Add),
            TokenType::Minus => self.emit_op(OpCode::Subtract),
            TokenType::Star => self.emit_op(OpCode::Multiply),
            _ => self.emit_op(OpCode::Divide),
        }
        proof {
            lemma_chain(old(self), &mid, self);
            let n = self.n_constants();
            let tail = mid.emitted(self);
            if tail.len() == 1 {
                assert(tail.skip(1) =~= Seq::<u8>::empty());
                assert(stack_effect(tail.skip(1), n, 1) == Some(1int));
            } else {
                assert(tail.skip(1).skip(1) =~= Seq::<u8>::empty());
                assert(stack_effect(tail.skip(1).skip(1), n, 1) == Some(1int));
                assert(tail.skip(1)[0] == tail[1]);
                assert(stack_effect(tail.skip(1), n, 1) == Some(1int));
            }
            assert(stack_effect(tail, n, 2) == Some(1int));
            if tail.len() == 1 {
                assert(opcodes(tail.skip(1)) =~= Seq::<OpCode>::empty());
            } else {
                assert(opcodes(tail.skip(1).skip(1)) =~= Seq::<OpCode>::empty());
            }
            lemma_opcodes_append(old(self).emitted(&mid), tail, mid.n_constants());
            lemma_counts_chain(old(self), &mid, self);
            lemma_capped_chain(old(self), &mid, self);
            lemma_lowered_count(operator_type);
            assert(mid.added(self) =~= Seq::<Val>::empty());
            assert(old(self).parser.previous_literal() =~= Seq::<Val>::empty());
            let parsed = parse_expression(old(self).parser.toks(), level(rule) + 1);
            if parsed is Some {
                let (right, rest) = parsed->0;
                lemma_constant_count_append(right, lowered(operator_type));
            }
            if self.parser.error is None {
                let right = old(self).emitted(&mid);
                lemma_effect_shift(right, n, 0, 1);
                lemma_effect_append(right, tail, n, 1);
            }
        }
    }

    /// Compiles the prefix expression for the token just consumed.
    fn prefix_rule(&mut self, kind: TokenType)
        requires
            old(self).inv(),
            has_prefix(kind),
            kind == old(self).parser.previous.token_type,
        ensures
            old(self).leads_to(final(self)),
            old(self).emits_expression(final(self), 0),
            old(self).emits_prefix(final(self), kind),
            old(self).counts(final(self)),
            old(self).capped(final(self)),
            old(self).may_succeed(parse_prefix(kind, old(self).parser.toks())) ==> final(self).parser.error is None,
            old(self).may_parse(parse_prefix(kind, old(self).parser.toks())) ==> final(self).pool_error_only(),
            old(self).adds_prefix_literals(final(self)),
            kind == TokenType::LeftParen && old(self).parser.error is None
                && old(self).parser.clean() && unclosed_group(
                old(self).parser.toks(),
                old(self).n_constants(),
            ) ==> paren_expected(old(self).parser.toks(), &final(self).parser),
        decreases old(self).parser.measure(), 3int,
    {
        proof {
            lemma_single_count(OpCode::Constant);
        }
        match kind {
            TokenType::LeftParen => self.grouping(),
            TokenType::Minus | TokenType::Bang => self.unary(),
            TokenType::Number => self.number(),
            TokenType::String => self.string(),
            _ => self.literal(),
        }
    }

    fn expression(&mut self)
        requires
            old(self).inv(),
        ensures
            old(self).leads_to(final(self)),
            old(self).emits_expression(final(self), 0),
            old(self).emits_parse(final(self), 1),
            old(self).counts(final(self)),
            old(self).capped(final(self)),
            old(self).may_succeed(parse_expression(old(self).parser.toks(), 1)) ==> final(self).parser.error is None,
            old(self).may_parse(parse_expression(old(self).parser.toks(), 1)) ==> final(self).pool_error_only(),
            old(self).adds_literals(final(self)),
            old(self).parser.error is None && old(self).parser.clean() && !has_prefix(
                old(self).parser.current.token_type,
            ) ==> old(self).parser.expect_expression_at_current(&final(self).parser),
            old(self).parser.error is None && old(self).parser.clean()
                && old(self).parser.current.token_type == TokenType::LeftParen && unclosed_group(
                old(self).parser.toks().skip(1),
                old(self).n_constants(),
            ) ==> paren_expected(old(self).parser.toks().skip(1), &final(self).parser),
        decreases old(self).parser.measure(), 1int,
    {
        self.parse_precedence(Precedence::Assignment);
    }

    /// Compiles an expression whose operators bind at least as tightly as
    /// `precedence`.
    #[verifier::rlimit(40)]
    fn parse_precedence(&mut self, precedence: Precedence)
        requires
            old(self).inv(),
            level(precedence) >= 1,
        ensures
            old(self).leads_to(final(self)),
            old(self).emits_expression(final(self), 0),
            old(self).emits_parse(final(self), level(precedence)),
            old(self).counts(final(self)),
            old(self).capped(final(self)),
            old(self).may_succeed(parse_expression(old(self).parser.toks(), level(precedence)))
                ==> final(self).parser.error is None,
            old(self).may_parse(parse_expression(old(self).parser.toks(), level(precedence)))
                ==> final(self).pool_error_only(),
            old(self).adds_literals(final(self)),
            old(self).parser.error is None && old(self).parser.clean() && !has_prefix(
                old(self).parser.current.token_type,
            ) ==> old(self).parser.expect_expression_at_current(&final(self).parser),
            old(self).parser.error is None && old(self).parser.clean()
                && old(self).parser.current.token_type == TokenType::LeftParen && unclosed_group(
                old(self).parser.toks().skip(1),
                old(self).n_constants(),
            ) ==> paren_expected(old(self).parser.toks().skip(1), &final(self).parser),
        decreases old(self).parser.measure(), 0int,
    {
        self.parser.advance();
        let kind = self.parser.previous.token_type;
        if !prefix_exists(kind) {
            let ghost advanced = self.parser;
            self.parser.error("Expect expression.");
            proof {
                if old(self).parser.error is None && old(self).parser.clean() {
                    assert(advanced.error is None);
                    assert(advanced.previous == old(self).parser.current);
                    assert(self.parser.error->0.line == old(self).parser.current.line);
                    assert(self.parser.error->0.site == site_of(old(self).parser.current));
                    assert(self.parser.error->0.message@ == "Expect expression."@);
                }
            }
            assert(self.chunk@.code.subrange(0, self.chunk@.code.len() as int)
                =~= self.chunk@.code);
            return;
        }
        assert(self.chunk@.code.subrange(0, self.chunk@.code.len() as int) =~= self.chunk@.code);
        let ghost entered = *self;
        self.prefix_rule(kind);
        proof {
            lemma_chain(old(self), &entered, self);
            assert(old(self).emitted(&entered) =~= Seq::<u8>::empty());
            assert(old(self).emitted(self) =~= entered.emitted(self));
            assert(old(self).added(&entered) =~= Seq::<Val>::empty());
            let target = parse_expression(old(self).parser.toks(), level(precedence));
            let prefix = parse_prefix(kind, entered.parser.toks());
            if target is Some {
                assert(old(self).parser.toks()[0] == kind);
                assert(entered.parser.toks() == old(self).parser.toks().skip(1));
                let (code, rest) = prefix->0;
                lemma_infix_count(rest, level(precedence), code);
            }
        }
        loop
            invariant
                old(self).leads_to(self),
                old(self).emits_expression(self, 0),
                self.parser.error is None ==> parse_infix(
                    self.parser.toks(),
                    level(precedence),
                    opcodes(old(self).emitted(self)),
                ) == parse_expression(old(self).parser.toks(), level(precedence)),
                self.parser.toks().len() < old(self).parser.toks().len(),
                old(self).counts(self),
                old(self).capped(self),
                old(self).may_succeed(parse_expression(old(self).parser.toks(), level(precedence)))
                    ==> self.parser.error is None,
                old(self).may_parse(parse_expression(old(self).parser.toks(), level(precedence)))
                    ==> self.pool_error_only(),
                old(self).adds_literals(self),
                self.parser.measure() < old(self).parser.measure(),
                level(precedence) >= 1,
                has_prefix(old(self).parser.current.token_type),
                old(self).parser.error is None && old(self).parser.clean()
                    && old(self).parser.current.token_type == TokenType::LeftParen
                    && unclosed_group(old(self).parser.toks().skip(1), old(self).n_constants())
                    ==> paren_expected(old(self).parser.toks().skip(1), &self.parser),
            decreases self.parser.measure(),
        {
            let next = precedence_for(self.parser.current.token_type);
            if next.level() < precedence.level() {
                assert(self.parser.toks()[0] == self.parser.current.token_type);
                return;
            }
            let ghost before = *self;
            self.parser.advance();
            assert(self.chunk@.code.subrange(0, self.chunk@.code.len() as int)
                =~= self.chunk@.code);
            let ghost operator = *self;
            proof {
                let ts = before.parser.toks();
                let op = before.parser.current.token_type;
                let acc = opcodes(old(self).emitted(&before));
                assert(ts[0] == op);
                let parsed = parse_expression(ts.skip(1), level(infix_precedence(op)) + 1);
                if parsed is Some {
                    let (r, rest) = parsed->0;
                    if rest.len() < ts.len() {
                        let next = acc + r + lowered(op);
                        assert(parse_infix(ts, level(precedence), acc) == parse_infix(
                            rest,
                            level(precedence),
                            next,
                        ));
                        if parse_infix(rest, level(precedence), next) is Some {
                            lemma_infix_count(rest, level(precedence), next);
                        }
                        lemma_constant_count_append(acc + r, lowered(op));
                        lemma_constant_count_append(acc, r);
                        lemma_constant_count_append(r, lowered(op));
                        lemma_constant_count_append(acc, r + lowered(op));
                        assert(acc + r + lowered(op) =~= acc + (r + lowered(op)));
                    }
                }
            }
            self.binary();
            proof {
                lemma_counts_chain(&before, &operator, self);
                lemma_counts_chain(old(self), &before, self);
                lemma_capped_still(&before, &operator);
                lemma_capped_chain(&before, &operator, self);
                lemma_capped_chain(old(self), &before, self);
                assert(before.added(&operator) =~= Seq::<Val>::empty());
                assert(operator.parser.previous_literal() =~= Seq::<Val>::empty());
                if self.parser.error is None {
                    assert(before.parser.error is None);
                    assert(before.parser.current.token_type != TokenType::EOF);
                    assert(before.parser.lits() == operator.parser.previous_literal()
                        + operator.parser.lits());
                    assert(operator.parser.lits() == operator.added(self) + self.parser.lits());
                    assert(before.added(self) =~= operator.added(self));
                    assert(old(self).parser.lits() == old(self).added(&before)
                        + before.parser.lits());
                    assert(old(self).parser.lits() =~= old(self).added(&before) + (before.added(
                        self,
                    ) + self.parser.lits()));
                }
                lemma_chain(&before, &operator, self);
                lemma_chain(old(self), &before, self);
                assert(before.emitted(&operator) =~= Seq::<u8>::empty());
                assert(before.emitted(self) =~= operator.emitted(self));
                if self.parser.error is None {
                    let left = old(self).emitted(&before);
                    let right = before.emitted(self);
                    lemma_effect_grow(left, before.n_constants(), self.n_constants(), 0);
                    lemma_effect_append(left, right, self.n_constants(), 0);
                    lemma_well_formed_grow(left, before.n_constants(), self.n_constants());
                    lemma_opcodes_append(left, right, self.n_constants());
                    let ts = before.parser.toks();
                    let op = before.parser.current.token_type;
                    assert(ts[0] == op);
                    assert(operator.parser.toks() == ts.skip(1));
                    let lv = level(infix_precedence(op)) + 1;
                    let parsed = parse_expression(ts.skip(1), lv);
                    assert(parsed is Some);
                    let (r, rest) = parsed->0;
                    assert(opcodes(operator.emitted(self)) == r + lowered(op));
                    assert(self.parser.toks() == rest);
                    assert(rest.len() < ts.len());
                    assert(parse_infix(ts, level(precedence), opcodes(left)) == parse_infix(
                        rest,
                        level(precedence),
                        opcodes(left) + r + lowered(op),
                    ));
                    assert(opcodes(old(self).emitted(self)) =~= opcodes(left) + r + lowered(op));
                    assert(old(self).parser.lits() =~= old(self).added(self) + self.parser.lits());
                }
            }
        }
    }
}

proof fn lemma_chain<'a>(a: &Compiler<'a>, b: &Compiler<'a>, c: &Compiler<'a>)
    requires
        a.leads_to(b),
        b.leads_to(c),
    ensures
        a.leads_to(c),
        a.emitted(c) == a.emitted(b) + b.emitted(c),
        a.added(c) == a.added(b) + b.added(c),
{
    let la = a.chunk@.code.len() as int;
    let lb = b.chunk@.code.len() as int;
    assert(c.chunk@.code.subrange(0, la) =~= b.chunk@.code.subrange(0, la));
    assert(a.emitted(c) =~= a.emitted(b) + b.emitted(c));
    let na = a.n_constants();
    assert(c.chunk@.constants.subrange(0, na) =~= b.chunk@.constants.subrange(0, na));
    assert(a.added(c) =~= a.added(b) + b.added(c));
    lemma_well_formed_grow(a.emitted(b), b.n_constants(), c.n_constants());
    lemma_well_formed_append(a.emitted(b), b.emitted(c), c.n_constants());
}

spec fn parser_is_clean(c: &Compiler) -> bool {
    c.parser.error is None
}

proof fn lemma_capped_chain<'a>(a: &Compiler<'a>, b: &Compiler<'a>, c: &Compiler<'a>)
    requires
        a.leads_to(b),
        b.leads_to(c),
        a.capped(b),
        b.capped(c),
        a.n_constants() <= 256,
    ensures
        a.capped(c),
{
    lemma_chain(a, b, c);
    lemma_well_formed_grow(a.emitted(b), b.n_constants(), c.n_constants());
    lemma_opcodes_append(a.emitted(b), b.emitted(c), c.n_constants());
    lemma_constant_count_append(opcodes(a.emitted(b)), opcodes(b.emitted(c)));
    lemma_constant_operands_append(a.emitted(b), b.emitted(c), c.n_constants());
    lemma_operand_count(a.emitted(b), b.n_constants());
    let first = constant_operands(a.emitted(b));
    let second = constant_operands(b.emitted(c));
    assert forall|i: int| 0 <= i < (first + second).len() implies #[trigger] (first + second)[i]
        == pool_index(a.n_constants() + i) by {
        if i >= first.len() {
            assert((first + second)[i] == second[i - first.len()]);
        }
    }
}

/// A step that emits nothing and adds no constant keeps the count.
proof fn lemma_capped_still<'a>(a: &Compiler<'a>, b: &Compiler<'a>)
    requires
        a.leads_to(b),
        a.chunk@.code.len() == b.chunk@.code.len(),
        a.n_constants() == b.n_constants(),
    ensures
        a.capped(b),
{
    assert(a.emitted(b) =~= Seq::<u8>::empty());
    assert(opcodes(a.emitted(b)) =~= Seq::<OpCode>::empty());
    assert(constant_operands(a.emitted(b)) =~= Seq::<u8>::empty());
}

proof fn lemma_counts_chain<'a>(a: &Compiler<'a>, b: &Compiler<'a>, c: &Compiler<'a>)
    requires
        a.leads_to(b),
        b.leads_to(c),
        a.counts(b),
        b.counts(c),
    ensures
        a.counts(c),
{
    lemma_chain(a, b, c);
    if c.parser.error is None {
        lemma_well_formed_grow(a.emitted(b), b.n_constants(), c.n_constants());
        lemma_opcodes_append(a.emitted(b), b.emitted(c), c.n_constants());
        lemma_constant_count_append(opcodes(a.emitted(b)), opcodes(b.emitted(c)));
        lemma_constant_operands_append(a.emitted(b), b.emitted(c), c.n_constants());
        lemma_operand_count(a.emitted(b), b.n_constants());
        let first = constant_operands(a.emitted(b));
        let second = constant_operands(b.emitted(c));
        assert forall|i: int| 0 <= i < (first + second).len() implies (first + second)[i]
            == a.n_constants() + i by {
            if i >= first.len() {
                assert((first + second)[i] == second[i - first.len()]);
            }
        }
    }
}

/// The line the text `s` ends on.
pub open spec fn last_line(s: Seq<u8>) -> nat {
    1 + newlines_before(s, s.len() as int)
}

/// Whether `ts`, the tokens after a `(`, start with an expression whose
/// constants fit beside `n` others, and no `)` follows it.
pub open spec fn unclosed_group(ts: Seq<TokenType>, n: int) -> bool {
    match parse_expression(ts, level(Precedence::Assignment)) {
        Some((code, rest)) => rest[0] != TokenType::RightParen && n + constant_count(code) <= 256,
        None => false,
    }
}

/// The first error of `parser` is a missing `)` after the expression at the
/// front of `ts`, reported at the end when the input ends there.
spec fn paren_expected<'a>(ts: Seq<TokenType>, parser: &Parser<'a>) -> bool {
    match parse_expression(ts, level(Precedence::Assignment)) {
        Some((code, rest)) => parser.error matches Some(d) && d.message@
            == "Expect ')' after expression."@ && (rest[0] == TokenType::EOF ==> d.site
            == ErrorSite::AtEnd),
        None => false,
    }
}

/// Whether the text `s` opens with `(`, then an expression whose constants
/// fit in one chunk and that no `)` follows.
pub open spec fn opens_unclosed_group(s: Seq<u8>) -> bool {
    &&& !has_error_token(s, 0)
    &&& token_kinds(s)[0] == TokenType::LeftParen
    &&& unclosed_group(token_kinds(s).skip(1), 0)
}

/// Whether the expression after the opening `(` of the text `s` runs to the
/// end of the input.
pub open spec fn group_reaches_end(s: Seq<u8>) -> bool {
    match parse_expression(token_kinds(s).skip(1), level(Precedence::Assignment)) {
        Some((code, rest)) => rest[0] == TokenType::EOF,
        None => false,
    }
}

/// Whether `lines` run from line 1 up, never down, to at most `last`.
pub open spec fn lines_ordered(lines: Seq<u32>, last: int) -> bool {
    &&& forall|i: int| 0 <= i < lines.len() ==> 1 <= #[trigger] lines[i] <= last
    &&& forall|i: int, j: int| 0 <= i <= j < lines.len() ==> #[trigger] lines[i] <= #[trigger] lines[j]
}

/// Whether the text `s` is one expression followed by the end, which compiles
/// to `ops`: the expression's opcodes, then `Return`.
pub open spec fn compiles_to(s: Seq<u8>, ops: Seq<OpCode>) -> bool {
    match parse_expression(token_kinds(s), 1) {
        Some((code, rest)) => rest == seq![TokenType::EOF] && ops == code.push(OpCode::Return),
        None => false,
    }
}

/// Whether compiling the text `s` succeeds: no token is malformed, the
/// tokens form one expression followed by the end, and its constants fit in
/// one chunk.
pub open spec fn accepts(s: Seq<u8>) -> bool {
    &&& !has_error_token(s, 0)
    &&& parse_expression(token_kinds(s), 1) matches Some((code, rest)) && rest == seq![
        TokenType::EOF,
    ] && constant_count(code) <= 256
}

/// Whether the first token of the text `s` is well formed and cannot begin
/// an expression (`)`, an operator other than `-` and `!`, the end, ...).
pub open spec fn starts_without_expression(s: Seq<u8>) -> bool {
    !has_error_token(s, 0) && !has_prefix(next_kind(s, 0))
}

/// Whether diagnostic `d` points at the first token of the text with bytes
/// `s` and characters `chars`: its line, and either the end or its lexeme.
pub open spec fn at_first_token(s: Seq<u8>, chars: Seq<char>, d: Diagnostic) -> bool {
    &&& d.line == 1 + newlines_before(s, next_pos(s, 0))
    &&& next_kind(s, 0) == TokenType::EOF ==> d.site == ErrorSite::AtEnd
    &&& next_kind(s, 0) != TokenType::EOF ==> (d.site matches ErrorSite::At(x) && x@
        == chars.subrange(trivia_end(s, 0), next_pos(s, 0)))
}

/// Whether the text `s` is well formed but needs more constants than one
/// chunk holds.
pub open spec fn overflows_pool(s: Seq<u8>) -> bool {
    &&& !has_error_token(s, 0)
    &&& parse_expression(token_kinds(s), 1) matches Some((code, rest)) && rest == seq![
        TokenType::EOF,
    ] && constant_count(code) > 256
}

/// Compiles `source`, an expression in ASCII text shorter than `u32::MAX`
/// bytes, into `chunk`, replacing what it held.
/// Succeeds when no error was met; otherwise returns the first error. Either
/// way the chunk is well formed and ends with `Return`; after a success the
/// machine can run it from the start with an empty stack.
pub fn compile<'a>(source: &'a str, chunk: &mut Chunk) -> (r: Result<(), Diagnostic<'a>>)
    requires
        source.is_ascii(),
        source.len() < u32::MAX,
    ensures
        final(chunk).wf(),
        final(chunk)@.code.len() >= 1,
        final(chunk)@.code.last() == op_byte(OpCode::Return),
        final(chunk).numerals_match(),
        forall|i: int|
            0 <= i < constant_operands(final(chunk)@.code).len() ==> #[trigger] constant_operands(
                final(chunk)@.code,
            )[i] == pool_index(i),
        lines_ordered(final(chunk)@.lines, last_line(source.spec_bytes()) as int),
        r is Ok ==> final(chunk)@.lines.last() == last_line(source.spec_bytes()),
        r is Ok ==> runnable(final(chunk)@.code, final(chunk)@.constants.len() as int, 0, 0),
        r is Ok ==> compiles_to(source.spec_bytes(), opcodes(final(chunk)@.code)),
        r is Ok <==> accepts(source.spec_bytes()),
        r is Ok ==> final(chunk)@.constants == source_literals(source.spec_bytes()),
        r is Ok ==> numbered_from(constant_operands(final(chunk)@.code), 0)
            && constant_operands(final(chunk)@.code).len() == final(chunk)@.constants.len(),
        starts_without_expression(source.spec_bytes()) ==> (r matches Err(d) && d.message@
            == "Expect expression."@ && at_first_token(source.spec_bytes(), source@, d)),
        opens_unclosed_group(source.spec_bytes()) ==> (r matches Err(d) && d.message@
            == "Expect ')' after expression."@ && (group_reaches_end(source.spec_bytes())
            ==> d.site == ErrorSite::AtEnd)),
        overflows_pool(source.spec_bytes()) ==> (r matches Err(d) && d.message@
            == "Too many constants in one chunk."@),
{
    let scanner = Scanner::new(source);
    let parser = Parser::new(scanner);
    let mut compiler = Compiler { parser, chunk: Chunk::new() };
    proof {
        assert(well_formed(compiler.chunk@.code, 0));
    }
    proof {
        assert(compiler.parser.toks().skip(1) =~= token_kinds(source.spec_bytes()));
        assert(compiler.parser.lits() =~= source_literals(source.spec_bytes()));
    }
    compiler.parser.advance();
    let ghost start = compiler;
    compiler.expression();
    let ghost parsed = compiler;
    compiler.parser.consume(TokenType::EOF, "Expect end of expression");
    assert(compiler.chunk@.code.subrange(0, compiler.chunk@.code.len() as int)
        =~= compiler.chunk@.code);
    let ghost consumed = compiler;
    compiler.end_compiler();
    proof {
        lemma_capped_still(&parsed, &consumed);
        lemma_capped_chain(&start, &parsed, &consumed);
        lemma_capped_chain(&start, &consumed, &compiler);
        assert(compiler.chunk@.code.subrange(0, 0) =~= Seq::<u8>::empty());
        assert(start.emitted(&compiler) =~= compiler.chunk@.code);
    }
    proof {
        lemma_chain(&start, &parsed, &consumed);
        let code = compiler.chunk@.code;
        assert(start.chunk@.code.len() == 0);
        assert(code.subrange(0, code.len() - 1) =~= start.emitted(&consumed));
        assert(parsed.emitted(&consumed) =~= Seq::<u8>::empty());
        assert(start.emitted(&consumed) =~= start.emitted(&parsed));
        assert(compiler.n_constants() == parsed.n_constants());
        let tail = consumed.emitted(&compiler);
        assert(tail =~= seq![op_byte(OpCode::Return)]);
        assert(code =~= start.emitted(&consumed) + tail);
        lemma_opcodes_append(start.emitted(&consumed), tail, compiler.n_constants());
        assert(opcodes(tail.skip(1)) =~= Seq::<OpCode>::empty());
        assert(opcodes(tail) =~= seq![OpCode::Return]);
        let ts = token_kinds(source.spec_bytes());
        assert(start.parser.toks() == ts);
        lemma_newlines_monotone(
            source.spec_bytes(),
            consumed.parser.scanner.pos(),
            source.spec_bytes().len() as int,
        );
        assert(compiler.chunk@.lines.last() == consumed.parser.previous.line);
        if starts_without_expression(source.spec_bytes()) {
            let s = source.spec_bytes();
            lemma_next_pos(s, 0);
            assert(next_kind(s, 0) != TokenType::Error);
            assert(good_start(s, 0) == 0);
            assert(start.parser.clean());
            assert(start.parser.error is None);
            assert(consumed.parser.error == parsed.parser.error);
        }
        if opens_unclosed_group(source.spec_bytes()) {
            assert(start.parser.clean());
            assert(start.parser.toks()[0] == start.parser.current.token_type);
            assert(parsed.parser.error is Some);
            assert(consumed.parser.error == parsed.parser.error);
        }
        if overflows_pool(source.spec_bytes()) {
            assert(start.may_parse(parse_expression(ts, 1)));
            assert(parsed.pool_error_only());
            if parsed.parser.error is None {
                assert(parsed.parser.toks()[0] == parsed.parser.current.token_type);
            }
            assert(consumed.pool_error_only());
        }
        if accepts(source.spec_bytes()) {
            assert(start.may_succeed(parse_expression(ts, 1)));
            assert(parsed.parser.error is None);
            assert(parsed.parser.toks()[0] == parsed.parser.current.token_type);
            assert(consumed.parser.error is None);
        }
        if parser_is_clean(&compiler) {
            assert(parsed.parser.error is None);
            assert(consumed.parser.scanner.pos() == consumed.parser.scanner.bytes().len());
            assert(consumed.parser.clean());
            assert(start.parser.clean());
            assert(parsed.parser.current.token_type == TokenType::EOF);
            assert(parsed.parser.toks() =~= seq![TokenType::EOF]);
            assert(start.parser.toks() == token_kinds(source.spec_bytes()));
            let ops = opcodes(start.emitted(&parsed));
            assert(parse_expression(token_kinds(source.spec_bytes()), 1) == Some(
                (ops, seq![TokenType::EOF]),
            ));
            assert(opcodes(code) =~= ops.push(OpCode::Return));
            assert(start.parser.previous_literal() =~= Seq::<Val>::empty());
            assert(start.parser.lits() == source_literals(source.spec_bytes()));
            assert(parsed.parser.lits() =~= Seq::<Val>::empty());
            assert(start.added(&parsed) =~= parsed.chunk@.constants);
            assert(compiler.chunk@.constants == parsed.chunk@.constants);
            lemma_constant_operands_append(
                start.emitted(&consumed),
                tail,
                compiler.n_constants(),
            );
            assert(constant_operands(tail.skip(1)) =~= Seq::<u8>::empty());
            assert(constant_operands(tail) =~= Seq::<u8>::empty());
            assert(constant_operands(code) =~= constant_operands(start.emitted(&parsed)));
            lemma_operand_count(start.emitted(&parsed), parsed.n_constants());
        }
    }
    let Compiler { parser, chunk: compiled } = compiler;
    *chunk = compiled;
    match parser.error {
        None => Ok(()),
        Some(diagnostic) => Err(diagnostic),
    }
}

} // verus!
