//! Reads assembly text into statements.
//!
//! The text is a sequence of tokens separated by optional whitespace:
//! words (a letter or `_`, then letters, digits and `_`), decimal numbers,
//! `:` and `,`. A statement is either a label, a word that is no mnemonic
//! followed by `:`, or a mnemonic followed by its operands: a number for
//! `const`, `make_frame`, `get_local` and `set_local`; a label name for the
//! jumps; `number, number` for `call` and `alloc`. Line breaks carry no
//! meaning. Positions in errors count characters from the start of the text.
use crate::assembler::assemble::{instr_op, instr_opcode, law_instr_opcodes};
use crate::assembler::disassemble::law_mnemonic_names;
use crate::opcode::op_name;
use crate::assembler::ast::{Instr, Stmt};
use crate::assembler::disassemble::mnemonic;
use vstd::prelude::*;

verus! {

/// Why assembly text could not be read.
#[derive(Debug, Clone, Copy, PartialEq, Eq, Structural)]
pub enum SyntaxError {
    /// A character that starts no token, at this position.
    InvalidToken(usize),
    /// A token that cannot stand where it stands, at this position.
    UnexpectedToken(usize),
    /// The text ends inside a statement.
    UnexpectedEof,
    /// A number too large for its operand, at this position.
    NumberOutOfRange(usize),
}

/// A token of assembly text.
pub enum Token {
    Word(Seq<char>),
    /// A run of decimal digits, by its value.
    Number(nat),
    Colon,
    Comma,
}

pub open spec fn is_space(c: char) -> bool {
    c == ' ' || c == '\t' || c == '\n' || c == '\r' || c == '\x0C'
}

pub open spec fn is_digit(c: char) -> bool {
    '0' <= c && c <= '9'
}

pub open spec fn is_word_start(c: char) -> bool {
    ('a' <= c && c <= 'z') || ('A' <= c && c <= 'Z') || c == '_'
}

pub open spec fn is_word_char(c: char) -> bool {
    is_word_start(c) || is_digit(c)
}

pub open spec fn digit_value(c: char) -> nat {
    (c as int - '0' as int) as nat
}

/// The value of a run of decimal digits.
pub open spec fn digits_value(d: Seq<char>) -> nat
    decreases d.len(),
{
    if d.len() == 0 {
        0
    } else {
        digits_value(d.drop_last()) * 10 + digit_value(d.last())
    }
}

/// Where the run of word characters from `i` ends.
pub open spec fn word_end(s: Seq<char>, i: int) -> int
    decreases s.len() - i,
{
    if 0 <= i < s.len() && is_word_char(s[i]) {
        word_end(s, i + 1)
    } else {
        i
    }
}

/// Where the run of digits from `i` ends.
pub open spec fn digits_end(s: Seq<char>, i: int) -> int
    decreases s.len() - i,
{
    if 0 <= i < s.len() && is_digit(s[i]) {
        digits_end(s, i + 1)
    } else {
        i
    }
}

pub proof fn lemma_word_end(s: Seq<char>, i: int)
    requires
        0 <= i <= s.len(),
    ensures
        i <= word_end(s, i) <= s.len(),
    decreases s.len() - i,
{
    if i < s.len() && is_word_char(s[i]) {
        lemma_word_end(s, i + 1);
    }
}

pub proof fn lemma_digits_end(s: Seq<char>, i: int)
    requires
        0 <= i <= s.len(),
    ensures
        i <= digits_end(s, i) <= s.len(),
    decreases s.len() - i,
{
    if i < s.len() && is_digit(s[i]) {
        lemma_digits_end(s, i + 1);
    }
}

/// `t` in front of the tokens of `rest`, or the error of `rest`.
pub open spec fn cons_token(
    t: (Token, int),
    rest: Result<Seq<(Token, int)>, SyntaxError>,
) -> Result<Seq<(Token, int)>, SyntaxError> {
    match rest {
        Ok(l) => Ok(seq![t] + l),
        Err(e) => Err(e),
    }
}

/// The tokens of `s` from position `i` on, each with the position where it
/// starts, or the first character that starts no token.
pub open spec fn lex_from(s: Seq<char>, i: int) -> Result<Seq<(Token, int)>, SyntaxError>
    decreases s.len() - i,
{
    if i < 0 || i >= s.len() {
        Ok(Seq::empty())
    } else {
        let c = s[i];
        if is_space(c) {
            lex_from(s, i + 1)
        } else if c == ':' {
            cons_token((Token::Colon, i), lex_from(s, i + 1))
        } else if c == ',' {
            cons_token((Token::Comma, i), lex_from(s, i + 1))
        } else if is_word_start(c) {
            let e = word_end(s, i + 1);
            proof {
                lemma_word_end(s, i + 1);
            }
            cons_token((Token::Word(s.subrange(i, e)), i), lex_from(s, e))
        } else if is_digit(c) {
            let e = digits_end(s, i + 1);
            proof {
                lemma_digits_end(s, i + 1);
            }
            cons_token((Token::Number(digits_value(s.subrange(i, e))), i), lex_from(s, e))
        } else {
            Err(SyntaxError::InvalidToken(i as usize))
        }
    }
}

/// What the grammar expects after a mnemonic, one token at a time.
pub enum Slot {
    /// A number no larger than this.
    Number(nat),
    /// A label name: a word that is no mnemonic.
    Target,
    Comma,
}

/// The operands each opcode's mnemonic takes.
pub open spec fn slots(op: u8) -> Seq<Slot> {
    if op == 0x01 || op == 0x14 || op == 0x15 || op == 0x16 {
        seq![Slot::Number(0xFF)]
    } else if op == 0x0F || op == 0x10 || op == 0x11 {
        seq![Slot::Target]
    } else if op == 0x17 {
        seq![Slot::Number(0xFFFF_FFFF), Slot::Comma, Slot::Number(0xFF)]
    } else if op == 0x1A {
        seq![Slot::Number(0xFFFF), Slot::Comma, Slot::Number(0xFF)]
    } else {
        seq![]
    }
}

/// The opcode, from `op` up, whose mnemonic is `w`.
pub open spec fn keyword_from(w: Seq<char>, op: int) -> Option<u8>
    decreases 0x1F - op,
{
    if op < 0 || op > 0x1E {
        None
    } else if mnemonic(op as u8) == w {
        Some(op as u8)
    } else {
        keyword_from(w, op + 1)
    }
}

/// The opcode whose mnemonic is `w`, if `w` is a mnemonic.
pub open spec fn keyword(w: Seq<char>) -> Option<u8> {
    keyword_from(w, 0)
}

/// The token at index `k` if it fills `slot`.
pub open spec fn slot_at(ts: Seq<(Token, int)>, k: int, slot: Slot) -> Result<Token, SyntaxError> {
    if k < 0 || k >= ts.len() {
        Err(SyntaxError::UnexpectedEof)
    } else {
        let (t, pos) = ts[k];
        match (slot, t) {
            (Slot::Number(max), Token::Number(x)) => if x <= max {
                Ok(t)
            } else {
                Err(SyntaxError::NumberOutOfRange(pos as usize))
            },
            (Slot::Target, Token::Word(l)) => if keyword(l) is None {
                Ok(t)
            } else {
                Err(SyntaxError::UnexpectedToken(pos as usize))
            },
            (Slot::Comma, Token::Comma) => Ok(t),
            _ => Err(SyntaxError::UnexpectedToken(pos as usize)),
        }
    }
}

/// The tokens from index `k` that fill `sl`, or the first that does not.
pub open spec fn operands_at(ts: Seq<(Token, int)>, k: int, sl: Seq<Slot>) -> Result<
    Seq<Token>,
    SyntaxError,
>
    decreases sl.len(),
{
    if sl.len() == 0 {
        Ok(Seq::empty())
    } else {
        match slot_at(ts, k, sl[0]) {
            Err(e) => Err(e),
            Ok(t) => match operands_at(ts, k + 1, sl.drop_first()) {
                Ok(rest) => Ok(seq![t] + rest),
                Err(e) => Err(e),
            },
        }
    }
}

/// The tokens of the statement that starts at token `k`, and the index of
/// the token after it.
pub open spec fn stmt_at(ts: Seq<(Token, int)>, k: int) -> Result<(Seq<Token>, int), SyntaxError> {
    let (t, pos) = ts[k];
    match t {
        Token::Word(w) => match keyword(w) {
            Some(op) => match operands_at(ts, k + 1, slots(op)) {
                Ok(rest) => Ok((seq![t] + rest, k + 1 + slots(op).len())),
                Err(e) => Err(e),
            },
            None => if k + 1 >= ts.len() {
                Err(SyntaxError::UnexpectedEof)
            } else if ts[k + 1].0 is Colon {
                Ok((seq![t, Token::Colon], k + 2))
            } else {
                Err(SyntaxError::UnexpectedToken(ts[k + 1].1 as usize))
            },
        },
        _ => Err(SyntaxError::UnexpectedToken(pos as usize)),
    }
}

/// The statements from token `k` on, each as its tokens, or the first error.
pub open spec fn stmts_from(ts: Seq<(Token, int)>, k: int) -> Result<Seq<Seq<Token>>, SyntaxError>
    decreases ts.len() - k,
{
    if k < 0 || k >= ts.len() {
        Ok(Seq::empty())
    } else {
        match stmt_at(ts, k) {
            Err(e) => Err(e),
            // `next` always lies past `k` and at most at the end.
            Ok((g, next)) => if k < next <= ts.len() {
                match stmts_from(ts, next) {
                    Ok(rest) => Ok(seq![g] + rest),
                    Err(e) => Err(e),
                }
            } else {
                Ok(seq![g])
            },
        }
    }
}

/// The statements of assembly text, each as its tokens, or the first error.
pub open spec fn program_tokens(s: Seq<char>) -> Result<Seq<Seq<Token>>, SyntaxError> {
    match lex_from(s, 0) {
        Ok(ts) => stmts_from(ts, 0),
        Err(e) => Err(e),
    }
}

/// The tokens that spell a statement.
pub open spec fn stmt_tokens(st: Stmt) -> Seq<Token> {
    match st {
        Stmt::Label(n) => seq![Token::Word(n@), Token::Colon],
        Stmt::Instr(i) => seq![Token::Word(mnemonic(instr_op(i)))] + match i {
            Instr::Const(x) | Instr::MakeFrame(x) | Instr::GetLocal(x) | Instr::SetLocal(x) => seq![
                Token::Number(x as nat),
            ],
            Instr::Jmp(l) | Instr::JmpIfFalse(l) | Instr::JmpIfTrue(l) => seq![Token::Word(l@)],
            Instr::Call(a, n) => seq![
                Token::Number(a as nat),
                Token::Comma,
                Token::Number(n as nat),
            ],
            Instr::Alloc(sz, f) => seq![
                Token::Number(sz as nat),
                Token::Comma,
                Token::Number(f as nat),
            ],
            _ => Seq::empty(),
        },
    }
}

/// Numbers are kept exactly up to this bound; any larger one is held as the
/// bound itself, which no operand admits.
const NUMBER_CAP: u64 = 0x1_0000_0000;

spec fn capped(x: nat) -> nat {
    if x < NUMBER_CAP {
        x
    } else {
        NUMBER_CAP as nat
    }
}

#[derive(Clone, Copy)]
enum Kind {
    Word,
    Number,
    Colon,
    Comma,
}

/// A token as it was found: its kind, its extent in the text, and for a
/// number its capped value.
#[derive(Clone, Copy)]
struct Lexeme {
    kind: Kind,
    start: usize,
    end: usize,
    value: u64,
}

spec fn lexeme_view(l: Lexeme, s: Seq<char>) -> (Token, int) {
    let text = s.subrange(l.start as int, l.end as int);
    (
        match l.kind {
            Kind::Word => Token::Word(text),
            Kind::Number => Token::Number(digits_value(text)),
            Kind::Colon => Token::Colon,
            Kind::Comma => Token::Comma,
        },
        l.start as int,
    )
}

spec fn lexeme_wf(l: Lexeme, s: Seq<char>) -> bool {
    &&& l.start < l.end <= s.len()
    &&& l.kind is Number ==> l.value == capped(
        digits_value(s.subrange(l.start as int, l.end as int)),
    )
}

spec fn lexemes_view(v: Seq<Lexeme>, s: Seq<char>) -> Seq<(Token, int)> {
    Seq::new(v.len(), |j: int| lexeme_view(v[j], s))
}

/// `done` in front of the tokens of `rest`, or the error of `rest`.
spec fn then_tokens(
    done: Seq<(Token, int)>,
    rest: Result<Seq<(Token, int)>, SyntaxError>,
) -> Result<Seq<(Token, int)>, SyntaxError> {
    match rest {
        Ok(l) => Ok(done + l),
        Err(e) => Err(e),
    }
}

proof fn lemma_then_cons(
    done: Seq<(Token, int)>,
    t: (Token, int),
    rest: Result<Seq<(Token, int)>, SyntaxError>,
)
    ensures
        then_tokens(done, cons_token(t, rest)) == then_tokens(done.push(t), rest),
{
    if let Ok(l) = rest {
        assert(done + (seq![t] + l) =~= done.push(t) + l);
    }
}

fn is_space_char(c: char) -> (b: bool)
    ensures
        b == is_space(c),
{
    c == ' ' || c == '\t' || c == '\n' || c == '\r' || c == '\x0C'
}

fn is_digit_char(c: char) -> (b: bool)
    ensures
        b == is_digit(c),
{
    '0' <= c && c <= '9'
}

fn is_word_start_char(c: char) -> (b: bool)
    ensures
        b == is_word_start(c),
{
    ('a' <= c && c <= 'z') || ('A' <= c && c <= 'Z') || c == '_'
}

fn is_word_char_char(c: char) -> (b: bool)
    ensures
        b == is_word_char(c),
{
    is_word_start_char(c) || is_digit_char(c)
}

fn digit_of(c: char) -> (d: u64)
    requires
        is_digit(c),
    ensures
        d == digit_value(c),
        d <= 9,
{
    (c as u32 - '0' as u32) as u64
}

/// Splits `s` into tokens.
fn lex(s: &Vec<char>) -> (r: Result<Vec<Lexeme>, SyntaxError>)
    ensures
        match (r, lex_from(s@, 0)) {
            (Ok(v), Ok(ts)) => lexemes_view(v@, s@) == ts && forall|j: int|
                0 <= j < v@.len() ==> lexeme_wf(#[trigger] v@[j], s@),
            (Err(e), Err(f)) => e == f,
            _ => false,
        },
{
    let mut out: Vec<Lexeme> = Vec::new();
    let mut i: usize = 0;
    assert(lexemes_view(out@, s@) =~= Seq::<(Token, int)>::empty());
    assert(lex_from(s@, 0) == then_tokens(lexemes_view(out@, s@), lex_from(s@, 0))) by {
        if let Ok(l) = lex_from(s@, 0) {
            assert(Seq::<(Token, int)>::empty() + l =~= l);
        }
    }
    while i < s.len()
        invariant
            i <= s@.len(),
            forall|j: int| 0 <= j < out@.len() ==> lexeme_wf(#[trigger] out@[j], s@),
            lex_from(s@, 0) == then_tokens(lexemes_view(out@, s@), lex_from(s@, i as int)),
        decreases s@.len() - i,
    {
        let c = s[i];
        let ghost done = lexemes_view(out@, s@);
        if is_space_char(c) {
            i += 1;
        } else if c == ':' || c == ',' {
            let kind = if c == ':' {
                Kind::Colon
            } else {
                Kind::Comma
            };
            let l = Lexeme { kind, start: i, end: i + 1, value: 0 };
            proof {
                lemma_then_cons(done, lexeme_view(l, s@), lex_from(s@, i + 1));
            }
            out.push(l);
            proof {
                assert(lexemes_view(out@, s@) =~= done.push(lexeme_view(l, s@)));
            }
            i += 1;
        } else if is_word_start_char(c) {
            let mut j = i + 1;
            while j < s.len() && is_word_char_char(s[j])
                invariant
                    i < j <= s@.len(),
                    word_end(s@, i + 1) == word_end(s@, j as int),
                decreases s@.len() - j,
            {
                j += 1;
            }
            let l = Lexeme { kind: Kind::Word, start: i, end: j, value: 0 };
            proof {
                lemma_then_cons(done, lexeme_view(l, s@), lex_from(s@, j as int));
            }
            out.push(l);
            proof {
                assert(lexemes_view(out@, s@) =~= done.push(lexeme_view(l, s@)));
            }
            i = j;
        } else if is_digit_char(c) {
            let mut j = i + 1;
            let mut value: u64 = digit_of(c);
            proof {
                let d = s@.subrange(i as int, j as int);
                assert(d.drop_last() =~= Seq::<char>::empty());
                assert(d.last() == c);
                assert(digits_value(d.drop_last()) == 0);
                assert(digits_value(d) == digit_value(c));
            }
            while j < s.len() && is_digit_char(s[j])
                invariant
                    i < j <= s@.len(),
                    digits_end(s@, i + 1) == digits_end(s@, j as int),
                    value == capped(digits_value(s@.subrange(i as int, j as int))),
                decreases s@.len() - j,
            {
                let d = digit_of(s[j]);
                let ghost before = digits_value(s@.subrange(i as int, j as int));
                proof {
                    let t = s@.subrange(i as int, j + 1);
                    assert(t.drop_last() =~= s@.subrange(i as int, j as int));
                    assert(digits_value(t) == before * 10 + d);
                }
                if value < NUMBER_CAP {
                    value = value * 10 + d;
                    if value > NUMBER_CAP {
                        value = NUMBER_CAP;
                    }
                }
                j += 1;
            }
            let l = Lexeme { kind: Kind::Number, start: i, end: j, value };
            proof {
                lemma_then_cons(done, lexeme_view(l, s@), lex_from(s@, j as int));
            }
            out.push(l);
            proof {
                assert(lexemes_view(out@, s@) =~= done.push(lexeme_view(l, s@)));
            }
            i = j;
        } else {
            return Err(SyntaxError::InvalidToken(i));
        }
    }
    proof {
        let done = lexemes_view(out@, s@);
        assert(done + Seq::<(Token, int)>::empty() =~= done);
    }
    Ok(out)
}


/// The text of an opcode's mnemonic.
fn mnemonic_str(op: u8) -> (r: &'static str)
    requires
        op <= 0x1E,
    ensures
        r@ == mnemonic(op),
{
    if op == 0x00 {
        "nop"
    } else if op == 0x01 {
        "const"
    } else if op == 0x02 {
        "add"
    } else if op == 0x03 {
        "sub"
    } else if op == 0x04 {
        "mul"
    } else if op == 0x05 {
        "div"
    } else if op == 0x06 {
        "return"
    } else if op == 0x07 {
        "neg"
    } else if op == 0x08 {
        "not"
    } else if op == 0x09 {
        "eq"
    } else if op == 0x0A {
        "ne"
    } else if op == 0x0B {
        "lt"
    } else if op == 0x0C {
        "le"
    } else if op == 0x0D {
        "gt"
    } else if op == 0x0E {
        "ge"
    } else if op == 0x0F {
        "jmp"
    } else if op == 0x10 {
        "jmp_if_false"
    } else if op == 0x11 {
        "jmp_if_true"
    } else if op == 0x12 {
        "pop"
    } else if op == 0x13 {
        "dup"
    } else if op == 0x14 {
        "make_frame"
    } else if op == 0x15 {
        "get_local"
    } else if op == 0x16 {
        "set_local"
    } else if op == 0x17 {
        "call"
    } else if op == 0x18 {
        "enter_nogc"
    } else if op == 0x19 {
        "exit_nogc"
    } else if op == 0x1A {
        "alloc"
    } else if op == 0x1B {
        "load"
    } else if op == 0x1C {
        "store"
    } else if op == 0x1D {
        "loadb"
    } else {
        "storeb"
    }
}

/// Whether the characters `s[start..end]` spell `lit`.
fn spells(s: &Vec<char>, start: usize, end: usize, lit: &str) -> (b: bool)
    requires
        start <= end <= s@.len(),
    ensures
        b == (s@.subrange(start as int, end as int) == lit@),
{
    let n = lit.unicode_len();
    if end - start != n {
        proof {
            assert(s@.subrange(start as int, end as int).len() != lit@.len());
        }
        return false;
    }
    let mut q: usize = 0;
    while q < n
        invariant
            q <= n,
            n == lit@.len(),
            end - start == n,
            start <= end <= s@.len(),
            forall|p: int| 0 <= p < q ==> s@[start + p] == lit@[p],
        decreases n - q,
    {
        if s[start + q] != lit.get_char(q) {
            proof {
                assert(s@.subrange(start as int, end as int)[q as int] != lit@[q as int]);
            }
            return false;
        }
        q += 1;
    }
    proof {
        assert(s@.subrange(start as int, end as int) =~= lit@);
    }
    true
}

pub proof fn lemma_keyword(w: Seq<char>, from: int)
    ensures
        keyword_from(w, from) matches Some(op) ==> from <= op <= 0x1E && mnemonic(op) == w,
    decreases 0x1F - from,
{
    if 0 <= from <= 0x1E && mnemonic(from as u8) != w {
        lemma_keyword(w, from + 1);
    }
}

/// The opcode whose mnemonic `s[start..end]` spells, if any.
fn keyword_of(s: &Vec<char>, start: usize, end: usize) -> (r: Option<u8>)
    requires
        start <= end <= s@.len(),
    ensures
        r == keyword(s@.subrange(start as int, end as int)),
{
    let ghost w = s@.subrange(start as int, end as int);
    let mut op: u8 = 0;
    while op <= 0x1E
        invariant
            op <= 0x1F,
            start <= end <= s@.len(),
            w == s@.subrange(start as int, end as int),
            keyword(w) == keyword_from(w, op as int),
        decreases 0x1F - op,
    {
        if spells(s, start, end, mnemonic_str(op)) {
            return Some(op);
        }
        op += 1;
    }
    None
}

spec fn lexemes_wf(v: Seq<Lexeme>, s: Seq<char>) -> bool {
    forall|j: int| 0 <= j < v.len() ==> lexeme_wf(#[trigger] v[j], s)
}

/// The number at token `k`, if it is one no larger than `max`.
fn expect_number(s: &Vec<char>, toks: &Vec<Lexeme>, k: usize, max: u64) -> (r: Result<
    u64,
    SyntaxError,
>)
    requires
        max < NUMBER_CAP,
        lexemes_wf(toks@, s@),
    ensures
        match (r, slot_at(lexemes_view(toks@, s@), k as int, Slot::Number(max as nat))) {
            (Ok(x), Ok(t)) => t == Token::Number(x as nat) && x <= max && k < toks@.len(),
            (Err(e), Err(f)) => e == f,
            _ => false,
        },
{
    if k >= toks.len() {
        return Err(SyntaxError::UnexpectedEof);
    }
    let l = toks[k];
    proof {
        assert(lexeme_wf(toks@[k as int], s@));
    }
    match l.kind {
        Kind::Number => if l.value <= max {
            Ok(l.value)
        } else {
            Err(SyntaxError::NumberOutOfRange(l.start))
        },
        _ => Err(SyntaxError::UnexpectedToken(l.start)),
    }
}

/// Checks that token `k` is a comma.
fn expect_comma(s: &Vec<char>, toks: &Vec<Lexeme>, k: usize) -> (r: Result<(), SyntaxError>)
    ensures
        match (r, slot_at(lexemes_view(toks@, s@), k as int, Slot::Comma)) {
            (Ok(_), Ok(t)) => t == Token::Comma && k < toks@.len(),
            (Err(e), Err(f)) => e == f,
            _ => false,
        },
{
    if k >= toks.len() {
        return Err(SyntaxError::UnexpectedEof);
    }
    let l = toks[k];
    match l.kind {
        Kind::Comma => Ok(()),
        _ => Err(SyntaxError::UnexpectedToken(l.start)),
    }
}

/// The label name at token `k`, if it is a word that is no mnemonic.
fn expect_target(s: &Vec<char>, src: &str, toks: &Vec<Lexeme>, k: usize) -> (r: Result<
    String,
    SyntaxError,
>)
    requires
        s@ == src@,
        lexemes_wf(toks@, s@),
    ensures
        match (r, slot_at(lexemes_view(toks@, s@), k as int, Slot::Target)) {
            (Ok(l), Ok(t)) => t == Token::Word(l@) && k < toks@.len(),
            (Err(e), Err(f)) => e == f,
            _ => false,
        },
{
    if k >= toks.len() {
        return Err(SyntaxError::UnexpectedEof);
    }
    let l = toks[k];
    proof {
        assert(lexeme_wf(toks@[k as int], s@));
    }
    match l.kind {
        Kind::Word => match keyword_of(s, l.start, l.end) {
            None => Ok(String::from_str(src.substring_char(l.start, l.end))),
            Some(_) => Err(SyntaxError::UnexpectedToken(l.start)),
        },
        _ => Err(SyntaxError::UnexpectedToken(l.start)),
    }
}

/// The instruction of an opcode that takes no operand.
fn bare_instr(op: u8) -> (i: Instr)
    requires
        op <= 0x1E,
        slots(op).len() == 0,
    ensures
        stmt_tokens(Stmt::Instr(i)) == seq![Token::Word(mnemonic(op))],
{
    let i = if op == 0x00 {
        Instr::Nop
    } else if op == 0x02 {
        Instr::Add
    } else if op == 0x03 {
        Instr::Sub
    } else if op == 0x04 {
        Instr::Mul
    } else if op == 0x05 {
        Instr::Div
    } else if op == 0x06 {
        Instr::Return
    } else if op == 0x07 {
        Instr::Neg
    } else if op == 0x08 {
        Instr::Not
    } else if op == 0x09 {
        Instr::Eq
    } else if op == 0x0A {
        Instr::Ne
    } else if op == 0x0B {
        Instr::Lt
    } else if op == 0x0C {
        Instr::Le
    } else if op == 0x0D {
        Instr::Gt
    } else if op == 0x0E {
        Instr::Ge
    } else if op == 0x12 {
        Instr::Pop
    } else if op == 0x13 {
        Instr::Dup
    } else if op == 0x18 {
        Instr::EnterNoGc
    } else if op == 0x19 {
        Instr::ExitNoGc
    } else if op == 0x1B {
        Instr::Load
    } else if op == 0x1C {
        Instr::Store
    } else if op == 0x1D {
        Instr::LoadB
    } else {
        Instr::StoreB
    };
    proof {
        assert(instr_op(i) == op);
        assert(seq![Token::Word(mnemonic(op))] + Seq::<Token>::empty() =~= seq![
            Token::Word(mnemonic(op)),
        ]);
    }
    i
}

/// The instruction of an opcode that takes one byte.
fn byte_instr(op: u8, x: u8) -> (i: Instr)
    requires
        op == 0x01 || op == 0x14 || op == 0x15 || op == 0x16,
    ensures
        stmt_tokens(Stmt::Instr(i)) == seq![Token::Word(mnemonic(op)), Token::Number(x as nat)],
{
    let i = if op == 0x01 {
        Instr::Const(x)
    } else if op == 0x14 {
        Instr::MakeFrame(x)
    } else if op == 0x15 {
        Instr::GetLocal(x)
    } else {
        Instr::SetLocal(x)
    };
    proof {
        assert(instr_op(i) == op);
        assert(seq![Token::Word(mnemonic(op))] + seq![Token::Number(x as nat)] =~= seq![
            Token::Word(mnemonic(op)),
            Token::Number(x as nat),
        ]);
    }
    i
}

/// The jump of an opcode to a label.
fn jump_instr(op: u8, l: String) -> (i: Instr)
    requires
        op == 0x0F || op == 0x10 || op == 0x11,
    ensures
        stmt_tokens(Stmt::Instr(i)) == seq![Token::Word(mnemonic(op)), Token::Word(l@)],
{
    let ghost name = l@;
    let i = if op == 0x0F {
        Instr::Jmp(l)
    } else if op == 0x10 {
        Instr::JmpIfFalse(l)
    } else {
        Instr::JmpIfTrue(l)
    };
    proof {
        assert(instr_op(i) == op);
        assert(seq![Token::Word(mnemonic(op))] + seq![Token::Word(name)] =~= seq![
            Token::Word(mnemonic(op)),
            Token::Word(name),
        ]);
    }
    i
}

/// The statement that starts at token `k`, and the index of the token after it.
fn parse_stmt(s: &Vec<char>, src: &str, toks: &Vec<Lexeme>, k: usize) -> (r: Result<
    (Stmt, usize),
    SyntaxError,
>)
    requires
        s@ == src@,
        lexemes_wf(toks@, s@),
        k < toks@.len(),
    ensures
        match (r, stmt_at(lexemes_view(toks@, s@), k as int)) {
            (Ok((st, next)), Ok((g, n))) => stmt_tokens(st) == g && next == n && k < next
                <= toks@.len(),
            (Err(e), Err(f)) => e == f,
            _ => false,
        },
{
    let ghost ts = lexemes_view(toks@, s@);
    let count = toks.len();
    let l = toks[k];
    proof {
        assert(k + 1 <= count);
        assert(lexeme_wf(toks@[k as int], s@));
        reveal_with_fuel(operands_at, 4);
    }
    match l.kind {
        Kind::Word => {
            let ghost w = s@.subrange(l.start as int, l.end as int);
            match keyword_of(s, l.start, l.end) {
                None => {
                    if k + 1 >= count {
                        return Err(SyntaxError::UnexpectedEof);
                    }
                    let n = toks[k + 1];
                    match n.kind {
                        Kind::Colon => {
                            let name = String::from_str(src.substring_char(l.start, l.end));
                            Ok((Stmt::Label(name), k + 2))
                        },
                        _ => Err(SyntaxError::UnexpectedToken(n.start)),
                    }
                },
                Some(op) => {
                    proof {
                        lemma_keyword(w, 0);
                    }
                    if op == 0x01 || op == 0x14 || op == 0x15 || op == 0x16 {
                        let x = expect_number(s, toks, k + 1, 0xFF)?;
                        Ok((Stmt::Instr(byte_instr(op, x as u8)), k + 2))
                    } else if op == 0x0F || op == 0x10 || op == 0x11 {
                        let target = expect_target(s, src, toks, k + 1)?;
                        Ok((Stmt::Instr(jump_instr(op, target)), k + 2))
                    } else if op == 0x17 {
                        let a = expect_number(s, toks, k + 1, 0xFFFF_FFFF)?;
                        expect_comma(s, toks, k + 2)?;
                        let n = expect_number(s, toks, k + 3, 0xFF)?;
                        let i = Instr::Call(a as u32, n as u8);
                        proof {
                            assert(stmt_tokens(Stmt::Instr(i)) =~= seq![
                                Token::Word(w),
                                Token::Number(a as nat),
                                Token::Comma,
                                Token::Number(n as nat),
                            ]);
                        }
                        Ok((Stmt::Instr(i), k + 4))
                    } else if op == 0x1A {
                        let size = expect_number(s, toks, k + 1, 0xFFFF)?;
                        expect_comma(s, toks, k + 2)?;
                        let flag = expect_number(s, toks, k + 3, 0xFF)?;
                        let i = Instr::Alloc(size as u16, flag as u8);
                        proof {
                            assert(stmt_tokens(Stmt::Instr(i)) =~= seq![
                                Token::Word(w),
                                Token::Number(size as nat),
                                Token::Comma,
                                Token::Number(flag as nat),
                            ]);
                        }
                        Ok((Stmt::Instr(i), k + 4))
                    } else {
                        Ok((Stmt::Instr(bare_instr(op)), k + 1))
                    }
                },
            }
        },
        _ => Err(SyntaxError::UnexpectedToken(l.start)),
    }
}

/// `done` in front of the statements of `rest`, or the error of `rest`.
spec fn then_stmts(
    done: Seq<Seq<Token>>,
    rest: Result<Seq<Seq<Token>>, SyntaxError>,
) -> Result<Seq<Seq<Token>>, SyntaxError> {
    match rest {
        Ok(l) => Ok(done + l),
        Err(e) => Err(e),
    }
}

/// The characters of `src`, in order.
fn collect_chars(src: &str) -> (r: Vec<char>)
    ensures
        r@ == src@,
{
    let mut out: Vec<char> = Vec::new();
    for c in it: src.chars()
        invariant
            out@ == it.seq().take(it.index() as int),
    {
        out.push(c);
    }
    out
}

/// A parser of assembly programs.
pub struct ProgramParser;

impl ProgramParser {
    pub fn new() -> (r: ProgramParser) {
        ProgramParser
    }

    /// The statements of `src`, in order, or the first error: each statement
    /// is spelled by the tokens of one statement of the text.
    pub fn parse(&self, src: &str) -> (r: Result<Vec<Stmt>, SyntaxError>)
        ensures
            match (r, program_tokens(src@)) {
                (Ok(v), Ok(g)) => v@.len() == g.len() && forall|j: int|
                    0 <= j < v@.len() ==> stmt_tokens(#[trigger] v@[j]) == g[j],
                (Err(e), Err(f)) => e == f,
                _ => false,
            },
    {
        let chars = collect_chars(src);
        let toks = lex(&chars)?;
        let ghost ts = lexemes_view(toks@, chars@);
        let mut out: Vec<Stmt> = Vec::new();
        let ghost mut done: Seq<Seq<Token>> = Seq::empty();
        let mut k: usize = 0;
        proof {
            if let Ok(l) = stmts_from(ts, 0) {
                assert(done + l =~= l);
            }
        }
        while k < toks.len()
            invariant
                k <= toks@.len(),
                chars@ == src@,
                lexemes_wf(toks@, chars@),
                ts == lexemes_view(toks@, chars@),
                lex_from(src@, 0) == Ok::<Seq<(Token, int)>, SyntaxError>(ts),
                out@.len() == done.len(),
                forall|j: int| 0 <= j < out@.len() ==> stmt_tokens(#[trigger] out@[j]) == done[j],
                stmts_from(ts, 0) == then_stmts(done, stmts_from(ts, k as int)),
            decreases toks@.len() - k,
        {
            let (st, next) = match parse_stmt(&chars, src, &toks, k) {
                Ok(found) => found,
                Err(e) => {
                    proof {
                        assert(ts.len() == toks@.len());
                        assert(stmts_from(ts, k as int) == Err::<Seq<Seq<Token>>, SyntaxError>(e));
                    }
                    return Err(e);
                },
            };
            proof {
                let g = stmt_at(ts, k as int)->Ok_0.0;
                let rest = stmts_from(ts, next as int);
                if let Ok(l) = rest {
                    assert(done + (seq![g] + l) =~= done.push(g) + l);
                }
                done = done.push(g);
            }
            out.push(st);
            k = next;
        }
        proof {
            assert(done + Seq::<Seq<Token>>::empty() =~= done);
        }
        Ok(out)
    }
}

/// An instruction is spelled with the name of the operation it stands for:
/// the parser reads a mnemonic into the instruction of that operation.
pub proof fn law_parsed_names(i: Instr)
    ensures
        stmt_tokens(Stmt::Instr(i))[0] == Token::Word(op_name(instr_opcode(i))),
{
    law_instr_opcodes(i, Seq::empty());
    law_mnemonic_names(instr_opcode(i));
}

} // verus!
