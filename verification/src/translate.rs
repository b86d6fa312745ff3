//! The instruction translator: one positioned token to one typed
//! instruction, with a precise diagnostic for a word that is neither a
//! recognized symbol nor a 32-bit signed integer literal.

use vstd::prelude::*;
use vstd::string::StrSliceExecFns;
use vstd::string::StringExecFns;

use crate::instr::Instruction;
use crate::instr::dump;
use crate::instr::minus;
use crate::instr::plus;
use crate::instr::push;
use crate::lexing::PositionedToken;
use crate::numtext::dec_seq;
use crate::numtext::usize_to_string;

verus! {

/// Whether a character is a decimal digit.
pub open spec fn is_dec_digit(c: char) -> bool {
    48 <= c as int && c as int <= 57
}

/// Whether every character of `s` is a decimal digit.
pub open spec fn all_dec_digits(s: Seq<char>) -> bool {
    forall|i: int| 0 <= i < s.len() ==> is_dec_digit(#[trigger] s[i])
}

/// The non-negative integer denoted by a sequence of decimal digits,
/// most significant first.
pub open spec fn dec_value(s: Seq<char>) -> int
    decreases s.len(),
{
    if s.len() == 0 {
        0
    } else {
        dec_value(s.drop_last()) * 10 + (s.last() as int - 48)
    }
}

/// The digits of an integer literal: everything after a leading sign,
/// if there is one.
pub open spec fn literal_body(s: Seq<char>) -> Seq<char> {
    if s.len() > 0 && (s[0] == '+' || s[0] == '-') {
        s.subrange(1, s.len() as int)
    } else {
        s
    }
}

/// Whether an integer literal carries a leading minus sign.
pub open spec fn literal_negative(s: Seq<char>) -> bool {
    s.len() > 0 && s[0] == '-'
}

/// The integer a literal denotes: the value of its digits, negated under
/// a leading minus sign.
pub open spec fn literal_value(s: Seq<char>) -> int {
    if literal_negative(s) {
        -dec_value(literal_body(s))
    } else {
        dec_value(literal_body(s))
    }
}

/// Whether `s` is a 32-bit signed integer literal: an optional sign, then
/// one or more decimal digits, denoting a value that fits in 32 signed bits.
pub open spec fn is_i32_literal(s: Seq<char>) -> bool {
    &&& literal_body(s).len() > 0
    &&& all_dec_digits(literal_body(s))
    &&& i32::MIN <= literal_value(s) <= i32::MAX
}

/// A sequence of digits denotes a non-negative value.
proof fn lemma_dec_value_nonneg(s: Seq<char>)
    requires
        all_dec_digits(s),
    ensures
        dec_value(s) >= 0,
    decreases s.len(),
{
    if s.len() > 0 {
        assert(all_dec_digits(s.drop_last()));
        lemma_dec_value_nonneg(s.drop_last());
    }
}

/// Parse a word as a 32-bit signed integer literal: `Some` exactly on the
/// words that denote an in-range value, `None` on everything else.
pub fn parse_i32(word: &str) -> (r: Option<i32>)
    ensures
        r is Some <==> is_i32_literal(word@),
        r matches Some(v) ==> v as int == literal_value(word@),
{
    let len = word.unicode_len();
    if len == 0 {
        return None;
    }
    let first = word.get_char(0);
    let negative = first == '-';
    let signed = first == '-' || first == '+';
    let start: usize = if signed {
        1
    } else {
        0
    };
    let ghost body = literal_body(word@);
    proof {
        assert(body =~= word@.subrange(start as int, len as int));
    }
    if start >= len {
        assert(body.len() == 0);
        return None;
    }
    // The accumulated magnitude, clamped at 2^32 so that one more digit can
    // never overflow the accumulator; any value at or above the clamp is
    // already out of 32-bit signed range for either sign.
    let clamp: u64 = 4294967296;
    let mut acc: u64 = 0;
    let mut i: usize = start;
    while i < len
        invariant
            start <= i <= len,
            start + 1 <= len,
            len == word@.len(),
            start == if signed { 1int } else { 0int },
            negative == literal_negative(word@),
            body == literal_body(word@),
            body =~= word@.subrange(start as int, len as int),
            clamp == 4294967296,
            acc <= clamp,
            forall|k: int| start <= k < i ==> is_dec_digit(#[trigger] word@[k]),
            dec_value(body.take(i - start)) <= clamp ==> acc as int == dec_value(
                body.take(i - start),
            ),
            dec_value(body.take(i - start)) > clamp ==> acc == clamp,
        decreases len - i,
    {
        let c = word.get_char(i);
        let u = c as u32;
        let ghost prefix = body.take(i - start);
        proof {
            assert(body[i - start] == word@[i as int]);
            assert(body.take(i + 1 - start).drop_last() =~= prefix);
        }
        if u < 48 || u > 57 {
            // A non-digit after the sign: the word is no integer literal.
            assert(!is_dec_digit(body[i - start]));
            return None;
        }
        let d = (u - 48) as u64;
        proof {
            assert(forall|k: int| start <= k < i ==> is_dec_digit(#[trigger] word@[k]));
            assert(all_dec_digits(prefix));
            lemma_dec_value_nonneg(prefix);
            assert(dec_value(body.take(i + 1 - start)) == dec_value(prefix) * 10 + d);
        }
        acc = acc * 10 + d;
        if acc > clamp {
            acc = clamp;
        }
        i = i + 1;
    }
    let ghost full = dec_value(body);
    proof {
        assert(body.take(i - start) =~= body);
        assert(all_dec_digits(body));
        lemma_dec_value_nonneg(body);
    }
    if negative {
        if acc > 2147483648 {
            assert(full > 2147483648);
            assert(literal_value(word@) < i32::MIN);
            return None;
        }
        let v: i32 = (-(acc as i64)) as i32;
        assert(v as int == -(acc as int)) by {
            assert(acc <= 2147483648);
        };
        Some(v)
    } else {
        if acc > 2147483647 {
            assert(full > 2147483647);
            assert(literal_value(word@) > i32::MAX);
            return None;
        }
        Some(acc as i32)
    }
}

/// The instruction a word denotes: the three operator symbols, then any
/// 32-bit signed integer literal as a `Push`; `None` for anything else.
pub open spec fn word_instruction(w: Seq<char>) -> Option<Instruction> {
    if w == seq!['+'] {
        Some(Instruction::Plus)
    } else if w == seq!['-'] {
        Some(Instruction::Minus)
    } else if w == seq!['.'] {
        Some(Instruction::Dump)
    } else if is_i32_literal(w) {
        Some(Instruction::Push(literal_value(w) as i32))
    } else {
        None
    }
}

/// A word that is neither a recognized symbol nor an integer literal,
/// together with where it stands in the source.
#[derive(Debug)]
pub struct TranslationError {
    pub path: String,
    pub row: usize,
    pub col: usize,
    pub word: String,
}

impl TranslationError {
    /// Whether this error reports exactly the given token.
    pub open spec fn reports(&self, t: PositionedToken) -> bool {
        &&& self.path@ == t.path@
        &&& self.row == t.row
        &&& self.col == t.col
        &&& self.word@ == t.word@
    }
}

/// Translate one positioned token to its instruction, or report it.
pub fn parse_word_as_op(token: &PositionedToken) -> (r: Result<Instruction, TranslationError>)
    ensures
        r is Ok <==> word_instruction(token.word@) is Some,
        r matches Ok(i) ==> word_instruction(token.word@) == Some(i),
        r matches Err(e) ==> e.reports(*token),
{
    let len = token.word.as_str().unicode_len();
    if len == 1 {
        let c = token.word.as_str().get_char(0);
        if c == '+' {
            assert(token.word@ =~= seq!['+']);
            return Ok(plus());
        }
        if c == '-' {
            assert(token.word@ =~= seq!['-']);
            return Ok(minus());
        }
        if c == '.' {
            assert(token.word@ =~= seq!['.']);
            return Ok(dump());
        }
    }
    match parse_i32(token.word.as_str()) {
        Some(v) => {
            assert(v as int == literal_value(token.word@));
            Ok(push(v))
        },
        None => Err(
            TranslationError {
                path: token.path.clone(),
                row: token.row,
                col: token.col,
                word: token.word.clone(),
            },
        ),
    }
}

/// Translating equal words yields equal instructions: translation is a pure
/// function of the token's text, so translating one token twice agrees.
pub proof fn lemma_translation_pure(a: Seq<char>, b: Seq<char>)
    requires
        a == b,
    ensures
        word_instruction(a) == word_instruction(b),
{
}

/// Whether every token of a sequence translates to an instruction.
pub open spec fn all_translate(toks: Seq<PositionedToken>) -> bool {
    forall|i: int| 0 <= i < toks.len() ==> word_instruction(#[trigger] toks[i].word@) is Some
}

/// The program a token sequence denotes, one instruction per token in order.
pub open spec fn program_of(toks: Seq<PositionedToken>) -> Seq<Instruction> {
    Seq::new(toks.len(), |i: int| word_instruction(toks[i].word@).unwrap())
}

/// Translate a token sequence to a program, or report the first token that
/// does not translate.
pub fn parse_program(tokens: &Vec<PositionedToken>) -> (r: Result<
    Vec<Instruction>,
    TranslationError,
>)
    ensures
        r is Ok <==> all_translate(tokens@),
        r matches Ok(p) ==> p@ == program_of(tokens@),
        r matches Err(e) ==> exists|k: int|
            {
                &&& 0 <= k < tokens@.len()
                &&& word_instruction(#[trigger] tokens@[k].word@) is None
                &&& forall|j: int| 0 <= j < k ==> word_instruction(#[trigger] tokens@[j].word@) is Some
                &&& e.reports(tokens@[k])
            },
{
    let mut prog: Vec<Instruction> = Vec::new();
    let mut i: usize = 0;
    while i < tokens.len()
        invariant
            0 <= i <= tokens@.len(),
            prog@.len() == i,
            forall|j: int| 0 <= j < i ==> word_instruction(#[trigger] tokens@[j].word@) is Some,
            forall|j: int|
                0 <= j < i ==> prog@[j] == word_instruction(#[trigger] tokens@[j].word@).unwrap(),
        decreases tokens@.len() - i,
    {
        match parse_word_as_op(&tokens[i]) {
            Ok(ins) => {
                prog.push(ins);
            },
            Err(e) => {
                assert(word_instruction(tokens@[i as int].word@) is None);
                return Err(e);
            },
        }
        i = i + 1;
    }
    proof {
        assert(prog@ =~= program_of(tokens@));
    }
    Ok(prog)
}

/// The exact text of the translator's diagnostic for a rejected word.
pub open spec fn diagnostic_text(path: Seq<char>, row: nat, col: nat, word: Seq<char>) -> Seq<
    char,
> {
    path + ":"@ + dec_seq(row) + ":"@ + dec_seq(col) + ": invalid digit found in file: '"@ + word
        + "'"@
}

/// Render a translation error as the toolchain's one user-facing diagnostic:
/// `<path>:<line>:<column>: invalid digit found in file: '<text>'`.
pub fn render_diagnostic(e: &TranslationError) -> (r: String)
    ensures
        r@ == diagnostic_text(e.path@, e.row as nat, e.col as nat, e.word@),
{
    let mut s = String::new();
    s.append(e.path.as_str());
    s.append(":");
    let row_text = usize_to_string(e.row);
    s.append(row_text.as_str());
    s.append(":");
    let col_text = usize_to_string(e.col);
    s.append(col_text.as_str());
    s.append(": invalid digit found in file: '");
    s.append(e.word.as_str());
    s.append("'");
    proof {
        assert(s@ =~= diagnostic_text(e.path@, e.row as nat, e.col as nat, e.word@));
    }
    s
}

} // verus!
