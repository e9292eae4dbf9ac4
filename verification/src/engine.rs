//! The engine's shared instruction set and its top-level entry point.

use vstd::prelude::*;

pub mod codegen;
pub mod evaluator;
pub mod parser;

use crate::engine::codegen::{CodeGenError, get_code, spec_get_code};
use crate::engine::evaluator::{EvalError, eval, eval_from};
use crate::engine::parser::{ParseError, parse, spec_parse};
use vstd::set_lib::{lemma_int_range, lemma_len_subset, set_int_range};

verus! {

/// One step of a compiled program, addressed by its position in the
/// instruction sequence.
#[derive(Debug, Clone, Copy, PartialEq, Eq, Structural)]
pub enum Instruction {
    /// Consume one input symbol equal to the given one.
    Char(char),
    /// Consume any one input symbol.
    Dot,
    /// Zero-width assertion: the match attempt starts at the beginning of the line.
    Caret,
    /// Zero-width assertion: the whole input has been consumed.
    Dollar,
    /// The program accepts.
    Match,
    /// Continue at the given address.
    Jump(usize),
    /// Explore the first address; if that fails, explore the second.
    Split(usize, usize),
}

/// An error from one of the three stages, propagated unmodified.
#[derive(Debug, Clone, Copy, PartialEq, Eq, Structural)]
pub enum EngineError {
    Parse(ParseError),
    CodeGen(CodeGenError),
    Eval(EvalError),
}

/// A well-shaped program cannot drive the machine out of itself: when the
/// last instruction is `Match` and every address points into the program,
/// the search never reports `InvalidPC` from any start inside the program.
pub proof fn lemma_wf_program_never_invalid_pc(
    code: Seq<Instruction>,
    line: Seq<char>,
    pc: nat,
    sp: nat,
    index: nat,
    visited: Set<int>,
)
    requires
        code.len() >= 1,
        code.last() == Instruction::Match,
        forall|k: int|
            0 <= k < code.len() ==> crate::engine::codegen::inst_targets_in(
                code[k],
                0,
                code.len() - 1,
            ),
        pc < code.len(),
        visited.finite(),
        forall|p: int| visited.contains(p) ==> 0 <= p < code.len(),
    ensures
        eval_from(code, line, pc, sp, index, visited) != Err::<bool, EvalError>(
            EvalError::InvalidPC,
        ),
    decreases line.len() - sp, code.len() - visited.len(),
{
    if !visited.contains(pc as int) {
        let vis = visited.insert(pc as int);
        vstd::set::axiom_set_insert_len(visited, pc as int);
        let r = set_int_range(0, code.len() as int);
        lemma_int_range(0, code.len() as int);
        assert(vis.subset_of(r));
        lemma_len_subset(vis, r);
        assert(crate::engine::codegen::inst_targets_in(code[pc as int], 0, code.len() - 1));
        match code[pc as int] {
            Instruction::Caret => {
                if pc == 0 && index == 0 && pc + 1 <= usize::MAX {
                    assert(code[pc as int] != Instruction::Match);
                    lemma_wf_program_never_invalid_pc(code, line, pc + 1, sp, index, vis);
                }
            },
            Instruction::Dot => {
                if sp < line.len() && pc + 1 <= usize::MAX && sp + 1 <= usize::MAX {
                    assert(code[pc as int] != Instruction::Match);
                    lemma_wf_program_never_invalid_pc(
                        code,
                        line,
                        pc + 1,
                        sp + 1,
                        index,
                        Set::empty(),
                    );
                }
            },
            Instruction::Char(c) => {
                if sp < line.len() && line[sp as int] == c && pc + 1 <= usize::MAX && sp + 1
                    <= usize::MAX {
                    assert(code[pc as int] != Instruction::Match);
                    lemma_wf_program_never_invalid_pc(
                        code,
                        line,
                        pc + 1,
                        sp + 1,
                        index,
                        Set::empty(),
                    );
                }
            },
            Instruction::Jump(addr) => {
                lemma_wf_program_never_invalid_pc(code, line, addr as nat, sp, index, vis);
            },
            Instruction::Split(addr1, addr2) => {
                lemma_wf_program_never_invalid_pc(code, line, addr1 as nat, sp, index, vis);
                lemma_wf_program_never_invalid_pc(code, line, addr2 as nat, sp, index, vis);
            },
            _ => {},
        }
    }
}

/// A program that `get_code` produced keeps the machine inside itself: the
/// search from the program's start never reports `InvalidPC`.
pub proof fn lemma_pipeline_never_invalid_pc(
    a: crate::engine::parser::AstV,
    code: Seq<Instruction>,
    line: Seq<char>,
    index: nat,
)
    requires
        spec_get_code(a) == Ok::<Seq<Instruction>, CodeGenError>(code),
    ensures
        eval_from(code, line, 0, 0, index, Set::empty()) != Err::<bool, EvalError>(
            EvalError::InvalidPC,
        ),
{
    crate::engine::codegen::lemma_compiled_program_wf(a, code);
    lemma_wf_program_never_invalid_pc(code, line, 0, 0, index, Set::empty());
}

/// The character of one decimal digit.
pub open spec fn digit_char(d: nat) -> char {
    ((48 + d) as u8) as char
}

/// The decimal digits of `n`, most significant first.
pub open spec fn dec_digits(n: nat) -> Seq<char>
    decreases n,
{
    if n < 10 {
        seq![digit_char(n)]
    } else {
        dec_digits(n / 10).push(digit_char(n % 10))
    }
}

/// A run of `k` zero characters.
pub open spec fn zeros(k: nat) -> Seq<char> {
    Seq::new(k, |i: int| '0')
}

/// An address as the listing prints it: decimal, zero-padded to at least
/// four digits.
pub open spec fn addr_text(n: nat) -> Seq<char> {
    let d = dec_digits(n);
    if d.len() >= 4 {
        d
    } else {
        zeros((4 - d.len()) as nat) + d
    }
}

/// One instruction as the listing prints it.
pub open spec fn inst_text(inst: Instruction) -> Seq<char> {
    match inst {
        Instruction::Char(c) => "char "@ + seq![c],
        Instruction::Dot => "dot"@,
        Instruction::Caret => "caret"@,
        Instruction::Dollar => "dollar"@,
        Instruction::Match => "match"@,
        Instruction::Jump(a) => "jump "@ + addr_text(a as nat),
        Instruction::Split(a1, a2) => "split "@ + addr_text(a1 as nat) + ", "@ + addr_text(
            a2 as nat,
        ),
    }
}

/// The character of the decimal digit `d`.
fn digit_to_char(d: usize) -> (c: char)
    requires
        d < 10,
    ensures
        c == digit_char(d as nat),
{
    (48 + d as u8) as char
}

/// The decimal digits of `n`, most significant first.
fn dec_chars(n: usize) -> (r: Vec<char>)
    ensures
        r@ == dec_digits(n as nat),
    decreases n,
{
    if n < 10 {
        let mut v: Vec<char> = Vec::new();
        v.push(digit_to_char(n));
        proof {
            assert(Seq::<char>::empty().push(digit_char(n as nat)) =~= seq![
                digit_char(n as nat),
            ]);
        }
        v
    } else {
        let mut v = dec_chars(n / 10);
        v.push(digit_to_char(n % 10));
        v
    }
}

/// Renders an address: decimal, zero-padded to at least four digits.
fn addr_chars(n: usize) -> (r: Vec<char>)
    ensures
        r@ == addr_text(n as nat),
{
    let mut d = dec_chars(n);
    if d.len() >= 4 {
        d
    } else {
        let ghost dv = d@;
        let mut r: Vec<char> = Vec::new();
        let pad = 4 - d.len();
        let mut k: usize = 0;
        while k < pad
            invariant
                k <= pad,
                r@ == zeros(k as nat),
            decreases pad - k,
        {
            r.push('0');
            proof {
                assert(zeros(k as nat).push('0') =~= zeros(k as nat + 1));
            }
            k = k + 1;
        }
        r.append(&mut d);
        proof {
            assert(r@ == zeros(pad as nat) + dv);
        }
        r
    }
}

/// Renders one instruction exactly as `inst_text` says the listing shows it.
pub fn inst_chars(inst: &Instruction) -> (r: Vec<char>)
    ensures
        r@ == inst_text(*inst),
{
    match inst {
        Instruction::Char(c) => {
            let mut v = str_to_chars("char ");
            v.push(*c);
            proof {
                assert("char "@.push(*c) =~= "char "@ + seq![*c]);
            }
            v
        },
        Instruction::Dot => str_to_chars("dot"),
        Instruction::Caret => str_to_chars("caret"),
        Instruction::Dollar => str_to_chars("dollar"),
        Instruction::Match => str_to_chars("match"),
        Instruction::Jump(a) => {
            let mut v = str_to_chars("jump ");
            let mut t = addr_chars(*a);
            v.append(&mut t);
            v
        },
        Instruction::Split(a1, a2) => {
            let mut v = str_to_chars("split ");
            let mut t1 = addr_chars(*a1);
            v.append(&mut t1);
            let mut sep = str_to_chars(", ");
            v.append(&mut sep);
            let mut t2 = addr_chars(*a2);
            v.append(&mut t2);
            proof {
                assert((("split "@ + addr_text(*a1 as nat)) + ", "@) + addr_text(*a2 as nat)
                    =~= "split "@ + addr_text(*a1 as nat) + ", "@ + addr_text(*a2 as nat));
            }
            v
        },
    }
}

/// One numbered line of the listing: the instruction's address, a separator,
/// and the instruction's text.
pub open spec fn code_line_text(n: nat, inst: Instruction) -> Seq<char> {
    addr_text(n) + ": "@ + inst_text(inst)
}

/// Renders one numbered line of the listing.
pub fn code_line_chars(n: usize, inst: &Instruction) -> (r: Vec<char>)
    ensures
        r@ == code_line_text(n as nat, *inst),
{
    let mut v = addr_chars(n);
    let mut sep = str_to_chars(": ");
    v.append(&mut sep);
    let mut t = inst_chars(inst);
    v.append(&mut t);
    proof {
        assert((addr_text(n as nat) + ": "@) + inst_text(*inst) =~= addr_text(n as nat) + ": "@
            + inst_text(*inst));
    }
    v
}

/// The line's characters, one value per symbol.
fn str_to_chars(s: &str) -> (r: Vec<char>)
    ensures
        r@ == s@,
{
    let n = s.unicode_len();
    let mut r: Vec<char> = Vec::new();
    let mut i: usize = 0;
    while i < n
        invariant
            n as nat == s@.len(),
            i <= n,
            r@ == s@.subrange(0, i as int),
        decreases n - i,
    {
        let c = s.get_char(i);
        r.push(c);
        proof {
            assert(s@.subrange(0, i + 1) =~= s@.subrange(0, i as int).push(s@[i as int]));
        }
        i = i + 1;
    }
    proof {
        assert(s@.subrange(0, s@.len() as int) =~= s@);
    }
    r
}

/// Matches a regular expression against a line, anchored at the line's
/// start. The expression is parsed and compiled, the program is run by the
/// requested search, and the first error of any stage is returned unchanged;
/// a failed match is the successful result `false`.
pub fn do_matching(expr: &str, line: &str, is_depth: bool) -> (r: Result<bool, EngineError>)
    ensures
        match spec_parse(expr@) {
            Err(pe) => r == Err::<bool, EngineError>(EngineError::Parse(pe)),
            Ok(ast) => match spec_get_code(ast) {
                Err(ce) => r == Err::<bool, EngineError>(EngineError::CodeGen(ce)),
                Ok(code) => if is_depth {
                    match eval_from(code, line@, 0, 0, 0, Set::<int>::empty()) {
                        Ok(b) => r == Ok::<bool, EngineError>(b),
                        Err(ee) => r == Err::<bool, EngineError>(EngineError::Eval(ee)),
                    }
                } else {
                    r == Err::<bool, EngineError>(EngineError::Eval(EvalError::NotSupport))
                },
            },
        },
{
    let ast = match parse(expr) {
        Ok(a) => a,
        Err(e) => {
            return Err(EngineError::Parse(e));
        },
    };
    let code = match get_code(&ast) {
        Ok(c) => c,
        Err(e) => {
            return Err(EngineError::CodeGen(e));
        },
    };
    let chars = str_to_chars(line);
    match eval(&code, &chars, 0, is_depth) {
        Ok(b) => Ok(b),
        Err(e) => Err(EngineError::Eval(e)),
    }
}

} // verus!
