//! The compiler: abstract syntax tree to addressable bytecode.
//!
//! Emission walks the tree once. A program counter starts at zero and grows
//! by exactly one per emitted instruction, with checked arithmetic; the
//! alternation, star and question forms first emit a `Split` or `Jump` with a
//! placeholder operand and patch it once the address after their children's
//! code is known. A trailing `Match` closes every program.

use vstd::prelude::*;

use crate::engine::Instruction;
use crate::engine::parser::{AST, AstV, ast_view, asts_view, lemma_asts_view};

verus! {

/// A code-generation error. `PCOverflow` reports that the program counter
/// left the representable range; the other conditions report a patched
/// instruction of the wrong shape, which a correct generator never produces
/// (the contracts below prove that only `PCOverflow` is ever returned).
#[derive(Debug, Clone, Copy, PartialEq, Eq, Structural)]
pub enum CodeGenError {
    PCOverflow,
    FailStar,
    FailOr,
    FailQuestion,
}

/// How many instructions a node compiles to.
pub open spec fn ast_size(a: AstV) -> nat
    decreases a,
{
    match a {
        AstV::Char(_) => 1,
        AstV::Dot => 1,
        AstV::Caret => 1,
        AstV::Dollar => 1,
        AstV::Plus(e) => ast_size(*e) + 1,
        AstV::Star(e) => ast_size(*e) + 2,
        AstV::Question(e) => ast_size(*e) + 1,
        AstV::Or(e1, e2) => ast_size(*e1) + ast_size(*e2) + 2,
        AstV::Concat(v) => concat_size(v),
    }
}

/// How many instructions a concatenation's children compile to.
pub open spec fn concat_size(v: Seq<AstV>) -> nat
    decreases v,
{
    if v.len() == 0 {
        0
    } else {
        ast_size(v[0]) + concat_size(v.drop_first())
    }
}

/// The nesting depth of a node: the measure that code emission recurses on.
pub open spec fn ast_height(a: AstV) -> nat
    decreases a,
{
    match a {
        AstV::Char(_) => 0,
        AstV::Dot => 0,
        AstV::Caret => 0,
        AstV::Dollar => 0,
        AstV::Plus(e) => ast_height(*e) + 1,
        AstV::Star(e) => ast_height(*e) + 1,
        AstV::Question(e) => ast_height(*e) + 1,
        AstV::Or(e1, e2) => {
            let h1 = ast_height(*e1);
            let h2 = ast_height(*e2);
            if h1 >= h2 {
                h1 + 1
            } else {
                h2 + 1
            }
        },
        AstV::Concat(v) => concat_height(v) + 1,
    }
}

/// The largest nesting depth among a concatenation's children.
pub open spec fn concat_height(v: Seq<AstV>) -> nat
    decreases v,
{
    if v.len() == 0 {
        0
    } else {
        let h0 = ast_height(v[0]);
        let hr = concat_height(v.drop_first());
        if h0 >= hr {
            h0
        } else {
            hr
        }
    }
}

/// No child of a concatenation is deeper than the concatenation's depth.
pub proof fn lemma_concat_height(v: Seq<AstV>)
    ensures
        forall|i: int| 0 <= i < v.len() ==> ast_height(v[i]) <= concat_height(v),
    decreases v,
{
    if v.len() > 0 {
        lemma_concat_height(v.drop_first());
        assert forall|i: int| 0 <= i < v.len() implies ast_height(v[i]) <= concat_height(
            v,
        ) by {
            if i > 0 {
                assert(v[i] == v.drop_first()[i - 1]);
            }
        }
    }
}

/// The code a node compiles to when emission starts at address `pc`.
pub open spec fn ast_code(a: AstV, pc: int) -> Seq<Instruction>
    decreases a,
{
    match a {
        AstV::Char(c) => seq![Instruction::Char(c)],
        AstV::Dot => seq![Instruction::Dot],
        AstV::Caret => seq![Instruction::Caret],
        AstV::Dollar => seq![Instruction::Dollar],
        AstV::Plus(e) => ast_code(*e, pc) + seq![
            Instruction::Split(pc as usize, (pc + ast_size(*e) + 1) as usize),
        ],
        AstV::Star(e) => seq![
            Instruction::Split((pc + 1) as usize, (pc + ast_size(*e) + 2) as usize),
        ] + ast_code(*e, pc + 1) + seq![Instruction::Jump(pc as usize)],
        AstV::Question(e) => seq![
            Instruction::Split((pc + 1) as usize, (pc + ast_size(*e) + 1) as usize),
        ] + ast_code(*e, pc + 1),
        AstV::Or(e1, e2) => seq![
            Instruction::Split((pc + 1) as usize, (pc + ast_size(*e1) + 2) as usize),
        ] + ast_code(*e1, pc + 1) + seq![
            Instruction::Jump((pc + ast_size(*e1) + ast_size(*e2) + 2) as usize),
        ] + ast_code(*e2, pc + ast_size(*e1) + 2),
        AstV::Concat(v) => concat_code(v, pc),
    }
}

/// The code of a concatenation's children, emitted in order from `pc`.
pub open spec fn concat_code(v: Seq<AstV>, pc: int) -> Seq<Instruction>
    decreases v,
{
    if v.len() == 0 {
        Seq::empty()
    } else {
        ast_code(v[0], pc) + concat_code(v.drop_first(), pc + ast_size(v[0]))
    }
}

/// What compilation returns: the tree's code followed by the one trailing
/// `Match`, or `PCOverflow` when the program counter cannot count that many
/// instructions.
pub open spec fn spec_get_code(a: AstV) -> Result<Seq<Instruction>, CodeGenError> {
    if ast_size(a) + 1 > usize::MAX {
        Err(CodeGenError::PCOverflow)
    } else {
        Ok(ast_code(a, 0).push(Instruction::Match))
    }
}

/// A node's code holds exactly as many instructions as the node's size.
pub proof fn lemma_ast_code_len(a: AstV, pc: int)
    ensures
        ast_code(a, pc).len() == ast_size(a),
    decreases a,
{
    match a {
        AstV::Plus(e) => lemma_ast_code_len(*e, pc),
        AstV::Star(e) => lemma_ast_code_len(*e, pc + 1),
        AstV::Question(e) => lemma_ast_code_len(*e, pc + 1),
        AstV::Or(e1, e2) => {
            lemma_ast_code_len(*e1, pc + 1);
            lemma_ast_code_len(*e2, pc + ast_size(*e1) + 2);
        },
        AstV::Concat(v) => lemma_concat_code_len(v, pc),
        _ => {},
    }
}

/// A concatenation's code holds exactly as many instructions as its size.
pub proof fn lemma_concat_code_len(v: Seq<AstV>, pc: int)
    ensures
        concat_code(v, pc).len() == concat_size(v),
    decreases v,
{
    if v.len() > 0 {
        lemma_ast_code_len(v[0], pc);
        lemma_concat_code_len(v.drop_first(), pc + ast_size(v[0]));
    }
}

/// Whether every address the instruction names lies in `[lo, hi]`.
pub open spec fn inst_targets_in(inst: Instruction, lo: int, hi: int) -> bool {
    match inst {
        Instruction::Jump(a) => lo <= a <= hi,
        Instruction::Split(a1, a2) => lo <= a1 <= hi && lo <= a2 <= hi,
        _ => true,
    }
}

/// Every address inside a node's code lies between the node's first address
/// and the address just past its code.
pub proof fn lemma_ast_code_targets(a: AstV, pc: int)
    requires
        0 <= pc,
        pc + ast_size(a) <= usize::MAX,
    ensures
        forall|k: int|
            0 <= k < ast_code(a, pc).len() ==> inst_targets_in(
                ast_code(a, pc)[k],
                pc,
                pc + ast_size(a),
            ),
    decreases a,
{
    lemma_ast_code_len(a, pc);
    let full = ast_code(a, pc);
    match a {
        AstV::Plus(e) => {
            lemma_ast_code_len(*e, pc);
            lemma_ast_code_targets(*e, pc);
            let c = ast_code(*e, pc);
            assert forall|k: int| 0 <= k < full.len() implies inst_targets_in(
                full[k],
                pc,
                pc + ast_size(a),
            ) by {
                if k < c.len() {
                    assert(full[k] == c[k]);
                    assert(inst_targets_in(c[k], pc, pc + ast_size(*e)));
                } else {
                    assert(full[k] == Instruction::Split(
                        pc as usize,
                        (pc + ast_size(*e) + 1) as usize,
                    ));
                }
            }
        },
        AstV::Star(e) => {
            lemma_ast_code_len(*e, pc + 1);
            lemma_ast_code_targets(*e, pc + 1);
            let c = ast_code(*e, pc + 1);
            assert forall|k: int| 0 <= k < full.len() implies inst_targets_in(
                full[k],
                pc,
                pc + ast_size(a),
            ) by {
                if k == 0 {
                    assert(full[k] == Instruction::Split(
                        (pc + 1) as usize,
                        (pc + ast_size(*e) + 2) as usize,
                    ));
                } else if k < 1 + c.len() {
                    assert(full[k] == c[k - 1]);
                    assert(inst_targets_in(c[k - 1], pc + 1, pc + 1 + ast_size(*e)));
                } else {
                    assert(full[k] == Instruction::Jump(pc as usize));
                }
            }
        },
        AstV::Question(e) => {
            lemma_ast_code_len(*e, pc + 1);
            lemma_ast_code_targets(*e, pc + 1);
            let c = ast_code(*e, pc + 1);
            assert forall|k: int| 0 <= k < full.len() implies inst_targets_in(
                full[k],
                pc,
                pc + ast_size(a),
            ) by {
                if k == 0 {
                    assert(full[k] == Instruction::Split(
                        (pc + 1) as usize,
                        (pc + ast_size(*e) + 1) as usize,
                    ));
                } else {
                    assert(full[k] == c[k - 1]);
                    assert(inst_targets_in(c[k - 1], pc + 1, pc + 1 + ast_size(*e)));
                }
            }
        },
        AstV::Or(e1, e2) => {
            let s1 = ast_size(*e1) as int;
            let s2 = ast_size(*e2) as int;
            lemma_ast_code_len(*e1, pc + 1);
            lemma_ast_code_len(*e2, pc + s1 + 2);
            lemma_ast_code_targets(*e1, pc + 1);
            lemma_ast_code_targets(*e2, pc + s1 + 2);
            let c1 = ast_code(*e1, pc + 1);
            let c2 = ast_code(*e2, pc + s1 + 2);
            assert forall|k: int| 0 <= k < full.len() implies inst_targets_in(
                full[k],
                pc,
                pc + ast_size(a),
            ) by {
                if k == 0 {
                    assert(full[k] == Instruction::Split(
                        (pc + 1) as usize,
                        (pc + s1 + 2) as usize,
                    ));
                } else if k < 1 + s1 {
                    assert(full[k] == c1[k - 1]);
                    assert(inst_targets_in(c1[k - 1], pc + 1, pc + 1 + s1));
                } else if k == 1 + s1 {
                    assert(full[k] == Instruction::Jump((pc + s1 + s2 + 2) as usize));
                } else {
                    assert(full[k] == c2[k - (s1 + 2)]);
                    assert(inst_targets_in(c2[k - (s1 + 2)], pc + s1 + 2, pc + s1 + 2 + s2));
                }
            }
        },
        AstV::Concat(v) => {
            lemma_concat_code_targets(v, pc);
            assert forall|k: int| 0 <= k < full.len() implies inst_targets_in(
                full[k],
                pc,
                pc + ast_size(a),
            ) by {
                assert(full[k] == concat_code(v, pc)[k]);
                assert(inst_targets_in(concat_code(v, pc)[k], pc, pc + concat_size(v)));
            }
        },
        AstV::Char(ch) => {
            assert(full[0] == Instruction::Char(ch));
        },
        AstV::Dot => {
            assert(full[0] == Instruction::Dot);
        },
        AstV::Caret => {
            assert(full[0] == Instruction::Caret);
        },
        AstV::Dollar => {
            assert(full[0] == Instruction::Dollar);
        },
    }
}

/// Every address inside a concatenation's code lies between its first
/// address and the address just past its code.
pub proof fn lemma_concat_code_targets(v: Seq<AstV>, pc: int)
    requires
        0 <= pc,
        pc + concat_size(v) <= usize::MAX,
    ensures
        forall|k: int|
            0 <= k < concat_code(v, pc).len() ==> inst_targets_in(
                concat_code(v, pc)[k],
                pc,
                pc + concat_size(v),
            ),
    decreases v,
{
    lemma_concat_code_len(v, pc);
    if v.len() > 0 {
        let s0 = ast_size(v[0]) as int;
        lemma_ast_code_len(v[0], pc);
        lemma_concat_code_len(v.drop_first(), pc + s0);
        lemma_ast_code_targets(v[0], pc);
        lemma_concat_code_targets(v.drop_first(), pc + s0);
        let c0 = ast_code(v[0], pc);
        let rest = concat_code(v.drop_first(), pc + s0);
        let full = concat_code(v, pc);
        assert forall|k: int| 0 <= k < full.len() implies inst_targets_in(
            full[k],
            pc,
            pc + concat_size(v),
        ) by {
            if k < c0.len() {
                assert(full[k] == c0[k]);
                assert(inst_targets_in(c0[k], pc, pc + s0));
            } else {
                assert(full[k] == rest[k - c0.len()]);
                assert(inst_targets_in(rest[k - c0.len()], pc + s0, pc + s0 + concat_size(v.drop_first())));
            }
        }
    }
}

/// Compilation is deterministic: two compilations of the same tree yield
/// identical instruction sequences or the same error.
pub proof fn lemma_get_code_deterministic(
    a: AstV,
    r1: Result<Seq<Instruction>, CodeGenError>,
    r2: Result<Seq<Instruction>, CodeGenError>,
)
    requires
        r1 == spec_get_code(a),
        r2 == spec_get_code(a),
    ensures
        r1 == r2,
{
}

/// Compiles a syntax tree into a program. The result, success or error, is
/// exactly what `spec_get_code` says of the tree.
pub fn get_code(ast: &AST) -> (r: Result<Vec<Instruction>, CodeGenError>)
    ensures
        match r {
            Ok(code) => spec_get_code(ast_view(*ast)) == Ok::<Seq<Instruction>, CodeGenError>(
                code@,
            ),
            Err(e) => spec_get_code(ast_view(*ast)) == Err::<Seq<Instruction>, CodeGenError>(e),
        },
{
    let mut generator = Generator { pc: 0, insts: Vec::new() };
    match generator.gen_code(ast) {
        Ok(()) => {
            proof {
                assert(Seq::<Instruction>::empty() + ast_code(ast_view(*ast), 0).push(
                    Instruction::Match,
                ) =~= ast_code(ast_view(*ast), 0).push(Instruction::Match));
            }
            Ok(generator.insts)
        },
        Err(e) => Err(e),
    }
}

/// The code generator: a program counter and the instructions emitted so far.
struct Generator {
    pc: usize,
    insts: Vec<Instruction>,
}

/// What every emitting method promises of the node `a` it emits: success
/// exactly when the counter can count the node's code; on success the code
/// stands appended at the old counter; on failure only `PCOverflow` comes
/// back.
spec fn emits(old_g: Generator, new_g: Generator, r: Result<(), CodeGenError>, a: AstV) -> bool {
    &&& (r is Ok <==> old_g.pc + ast_size(a) <= usize::MAX)
    &&& (r is Ok ==> new_g.wf() && new_g.pc == old_g.pc + ast_size(a) && new_g.insts@
        == old_g.insts@ + ast_code(a, old_g.pc as int))
    &&& (r is Err ==> r == Err::<(), CodeGenError>(CodeGenError::PCOverflow))
}

impl Generator {
    /// The counter always equals the number of emitted instructions.
    spec fn wf(&self) -> bool {
        self.pc == self.insts@.len()
    }

    /// Advances the program counter by one, failing on overflow.
    fn inc_pc(&mut self) -> (r: Result<(), CodeGenError>)
        ensures
            old(self).pc < usize::MAX ==> r == Ok::<(), CodeGenError>(()) && final(self).pc
                == old(self).pc + 1 && final(self).insts@ == old(self).insts@,
            old(self).pc == usize::MAX ==> r == Err::<(), CodeGenError>(CodeGenError::PCOverflow)
                && *final(self) == *old(self),
    {
        let r = crate::helpers::safe_add(
            &mut self.pc,
            &1,
            (|| -> (e: CodeGenError)
                ensures
                    e == CodeGenError::PCOverflow,
                { CodeGenError::PCOverflow }),
        );
        match r {
            Ok(()) => Ok(()),
            Err(e) => Err(e),
        }
    }

    /// Emits the code of one node, whatever its kind.
    fn gen_expr(&mut self, ast: &AST) -> (r: Result<(), CodeGenError>)
        requires
            old(self).wf(),
        ensures
            emits(*old(self), *final(self), r, ast_view(*ast)),
        decreases ast_height(ast_view(*ast)), 1int,
    {
        match ast {
            AST::Char(c) => self.gen_char(*c),
            AST::Dot => self.gen_dot(),
            AST::Caret => self.gen_caret(),
            AST::Dollar => self.gen_dollar(),
            AST::Or(e1, e2) => self.gen_or(e1, e2),
            AST::Plus(e) => self.gen_plus(e),
            AST::Star(e) => self.gen_star(e),
            AST::Question(e) => self.gen_question(e),
            AST::Concat(v) => self.gen_seq(v),
        }
    }

    /// Emits the children of a concatenation in order.
    fn gen_seq(&mut self, exprs: &Vec<AST>) -> (r: Result<(), CodeGenError>)
        requires
            old(self).wf(),
        ensures
            emits(*old(self), *final(self), r, AstV::Concat(asts_view(exprs@))),
        decreases concat_height(asts_view(exprs@)), 9int,
    {
        let ghost av = asts_view(exprs@);
        let ghost base_pc = self.pc as int;
        let ghost base_insts = self.insts@;
        proof {
            lemma_asts_view(exprs@);
            assert(av.skip(0) =~= av);
        }
        let mut idx: usize = 0;
        while idx < exprs.len()
            invariant
                self.wf(),
                idx <= exprs@.len(),
                av == asts_view(exprs@),
                av.len() == exprs@.len(),
                base_pc == old(self).pc as int,
                base_insts == old(self).insts@,
                old(self).wf(),
                base_pc <= self.pc,
                base_pc + concat_size(av) == self.pc + concat_size(av.skip(idx as int)),
                base_insts + concat_code(av, base_pc) == self.insts@ + concat_code(
                    av.skip(idx as int),
                    self.pc as int,
                ),
            decreases exprs@.len() - idx,
        {
            let ghost pc_pre = self.pc as int;
            let ghost insts_pre = self.insts@;
            proof {
                lemma_concat_height(av);
                lemma_asts_view(exprs@);
                assert(av.skip(idx as int)[0] == av[idx as int]);
            }
            match self.gen_expr(&exprs[idx]) {
                Ok(()) => {},
                Err(e) => {
                    proof {
                        assert(av.skip(idx as int).len() > 0);
                        assert(concat_size(av.skip(idx as int)) == ast_size(
                            av.skip(idx as int)[0],
                        ) + concat_size(av.skip(idx as int).drop_first()));
                    }
                    return Err(e);
                },
            }
            proof {
                assert(av.skip(idx as int).drop_first() =~= av.skip(idx as int + 1));
                assert(insts_pre + (ast_code(av[idx as int], pc_pre) + concat_code(
                    av.skip(idx as int + 1),
                    self.pc as int,
                )) =~= (insts_pre + ast_code(av[idx as int], pc_pre)) + concat_code(
                    av.skip(idx as int + 1),
                    self.pc as int,
                ));
            }
            idx = idx + 1;
        }
        proof {
            assert(av.skip(av.len() as int) =~= Seq::<AstV>::empty());
            assert(self.insts@ + Seq::<Instruction>::empty() =~= self.insts@);
        }
        Ok(())
    }

    /// Emits one literal-symbol instruction.
    fn gen_char(&mut self, c: char) -> (r: Result<(), CodeGenError>)
        requires
            old(self).wf(),
        ensures
            emits(*old(self), *final(self), r, AstV::Char(c)),
    {
        let inst = Instruction::Char(c);
        proof {
            assert(old(self).insts@.push(inst) =~= old(self).insts@ + seq![inst]);
        }
        self.insts.push(inst);
        self.inc_pc()
    }

    /// Emits one any-symbol instruction.
    fn gen_dot(&mut self) -> (r: Result<(), CodeGenError>)
        requires
            old(self).wf(),
        ensures
            emits(*old(self), *final(self), r, AstV::Dot),
    {
        let inst = Instruction::Dot;
        proof {
            assert(old(self).insts@.push(inst) =~= old(self).insts@ + seq![inst]);
        }
        self.insts.push(inst);
        self.inc_pc()
    }

    /// Emits one start-of-line assertion instruction.
    fn gen_caret(&mut self) -> (r: Result<(), CodeGenError>)
        requires
            old(self).wf(),
        ensures
            emits(*old(self), *final(self), r, AstV::Caret),
    {
        let inst = Instruction::Caret;
        proof {
            assert(old(self).insts@.push(inst) =~= old(self).insts@ + seq![inst]);
        }
        self.insts.push(inst);
        self.inc_pc()
    }

    /// Emits one end-of-input assertion instruction.
    fn gen_dollar(&mut self) -> (r: Result<(), CodeGenError>)
        requires
            old(self).wf(),
        ensures
            emits(*old(self), *final(self), r, AstV::Dollar),
    {
        let inst = Instruction::Dollar;
        proof {
            assert(old(self).insts@.push(inst) =~= old(self).insts@ + seq![inst]);
        }
        self.insts.push(inst);
        self.inc_pc()
    }

    /// Emits an alternation: a `Split` over the two branches and a `Jump`
    /// past the second, both patched once the branch addresses are known.
    fn gen_or(&mut self, e1: &AST, e2: &AST) -> (r: Result<(), CodeGenError>)
        requires
            old(self).wf(),
        ensures
            emits(
                *old(self),
                *final(self),
                r,
                AstV::Or(Box::new(ast_view(*e1)), Box::new(ast_view(*e2))),
            ),
        decreases (if ast_height(ast_view(*e1)) >= ast_height(ast_view(*e2)) {
            ast_height(ast_view(*e1))
        } else {
            ast_height(ast_view(*e2))
        }), 9int,
    {
        let ghost node = AstV::Or(Box::new(ast_view(*e1)), Box::new(ast_view(*e2)));
        let ghost pc0 = self.pc as int;
        let ghost base = self.insts@;
        let split_addr = self.pc;

        match self.inc_pc() {
            Ok(()) => {},
            Err(e) => {
                return Err(e);
            },
        }
        let split = Instruction::Split(self.pc, 0);
        self.insts.push(split);

        match self.gen_expr(e1) {
            Ok(()) => {},
            Err(e) => {
                return Err(e);
            },
        }

        let jmp_addr = self.pc;
        self.insts.push(Instruction::Jump(0));
        match self.inc_pc() {
            Ok(()) => {},
            Err(e) => {
                return Err(e);
            },
        }

        let cur = self.insts[split_addr];
        match cur {
            Instruction::Split(l1, _) => {
                self.insts[split_addr] = Instruction::Split(l1, self.pc);
            },
            _ => {
                return Err(CodeGenError::FailOr);
            },
        }

        match self.gen_expr(e2) {
            Ok(()) => {},
            Err(e) => {
                return Err(e);
            },
        }

        let cur2 = self.insts[jmp_addr];
        match cur2 {
            Instruction::Jump(_) => {
                self.insts[jmp_addr] = Instruction::Jump(self.pc);
            },
            _ => {
                return Err(CodeGenError::FailOr);
            },
        }
        proof {
            lemma_ast_code_len(ast_view(*e1), pc0 + 1);
            lemma_ast_code_len(ast_view(*e2), pc0 + ast_size(ast_view(*e1)) + 2);
            assert(self.insts@ =~= base + ast_code(node, pc0));
        }
        Ok(())
    }

    /// Emits a question: a `Split` into the child's code, patched to also
    /// reach the address just past it.
    fn gen_question(&mut self, e: &AST) -> (r: Result<(), CodeGenError>)
        requires
            old(self).wf(),
        ensures
            emits(*old(self), *final(self), r, AstV::Question(Box::new(ast_view(*e)))),
        decreases ast_height(ast_view(*e)), 9int,
    {
        let ghost node = AstV::Question(Box::new(ast_view(*e)));
        let ghost pc0 = self.pc as int;
        let ghost base = self.insts@;
        let split_addr = self.pc;
        match self.inc_pc() {
            Ok(()) => {},
            Err(e2) => {
                return Err(e2);
            },
        }
        let split = Instruction::Split(self.pc, 0);
        self.insts.push(split);

        match self.gen_expr(e) {
            Ok(()) => {},
            Err(e2) => {
                return Err(e2);
            },
        }

        let cur = self.insts[split_addr];
        match cur {
            Instruction::Split(l1, _) => {
                self.insts[split_addr] = Instruction::Split(l1, self.pc);
                proof {
                    lemma_ast_code_len(ast_view(*e), pc0 + 1);
                    assert(self.insts@ =~= base + ast_code(node, pc0));
                }
                Ok(())
            },
            _ => Err(CodeGenError::FailQuestion),
        }
    }

    /// Emits a plus: the child's code followed by a `Split` back to it.
    fn gen_plus(&mut self, e: &AST) -> (r: Result<(), CodeGenError>)
        requires
            old(self).wf(),
        ensures
            emits(*old(self), *final(self), r, AstV::Plus(Box::new(ast_view(*e)))),
        decreases ast_height(ast_view(*e)), 9int,
    {
        let ghost node = AstV::Plus(Box::new(ast_view(*e)));
        let ghost pc0 = self.pc as int;
        let ghost base = self.insts@;
        let l1 = self.pc;
        match self.gen_expr(e) {
            Ok(()) => {},
            Err(e2) => {
                return Err(e2);
            },
        }
        match self.inc_pc() {
            Ok(()) => {},
            Err(e2) => {
                return Err(e2);
            },
        }
        let split = Instruction::Split(l1, self.pc);
        self.insts.push(split);
        proof {
            lemma_ast_code_len(ast_view(*e), pc0);
            assert(self.insts@ =~= base + ast_code(node, pc0));
        }
        Ok(())
    }

    /// Emits a star: a `Split` over the child's code and the exit, the child,
    /// and a `Jump` back to the `Split`, whose exit address is then patched.
    fn gen_star(&mut self, e: &AST) -> (r: Result<(), CodeGenError>)
        requires
            old(self).wf(),
        ensures
            emits(*old(self), *final(self), r, AstV::Star(Box::new(ast_view(*e)))),
        decreases ast_height(ast_view(*e)), 9int,
    {
        let ghost node = AstV::Star(Box::new(ast_view(*e)));
        let ghost pc0 = self.pc as int;
        let ghost base = self.insts@;
        let l1 = self.pc;
        match self.inc_pc() {
            Ok(()) => {},
            Err(e2) => {
                return Err(e2);
            },
        }
        let split = Instruction::Split(self.pc, 0);
        self.insts.push(split);

        match self.gen_expr(e) {
            Ok(()) => {},
            Err(e2) => {
                return Err(e2);
            },
        }

        match self.inc_pc() {
            Ok(()) => {},
            Err(e2) => {
                return Err(e2);
            },
        }
        self.insts.push(Instruction::Jump(l1));

        let cur = self.insts[l1];
        match cur {
            Instruction::Split(l2, _) => {
                self.insts[l1] = Instruction::Split(l2, self.pc);
                proof {
                    lemma_ast_code_len(ast_view(*e), pc0 + 1);
                    assert(self.insts@ =~= base + ast_code(node, pc0));
                }
                Ok(())
            },
            _ => Err(CodeGenError::FailStar),
        }
    }

    /// Emits the whole tree and the one trailing `Match`.
    fn gen_code(&mut self, ast: &AST) -> (r: Result<(), CodeGenError>)
        requires
            old(self).wf(),
        ensures
            r is Ok <==> old(self).pc + ast_size(ast_view(*ast)) + 1 <= usize::MAX,
            r is Ok ==> final(self).insts@ == old(self).insts@ + ast_code(
                ast_view(*ast),
                old(self).pc as int,
            ).push(Instruction::Match),
            r is Err ==> r == Err::<(), CodeGenError>(CodeGenError::PCOverflow),
    {
        match self.gen_expr(ast) {
            Ok(()) => {},
            Err(e) => {
                return Err(e);
            },
        }
        match self.inc_pc() {
            Ok(()) => {},
            Err(e) => {
                return Err(e);
            },
        }
        self.insts.push(Instruction::Match);
        proof {
            assert(self.insts@ =~= old(self).insts@ + ast_code(
                ast_view(*ast),
                old(self).pc as int,
            ).push(Instruction::Match));
        }
        Ok(())
    }
}

/// A node's code never holds `Match`: the one `Match` of a program is the
/// trailing one appended after the whole tree.
pub proof fn lemma_ast_code_no_match(a: AstV, pc: int)
    ensures
        forall|k: int|
            0 <= k < ast_code(a, pc).len() ==> ast_code(a, pc)[k] != Instruction::Match,
    decreases a,
{
    lemma_ast_code_len(a, pc);
    let full = ast_code(a, pc);
    match a {
        AstV::Plus(e) => {
            lemma_ast_code_len(*e, pc);
            lemma_ast_code_no_match(*e, pc);
            let c = ast_code(*e, pc);
            assert forall|k: int| 0 <= k < full.len() implies full[k] != Instruction::Match by {
                if k < c.len() {
                    assert(full[k] == c[k]);
                }
            }
        },
        AstV::Star(e) => {
            lemma_ast_code_len(*e, pc + 1);
            lemma_ast_code_no_match(*e, pc + 1);
            let c = ast_code(*e, pc + 1);
            assert forall|k: int| 0 <= k < full.len() implies full[k] != Instruction::Match by {
                if 1 <= k < 1 + c.len() {
                    assert(full[k] == c[k - 1]);
                }
            }
        },
        AstV::Question(e) => {
            lemma_ast_code_len(*e, pc + 1);
            lemma_ast_code_no_match(*e, pc + 1);
            let c = ast_code(*e, pc + 1);
            assert forall|k: int| 0 <= k < full.len() implies full[k] != Instruction::Match by {
                if 1 <= k {
                    assert(full[k] == c[k - 1]);
                }
            }
        },
        AstV::Or(e1, e2) => {
            let s1 = ast_size(*e1) as int;
            lemma_ast_code_len(*e1, pc + 1);
            lemma_ast_code_len(*e2, pc + s1 + 2);
            lemma_ast_code_no_match(*e1, pc + 1);
            lemma_ast_code_no_match(*e2, pc + s1 + 2);
            let c1 = ast_code(*e1, pc + 1);
            let c2 = ast_code(*e2, pc + s1 + 2);
            assert forall|k: int| 0 <= k < full.len() implies full[k] != Instruction::Match by {
                if 1 <= k < 1 + s1 {
                    assert(full[k] == c1[k - 1]);
                } else if 1 + s1 < k {
                    assert(full[k] == c2[k - (s1 + 2)]);
                }
            }
        },
        AstV::Concat(v) => {
            lemma_concat_code_no_match(v, pc);
            assert forall|k: int| 0 <= k < full.len() implies full[k] != Instruction::Match by {
                assert(full[k] == concat_code(v, pc)[k]);
            }
        },
        _ => {},
    }
}

/// A concatenation's code never holds `Match` either.
pub proof fn lemma_concat_code_no_match(v: Seq<AstV>, pc: int)
    ensures
        forall|k: int|
            0 <= k < concat_code(v, pc).len() ==> concat_code(v, pc)[k] != Instruction::Match,
    decreases v,
{
    lemma_concat_code_len(v, pc);
    if v.len() > 0 {
        let s0 = ast_size(v[0]) as int;
        lemma_ast_code_len(v[0], pc);
        lemma_ast_code_no_match(v[0], pc);
        lemma_concat_code_no_match(v.drop_first(), pc + s0);
        let c0 = ast_code(v[0], pc);
        let rest = concat_code(v.drop_first(), pc + s0);
        let full = concat_code(v, pc);
        assert forall|k: int| 0 <= k < full.len() implies full[k] != Instruction::Match by {
            if k < c0.len() {
                assert(full[k] == c0[k]);
            } else {
                assert(full[k] == rest[k - c0.len()]);
            }
        }
    }
}

/// Every successfully compiled program ends in its one and only `Match`, and
/// every `Jump` and `Split` address is a valid index into the program.
pub proof fn lemma_compiled_program_wf(a: AstV, code: Seq<Instruction>)
    requires
        spec_get_code(a) == Ok::<Seq<Instruction>, CodeGenError>(code),
    ensures
        code.len() == ast_size(a) + 1,
        code.last() == Instruction::Match,
        forall|k: int| 0 <= k < code.len() - 1 ==> code[k] != Instruction::Match,
        forall|k: int|
            0 <= k < code.len() ==> inst_targets_in(code[k], 0, code.len() - 1),
{
    lemma_ast_code_len(a, 0);
    lemma_ast_code_targets(a, 0);
    lemma_ast_code_no_match(a, 0);
}

} // verus!
