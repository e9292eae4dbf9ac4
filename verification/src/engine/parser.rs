//! The parser: regular-expression text to abstract syntax tree.
//!
//! The expression is scanned left to right in two states, normal and escape.
//! A quantifier wraps the most recent item of the current concatenation, `(`
//! saves the working context on a stack, `)` restores it, and `|` collects
//! alternation branches that are folded right-nested at the end.

use vstd::prelude::*;

verus! {

/// The tree shape of a parsed expression. Each node owns its children;
/// `Concat` is an ordered concatenation.
#[derive(Debug, PartialEq, Eq)]
pub enum AST {
    /// One literal symbol.
    Char(char),
    /// Any one symbol.
    Dot,
    /// Start-of-line assertion.
    Caret,
    /// End-of-input assertion.
    Dollar,
    /// One or more repetitions.
    Plus(Box<AST>),
    /// Zero or more repetitions.
    Star(Box<AST>),
    /// Zero or one occurrence.
    Question(Box<AST>),
    /// Either of two alternatives.
    Or(Box<AST>, Box<AST>),
    /// An ordered concatenation.
    Concat(Vec<AST>),
}

/// The mathematical mirror of `AST` that the contracts speak of.
pub ghost enum AstV {
    Char(char),
    Dot,
    Caret,
    Dollar,
    Plus(Box<AstV>),
    Star(Box<AstV>),
    Question(Box<AstV>),
    Or(Box<AstV>, Box<AstV>),
    Concat(Seq<AstV>),
}

/// The abstract tree that an `AST` value stands for.
pub open spec fn ast_view(a: AST) -> AstV
    decreases a,
{
    match a {
        AST::Char(c) => AstV::Char(c),
        AST::Dot => AstV::Dot,
        AST::Caret => AstV::Caret,
        AST::Dollar => AstV::Dollar,
        AST::Plus(e) => AstV::Plus(Box::new(ast_view(*e))),
        AST::Star(e) => AstV::Star(Box::new(ast_view(*e))),
        AST::Question(e) => AstV::Question(Box::new(ast_view(*e))),
        AST::Or(a1, a2) => AstV::Or(Box::new(ast_view(*a1)), Box::new(ast_view(*a2))),
        AST::Concat(v) => AstV::Concat(asts_view(v@)),
    }
}

/// Elementwise `ast_view`.
pub open spec fn asts_view(s: Seq<AST>) -> Seq<AstV>
    decreases s,
{
    if s.len() == 0 {
        Seq::empty()
    } else {
        asts_view(s.drop_last()).push(ast_view(s.last()))
    }
}

/// `asts_view` maps the sequence pointwise.
pub proof fn lemma_asts_view(s: Seq<AST>)
    ensures
        asts_view(s).len() == s.len(),
        forall|i: int| 0 <= i < s.len() ==> asts_view(s)[i] == ast_view(s[i]),
    decreases s,
{
    if s.len() > 0 {
        lemma_asts_view(s.drop_last());
    }
}

/// A parse error, tagged with the character position where it was found.
#[derive(Debug, Clone, Copy, PartialEq, Eq, Structural)]
pub enum ParseError {
    /// The character after `\` is not one of the escapable ones.
    InvalidEscape(usize, char),
    /// A `)` with no open group.
    InvalidRightParen(usize),
    /// A quantifier or `|` with no expression before it.
    NoPrev(usize),
    /// A group was never closed.
    NoRightParen,
    /// The expression holds no branch at all.
    Empty,
}

/// The characters that an escape may name.
pub open spec fn is_escape_char(c: char) -> bool {
    c == '\\' || c == '(' || c == ')' || c == '|' || c == '+' || c == '*' || c == '?'
}

/// Folds branches `b1 .. bn` into the right-nested alternation
/// `Or(b1, Or(b2, .. bn))`; a single branch is returned unchanged.
pub open spec fn fold_or_branches(bs: Seq<AstV>) -> AstV
    decreases bs.len(),
{
    if bs.len() <= 1 {
        bs[0]
    } else {
        AstV::Or(Box::new(bs[0]), Box::new(fold_or_branches(bs.drop_first())))
    }
}

/// What `fold_or` returns: nothing for zero branches, the folded
/// alternation otherwise.
pub open spec fn spec_fold_or(bs: Seq<AstV>) -> Option<AstV> {
    if bs.len() == 0 {
        None
    } else {
        Some(fold_or_branches(bs))
    }
}

/// The parser's working context: the current concatenation, the current
/// alternation branches, the saved contexts of the open groups, and whether
/// an escape is being read.
pub ghost struct ParseSt {
    pub seq: Seq<AstV>,
    pub seq_or: Seq<AstV>,
    pub stack: Seq<(Seq<AstV>, Seq<AstV>)>,
    pub escape: bool,
}

/// The empty context that a parse starts in.
pub open spec fn init_parse_st() -> ParseSt {
    ParseSt { seq: Seq::empty(), seq_or: Seq::empty(), stack: Seq::empty(), escape: false }
}

/// The parse of `chars` from position `i` onward, started in context `st`.
pub open spec fn parse_from(chars: Seq<char>, i: nat, st: ParseSt) -> Result<AstV, ParseError>
    decreases chars.len() - i,
{
    if i >= chars.len() {
        if st.stack.len() > 0 {
            Err(ParseError::NoRightParen)
        } else {
            let branches = if st.seq.len() > 0 {
                st.seq_or.push(AstV::Concat(st.seq))
            } else {
                st.seq_or
            };
            match spec_fold_or(branches) {
                Some(a) => Ok(a),
                None => Err(ParseError::Empty),
            }
        }
    } else {
        let c = chars[i as int];
        if st.escape {
            if is_escape_char(c) {
                parse_from(chars, i + 1, ParseSt { seq: st.seq.push(AstV::Char(c)), escape: false, ..st })
            } else {
                Err(ParseError::InvalidEscape(i as usize, c))
            }
        } else if c == '+' || c == '*' || c == '?' {
            if st.seq.len() == 0 {
                Err(ParseError::NoPrev(i as usize))
            } else {
                let prev = st.seq.last();
                let wrapped = if c == '+' {
                    AstV::Plus(Box::new(prev))
                } else if c == '*' {
                    AstV::Star(Box::new(prev))
                } else {
                    AstV::Question(Box::new(prev))
                };
                parse_from(chars, i + 1, ParseSt { seq: st.seq.drop_last().push(wrapped), ..st })
            }
        } else if c == '(' {
            parse_from(chars, i + 1, ParseSt {
                seq: Seq::empty(),
                seq_or: Seq::empty(),
                stack: st.stack.push((st.seq, st.seq_or)),
                ..st
            })
        } else if c == ')' {
            if st.stack.len() == 0 {
                Err(ParseError::InvalidRightParen(i as usize))
            } else {
                let (prev, prev_or) = st.stack.last();
                let branches = if st.seq.len() > 0 {
                    st.seq_or.push(AstV::Concat(st.seq))
                } else {
                    st.seq_or
                };
                let restored = match spec_fold_or(branches) {
                    Some(a) => prev.push(a),
                    None => prev,
                };
                parse_from(chars, i + 1, ParseSt {
                    seq: restored,
                    seq_or: prev_or,
                    stack: st.stack.drop_last(),
                    ..st
                })
            }
        } else if c == '|' {
            if st.seq.len() == 0 {
                Err(ParseError::NoPrev(i as usize))
            } else {
                parse_from(chars, i + 1, ParseSt {
                    seq: Seq::empty(),
                    seq_or: st.seq_or.push(AstV::Concat(st.seq)),
                    ..st
                })
            }
        } else if c == '\\' {
            parse_from(chars, i + 1, ParseSt { escape: true, ..st })
        } else {
            parse_from(chars, i + 1, ParseSt { seq: st.seq.push(AstV::Char(c)), ..st })
        }
    }
}

/// The parse of a whole expression, started in the empty context.
pub open spec fn spec_parse(chars: Seq<char>) -> Result<AstV, ParseError> {
    parse_from(chars, 0, init_parse_st())
}

/// Parsing is deterministic: two parses of the same characters stand or
/// fall together, with structurally identical trees or the same error.
pub proof fn lemma_parse_deterministic(
    chars: Seq<char>,
    r1: Result<AstV, ParseError>,
    r2: Result<AstV, ParseError>,
)
    requires
        r1 == spec_parse(chars),
        r2 == spec_parse(chars),
    ensures
        r1 == r2,
{
}

/// The abstract contexts that a stack of saved buffers stands for.
pub open spec fn stack_view(s: Seq<(Vec<AST>, Vec<AST>)>) -> Seq<(Seq<AstV>, Seq<AstV>)> {
    Seq::new(s.len(), |i: int| (asts_view(s[i].0@), asts_view(s[i].1@)))
}

/// The abstract context that the parser's working buffers stand for.
pub open spec fn parse_ctx(
    seq: Seq<AST>,
    seq_or: Seq<AST>,
    stack: Seq<(Vec<AST>, Vec<AST>)>,
    escape: bool,
) -> ParseSt {
    ParseSt { seq: asts_view(seq), seq_or: asts_view(seq_or), stack: stack_view(stack), escape }
}

/// Appending one node appends its view.
pub proof fn lemma_asts_view_push(s: Seq<AST>, a: AST)
    ensures
        asts_view(s.push(a)) == asts_view(s).push(ast_view(a)),
{
    assert(s.push(a).drop_last() =~= s);
    assert(s.push(a).last() == a);
}

/// Saving one context appends its view.
pub proof fn lemma_stack_view_push(s: Seq<(Vec<AST>, Vec<AST>)>, p: (Vec<AST>, Vec<AST>))
    ensures
        stack_view(s.push(p)) == stack_view(s).push((asts_view(p.0@), asts_view(p.1@))),
{
    assert(stack_view(s.push(p)) =~= stack_view(s).push((asts_view(p.0@), asts_view(p.1@))));
}

/// Dropping the most recently saved context drops its view.
pub proof fn lemma_stack_view_pop(s: Seq<(Vec<AST>, Vec<AST>)>)
    requires
        s.len() > 0,
    ensures
        stack_view(s).len() == s.len(),
        stack_view(s.drop_last()) == stack_view(s).drop_last(),
        stack_view(s).last() == (asts_view(s.last().0@), asts_view(s.last().1@)),
{
    assert(stack_view(s.drop_last()) =~= stack_view(s).drop_last());
}

/// Dropping the most recent node drops its view.
pub proof fn lemma_asts_view_drop_last(s: Seq<AST>)
    requires
        s.len() > 0,
    ensures
        asts_view(s).len() == s.len(),
        asts_view(s.drop_last()) == asts_view(s).drop_last(),
        ast_view(s.last()) == asts_view(s).last(),
{
    lemma_asts_view(s);
    lemma_asts_view(s.drop_last());
    assert(asts_view(s.drop_last()) =~= asts_view(s).drop_last());
}

/// The parser's two scanning states.
enum ParseState {
    Normal,
    Escape,
}

/// Turns the escaped character at `pos` into a literal node, or rejects it.
pub fn parse_escape(pos: usize, c: char) -> (r: Result<AST, ParseError>)
    ensures
        is_escape_char(c) ==> r == Ok::<AST, ParseError>(AST::Char(c)),
        !is_escape_char(c) ==> r == Err::<AST, ParseError>(ParseError::InvalidEscape(pos, c)),
{
    match c {
        '\\' | '(' | ')' | '|' | '+' | '*' | '?' => Ok(AST::Char(c)),
        _ => Err(ParseError::InvalidEscape(pos, c)),
    }
}

/// The quantifier kinds that wrap a preceding expression.
pub enum PSQ {
    Plus,
    Star,
    Question,
}

/// The node that the given quantifier builds around a child.
pub open spec fn wrap_psq(t: PSQ, a: AstV) -> AstV {
    match t {
        PSQ::Plus => AstV::Plus(Box::new(a)),
        PSQ::Star => AstV::Star(Box::new(a)),
        PSQ::Question => AstV::Question(Box::new(a)),
    }
}

/// Wraps the most recent item of `seq` in the given quantifier; fails with
/// `NoPrev` when there is none.
pub fn parse_plus_star_question(seq: &mut Vec<AST>, ast_type: PSQ, pos: usize) -> (r: Result<
    (),
    ParseError,
>)
    ensures
        old(seq)@.len() == 0 ==> r == Err::<(), ParseError>(ParseError::NoPrev(pos))
            && final(seq)@ == old(seq)@,
        old(seq)@.len() > 0 ==> r == Ok::<(), ParseError>(())
            && asts_view(final(seq)@) == asts_view(old(seq)@).drop_last().push(
                wrap_psq(ast_type, asts_view(old(seq)@).last()),
            ),
{
    proof {
        lemma_asts_view(old(seq)@);
    }
    match seq.pop() {
        Some(prev) => {
            proof {
                lemma_asts_view_drop_last(old(seq)@);
            }
            let ast = match ast_type {
                PSQ::Plus => AST::Plus(Box::new(prev)),
                PSQ::Star => AST::Star(Box::new(prev)),
                PSQ::Question => AST::Question(Box::new(prev)),
            };
            proof {
                lemma_asts_view_push(old(seq)@.drop_last(), ast);
            }
            seq.push(ast);
            Ok(())
        },
        None => Err(ParseError::NoPrev(pos)),
    }
}

/// Folds the collected branches into one right-nested alternation; returns
/// nothing when there are no branches.
pub fn fold_or(seq_or: Vec<AST>) -> (r: Option<AST>)
    ensures
        match r {
            Some(a) => spec_fold_or(asts_view(seq_or@)) == Some(ast_view(a)),
            None => spec_fold_or(asts_view(seq_or@)) == None::<AstV>,
        },
{
    proof {
        lemma_asts_view(seq_or@);
    }
    let ghost all = asts_view(seq_or@);
    let mut work = seq_or;
    match work.pop() {
        None => None,
        Some(last_branch) => {
            proof {
                lemma_asts_view_drop_last(seq_or@);
            }
            let mut ast = last_branch;
            proof {
                assert(all.subrange(all.len() - 1, all.len() as int)[0] == all.last());
            }
            while work.len() > 0
                invariant
                    all.len() >= 1,
                    work@.len() < all.len(),
                    asts_view(work@) == all.subrange(0, work@.len() as int),
                    ast_view(ast) == fold_or_branches(
                        all.subrange(work@.len() as int, all.len() as int),
                    ),
                decreases work@.len(),
            {
                let ghost k = work@.len() as int;
                proof {
                    lemma_asts_view_drop_last(work@);
                }
                let s_opt = work.pop();
                let s = s_opt.unwrap();
                proof {
                    lemma_asts_view(work@);
                    assert(asts_view(work@) =~= all.subrange(0, k - 1));
                    assert(ast_view(s) == all[k - 1]);
                    let suffix = all.subrange(k - 1, all.len() as int);
                    assert(suffix.len() >= 2);
                    assert(suffix[0] == all[k - 1]);
                    assert(suffix.drop_first() =~= all.subrange(k, all.len() as int));
                }
                ast = AST::Or(Box::new(s), Box::new(ast));
            }
            proof {
                assert(all.subrange(0, all.len() as int) =~= all);
            }
            Some(ast)
        },
    }
}

/// Parses a regular expression into its syntax tree. The result, success or
/// error, is exactly what `spec_parse` says of the expression's characters.
pub fn parse(expr: &str) -> (r: Result<AST, ParseError>)
    ensures
        match r {
            Ok(ast) => spec_parse(expr@) == Ok::<AstV, ParseError>(ast_view(ast)),
            Err(e) => spec_parse(expr@) == Err::<AstV, ParseError>(e),
        },
{
    let n = expr.unicode_len();
    let mut seq: Vec<AST> = Vec::new();
    let mut seq_or: Vec<AST> = Vec::new();
    let mut stack: Vec<(Vec<AST>, Vec<AST>)> = Vec::new();
    let mut state = ParseState::Normal;
    let mut i: usize = 0;
    proof {
        assert(stack_view(stack@) =~= init_parse_st().stack);
        assert(parse_ctx(seq@, seq_or@, stack@, false) == init_parse_st());
    }
    while i < n
        invariant
            n as nat == expr@.len(),
            i <= n,
            parse_from(expr@, i as nat, parse_ctx(seq@, seq_or@, stack@, state is Escape))
                == spec_parse(expr@),
        decreases n - i,
    {
        let ghost st0 = parse_ctx(seq@, seq_or@, stack@, state is Escape);
        let c = expr.get_char(i);
        match state {
            ParseState::Normal => {
                match c {
                    '+' | '*' | '?' => {
                        let t = if c == '+' {
                            PSQ::Plus
                        } else if c == '*' {
                            PSQ::Star
                        } else {
                            PSQ::Question
                        };
                        proof {
                            if seq@.len() > 0 {
                                lemma_asts_view_drop_last(seq@);
                            } else {
                                assert(st0.seq.len() == 0);
                            }
                        }
                        match parse_plus_star_question(&mut seq, t, i) {
                            Ok(()) => {},
                            Err(e) => {
                                return Err(e);
                            },
                        }
                    },
                    '(' => {
                        let prev = seq;
                        let prev_or = seq_or;
                        seq = Vec::new();
                        seq_or = Vec::new();
                        proof {
                            lemma_stack_view_push(stack@, (prev, prev_or));
                        }
                        stack.push((prev, prev_or));
                    },
                    ')' => {
                        proof {
                            if stack@.len() > 0 {
                                lemma_stack_view_pop(stack@);
                            }
                        }
                        match stack.pop() {
                            None => {
                                return Err(ParseError::InvalidRightParen(i));
                            },
                            Some(pair) => {
                                let (prev, prev_or) = pair;
                                let mut restored = prev;
                                if seq.len() > 0 {
                                    proof {
                                        lemma_asts_view_push(seq_or@, AST::Concat(seq));
                                    }
                                    seq_or.push(AST::Concat(seq));
                                }
                                match fold_or(seq_or) {
                                    Some(ast) => {
                                        proof {
                                            lemma_asts_view_push(restored@, ast);
                                        }
                                        restored.push(ast);
                                    },
                                    None => {},
                                }
                                seq = restored;
                                seq_or = prev_or;
                            },
                        }
                    },
                    '|' => {
                        if seq.len() == 0 {
                            return Err(ParseError::NoPrev(i));
                        } else {
                            let prev = seq;
                            seq = Vec::new();
                            proof {
                                lemma_asts_view_push(seq_or@, AST::Concat(prev));
                            }
                            seq_or.push(AST::Concat(prev));
                        }
                    },
                    '\\' => {
                        state = ParseState::Escape;
                    },
                    _ => {
                        proof {
                            lemma_asts_view_push(seq@, AST::Char(c));
                        }
                        seq.push(AST::Char(c));
                    },
                }
            },
            ParseState::Escape => {
                match parse_escape(i, c) {
                    Ok(ast) => {
                        proof {
                            lemma_asts_view_push(seq@, AST::Char(c));
                        }
                        seq.push(ast);
                        state = ParseState::Normal;
                    },
                    Err(e) => {
                        return Err(e);
                    },
                }
            },
        }
        proof {
            // One case per character class, so that the solver unfolds
            // `parse_from` at `i` against the arm that actually ran.
            let st1 = parse_ctx(seq@, seq_or@, stack@, state is Escape);
            if st0.escape {
                assert(parse_from(expr@, i as nat, st0) == parse_from(expr@, i as nat + 1, st1));
            } else if c == '+' || c == '*' || c == '?' {
                assert(parse_from(expr@, i as nat, st0) == parse_from(expr@, i as nat + 1, st1));
            } else if c == '(' {
                assert(parse_from(expr@, i as nat, st0) == parse_from(expr@, i as nat + 1, st1));
            } else if c == ')' {
                assert(parse_from(expr@, i as nat, st0) == parse_from(expr@, i as nat + 1, st1));
            } else if c == '|' {
                assert(parse_from(expr@, i as nat, st0) == parse_from(expr@, i as nat + 1, st1));
            } else if c == '\\' {
                assert(parse_from(expr@, i as nat, st0) == parse_from(expr@, i as nat + 1, st1));
            } else {
                assert(parse_from(expr@, i as nat, st0) == parse_from(expr@, i as nat + 1, st1));
            }
        }
        i = i + 1;
    }
    if stack.len() > 0 {
        return Err(ParseError::NoRightParen);
    }
    if seq.len() > 0 {
        proof {
            lemma_asts_view_push(seq_or@, AST::Concat(seq));
        }
        seq_or.push(AST::Concat(seq));
    }
    match fold_or(seq_or) {
        Some(ast) => Ok(ast),
        None => Err(ParseError::Empty),
    }
}

} // verus!
