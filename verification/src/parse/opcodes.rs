//! The instruction tree and its mathematical model.

use vstd::prelude::*;
use vstd::string::StringExecFns;

verus! {

/// One instruction. `Loop` owns its body; `Clear` only comes out of the optimizer.
#[derive(Debug, PartialEq)]
pub enum OpCodes {
    Add(u32),
    Sub(u32),
    Inc(u32),
    Dec(u32),
    Output,
    Input,
    Loop(Vec<Tokens>),
    // Special optimizations
    Clear,
}

/// An instruction together with the place in the source it came from.
#[derive(Debug, PartialEq)]
pub struct Tokens {
    code: OpCodes,
    line: u32,
    column: u32,
}

/// The model of an instruction: a loop body is a sequence of nodes.
pub ghost enum Op {
    Add(u32),
    Sub(u32),
    Inc(u32),
    Dec(u32),
    Output,
    Input,
    Loop(Seq<Node>),
    Clear,
}

/// The model of a positioned instruction.
pub ghost struct Node {
    pub op: Op,
    pub location: (u32, u32),
}

impl OpCodes {
    /// The instruction this value stands for.
    pub open spec fn model(self) -> Op
        decreases self,
    {
        match self {
            OpCodes::Add(n) => Op::Add(n),
            OpCodes::Sub(n) => Op::Sub(n),
            OpCodes::Inc(n) => Op::Inc(n),
            OpCodes::Dec(n) => Op::Dec(n),
            OpCodes::Output => Op::Output,
            OpCodes::Input => Op::Input,
            OpCodes::Loop(body) => Op::Loop(
                Seq::new(
                    body@.len(),
                    |i: int|
                        if 0 <= i < body@.len() {
                            body@[i].model()
                        } else {
                            arbitrary()
                        },
                ),
            ),
            OpCodes::Clear => Op::Clear,
        }
    }
}

impl Tokens {
    /// The positioned instruction this value stands for.
    pub closed spec fn model(self) -> Node
        decreases self,
    {
        Node { op: self.code.model(), location: (self.line, self.column) }
    }
}

/// The model of a whole scope: the model of each of its tokens, in order.
pub open spec fn tree(tokens: Seq<Tokens>) -> Seq<Node> {
    Seq::new(tokens.len(), |i: int| tokens[i].model())
}

impl Tokens {
    /// The instruction `code` at `location`, given as line and column.
    pub fn new(code: OpCodes, location: (u32, u32)) -> (token: Self)
        ensures
            token.model() == (Node { op: code.model(), location }),
    {
        Tokens { code, line: location.0, column: location.1 }
    }

    /// The instruction. It is a part of the token, so whatever is done along
    /// the tree can go from a token down into its instruction.
    pub fn get_type(&self) -> (code: &OpCodes)
        ensures
            code.model() == self.model().op,
            decreases_to!(self => code),
    {
        &self.code
    }

    /// The place in the source, as line and column.
    pub fn get_location(&self) -> (location: (u32, u32))
        ensures
            location == self.model().location,
    {
        (self.line, self.column)
    }
}

/// The instruction that undoes `op`, for the four that have one.
pub open spec fn opposite_op(op: Op) -> Option<Op> {
    match op {
        Op::Add(n) => Some(Op::Sub(n)),
        Op::Sub(n) => Some(Op::Add(n)),
        Op::Inc(n) => Some(Op::Dec(n)),
        Op::Dec(n) => Some(Op::Inc(n)),
        _ => None,
    }
}

impl OpCodes {
    /// The instruction that undoes this one: add and subtract, forward and
    /// backward, with the same count. The others have none.
    pub fn opposite(&self) -> (other: Option<Self>)
        ensures
            match other {
                Some(code) => opposite_op(self.model()) == Some(code.model()),
                None => opposite_op(self.model()) is None,
            },
    {
        match self {
            OpCodes::Add(x) => Some(OpCodes::Sub(*x)),
            OpCodes::Sub(x) => Some(OpCodes::Add(*x)),
            OpCodes::Inc(x) => Some(OpCodes::Dec(*x)),
            OpCodes::Dec(x) => Some(OpCodes::Inc(*x)),
            _ => None,
        }
    }
}

/// The model of a loop is a loop over the model of its body.
pub proof fn lemma_loop_model(body: Vec<Tokens>)
    ensures
        OpCodes::Loop(body).model() == Op::Loop(tree(body@)),
{
    assert(OpCodes::Loop(body).model()->Loop_0 =~= tree(body@));
}

/// A deep copy of an instruction.
pub fn copy_op(code: &OpCodes) -> (copy: OpCodes)
    ensures
        copy.model() == code.model(),
    decreases code,
{
    match code {
        OpCodes::Add(n) => OpCodes::Add(*n),
        OpCodes::Sub(n) => OpCodes::Sub(*n),
        OpCodes::Inc(n) => OpCodes::Inc(*n),
        OpCodes::Dec(n) => OpCodes::Dec(*n),
        OpCodes::Output => OpCodes::Output,
        OpCodes::Input => OpCodes::Input,
        OpCodes::Loop(body) => {
            let copy = copy_tree(body);
            proof {
                lemma_loop_model(*body);
                lemma_loop_model(copy);
            }
            OpCodes::Loop(copy)
        },
        OpCodes::Clear => OpCodes::Clear,
    }
}

/// A deep copy of a scope.
pub fn copy_tree(ast: &Vec<Tokens>) -> (copy: Vec<Tokens>)
    ensures
        tree(copy@) == tree(ast@),
    decreases ast,
{
    let mut copy: Vec<Tokens> = Vec::new();
    let mut i: usize = 0;
    while i < ast.len()
        invariant
            i <= ast.len(),
            copy@.len() == i,
            forall|k: int| 0 <= k < i ==> copy@[k].model() == ast@[k].model(),
        decreases ast.len() - i,
    {
        let token = &ast[i];
        copy.push(Tokens { code: copy_op(&token.code), line: token.line, column: token.column });
        i += 1;
    }
    assert(tree(copy@) =~= tree(ast@));
    copy
}

impl Clone for OpCodes {
    /// A deep copy: it stands for the same instruction.
    fn clone(&self) -> (copy: Self)
        ensures
            copy.model() == self.model(),
    {
        copy_op(self)
    }
}

impl Clone for Tokens {
    /// A deep copy: it stands for the same instruction at the same place.
    fn clone(&self) -> (copy: Self)
        ensures
            copy.model() == self.model(),
    {
        Tokens { code: copy_op(&self.code), line: self.line, column: self.column }
    }
}

/// The character `c`, `n` times.
pub open spec fn repeated(c: char, n: nat) -> Seq<char> {
    Seq::new(n, |i: int| c)
}

/// An instruction as source text: a count becomes that many commands, a
/// loop its brackets around its body, and `Clear` the loop `[-]`.
pub open spec fn op_text(op: Op) -> Seq<char>
    decreases op,
{
    match op {
        Op::Add(x) => repeated('+', x as nat),
        Op::Sub(x) => repeated('-', x as nat),
        Op::Inc(x) => repeated('>', x as nat),
        Op::Dec(x) => repeated('<', x as nat),
        Op::Output => seq!['.'],
        Op::Input => seq![','],
        Op::Clear => seq!['[', '-', ']'],
        Op::Loop(body) => seq!['['] + scope_text(body, 0) + seq![']'],
    }
}

/// The nodes of `scope` from index `i` on as source text, one behind the
/// other.
pub open spec fn scope_text(scope: Seq<Node>, i: int) -> Seq<char>
    decreases scope, scope.len() - i,
{
    if 0 <= i < scope.len() {
        op_text(scope[i].op) + scope_text(scope, i + 1)
    } else {
        Seq::empty()
    }
}

/// Appends the one character of `piece` to `text`, `n` times.
fn fill(text: &mut String, piece: &str, n: u32)
    requires
        piece@.len() == 1,
    ensures
        final(text)@ == old(text)@ + repeated(piece@[0], n as nat),
{
    let mut i: u32 = 0;
    while i < n
        invariant
            i <= n,
            piece@.len() == 1,
            text@ == old(text)@ + repeated(piece@[0], i as nat),
        decreases n - i,
    {
        text.append(piece);
        i += 1;
        assert(text@ =~= old(text)@ + repeated(piece@[0], i as nat));
    }
}

/// A scope as source text.
pub fn scope_to_string(ast: &Vec<Tokens>) -> (text: String)
    ensures
        text@ == scope_text(tree(ast@), 0),
    decreases ast,
{
    let ghost scope = tree(ast@);
    let mut text = String::new();
    let mut i: usize = 0;
    while i < ast.len()
        invariant
            i <= ast.len(),
            scope == tree(ast@),
            text@ + scope_text(scope, i as int) == scope_text(scope, 0),
        decreases ast.len() - i,
    {
        let ghost before = text@;
        assert(scope[i as int] == ast@[i as int].model());
        let item = ast[i].code.to_string();
        text.append(item.as_str());
        i += 1;
        assert(text@ + scope_text(scope, i as int) =~= before + scope_text(scope, i - 1));
    }
    assert(text@ + Seq::<char>::empty() =~= text@);
    text
}

impl OpCodes {
    /// The instruction as source text.
    pub fn to_string(&self) -> (text: String)
        ensures
            text@ == op_text(self.model()),
        decreases self,
    {
        proof {
            reveal_strlit("+");
            reveal_strlit("-");
            reveal_strlit(">");
            reveal_strlit("<");
            reveal_strlit(".");
            reveal_strlit(",");
            reveal_strlit("[-]");
            reveal_strlit("[");
            reveal_strlit("]");
        }
        let mut text = String::new();
        match self {
            OpCodes::Add(x) => {
                fill(&mut text, "+", *x);
            },
            OpCodes::Sub(x) => {
                fill(&mut text, "-", *x);
            },
            OpCodes::Inc(x) => {
                fill(&mut text, ">", *x);
            },
            OpCodes::Dec(x) => {
                fill(&mut text, "<", *x);
            },
            OpCodes::Output => {
                text.append(".");
            },
            OpCodes::Input => {
                text.append(",");
            },
            OpCodes::Clear => {
                text.append("[-]");
            },
            OpCodes::Loop(x) => {
                proof {
                    lemma_loop_model(*x);
                }
                text.append("[");
                text.append(scope_to_string(x).as_str());
                text.append("]");
            },
        }
        assert(text@ =~= op_text(self.model()));
        text
    }
}

} // verus!
