//! The part of a program in SSA form that the analyses read: modules of
//! functions, functions of basic blocks, and for each block the calls it makes
//! and the terminator that ends it.

use vstd::prelude::*;

verus! {

/// The name of a basic block: a string, or the number of an unnamed block.
#[derive(Clone, Debug, PartialEq, Eq, PartialOrd, Ord, Hash)]
pub enum Name {
    /// A block with a name of its own.
    Name(String),
    /// An unnamed block, known by its number.
    Number(usize),
}

/// A block name as a mathematical value.
pub enum NameView {
    /// A block with a name of its own.
    Name(Seq<char>),
    /// An unnamed block, known by its number.
    Number(usize),
}

impl View for Name {
    type V = NameView;

    open spec fn view(&self) -> NameView {
        match self {
            Name::Name(s) => NameView::Name(s@),
            Name::Number(n) => NameView::Number(*n),
        }
    }
}

impl Name {
    /// Whether two names are the same name.
    pub fn same(&self, other: &Name) -> (r: bool)
        ensures
            r == (self@ == other@),
    {
        match self {
            Name::Name(a) => match other {
                Name::Name(b) => *a == *b,
                Name::Number(_) => false,
            },
            Name::Number(a) => match other {
                Name::Name(_) => false,
                Name::Number(b) => *a == *b,
            },
        }
    }
}

impl From<usize> for Name {
    /// The name of the unnamed block with the number `number`.
    fn from(number: usize) -> (r: Name) {
        Name::Number(number)
    }
}

impl vstd::std_specs::convert::FromSpecImpl<usize> for Name {
    open spec fn obeys_from_spec() -> bool {
        true
    }

    open spec fn from_spec(number: usize) -> Name {
        Name::Number(number)
    }
}

impl From<String> for Name {
    /// The name of the block called `name`.
    fn from(name: String) -> (r: Name) {
        Name::Name(name)
    }
}

impl vstd::std_specs::convert::FromSpecImpl<String> for Name {
    open spec fn obeys_from_spec() -> bool {
        true
    }

    open spec fn from_spec(name: String) -> Name {
        Name::Name(name)
    }
}

/// A type, interned: two values are equal exactly if the types they stand for
/// have the same structure.
#[derive(Clone, Copy, Debug, PartialEq, Eq, Hash, Structural)]
pub struct TypeRef {
    /// The number the interner gave to the type.
    pub id: u64,
}

/// The type of a value that is called: all that the call graph reads of it.
#[derive(Clone, Copy, Debug, PartialEq, Eq, Structural)]
pub enum OperandType {
    /// A pointer, with the type it points to.
    Pointer { pointee: TypeRef },
    /// Any other type.
    Other,
}

/// What a call or invoke instruction calls.
#[derive(Clone, Debug, PartialEq, Eq)]
pub enum Callee {
    /// Inline assembly.
    InlineAssembly,
    /// A constant reference to the global function of this name.
    Function { name: String },
    /// A constant reference to a global that has only a number.
    NumberedGlobal { number: usize },
    /// Any other operand: a constant expression or a value computed at run
    /// time, with its type.
    Pointer { ty: OperandType },
}

/// The terminator of a basic block, with the blocks it may pass control to.
#[derive(Clone, Debug, PartialEq, Eq)]
pub enum Terminator {
    /// Return to the caller.
    Ret,
    /// Unconditional branch.
    Br { dest: Name },
    /// Conditional branch.
    CondBr { true_dest: Name, false_dest: Name },
    /// Switch on a value.
    Switch { default_dest: Name, dests: Vec<Name> },
    /// Branch to an address taken from a set of blocks.
    IndirectBr { possible_dests: Vec<Name> },
    /// A call with a normal and an exceptional continuation.
    Invoke { function: Callee, return_label: Name, exception_label: Name },
    /// Resume the propagation of an exception.
    Resume,
    /// A point that is never reached.
    Unreachable,
    /// Return from a cleanup pad.
    CleanupRet { unwind_dest: Option<Name> },
    /// Return from a catch pad.
    CatchRet { successor: Name },
    /// Dispatch to one of several catch handlers.
    CatchSwitch { default_unwind_dest: Option<Name>, catch_handlers: Vec<Name> },
    /// A call that may branch to one of several labels.
    CallBr,
}

/// A basic block.
#[derive(Clone, Debug, PartialEq, Eq)]
pub struct BasicBlock {
    /// The name of the block, unique within its function.
    pub name: Name,
    /// What each call instruction of the block calls, in order.
    pub calls: Vec<Callee>,
    /// The terminator.
    pub term: Terminator,
}

/// A function with a body.
#[derive(Clone, Debug, PartialEq, Eq)]
pub struct Function {
    /// The name of the function, unique among the analysed modules.
    pub name: String,
    /// The type of the function.
    pub ty: TypeRef,
    /// The basic blocks; the first is the entry block.
    pub basic_blocks: Vec<BasicBlock>,
}

/// A module: a list of functions.
#[derive(Clone, Debug, PartialEq, Eq)]
pub struct Module {
    /// The functions that the module defines.
    pub functions: Vec<Function>,
}

/// Why an analysis could not be made.
#[derive(Clone, Copy, Debug, PartialEq, Eq, Structural)]
pub enum AnalysisError {
    /// No function of the given name is among the analysed modules.
    UnknownFunction,
    /// The program holds something the analyses do not handle: a `callbr`
    /// terminator, a call of a global that has only a number, a call through
    /// a value that is no pointer, or a function without a block.
    UnsupportedIRFeature,
}

/// A node of a control flow graph: a basic block, or the one node that
/// stands for leaving the function.
#[derive(Clone, Copy, Debug, PartialEq, Eq, PartialOrd, Ord, Hash)]
pub enum CFGNode<'m> {
    /// The basic block of this name.
    Block(&'m Name),
    /// The exit of the function.
    Return,
}

/// A node of a control flow graph as a mathematical value.
pub enum NodeView {
    /// The basic block of this name.
    Block(NameView),
    /// The exit of the function.
    Return,
}

impl<'m> View for CFGNode<'m> {
    type V = NodeView;

    open spec fn view(&self) -> NodeView {
        match self {
            CFGNode::Block(name) => NodeView::Block(name@),
            CFGNode::Return => NodeView::Return,
        }
    }
}

} // verus!
