use vstd::prelude::*;

verus! {

/// The operations of an effect instruction.
#[derive(Clone, Copy, Debug, PartialEq, Eq, Structural)]
pub enum EffectOps {
    Jump,
    Branch,
    Call,
    Return,
    Print,
    Nop,
    Store,
    Free,
}

/// An executable operation.
#[derive(Debug)]
pub enum Instruction {
    /// Writes a literal into `dest`.
    Constant { dest: String, value: i64 },
    /// Computes a value from `args` into `dest`.
    Value { op: String, dest: String, args: Vec<String>, funcs: Vec<String> },
    /// An operation run for its effect; `labels` are the targets of a jump or branch.
    Effect { op: EffectOps, args: Vec<String>, funcs: Vec<String>, labels: Vec<String> },
}

/// One element of a function's instruction stream.
#[derive(Debug)]
pub enum Code {
    /// A named program point.
    Label { label: String },
    /// An executable operation.
    Instruction(Instruction),
    /// An element the block former does not understand; `content` describes it.
    Unsupported { content: String },
}

/// A function: a name and its instruction stream.
#[derive(Debug)]
pub struct Function {
    pub name: String,
    pub instrs: Vec<Code>,
}

/// A program: its functions, in order.
#[derive(Debug)]
pub struct Program {
    pub functions: Vec<Function>,
}

/// The value of an instruction.
pub enum InstrModel {
    Constant { dest: Seq<char>, value: i64 },
    Value { op: Seq<char>, dest: Seq<char>, args: Seq<Seq<char>>, funcs: Seq<Seq<char>> },
    Effect { op: EffectOps, args: Seq<Seq<char>>, funcs: Seq<Seq<char>>, labels: Seq<Seq<char>> },
}

/// The value of one element of an instruction stream.
pub enum CodeModel {
    Label(Seq<char>),
    Instr(InstrModel),
    Unsupported(Seq<char>),
}

impl DeepView for Instruction {
    type V = InstrModel;

    open spec fn deep_view(&self) -> InstrModel {
        match self {
            Instruction::Constant { dest, value } => InstrModel::Constant { dest: dest@, value: *value },
            Instruction::Value { op, dest, args, funcs } => InstrModel::Value {
                op: op@,
                dest: dest@,
                args: args.deep_view(),
                funcs: funcs.deep_view(),
            },
            Instruction::Effect { op, args, funcs, labels } => InstrModel::Effect {
                op: *op,
                args: args.deep_view(),
                funcs: funcs.deep_view(),
                labels: labels.deep_view(),
            },
        }
    }
}

impl DeepView for Code {
    type V = CodeModel;

    open spec fn deep_view(&self) -> CodeModel {
        match self {
            Code::Label { label } => CodeModel::Label(label@),
            Code::Instruction(i) => CodeModel::Instr(i.deep_view()),
            Code::Unsupported { content } => CodeModel::Unsupported(content@),
        }
    }
}

/// The operation and target labels of an effect instruction; `None` for any
/// other element.
pub open spec fn effect_of(c: CodeModel) -> Option<(EffectOps, Seq<Seq<char>>)> {
    match c {
        CodeModel::Instr(InstrModel::Effect { op, labels, .. }) => Some((op, labels)),
        _ => None,
    }
}

impl Clone for Instruction {
    fn clone(&self) -> (r: Self)
        ensures
            r.deep_view() == self.deep_view(),
    {
        match self {
            Instruction::Constant { dest, value } => Instruction::Constant {
                dest: dest.clone(),
                value: *value,
            },
            Instruction::Value { op, dest, args, funcs } => {
                let a = args.clone();
                let f = funcs.clone();
                assert(a.deep_view() =~= args.deep_view());
                assert(f.deep_view() =~= funcs.deep_view());
                Instruction::Value { op: op.clone(), dest: dest.clone(), args: a, funcs: f }
            },
            Instruction::Effect { op, args, funcs, labels } => {
                let a = args.clone();
                let f = funcs.clone();
                let l = labels.clone();
                assert(a.deep_view() =~= args.deep_view());
                assert(f.deep_view() =~= funcs.deep_view());
                assert(l.deep_view() =~= labels.deep_view());
                Instruction::Effect { op: *op, args: a, funcs: f, labels: l }
            },
        }
    }
}

impl Clone for Code {
    fn clone(&self) -> (r: Self)
        ensures
            r.deep_view() == self.deep_view(),
    {
        match self {
            Code::Label { label } => Code::Label { label: label.clone() },
            Code::Instruction(i) => Code::Instruction(i.clone()),
            Code::Unsupported { content } => Code::Unsupported { content: content.clone() },
        }
    }
}

} // verus!
