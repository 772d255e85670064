//! The control-flow graph that lowering emits: blocks with parameters and a
//! terminator each, and instructions whose results are values.
//!
//! Instructions, argument lists and jump-table targets each live in one
//! vector of the function, so that a block, an instruction and an argument
//! list are plain indices.

use crate::key::{Func, M, ReadOnly, RecordField, Val};
use crate::types::{IntSize, MonoType, MonoTypeKey};
use vstd::prelude::*;

verus! {

/// A block, by its index in the function.
#[derive(Clone, Copy, PartialEq, Eq, Structural, Debug, Hash)]
pub struct Block(pub usize);

/// The result of an instruction, by the instruction's index in the function.
#[derive(Clone, Copy, PartialEq, Eq, Structural, Debug, Hash)]
pub struct V(pub usize);

/// A parameter of the function, by position.
#[derive(Clone, Copy, PartialEq, Eq, Structural, Debug, Hash)]
pub struct BlockParam(pub u32);

/// A monomorphised function, by its index among the lowered functions.
#[derive(Clone, Copy, PartialEq, Eq, Structural, Debug, Hash)]
pub struct MonoFunc(pub usize);

/// An offset in bits into the payload of a sum.
#[derive(Clone, Copy, PartialEq, Eq, Structural, Debug, Hash)]
pub struct BitOffset(pub u32);

impl Block {
    pub open spec fn spec_entry() -> Block {
        Block(0)
    }

    /// The block in which a function starts.
    #[verifier::when_used_as_spec(spec_entry)]
    pub fn entry() -> (r: Block)
        ensures
            r == Block::spec_entry(),
    {
        Block(0)
    }
}

/// The width of the tag of a sum.
pub open spec fn spec_tag_size() -> IntSize {
    IntSize { signed: false, bitsize: crate::types::Bitsize(16) }
}

/// The width of the tag of a sum.
#[verifier::when_used_as_spec(spec_tag_size)]
pub fn tag_size() -> (r: IntSize)
    ensures
        r == spec_tag_size(),
{
    IntSize::new(false, 16)
}

/// Something an instruction can take as an operand.
#[derive(Clone, Copy, PartialEq, Eq, Structural, Debug, Hash)]
pub enum Value {
    V(V),
    BlockParam(BlockParam),
    Int(i128, IntSize),
    UInt(u128, IntSize),
    FuncPtr(MonoFunc),
    ReadOnly(ReadOnly),
}

impl Value {
    pub open spec fn spec_maybe_just() -> Value {
        Value::Int(0, spec_tag_size())
    }

    /// The tag of the variant that holds a value, in the sum that a list is
    /// split into.
    #[verifier::when_used_as_spec(spec_maybe_just)]
    pub fn maybe_just() -> (r: Value)
        ensures
            r == Value::spec_maybe_just(),
    {
        Value::Int(0, tag_size())
    }
}

/// A list of arguments or of targets: `len` places from `start` on in the
/// function's vector of them.
#[derive(Clone, Copy, PartialEq, Eq, Structural, Debug, Hash)]
pub struct Args {
    pub start: usize,
    pub len: usize,
}

/// An integer comparison.
#[derive(Clone, Copy, PartialEq, Eq, Structural, Debug, Hash)]
pub enum Comparison {
    Less,
    Equal,
    Greater,
}

/// An arithmetic operation.
#[derive(Clone, Copy, PartialEq, Eq, Structural, Debug, Hash)]
pub enum Arith {
    Add,
    Sub,
    Mul,
    Div,
}

/// What an instruction computes.
#[derive(Clone, Copy, PartialEq, Eq, Structural, Debug, Hash)]
pub enum Entry {
    /// The parameter `index` of a block.
    BlockParam(Block, usize),
    /// A field of a record, tuple or sum.
    Field { of: Value, key: MonoTypeKey, field: RecordField },
    /// What lies at an offset in the payload of a sum.
    SumField { of: Value, offset: BitOffset },
    Call(Value, Args),
    CallExtern(M<Func>, Args),
    Compare(Comparison, Value, Value, IntSize),
    BitAnd(Value, Value),
    Num(Arith, Value, Value),
    Extend(Value, bool),
    Reduce(Value),
    Deref(Value),
    Write(Value, Value),
    Alloc { size: u32 },
    Construct(Args),
    ValToRef(M<Val>),
}

/// An instruction: the block it stands in, what it computes, and the type of
/// its result.
#[derive(Clone, Copy, PartialEq, Eq, Structural, Debug, Hash)]
pub struct Instr {
    pub block: Block,
    pub entry: Entry,
    pub ty: MonoType,
}

/// How a block ends.
#[derive(Clone, Copy, PartialEq, Eq, Structural, Debug, Hash)]
pub enum ControlFlow {
    /// The block is still being written.
    Open,
    Jump(Block, Args),
    Select { value: Value, on_true: Block, on_false: Block },
    /// Jumps to the target whose position the value gives.
    JumpTable(Value, Args),
    Return(Value),
}

/// One more, where that can be counted.
pub open spec fn spec_bump(n: usize) -> usize {
    if n < usize::MAX {
        (n + 1) as usize
    } else {
        n
    }
}

/// One more, where that can be counted.
#[verifier::when_used_as_spec(spec_bump)]
pub fn bump(n: usize) -> (r: usize)
    ensures
        r == spec_bump(n),
{
    if n < usize::MAX {
        n + 1
    } else {
        n
    }
}

/// A block: how many parameters it was made for, how many of them have been
/// given a type, how many jumps lead into it, and how it ends.
#[derive(Clone, Copy, PartialEq, Eq, Structural, Debug, Hash)]
pub struct BasicBlock {
    pub arity: u32,
    pub params: usize,
    pub predecessors: usize,
    pub flow: ControlFlow,
}

/// The blocks of one function while they are written.
#[derive(Debug)]
pub struct Blocks {
    pub blocks: Vec<BasicBlock>,
    pub entries: Vec<Instr>,
    pub args: Vec<Value>,
    pub targets: Vec<Block>,
    pub current: Block,
}

/// What a `Blocks` is.
pub ghost struct Ssa {
    pub blocks: Seq<BasicBlock>,
    pub entries: Seq<Instr>,
    pub args: Seq<Value>,
    pub targets: Seq<Block>,
    pub current: Block,
}

impl View for Blocks {
    type V = Ssa;

    open spec fn view(&self) -> Ssa {
        Ssa {
            blocks: self.blocks@,
            entries: self.entries@,
            args: self.args@,
            targets: self.targets@,
            current: self.current,
        }
    }
}

impl Ssa {
    /// The blocks of a function that has only its entry block, made for
    /// `params` parameters.
    pub open spec fn start(params: u32) -> Ssa {
        Ssa {
            blocks: seq![
                BasicBlock { arity: params, params: 0, predecessors: 0, flow: ControlFlow::Open },
            ],
            entries: Seq::empty(),
            args: Seq::empty(),
            targets: Seq::empty(),
            current: Block::entry(),
        }
    }

    /// Whether `block` is a block of the function.
    pub open spec fn has(self, block: Block) -> bool {
        block.0 < self.blocks.len()
    }

    /// The current block is a block of the function.
    pub open spec fn wf(self) -> bool {
        self.has(self.current)
    }

    /// The type of a value: that of the instruction for a result, the
    /// integer type for a literal, a pointer for a function or read-only
    /// data; nothing is known of a function parameter or of a result that
    /// does not exist.
    pub open spec fn type_of(self, value: Value) -> MonoType {
        match value {
            Value::V(v) => if v.0 < self.entries.len() {
                self.entries[v.0 as int].ty
            } else {
                MonoType::Unreachable
            },
            Value::Int(_, size) => MonoType::Int(size),
            Value::UInt(_, size) => MonoType::Int(size),
            Value::FuncPtr(_) => MonoType::Pointer,
            Value::ReadOnly(_) => MonoType::Pointer,
            Value::BlockParam(_) => MonoType::Unreachable,
        }
    }

    /// The value that the next instruction gives.
    pub open spec fn next_value(self) -> Value {
        Value::V(V(self.entries.len() as usize))
    }

    /// The block that `new_block` makes next.
    pub open spec fn next_block(self) -> Block {
        Block(self.blocks.len() as usize)
    }

    /// With one more block, made for `params` parameters.
    pub open spec fn new_block(self, params: u32) -> Ssa {
        Ssa {
            blocks: self.blocks.push(
                BasicBlock { arity: params, params: 0, predecessors: 0, flow: ControlFlow::Open },
            ),
            ..self
        }
    }

    /// With `block` as the current block.
    pub open spec fn switch_to_block(self, block: Block) -> Ssa {
        Ssa { current: block, ..self }
    }

    /// With one more instruction in the current block.
    pub open spec fn emit(self, entry: Entry, ty: MonoType) -> Ssa {
        Ssa { entries: self.entries.push(Instr { block: self.current, entry, ty }), ..self }
    }

    /// With one more typed parameter of `block`, as an instruction of it.
    pub open spec fn add_block_param(self, block: Block, ty: MonoType) -> Ssa {
        let index = self.blocks[block.0 as int].params;
        Ssa {
            blocks: self.blocks.update(
                block.0 as int,
                BasicBlock { params: bump(index), ..self.blocks[block.0 as int] },
            ),
            entries: self.entries.push(Instr { block, entry: Entry::BlockParam(block, index), ty }),
            ..self
        }
    }

    /// With one more argument list.
    pub open spec fn with_args(self, params: Seq<Value>) -> Ssa {
        Ssa { args: self.args + params, ..self }
    }

    /// The argument list that `with_args` adds.
    pub open spec fn next_args(self, params: Seq<Value>) -> Args {
        Args { start: self.args.len() as usize, len: params.len() as usize }
    }

    /// With one more jump into `block` counted.
    pub open spec fn enter(self, block: Block) -> Ssa {
        if self.has(block) {
            Ssa {
                blocks: self.blocks.update(
                    block.0 as int,
                    BasicBlock {
                        predecessors: bump(self.blocks[block.0 as int].predecessors),
                        ..self.blocks[block.0 as int]
                    },
                ),
                ..self
            }
        } else {
            self
        }
    }

    /// With the current block ended by `flow`.
    pub open spec fn end(self, flow: ControlFlow) -> Ssa {
        Ssa {
            blocks: self.blocks.update(
                self.current.0 as int,
                BasicBlock { flow, ..self.blocks[self.current.0 as int] },
            ),
            ..self
        }
    }

    /// With the current block ended by a jump to `block` that hands over `params`.
    pub open spec fn jump(self, block: Block, params: Seq<Value>) -> Ssa {
        self.with_args(params).end(ControlFlow::Jump(block, self.next_args(params))).enter(block)
    }

    /// With the current block ended by a choice between two blocks, neither
    /// of which is handed anything.
    pub open spec fn select(self, value: Value, on_true: Block, on_false: Block) -> Ssa {
        self.end(ControlFlow::Select { value, on_true, on_false }).enter(on_true).enter(on_false)
    }

    /// With a jump into each of `blocks` from index `i` on counted.
    pub open spec fn enter_all(self, blocks: Seq<Block>, i: int) -> Ssa
        decreases blocks.len() - i,
    {
        if 0 <= i < blocks.len() {
            self.enter(blocks[i]).enter_all(blocks, i + 1)
        } else {
            self
        }
    }

    /// With the current block ended by a jump to the block whose position
    /// in `blocks` the value `on` gives.
    pub open spec fn jump_table(self, on: Value, blocks: Seq<Block>) -> Ssa {
        let table = Args { start: self.targets.len() as usize, len: blocks.len() as usize };
        Ssa { targets: self.targets + blocks, ..self }.end(ControlFlow::JumpTable(on, table))
            .enter_all(blocks, 0)
    }

    /// With the current block ended by a return of `value`.
    pub open spec fn return_(self, value: Value) -> Ssa {
        self.end(ControlFlow::Return(value))
    }

    /// The first instruction from index `from` on that is parameter
    /// `index` of `block`.
    pub open spec fn block_param(self, block: Block, index: usize, from: int) -> Option<Value>
        decreases self.entries.len() - from,
    {
        if 0 <= from < self.entries.len() {
            if self.entries[from].entry == Entry::BlockParam(block, index) {
                Some(Value::V(V(from as usize)))
            } else {
                self.block_param(block, index, from + 1)
            }
        } else {
            None
        }
    }

    /// The arguments that an argument list stands for.
    pub open spec fn args_of(self, list: Args) -> Seq<Value> {
        self.args.subrange(list.start as int, list.start + list.len)
    }
}

impl Blocks {
    /// The blocks of a function that has only its entry block, made for
    /// `params` parameters.
    pub fn new(params: u32) -> (r: Blocks)
        ensures
            r@ == Ssa::start(params),
            r@.wf(),
    {
        let mut blocks: Vec<BasicBlock> = Vec::new();
        blocks.push(
            BasicBlock { arity: params, params: 0, predecessors: 0, flow: ControlFlow::Open },
        );
        let r = Blocks {
            blocks,
            entries: Vec::new(),
            args: Vec::new(),
            targets: Vec::new(),
            current: Block(0),
        };
        assert(r@.blocks =~= seq![
            BasicBlock { arity: params, params: 0, predecessors: 0, flow: ControlFlow::Open },
        ]);
        r
    }

    /// The current block.
    pub fn block(&self) -> (r: Block)
        ensures
            r == self@.current,
    {
        self.current
    }

    /// How many jumps lead into `block`.
    pub fn predecessors(&self, block: Block) -> (r: usize)
        requires
            self@.has(block),
        ensures
            r == self@.blocks[block.0 as int].predecessors,
    {
        self.blocks[block.0].predecessors
    }

    /// The type of a value.
    pub fn type_of(&self, value: Value) -> (r: MonoType)
        ensures
            r == self@.type_of(value),
    {
        match value {
            Value::V(v) => if v.0 < self.entries.len() {
                self.entries[v.0].ty
            } else {
                MonoType::Unreachable
            },
            Value::Int(_, size) => MonoType::Int(size),
            Value::UInt(_, size) => MonoType::Int(size),
            Value::FuncPtr(_) => MonoType::Pointer,
            Value::ReadOnly(_) => MonoType::Pointer,
            Value::BlockParam(_) => MonoType::Unreachable,
        }
    }

    /// Makes a block for `params` parameters.
    pub fn new_block(&mut self, params: u32) -> (r: Block)
        ensures
            final(self)@ == old(self)@.new_block(params),
            r == old(self)@.next_block(),
    {
        let block = Block(self.blocks.len());
        self.blocks.push(
            BasicBlock { arity: params, params: 0, predecessors: 0, flow: ControlFlow::Open },
        );
        block
    }

    /// Goes on writing in `block`.
    pub fn switch_to_block(&mut self, block: Block)
        ensures
            final(self)@ == old(self)@.switch_to_block(block),
    {
        self.current = block;
    }

    /// Gives the next parameter of `block` its type; the result stands for
    /// what a jump into the block hands over in that place.
    pub fn add_block_param(&mut self, block: Block, ty: MonoType) -> (r: Value)
        requires
            old(self)@.has(block),
        ensures
            final(self)@ == old(self)@.add_block_param(block, ty),
            r == old(self)@.next_value(),
    {
        let index = self.blocks[block.0].params;
        let value = Value::V(V(self.entries.len()));
        let slot = &mut self.blocks[block.0];
        slot.params = bump(index);
        self.entries.push(Instr { block, entry: Entry::BlockParam(block, index), ty });
        assert(self@.blocks =~= old(self)@.add_block_param(block, ty).blocks);
        value
    }

    /// The value of parameter `index` of `block`, if it has been given a type.
    pub fn get_block_param(&self, block: Block, index: usize) -> (r: Option<Value>)
        ensures
            r == self@.block_param(block, index, 0),
    {
        let mut i: usize = 0;
        while i < self.entries.len()
            invariant
                i <= self.entries.len(),
                self@.block_param(block, index, i as int) == self@.block_param(block, index, 0),
            decreases self.entries.len() - i,
        {
            if let Entry::BlockParam(b, n) = self.entries[i].entry {
                if b.0 == block.0 && n == index {
                    return Some(Value::V(V(i)));
                }
            }
            i += 1;
        }
        None
    }

    /// Adds an instruction to the current block.
    pub fn emit(&mut self, entry: Entry, ty: MonoType) -> (r: Value)
        ensures
            final(self)@ == old(self)@.emit(entry, ty),
            r == old(self)@.next_value(),
    {
        let value = Value::V(V(self.entries.len()));
        self.entries.push(Instr { block: self.current, entry, ty });
        value
    }

    /// Stores an argument list.
    pub fn list(&mut self, params: Vec<Value>) -> (r: Args)
        ensures
            final(self)@ == old(self)@.with_args(params@),
            r == old(self)@.next_args(params@),
    {
        let start = self.args.len();
        let len = params.len();
        let mut params = params;
        self.args.append(&mut params);
        Args { start, len }
    }

    fn enter(&mut self, block: Block)
        ensures
            final(self)@ == old(self)@.enter(block),
    {
        if block.0 < self.blocks.len() {
            let slot = &mut self.blocks[block.0];
            slot.predecessors = bump(slot.predecessors);
            assert(self@.blocks =~= old(self)@.enter(block).blocks);
        }
    }

    fn end(&mut self, flow: ControlFlow)
        requires
            old(self)@.wf(),
        ensures
            final(self)@ == old(self)@.end(flow),
    {
        let slot = &mut self.blocks[self.current.0];
        slot.flow = flow;
        assert(self@.blocks =~= old(self)@.end(flow).blocks);
    }
}

impl Blocks {
    /// Ends the current block with a jump to `block` that hands over `params`.
    pub fn jump(&mut self, block: Block, params: Vec<Value>)
        requires
            old(self)@.wf(),
        ensures
            final(self)@ == old(self)@.jump(block, params@),
    {
        let list = self.list(params);
        self.end(ControlFlow::Jump(block, list));
        self.enter(block);
    }

    /// Ends the current block with a choice: on to `on_true` where `value`
    /// holds, else on to `on_false`.
    pub fn select(&mut self, value: Value, on_true: Block, on_false: Block)
        requires
            old(self)@.wf(),
        ensures
            final(self)@ == old(self)@.select(value, on_true, on_false),
    {
        self.end(ControlFlow::Select { value, on_true, on_false });
        self.enter(on_true);
        self.enter(on_false);
    }

    /// Ends the current block with a jump to the block whose position in
    /// `blocks` the value `on` gives.
    pub fn jump_table(&mut self, on: Value, blocks: Vec<Block>)
        requires
            old(self)@.wf(),
        ensures
            final(self)@ == old(self)@.jump_table(on, blocks@),
    {
        let table = Args { start: self.targets.len(), len: blocks.len() };
        let mut i: usize = 0;
        while i < blocks.len()
            invariant
                i <= blocks.len(),
                self@ == (Ssa { targets: old(self)@.targets + blocks@.take(i as int), ..old(self)@ }),
            decreases blocks.len() - i,
        {
            self.targets.push(blocks[i]);
            assert(blocks@.take(i as int).push(blocks@[i as int]) =~= blocks@.take(i + 1));
            assert(self@.targets =~= old(self)@.targets + blocks@.take(i + 1));
            i += 1;
        }
        assert(blocks@.take(blocks@.len() as int) =~= blocks@);
        self.end(ControlFlow::JumpTable(on, table));
        let ghost ended = self@;
        let mut i: usize = 0;
        while i < blocks.len()
            invariant
                i <= blocks.len(),
                self@.enter_all(blocks@, i as int) == ended.enter_all(blocks@, 0),
            decreases blocks.len() - i,
        {
            self.enter(blocks[i]);
            i += 1;
        }
    }

    /// Ends the current block with a return of `value`.
    pub fn return_(&mut self, value: Value)
        requires
            old(self)@.wf(),
        ensures
            final(self)@ == old(self)@.return_(value),
    {
        self.end(ControlFlow::Return(value));
    }

    /// Reads a field of a record, tuple or sum.
    pub fn field(&mut self, of: Value, key: MonoTypeKey, field: RecordField, ty: MonoType) -> (r:
        Value)
        ensures
            final(self)@ == old(self)@.emit(Entry::Field { of, key, field }, ty),
            r == old(self)@.next_value(),
    {
        self.emit(Entry::Field { of, key, field }, ty)
    }

    /// Reads what lies at `offset` in the payload of a sum.
    pub fn sum_field(&mut self, of: Value, offset: BitOffset, ty: MonoType) -> (r: Value)
        ensures
            final(self)@ == old(self)@.emit(Entry::SumField { of, offset }, ty),
            r == old(self)@.next_value(),
    {
        self.emit(Entry::SumField { of, offset }, ty)
    }

    /// Calls the function that `f` points to.
    pub fn call(&mut self, f: Value, params: Vec<Value>, ret: MonoType) -> (r: Value)
        ensures
            final(self)@ == old(self)@.with_args(params@).emit(
                Entry::Call(f, old(self)@.next_args(params@)),
                ret,
            ),
            r == old(self)@.next_value(),
    {
        let list = self.list(params);
        self.emit(Entry::Call(f, list), ret)
    }

    /// Calls a function from outside the program.
    pub fn call_extern(&mut self, f: M<Func>, params: Vec<Value>, ret: MonoType) -> (r: Value)
        ensures
            final(self)@ == old(self)@.with_args(params@).emit(
                Entry::CallExtern(f, old(self)@.next_args(params@)),
                ret,
            ),
            r == old(self)@.next_value(),
    {
        let list = self.list(params);
        self.emit(Entry::CallExtern(f, list), ret)
    }

    /// Builds a record, tuple or sum from its parts.
    pub fn construct(&mut self, params: Vec<Value>, ty: MonoType) -> (r: Value)
        ensures
            final(self)@ == old(self)@.with_args(params@).emit(
                Entry::Construct(old(self)@.next_args(params@)),
                ty,
            ),
            r == old(self)@.next_value(),
    {
        let list = self.list(params);
        self.emit(Entry::Construct(list), ty)
    }

    /// Compares two integers of the given width; the result is a byte.
    pub fn compare(&mut self, how: Comparison, left: Value, right: Value, size: IntSize) -> (r:
        Value)
        ensures
            final(self)@ == old(self)@.emit(Entry::Compare(how, left, right, size), truth()),
            r == old(self)@.next_value(),
    {
        self.emit(Entry::Compare(how, left, right, size), truth())
    }

    /// Whether two integers are equal.
    pub fn eq(&mut self, pair: [Value; 2], size: IntSize) -> (r: Value)
        ensures
            final(self)@ == old(self)@.emit(
                Entry::Compare(Comparison::Equal, pair[0], pair[1], size),
                truth(),
            ),
            r == old(self)@.next_value(),
    {
        self.compare(Comparison::Equal, pair[0], pair[1], size)
    }

    /// Whether the first integer is less than the second.
    pub fn lti(&mut self, pair: [Value; 2], size: IntSize) -> (r: Value)
        ensures
            final(self)@ == old(self)@.emit(
                Entry::Compare(Comparison::Less, pair[0], pair[1], size),
                truth(),
            ),
            r == old(self)@.next_value(),
    {
        self.compare(Comparison::Less, pair[0], pair[1], size)
    }

    /// Whether the first integer is greater than the second.
    pub fn gti(&mut self, pair: [Value; 2], size: IntSize) -> (r: Value)
        ensures
            final(self)@ == old(self)@.emit(
                Entry::Compare(Comparison::Greater, pair[0], pair[1], size),
                truth(),
            ),
            r == old(self)@.next_value(),
    {
        self.compare(Comparison::Greater, pair[0], pair[1], size)
    }

    /// The bits that two values share.
    pub fn bit_and(&mut self, pair: [Value; 2], ty: MonoType) -> (r: Value)
        ensures
            final(self)@ == old(self)@.emit(Entry::BitAnd(pair[0], pair[1]), ty),
            r == old(self)@.next_value(),
    {
        self.emit(Entry::BitAnd(pair[0], pair[1]), ty)
    }

    /// An arithmetic operation on two numbers of type `ty`.
    pub fn num(&mut self, op: Arith, left: Value, right: Value, ty: MonoType) -> (r: Value)
        ensures
            final(self)@ == old(self)@.emit(Entry::Num(op, left, right), ty),
            r == old(self)@.next_value(),
    {
        self.emit(Entry::Num(op, left, right), ty)
    }

    /// Widens an integer to `ty`, by its sign where `signed`.
    pub fn extend(&mut self, value: Value, signed: bool, ty: MonoType) -> (r: Value)
        ensures
            final(self)@ == old(self)@.emit(Entry::Extend(value, signed), ty),
            r == old(self)@.next_value(),
    {
        self.emit(Entry::Extend(value, signed), ty)
    }

    /// Narrows an integer to `ty`.
    pub fn reduce(&mut self, value: Value, ty: MonoType) -> (r: Value)
        ensures
            final(self)@ == old(self)@.emit(Entry::Reduce(value), ty),
            r == old(self)@.next_value(),
    {
        self.emit(Entry::Reduce(value), ty)
    }

    /// Reads a value of type `ty` through a pointer.
    pub fn deref(&mut self, pointer: Value, ty: MonoType) -> (r: Value)
        ensures
            final(self)@ == old(self)@.emit(Entry::Deref(pointer), ty),
            r == old(self)@.next_value(),
    {
        self.emit(Entry::Deref(pointer), ty)
    }

    /// Writes a value through a pointer.
    pub fn write(&mut self, pointer: Value, value: Value) -> (r: Value)
        ensures
            final(self)@ == old(self)@.emit(Entry::Write(pointer, value), MonoType::Unreachable),
            r == old(self)@.next_value(),
    {
        self.emit(Entry::Write(pointer, value), MonoType::Unreachable)
    }

    /// Makes room on the heap for `size` bits.
    pub fn heap(&mut self, size: u32) -> (r: Value)
        ensures
            final(self)@ == old(self)@.emit(Entry::Alloc { size }, MonoType::Pointer),
            r == old(self)@.next_value(),
    {
        self.emit(Entry::Alloc { size }, MonoType::Pointer)
    }

    /// The address of a static value.
    pub fn val_to_ref(&mut self, val: M<Val>) -> (r: Value)
        ensures
            final(self)@ == old(self)@.emit(Entry::ValToRef(val), MonoType::Pointer),
            r == old(self)@.next_value(),
    {
        self.emit(Entry::ValToRef(val), MonoType::Pointer)
    }

    /// The arguments that an argument list stands for.
    pub fn args_of(&self, list: Args) -> (r: Vec<Value>)
        requires
            list.start + list.len <= self@.args.len(),
        ensures
            r@ == self@.args_of(list),
    {
        let mut out: Vec<Value> = Vec::new();
        let mut i: usize = 0;
        while i < list.len
            invariant
                i <= list.len,
                list.start + list.len <= self.args.len(),
                out@ == self@.args.subrange(list.start as int, list.start + i),
            decreases list.len - i,
        {
            out.push(self.args[list.start + i]);
            assert(out@ =~= self@.args.subrange(list.start as int, list.start + i + 1));
            i += 1;
        }
        out
    }
}

/// The type of what a comparison gives: a byte that is one or zero.
pub open spec fn spec_truth() -> MonoType {
    MonoType::Int(IntSize { signed: false, bitsize: crate::types::Bitsize(8) })
}

/// The type of what a comparison gives: a byte that is one or zero.
#[verifier::when_used_as_spec(spec_truth)]
pub fn truth() -> (r: MonoType)
    ensures
        r == spec_truth(),
{
    MonoType::Int(IntSize::new(false, 8))
}

} // verus!
