use lumina_compiler::key::{
    Bind, DecisionTreeTail, Func, Lambda, Method, Param, ReadOnly, RecordField, Sum, SumVariant,
    Trait,
};
use lumina_compiler::key::{Module, Val};
use lumina_compiler::lower::{FuncLower, Info};
use lumina_compiler::mir::{Expr, FuncDef, FuncOrigin, ImplDef, Mir, ResolvedNFunc};
use lumina_compiler::mono::{MonoTypes, TypeMap};
use lumina_compiler::range::{constraints_from_bitsize, Range};
use lumina_compiler::ssa::{
    Arith, Args, BitOffset, Block, BlockParam, Blocks, Comparison, ControlFlow, Entry, MonoFunc,
    Value, V,
};
use lumina_compiler::tree::{
    list_cons, list_nil, Branching, DecTree, Local, PointTable, StrCheck, StrChecks, TreeTail,
};
use lumina_compiler::types::{Bitsize, IntSize, MonoType, MonoTypeKey, Type};

fn i64_size() -> IntSize {
    IntSize::new(true, 64)
}

fn tag() -> IntSize {
    IntSize::new(false, 16)
}

fn truth() -> MonoType {
    MonoType::Int(IntSize::new(false, 8))
}

fn info() -> Info {
    Info {
        listable: Trait(0),
        listable_split: Method(0),
        string: MonoType::Monomorphised(MonoTypeKey(0)),
        string_pair: MonoTypeKey(1),
        byte_and_string: MonoTypeKey(2),
        closure: MonoTypeKey(3),
        string_from_raw: MonoFunc(100),
        string_equals: MonoFunc(101),
        string_len: MonoFunc(102),
        string_split_at: MonoFunc(103),
        string_split_first: MonoFunc(104),
        string_split_while: MonoFunc(105),
    }
}

fn empty_mir() -> Mir {
    Mir { funcs: vec![], variant_types: vec![], impls: vec![], read_only: vec![], lambdas: vec![] }
}

/// The string type, a pair of strings, a byte and a string, a closure.
fn string_types() -> MonoTypes {
    let mut types = MonoTypes::new();
    let string = types.define(vec![MonoType::Pointer, MonoType::Int(IntSize::new(false, 64))]);
    assert_eq!(string, Some(MonoTypeKey(0)));
    let string = MonoType::Monomorphised(MonoTypeKey(0));
    assert_eq!(types.define(vec![string, string]), Some(MonoTypeKey(1)));
    assert_eq!(
        types.define(vec![MonoType::Int(IntSize::new(false, 8)), string]),
        Some(MonoTypeKey(2))
    );
    assert_eq!(types.define(vec![MonoType::Pointer, MonoType::Pointer]), Some(MonoTypeKey(3)));
    types
}

fn leaf(binds: Vec<(Bind, usize)>, tail: u32) -> DecTree {
    DecTree::End(TreeTail::Reached(PointTable::new(binds), vec![], DecisionTreeTail(tail)))
}

fn param(n: u32) -> Expr {
    Expr::Yield(Local::Param(Param(n)))
}

fn lit(n: i128) -> Expr {
    Expr::Int(i64_size(), n)
}

fn selects(ssa: &Blocks) -> usize {
    ssa.blocks.iter().filter(|block| matches!(block.flow, ControlFlow::Select { .. })).count()
}

fn jump_of(ssa: &Blocks, block: usize) -> (Block, Vec<Value>) {
    match ssa.blocks[block].flow {
        ControlFlow::Jump(to, list) => (to, ssa.args_of(list)),
        other => panic!("block {block} does not end in a jump: {other:?}"),
    }
}

#[test]
fn bool_match_emits_one_select_and_lowers_each_body_once() {
    let mir = empty_mir();
    let types = MonoTypes::new();
    let mut f = FuncLower::new(&mir, &types, info(), TypeMap::new(), false, 1);
    let tree = DecTree::Bools(Branching {
        branches: vec![(true, leaf(vec![], 0)), (false, leaf(vec![], 1))],
    });
    let expr = Expr::Match(Box::new(param(0)), Box::new(tree), vec![lit(1), lit(2)], vec![1, 1]);
    let value = f.expr_to_value(&expr);

    let x = Value::BlockParam(BlockParam(0));
    assert_eq!(selects(&f.ssa), 1);
    assert_eq!(
        f.ssa.blocks[0].flow,
        ControlFlow::Select { value: x, on_true: Block(1), on_false: Block(2) }
    );
    // the arm for `true` jumps to the block of the first body, which hands
    // its value to the block in which the arms meet
    assert_eq!(jump_of(&f.ssa, 1), (Block(3), vec![]));
    assert_eq!(jump_of(&f.ssa, 3), (Block(4), vec![Value::Int(1, i64_size())]));
    assert_eq!(jump_of(&f.ssa, 2), (Block(5), vec![]));
    assert_eq!(jump_of(&f.ssa, 5), (Block(4), vec![Value::Int(2, i64_size())]));
    assert_eq!(f.ssa.blocks.len(), 6);
    // each body has one way in, the meeting block two
    assert_eq!(f.ssa.blocks[3].predecessors, 1);
    assert_eq!(f.ssa.blocks[5].predecessors, 1);
    assert_eq!(f.ssa.blocks[4].predecessors, 2);
    assert_eq!(f.ssa.blocks[4].arity, 1);
    // the match is the parameter of the meeting block, where lowering goes on
    assert_eq!(f.ssa.block(), Block(4));
    assert_eq!(value, Value::V(V(0)));
    assert_eq!(f.ssa.entries[0].entry, Entry::BlockParam(Block(4), 0));
    assert_eq!(f.ssa.entries[0].ty, MonoType::Int(i64_size()));
    assert_eq!(f.ssa.entries.len(), 1);
}

#[test]
fn bool_match_puts_the_true_arm_first_whatever_the_order() {
    let mir = empty_mir();
    let types = MonoTypes::new();
    let mut f = FuncLower::new(&mir, &types, info(), TypeMap::new(), false, 1);
    let tree = DecTree::Bools(Branching {
        branches: vec![(false, leaf(vec![], 1)), (true, leaf(vec![], 0))],
    });
    let expr = Expr::Match(Box::new(param(0)), Box::new(tree), vec![lit(1), lit(2)], vec![1, 1]);
    f.expr_to_value(&expr);
    assert_eq!(jump_of(&f.ssa, 3), (Block(4), vec![Value::Int(1, i64_size())]));
    assert_eq!(jump_of(&f.ssa, 5), (Block(4), vec![Value::Int(2, i64_size())]));
}

#[test]
fn int_match_checks_each_arm_in_turn() {
    let mir = empty_mir();
    let types = MonoTypes::new();
    let mut f = FuncLower::new(&mir, &types, info(), TypeMap::new(), false, 1);
    let con = constraints_from_bitsize(true, Bitsize(64));
    let tree = DecTree::Ints {
        intsize: i64_size(),
        next: Branching {
            branches: vec![
                (Range::new(con, 0, 9), leaf(vec![], 0)),
                (Range::new(con, 10, 10), leaf(vec![], 1)),
                (Range::new(con, 11, con.max), leaf(vec![], 2)),
            ],
        },
    };
    let bodies = vec![lit(100), lit(101), lit(102)];
    let expr = Expr::Match(Box::new(param(0)), Box::new(tree), bodies, vec![1, 1, 1]);
    let value = f.expr_to_value(&expr);

    let x = Value::BlockParam(BlockParam(0));
    let size = i64_size();
    // first arm: less than ten and greater than minus one
    assert_eq!(
        f.ssa.entries[0].entry,
        Entry::Compare(Comparison::Less, x, Value::Int(10, size), size)
    );
    assert_eq!(
        f.ssa.entries[1].entry,
        Entry::Compare(Comparison::Greater, x, Value::Int(-1, size), size)
    );
    assert_eq!(f.ssa.entries[2].entry, Entry::BitAnd(Value::V(V(0)), Value::V(V(1))));
    assert_eq!(f.ssa.entries[0].block, Block(0));
    assert_eq!(
        f.ssa.blocks[0].flow,
        ControlFlow::Select { value: Value::V(V(2)), on_true: Block(1), on_false: Block(2) }
    );
    // second arm, tried where the first failed: equal to ten
    assert_eq!(
        f.ssa.entries[3].entry,
        Entry::Compare(Comparison::Equal, x, Value::Int(10, size), size)
    );
    assert_eq!(f.ssa.entries[3].block, Block(2));
    assert_eq!(selects(&f.ssa), 2);
    // third arm: no check; the block in which the second failed jumps to its body
    let (second_failed, _) = match f.ssa.blocks[2].flow {
        ControlFlow::Select { on_false, value, .. } => (on_false, value),
        other => panic!("no choice: {other:?}"),
    };
    let (third_body, args) = jump_of(&f.ssa, second_failed.0);
    assert_eq!(args, vec![]);
    let (meet, given) = jump_of(&f.ssa, third_body.0);
    assert_eq!(given, vec![Value::Int(102, size)]);
    assert_eq!(f.ssa.blocks[meet.0].predecessors, 3);
    assert_eq!(f.ssa.block(), meet);
    assert_eq!(f.ssa.entries.len(), 5);
    assert_eq!(value, Value::V(V(4)));
}

#[test]
fn int_match_with_one_arm_needs_no_meeting_block() {
    let mir = empty_mir();
    let types = MonoTypes::new();
    let mut f = FuncLower::new(&mir, &types, info(), TypeMap::new(), false, 1);
    let con = constraints_from_bitsize(false, Bitsize(8));
    let tree = DecTree::Ints {
        intsize: IntSize::new(false, 8),
        next: Branching { branches: vec![(con.to_range(), leaf(vec![(Bind(7), 0)], 0))] },
    };
    let body = Expr::Yield(Local::Binding(Bind(7)));
    let expr = Expr::Match(Box::new(param(0)), Box::new(tree), vec![body], vec![1]);
    let value = f.expr_to_value(&expr);
    // one jump, with the matched value for the binding, and the body's
    // value is the parameter that the binding became
    assert_eq!(jump_of(&f.ssa, 0), (Block(1), vec![Value::BlockParam(BlockParam(0))]));
    assert_eq!(f.ssa.blocks.len(), 2);
    assert_eq!(f.ssa.blocks[1].arity, 1);
    assert_eq!(value, Value::V(V(0)));
    assert_eq!(f.ssa.entries[0].entry, Entry::BlockParam(Block(1), 0));
    assert_eq!(f.bindmap.get(&7), Some(&Value::V(V(0))));
    assert_eq!(selects(&f.ssa), 0);
}

#[test]
fn shared_tail_is_lowered_once_when_its_last_leaf_has_jumped() {
    let mir = empty_mir();
    let types = MonoTypes::new();
    let mut f = FuncLower::new(&mir, &types, info(), TypeMap::new(), false, 1);
    // both arms lead to the same body
    let tree = DecTree::Bools(Branching {
        branches: vec![(true, leaf(vec![], 0)), (false, leaf(vec![], 0))],
    });
    let expr = Expr::Match(Box::new(param(0)), Box::new(tree), vec![lit(5)], vec![2]);
    f.expr_to_value(&expr);
    assert_eq!(jump_of(&f.ssa, 1), (Block(3), vec![]));
    assert_eq!(jump_of(&f.ssa, 2), (Block(3), vec![]));
    assert_eq!(f.ssa.blocks[3].predecessors, 2);
    // one body, one jump to the meeting block
    assert_eq!(jump_of(&f.ssa, 3), (Block(4), vec![Value::Int(5, i64_size())]));
    assert_eq!(f.ssa.blocks[4].predecessors, 1);
    assert_eq!(f.ssa.blocks.len(), 5);
}

#[test]
fn tuple_match_reads_each_field_and_binds_by_depth() {
    let mir = empty_mir();
    let mut types = MonoTypes::new();
    let pair = types
        .define(vec![MonoType::Int(i64_size()), MonoType::Int(IntSize::new(false, 8))])
        .unwrap();
    let holder = types.define(vec![MonoType::Monomorphised(pair)]).unwrap();
    let mut f = FuncLower::new(&mir, &types, info(), TypeMap::new(), false, 1);
    // a value of the pair type to match on: the field of a holder
    let on = Expr::Access(Box::new(param(0)), holder, RecordField(0));
    let tree = DecTree::Tuple {
        next: Box::new(DecTree::Wildcard {
            next: Box::new(DecTree::Wildcard {
                next: Box::new(leaf(vec![(Bind(0), 1), (Bind(1), 2)], 0)),
            }),
        }),
    };
    let body = Expr::Num(
        "plus",
        Box::new(Expr::Yield(Local::Binding(Bind(0)))),
        Box::new(Expr::Yield(Local::Binding(Bind(0)))),
    );
    let expr = Expr::Match(Box::new(on), Box::new(tree), vec![body], vec![1]);
    let value = f.expr_to_value(&expr);

    let tuple = Value::V(V(0));
    assert_eq!(
        f.ssa.entries[1].entry,
        Entry::Field { of: tuple, key: pair, field: RecordField(0) }
    );
    assert_eq!(f.ssa.entries[1].ty, MonoType::Int(i64_size()));
    assert_eq!(
        f.ssa.entries[2].entry,
        Entry::Field { of: tuple, key: pair, field: RecordField(1) }
    );
    assert_eq!(f.ssa.entries[2].ty, MonoType::Int(IntSize::new(false, 8)));
    // depth 0 is the tuple, depths 1 and 2 its fields
    assert_eq!(jump_of(&f.ssa, 0), (Block(1), vec![Value::V(V(1)), Value::V(V(2))]));
    assert_eq!(f.ssa.entries[3].entry, Entry::BlockParam(Block(1), 0));
    assert_eq!(f.ssa.entries[4].entry, Entry::BlockParam(Block(1), 1));
    assert_eq!(f.ssa.entries[4].ty, MonoType::Int(IntSize::new(false, 8)));
    assert_eq!(
        f.ssa.entries[5].entry,
        Entry::Num(Arith::Add, Value::V(V(3)), Value::V(V(3)))
    );
    assert_eq!(value, Value::V(V(5)));
}

#[test]
fn sum_match_reads_the_payload_at_added_offsets_and_ends_in_a_jump_table() {
    let mut mir = empty_mir();
    // one sum with the variants `A i64 a` and `B`
    mir.variant_types = vec![vec![
        vec![Type::Mono(MonoType::Int(i64_size())), Type::Generic(0)],
        vec![],
    ]];
    let mut types = MonoTypes::new();
    let sum = types
        .define(vec![MonoType::Int(tag()), MonoType::SumDataCast { largest: 72 }])
        .unwrap();
    let holder = types.define(vec![MonoType::Monomorphised(sum)]).unwrap();
    let mut f = FuncLower::new(&mir, &types, info(), TypeMap::new(), false, 1);
    let on = Expr::Access(Box::new(param(0)), holder, RecordField(0));
    let byte = Type::Mono(MonoType::Int(IntSize::new(false, 8)));
    let tree = DecTree::Sum {
        sum: Module(0).m(Sum(0)),
        params: vec![byte],
        next: Branching {
            branches: vec![
                (
                    SumVariant(0),
                    DecTree::Wildcard {
                        next: Box::new(DecTree::Wildcard {
                            next: Box::new(leaf(vec![(Bind(0), 2)], 0)),
                        }),
                    },
                ),
                (SumVariant(1), leaf(vec![], 1)),
            ],
        },
    };
    let bodies = vec![Expr::Yield(Local::Binding(Bind(0))), Expr::Bool(false)];
    let expr = Expr::Match(Box::new(on), Box::new(tree), bodies, vec![1, 1]);
    f.expr_to_value(&expr);

    let on = Value::V(V(0));
    assert_eq!(f.ssa.entries[1].entry, Entry::Field { of: on, key: sum, field: RecordField(0) });
    assert_eq!(f.ssa.entries[1].ty, MonoType::Int(tag()));
    assert_eq!(f.ssa.entries[2].entry, Entry::Field { of: on, key: sum, field: RecordField(1) });
    assert_eq!(f.ssa.entries[2].ty, MonoType::SumDataCast { largest: 72 });
    let data = Value::V(V(2));
    assert_eq!(f.ssa.entries[3].entry, Entry::SumField { of: data, offset: BitOffset(0) });
    assert_eq!(f.ssa.entries[3].ty, MonoType::Int(i64_size()));
    assert_eq!(f.ssa.entries[3].block, Block(1));
    // the generic stands for a byte, which lies behind the 64 bits before it
    assert_eq!(f.ssa.entries[4].entry, Entry::SumField { of: data, offset: BitOffset(64) });
    assert_eq!(f.ssa.entries[4].ty, MonoType::Int(IntSize::new(false, 8)));
    match f.ssa.blocks[0].flow {
        ControlFlow::JumpTable(on, table) => {
            assert_eq!(on, Value::V(V(1)));
            assert_eq!(table, Args { start: 0, len: 2 });
        }
        other => panic!("no jump table: {other:?}"),
    }
    assert_eq!(f.ssa.targets[0], Block(1));
    assert_eq!(f.ssa.blocks[1].predecessors, 1);
    let second = f.ssa.targets[1];
    assert_eq!(f.ssa.blocks[second.0].predecessors, 1);
    // depth 0 is the sum, depth 1 the first parameter, depth 2 the second
    let (_, given) = jump_of(&f.ssa, 1);
    assert_eq!(given, vec![Value::V(V(4))]);
}

fn list_program() -> (Mir, MonoTypes) {
    let mut types = MonoTypes::new();
    // the list type, and what `split` gives: a tag and a payload
    let list = types.define(vec![MonoType::Pointer]).unwrap();
    let maybe = types
        .define(vec![MonoType::Int(tag()), MonoType::SumDataCast { largest: 128 }])
        .unwrap();
    assert_eq!((list, maybe), (MonoTypeKey(0), MonoTypeKey(1)));
    let mir = Mir {
        // `split`, which returns the sum
        funcs: vec![FuncDef { returns: Type::Mono(MonoType::Monomorphised(maybe)) }],
        variant_types: vec![],
        impls: vec![
            // an implementation for another type comes first and is passed over
            ImplDef {
                trait_: Trait(0),
                trait_params: vec![Type::Generic(0)],
                impltor: Type::Mono(MonoType::Pointer),
                generics: 1,
                methods: vec![None],
            },
            ImplDef {
                trait_: Trait(0),
                trait_params: vec![Type::Generic(0)],
                impltor: Type::Mono(MonoType::Monomorphised(list)),
                generics: 1,
                methods: vec![Some(Func(0))],
            },
        ],
        read_only: vec![],
        lambdas: vec![],
    };
    (mir, types)
}

#[test]
fn list_match_splits_the_list_and_reads_head_and_tail() {
    let (mir, types) = list_program();
    let list = MonoType::Monomorphised(MonoTypeKey(0));
    let mut f = FuncLower::new(&mir, &types, info(), TypeMap::new(), false, 1);
    let tree = DecTree::List {
        ty: Type::Mono(list),
        elem: Type::Mono(MonoType::Int(i64_size())),
        next: Branching {
            branches: vec![
                (
                    list_cons(),
                    DecTree::Wildcard {
                        next: Box::new(DecTree::Wildcard {
                            next: Box::new(leaf(vec![(Bind(0), 1), (Bind(1), 2)], 0)),
                        }),
                    },
                ),
                (list_nil(), leaf(vec![], 1)),
            ],
        },
    };
    let bodies = vec![Expr::Yield(Local::Binding(Bind(1))), Expr::Abort];
    let expr = Expr::Match(Box::new(param(0)), Box::new(tree), bodies, vec![1, 1]);
    f.expr_to_value(&expr);

    // the second implementation is the one for the list type; its `split`
    // is the first function asked for
    assert_eq!(f.funcs.len(), 1);
    assert_eq!(f.funcs[0].origin, FuncOrigin::Method(lumina_compiler::key::Impl(1), Method(0)));
    assert_eq!(f.funcs[0].generics, vec![MonoType::Int(i64_size())]);
    assert_eq!(f.funcs[0].self_, Some(list));

    let x = Value::BlockParam(BlockParam(0));
    let maybe = MonoTypeKey(1);
    match f.ssa.entries[0].entry {
        Entry::Call(callee, args) => {
            assert_eq!(callee, Value::FuncPtr(MonoFunc(0)));
            assert_eq!(f.ssa.args_of(args), vec![x]);
        }
        other => panic!("no call: {other:?}"),
    }
    assert_eq!(f.ssa.entries[0].ty, MonoType::Monomorphised(maybe));
    let split = Value::V(V(0));
    assert_eq!(
        f.ssa.entries[1].entry,
        Entry::Field { of: split, key: maybe, field: RecordField(0) }
    );
    assert_eq!(
        f.ssa.entries[2].entry,
        Entry::Field { of: split, key: maybe, field: RecordField(1) }
    );
    // the payload is what is left of the sum behind its tag
    assert_eq!(f.ssa.entries[2].ty, MonoType::SumDataCast { largest: 16 + 128 - 16 });
    assert_eq!(
        f.ssa.entries[3].entry,
        Entry::Compare(Comparison::Equal, Value::V(V(1)), Value::Int(0, tag()), tag())
    );
    let data = Value::V(V(2));
    // the head at the start of the payload, the tail behind it
    assert_eq!(f.ssa.entries[4].entry, Entry::SumField { of: data, offset: BitOffset(0) });
    assert_eq!(f.ssa.entries[4].ty, MonoType::Int(i64_size()));
    assert_eq!(f.ssa.entries[5].entry, Entry::SumField { of: data, offset: BitOffset(64) });
    assert_eq!(f.ssa.entries[5].ty, list);
    assert_eq!(f.ssa.entries[4].block, Block(1));
    let (body, given) = jump_of(&f.ssa, 1);
    assert_eq!(given, vec![Value::V(V(4)), Value::V(V(5))]);
    assert_eq!(f.ssa.entries[6].entry, Entry::BlockParam(body, 0));
    assert_eq!(f.ssa.entries[7].entry, Entry::BlockParam(body, 1));
    assert_eq!(f.bindmap.get(&0), Some(&Value::V(V(6))));
    assert_eq!(f.bindmap.get(&1), Some(&Value::V(V(7))));
    // the body gives the tail
    let (_, result) = jump_of(&f.ssa, body.0);
    assert_eq!(result, vec![Value::V(V(7))]);
    match f.ssa.blocks[0].flow {
        ControlFlow::Select { value, on_true, .. } => {
            assert_eq!(value, Value::V(V(3)));
            assert_eq!(on_true, Block(1));
        }
        other => panic!("no choice: {other:?}"),
    }
    assert_eq!(selects(&f.ssa), 1);
}

#[test]
fn find_implementation_takes_the_first_that_applies() {
    let (mir, types) = list_program();
    let f = FuncLower::new(&mir, &types, info(), TypeMap::new(), false, 0);
    let byte = MonoType::Int(IntSize::new(false, 8));
    let found = f.find_implementation(Trait(0), &vec![byte], MonoType::Pointer).unwrap();
    assert_eq!(found.0, lumina_compiler::key::Impl(0));
    assert_eq!(found.1.generics, vec![byte]);
    assert_eq!(found.1.self_, Some(MonoType::Pointer));
    assert!(f.find_implementation(Trait(1), &vec![byte], MonoType::Pointer).is_none());
    assert!(f.find_implementation(Trait(0), &vec![], MonoType::Pointer).is_none());
    assert!(f.find_implementation(Trait(0), &vec![byte], MonoType::Unreachable).is_none());
}

#[test]
fn a_generic_stands_for_one_type_only() {
    let mut mir = empty_mir();
    mir.impls = vec![ImplDef {
        trait_: Trait(0),
        trait_params: vec![Type::Generic(0)],
        impltor: Type::Generic(0),
        generics: 2,
        methods: vec![],
    }];
    let byte = MonoType::Int(IntSize::new(false, 8));
    assert!(mir.find(Trait(0), &vec![byte], MonoType::Pointer).is_none());
    let found = mir.find(Trait(0), &vec![byte], byte).unwrap();
    // the generic that nothing was found out of stands for a type without values
    assert_eq!(found.1.generics, vec![byte, MonoType::Unreachable]);
}

#[test]
fn call_to_mfunc_asks_for_each_instance_once() {
    let (mir, types) = list_program();
    let mut f = FuncLower::new(&mir, &types, info(), TypeMap::new(), false, 0);
    let byte = MonoType::Int(IntSize::new(false, 8));
    let tmap = |ty| TypeMap { self_: None, generics: vec![ty] };
    let first = f.call_to_mfunc(FuncOrigin::Defined(Func(0)), tmap(byte));
    assert_eq!(first, (MonoFunc(0), MonoType::Monomorphised(MonoTypeKey(1))));
    let second = f.call_to_mfunc(FuncOrigin::Defined(Func(0)), tmap(MonoType::Pointer));
    assert_eq!(second.0, MonoFunc(1));
    let again = f.call_to_mfunc(FuncOrigin::Defined(Func(0)), tmap(byte));
    assert_eq!(again.0, MonoFunc(0));
    assert_eq!(f.funcs.len(), 2);
}

#[test]
fn string_match_chains_the_checks_of_each_arm() {
    let mut mir = empty_mir();
    mir.read_only = vec![3];
    let types = string_types();
    let mut f = FuncLower::new(&mir, &types, info(), TypeMap::new(), false, 1);
    let checks = StrChecks {
        checks: vec![StrCheck::Literal(ReadOnly(0)), StrCheck::TakeByte, StrCheck::TakeExcess],
    };
    let tree = DecTree::String {
        next: Branching { branches: vec![(checks, leaf(vec![(Bind(0), 2)], 0))] },
        wildcard_next: Box::new(leaf(vec![], 1)),
    };
    let bodies = vec![Expr::Yield(Local::Binding(Bind(0))), Expr::Abort];
    let expr = Expr::Match(Box::new(param(0)), Box::new(tree), bodies, vec![1, 1]);
    f.expr_to_value(&expr);

    let x = Value::BlockParam(BlockParam(0));
    let word = IntSize::new(false, 64);
    let string = MonoType::Monomorphised(MonoTypeKey(0));
    let call = |f: &FuncLower, at: usize| match f.ssa.entries[at].entry {
        Entry::Call(callee, args) => (callee, f.ssa.args_of(args)),
        other => panic!("no call: {other:?}"),
    };
    // the literal, made of its bytes and their count
    assert_eq!(
        call(&f, 0),
        (Value::FuncPtr(MonoFunc(100)), vec![Value::ReadOnly(ReadOnly(0)), Value::Int(3, word)])
    );
    assert_eq!(f.ssa.entries[0].ty, string);
    // not the last check: the string is cut at the length of the literal
    assert_eq!(call(&f, 1), (Value::FuncPtr(MonoFunc(103)), vec![x, Value::Int(3, word)]));
    assert_eq!(
        f.ssa.entries[2].entry,
        Entry::Field { of: Value::V(V(1)), key: MonoTypeKey(1), field: RecordField(0) }
    );
    assert_eq!(
        f.ssa.entries[3].entry,
        Entry::Field { of: Value::V(V(1)), key: MonoTypeKey(1), field: RecordField(1) }
    );
    assert_eq!(call(&f, 4), (Value::FuncPtr(MonoFunc(101)), vec![Value::V(V(2)), Value::V(V(0))]));
    // block 1 is where a failed check leads; the first check is made in block 0
    assert_eq!(
        f.ssa.blocks[0].flow,
        ControlFlow::Select { value: Value::V(V(4)), on_true: Block(2), on_false: Block(1) }
    );
    // the byte is taken from what the literal left
    assert_eq!(call(&f, 5), (Value::FuncPtr(MonoFunc(104)), vec![Value::V(V(3))]));
    assert_eq!(f.ssa.entries[5].block, Block(2));
    assert_eq!(
        f.ssa.entries[8].entry,
        Entry::Compare(
            Comparison::Equal,
            Value::V(V(6)),
            Value::Int(0, IntSize::new(false, 8)),
            IntSize::new(false, 8)
        )
    );
    assert_eq!(
        f.ssa.blocks[2].flow,
        ControlFlow::Select { value: Value::V(V(8)), on_true: Block(3), on_false: Block(1) }
    );
    // seen: the literal at depth 0, the byte at depth 1, the rest at depth 2
    let (_, given) = jump_of(&f.ssa, 3);
    assert_eq!(given, vec![Value::V(V(7))]);
    // where a check failed, what matches any string follows
    let (fallback, none) = jump_of(&f.ssa, 1);
    assert_eq!(none, vec![]);
    assert_eq!(f.ssa.blocks[1].predecessors, 2);
    assert_eq!(f.ssa.blocks[fallback.0].predecessors, 1);
}

#[test]
fn string_checks_by_count_and_by_predicate() {
    let mut mir = empty_mir();
    mir.funcs = vec![FuncDef { returns: Type::Mono(truth()) }];
    mir.lambdas = vec![FuncDef { returns: Type::Mono(truth()) }; 5];
    let types = string_types();
    let mut f = FuncLower::new(&mir, &types, info(), TypeMap::new(), false, 1);
    let checks = StrChecks {
        checks: vec![
            StrCheck::Take(2),
            StrCheck::TakeWhileFunc(Module(0).m(Func(0))),
            StrCheck::TakeWhileLambda(Lambda(4)),
        ],
    };
    let tree = DecTree::String {
        next: Branching { branches: vec![(checks, leaf(vec![], 0))] },
        wildcard_next: Box::new(leaf(vec![], 0)),
    };
    let expr = Expr::Match(Box::new(param(0)), Box::new(tree), vec![Expr::Abort], vec![2]);
    f.expr_to_value(&expr);

    let x = Value::BlockParam(BlockParam(0));
    let word = IntSize::new(false, 64);
    let call = |f: &FuncLower, at: usize| match f.ssa.entries[at].entry {
        Entry::Call(callee, args) => (callee, f.ssa.args_of(args)),
        other => panic!("no call: {other:?}"),
    };
    assert_eq!(call(&f, 0), (Value::FuncPtr(MonoFunc(103)), vec![x, Value::Int(2, word)]));
    assert_eq!(call(&f, 3), (Value::FuncPtr(MonoFunc(102)), vec![Value::V(V(1))]));
    assert_eq!(
        f.ssa.entries[4].entry,
        Entry::Compare(Comparison::Equal, Value::Int(2, word), Value::V(V(3)), word)
    );
    // the function is the first asked for, the lambda the second
    assert_eq!(f.funcs[0].origin, FuncOrigin::Defined(Func(0)));
    assert_eq!(f.funcs[1].origin, FuncOrigin::Lambda(Lambda(4)));
    assert_eq!(f.funcs[1].returns, truth());
    assert_eq!(
        call(&f, 5),
        (Value::FuncPtr(MonoFunc(105)), vec![Value::V(V(2)), Value::FuncPtr(MonoFunc(0))])
    );
    // the lambda is called through an object of what it captured and itself
    match f.ssa.entries[9].entry {
        Entry::Construct(args) => assert_eq!(
            f.ssa.args_of(args),
            vec![Value::V(V(8)), Value::FuncPtr(MonoFunc(1))]
        ),
        other => panic!("no object: {other:?}"),
    }
    assert_eq!(f.ssa.entries[9].ty, MonoType::Monomorphised(MonoTypeKey(3)));
    assert_eq!(call(&f, 10), (Value::FuncPtr(MonoFunc(105)), vec![Value::V(V(7)), Value::V(V(9))]));
    // both the arm and what matches any string lead to the one body
    let body = jump_of(&f.ssa, 2).0;
    assert_eq!(f.ssa.blocks[body.0].predecessors, 2);
}

#[test]
fn expressions_lower_to_single_instructions() {
    let mir = empty_mir();
    let mut types = MonoTypes::new();
    let pair = types.define(vec![MonoType::Int(i64_size()), MonoType::Pointer]).unwrap();
    let mut f = FuncLower::new(&mir, &types, info(), TypeMap::new(), true, 2);
    // with captures the parameters come one place later
    assert_eq!(f.expr_to_value(&param(0)), Value::BlockParam(BlockParam(1)));
    assert_eq!(f.expr_to_value(&Expr::Bool(true)), Value::UInt(1, IntSize::new(false, 8)));
    assert_eq!(f.expr_to_value(&Expr::Bool(false)), Value::UInt(0, IntSize::new(false, 8)));
    assert_eq!(f.expr_to_value(&Expr::ReadOnly(ReadOnly(3))), Value::ReadOnly(ReadOnly(3)));
    assert_eq!(f.expr_to_value(&Expr::Abort), Value::Int(1, IntSize::new(false, 64)));
    assert_eq!(
        f.expr_to_value(&Expr::SizeOf(Type::Mono(MonoType::Monomorphised(pair)))),
        Value::Int(16, IntSize::new(false, 64))
    );
    assert_eq!(f.ssa.entries.len(), 0);

    let narrow = IntSize::new(true, 8);
    let wide = i64_size();
    let same = f.expr_to_value(&Expr::IntCast(Box::new(lit(1)), wide, wide));
    assert_eq!(same, Value::Int(1, wide));
    let up = f.expr_to_value(&Expr::IntCast(Box::new(lit(1)), narrow, wide));
    assert_eq!(up, Value::V(V(0)));
    assert_eq!(f.ssa.entries[0].entry, Entry::Extend(Value::Int(1, wide), true));
    assert_eq!(f.ssa.entries[0].ty, MonoType::Int(wide));
    let down = f.expr_to_value(&Expr::IntCast(Box::new(lit(1)), wide, narrow));
    assert_eq!(down, Value::V(V(1)));
    assert_eq!(f.ssa.entries[1].entry, Entry::Reduce(Value::Int(1, wide)));
    assert_eq!(f.ssa.entries[1].ty, MonoType::Int(narrow));

    for (name, how) in
        [("eq", Comparison::Equal), ("lt", Comparison::Less), ("gt", Comparison::Greater)]
    {
        let v = f.expr_to_value(&Expr::Compare(name, Box::new(lit(1)), Box::new(lit(2))));
        let Value::V(at) = v else { panic!("no instruction") };
        assert_eq!(
            f.ssa.entries[at.0].entry,
            Entry::Compare(how, Value::Int(1, wide), Value::Int(2, wide), wide)
        );
        assert_eq!(f.ssa.entries[at.0].ty, truth());
    }
    for (name, op) in
        [("plus", Arith::Add), ("minus", Arith::Sub), ("mul", Arith::Mul), ("div", Arith::Div)]
    {
        let v = f.expr_to_value(&Expr::Num(name, Box::new(lit(6)), Box::new(lit(3))));
        let Value::V(at) = v else { panic!("no instruction") };
        assert_eq!(
            f.ssa.entries[at.0].entry,
            Entry::Num(op, Value::Int(6, wide), Value::Int(3, wide))
        );
        assert_eq!(f.ssa.entries[at.0].ty, MonoType::Int(wide));
    }
    let written = f.expr_to_value(&Expr::Write(Box::new(param(1)), Box::new(lit(9))));
    let Value::V(at) = written else { panic!("no instruction") };
    assert_eq!(
        f.ssa.entries[at.0].entry,
        Entry::Write(Value::BlockParam(BlockParam(2)), Value::Int(9, wide))
    );
}

#[test]
fn calls_lower_their_arguments_in_order() {
    let mir = empty_mir();
    let types = MonoTypes::new();
    let mut f = FuncLower::new(&mir, &types, info(), TypeMap::new(), false, 2);
    let wide = i64_size();
    let args =
        || vec![Expr::Num("plus", Box::new(param(0)), Box::new(lit(1))), param(1)];
    let x = Value::BlockParam(BlockParam(0));
    let y = Value::BlockParam(BlockParam(1));

    let called = f.expr_to_value(&Expr::CallFunc(
        ResolvedNFunc::Static(MonoFunc(7), MonoType::Int(wide)),
        args(),
    ));
    assert_eq!(f.ssa.entries[0].entry, Entry::Num(Arith::Add, x, Value::Int(1, wide)));
    assert_eq!(called, Value::V(V(1)));
    match f.ssa.entries[1].entry {
        Entry::Call(callee, list) => {
            assert_eq!(callee, Value::FuncPtr(MonoFunc(7)));
            assert_eq!(f.ssa.args_of(list), vec![Value::V(V(0)), y]);
        }
        other => panic!("no call: {other:?}"),
    }
    assert_eq!(f.ssa.entries[1].ty, MonoType::Int(wide));

    let outside = Module(2).m(Func(5));
    let called =
        f.expr_to_value(&Expr::CallFunc(ResolvedNFunc::Extern(outside, MonoType::Pointer), args()));
    assert_eq!(called, Value::V(V(3)));
    match f.ssa.entries[3].entry {
        Entry::CallExtern(key, list) => {
            assert_eq!(key, outside);
            assert_eq!(f.ssa.args_of(list), vec![Value::V(V(2)), y]);
        }
        other => panic!("no call: {other:?}"),
    }

    // a variant: the arguments as one payload, then the tag and the payload
    let tag_value = Value::Int(1, tag());
    let built = f.expr_to_value(&Expr::CallFunc(
        ResolvedNFunc::Sum { tag: tag_value, payload_size: 128, ty: MonoTypeKey(9) },
        vec![param(0), param(1)],
    ));
    match f.ssa.entries[4].entry {
        Entry::Construct(list) => assert_eq!(f.ssa.args_of(list), vec![x, y]),
        other => panic!("no payload: {other:?}"),
    }
    assert_eq!(f.ssa.entries[4].ty, MonoType::SumDataCast { largest: 128 });
    match f.ssa.entries[5].entry {
        Entry::Construct(list) => assert_eq!(f.ssa.args_of(list), vec![tag_value, Value::V(V(4))]),
        other => panic!("no sum: {other:?}"),
    }
    assert_eq!(f.ssa.entries[5].ty, MonoType::Monomorphised(MonoTypeKey(9)));
    assert_eq!(built, Value::V(V(5)));

    // a static value is read through its address
    let val = Module(0).m(Val(3));
    let read = f.expr_to_value(&Expr::CallFunc(ResolvedNFunc::Val(val, truth()), vec![]));
    assert_eq!(f.ssa.entries[6].entry, Entry::ValToRef(val));
    assert_eq!(f.ssa.entries[7].entry, Entry::Deref(Value::V(V(6))));
    assert_eq!(f.ssa.entries[7].ty, truth());
    assert_eq!(read, Value::V(V(7)));
}

#[test]
fn list_match_binds_head_and_tail_and_then_calls() {
    let (mir, types) = list_program();
    let list = MonoType::Monomorphised(MonoTypeKey(0));
    let mut f = FuncLower::new(&mir, &types, info(), TypeMap::new(), false, 1);
    let tree = DecTree::List {
        ty: Type::Mono(list),
        elem: Type::Mono(MonoType::Int(i64_size())),
        next: Branching {
            branches: vec![
                (list_nil(), leaf(vec![], 1)),
                (
                    list_cons(),
                    DecTree::Wildcard {
                        next: Box::new(DecTree::Wildcard {
                            next: Box::new(leaf(vec![(Bind(0), 1), (Bind(1), 2)], 0)),
                        }),
                    },
                ),
            ],
        },
    };
    let call = |func: usize, args: Vec<Expr>| {
        Expr::CallFunc(ResolvedNFunc::Static(MonoFunc(func), MonoType::Int(i64_size())), args)
    };
    let bodies = vec![
        call(
            50,
            vec![Expr::Yield(Local::Binding(Bind(0))), Expr::Yield(Local::Binding(Bind(1)))],
        ),
        call(51, vec![]),
    ];
    let expr = Expr::Match(Box::new(param(0)), Box::new(tree), bodies, vec![1, 1]);
    f.expr_to_value(&expr);
    // the arm for `Cons` is walked first, whatever the order of the arms
    let (body, given) = jump_of(&f.ssa, 1);
    assert_eq!(given, vec![Value::V(V(4)), Value::V(V(5))]);
    match f.ssa.entries[8].entry {
        Entry::Call(callee, list) => {
            assert_eq!(callee, Value::FuncPtr(MonoFunc(50)));
            assert_eq!(f.ssa.args_of(list), vec![Value::V(V(6)), Value::V(V(7))]);
        }
        other => panic!("no call: {other:?}"),
    }
    assert_eq!(f.ssa.entries[8].block, body);
    match f.ssa.entries[9].entry {
        Entry::Call(callee, list) => {
            assert_eq!(callee, Value::FuncPtr(MonoFunc(51)));
            assert_eq!(f.ssa.args_of(list), vec![]);
        }
        other => panic!("no call: {other:?}"),
    }
}

#[test]
fn expr_to_flow_returns_the_value() {
    let mir = empty_mir();
    let types = MonoTypes::new();
    let mut f = FuncLower::new(&mir, &types, info(), TypeMap::new(), false, 1);
    f.expr_to_flow(&Expr::Num("mul", Box::new(param(0)), Box::new(lit(2))));
    assert_eq!(f.ssa.blocks[0].flow, ControlFlow::Return(Value::V(V(0))));
    assert_eq!(f.ssa.blocks.len(), 1);
}

#[test]
fn only_locals_and_literals_have_no_side_effects() {
    let mir = empty_mir();
    let types = MonoTypes::new();
    let mut f = FuncLower::new(&mir, &types, info(), TypeMap::new(), false, 1);
    assert_eq!(
        f.expr_to_value_no_side_effects(&param(0)),
        Some(Value::BlockParam(BlockParam(0)))
    );
    assert_eq!(f.expr_to_value_no_side_effects(&lit(4)), Some(Value::Int(4, i64_size())));
    assert_eq!(
        f.expr_to_value_no_side_effects(&Expr::Bool(true)),
        Some(Value::UInt(1, IntSize::new(false, 8)))
    );
    let big = Expr::UInt(IntSize::new(false, 128), u128::MAX);
    assert_eq!(
        f.expr_to_value_no_side_effects(&big),
        Some(Value::UInt(u128::MAX, IntSize::new(false, 128)))
    );
    assert_eq!(f.expr_to_value(&big), Value::UInt(u128::MAX, IntSize::new(false, 128)));
    assert_eq!(
        f.ssa.type_of(Value::UInt(3, IntSize::new(false, 16))),
        MonoType::Int(IntSize::new(false, 16))
    );
    assert_eq!(f.expr_to_value_no_side_effects(&Expr::Abort), None);
    let sum = Expr::Num("plus", Box::new(lit(1)), Box::new(lit(2)));
    assert_eq!(f.expr_to_value_no_side_effects(&sum), None);
    assert_eq!(f.ssa.entries.len(), 0);
}

#[test]
fn heap_alloc_writes_what_has_a_size() {
    let mir = empty_mir();
    let mut types = MonoTypes::new();
    let nothing = types.define(vec![]).unwrap();
    let pair = types.define(vec![MonoType::Int(i64_size()), MonoType::Pointer]).unwrap();
    let mut f = FuncLower::new(&mir, &types, info(), TypeMap::new(), false, 1);
    let x = Value::BlockParam(BlockParam(0));
    let none = f.heap_alloc(x, MonoType::Monomorphised(nothing));
    assert_eq!(none, Value::UInt(0, IntSize::new(false, 64)));
    assert_eq!(f.ssa.entries.len(), 0);
    let some = f.heap_alloc(x, MonoType::Monomorphised(pair));
    assert_eq!(some, Value::V(V(0)));
    assert_eq!(f.ssa.entries[0].entry, Entry::Alloc { size: 128 });
    assert_eq!(f.ssa.entries[0].ty, MonoType::Pointer);
    assert_eq!(f.ssa.entries[1].entry, Entry::Write(Value::V(V(0)), x));
}

#[test]
fn sizes_add_up_through_nested_types() {
    let mut types = MonoTypes::new();
    let inner = types.define(vec![MonoType::Int(IntSize::new(false, 8)), MonoType::Pointer]).unwrap();
    let outer = types
        .define(vec![
            MonoType::Monomorphised(inner),
            MonoType::SumDataCast { largest: 24 },
            MonoType::Unreachable,
            MonoType::Monomorphised(inner),
        ])
        .unwrap();
    assert_eq!(types.size_of_defined(inner), 72);
    assert_eq!(types.size_of_defined(outer), 72 + 24 + 72);
    assert_eq!(types.size_of(&MonoType::Int(i64_size())), 64);
    assert_eq!(types.size_of(&MonoType::Monomorphised(outer)), 168);
    assert_eq!(types.fields(outer), 4);
    assert_eq!(types.type_of_field(outer, RecordField(1)), MonoType::SumDataCast { largest: 24 });
    // a type may hold only what was defined before it
    assert_eq!(types.define(vec![MonoType::Monomorphised(MonoTypeKey(2))]), None);
    assert_eq!(types.define(vec![MonoType::Monomorphised(MonoTypeKey(9))]), None);
    assert_eq!(types.records.len(), 2);
}

#[test]
fn blocks_count_the_jumps_that_lead_into_them() {
    let mut ssa = Blocks::new(2);
    assert_eq!(ssa.block(), Block::entry());
    let a = ssa.new_block(1);
    let b = ssa.new_block(0);
    assert_eq!((a, b), (Block(1), Block(2)));
    ssa.jump_table(Value::BlockParam(BlockParam(0)), vec![a, b, a]);
    assert_eq!(ssa.predecessors(a), 2);
    assert_eq!(ssa.predecessors(b), 1);
    assert_eq!(ssa.targets, vec![a, b, a]);
    ssa.switch_to_block(a);
    let p = ssa.add_block_param(a, MonoType::Pointer);
    assert_eq!(ssa.get_block_param(a, 0), Some(p));
    assert_eq!(ssa.get_block_param(a, 1), None);
    assert_eq!(ssa.get_block_param(b, 0), None);
    assert_eq!(ssa.type_of(p), MonoType::Pointer);
    assert_eq!(ssa.type_of(Value::V(V(9))), MonoType::Unreachable);
    assert_eq!(ssa.type_of(Value::Int(3, i64_size())), MonoType::Int(i64_size()));
    ssa.jump(b, vec![p, p]);
    assert_eq!(ssa.predecessors(b), 2);
    assert_eq!(jump_of(&ssa, 1), (b, vec![p, p]));
    ssa.switch_to_block(b);
    ssa.return_(p);
    assert_eq!(ssa.blocks[2].flow, ControlFlow::Return(p));
    assert_eq!(ssa.blocks[0].arity, 2);
}

#[test]
fn a_record_is_built_in_the_order_of_its_fields() {
    let mir = empty_mir();
    let mut types = MonoTypes::new();
    let key = types
        .define(vec![MonoType::Pointer, MonoType::Int(i64_size()), MonoType::Int(i64_size())])
        .unwrap();
    let mut f = FuncLower::new(&mir, &types, info(), TypeMap::new(), false, 1);
    let wide = i64_size();
    // the fields are lowered as they are written and put in place afterwards
    let expr = Expr::Record(
        key,
        vec![
            (RecordField(2), Expr::Num("plus", Box::new(lit(1)), Box::new(lit(2)))),
            (RecordField(0), param(0)),
            (RecordField(1), Expr::Num("mul", Box::new(lit(3)), Box::new(lit(4)))),
        ],
    );
    let built = f.expr_to_value(&expr);
    assert_eq!(
        f.ssa.entries[0].entry,
        Entry::Num(Arith::Add, Value::Int(1, wide), Value::Int(2, wide))
    );
    assert_eq!(
        f.ssa.entries[1].entry,
        Entry::Num(Arith::Mul, Value::Int(3, wide), Value::Int(4, wide))
    );
    match f.ssa.entries[2].entry {
        Entry::Construct(list) => assert_eq!(
            f.ssa.args_of(list),
            vec![Value::BlockParam(BlockParam(0)), Value::V(V(1)), Value::V(V(0))]
        ),
        other => panic!("no record: {other:?}"),
    }
    assert_eq!(f.ssa.entries[2].ty, MonoType::Monomorphised(key));
    assert_eq!(built, Value::V(V(2)));
}

#[test]
fn the_address_of_a_static_value() {
    let mir = empty_mir();
    let types = MonoTypes::new();
    let mut f = FuncLower::new(&mir, &types, info(), TypeMap::new(), false, 0);
    let val = Module(1).m(Val(2));
    let call = Expr::CallFunc(ResolvedNFunc::Val(val, truth()), vec![]);
    let address = f.expr_to_value(&Expr::ValToRef(Box::new(call)));
    assert_eq!(address, Value::V(V(0)));
    assert_eq!(f.ssa.entries[0].entry, Entry::ValToRef(val));
    assert_eq!(f.ssa.entries[0].ty, MonoType::Pointer);
    assert_eq!(f.ssa.entries.len(), 1);
}

#[test]
fn a_match_in_a_body_is_lowered_with_bindings_of_its_own() {
    let mir = empty_mir();
    let types = MonoTypes::new();
    let mut f = FuncLower::new(&mir, &types, info(), TypeMap::new(), false, 1);
    let inner = Expr::Match(
        Box::new(Expr::Yield(Local::Binding(Bind(0)))),
        Box::new(DecTree::Bools(Branching {
            branches: vec![(true, leaf(vec![], 0)), (false, leaf(vec![], 1))],
        })),
        vec![lit(1), lit(2)],
        vec![1, 1],
    );
    let outer = Expr::Match(
        Box::new(param(0)),
        Box::new(DecTree::Wildcard { next: Box::new(leaf(vec![(Bind(0), 0)], 0)) }),
        vec![inner],
        vec![1],
    );
    let value = f.expr_to_value(&outer);
    // the outer match has one branch and needs no meeting block of its own:
    // its value is that of the inner match
    assert_eq!(jump_of(&f.ssa, 0), (Block(1), vec![Value::BlockParam(BlockParam(0))]));
    assert_eq!(f.ssa.entries[0].entry, Entry::BlockParam(Block(1), 0));
    assert_eq!(
        f.ssa.blocks[1].flow,
        ControlFlow::Select { value: Value::V(V(0)), on_true: Block(2), on_false: Block(3) }
    );
    assert_eq!(selects(&f.ssa), 1);
    let meet = f.ssa.block();
    assert_eq!(f.ssa.blocks[meet.0].predecessors, 2);
    assert_eq!(f.ssa.blocks[meet.0].arity, 1);
    match value {
        Value::V(v) => assert_eq!(f.ssa.entries[v.0].entry, Entry::BlockParam(meet, 0)),
        other => panic!("no parameter: {other:?}"),
    }
}

#[test]
fn a_match_can_be_started_and_run_by_hand() {
    let mir = empty_mir();
    let types = MonoTypes::new();
    let mut f = FuncLower::new(&mir, &types, info(), TypeMap::new(), false, 1);
    let bodies = vec![lit(1), lit(2)];
    let counts = vec![1, 1];
    let tree = DecTree::Bools(Branching {
        branches: vec![(true, leaf(vec![], 0)), (false, leaf(vec![], 1))],
    });
    let mut pat = f.to_pat_lower(&bodies, &counts);
    assert_eq!(pat.st.expressions, vec![None, None]);
    assert!(pat.st.can_skip_continuation);
    assert!(pat.st.continuation_block.is_none());
    // the meeting block is made when it is first asked for, and stays
    let meet = pat.get_continuation(MonoType::Int(i64_size()));
    assert_eq!(meet, Block(1));
    assert_eq!(pat.get_continuation(MonoType::Pointer), Block(1));
    assert_eq!(pat.st.continuation_block, Some((Block(1), MonoType::Int(i64_size()))));
    let value = pat.run(Value::BlockParam(BlockParam(0)), &tree);
    assert_eq!(f.ssa.blocks[1].arity, 1);
    assert_eq!(f.ssa.blocks[1].predecessors, 2);
    assert_eq!(f.ssa.block(), Block(1));
    assert_eq!(value, Value::V(V(0)));
    assert_eq!(f.ssa.entries[0].entry, Entry::BlockParam(Block(1), 0));
    assert_eq!(f.ssa.entries[0].ty, MonoType::Int(i64_size()));
}

#[test]
fn a_body_whose_count_is_not_met_is_not_lowered() {
    let mir = empty_mir();
    let types = MonoTypes::new();
    let mut f = FuncLower::new(&mir, &types, info(), TypeMap::new(), false, 1);
    // three leaves are counted for the second body and only one leads to it
    let tree = DecTree::Bools(Branching {
        branches: vec![(true, leaf(vec![], 0)), (false, leaf(vec![], 1))],
    });
    let expr = Expr::Match(Box::new(param(0)), Box::new(tree), vec![lit(1), lit(2)], vec![1, 3]);
    f.expr_to_value(&expr);
    assert_eq!(jump_of(&f.ssa, 3), (Block(4), vec![Value::Int(1, i64_size())]));
    assert_eq!(jump_of(&f.ssa, 2), (Block(5), vec![]));
    assert_eq!(f.ssa.blocks[5].flow, ControlFlow::Open);
    assert_eq!(f.ssa.blocks[4].predecessors, 1);
}

#[test]
fn generics_are_replaced_by_what_stands_for_them() {
    let byte = MonoType::Int(IntSize::new(false, 8));
    let tmap = TypeMap { self_: None, generics: vec![MonoType::Pointer, byte] };
    assert_eq!(tmap.apply(&Type::Generic(1)), byte);
    assert_eq!(tmap.apply(&Type::Generic(0)), MonoType::Pointer);
    assert_eq!(tmap.apply(&Type::Mono(MonoType::Unreachable)), MonoType::Unreachable);
    let params = vec![Type::Mono(byte), Type::Generic(4)];
    assert_eq!(lumina_compiler::mono::instantiate(Type::Generic(0), &params), Type::Mono(byte));
    assert_eq!(lumina_compiler::mono::instantiate(Type::Generic(1), &params), Type::Generic(4));
    assert_eq!(
        lumina_compiler::mono::instantiate(Type::Mono(MonoType::Pointer), &params),
        Type::Mono(MonoType::Pointer)
    );
}

/// A match that binds the value of `on` to binding 0 and runs `body`.
fn bound_to(on: Expr, body: Expr) -> Expr {
    Expr::Match(
        Box::new(on),
        Box::new(DecTree::Wildcard { next: Box::new(leaf(vec![(Bind(0), 0)], 0)) }),
        vec![body],
        vec![1],
    )
}

#[test]
fn a_function_pointer_in_a_local_is_called_directly() {
    let mir = empty_mir();
    let mut types = MonoTypes::new();
    let sig = types.sign(vec![MonoType::Int(i64_size())], truth()).unwrap();
    let holder = types.define(vec![MonoType::FnPointer(sig)]).unwrap();
    let mut f = FuncLower::new(&mir, &types, info(), TypeMap::new(), false, 1);
    let callee = Expr::Access(Box::new(param(0)), holder, RecordField(0));
    let call = Expr::CallLocal(Local::Binding(Bind(0)), vec![lit(7)]);
    let value = f.expr_to_value(&bound_to(callee, call));
    // the field, the parameter that the binding became, the call
    assert_eq!(f.ssa.entries[0].ty, MonoType::FnPointer(sig));
    assert_eq!(f.ssa.entries[1].entry, Entry::BlockParam(Block(1), 0));
    assert_eq!(f.ssa.entries[1].ty, MonoType::FnPointer(sig));
    match f.ssa.entries[2].entry {
        Entry::Call(to_call, list) => {
            assert_eq!(to_call, Value::V(V(1)));
            assert_eq!(f.ssa.args_of(list), vec![Value::Int(7, i64_size())]);
        }
        other => panic!("no call: {other:?}"),
    }
    assert_eq!(f.ssa.entries[2].ty, truth());
    assert_eq!(value, Value::V(V(2)));
}

#[test]
fn a_closure_in_a_local_is_called_through_its_table() {
    let mir = empty_mir();
    let mut types = MonoTypes::new();
    let wide = MonoType::Int(i64_size());
    let sig = types.sign(vec![MonoType::Pointer, wide], truth()).unwrap();
    let vtable = types.define(vec![MonoType::FnPointer(sig)]).unwrap();
    let object = types.define(vec![MonoType::Pointer, MonoType::PointerTo(vtable)]).unwrap();
    let holder = types.define(vec![MonoType::Monomorphised(object)]).unwrap();
    let pair = types.define(vec![wide, wide]).unwrap();
    let mut f = FuncLower::new(&mir, &types, info(), TypeMap::new(), false, 1);
    let closure = Expr::Access(Box::new(param(0)), holder, RecordField(0));
    let call = Expr::CallLocal(Local::Binding(Bind(0)), vec![lit(1), lit(2)]);
    let value = f.expr_to_value(&bound_to(closure, call));

    let obj = Value::V(V(1));
    assert_eq!(f.ssa.entries[1].ty, MonoType::Monomorphised(object));
    assert_eq!(
        f.ssa.entries[2].entry,
        Entry::Field { of: obj, key: object, field: RecordField(0) }
    );
    assert_eq!(f.ssa.entries[2].ty, MonoType::Pointer);
    assert_eq!(
        f.ssa.entries[3].entry,
        Entry::Field { of: obj, key: object, field: RecordField(1) }
    );
    assert_eq!(f.ssa.entries[3].ty, MonoType::PointerTo(vtable));
    assert_eq!(f.ssa.entries[4].entry, Entry::Deref(Value::V(V(3))));
    assert_eq!(f.ssa.entries[4].ty, MonoType::Monomorphised(vtable));
    assert_eq!(
        f.ssa.entries[5].entry,
        Entry::Field { of: Value::V(V(4)), key: vtable, field: RecordField(0) }
    );
    assert_eq!(f.ssa.entries[5].ty, MonoType::FnPointer(sig));
    // the parameters as one tuple, of the first type with these fields
    match f.ssa.entries[6].entry {
        Entry::Construct(list) => assert_eq!(
            f.ssa.args_of(list),
            vec![Value::Int(1, i64_size()), Value::Int(2, i64_size())]
        ),
        other => panic!("no tuple: {other:?}"),
    }
    assert_eq!(f.ssa.entries[6].ty, MonoType::Monomorphised(pair));
    match f.ssa.entries[7].entry {
        Entry::Call(to_call, list) => {
            assert_eq!(to_call, Value::V(V(5)));
            assert_eq!(f.ssa.args_of(list), vec![Value::V(V(2)), Value::V(V(6))]);
        }
        other => panic!("no call: {other:?}"),
    }
    assert_eq!(f.ssa.entries[7].ty, truth());
    assert_eq!(value, Value::V(V(7)));
}

#[test]
fn tuples_and_reads_through_pointers() {
    let mir = empty_mir();
    let mut types = MonoTypes::new();
    let wide = MonoType::Int(i64_size());
    let pair = types.define(vec![wide, MonoType::PointerTo(MonoTypeKey(0))]).unwrap();
    let other = types.define(vec![wide, wide]).unwrap();
    let mut f = FuncLower::new(&mir, &types, info(), TypeMap::new(), false, 1);
    let first = f.expr_to_value(&Expr::Tuple(vec![lit(1), lit(2)]));
    assert_eq!(f.ssa.entries[0].ty, MonoType::Monomorphised(other));
    assert_eq!(first, Value::V(V(0)));
    // the second field of the first type is a pointer to a value of that type
    let field = Expr::Access(Box::new(param(0)), pair, RecordField(1));
    let read = f.expr_to_value(&Expr::Deref(Box::new(field)));
    assert_eq!(f.ssa.entries[2].entry, Entry::Deref(Value::V(V(1))));
    assert_eq!(f.ssa.entries[2].ty, MonoType::Monomorphised(pair));
    assert_eq!(read, Value::V(V(2)));
    // a plain pointer points to a byte
    let byte = f.expr_to_value(&Expr::Deref(Box::new(Expr::ReadOnly(ReadOnly(0)))));
    assert_eq!(f.ssa.entries[3].ty, MonoType::Int(IntSize::new(false, 8)));
    assert_eq!(byte, Value::V(V(3)));
    assert_eq!(lumina_compiler::mono::deref(wide), None);
    assert_eq!(types.returns_of(wide), None);
    assert_eq!(types.find_tuple(&vec![wide]), None);
    assert_eq!(types.find_tuple(&vec![wide, wide]), Some(other));
    assert_eq!(types.size_of(&MonoType::Monomorphised(pair)), 128);
}

#[test]
fn a_lambda_is_called_on_what_it_captured_first() {
    let mut mir = empty_mir();
    mir.lambdas = vec![FuncDef { returns: Type::Mono(truth()) }, FuncDef { returns: Type::Generic(0) }];
    let types = MonoTypes::new();
    let mut tmap = TypeMap::new();
    tmap.generics.push(MonoType::Int(i64_size()));
    let mut f = FuncLower::new(&mir, &types, info(), tmap, false, 1);
    assert_eq!(f.lambda_returns(Lambda(0)), Some(truth()));
    assert_eq!(f.lambda_returns(Lambda(1)), Some(MonoType::Int(i64_size())));
    assert_eq!(f.lambda_returns(Lambda(2)), None);

    let sum = Expr::Num("plus", Box::new(param(0)), Box::new(lit(1)));
    let called = f.expr_to_value(&Expr::CallLambda(Lambda(1), vec![sum, lit(7)]));
    // the argument, then what was captured, then the call
    assert_eq!(f.ssa.entries.len(), 3);
    assert_eq!(f.ssa.entries[1].ty, MonoType::Pointer);
    match f.ssa.entries[1].entry {
        Entry::Construct(args) => assert_eq!(f.ssa.args_of(args), vec![]),
        other => panic!("no captures: {other:?}"),
    }
    match f.ssa.entries[2].entry {
        Entry::Call(callee, args) => {
            assert_eq!(callee, Value::FuncPtr(MonoFunc(0)));
            assert_eq!(
                f.ssa.args_of(args),
                vec![Value::V(V(1)), Value::V(V(0)), Value::Int(7, i64_size())]
            );
        },
        other => panic!("no call: {other:?}"),
    }
    assert_eq!(f.ssa.entries[2].ty, MonoType::Int(i64_size()));
    assert_eq!(called, Value::V(V(2)));
    assert_eq!(f.funcs.len(), 1);
    assert_eq!(f.funcs[0].origin, FuncOrigin::Lambda(Lambda(1)));
    assert_eq!(f.funcs[0].returns, MonoType::Int(i64_size()));

    // a second call asks for no second instance
    f.expr_to_value(&Expr::CallLambda(Lambda(1), vec![]));
    assert_eq!(f.funcs.len(), 1);
    f.expr_to_value(&Expr::CallLambda(Lambda(0), vec![]));
    assert_eq!(f.funcs.len(), 2);
    assert_eq!(f.ssa.entries[6].ty, truth());
}

#[test]
fn a_lambda_as_a_value_is_an_object_of_captures_and_function() {
    let mut mir = empty_mir();
    mir.lambdas = vec![FuncDef { returns: Type::Mono(MonoType::Pointer) }; 4];
    let types = MonoTypes::new();
    let mut f = FuncLower::new(&mir, &types, info(), TypeMap::new(), false, 0);
    let object = f.expr_to_value(&Expr::YieldLambda(Lambda(3)));
    assert_eq!(object, Value::V(V(1)));
    assert_eq!(f.ssa.entries.len(), 2);
    assert_eq!(f.ssa.entries[0].ty, MonoType::Pointer);
    match f.ssa.entries[1].entry {
        Entry::Construct(args) => {
            assert_eq!(f.ssa.args_of(args), vec![Value::V(V(0)), Value::FuncPtr(MonoFunc(0))])
        },
        other => panic!("no object: {other:?}"),
    }
    assert_eq!(f.ssa.entries[1].ty, MonoType::Monomorphised(MonoTypeKey(3)));
    assert_eq!(f.funcs[0].origin, FuncOrigin::Lambda(Lambda(3)));
    // a lambda is no plain value: building it adds instructions
    assert_eq!(f.expr_to_value_no_side_effects(&Expr::YieldLambda(Lambda(3))), None);
}

/// The blocks to which a block may hand over.
fn ways_on(ssa: &Blocks, block: usize) -> Vec<usize> {
    match ssa.blocks[block].flow {
        ControlFlow::Open | ControlFlow::Return(_) => vec![],
        ControlFlow::Jump(to, _) => vec![to.0],
        ControlFlow::Select { on_true, on_false, .. } => vec![on_true.0, on_false.0],
        ControlFlow::JumpTable(_, table) => {
            ssa.targets[table.start..table.start + table.len].iter().map(|to| to.0).collect()
        },
    }
}

/// The blocks that can be reached from the first block without passing
/// through `closed`.
fn reached_around(ssa: &Blocks, closed: usize) -> Vec<bool> {
    let mut seen = vec![false; ssa.blocks.len()];
    let mut open = vec![0];
    while let Some(block) = open.pop() {
        if block == closed || seen[block] {
            continue;
        }
        seen[block] = true;
        open.extend(ways_on(ssa, block));
    }
    seen
}

#[test]
fn a_match_is_entered_where_it_starts_and_left_where_its_branches_meet() {
    let mut mir = empty_mir();
    mir.variant_types = vec![vec![vec![Type::Mono(MonoType::Int(i64_size()))], vec![]]];
    let mut types = MonoTypes::new();
    let sum = types
        .define(vec![MonoType::Int(tag()), MonoType::SumDataCast { largest: 64 }])
        .unwrap();
    let holder = types.define(vec![MonoType::Monomorphised(sum)]).unwrap();
    let mut f = FuncLower::new(&mir, &types, info(), TypeMap::new(), false, 2);
    let on = f.expr_to_value(&Expr::Access(Box::new(param(1)), holder, RecordField(0)));
    let bools = DecTree::Bools(Branching {
        branches: vec![(true, leaf(vec![], 0)), (false, leaf(vec![], 1))],
    });
    let first = Expr::Match(Box::new(param(0)), Box::new(bools), vec![lit(1), lit(2)], vec![1, 1]);
    f.expr_to_value(&first);
    let before: Vec<ControlFlow> = f.ssa.blocks.iter().map(|block| block.flow).collect();
    let start = f.ssa.block().0;
    let tables = f.ssa.targets.len();
    assert_eq!(before.len(), 6);

    // a test on a sum whose two arms lead to the one body, and a test on
    // a boolean in that body
    let arms = DecTree::Sum {
        sum: Module(0).m(Sum(0)),
        params: vec![],
        next: Branching {
            branches: vec![
                (SumVariant(0), DecTree::Wildcard { next: Box::new(leaf(vec![(Bind(0), 1)], 0)) }),
                (SumVariant(1), leaf(vec![(Bind(0), 0)], 0)),
            ],
        },
    };
    let inner = DecTree::Bools(Branching {
        branches: vec![(false, leaf(vec![], 1)), (true, leaf(vec![], 0))],
    });
    let bodies = vec![Expr::Match(
        Box::new(Expr::Bool(true)),
        Box::new(inner),
        vec![lit(3), lit(4)],
        vec![1, 1],
    )];
    let counts = vec![2];
    let value = f.to_pat_lower(&bodies, &counts).run(on, &arms);
    let made = before.len()..f.ssa.blocks.len();
    assert_eq!(made.len(), 9);
    assert_eq!(f.ssa.block().0, made.end - 1);
    assert_eq!(f.ssa.type_of(value), MonoType::Int(i64_size()));

    // no block that was there but the one in which the match started ends otherwise
    for (block, flow) in before.iter().enumerate() {
        if block != start {
            assert_eq!(f.ssa.blocks[block].flow, *flow);
        }
    }
    assert_eq!(f.ssa.targets.len(), tables + 2);
    // the block in which it started and those that it made lead to blocks that it made
    for block in made.clone().chain([start]) {
        for to in ways_on(&f.ssa, block) {
            assert!(made.contains(&to), "block {block} leads out of the match, to {to}");
        }
    }
    // lowering goes on in the one block of the match that is not ended
    let open: Vec<usize> = made
        .clone()
        .filter(|block| f.ssa.blocks[*block].flow == ControlFlow::Open)
        .collect();
    assert_eq!(open, vec![f.ssa.block().0]);
    // and no block of the match can be reached but through the block in which it started
    let around = reached_around(&f.ssa, start);
    for block in made {
        assert!(!around[block], "block {block} is reached around the start of the match");
    }
    assert!(reached_around(&f.ssa, usize::MAX)[f.ssa.block().0]);
}

#[test]
fn a_sum_of_one_variant_keeps_lowering_in_the_block_of_its_jump_table() {
    let mut mir = empty_mir();
    mir.variant_types = vec![vec![vec![Type::Mono(MonoType::Int(i64_size()))]]];
    let mut types = MonoTypes::new();
    let sum = types
        .define(vec![MonoType::Int(tag()), MonoType::SumDataCast { largest: 64 }])
        .unwrap();
    let holder = types.define(vec![MonoType::Monomorphised(sum)]).unwrap();
    let mut f = FuncLower::new(&mir, &types, info(), TypeMap::new(), false, 1);
    let on = Expr::Access(Box::new(param(0)), holder, RecordField(0));
    let tree = DecTree::Sum {
        sum: Module(0).m(Sum(0)),
        params: vec![],
        next: Branching {
            branches: vec![(
                SumVariant(0),
                DecTree::Wildcard { next: Box::new(leaf(vec![(Bind(0), 1)], 0)) },
            )],
        },
    };
    let body = Expr::Num(
        "plus",
        Box::new(Expr::Yield(Local::Binding(Bind(0)))),
        Box::new(lit(1)),
    );
    let expr = Expr::Match(Box::new(on), Box::new(tree), vec![body], vec![1]);
    let value = f.expr_to_value(&expr);
    // no block is made for branches to meet in: the block of the variant
    // and that of the body are all
    assert_eq!(f.ssa.blocks.len(), 3);
    // the value is what the body gave, in the block of the body, which is not ended
    let Value::V(given) = value else { panic!("no result: {value:?}") };
    assert_eq!(f.ssa.entries[given.0].block, Block(2));
    assert_eq!(f.ssa.blocks[2].flow, ControlFlow::Open);
    // and lowering goes on in the block in which the test began, which the
    // jump table has ended
    assert_eq!(f.ssa.block(), Block(0));
    assert!(matches!(f.ssa.blocks[0].flow, ControlFlow::JumpTable(..)));
    assert_eq!(jump_of(&f.ssa, 1).0, Block(2));
}
