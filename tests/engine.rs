use cairo_compiler_fuzz::ast::{Expression, Literal, Program, Statement, StructLiteral};
use cairo_compiler_fuzz::astnode::{boundary_literal, constant_candidate, generate_program, Diagnostics};
use cairo_compiler_fuzz::cairo_type::{ArrayType, FunctionType, StructType, TupleType, Type};
use cairo_compiler_fuzz::context::{Context, DepthBounds, DepthKind, NodeDepthState, NodeKind};
use cairo_compiler_fuzz::decimal::decimal;
use cairo_compiler_fuzz::ident_generator::{IdentGenerator, NameKind};
use cairo_compiler_fuzz::selection_manager::{
    NodeSelectionWeighting, SelectionManager, SelectionProfile, TypeProduction,
};
use cairo_compiler_fuzz::symbol_table::{
    transition, FunctionSymbolTable, GenerationError, GlobalSymbolTable, IdentifierData,
    OwnershipEvent, OwnershipState, SymbolTable,
};

fn table() -> SymbolTable {
    SymbolTable::new(FunctionSymbolTable::new(), GlobalSymbolTable::new())
}

fn data(t: Type) -> IdentifierData {
    IdentifierData {
        identifier_type: t,
        mutable: false,
        depth: 0,
        constant: false,
        ownership: OwnershipState::Valid,
    }
}

fn ctx_with(b: DepthBounds, name: &str) -> Context {
    Context::default(NodeDepthState { tuple: 0, structure: 0, bounds: b }, name.to_string(), Vec::new())
}

fn tuple(types: Vec<Type>) -> Type {
    Type::TupleType(TupleType { types })
}

fn bounds(tuple: u64, structure: u64) -> DepthBounds {
    DepthBounds { tuple, structure }
}

fn run(seed: u64, fail_fast: bool, b: DepthBounds, profile: SelectionProfile) -> (Program, Diagnostics) {
    match generate_program(seed, fail_fast, b, profile, Vec::new()) {
        Ok(r) => r,
        Err(e) => panic!("generation failed: {:?}", e),
    }
}

/// The deepest nesting of parentheses in `s`.
fn paren_depth(s: &str) -> usize {
    let mut depth = 0usize;
    let mut best = 0usize;
    for c in s.chars() {
        if c == '(' {
            depth += 1;
            best = best.max(depth);
        } else if c == ')' {
            depth = depth.saturating_sub(1);
        }
    }
    best
}

#[test]
fn decimal_text() {
    assert_eq!(decimal(0), "0");
    assert_eq!(decimal(7), "7");
    assert_eq!(decimal(1234), "1234");
    assert_eq!(decimal(u128::MAX), u128::MAX.to_string());
}

#[test]
fn three_constants_are_numbered_in_order() {
    let mut names = IdentGenerator::new();
    assert_eq!(names.generate_const(), "const1");
    assert_eq!(names.generate_const(), "const2");
    assert_eq!(names.generate_const(), "const3");
}

#[test]
fn categories_count_separately() {
    let mut names = IdentGenerator::new();
    assert_eq!(names.generate_variable(), "let1");
    assert_eq!(names.generate_const(), "const1");
    assert_eq!(names.generate_variable(), "let2");
    assert_eq!(names.generate_function_name(), "fn1");
    assert_eq!(names.generate_struct_name(), "struct1");
    assert_eq!(names.generate(NameKind::Struct), "struct2");
    assert_eq!(names.allocated(NameKind::Variable), 2);
    assert_eq!(names.allocated(NameKind::Function), 1);
}

#[test]
fn names_of_one_run_are_distinct() {
    let mut names = IdentGenerator::new();
    let mut seen = std::collections::HashSet::new();
    for i in 0..200 {
        let kind = match i % 4 {
            0 => NameKind::Variable,
            1 => NameKind::Const,
            2 => NameKind::Function,
            _ => NameKind::Struct,
        };
        assert!(seen.insert(names.generate(kind)));
    }
}

#[test]
fn primitive_types_render() {
    assert_eq!(Type::U8Type.to_cairo(), "u8");
    assert_eq!(Type::U256Type.to_cairo(), "u256");
    assert_eq!(Type::Felt252Type.to_cairo(), "felt252");
    assert_eq!(Type::USizeType.to_cairo(), "usize");
    assert_eq!(Type::StringType.to_cairo(), "ByteArray");
    assert_eq!(Type::BooleanType.to_cairo(), "bool");
    assert_eq!(Type::VoidType.to_cairo(), "()");
}

#[test]
fn composite_types_render() {
    let t = tuple(vec![Type::U8Type, tuple(vec![Type::BooleanType, Type::U16Type])]);
    assert_eq!(t.to_cairo(), "(u8 , (bool , u16))");
    let a = Type::ArrayType(ArrayType { internal_type: Box::new(Type::Felt252Type), size: 3 });
    assert_eq!(a.to_cairo(), "Array<felt252>");
    let f = Type::FunctionType(FunctionType {
        return_type: Box::new(Type::BooleanType),
        args: vec![Type::U8Type, Type::U32Type],
    });
    assert_eq!(f.to_cairo(), "fn(u8 , u32) -> bool");
    let s = Type::StructType(StructType {
        struct_name: "struct4".to_string(),
        types: vec![("f0".to_string(), Type::U8Type)],
    });
    assert_eq!(s.to_cairo(), "struct4");
    assert!(t.life_time_parameters().is_empty());
}

#[test]
fn structural_equality() {
    let a = tuple(vec![Type::U8Type, Type::BooleanType]);
    let b = tuple(vec![Type::U8Type, Type::BooleanType]);
    let c = tuple(vec![Type::BooleanType, Type::U8Type]);
    assert!(a.same_type(&b));
    assert!(!a.same_type(&c));
    assert!(a.clone_type().same_type(&a));
    assert!(!Type::U8Type.same_type(&Type::U16Type));
}

#[test]
fn member_types_are_flattened_and_deduplicated() {
    let t = tuple(vec![
        Type::U8Type,
        tuple(vec![Type::U8Type, Type::BooleanType]),
        Type::BooleanType,
    ]);
    let members = t.member_types();
    assert_eq!(members.len(), 2);
    assert!(members[0].same_type(&Type::U8Type));
    assert!(members[1].same_type(&Type::BooleanType));
    assert!(Type::U8Type.member_types().is_empty());
}

#[test]
fn struct_type_accessors() {
    let s = StructType {
        struct_name: "struct1".to_string(),
        types: vec![("f0".to_string(), Type::U8Type), ("f1".to_string(), Type::BooleanType)],
    };
    assert_eq!(s.struct_name(), "struct1");
    assert_eq!(s.types().len(), 2);
    assert_eq!(s.types()[1].0, "f1");
}

#[test]
fn literals_render() {
    assert_eq!(Literal::UInt8(7).to_cairo(), "7u8");
    assert_eq!(Literal::UInt128(12345).to_cairo(), "12345u128");
    assert_eq!(Literal::Felt252(0).to_cairo(), "0felt252");
    assert_eq!(Literal::Str("ab".to_string()).to_cairo(), "\"ab\"");
    assert_eq!(Literal::Boolean(true).to_cairo(), "true");
    assert_eq!(Literal::Void.to_cairo(), "()");
    let e = Expression::TupleLiteral(vec![
        Expression::Literal(Literal::UInt8(1)),
        Expression::Literal(Literal::Boolean(false)),
    ]);
    assert_eq!(e.to_cairo(), "(1u8 , false)");
    let s = Expression::StructLiteral(StructLiteral {
        struct_name: "struct1".to_string(),
        fields: vec![
            ("f0".to_string(), Expression::Literal(Literal::UInt16(3))),
            ("f1".to_string(), Expression::Literal(Literal::UInt32(4))),
        ],
    });
    assert_eq!(s.to_cairo(), "struct1 { f0: 3u16, f1: 4u32 }");
}

#[test]
fn duplicate_binding_in_one_scope_is_refused() {
    let mut t = table();
    assert!(t.bind("let1".to_string(), data(Type::U8Type)).is_ok());
    assert_eq!(
        t.bind("let1".to_string(), data(Type::BooleanType)),
        Err(GenerationError::DuplicateBinding)
    );
    assert!(t.resolve(&"let1".to_string()).unwrap().identifier_type.same_type(&Type::U8Type));
}

#[test]
fn inner_scope_shadows_and_pops() {
    let mut t = table();
    t.bind("x".to_string(), data(Type::U8Type)).unwrap();
    t.push_scope();
    assert_eq!(t.scope_depth(), 1);
    t.bind("x".to_string(), data(Type::BooleanType)).unwrap();
    t.bind("y".to_string(), data(Type::U16Type)).unwrap();
    assert!(t.resolve(&"x".to_string()).unwrap().identifier_type.same_type(&Type::BooleanType));
    t.pop_scope();
    assert!(t.resolve(&"x".to_string()).unwrap().identifier_type.same_type(&Type::U8Type));
    assert!(t.resolve(&"y".to_string()).is_none());
}

#[test]
fn ownership_state_machine() {
    assert_eq!(transition(OwnershipState::Valid, OwnershipEvent::Move), Some(OwnershipState::Moved));
    assert_eq!(transition(OwnershipState::Moved, OwnershipEvent::Move), None);
    assert_eq!(transition(OwnershipState::Moved, OwnershipEvent::Read), None);
    assert_eq!(transition(OwnershipState::Valid, OwnershipEvent::Borrow), Some(OwnershipState::Borrowed(1)));
    assert_eq!(transition(OwnershipState::Borrowed(1), OwnershipEvent::Borrow), Some(OwnershipState::Borrowed(2)));
    assert_eq!(transition(OwnershipState::Borrowed(2), OwnershipEvent::ReleaseBorrow), Some(OwnershipState::Borrowed(1)));
    assert_eq!(transition(OwnershipState::Borrowed(1), OwnershipEvent::ReleaseBorrow), Some(OwnershipState::Valid));
    assert_eq!(transition(OwnershipState::Borrowed(1), OwnershipEvent::BorrowMut), None);
    assert_eq!(transition(OwnershipState::Valid, OwnershipEvent::BorrowMut), Some(OwnershipState::MutablyBorrowed));
    assert_eq!(transition(OwnershipState::MutablyBorrowed, OwnershipEvent::Borrow), None);
    assert_eq!(transition(OwnershipState::MutablyBorrowed, OwnershipEvent::ReleaseMut), Some(OwnershipState::Valid));
    assert_eq!(transition(OwnershipState::Borrowed(u64::MAX), OwnershipEvent::Borrow), None);
}

#[test]
fn transitions_through_the_table() {
    let mut t = table();
    t.bind("v".to_string(), data(Type::StringType)).unwrap();
    let v = "v".to_string();
    assert_eq!(t.transition_ownership(&v, OwnershipEvent::Move), Ok(()));
    assert_eq!(t.resolve(&v).unwrap().ownership, OwnershipState::Moved);
    assert_eq!(
        t.transition_ownership(&v, OwnershipEvent::Read),
        Err(GenerationError::InvalidOwnershipTransition)
    );
    assert_eq!(
        t.transition_ownership(&"w".to_string(), OwnershipEvent::Read),
        Err(GenerationError::UnboundIdentifier)
    );
}

#[test]
fn identical_shapes_register_once() {
    let mut t = table();
    let mut names = IdentGenerator::new();
    let a = t.register_type(tuple(vec![Type::U8Type, Type::BooleanType]), &mut names);
    let b = t.register_type(tuple(vec![Type::U8Type, Type::BooleanType]), &mut names);
    let c = t.register_type(tuple(vec![Type::BooleanType]), &mut names);
    assert_eq!(a, "struct1");
    assert_eq!(b, "struct1");
    assert_eq!(c, "struct2");
    assert_eq!(t.global_symbol_table().declarations().len(), 2);
}

#[test]
fn constants_bind_globally_once() {
    let mut t = table();
    assert_eq!(t.bind_constant("const1".to_string(), data(Type::U8Type)), Ok(()));
    assert_eq!(
        t.bind_constant("const1".to_string(), data(Type::U8Type)),
        Err(GenerationError::DuplicateBinding)
    );
    assert_eq!(t.global_symbol_table().constant_bindings().len(), 1);
}

#[test]
fn weighted_pick_uses_cumulative_intervals() {
    let mut w = NodeSelectionWeighting::new();
    w.add_weighting(TypeProduction::U8, 2);
    w.add_weighting(TypeProduction::Bool, 3);
    assert_eq!(w.total_weight(), 5);
    assert_eq!(w.pick_random_by_weight(0), Some(TypeProduction::U8));
    assert_eq!(w.pick_random_by_weight(1), Some(TypeProduction::U8));
    assert_eq!(w.pick_random_by_weight(2), Some(TypeProduction::Bool));
    assert_eq!(w.pick_random_by_weight(4), Some(TypeProduction::Bool));
    assert_eq!(w.pick_random_by_weight(5), None);
}

#[test]
fn add_weighting_replaces_an_existing_weight() {
    let mut w = NodeSelectionWeighting::new();
    w.add_weighting(TypeProduction::U8, 2);
    w.add_weighting(TypeProduction::U8, 7);
    assert_eq!(w.weightings.len(), 1);
    assert_eq!(w.total_weight(), 7);
}

#[test]
fn depth_filter_removes_recursive_productions() {
    let manager = SelectionManager::new(SelectionProfile::Base, Vec::new());
    let ctx = ctx_with(bounds(0, 0), "main");
    let w = manager.available_types_weightings(&ctx);
    assert_eq!(w.weightings.len(), 10);
    assert!(w.weightings.iter().all(|(p, _)| *p != TypeProduction::Tuple && *p != TypeProduction::Struct));
    let open = ctx_with(bounds(3, 2), "main");
    assert_eq!(manager.available_types_weightings(&open).weightings.len(), 12);
}

#[test]
fn profile_weights() {
    let base = SelectionManager::new(SelectionProfile::Base, Vec::new());
    assert_eq!(base.weight(TypeProduction::U8), 10);
    assert_eq!(base.weight(TypeProduction::Str), 5);
    assert_eq!(base.weight(TypeProduction::Tuple), 4);
    let aggressive = SelectionManager::new(SelectionProfile::Aggressive, Vec::new());
    assert_eq!(aggressive.weight(TypeProduction::Tuple), 16);
    assert_eq!(aggressive.weight(TypeProduction::U8), 10);
    let optimal = SelectionManager::new(
        SelectionProfile::Optimal,
        vec![(TypeProduction::U8, 1), (TypeProduction::U8, 9)],
    );
    assert_eq!(optimal.weight(TypeProduction::U8), 9);
    assert_eq!(optimal.weight(TypeProduction::Bool), 10);
    let constants = base.constant_types_weightings(&ctx_with(bounds(3, 2), "main"));
    assert!(constants.weightings.iter().all(|(p, _)| *p != TypeProduction::Str));
    assert_eq!(constants.weightings.len(), 9);
}

#[test]
fn context_depth_counters() {
    let mut ctx = ctx_with(bounds(3, 2), "main");
    assert_eq!(ctx.current_function_name(), "main");
    assert!(ctx.can_enter(DepthKind::Tuple));
    ctx.enter(DepthKind::Tuple);
    ctx.enter(DepthKind::Tuple);
    ctx.enter(DepthKind::Tuple);
    assert!(!ctx.can_enter(DepthKind::Tuple));
    ctx.exit(DepthKind::Tuple);
    assert_eq!(ctx.depth_of(DepthKind::Tuple), 2);
    assert_eq!(ctx.peak_of(DepthKind::Tuple), 3);
    ctx.record_failure(NodeKind::Expression);
    assert_eq!(ctx.failed_nodes(), &vec![NodeKind::Expression]);
    ctx.push_required(Type::U8Type);
    assert!(ctx.required().unwrap().same_type(&Type::U8Type));
    assert!(ctx.pop_required().is_some());
    assert!(ctx.required().is_none());
}

#[test]
fn same_seed_same_program() {
    for profile in [
        SelectionProfile::Base,
        SelectionProfile::Swarm,
        SelectionProfile::Optimal,
        SelectionProfile::Aggressive,
    ] {
        let (a, _) = run(42, false, bounds(3, 2), profile);
        let (b, _) = run(42, false, bounds(3, 2), profile);
        assert_eq!(a.render(), b.render());
    }
}

#[test]
fn different_seeds_give_different_programs() {
    let (a, _) = run(1, false, bounds(3, 2), SelectionProfile::Base);
    let (b, _) = run(2, false, bounds(3, 2), SelectionProfile::Base);
    assert_ne!(a.render(), b.render());
}

#[test]
fn seed_42_keeps_tuples_within_three_levels() {
    let (p, d) = run(42, false, bounds(3, 2), SelectionProfile::Aggressive);
    assert!(d.peak_tuple_depth <= 3);
    for s in p.main_function.body.statements.iter() {
        if let Statement::Declaration(decl) = s {
            assert!(paren_depth(&decl.variable_type.to_cairo()) <= 3);
            assert!(decl.variable_type.tuple_nesting() <= 3);
        }
    }
    for seed in 0..40 {
        let (_, d) = run(seed, false, bounds(3, 2), SelectionProfile::Aggressive);
        assert!(d.peak_tuple_depth <= 3);
    }
}

#[test]
fn zero_tuple_bound_generates_no_tuple() {
    for seed in 0..20 {
        let (p, d) = run(seed, false, bounds(0, 0), SelectionProfile::Aggressive);
        assert_eq!(d.peak_tuple_depth, 0);
        assert_eq!(d.peak_struct_depth, 0);
        assert!(p.structs.is_empty());
        for s in p.main_function.body.statements.iter() {
            if let Statement::Declaration(decl) = s {
                assert!(!decl.variable_type.to_cairo().starts_with('('));
            }
        }
    }
}

#[test]
fn constants_never_have_the_string_type() {
    for seed in 0..60 {
        let (p, _) = run(seed, false, bounds(3, 2), SelectionProfile::Base);
        for c in p.constants.iter() {
            assert!(!c.variable_type.same_type(&Type::StringType));
            assert!(!c.to_cairo().contains("ByteArray"));
        }
    }
}

#[test]
fn program_layout() {
    let (p, d) = run(7, false, bounds(3, 2), SelectionProfile::Base);
    let text = p.render();
    assert!(text.contains("fn main() -> () {\n"));
    assert!(text.ends_with("\n}\n"));
    assert!(p.constants.len() <= 9);
    let n = p.main_function.body.statements.len();
    assert!((1..=8).contains(&n));
    assert!(d.failed_nodes.is_empty());
    for (i, c) in p.constants.iter().enumerate() {
        assert_eq!(c.variable_name, format!("const{}", i + 1));
    }
}

#[test]
fn no_weights_and_fail_fast_is_no_viable_production() {
    let zero: Vec<(TypeProduction, u64)> = [
        TypeProduction::U8,
        TypeProduction::U16,
        TypeProduction::U32,
        TypeProduction::U64,
        TypeProduction::U128,
        TypeProduction::U256,
        TypeProduction::Felt252,
        TypeProduction::USize,
        TypeProduction::Str,
        TypeProduction::Bool,
        TypeProduction::Tuple,
        TypeProduction::Struct,
    ]
    .iter()
    .map(|p| (*p, 0))
    .collect();
    let r = generate_program(3, true, bounds(3, 2), SelectionProfile::Optimal, zero.clone());
    assert!(matches!(r, Err(GenerationError::NoViableProduction)));
    let (p, d) = match generate_program(3, false, bounds(3, 2), SelectionProfile::Optimal, zero) {
        Ok(r) => r,
        Err(e) => panic!("soft mode failed: {:?}", e),
    };
    assert!(d.failed_nodes.contains(&NodeKind::TypeNode));
    assert!(p.render().contains("felt252"));
}

#[test]
fn structs_are_declared_once_per_shape() {
    for seed in 0..30 {
        let (p, _) = run(seed, false, bounds(2, 2), SelectionProfile::Aggressive);
        let mut shapes: Vec<String> = Vec::new();
        for s in p.structs.iter() {
            let fields: Vec<String> = s
                .struct_type
                .types()
                .iter()
                .map(|(n, t)| format!("{}:{}", n, t.to_cairo()))
                .collect();
            let shape = fields.join(",");
            assert!(!shapes.contains(&shape));
            shapes.push(shape);
        }
    }
}

#[test]
fn statement_scopes_accumulate_in_order() {
    let mut ctx = ctx_with(bounds(3, 2), "main");
    ctx.open_statement_scope();
    ctx.add_statement(Statement::ExpressionStatement(cairo_compiler_fuzz::ast::ExpressionStatement {
        expression: Expression::Literal(Literal::UInt8(1)),
        add_semicolon: true,
    }));
    ctx.open_statement_scope();
    ctx.add_statement(Statement::ExpressionStatement(cairo_compiler_fuzz::ast::ExpressionStatement {
        expression: Expression::Literal(Literal::Boolean(true)),
        add_semicolon: false,
    }));
    let inner = ctx.close_statement_scope();
    assert_eq!(inner.len(), 1);
    assert_eq!(inner[0].to_cairo(), "true");
    let outer = ctx.close_statement_scope();
    assert_eq!(outer.len(), 1);
    assert_eq!(outer[0].to_cairo(), "1u8 ; ");
}

#[test]
fn return_type_constraints() {
    let mut ctx = ctx_with(bounds(1, 1), "f");
    assert!(ctx.return_expression_type().is_none());
    ctx.set_return_expression_type(Some(Type::BooleanType));
    ctx.set_return_loop_type(Some(Type::U8Type));
    assert!(ctx.return_expression_type().as_ref().unwrap().same_type(&Type::BooleanType));
    assert!(ctx.return_loop_type().as_ref().unwrap().same_type(&Type::U8Type));
    assert_eq!(ctx.bounds(), bounds(1, 1));
}

#[test]
fn functions_register_once() {
    let mut t = table();
    let sig = Type::FunctionType(FunctionType { return_type: Box::new(Type::VoidType), args: Vec::new() });
    assert_eq!(t.register_function("main".to_string(), data(sig)), Ok(()));
    assert_eq!(
        t.register_function("main".to_string(), data(Type::VoidType)),
        Err(GenerationError::DuplicateBinding)
    );
    assert_eq!(t.function_symbol_table().symbol_map.len(), 1);
}

#[test]
fn declarations_render() {
    let (p, _) = run(11, false, bounds(3, 2), SelectionProfile::Base);
    for (i, s) in p.main_function.body.statements.iter().enumerate() {
        if let Statement::Declaration(d) = s {
            let text = s.to_cairo();
            assert!(text.starts_with("let "));
            assert!(text.ends_with(" ; "));
            assert!(text.contains(&format!("{}: {} = ", d.variable_name, d.variable_type.to_cairo())));
            assert_eq!(d.variable_name, format!("let{}", i + 1));
        }
    }
}

#[test]
fn tuple_nesting_cost() {
    assert_eq!(Type::U8Type.tuple_nesting(), 0);
    let t = tuple(vec![Type::U8Type, tuple(vec![Type::BooleanType, tuple(vec![Type::U8Type])])]);
    assert_eq!(t.tuple_nesting(), 3);
    let s = Type::StructType(StructType {
        struct_name: "struct1".to_string(),
        types: vec![("f0".to_string(), tuple(vec![Type::U8Type])), ("f1".to_string(), Type::U8Type)],
    });
    assert_eq!(s.tuple_nesting(), 1);
    let f = Type::FunctionType(FunctionType { return_type: Box::new(t), args: vec![Type::U8Type] });
    assert_eq!(f.tuple_nesting(), 3);
}

#[test]
fn base_and_aggressive_never_fail_when_failing_fast() {
    for seed in 0..40 {
        for profile in [SelectionProfile::Base, SelectionProfile::Aggressive] {
            let (p, d) = run(seed, true, bounds(3, 2), profile);
            assert!(d.failed_nodes.is_empty());
            assert!(!p.main_function.body.statements.is_empty());
            assert!(p.main_function.body.statements.len() <= 8);
            assert!(p.constants.len() <= 9);
        }
    }
}

#[test]
fn constant_candidates_keep_only_eligible_draws() {
    assert_eq!(constant_candidate(Some(TypeProduction::U8)), Some(TypeProduction::U8));
    assert_eq!(constant_candidate(Some(TypeProduction::Bool)), Some(TypeProduction::Bool));
    assert_eq!(constant_candidate(Some(TypeProduction::Str)), None);
    assert_eq!(constant_candidate(Some(TypeProduction::Tuple)), None);
    assert_eq!(constant_candidate(Some(TypeProduction::Struct)), None);
    assert_eq!(constant_candidate(None), None);
}

#[test]
fn swarm_multipliers_scale_base_weights() {
    let m = SelectionManager::swarm_from(vec![0, 1, 2, 3, 4, 0, 1, 2, 3, 4, 2, 1]);
    assert_eq!(m.profile(), SelectionProfile::Swarm);
    assert_eq!(m.weight(TypeProduction::U8), 0);
    assert_eq!(m.weight(TypeProduction::U64), 30);
    assert_eq!(m.weight(TypeProduction::Str), 15);
    assert_eq!(m.weight(TypeProduction::Tuple), 8);
    assert_eq!(m.weight(TypeProduction::Struct), 3);
}

#[test]
fn declared_structs_have_distinct_fields_and_fit_the_bound() {
    for seed in 0..30 {
        let (p, _) = run(seed, false, bounds(3, 2), SelectionProfile::Aggressive);
        for (i, a) in p.structs.iter().enumerate() {
            for s in a.struct_type.types().iter() {
                assert!(s.1.tuple_nesting() <= 3);
            }
            for b in p.structs.iter().skip(i + 1) {
                assert_ne!(a.struct_type.struct_name(), b.struct_type.struct_name());
            }
        }
    }
}

#[test]
fn struct_nesting_stays_within_its_bound() {
    for seed in 0..30 {
        let (p, d) = run(seed, false, bounds(3, 1), SelectionProfile::Aggressive);
        assert!(d.peak_struct_depth <= 1);
        for s in p.structs.iter() {
            for f in s.struct_type.types().iter() {
                assert!(!matches!(f.1, Type::StructType(_)));
            }
        }
    }
}

#[test]
fn large_optimal_weights_are_kept_as_given() {
    let big = 1u64 << 59;
    let table: Vec<(TypeProduction, u64)> = vec![
        (TypeProduction::U8, big),
        (TypeProduction::U16, 1),
        (TypeProduction::Str, 0),
    ];
    let m = SelectionManager::new(SelectionProfile::Optimal, table.clone());
    assert_eq!(m.weight(TypeProduction::U8), big);
    assert_eq!(m.weight(TypeProduction::U16), 1);
    assert_eq!(m.weight(TypeProduction::Str), 0);
    let w = m.available_types_weightings(&ctx_with(bounds(3, 2), "main"));
    assert_eq!(w.total_weight(), big + 1 + 10 * 7 + 4 + 3);
    let (p, _) = match generate_program(5, true, bounds(3, 2), SelectionProfile::Optimal, table) {
        Ok(r) => r,
        Err(e) => panic!("generation failed: {:?}", e),
    };
    assert!(!p.render().contains("ByteArray"));
}

#[test]
fn declarations_render_with_the_mutability_slot() {
    let d = |mutable: bool| {
        Statement::Declaration(cairo_compiler_fuzz::ast::Declaration {
            mutable,
            variable_name: "x".to_string(),
            variable_type: Type::U8Type,
            value: Expression::Literal(Literal::UInt8(1)),
        })
    };
    assert_eq!(d(false).to_cairo(), "let  x: u8 = 1u8 ; ");
    assert_eq!(d(true).to_cairo(), "let mut x: u8 = 1u8 ; ");
}

#[test]
fn context_new_keeps_every_field() {
    let state = NodeDepthState { tuple: 1, structure: 0, bounds: bounds(3, 2) };
    let ctx = Context::new(
        state,
        "f".to_string(),
        vec![Vec::new()],
        vec![Type::U8Type],
        Some(Type::BooleanType),
        None,
        vec![NodeKind::Statement],
    );
    assert_eq!(ctx.depth_of(DepthKind::Tuple), 1);
    assert_eq!(ctx.peak_of(DepthKind::Tuple), 1);
    assert_eq!(ctx.bounds(), bounds(3, 2));
    assert_eq!(ctx.current_function_name(), "f");
    assert!(ctx.required().unwrap().same_type(&Type::U8Type));
    assert!(ctx.return_expression_type().as_ref().unwrap().same_type(&Type::BooleanType));
    assert!(ctx.return_loop_type().is_none());
    assert_eq!(ctx.failed_nodes(), &vec![NodeKind::Statement]);
}

#[test]
fn boundary_literals_take_the_extremes() {
    assert_eq!(boundary_literal(&Type::U8Type, true).to_cairo(), "255u8");
    assert_eq!(boundary_literal(&Type::U8Type, false).to_cairo(), "0u8");
    assert_eq!(boundary_literal(&Type::U64Type, true).to_cairo(), "18446744073709551615u64");
    assert_eq!(
        boundary_literal(&Type::U128Type, true).to_cairo(),
        format!("{}u128", u128::MAX)
    );
    assert_eq!(boundary_literal(&Type::BooleanType, false).to_cairo(), "false");
    assert_eq!(boundary_literal(&Type::StringType, false).to_cairo(), "\"\"");
}

#[test]
fn aggressive_runs_reach_boundary_values() {
    let mut seen = false;
    for seed in 0..40 {
        let (p, _) = run(seed, false, bounds(3, 2), SelectionProfile::Aggressive);
        let text = p.render();
        if text.contains("255u8") || text.contains("65535u16") || text.contains("18446744073709551615u64")
            || text.contains(&format!("{}u128", u128::MAX))
            || text.contains(&format!("{}u256", u128::MAX))
            || text.contains(&format!("{}felt252", u128::MAX))
            || text.contains("4294967295u32")
        {
            seen = true;
        }
    }
    assert!(seen);
}

#[test]
fn constants_are_generated_for_a_given_count() {
    let (p, d) = run(21, true, bounds(3, 2), SelectionProfile::Base);
    assert!(d.failed_nodes.is_empty());
    for (i, c) in p.constants.iter().enumerate() {
        assert_eq!(c.variable_name, format!("const{}", i + 1));
        assert!(c.to_cairo().starts_with(&format!("const const{}: ", i + 1)));
    }
}
