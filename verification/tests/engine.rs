use hm_infer::expr::Expr;
use hm_infer::infer::Engine;
use hm_infer::types::Constraint;
use hm_infer::types::Type;
use hm_infer::types::TypeError;

fn con(name: &str, args: Vec<Type>) -> Type {
    Type::Con { name: name.to_string(), args }
}

fn ty_int() -> Type {
    con("Int", vec![])
}

fn var(e: &str) -> Expr {
    Expr::Var(e.to_string())
}

fn app(f: Expr, a: Expr) -> Expr {
    Expr::App(Box::new(f), Box::new(a))
}

fn abs(p: &str, b: Expr) -> Expr {
    Expr::Abs(p.to_string(), Box::new(b))
}

fn base_env(entries: &[(&str, Type)]) -> Vec<(String, Type)> {
    entries
        .iter()
        .map(|(n, t)| {
            (
                n.to_string(),
                match t {
                    Type::Var(x) => Type::Var(*x),
                    Type::Con { name, args } => Type::Con {
                        name: name.clone(),
                        args: args
                            .iter()
                            .map(|a| match a {
                                Type::Var(x) => Type::Var(*x),
                                other => panic!("nested env type unsupported in tests: {other:?}"),
                            })
                            .collect(),
                    },
                },
            )
        })
        .collect()
}

#[test]
fn end_to_end_identity_application() {
    // Base environment {"one": Int}; expression (fun x => x) one.
    let mut engine = Engine::new(base_env(&[("one", ty_int())]));
    let expr = app(abs("x", var("x")), var("one"));
    let ty = engine.infer(&expr).expect("inference succeeds");
    // The abstraction parameter is t0; the application result is t1.
    assert_eq!(ty, Type::Var(1));
    // The single collected constraint: Fun[t0, t0] == Fun[Int, t1].
    let expected = Constraint::Eq(
        con("Fun", vec![Type::Var(0), Type::Var(0)]),
        con("Fun", vec![ty_int(), Type::Var(1)]),
    );
    assert_eq!(engine.current_constraints(), &vec![expected]);
    engine.solve_constraints().expect("solving succeeds");
    assert_eq!(engine.current_constraints().len(), 0);
    assert_eq!(engine.substitute(Type::Var(1)), ty_int());
}

#[test]
fn first_order_application_resolves_ground() {
    // Over a ground environment, an expression of variables and
    // applications alone resolves to a fully ground type.
    let env = vec![
        ("f".to_string(), con("Fun", vec![ty_int(), ty_int()])),
        ("one".to_string(), ty_int()),
    ];
    let mut engine = Engine::new(env);
    let expr = app(var("f"), var("one"));
    let ty = engine.infer(&expr).expect("inference succeeds");
    assert_eq!(ty, Type::Var(0));
    engine.solve_constraints().expect("solving succeeds");
    assert_eq!(engine.substitute(ty), ty_int());
}

#[test]
fn occurs_check_direct() {
    // Unifying Var(0) with List[Var(0)] must fail with InfiniteType(0).
    let mut engine = Engine::new(base_env(&[]));
    let v = engine.new_tyvar();
    let list = con("List", vec![Type::Var(0)]);
    assert_eq!(engine.unify(&v, &list), Err(TypeError::InfiniteType(0)));
}

#[test]
fn occurs_check_through_inference() {
    // fun f => f f: the parameter type would have to contain itself.
    let mut engine = Engine::new(base_env(&[]));
    let expr = abs("f", app(var("f"), var("f")));
    engine.infer(&expr).expect("inference alone succeeds");
    assert_eq!(engine.solve_constraints(), Err(TypeError::InfiniteType(0)));
    // On failure the constraint list is left as it was.
    assert_eq!(engine.current_constraints().len(), 1);
}

#[test]
fn unify_identical_terms_is_a_no_op() {
    let mut engine = Engine::new(base_env(&[]));
    let _ = engine.new_tyvar();
    let _ = engine.new_tyvar();
    let a = con("Fun", vec![Type::Var(0), con("List", vec![Type::Var(1)])]);
    let b = con("Fun", vec![Type::Var(0), con("List", vec![Type::Var(1)])]);
    assert_eq!(engine.unify(&a, &b), Ok(()));
    assert_eq!(engine.current_subst(), &vec![Type::Var(0), Type::Var(1)]);
}

#[test]
fn constructor_name_mismatch() {
    let mut engine = Engine::new(base_env(&[]));
    let _ = engine.new_tyvar();
    let _ = engine.new_tyvar();
    let fun = con("Fun", vec![Type::Var(0), Type::Var(1)]);
    let pair = con("Pair", vec![Type::Var(0), Type::Var(1)]);
    assert_eq!(
        engine.unify(&fun, &pair),
        Err(TypeError::TypeMismatch {
            left: con("Fun", vec![Type::Var(0), Type::Var(1)]),
            right: con("Pair", vec![Type::Var(0), Type::Var(1)]),
        })
    );
}

#[test]
fn constructor_arity_mismatch() {
    let mut engine = Engine::new(base_env(&[]));
    let _ = engine.new_tyvar();
    let _ = engine.new_tyvar();
    let unary = con("Fun", vec![Type::Var(0)]);
    let binary = con("Fun", vec![Type::Var(0), Type::Var(1)]);
    assert_eq!(
        engine.unify(&unary, &binary),
        Err(TypeError::TypeMismatch {
            left: con("Fun", vec![Type::Var(0)]),
            right: con("Fun", vec![Type::Var(0), Type::Var(1)]),
        })
    );
}

#[test]
fn nullary_versus_unary_constructor() {
    let mut engine = Engine::new(base_env(&[]));
    let _ = engine.new_tyvar();
    let bare = con("Int", vec![]);
    let applied = con("Int", vec![Type::Var(0)]);
    assert!(matches!(
        engine.unify(&bare, &applied),
        Err(TypeError::TypeMismatch { .. })
    ));
}

#[test]
fn application_of_non_function() {
    // one one: Int must unify with Fun[Int, t0], a constructor conflict.
    let mut engine = Engine::new(base_env(&[("one", ty_int())]));
    let expr = app(var("one"), var("one"));
    engine.infer(&expr).expect("inference alone succeeds");
    assert_eq!(
        engine.solve_constraints(),
        Err(TypeError::TypeMismatch {
            left: ty_int(),
            right: con("Fun", vec![ty_int(), Type::Var(0)]),
        })
    );
}

#[test]
fn constraints_solved_in_insertion_order() {
    // (f one) b over {f: Fun[Int, Int], one: Int, b: Bool}.  The first
    // collected constraint binds the inner application's result t0 to Int;
    // only then is the second examined, so the reported conflict is between
    // Int (the live binding of t0) and Fun[Bool, t1].
    let env = vec![
        ("f".to_string(), con("Fun", vec![ty_int(), ty_int()])),
        ("one".to_string(), ty_int()),
        ("b".to_string(), con("Bool", vec![])),
    ];
    let mut engine = Engine::new(env);
    let expr = app(app(var("f"), var("one")), var("b"));
    engine.infer(&expr).expect("inference alone succeeds");
    assert_eq!(engine.current_constraints().len(), 2);
    assert_eq!(
        engine.solve_constraints(),
        Err(TypeError::TypeMismatch {
            left: ty_int(),
            right: con("Fun", vec![con("Bool", vec![]), Type::Var(1)]),
        })
    );
    // The first constraint was already solved when the second failed.
    assert_eq!(engine.resolve_binding(0), ty_int());
}

#[test]
fn shadowing_inner_parameter_wins() {
    // fun x => fun x => x: the body's x is the inner parameter t1.
    let mut engine = Engine::new(base_env(&[]));
    let expr = abs("x", abs("x", var("x")));
    let ty = engine.infer(&expr).expect("inference succeeds");
    assert_eq!(
        ty,
        con(
            "Fun",
            vec![
                Type::Var(0),
                con("Fun", vec![Type::Var(1), Type::Var(1)])
            ]
        )
    );
}

#[test]
fn shadowing_scope_is_restored() {
    // After inferring an abstraction whose parameter shadows "x", the outer
    // binding of "x" is visible again.
    let mut engine = Engine::new(base_env(&[("x", ty_int())]));
    let inner = engine.infer(&abs("x", var("x"))).expect("inference succeeds");
    assert_eq!(inner, con("Fun", vec![Type::Var(0), Type::Var(0)]));
    let outer = engine.infer(&var("x")).expect("outer x is visible again");
    assert_eq!(outer, ty_int());
}

#[test]
fn unbound_variable_lookup() {
    let mut engine = Engine::new(base_env(&[]));
    assert_eq!(
        engine.infer(&var("undeclared")),
        Err(TypeError::UnboundVariable("undeclared".to_string()))
    );
}

#[test]
fn substitute_is_idempotent_after_solving() {
    let mut engine = Engine::new(base_env(&[("one", ty_int())]));
    let expr = app(abs("x", var("x")), var("one"));
    engine.infer(&expr).expect("inference succeeds");
    engine.solve_constraints().expect("solving succeeds");
    let once = engine.substitute(con("Fun", vec![Type::Var(0), Type::Var(1)]));
    let twice = engine.substitute(engine.substitute(con("Fun", vec![Type::Var(0), Type::Var(1)])));
    assert_eq!(twice, once);
    assert_eq!(once, con("Fun", vec![ty_int(), ty_int()]));
}

#[test]
fn resolve_binding_is_lazy() {
    // Binding chains are kept as written: after t0 is unified with t1, slot
    // 0 holds t1 itself, not its eventual resolution.
    let mut engine = Engine::new(base_env(&[]));
    let v0 = engine.new_tyvar();
    let v1 = engine.new_tyvar();
    engine.unify(&v0, &v1).expect("binds t0 to t1");
    engine.unify(&v1, &ty_int()).expect("binds t1 to Int");
    assert_eq!(engine.resolve_binding(0), Type::Var(1));
    assert_eq!(engine.resolve_binding(1), ty_int());
    assert_eq!(engine.resolve_binding(0), Type::Var(1));
    assert_eq!(engine.substitute(Type::Var(0)), ty_int());
}

#[test]
fn substitute_chases_binding_chains() {
    let mut engine = Engine::new(base_env(&[]));
    let v0 = engine.new_tyvar();
    let v1 = engine.new_tyvar();
    engine.unify(&v0, &v1).expect("binds t0 to t1");
    engine.unify(&v1, &ty_int()).expect("binds t1 to Int");
    assert_eq!(engine.substitute(Type::Var(0)), ty_int());
    assert_eq!(engine.substitute(Type::Var(1)), ty_int());
}

#[test]
fn substitute_leaves_unbound_variable() {
    let mut engine = Engine::new(base_env(&[]));
    let v = engine.new_tyvar();
    assert_eq!(engine.substitute(v), Type::Var(0));
}

#[test]
fn solve_with_no_constraints() {
    let mut engine = Engine::new(base_env(&[]));
    assert_eq!(engine.solve_constraints(), Ok(()));
    assert_eq!(engine.current_constraints().len(), 0);
}

#[test]
fn fresh_variables_are_dense_and_self_mapped() {
    let mut engine = Engine::new(base_env(&[]));
    assert_eq!(engine.new_tyvar(), Type::Var(0));
    assert_eq!(engine.new_tyvar(), Type::Var(1));
    assert_eq!(engine.new_tyvar(), Type::Var(2));
    assert_eq!(
        engine.current_subst(),
        &vec![Type::Var(0), Type::Var(1), Type::Var(2)]
    );
}

#[test]
fn unify_equal_variables_is_a_no_op() {
    let mut engine = Engine::new(base_env(&[]));
    let v = engine.new_tyvar();
    assert_eq!(engine.unify(&v, &Type::Var(0)), Ok(()));
    assert_eq!(engine.current_subst(), &vec![Type::Var(0)]);
}

#[test]
fn unify_refines_an_existing_binding() {
    // t0 is first bound to Fun[t1, t2]; a later requirement that t0 equal
    // Fun[Int, Int] must refine t1 and t2 through the live binding chain.
    let mut engine = Engine::new(base_env(&[]));
    let v0 = engine.new_tyvar();
    let _ = engine.new_tyvar();
    let _ = engine.new_tyvar();
    let shape = con("Fun", vec![Type::Var(1), Type::Var(2)]);
    engine.unify(&v0, &shape).expect("first binding succeeds");
    let concrete = con("Fun", vec![ty_int(), ty_int()]);
    engine.unify(&Type::Var(0), &concrete).expect("refinement succeeds");
    assert_eq!(engine.substitute(Type::Var(1)), ty_int());
    assert_eq!(engine.substitute(Type::Var(2)), ty_int());
    assert_eq!(engine.substitute(Type::Var(0)), con("Fun", vec![ty_int(), ty_int()]));
}

#[test]
fn nested_abstraction_types_compose() {
    // fun f => fun y => f y : Fun[t0, Fun[t1, t2]] with t0 == Fun[t1, t2].
    let mut engine = Engine::new(base_env(&[]));
    let expr = abs("f", abs("y", app(var("f"), var("y"))));
    let ty = engine.infer(&expr).expect("inference succeeds");
    engine.solve_constraints().expect("solving succeeds");
    let solved = engine.substitute(ty);
    assert_eq!(
        solved,
        con(
            "Fun",
            vec![
                con("Fun", vec![Type::Var(1), Type::Var(2)]),
                con("Fun", vec![Type::Var(1), Type::Var(2)])
            ]
        )
    );
}
