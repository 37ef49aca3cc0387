use typeinfer::expr::{Binder, Expr};
use typeinfer::ids::{ExprIdx, TypeIdx};
use typeinfer::infer::{resolve, Visitor};
use typeinfer::knowledge::{CompoundType, KnowledgeBase, TypeConflict};

fn var(id: u32, name: &str) -> Expr {
    Expr::Var(ExprIdx(id), name.to_string())
}

fn app(id: u32, f: Expr, a: Expr) -> Expr {
    Expr::App(ExprIdx(id), Box::new(f), Box::new(a))
}

fn abs(id: u32, param: u32, name: &str, body: Expr) -> Expr {
    Expr::Abs(ExprIdx(id), Binder { id: ExprIdx(param), name: name.to_string() }, Box::new(body))
}

fn let_in(id: u32, var_id: u32, name: &str, value: Expr, cont: Expr) -> Expr {
    Expr::Let(
        ExprIdx(id),
        Binder { id: ExprIdx(var_id), name: name.to_string() },
        Box::new(value),
        Box::new(cont),
    )
}

#[test]
fn it_works() {
}

#[test]
fn ids_convert_losslessly() {
    assert_eq!(TypeIdx::from(5u32), TypeIdx(5));
    assert_eq!(ExprIdx::from(9u32), ExprIdx(9));
    assert_eq!(u32::from(TypeIdx(7)), 7);
    assert_eq!(u32::from(ExprIdx(u32::MAX)), u32::MAX);
}

#[test]
fn free_variable_resolves_on_first_pass() {
    let mut k = KnowledgeBase::new();
    let int = k.fresh();
    assert_eq!(k.insert(ExprIdx(1), int), Ok(()));
    let x = var(1, "x");
    assert_eq!(resolve(&x, &mut k), Some((ExprIdx(1), int)));
    assert_eq!(Visitor::top_down(&mut k, &x), Ok(()));
    assert_eq!(k.get(&ExprIdx(1)), Some(int));
}

#[test]
fn unknown_variable_is_unresolved() {
    let mut k = KnowledgeBase::new();
    assert_eq!(resolve(&var(4, "y"), &mut k), None);
    assert_eq!(k.known_count(), 0);
}

#[test]
fn application_interns_apply_of_operand_types() {
    let mut k = KnowledgeBase::new();
    let int = k.fresh();
    let boolean = k.fresh();
    let f_ty = k.lambda(int, boolean);
    assert_eq!(f_ty, TypeIdx(2));
    assert_eq!(k.insert(ExprIdx(1), f_ty), Ok(()));
    assert_eq!(k.insert(ExprIdx(2), int), Ok(()));
    let e = app(3, var(1, "f"), var(2, "x"));
    let r = resolve(&e, &mut k);
    assert_eq!(r, Some((ExprIdx(3), TypeIdx(3))));
    assert_eq!(k.next_idx(), 4);
    let again = k.apply(f_ty, int);
    assert_eq!(again, TypeIdx(3));
    assert_eq!(k.next_idx(), 4);
}

#[test]
fn identical_applies_intern_to_one_handle() {
    let mut k = KnowledgeBase::new();
    let a = k.fresh();
    let b = k.fresh();
    let first = k.apply(a, b);
    let other = k.apply(b, a);
    let second = k.apply(a, b);
    assert_eq!(first, second);
    assert_ne!(first, other);
    assert_eq!(k.next_idx(), 4);
    assert!(k.contains(CompoundType::Apply(a, b)));
    assert!(!k.contains(CompoundType::Lambda(a, b)));
}

#[test]
fn interning_counts_each_new_type_once() {
    let mut k = KnowledgeBase::new();
    assert_eq!(k.next_idx(), 0);
    let t = k.apply(TypeIdx(0), TypeIdx(0));
    assert_eq!(t, TypeIdx(0));
    assert_eq!(k.next_idx(), 1);
    for _ in 0..5 {
        assert_eq!(k.apply(TypeIdx(0), TypeIdx(0)), t);
        assert_eq!(k.next_idx(), 1);
    }
    let l = k.lambda(TypeIdx(0), TypeIdx(0));
    assert_eq!(l, TypeIdx(1));
    assert_eq!(k.next_idx(), 2);
    assert_eq!(k.lambda(TypeIdx(0), TypeIdx(0)), l);
    assert_eq!(k.next_idx(), 2);
}

#[test]
fn unused_parameter_waits_for_a_populated_universe() {
    let mut k = KnowledgeBase::new();
    let id = abs(10, 11, "x", var(11, "x"));
    assert_eq!(Visitor::propagate(&mut k, &id, 5), Ok(true));
    assert_eq!(k.get(&ExprIdx(10)), None);
    assert_eq!(k.get(&ExprIdx(11)), None);
    assert_eq!(k.known_count(), 0);

    let minted = k.apply(TypeIdx(7), TypeIdx(8));
    assert_eq!(minted, TypeIdx(0));
    assert_eq!(Visitor::propagate(&mut k, &id, 5), Ok(true));
    assert_eq!(k.get(&ExprIdx(11)), Some(TypeIdx(0)));
    let lam = k.lambda(TypeIdx(0), TypeIdx(0));
    assert_eq!(k.get(&ExprIdx(10)), Some(lam));
}

#[test]
fn conflicting_insert_is_rejected() {
    let mut k = KnowledgeBase::new();
    let int = k.fresh();
    let boolean = k.fresh();
    assert_eq!(k.insert(ExprIdx(5), int), Ok(()));
    assert_eq!(k.insert(ExprIdx(5), int), Ok(()));
    assert_eq!(
        k.insert(ExprIdx(5), boolean),
        Err(TypeConflict { expr: ExprIdx(5), known: int, proposed: boolean })
    );
    assert_eq!(k.get(&ExprIdx(5)), Some(int));
    assert_eq!(k.known_count(), 1);
}

#[test]
fn repeated_rounds_keep_known_facts() {
    let mut k = KnowledgeBase::new();
    let int = k.fresh();
    let boolean = k.fresh();
    let f_ty = k.lambda(int, boolean);
    k.insert(ExprIdx(1), f_ty).unwrap();
    k.insert(ExprIdx(2), int).unwrap();
    let e = app(4, app(3, var(1, "f"), var(2, "x")), var(2, "x"));
    assert_eq!(Visitor::propagate(&mut k, &e, 10), Ok(true));
    let t3 = k.get(&ExprIdx(3)).unwrap();
    let t4 = k.get(&ExprIdx(4)).unwrap();
    for _ in 0..3 {
        assert_eq!(Visitor::round(&mut k, &e), Ok(()));
        assert_eq!(k.get(&ExprIdx(3)), Some(t3));
        assert_eq!(k.get(&ExprIdx(4)), Some(t4));
        assert_eq!(k.get(&ExprIdx(1)), Some(f_ty));
    }
}

#[test]
fn converged_round_changes_nothing() {
    let mut k = KnowledgeBase::new();
    let int = k.fresh();
    k.insert(ExprIdx(1), int).unwrap();
    let e = app(2, var(1, "f"), var(1, "f"));
    assert_eq!(Visitor::round(&mut k, &e), Ok(()));
    let count = k.known_count();
    let next = k.next_idx();
    assert_eq!(Visitor::round(&mut k, &e), Ok(()));
    assert_eq!(k.known_count(), count);
    assert_eq!(k.next_idx(), next);
    assert_eq!(Visitor::round(&mut k, &e), Ok(()));
    assert_eq!(k.known_count(), count);
    assert_eq!(k.next_idx(), next);
}

#[test]
fn accepted_guess_is_reproduced() {
    let mut k = KnowledgeBase::new();
    let int = k.fresh();
    let id = abs(10, 11, "x", var(11, "x"));
    let r = resolve(&id, &mut k);
    let lam = TypeIdx(1);
    assert_eq!(r, Some((ExprIdx(10), lam)));
    assert_eq!(k.get(&ExprIdx(11)), Some(int));
    assert_eq!(k.next_idx(), 2);
    assert_eq!(resolve(&id, &mut k), Some((ExprIdx(10), lam)));
    assert_eq!(resolve(&var(11, "x"), &mut k), Some((ExprIdx(11), int)));
    assert_eq!(k.next_idx(), 2);
}

#[test]
fn guess_takes_smallest_handle_that_fits() {
    let mut k = KnowledgeBase::new();
    let a = k.fresh();
    let _b = k.fresh();
    let e = abs(20, 21, "x", app(22, var(21, "x"), var(21, "x")));
    assert_eq!(Visitor::propagate(&mut k, &e, 3), Ok(true));
    assert_eq!(k.get(&ExprIdx(21)), Some(a));
    let body = k.get(&ExprIdx(22)).unwrap();
    assert_eq!(k.apply(a, a), body);
    assert_eq!(k.get(&ExprIdx(20)), Some(k.lambda(a, body)));
    let next = k.next_idx();
    let again = resolve(&app(22, var(21, "x"), var(21, "x")), &mut k);
    assert_eq!(again, Some((ExprIdx(22), body)));
    assert_eq!(k.next_idx(), next);
}

#[test]
fn known_parameter_and_body_give_function_type() {
    let mut k = KnowledgeBase::new();
    let int = k.fresh();
    let boolean = k.fresh();
    k.insert(ExprIdx(2), int).unwrap();
    k.insert(ExprIdx(3), boolean).unwrap();
    let e = abs(1, 2, "x", var(3, "b"));
    assert_eq!(resolve(&e, &mut k), Some((ExprIdx(1), TypeIdx(2))));
    assert_eq!(k.lambda(int, boolean), TypeIdx(2));
}

#[test]
fn body_known_but_parameter_unknown_is_unresolved() {
    let mut k = KnowledgeBase::new();
    let int = k.fresh();
    k.insert(ExprIdx(3), int).unwrap();
    let e = abs(1, 2, "x", var(3, "b"));
    assert_eq!(resolve(&e, &mut k), None);
    assert_eq!(k.next_idx(), 1);
}

#[test]
fn let_binding_flows_into_continuation() {
    let mut k = KnowledgeBase::new();
    let int = k.fresh();
    k.insert(ExprIdx(1), int).unwrap();
    let e = let_in(20, 21, "y", var(1, "x"), var(21, "y"));
    assert_eq!(Visitor::propagate(&mut k, &e, 5), Ok(true));
    assert_eq!(k.get(&ExprIdx(21)), Some(int));
    assert_eq!(k.get(&ExprIdx(20)), Some(int));
}

#[test]
fn let_with_unknown_value_is_unresolved() {
    let mut k = KnowledgeBase::new();
    let e = let_in(20, 21, "y", var(1, "x"), var(21, "y"));
    assert_eq!(resolve(&e, &mut k), None);
    assert_eq!(k.known_count(), 0);
}

#[test]
fn let_conflicting_with_bound_variable_is_reported() {
    let mut k = KnowledgeBase::new();
    let int = k.fresh();
    let boolean = k.fresh();
    k.insert(ExprIdx(1), int).unwrap();
    k.insert(ExprIdx(21), boolean).unwrap();
    let e = let_in(20, 21, "y", var(1, "x"), var(21, "y"));
    assert_eq!(resolve(&e, &mut k), None);
    assert_eq!(
        Visitor::propagate(&mut k, &e, 5),
        Err(TypeConflict { expr: ExprIdx(21), known: boolean, proposed: int })
    );
    assert_eq!(k.get(&ExprIdx(21)), Some(boolean));
    assert_eq!(k.get(&ExprIdx(20)), None);
}

#[test]
fn application_conflicting_with_seeded_fact_is_reported() {
    let mut k = KnowledgeBase::new();
    let int = k.fresh();
    k.insert(ExprIdx(1), int).unwrap();
    k.insert(ExprIdx(3), int).unwrap();
    let e = app(3, var(1, "f"), var(1, "f"));
    let r = Visitor::down_top(&mut k, &e);
    assert_eq!(r, Err(TypeConflict { expr: ExprIdx(3), known: int, proposed: TypeIdx(1) }));
    assert_eq!(k.get(&ExprIdx(3)), Some(int));
}

#[test]
fn pass_order_matters_within_one_pass() {
    let mut k = KnowledgeBase::new();
    let int = k.fresh();
    k.insert(ExprIdx(1), int).unwrap();
    k.insert(ExprIdx(2), int).unwrap();
    let e = app(5, app(3, var(1, "f"), var(2, "x")), var(2, "x"));
    assert_eq!(Visitor::top_down(&mut k, &e), Ok(()));
    assert!(k.get(&ExprIdx(3)).is_some());
    assert_eq!(k.get(&ExprIdx(5)), None);

    let mut k2 = KnowledgeBase::new();
    let int2 = k2.fresh();
    k2.insert(ExprIdx(1), int2).unwrap();
    k2.insert(ExprIdx(2), int2).unwrap();
    assert_eq!(Visitor::down_top(&mut k2, &e), Ok(()));
    assert!(k2.get(&ExprIdx(3)).is_some());
    assert!(k2.get(&ExprIdx(5)).is_some());
}

#[test]
fn zero_budget_runs_no_round() {
    let mut k = KnowledgeBase::new();
    let int = k.fresh();
    k.insert(ExprIdx(1), int).unwrap();
    let e = app(2, var(1, "f"), var(1, "f"));
    assert_eq!(Visitor::propagate(&mut k, &e, 0), Ok(false));
    assert_eq!(k.get(&ExprIdx(2)), None);
    assert_eq!(k.known_count(), 1);
}

#[test]
fn clone_is_independent() {
    let mut k = KnowledgeBase::new();
    let int = k.fresh();
    let mut copy = k.clone();
    copy.insert(ExprIdx(1), int).unwrap();
    let _ = copy.apply(int, int);
    assert_eq!(k.get(&ExprIdx(1)), None);
    assert_eq!(k.next_idx(), 1);
    assert_eq!(copy.next_idx(), 2);
}

#[test]
fn expression_ids_are_those_given() {
    assert_eq!(var(4, "x").id(), ExprIdx(4));
    assert_eq!(app(5, var(1, "f"), var(2, "x")).id(), ExprIdx(5));
    assert_eq!(abs(6, 7, "x", var(7, "x")).id(), ExprIdx(6));
    assert_eq!(let_in(8, 9, "y", var(1, "x"), var(9, "y")).id(), ExprIdx(8));
}

#[test]
fn unresolved_lists_unknown_nodes_in_pre_order() {
    let mut k = KnowledgeBase::new();
    let int = k.fresh();
    k.insert(ExprIdx(2), int).unwrap();
    let e = app(5, app(3, var(1, "f"), var(2, "x")), abs(6, 7, "y", var(7, "y")));
    assert_eq!(
        k.unresolved(&e),
        vec![ExprIdx(5), ExprIdx(3), ExprIdx(1), ExprIdx(6), ExprIdx(7)]
    );
    assert_eq!(Visitor::propagate(&mut k, &e, 4), Ok(true));
    assert_eq!(k.unresolved(&e), vec![ExprIdx(5), ExprIdx(3), ExprIdx(1)]);
    assert_eq!(k.get(&ExprIdx(7)), Some(int));
}

#[test]
fn bottom_up_pass_settles_the_root() {
    let mut k = KnowledgeBase::new();
    let int = k.fresh();
    k.insert(ExprIdx(1), int).unwrap();
    let e = let_in(9, 8, "z", var(1, "x"), app(7, var(8, "z"), var(1, "x")));
    assert_eq!(Visitor::down_top(&mut k, &e), Ok(()));
    let t7 = TypeIdx(1);
    assert_eq!(k.get(&ExprIdx(8)), Some(int));
    assert_eq!(k.get(&ExprIdx(7)), None);
    assert_eq!(k.get(&ExprIdx(9)), Some(t7));
    assert_eq!(Visitor::down_top(&mut k, &e), Ok(()));
    assert_eq!(k.apply(int, int), t7);
    assert_eq!(k.get(&ExprIdx(7)), Some(t7));
    assert_eq!(k.get(&ExprIdx(9)), Some(t7));
    assert!(k.unresolved(&e).is_empty());
}

#[test]
fn budget_spent_before_convergence() {
    let mut k = KnowledgeBase::new();
    let int = k.fresh();
    k.insert(ExprIdx(1), int).unwrap();
    let e = app(2, var(1, "f"), var(1, "f"));
    assert_eq!(Visitor::propagate(&mut k, &e, 1), Ok(false));
    assert!(k.get(&ExprIdx(2)).is_some());
    assert_eq!(Visitor::propagate(&mut k, &e, 1), Ok(true));
}

#[test]
fn let_resolves_its_continuation_in_one_step() {
    let mut k = KnowledgeBase::new();
    let int = k.fresh();
    k.insert(ExprIdx(1), int).unwrap();
    k.insert(ExprIdx(2), int).unwrap();
    let e = let_in(20, 21, "y", var(1, "x"), app(22, var(2, "f"), var(21, "y")));
    let r = resolve(&e, &mut k);
    assert_eq!(r, Some((ExprIdx(20), TypeIdx(1))));
    assert_eq!(k.get(&ExprIdx(21)), Some(int));
    assert_eq!(k.get(&ExprIdx(22)), None);
    assert_eq!(k.apply(int, int), TypeIdx(1));
    assert_eq!(k.next_idx(), 2);
}

#[test]
fn seeded_primitive_variable_resolves() {
    let mut k = KnowledgeBase::new();
    assert_eq!(k.insert(ExprIdx(7), TypeIdx(100)), Ok(()));
    let x = var(7, "x");
    assert_eq!(resolve(&x, &mut k), Some((ExprIdx(7), TypeIdx(100))));
    assert_eq!(Visitor::top_down(&mut k, &x), Ok(()));
    assert_eq!(k.get(&ExprIdx(7)), Some(TypeIdx(100)));
    assert_eq!(k.known_count(), 1);
    assert_eq!(k.next_idx(), 0);
}

#[test]
fn seeded_primitives_in_application() {
    let mut k = KnowledgeBase::new();
    let lam = k.lambda(TypeIdx(100), TypeIdx(101));
    assert_eq!(lam, TypeIdx(0));
    k.insert(ExprIdx(1), lam).unwrap();
    k.insert(ExprIdx(2), TypeIdx(100)).unwrap();
    let e = app(3, var(1, "f"), var(2, "x"));
    assert_eq!(resolve(&e, &mut k), Some((ExprIdx(3), TypeIdx(1))));
    assert_eq!(k.next_idx(), 2);
    assert_eq!(k.apply(lam, TypeIdx(100)), TypeIdx(1));
    assert_eq!(k.next_idx(), 2);
}

#[test]
fn cloned_expression_keeps_its_ids() {
    let e = let_in(8, 9, "y", var(1, "x"), app(5, var(9, "y"), abs(6, 7, "z", var(7, "z"))));
    let c = e.clone();
    assert_eq!(c.id(), ExprIdx(8));
    let mut k = KnowledgeBase::new();
    assert_eq!(k.unresolved(&c), k.unresolved(&e));
}
