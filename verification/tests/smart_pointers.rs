use rust_interview_lab::smart_pointers::{eval, normalize, Expr, Normalized};

#[test]
fn boxed_expression_evaluates() {
    let expr = Expr::Add(Box::new(Expr::Lit(1)), Box::new(Expr::Lit(2)));
    assert_eq!(eval(&expr), 3);
}

#[test]
fn cow_borrows_and_owns_as_needed() {
    assert!(matches!(normalize("A100", true), Normalized::Borrowed(_)));
    assert!(matches!(normalize("a100", true), Normalized::Owned(_)));
    assert_eq!(normalize("a100", true).as_str(), "A100");
    assert_eq!(normalize("a100", false).as_str(), "a100");
}

#[test]
fn nested_expressions_add_negative_literals() {
    let expr = Expr::Add(
        Box::new(Expr::Add(Box::new(Expr::Lit(-5)), Box::new(Expr::Lit(40)))),
        Box::new(Expr::Lit(7)),
    );
    assert_eq!(eval(&expr), 42);
}
