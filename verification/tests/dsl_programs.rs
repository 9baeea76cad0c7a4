use electro_solve::ast::CmpOp;
use electro_solve::ast::Constraint;
use electro_solve::ast::Expr;
use electro_solve::ast::Program;
use electro_solve::ast::Quantity;
use electro_solve::ast::SolveTarget;
use electro_solve::ast::Symbol;
use electro_solve::ast::Unit;
use electro_solve::ast::VoltageReference;
use electro_solve::rational::Rational;

fn lit(v: i64) -> Expr {
    Expr::Lit(Quantity { value_si: Rational::from_int(v), unit: Unit::Volt })
}

#[test]
fn empty_program_needs_no_ground() {
    let p = Program::new();
    assert!(!p.has_ground());
    assert!(!p.requires_ground());
}

#[test]
fn ground_relative_constraints_require_ground() {
    let mut p = Program::new();
    p.constraints.push(Constraint {
        lhs: Expr::V(VoltageReference::GroundRelative("out".to_string())),
        op: CmpOp::Eq,
        rhs: lit(5),
    });
    assert!(p.requires_ground());
    assert!(!p.has_ground());
    p.ground = Some("0".to_string());
    assert!(p.has_ground());
}

#[test]
fn differential_voltages_do_not_require_ground() {
    let mut p = Program::new();
    p.constraints.push(Constraint {
        lhs: Expr::V(VoltageReference::Differential("a".to_string(), "b".to_string())),
        op: CmpOp::Le,
        rhs: lit(3),
    });
    p.solve.push(SolveTarget::Sym(Symbol("x".to_string())));
    assert!(!p.requires_ground());
}

#[test]
fn ground_requirement_is_found_under_wrappers() {
    let mut p = Program::new();
    p.solve.push(SolveTarget::Expr(Expr::Abs(Box::new(Expr::AngleDeg(Box::new(Expr::V(
        VoltageReference::GroundRelative("n1".to_string()),
    )))))));
    assert!(p.requires_ground());
}
