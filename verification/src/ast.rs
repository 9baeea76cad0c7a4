//! A higher-level program description: a circuit, an analysis, constraints
//! over circuit quantities, and solve targets. This layer lowers to a
//! circuit graph plus a numeric angular frequency; only the structure and
//! the ground-requirement rule are defined here.

use vstd::prelude::*;

verus! {

use crate::rational::Rational;

/// A whole analysis program.
pub struct Program {
    pub circuit_name: Option<String>,
    pub ground: Option<String>,
    pub analysis: Option<Analysis>,
    pub elements: Vec<Element>,
    pub constraints: Vec<Constraint>,
    pub solve: Vec<SolveTarget>,
}

/// The analysis to run: AC at a frequency, or DC.
#[derive(Debug, Clone, PartialEq)]
pub enum Analysis {
    AC { frequency_hz: Rational, ac_ref: AcRef },
    DC,
}

/// How AC magnitudes are referenced.
#[derive(Debug, Clone, PartialEq, Eq)]
pub enum AcRef {
    Rms,
    Peak,
}

/// The kind of a described element.
#[derive(Debug, Clone, PartialEq, Eq)]
pub enum ElemKind {
    Resistor,
    Inductor,
    Capacitor,
    VoltageSource,
    CurrentSource,
}

/// One described element, between two named nodes.
pub struct Element {
    pub kind: ElemKind,
    pub id: String,
    pub nodes: (String, String),
    pub params: ElementParams,
}

/// The parameters of an element.
#[derive(Debug, Clone, PartialEq)]
pub enum ElementParams {
    Passive { value: ValueExpr },
    Vac { mag: ValueExpr, phase_deg: Rational },
    Vdc { value: ValueExpr },
    Idc { value: ValueExpr },
}

/// A typed value: a concrete quantity or a symbolic placeholder.
#[derive(Debug, Clone, PartialEq)]
pub enum ValueExpr {
    Known(Quantity),
    Unknown(Symbol),
}

/// The name of a symbolic value.
#[derive(Debug, Clone, PartialEq, Eq, Hash)]
pub struct Symbol(pub String);

/// A value in SI units.
#[derive(Debug, Clone, PartialEq)]
pub struct Quantity {
    pub value_si: Rational,
    pub unit: Unit,
}

/// The unit of a quantity.
#[derive(Debug, Clone, PartialEq, Eq)]
pub enum Unit {
    Ohm,
    Farad,
    Henry,
    Volt,
    Amp,
    Hz,
    Deg,
    Dimensionless,
}

/// A constraint between two expressions.
pub struct Constraint {
    pub lhs: Expr,
    pub op: CmpOp,
    pub rhs: Expr,
}

/// An expression over circuit quantities.
pub enum Expr {
    Sym(Symbol),
    Lit(Quantity),
    V(VoltageReference),
    I(String),
    P(String),
    Zeq(String, String),
    Abs(Box<Expr>),
    AngleDeg(Box<Expr>),
}

/// A comparison operator.
#[derive(Debug, Clone, PartialEq, Eq)]
pub enum CmpOp {
    Eq,
    Ne,
    Lt,
    Le,
    Gt,
    Ge,
}

/// What to solve for.
pub enum SolveTarget {
    Expr(Expr),
    Sym(Symbol),
}

/// A voltage reference.
#[derive(Debug, Clone, PartialEq)]
pub enum VoltageReference {
    /// Voltage relative to ground (requires ground to be declared).
    GroundRelative(String),
    /// Differential voltage between two nodes (always valid).
    Differential(String, String),
    /// Explicit reference to another node.
    NodeRelative(String, String),
}

/// Whether evaluating the expression needs a ground reference: exactly
/// when a ground-relative voltage occurs in it.
pub open spec fn spec_requires_ground_expr(e: Expr) -> bool
    decreases e,
{
    match e {
        Expr::V(VoltageReference::GroundRelative(_)) => true,
        Expr::Abs(inner) => spec_requires_ground_expr(*inner),
        Expr::AngleDeg(inner) => spec_requires_ground_expr(*inner),
        _ => false,
    }
}

/// Whether a solve target needs a ground reference.
pub open spec fn spec_requires_ground_solve_target(t: SolveTarget) -> bool {
    match t {
        SolveTarget::Expr(e) => spec_requires_ground_expr(e),
        SolveTarget::Sym(_) => false,
    }
}

/// Whether the program needs a ground reference: some constraint side or
/// some solve target is ground-relative.
pub open spec fn spec_requires_ground(p: Program) -> bool {
    (exists|i: int|
        0 <= i < p.constraints@.len() && (spec_requires_ground_expr(
            (#[trigger] p.constraints@[i]).lhs,
        ) || spec_requires_ground_expr(p.constraints@[i].rhs))) || (exists|i: int|
        0 <= i < p.solve@.len() && spec_requires_ground_solve_target(#[trigger] p.solve@[i]))
}

/// Whether evaluating the expression needs a ground reference.
fn requires_ground_expr(expr: &Expr) -> (r: bool)
    ensures
        r == spec_requires_ground_expr(*expr),
    decreases *expr,
{
    match expr {
        Expr::V(VoltageReference::GroundRelative(_)) => true,
        Expr::Abs(inner) => requires_ground_expr(inner),
        Expr::AngleDeg(inner) => requires_ground_expr(inner),
        _ => false,
    }
}

/// Whether a solve target needs a ground reference.
fn requires_ground_solve_target(target: &SolveTarget) -> (r: bool)
    ensures
        r == spec_requires_ground_solve_target(*target),
{
    match target {
        SolveTarget::Expr(expr) => requires_ground_expr(expr),
        SolveTarget::Sym(_) => false,
    }
}

impl Program {
    /// An empty program.
    pub fn new() -> (p: Self)
        ensures
            p.circuit_name is None,
            p.ground is None,
            p.analysis is None,
            p.elements@.len() == 0,
            p.constraints@.len() == 0,
            p.solve@.len() == 0,
    {
        Program {
            circuit_name: None,
            ground: None,
            analysis: None,
            elements: Vec::new(),
            constraints: Vec::new(),
            solve: Vec::new(),
        }
    }

    /// Whether a ground node is declared.
    pub fn has_ground(&self) -> (r: bool)
        ensures
            r == (self.ground is Some),
    {
        matches!(self.ground, Some(_))
    }

    /// Whether any constraint or solve target is ground-relative.
    pub fn requires_ground(&self) -> (r: bool)
        ensures
            r == spec_requires_ground(*self),
    {
        let mut i: usize = 0;
        while i < self.constraints.len()
            invariant
                i <= self.constraints@.len(),
                forall|k: int|
                    0 <= k < i ==> !spec_requires_ground_expr(
                        (#[trigger] self.constraints@[k]).lhs,
                    ) && !spec_requires_ground_expr(self.constraints@[k].rhs),
            decreases self.constraints@.len() - i,
        {
            let c = &self.constraints[i];
            if requires_ground_expr(&c.lhs) || requires_ground_expr(&c.rhs) {
                return true;
            }
            i = i + 1;
        }
        let mut i: usize = 0;
        while i < self.solve.len()
            invariant
                i <= self.solve@.len(),
                forall|k: int|
                    0 <= k < self.constraints@.len() ==> !spec_requires_ground_expr(
                        (#[trigger] self.constraints@[k]).lhs,
                    ) && !spec_requires_ground_expr(self.constraints@[k].rhs),
                forall|k: int|
                    0 <= k < i ==> !spec_requires_ground_solve_target(#[trigger] self.solve@[k]),
            decreases self.solve@.len() - i,
        {
            if requires_ground_solve_target(&self.solve[i]) {
                return true;
            }
            i = i + 1;
        }
        false
    }
}

} // verus!
