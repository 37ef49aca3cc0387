//! The expression tree: variables, application, abstraction and let-binding.
use vstd::prelude::*;
use crate::ids::ExprIdx;

verus! {

/// A binder: the handle of the bound variable and its name.
pub struct Binder {
    pub id: ExprIdx,
    pub name: String,
}

/// An expression node. Every node carries the handle it was built with; a variable
/// reference carries the handle of the variable it names, the same as its binder's.
pub enum Expr {
    Var(ExprIdx, String),
    App(ExprIdx, Box<Expr>, Box<Expr>),
    Abs(ExprIdx, Binder, Box<Expr>),
    Let(ExprIdx, Binder, Box<Expr>, Box<Expr>),
}

impl Clone for Binder {
    fn clone(&self) -> (r: Binder)
        ensures
            r == *self,
    {
        Binder { id: self.id, name: self.name.clone() }
    }
}

impl Clone for Expr {
    /// A deep copy; every node keeps the handle it was built with.
    fn clone(&self) -> (r: Expr)
        ensures
            r == *self,
        decreases self,
    {
        match self {
            Expr::Var(id, name) => Expr::Var(*id, name.clone()),
            Expr::App(id, f, a) => Expr::App(*id, Box::new((**f).clone()), Box::new((**a).clone())),
            Expr::Abs(id, p, body) => Expr::Abs(*id, p.clone(), Box::new((**body).clone())),
            Expr::Let(id, x, val, cont) => Expr::Let(
                *id,
                x.clone(),
                Box::new((**val).clone()),
                Box::new((**cont).clone()),
            ),
        }
    }
}

impl Expr {
    /// The handle fixed when the node was built.
    pub open spec fn spec_id(&self) -> ExprIdx {
        match self {
            Expr::Var(id, _) => *id,
            Expr::App(id, _, _) => *id,
            Expr::Abs(id, _, _) => *id,
            Expr::Let(id, _, _, _) => *id,
        }
    }

    pub fn id(&self) -> (r: ExprIdx)
        ensures
            r == self.spec_id(),
    {
        match self {
            Expr::Var(id, _) => *id,
            Expr::App(id, _, _) => *id,
            Expr::Abs(id, _, _) => *id,
            Expr::Let(id, _, _, _) => *id,
        }
    }
}

} // verus!
