//! Name resolution and type checking of a (core) specification.
//!
//! Declarations are processed in order: a name is usable after it is
//! declared, and no name may be declared twice, whatever its kind. Constants
//! may not read state variables, primed variables occur only in transitions,
//! and temporal operators only in properties.

use vstd::prelude::*;

use crate::diagnostics::{concat_strs, concat_views, is_semantic_err, CaelumError, Result};
use crate::model::eval::{find_key, lookup};
use crate::model::graph::declared_type;
use crate::syntax::ast::{BinaryOp, Domain, DomainBound, Expr, Item, SourceFile, UnaryOp, VarDecl};

verus! {

#[derive(Debug, Clone)]
pub enum Type {
    Bool,
    Int,
    Enum(String),
}

#[derive(Debug, Copy, Clone, PartialEq, Eq, Structural)]
pub enum SymbolKind {
    Const,
    Var,
    EnumValue,
}

#[derive(Debug, Clone)]
pub struct Symbol {
    pub ty: Type,
    pub kind: SymbolKind,
}

/// Where an expression occurs, which decides what it may mention.
#[derive(Debug, Copy, Clone, PartialEq, Eq, Structural)]
pub enum Placement {
    Const,
    Init,
    Transition,
    Property,
}

/// Two types are the same type (enum types by the name of their declaration).
pub open spec fn type_eq(a: Type, b: Type) -> bool {
    match (a, b) {
        (Type::Enum(x), Type::Enum(y)) => x@ == y@,
        (Type::Bool, Type::Bool) => true,
        (Type::Int, Type::Int) => true,
        _ => false,
    }
}

/// The symbols declared so far, with their types, and every declared name.
pub type SemaEnv = (Seq<(String, Symbol)>, Seq<(String, ())>);

/// The type of an expression in a placement; `None` when it is ill-typed,
/// mentions an unknown name, or breaks a placement rule.
pub open spec fn spec_expr_type(e: Expr, syms: Seq<(String, Symbol)>, pl: Placement) -> Option<Type>
    decreases e,
{
    match e {
        Expr::Bool(_) => Some(Type::Bool),
        Expr::Int(_) => Some(Type::Int),
        Expr::Name(n) => match lookup(syms, n@) {
            Some(sym) => if pl == Placement::Const && sym.kind == SymbolKind::Var { None } else { Some(sym.ty) },
            None => None,
        },
        Expr::PrimedName(n) => if pl != Placement::Transition {
            None
        } else {
            match lookup(syms, n@) {
                Some(sym) => if sym.kind == SymbolKind::Var { Some(sym.ty) } else { None },
                None => None,
            }
        },
        Expr::Unary { op, expr } => match op {
            UnaryOp::Not => match spec_expr_type(*expr, syms, pl) {
                Some(Type::Bool) => Some(Type::Bool),
                _ => None,
            },
            UnaryOp::Neg => match spec_expr_type(*expr, syms, pl) {
                Some(Type::Int) => Some(Type::Int),
                _ => None,
            },
            _ => if pl != Placement::Property {
                None
            } else {
                match spec_expr_type(*expr, syms, pl) {
                    Some(Type::Bool) => Some(Type::Bool),
                    _ => None,
                }
            },
        },
        Expr::Binary { op, lhs, rhs } => {
            let lt = spec_expr_type(*lhs, syms, pl);
            let rt = spec_expr_type(*rhs, syms, pl);
            match op {
                BinaryOp::Add | BinaryOp::Sub | BinaryOp::Mul | BinaryOp::Div | BinaryOp::Mod =>
                    if lt == Some(Type::Int) && rt == Some(Type::Int) { Some(Type::Int) } else { None },
                BinaryOp::Lt | BinaryOp::Le | BinaryOp::Gt | BinaryOp::Ge =>
                    if lt == Some(Type::Int) && rt == Some(Type::Int) { Some(Type::Bool) } else { None },
                BinaryOp::Eq | BinaryOp::Ne => match (lt, rt) {
                    (Some(a), Some(b)) => if type_eq(a, b) { Some(Type::Bool) } else { None },
                    _ => None,
                },
                BinaryOp::And | BinaryOp::Or | BinaryOp::Implies | BinaryOp::Iff =>
                    if lt == Some(Type::Bool) && rt == Some(Type::Bool) { Some(Type::Bool) } else { None },
                BinaryOp::Until =>
                    if pl == Placement::Property && lt == Some(Type::Bool) && rt == Some(Type::Bool) {
                        Some(Type::Bool)
                    } else {
                        None
                    },
            }
        },
        _ => None,
    }
}

/// A range bound is a literal or a declared integer constant.
pub open spec fn spec_bound_ok(b: DomainBound, syms: Seq<(String, Symbol)>) -> bool {
    match b {
        DomainBound::Int(_) => true,
        DomainBound::Name(n) => match lookup(syms, n@) {
            Some(sym) => sym.kind == SymbolKind::Const && sym.ty is Int,
            None => false,
        },
    }
}

/// A `type` declaration names a nonempty enum, a range or `bool`.
pub open spec fn spec_type_domain_ok(d: Domain, syms: Seq<(String, Symbol)>) -> bool {
    match d {
        Domain::Enum { variants } => variants@.len() > 0,
        Domain::IntRange { start, end } => spec_bound_ok(start, syms) && spec_bound_ok(end, syms),
        Domain::Bool => true,
        Domain::Named(_) => false,
    }
}

/// The type of a variable declared with domain `d`, the earlier items in
/// scope.
pub open spec fn spec_domain_type(before: Seq<Item>, syms: Seq<(String, Symbol)>, var_name: String, d: Domain) -> Option<Type> {
    match d {
        Domain::Bool => Some(Type::Bool),
        Domain::IntRange { start, end } => if spec_bound_ok(start, syms) && spec_bound_ok(end, syms) {
            Some(Type::Int)
        } else {
            None
        },
        Domain::Enum { variants } => if variants@.len() > 0 { Some(Type::Enum(var_name)) } else { None },
        Domain::Named(t) => match declared_type(before, t@) {
            Some(Domain::Enum { .. }) => Some(Type::Enum(t)),
            Some(Domain::Bool) => Some(Type::Bool),
            Some(Domain::IntRange { .. }) => Some(Type::Int),
            _ => None,
        },
    }
}

pub open spec fn is_declared(env: SemaEnv, n: Seq<char>) -> bool {
    lookup(env.1, n) is Some
}

/// `env` with `name` declared as a symbol.
pub open spec fn declare_symbol(env: SemaEnv, name: String, sym: Symbol) -> SemaEnv {
    (env.0.push((name, sym)), env.1.push((name, ())))
}

/// Declares each enum variant, in order, as a value of type `ty`.
pub open spec fn add_variants(env: SemaEnv, vs: Seq<String>, ty: Type) -> Option<SemaEnv>
    decreases vs.len(),
{
    if vs.len() == 0 {
        Some(env)
    } else {
        match add_variants(env, vs.drop_last(), ty) {
            Some(e) => if is_declared(e, vs.last()@) {
                None
            } else {
                Some(declare_symbol(e, vs.last(), Symbol { ty, kind: SymbolKind::EnumValue }))
            },
            None => None,
        }
    }
}

/// The effect of one item on the environment; `None` when it is rejected.
pub open spec fn sema_step(before: Seq<Item>, env: SemaEnv, item: Item) -> Option<SemaEnv> {
    match item {
        Item::TypeDecl(d) => if is_declared(env, d.name@) || !spec_type_domain_ok(d.domain, env.0) {
            None
        } else {
            let e1 = (env.0, env.1.push((d.name, ())));
            match d.domain {
                Domain::Enum { variants } => add_variants(e1, variants@, Type::Enum(d.name)),
                _ => Some(e1),
            }
        },
        Item::Const(d) => if is_declared(env, d.name@) {
            None
        } else {
            match spec_expr_type(d.expr, env.0, Placement::Const) {
                Some(t) => Some(declare_symbol(env, d.name, Symbol { ty: t, kind: SymbolKind::Const })),
                None => None,
            }
        },
        Item::Var(d) => if is_declared(env, d.name@) {
            None
        } else {
            match spec_domain_type(before, env.0, d.name, d.domain) {
                Some(t) => {
                    let e1 = declare_symbol(env, d.name, Symbol { ty: t, kind: SymbolKind::Var });
                    match d.domain {
                        Domain::Enum { variants } => add_variants(e1, variants@, Type::Enum(d.name)),
                        _ => Some(e1),
                    }
                },
                None => None,
            }
        },
        Item::Init(b) => if spec_expr_type(b.expr, env.0, Placement::Init) == Some(Type::Bool) { Some(env) } else { None },
        Item::Transition(b) => if !is_declared(env, b.name@)
            && spec_expr_type(b.expr, env.0, Placement::Transition) == Some(Type::Bool) {
            Some((env.0, env.1.push((b.name, ()))))
        } else {
            None
        },
        Item::Property(b) => if !is_declared(env, b.name@)
            && spec_expr_type(b.expr, env.0, Placement::Property) == Some(Type::Bool) {
            Some((env.0, env.1.push((b.name, ()))))
        } else {
            None
        },
        Item::Fairness(_) => Some(env),
    }
}

/// The environment after checking the items in order; `None` when one is
/// rejected.
pub open spec fn sema_after(items: Seq<Item>) -> Option<SemaEnv>
    decreases items.len(),
{
    if items.len() == 0 {
        Some((Seq::empty(), Seq::empty()))
    } else {
        match sema_after(items.drop_last()) {
            Some(env) => sema_step(items.drop_last(), env, items.last()),
            None => None,
        }
    }
}

pub open spec fn is_transition_named(item: Item, name: Seq<char>) -> bool {
    match item {
        Item::Transition(b) => b.name@ == name,
        _ => false,
    }
}

/// Some transition of the file has this name.
pub open spec fn has_transition(items: Seq<Item>, name: Seq<char>) -> bool {
    exists|j: int| 0 <= j < items.len() && is_transition_named(#[trigger] items[j], name)
}

/// A fairness block names only transitions of the file.
pub open spec fn fairness_item_ok(items: Seq<Item>, item: Item) -> bool {
    match item {
        Item::Fairness(d) => forall|c: int| 0 <= c < d.constraints@.len()
            ==> has_transition(items, (#[trigger] d.constraints@[c]).transition@),
        _ => true,
    }
}

/// Every fairness constraint names a transition of the file.
pub open spec fn fairness_ok(items: Seq<Item>) -> bool {
    forall|i: int| 0 <= i < items.len() ==> fairness_item_ok(items, #[trigger] items[i])
}

/// The file is well formed: every item is accepted in order, and fairness
/// names only declared transitions.
pub open spec fn well_typed(items: Seq<Item>) -> bool {
    sema_after(items) is Some && fairness_ok(items)
}

struct Checker {
    symbols: Vec<(String, Symbol)>,
    declarations: Vec<(String, ())>,
}

fn semantic_error(parts: &[&str]) -> (r: CaelumError)
    ensures
        r matches CaelumError::Semantic { message, span: None } && message@ == concat_views(parts@),
{
    CaelumError::Semantic { message: concat_strs(parts), span: None }
}

fn clone_type(t: &Type) -> (r: Type)
    ensures
        r == *t,
{
    match t {
        Type::Bool => Type::Bool,
        Type::Int => Type::Int,
        Type::Enum(n) => Type::Enum(n.clone()),
    }
}

fn same_type(a: &Type, b: &Type) -> (r: bool)
    ensures
        r == type_eq(*a, *b),
{
    match (a, b) {
        (Type::Enum(x), Type::Enum(y)) => *x == *y,
        (Type::Bool, Type::Bool) => true,
        (Type::Int, Type::Int) => true,
        _ => false,
    }
}

/// How a type is named in messages.
spec fn type_text(ty: Type) -> Seq<char> {
    match ty {
        Type::Bool => "bool"@,
        Type::Int => "int"@,
        Type::Enum(name) => "enum "@ + name@,
    }
}

fn display_type(ty: &Type) -> (r: String)
    ensures
        r@ == type_text(*ty),
{
    match ty {
        Type::Bool => "bool".to_owned(),
        Type::Int => "int".to_owned(),
        Type::Enum(name) => {
            let parts = ["enum ", name.as_str()];
            let r = concat_strs(&parts);
            proof {
                reveal_with_fuel(crate::diagnostics::concat_views, 3);
                assert(parts@.drop_last().drop_last() =~= Seq::<&str>::empty());
            }
            r
        },
    }
}

/// The first `type` declaration named `name` among the first `upto` items.
fn find_type_before<'a>(items: &'a Vec<Item>, upto: usize, name: &String) -> (r: Option<&'a Domain>)
    requires
        upto <= items@.len(),
    ensures
        r matches Some(d) ==> declared_type(items@.take(upto as int), name@) == Some(*d),
        r is None ==> declared_type(items@.take(upto as int), name@) is None,
{
    let ghost pre = items@.take(upto as int);
    let mut i: usize = 0;
    assert(pre.skip(0) == pre);
    while i < upto
        invariant
            upto <= items@.len(),
            pre == items@.take(upto as int),
            i <= upto,
            declared_type(pre, name@) == declared_type(pre.skip(i as int), name@),
        decreases upto - i,
    {
        proof {
            assert(pre.skip(i as int)[0] == items@[i as int]);
            assert(pre.skip(i as int).drop_first() == pre.skip(i as int + 1));
        }
        if let Item::TypeDecl(decl) = &items[i] {
            if decl.name == *name {
                return Some(&decl.domain);
            }
        }
        i = i + 1;
    }
    None
}

impl Checker {
    spec fn env(&self) -> SemaEnv {
        (self.symbols@, self.declarations@)
    }

    fn symbol(&self, name: &String) -> (r: Result<&Symbol>)
        ensures
            lookup(self.symbols@, name@) matches Some(s) ==> r matches Ok(t) && *t == s,
            lookup(self.symbols@, name@) is None ==> is_semantic_err(r),
            lookup(self.symbols@, name@) is None ==> (r matches Err(CaelumError::Semantic { message, .. })
                && message@ == "unknown identifier `"@ + name@ + "`"@),
    {
        match find_key(&self.symbols, name) {
            Some(i) => Ok(&self.symbols[i].1),
            None => {
                let parts = ["unknown identifier `", name.as_str(), "`"];
                let e = semantic_error(&parts);
                proof {
                    reveal_with_fuel(concat_views, 4);
                    assert(parts@.drop_last().drop_last().drop_last() =~= Seq::<&str>::empty());
                }
                Err(e)
            },
        }
    }

    fn ensure_unused_name(&self, name: &String) -> (r: Result<()>)
        ensures
            r is Ok <==> !is_declared(self.env(), name@),
            r is Err ==> is_semantic_err(r),
            r is Err ==> (r matches Err(CaelumError::Semantic { message, .. })
                && message@ == "duplicate declaration `"@ + name@ + "`"@),
    {
        match find_key(&self.declarations, name) {
            Some(_) => {
                let parts = ["duplicate declaration `", name.as_str(), "`"];
                let e = semantic_error(&parts);
                proof {
                    reveal_with_fuel(concat_views, 4);
                    assert(parts@.drop_last().drop_last().drop_last() =~= Seq::<&str>::empty());
                }
                Err(e)
            },
            None => Ok(()),
        }
    }

    fn declare(&mut self, name: &String, sym: Symbol)
        ensures
            final(self).env() == declare_symbol(old(self).env(), *name, sym),
    {
        self.symbols.push((name.clone(), sym));
        self.declarations.push((name.clone(), ()));
    }

    fn record_declaration(&mut self, name: &String)
        ensures
            final(self).env() == (old(self).env().0, old(self).env().1.push((*name, ()))),
    {
        self.declarations.push((name.clone(), ()));
    }

    fn add_variants(&mut self, variants: &Vec<String>, ty: &Type) -> (r: Result<()>)
        ensures
            add_variants(old(self).env(), variants@, *ty) matches Some(e) ==> r is Ok && final(self).env() == e,
            add_variants(old(self).env(), variants@, *ty) is None ==> is_semantic_err(r),
    {
        let ghost start = self.env();
        let mut i: usize = 0;
        while i < variants.len()
            invariant
                i <= variants@.len(),
                start == old(self).env(),
                add_variants(start, variants@.take(i as int), *ty) == Some(self.env()),
            decreases variants@.len() - i,
        {
            proof {
                assert(variants@.take(i as int + 1).drop_last() == variants@.take(i as int));
                assert(variants@.take(i as int + 1).last() == variants@[i as int]);
            }
            let variant = &variants[i];
            match self.ensure_unused_name(variant) {
                Ok(()) => {},
                Err(e) => {
                    proof {
                        assert(is_declared(self.env(), variants@.take(i as int + 1).last()@));
                        assert(add_variants(start, variants@.take(i as int + 1), *ty) is None);
                        lemma_variants_none(start, variants@, *ty, i as int + 1);
                    }
                    return Err(e);
                },
            }
            self.declare(variant, Symbol { ty: clone_type(ty), kind: SymbolKind::EnumValue });
            i = i + 1;
        }
        assert(variants@.take(variants@.len() as int) == variants@);
        Ok(())
    }

    fn check_int_bound(&self, bound: &DomainBound) -> (r: Result<()>)
        ensures
            r is Ok <==> spec_bound_ok(*bound, self.symbols@),
            r is Err ==> is_semantic_err(r),
    {
        match bound {
            DomainBound::Int(_) => Ok(()),
            DomainBound::Name(name) => {
                let symbol = self.symbol(name)?;
                if symbol.kind != SymbolKind::Const {
                    return Err(semantic_error(&["range bound `", name.as_str(), "` must refer to an integer constant"]));
                }
                match symbol.ty {
                    Type::Int => Ok(()),
                    _ => Err(semantic_error(&[
                        "range bound `", name.as_str(), "` must be int, found ", display_type(&symbol.ty).as_str(),
                    ])),
                }
            },
        }
    }

    fn check_type_domain(&self, tname: &String, domain: &Domain) -> (r: Result<()>)
        ensures
            r is Ok <==> spec_type_domain_ok(*domain, self.symbols@),
            r is Err ==> is_semantic_err(r),
    {
        match domain {
            Domain::Enum { variants } => {
                if variants.len() == 0 {
                    Err(semantic_error(&["enum type `", tname.as_str(), "` has no variants"]))
                } else {
                    Ok(())
                }
            },
            Domain::IntRange { start, end } => {
                self.check_int_bound(start)?;
                self.check_int_bound(end)
            },
            Domain::Bool => Ok(()),
            Domain::Named(_) => Err(semantic_error(&["type `", tname.as_str(), "` cannot alias another named type"])),
        }
    }

    fn domain_type(&self, items: &Vec<Item>, upto: usize, var_name: &String, domain: &Domain) -> (r: Result<Type>)
        requires
            upto <= items@.len(),
        ensures
            spec_domain_type(items@.take(upto as int), self.symbols@, *var_name, *domain) matches Some(t)
                ==> r == Ok::<Type, CaelumError>(t),
            spec_domain_type(items@.take(upto as int), self.symbols@, *var_name, *domain) is None ==> is_semantic_err(r),
    {
        match domain {
            Domain::Bool => Ok(Type::Bool),
            Domain::IntRange { start, end } => {
                self.check_int_bound(start)?;
                self.check_int_bound(end)?;
                Ok(Type::Int)
            },
            Domain::Enum { variants } => {
                if variants.len() == 0 {
                    Err(semantic_error(&["enum domain for `", var_name.as_str(), "` has no variants"]))
                } else {
                    Ok(Type::Enum(var_name.clone()))
                }
            },
            Domain::Named(tname) => match find_type_before(items, upto, tname) {
                Some(Domain::Enum { .. }) => Ok(Type::Enum(tname.clone())),
                Some(Domain::Bool) => Ok(Type::Bool),
                Some(Domain::IntRange { .. }) => Ok(Type::Int),
                Some(Domain::Named(_)) => Err(semantic_error(&["type `", tname.as_str(), "` cannot alias another named type"])),
                None => Err(semantic_error(&[
                    "unknown type `", tname.as_str(), "` in declaration of `", var_name.as_str(), "`",
                ])),
            },
        }
    }

    fn expect_type(&self, expr: &Expr, placement: Placement, expected: Type, context: &str) -> (r: Result<()>)
        requires
            !(expected is Enum),
        ensures
            r is Ok <==> spec_expr_type(*expr, self.symbols@, placement) == Some(expected),
            r is Err ==> is_semantic_err(r),
        decreases expr, 3nat,
    {
        let actual = self.expr_type(expr, placement)?;
        if same_type(&actual, &expected) {
            Ok(())
        } else {
            Err(semantic_error(&[
                context, " expected ", display_type(&expected).as_str(), ", found ", display_type(&actual).as_str(),
            ]))
        }
    }

    fn expr_type(&self, expr: &Expr, placement: Placement) -> (r: Result<Type>)
        ensures
            spec_expr_type(*expr, self.symbols@, placement) matches Some(t) ==> r == Ok::<Type, CaelumError>(t),
            spec_expr_type(*expr, self.symbols@, placement) is None ==> is_semantic_err(r),
            expr matches Expr::PrimedName(n) ==> (placement != Placement::Transition ==> (r matches Err(CaelumError::Semantic { message, .. })
                && message@ == "primed variable `"@ + n@ + "'` is only allowed in transitions"@)),
            expr matches Expr::Unary { op, .. } ==> (!(op is Not) && !(op is Neg) && placement != Placement::Property
                ==> (r matches Err(CaelumError::Semantic { message, .. })
                && message@ == "temporal operators are only allowed in properties"@)),
        decreases expr, 2nat,
    {
        match expr {
            Expr::Bool(_) => Ok(Type::Bool),
            Expr::Int(_) => Ok(Type::Int),
            Expr::Name(name) => {
                let symbol = self.symbol(name)?;
                if placement == Placement::Const && symbol.kind == SymbolKind::Var {
                    return Err(semantic_error(&["constant expression cannot refer to state variable `", name.as_str(), "`"]));
                }
                Ok(clone_type(&symbol.ty))
            },
            Expr::PrimedName(name) => {
                if placement != Placement::Transition {
                    let parts = ["primed variable `", name.as_str(), "'` is only allowed in transitions"];
                    let e = semantic_error(&parts);
                    proof {
                        reveal_with_fuel(concat_views, 4);
                        assert(parts@.drop_last().drop_last().drop_last() =~= Seq::<&str>::empty());
                    }
                    return Err(e);
                }
                let symbol = self.symbol(name)?;
                if symbol.kind != SymbolKind::Var {
                    return Err(semantic_error(&["only state variables can be primed: `", name.as_str(), "'`"]));
                }
                Ok(clone_type(&symbol.ty))
            },
            Expr::Unary { op, expr: inner } => match op {
                UnaryOp::Not => {
                    self.expect_type(inner, placement, Type::Bool, "negation")?;
                    Ok(Type::Bool)
                },
                UnaryOp::Neg => {
                    self.expect_type(inner, placement, Type::Int, "unary minus")?;
                    Ok(Type::Int)
                },
                _ => {
                    if placement != Placement::Property {
                        let parts = ["temporal operators are only allowed in properties"];
                        let e = semantic_error(&parts);
                        proof {
                            reveal_with_fuel(concat_views, 2);
                            assert(parts@.drop_last() =~= Seq::<&str>::empty());
                        }
                        return Err(e);
                    }
                    self.expect_type(inner, placement, Type::Bool, "temporal operator")?;
                    Ok(Type::Bool)
                },
            },
            Expr::Binary { op, lhs, rhs } => self.binary_type(*op, lhs, rhs, placement, expr),
            _ => Err(semantic_error(&[
                "internal error: sugar expression reached type checking without elaboration ",
                "(indexed reference, `unchanged`, or quantifier)",
            ])),
        }
    }

    fn binary_type(&self, op: BinaryOp, lhs: &Expr, rhs: &Expr, placement: Placement, whole: &Expr) -> (r: Result<Type>)
        requires
            *whole == (Expr::Binary { op, lhs: Box::new(*lhs), rhs: Box::new(*rhs) }),
        ensures
            spec_expr_type(*whole, self.symbols@, placement) matches Some(t) ==> r == Ok::<Type, CaelumError>(t),
            spec_expr_type(*whole, self.symbols@, placement) is None ==> is_semantic_err(r),
        decreases whole, 1nat,
    {
        match op {
            BinaryOp::Add | BinaryOp::Sub | BinaryOp::Mul | BinaryOp::Div | BinaryOp::Mod => {
                self.expect_type(lhs, placement, Type::Int, "arithmetic operator")?;
                self.expect_type(rhs, placement, Type::Int, "arithmetic operator")?;
                Ok(Type::Int)
            },
            BinaryOp::Lt | BinaryOp::Le | BinaryOp::Gt | BinaryOp::Ge => {
                self.expect_type(lhs, placement, Type::Int, "ordering comparison")?;
                self.expect_type(rhs, placement, Type::Int, "ordering comparison")?;
                Ok(Type::Bool)
            },
            BinaryOp::Eq | BinaryOp::Ne => {
                let lhs_ty = self.expr_type(lhs, placement)?;
                let rhs_ty = self.expr_type(rhs, placement)?;
                if same_type(&lhs_ty, &rhs_ty) {
                    Ok(Type::Bool)
                } else {
                    Err(semantic_error(&[
                        "equality operands must have the same type, found ", display_type(&lhs_ty).as_str(),
                        " and ", display_type(&rhs_ty).as_str(),
                    ]))
                }
            },
            BinaryOp::And | BinaryOp::Or | BinaryOp::Implies | BinaryOp::Iff => {
                self.expect_type(lhs, placement, Type::Bool, "boolean operator")?;
                self.expect_type(rhs, placement, Type::Bool, "boolean operator")?;
                Ok(Type::Bool)
            },
            BinaryOp::Until => {
                if placement != Placement::Property {
                    return Err(semantic_error(&["temporal operators are only allowed in properties"]));
                }
                self.expect_type(lhs, placement, Type::Bool, "until operator")?;
                self.expect_type(rhs, placement, Type::Bool, "until operator")?;
                Ok(Type::Bool)
            },
        }
    }

    fn expect_bool(&self, expr: &Expr, placement: Placement, context: &str) -> (r: Result<()>)
        ensures
            r is Ok <==> spec_expr_type(*expr, self.symbols@, placement) == Some(Type::Bool),
            r is Err ==> is_semantic_err(r),
            spec_expr_type(*expr, self.symbols@, placement) matches Some(t) ==> (t != Type::Bool
                ==> (r matches Err(CaelumError::Semantic { message, .. })
                && message@ == context@ + " must be boolean, found "@ + type_text(t))),
    {
        let ty = self.expr_type(expr, placement)?;
        match ty {
            Type::Bool => Ok(()),
            _ => {
                let text = display_type(&ty);
                let parts = [context, " must be boolean, found ", text.as_str()];
                let e = semantic_error(&parts);
                proof {
                    reveal_with_fuel(concat_views, 4);
                    assert(parts@.drop_last().drop_last().drop_last() =~= Seq::<&str>::empty());
                }
                Err(e)
            },
        }
    }
}

proof fn lemma_variants_none(env: SemaEnv, vs: Seq<String>, ty: Type, j: int)
    requires
        0 <= j <= vs.len(),
        add_variants(env, vs.take(j), ty) is None,
    ensures
        add_variants(env, vs, ty) is None,
    decreases vs.len() - j,
{
    if j < vs.len() {
        assert(vs.take(j + 1).drop_last() == vs.take(j));
        lemma_variants_none(env, vs, ty, j + 1);
    } else {
        assert(vs.take(j) == vs);
    }
}

proof fn lemma_sema_none(items: Seq<Item>, j: int)
    requires
        0 <= j <= items.len(),
        sema_after(items.take(j)) is None,
    ensures
        sema_after(items) is None,
    decreases items.len() - j,
{
    if j < items.len() {
        assert(items.take(j + 1).drop_last() == items.take(j));
        lemma_sema_none(items, j + 1);
    } else {
        assert(items.take(j) == items);
    }
}


impl Checker {
    /// Checks item `i`, the earlier items having been accepted.
    fn check_item(&mut self, items: &Vec<Item>, i: usize) -> (r: Result<()>)
        requires
            i < items@.len(),
        ensures
            sema_step(items@.take(i as int), old(self).env(), items@[i as int]) matches Some(e)
                ==> r is Ok && final(self).env() == e,
            sema_step(items@.take(i as int), old(self).env(), items@[i as int]) is None ==> is_semantic_err(r),
    {
        match &items[i] {
            Item::TypeDecl(decl) => {
                self.ensure_unused_name(&decl.name)?;
                self.check_type_domain(&decl.name, &decl.domain)?;
                self.record_declaration(&decl.name);
                match &decl.domain {
                    Domain::Enum { variants } => self.add_variants(variants, &Type::Enum(decl.name.clone())),
                    _ => Ok(()),
                }
            },
            Item::Const(decl) => {
                self.ensure_unused_name(&decl.name)?;
                let ty = self.expr_type(&decl.expr, Placement::Const)?;
                self.declare(&decl.name, Symbol { ty, kind: SymbolKind::Const });
                Ok(())
            },
            Item::Var(decl) => {
                self.ensure_unused_name(&decl.name)?;
                let ty = self.domain_type(items, i, &decl.name, &decl.domain)?;
                self.declare(&decl.name, Symbol { ty, kind: SymbolKind::Var });
                match &decl.domain {
                    Domain::Enum { variants } => self.add_variants(variants, &Type::Enum(decl.name.clone())),
                    _ => Ok(()),
                }
            },
            Item::Init(block) => self.expect_bool(&block.expr, Placement::Init, "init block"),
            Item::Transition(block) => {
                self.ensure_unused_name(&block.name)?;
                self.record_declaration(&block.name);
                self.expect_bool(&block.expr, Placement::Transition, "transition block")
            },
            Item::Property(block) => {
                self.ensure_unused_name(&block.name)?;
                self.record_declaration(&block.name);
                self.expect_bool(&block.expr, Placement::Property, "property block")
            },
            Item::Fairness(_) => Ok(()),
        }
    }
}

fn transition_declared(items: &Vec<Item>, name: &String) -> (r: bool)
    ensures
        r == has_transition(items@, name@),
{
    let mut j: usize = 0;
    while j < items.len()
        invariant
            j <= items@.len(),
            forall|m: int| 0 <= m < j ==> !is_transition_named(#[trigger] items@[m], name@),
        decreases items@.len() - j,
    {
        if let Item::Transition(block) = &items[j] {
            if block.name == *name {
                return true;
            }
        }
        j = j + 1;
    }
    false
}

/// Checks a specification: its declarations in order, then its fairness
/// constraints, which may name transitions declared later in the file.
pub fn check_source_file(file: &SourceFile) -> (r: Result<()>)
    ensures
        r is Ok <==> well_typed(file.items@),
        r is Err ==> is_semantic_err(r),
{
    let items = &file.items;
    let mut checker = Checker { symbols: Vec::new(), declarations: Vec::new() };
    let mut i: usize = 0;
    while i < items.len()
        invariant
            items@ == file.items@,
            i <= items@.len(),
            sema_after(items@.take(i as int)) == Some(checker.env()),
        decreases items@.len() - i,
    {
        proof {
            assert(items@.take(i as int + 1).drop_last() == items@.take(i as int));
            assert(items@.take(i as int + 1).last() == items@[i as int]);
        }
        match checker.check_item(items, i) {
            Ok(()) => {},
            Err(e) => {
                proof {
                    lemma_sema_none(items@, i as int + 1);
                }
                return Err(e);
            },
        }
        i = i + 1;
    }
    proof {
        assert(items@.take(items@.len() as int) == items@);
    }
    let mut i: usize = 0;
    while i < items.len()
        invariant
            items@ == file.items@,
            i <= items@.len(),
            sema_after(items@) is Some,
            forall|m: int| 0 <= m < i ==> fairness_item_ok(items@, #[trigger] items@[m]),
        decreases items@.len() - i,
    {
        if let Item::Fairness(decl) = &items[i] {
            let mut c: usize = 0;
            while c < decl.constraints.len()
                invariant
                    items@ == file.items@,
                    i < items@.len(),
                    items@[i as int] == Item::Fairness(*decl),
                    c <= decl.constraints@.len(),
                    forall|m: int| 0 <= m < i ==> fairness_item_ok(items@, #[trigger] items@[m]),
                    forall|k: int| 0 <= k < c ==> has_transition(items@, (#[trigger] decl.constraints@[k]).transition@),
                decreases decl.constraints@.len() - c,
            {
                let constraint = &decl.constraints[c];
                if !transition_declared(items, &constraint.transition) {
                    proof {
                        assert(!fairness_item_ok(items@, items@[i as int]));
                    }
                    return Err(semantic_error(&[
                        "unknown transition in fairness declaration `", constraint.transition.as_str(), "`",
                    ]));
                }
                c = c + 1;
            }
        }
        i = i + 1;
    }
    Ok(())
}

/// A domain a `type` alias can stand for and that, written in place, is
/// accepted in scope `syms`: `bool`, or a range whose bounds are declared.
pub open spec fn inline_domain_ok(d: Domain, syms: Seq<(String, Symbol)>) -> bool {
    match d {
        Domain::Bool => true,
        Domain::IntRange { start, end } => spec_bound_ok(start, syms) && spec_bound_ok(end, syms),
        _ => false,
    }
}

/// Declaring a variable through a `type` alias of `bool` or of a range has
/// the same effect as writing the aliased domain in its place: the variable
/// gets the same type (`bool` for an alias of `bool`), and the same symbols
/// are declared.
pub proof fn law_alias_same_as_inline(before: Seq<Item>, env: SemaEnv, d: VarDecl, t: String)
    requires
        d.domain == Domain::Named(t),
        declared_type(before, t@) is Some,
        inline_domain_ok(declared_type(before, t@)->Some_0, env.0),
    ensures
        spec_domain_type(before, env.0, d.name, d.domain)
            == spec_domain_type(before, env.0, d.name, declared_type(before, t@)->Some_0),
        declared_type(before, t@) == Some(Domain::Bool) ==> spec_domain_type(before, env.0, d.name, d.domain) == Some(Type::Bool),
        sema_step(before, env, Item::Var(d))
            == sema_step(before, env, Item::Var(VarDecl { name: d.name, index: d.index, domain: declared_type(before, t@)->Some_0, span: d.span })),
{
}

} // verus!
