//! Rendering syntax trees back to `.lum` text, in one of three operator
//! styles.

use vstd::prelude::*;

use crate::diagnostics::{i64_text, int_text};
use crate::syntax::parser::chars_of;
use crate::syntax::ast::{
    BinaryOp, Domain, DomainBound, Expr, FairnessConstraint, FairnessStrength, ImportDecl, Item,
    PropertyKind, QuantKind, SourceFile, TransitionParam, UnaryOp, UnchangedTarget,
};

verus! {

#[derive(Debug, Copy, Clone, PartialEq, Eq, Structural)]
pub enum PrintMode {
    Keywords,
    AsciiOperators,
    UnicodeOperators,
}

impl Default for PrintMode {
    fn default() -> (r: Self)
        ensures
            r == PrintMode::UnicodeOperators,
    {
        PrintMode::UnicodeOperators
    }
}

#[derive(Debug, Copy, Clone)]
pub struct Printer {
    mode: PrintMode,
}

/// Which operand of a binary operator an expression is.
#[derive(Debug, Copy, Clone, PartialEq, Eq, Structural)]
pub enum Side {
    Top,
    Left,
    Right,
}

// ---------------------------------------------------------------------------
// The text of each piece of syntax.

pub open spec fn unary_op_text(mode: PrintMode, op: UnaryOp) -> &'static str {
    match (mode, op) {
        (PrintMode::Keywords, UnaryOp::Not) => "not",
        (PrintMode::AsciiOperators, UnaryOp::Not) => "~",
        (PrintMode::UnicodeOperators, UnaryOp::Not) => "¬",
        (_, UnaryOp::Neg) => "-",
        (PrintMode::Keywords, UnaryOp::Always) => "always",
        (PrintMode::AsciiOperators, UnaryOp::Always) => "[]",
        (PrintMode::UnicodeOperators, UnaryOp::Always) => "□",
        (PrintMode::Keywords, UnaryOp::Eventually) => "eventually",
        (PrintMode::AsciiOperators, UnaryOp::Eventually) => "<>",
        (PrintMode::UnicodeOperators, UnaryOp::Eventually) => "◇",
        (PrintMode::Keywords, UnaryOp::Next) => "next",
        (PrintMode::AsciiOperators, UnaryOp::Next) => "()",
        (PrintMode::UnicodeOperators, UnaryOp::Next) => "◯",
    }
}

pub open spec fn binary_op_text(mode: PrintMode, op: BinaryOp) -> &'static str {
    match (mode, op) {
        (_, BinaryOp::Add) => "+",
        (_, BinaryOp::Sub) => "-",
        (_, BinaryOp::Mul) => "*",
        (_, BinaryOp::Div) => "/",
        (_, BinaryOp::Mod) => "mod",
        (_, BinaryOp::Eq) => "=",
        (PrintMode::UnicodeOperators, BinaryOp::Ne) => "≠",
        (_, BinaryOp::Ne) => "!=",
        (_, BinaryOp::Lt) => "<",
        (PrintMode::UnicodeOperators, BinaryOp::Le) => "≤",
        (_, BinaryOp::Le) => "<=",
        (_, BinaryOp::Gt) => ">",
        (PrintMode::UnicodeOperators, BinaryOp::Ge) => "≥",
        (_, BinaryOp::Ge) => ">=",
        (PrintMode::Keywords, BinaryOp::And) => "and",
        (PrintMode::AsciiOperators, BinaryOp::And) => "/\\",
        (PrintMode::UnicodeOperators, BinaryOp::And) => "∧",
        (PrintMode::Keywords, BinaryOp::Or) => "or",
        (PrintMode::AsciiOperators, BinaryOp::Or) => "\\/",
        (PrintMode::UnicodeOperators, BinaryOp::Or) => "∨",
        (PrintMode::UnicodeOperators, BinaryOp::Implies) => "→",
        (_, BinaryOp::Implies) => "->",
        (PrintMode::UnicodeOperators, BinaryOp::Iff) => "↔",
        (_, BinaryOp::Iff) => "<->",
        (PrintMode::Keywords, BinaryOp::Until) => "until",
        (PrintMode::AsciiOperators, BinaryOp::Until) => "U",
        (PrintMode::UnicodeOperators, BinaryOp::Until) => "𝒰",
    }
}

pub open spec fn separator_text(mode: PrintMode) -> &'static str {
    match mode {
        PrintMode::Keywords | PrintMode::AsciiOperators => ":",
        PrintMode::UnicodeOperators => "∈",
    }
}

pub open spec fn quant_text(mode: PrintMode, kind: QuantKind) -> &'static str {
    match (mode, kind) {
        (PrintMode::UnicodeOperators, QuantKind::Forall) => "∀",
        (_, QuantKind::Forall) => "forall",
        (PrintMode::UnicodeOperators, QuantKind::Exists) => "∃",
        (_, QuantKind::Exists) => "exists",
    }
}

/// How tightly an expression binds; larger binds tighter.
pub open spec fn precedence(e: Expr) -> u8 {
    match e {
        Expr::Binary { op, .. } => match op {
            BinaryOp::Iff => 1,
            BinaryOp::Implies => 2,
            BinaryOp::Until => 3,
            BinaryOp::Or => 4,
            BinaryOp::And => 5,
            BinaryOp::Eq | BinaryOp::Ne | BinaryOp::Lt | BinaryOp::Le | BinaryOp::Gt | BinaryOp::Ge => 6,
            BinaryOp::Add | BinaryOp::Sub => 7,
            BinaryOp::Mul | BinaryOp::Div | BinaryOp::Mod => 8,
        },
        Expr::Quantifier { .. } => 0,
        Expr::Unary { .. } => 9,
        _ => 10,
    }
}

/// An operand needs parentheses when it binds more loosely than its parent,
/// or as tightly on the side the operator does not associate to; a
/// comparison never takes another comparison as an operand unbracketed.
pub open spec fn needs_parens(e: Expr, parent_prec: u8, side: Side) -> bool {
    let own = precedence(e);
    if own < parent_prec {
        true
    } else if own != parent_prec {
        false
    } else {
        match e {
            Expr::Binary { op, .. } => match side {
                Side::Left => op is Implies || op is Until || op is Eq || op is Ne || op is Lt || op is Le
                    || op is Gt || op is Ge,
                Side::Right => op is Sub || op is Div || op is Mod || op is Eq || op is Ne || op is Lt
                    || op is Le || op is Gt || op is Ge,
                Side::Top => false,
            },
            _ => false,
        }
    }
}

/// The items of `parts` with `sep` between consecutive ones.
pub open spec fn join(parts: Seq<Seq<char>>, sep: Seq<char>) -> Seq<char>
    decreases parts.len(),
{
    if parts.len() == 0 {
        Seq::empty()
    } else if parts.len() == 1 {
        parts[0]
    } else {
        join(parts.drop_last(), sep) + sep + parts.last()
    }
}

pub open spec fn bound_text(b: DomainBound) -> Seq<char> {
    match b {
        DomainBound::Int(i) => int_text(i as int),
        DomainBound::Name(n) => n@,
    }
}

pub open spec fn domain_text(d: Domain) -> Seq<char> {
    match d {
        Domain::Bool => "bool"@,
        Domain::IntRange { start, end } => bound_text(start) + ".."@ + bound_text(end),
        Domain::Enum { variants } => "enum { "@ + join(variants@.map_values(|v: String| v@), ", "@) + " }"@,
        Domain::Named(n) => n@,
    }
}

pub open spec fn target_text(t: UnchangedTarget) -> Seq<char> {
    match t.except {
        Some(idx) => t.name@ + " except "@ + idx@,
        None => t.name@,
    }
}

pub open spec fn param_text(mode: PrintMode, p: TransitionParam) -> Seq<char> {
    p.name@ + " "@ + separator_text(mode)@ + " "@ + domain_text(p.domain)
}

pub open spec fn bool_text(b: bool) -> Seq<char> {
    if b { "true"@ } else { "false"@ }
}

/// The text of an expression printed as an operand of precedence
/// `parent_prec` on `side`: parenthesised when it binds too loosely there.
pub open spec fn expr_text(mode: PrintMode, e: Expr, parent_prec: u8, side: Side) -> Seq<char>
    decreases e, 1nat,
{
    if needs_parens(e, parent_prec, side) {
        "("@ + rendered_text(mode, e) + ")"@
    } else {
        rendered_text(mode, e)
    }
}

/// The text of an expression, without surrounding parentheses.
pub open spec fn rendered_text(mode: PrintMode, e: Expr) -> Seq<char>
    decreases e, 0nat,
{
    let own = precedence(e);
    match e {
        Expr::Bool(b) => bool_text(b),
        Expr::Int(i) => int_text(i as int),
        Expr::Name(n) => n@,
        Expr::PrimedName(n) => n@ + "'"@,
        Expr::Indexed { name, index, primed } =>
            name@ + "["@ + expr_text(mode, *index, 0, Side::Top) + "]"@ + if primed { "'"@ } else { Seq::empty() },
        Expr::Unchanged(targets) => "unchanged("@ + join(targets@.map_values(|t: UnchangedTarget| target_text(t)), ", "@) + ")"@,
        Expr::Quantifier { kind, var, domain, body } =>
            quant_text(mode, kind)@ + " "@ + var@ + " "@ + separator_text(mode)@ + " "@ + domain_text(domain) + ": "@
                + expr_text(mode, *body, own, Side::Right),
        Expr::Unary { op, expr } => unary_op_text(mode, op)@ + " "@ + expr_text(mode, *expr, own, Side::Right),
        Expr::Binary { op, lhs, rhs } =>
            expr_text(mode, *lhs, own, Side::Left) + " "@ + binary_op_text(mode, op)@ + " "@
                + expr_text(mode, *rhs, own, Side::Right),
    }
}

pub open spec fn fairness_line(c: FairnessConstraint) -> Seq<char> {
    "  "@ + (match c.strength {
        FairnessStrength::Weak => "weak"@,
        FairnessStrength::Strong => "strong"@,
    }) + " "@ + c.transition@ + "\n"@
}

pub open spec fn concat_all(parts: Seq<Seq<char>>) -> Seq<char>
    decreases parts.len(),
{
    if parts.len() == 0 {
        Seq::empty()
    } else {
        concat_all(parts.drop_last()) + parts.last()
    }
}

/// The index binding of an indexed variable declaration.
pub open spec fn index_text(mode: PrintMode, idx: Option<TransitionParam>) -> Seq<char> {
    match idx {
        Some(p) => "["@ + p.name@ + " "@ + separator_text(mode)@ + " "@ + domain_text(p.domain) + "]"@,
        None => Seq::empty(),
    }
}

/// The parameter list of a transition, empty when it has none.
pub open spec fn params_text(mode: PrintMode, params: Seq<TransitionParam>) -> Seq<char> {
    if params.len() == 0 {
        Seq::empty()
    } else {
        "("@ + join(params.map_values(|p: TransitionParam| param_text(mode, p)), ", "@) + ")"@
    }
}

/// The text of an item, ending with a newline.
pub open spec fn item_text(mode: PrintMode, item: Item) -> Seq<char> {
    match item {
        Item::TypeDecl(d) => "type "@ + d.name@ + " = "@ + domain_text(d.domain) + "\n"@,
        Item::Const(d) => "const "@ + d.name@ + " = "@ + expr_text(mode, d.expr, 0, Side::Top) + "\n"@,
        Item::Var(d) => "let "@ + d.name@ + index_text(mode, d.index) + " "@ + separator_text(mode)@ + " "@ + domain_text(d.domain) + "\n"@,
        Item::Init(b) => "init {\n  "@ + expr_text(mode, b.expr, 0, Side::Top) + "\n}\n"@,
        Item::Transition(b) => "transition "@ + b.name@ + params_text(mode, b.params@) + " {\n  "@ + expr_text(mode, b.expr, 0, Side::Top) + "\n}\n"@,
        Item::Property(b) => (match b.kind {
            PropertyKind::Property => "property"@,
            PropertyKind::Invalid => "invalid"@,
        }) + " "@ + b.name@ + " {\n  "@ + expr_text(mode, b.expr, 0, Side::Top) + "\n}\n"@,
        Item::Fairness(d) => "fairness {\n"@ + concat_all(d.constraints@.map_values(|c: FairnessConstraint| fairness_line(c))) + "}\n"@,
    }
}

/// A string literal: the text between double quotes, with `\`, `"` and the
/// line-break and tab characters escaped.
pub open spec fn escaped(s: Seq<char>) -> Seq<char>
    decreases s.len(),
{
    if s.len() == 0 {
        Seq::empty()
    } else {
        escaped(s.drop_last()) + (match s.last() {
            '\\' => "\\\\"@,
            '"' => "\\\""@,
            '\n' => "\\n"@,
            '\r' => "\\r"@,
            '\t' => "\\t"@,
            c => seq![c],
        })
    }
}

/// The text of a whole file: the module header, the imports, then the items
/// separated by blank lines.
pub open spec fn file_text(mode: PrintMode, f: SourceFile) -> Seq<char> {
    (match f.module {
        Some(m) => "module "@ + join(m.parts@.map_values(|p: String| p@), "."@) + "\n\n"@,
        None => Seq::empty(),
    }) + concat_all(f.imports@.map_values(|i: ImportDecl| "import \""@ + escaped(i.path@) + "\"\n"@))
        + (if f.imports@.len() > 0 && f.items@.len() > 0 { "\n"@ } else { Seq::empty() })
        + join(f.items@.map_values(|it: Item| item_text(mode, it)), "\n"@)
}


// ---------------------------------------------------------------------------
// Writing the text.

fn write_strings(out: &mut String, parts: &Vec<String>, sep: &str)
    ensures
        final(out)@ == old(out)@ + join(parts@.map_values(|p: String| p@), sep@),
{
    let ghost base = out@;
    let ghost views = parts@.map_values(|p: String| p@);
    let mut i: usize = 0;
    while i < parts.len()
        invariant
            i <= parts@.len(),
            views == parts@.map_values(|p: String| p@),
            out@ == base + join(views.take(i as int), sep@),
        decreases parts@.len() - i,
    {
        let ghost before = out@;
        if i > 0 {
            out.append(sep);
        }
        out.append(parts[i].as_str());
        proof {
            let t = views.take(i as int + 1);
            assert(t.drop_last() == views.take(i as int));
            assert(t.last() == parts@[i as int]@);
            if i == 0 {
                assert(join(t, sep@) == parts@[0]@);
                assert(out@ =~= base + join(t, sep@));
            } else {
                assert(out@ =~= base + join(t, sep@));
            }
        }
        i = i + 1;
    }
    assert(views.take(parts@.len() as int) == views);
}

fn write_bound(out: &mut String, b: &DomainBound)
    ensures
        final(out)@ == old(out)@ + bound_text(*b),
{
    match b {
        DomainBound::Int(i) => out.append(i64_text(*i).as_str()),
        DomainBound::Name(n) => out.append(n.as_str()),
    }
}

fn write_domain(out: &mut String, d: &Domain)
    ensures
        final(out)@ == old(out)@ + domain_text(*d),
{
    let ghost base = out@;
    match d {
        Domain::Bool => out.append("bool"),
        Domain::IntRange { start, end } => {
            write_bound(out, start);
            out.append("..");
            write_bound(out, end);
            assert(out@ =~= base + domain_text(*d));
        },
        Domain::Enum { variants } => {
            out.append("enum { ");
            write_strings(out, variants, ", ");
            out.append(" }");
            assert(out@ =~= base + domain_text(*d));
        },
        Domain::Named(n) => out.append(n.as_str()),
    }
}

fn write_target(out: &mut String, t: &UnchangedTarget)
    ensures
        final(out)@ == old(out)@ + target_text(*t),
{
    let ghost base = out@;
    out.append(t.name.as_str());
    if let Some(idx) = &t.except {
        out.append(" except ");
        out.append(idx.as_str());
    }
    assert(out@ =~= base + target_text(*t));
}

fn write_targets(out: &mut String, targets: &Vec<UnchangedTarget>)
    ensures
        final(out)@ == old(out)@ + join(targets@.map_values(|t: UnchangedTarget| target_text(t)), ", "@),
{
    let ghost base = out@;
    let ghost views = targets@.map_values(|t: UnchangedTarget| target_text(t));
    let mut i: usize = 0;
    while i < targets.len()
        invariant
            i <= targets@.len(),
            views == targets@.map_values(|t: UnchangedTarget| target_text(t)),
            out@ == base + join(views.take(i as int), ", "@),
        decreases targets@.len() - i,
    {
        if i > 0 {
            out.append(", ");
        }
        write_target(out, &targets[i]);
        proof {
            let t = views.take(i as int + 1);
            assert(t.drop_last() == views.take(i as int));
            assert(t.last() == target_text(targets@[i as int]));
            if i == 0 {
                assert(join(t, ", "@) == t[0]);
            }
            assert(out@ =~= base + join(t, ", "@));
        }
        i = i + 1;
    }
    assert(views.take(targets@.len() as int) == views);
}

impl Printer {
    /// The operator style of the printer.
    pub closed spec fn mode_of(&self) -> PrintMode {
        self.mode
    }

    pub fn new(mode: PrintMode) -> (r: Self)
        ensures
            r.mode_of() == mode,
    {
        Self { mode }
    }

    fn unary_op(&self, op: UnaryOp) -> (r: &'static str)
        ensures
            r == unary_op_text(self.mode, op),
    {
        match (self.mode, op) {
            (PrintMode::Keywords, UnaryOp::Not) => "not",
            (PrintMode::AsciiOperators, UnaryOp::Not) => "~",
            (PrintMode::UnicodeOperators, UnaryOp::Not) => "¬",
            (_, UnaryOp::Neg) => "-",
            (PrintMode::Keywords, UnaryOp::Always) => "always",
            (PrintMode::AsciiOperators, UnaryOp::Always) => "[]",
            (PrintMode::UnicodeOperators, UnaryOp::Always) => "□",
            (PrintMode::Keywords, UnaryOp::Eventually) => "eventually",
            (PrintMode::AsciiOperators, UnaryOp::Eventually) => "<>",
            (PrintMode::UnicodeOperators, UnaryOp::Eventually) => "◇",
            (PrintMode::Keywords, UnaryOp::Next) => "next",
            (PrintMode::AsciiOperators, UnaryOp::Next) => "()",
            (PrintMode::UnicodeOperators, UnaryOp::Next) => "◯",
        }
    }

    fn binary_op(&self, op: BinaryOp) -> (r: &'static str)
        ensures
            r == binary_op_text(self.mode, op),
    {
        match (self.mode, op) {
            (_, BinaryOp::Add) => "+",
            (_, BinaryOp::Sub) => "-",
            (_, BinaryOp::Mul) => "*",
            (_, BinaryOp::Div) => "/",
            (_, BinaryOp::Mod) => "mod",
            (_, BinaryOp::Eq) => "=",
            (PrintMode::UnicodeOperators, BinaryOp::Ne) => "≠",
            (_, BinaryOp::Ne) => "!=",
            (_, BinaryOp::Lt) => "<",
            (PrintMode::UnicodeOperators, BinaryOp::Le) => "≤",
            (_, BinaryOp::Le) => "<=",
            (_, BinaryOp::Gt) => ">",
            (PrintMode::UnicodeOperators, BinaryOp::Ge) => "≥",
            (_, BinaryOp::Ge) => ">=",
            (PrintMode::Keywords, BinaryOp::And) => "and",
            (PrintMode::AsciiOperators, BinaryOp::And) => "/\\",
            (PrintMode::UnicodeOperators, BinaryOp::And) => "∧",
            (PrintMode::Keywords, BinaryOp::Or) => "or",
            (PrintMode::AsciiOperators, BinaryOp::Or) => "\\/",
            (PrintMode::UnicodeOperators, BinaryOp::Or) => "∨",
            (PrintMode::UnicodeOperators, BinaryOp::Implies) => "→",
            (_, BinaryOp::Implies) => "->",
            (PrintMode::UnicodeOperators, BinaryOp::Iff) => "↔",
            (_, BinaryOp::Iff) => "<->",
            (PrintMode::Keywords, BinaryOp::Until) => "until",
            (PrintMode::AsciiOperators, BinaryOp::Until) => "U",
            (PrintMode::UnicodeOperators, BinaryOp::Until) => "𝒰",
        }
    }

    fn type_separator(&self) -> (r: &'static str)
        ensures
            r == separator_text(self.mode),
    {
        match self.mode {
            PrintMode::Keywords | PrintMode::AsciiOperators => ":",
            PrintMode::UnicodeOperators => "∈",
        }
    }

    fn quant_op(&self, kind: QuantKind) -> (r: &'static str)
        ensures
            r == quant_text(self.mode, kind),
    {
        match (self.mode, kind) {
            (PrintMode::UnicodeOperators, QuantKind::Forall) => "∀",
            (_, QuantKind::Forall) => "forall",
            (PrintMode::UnicodeOperators, QuantKind::Exists) => "∃",
            (_, QuantKind::Exists) => "exists",
        }
    }

    /// Renders an expression as a top-level formula.
    pub fn print_expr(&self, expr: &Expr) -> (r: String)
        ensures
            r@ == expr_text(self.mode_of(), *expr, 0, Side::Top),
    {
        let mut out = String::new();
        self.print_expr_at(&mut out, expr, 0, Side::Top);
        assert(out@ =~= expr_text(self.mode, *expr, 0, Side::Top));
        out
    }

    fn print_expr_at(&self, out: &mut String, expr: &Expr, parent_prec: u8, side: Side)
        ensures
            final(out)@ == old(out)@ + expr_text(self.mode, *expr, parent_prec, side),
        decreases expr, 1nat,
    {
        let ghost base = out@;
        if parens_needed(expr, parent_prec, side) {
            out.append("(");
            self.render(out, expr);
            out.append(")");
            assert(out@ =~= base + expr_text(self.mode, *expr, parent_prec, side));
        } else {
            self.render(out, expr);
        }
    }

    fn render(&self, out: &mut String, expr: &Expr)
        ensures
            final(out)@ == old(out)@ + rendered_text(self.mode, *expr),
        decreases expr, 0nat,
    {
        let ghost base = out@;
        let own = precedence_of(expr);
        match expr {
            Expr::Bool(value) => {
                if *value {
                    out.append("true");
                } else {
                    out.append("false");
                }
            },
            Expr::Int(value) => out.append(i64_text(*value).as_str()),
            Expr::Name(name) => out.append(name.as_str()),
            Expr::PrimedName(name) => {
                out.append(name.as_str());
                out.append("'");
                assert(out@ =~= base + rendered_text(self.mode, *expr));
            },
            Expr::Indexed { name, index, primed } => {
                out.append(name.as_str());
                out.append("[");
                self.print_expr_at(out, index, 0, Side::Top);
                out.append("]");
                if *primed {
                    out.append("'");
                }
                assert(out@ =~= base + rendered_text(self.mode, *expr));
            },
            Expr::Unchanged(targets) => {
                out.append("unchanged(");
                write_targets(out, targets);
                out.append(")");
                assert(out@ =~= base + rendered_text(self.mode, *expr));
            },
            Expr::Quantifier { kind, var, domain, body } => {
                out.append(self.quant_op(*kind));
                out.append(" ");
                out.append(var.as_str());
                out.append(" ");
                out.append(self.type_separator());
                out.append(" ");
                write_domain(out, domain);
                out.append(": ");
                self.print_expr_at(out, body, own, Side::Right);
                assert(out@ =~= base + rendered_text(self.mode, *expr));
            },
            Expr::Unary { op, expr: inner } => {
                out.append(self.unary_op(*op));
                out.append(" ");
                self.print_expr_at(out, inner, own, Side::Right);
                assert(out@ =~= base + rendered_text(self.mode, *expr));
            },
            Expr::Binary { op, lhs, rhs } => {
                self.print_expr_at(out, lhs, own, Side::Left);
                out.append(" ");
                out.append(self.binary_op(*op));
                out.append(" ");
                self.print_expr_at(out, rhs, own, Side::Right);
                assert(out@ =~= base + rendered_text(self.mode, *expr));
            },
        }
    }
}

fn precedence_of(e: &Expr) -> (r: u8)
    ensures
        r == precedence(*e),
{
    match e {
        Expr::Binary { op, .. } => match op {
            BinaryOp::Iff => 1,
            BinaryOp::Implies => 2,
            BinaryOp::Until => 3,
            BinaryOp::Or => 4,
            BinaryOp::And => 5,
            BinaryOp::Eq | BinaryOp::Ne | BinaryOp::Lt | BinaryOp::Le | BinaryOp::Gt | BinaryOp::Ge => 6,
            BinaryOp::Add | BinaryOp::Sub => 7,
            BinaryOp::Mul | BinaryOp::Div | BinaryOp::Mod => 8,
        },
        Expr::Quantifier { .. } => 0,
        Expr::Unary { .. } => 9,
        _ => 10,
    }
}

fn parens_needed(e: &Expr, parent_prec: u8, side: Side) -> (r: bool)
    ensures
        r == needs_parens(*e, parent_prec, side),
{
    let own = precedence_of(e);
    if own < parent_prec {
        return true;
    }
    if own != parent_prec {
        return false;
    }
    match (e, side) {
        (Expr::Binary { op, .. }, Side::Left) => match op {
            BinaryOp::Implies | BinaryOp::Until | BinaryOp::Eq | BinaryOp::Ne | BinaryOp::Lt | BinaryOp::Le
            | BinaryOp::Gt | BinaryOp::Ge => true,
            _ => false,
        },
        (Expr::Binary { op, .. }, Side::Right) => match op {
            BinaryOp::Sub | BinaryOp::Div | BinaryOp::Mod | BinaryOp::Eq | BinaryOp::Ne | BinaryOp::Lt
            | BinaryOp::Le | BinaryOp::Gt | BinaryOp::Ge => true,
            _ => false,
        },
        _ => false,
    }
}


fn write_escaped(out: &mut String, text: &String)
    ensures
        final(out)@ == old(out)@ + escaped(text@),
{
    let ghost base = out@;
    let chars = chars_of(text.as_str());
    let mut i: usize = 0;
    while i < chars.len()
        invariant
            i <= chars@.len(),
            chars@ == text@,
            out@ == base + escaped(chars@.take(i as int)),
        decreases chars@.len() - i,
    {
        let c = chars[i];
        if c == '\\' {
            out.append("\\\\");
        } else if c == '"' {
            out.append("\\\"");
        } else if c == '\n' {
            out.append("\\n");
        } else if c == '\r' {
            out.append("\\r");
        } else if c == '\t' {
            out.append("\\t");
        } else {
            out.push(c);
        }
        proof {
            let t = chars@.take(i as int + 1);
            assert(t.drop_last() == chars@.take(i as int));
            assert(t.last() == c);
            assert(out@ =~= base + escaped(t));
        }
        i = i + 1;
    }
    assert(chars@.take(chars@.len() as int) == chars@);
}

fn write_fairness_lines(out: &mut String, cs: &Vec<FairnessConstraint>)
    ensures
        final(out)@ == old(out)@ + concat_all(cs@.map_values(|c: FairnessConstraint| fairness_line(c))),
{
    let ghost base = out@;
    let ghost views = cs@.map_values(|c: FairnessConstraint| fairness_line(c));
    let mut i: usize = 0;
    while i < cs.len()
        invariant
            i <= cs@.len(),
            views == cs@.map_values(|c: FairnessConstraint| fairness_line(c)),
            out@ == base + concat_all(views.take(i as int)),
        decreases cs@.len() - i,
    {
        let c = &cs[i];
        out.append("  ");
        match c.strength {
            FairnessStrength::Weak => out.append("weak"),
            FairnessStrength::Strong => out.append("strong"),
        }
        out.append(" ");
        out.append(c.transition.as_str());
        out.append("\n");
        proof {
            let t = views.take(i as int + 1);
            assert(t.drop_last() == views.take(i as int));
            assert(t.last() == fairness_line(cs@[i as int]));
            assert(out@ =~= base + concat_all(t));
        }
        i = i + 1;
    }
    assert(views.take(cs@.len() as int) == views);
}

impl Printer {
    fn write_params(&self, out: &mut String, params: &Vec<TransitionParam>)
        ensures
            final(out)@ == old(out)@ + join(params@.map_values(|p: TransitionParam| param_text(self.mode, p)), ", "@),
    {
        let ghost base = out@;
        let ghost views = params@.map_values(|p: TransitionParam| param_text(self.mode, p));
        let mut i: usize = 0;
        while i < params.len()
            invariant
                i <= params@.len(),
                views == params@.map_values(|p: TransitionParam| param_text(self.mode, p)),
                out@ == base + join(views.take(i as int), ", "@),
            decreases params@.len() - i,
        {
            let ghost before = out@;
            if i > 0 {
                out.append(", ");
            }
            let ghost mid = out@;
            let p = &params[i];
            out.append(p.name.as_str());
            out.append(" ");
            out.append(self.type_separator());
            out.append(" ");
            write_domain(out, &p.domain);
            proof {
                assert(out@ =~= mid + param_text(self.mode, params@[i as int]));
                let t = views.take(i as int + 1);
                assert(t.drop_last() == views.take(i as int));
                assert(t.last() == param_text(self.mode, params@[i as int]));
                if i == 0 {
                    assert(join(t, ", "@) == t[0]);
                }
                assert(out@ =~= base + join(t, ", "@));
            }
            i = i + 1;
        }
        assert(views.take(params@.len() as int) == views);
    }

    #[verifier::rlimit(40)]
    fn print_item(&self, out: &mut String, item: &Item)
        ensures
            final(out)@ == old(out)@ + item_text(self.mode, *item),
    {
        let ghost base = out@;
        match item {
            Item::TypeDecl(decl) => {
                out.append("type ");
                out.append(decl.name.as_str());
                out.append(" = ");
                write_domain(out, &decl.domain);
                out.append("\n");
            },
            Item::Const(decl) => {
                out.append("const ");
                out.append(decl.name.as_str());
                out.append(" = ");
                self.print_expr_at(out, &decl.expr, 0, Side::Top);
                out.append("\n");
            },
            Item::Var(decl) => {
                out.append("let ");
                out.append(decl.name.as_str());
                let ghost mid = out@;
                if let Some(index) = &decl.index {
                    out.append("[");
                    out.append(index.name.as_str());
                    out.append(" ");
                    out.append(self.type_separator());
                    out.append(" ");
                    write_domain(out, &index.domain);
                    out.append("]");
                }
                let ghost mid2 = out@;
                out.append(" ");
                out.append(self.type_separator());
                out.append(" ");
                write_domain(out, &decl.domain);
                out.append("\n");
                proof {
                    assert(mid2 =~= mid + index_text(self.mode, decl.index));
                }
            },
            Item::Init(block) => {
                out.append("init {\n  ");
                self.print_expr_at(out, &block.expr, 0, Side::Top);
                out.append("\n}\n");
            },
            Item::Transition(block) => {
                out.append("transition ");
                out.append(block.name.as_str());
                let ghost mid = out@;
                if block.params.len() > 0 {
                    out.append("(");
                    self.write_params(out, &block.params);
                    out.append(")");
                }
                let ghost mid2 = out@;
                out.append(" {\n  ");
                self.print_expr_at(out, &block.expr, 0, Side::Top);
                out.append("\n}\n");
                proof {
                    assert(mid2 =~= mid + params_text(self.mode, block.params@));
                }
            },
            Item::Property(block) => {
                match block.kind {
                    PropertyKind::Property => out.append("property"),
                    PropertyKind::Invalid => out.append("invalid"),
                }
                out.append(" ");
                out.append(block.name.as_str());
                out.append(" {\n  ");
                self.print_expr_at(out, &block.expr, 0, Side::Top);
                out.append("\n}\n");
            },
            Item::Fairness(decl) => {
                out.append("fairness {\n");
                write_fairness_lines(out, &decl.constraints);
                out.append("}\n");
            },
        }
        assert(out@ =~= base + item_text(self.mode, *item));
    }

    /// Renders a whole file: module header, imports, then the items
    /// separated by blank lines.
    pub fn print_source_file(&self, file: &SourceFile) -> (r: String)
        ensures
            r@ == file_text(self.mode_of(), *file),
    {
        let mut out = String::new();
        if let Some(module) = &file.module {
            out.append("module ");
            write_strings(&mut out, &module.parts, ".");
            out.append("\n\n");
        }
        let ghost head = out@;
        let ghost views = file.imports@.map_values(|i: ImportDecl| "import \""@ + escaped(i.path@) + "\"\n"@);
        let mut i: usize = 0;
        while i < file.imports.len()
            invariant
                i <= file.imports@.len(),
                views == file.imports@.map_values(|i: ImportDecl| "import \""@ + escaped(i.path@) + "\"\n"@),
                out@ == head + concat_all(views.take(i as int)),
            decreases file.imports@.len() - i,
        {
            out.append("import \"");
            write_escaped(&mut out, &file.imports[i].path);
            out.append("\"\n");
            proof {
                let t = views.take(i as int + 1);
                assert(t.drop_last() == views.take(i as int));
                assert(out@ =~= head + concat_all(t));
            }
            i = i + 1;
        }
        assert(views.take(file.imports@.len() as int) == views);
        if file.imports.len() > 0 && file.items.len() > 0 {
            out.append("\n");
        }
        let ghost mid = out@;
        let ghost items = file.items@.map_values(|it: Item| item_text(self.mode, it));
        let mut k: usize = 0;
        while k < file.items.len()
            invariant
                k <= file.items@.len(),
                items == file.items@.map_values(|it: Item| item_text(self.mode, it)),
                out@ == mid + join(items.take(k as int), "\n"@),
            decreases file.items@.len() - k,
        {
            if k > 0 {
                out.append("\n");
            }
            self.print_item(&mut out, &file.items[k]);
            proof {
                let t = items.take(k as int + 1);
                assert(t.drop_last() == items.take(k as int));
                assert(t.last() == item_text(self.mode, file.items@[k as int]));
                if k == 0 {
                    assert(join(t, "\n"@) == t[0]);
                }
                assert(out@ =~= mid + join(t, "\n"@));
            }
            k = k + 1;
        }
        assert(items.take(file.items@.len() as int) == items);
        assert(out@ =~= file_text(self.mode, *file));
        out
    }
}

} // verus!
