//! What the bounded model checker reads from a file: the constants, each
//! enum variant with the name of its type, every state variable with its
//! domain written out, and the `init`, `transition` and `property` blocks.

use vstd::prelude::*;

use crate::bmc::encode::{ConstValue, DomainView, ResolvedDomain};
use crate::checker::ltl::property_blocks;
use crate::diagnostics::{concat_strs, i64_text, int_text, is_model_err, CaelumError, Result};
use crate::model::eval::{find_key, lookup};
use crate::model::graph::{bound_value, bound_value_of, collect_constants, declared_type, find_type, spec_constants, var_decls};
use crate::model::state::Value;
use crate::syntax::ast::{
    clone_strings, Domain, InitBlock, Item, PropertyBlock, SourceFile, TransitionBlock, VarDecl,
};

verus! {

pub struct BmcSpec<'a> {
    /// Each constant with its value, the latest declaration first.
    pub constants: Vec<(String, ConstValue)>,
    /// Each enum variant with its type, the latest declaration first.
    pub enum_variant_type: Vec<(String, String)>,
    pub variables: Vec<&'a VarDecl>,
    /// Each state variable with its domain, the latest declaration first.
    pub domains: Vec<(String, ResolvedDomain)>,
    pub init_blocks: Vec<&'a InitBlock>,
    pub transition_blocks: Vec<&'a TransitionBlock>,
    pub properties: Vec<&'a PropertyBlock>,
}

/// The integers `a, a + 1, ..., b`.
pub open spec fn int_values(a: i64, b: i64) -> Seq<i64> {
    Seq::new((b - a + 1) as nat, |k: int| (a + k) as i64)
}

/// The domain of state variable `var_name`, its values written out: an
/// enum written in place takes the variable's name as its type name, a
/// type name is followed through the file's `type` declarations (at most
/// `fuel` of them) and an enum reached that way keeps that name.
pub open spec fn bmc_domain(var_name: String, d: Domain, items: Seq<Item>, consts: Seq<(String, Value)>, fuel: nat) -> Option<DomainView>
    decreases fuel,
{
    match d {
        Domain::Bool => Some(DomainView::Bool),
        Domain::IntRange { start, end } => match (bound_value(start, consts), bound_value(end, consts)) {
            (Some(a), Some(b)) => if a <= b { Some(DomainView::Int(int_values(a, b))) } else { None },
            _ => None,
        },
        Domain::Enum { variants } => Some(DomainView::Enum(var_name, variants@)),
        Domain::Named(n) => if fuel == 0 {
            None
        } else {
            match declared_type(items, n@) {
                None => None,
                Some(Domain::Enum { variants }) => Some(DomainView::Enum(n, variants@)),
                Some(td) => bmc_domain(var_name, td, items, consts, (fuel - 1) as nat),
            }
        },
    }
}

/// Each of `variants` paired with the type name `ty`.
pub open spec fn with_type(variants: Seq<String>, ty: String) -> Seq<(String, String)> {
    variants.map_values(|v: String| (v, ty))
}

/// The enum variants with their types and the domains of the state
/// variables declared in `items` (a prefix of the file `all`), the latest
/// declaration first; `None` when a domain cannot be resolved.
pub open spec fn bmc_tables(items: Seq<Item>, all: Seq<Item>, consts: Seq<(String, Value)>) -> Option<(Seq<(String, String)>, Seq<(String, DomainView)>)>
    decreases items.len(),
{
    if items.len() == 0 {
        Some((Seq::empty(), Seq::empty()))
    } else {
        match bmc_tables(items.drop_last(), all, consts) {
            None => None,
            Some((evt, doms)) => match items.last() {
                Item::Var(decl) => match bmc_domain(decl.name, decl.domain, all, consts, all.len()) {
                    None => None,
                    Some(dv) => Some((
                        match dv {
                            DomainView::Enum(ty, variants) => with_type(variants, ty) + evt,
                            _ => evt,
                        },
                        seq![(decl.name, dv)] + doms,
                    )),
                },
                Item::TypeDecl(decl) => match decl.domain {
                    Domain::Enum { variants } => Some((with_type(variants@, decl.name) + evt, doms)),
                    _ => Some((evt, doms)),
                },
                _ => Some((evt, doms)),
            },
        }
    }
}

/// A constant's value as the encoder takes it: an enum variant with its
/// type, or with its own name when no type lists it.
pub open spec fn const_view(v: Value, evt: Seq<(String, String)>) -> ConstValue {
    match v {
        Value::Bool(b) => ConstValue::Bool(b),
        Value::Int(i) => ConstValue::Int(i),
        Value::Enum(variant) => ConstValue::Enum {
            enum_type: match lookup(evt, variant@) {
                Some(ty) => ty,
                None => variant,
            },
            variant,
        },
    }
}

pub open spec fn const_table(consts: Seq<(String, Value)>, evt: Seq<(String, String)>) -> Seq<(String, ConstValue)> {
    consts.map_values(|p: (String, Value)| (p.0, const_view(p.1, evt)))
}

pub open spec fn domain_table(doms: Seq<(String, ResolvedDomain)>) -> Seq<(String, DomainView)> {
    doms.map_values(|p: (String, ResolvedDomain)| (p.0, p.1@))
}

/// The `init` blocks of a file, in order.
pub open spec fn init_blocks_of(items: Seq<Item>) -> Seq<InitBlock>
    decreases items.len(),
{
    if items.len() == 0 {
        Seq::empty()
    } else {
        match items.last() {
            Item::Init(b) => init_blocks_of(items.drop_last()).push(b),
            _ => init_blocks_of(items.drop_last()),
        }
    }
}

/// The `transition` blocks of a file, in order.
pub open spec fn transition_blocks_of(items: Seq<Item>) -> Seq<TransitionBlock>
    decreases items.len(),
{
    if items.len() == 0 {
        Seq::empty()
    } else {
        match items.last() {
            Item::Transition(b) => transition_blocks_of(items.drop_last()).push(b),
            _ => transition_blocks_of(items.drop_last()),
        }
    }
}

/// The values a list of references points to.
pub open spec fn derefs<T>(s: Seq<&T>) -> Seq<T> {
    s.map_values(|x: &T| *x)
}

/// `s` is what the bounded model checker reads from `items`.
pub open spec fn prepared_from(items: Seq<Item>, s: BmcSpec) -> bool {
    let consts = spec_constants(items)->Some_0;
    let (evt, doms) = bmc_tables(items, items, consts)->Some_0;
    &&& spec_constants(items) is Some
    &&& bmc_tables(items, items, consts) is Some
    &&& s.constants@ == const_table(consts, evt)
    &&& s.enum_variant_type@ == evt
    &&& domain_table(s.domains@) == doms
    &&& derefs(s.variables@) == var_decls(items)
    &&& derefs(s.init_blocks@) == init_blocks_of(items)
    &&& derefs(s.transition_blocks@) == transition_blocks_of(items)
    &&& derefs(s.properties@) == property_blocks(items)
}

proof fn lemma_tables_none(items: Seq<Item>, consts: Seq<(String, Value)>, j: int)
    requires
        0 <= j <= items.len(),
        bmc_tables(items.take(j), items, consts) is None,
    ensures
        bmc_tables(items, items, consts) is None,
    decreases items.len() - j,
{
    if j < items.len() {
        assert(items.take(j + 1).drop_last() == items.take(j));
        lemma_tables_none(items, consts, j + 1);
    } else {
        assert(items.take(j) == items);
    }
}

fn range_values(var_name: &String, a: i64, b: i64) -> (r: Result<Vec<i64>>)
    ensures
        a <= b ==> (r matches Ok(v) && v@ == int_values(a, b)),
        a > b ==> (r matches Err(CaelumError::Model { message }) && message@ == "BMC: empty integer range for `"@
            + var_name@ + "`: "@ + int_text(a as int) + ".."@ + int_text(b as int)),
{
    if a > b {
        let ta = i64_text(a);
        let tb = i64_text(b);
        let parts = ["BMC: empty integer range for `", var_name.as_str(), "`: ", ta.as_str(), "..", tb.as_str()];
        let message = concat_strs(&parts);
        proof {
            reveal_with_fuel(crate::diagnostics::concat_views, 7);
            assert(parts@.drop_last().drop_last().drop_last().drop_last().drop_last().drop_last() =~= Seq::<&str>::empty());
        }
        return Err(CaelumError::Model { message });
    }
    let mut out: Vec<i64> = Vec::new();
    let mut v: i64 = a;
    loop
        invariant_except_break
            out@ =~= Seq::new((v - a) as nat, |k: int| (a + k) as i64),
        invariant
            a <= v <= b,
        ensures
            out@ =~= int_values(a, b),
        decreases b - v,
    {
        out.push(v);
        if v == b {
            break;
        }
        v = v + 1;
    }
    Ok(out)
}

/// The domain of state variable `var_name` with its values written out.
fn resolve_domain(var_name: &String, domain: &Domain, items: &Vec<Item>, consts: &Vec<(String, Value)>) -> (r: Result<ResolvedDomain>)
    ensures
        bmc_domain(*var_name, *domain, items@, consts@, items@.len()) matches Some(dv) ==> (r matches Ok(x) && x@ == dv),
        bmc_domain(*var_name, *domain, items@, consts@, items@.len()) is None ==> is_model_err(r),
{
    let mut current: &Domain = domain;
    let mut fuel: usize = items.len();
    loop
        invariant
            fuel <= items@.len(),
            bmc_domain(*var_name, *domain, items@, consts@, items@.len())
                == bmc_domain(*var_name, *current, items@, consts@, fuel as nat),
        decreases fuel,
    {
        match current {
            Domain::Bool => {
                return Ok(ResolvedDomain::Bool);
            },
            Domain::IntRange { start, end } => {
                let a = bound_value_of(start, consts)?;
                let b = bound_value_of(end, consts)?;
                let values = range_values(var_name, a, b)?;
                return Ok(ResolvedDomain::Int(values));
            },
            Domain::Enum { variants } => {
                return Ok(ResolvedDomain::Enum { enum_type: var_name.clone(), variants: clone_strings(variants) });
            },
            Domain::Named(n) => {
                if fuel == 0 {
                    return Err(CaelumError::Model {
                        message: concat_strs(&["BMC: the type of `", var_name.as_str(), "` is defined in a cycle"]),
                    });
                }
                match find_type(items, n) {
                    None => {
                        return Err(CaelumError::Model {
                            message: concat_strs(&[
                                "BMC: unknown type `", n.as_str(), "` for variable `", var_name.as_str(), "`",
                            ]),
                        });
                    },
                    Some(referenced) => {
                        if let Domain::Enum { variants } = referenced {
                            return Ok(ResolvedDomain::Enum { enum_type: n.clone(), variants: clone_strings(variants) });
                        }
                        current = referenced;
                        fuel = fuel - 1;
                    },
                }
            },
        }
    }
}

/// Puts each of `variants`, with the type `ty`, in front of `table`.
fn prepend_with_type(table: &mut Vec<(String, String)>, variants: &Vec<String>, ty: &String)
    ensures
        final(table)@ == with_type(variants@, *ty) + old(table)@,
{
    let mut out: Vec<(String, String)> = Vec::new();
    let mut i: usize = 0;
    while i < variants.len()
        invariant
            i <= variants@.len(),
            out@ =~= with_type(variants@.take(i as int), *ty),
        decreases variants@.len() - i,
    {
        out.push((variants[i].clone(), ty.clone()));
        i = i + 1;
    }
    assert(variants@.take(variants@.len() as int) == variants@);
    let ghost front = out@;
    let mut j: usize = 0;
    while j < table.len()
        invariant
            j <= table@.len(),
            out@ =~= front + table@.take(j as int),
        decreases table@.len() - j,
    {
        out.push((table[j].0.clone(), table[j].1.clone()));
        j = j + 1;
    }
    assert(table@.take(table@.len() as int) == table@);
    *table = out;
}

fn const_of(value: &Value, evt: &Vec<(String, String)>) -> (r: ConstValue)
    ensures
        r == const_view(*value, evt@),
{
    match value {
        Value::Bool(b) => ConstValue::Bool(*b),
        Value::Int(i) => ConstValue::Int(*i),
        Value::Enum(variant) => {
            let enum_type = match find_key(evt, variant) {
                Some(k) => evt[k].1.clone(),
                None => variant.clone(),
            };
            ConstValue::Enum { enum_type, variant: variant.clone() }
        },
    }
}

/// Resolves what the bounded model checker needs from a file.
pub fn prepare<'a>(file: &'a SourceFile) -> (r: Result<BmcSpec<'a>>)
    ensures
        r is Ok <==> spec_constants(file.items@) is Some
            && bmc_tables(file.items@, file.items@, spec_constants(file.items@)->Some_0) is Some,
        r matches Ok(s) ==> prepared_from(file.items@, s),
        r is Err ==> is_model_err(r),
{
    let constants_raw = collect_constants(file)?;
    let items = &file.items;
    let ghost consts = constants_raw@;
    assert(spec_constants(file.items@) == Some(consts));
    let mut domains: Vec<(String, ResolvedDomain)> = Vec::new();
    let mut variables: Vec<&VarDecl> = Vec::new();
    let mut evt: Vec<(String, String)> = Vec::new();
    let mut init_blocks: Vec<&InitBlock> = Vec::new();
    let mut transition_blocks: Vec<&TransitionBlock> = Vec::new();
    let mut properties: Vec<&PropertyBlock> = Vec::new();
    let mut i: usize = 0;
    while i < items.len()
        invariant
            items@ == file.items@,
            consts == constants_raw@,
            spec_constants(file.items@) == Some(consts),
            i <= items@.len(),
            bmc_tables(items@.take(i as int), items@, consts) == Some((evt@, domain_table(domains@))),
            derefs(variables@) == var_decls(items@.take(i as int)),
            derefs(init_blocks@) == init_blocks_of(items@.take(i as int)),
            derefs(transition_blocks@) == transition_blocks_of(items@.take(i as int)),
            derefs(properties@) == property_blocks(items@.take(i as int)),
        decreases items@.len() - i,
    {
        proof {
            assert(items@.take(i as int + 1).drop_last() == items@.take(i as int));
            assert(items@.take(i as int + 1).last() == items@[i as int]);
        }
        match &items[i] {
            Item::Var(decl) => {
                variables.push(decl);
                let resolved = match resolve_domain(&decl.name, &decl.domain, items, &constants_raw) {
                    Ok(d) => d,
                    Err(e) => {
                        proof {
                            lemma_tables_none(items@, consts, i as int + 1);
                        }
                        return Err(e);
                    },
                };
                if let ResolvedDomain::Enum { enum_type, variants } = &resolved {
                    prepend_with_type(&mut evt, variants, enum_type);
                }
                let ghost before = domains@;
                domains.insert(0, (decl.name.clone(), resolved));
                proof {
                    assert(domains@ == seq![(decl.name, resolved)] + before);
                    assert(domain_table(domains@) =~= seq![(decl.name, resolved@)] + domain_table(before));
                }
            },
            Item::TypeDecl(decl) => {
                if let Domain::Enum { variants } = &decl.domain {
                    prepend_with_type(&mut evt, variants, &decl.name);
                }
            },
            Item::Init(b) => {
                init_blocks.push(b);
            },
            Item::Transition(b) => {
                transition_blocks.push(b);
            },
            Item::Property(p) => {
                properties.push(p);
            },
            _ => {},
        }
        i = i + 1;
    }
    proof {
        assert(items@.take(items@.len() as int) == items@);
    }
    let mut constants: Vec<(String, ConstValue)> = Vec::new();
    let mut j: usize = 0;
    while j < constants_raw.len()
        invariant
            j <= constants_raw@.len(),
            constants@ =~= const_table(constants_raw@.take(j as int), evt@),
        decreases constants_raw@.len() - j,
    {
        let c = const_of(&constants_raw[j].1, &evt);
        constants.push((constants_raw[j].0.clone(), c));
        proof {
            assert(constants_raw@.take(j as int + 1) == constants_raw@.take(j as int).push(constants_raw@[j as int]));
        }
        j = j + 1;
    }
    proof {
        assert(constants_raw@.take(constants_raw@.len() as int) == constants_raw@);
    }
    Ok(BmcSpec { constants, enum_variant_type: evt, variables, domains, init_blocks, transition_blocks, properties })
}

} // verus!
