//! The human-readable report of a check: a header line, one line per
//! property with its note and, on request, its counterexample, and on request
//! the reachable graph.

use vstd::prelude::*;

use crate::checker::ltl::{CheckReport, CheckStatus, Counterexample, PropertyResult};
use crate::diagnostics::{nat_digits, usize_text};
use crate::model::graph::{total_edges, ModelGraph};
use crate::model::state::{value_text, Value};
use crate::syntax::ast::PropertyKind;
use crate::syntax::printer::join;

verus! {

/// The pieces joined one after another.
pub open spec fn concat_all(ls: Seq<Seq<char>>) -> Seq<char>
    decreases ls.len(),
{
    if ls.len() == 0 {
        Seq::empty()
    } else {
        concat_all(ls.drop_last()) + ls.last()
    }
}

/// `name = value` for the `i`-th variable.
pub open spec fn pair_text(names: Seq<String>, values: Seq<Value>, i: int) -> Seq<char> {
    names[i]@ + " = "@ + value_text(values[i])
}

/// The variables paired with their values, as far as both lists go,
/// separated by `, `.
pub open spec fn state_text(names: Seq<String>, values: Seq<Value>) -> Seq<char> {
    let n = if names.len() < values.len() { names.len() } else { values.len() };
    join(Seq::new(n, |i: int| pair_text(names, values, i)), ", "@)
}

pub open spec fn status_word(s: CheckStatus) -> Seq<char> {
    match s {
        CheckStatus::Pass => "PASS"@,
        CheckStatus::Fail => "FAIL"@,
        CheckStatus::Skipped => "SKIP"@,
    }
}

pub open spec fn header_word(s: CheckStatus) -> Seq<char> {
    match s {
        CheckStatus::Pass => "OK"@,
        CheckStatus::Fail => "FAIL"@,
        CheckStatus::Skipped => "SKIP"@,
    }
}

pub open spec fn kind_word(k: PropertyKind) -> Seq<char> {
    match k {
        PropertyKind::Property => "property"@,
        PropertyKind::Invalid => "invalid"@,
    }
}

/// The line of the `i`-th state of a counterexample.
pub open spec fn trace_line(names: Seq<String>, c: Counterexample, i: int) -> Seq<char> {
    "  s"@ + nat_digits(i as nat) + ": "@ + state_text(names, c.states@[i].values@) + "\n"@
}

pub open spec fn counterexample_text(names: Seq<String>, c: Counterexample) -> Seq<char> {
    "counterexample:\n"@ + concat_all(Seq::new(c.states@.len(), |i: int| trace_line(names, c, i)))
        + match c.cycle_start {
            Some(k) => "  cycle starts at s"@ + nat_digits(k as nat) + "\n"@,
            None => Seq::empty(),
        }
}

/// The lines of one property: status, kind and name; its note; and, when
/// traces are shown, its counterexample.
pub open spec fn property_text(names: Seq<String>, p: PropertyResult, show_trace: bool) -> Seq<char> {
    status_word(p.status) + " "@ + kind_word(p.kind) + " "@ + p.name@ + "\n"@
        + match p.note {
            Some(n) => "  note: "@ + n@ + "\n"@,
            None => Seq::empty(),
        }
        + if show_trace && p.counterexample is Some {
            counterexample_text(names, p.counterexample->Some_0)
        } else {
            Seq::empty()
        }
}

/// `s<k>` for the `j`-th successor.
pub open spec fn successor_text(s: Seq<usize>, j: int) -> Seq<char> {
    "s"@ + nat_digits(s[j] as nat)
}

/// The line of the `i`-th state of the graph: its values and successors.
pub open spec fn graph_line(g: ModelGraph, i: int) -> Seq<char> {
    let succ = g.edges@[i]@;
    "  s"@ + nat_digits(i as nat) + ": "@ + state_text(g.variables@, g.states@[i].values@) + " -> ["@
        + join(Seq::new(succ.len(), |j: int| successor_text(succ, j)), ", "@) + "]\n"@
}

pub open spec fn graph_text(g: ModelGraph) -> Seq<char> {
    "reachable graph:\n"@ + concat_all(Seq::new(g.states@.len(), |i: int| graph_line(g, i)))
}

pub open spec fn header_text(files: usize, items: usize, graph: Option<&ModelGraph>, status: CheckStatus) -> Seq<char> {
    header_word(status) + " loaded "@ + nat_digits(files as nat) + " file(s), typechecked "@ + nat_digits(items as nat)
        + " item(s), "@ + match graph {
            Some(g) => "built "@ + nat_digits(g.states@.len()) + " reachable state(s) and "@
                + nat_digits(total_edges(g.edges@)) + " transition edge(s)\n"@,
            None => "engine=bmc\n"@,
        }
}

/// The whole human-readable report.
pub open spec fn human_report_spec(
    files: usize,
    items: usize,
    graph: Option<&ModelGraph>,
    names: Seq<String>,
    report: CheckReport,
    show_trace: bool,
    dump_graph: bool,
) -> Seq<char> {
    header_text(files, items, graph, report.status)
        + concat_all(Seq::new(report.properties@.len(), |i: int| property_text(names, report.properties@[i], show_trace)))
        + if dump_graph && graph is Some {
            graph_text(*graph->Some_0)
        } else {
            Seq::empty()
        }
}

proof fn lemma_concat_step(ls: Seq<Seq<char>>, i: int)
    requires
        0 <= i < ls.len(),
    ensures
        concat_all(ls.take(i + 1)) == concat_all(ls.take(i)) + ls[i],
{
    assert(ls.take(i + 1).drop_last() =~= ls.take(i));
}

proof fn lemma_join_step(ls: Seq<Seq<char>>, i: int, sep: Seq<char>)
    requires
        0 <= i < ls.len(),
    ensures
        join(ls.take(i + 1), sep) == if i == 0 { ls[0] } else { join(ls.take(i), sep) + sep + ls[i] },
{
    assert(ls.take(i + 1).drop_last() =~= ls.take(i));
    if i == 0 {
        assert(ls.take(1)[0] == ls[0]);
    }
}

fn write_state(out: &mut String, names: &Vec<String>, values: &Vec<Value>)
    ensures
        final(out)@ == old(out)@ + state_text(names@, values@),
{
    let ghost base = out@;
    let n: usize = if names.len() < values.len() { names.len() } else { values.len() };
    let ghost parts = Seq::new(n as nat, |i: int| pair_text(names@, values@, i));
    let mut i: usize = 0;
    while i < n
        invariant
            i <= n,
            n <= names@.len(),
            n <= values@.len(),
            parts == Seq::new(n as nat, |i: int| pair_text(names@, values@, i)),
            out@ == base + join(parts.take(i as int), ", "@),
        decreases n - i,
    {
        if i > 0 {
            out.append(", ");
        }
        out.append(names[i].as_str());
        out.append(" = ");
        let text = values[i].to_string();
        out.append(text.as_str());
        proof {
            lemma_join_step(parts, i as int, ", "@);
            assert(out@ =~= base + join(parts.take(i + 1), ", "@));
        }
        i = i + 1;
    }
    proof {
        assert(parts.take(n as int) =~= parts);
    }
}

fn write_counterexample(out: &mut String, names: &Vec<String>, c: &Counterexample)
    ensures
        final(out)@ == old(out)@ + counterexample_text(names@, *c),
{
    let ghost base = out@;
    out.append("counterexample:\n");
    let ghost lines = Seq::new(c.states@.len(), |i: int| trace_line(names@, *c, i));
    let mut i: usize = 0;
    while i < c.states.len()
        invariant
            i <= c.states@.len(),
            lines == Seq::new(c.states@.len(), |i: int| trace_line(names@, *c, i)),
            out@ == base + "counterexample:\n"@ + concat_all(lines.take(i as int)),
        decreases c.states@.len() - i,
    {
        out.append("  s");
        let idx = usize_text(i);
        out.append(idx.as_str());
        out.append(": ");
        write_state(out, names, &c.states[i].values);
        out.append("\n");
        proof {
            lemma_concat_step(lines, i as int);
            assert(out@ =~= base + "counterexample:\n"@ + concat_all(lines.take(i + 1)));
        }
        i = i + 1;
    }
    proof {
        assert(lines.take(c.states@.len() as int) =~= lines);
    }
    let ghost mid = out@;
    if let Some(k) = c.cycle_start {
        out.append("  cycle starts at s");
        let t = usize_text(k);
        out.append(t.as_str());
        out.append("\n");
        assert(out@ =~= mid + ("  cycle starts at s"@ + nat_digits(k as nat) + "\n"@));
    } else {
        assert(out@ =~= mid + Seq::<char>::empty());
    }
    assert(out@ =~= base + counterexample_text(names@, *c));
}

fn write_property(out: &mut String, names: &Vec<String>, p: &PropertyResult, show_trace: bool)
    ensures
        final(out)@ == old(out)@ + property_text(names@, *p, show_trace),
{
    let ghost base = out@;
    match p.status {
        CheckStatus::Pass => out.append("PASS"),
        CheckStatus::Fail => out.append("FAIL"),
        CheckStatus::Skipped => out.append("SKIP"),
    }
    out.append(" ");
    match p.kind {
        PropertyKind::Property => out.append("property"),
        PropertyKind::Invalid => out.append("invalid"),
    }
    out.append(" ");
    out.append(p.name.as_str());
    out.append("\n");
    let ghost first = out@;
    assert(first =~= base + (status_word(p.status) + " "@ + kind_word(p.kind) + " "@ + p.name@ + "\n"@));
    if let Some(note) = &p.note {
        out.append("  note: ");
        out.append(note.as_str());
        out.append("\n");
    }
    let ghost second = out@;
    assert(second =~= first + match p.note {
        Some(n) => "  note: "@ + n@ + "\n"@,
        None => Seq::<char>::empty(),
    });
    if show_trace {
        if let Some(c) = &p.counterexample {
            write_counterexample(out, names, c);
        }
    }
    assert(out@ =~= base + property_text(names@, *p, show_trace));
}

fn write_successors(out: &mut String, succ: &Vec<usize>)
    ensures
        final(out)@ == old(out)@ + join(Seq::new(succ@.len(), |j: int| successor_text(succ@, j)), ", "@),
{
    let ghost base = out@;
    let ghost parts = Seq::new(succ@.len(), |j: int| successor_text(succ@, j));
    let mut j: usize = 0;
    while j < succ.len()
        invariant
            j <= succ@.len(),
            parts == Seq::new(succ@.len(), |j: int| successor_text(succ@, j)),
            out@ == base + join(parts.take(j as int), ", "@),
        decreases succ@.len() - j,
    {
        if j > 0 {
            out.append(", ");
        }
        out.append("s");
        let t = usize_text(succ[j]);
        out.append(t.as_str());
        proof {
            lemma_join_step(parts, j as int, ", "@);
            assert(out@ =~= base + join(parts.take(j + 1), ", "@));
        }
        j = j + 1;
    }
    proof {
        assert(parts.take(succ@.len() as int) =~= parts);
    }
}

fn write_graph(out: &mut String, g: &ModelGraph)
    requires
        g.states@.len() <= g.edges@.len(),
    ensures
        final(out)@ == old(out)@ + graph_text(*g),
{
    let ghost base = out@;
    out.append("reachable graph:\n");
    let ghost lines = Seq::new(g.states@.len(), |i: int| graph_line(*g, i));
    let mut i: usize = 0;
    while i < g.states.len()
        invariant
            i <= g.states@.len(),
            g.states@.len() <= g.edges@.len(),
            lines == Seq::new(g.states@.len(), |i: int| graph_line(*g, i)),
            out@ == base + "reachable graph:\n"@ + concat_all(lines.take(i as int)),
        decreases g.states@.len() - i,
    {
        let ghost before = out@;
        out.append("  s");
        let t = usize_text(i);
        out.append(t.as_str());
        out.append(": ");
        write_state(out, &g.variables, &g.states[i].values);
        out.append(" -> [");
        write_successors(out, &g.edges[i]);
        out.append("]\n");
        proof {
            assert(out@ =~= before + graph_line(*g, i as int));
            lemma_concat_step(lines, i as int);
            assert(out@ =~= base + "reachable graph:\n"@ + concat_all(lines.take(i + 1)));
        }
        i = i + 1;
    }
    proof {
        assert(lines.take(g.states@.len() as int) =~= lines);
    }
}

/// The human-readable report of a check of `files` files holding `items`
/// items, with the graph the explicit engine built (none for the bounded
/// engine); `names` are the state variables, in order.
pub fn human_report_text(
    files: usize,
    items: usize,
    graph: Option<&ModelGraph>,
    names: &Vec<String>,
    report: &CheckReport,
    show_trace: bool,
    dump_graph: bool,
) -> (r: String)
    requires
        graph matches Some(g) ==> total_edges(g.edges@) <= usize::MAX && g.states@.len() <= g.edges@.len(),
    ensures
        r@ == human_report_spec(files, items, graph, names@, *report, show_trace, dump_graph),
{
    let mut out = String::new();
    match report.status {
        CheckStatus::Pass => out.append("OK"),
        CheckStatus::Fail => out.append("FAIL"),
        CheckStatus::Skipped => out.append("SKIP"),
    }
    out.append(" loaded ");
    let t = usize_text(files);
    out.append(t.as_str());
    out.append(" file(s), typechecked ");
    let t = usize_text(items);
    out.append(t.as_str());
    out.append(" item(s), ");
    match graph {
        Some(g) => {
            out.append("built ");
            let t = usize_text(g.states.len());
            out.append(t.as_str());
            out.append(" reachable state(s) and ");
            let t = usize_text(g.edge_count());
            out.append(t.as_str());
            out.append(" transition edge(s)\n");
        },
        None => out.append("engine=bmc\n"),
    }
    let ghost head = out@;
    assert(head =~= header_text(files, items, graph, report.status));
    let ghost lines = Seq::new(report.properties@.len(), |i: int| property_text(names@, report.properties@[i], show_trace));
    let mut i: usize = 0;
    while i < report.properties.len()
        invariant
            i <= report.properties@.len(),
            lines == Seq::new(report.properties@.len(), |i: int| property_text(names@, report.properties@[i], show_trace)),
            out@ == head + concat_all(lines.take(i as int)),
        decreases report.properties@.len() - i,
    {
        write_property(&mut out, names, &report.properties[i], show_trace);
        proof {
            lemma_concat_step(lines, i as int);
            assert(out@ =~= head + concat_all(lines.take(i + 1)));
        }
        i = i + 1;
    }
    proof {
        assert(lines.take(report.properties@.len() as int) =~= lines);
    }
    let ghost body = out@;
    if dump_graph {
        if let Some(g) = graph {
            write_graph(&mut out, g);
        }
    }
    assert(out@ =~= body + if dump_graph && graph is Some {
        graph_text(*graph->Some_0)
    } else {
        Seq::<char>::empty()
    });
    out
}

} // verus!
