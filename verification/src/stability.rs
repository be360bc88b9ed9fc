//! Evaluating twice: when a second pass finds everything as the first pass
//! left it.

use crate::address::SimpleCellAddress;
use crate::address_mapping::AddressMappingView;
use crate::ast::Ast;
use crate::bundle::BundleView;
use crate::eval::{
    argument_cells, evaluate, evaluate_in_order, evaluate_vertex, lemma_pass_keeps_structure,
    operands,
};
use crate::graph::GraphView;
use crate::order::is_path;
use crate::rect::{lemma_gather_agree, number_reader};
use crate::value::CellValue;
use vstd::prelude::*;

verus! {

/// Whether the evaluation of `formula`, placed at `base`, may look at the
/// cell at `address`: the formula is a median, and the cell lies in one of
/// the ranges that it reduces.
pub open spec fn formula_reads(formula: Ast, base: SimpleCellAddress, address: SimpleCellAddress) -> bool {
    match formula {
        Ast::ProcedureAst { procedure_name, args } => procedure_name@ == "MEDIAN"@ && exists|
            k: int,
        |
            0 <= k < args@.len() && (#[trigger] argument_cells(args@[k], base)) is Ok
                && argument_cells(args@[k], base)->Ok_0.contains(address),
        _ => false,
    }
}

/// Whether the evaluation of `formula`, placed at `base`, may look at the
/// vertex `id`: the vertex stands at a cell that the formula reads.
pub open spec fn formula_reads_vertex(
    cells: AddressMappingView,
    formula: Ast,
    base: SimpleCellAddress,
    id: i32,
) -> bool {
    exists|address: SimpleCellAddress| #[trigger]
        formula_reads(formula, base, address) && cells.in_bounds(address) && cells.cell(address)
            == id
}

/// Whether no formula in `order` reads a formula cell that takes its turn
/// when the formula does, or later: every formula finds the formula cells
/// it reads evaluated.
pub open spec fn reads_come_first(graph: GraphView, cells: AddressMappingView, order: Seq<i32>) -> bool {
    forall|i: int, j: int|
        #![trigger order[i], order[j]]
        0 <= i <= j < order.len() && graph.contains(order[i]) && graph.contains(order[j])
            && graph.vertices[order[j]] is FormulaCell ==> match graph.vertices[order[i]].formula() {
            Some((formula, base)) => !formula_reads_vertex(cells, formula, base, order[j]),
            None => true,
        }
}

/// Whether every formula cell that a formula reads is tied to the formula's
/// own cell by a walk along the edges of the graph, as it is when the
/// dependencies of the formula were registered.
pub open spec fn reads_are_wired(graph: GraphView, cells: AddressMappingView) -> bool {
    forall|reader: i32, id: i32|
        #![trigger graph.vertices[reader], graph.vertices[id]]
        graph.contains(reader) && graph.contains(id) && graph.vertices[id] is FormulaCell
            ==> match graph.vertices[reader].formula() {
            Some((formula, base)) => formula_reads_vertex(cells, formula, base, id) ==> exists|
                p: Seq<i32>,
            | #[trigger]
                is_path(graph, p) && p.len() >= 2 && p.first() == id && p.last() == reader,
            None => true,
        }
}

/// All the vertices of a walk that ends at the `i`-th vertex of a
/// dependency order stand in the order before it, but for the last.
proof fn lemma_walk_stands_before(graph: GraphView, order: Seq<i32>, p: Seq<i32>, i: int, t: int)
    requires
        graph.is_dependency_order(order),
        is_path(graph, p),
        0 <= i < order.len(),
        p.last() == order[i],
        0 <= t < p.len() - 1,
    ensures
        exists|k: int| 0 <= k < i && order[k] == p[t],
    decreases p.len() - t,
{
    assert(graph.has_edge(p[t], p[t + 1]));
    if t + 1 == p.len() - 1 {
        assert(graph.has_edge(p[t], order[i]));
    } else {
        lemma_walk_stands_before(graph, order, p, i, t + 1);
        let next = choose|k: int| 0 <= k < i && order[k] == p[t + 1];
        assert(graph.has_edge(p[t], order[next]));
        let k = choose|k: int| 0 <= k < next && order[k] == p[t];
        assert(0 <= k < i && order[k] == p[t]);
    }
}

/// A dependency order of a graph in which the reads of every formula are
/// wired lets every formula find the formula cells it reads evaluated.
pub proof fn lemma_wired_reads_come_first(
    graph: GraphView,
    cells: AddressMappingView,
    order: Seq<i32>,
)
    requires
        graph.is_dependency_order(order),
        reads_are_wired(graph, cells),
    ensures
        reads_come_first(graph, cells, order),
{
    assert forall|i: int, j: int|
        #![trigger order[i], order[j]]
        0 <= i <= j < order.len() && graph.contains(order[i]) && graph.contains(order[j])
            && graph.vertices[order[j]] is FormulaCell implies match graph.vertices[order[i]].formula() {
        Some((formula, base)) => !formula_reads_vertex(cells, formula, base, order[j]),
        None => true,
    } by {
        if let Some((formula, base)) = graph.vertices[order[i]].formula() {
            if formula_reads_vertex(cells, formula, base, order[j]) {
                let reader = order[i];
                let id = order[j];
                assert(graph.vertices[reader].formula() == Some((formula, base))
                    && graph.vertices[id] is FormulaCell);
                let p = choose|p: Seq<i32>| #[trigger]
                    is_path(graph, p) && p.len() >= 2 && p.first() == id && p.last() == reader;
                lemma_walk_stands_before(graph, order, p, i, 0);
                let k = choose|k: int| 0 <= k < i && order[k] == p[0];
                assert(order[k] == order[j] && k != j);
            }
        }
    }
}

/// A formula evaluates to the same in two graphs that hold the same values
/// at the vertices that the formula reads.
pub proof fn lemma_evaluate_reads_only(
    graph: GraphView,
    other: GraphView,
    cells: AddressMappingView,
    formula: Ast,
    base: SimpleCellAddress,
)
    requires
        forall|id: i32|
            formula_reads_vertex(cells, formula, base, id) ==> graph.value_of(id) == other.value_of(
                id,
            ),
    ensures
        evaluate(graph, cells, formula, base) == evaluate(other, cells, formula, base),
{
    match formula {
        Ast::ProcedureAst { procedure_name, args } => {
            if procedure_name@ == "MEDIAN"@ {
                lemma_operands_read_only(
                    graph,
                    other,
                    cells,
                    formula,
                    args@,
                    base,
                    args@.len() as int,
                );
                assert(args@.take(args@.len() as int) =~= args@);
            }
        },
        _ => {},
    }
}

/// The operands of the first `upto` arguments are the same in two graphs
/// that hold the same values at the vertices that the formula reads.
proof fn lemma_operands_read_only(
    graph: GraphView,
    other: GraphView,
    cells: AddressMappingView,
    formula: Ast,
    args: Seq<Ast>,
    base: SimpleCellAddress,
    upto: int,
)
    requires
        formula matches Ast::ProcedureAst { procedure_name, args: list } && procedure_name@
            == "MEDIAN"@ && list@ == args,
        0 <= upto <= args.len(),
        forall|id: i32|
            formula_reads_vertex(cells, formula, base, id) ==> graph.value_of(id) == other.value_of(
                id,
            ),
    ensures
        operands(graph, cells, args.take(upto), base) == operands(
            other,
            cells,
            args.take(upto),
            base,
        ),
    decreases upto,
{
    if upto > 0 {
        lemma_operands_read_only(graph, other, cells, formula, args, base, upto - 1);
        assert(args.take(upto).drop_last() =~= args.take(upto - 1));
        assert(args.take(upto).last() == args[upto - 1]);
        if let Ok(addresses) = argument_cells(args[upto - 1], base) {
            let read = number_reader(graph, cells);
            let read_other = number_reader(other, cells);
            assert forall|k: int| 0 <= k < addresses.len() implies read(addresses[k])
                == read_other(addresses[k]) by {
                let address = addresses[k];
                assert(argument_cells(args[upto - 1], base)->Ok_0.contains(address));
                assert(formula_reads(formula, base, address));
                if cells.in_bounds(address) {
                    assert(formula_reads_vertex(cells, formula, base, cells.cell(address)));
                }
            }
            lemma_gather_agree(addresses, read, read_other);
        }
    }
}

/// Writing to a formula cell that no formula of a pass reads, and that the
/// pass does not evaluate, can as well be done after the pass.
proof fn lemma_pass_commutes(
    graph: GraphView,
    cells: AddressMappingView,
    order: Seq<i32>,
    x: i32,
    value: CellValue,
)
    requires
        graph.wf(),
        graph.contains(x),
        graph.vertices[x] is FormulaCell,
        !order.contains(x),
        forall|i: int|
            0 <= i < order.len() && graph.contains(#[trigger] order[i]) ==> match graph.vertices[order[i]].formula() {
                Some((formula, base)) => !formula_reads_vertex(cells, formula, base, x),
                None => true,
            },
    ensures
        evaluate_in_order(graph.set_value(x, value), cells, order) == (
            evaluate_in_order(graph, cells, order).0.set_value(x, value),
            evaluate_in_order(graph, cells, order).1,
        ),
    decreases order.len(),
{
    if order.len() > 0 {
        let front = order.drop_last();
        let y = order.last();
        assert forall|i: int|
            0 <= i < front.len() && graph.contains(#[trigger] front[i]) implies match graph.vertices[front[i]].formula() {
            Some((formula, base)) => !formula_reads_vertex(cells, formula, base, x),
            None => true,
        } by {
            assert(front[i] == order[i]);
        }
        assert(!front.contains(x)) by {
            if front.contains(x) {
                let i = choose|i: int| 0 <= i < front.len() && front[i] == x;
                assert(order[i] == x);
            }
        }
        lemma_pass_commutes(graph, cells, front, x, value);
        lemma_pass_keeps_structure(graph, cells, front);
        let before = evaluate_in_order(graph, cells, front);
        let h = before.0;
        let written = h.set_value(x, value);
        assert(order[order.len() - 1] == y);
        assert(y != x);
        if before.1 is Ok && h.contains(y) {
            assert(h.vertices[y].recomputed_from(graph.vertices[y]));
            assert(written.vertices[y] == h.vertices[y]);
            if let Some((formula, base)) = h.vertices[y].formula() {
                assert(graph.vertices[y].formula() == Some((formula, base)));
                assert forall|id: i32|
                    formula_reads_vertex(cells, formula, base, id) implies h.value_of(id)
                    == written.value_of(id) by {
                    assert(id != x);
                }
                lemma_evaluate_reads_only(h, written, cells, formula, base);
                if let Ok(found) = evaluate(h, cells, formula, base) {
                    assert(written.set_value(y, found) =~= h.set_value(y, found).set_value(
                        x,
                        value,
                    ));
                }
            }
        }
    }
}

/// A second pass over the same order, right after the first, changes
/// nothing and ends as the first did, provided that the order lists no
/// vertex twice and lets every formula find the formula cells it reads
/// evaluated.
pub proof fn lemma_second_pass_changes_nothing(
    graph: GraphView,
    cells: AddressMappingView,
    order: Seq<i32>,
)
    requires
        graph.wf(),
        order.no_duplicates(),
        reads_come_first(graph, cells, order),
    ensures
        evaluate_in_order(evaluate_in_order(graph, cells, order).0, cells, order)
            == evaluate_in_order(graph, cells, order),
    decreases order.len(),
{
    if order.len() > 0 {
        let front = order.drop_last();
        let x = order.last();
        let last = order.len() - 1;
        assert(order[last] == x);
        assert(front.no_duplicates()) by {
            assert forall|i: int, j: int|
                0 <= i < front.len() && 0 <= j < front.len() && i != j implies front[i]
                != front[j] by {
                assert(front[i] == order[i] && front[j] == order[j]);
            }
        }
        assert(reads_come_first(graph, cells, front)) by {
            assert forall|i: int, j: int|
                #![trigger front[i], front[j]]
                0 <= i <= j < front.len() && graph.contains(front[i]) && graph.contains(front[j])
                    && graph.vertices[front[j]] is FormulaCell implies match graph.vertices[front[i]].formula() {
                Some((formula, base)) => !formula_reads_vertex(cells, formula, base, front[j]),
                None => true,
            } by {
                assert(front[i] == order[i] && front[j] == order[j]);
            }
        }
        lemma_second_pass_changes_nothing(graph, cells, front);
        lemma_pass_keeps_structure(graph, cells, front);
        let before = evaluate_in_order(graph, cells, front);
        let h = before.0;
        if before.1 is Ok && h.contains(x) {
            assert(h.vertices[x].recomputed_from(graph.vertices[x]));
            if let Some((formula, base)) = h.vertices[x].formula() {
                assert(graph.vertices[x].formula() == Some((formula, base)));
                assert(graph.vertices[x] is FormulaCell);
                if let Ok(found) = evaluate(h, cells, formula, base) {
                    let after = h.set_value(x, found);
                    assert(!front.contains(x)) by {
                        if front.contains(x) {
                            let i = choose|i: int| 0 <= i < front.len() && front[i] == x;
                            assert(order[i] == x);
                        }
                    }
                    assert forall|i: int|
                        0 <= i < front.len() && h.contains(#[trigger] front[i]) implies match h.vertices[front[i]].formula() {
                        Some((f, b)) => !formula_reads_vertex(cells, f, b, x),
                        None => true,
                    } by {
                        assert(front[i] == order[i]);
                        assert(h.vertices[front[i]].recomputed_from(graph.vertices[front[i]]));
                        assert(0 <= i <= last < order.len());
                        assert(graph.contains(order[i]) && graph.contains(order[last]));
                    }
                    lemma_pass_commutes(h, cells, front, x, found);
                    assert(evaluate_in_order(after, cells, front) == (after, before.1));
                    assert forall|id: i32|
                        formula_reads_vertex(cells, formula, base, id) implies h.value_of(id)
                        == after.value_of(id) by {
                        assert(0 <= last <= last < order.len());
                        assert(graph.contains(order[last]));
                        assert(id != x);
                    }
                    lemma_evaluate_reads_only(h, after, cells, formula, base);
                    assert(after.set_value(x, found) =~= after);
                    assert(evaluate_vertex(after, cells, x) == (after, before.1));
                }
            }
        }
    }
}

/// Evaluating all formulas twice in a row, with no edit in between, leaves
/// every cached value as the first evaluation left it, and ends as the
/// first evaluation did. This holds of an engine whose order lets every
/// formula find the formula cells it reads evaluated, as a computed order
/// does when the dependencies of every formula were registered.
pub proof fn lemma_evaluate_all_twice(bundle: BundleView)
    requires
        bundle.wf(),
        match bundle.order {
            Some(order) => reads_come_first(bundle.graph, bundle.cells, order),
            None => true,
        },
    ensures
        bundle.evaluate_all().0.evaluate_all() == bundle.evaluate_all(),
{
    if let Some(order) = bundle.order {
        lemma_second_pass_changes_nothing(bundle.graph, bundle.cells, order);
    }
}

} // verus!
