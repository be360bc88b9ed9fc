//! The evaluation of formulas against the grid.

use crate::address::{absolute_col, absolute_row, absolutizable, absolutize_address};
use crate::address::SimpleCellAddress;
use crate::address_mapping::{AddressMappingView, ArrayAddressMapping};
use crate::ast::Ast;
use crate::error::EngineError;
use crate::graph::{Graph, GraphView};
use crate::rect::{collect_numbers, collect_range, rows_cells};
use crate::value::CellValue;
use vstd::prelude::*;

verus! {

/// The cells that the argument `arg` of a reduction stands for in a formula
/// placed at `base`. Only ranges are accepted as arguments.
pub open spec fn argument_cells(arg: Ast, base: SimpleCellAddress) -> Result<
    Seq<SimpleCellAddress>,
    EngineError,
> {
    match arg {
        Ast::CellRangeAst { start, end } => if absolutizable(start, base) && absolutizable(
            end,
            base,
        ) {
            Ok(
                rows_cells(
                    absolute_col(start, base),
                    absolute_col(end, base),
                    absolute_row(start, base),
                    absolute_row(end, base),
                ),
            )
        } else {
            Err(EngineError::OutOfBounds)
        },
        _ => Err(EngineError::UnsupportedArgument),
    }
}

/// The numbers that a reduction over `args` works on: those of the first
/// argument, then those of the second, and so on. The first argument that
/// fails decides the error.
pub open spec fn operands(
    graph: GraphView,
    cells: AddressMappingView,
    args: Seq<Ast>,
    base: SimpleCellAddress,
) -> Result<Seq<i32>, EngineError>
    decreases args.len(),
{
    if args.len() == 0 {
        Ok(Seq::empty())
    } else {
        match operands(graph, cells, args.drop_last(), base) {
            Err(e) => Err(e),
            Ok(numbers) => match argument_cells(args.last(), base) {
                Err(e) => Err(e),
                Ok(addresses) => match collect_numbers(graph, cells, addresses) {
                    Err(e) => Err(e),
                    Ok(more) => Ok(numbers + more),
                },
            },
        }
    }
}

/// The numbers in ascending order.
pub open spec fn ascending(numbers: Seq<i32>) -> Seq<i32> {
    numbers.sort_by(|a: i32, b: i32| a <= b)
}

/// The element in the middle of the ascending arrangement of `numbers`; of
/// an even count, the upper one of the two in the middle.
pub open spec fn median_of(numbers: Seq<i32>) -> i32 {
    ascending(numbers)[numbers.len() as int / 2]
}

/// What a median over the operands `found` gives. No number at all leaves
/// nothing to pick from.
pub open spec fn median_value(found: Result<Seq<i32>, EngineError>) -> Result<
    CellValue,
    EngineError,
> {
    match found {
        Err(e) => Err(e),
        Ok(numbers) => if numbers.len() == 0 {
            Err(EngineError::UnsupportedArgument)
        } else {
            Ok(CellValue::Number(median_of(numbers)))
        },
    }
}

/// What the formula `formula`, placed at `base`, evaluates to.
pub open spec fn evaluate(
    graph: GraphView,
    cells: AddressMappingView,
    formula: Ast,
    base: SimpleCellAddress,
) -> Result<CellValue, EngineError> {
    match formula {
        Ast::NumberAst { value } => Ok(CellValue::Number(value)),
        Ast::CellRangeAst { .. } => Err(EngineError::UnsupportedOperation),
        Ast::ProcedureAst { procedure_name, args } => if procedure_name@ == "MEDIAN"@ {
            median_value(operands(graph, cells, args@, base))
        } else {
            Err(EngineError::UnknownFunction)
        },
    }
}

/// The graph after the vertex `id` took its turn in an evaluation pass, and
/// how the turn ended. A formula cell is evaluated and keeps the result;
/// every other vertex is passed over.
pub open spec fn evaluate_vertex(graph: GraphView, cells: AddressMappingView, id: i32) -> (
    GraphView,
    Result<(), EngineError>,
) {
    if !graph.contains(id) {
        (graph, Err(EngineError::UnknownVertex))
    } else {
        match graph.vertices[id].formula() {
            None => (graph, Ok(())),
            Some((formula, base)) => match evaluate(graph, cells, formula, base) {
                Ok(value) => (graph.set_value(id, value), Ok(())),
                Err(e) => (graph, Err(e)),
            },
        }
    }
}

/// The graph after an evaluation pass over `order`, and how the pass ended.
/// The pass stops at the first vertex that fails; what was computed before
/// it stays.
pub open spec fn evaluate_in_order(graph: GraphView, cells: AddressMappingView, order: Seq<i32>) -> (
    GraphView,
    Result<(), EngineError>,
)
    decreases order.len(),
{
    if order.len() == 0 {
        (graph, Ok(()))
    } else {
        let before = evaluate_in_order(graph, cells, order.drop_last());
        match before.1 {
            Err(_) => before,
            Ok(_) => evaluate_vertex(before.0, cells, order.last()),
        }
    }
}

/// An ascending permutation of `numbers` is their ascending arrangement.
pub proof fn lemma_ascending_is_unique(numbers: Seq<i32>, sorted: Seq<i32>)
    requires
        sorted.to_multiset() == numbers.to_multiset(),
        forall|i: int, j: int| 0 <= i < j < sorted.len() ==> sorted[i] <= sorted[j],
    ensures
        ascending(numbers) == sorted,
{
    let leq = |a: i32, b: i32| a <= b;
    assert(vstd::relations::total_ordering(leq));
    numbers.lemma_sort_by_ensures(leq);
    vstd::seq_lib::lemma_sorted_unique(ascending(numbers), sorted, leq);
}

/// Arguments that fail up to the `upto`-th fail as a whole, in the same way.
proof fn lemma_operands_error(
    graph: GraphView,
    cells: AddressMappingView,
    args: Seq<Ast>,
    base: SimpleCellAddress,
    upto: int,
)
    requires
        0 <= upto <= args.len(),
        operands(graph, cells, args.take(upto), base) is Err,
    ensures
        operands(graph, cells, args, base) == operands(graph, cells, args.take(upto), base),
    decreases args.len() - upto,
{
    if upto < args.len() {
        assert(args.take(upto + 1).drop_last() =~= args.take(upto));
        lemma_operands_error(graph, cells, args, base, upto + 1);
    } else {
        assert(args.take(upto) =~= args);
    }
}

/// A pass that fails within its first `upto` vertices fails as a whole, in
/// the same way.
proof fn lemma_pass_error(graph: GraphView, cells: AddressMappingView, order: Seq<i32>, upto: int)
    requires
        0 <= upto <= order.len(),
        evaluate_in_order(graph, cells, order.take(upto)).1 is Err,
    ensures
        evaluate_in_order(graph, cells, order) == evaluate_in_order(graph, cells, order.take(upto)),
    decreases order.len() - upto,
{
    if upto < order.len() {
        assert(order.take(upto + 1).drop_last() =~= order.take(upto));
        lemma_pass_error(graph, cells, order, upto + 1);
    } else {
        assert(order.take(upto) =~= order);
    }
}

/// An evaluation pass writes values into formula cells and changes nothing
/// else: the vertices, their ids and the edges stay what they were.
pub proof fn lemma_pass_keeps_structure(
    graph: GraphView,
    cells: AddressMappingView,
    order: Seq<i32>,
)
    requires
        graph.wf(),
    ensures
        ({
            let after = evaluate_in_order(graph, cells, order).0;
            &&& after.wf()
            &&& after.ids == graph.ids
            &&& after.edges == graph.edges
            &&& forall|id: i32| after.contains(id) <==> graph.contains(id)
            &&& forall|id: i32|
                graph.contains(id) ==> (#[trigger] after.vertices[id]).recomputed_from(
                    graph.vertices[id],
                )
        }),
    decreases order.len(),
{
    if order.len() > 0 {
        lemma_pass_keeps_structure(graph, cells, order.drop_last());
        let before = evaluate_in_order(graph, cells, order.drop_last());
        let id = order.last();
        if before.1 is Ok && before.0.contains(id) {
            if let Some((formula, base)) = before.0.vertices[id].formula() {
                if let Ok(value) = evaluate(before.0, cells, formula, base) {
                    let after = before.0.set_value(id, value);
                    assert(after.vertices.dom() =~= before.0.vertices.dom());
                }
            }
        }
    }
}

/// `<[i32]>::sort_unstable` of std: it rearranges the slice in place into
/// ascending order. The contract claims just that: the same numbers, each as
/// often as before, and none greater than one that follows it.
#[verifier::external_body]
fn sort_ascending(values: &mut Vec<i32>)
    ensures
        final(values)@.to_multiset() == old(values)@.to_multiset(),
        forall|i: int, j: int|
            0 <= i < j < final(values)@.len() ==> final(values)@[i] <= final(values)@[j],
{
    values.sort_unstable();
}

/// Evaluates `formula` as the formula of the cell at `address`.
///
/// A number literal is its own value. `MEDIAN` takes ranges as arguments
/// and gives the number in the middle of all the numbers in them; with an
/// even count that is the upper of the two in the middle. A range that
/// stands alone has no value.
pub fn evaluate_ast(
    graph: &Graph,
    cells: &ArrayAddressMapping,
    formula: &Ast,
    address: &SimpleCellAddress,
) -> (res: Result<CellValue, EngineError>)
    requires
        graph.wf(),
    ensures
        res == evaluate(graph@, cells@, *formula, *address),
{
    match formula {
        Ast::NumberAst { value } => Ok(CellValue::Number(*value)),
        Ast::CellRangeAst { .. } => Err(EngineError::UnsupportedOperation),
        Ast::ProcedureAst { procedure_name, args } => {
            let median = "MEDIAN".to_owned();
            if *procedure_name != median {
                return Err(EngineError::UnknownFunction);
            }
            let mut numbers: Vec<i32> = Vec::new();
            let mut i: usize = 0;
            proof {
                assert(args@.take(0) =~= Seq::empty());
            }
            while i < args.len()
                invariant
                    graph.wf(),
                    i <= args@.len(),
                    evaluate(graph@, cells@, *formula, *address) == median_value(
                        operands(graph@, cells@, args@, *address),
                    ),
                    operands(graph@, cells@, args@.take(i as int), *address) == Ok::<
                        Seq<i32>,
                        EngineError,
                    >(numbers@),
                decreases args@.len() - i,
            {
                proof {
                    assert(args@.take(i + 1).drop_last() =~= args@.take(i as int));
                    assert(args@.take(i + 1).last() == args@[i as int]);
                }
                let outcome = match &args[i] {
                    Ast::CellRangeAst { start, end } => {
                        match absolutize_address(start, address) {
                            Ok(first) => match absolutize_address(end, address) {
                                Ok(last) => collect_range(graph, cells, &first, &last, &mut numbers),
                                Err(e) => Err(e),
                            },
                            Err(e) => Err(e),
                        }
                    },
                    _ => Err(EngineError::UnsupportedArgument),
                };
                match outcome {
                    Ok(_) => {},
                    Err(e) => {
                        proof {
                            lemma_operands_error(graph@, cells@, args@, *address, i + 1);
                        }
                        return Err(e);
                    },
                }
                i += 1;
            }
            proof {
                assert(args@.take(i as int) =~= args@);
            }
            if numbers.len() == 0 {
                return Err(EngineError::UnsupportedArgument);
            }
            let ghost unsorted = numbers@;
            sort_ascending(&mut numbers);
            proof {
                lemma_ascending_is_unique(unsorted, numbers@);
                assert(numbers@.len() == unsorted.len()) by {
                    unsorted.to_multiset_ensures();
                    numbers@.to_multiset_ensures();
                }
            }
            Ok(CellValue::Number(numbers[numbers.len() / 2]))
        },
    }
}

/// Walks `order` once and evaluates every formula cell on the way, storing
/// each result in its vertex, where the formulas that come later read it.
/// The first formula that fails ends the pass.
pub fn compute_in_order(graph: &mut Graph, cells: &ArrayAddressMapping, order: &Vec<i32>) -> (res:
    Result<(), EngineError>)
    requires
        old(graph).wf(),
    ensures
        final(graph).wf(),
        (final(graph)@, res) == evaluate_in_order(old(graph)@, cells@, order@),
{
    let mut i: usize = 0;
    proof {
        assert(order@.take(0) =~= Seq::empty());
    }
    while i < order.len()
        invariant
            graph.wf(),
            i <= order@.len(),
            evaluate_in_order(old(graph)@, cells@, order@.take(i as int)) == (
                graph@,
                Ok::<(), EngineError>(()),
            ),
        decreases order@.len() - i,
    {
        let id = order[i];
        proof {
            assert(order@.take(i + 1).drop_last() =~= order@.take(i as int));
            assert(order@.take(i + 1).last() == id);
        }
        let computed: Result<Option<CellValue>, EngineError> = match graph.get_node(&id) {
            None => Err(EngineError::UnknownVertex),
            Some(node) => match node.datum.get_formula() {
                None => Ok(None),
                Some((formula, base)) => match evaluate_ast(graph, cells, formula, base) {
                    Ok(value) => Ok(Some(value)),
                    Err(e) => Err(e),
                },
            },
        };
        match computed {
            Ok(Some(value)) => {
                let _ = graph.set_cell_value(id, value);
            },
            Ok(None) => {},
            Err(e) => {
                proof {
                    lemma_pass_error(old(graph)@, cells@, order@, i + 1);
                }
                return Err(e);
            },
        }
        i += 1;
    }
    proof {
        assert(order@.take(i as int) =~= order@);
    }
    Ok(())
}

} // verus!
