//! Rectangles of cells, and what a scan over their cells finds.

use crate::address::SimpleCellAddress;
use crate::address_mapping::{AddressMappingView, ArrayAddressMapping};
use crate::error::EngineError;
use crate::graph::{Graph, GraphView};
use crate::value::CellValue;
use vstd::prelude::*;

verus! {

/// The cells of one row from `first_col` to `last_col`, both included, from
/// left to right.
pub open spec fn row_cells(row: i32, first_col: int, last_col: int) -> Seq<SimpleCellAddress> {
    Seq::new(
        (if last_col >= first_col {
            last_col - first_col + 1
        } else {
            0
        }) as nat,
        |k: int| SimpleCellAddress { col: (first_col + k) as i32, row },
    )
}

/// The cells of the rows from `first_row` to `last_row`, both included, row
/// after row.
pub open spec fn rows_cells(first_col: int, last_col: int, first_row: int, last_row: int) -> Seq<
    SimpleCellAddress,
>
    decreases last_row - first_row + 1,
{
    if last_row < first_row {
        Seq::empty()
    } else {
        rows_cells(first_col, last_col, first_row, last_row - 1) + row_cells(
            last_row as i32,
            first_col,
            last_col,
        )
    }
}

/// The cells of the rectangle with the corners `start` and `end`, both
/// included, in row-major order. A rectangle whose end lies before its start
/// in either direction has no cells.
pub open spec fn rect_cells(start: SimpleCellAddress, end: SimpleCellAddress) -> Seq<
    SimpleCellAddress,
> {
    rows_cells(start.col as int, end.col as int, start.row as int, end.row as int)
}

/// What a scan over `addresses` brings together when `read` says what each
/// cell gives: an item, nothing, or an error. The first error ends the scan.
pub open spec fn gather<T>(
    addresses: Seq<SimpleCellAddress>,
    read: spec_fn(SimpleCellAddress) -> Result<Option<T>, EngineError>,
) -> Result<Seq<T>, EngineError>
    decreases addresses.len(),
{
    if addresses.len() == 0 {
        Ok(Seq::empty())
    } else {
        match gather(addresses.drop_last(), read) {
            Err(e) => Err(e),
            Ok(items) => match read(addresses.last()) {
                Err(e) => Err(e),
                Ok(Some(item)) => Ok(items.push(item)),
                Ok(None) => Ok(items),
            },
        }
    }
}

/// A cell gives its number, if it holds one; text gives nothing.
pub open spec fn number_reader(graph: GraphView, cells: AddressMappingView) -> spec_fn(
    SimpleCellAddress,
) -> Result<Option<i32>, EngineError> {
    |address: SimpleCellAddress|
        match cells.value_at(graph, address) {
            Err(e) => Err(e),
            Ok(CellValue::Number(n)) => Ok(Some(n)),
            Ok(CellValue::Text(_)) => Ok(None),
        }
}

/// A cell gives the id of the vertex placed at it.
pub open spec fn vertex_reader(cells: AddressMappingView) -> spec_fn(SimpleCellAddress) -> Result<
    Option<i32>,
    EngineError,
> {
    |address: SimpleCellAddress|
        if cells.in_bounds(address) {
            Ok(Some(cells.cell(address)))
        } else {
            Err(EngineError::OutOfBounds)
        }
}

/// The numbers found at `addresses`, in that order. Cells that hold text are
/// passed over; the first cell that cannot be read decides the error.
pub open spec fn collect_numbers(
    graph: GraphView,
    cells: AddressMappingView,
    addresses: Seq<SimpleCellAddress>,
) -> Result<Seq<i32>, EngineError> {
    gather(addresses, number_reader(graph, cells))
}

/// The ids of the vertices placed at `addresses`, in that order, unless one
/// of the addresses lies outside the grid.
pub open spec fn collect_vertices(cells: AddressMappingView, addresses: Seq<SimpleCellAddress>) -> Result<
    Seq<i32>,
    EngineError,
> {
    gather(addresses, vertex_reader(cells))
}

/// Scanning `front` and then `back` is scanning both in one go.
pub proof fn lemma_gather_append<T>(
    front: Seq<SimpleCellAddress>,
    back: Seq<SimpleCellAddress>,
    read: spec_fn(SimpleCellAddress) -> Result<Option<T>, EngineError>,
)
    ensures
        gather(front + back, read) == match gather(front, read) {
            Err(e) => Err(e),
            Ok(items) => match gather(back, read) {
                Err(e) => Err(e),
                Ok(more) => Ok(items + more),
            },
        },
    decreases back.len(),
{
    if back.len() == 0 {
        assert(front + back =~= front);
        if let Ok(items) = gather(front, read) {
            assert(items + Seq::<T>::empty() =~= items);
        }
    } else {
        lemma_gather_append(front, back.drop_last(), read);
        assert((front + back).drop_last() =~= front + back.drop_last());
        assert((front + back).last() == back.last());
        if let Ok(items) = gather(front, read) {
            if let Ok(more) = gather(back.drop_last(), read) {
                if let Ok(Some(item)) = read(back.last()) {
                    assert((items + more).push(item) =~= items + more.push(item));
                }
            }
        }
    }
}

/// Two ways of reading that agree on every cell of a scan bring the same
/// together.
pub proof fn lemma_gather_agree<T>(
    addresses: Seq<SimpleCellAddress>,
    read: spec_fn(SimpleCellAddress) -> Result<Option<T>, EngineError>,
    other: spec_fn(SimpleCellAddress) -> Result<Option<T>, EngineError>,
)
    requires
        forall|k: int| 0 <= k < addresses.len() ==> read(addresses[k]) == other(addresses[k]),
    ensures
        gather(addresses, read) == gather(addresses, other),
    decreases addresses.len(),
{
    if addresses.len() > 0 {
        let front = addresses.drop_last();
        assert forall|k: int| 0 <= k < front.len() implies read(front[k]) == other(front[k]) by {
            assert(front[k] == addresses[k]);
        }
        lemma_gather_agree(front, read, other);
        assert(read(addresses[addresses.len() - 1]) == other(addresses[addresses.len() - 1]));
    }
}

/// The vertices found by a scan are vertices of the grid.
pub proof fn lemma_collected_vertices_are_cells(
    cells: AddressMappingView,
    addresses: Seq<SimpleCellAddress>,
)
    requires
        collect_vertices(cells, addresses) is Ok,
    ensures
        forall|k: int|
            0 <= k < collect_vertices(cells, addresses)->Ok_0.len() ==> cells.cells.contains(
                #[trigger] collect_vertices(cells, addresses)->Ok_0[k],
            ),
    decreases addresses.len(),
{
    if addresses.len() > 0 {
        lemma_collected_vertices_are_cells(cells, addresses.drop_last());
        let ids = collect_vertices(cells, addresses)->Ok_0;
        let last = addresses.last();
        assert(cells.cells[cells.flat_index(last)] == cells.cell(last));
    }
}

/// A scan for vertices fails only on a cell outside the grid.
pub proof fn lemma_vertex_scan_error(cells: AddressMappingView, addresses: Seq<SimpleCellAddress>)
    ensures
        collect_vertices(cells, addresses) is Err ==> collect_vertices(cells, addresses) == Err::<
            Seq<i32>,
            EngineError,
        >(EngineError::OutOfBounds),
    decreases addresses.len(),
{
    if addresses.len() > 0 {
        lemma_vertex_scan_error(cells, addresses.drop_last());
    }
}

/// A row whose scan fails up to `col` fails in the same way when scanned
/// further.
proof fn lemma_row_error<T>(
    read: spec_fn(SimpleCellAddress) -> Result<Option<T>, EngineError>,
    row: i32,
    first_col: int,
    col: int,
    last_col: int,
)
    requires
        first_col <= col <= last_col,
        gather(row_cells(row, first_col, col), read) is Err,
    ensures
        gather(row_cells(row, first_col, last_col), read) == gather(
            row_cells(row, first_col, col),
            read,
        ),
    decreases last_col - col,
{
    if col < last_col {
        lemma_row_error(read, row, first_col, col, last_col - 1);
        assert(row_cells(row, first_col, last_col).drop_last() =~= row_cells(
            row,
            first_col,
            last_col - 1,
        ));
    }
}

/// A rectangle whose scan fails up to `row` fails in the same way when
/// scanned further.
proof fn lemma_rows_error<T>(
    read: spec_fn(SimpleCellAddress) -> Result<Option<T>, EngineError>,
    first_col: int,
    last_col: int,
    first_row: int,
    row: int,
    last_row: int,
)
    requires
        first_row <= row <= last_row,
        gather(rows_cells(first_col, last_col, first_row, row), read) is Err,
    ensures
        gather(rows_cells(first_col, last_col, first_row, last_row), read) == gather(
            rows_cells(first_col, last_col, first_row, row),
            read,
        ),
    decreases last_row - row,
{
    if row < last_row {
        lemma_rows_error(read, first_col, last_col, first_row, row, last_row - 1);
        lemma_gather_append(
            rows_cells(first_col, last_col, first_row, last_row - 1),
            row_cells(last_row as i32, first_col, last_col),
            read,
        );
    }
}

/// Appends to `numbers` the numbers found in one row, from `first_col` to
/// `last_col`.
fn collect_row(
    graph: &Graph,
    cells: &ArrayAddressMapping,
    row: i32,
    first_col: i32,
    last_col: i32,
    numbers: &mut Vec<i32>,
) -> (res: Result<(), EngineError>)
    requires
        graph.wf(),
    ensures
        match collect_numbers(graph@, cells@, row_cells(row, first_col as int, last_col as int)) {
            Ok(more) => res is Ok && final(numbers)@ == old(numbers)@ + more,
            Err(e) => res == Err::<(), EngineError>(e),
        },
{
    let ghost read = number_reader(graph@, cells@);
    let mut col: i64 = first_col as i64;
    proof {
        assert(row_cells(row, first_col as int, col - 1) =~= Seq::empty());
        assert(numbers@ + Seq::<i32>::empty() =~= numbers@);
    }
    while col <= last_col as i64
        invariant
            graph.wf(),
            read == number_reader(graph@, cells@),
            first_col <= col,
            col <= last_col + 1 || col == first_col,
            match gather(row_cells(row, first_col as int, col - 1), read) {
                Ok(more) => numbers@ == old(numbers)@ + more,
                Err(_) => false,
            },
        decreases last_col - col + 1,
    {
        let address = SimpleCellAddress { col: col as i32, row };
        proof {
            assert(row_cells(row, first_col as int, col as int).drop_last() =~= row_cells(
                row,
                first_col as int,
                col - 1,
            ));
            assert(row_cells(row, first_col as int, col as int).last() == address);
        }
        match cells.get_cell_value(graph, &address) {
            Ok(CellValue::Number(n)) => {
                proof {
                    let more = gather(row_cells(row, first_col as int, col - 1), read)->Ok_0;
                    assert((old(numbers)@ + more).push(n) =~= old(numbers)@ + more.push(n));
                }
                numbers.push(n);
            },
            Ok(CellValue::Text(_)) => {},
            Err(e) => {
                proof {
                    lemma_row_error(read, row, first_col as int, col as int, last_col as int);
                }
                return Err(e);
            },
        }
        col += 1;
    }
    proof {
        assert(row_cells(row, first_col as int, col - 1) =~= row_cells(
            row,
            first_col as int,
            last_col as int,
        ));
    }
    Ok(())
}

/// Appends to `numbers` the numbers found in the rectangle from `start` to
/// `end`, scanned row by row. Cells that hold text are passed over. On an
/// error `numbers` may have grown by what was found before it.
pub fn collect_range(
    graph: &Graph,
    cells: &ArrayAddressMapping,
    start: &SimpleCellAddress,
    end: &SimpleCellAddress,
    numbers: &mut Vec<i32>,
) -> (res: Result<(), EngineError>)
    requires
        graph.wf(),
    ensures
        match collect_numbers(graph@, cells@, rect_cells(*start, *end)) {
            Ok(more) => res is Ok && final(numbers)@ == old(numbers)@ + more,
            Err(e) => res == Err::<(), EngineError>(e),
        },
{
    let ghost read = number_reader(graph@, cells@);
    let mut row: i64 = start.row as i64;
    proof {
        assert(numbers@ + Seq::<i32>::empty() =~= numbers@);
    }
    while row <= end.row as i64
        invariant
            graph.wf(),
            read == number_reader(graph@, cells@),
            start.row <= row,
            row <= end.row + 1 || row == start.row,
            match gather(
                rows_cells(start.col as int, end.col as int, start.row as int, row - 1),
                read,
            ) {
                Ok(more) => numbers@ == old(numbers)@ + more,
                Err(_) => false,
            },
        decreases end.row - row + 1,
    {
        let ghost done = rows_cells(start.col as int, end.col as int, start.row as int, row - 1);
        proof {
            lemma_gather_append(done, row_cells(row as i32, start.col as int, end.col as int), read);
        }
        match collect_row(graph, cells, row as i32, start.col, end.col, numbers) {
            Ok(_) => {
                proof {
                    let first = gather(done, read)->Ok_0;
                    let more = gather(
                        row_cells(row as i32, start.col as int, end.col as int),
                        read,
                    )->Ok_0;
                    assert((old(numbers)@ + first) + more =~= old(numbers)@ + (first + more));
                }
            },
            Err(e) => {
                proof {
                    lemma_rows_error(
                        read,
                        start.col as int,
                        end.col as int,
                        start.row as int,
                        row as int,
                        end.row as int,
                    );
                }
                return Err(e);
            },
        }
        row += 1;
    }
    proof {
        assert(rows_cells(start.col as int, end.col as int, start.row as int, row - 1)
            =~= rect_cells(*start, *end));
    }
    Ok(())
}

/// Appends to `vertices` the ids of the vertices placed in one row, from
/// `first_col` to `last_col`.
fn row_vertices(
    cells: &ArrayAddressMapping,
    row: i32,
    first_col: i32,
    last_col: i32,
    vertices: &mut Vec<i32>,
) -> (res: Result<(), EngineError>)
    ensures
        match collect_vertices(cells@, row_cells(row, first_col as int, last_col as int)) {
            Ok(more) => res is Ok && final(vertices)@ == old(vertices)@ + more,
            Err(e) => res == Err::<(), EngineError>(e),
        },
{
    let ghost read = vertex_reader(cells@);
    let mut col: i64 = first_col as i64;
    proof {
        assert(row_cells(row, first_col as int, col - 1) =~= Seq::empty());
        assert(vertices@ + Seq::<i32>::empty() =~= vertices@);
    }
    while col <= last_col as i64
        invariant
            read == vertex_reader(cells@),
            first_col <= col,
            col <= last_col + 1 || col == first_col,
            match gather(row_cells(row, first_col as int, col - 1), read) {
                Ok(more) => vertices@ == old(vertices)@ + more,
                Err(_) => false,
            },
        decreases last_col - col + 1,
    {
        let address = SimpleCellAddress { col: col as i32, row };
        proof {
            assert(row_cells(row, first_col as int, col as int).drop_last() =~= row_cells(
                row,
                first_col as int,
                col - 1,
            ));
            assert(row_cells(row, first_col as int, col as int).last() == address);
        }
        match cells.get_cell(&address) {
            Ok(id) => {
                proof {
                    let more = gather(row_cells(row, first_col as int, col - 1), read)->Ok_0;
                    assert((old(vertices)@ + more).push(id) =~= old(vertices)@ + more.push(id));
                }
                vertices.push(id);
            },
            Err(e) => {
                proof {
                    lemma_row_error(read, row, first_col as int, col as int, last_col as int);
                }
                return Err(e);
            },
        }
        col += 1;
    }
    proof {
        assert(row_cells(row, first_col as int, col - 1) =~= row_cells(
            row,
            first_col as int,
            last_col as int,
        ));
    }
    Ok(())
}

/// The ids of the vertices placed in the rectangle from `start` to `end`,
/// row by row. Fails when a cell of the rectangle lies outside the grid.
pub fn range_vertices(
    cells: &ArrayAddressMapping,
    start: &SimpleCellAddress,
    end: &SimpleCellAddress,
) -> (res: Result<Vec<i32>, EngineError>)
    ensures
        match collect_vertices(cells@, rect_cells(*start, *end)) {
            Ok(ids) => res is Ok && res->Ok_0@ == ids,
            Err(e) => res == Err::<Vec<i32>, EngineError>(e),
        },
{
    let ghost read = vertex_reader(cells@);
    let mut vertices: Vec<i32> = Vec::new();
    let mut row: i64 = start.row as i64;
    while row <= end.row as i64
        invariant
            read == vertex_reader(cells@),
            start.row <= row,
            row <= end.row + 1 || row == start.row,
            gather(rows_cells(start.col as int, end.col as int, start.row as int, row - 1), read)
                == Ok::<Seq<i32>, EngineError>(vertices@),
        decreases end.row - row + 1,
    {
        let ghost done = rows_cells(start.col as int, end.col as int, start.row as int, row - 1);
        proof {
            lemma_gather_append(done, row_cells(row as i32, start.col as int, end.col as int), read);
        }
        match row_vertices(cells, row as i32, start.col, end.col, &mut vertices) {
            Ok(_) => {},
            Err(e) => {
                proof {
                    lemma_rows_error(
                        read,
                        start.col as int,
                        end.col as int,
                        start.row as int,
                        row as int,
                        end.row as int,
                    );
                }
                return Err(e);
            },
        }
        row += 1;
    }
    proof {
        assert(rows_cells(start.col as int, end.col as int, start.row as int, row - 1)
            =~= rect_cells(*start, *end));
    }
    Ok(vertices)
}

} // verus!
