//! A context as a table of text: building it from a header and rows, from
//! comma-separated text, and writing it out as a grid.

use crate::context::{Context, ContextView};
use crate::error::ContextError;
use crate::grid::shape_fits;
use crate::reader::{csv_header, csv_records, error_text, read_header, read_records};
use crate::text::{cell_marks, decimal, decimal_name, marks, trim, trimmed};
use vstd::prelude::*;
use vstd::string::StringExecFns;

verus! {

/// Every row has as many cells as the header.
pub open spec fn table_regular(header: Seq<Seq<char>>, rows: Seq<Seq<Seq<char>>>) -> bool {
    forall|i: int| 0 <= i < rows.len() ==> (#[trigger] rows[i]).len() == header.len()
}

/// The number of attributes of a table: its header without the first cell.
pub open spec fn table_width(header: Seq<Seq<char>>) -> nat {
    if header.len() == 0 {
        0
    } else {
        (header.len() - 1) as nat
    }
}

/// The name of the object of row `i`: the first cell, trimmed, or the
/// number of the row, counted from 1, where that is blank or missing.
pub open spec fn table_object(rows: Seq<Seq<Seq<char>>>, i: int) -> Seq<char> {
    if rows[i].len() == 0 || trimmed(rows[i][0]).len() == 0 {
        decimal((i + 1) as nat)
    } else {
        trimmed(rows[i][0])
    }
}

/// The context that a regular table stands for. The attributes are the cells
/// of the header after the first, trimmed. Each row is an object, which has
/// the attributes at whose cells it is marked.
pub open spec fn table_context(header: Seq<Seq<char>>, rows: Seq<Seq<Seq<char>>>) -> ContextView {
    ContextView {
        objects: Seq::new(rows.len(), |i: int| table_object(rows, i)),
        attributes: Seq::new(table_width(header), |j: int| trimmed(header[j + 1])),
        incidence: Seq::new(
            rows.len(),
            |i: int| Seq::new(table_width(header), |j: int| marks(rows[i][j + 1])),
        ),
    }
}

/// The first `k` attributes in the head line of the grid: two spaces, and
/// for each attribute a bar and its name between spaces.
pub open spec fn head_line(attributes: Seq<Seq<char>>, k: int) -> Seq<char>
    decreases k,
{
    if k <= 0 {
        "  "@
    } else {
        head_line(attributes, k - 1) + "| "@ + attributes[k - 1] + " "@
    }
}

/// The first `k` cells of a row of the grid: for each a bar, and an X
/// between spaces where it is set, three spaces where it is not.
pub open spec fn cells_line(cells: Seq<bool>, k: int) -> Seq<char>
    decreases k,
{
    if k <= 0 {
        Seq::empty()
    } else if cells[k - 1] {
        cells_line(cells, k - 1) + "| X "@
    } else {
        cells_line(cells, k - 1) + "|   "@
    }
}

/// The grid down to the `k`-th object: the head line, and for each object a
/// new line with its name, a space and its cells.
pub open spec fn grid_text(context: ContextView, k: int) -> Seq<char>
    decreases k,
{
    if k <= 0 {
        head_line(context.attributes, context.attributes.len() as int)
    } else {
        grid_text(context, k - 1) + "\n"@ + context.objects[k - 1] + " "@ + cells_line(
            context.incidence[k - 1],
            context.attributes.len() as int,
        )
    }
}

impl ContextView {
    /// The context written out as a grid.
    pub open spec fn rendered(self) -> Seq<char> {
        grid_text(self, self.objects.len() as int)
    }
}

/// The deep view of rows of text is the rows' deep views, one by one.
proof fn lemma_rows_view(rows: &[Vec<String>])
    ensures
        rows.deep_view().len() == rows.len(),
        forall|i: int|
            0 <= i < rows.len() ==> #[trigger] rows.deep_view()[i] == rows[i].deep_view() && rows[i].deep_view().len() == rows[i].len(),
{
}

impl Context {
    /// The context of a table: `table_context` of the header and the rows.
    /// A table with a row that is not as wide as the header is malformed.
    /// The only other failure is a table larger than the grid can be.
    pub fn from_table(header: &[String], rows: &[Vec<String>]) -> (built: Result<
        Context,
        ContextError,
    >)
        ensures
            built is Ok <==> table_regular(header.deep_view(), rows.deep_view()) && shape_fits(
                0,
                table_width(header.deep_view()),
            ) && shape_fits(rows.len() as nat, table_width(header.deep_view())),
            built matches Ok(context) ==> context.wf() && context@ == table_context(
                header.deep_view(),
                rows.deep_view(),
            ),
            built matches Err(e) ==> (e is MalformedInput <==> !table_regular(
                header.deep_view(),
                rows.deep_view(),
            )),
    {
        let ghost head = header.deep_view();
        let ghost body = rows.deep_view();
        proof {
            lemma_rows_view(rows);
        }
        assert(head.len() == header.len());
        let mut i: usize = 0;
        while i < rows.len()
            invariant
                i <= rows.len(),
                head == header.deep_view(),
                body == rows.deep_view(),
                head.len() == header.len(),
                forall|k: int| 0 <= k < i ==> (#[trigger] body[k]).len() == head.len(),
            decreases rows.len() - i,
        {
            proof {
                lemma_rows_view(rows);
            }
            if rows[i].len() != header.len() {
                assert(body[i as int].len() != head.len());
                return Err(
                    ContextError::MalformedInput(
                        String::from_str("a row is not as wide as the header"),
                    ),
                );
            }
            i += 1;
        }
        let width: usize = if header.len() == 0 {
            0
        } else {
            header.len() - 1
        };
        if width > isize::MAX as usize {
            return Err(ContextError::InternalInvariantViolation);
        }
        let mut attributes: Vec<String> = Vec::new();
        let mut j: usize = 0;
        while j < width
            invariant
                j <= width,
                width == table_width(head),
                head == header.deep_view(),
                head.len() == header.len(),
                attributes.len() == j,
                forall|k: int| 0 <= k < j ==> attributes.deep_view()[k] == trimmed(head[k + 1]),
            decreases width - j,
        {
            let ghost before = attributes.deep_view();
            let name = trim(header[j + 1].as_str());
            attributes.push(name);
            assert(attributes.deep_view() =~= before.push(name@));
            j += 1;
        }
        assert(shape_fits(0, width as nat)) by {
            let factor = crate::grid::axis_factor(width as nat);
            assert(crate::grid::axis_factor(0) == 1);
            assert(1 * factor == factor);
        }
        let mut context = Context::with_attributes(attributes);
        assert(context@.attributes =~= table_context(head, body).attributes);
        let mut i: usize = 0;
        while i < rows.len()
            invariant
                i <= rows.len(),
                head == header.deep_view(),
                body == rows.deep_view(),
                head.len() == header.len(),
                table_regular(head, body),
                width == table_width(head),
                shape_fits(0, width as nat),
                shape_fits(i as nat, width as nat),
                context.wf(),
                context@.attributes == table_context(head, body).attributes,
                context@.objects == table_context(head, body).objects.take(i as int),
                context@.incidence == table_context(head, body).incidence.take(i as int),
            decreases rows.len() - i,
        {
            proof {
                lemma_rows_view(rows);
            }
            let cells = &rows[i];
            assert(cells.deep_view() == body[i as int]);
            let mut row: Vec<bool> = Vec::new();
            let mut j: usize = 0;
            while j < width
                invariant
                    j <= width,
                    cells.len() == width + 1 || (cells.len() == 0 && width == 0),
                    row.len() == j,
                    forall|k: int| 0 <= k < j ==> row[k] == marks(cells.deep_view()[k + 1]),
                decreases width - j,
            {
                row.push(cell_marks(cells[j + 1].as_str()));
                j += 1;
            }
            let mut name = String::from_str("");
            if cells.len() > 0 {
                name = trim(cells[0].as_str());
            }
            proof {
                reveal_strlit("");
            }
            if name.as_str().unicode_len() == 0 {
                name = decimal_name(i + 1);
            }
            assert(name@ == table_object(body, i as int));
            let ghost before = context@;
            match context.push_row(name, &row) {
                Err(e) => {
                    proof {
                        lemma_fits_fewer((i + 1) as nat, rows.len() as nat, width as nat);
                    }
                    return Err(e);
                },
                Ok(()) => {
                    proof {
                        let whole = table_context(head, body);
                        assert(row@ =~= whole.incidence[i as int]);
                        assert(context@.objects =~= whole.objects.take(i + 1));
                        assert(context@.incidence =~= whole.incidence.take(i + 1));
                    }
                },
            }
            i += 1;
        }
        proof {
            let whole = table_context(head, body);
            assert(whole.objects.take(i as int) =~= whole.objects);
            assert(whole.incidence.take(i as int) =~= whole.incidence);
        }
        Ok(context)
    }

    /// The context of a table in comma-separated text. The first record is
    /// the header; its first field is passed over, the others name the
    /// attributes. Each record after it is an object: its first field is the
    /// name, and each other field marks with an X, in either case, that the
    /// object has the attribute of that column. Names and marks are trimmed.
    ///
    /// A text that cannot be read into records is malformed, and so is one
    /// with a record that is not as wide as the header.
    pub fn from_csv(data: &str) -> (built: Result<Context, ContextError>)
        ensures
            built is Ok <==> csv_header(data@) is Some && csv_records(data@) is Some
                && table_regular(csv_header(data@)->0, csv_records(data@)->0) && shape_fits(
                0,
                table_width(csv_header(data@)->0),
            ) && shape_fits(csv_records(data@)->0.len(), table_width(csv_header(data@)->0)),
            built matches Ok(context) ==> context.wf() && context@ == table_context(
                csv_header(data@)->0,
                csv_records(data@)->0,
            ),
            built matches Err(e) ==> (e is MalformedInput <==> csv_header(data@) is None
                || csv_records(data@) is None || !table_regular(
                csv_header(data@)->0,
                csv_records(data@)->0,
            )),
    {
        let header = match read_header(data) {
            Ok(header) => header,
            Err(e) => {
                return Err(ContextError::MalformedInput(error_text(&e)));
            },
        };
        let rows = match read_records(data) {
            Ok(rows) => rows,
            Err(e) => {
                return Err(ContextError::MalformedInput(error_text(&e)));
            },
        };
        let header_slice = header.as_slice();
        let rows_slice = rows.as_slice();
        assert(header_slice.deep_view() =~= header.deep_view());
        assert(rows_slice.deep_view() =~= rows.deep_view());
        Context::from_table(header_slice, rows_slice)
    }

    /// The context as a grid of text: a head line with the attributes, and a
    /// line for each object with its name and a mark for each attribute that
    /// it has.
    pub fn to_string(&self) -> (text: String)
        requires
            self.wf(),
        ensures
            text@ == self@.rendered(),
    {
        let attributes = self.attribute_names();
        let objects = self.object_names();
        let rows = self.rows();
        let ghost names = self@.attributes;
        assert(names.len() == attributes.len());
        assert(self@.objects.len() == objects.len());
        let mut text = String::from_str("  ");
        let mut a: usize = 0;
        while a < attributes.len()
            invariant
                a <= attributes.len(),
                names == attributes.deep_view(),
                text@ == head_line(names, a as int),
            decreases attributes.len() - a,
        {
            let ghost before = text@;
            text.append("| ");
            text.append(attributes[a].as_str());
            text.append(" ");
            assert(text@ =~= before + "| "@ + names[a as int] + " "@);
            a += 1;
        }
        let mut r: usize = 0;
        while r < objects.len()
            invariant
                r <= objects.len(),
                self.wf(),
                names == self@.attributes,
                names.len() == attributes.len(),
                objects.deep_view() == self@.objects,
                rows.len() == objects.len(),
                forall|i: int| 0 <= i < rows.len() ==> #[trigger] rows[i]@ == self@.incidence[i],
                text@ == grid_text(self@, r as int),
            decreases objects.len() - r,
        {
            let ghost before = text@;
            text.append("\n");
            text.append(objects[r].as_str());
            text.append(" ");
            let ghost begun = text@;
            let cells = &rows[r];
            assert(cells@ == self@.incidence[r as int]);
            let mut a: usize = 0;
            while a < attributes.len()
                invariant
                    a <= attributes.len(),
                    cells.len() == attributes.len(),
                    text@ == begun + cells_line(cells@, a as int),
                decreases attributes.len() - a,
            {
                let ghost so_far = text@;
                if cells[a] {
                    text.append("| X ");
                    assert(text@ =~= begun + (cells_line(cells@, a as int) + "| X "@));
                } else {
                    text.append("|   ");
                    assert(text@ =~= begun + (cells_line(cells@, a as int) + "|   "@));
                }
                a += 1;
            }
            assert(text@ =~= before + "\n"@ + self@.objects[r as int] + " "@ + cells_line(
                self@.incidence[r as int],
                names.len() as int,
            ));
            r += 1;
        }
        text
    }
}

/// A grid that holds a number of rows holds any smaller number.
proof fn lemma_fits_fewer(fewer: nat, rows: nat, width: nat)
    requires
        fewer <= rows,
        shape_fits(0, width),
    ensures
        shape_fits(rows, width) ==> shape_fits(fewer, width),
{
    let factor = crate::grid::axis_factor(width);
    let a = crate::grid::axis_factor(fewer);
    let b = crate::grid::axis_factor(rows);
    if fewer > 0 {
        assert(a * factor <= b * factor) by (nonlinear_arith)
            requires
                a <= b,
                factor >= 0,
        ;
    }
}

} // verus!
