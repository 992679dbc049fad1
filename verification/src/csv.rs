//! Rendering a table window as comma-separated text.
//!
//! Each column of the window becomes one output record: its cells from top
//! to bottom, joined by commas and ended by a newline. A field is quoted
//! exactly when it holds a comma, a quote or a line break, with inner
//! quotes doubled; unset cells are empty fields.

use vstd::prelude::*;
use vstd::string::StrSliceExecFns;
use vstd::string::StringExecFns;

use crate::ext::push_char;
use crate::pos::CellPos;
use crate::table::Table;
use crate::view::TableSlice;

verus! {

/// The characters that force quoting.
pub open spec fn is_csv_special(c: char) -> bool {
    c == ',' || c == '"' || c == '\n' || c == '\r'
}

pub open spec fn needs_quoting(s: Seq<char>) -> bool {
    exists|i: int| 0 <= i < s.len() && is_csv_special(#[trigger] s[i])
}

/// The text with each quote doubled.
pub open spec fn esc_quotes(s: Seq<char>) -> Seq<char>
    decreases s.len(),
{
    if s.len() == 0 {
        Seq::empty()
    } else {
        esc_quotes(s.drop_last()) + (if s.last() == '"' {
            seq!['"', '"']
        } else {
            seq![s.last()]
        })
    }
}

/// One field: quoted and escaped when it needs to be, plain otherwise.
pub open spec fn csv_field(s: Seq<char>) -> Seq<char> {
    if needs_quoting(s) {
        seq!['"'] + esc_quotes(s) + seq!['"']
    } else {
        s
    }
}

/// The text of the window cell at column offset `dx`, row offset `dy`;
/// an unset cell reads as empty text.
pub open spec fn cell_text<T: Table<Item = String>>(s: TableSlice<T>, dx: int, dy: int) -> Seq<
    char,
> {
    match s.spec_table().spec_get(
        s.spec_pos().shifted(CellPos { x: dx as usize, y: dy as usize }),
    ) {
        Some(t) => t@,
        None => Seq::empty(),
    }
}

/// The first `dy` fields of column `dx`'s record, commas included.
pub open spec fn record_taken<T: Table<Item = String>>(
    s: TableSlice<T>,
    dx: int,
    dy: int,
) -> Seq<char>
    decreases dy,
{
    if dy <= 0 {
        Seq::empty()
    } else {
        record_taken(s, dx, dy - 1) + (if dy - 1 > 0 {
            seq![',']
        } else {
            Seq::empty()
        }) + csv_field(cell_text(s, dx, dy - 1))
    }
}

/// The full record of column `dx`: its fields and the final newline.
pub open spec fn csv_record<T: Table<Item = String>>(s: TableSlice<T>, dx: int) -> Seq<char> {
    record_taken(s, dx, s.spec_pos().end.y - s.spec_pos().start.y) + seq!['\n']
}

/// The records of the first `dx` columns.
pub open spec fn csv_taken<T: Table<Item = String>>(s: TableSlice<T>, dx: int) -> Seq<char>
    decreases dx,
{
    if dx <= 0 {
        Seq::empty()
    } else {
        csv_taken(s, dx - 1) + csv_record(s, dx - 1)
    }
}

/// The whole window as comma-separated text, one record per column.
pub open spec fn csv_spec<T: Table<Item = String>>(s: TableSlice<T>) -> Seq<char> {
    csv_taken(s, s.spec_pos().end.x - s.spec_pos().start.x)
}

/// Appends one field, quoting and escaping it exactly when needed.
fn push_csv_field(out: &mut String, t: &str)
    ensures
        final(out)@ == old(out)@ + csv_field(t@),
{
    let n: usize = t.unicode_len();
    let mut quote: bool = false;
    let mut i: usize = 0;
    while i < n
        invariant
            n == t@.len(),
            i <= n,
            quote <==> exists|j: int| 0 <= j < i && is_csv_special(#[trigger] t@[j]),
        decreases n - i,
    {
        let c: char = t.get_char(i);
        if c == ',' || c == '"' || c == '\n' || c == '\r' {
            quote = true;
            proof {
                assert(is_csv_special(t@[i as int]));
            }
        }
        i = i + 1;
    }
    if !quote {
        proof {
            assert(!needs_quoting(t@));
        }
        out.append(t);
    } else {
        push_char(out, '"');
        let ghost mid = out@;
        let mut j: usize = 0;
        while j < n
            invariant
                n == t@.len(),
                j <= n,
                out@ == mid + esc_quotes(t@.subrange(0, j as int)),
            decreases n - j,
        {
            let c: char = t.get_char(j);
            proof {
                assert(t@.subrange(0, j + 1 as int).drop_last() =~= t@.subrange(0, j as int));
                assert(t@.subrange(0, j + 1 as int).last() == t@[j as int]);
            }
            if c == '"' {
                push_char(out, '"');
                push_char(out, '"');
            } else {
                push_char(out, c);
            }
            proof {
                assert(out@ =~= mid + esc_quotes(t@.subrange(0, j + 1 as int)));
            }
            j = j + 1;
        }
        push_char(out, '"');
        proof {
            assert(t@.subrange(0, n as int) =~= t@);
            assert(out@ =~= old(out)@ + csv_field(t@));
        }
    }
}

/// Renders the window: one record per column, fields top to bottom.
pub fn slice_to_csv_string<'a, T: Table<Item = String>>(slice: TableSlice<'a, T>) -> (r: String)
    requires
        slice.wf(),
    ensures
        r@ == csv_spec(slice),
{
    let w: usize = slice.col_indexes();
    let h: usize = slice.row_indexes();
    let mut out = String::new();
    let mut dx: usize = 0;
    proof {
        assert(out@ =~= csv_taken(slice, 0));
    }
    while dx < w
        invariant
            slice.wf(),
            w == slice.spec_pos().end.x - slice.spec_pos().start.x,
            h == slice.spec_pos().end.y - slice.spec_pos().start.y,
            dx <= w,
            out@ == csv_taken(slice, dx as int),
        decreases w - dx,
    {
        let mut dy: usize = 0;
        let ghost rec_base = out@;
        proof {
            assert(out@ =~= rec_base + record_taken(slice, dx as int, 0));
        }
        while dy < h
            invariant
                slice.wf(),
                w == slice.spec_pos().end.x - slice.spec_pos().start.x,
                h == slice.spec_pos().end.y - slice.spec_pos().start.y,
                dx < w,
                dy <= h,
                out@ == rec_base + record_taken(slice, dx as int, dy as int),
            decreases h - dy,
        {
            if dy > 0 {
                push_char(&mut out, ',');
            }
            let shift = CellPos { x: dx, y: dy };
            match slice.get(shift) {
                Some(Some(t)) => {
                    push_csv_field(&mut out, t.as_str());
                },
                Some(None) => {
                    proof {
                        assert(cell_text(slice, dx as int, dy as int) =~= Seq::<char>::empty());
                        assert(csv_field(Seq::<char>::empty()) =~= Seq::<char>::empty());
                    }
                },
                None => {
                    proof {
                        assert(false);
                    }
                },
            }
            proof {
                assert(out@ =~= rec_base + record_taken(slice, dx as int, dy + 1 as int));
            }
            dy = dy + 1;
        }
        push_char(&mut out, '\n');
        proof {
            assert(out@ =~= csv_taken(slice, dx + 1 as int));
        }
        dx = dx + 1;
    }
    out
}

/// Renders the window and appends it, UTF-8 encoded, to a byte sink.
pub fn write_slice_to_csv<'a, T: Table<Item = String>>(
    slice: TableSlice<'a, T>,
    out: &mut Vec<u8>,
)
    requires
        slice.wf(),
    ensures
        final(out)@ == old(out)@ + vstd::utf8::encode_utf8(csv_spec(slice)),
{
    let s: String = slice_to_csv_string(slice);
    out.extend_from_slice(s.as_str().as_bytes());
}

} // verus!
