//! One sales record per CSV row: quantity, item name and unit price,
//! drawn from a header whose column names vary between export formats.

use vstd::prelude::*;

use crate::usd::Usd;
use crate::usd::all_digits;
use crate::usd::cents_of_str;
use crate::usd::digits_val;
use crate::usd::lemma_prefix_too_big;
use crate::usd::lemma_digit_step;

verus! {

/// Index of the first header cell equal to `primary` or `alias`, or
/// `header.len()` if neither occurs.
pub open spec fn col_idx(header: Seq<Seq<char>>, primary: Seq<char>, alias: Seq<char>) -> nat
    decreases header.len(),
{
    if header.len() == 0 {
        0
    } else if header[0] == primary || header[0] == alias {
        0
    } else {
        1 + col_idx(header.skip(1), primary, alias)
    }
}

pub open spec fn has_col(header: Seq<Seq<char>>, primary: Seq<char>, alias: Seq<char>) -> bool {
    col_idx(header, primary, alias) < header.len()
}

proof fn lemma_col_idx_eq(header: Seq<Seq<char>>, primary: Seq<char>, alias: Seq<char>, k: int)
    requires
        0 <= k <= header.len(),
        forall|i: int| 0 <= i < k ==> header[i] != primary && header[i] != alias,
        k < header.len() ==> header[k] == primary || header[k] == alias,
    ensures
        col_idx(header, primary, alias) == k,
    decreases k,
{
    if k == 0 {
    } else {
        assert(header[0] != primary && header[0] != alias);
        assert(forall|i: int|
            0 <= i < header.len() - 1 ==> header.skip(1)[i] == header[i + 1]);
        lemma_col_idx_eq(header.skip(1), primary, alias, k - 1);
    }
}

/// Finds the column for a field by its two accepted header names.
fn find_col(header: &Vec<String>, primary: &str, alias: &str) -> (r: Option<usize>)
    ensures
        match r {
            Some(i) => col_idx(header.deep_view(), primary@, alias@) == i && i
                < header.len(),
            None => !has_col(header.deep_view(), primary@, alias@),
        },
{
    let ghost hv = header.deep_view();
    let p = String::from_str(primary);
    let a = String::from_str(alias);
    let n = header.len();
    let mut i: usize = 0;
    while i < n
        invariant
            i <= n,
            n == header@.len(),
            hv == header.deep_view(),
            p@ == primary@,
            a@ == alias@,
            forall|q: int| 0 <= q < i ==> hv[q] != primary@ && hv[q] != alias@,
        decreases n - i,
    {
        proof {
            assert(hv[i as int] == header@[i as int]@);
        }
        if header[i].eq(&p) || header[i].eq(&a) {
            proof {
                lemma_col_idx_eq(hv, primary@, alias@, i as int);
            }
            return Some(i);
        }
        i += 1;
    }
    proof {
        lemma_col_idx_eq(hv, primary@, alias@, n as int);
    }
    None
}

/// The digits of a quantity cell, with one optional leading plus sign.
pub open spec fn qty_digits(s: Seq<char>) -> Seq<char> {
    if s.len() > 0 && s[0] == '+' {
        s.skip(1)
    } else {
        s
    }
}

/// The quantity a cell denotes: a non-negative integer that fits the
/// unit count type.
pub open spec fn qty_of_str(s: Seq<char>) -> Option<int> {
    let d = qty_digits(s);
    if d.len() > 0 && all_digits(d) && digits_val(d) <= u32::MAX {
        Some(digits_val(d))
    } else {
        None
    }
}

/// Parses a quantity cell.
pub fn parse_qty(s: &str) -> (r: Option<u32>)
    ensures
        match r {
            Some(q) => qty_of_str(s@) == Some(q as int),
            None => qty_of_str(s@) is None,
        },
{
    let n = s.unicode_len();
    let start: usize = if n > 0 && s.get_char(0) == '+' {
        1
    } else {
        0
    };
    let ghost d = qty_digits(s@);
    proof {
        assert(d =~= s@.skip(start as int));
    }
    if n == start {
        return None;
    }
    let mut acc: u64 = 0;
    let mut k: usize = start;
    while k < n
        invariant
            start <= k <= n,
            start < n,
            n == s@.len(),
            d == qty_digits(s@),
            d == s@.skip(start as int),
            all_digits(d.take(k - start)),
            acc == digits_val(d.take(k - start)),
            acc <= u32::MAX,
        decreases n - k,
    {
        let c = s.get_char(k);
        let cu = c as u32;
        proof {
            assert(d[k - start] == s@[k as int]);
        }
        if cu < 48 || cu > 57 {
            proof {
                assert(!all_digits(d));
            }
            return None;
        }
        proof {
            lemma_digit_step(d, k - start);
        }
        let step: u64 = acc * 10 + ((cu - 48) as u64);
        if step > 0xFFFF_FFFF {
            proof {
                lemma_prefix_too_big(d, k - start + 1, u32::MAX as int);
            }
            return None;
        }
        acc = step;
        k += 1;
    }
    proof {
        assert(d.take(n - start) =~= d);
    }
    Some(acc as u32)
}

/// The cell at column `i`, or the empty cell when the row is too short.
pub open spec fn cell_at(row: Seq<Seq<char>>, i: nat) -> Seq<char> {
    if i < row.len() {
        row[i as int]
    } else {
        Seq::empty()
    }
}

pub open spec fn qty_primary() -> Seq<char> {
    "Lineitem quantity"@
}

pub open spec fn qty_alias() -> Seq<char> {
    "Quantity"@
}

pub open spec fn name_primary() -> Seq<char> {
    "Lineitem name"@
}

pub open spec fn name_alias() -> Seq<char> {
    "Item Name"@
}

pub open spec fn price_primary() -> Seq<char> {
    "Lineitem price"@
}

pub open spec fn price_alias() -> Seq<char> {
    "Item Price ($)"@
}

pub open spec fn has_qty_col(header: Seq<Seq<char>>) -> bool {
    has_col(header, qty_primary(), qty_alias())
}

pub open spec fn has_name_col(header: Seq<Seq<char>>) -> bool {
    has_col(header, name_primary(), name_alias())
}

pub open spec fn has_price_col(header: Seq<Seq<char>>) -> bool {
    has_col(header, price_primary(), price_alias())
}

/// The quantity a row carries: one, in formats without a quantity
/// column, else the parsed cell.
pub open spec fn row_qty(header: Seq<Seq<char>>, row: Seq<Seq<char>>) -> Option<int> {
    if !has_qty_col(header) {
        Some(1)
    } else {
        qty_of_str(cell_at(row, col_idx(header, qty_primary(), qty_alias())))
    }
}

pub open spec fn row_name(header: Seq<Seq<char>>, row: Seq<Seq<char>>) -> Option<Seq<char>> {
    if has_name_col(header) {
        Some(cell_at(row, col_idx(header, name_primary(), name_alias())))
    } else {
        None
    }
}

pub open spec fn row_price(header: Seq<Seq<char>>, row: Seq<Seq<char>>) -> Option<int> {
    if has_price_col(header) {
        cents_of_str(cell_at(row, col_idx(header, price_primary(), price_alias())))
    } else {
        None
    }
}

/// The record a row denotes, when all three fields resolve and parse.
pub open spec fn row_record(header: Seq<Seq<char>>, row: Seq<Seq<char>>) -> Option<
    (int, Seq<char>, int),
> {
    if row_name(header, row) is Some && row_qty(header, row) is Some && row_price(
        header,
        row,
    ) is Some {
        Some(
            (
                row_qty(header, row).unwrap(),
                row_name(header, row).unwrap(),
                row_price(header, row).unwrap(),
            ),
        )
    } else {
        None
    }
}

/// Error from reading sales data.
#[derive(Debug)]
pub enum RecordError {
    /// The CSV layer rejected the input.
    Csv,
    /// No resolvable item-name column.
    MissingName,
    /// No resolvable unit-price column.
    MissingPrice,
    /// An unparsable quantity cell.
    BadQuantity { value: String },
    /// An unparsable price cell.
    BadPrice { value: String },
    /// An aggregate total left the representable range.
    Overflow,
}

/// Which error a malformed row produces: the name column is checked
/// first, then the quantity cell, then the price.
pub open spec fn row_err_matches(
    header: Seq<Seq<char>>,
    row: Seq<Seq<char>>,
    e: RecordError,
) -> bool {
    match e {
        RecordError::MissingName => !has_name_col(header),
        RecordError::BadQuantity { value } => has_name_col(header) && has_qty_col(header)
            && row_qty(header, row) is None && value@ == cell_at(
            row,
            col_idx(header, qty_primary(), qty_alias()),
        ),
        RecordError::MissingPrice => has_name_col(header) && row_qty(header, row) is Some
            && !has_price_col(header),
        RecordError::BadPrice { value } => has_name_col(header) && row_qty(
            header,
            row,
        ) is Some && has_price_col(header) && row_price(header, row) is None && value@
            == cell_at(row, col_idx(header, price_primary(), price_alias())),
        _ => false,
    }
}

/// One sales record: a quantity of units sold of a named item at a unit
/// price.
pub struct Record {
    pub qty: u32,
    pub name: String,
    pub price: Usd,
}

impl View for Record {
    type V = (int, Seq<char>, int);

    open spec fn view(&self) -> (int, Seq<char>, int) {
        (self.qty as int, self.name@, self.price@)
    }
}

/// Reads the cell at column `i`, an empty cell when the row is short.
fn read_cell<'a>(row: &'a Vec<String>, i: usize) -> (r: &'a str)
    ensures
        r@ == cell_at(row.deep_view(), i as nat),
{
    if i < row.len() {
        proof {
            assert(row.deep_view()[i as int] == row@[i as int]@);
        }
        row[i].as_str()
    } else {
        let r = "";
        proof {
            reveal_strlit("");
            assert(r@ =~= Seq::<char>::empty());
        }
        r
    }
}

/// Builds the record one row denotes, or says exactly why it cannot.
pub fn record_of_row(header: &Vec<String>, row: &Vec<String>) -> (r: Result<
    Record,
    RecordError,
>)
    ensures
        match r {
            Ok(rec) => row_record(header.deep_view(), row.deep_view()) == Some(rec@),
            Err(e) => row_record(header.deep_view(), row.deep_view()) is None
                && row_err_matches(header.deep_view(), row.deep_view(), e),
        },
{
    let ghost hv = header.deep_view();
    let ghost rv = row.deep_view();
    let name_col = match find_col(header, "Lineitem name", "Item Name") {
        Some(i) => i,
        None => {
            return Err(RecordError::MissingName);
        },
    };
    let name_cell = read_cell(row, name_col);
    let qty: u32 = match find_col(header, "Lineitem quantity", "Quantity") {
        None => 1,
        Some(qi) => {
            let qty_cell = read_cell(row, qi);
            match parse_qty(qty_cell) {
                Some(q) => q,
                None => {
                    return Err(
                        RecordError::BadQuantity { value: String::from_str(qty_cell) },
                    );
                },
            }
        },
    };
    let price_col = match find_col(header, "Lineitem price", "Item Price ($)") {
        Some(i) => i,
        None => {
            return Err(RecordError::MissingPrice);
        },
    };
    let price_cell = read_cell(row, price_col);
    let price = match Usd::from_str(price_cell) {
        Ok(p) => p,
        Err(_) => {
            return Err(RecordError::BadPrice { value: String::from_str(price_cell) });
        },
    };
    Ok(Record { qty, name: String::from_str(name_cell), price })
}

/// Every row of the table yields a record.
pub open spec fn all_rows_parse(header: Seq<Seq<char>>, rows: Seq<Seq<Seq<char>>>) -> bool {
    forall|i: int| 0 <= i < rows.len() ==> row_record(header, #[trigger] rows[i]) is Some
}

/// The records a table denotes, in row order.
pub open spec fn table_records(header: Seq<Seq<char>>, rows: Seq<Seq<Seq<char>>>) -> Seq<
    (int, Seq<char>, int),
> {
    rows.map_values(|row: Seq<Seq<char>>| row_record(header, row).unwrap())
}

/// Builds all records of a table, in row order; the first malformed
/// row fails the whole read and no records are returned.
pub fn records_of_rows(header: &Vec<String>, rows: &Vec<Vec<String>>) -> (r: Result<
    Vec<Record>,
    RecordError,
>)
    ensures
        match r {
            Ok(recs) => recs@.len() == rows@.len() && (forall|i: int|
                0 <= i < rows@.len() ==> row_record(header.deep_view(), rows.deep_view()[i])
                    == Some(#[trigger] recs@[i]@)),
            Err(e) => exists|i: int|
                {
                    &&& 0 <= i < rows@.len()
                    &&& (forall|j: int|
                        0 <= j < i ==> row_record(
                            header.deep_view(),
                            #[trigger] rows.deep_view()[j],
                        ) is Some)
                    &&& row_record(header.deep_view(), #[trigger] rows.deep_view()[i]) is None
                    &&& row_err_matches(header.deep_view(), rows.deep_view()[i], e)
                },
        },
{
    let ghost hv = header.deep_view();
    let mut recs: Vec<Record> = Vec::new();
    let n = rows.len();
    let mut i: usize = 0;
    while i < n
        invariant
            i <= n,
            n == rows@.len(),
            hv == header.deep_view(),
            recs@.len() == i,
            forall|j: int|
                0 <= j < i ==> row_record(hv, rows.deep_view()[j]) == Some(
                    #[trigger] recs@[j]@,
                ),
        decreases n - i,
    {
        proof {
            assert(rows.deep_view()[i as int] == rows@[i as int].deep_view());
        }
        match record_of_row(header, &rows[i]) {
            Ok(rec) => {
                recs.push(rec);
            },
            Err(e) => {
                proof {
                    assert(row_record(hv, rows.deep_view()[i as int]) is None);
                    assert forall|j: int|
                        0 <= j < i implies row_record(
                        hv,
                        #[trigger] rows.deep_view()[j],
                    ) is Some by {
                        assert(row_record(hv, rows.deep_view()[j]) == Some(recs@[j]@));
                    }
                }
                return Err(e);
            },
        }
        i += 1;
    }
    Ok(recs)
}

} // verus!
