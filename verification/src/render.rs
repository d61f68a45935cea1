//! The report rendered as an aligned, fixed-width table: a header, a
//! rule, one row per display name in the selected order, another rule,
//! and the totals.

use vstd::prelude::*;
use vstd::string::StrSliceExecFns;
use vstd::string::StringExecFns;

use crate::report::Report;
use crate::report::metric_of;
use crate::report::product_names;
use crate::report::revenue_of;
use crate::report::units_of;
use crate::sort::order_le;
use crate::usd::Usd;
use crate::usd::dec_rep;
use crate::usd::pad_left;
use crate::usd::push_dec;
use crate::usd::push_spaces;
use crate::usd::spaces;
use crate::usd::usd_display;

verus! {

broadcast use vstd::seq_lib::group_to_multiset_ensures, vstd::multiset::group_multiset_axioms;

/// `s` padded with spaces on the right to width `w`; a longer `s`
/// stands unpadded.
pub open spec fn pad_right(s: Seq<char>, w: int) -> Seq<char> {
    s + spaces(w - s.len())
}

pub open spec fn dashes(k: int) -> Seq<char>
    decreases k,
{
    if k <= 0 {
        Seq::empty()
    } else {
        dashes(k - 1).push('-')
    }
}

/// The width of the name column: the longest display name present, or
/// zero for a report with no products.
pub open spec fn name_width(ps: Seq<(Seq<char>, int, int)>) -> int
    decreases ps.len(),
{
    if ps.len() == 0 {
        0
    } else {
        let m = name_width(ps.drop_last());
        if ps.last().0.len() > m {
            ps.last().0.len() as int
        } else {
            m
        }
    }
}

pub open spec fn header_line(width: int) -> Seq<char> {
    pad_right("Product / Group"@, width) + seq![' '] + pad_left("Units"@, 6) + seq![' ']
        + pad_left("Revenue"@, 12) + seq!['\n']
}

pub open spec fn rule_line(width: int) -> Seq<char> {
    dashes(width + 20) + seq!['\n']
}

pub open spec fn render_row(name: Seq<char>, units: int, revenue: int, width: int) -> Seq<
    char,
> {
    pad_right(name, width) + seq![' '] + pad_left(dec_rep(units as nat), 6) + seq![' ']
        + usd_display(revenue) + seq!['\n']
}

pub open spec fn totals_line(units: int, revenue: int, width: int) -> Seq<char> {
    pad_right("Total"@, width) + seq![' '] + pad_left(dec_rep(units as nat), 6) + seq![' ']
        + usd_display(revenue) + seq!['\n']
}

/// The body: one row per name, in the given order.
pub open spec fn render_rows(
    order: Seq<Seq<char>>,
    ps: Seq<(Seq<char>, int, int)>,
    width: int,
) -> Seq<char>
    decreases order.len(),
{
    if order.len() == 0 {
        Seq::empty()
    } else {
        render_row(order[0], units_of(ps, order[0]), revenue_of(ps, order[0]), width)
            + render_rows(order.skip(1), ps, width)
    }
}

/// The whole table for a given row order.
pub open spec fn render_table(
    order: Seq<Seq<char>>,
    ps: Seq<(Seq<char>, int, int)>,
    units: int,
    revenue: int,
) -> Seq<char> {
    let width = name_width(ps);
    header_line(width) + rule_line(width) + render_rows(order, ps, width) + rule_line(width)
        + totals_line(units, revenue, width)
}

/// An acceptable row order: exactly the report's display names, sorted
/// descending by the selected metric with alphabetical tie-break.
pub open spec fn is_presentation_order(
    order: Seq<Seq<char>>,
    ps: Seq<(Seq<char>, int, int)>,
    by_revenue: bool,
) -> bool {
    &&& order.to_multiset() == product_names(ps).to_multiset()
    &&& forall|p: int, q: int|
        0 <= p < q < order.len() ==> order_le(
            (#[trigger] order[p], metric_of(ps, order[p], by_revenue)),
            (#[trigger] order[q], metric_of(ps, order[q], by_revenue)),
        )
}

/// Appending one name appends its row.
proof fn lemma_render_rows_snoc(
    order: Seq<Seq<char>>,
    ps: Seq<(Seq<char>, int, int)>,
    width: int,
    nm: Seq<char>,
)
    ensures
        render_rows(order.push(nm), ps, width) == render_rows(order, ps, width) + render_row(
            nm,
            units_of(ps, nm),
            revenue_of(ps, nm),
            width,
        ),
    decreases order.len(),
{
    if order.len() == 0 {
        assert(order.push(nm)[0] == nm);
        assert(order.push(nm).skip(1) =~= Seq::<Seq<char>>::empty());
        assert(Seq::<char>::empty() + render_row(
            nm,
            units_of(ps, nm),
            revenue_of(ps, nm),
            width,
        ) =~= render_row(nm, units_of(ps, nm), revenue_of(ps, nm), width));
        assert(render_rows(order, ps, width) =~= Seq::<char>::empty());
        assert(render_rows(order.push(nm), ps, width) =~= render_row(
            nm,
            units_of(ps, nm),
            revenue_of(ps, nm),
            width,
        ) + render_rows(order.push(nm).skip(1), ps, width));
    } else {
        assert(order.push(nm)[0] == order[0]);
        assert(order.push(nm).skip(1) =~= order.skip(1).push(nm));
        lemma_render_rows_snoc(order.skip(1), ps, width, nm);
        let r0 = render_row(order[0], units_of(ps, order[0]), revenue_of(ps, order[0]), width);
        assert(render_rows(order.push(nm), ps, width) == r0 + render_rows(
            order.skip(1).push(nm),
            ps,
            width,
        ));
        assert(r0 + (render_rows(order.skip(1), ps, width) + render_row(
            nm,
            units_of(ps, nm),
            revenue_of(ps, nm),
            width,
        )) =~= (r0 + render_rows(order.skip(1), ps, width)) + render_row(
            nm,
            units_of(ps, nm),
            revenue_of(ps, nm),
            width,
        ));
    }
}

/// Appends `k` dashes.
fn push_dashes(k: usize, out: &mut String)
    ensures
        final(out)@ == old(out)@ + dashes(k as int),
{
    let mut i: usize = 0;
    while i < k
        invariant
            i <= k,
            out@ == old(out)@ + dashes(i as int),
        decreases k - i,
    {
        out.append("-");
        proof {
            reveal_strlit("-");
            assert(out@ =~= old(out)@ + dashes(i + 1));
        }
        i += 1;
    }
}

/// Appends `s` padded on the right to `width`.
fn push_padded_str(s: &str, width: usize, out: &mut String)
    ensures
        final(out)@ == old(out)@ + pad_right(s@, width as int),
{
    let ghost prev = out@;
    out.append(s);
    let l = s.unicode_len();
    if l < width {
        push_spaces(width - l, out);
    } else {
        proof {
            assert(spaces(width - s@.len()) =~= Seq::<char>::empty());
        }
    }
    proof {
        assert(out@ =~= prev + pad_right(s@, width as int));
    }
}

/// Appends `n` right-aligned to width six.
fn push_count(n: u64, out: &mut String)
    ensures
        final(out)@ == old(out)@ + pad_left(dec_rep(n as nat), 6),
{
    let ghost prev = out@;
    let mut digits = String::new();
    push_dec(n, &mut digits);
    let l = digits.as_str().unicode_len();
    if l < 6 {
        push_spaces(6 - l, out);
    } else {
        proof {
            assert(spaces(6 - dec_rep(n as nat).len()) =~= Seq::<char>::empty());
        }
    }
    out.append(digits.as_str());
    proof {
        assert(out@ =~= prev + pad_left(dec_rep(n as nat), 6));
    }
}

impl Report {
    /// The width of the name column: the longest display name, zero
    /// when the report has no products.
    fn column_width(&self) -> (r: usize)
        ensures
            r as int == name_width(self@.products),
    {
        let ghost ps = self@.products;
        let n = self.products_len();
        let mut w: usize = 0;
        let mut i: usize = 0;
        while i < n
            invariant
                i <= n,
                n == ps.len(),
                ps == self@.products,
                w as int == name_width(ps.take(i as int)),
            decreases n - i,
        {
            let l = self.product_name_at(i).unicode_len();
            proof {
                assert(ps.take(i + 1).drop_last() =~= ps.take(i as int));
                assert(ps.take(i + 1).last() == ps[i as int]);
            }
            if l > w {
                w = l;
            }
            i += 1;
        }
        proof {
            assert(ps.take(n as int) =~= ps);
        }
        w
    }

    /// Renders the report as an aligned table: header, rule, one row
    /// per display name in the selected order, rule, totals. A report
    /// with no products renders the frame and totals alone.
    pub fn render(&self) -> (r: String)
        requires
            self.wf(),
            name_width(self@.products) + 20 <= usize::MAX,
        ensures
            exists|order: Seq<Seq<char>>|
                #![trigger render_table(order, self@.products, self@.units, self@.revenue)]
                is_presentation_order(order, self@.products, self@.sort_by_revenue) && r@
                    == render_table(order, self@.products, self@.units, self@.revenue),
    {
        let ghost ps = self@.products;
        let names = if self.sorts_by_revenue() {
            self.products_by_revenue()
        } else {
            self.products_by_unit_sales()
        };
        let ghost order = names@.map_values(|s: String| s@);
        proof {
            assert(is_presentation_order(order, ps, self@.sort_by_revenue)) by {
                assert forall|p: int, q: int|
                    0 <= p < q < order.len() implies order_le(
                    (#[trigger] order[p], metric_of(ps, order[p], self@.sort_by_revenue)),
                    (#[trigger] order[q], metric_of(ps, order[q], self@.sort_by_revenue)),
                ) by {
                    assert(order[p] == names@[p]@);
                    assert(order[q] == names@[q]@);
                }
            }
        }
        let width = self.column_width();
        let mut out = String::new();
        // header
        push_padded_str("Product / Group", width, &mut out);
        out.append(" ");
        push_spaces(1, &mut out);
        proof {
            reveal_strlit(" ");
            reveal_strlit("Units");
            assert(spaces(0) =~= Seq::<char>::empty());
            assert(spaces(1) =~= seq![' ']);
            assert("Units"@.len() == 5);
            assert(pad_left("Units"@, 6) =~= spaces(1) + "Units"@);
        }
        out.append("Units");
        out.append(" ");
        push_spaces(5, &mut out);
        proof {
            reveal_strlit("Revenue");
            assert("Revenue"@.len() == 7);
            assert(pad_left("Revenue"@, 12) =~= spaces(5) + "Revenue"@);
        }
        out.append("Revenue");
        out.append("\n");
        proof {
            reveal_strlit("\n");
            assert("\n"@ =~= seq!['\n']);
            assert(" "@ =~= seq![' ']);
            assert(out@ =~= header_line(width as int));
        }
        // rule
        push_dashes(width + 20, &mut out);
        out.append("\n");
        let ghost rows_start = out@;
        proof {
            assert(rows_start =~= header_line(width as int) + rule_line(width as int));
        }
        // rows
        let n = names.len();
        let mut i: usize = 0;
        proof {
            assert(render_rows(order.take(0), ps, width as int) =~= Seq::<char>::empty());
            assert(out@ =~= rows_start + render_rows(order.take(0), ps, width as int));
        }
        while i < n
            invariant
                i <= n,
                n == names@.len(),
                order == names@.map_values(|s: String| s@),
                ps == self@.products,
                self.wf(),
                width as int == name_width(ps),
                order.to_multiset() == product_names(ps).to_multiset(),
                rows_start == header_line(width as int) + rule_line(width as int),
                out@ == rows_start + render_rows(order.take(i as int), ps, width as int),
            decreases n - i,
        {
            proof {
                assert(order[i as int] == names@[i as int]@);
                assert(order.contains(order[i as int]));
                assert(order.to_multiset().contains(order[i as int]));
                assert(product_names(ps).to_multiset().contains(order[i as int]));
                assert(product_names(ps).contains(order[i as int]));
                let t = choose|t: int|
                    0 <= t < product_names(ps).len() && product_names(ps)[t] == order[i as int];
                assert(ps[t].0 == order[i as int]);
                crate::report::lemma_find_name_self(ps, t);
                assert(crate::report::has_name(ps, order[i as int]));
            }
            let nm = &names[i];
            let entry = match self.product(nm.as_str()) {
                Some(e) => e,
                None => {
                    proof {
                        assert(false);
                    }
                    (0, Usd::new(0))
                },
            };
            let ghost prev = out@;
            push_padded_str(nm.as_str(), width, &mut out);
            out.append(" ");
            push_count(entry.0, &mut out);
            out.append(" ");
            let money = entry.1.format();
            out.append(money.as_str());
            out.append("\n");
            proof {
                reveal_strlit(" ");
                reveal_strlit("\n");
                assert(out@ =~= prev + render_row(
                    order[i as int],
                    units_of(ps, order[i as int]),
                    revenue_of(ps, order[i as int]),
                    width as int,
                ));
                assert(order.take(i + 1) =~= order.take(i as int).push(order[i as int]));
                lemma_render_rows_snoc(order.take(i as int), ps, width as int, order[i as int]);
                assert(out@ =~= rows_start + render_rows(order.take(i + 1), ps, width as int));
            }
            i += 1;
        }
        proof {
            assert(order.take(n as int) =~= order);
        }
        // rule and totals
        push_dashes(width + 20, &mut out);
        out.append("\n");
        let ghost before_totals = out@;
        push_padded_str("Total", width, &mut out);
        out.append(" ");
        push_count(self.units(), &mut out);
        out.append(" ");
        let money = self.revenue().format();
        out.append(money.as_str());
        out.append("\n");
        proof {
            reveal_strlit(" ");
            reveal_strlit("\n");
            assert(out@ =~= before_totals + totals_line(
                self@.units,
                self@.revenue,
                width as int,
            ));
            assert(out@ =~= render_table(order, ps, self@.units, self@.revenue));
        }
        out
    }
}

} // verus!
