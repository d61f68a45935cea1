//! The sales report: records fold into per-product aggregates keyed by
//! display name, with grand totals kept exactly in step.

use vstd::prelude::*;

use crate::groups::ConfigError;
use crate::groups::Groups;
use crate::groups::all_lines_ok;
use crate::groups::display_name;
use crate::groups::load_err_matches;
use crate::groups::regex_accepts;
use crate::groups::resolve_spec;
use crate::groups::rules_of_lines;
use crate::record::Record;
use crate::record::RecordError;
use crate::record::all_rows_parse;
use crate::record::records_of_rows;
use crate::record::row_err_matches;
use crate::record::row_record;
use crate::record::table_records;
use crate::sort::SortEntry;
use crate::sort::entry_views;
use crate::sort::lemma_map_fst_multiset;
use crate::sort::order_le;
use crate::sort::sort_entries;
use crate::text::lines_of;
use crate::usd::Usd;

verus! {

broadcast use crate::usd::lemma_usd_in_range, vstd::seq_lib::group_to_multiset_ensures,
    vstd::multiset::group_multiset_axioms;

/// The units of all products, summed.
pub open spec fn sum_units(ps: Seq<(Seq<char>, int, int)>) -> int
    decreases ps.len(),
{
    if ps.len() == 0 {
        0
    } else {
        ps[0].1 + sum_units(ps.skip(1))
    }
}

/// The revenue of all products, summed.
pub open spec fn sum_revenue(ps: Seq<(Seq<char>, int, int)>) -> int
    decreases ps.len(),
{
    if ps.len() == 0 {
        0
    } else {
        ps[0].2 + sum_revenue(ps.skip(1))
    }
}

/// Index of the product entry named `name`, or `ps.len()` if there is
/// none.
pub open spec fn find_name(ps: Seq<(Seq<char>, int, int)>, name: Seq<char>) -> nat
    decreases ps.len(),
{
    if ps.len() == 0 {
        0
    } else if ps[0].0 == name {
        0
    } else {
        1 + find_name(ps.skip(1), name)
    }
}

pub open spec fn has_name(ps: Seq<(Seq<char>, int, int)>, name: Seq<char>) -> bool {
    find_name(ps, name) < ps.len()
}

pub proof fn lemma_find_name_eq(ps: Seq<(Seq<char>, int, int)>, name: Seq<char>, k: int)
    requires
        0 <= k <= ps.len(),
        forall|i: int| 0 <= i < k ==> (#[trigger] ps[i]).0 != name,
        k < ps.len() ==> ps[k].0 == name,
    ensures
        find_name(ps, name) == k,
    decreases k,
{
    if k == 0 {
    } else {
        assert(ps[0].0 != name);
        assert(forall|i: int| 0 <= i < ps.len() - 1 ==> ps.skip(1)[i] == ps[i + 1]);
        lemma_find_name_eq(ps.skip(1), name, k - 1);
    }
}

/// The product list after adding `q` units and `rev` revenue under
/// `name`: the existing entry grows, or a new entry is appended.
pub open spec fn upd_products(
    ps: Seq<(Seq<char>, int, int)>,
    name: Seq<char>,
    q: int,
    rev: int,
) -> Seq<(Seq<char>, int, int)> {
    if has_name(ps, name) {
        let i = find_name(ps, name) as int;
        ps.update(i, (name, ps[i].1 + q, ps[i].2 + rev))
    } else {
        ps.push((name, q, rev))
    }
}

/// Growing one entry grows the sums by the same amounts.
pub proof fn lemma_sums_update(ps: Seq<(Seq<char>, int, int)>, i: int, q: int, rev: int)
    requires
        0 <= i < ps.len(),
    ensures
        sum_units(ps.update(i, (ps[i].0, ps[i].1 + q, ps[i].2 + rev))) == sum_units(ps) + q,
        sum_revenue(ps.update(i, (ps[i].0, ps[i].1 + q, ps[i].2 + rev))) == sum_revenue(ps)
            + rev,
    decreases i,
{
    let ps2 = ps.update(i, (ps[i].0, ps[i].1 + q, ps[i].2 + rev));
    if i == 0 {
        assert(ps2.skip(1) =~= ps.skip(1));
    } else {
        assert(ps2[0] == ps[0]);
        assert(ps.skip(1)[i - 1] == ps[i]);
        assert(ps2.skip(1) =~= ps.skip(1).update(
            i - 1,
            (ps.skip(1)[i - 1].0, ps.skip(1)[i - 1].1 + q, ps.skip(1)[i - 1].2 + rev),
        ));
        lemma_sums_update(ps.skip(1), i - 1, q, rev);
    }
}

/// Appending an entry adds its amounts to the sums.
pub proof fn lemma_sums_push(ps: Seq<(Seq<char>, int, int)>, e: (Seq<char>, int, int))
    ensures
        sum_units(ps.push(e)) == sum_units(ps) + e.1,
        sum_revenue(ps.push(e)) == sum_revenue(ps) + e.2,
    decreases ps.len(),
{
    if ps.len() == 0 {
        assert(ps.push(e)[0] == e);
        assert(ps.push(e).skip(1) =~= Seq::<(Seq<char>, int, int)>::empty());
        assert(sum_units(ps.push(e)) == e.1 + sum_units(ps.push(e).skip(1)));
        assert(sum_revenue(ps.push(e)) == e.2 + sum_revenue(ps.push(e).skip(1)));
    } else {
        assert(ps.push(e)[0] == ps[0]);
        assert(ps.push(e).skip(1) =~= ps.skip(1).push(e));
        lemma_sums_push(ps.skip(1), e);
        assert(sum_units(ps.push(e)) == ps[0].1 + sum_units(ps.skip(1).push(e)));
        assert(sum_revenue(ps.push(e)) == ps[0].2 + sum_revenue(ps.skip(1).push(e)));
    }
}

/// The product names, in the report's internal order.
pub open spec fn product_names(ps: Seq<(Seq<char>, int, int)>) -> Seq<Seq<char>> {
    ps.map_values(|e: (Seq<char>, int, int)| e.0)
}

/// The unit count recorded under `name`.
pub open spec fn units_of(ps: Seq<(Seq<char>, int, int)>, name: Seq<char>) -> int {
    ps[find_name(ps, name) as int].1
}

/// The revenue recorded under `name`.
pub open spec fn revenue_of(ps: Seq<(Seq<char>, int, int)>, name: Seq<char>) -> int {
    ps[find_name(ps, name) as int].2
}

/// The chosen sort metric recorded under `name`.
pub open spec fn metric_of(ps: Seq<(Seq<char>, int, int)>, name: Seq<char>, by_revenue: bool) -> int {
    if by_revenue {
        revenue_of(ps, name)
    } else {
        units_of(ps, name)
    }
}

/// With distinct names, each entry is found under its own name.
pub proof fn lemma_find_name_self(ps: Seq<(Seq<char>, int, int)>, t: int)
    requires
        forall|i: int, j: int|
            #![trigger ps[i], ps[j]]
            0 <= i < j < ps.len() ==> ps[i].0 != ps[j].0,
        0 <= t < ps.len(),
    ensures
        find_name(ps, ps[t].0) == t,
{
    assert forall|i: int| 0 <= i < t implies (#[trigger] ps[i]).0 != ps[t].0 by {
        assert(ps[i].0 != ps[t].0);
    }
    lemma_find_name_eq(ps, ps[t].0, t);
}

/// The whole state of a report, as mathematical values.
pub ghost struct ReportV {
    pub rules: Seq<(Seq<char>, Seq<char>)>,
    pub products: Seq<(Seq<char>, int, int)>,
    pub units: int,
    pub revenue: int,
    pub sort_by_revenue: bool,
}

impl ReportV {
    /// Well-formedness: product names are distinct, every aggregate is
    /// representable, and the grand totals equal the per-product sums.
    pub open spec fn wf(self) -> bool {
        &&& (forall|i: int, j: int|
            #![trigger self.products[i], self.products[j]]
            0 <= i < j < self.products.len() ==> self.products[i].0 != self.products[j].0)
        &&& (forall|i: int|
            0 <= i < self.products.len() ==> 0 <= (#[trigger] self.products[i]).1
                <= u64::MAX && i64::MIN <= self.products[i].2 <= i64::MAX)
        &&& self.units == sum_units(self.products)
        &&& self.revenue == sum_revenue(self.products)
        &&& 0 <= self.units <= u64::MAX
        &&& i64::MIN <= self.revenue <= i64::MAX
    }
}

/// The revenue one record contributes: unit price times quantity.
pub open spec fn rec_rev(rec: (int, Seq<char>, int)) -> int {
    rec.2 * rec.0
}

/// Whether folding `rec` into `st` stays within every representable
/// range.
pub open spec fn fold_ok_step(st: ReportV, rec: (int, Seq<char>, int)) -> bool {
    let name = display_name(st.rules, rec.1);
    let i = find_name(st.products, name) as int;
    &&& i64::MIN <= rec_rev(rec) <= i64::MAX
    &&& st.units + rec.0 <= u64::MAX
    &&& i64::MIN <= st.revenue + rec_rev(rec) <= i64::MAX
    &&& (has_name(st.products, name) ==> st.products[i].1 + rec.0 <= u64::MAX && i64::MIN
        <= st.products[i].2 + rec_rev(rec) <= i64::MAX)
}

/// One record folded into the report state.
pub open spec fn fold_step(st: ReportV, rec: (int, Seq<char>, int)) -> ReportV {
    let name = display_name(st.rules, rec.1);
    ReportV {
        products: upd_products(st.products, name, rec.0, rec_rev(rec)),
        units: st.units + rec.0,
        revenue: st.revenue + rec_rev(rec),
        rules: st.rules,
        sort_by_revenue: st.sort_by_revenue,
    }
}

/// All records folded left to right; `None` as soon as a step would
/// leave the representable range.
pub open spec fn fold_records(st: ReportV, recs: Seq<(int, Seq<char>, int)>) -> Option<
    ReportV,
>
    decreases recs.len(),
{
    if recs.len() == 0 {
        Some(st)
    } else if fold_ok_step(st, recs[0]) {
        fold_records(fold_step(st, recs[0]), recs.skip(1))
    } else {
        None
    }
}

/// A fold stops at the first prefix it cannot take.
pub proof fn lemma_fold_split(st: ReportV, recs: Seq<(int, Seq<char>, int)>, p: int)
    requires
        0 <= p <= recs.len(),
    ensures
        fold_records(st, recs) == (match fold_records(st, recs.take(p)) {
            Some(m) => fold_records(m, recs.skip(p)),
            None => None::<ReportV>,
        }),
    decreases p,
{
    if p == 0 {
        assert(recs.take(0) =~= Seq::<(int, Seq<char>, int)>::empty());
        assert(recs.skip(0) =~= recs);
    } else {
        assert(recs.len() > 0);
        assert(recs.take(p)[0] == recs[0]);
        assert(recs.take(p).len() > 0);
        if fold_ok_step(st, recs[0]) {
            let st2 = fold_step(st, recs[0]);
            assert(recs.take(p).skip(1) =~= recs.skip(1).take(p - 1));
            assert(recs.skip(1).skip(p - 1) =~= recs.skip(p));
            lemma_fold_split(st2, recs.skip(1), p - 1);
        }
    }
}

/// Extending the records by one extends the fold by one step.
pub proof fn lemma_fold_snoc(
    st: ReportV,
    recs: Seq<(int, Seq<char>, int)>,
    rec: (int, Seq<char>, int),
)
    ensures
        fold_records(st, recs.push(rec)) == (match fold_records(st, recs) {
            Some(m) => if fold_ok_step(m, rec) {
                Some(fold_step(m, rec))
            } else {
                None::<ReportV>
            },
            None => None::<ReportV>,
        }),
    decreases recs.len(),
{
    if recs.len() == 0 {
        assert(recs.push(rec)[0] == rec);
        assert(recs.push(rec).skip(1) =~= Seq::<(int, Seq<char>, int)>::empty());
        assert(fold_records(st, recs) == Some(st));
        if fold_ok_step(st, rec) {
            let st2 = fold_step(st, rec);
            assert(fold_records(st2, recs.push(rec).skip(1)) == Some(st2));
            assert(fold_records(st, recs.push(rec)) == Some(st2));
        } else {
            assert(fold_records(st, recs.push(rec)) is None);
        }
    } else {
        assert(recs.push(rec)[0] == recs[0]);
        assert(recs.push(rec).skip(1) =~= recs.skip(1).push(rec));
        if fold_ok_step(st, recs[0]) {
            let st2 = fold_step(st, recs[0]);
            lemma_fold_snoc(st2, recs.skip(1), rec);
            assert(fold_records(st, recs.push(rec)) == fold_records(
                st2,
                recs.skip(1).push(rec),
            ));
            assert(fold_records(st, recs) == fold_records(st2, recs.skip(1)));
        } else {
            assert(fold_records(st, recs.push(rec)) is None);
            assert(fold_records(st, recs) is None);
        }
    }
}

/// A fold that cannot take the step after a prefix yields nothing.
pub proof fn lemma_fold_fails_at(
    st: ReportV,
    cur: ReportV,
    recs: Seq<(int, Seq<char>, int)>,
    k: int,
)
    requires
        0 <= k < recs.len(),
        fold_records(st, recs.take(k)) == Some(cur),
        !fold_ok_step(cur, recs[k]),
    ensures
        fold_records(st, recs) is None,
{
    lemma_fold_split(st, recs, k);
    assert(recs.skip(k)[0] == recs[k]);
    assert(recs.skip(k).len() > 0);
}

/// The state after folding the longest prefix of the records that
/// stays within range: the point where the fold stops.
pub open spec fn fold_prefix(st: ReportV, recs: Seq<(int, Seq<char>, int)>) -> ReportV
    decreases recs.len(),
{
    if recs.len() == 0 {
        st
    } else if fold_ok_step(st, recs[0]) {
        fold_prefix(fold_step(st, recs[0]), recs.skip(1))
    } else {
        st
    }
}

/// When the fold gets stuck right after a prefix, the prefix's state
/// is the state that is kept.
pub proof fn lemma_fold_prefix_stuck(
    st: ReportV,
    recs: Seq<(int, Seq<char>, int)>,
    k: int,
    m: ReportV,
)
    requires
        0 <= k < recs.len(),
        fold_records(st, recs.take(k)) == Some(m),
        !fold_ok_step(m, recs[k]),
    ensures
        fold_prefix(st, recs) == m,
    decreases k,
{
    if k == 0 {
        assert(recs.take(0) =~= Seq::<(int, Seq<char>, int)>::empty());
    } else {
        assert(recs.take(k)[0] == recs[0]);
        assert(recs.take(k).len() > 0);
        assert(fold_ok_step(st, recs[0]));
        assert(recs.take(k).skip(1) =~= recs.skip(1).take(k - 1));
        assert(recs.skip(1)[k - 1] == recs[k]);
        lemma_fold_prefix_stuck(fold_step(st, recs[0]), recs.skip(1), k - 1, m);
    }
}

/// The records a vector of exec records stands for.
pub open spec fn records_view(rs: Seq<Record>) -> Seq<(int, Seq<char>, int)> {
    rs.map_values(|r: Record| r@)
}

/// Per-product aggregate: units sold and revenue taken.
pub struct Product {
    pub units: u64,
    pub revenue: Usd,
}

/// Holds sales data: group rules, per-product aggregates keyed by
/// display name, grand totals, and the presentation order flag.
pub struct Report {
    groups: Groups,
    products: Vec<(String, Product)>,
    units: u64,
    revenue: Usd,
    pub sort_by_revenue: bool,
}

impl View for Report {
    type V = ReportV;

    closed spec fn view(&self) -> ReportV {
        ReportV {
            rules: self.groups@,
            products: self.products@.map_values(
                |e: (String, Product)| (e.0@, e.1.units as int, e.1.revenue@),
            ),
            units: self.units as int,
            revenue: self.revenue@,
            sort_by_revenue: self.sort_by_revenue,
        }
    }
}

/// In a well-formed report the grand totals always equal the sums over
/// all per-product aggregates.
pub proof fn lemma_totals_consistent(r: ReportV)
    requires
        r.wf(),
    ensures
        r.units == sum_units(r.products),
        r.revenue == sum_revenue(r.products),
{
}

/// The two presentation orders are permutations of one and the same
/// key set: any two orderings of a report's names list exactly the
/// same names.
pub proof fn lemma_orders_same_names(
    a: Seq<Seq<char>>,
    b: Seq<Seq<char>>,
    ps: Seq<(Seq<char>, int, int)>,
)
    requires
        a.to_multiset() == product_names(ps).to_multiset(),
        b.to_multiset() == product_names(ps).to_multiset(),
    ensures
        a.to_multiset() == b.to_multiset(),
{
}

impl Report {
    pub open spec fn wf(&self) -> bool {
        self@.wf()
    }

    /// Creates a new, empty report with no data or group configuration.
    pub fn new() -> (r: Report)
        ensures
            r.wf(),
            r@.rules == Seq::<(Seq<char>, Seq<char>)>::empty(),
            r@.products == Seq::<(Seq<char>, int, int)>::empty(),
            r@.units == 0,
            r@.revenue == 0,
            r@.sort_by_revenue == false,
    {
        let r = Report {
            groups: Groups::new(),
            products: Vec::new(),
            units: 0,
            revenue: Usd::new(0),
            sort_by_revenue: false,
        };
        proof {
            assert(r@.products =~= Seq::<(Seq<char>, int, int)>::empty());
        }
        r
    }

    /// How many distinct display names the report holds.
    pub fn products_len(&self) -> (r: usize)
        ensures
            r as int == self@.products.len(),
    {
        self.products.len()
    }

    /// The display name of the product entry at `i`.
    pub(crate) fn product_name_at<'a>(&'a self, i: usize) -> (r: &'a str)
        requires
            i < self@.products.len(),
        ensures
            r@ == self@.products[i as int].0,
    {
        proof {
            assert(self@.products[i as int].0 == self.products@[i as int].0@);
        }
        self.products[i].0.as_str()
    }

    /// Whether presentation uses the revenue order.
    pub fn sorts_by_revenue(&self) -> (r: bool)
        ensures
            r == self@.sort_by_revenue,
    {
        self.sort_by_revenue
    }

    /// The number of units sold over all records read so far.
    pub fn units(&self) -> (r: u64)
        ensures
            r as int == self@.units,
    {
        self.units
    }

    /// The revenue taken over all records read so far.
    pub fn revenue(&self) -> (r: Usd)
        ensures
            r@ == self@.revenue,
    {
        self.revenue
    }

    /// The aggregate recorded under `name`, if any.
    pub fn product(&self, name: &str) -> (r: Option<(u64, Usd)>)
        ensures
            match r {
                Some(p) => has_name(self@.products, name@) && {
                    let i = find_name(self@.products, name@) as int;
                    p.0 as int == self@.products[i].1 && p.1@ == self@.products[i].2
                },
                None => !has_name(self@.products, name@),
            },
    {
        let ghost pv = self@.products;
        let n = self.products.len();
        let nm = String::from_str(name);
        let mut i: usize = 0;
        while i < n
            invariant
                i <= n,
                n == self.products@.len(),
                pv == self@.products,
                nm@ == name@,
                forall|q: int| 0 <= q < i ==> (#[trigger] pv[q]).0 != name@,
            decreases n - i,
        {
            proof {
                assert(pv[i as int].0 == self.products@[i as int].0@);
            }
            if self.products[i].0.eq(&nm) {
                proof {
                    lemma_find_name_eq(pv, name@, i as int);
                }
                return Some((self.products[i].1.units, self.products[i].1.revenue));
            }
            i += 1;
        }
        proof {
            lemma_find_name_eq(pv, name@, n as int);
        }
        None
    }

    /// Adds a new group rule; fails, changing nothing, exactly when the
    /// engine rejects the pattern.
    pub fn add_group(&mut self, name: &str, regex_str: &str) -> (r: Result<(), ConfigError>)
        requires
            old(self).wf(),
        ensures
            final(self).wf(),
            final(self)@.products == old(self)@.products,
            final(self)@.units == old(self)@.units,
            final(self)@.revenue == old(self)@.revenue,
            final(self)@.sort_by_revenue == old(self)@.sort_by_revenue,
            match r {
                Ok(()) => regex_accepts(regex_str@) && final(self)@.rules == old(
                    self,
                )@.rules.push((name@, regex_str@)),
                Err(e) => final(self)@ == old(self)@ && !regex_accepts(regex_str@) && (match e {
                    ConfigError::BadPattern { pattern } => pattern@ == regex_str@,
                    _ => false,
                }),
            },
    {
        self.groups.add_rule(name, regex_str)
    }

    /// Reads group configuration from text, one `NAME | REGEX` line per
    /// rule, appending the rules in order; the first unacceptable line
    /// fails the read and the report keeps its previous rules.
    pub fn read_groups(&mut self, text: &str) -> (r: Result<(), ConfigError>)
        requires
            old(self).wf(),
        ensures
            final(self).wf(),
            final(self)@.products == old(self)@.products,
            final(self)@.units == old(self)@.units,
            final(self)@.revenue == old(self)@.revenue,
            final(self)@.sort_by_revenue == old(self)@.sort_by_revenue,
            match r {
                Ok(()) => all_lines_ok(text@) && final(self)@.rules == old(self)@.rules
                    + rules_of_lines(lines_of(text@)),
                Err(e) => final(self)@ == old(self)@ && load_err_matches(text@, e),
            },
    {
        match Groups::from_text(text) {
            Ok(g) => {
                self.groups.append(g);
                Ok(())
            },
            Err(e) => Err(e),
        }
    }

    /// Returns the product group for `line_item`: the name of the first
    /// rule, in order, whose pattern matches, if any.
    pub fn product_group(&self, line_item: &str) -> (r: Option<String>)
        ensures
            match r {
                Some(name) => resolve_spec(self@.rules, line_item@) == Some(name@),
                None => resolve_spec(self@.rules, line_item@) is None,
            },
    {
        self.groups.product_group(line_item)
    }

    /// Folds records into the report in order. Every record lands under
    /// its display name: the first matching group's name, or the item
    /// name itself. The grand totals grow in exact step. An aggregate
    /// leaving the representable range stops the fold at that record.
    pub fn add_records(&mut self, records: &Vec<Record>) -> (r: Result<(), RecordError>)
        requires
            old(self).wf(),
        ensures
            final(self).wf(),
            final(self)@.rules == old(self)@.rules,
            final(self)@.sort_by_revenue == old(self)@.sort_by_revenue,
            match r {
                Ok(()) => fold_records(old(self)@, records_view(records@)) == Some(
                    final(self)@,
                ),
                Err(e) => {
                    &&& e matches RecordError::Overflow
                    &&& fold_records(old(self)@, records_view(records@)) is None
                    &&& final(self)@ == fold_prefix(old(self)@, records_view(records@))
                },
            },
    {
        let ghost rv = records_view(records@);
        let n = records.len();
        let mut k: usize = 0;
        proof {
            assert(rv.take(0) =~= Seq::<(int, Seq<char>, int)>::empty());
        }
        while k < n
            invariant
                k <= n,
                n == records@.len(),
                rv == records_view(records@),
                self@.wf(),
                self@.rules == old(self)@.rules,
                self@.sort_by_revenue == old(self)@.sort_by_revenue,
                old(self).wf(),
                fold_records(old(self)@, rv.take(k as int)) == Some(self@),
            decreases n - k,
        {
            let ghost cur = self@;
            let rec = &records[k];
            proof {
                assert(rv[k as int] == records@[k as int]@);
            }
            let dn: String = match self.groups.product_group(rec.name.as_str()) {
                Some(g) => g,
                None => rec.name.clone(),
            };
            proof {
                assert(dn@ == display_name(cur.rules, rv[k as int].1));
            }
            let ghost pv = self@.products;
            let m = self.products.len();
            let mut idx: usize = 0;
            while idx < m && !self.products[idx].0.eq(&dn)
                invariant
                    idx <= m,
                    m == self.products@.len(),
                    pv == self@.products,
                    forall|q: int| 0 <= q < idx ==> (#[trigger] pv[q]).0 != dn@,
                    idx < m ==> pv[idx as int].0 == self.products@[idx as int].0@,
                decreases m - idx,
            {
                idx += 1;
                proof {
                    if idx < m {
                        assert(pv[idx as int].0 == self.products@[idx as int].0@);
                    }
                }
            }
            proof {
                if idx < m {
                    lemma_find_name_eq(pv, dn@, idx as int);
                } else {
                    lemma_find_name_eq(pv, dn@, m as int);
                }
            }
            let rev: Usd = match rec.price.checked_mul_units(rec.qty) {
                Some(x) => x,
                None => {
                    proof {
                        lemma_fold_fails_at(old(self)@, cur, rv, k as int);
                        lemma_fold_prefix_stuck(old(self)@, rv, k as int, cur);
                    }
                    return Err(RecordError::Overflow);
                },
            };
            let qty64: u64 = rec.qty as u64;
            let new_tu: u64 = match self.units.checked_add(qty64) {
                Some(x) => x,
                None => {
                    proof {
                        lemma_fold_fails_at(old(self)@, cur, rv, k as int);
                        lemma_fold_prefix_stuck(old(self)@, rv, k as int, cur);
                    }
                    return Err(RecordError::Overflow);
                },
            };
            let new_tr: Usd = match self.revenue.checked_add(rev) {
                Some(x) => x,
                None => {
                    proof {
                        lemma_fold_fails_at(old(self)@, cur, rv, k as int);
                        lemma_fold_prefix_stuck(old(self)@, rv, k as int, cur);
                    }
                    return Err(RecordError::Overflow);
                },
            };
            if idx < m {
                let new_pu: u64 = match self.products[idx].1.units.checked_add(qty64) {
                    Some(x) => x,
                    None => {
                        proof {
                            lemma_fold_fails_at(old(self)@, cur, rv, k as int);
                            lemma_fold_prefix_stuck(old(self)@, rv, k as int, cur);
                        }
                        return Err(RecordError::Overflow);
                    },
                };
                let new_pr: Usd = match self.products[idx].1.revenue.checked_add(rev) {
                    Some(x) => x,
                    None => {
                        proof {
                            lemma_fold_fails_at(old(self)@, cur, rv, k as int);
                            lemma_fold_prefix_stuck(old(self)@, rv, k as int, cur);
                        }
                        return Err(RecordError::Overflow);
                    },
                };
                let nm = self.products[idx].0.clone();
                let ghost pe = pv[idx as int];
                proof {
                    assert(pe == (
                        self.products@[idx as int].0@,
                        self.products@[idx as int].1.units as int,
                        self.products@[idx as int].1.revenue@,
                    ));
                    assert(has_name(cur.products, dn@));
                    assert(new_pu as int == pe.1 + qty64 && new_pr@ == pe.2 + rev@);
                    assert(fold_ok_step(cur, rv[k as int]));
                }
                self.products.set(idx, (nm, Product { units: new_pu, revenue: new_pr }));
                self.units = new_tu;
                self.revenue = new_tr;
                proof {
                    assert(self@.products =~= pv.update(
                        idx as int,
                        (pe.0, pe.1 + qty64, pe.2 + rev@),
                    ));
                    lemma_sums_update(pv, idx as int, qty64 as int, rev@);
                    assert(pe.0 == dn@);
                    assert(upd_products(pv, dn@, qty64 as int, rev@) == pv.update(
                        idx as int,
                        (dn@, pe.1 + qty64, pe.2 + rev@),
                    ));
                    assert(self@.products =~= upd_products(pv, dn@, qty64 as int, rev@));
                    assert(self@ == fold_step(cur, rv[k as int]));
                    assert(forall|i: int|
                        0 <= i < self@.products.len() ==> (#[trigger] self@.products[i]).0
                            == pv[i].0);
                    assert forall|i: int, j: int|
                        #![trigger self@.products[i], self@.products[j]]
                        0 <= i < j < self@.products.len() implies self@.products[i].0
                        != self@.products[j].0 by {
                        assert(pv[i].0 != pv[j].0);
                    }
                    assert forall|i: int|
                        0 <= i < self@.products.len() implies 0 <= (
                        #[trigger] self@.products[i]).1 <= u64::MAX && i64::MIN
                        <= self@.products[i].2 <= i64::MAX by {
                        if i != idx {
                            assert(self@.products[i] == pv[i]);
                        }
                    }
                    assert(self@.wf());
                }
            } else {
                proof {
                    assert(!has_name(cur.products, dn@));
                    assert(fold_ok_step(cur, rv[k as int]));
                }
                self.products.push((dn, Product { units: qty64, revenue: rev }));
                self.units = new_tu;
                self.revenue = new_tr;
                proof {
                    assert(self@.products =~= pv.push((dn@, qty64 as int, rev@)));
                    lemma_sums_push(pv, (dn@, qty64 as int, rev@));
                    assert(self@ == fold_step(cur, rv[k as int]));
                    assert forall|i: int, j: int|
                        #![trigger self@.products[i], self@.products[j]]
                        0 <= i < j < self@.products.len() implies self@.products[i].0
                        != self@.products[j].0 by {
                        if j < pv.len() {
                            assert(pv[i].0 != pv[j].0);
                        } else {
                            assert(self@.products[j].0 == dn@);
                            assert(self@.products[i] == pv[i]);
                            assert(pv[i].0 != dn@);
                        }
                    }
                    assert forall|i: int|
                        0 <= i < self@.products.len() implies 0 <= (
                        #[trigger] self@.products[i]).1 <= u64::MAX && i64::MIN
                        <= self@.products[i].2 <= i64::MAX by {
                        if i < pv.len() {
                            assert(self@.products[i] == pv[i]);
                        }
                    }
                    assert(self@.wf());
                }
            }
            proof {
                assert(rv.take(k + 1) =~= rv.take(k as int).push(rv[k as int]));
                lemma_fold_snoc(old(self)@, rv.take(k as int), rv[k as int]);
                assert(fold_records(old(self)@, rv.take(k + 1)) == Some(self@));
            }
            k += 1;
        }
        proof {
            assert(rv.take(n as int) =~= rv);
        }
        Ok(())
    }

    /// Reads sales data from CSV text and folds its records into the
    /// report: the text parses as a table whose rows all yield records,
    /// folded in row order. A CSV-level error or a malformed row leaves
    /// the report unchanged; an aggregate leaving the representable
    /// range keeps exactly the records before it.
    pub fn read_csv(&mut self, data: &str) -> (r: Result<(), RecordError>)
        requires
            old(self).wf(),
        ensures
            final(self).wf(),
            final(self)@.rules == old(self)@.rules,
            final(self)@.sort_by_revenue == old(self)@.sort_by_revenue,
            match r {
                Ok(()) => {
                    &&& csv_ok(data@)
                    &&& all_rows_parse(csv_header_of(data@), csv_rows_of(data@))
                    &&& fold_records(
                        old(self)@,
                        table_records(csv_header_of(data@), csv_rows_of(data@)),
                    ) == Some(final(self)@)
                },
                Err(e) => match e {
                    RecordError::Csv => !csv_ok(data@) && final(self)@ == old(self)@,
                    RecordError::Overflow => {
                        &&& csv_ok(data@)
                        &&& all_rows_parse(csv_header_of(data@), csv_rows_of(data@))
                        &&& fold_records(
                            old(self)@,
                            table_records(csv_header_of(data@), csv_rows_of(data@)),
                        ) is None
                        &&& final(self)@ == fold_prefix(
                            old(self)@,
                            table_records(csv_header_of(data@), csv_rows_of(data@)),
                        )
                    },
                    _ => {
                        &&& csv_ok(data@)
                        &&& final(self)@ == old(self)@
                        &&& exists|i: int|
                            {
                                &&& 0 <= i < csv_rows_of(data@).len()
                                &&& (forall|j: int|
                                    0 <= j < i ==> row_record(
                                        csv_header_of(data@),
                                        #[trigger] csv_rows_of(data@)[j],
                                    ) is Some)
                                &&& row_record(
                                    csv_header_of(data@),
                                    #[trigger] csv_rows_of(data@)[i],
                                ) is None
                                &&& row_err_matches(
                                    csv_header_of(data@),
                                    csv_rows_of(data@)[i],
                                    e,
                                )
                            }
                    },
                },
            },
    {
        match parse_csv_text(data) {
            Err(_) => Err(RecordError::Csv),
            Ok(table) => {
                let (header, rows) = table;
                proof {
                    assert(csv_header_of(data@) == header.deep_view());
                    assert(csv_rows_of(data@) == rows.deep_view());
                }
                match records_of_rows(&header, &rows) {
                    Err(e) => {
                        proof {
                            let i = choose|i: int|
                                {
                                    &&& 0 <= i < rows@.len()
                                    &&& (forall|j: int|
                                        0 <= j < i ==> row_record(
                                            header.deep_view(),
                                            #[trigger] rows.deep_view()[j],
                                        ) is Some)
                                    &&& row_record(
                                        header.deep_view(),
                                        #[trigger] rows.deep_view()[i],
                                    ) is None
                                    &&& row_err_matches(header.deep_view(), rows.deep_view()[i], e)
                                };
                            assert(0 <= i < csv_rows_of(data@).len());
                            assert(forall|j: int|
                                0 <= j < i ==> row_record(
                                    csv_header_of(data@),
                                    #[trigger] csv_rows_of(data@)[j],
                                ) is Some);
                            assert(row_record(csv_header_of(data@), csv_rows_of(data@)[i]) is None);
                            assert(row_err_matches(csv_header_of(data@), csv_rows_of(data@)[i], e));
                        }
                        Err(e)
                    },
                    Ok(recs) => {
                        proof {
                            assert forall|i: int|
                                0 <= i < csv_rows_of(data@).len() implies row_record(
                                csv_header_of(data@),
                                #[trigger] csv_rows_of(data@)[i],
                            ) is Some by {
                                assert(row_record(header.deep_view(), rows.deep_view()[i])
                                    == Some(recs@[i]@));
                            }
                            assert(records_view(recs@) =~= table_records(
                                csv_header_of(data@),
                                csv_rows_of(data@),
                            ));
                        }
                        self.add_records(&recs)
                    },
                }
            },
        }
    }
}

impl Report {
    /// The rows to sort: one per product, keyed by the chosen metric.
    fn metric_entries(&self, by_revenue: bool) -> (r: Vec<SortEntry>)
        requires
            self.wf(),
        ensures
            r@.len() == self@.products.len(),
            forall|q: int|
                0 <= q < r@.len() ==> #[trigger] entry_views(r@)[q] == (
                    self@.products[q].0,
                    if by_revenue {
                        self@.products[q].2
                    } else {
                        self@.products[q].1
                    },
                ),
    {
        let ghost ps = self@.products;
        let mut r: Vec<SortEntry> = Vec::new();
        let n = self.products.len();
        let mut i: usize = 0;
        while i < n
            invariant
                i <= n,
                n == self.products@.len(),
                ps == self@.products,
                r@.len() == i,
                forall|q: int|
                    0 <= q < i ==> #[trigger] entry_views(r@)[q] == (
                        ps[q].0,
                        if by_revenue {
                            ps[q].2
                        } else {
                            ps[q].1
                        },
                    ),
            decreases n - i,
        {
            let ghost prev = r@;
            let key: i128 = if by_revenue {
                self.products[i].1.revenue.cents() as i128
            } else {
                self.products[i].1.units as i128
            };
            let nm = self.products[i].0.clone();
            r.push(SortEntry { name: nm, key });
            proof {
                assert(ps[i as int] == (
                    self.products@[i as int].0@,
                    self.products@[i as int].1.units as int,
                    self.products@[i as int].1.revenue@,
                ));
                assert forall|q: int|
                    0 <= q < i + 1 implies #[trigger] entry_views(r@)[q] == (
                    ps[q].0,
                    if by_revenue {
                        ps[q].2
                    } else {
                        ps[q].1
                    },
                ) by {
                    assert(entry_views(r@)[q] == r@[q]@);
                    if q < i {
                        assert(r@[q] == prev[q]);
                        assert(entry_views(prev)[q] == prev[q]@);
                    }
                }
            }
            i += 1;
        }
        r
    }

    /// The product names in presentation order for the chosen metric:
    /// descending, ties broken alphabetically.
    fn sorted_names(&self, by_revenue: bool) -> (r: Vec<String>)
        requires
            self.wf(),
        ensures
            r@.len() == self@.products.len(),
            r@.map_values(|s: String| s@).to_multiset() == product_names(
                self@.products,
            ).to_multiset(),
            forall|p: int, q: int|
                #![trigger r@[p], r@[q]]
                0 <= p < q < r@.len() ==> order_le(
                    (r@[p]@, metric_of(self@.products, r@[p]@, by_revenue)),
                    (r@[q]@, metric_of(self@.products, r@[q]@, by_revenue)),
                ),
    {
        let ghost ps = self@.products;
        let mut entries = self.metric_entries(by_revenue);
        let ghost srcv = entry_views(entries@);
        sort_entries(&mut entries);
        let ghost sorted = entry_views(entries@);
        proof {
            lemma_map_fst_multiset(sorted, srcv);
            assert(srcv.map_values(|pr: (Seq<char>, int)| pr.0) =~= product_names(ps));
            assert forall|t: int|
                0 <= t < sorted.len() implies #[trigger] sorted[t].1 == metric_of(
                ps,
                sorted[t].0,
                by_revenue,
            ) by {
                assert(sorted.contains(sorted[t]));
                assert(sorted.to_multiset().contains(sorted[t]));
                assert(srcv.to_multiset().contains(sorted[t]));
                assert(srcv.contains(sorted[t]));
                let u = choose|u: int| 0 <= u < srcv.len() && srcv[u] == sorted[t];
                assert(srcv[u] == (
                    ps[u].0,
                    if by_revenue {
                        ps[u].2
                    } else {
                        ps[u].1
                    },
                ));
                lemma_find_name_self(ps, u);
            }
        }
        let mut names: Vec<String> = Vec::new();
        let n = entries.len();
        let mut i: usize = 0;
        while i < n
            invariant
                i <= n,
                n == entries@.len(),
                sorted == entry_views(entries@),
                names@.len() == i,
                forall|q: int| 0 <= q < i ==> (#[trigger] names@[q])@ == sorted[q].0,
            decreases n - i,
        {
            proof {
                assert(sorted[i as int] == entries@[i as int]@);
            }
            let nm = entries[i].name.clone();
            names.push(nm);
            i += 1;
        }
        proof {
            assert(names@.map_values(|s: String| s@) =~= sorted.map_values(
                |pr: (Seq<char>, int)| pr.0,
            ));
            assert forall|p2: int, q2: int|
                #![trigger names@[p2], names@[q2]]
                0 <= p2 < q2 < names@.len() implies order_le(
                (names@[p2]@, metric_of(ps, names@[p2]@, by_revenue)),
                (names@[q2]@, metric_of(ps, names@[q2]@, by_revenue)),
            ) by {
                assert(order_le(sorted[p2], sorted[q2]));
                assert(sorted[p2].0 == names@[p2]@);
                assert(sorted[q2].0 == names@[q2]@);
                assert(sorted[p2].1 == metric_of(ps, sorted[p2].0, by_revenue));
                assert(sorted[q2].1 == metric_of(ps, sorted[q2].0, by_revenue));
            }
        }
        names
    }

    /// Returns product names sorted by unit sales, descending; products
    /// with equal unit sales are listed alphabetically.
    pub fn products_by_unit_sales(&self) -> (r: Vec<String>)
        requires
            self.wf(),
        ensures
            r@.len() == self@.products.len(),
            r@.map_values(|s: String| s@).to_multiset() == product_names(
                self@.products,
            ).to_multiset(),
            forall|p: int, q: int|
                #![trigger r@[p], r@[q]]
                0 <= p < q < r@.len() ==> order_le(
                    (r@[p]@, units_of(self@.products, r@[p]@)),
                    (r@[q]@, units_of(self@.products, r@[q]@)),
                ),
    {
        self.sorted_names(false)
    }

    /// Returns product names sorted by revenue, descending; products
    /// with equal revenue are listed alphabetically.
    pub fn products_by_revenue(&self) -> (r: Vec<String>)
        requires
            self.wf(),
        ensures
            r@.len() == self@.products.len(),
            r@.map_values(|s: String| s@).to_multiset() == product_names(
                self@.products,
            ).to_multiset(),
            forall|p: int, q: int|
                #![trigger r@[p], r@[q]]
                0 <= p < q < r@.len() ==> order_le(
                    (r@[p]@, revenue_of(self@.products, r@[p]@)),
                    (r@[q]@, revenue_of(self@.products, r@[q]@)),
                ),
    {
        self.sorted_names(true)
    }
}

#[verifier::external_type_specification]
#[verifier::external_body]
pub struct ExCsvError(csv::Error);

/// Whether the CSV reader parses `data`, and into which header and
/// rows; parsing an in-memory buffer with the default configuration
/// depends on the text alone.
pub uninterp spec fn csv_parse_of(data: Seq<char>) -> Option<
    (Seq<Seq<char>>, Seq<Seq<Seq<char>>>),
>;

pub open spec fn csv_ok(data: Seq<char>) -> bool {
    csv_parse_of(data) is Some
}

pub open spec fn csv_header_of(data: Seq<char>) -> Seq<Seq<char>> {
    csv_parse_of(data).unwrap().0
}

pub open spec fn csv_rows_of(data: Seq<char>) -> Seq<Seq<Seq<char>>> {
    csv_parse_of(data).unwrap().1
}

/// Relies on csv::Reader (strict, with headers), a pure function of
/// the text: the first line is the header, each further line one
/// record, and every record the reader yields has exactly as many
/// fields as the header, else it reports an error and the whole parse
/// fails.
#[verifier::external_body]
fn parse_csv_text(data: &str) -> (r: Result<(Vec<String>, Vec<Vec<String>>), csv::Error>)
    ensures
        r is Ok <==> csv_ok(data@),
        r matches Ok(t) ==> csv_parse_of(data@) == Some(
            (t.0.deep_view(), t.1.deep_view()),
        ),
        r matches Ok(t) ==> forall|i: int|
            0 <= i < t.1@.len() ==> (#[trigger] t.1@[i])@.len() == t.0@.len(),
{
    let mut rdr = csv::ReaderBuilder::new().from_reader(data.as_bytes());
    let header: Vec<String> = match rdr.headers() {
        Ok(h) => h.iter().map(|f| f.to_string()).collect(),
        Err(e) => return Err(e),
    };
    let mut rows: Vec<Vec<String>> = Vec::new();
    for rec in rdr.records() {
        match rec {
            Ok(row) => rows.push(row.iter().map(|f| f.to_string()).collect()),
            Err(e) => return Err(e),
        }
    }
    Ok((header, rows))
}

} // verus!
