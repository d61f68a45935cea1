//! Verified text utilities: splitting text into lines, finding the rule
//! delimiter inside a line, and lexicographic ordering of names.

use vstd::prelude::*;
use vstd::string::StrSliceExecFns;
use vstd::string::StringExecFns;

verus! {

/// Index of the first newline in `t`, or `t.len()` if there is none.
pub open spec fn first_nl(t: Seq<char>) -> nat
    decreases t.len(),
{
    if t.len() == 0 {
        0
    } else if t[0] == '\n' {
        0
    } else {
        1 + first_nl(t.skip(1))
    }
}

/// The position of the first newline is characterized by what lies
/// before it.
pub proof fn lemma_first_nl_eq(t: Seq<char>, j: int)
    requires
        0 <= j <= t.len(),
        forall|i: int| 0 <= i < j ==> t[i] != '\n',
        j < t.len() ==> t[j] == '\n',
    ensures
        first_nl(t) == j,
    decreases j,
{
    if j == 0 {
    } else {
        assert(t[0] != '\n');
        assert(forall|i: int| 0 <= i < t.len() - 1 ==> t.skip(1)[i] == t[i + 1]);
        lemma_first_nl_eq(t.skip(1), j - 1);
    }
}

/// A line with its trailing carriage return, if any, removed.
pub open spec fn trim_cr(l: Seq<char>) -> Seq<char> {
    if l.len() > 0 && l.last() == '\r' {
        l.drop_last()
    } else {
        l
    }
}

/// The lines of `t`: split at each newline, a trailing carriage return
/// dropped from each line, and no final empty line when `t` ends with a
/// newline.
pub open spec fn lines_of(t: Seq<char>) -> Seq<Seq<char>>
    decreases t.len(),
{
    if t.len() == 0 {
        Seq::empty()
    } else if first_nl(t) >= t.len() {
        seq![trim_cr(t)]
    } else {
        seq![trim_cr(t.take(first_nl(t) as int))] + lines_of(t.skip(first_nl(t) as int + 1))
    }
}

/// Splits `text` into its lines.
pub fn split_lines(text: &str) -> (r: Vec<String>)
    ensures
        r.deep_view() == lines_of(text@),
{
    let n = text.unicode_len();
    let mut r: Vec<String> = Vec::new();
    let mut start: usize = 0;
    proof {
        assert(text@.skip(0) =~= text@);
        assert(r.deep_view() =~= Seq::<Seq<char>>::empty());
        assert(Seq::<Seq<char>>::empty() + lines_of(text@) =~= lines_of(text@));
    }
    while start < n
        invariant
            start <= n,
            n == text@.len(),
            lines_of(text@) == r.deep_view() + lines_of(text@.skip(start as int)),
        decreases n - start,
    {
        let ghost prev_dv = r.deep_view();
        let ghost rem = text@.skip(start as int);
        let mut j: usize = start;
        while j < n && text.get_char(j) != '\n'
            invariant
                start <= j <= n,
                n == text@.len(),
                forall|i: int| start <= i < j ==> text@[i] != '\n',
            decreases n - j,
        {
            j += 1;
        }
        proof {
            assert(forall|i: int| 0 <= i < rem.len() ==> rem[i] == text@[start + i]);
            lemma_first_nl_eq(rem, j - start);
        }
        let line_end = if j > start && text.get_char(j - 1) == '\r' {
            j - 1
        } else {
            j
        };
        let line = text.substring_char(start, line_end);
        r.push(String::from_str(line));
        proof {
            if j < n {
                assert(rem.take(j - start) =~= text@.subrange(start as int, j as int));
                assert(trim_cr(rem.take(j - start)) =~= line@);
                assert(rem.skip(j - start + 1) =~= text@.skip(j + 1));
                assert(lines_of(rem) == seq![trim_cr(rem.take(j - start))] + lines_of(
                    text@.skip(j + 1),
                ));
            } else {
                assert(rem =~= text@.subrange(start as int, n as int));
                assert(trim_cr(rem) =~= line@);
                assert(lines_of(rem) == seq![trim_cr(rem)]);
                assert(text@.skip(n as int) =~= Seq::<char>::empty());
            }
            assert(r.deep_view() =~= prev_dv.push(line@));
        }
        if j < n {
            start = j + 1;
        } else {
            start = n;
        }
        proof {
            assert(lines_of(text@) =~= r.deep_view() + lines_of(
                text@.skip(start as int),
            ));
        }
    }
    proof {
        assert(text@.skip(n as int) =~= Seq::<char>::empty());
        assert(r.deep_view() =~= lines_of(text@));
    }
    r
}

/// Whether the rule delimiter occupies positions `i .. i + 3` of `l`.
pub open spec fn sep_at(l: Seq<char>, i: int) -> bool {
    &&& 0 <= i
    &&& i + 3 <= l.len()
    &&& l[i] == ' '
    &&& l[i + 1] == '|'
    &&& l[i + 2] == ' '
}

/// Index of the first rule delimiter in `l`, or `l.len()` if there is
/// none.
pub open spec fn first_sep(l: Seq<char>) -> nat
    decreases l.len(),
{
    if l.len() < 3 {
        l.len()
    } else if l[0] == ' ' && l[1] == '|' && l[2] == ' ' {
        0
    } else {
        1 + first_sep(l.skip(1))
    }
}

/// Whether `l` contains the rule delimiter at all.
pub open spec fn has_sep(l: Seq<char>) -> bool {
    first_sep(l) + 3 <= l.len()
}

pub proof fn lemma_first_sep(l: Seq<char>)
    ensures
        0 <= first_sep(l) <= l.len(),
        has_sep(l) ==> sep_at(l, first_sep(l) as int),
        !has_sep(l) ==> first_sep(l) == l.len(),
        forall|i: int| 0 <= i < first_sep(l) ==> !sep_at(l, i),
    decreases l.len(),
{
    if l.len() < 3 {
    } else if l[0] == ' ' && l[1] == '|' && l[2] == ' ' {
    } else {
        lemma_first_sep(l.skip(1));
        assert(forall|i: int| 0 <= i < l.len() - 1 ==> l.skip(1)[i] == l[i + 1]);
        assert forall|i: int| 0 <= i < first_sep(l) implies !sep_at(l, i) by {
            if i >= 1 && sep_at(l, i) {
                assert(l.skip(1)[i - 1] == l[i]);
                assert(l.skip(1)[i] == l[i + 1]);
                assert(l.skip(1)[i + 1] == l[i + 2]);
                assert(sep_at(l.skip(1), i - 1));
                assert(!sep_at(l.skip(1), i - 1));
            }
        }
    }
}

/// The position of the first delimiter is characterized by what lies
/// before it.
pub proof fn lemma_first_sep_eq(l: Seq<char>, j: int)
    requires
        0 <= j <= l.len(),
        forall|i: int| 0 <= i < j ==> !sep_at(l, i),
        j + 3 <= l.len() ==> sep_at(l, j),
        j + 3 > l.len() ==> j == l.len(),
    ensures
        first_sep(l) == j,
    decreases j,
{
    if j == 0 {
        if l.len() >= 3 {
            assert(sep_at(l, 0));
        }
    } else {
        assert(!sep_at(l, 0));
        assert(forall|i: int| 0 <= i < l.len() - 1 ==> l.skip(1)[i] == l[i + 1]);
        assert forall|i: int| 0 <= i < j - 1 implies !sep_at(l.skip(1), i) by {
            assert(!sep_at(l, i + 1));
            if sep_at(l.skip(1), i) {
                assert(l.skip(1)[i] == l[i + 1]);
                assert(l.skip(1)[i + 1] == l[i + 2]);
                assert(l.skip(1)[i + 2] == l[i + 3]);
                assert(sep_at(l, i + 1));
            }
        }
        assert(l.len() >= 3 ==> !(l[0] == ' ' && l[1] == '|' && l[2] == ' '));
        lemma_first_sep_eq(l.skip(1), j - 1);
    }
}

/// Splits a rule line at the first delimiter into name and pattern.
pub fn split_rule_line(line: &str) -> (r: Option<(String, String)>)
    ensures
        match r {
            Some(parts) => has_sep(line@) && parts.0@ == line@.take(first_sep(line@) as int)
                && parts.1@ == line@.skip(first_sep(line@) as int + 3),
            None => !has_sep(line@),
        },
{
    let n = line.unicode_len();
    let mut i: usize = 0;
    if n < 3 {
        proof {
            lemma_first_sep(line@);
        }
        return None;
    }
    while i <= n - 3
        invariant
            0 <= i <= n,
            n == line@.len(),
            n >= 3,
            forall|q: int| 0 <= q < i ==> !sep_at(line@, q),
        decreases n - i,
    {
        if line.get_char(i) == ' ' && line.get_char(i + 1) == '|' && line.get_char(i + 2)
            == ' ' {
            proof {
                assert(sep_at(line@, i as int));
                lemma_first_sep_eq(line@, i as int);
            }
            let name = line.substring_char(0, i);
            let pat = line.substring_char(i + 3, n);
            proof {
                assert(name@ =~= line@.take(i as int));
                assert(pat@ =~= line@.skip(i + 3));
            }
            return Some((String::from_str(name), String::from_str(pat)));
        }
        proof {
            assert(!sep_at(line@, i as int));
        }
        i += 1;
    }
    proof {
        assert(forall|q: int| 0 <= q < line@.len() ==> !sep_at(line@, q));
        lemma_first_sep_eq(line@, n as int);
    }
    None
}

/// Lexicographic order on character sequences, by code point; the order
/// in which tied names are listed.
pub open spec fn lex_le(a: Seq<char>, b: Seq<char>) -> bool
    decreases a.len(),
{
    if a.len() == 0 {
        true
    } else if b.len() == 0 {
        false
    } else if (a[0] as u32) < (b[0] as u32) {
        true
    } else if (a[0] as u32) > (b[0] as u32) {
        false
    } else {
        lex_le(a.skip(1), b.skip(1))
    }
}

/// Any two names are comparable.
pub proof fn lemma_lex_total(a: Seq<char>, b: Seq<char>)
    ensures
        lex_le(a, b) || lex_le(b, a),
    decreases a.len(),
{
    if a.len() == 0 || b.len() == 0 {
    } else if (a[0] as u32) == (b[0] as u32) {
        lemma_lex_total(a.skip(1), b.skip(1));
    }
}

/// The order is transitive.
pub proof fn lemma_lex_trans(a: Seq<char>, b: Seq<char>, c: Seq<char>)
    requires
        lex_le(a, b),
        lex_le(b, c),
    ensures
        lex_le(a, c),
    decreases a.len(),
{
    if a.len() == 0 || b.len() == 0 || c.len() == 0 {
    } else if (a[0] as u32) == (b[0] as u32) && (b[0] as u32) == (c[0] as u32) {
        lemma_lex_trans(a.skip(1), b.skip(1), c.skip(1));
    }
}

/// Equal prefixes do not affect the comparison of what follows.
proof fn lemma_lex_skip(a: Seq<char>, b: Seq<char>, i: int)
    requires
        0 <= i <= a.len(),
        i <= b.len(),
        forall|q: int| 0 <= q < i ==> a[q] == b[q],
    ensures
        lex_le(a, b) == lex_le(a.skip(i), b.skip(i)),
    decreases i,
{
    if i == 0 {
        assert(a.skip(0) =~= a);
        assert(b.skip(0) =~= b);
    } else {
        assert(a[0] == b[0]);
        assert(a.len() > 0 && b.len() > 0);
        assert(forall|q: int| 0 <= q < a.len() - 1 ==> a.skip(1)[q] == a[q + 1]);
        assert(forall|q: int| 0 <= q < b.len() - 1 ==> b.skip(1)[q] == b[q + 1]);
        lemma_lex_skip(a.skip(1), b.skip(1), i - 1);
        assert(a.skip(1).skip(i - 1) =~= a.skip(i));
        assert(b.skip(1).skip(i - 1) =~= b.skip(i));
    }
}

/// Compares two names in lexicographic order.
pub fn str_lex_le(a: &str, b: &str) -> (r: bool)
    ensures
        r == lex_le(a@, b@),
{
    let na = a.unicode_len();
    let nb = b.unicode_len();
    let mut i: usize = 0;
    while i < na && i < nb
        invariant
            0 <= i <= na,
            i <= nb,
            na == a@.len(),
            nb == b@.len(),
            forall|q: int| 0 <= q < i ==> a@[q] == b@[q],
        decreases na - i,
    {
        let ca = a.get_char(i) as u32;
        let cb = b.get_char(i) as u32;
        proof {
            lemma_lex_skip(a@, b@, i as int);
        }
        if ca < cb {
            return true;
        }
        if ca > cb {
            return false;
        }
        proof {
            assert(a@[i as int] == b@[i as int]);
        }
        i += 1;
    }
    proof {
        lemma_lex_skip(a@, b@, i as int);
    }
    if i == na {
        proof {
            assert(a@.skip(i as int).len() == 0);
        }
        true
    } else {
        proof {
            assert(b@.skip(i as int).len() == 0);
            assert(a@.skip(i as int).len() > 0);
        }
        false
    }
}

} // verus!
