//! Rendering `README.md` from the language list.

use vstd::prelude::*;

use crate::languages::{
    by_status, is_table_order, lemma_table_order, lemma_table_order_unique, ranks_before,
    table_order, with_status, Language,
};
use crate::text::push_char;

verus! {

/// Where the generated README lives, relative to the repository root.
pub const PATH: &'static str = "README.md";

/// Everything above the table: what the list is for, what gets in, and the
/// table's own header row.
pub const HEADER: &'static str = r#"# Languages Written in Rust

This is a (probably incomplete) list of languages implemented in
Rust. It is intended as a source of inspiration and comparison, and as a
directory of potentially interesting projects in this vein.

## What Can Be Included?

1. Is it a language?
2. Is it written in Rust?

Then it can be included in this list!

## List of Languages

| Name | ⭐ Stars | ☀️ Status | Description |
|:-----|:---------|:-----------|:-----------|
"#;

/// Everything below the table, up to the Markdown link definitions.
pub const FOOTER: &'static str = r#"
*: Parcel is a large project of which the JavaScript transformer (written in Rust)
is a small part. The "stars" number here reflects the whole project, which is
broader than a programming language project.

"#;

/// The character for the decimal digit `d`.
pub open spec fn digit_char(d: int) -> char {
    (48 + d) as char
}

/// The decimal numeral of `n`: its digits, most significant first, with no
/// leading zeros.
pub open spec fn decimal(n: nat) -> Seq<char>
    decreases n,
{
    if n < 10 {
        seq![digit_char(n as int)]
    } else {
        decimal(n / 10).push(digit_char((n % 10) as int))
    }
}

/// `digits` in groups of three counted from the right, the groups separated by
/// commas.
pub open spec fn grouped(digits: Seq<char>) -> Seq<char>
    decreases digits.len(),
{
    if digits.len() <= 3 {
        digits
    } else {
        grouped(digits.subrange(0, digits.len() - 3)) + seq![','] + digits.subrange(
            digits.len() - 3,
            digits.len() as int,
        )
    }
}

/// A star count with thousands separators: `101364` is `101,364`.
pub open spec fn thousands_text(n: nat) -> Seq<char> {
    grouped(decimal(n))
}

proof fn lemma_decimal_nonempty(n: nat)
    ensures
        decimal(n).len() >= 1,
    decreases n,
{
    if n >= 10 {
        lemma_decimal_nonempty(n / 10);
    }
}

/// The number a numeral of decimal digits stands for.
pub open spec fn numeral_value(digits: Seq<char>) -> int
    decreases digits.len(),
{
    if digits.len() == 0 {
        0
    } else {
        numeral_value(digits.drop_last()) * 10 + (digits.last() as u32 - 48)
    }
}

/// `s` with its commas taken out.
pub open spec fn without_commas(s: Seq<char>) -> Seq<char>
    decreases s.len(),
{
    if s.len() == 0 {
        s
    } else if s.last() == ',' {
        without_commas(s.drop_last())
    } else {
        without_commas(s.drop_last()).push(s.last())
    }
}

/// The decimal numeral of `n` is made of the digits `0` to `9`, starts with a
/// digit other than `0` unless `n` is zero, and stands for `n`.
pub proof fn lemma_decimal_numeral(n: nat)
    ensures
        forall|i: int|
            0 <= i < decimal(n).len() ==> 48 <= (#[trigger] decimal(n)[i] as u32) <= 57,
        n > 0 ==> decimal(n)[0] != '0',
        numeral_value(decimal(n)) == n,
    decreases n,
{
    if n >= 10 {
        lemma_decimal_numeral(n / 10);
        lemma_decimal_nonempty(n / 10);
        let d = decimal(n);
        assert forall|i: int| 0 <= i < d.len() implies 48 <= (#[trigger] d[i] as u32) <= 57 by {
            if i < d.len() - 1 {
                assert(d[i] == decimal(n / 10)[i]);
            }
        }
        assert(d.drop_last() =~= decimal(n / 10));
        assert(d.last() as u32 == 48 + n % 10);
    } else {
        assert(decimal(n).drop_last() =~= Seq::<char>::empty());
        assert(numeral_value(Seq::<char>::empty()) == 0);
        assert(decimal(n).last() as u32 == 48 + n);
    }
}

proof fn lemma_without_commas_append(a: Seq<char>, b: Seq<char>)
    ensures
        without_commas(a + b) == without_commas(a) + without_commas(b),
    decreases b.len(),
{
    if b.len() == 0 {
        assert(a + b =~= a);
        assert(without_commas(a) + without_commas(b) =~= without_commas(a));
    } else {
        assert((a + b).drop_last() =~= a + b.drop_last());
        lemma_without_commas_append(a, b.drop_last());
        if b.last() != ',' {
            assert(without_commas(a + b) =~= without_commas(a) + without_commas(b));
        }
    }
}

proof fn lemma_without_commas_of_digits(d: Seq<char>)
    requires
        forall|i: int| 0 <= i < d.len() ==> d[i] != ',',
    ensures
        without_commas(d) == d,
    decreases d.len(),
{
    if d.len() > 0 {
        lemma_without_commas_of_digits(d.drop_last());
        assert(d =~= d.drop_last().push(d.last()));
    }
}

proof fn lemma_grouped_without_commas(d: Seq<char>)
    requires
        forall|i: int| 0 <= i < d.len() ==> d[i] != ',',
    ensures
        without_commas(grouped(d)) == d,
    decreases d.len(),
{
    if d.len() <= 3 {
        lemma_without_commas_of_digits(d);
    } else {
        let head = d.subrange(0, d.len() - 3);
        let tail = d.subrange(d.len() - 3, d.len() as int);
        lemma_grouped_without_commas(head);
        lemma_without_commas_of_digits(tail);
        lemma_without_commas_append(grouped(head) + seq![','], tail);
        lemma_without_commas_append(grouped(head), seq![',']);
        assert(seq![','].drop_last() =~= Seq::<char>::empty());
        assert(without_commas(Seq::<char>::empty()) == Seq::<char>::empty());
        assert(without_commas(seq![',']) =~= Seq::<char>::empty());
        assert(d =~= head + tail);
    }
}

/// Thousands separators only group the digits: with the commas taken out, a
/// formatted star count is the plain decimal numeral of the count.
pub proof fn lemma_thousands_groups_digits(n: nat)
    ensures
        without_commas(thousands_text(n)) == decimal(n),
{
    lemma_decimal_numeral(n);
    assert forall|i: int| 0 <= i < decimal(n).len() implies decimal(n)[i] != ',' by {
        assert(48 <= (decimal(n)[i] as u32) <= 57);
    }
    lemma_grouped_without_commas(decimal(n));
}

/// The number of digits before the first comma when `len` digits are
/// grouped: one to three.
pub open spec fn first_group_len(len: int) -> int {
    (len - 1) % 3 + 1
}

/// Where each character of `digits` grouped in threes lands: the first group
/// of one to three digits, then, for every later group, a comma followed by
/// three digits.
proof fn lemma_grouped_layout(d: Seq<char>)
    requires
        d.len() >= 1,
    ensures
        grouped(d).len() == d.len() + (d.len() - 1) / 3,
        forall|i: int|
            0 <= i < grouped(d).len() ==> #[trigger] grouped(d)[i] == if i < first_group_len(
                d.len() as int,
            ) {
                d[i]
            } else if (i - first_group_len(d.len() as int)) % 4 == 0 {
                ','
            } else {
                d[i - 1 - (i - first_group_len(d.len() as int)) / 4]
            },
    decreases d.len(),
{
    let len = d.len() as int;
    let g = first_group_len(len);
    if len > 3 {
        let head = d.subrange(0, len - 3);
        lemma_grouped_layout(head);
        let th = grouped(head);
        let t = grouped(d);
        let q = (len - 1) / 3;
        assert(len - 1 == 3 * q + (g - 1));
        assert(first_group_len(len - 3) == g);
        assert((len - 4) / 3 == q - 1);
        assert(th.len() == len - 3 + q - 1);
        assert(t == th + seq![','] + d.subrange(len - 3, len));
        assert forall|i: int| 0 <= i < t.len() implies #[trigger] t[i] == if i < g {
            d[i]
        } else if (i - g) % 4 == 0 {
            ','
        } else {
            d[i - 1 - (i - g) / 4]
        } by {
            if i < th.len() {
                assert(t[i] == th[i]);
                if i >= g && (i - g) % 4 != 0 {
                    assert(i - 1 - (i - g) / 4 < len - 3);
                }
            } else if i == th.len() {
                assert(i - g == 4 * (q - 1));
            } else {
                let m = i - th.len() - 1;
                assert(0 <= m < 3);
                assert(i - g == 4 * (q - 1) + m + 1);
                assert((i - g) / 4 == q - 1);
                assert(t[i] == d[len - 3 + m]);
            }
        }
    }
}

proof fn lemma_decimal_long(n: nat)
    requires
        n >= 1000,
    ensures
        decimal(n).len() >= 4,
{
    lemma_decimal_nonempty(n / 1000);
    assert(n / 10 / 10 / 10 == n / 1000);
    assert(decimal(n / 10 / 10).len() == decimal(n / 10 / 10 / 10).len() + 1);
    assert(decimal(n / 10).len() == decimal(n / 10 / 10).len() + 1);
    assert(decimal(n).len() == decimal(n / 10).len() + 1);
}

/// A formatted star count is the decimal numeral of the count grouped in
/// threes from the right: for a numeral of `L` digits it has `L + (L - 1) / 3`
/// characters, the first one to three characters are the leading digits, and
/// every later group is a comma followed by the next three digits. So every
/// count of a thousand or more has a comma after its first group.
pub proof fn lemma_thousands_layout(n: nat)
    ensures
        thousands_text(n).len() == decimal(n).len() + (decimal(n).len() - 1) / 3,
        forall|i: int|
            0 <= i < thousands_text(n).len() ==> #[trigger] thousands_text(n)[i] == if i
                < first_group_len(decimal(n).len() as int) {
                decimal(n)[i]
            } else if (i - first_group_len(decimal(n).len() as int)) % 4 == 0 {
                ','
            } else {
                decimal(n)[i - 1 - (i - first_group_len(decimal(n).len() as int)) / 4]
            },
        n >= 1000 ==> thousands_text(n)[first_group_len(decimal(n).len() as int)] == ',',
{
    lemma_decimal_nonempty(n);
    lemma_grouped_layout(decimal(n));
    if n >= 1000 {
        lemma_decimal_long(n);
        let g = first_group_len(decimal(n).len() as int);
        assert(g < thousands_text(n).len());
        assert(thousands_text(n)[g] == ',');
    }
}

/// Appends the decimal numeral of `n` to `out`.
fn push_decimal(n: u64, out: &mut Vec<char>)
    ensures
        final(out)@ == old(out)@ + decimal(n as nat),
    decreases n,
{
    if n >= 10 {
        push_decimal(n / 10, out);
    }
    let d: u8 = (n % 10) as u8;
    out.push((48u8 + d) as char);
    assert(final(out)@ =~= old(out)@ + decimal(n as nat));
}

/// Format a star count with thousands separators: `101364` -> `101,364`.
pub fn thousands(stars: u64) -> (text: String)
    ensures
        text@ == thousands_text(stars as nat),
{
    let mut digits: Vec<char> = Vec::new();
    push_decimal(stars, &mut digits);
    proof {
        lemma_decimal_nonempty(stars as nat);
        assert(digits@ =~= decimal(stars as nat));
    }
    let len = digits.len();
    let first: usize = if len % 3 == 0 {
        3
    } else {
        len % 3
    };
    let mut out = String::new();
    let mut i: usize = 0;
    while i < first
        invariant
            digits@ == decimal(stars as nat),
            len == digits@.len(),
            1 <= first <= 3,
            first <= len,
            i <= first,
            out@ == digits@.take(i as int),
        decreases first - i,
    {
        push_char(&mut out, digits[i]);
        i = i + 1;
        assert(out@ =~= digits@.take(i as int));
    }
    while i < len
        invariant
            digits@ == decimal(stars as nat),
            len == digits@.len(),
            1 <= first <= i <= len,
            (len - i) % 3 == 0,
            out@ == grouped(digits@.take(i as int)),
        decreases len - i,
    {
        let ghost prev = digits@.take(i as int);
        push_char(&mut out, ',');
        push_char(&mut out, digits[i]);
        push_char(&mut out, digits[i + 1]);
        push_char(&mut out, digits[i + 2]);
        let ghost next = digits@.take(i + 3);
        assert(next.subrange(0, next.len() - 3) =~= prev);
        assert(next.subrange(next.len() - 3, next.len() as int) =~= seq![
            digits@[i as int],
            digits@[i + 1],
            digits@[i + 2],
        ]);
        assert(out@ =~= grouped(next));
        i = i + 3;
    }
    assert(digits@.take(len as int) =~= digits@);
    out
}


/// The status cell of a row.
pub open spec fn status_text(active: bool) -> Seq<char> {
    if active {
        "☀️ Active"@
    } else {
        "🌙 Inactive"@
    }
}

/// The description cell of a row: a missing description reads "None".
pub open spec fn description_text(description: Option<String>) -> Seq<char> {
    match description {
        Some(d) => d@,
        None => "None"@,
    }
}

/// One row of the table.
pub open spec fn row_text(language: Language) -> Seq<char> {
    "| ["@ + language.name@ + "] | "@ + thousands_text(language.stars as nat) + " | "@
        + status_text(language.active) + " | "@ + description_text(language.description)
        + " |\n"@
}

/// Render one row of the table.
pub fn row(language: &Language) -> (text: String)
    ensures
        text@ == row_text(*language),
{
    // A missing description renders as "None", which is what the committed
    // README contains for the handful of repositories that have no description.
    let status: &str = if language.active {
        "☀️ Active"
    } else {
        "🌙 Inactive"
    };
    let description: &str = match &language.description {
        Some(d) => d.as_str(),
        None => "None",
    };
    let mut out = String::from_str("| [");
    out.append(language.name.as_str());
    out.append("] | ");
    let stars = thousands(language.stars);
    out.append(stars.as_str());
    out.append(" | ");
    out.append(status);
    out.append(" | ");
    out.append(description);
    out.append(" |\n");
    out
}

/// The rows of the languages at the positions `order`, in that order.
pub open spec fn rows_text(langs: Seq<Language>, order: Seq<usize>) -> Seq<char>
    decreases order.len(),
{
    if order.len() == 0 {
        Seq::empty()
    } else {
        rows_text(langs, order.drop_last()) + row_text(langs[order.last() as int])
    }
}

/// The Markdown link definition that a row's `[Name]` cell points at.
pub open spec fn link_text(language: Language) -> Seq<char> {
    "["@ + language.name@ + "]: "@ + language.url@ + "\n"@
}

/// The link definitions of all the languages, in list order.
pub open spec fn links_text(langs: Seq<Language>) -> Seq<char>
    decreases langs.len(),
{
    if langs.len() == 0 {
        Seq::empty()
    } else {
        links_text(langs.drop_last()) + link_text(langs.last())
    }
}

/// The README up to the link definitions: the header, the active languages,
/// the inactive ones, and the footer.
pub open spec fn table_text(langs: Seq<Language>) -> Seq<char> {
    HEADER@ + rows_text(langs, table_order(langs, true)) + rows_text(langs, table_order(langs, false))
        + FOOTER@
}

/// The whole README: the table, then the link definitions in list order.
pub open spec fn readme_text(langs: Seq<Language>) -> Seq<char> {
    table_text(langs) + links_text(langs)
}

/// Appends the rows of `picked` to `out`.
fn push_rows(
    out: &mut String,
    picked: &Vec<&Language>,
    Ghost(langs): Ghost<Seq<Language>>,
    Ghost(order): Ghost<Seq<usize>>,
)
    requires
        picked@.len() == order.len(),
        forall|k: int| 0 <= k < order.len() ==> *picked@[k] == langs[order[k] as int],
    ensures
        final(out)@ == old(out)@ + rows_text(langs, order),
{
    let ghost start = out@;
    for k in 0..picked.len()
        invariant
            picked@.len() == order.len(),
            forall|m: int| 0 <= m < order.len() ==> *picked@[m] == langs[order[m] as int],
            out@ == start + rows_text(langs, order.take(k as int)),
    {
        let text = row(picked[k]);
        out.append(text.as_str());
        assert(order.take(k + 1).drop_last() =~= order.take(k as int));
        assert(out@ =~= start + rows_text(langs, order.take(k + 1)));
    }
    assert(order.take(order.len() as int) =~= order);
}

/// Render the whole README: the header, the active languages, the inactive
/// ones, the footer, and the link definitions the table's `[Name]` cells point
/// at.
pub fn render(languages: &[Language]) -> (text: String)
    ensures
        text@ == readme_text(languages@),
{
    let (active, inactive) = by_status(languages);
    let mut out = String::from_str(HEADER);
    push_rows(&mut out, &active, Ghost(languages@), Ghost(table_order(languages@, true)));
    push_rows(&mut out, &inactive, Ghost(languages@), Ghost(table_order(languages@, false)));
    out.append(FOOTER);
    // The links keep the order of `languages.json` rather than the table's, so
    // that adding a language only adds a line here.
    let ghost before_links = out@;
    for i in 0..languages.len()
        invariant
            out@ == before_links + links_text(languages@.take(i as int)),
    {
        out.append("[");
        out.append(languages[i].name.as_str());
        out.append("]: ");
        out.append(languages[i].url.as_str());
        out.append("\n");
        assert(languages@.take(i + 1).drop_last() =~= languages@.take(i as int));
        assert(out@ =~= before_links + links_text(languages@.take(i + 1)));
    }
    assert(languages@.take(languages@.len() as int) =~= languages@);
    out
}


/// Position `i` occurs in `perm`.
pub open spec fn lists_position(perm: Seq<int>, i: int) -> bool {
    exists|k: int| 0 <= k < perm.len() && perm[k] == i
}

/// `p` is `langs` reordered: `p[k]` is `langs[perm[k]]`, and `perm` lists
/// every position of `langs` exactly once.
pub open spec fn is_reordering(langs: Seq<Language>, p: Seq<Language>, perm: Seq<int>) -> bool {
    &&& p.len() == langs.len()
    &&& perm.len() == langs.len()
    &&& forall|k: int| 0 <= k < perm.len() ==> 0 <= #[trigger] perm[k] < langs.len()
    &&& forall|a: int, b: int| 0 <= a < b < perm.len() ==> #[trigger] perm[a] != #[trigger] perm[b]
    &&& forall|i: int| 0 <= i < langs.len() ==> #[trigger] lists_position(perm, i)
    &&& forall|k: int| 0 <= k < p.len() ==> #[trigger] p[k] == langs[perm[k]]
}

/// No two languages of the list have the same number of stars.
pub open spec fn distinct_stars(langs: Seq<Language>) -> bool {
    forall|i: int, j: int|
        0 <= i < langs.len() && 0 <= j < langs.len() && i != j ==> #[trigger] langs[i].stars
            != #[trigger] langs[j].stars
}

/// Rows depend only on the languages they show.
proof fn lemma_rows_text_same(
    langs1: Seq<Language>,
    o1: Seq<usize>,
    langs2: Seq<Language>,
    o2: Seq<usize>,
)
    requires
        o1.len() == o2.len(),
        forall|k: int| 0 <= k < o1.len() ==> langs1[o1[k] as int] == langs2[o2[k] as int],
    ensures
        rows_text(langs1, o1) == rows_text(langs2, o2),
    decreases o1.len(),
{
    if o1.len() > 0 {
        lemma_rows_text_same(langs1, o1.drop_last(), langs2, o2.drop_last());
    }
}

/// The half of the table for `active` shows the same languages, in the same
/// order, for a reordering of a list whose star counts are all different.
proof fn lemma_same_half(langs: Seq<Language>, p: Seq<Language>, perm: Seq<int>, active: bool)
    requires
        langs.len() <= usize::MAX,
        is_reordering(langs, p, perm),
        distinct_stars(langs),
    ensures
        rows_text(p, table_order(p, active)) == rows_text(langs, table_order(langs, active)),
{
    lemma_table_order(langs, active);
    let t = table_order(langs, active);
    let n = langs.len();
    // The position in `p` of the language at position `i` of `langs`.
    let back = |i: int| choose|k: int| 0 <= k < perm.len() && perm[k] == i;
    assert forall|k: int| 0 <= k < t.len() implies 0 <= #[trigger] t[k] < n && langs[t[k] as int].active
        == active by {
        assert(with_status(langs, active).contains(t[k] as int));
    }
    let q = Seq::new(t.len(), |k: int| back(t[k] as int) as usize);
    assert forall|k: int| 0 <= k < q.len() implies 0 <= back(t[k] as int) < n && perm[back(
        t[k] as int,
    )] == t[k] as int && #[trigger] q[k] as int == back(t[k] as int) by {
        assert(0 <= t[k] < n);
        assert(lists_position(perm, t[k] as int));
    }
    let positions = with_status(p, active);
    assert forall|k: int| 0 <= k < q.len() implies #[trigger] positions.contains(q[k] as int) by {
        assert(p[q[k] as int] == langs[perm[q[k] as int]]);
    }
    assert forall|j: int| #[trigger] positions.contains(j) implies exists|k: int|
        0 <= k < q.len() && q[k] as int == j by {
        assert(p[j] == langs[perm[j]]);
        assert(with_status(langs, active).contains(perm[j]));
        let k = choose|k: int| 0 <= k < t.len() && t[k] as int == perm[j];
        let m = q[k] as int;
        assert(perm[m] == perm[j]);
        if m < j {
            assert(perm[m] != perm[j]);
        } else if j < m {
            assert(perm[j] != perm[m]);
        }
        assert(q[k] as int == j);
    }
    assert forall|a: int, b: int| 0 <= a < b < q.len() implies ranks_before(
        p,
        #[trigger] q[a] as int,
        #[trigger] q[b] as int,
    ) by {
        assert(ranks_before(langs, t[a] as int, t[b] as int));
        assert(t[a] != t[b]);
        assert(langs[t[a] as int].stars != langs[t[b] as int].stars);
        assert(p[q[a] as int] == langs[t[a] as int]);
        assert(p[q[b] as int] == langs[t[b] as int]);
    }
    lemma_table_order(p, active);
    lemma_table_order_unique(p, positions, q, table_order(p, active));
    assert forall|k: int| 0 <= k < q.len() implies p[q[k] as int] == langs[t[k] as int] by {
        assert(p[q[k] as int] == langs[perm[q[k] as int]]);
    }
    lemma_rows_text_same(p, q, langs, t);
}

/// When no two languages have the same number of stars, the table does not
/// depend on the order of the list: a reordered list renders the same header,
/// rows and footer, and only the link definitions follow the new order.
pub proof fn lemma_table_ignores_list_order(langs: Seq<Language>, p: Seq<Language>, perm: Seq<int>)
    requires
        langs.len() <= usize::MAX,
        is_reordering(langs, p, perm),
        distinct_stars(langs),
    ensures
        table_text(p) == table_text(langs),
        readme_text(p) == table_text(langs) + links_text(p),
{
    lemma_same_half(langs, p, perm, true);
    lemma_same_half(langs, p, perm, false);
}


/// A row's cells, field by field: the name in brackets, the star count with
/// thousands separators, "☀️ Active" exactly when the language is active and
/// "🌙 Inactive" otherwise, whatever its description, and then the
/// description, or "None" when there is none.
pub proof fn lemma_row_cells(language: Language)
    ensures
        row_text(language) == "| ["@ + language.name@ + "] | "@ + thousands_text(
            language.stars as nat,
        ) + " | "@ + (if language.active {
            "☀️ Active"@
        } else {
            "🌙 Inactive"@
        }) + " | "@ + (if language.description is Some {
            language.description->0@
        } else {
            "None"@
        }) + " |\n"@,
{
}

/// Two languages that differ only in their description give rows that
/// differ only in the description cell.
pub proof fn lemma_row_description_cell(a: Language, b: Language)
    requires
        a.name == b.name,
        a.stars == b.stars,
        a.active == b.active,
    ensures
        exists|cells: Seq<char>|
            row_text(a) == cells + description_text(a.description) + " |\n"@ && row_text(b) == cells
                + description_text(b.description) + " |\n"@,
{
    lemma_row_cells(a);
    lemma_row_cells(b);
    let cells = "| ["@ + a.name@ + "] | "@ + thousands_text(a.stars as nat) + " | "@
        + status_text(a.active) + " | "@;
    assert(row_text(a) == cells + description_text(a.description) + " |\n"@);
    assert(row_text(b) == cells + description_text(b.description) + " |\n"@);
}

/// The README ends with one link definition per language, in list order and
/// whatever the host of its URL: `[name]: url` and a line break.
pub proof fn lemma_link_lines(langs: Seq<Language>)
    ensures
        readme_text(langs) == table_text(langs) + links_text(langs),
        links_text(Seq::<Language>::empty()) == Seq::<char>::empty(),
        forall|i: int|
            0 <= i < langs.len() ==> #[trigger] links_text(langs.take(i + 1)) == links_text(
                langs.take(i),
            ) + "["@ + langs[i].name@ + "]: "@ + langs[i].url@ + "\n"@,
{
    assert forall|i: int| 0 <= i < langs.len() implies #[trigger] links_text(langs.take(i + 1))
        == links_text(langs.take(i)) + "["@ + langs[i].name@ + "]: "@ + langs[i].url@ + "\n"@ by {
        assert(langs.take(i + 1).drop_last() =~= langs.take(i));
        assert(langs.take(i + 1).last() == langs[i]);
    }
}

} // verus!
