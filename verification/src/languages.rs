//! The language list and the order the table shows it in.

use vstd::prelude::*;

verus! {

/// Where the language list lives, relative to the repository root.
pub const PATH: &'static str = "languages.json";

/// One language in the list.
///
/// The field order matches the order the fields are written in
/// `languages.json`.
#[derive(Debug, Clone, PartialEq, Eq)]
pub struct Language {
    pub name: String,
    pub url: String,
    /// A repository is allowed to have no description, so this can be absent.
    pub description: Option<String>,
    pub stars: u64,
    /// Whether the project has been pushed to recently enough to count as
    /// active. See [`crate::github::is_active`].
    pub active: bool,
}

/// In the table, the language at position `i` of the list comes before the one
/// at position `j`: it has more stars, or as many and comes earlier in the file.
pub open spec fn ranks_before(langs: Seq<Language>, i: int, j: int) -> bool {
    ||| langs[i].stars > langs[j].stars
    ||| (langs[i].stars == langs[j].stars && i < j)
}

/// The positions below `n` of the languages whose status is `active`.
pub open spec fn status_prefix(langs: Seq<Language>, active: bool, n: int) -> Set<int> {
    Set::new(|i: int| 0 <= i < n && langs[i].active == active)
}

/// The positions of all the languages whose status is `active`.
pub open spec fn with_status(langs: Seq<Language>, active: bool) -> Set<int> {
    status_prefix(langs, active, langs.len() as int)
}

/// `order` lists each of `positions` exactly once, in table order.
pub open spec fn is_table_order(langs: Seq<Language>, positions: Set<int>, order: Seq<usize>) -> bool {
    &&& forall|k: int| 0 <= k < order.len() ==> #[trigger] positions.contains(order[k] as int)
    &&& forall|i: int| #[trigger]
        positions.contains(i) ==> exists|k: int| 0 <= k < order.len() && order[k] as int == i
    &&& forall|a: int, b: int|
        0 <= a < b < order.len() ==> ranks_before(langs, #[trigger] order[a] as int, #[trigger] order[b] as int)
}

/// The positions of the languages with status `active`, in table order: most
/// stars first, ties in file order.
pub open spec fn table_order(langs: Seq<Language>, active: bool) -> Seq<usize> {
    choose|order: Seq<usize>| is_table_order(langs, with_status(langs, active), order)
}

/// The table order of a set of positions is fully determined: any two
/// orderings that list each position once, most stars first and ties in file
/// order, are the same.
pub proof fn lemma_table_order_unique(
    langs: Seq<Language>,
    positions: Set<int>,
    p: Seq<usize>,
    q: Seq<usize>,
)
    requires
        is_table_order(langs, positions, p),
        is_table_order(langs, positions, q),
    ensures
        p == q,
    decreases p.len(),
{
    if p.len() == 0 {
        if q.len() > 0 {
            assert(positions.contains(q[0] as int));
        }
        assert(p =~= q);
    } else {
        assert(positions.contains(p[0] as int));
        if q.len() == 0 {
            assert(false);
        }
        assert(positions.contains(q[0] as int));
        let x = p[0];
        let y = q[0];
        let kq = choose|k: int| 0 <= k < q.len() && q[k] as int == x as int;
        let kp = choose|k: int| 0 <= k < p.len() && p[k] as int == y as int;
        if kq > 0 && kp > 0 {
            assert(ranks_before(langs, q[0] as int, q[kq] as int));
            assert(ranks_before(langs, p[0] as int, p[kp] as int));
            assert(false);
        } else if kq > 0 {
            assert(x == y);
        }
        assert(x == y);
        let rest = positions.remove(x as int);
        let p1 = p.drop_first();
        let q1 = q.drop_first();
        assert forall|k: int| 0 <= k < p1.len() implies #[trigger] rest.contains(p1[k] as int) by {
            assert(p1[k] == p[k + 1]);
            assert(ranks_before(langs, p[0] as int, p[k + 1] as int));
        }
        assert forall|k: int| 0 <= k < q1.len() implies #[trigger] rest.contains(q1[k] as int) by {
            assert(q1[k] == q[k + 1]);
            assert(ranks_before(langs, q[0] as int, q[k + 1] as int));
        }
        assert forall|i: int| #[trigger] rest.contains(i) implies exists|k: int|
            0 <= k < p1.len() && p1[k] as int == i by {
            assert(positions.contains(i));
            let k = choose|k: int| 0 <= k < p.len() && p[k] as int == i;
            assert(k != 0);
            assert(p1[k - 1] as int == i);
        }
        assert forall|i: int| #[trigger] rest.contains(i) implies exists|k: int|
            0 <= k < q1.len() && q1[k] as int == i by {
            assert(positions.contains(i));
            let k = choose|k: int| 0 <= k < q.len() && q[k] as int == i;
            assert(k != 0);
            assert(q1[k - 1] as int == i);
        }
        assert forall|a: int, b: int| 0 <= a < b < p1.len() implies ranks_before(
            langs,
            #[trigger] p1[a] as int,
            #[trigger] p1[b] as int,
        ) by {
            assert(ranks_before(langs, p[a + 1] as int, p[b + 1] as int));
        }
        assert forall|a: int, b: int| 0 <= a < b < q1.len() implies ranks_before(
            langs,
            #[trigger] q1[a] as int,
            #[trigger] q1[b] as int,
        ) by {
            assert(ranks_before(langs, q[a + 1] as int, q[b + 1] as int));
        }
        lemma_table_order_unique(langs, rest, p1, q1);
        assert(p =~= seq![x] + p1);
        assert(q =~= seq![y] + q1);
    }
}


/// Inserting a new, later position `i` just before the first entry with fewer
/// stars keeps an ordering in table order.
proof fn lemma_insert_keeps_order(
    langs: Seq<Language>,
    positions: Set<int>,
    order: Seq<usize>,
    i: usize,
    k: int,
)
    requires
        is_table_order(langs, positions, order),
        forall|m: int| 0 <= m < order.len() ==> order[m] < i,
        0 <= k <= order.len(),
        forall|m: int| 0 <= m < k ==> langs[order[m] as int].stars >= langs[i as int].stars,
        k < order.len() ==> langs[order[k] as int].stars < langs[i as int].stars,
    ensures
        is_table_order(langs, positions.insert(i as int), order.insert(k, i)),
{
    let after = order.insert(k, i);
    let ps = positions.insert(i as int);
    assert forall|m: int| k <= m < order.len() implies langs[order[m] as int].stars
        < langs[i as int].stars by {
        if m > k {
            assert(ranks_before(langs, order[k] as int, order[m] as int));
        }
    }
    assert forall|a: int| 0 <= a < after.len() implies #[trigger] ps.contains(after[a] as int) by {
        if a < k {
            assert(after[a] == order[a]);
            assert(positions.contains(order[a] as int));
        } else if a > k {
            assert(after[a] == order[a - 1]);
            assert(positions.contains(order[a - 1] as int));
        }
    }
    assert forall|j: int| #[trigger] ps.contains(j) implies exists|a: int|
        0 <= a < after.len() && after[a] as int == j by {
        if j == i {
            assert(after[k] as int == j);
        } else {
            assert(positions.contains(j));
            let m = choose|m: int| 0 <= m < order.len() && order[m] as int == j;
            if m < k {
                assert(after[m] as int == j);
            } else {
                assert(after[m + 1] as int == j);
            }
        }
    }
    assert forall|a: int, b: int| 0 <= a < b < after.len() implies ranks_before(
        langs,
        #[trigger] after[a] as int,
        #[trigger] after[b] as int,
    ) by {
        if b < k {
            assert(ranks_before(langs, order[a] as int, order[b] as int));
        } else if b == k {
            assert(after[a] == order[a]);
        } else if a < k {
            assert(after[a] == order[a]);
            assert(after[b] == order[b - 1]);
            assert(ranks_before(langs, order[a] as int, order[b - 1] as int));
        } else if a == k {
            assert(after[b] == order[b - 1]);
        } else {
            assert(ranks_before(langs, order[a - 1] as int, order[b - 1] as int));
        }
    }
}

/// The positions of the languages with status `active`, in table order.
fn status_order(languages: &[Language], active: bool) -> (order: Vec<usize>)
    ensures
        is_table_order(languages@, with_status(languages@, active), order@),
{
    let ghost langs = languages@;
    let mut order: Vec<usize> = Vec::new();
    let n = languages.len();
    for i in 0..n
        invariant
            n == langs.len(),
            langs == languages@,
            is_table_order(langs, status_prefix(langs, active, i as int), order@),
    {
        if languages[i].active == active {
            let ghost before = order@;
            // Every position in the order so far is below `i`.
            assert forall|k: int| 0 <= k < before.len() implies before[k] < i by {
                assert(status_prefix(langs, active, i as int).contains(before[k] as int));
            }
            let mut k: usize = 0;
            while k < order.len() && languages[order[k]].stars >= languages[i].stars
                invariant
                    order@ == before,
                    k <= before.len(),
                    i < n == langs.len(),
                    langs == languages@,
                    forall|m: int| 0 <= m < before.len() ==> before[m] < i,
                    forall|m: int| 0 <= m < k ==> langs[before[m] as int].stars >= langs[i as int].stars,
                decreases before.len() - k,
            {
                k = k + 1;
            }
            proof {
                lemma_insert_keeps_order(
                    langs,
                    status_prefix(langs, active, i as int),
                    before,
                    i,
                    k as int,
                );
                assert(status_prefix(langs, active, i + 1) =~= status_prefix(
                    langs,
                    active,
                    i as int,
                ).insert(i as int));
            }
            order.insert(k, i);
        } else {
            let ghost ps = status_prefix(langs, active, i + 1);
            let ghost old_ps = status_prefix(langs, active, i as int);
            assert(ps =~= old_ps);
        }
    }
    order
}

/// Where an entry with `stars` stars goes in `order`, searching from `k`:
/// before the first entry with fewer stars.
spec fn insertion_point(langs: Seq<Language>, order: Seq<usize>, stars: u64, k: int) -> int
    decreases order.len() - k,
{
    if k >= order.len() || langs[order[k] as int].stars < stars {
        k
    } else {
        insertion_point(langs, order, stars, k + 1)
    }
}

proof fn lemma_insertion_point(langs: Seq<Language>, order: Seq<usize>, stars: u64, k: int)
    requires
        0 <= k <= order.len(),
        forall|m: int| 0 <= m < k ==> langs[order[m] as int].stars >= stars,
    ensures
        k <= insertion_point(langs, order, stars, k) <= order.len(),
        forall|m: int|
            0 <= m < insertion_point(langs, order, stars, k) ==> langs[order[m] as int].stars
                >= stars,
        insertion_point(langs, order, stars, k) < order.len() ==> langs[order[insertion_point(
            langs,
            order,
            stars,
            k,
        )] as int].stars < stars,
    decreases order.len() - k,
{
    if k >= order.len() || langs[order[k] as int].stars < stars {
    } else {
        lemma_insertion_point(langs, order, stars, k + 1);
    }
}

/// A table order of the positions below `n` exists.
proof fn lemma_table_order_below(langs: Seq<Language>, active: bool, n: int) -> (order: Seq<usize>)
    requires
        0 <= n <= langs.len() <= usize::MAX,
    ensures
        is_table_order(langs, status_prefix(langs, active, n), order),
        forall|m: int| 0 <= m < order.len() ==> order[m] < n,
    decreases n,
{
    if n == 0 {
        let order = Seq::<usize>::empty();
        assert(status_prefix(langs, active, 0) =~= Set::empty());
        order
    } else {
        let before = lemma_table_order_below(langs, active, n - 1);
        if langs[n - 1].active == active {
            let i = (n - 1) as usize;
            lemma_insertion_point(langs, before, langs[n - 1].stars, 0);
            let k = insertion_point(langs, before, langs[n - 1].stars, 0);
            lemma_insert_keeps_order(langs, status_prefix(langs, active, n - 1), before, i, k);
            assert(status_prefix(langs, active, n) =~= status_prefix(langs, active, n - 1).insert(
                n - 1,
            ));
            let order = before.insert(k, i);
            assert forall|m: int| 0 <= m < order.len() implies order[m] < n by {
                if m < k {
                    assert(order[m] == before[m]);
                } else if m > k {
                    assert(order[m] == before[m - 1]);
                }
            }
            order
        } else {
            assert(status_prefix(langs, active, n) =~= status_prefix(langs, active, n - 1));
            before
        }
    }
}

/// `table_order` is a table order of the languages with that status.
pub proof fn lemma_table_order(langs: Seq<Language>, active: bool)
    requires
        langs.len() <= usize::MAX,
    ensures
        is_table_order(langs, with_status(langs, active), table_order(langs, active)),
{
    let order = lemma_table_order_below(langs, active, langs.len() as int);
}

/// Each half of the table lists only languages of its status, most stars
/// first, and languages with the same number of stars in file order.
pub proof fn lemma_table_sorted_by_stars(langs: Seq<Language>, active: bool)
    requires
        langs.len() <= usize::MAX,
    ensures
        forall|k: int|
            0 <= k < table_order(langs, active).len() ==> 0 <= #[trigger] table_order(
                langs,
                active,
            )[k] < langs.len() && langs[table_order(langs, active)[k] as int].active == active,
        forall|a: int, b: int|
            #![trigger table_order(langs, active)[a], table_order(langs, active)[b]]
            0 <= a < b < table_order(langs, active).len() ==> {
                let i = table_order(langs, active)[a] as int;
                let j = table_order(langs, active)[b] as int;
                &&& langs[i].stars >= langs[j].stars
                &&& langs[i].stars == langs[j].stars ==> i < j
            },
{
    lemma_table_order(langs, active);
    let t = table_order(langs, active);
    assert forall|k: int| 0 <= k < t.len() implies 0 <= #[trigger] t[k] < langs.len()
        && langs[t[k] as int].active == active by {
        assert(with_status(langs, active).contains(t[k] as int));
    }
    assert forall|a: int, b: int| #![trigger t[a], t[b]] 0 <= a < b < t.len() implies {
        let i = t[a] as int;
        let j = t[b] as int;
        &&& langs[i].stars >= langs[j].stars
        &&& langs[i].stars == langs[j].stars ==> i < j
    } by {
        assert(ranks_before(langs, t[a] as int, t[b] as int));
    }
}

/// The language at position `i` is in the half of the table for `active`.
pub open spec fn listed(langs: Seq<Language>, active: bool, i: int) -> bool {
    exists|k: int|
        0 <= k < table_order(langs, active).len() && #[trigger] table_order(langs, active)[k] as int
            == i
}

/// Every language of the list is in exactly one half of the table, and there
/// exactly once.
pub proof fn lemma_every_language_listed_once(langs: Seq<Language>, i: int)
    requires
        langs.len() <= usize::MAX,
        0 <= i < langs.len(),
    ensures
        listed(langs, langs[i].active, i),
        !listed(langs, !langs[i].active, i),
        forall|a: int, b: int|
            #![trigger table_order(langs, langs[i].active)[a], table_order(langs, langs[i].active)[b]]
            0 <= a < table_order(langs, langs[i].active).len() && 0 <= b < table_order(
                langs,
                langs[i].active,
            ).len() && table_order(langs, langs[i].active)[a] as int == i && table_order(
                langs,
                langs[i].active,
            )[b] as int == i ==> a == b,
{
    let flag = langs[i].active;
    lemma_table_order(langs, flag);
    lemma_table_order(langs, !flag);
    let t = table_order(langs, flag);
    let u = table_order(langs, !flag);
    assert(with_status(langs, flag).contains(i));
    assert forall|k: int| 0 <= k < u.len() implies u[k] as int != i by {
        assert(with_status(langs, !flag).contains(u[k] as int));
    }
    let k0 = choose|k: int| 0 <= k < t.len() && t[k] as int == i;
    assert(t[k0] as int == i);
    assert forall|a: int, b: int|
        0 <= a < t.len() && 0 <= b < t.len() && t[a] as int == i && t[b] as int == i implies a
        == b by {
        if a < b {
            assert(ranks_before(langs, t[a] as int, t[b] as int));
        } else if b < a {
            assert(ranks_before(langs, t[b] as int, t[a] as int));
        }
    }
}

/// Split the languages into the active ones and the inactive ones, each
/// ordered by star count, most stars first.
///
/// The sort is stable, so languages with the same number of stars stay in the
/// order they appear in `languages.json`.
pub fn by_status(languages: &[Language]) -> (split: (Vec<&Language>, Vec<&Language>))
    ensures
        split.0@.len() == table_order(languages@, true).len(),
        forall|k: int|
            0 <= k < split.0@.len() ==> *split.0@[k] == languages@[table_order(
                languages@,
                true,
            )[k] as int],
        split.1@.len() == table_order(languages@, false).len(),
        forall|k: int|
            0 <= k < split.1@.len() ==> *split.1@[k] == languages@[table_order(
                languages@,
                false,
            )[k] as int],
{
    let active = status_order(languages, true);
    let inactive = status_order(languages, false);
    proof {
        assert forall|k: int| 0 <= k < active@.len() implies active@[k] < languages@.len() by {
            assert(with_status(languages@, true).contains(active@[k] as int));
        }
        assert forall|k: int| 0 <= k < inactive@.len() implies inactive@[k] < languages@.len() by {
            assert(with_status(languages@, false).contains(inactive@[k] as int));
        }
        lemma_table_order_unique(
            languages@,
            with_status(languages@, true),
            active@,
            table_order(languages@, true),
        );
        lemma_table_order_unique(
            languages@,
            with_status(languages@, false),
            inactive@,
            table_order(languages@, false),
        );
    }
    (pick(languages, &active), pick(languages, &inactive))
}

/// The languages at the given positions, in that order.
fn pick<'a>(languages: &'a [Language], order: &Vec<usize>) -> (picked: Vec<&'a Language>)
    requires
        forall|k: int| 0 <= k < order@.len() ==> order@[k] < languages@.len(),
    ensures
        picked@.len() == order@.len(),
        forall|k: int| 0 <= k < order@.len() ==> *picked@[k] == languages@[order@[k] as int],
{
    let mut picked: Vec<&'a Language> = Vec::new();
    for k in 0..order.len()
        invariant
            forall|m: int| 0 <= m < order@.len() ==> order@[m] < languages@.len(),
            picked@.len() == k,
            forall|m: int| 0 <= m < k ==> *picked@[m] == languages@[order@[m] as int],
    {
        picked.push(&languages[order[k]]);
    }
    picked
}

} // verus!
