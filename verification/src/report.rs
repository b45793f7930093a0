//! What the comparison report covers: its scenarios and the order of its
//! library columns.

use vstd::prelude::*;

use crate::text::lex_less;

verus! {

/// The text of each name in `names`.
pub open spec fn texts(names: Seq<String>) -> Seq<Seq<char>> {
    names.map_values(|s: String| s@)
}

/// The scenarios of the suite, as (identifier, description), in report order.
pub open spec fn scenario_list() -> Seq<(Seq<char>, Seq<char>)> {
    seq![
        ("simple_insert"@, "Insert 10K entities, 4 components each"@),
        ("simple_iter"@, "Iterate 10K entities, position += velocity"@),
        ("fragmented_iter"@, "Iterate Data across 26 fragmented archetypes"@),
        ("heavy_compute"@, "Parallel matrix inversion over 1K entities"@),
        ("add_remove"@, "Add then remove a component on 10K entities"@),
        ("schedule"@, "Run a 3-system schedule over 40K entities"@),
    ]
}

/// Libraries whose columns come first, in this order, when they were measured.
pub open spec fn preferred_order() -> Seq<Seq<char>> {
    seq!["freecs"@, "freecs_dyn"@, "bevy"@, "skyecs"@]
}

/// Column order for the measured libraries `all`: the preferred libraries that were
/// measured, in preferred order, then every other measured library in the order of `all`.
pub open spec fn column_order(all: Seq<Seq<char>>) -> Seq<Seq<char>> {
    preferred_order().filter(|p: Seq<char>| all.contains(p)) + all.filter(
        |l: Seq<char>| !preferred_order().contains(l),
    )
}

/// Names in strictly ascending order.
pub open spec fn is_ascending(names: Seq<Seq<char>>) -> bool {
    forall|i: int, j: int| 0 <= i < j < names.len() ==> lex_less(#[trigger] names[i], #[trigger] names[j])
}

/// No name comes before itself, so names in strictly ascending order are distinct.
pub proof fn lemma_ascending_no_duplicates(names: Seq<Seq<char>>)
    requires
        is_ascending(names),
    ensures
        names.no_duplicates(),
{
    assert forall|i: int, j: int| 0 <= i < names.len() && 0 <= j < names.len() && i != j implies names[i] != names[j] by {
        let (a, b) = if i < j { (i, j) } else { (j, i) };
        assert(lex_less(names[a], names[b]));
        if names[a] == names[b] {
            let k = choose|k: int|
                #![trigger names[a].take(k), names[b].take(k)]
                0 <= k <= names[a].len() && k <= names[b].len() && names[a].take(k) == names[b].take(k)
                    && ((k == names[a].len() && k < names[b].len()) || (k < names[a].len() && k
                    < names[b].len() && names[a][k] < names[b][k]));
        }
    }
}

/// The libraries that are not preferred keep the ascending order of names: they are
/// appended alphabetically after the preferred ones.
pub proof fn lemma_other_columns_ascending(all: Seq<Seq<char>>)
    requires
        is_ascending(all),
    ensures
        is_ascending(all.filter(|l: Seq<char>| !preferred_order().contains(l))),
{
    lemma_filter_ascending(all, |l: Seq<char>| !preferred_order().contains(l));
}

proof fn lemma_filter_ascending(s: Seq<Seq<char>>, keep: spec_fn(Seq<char>) -> bool)
    requires
        is_ascending(s),
    ensures
        is_ascending(s.filter(keep)),
    decreases s.len(),
{
    reveal(Seq::filter);
    if s.len() > 0 {
        let front = s.drop_last();
        assert(is_ascending(front)) by {
            assert forall|i: int, j: int| 0 <= i < j < front.len() implies lex_less(#[trigger] front[i], #[trigger] front[j]) by {
                assert(front[i] == s[i] && front[j] == s[j]);
            }
        }
        lemma_filter_ascending(front, keep);
        if keep(s.last()) {
            let f = front.filter(keep);
            let g = f.push(s.last());
            assert forall|i: int, j: int| 0 <= i < j < g.len() implies lex_less(#[trigger] g[i], #[trigger] g[j]) by {
                if j < f.len() {
                    assert(g[i] == f[i] && g[j] == f[j]);
                } else {
                    assert(f.contains(f[i]));
                    front.lemma_filter_contains_rev(keep, f[i]);
                    let m = choose|m: int| 0 <= m < front.len() && front[m] == f[i];
                    assert(s[m] == f[i]);
                    assert(lex_less(s[m], s[s.len() - 1]));
                }
            }
        }
    }
}

proof fn lemma_filter_no_duplicates(s: Seq<Seq<char>>, keep: spec_fn(Seq<char>) -> bool)
    requires
        s.no_duplicates(),
    ensures
        s.filter(keep).no_duplicates(),
    decreases s.len(),
{
    reveal(Seq::filter);
    if s.len() > 0 {
        let front = s.drop_last();
        assert(front.no_duplicates());
        lemma_filter_no_duplicates(front, keep);
        if keep(s.last()) {
            if front.filter(keep).contains(s.last()) {
                front.lemma_filter_contains_rev(keep, s.last());
                let i = choose|i: int| 0 <= i < front.len() && front[i] == s.last();
                assert(s[i] == s[s.len() - 1]);
            }
        }
    }
}

/// The column order holds every measured library exactly once, and nothing else.
pub proof fn lemma_column_order_is_permutation(all: Seq<Seq<char>>)
    requires
        all.no_duplicates(),
    ensures
        column_order(all).no_duplicates(),
        forall|l: Seq<char>| #[trigger] column_order(all).contains(l) <==> all.contains(l),
{
    broadcast use vstd::seq_lib::group_filter_ensures;

    let keep = |p: Seq<char>| all.contains(p);
    let rest = |l: Seq<char>| !preferred_order().contains(l);
    let head = preferred_order().filter(keep);
    let tail = all.filter(rest);
    reveal_strlit("freecs");
    reveal_strlit("freecs_dyn");
    reveal_strlit("bevy");
    reveal_strlit("skyecs");
    assert("freecs"@.len() != "freecs_dyn"@.len());
    assert("freecs"@.len() != "bevy"@.len());
    assert("freecs"@[0] != "skyecs"@[0]);
    assert("freecs_dyn"@.len() != "bevy"@.len());
    assert("freecs_dyn"@.len() != "skyecs"@.len());
    assert("bevy"@.len() != "skyecs"@.len());
    assert(preferred_order().no_duplicates());
    lemma_filter_no_duplicates(preferred_order(), keep);
    lemma_filter_no_duplicates(all, rest);
    assert forall|i: int, j: int| 0 <= i < head.len() && 0 <= j < tail.len() implies head[i]
        != tail[j] by {
        assert(head.contains(head[i]));
        preferred_order().lemma_filter_contains_rev(keep, head[i]);
        assert(rest(tail[j]));
    }
    vstd::seq_lib::lemma_no_dup_in_concat(head, tail);
    assert forall|l: Seq<char>| #[trigger] column_order(all).contains(l) <==> all.contains(l) by {
        let whole = head + tail;
        if whole.contains(l) {
            let m = choose|m: int| 0 <= m < whole.len() && whole[m] == l;
            if m < head.len() {
                assert(head.contains(l));
                preferred_order().lemma_filter_contains_rev(keep, l);
            } else {
                assert(tail.contains(l));
                all.lemma_filter_contains_rev(rest, l);
            }
        }
        if all.contains(l) {
            let n = choose|n: int| 0 <= n < all.len() && all[n] == l;
            if preferred_order().contains(l) {
                let m = choose|m: int| 0 <= m < preferred_order().len() && preferred_order()[m] == l;
                assert(keep(preferred_order()[m]));
                assert(head.contains(l));
                let h = choose|h: int| 0 <= h < head.len() && head[h] == l;
                assert(whole[h] == l);
            } else {
                assert(rest(all[n]));
                assert(tail.contains(l));
                let t = choose|t: int| 0 <= t < tail.len() && tail[t] == l;
                assert(whole[head.len() + t] == l);
            }
        }
    }
}

proof fn lemma_filter_congruent(
    s: Seq<Seq<char>>,
    p: spec_fn(Seq<char>) -> bool,
    q: spec_fn(Seq<char>) -> bool,
)
    requires
        forall|i: int| 0 <= i < s.len() ==> p(#[trigger] s[i]) == q(s[i]),
    ensures
        s.filter(p) == s.filter(q),
    decreases s.len(),
{
    reveal(Seq::filter);
    if s.len() > 0 {
        let front = s.drop_last();
        assert forall|i: int| 0 <= i < front.len() implies p(#[trigger] front[i]) == q(front[i]) by {
            assert(front[i] == s[i]);
        }
        lemma_filter_congruent(front, p, q);
        assert(p(s[s.len() - 1]) == q(s[s.len() - 1]));
    }
}

proof fn lemma_filter_twice(
    s: Seq<Seq<char>>,
    p: spec_fn(Seq<char>) -> bool,
    q: spec_fn(Seq<char>) -> bool,
)
    ensures
        s.filter(p).filter(q) == s.filter(|e: Seq<char>| p(e) && q(e)),
    decreases s.len(),
{
    reveal(Seq::filter);
    if s.len() > 0 {
        lemma_filter_twice(s.drop_last(), p, q);
        let f = s.drop_last().filter(p);
        if p(s.last()) {
            assert(f.push(s.last()).drop_last() =~= f);
        }
    } else {
        assert(s.filter(p) =~= s);
    }
}

proof fn lemma_filter_drops_one(x: Seq<char>, keep: spec_fn(Seq<char>) -> bool)
    requires
        !keep(x),
    ensures
        seq![x].filter(keep) == Seq::<Seq<char>>::empty(),
{
    reveal_with_fuel(Seq::filter, 2);
    assert(seq![x].drop_last() =~= Seq::<Seq<char>>::empty());
}

/// Adding a library to the measured set never reorders the other columns: the new
/// column order, without the new library, is the old one; and a library that is not
/// preferred comes after every preferred one.
pub proof fn lemma_column_order_adding(all: Seq<Seq<char>>, x: Seq<char>, i: int)
    requires
        all.no_duplicates(),
        !all.contains(x),
        0 <= i <= all.len(),
    ensures
        column_order(all.take(i) + seq![x] + all.skip(i)).filter(|l: Seq<char>| l != x)
            == column_order(all),
        !preferred_order().contains(x) ==> forall|j: int, k: int|
            0 <= j < column_order(all.take(i) + seq![x] + all.skip(i)).len() && 0 <= k
                < column_order(all.take(i) + seq![x] + all.skip(i)).len() && column_order(
                all.take(i) + seq![x] + all.skip(i),
            )[k] == x && preferred_order().contains(
                column_order(all.take(i) + seq![x] + all.skip(i))[j],
            ) ==> j < k,
{
    broadcast use vstd::seq_lib::group_filter_ensures;

    let (before, after) = (all.take(i), all.skip(i));
    let more = before + seq![x] + after;
    assert(all =~= before + after);
    let keep = |p: Seq<char>| all.contains(p);
    let keep_more = |p: Seq<char>| more.contains(p);
    let rest = |l: Seq<char>| !preferred_order().contains(l);
    let other = |l: Seq<char>| l != x;
    assert forall|e: Seq<char>| more.contains(e) <==> (all.contains(e) || e == x) by {
        if more.contains(e) {
            let m = choose|m: int| 0 <= m < more.len() && more[m] == e;
            if m < i {
                assert(all[m] == e);
            } else if m > i {
                assert(all[m - 1] == e);
            }
        }
        if e == x {
            assert(more[i] == e);
        } else if all.contains(e) {
            let m = choose|m: int| 0 <= m < all.len() && all[m] == e;
            if m < i {
                assert(more[m] == e);
            } else {
                assert(more[m + 1] == e);
            }
        }
    }
    let head = preferred_order().filter(keep_more);
    let tail = more.filter(rest);
    assert(column_order(more) == head + tail);
    Seq::filter_distributes_over_add(head, tail, other);
    lemma_filter_twice(preferred_order(), keep_more, other);
    lemma_filter_congruent(
        preferred_order(),
        |e: Seq<char>| keep_more(e) && other(e),
        keep,
    );
    lemma_filter_twice(more, rest, other);
    let both = |e: Seq<char>| rest(e) && other(e);
    Seq::filter_distributes_over_add(before + seq![x], after, both);
    Seq::filter_distributes_over_add(before, seq![x], both);
    lemma_filter_drops_one(x, both);
    Seq::filter_distributes_over_add(before, after, both);
    assert(before.filter(both) + Seq::<Seq<char>>::empty() =~= before.filter(both));
    assert forall|k: int| 0 <= k < all.len() implies both(#[trigger] all[k]) == rest(all[k]) by {
        assert(all[k] != x);
    }
    lemma_filter_congruent(all, both, rest);
    if !preferred_order().contains(x) {
        let order = column_order(more);
        assert forall|j: int, k: int|
            0 <= j < order.len() && 0 <= k < order.len() && order[k] == x
                && preferred_order().contains(order[j]) implies j < k by {
            if k < head.len() {
                assert(head.contains(x));
                preferred_order().lemma_filter_contains_rev(keep_more, x);
            }
            if j >= head.len() {
                assert(tail.contains(order[j]));
                assert(tail[j - head.len()] == order[j]);
                assert(rest(tail[j - head.len()]));
            }
        }
    }
}

/// The scenarios of the suite, as (identifier, description), in report order.
pub fn scenarios() -> (list: Vec<(&'static str, &'static str)>)
    ensures
        list@.map_values(|p: (&'static str, &'static str)| (p.0@, p.1@)) == scenario_list(),
{
    let list = vec![
        ("simple_insert", "Insert 10K entities, 4 components each"),
        ("simple_iter", "Iterate 10K entities, position += velocity"),
        ("fragmented_iter", "Iterate Data across 26 fragmented archetypes"),
        ("heavy_compute", "Parallel matrix inversion over 1K entities"),
        ("add_remove", "Add then remove a component on 10K entities"),
        ("schedule", "Run a 3-system schedule over 40K entities"),
    ];
    assert(list@.map_values(|p: (&'static str, &'static str)| (p.0@, p.1@)) =~= scenario_list());
    list
}

fn preferred_names() -> (names: Vec<String>)
    ensures
        texts(names@) == preferred_order(),
{
    let mut names: Vec<String> = Vec::new();
    names.push(String::from_str("freecs"));
    names.push(String::from_str("freecs_dyn"));
    names.push(String::from_str("bevy"));
    names.push(String::from_str("skyecs"));
    assert(texts(names@) =~= preferred_order());
    names
}

/// Whether `names` holds `name`.
fn holds(names: &Vec<String>, name: &String) -> (found: bool)
    ensures
        found == texts(names@).contains(name@),
{
    let mut i: usize = 0;
    while i < names.len()
        invariant
            i <= names@.len(),
            forall|k: int| 0 <= k < i ==> (#[trigger] names@[k])@ != name@,
        decreases names@.len() - i,
    {
        if names[i] == *name {
            assert(texts(names@)[i as int] == name@);
            return true;
        }
        i = i + 1;
    }
    proof {
        if texts(names@).contains(name@) {
            let k = choose|k: int| 0 <= k < texts(names@).len() && texts(names@)[k] == name@;
            assert(names@[k]@ != name@);
        }
    }
    false
}

/// Orders the report's columns: the preferred libraries that were measured first, in
/// preferred order, then every other measured library in ascending order of names
/// (`all` holds the measured libraries in that order).
pub fn order_libraries(all: &Vec<String>) -> (ordered: Vec<String>)
    requires
        is_ascending(texts(all@)),
    ensures
        texts(ordered@) == column_order(texts(all@)),
        is_ascending(texts(all@).filter(|l: Seq<char>| !preferred_order().contains(l))),
{
    proof {
        lemma_ascending_no_duplicates(texts(all@));
        lemma_other_columns_ascending(texts(all@));
    }
    let ghost everything = texts(all@);
    let ghost keep = |p: Seq<char>| everything.contains(p);
    let ghost rest = |l: Seq<char>| !preferred_order().contains(l);
    let preferred = preferred_names();
    let mut ordered: Vec<String> = Vec::new();
    let mut i: usize = 0;
    while i < preferred.len()
        invariant
            i <= preferred@.len(),
            texts(preferred@) == preferred_order(),
            everything == texts(all@),
            keep == (|p: Seq<char>| everything.contains(p)),
            texts(ordered@) == preferred_order().take(i as int).filter(keep),
        decreases preferred@.len() - i,
    {
        reveal(Seq::filter);
        assert(preferred_order().take(i + 1).drop_last() =~= preferred_order().take(i as int));
        if holds(all, &preferred[i]) {
            ordered.push(preferred[i].clone());
        }
        i = i + 1;
        assert(texts(ordered@) =~= preferred_order().take(i as int).filter(keep));
    }
    assert(preferred_order().take(4) =~= preferred_order());
    let ghost head = texts(ordered@);
    let mut k: usize = 0;
    while k < all.len()
        invariant
            k <= all@.len(),
            texts(preferred@) == preferred_order(),
            everything == texts(all@),
            everything.no_duplicates(),
            keep == (|p: Seq<char>| everything.contains(p)),
            rest == (|l: Seq<char>| !preferred_order().contains(l)),
            head == preferred_order().filter(keep),
            texts(ordered@) == head + everything.take(k as int).filter(rest),
        decreases all@.len() - k,
    {
        reveal(Seq::filter);
        assert(everything.take(k + 1).drop_last() =~= everything.take(k as int));
        let name = &all[k];
        proof {
            broadcast use vstd::seq_lib::group_filter_ensures;
            let tail = everything.take(k as int).filter(rest);
            let whole = head + tail;
            assert(everything[k as int] == name@);
            if tail.contains(name@) {
                everything.take(k as int).lemma_filter_contains_rev(rest, name@);
                let n = choose|n: int| 0 <= n < k && everything.take(k as int)[n] == name@;
                assert(everything[n] == everything[k as int]);
            }
            if head.contains(name@) {
                preferred_order().lemma_filter_contains_rev(keep, name@);
            }
            if preferred_order().contains(name@) {
                let m = choose|m: int|
                    0 <= m < preferred_order().len() && preferred_order()[m] == name@;
                assert(keep(preferred_order()[m]));
                assert(head.contains(name@));
                let h = choose|h: int| 0 <= h < head.len() && head[h] == name@;
                assert(whole[h] == name@);
            } else if whole.contains(name@) {
                let m = choose|m: int| 0 <= m < whole.len() && whole[m] == name@;
                if m < head.len() {
                    assert(head[m] == name@);
                } else {
                    assert(tail[m - head.len()] == name@);
                }
            }
            assert(texts(ordered@).contains(name@) <==> preferred_order().contains(name@));
        }
        let ghost before = texts(ordered@);
        let ghost next = everything.take(k + 1);
        assert(next.drop_last() == everything.take(k as int));
        assert(next.last() == name@);
        if !holds(&ordered, name) {
            ordered.push(name.clone());
            assert(texts(ordered@) =~= before.push(name@));
        }
        assert(next.filter(rest) == if rest(name@) {
            everything.take(k as int).filter(rest).push(name@)
        } else {
            everything.take(k as int).filter(rest)
        });
        k = k + 1;
        assert(texts(ordered@) =~= head + everything.take(k as int).filter(rest));
    }
    assert(everything.take(all@.len() as int) =~= everything);
    ordered
}

} // verus!
