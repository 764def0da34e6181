//! Co-change: how often two files were modified by the same commit, and
//! which file changed most often together with a given one.

use vstd::prelude::*;
use crate::history::CommitChangeSet;
use crate::text::{same_text, texts};

verus! {

/// How many partners a query names at most.
pub const TOP_PARTNERS: usize = 1;

/// Whether a commit that modified `files` modified both `a` and `b`, two
/// different files.
pub open spec fn together(files: Seq<Seq<char>>, a: Seq<char>, b: Seq<char>) -> bool {
    a != b && files.contains(a) && files.contains(b)
}

/// In how many commits of `changes` the files `a` and `b` changed together.
pub open spec fn co_count(
    changes: Seq<(Seq<char>, Seq<Seq<char>>)>,
    a: Seq<char>,
    b: Seq<char>,
) -> nat
    decreases changes.len(),
{
    if changes.len() == 0 {
        0
    } else {
        co_count(changes.drop_last(), a, b) + if together(changes.last().1, a, b) {
            1nat
        } else {
            0nat
        }
    }
}

/// `list`, followed by the files of `files` that are neither `a` nor listed
/// yet, each once and in their order in `files`.
pub open spec fn extend(list: Seq<Seq<char>>, files: Seq<Seq<char>>, a: Seq<char>) -> Seq<
    Seq<char>,
>
    decreases files.len(),
{
    if files.len() == 0 {
        list
    } else {
        let before = extend(list, files.drop_last(), a);
        let x = files.last();
        if x == a || before.contains(x) {
            before
        } else {
            before.push(x)
        }
    }
}

/// The files that changed together with `a` in some commit of `changes`,
/// each once, in the order in which the changes first show them.
pub open spec fn partners(changes: Seq<(Seq<char>, Seq<Seq<char>>)>, a: Seq<char>) -> Seq<
    Seq<char>,
>
    decreases changes.len(),
{
    if changes.len() == 0 {
        Seq::<Seq<char>>::empty()
    } else {
        let before = partners(changes.drop_last(), a);
        if changes.last().1.contains(a) {
            extend(before, changes.last().1, a)
        } else {
            before
        }
    }
}

/// Whether no text occurs twice in `list`.
pub open spec fn distinct(list: Seq<Seq<char>>) -> bool {
    forall|i: int, j: int| 0 <= i < j < list.len() ==> list[i] != list[j]
}

/// What `extend` keeps and what it adds.
pub proof fn lemma_extend(list: Seq<Seq<char>>, files: Seq<Seq<char>>, a: Seq<char>)
    requires
        distinct(list),
        !list.contains(a),
    ensures
        distinct(extend(list, files, a)),
        !extend(list, files, a).contains(a),
        extend(list, files, a).len() >= list.len(),
        extend(list, files, a).take(list.len() as int) == list,
        forall|x: Seq<char>| #[trigger]
            extend(list, files, a).contains(x) <==> list.contains(x) || (files.contains(x) && x
                != a),
    decreases files.len(),
{
    let result = extend(list, files, a);
    if files.len() == 0 {
        assert(result.take(list.len() as int) =~= list);
    } else {
        let front = files.drop_last();
        let before = extend(list, front, a);
        let x = files.last();
        lemma_extend(list, front, a);
        assert(files =~= front.push(x));
        assert forall|y: Seq<char>| files.contains(y) <==> front.contains(y) || y == x by {
            if files.contains(y) {
                let i = choose|i: int| 0 <= i < files.len() && files[i] == y;
                if i < front.len() {
                    assert(front[i] == y);
                }
            }
            if front.contains(y) {
                let i = choose|i: int| 0 <= i < front.len() && front[i] == y;
                assert(files[i] == y);
            }
            if y == x {
                assert(files[files.len() - 1] == y);
            }
        }
        if x == a || before.contains(x) {
        } else {
            assert(result == before.push(x));
            assert(result.take(list.len() as int) =~= before.take(list.len() as int));
            assert forall|y: Seq<char>| #[trigger]
                result.contains(y) <==> before.contains(y) || y == x by {
                if result.contains(y) {
                    let i = choose|i: int| 0 <= i < result.len() && result[i] == y;
                    if i < before.len() {
                        assert(before[i] == y);
                    }
                }
                if before.contains(y) {
                    let i = choose|i: int| 0 <= i < before.len() && before[i] == y;
                    assert(result[i] == y);
                }
                if y == x {
                    assert(result[result.len() - 1] == y);
                }
            }
            assert(distinct(result)) by {
                assert forall|i: int, j: int| 0 <= i < j < result.len() implies result[i]
                    != result[j] by {
                    if j == result.len() - 1 {
                        assert(before[i] == result[i]);
                        assert(before.contains(result[i]));
                    } else {
                        assert(before[i] == result[i] && before[j] == result[j]);
                    }
                }
            }
        }
    }
}

/// Co-change counts are symmetric, no file changes together with itself,
/// and no count exceeds the number of commits.
pub proof fn lemma_co_count(changes: Seq<(Seq<char>, Seq<Seq<char>>)>, a: Seq<char>, b: Seq<char>)
    ensures
        co_count(changes, a, b) == co_count(changes, b, a),
        co_count(changes, a, a) == 0,
        co_count(changes, a, b) <= changes.len(),
    decreases changes.len(),
{
    if changes.len() > 0 {
        lemma_co_count(changes.drop_last(), a, b);
        lemma_co_count(changes.drop_last(), a, a);
    }
}

/// The partners of a file are listed once each, the file is not its own
/// partner, and a file is a partner exactly if the two changed together at
/// least once.
pub proof fn lemma_partners(changes: Seq<(Seq<char>, Seq<Seq<char>>)>, a: Seq<char>)
    ensures
        distinct(partners(changes, a)),
        !partners(changes, a).contains(a),
        forall|x: Seq<char>| #[trigger]
            partners(changes, a).contains(x) <==> co_count(changes, a, x) > 0,
    decreases changes.len(),
{
    if changes.len() > 0 {
        let front = changes.drop_last();
        let files = changes.last().1;
        lemma_partners(front, a);
        lemma_extend(partners(front, a), files, a);
    }
}

/// A file that no commit modified has no partners.
pub proof fn lemma_unchanged_file_has_no_partners(
    changes: Seq<(Seq<char>, Seq<Seq<char>>)>,
    a: Seq<char>,
)
    requires
        forall|k: int| 0 <= k < changes.len() ==> !(#[trigger] changes[k]).1.contains(a),
    ensures
        partners(changes, a) == Seq::<Seq<char>>::empty(),
    decreases changes.len(),
{
    if changes.len() > 0 {
        lemma_unchanged_file_has_no_partners(changes.drop_last(), a);
    }
}

/// A file that changed together with another, and in how many commits.
pub struct CoChange {
    pub path: String,
    pub count: usize,
}

impl View for CoChange {
    type V = (Seq<char>, nat);

    open spec fn view(&self) -> Self::V {
        (self.path@, self.count as nat)
    }
}

/// The views of a sequence of co-changes.
pub open spec fn row_view(row: Seq<CoChange>) -> Seq<(Seq<char>, nat)> {
    Seq::new(row.len(), |i: int| row[i]@)
}

/// Each file of `list` with its co-change count with `a` over `changes`,
/// one more where one further commit, which modified `a` and `seen`, also
/// modified the file.
pub open spec fn row_with(
    list: Seq<Seq<char>>,
    changes: Seq<(Seq<char>, Seq<Seq<char>>)>,
    a: Seq<char>,
    seen: Seq<Seq<char>>,
) -> Seq<(Seq<char>, nat)> {
    Seq::new(
        list.len(),
        |i: int|
            (
                list[i],
                co_count(changes, a, list[i]) + if seen.contains(list[i]) && list[i] != a {
                    1nat
                } else {
                    0nat
                },
            ),
    )
}

/// The row of `a` in the co-change table of `changes`: its partners in
/// the order in which the changes first show them, each with its count.
pub open spec fn row_of(changes: Seq<(Seq<char>, Seq<Seq<char>>)>, a: Seq<char>) -> Seq<
    (Seq<char>, nat),
> {
    row_with(partners(changes, a), changes, a, Seq::<Seq<char>>::empty())
}

/// How one more commit changes the row of `a`: not at all where the commit
/// did not modify `a`; else the files it modified beside `a` count once more,
/// new ones joining the row at its end.
pub proof fn lemma_row_step(
    changes: Seq<(Seq<char>, Seq<Seq<char>>)>,
    id: Seq<char>,
    files: Seq<Seq<char>>,
    a: Seq<char>,
)
    ensures
        !files.contains(a) ==> row_of(changes.push((id, files)), a) == row_of(changes, a),
        files.contains(a) ==> row_of(changes.push((id, files)), a) == row_with(
            extend(partners(changes, a), files, a),
            changes,
            a,
            files,
        ),
{
    let longer = changes.push((id, files));
    assert(longer.drop_last() =~= changes);
    assert(longer.last() == (id, files));
    let none = Seq::<Seq<char>>::empty();
    if files.contains(a) {
        let list = extend(partners(changes, a), files, a);
        assert(partners(longer, a) == list);
        lemma_partners(longer, a);
        assert forall|i: int| 0 <= i < list.len() implies row_with(list, longer, a, none)[i]
            == row_with(list, changes, a, files)[i] by {
            assert(list.contains(list[i]));
            assert(!none.contains(list[i]));
            lemma_count_step(changes, id, files, a, list[i]);
        }
        assert(row_of(longer, a) =~= row_with(list, changes, a, files));
    } else {
        let list = partners(changes, a);
        assert forall|i: int| 0 <= i < list.len() implies row_with(list, longer, a, none)[i]
            == row_with(list, changes, a, none)[i] by {
        }
        assert(row_of(longer, a) =~= row_of(changes, a));
    }
}

/// What one more commit adds to a count.
pub proof fn lemma_count_step(
    changes: Seq<(Seq<char>, Seq<Seq<char>>)>,
    id: Seq<char>,
    files: Seq<Seq<char>>,
    a: Seq<char>,
    b: Seq<char>,
)
    ensures
        co_count(changes.push((id, files)), a, b) == co_count(changes, a, b) + if together(
            files,
            a,
            b,
        ) {
            1nat
        } else {
            0nat
        },
{
    let longer = changes.push((id, files));
    assert(longer.drop_last() =~= changes);
    assert(longer.last() == (id, files));
}

/// Whether one of the first `upto` of `files` is `a`.
fn holds(files: &Vec<String>, upto: usize, a: &str) -> (found: bool)
    requires
        upto <= files.len(),
    ensures
        found == texts(files@).take(upto as int).contains(a@),
{
    let ghost part = texts(files@).take(upto as int);
    let mut i: usize = 0;
    while i < upto
        invariant
            i <= upto <= files@.len(),
            part == texts(files@).take(upto as int),
            forall|k: int| 0 <= k < i ==> part[k] != a@,
        decreases upto - i,
    {
        if same_text(files[i].as_str(), a) {
            assert(part[i as int] == a@);
            return true;
        }
        i = i + 1;
    }
    false
}

/// Where `path` stands in `row`, if it does.
fn find_partner(row: &Vec<CoChange>, path: &str) -> (at: Option<usize>)
    ensures
        at is Some ==> at->0 < row@.len() && row@[at->0 as int].path@ == path@,
        at is None ==> forall|i: int| 0 <= i < row@.len() ==> (#[trigger] row@[i]).path@ != path@,
{
    let mut i: usize = 0;
    while i < row.len()
        invariant
            i <= row@.len(),
            forall|k: int| 0 <= k < i ==> (#[trigger] row@[k]).path@ != path@,
        decreases row.len() - i,
    {
        if same_text(row[i].path.as_str(), path) {
            return Some(i);
        }
        i = i + 1;
    }
    None
}

/// Counts one more commit into the row of `a`: one that modified `files`,
/// `a` among them.
fn extend_row(
    row: &mut Vec<CoChange>,
    files: &Vec<String>,
    a: &str,
    Ghost(changes): Ghost<Seq<(Seq<char>, Seq<Seq<char>>)>>,
)
    requires
        row_view(old(row)@) == row_of(changes, a@),
        changes.len() < usize::MAX,
    ensures
        row_view(final(row)@) == row_with(
            extend(partners(changes, a@), texts(files@), a@),
            changes,
            a@,
            texts(files@),
        ),
{
    let ghost all = texts(files@);
    let ghost start = partners(changes, a@);
    let mut j: usize = 0;
    proof {
        lemma_partners(changes, a@);
        assert(all.take(0) =~= Seq::<Seq<char>>::empty());
    }
    while j < files.len()
        invariant
            j <= files@.len(),
            all == texts(files@),
            start == partners(changes, a@),
            distinct(start),
            !start.contains(a@),
            changes.len() < usize::MAX,
            forall|x: Seq<char>| #[trigger] start.contains(x) <==> co_count(changes, a@, x) > 0,
            row_view(row@) == row_with(
                extend(start, all.take(j as int), a@),
                changes,
                a@,
                all.take(j as int),
            ),
        decreases files.len() - j,
    {
        let ghost seen = all.take(j as int);
        let ghost more = all.take(j + 1);
        let ghost list = extend(start, seen, a@);
        let ghost x = all[j as int];
        let ghost before = row@;
        proof {
            assert(more.drop_last() =~= seen);
            assert(more.last() == x);
            lemma_extend(start, seen, a@);
            lemma_extend(start, more, a@);
            assert forall|y: Seq<char>| more.contains(y) <==> seen.contains(y) || y == x by {
                if more.contains(y) {
                    let i = choose|i: int| 0 <= i < more.len() && more[i] == y;
                    if i < seen.len() {
                        assert(seen[i] == y);
                    }
                }
                if seen.contains(y) {
                    let i = choose|i: int| 0 <= i < seen.len() && seen[i] == y;
                    assert(more[i] == y);
                }
                if y == x {
                    assert(more[j as int] == y);
                }
            }
            assert(row_view(before).len() == list.len());
            assert forall|i: int| 0 <= i < list.len() implies before[i]@ == row_with(
                list,
                changes,
                a@,
                seen,
            )[i] by {
                assert(row_view(before)[i] == before[i]@);
            }
        }
        let file = files[j].as_str();
        if same_text(file, a) {
            proof {
                assert(extend(start, more, a@) == list);
                assert(row_with(list, changes, a@, more) =~= row_with(list, changes, a@, seen));
            }
        } else if holds(files, j, file) {
            proof {
                assert(list.contains(x));
                assert(extend(start, more, a@) == list);
                assert(row_with(list, changes, a@, more) =~= row_with(list, changes, a@, seen));
            }
        } else {
            match find_partner(row, file) {
                Some(i) => {
                    let count = row[i].count;
                    proof {
                        assert(before[i as int]@ == row_with(list, changes, a@, seen)[i as int]);
                        assert(list[i as int] == x);
                        assert(list.contains(x));
                        assert(extend(start, more, a@) == list);
                        lemma_co_count(changes, a@, x);
                        assert(count == co_count(changes, a@, x));
                    }
                    row.set(i, CoChange { path: files[j].clone(), count: count + 1 });
                    proof {
                        assert forall|k: int| 0 <= k < list.len() implies row@[k]@ == row_with(
                            list,
                            changes,
                            a@,
                            more,
                        )[k] by {
                            if k != i {
                                assert(row@[k] == before[k]);
                                assert(before[k]@ == row_with(list, changes, a@, seen)[k]);
                                if k < i {
                                    assert(list[k] != list[i as int]);
                                } else {
                                    assert(list[i as int] != list[k]);
                                }
                                assert(more.contains(list[k]) <==> seen.contains(list[k]));
                            } else {
                                assert(row@[k].path@ == x);
                                assert(more.contains(x));
                                assert(!seen.contains(x));
                                assert(x != a@);
                            }
                        }
                        assert(row_view(row@) =~= row_with(list, changes, a@, more));
                    }
                },
                None => {
                    proof {
                        if list.contains(x) {
                            let i = choose|i: int| 0 <= i < list.len() && list[i] == x;
                            assert(before[i]@ == row_with(list, changes, a@, seen)[i]);
                            assert(before[i].path@ == x);
                        }
                        assert(!list.contains(x));
                        assert(extend(start, more, a@) == list.push(x));
                        assert(!start.contains(x));
                        assert(co_count(changes, a@, x) == 0);
                    }
                    row.push(CoChange { path: files[j].clone(), count: 1 });
                    proof {
                        let longer = list.push(x);
                        assert forall|k: int| 0 <= k < longer.len() implies row@[k]@
                            == row_with(longer, changes, a@, more)[k] by {
                            if k < list.len() {
                                assert(row@[k] == before[k]);
                                assert(before[k]@ == row_with(list, changes, a@, seen)[k]);
                                assert(longer[k] == list[k]);
                                assert(list.contains(list[k]));
                                assert(list[k] != x);
                                assert(more.contains(list[k]) <==> seen.contains(list[k]));
                            } else {
                                assert(longer[k] == x);
                                assert(row@[k].path@ == x);
                                assert(more.contains(x));
                                assert(x != a@);
                            }
                        }
                        assert(row_view(row@) =~= row_with(longer, changes, a@, more));
                    }
                },
            }
        }
        j = j + 1;
    }
    proof {
        assert(all.take(all.len() as int) =~= all);
    }
}

/// The row of `file` in the co-change table of `changes`.
pub fn row_for(changes: &CommitChangeSet, file: &str) -> (row: Vec<CoChange>)
    ensures
        row_view(row@) == row_of(changes@, file@),
{
    let ghost all = changes@;
    let mut row: Vec<CoChange> = Vec::new();
    let mut k: usize = 0;
    proof {
        assert(row_view(row@) =~= row_of(all.take(0), file@));
    }
    while k < changes.len()
        invariant
            all == changes@,
            k <= all.len(),
            row_view(row@) == row_of(all.take(k as int), file@),
        decreases all.len() - k,
    {
        let change = changes.entry(k);
        proof {
            assert(all.take(k + 1) =~= all.take(k as int).push(all[k as int]));
            assert(all[k as int] == (change.commit@, texts(change.files@)));
            lemma_row_step(all.take(k as int), change.commit@, texts(change.files@), file@);
            assert(texts(change.files@).take(change.files@.len() as int) =~= texts(
                change.files@,
            ));
        }
        if holds(&change.files, change.files.len(), file) {
            extend_row(&mut row, &change.files, file, Ghost(all.take(k as int)));
        }
        k = k + 1;
    }
    proof {
        assert(all.take(all.len() as int) =~= all);
    }
    row
}

/// Where the first of the largest counts stands.
pub open spec fn leader(counts: Seq<nat>) -> int
    decreases counts.len(),
{
    if counts.len() <= 1 {
        0
    } else {
        let before = leader(counts.drop_last());
        if counts.last() > counts[before] {
            counts.len() - 1
        } else {
            before
        }
    }
}

/// The counts of a row.
pub open spec fn counts(row: Seq<(Seq<char>, nat)>) -> Seq<nat> {
    Seq::new(row.len(), |i: int| row[i].1)
}

/// The leader stands at the largest count, and is the first to do so.
pub proof fn lemma_leader(values: Seq<nat>)
    requires
        values.len() > 0,
    ensures
        0 <= leader(values) < values.len(),
        forall|i: int| 0 <= i < values.len() ==> #[trigger] values[i] <= values[leader(values)],
        forall|i: int| 0 <= i < leader(values) ==> #[trigger] values[i] < values[leader(values)],
    decreases values.len(),
{
    if values.len() > 1 {
        let front = values.drop_last();
        lemma_leader(front);
        assert forall|i: int| 0 <= i < values.len() implies #[trigger] values[i] <= values[leader(
            values,
        )] by {
            if i < front.len() {
                assert(front[i] == values[i]);
            }
        }
        assert forall|i: int| 0 <= i < leader(values) implies #[trigger] values[i] < values[leader(
            values,
        )] by {
            assert(front[i] == values[i]);
        }
    }
}

/// The file of a row to name first: the first of those with the largest
/// count, or none for an empty row.
pub open spec fn top_of(row: Seq<(Seq<char>, nat)>) -> Seq<Seq<char>> {
    if row.len() == 0 {
        Seq::<Seq<char>>::empty()
    } else {
        seq![row[leader(counts(row))].0]
    }
}

/// The files that a query names: the first of the partners of `a` that
/// changed with it most often, or none where `a` has no partner.
pub open spec fn top(changes: Seq<(Seq<char>, Seq<Seq<char>>)>, a: Seq<char>) -> Seq<Seq<char>> {
    top_of(row_of(changes, a))
}

/// The file that a query names changed with `a` at least once, and no file
/// changed with `a` more often; a query names no file only where no file
/// ever changed together with `a`.
pub proof fn lemma_top_is_best(
    changes: Seq<(Seq<char>, Seq<Seq<char>>)>,
    a: Seq<char>,
    other: Seq<char>,
)
    ensures
        top(changes, a).len() <= 1,
        top(changes, a).len() == 0 ==> co_count(changes, a, other) == 0,
        top(changes, a).len() == 1 ==> co_count(changes, a, top(changes, a)[0]) > 0 && co_count(
            changes,
            a,
            other,
        ) <= co_count(changes, a, top(changes, a)[0]),
{
    lemma_partners(changes, a);
    let list = partners(changes, a);
    let row = row_of(changes, a);
    let none = Seq::<Seq<char>>::empty();
    assert forall|i: int| 0 <= i < list.len() implies (#[trigger] row[i]) == (
        list[i],
        co_count(changes, a, list[i]),
    ) by {
        assert(!none.contains(list[i]));
    }
    if list.len() == 0 {
        assert(!list.contains(other));
    } else {
        let values = counts(row);
        lemma_leader(values);
        let at = leader(values);
        assert(values[at] == row[at].1);
        assert(list.contains(list[at]));
        if list.contains(other) {
            let i = choose|i: int| 0 <= i < list.len() && list[i] == other;
            assert(values[i] == row[i].1);
            assert(values[i] <= values[at]);
        }
    }
}

/// The count that `row` gives for `b`: zero where it does not list `b`.
pub open spec fn count_in(row: Seq<(Seq<char>, nat)>, b: Seq<char>) -> nat
    decreases row.len(),
{
    if row.len() == 0 {
        0
    } else if row[0].0 == b {
        row[0].1
    } else {
        count_in(row.drop_first(), b)
    }
}

/// Where the first of the largest counts of `row` stands.
fn strongest(row: &Vec<CoChange>) -> (at: usize)
    requires
        row@.len() > 0,
    ensures
        at == leader(counts(row_view(row@))),
        at < row@.len(),
{
    let ghost all = counts(row_view(row@));
    let mut best: usize = 0;
    let mut i: usize = 1;
    proof {
        assert(all.take(1).drop_last().len() == 0);
    }
    while i < row.len()
        invariant
            all == counts(row_view(row@)),
            1 <= i <= row@.len(),
            best < i,
            best == leader(all.take(i as int)),
        decreases row.len() - i,
    {
        proof {
            assert(all.take(i + 1).drop_last() =~= all.take(i as int));
            assert(all.take(i + 1).last() == row@[i as int].count);
            assert(all.take(i as int)[best as int] == row@[best as int].count);
        }
        if row[i].count > row[best].count {
            best = i;
        }
        i = i + 1;
    }
    proof {
        assert(all.take(all.len() as int) =~= all);
    }
    best
}

/// The first of the files of `row` with the largest count, if it has any.
pub fn top_partner(row: &Vec<CoChange>) -> (best: Vec<String>)
    ensures
        texts(best@) == top_of(row_view(row@)),
        best@.len() <= TOP_PARTNERS,
{
    let mut best: Vec<String> = Vec::new();
    if row.len() > 0 {
        let at = strongest(row);
        best.push(row[at].path.clone());
        proof {
            assert(row_view(row@)[at as int] == row@[at as int]@);
        }
    }
    assert(texts(best@) =~= top_of(row_view(row@)));
    best
}

/// The file that changed most often together with `file` over `changes`:
/// among those with the largest count, the one that the changes show first
/// beside `file`. A file that never changed together with another, or that
/// no commit modified, has none.
pub fn co_change(changes: &CommitChangeSet, file: &str) -> (best: Vec<String>)
    ensures
        texts(best@) == top(changes@, file@),
        best@.len() <= TOP_PARTNERS,
{
    let row = row_for(changes, file);
    top_partner(&row)
}

/// The count that `row` gives for `path`.
pub fn count_for(row: &Vec<CoChange>, path: &str) -> (count: usize)
    ensures
        count == count_in(row_view(row@), path@),
{
    let ghost all = row_view(row@);
    let mut i: usize = 0;
    proof {
        assert(all.skip(0) =~= all);
    }
    while i < row.len()
        invariant
            all == row_view(row@),
            i <= row@.len(),
            count_in(all, path@) == count_in(all.skip(i as int), path@),
        decreases row.len() - i,
    {
        proof {
            assert(all.skip(i as int)[0] == row@[i as int]@);
            assert(all.skip(i as int).drop_first() =~= all.skip(i + 1));
        }
        if same_text(row[i].path.as_str(), path) {
            return row[i].count;
        }
        i = i + 1;
    }
    0
}

/// A row gives for each file its co-change count.
pub proof fn lemma_row_counts(
    changes: Seq<(Seq<char>, Seq<Seq<char>>)>,
    a: Seq<char>,
    b: Seq<char>,
)
    ensures
        count_in(row_of(changes, a), b) == co_count(changes, a, b),
{
    lemma_partners(changes, a);
    let list = partners(changes, a);
    let row = row_of(changes, a);
    lemma_count_in(row, b);
    if list.contains(b) {
        let i = choose|i: int| 0 <= i < list.len() && list[i] == b;
        assert(row[i].0 == b);
        let at = choose|at: int|
            0 <= at < row.len() && row[at].0 == b && count_in(row, b) == row[at].1;
        assert(list[at] == b);
        assert(at == i);
        assert(!Seq::<Seq<char>>::empty().contains(b));
    } else {
        assert forall|i: int| 0 <= i < row.len() implies row[i].0 != b by {
            assert(list.contains(list[i]));
        }
    }
}

/// `count_in` reads the count at the first place where the row lists the
/// file, and gives zero where it lists it nowhere.
pub proof fn lemma_count_in(row: Seq<(Seq<char>, nat)>, b: Seq<char>)
    ensures
        (forall|i: int| 0 <= i < row.len() ==> (#[trigger] row[i]).0 != b) ==> count_in(row, b)
            == 0,
        (exists|i: int| 0 <= i < row.len() && (#[trigger] row[i]).0 == b) ==> exists|at: int|
            0 <= at < row.len() && (#[trigger] row[at]).0 == b && count_in(row, b) == row[at].1,
    decreases row.len(),
{
    if row.len() > 0 {
        let rest = row.drop_first();
        lemma_count_in(rest, b);
        if row[0].0 == b {
            assert(row[0].0 == b && count_in(row, b) == row[0].1);
        } else {
            if exists|i: int| 0 <= i < row.len() && (#[trigger] row[i]).0 == b {
                let i = choose|i: int| 0 <= i < row.len() && (#[trigger] row[i]).0 == b;
                assert(rest[i - 1].0 == b);
                let at = choose|at: int|
                    0 <= at < rest.len() && (#[trigger] rest[at]).0 == b && count_in(rest, b)
                        == rest[at].1;
                assert(row[at + 1].0 == b && count_in(row, b) == row[at + 1].1);
            } else {
                assert forall|i: int| 0 <= i < rest.len() implies (#[trigger] rest[i]).0 != b by {
                    assert(row[i + 1].0 != b);
                }
            }
        }
    }
}

/// The partners of one file.
pub struct CoChangeRow {
    pub file: String,
    pub partners: Vec<CoChange>,
}

impl View for CoChangeRow {
    type V = (Seq<char>, Seq<(Seq<char>, nat)>);

    open spec fn view(&self) -> Self::V {
        (self.file@, row_view(self.partners@))
    }
}

/// The views of a sequence of rows.
pub open spec fn rows_view(rows: Seq<CoChangeRow>) -> Seq<(Seq<char>, Seq<(Seq<char>, nat)>)> {
    Seq::new(rows.len(), |i: int| rows[i]@)
}

/// Whether `rows` has a row for `a`.
pub open spec fn listed(rows: Seq<(Seq<char>, Seq<(Seq<char>, nat)>)>, a: Seq<char>) -> bool {
    exists|i: int| 0 <= i < rows.len() && (#[trigger] rows[i]).0 == a
}

/// The first row that `rows` has for `a`; the empty row where it has none.
pub open spec fn row_in(rows: Seq<(Seq<char>, Seq<(Seq<char>, nat)>)>, a: Seq<char>) -> Seq<
    (Seq<char>, nat),
>
    decreases rows.len(),
{
    if rows.len() == 0 {
        Seq::<(Seq<char>, nat)>::empty()
    } else if rows[0].0 == a {
        rows[0].1
    } else {
        row_in(rows.drop_first(), a)
    }
}

/// `row_in` gives one of the rows for the file, and the empty row where
/// there is none.
pub proof fn lemma_row_in(rows: Seq<(Seq<char>, Seq<(Seq<char>, nat)>)>, a: Seq<char>)
    ensures
        !listed(rows, a) ==> row_in(rows, a) == Seq::<(Seq<char>, nat)>::empty(),
        listed(rows, a) ==> exists|at: int|
            0 <= at < rows.len() && (#[trigger] rows[at]).0 == a && row_in(rows, a) == rows[at].1,
    decreases rows.len(),
{
    if rows.len() > 0 {
        let rest = rows.drop_first();
        lemma_row_in(rest, a);
        if rows[0].0 == a {
            assert(rows[0].0 == a && row_in(rows, a) == rows[0].1);
        } else {
            if listed(rows, a) {
                let i = choose|i: int| 0 <= i < rows.len() && (#[trigger] rows[i]).0 == a;
                assert(rest[i - 1].0 == a);
                let at = choose|at: int|
                    0 <= at < rest.len() && (#[trigger] rest[at]).0 == a && row_in(rest, a)
                        == rest[at].1;
                assert(rows[at + 1].0 == a && row_in(rows, a) == rows[at + 1].1);
            } else {
                if listed(rest, a) {
                    let i = choose|i: int| 0 <= i < rest.len() && (#[trigger] rest[i]).0 == a;
                    assert(rows[i + 1].0 == a);
                }
            }
        }
    }
}

/// The co-change table: for each file that some commit modified, the files
/// that changed together with it and how often.
pub struct CoChangeTable {
    rows: Vec<CoChangeRow>,
}

impl View for CoChangeTable {
    type V = Seq<(Seq<char>, Seq<(Seq<char>, nat)>)>;

    closed spec fn view(&self) -> Self::V {
        rows_view(self.rows@)
    }
}

impl CoChangeTable {
    /// The row of `a`: its partners with their counts.
    pub open spec fn row(&self, a: Seq<char>) -> Seq<(Seq<char>, nat)> {
        row_in(self@, a)
    }

    /// How often the table says that `a` and `b` changed together.
    pub open spec fn count(&self, a: Seq<char>, b: Seq<char>) -> nat {
        count_in(self.row(a), b)
    }

    /// Whether the table is that of `changes`.
    pub open spec fn describes(&self, changes: Seq<(Seq<char>, Seq<Seq<char>>)>) -> bool {
        forall|a: Seq<char>| #[trigger] self.row(a) == row_of(changes, a)
    }

    /// Where the first row for `file` stands, if there is one.
    fn find_row(&self, file: &str) -> (at: Option<usize>)
        ensures
            at is Some ==> at->0 < self@.len() && self@[at->0 as int].0 == file@ && self.row(file@)
                == self@[at->0 as int].1,
            at is None ==> !listed(self@, file@) && self.row(file@) == Seq::<
                (Seq<char>, nat),
            >::empty(),
    {
        let ghost all = self@;
        let mut i: usize = 0;
        proof {
            assert(all.skip(0) =~= all);
        }
        while i < self.rows.len()
            invariant
                all == rows_view(self.rows@),
                i <= all.len(),
                row_in(all, file@) == row_in(all.skip(i as int), file@),
                forall|k: int| 0 <= k < i ==> (#[trigger] all[k]).0 != file@,
            decreases self.rows.len() - i,
        {
            proof {
                assert(all.skip(i as int)[0] == self.rows@[i as int]@);
                assert(all.skip(i as int).drop_first() =~= all.skip(i + 1));
            }
            if same_text(self.rows[i].file.as_str(), file) {
                return Some(i);
            }
            i = i + 1;
        }
        None
    }

    /// The table of `changes`.
    pub fn build(changes: &CommitChangeSet) -> (table: Self)
        ensures
            table.describes(changes@),
    {
        let ghost all = changes@;
        let mut table = CoChangeTable { rows: Vec::new() };
        let mut k: usize = 0;
        while k < changes.len()
            invariant
                all == changes@,
                k <= all.len(),
                forall|i: int|
                    0 <= i < table@.len() ==> (#[trigger] table@[i]).1 == row_of(all, table@[i].0),
                forall|c: int, x: Seq<char>|
                    0 <= c < k && #[trigger] all[c].1.contains(x) ==> listed(table@, x),
            decreases all.len() - k,
        {
            let change = changes.entry(k);
            let ghost files = texts(change.files@);
            let mut j: usize = 0;
            while j < change.files.len()
                invariant
                    all == changes@,
                    k < all.len(),
                    j <= change.files@.len(),
                    files == texts(change.files@),
                    files == all[k as int].1,
                    forall|i: int|
                        0 <= i < table@.len() ==> (#[trigger] table@[i]).1 == row_of(
                            all,
                            table@[i].0,
                        ),
                    forall|c: int, x: Seq<char>|
                        0 <= c < k && #[trigger] all[c].1.contains(x) ==> listed(table@, x),
                    forall|i: int| 0 <= i < j ==> listed(table@, #[trigger] files[i]),
                decreases change.files@.len() - j,
            {
                let file = change.files[j].as_str();
                if table.find_row(file).is_none() {
                    let ghost before = table@;
                    let partners = row_for(changes, file);
                    table.rows.push(CoChangeRow { file: change.files[j].clone(), partners });
                    proof {
                        assert(table@ =~= before.push((files[j as int], row_of(all, file@))));
                        assert(table@[before.len() as int].0 == files[j as int]);
                        assert forall|x: Seq<char>| #[trigger]
                            listed(before, x) implies listed(table@, x) by {
                            let i = choose|i: int|
                                0 <= i < before.len() && (#[trigger] before[i]).0 == x;
                            assert(table@[i].0 == x);
                        }
                        assert forall|c: int, x: Seq<char>|
                            0 <= c < k && #[trigger] all[c].1.contains(x) implies listed(
                            table@,
                            x,
                        ) by {
                            assert(listed(before, x));
                        }
                        assert forall|i: int| 0 <= i < j + 1 implies listed(
                            table@,
                            #[trigger] files[i],
                        ) by {
                            if i < j {
                                assert(listed(before, files[i]));
                            }
                        }
                    }
                } else {
                    assert(listed(table@, files[j as int]));
                }
                j = j + 1;
            }
            proof {
                assert forall|c: int, x: Seq<char>|
                    0 <= c < k + 1 && #[trigger] all[c].1.contains(x) implies listed(table@, x) by {
                    if c == k {
                        let i = choose|i: int| 0 <= i < files.len() && files[i] == x;
                        assert(listed(table@, files[i]));
                    }
                }
            }
            k = k + 1;
        }
        proof {
            assert forall|a: Seq<char>| #[trigger] table.row(a) == row_of(all, a) by {
                lemma_row_in(table@, a);
                if listed(table@, a) {
                } else {
                    assert forall|c: int| 0 <= c < all.len() implies !(#[trigger] all[c]).1.contains(
                        a,
                    ) by {
                        if all[c].1.contains(a) {
                            assert(listed(table@, a));
                        }
                    }
                    lemma_unchanged_file_has_no_partners(all, a);
                    assert(row_of(all, a) =~= Seq::<(Seq<char>, nat)>::empty());
                }
            }
        }
        table
    }

    /// How many files have a row.
    pub fn len(&self) -> (n: usize)
        ensures
            n == self@.len(),
    {
        self.rows.len()
    }

    /// The `i`-th row, in the order in which the changes first show the files.
    pub fn entry(&self, i: usize) -> (row: &CoChangeRow)
        requires
            i < self@.len(),
        ensures
            row@ == self@[i as int],
    {
        &self.rows[i]
    }

    /// How often `a` and `b` changed together.
    pub fn count_of(&self, a: &str, b: &str) -> (count: usize)
        ensures
            count == self.count(a@, b@),
    {
        match self.find_row(a) {
            Some(at) => count_for(&self.rows[at].partners, b),
            None => 0,
        }
    }

    /// The file that changed most often together with `file`: the first of
    /// those with the largest count in its row, or none where the row is
    /// empty.
    pub fn co_changed(&self, file: &str) -> (best: Vec<String>)
        ensures
            texts(best@) == top_of(self.row(file@)),
            best@.len() <= TOP_PARTNERS,
    {
        match self.find_row(file) {
            Some(at) => top_partner(&self.rows[at].partners),
            None => {
                let best: Vec<String> = Vec::new();
                assert(texts(best@) =~= top_of(self.row(file@)));
                best
            },
        }
    }
}

/// A table that describes `changes` counts as `co_count` does: in particular
/// its counts are symmetric, and no file is counted with itself.
pub proof fn lemma_table_counts(
    table: CoChangeTable,
    changes: Seq<(Seq<char>, Seq<Seq<char>>)>,
    a: Seq<char>,
    b: Seq<char>,
)
    requires
        table.describes(changes),
    ensures
        table.count(a, b) == co_count(changes, a, b),
        table.count(a, b) == table.count(b, a),
        table.count(a, a) == 0,
        top_of(table.row(a)) == top(changes, a),
{
    assert(table.row(a) == row_of(changes, a));
    assert(table.row(b) == row_of(changes, b));
    lemma_row_counts(changes, a, b);
    lemma_row_counts(changes, b, a);
    lemma_row_counts(changes, a, a);
    lemma_co_count(changes, a, b);
}

} // verus!
