//! The history miner: which files each commit changed, read off a walk over
//! the commits that is cut short after a fixed number of them.

use vstd::prelude::*;
use crate::text::{same_text, texts};

verus! {

/// How many commits a walk visits at most.
pub const MAX_COMMITS: usize = 300;

/// A path that a commit changed against its first parent.
pub struct ChangedPath {
    pub path: String,
    /// Whether the tree of the current head still holds the path.
    pub in_head: bool,
}

/// What a walk found at one commit.
pub struct CommitRecord {
    pub id: String,
    /// The paths changed against the first parent, or nothing for a commit
    /// without parents.
    pub diff: Option<Vec<ChangedPath>>,
}

impl View for ChangedPath {
    type V = (Seq<char>, bool);

    open spec fn view(&self) -> Self::V {
        (self.path@, self.in_head)
    }
}

/// The views of a sequence of changed paths.
pub open spec fn diff_view(diff: Seq<ChangedPath>) -> Seq<(Seq<char>, bool)> {
    Seq::new(diff.len(), |i: int| diff[i]@)
}

impl View for CommitRecord {
    type V = (Seq<char>, Option<Seq<(Seq<char>, bool)>>);

    open spec fn view(&self) -> Self::V {
        (
            self.id@,
            match self.diff {
                Some(diff) => Some(diff_view(diff@)),
                None => None,
            },
        )
    }
}

/// The views of a sequence of commit records.
pub open spec fn record_views(records: Seq<CommitRecord>) -> Seq<
    (Seq<char>, Option<Seq<(Seq<char>, bool)>>),
> {
    Seq::new(records.len(), |i: int| records[i]@)
}

/// The paths of `diff` that the head still holds, in the order of `diff`.
pub open spec fn kept(diff: Seq<(Seq<char>, bool)>) -> Seq<Seq<char>>
    decreases diff.len(),
{
    if diff.len() == 0 {
        Seq::<Seq<char>>::empty()
    } else if diff.last().1 {
        kept(diff.drop_last()).push(diff.last().0)
    } else {
        kept(diff.drop_last())
    }
}

/// A path counts as modified exactly if the diff shows it as one that the
/// head still holds.
pub proof fn lemma_kept(diff: Seq<(Seq<char>, bool)>, path: Seq<char>)
    ensures
        kept(diff).contains(path) <==> diff.contains((path, true)),
        kept(diff).len() <= diff.len(),
    decreases diff.len(),
{
    if diff.len() > 0 {
        let front = diff.drop_last();
        lemma_kept(front, path);
        let now = kept(diff);
        let before = kept(front);
        if diff.contains((path, true)) {
            let i = choose|i: int| 0 <= i < diff.len() && diff[i] == (path, true);
            if i < front.len() {
                assert(front[i] == (path, true));
                let k = choose|k: int| 0 <= k < before.len() && before[k] == path;
                assert(now[k] == path);
            } else {
                assert(now[now.len() - 1] == path);
            }
        }
        if now.contains(path) {
            let k = choose|k: int| 0 <= k < now.len() && now[k] == path;
            if k < before.len() {
                assert(before[k] == path);
                let i = choose|i: int| 0 <= i < front.len() && front[i] == (path, true);
                assert(diff[i] == (path, true));
            } else {
                assert(diff[diff.len() - 1] == (path, true));
            }
        }
    }
}

/// The paths of `diff` that the head still holds.
pub fn modified_files(diff: &Vec<ChangedPath>) -> (files: Vec<String>)
    ensures
        texts(files@) == kept(diff_view(diff@)),
{
    let mut files: Vec<String> = Vec::new();
    let ghost all = diff_view(diff@);
    let mut i: usize = 0;
    while i < diff.len()
        invariant
            all == diff_view(diff@),
            i <= diff@.len(),
            texts(files@) == kept(all.take(i as int)),
        decreases diff.len() - i,
    {
        proof {
            assert(all.take(i + 1).drop_last() =~= all.take(i as int));
            assert(all.take(i + 1).last() == diff@[i as int]@);
        }
        if diff[i].in_head {
            let ghost before = files@;
            files.push(diff[i].path.clone());
            assert(texts(files@) =~= texts(before).push(diff@[i as int].path@));
        }
        i = i + 1;
    }
    assert(all.take(all.len() as int) =~= all);
    files
}

/// The files that one commit modified.
pub struct CommitChange {
    pub commit: String,
    pub files: Vec<String>,
}

impl View for CommitChange {
    type V = (Seq<char>, Seq<Seq<char>>);

    open spec fn view(&self) -> Self::V {
        (self.commit@, texts(self.files@))
    }
}

/// The views of a sequence of commit changes.
pub open spec fn change_views(changes: Seq<CommitChange>) -> Seq<(Seq<char>, Seq<Seq<char>>)> {
    Seq::new(changes.len(), |i: int| changes[i]@)
}

/// Whether some entry of `set` is about the commit `id`.
pub open spec fn has_commit(set: Seq<(Seq<char>, Seq<Seq<char>>)>, id: Seq<char>) -> bool {
    exists|i: int| 0 <= i < set.len() && (#[trigger] set[i]).0 == id
}

/// Whether no commit has two entries in `set`.
pub open spec fn distinct_commits(set: Seq<(Seq<char>, Seq<Seq<char>>)>) -> bool {
    forall|i: int, j: int|
        0 <= i < j < set.len() ==> (#[trigger] set[i]).0 != (#[trigger] set[j]).0
}

/// `set` with the files of commit `id` set to `files`: in place where the
/// commit has an entry, as a new last entry where it has none.
pub open spec fn put(
    set: Seq<(Seq<char>, Seq<Seq<char>>)>,
    id: Seq<char>,
    files: Seq<Seq<char>>,
) -> Seq<(Seq<char>, Seq<Seq<char>>)> {
    if has_commit(set, id) {
        let i = choose|i: int| 0 <= i < set.len() && (#[trigger] set[i]).0 == id;
        set.update(i, (id, files))
    } else {
        set.push((id, files))
    }
}

/// Putting an entry keeps the entries one to a commit.
pub proof fn lemma_put_keeps_distinct(
    set: Seq<(Seq<char>, Seq<Seq<char>>)>,
    id: Seq<char>,
    files: Seq<Seq<char>>,
)
    requires
        distinct_commits(set),
    ensures
        distinct_commits(put(set, id, files)),
        has_commit(put(set, id, files), id),
        forall|other: Seq<char>|
            other != id ==> (has_commit(put(set, id, files), other) <==> has_commit(set, other)),
{
    let after = put(set, id, files);
    if has_commit(set, id) {
        let at = choose|i: int| 0 <= i < set.len() && (#[trigger] set[i]).0 == id;
        assert(after[at].0 == id);
        assert forall|other: Seq<char>| other != id implies (has_commit(after, other)
            <==> has_commit(set, other)) by {
            if has_commit(after, other) {
                let i = choose|i: int| 0 <= i < after.len() && (#[trigger] after[i]).0 == other;
                assert(set[i].0 == other);
            }
            if has_commit(set, other) {
                let i = choose|i: int| 0 <= i < set.len() && (#[trigger] set[i]).0 == other;
                assert(after[i].0 == other);
            }
        }
        assert forall|i: int, j: int| 0 <= i < j < after.len() implies (#[trigger] after[i]).0 != (
        #[trigger] after[j]).0 by {
            assert(after[i].0 == set[i].0 && after[j].0 == set[j].0);
        }
    } else {
        assert(after[set.len() as int].0 == id);
        assert forall|other: Seq<char>| other != id implies (has_commit(after, other)
            <==> has_commit(set, other)) by {
            if has_commit(after, other) {
                let i = choose|i: int| 0 <= i < after.len() && (#[trigger] after[i]).0 == other;
                assert(set[i].0 == other);
            }
            if has_commit(set, other) {
                let i = choose|i: int| 0 <= i < set.len() && (#[trigger] set[i]).0 == other;
                assert(after[i].0 == other);
            }
        }
        assert forall|i: int, j: int| 0 <= i < j < after.len() implies (#[trigger] after[i]).0 != (
        #[trigger] after[j]).0 by {
            if j == set.len() {
                assert(set[i].0 != id);
            } else {
                assert(after[i] == set[i] && after[j] == set[j]);
            }
        }
    }
}

/// The mapping from commits to the files they modified, in the order in
/// which the commits were first recorded.
pub struct CommitChangeSet {
    entries: Vec<CommitChange>,
}

impl View for CommitChangeSet {
    type V = Seq<(Seq<char>, Seq<Seq<char>>)>;

    closed spec fn view(&self) -> Self::V {
        change_views(self.entries@)
    }
}

impl CommitChangeSet {
    /// No commit has two entries.
    #[verifier::type_invariant]
    spec fn distinct(&self) -> bool {
        distinct_commits(change_views(self.entries@))
    }


    /// The mapping without any commit.
    pub fn new() -> (set: Self)
        ensures
            set@ == Seq::<(Seq<char>, Seq<Seq<char>>)>::empty(),
    {
        let set = CommitChangeSet { entries: Vec::new() };
        assert(set@ =~= Seq::<(Seq<char>, Seq<Seq<char>>)>::empty());
        set
    }

    /// How many commits have an entry. No commit has two.
    pub fn len(&self) -> (n: usize)
        ensures
            n == self@.len(),
            distinct_commits(self@),
    {
        proof {
            use_type_invariant(self);
        }
        self.entries.len()
    }

    /// The `i`-th entry, in the order of first recording.
    pub fn entry(&self, i: usize) -> (change: &CommitChange)
        requires
            i < self@.len(),
        ensures
            change@ == self@[i as int],
    {
        &self.entries[i]
    }

    /// Where the commit `id` has its entry, if it has one.
    pub fn position(&self, id: &str) -> (at: Option<usize>)
        ensures
            at is Some ==> at->0 < self@.len() && self@[at->0 as int].0 == id@,
            at is None ==> !has_commit(self@, id@),
    {
        let mut i: usize = 0;
        while i < self.entries.len()
            invariant
                i <= self.entries@.len(),
                self@ == change_views(self.entries@),
                forall|k: int| 0 <= k < i ==> (#[trigger] self@[k]).0 != id@,
            decreases self.entries.len() - i,
        {
            if same_text(self.entries[i].commit.as_str(), id) {
                return Some(i);
            }
            i = i + 1;
        }
        None
    }

    /// The files that the commit `id` modified, if it has an entry.
    pub fn get(&self, id: &str) -> (files: Option<&Vec<String>>)
        ensures
            files is Some <==> has_commit(self@, id@),
            files is Some ==> exists|i: int|
                0 <= i < self@.len() && #[trigger] self@[i] == (id@, texts(files->0@)),
    {
        match self.position(id) {
            Some(i) => {
                assert(self@[i as int] == (id@, texts(self.entries@[i as int].files@)));
                Some(&self.entries[i].files)
            },
            None => None,
        }
    }

    /// Records that the commit `commit` modified `files`, in place of what
    /// was recorded of that commit before.
    pub fn insert(&mut self, commit: String, files: Vec<String>)
        ensures
            final(self)@ == put(old(self)@, commit@, texts(files@)),
    {
        proof {
            use_type_invariant(&*self);
        }
        let ghost before = self@;
        let ghost id = commit@;
        let ghost names = texts(files@);
        let at = self.position(commit.as_str());
        let mut entries: Vec<CommitChange> = Vec::new();
        proof {
            assert(change_views(entries@) =~= Seq::<(Seq<char>, Seq<Seq<char>>)>::empty());
            lemma_put_keeps_distinct(before, id, names);
        }
        core::mem::swap(&mut self.entries, &mut entries);
        match at {
            Some(i) => {
                entries.set(i, CommitChange { commit, files });
                proof {
                    let chosen = choose|k: int|
                        0 <= k < before.len() && (#[trigger] before[k]).0 == id;
                    assert(before[i as int].0 == id);
                    assert(chosen == i);
                    assert(change_views(entries@) =~= before.update(i as int, (id, names)));
                }
            },
            None => {
                entries.push(CommitChange { commit, files });
                proof {
                    assert(change_views(entries@) =~= before.push((id, names)));
                }
            },
        }
        core::mem::swap(&mut self.entries, &mut entries);
    }
}

/// Where a walk stands: how many commits it has visited and what it has
/// recorded of them.
pub struct WalkView {
    pub visited: nat,
    pub changes: Seq<(Seq<char>, Seq<Seq<char>>)>,
}

/// The walk before its first commit.
pub open spec fn walk_start() -> WalkView {
    WalkView { visited: 0, changes: Seq::empty() }
}

/// The walk after it was offered one more commit. A walk that has visited
/// its fill ignores the commit. A commit without parent counts as visited
/// and leaves no entry; any other commit is recorded with the paths of its
/// diff that the head still holds.
pub open spec fn walk_step(
    walk: WalkView,
    record: (Seq<char>, Option<Seq<(Seq<char>, bool)>>),
) -> WalkView {
    if walk.visited >= MAX_COMMITS {
        walk
    } else {
        WalkView {
            visited: walk.visited + 1,
            changes: match record.1 {
                Some(diff) => put(walk.changes, record.0, kept(diff)),
                None => walk.changes,
            },
        }
    }
}

/// The walk after it was offered `records`, newest first.
pub open spec fn walk_over(
    records: Seq<(Seq<char>, Option<Seq<(Seq<char>, bool)>>)>,
) -> WalkView
    decreases records.len(),
{
    if records.len() == 0 {
        walk_start()
    } else {
        walk_step(walk_over(records.drop_last()), records.last())
    }
}

/// A walk over the history, fed one commit at a time.
pub struct HistoryMiner {
    visited: usize,
    changes: CommitChangeSet,
}

impl View for HistoryMiner {
    type V = WalkView;

    closed spec fn view(&self) -> WalkView {
        WalkView { visited: self.visited as nat, changes: self.changes@ }
    }
}

impl HistoryMiner {
    /// The walk has not gone past its bound.
    #[verifier::type_invariant]
    spec fn bounded(&self) -> bool {
        self.visited <= MAX_COMMITS
    }

    /// A walk that has seen nothing yet.
    pub fn new() -> (miner: Self)
        ensures
            miner@ == walk_start(),
    {
        HistoryMiner { visited: 0, changes: CommitChangeSet::new() }
    }

    /// How many commits the walk has visited.
    pub fn visited(&self) -> (n: usize)
        ensures
            n == self@.visited,
            n <= MAX_COMMITS,
    {
        proof {
            use_type_invariant(self);
        }
        self.visited
    }

    /// Whether the walk would take one more commit.
    pub fn wants_commit(&self) -> (more: bool)
        ensures
            more == (self@.visited < MAX_COMMITS),
    {
        self.visited < MAX_COMMITS
    }

    /// Offers the walk its next commit. The answer says whether the walk
    /// took it: a walk that has visited its fill takes no more.
    pub fn visit(&mut self, record: &CommitRecord) -> (taken: bool)
        ensures
            final(self)@ == walk_step(old(self)@, record@),
            taken == (old(self)@.visited < MAX_COMMITS),
            !taken ==> final(self)@ == old(self)@,
            record.diff is None ==> final(self)@.changes == old(self)@.changes,
    {
        if self.visited >= MAX_COMMITS {
            return false;
        }
        self.visited = self.visited + 1;
        match &record.diff {
            Some(diff) => {
                let files = modified_files(diff);
                let mut changes = CommitChangeSet::new();
                core::mem::swap(&mut self.changes, &mut changes);
                changes.insert(record.id.clone(), files);
                core::mem::swap(&mut self.changes, &mut changes);
            },
            None => {},
        }
        true
    }

    /// What the walk has recorded.
    pub fn finish(self) -> (changes: CommitChangeSet)
        ensures
            changes@ == self@.changes,
    {
        self.changes
    }
}

/// Once a walk has visited its fill, further commits change nothing.
pub proof fn lemma_full_walk_ignores_rest(
    records: Seq<(Seq<char>, Option<Seq<(Seq<char>, bool)>>)>,
    cut: int,
)
    requires
        0 <= cut <= records.len(),
        walk_over(records.take(cut)).visited >= MAX_COMMITS,
    ensures
        walk_over(records) == walk_over(records.take(cut)),
    decreases records.len() - cut,
{
    if cut == records.len() {
        assert(records.take(cut) =~= records);
    } else {
        assert(records.take(cut + 1).drop_last() =~= records.take(cut));
        lemma_full_walk_ignores_rest(records, cut + 1);
    }
}

/// A walk visits every commit it is offered until it has visited its fill.
pub proof fn lemma_walk_counts(records: Seq<(Seq<char>, Option<Seq<(Seq<char>, bool)>>)>)
    ensures
        walk_over(records).visited == if records.len() <= MAX_COMMITS {
            records.len()
        } else {
            MAX_COMMITS as nat
        },
    decreases records.len(),
{
    if records.len() > 0 {
        lemma_walk_counts(records.drop_last());
    }
}

/// The history bound: a walk never visits more commits than its bound, and
/// what lies behind the first `MAX_COMMITS` commits has no part in what it
/// records.
pub proof fn lemma_walk_is_bounded(records: Seq<(Seq<char>, Option<Seq<(Seq<char>, bool)>>)>)
    ensures
        walk_over(records).visited <= MAX_COMMITS,
        records.len() > MAX_COMMITS ==> walk_over(records) == walk_over(
            records.take(MAX_COMMITS as int),
        ),
{
    lemma_walk_counts(records);
    if records.len() > MAX_COMMITS {
        lemma_walk_counts(records.take(MAX_COMMITS as int));
        lemma_full_walk_ignores_rest(records, MAX_COMMITS as int);
    }
}

/// Whatever a walk is offered, it records each commit once.
pub proof fn lemma_walk_records_once(
    records: Seq<(Seq<char>, Option<Seq<(Seq<char>, bool)>>)>,
)
    ensures
        distinct_commits(walk_over(records).changes),
    decreases records.len(),
{
    if records.len() > 0 {
        lemma_walk_records_once(records.drop_last());
        let before = walk_over(records.drop_last());
        match records.last().1 {
            Some(diff) => {
                lemma_put_keeps_distinct(before.changes, records.last().0, kept(diff));
            },
            None => {},
        }
    }
}

/// Commits without parent leave no entry: a history made of such commits
/// alone gives the empty mapping.
pub proof fn lemma_roots_leave_nothing(
    records: Seq<(Seq<char>, Option<Seq<(Seq<char>, bool)>>)>,
)
    requires
        forall|i: int| 0 <= i < records.len() ==> (#[trigger] records[i]).1 is None,
    ensures
        walk_over(records).changes == Seq::<(Seq<char>, Seq<Seq<char>>)>::empty(),
    decreases records.len(),
{
    if records.len() > 0 {
        lemma_roots_leave_nothing(records.drop_last());
    }
}

/// The files that each commit of a walk modified. `records` holds what was
/// read at the commits reachable from the head, newest first; those behind
/// the first `MAX_COMMITS` are not looked at.
pub fn commits(records: &Vec<CommitRecord>) -> (changes: CommitChangeSet)
    ensures
        changes@ == walk_over(record_views(records@)).changes,
{
    let ghost all = record_views(records@);
    let mut miner = HistoryMiner::new();
    let mut i: usize = 0;
    while i < records.len() && miner.wants_commit()
        invariant
            all == record_views(records@),
            i <= records@.len(),
            miner@ == walk_over(all.take(i as int)),
        decreases records.len() - i,
    {
        proof {
            assert(all.take(i + 1).drop_last() =~= all.take(i as int));
            assert(all.take(i + 1).last() == records@[i as int]@);
        }
        miner.visit(&records[i]);
        i = i + 1;
    }
    proof {
        if i < records.len() {
            lemma_full_walk_ignores_rest(all, i as int);
        } else {
            assert(all.take(i as int) =~= all);
        }
    }
    miner.finish()
}

} // verus!
