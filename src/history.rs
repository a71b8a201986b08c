use vstd::prelude::*;

use crate::command::{At, Command, NoSlot, Signal, Slot, Timeline};
use crate::record::{chains, notices, Record, RecordBuilder, RecordView};

verus! {

/// A branch that is not active: its commands, the node it grows from, and the
/// target at each of its positions, from that node on.
pub struct Branch<C: Command> {
    pub(crate) id: usize,
    pub(crate) parent: At,
    pub(crate) entries: Vec<C>,
    pub(crate) states: Ghost<Seq<C::Target>>,
}

/// What a branch shows of itself.
pub struct BranchView<T> {
    pub id: usize,
    pub parent: At,
    pub states: Seq<T>,
}

impl<C: Command> View for Branch<C> {
    type V = BranchView<C::Target>;

    closed spec fn view(&self) -> BranchView<C::Target> {
        BranchView { id: self.id, parent: self.parent, states: self.states@ }
    }
}

impl<T> BranchView<T> {
    /// The last position of the branch.
    pub open spec fn end(&self) -> int {
        self.parent.current + self.states.len() - 1
    }

    /// `at` is a node of the branch.
    pub open spec fn holds(&self, at: At) -> bool {
        &&& at.branch == self.id
        &&& self.parent.current <= at.current <= self.end()
    }

    /// The target at the node `current` of the branch.
    pub open spec fn state_at(&self, current: int) -> T {
        self.states[current - self.parent.current]
    }
}

/// What a history shows of itself: the active branch `root`, the next branch id, the
/// saved node when it lies on another branch, the record of the active branch, and the
/// other branches.
pub struct HistoryView<T> {
    pub root: usize,
    pub next: usize,
    pub saved: Option<At>,
    pub record: RecordView<T>,
    pub branches: Seq<BranchView<T>>,
}

impl<T> HistoryView<T> {
    /// The branch `id` is stored at index `j`.
    pub open spec fn stores(&self, id: usize, j: int) -> bool {
        0 <= j < self.branches.len() && self.branches[j].id == id
    }

    /// A branch with this id is stored.
    pub open spec fn live(&self, id: usize) -> bool {
        exists|j: int| #[trigger] self.stores(id, j)
    }

    /// The saved marker is on the active branch or on another one, never on both.
    pub open spec fn saved_once(&self) -> bool {
        !(self.record.saved is Some && self.saved is Some)
    }

    /// Every stored branch grows from the active branch or from another stored one.
    pub open spec fn parents_live(&self) -> bool {
        forall|i: int| 0 <= i < self.branches.len() ==>
            #[trigger] self.branches[i].parent.branch == self.root
                || self.live(self.branches[i].parent.branch)
    }

    /// The stored branch at index `i` is consistent with the record and the limit.
    pub open spec fn branch_ok(&self, i: int) -> bool {
        let b = self.branches[i];
        &&& b.id != self.root
        &&& b.id < self.next
        &&& b.states.len() >= 1
        &&& b.end() <= self.record.limit
        &&& b.parent.branch != b.id
        &&& b.parent.branch == self.root ==> {
            &&& b.parent.current <= self.record.len()
            &&& b.states[0] == self.record.states[b.parent.current as int]
        }
    }

    /// The branch at index `i` grows from a node of the branch at index `j` past the
    /// node that one grows from, and starts from the target there.
    pub open spec fn grows_from(&self, i: int, j: int) -> bool {
        let b = self.branches[i];
        let p = self.branches[j];
        &&& p.parent.current < b.parent.current <= p.end()
        &&& b.states[0] == p.state_at(b.parent.current as int)
    }

    /// The shape every history keeps.
    pub open spec fn wf(&self) -> bool {
        &&& self.tree_ok()
        &&& self.parents_live()
    }

    /// Everything the shape asks but that parents are stored.
    pub open spec fn tree_ok(&self) -> bool {
        &&& self.record.wf()
        &&& self.root < self.next
        &&& self.saved_once()
        &&& forall|i: int| 0 <= i < self.branches.len() ==> #[trigger] self.branch_ok(i)
        &&& forall|i: int, j: int| #![trigger self.branches[i], self.branches[j]]
            0 <= i < self.branches.len() && 0 <= j < self.branches.len() && i != j
                ==> self.branches[i].id != self.branches[j].id
        &&& forall|i: int, j: int| #![trigger self.branches[i], self.branches[j]]
            0 <= i < self.branches.len() && 0 <= j < self.branches.len()
                && self.branches[j].id == self.branches[i].parent.branch
                ==> self.grows_from(i, j)
        &&& self.saved matches Some(at) ==> exists|j: int|
            #[trigger] self.stores(at.branch, j) && self.branches[j].holds(at)
    }
}

/// Changing the active branch's record keeps a history well formed, as long as every
/// node that a branch grows from stays as it was.
proof fn lemma_record_changed<T>(before: HistoryView<T>, after: HistoryView<T>)
    requires
        before.wf(),
        after.record.wf(),
        after.record.limit == before.record.limit,
        after.saved_once(),
        after.saved == before.saved || after.saved is None,
        after == (HistoryView { record: after.record, saved: after.saved, ..before }),
        forall|i: int| 0 <= i < before.branches.len() && (#[trigger] before.branches[i]).parent.branch == before.root
            ==> before.branches[i].parent.current <= after.record.len()
                && after.record.states[before.branches[i].parent.current as int]
                    == before.record.states[before.branches[i].parent.current as int],
    ensures
        after.wf(),
{
    assert forall|i: int| 0 <= i < after.branches.len() implies #[trigger] after.branch_ok(i) by {
        assert(before.branch_ok(i));
    }
    assert forall|i: int| 0 <= i < after.branches.len() implies
        #[trigger] after.branches[i].parent.branch == after.root
            || after.live(after.branches[i].parent.branch) by {
        assert(before.branches[i].parent.branch == before.root
            || before.live(before.branches[i].parent.branch));
        if before.live(before.branches[i].parent.branch) {
            let j = choose|j: int| #[trigger] before.stores(before.branches[i].parent.branch, j);
            assert(after.stores(after.branches[i].parent.branch, j));
        }
    }
    if let Some(at) = after.saved {
        let j = choose|j: int| #[trigger] before.stores(at.branch, j) && before.branches[j].holds(at);
        assert(after.stores(at.branch, j));
    }
}

/// The branch `b`, moved to grow from `to` where it grew from `from` at or before `upto`.
pub open spec fn reparent<T>(b: BranchView<T>, from: usize, to: usize, upto: int) -> BranchView<T> {
    if b.parent.branch == from && b.parent.current <= upto {
        BranchView { parent: At { branch: to, current: b.parent.current }, ..b }
    } else {
        b
    }
}

/// Moving the cursor of the active branch, or its saved marker, keeps a history well
/// formed.
proof fn lemma_cursor_moved<T>(before: HistoryView<T>, after: HistoryView<T>)
    requires
        before.wf(),
        after.record.wf(),
        after.saved_once(),
        after.saved == before.saved || after.saved is None,
        after == (HistoryView { record: after.record, saved: after.saved, ..before }),
        after.record == (RecordView { current: after.record.current, saved: after.record.saved, ..before.record }),
    ensures
        after.wf(),
{
    assert forall|i: int| 0 <= i < before.branches.len() && (#[trigger] before.branches[i]).parent.branch == before.root
        implies before.branches[i].parent.current <= after.record.len() by {
        assert(before.branch_ok(i));
    }
    lemma_record_changed(before, after);
}

/// The saved position `saved` of the active branch, kept where it lies at or before `c`.
pub open spec fn saved_upto(saved: Option<nat>, c: int) -> Option<nat> {
    match saved {
        Some(k) => if k <= c { Some(k) } else { None },
        None => None,
    }
}

/// Parents are the active branch or stored branches, whose ids are all below `next`.
proof fn lemma_parent_below<T>(h: HistoryView<T>, i: int)
    requires
        h.wf(),
        0 <= i < h.branches.len(),
    ensures
        h.branches[i].parent.branch < h.next,
{
    assert(h.branches[i].parent.branch == h.root || h.live(h.branches[i].parent.branch));
    if h.branches[i].parent.branch != h.root {
        let j = choose|j: int| #[trigger] h.stores(h.branches[i].parent.branch, j);
        assert(h.branch_ok(j));
    }
}

/// Applying a command where a redo tail existed: the tail becomes a branch under the
/// old id, and the active branch gets the id `before.next`.
proof fn lemma_branched<T>(before: HistoryView<T>, after: HistoryView<T>, c: int, t: T)
    requires
        before.wf(),
        0 <= c < before.record.len(),
        before.next < usize::MAX,
        after.root == before.next,
        after.next == before.next + 1,
        after.record.wf(),
        after.record.limit == before.record.limit,
        after.record.current == c + 1,
        after.record.states == before.record.states.subrange(0, c + 1).push(t),
        after.record.saved == saved_upto(before.record.saved, c),
        after.saved == (match before.record.saved {
            Some(k) => if k > c { Some(At { branch: before.root, current: k as usize }) } else { before.saved },
            None => before.saved,
        }),
        after.branches == before.branches.map_values(
            |b: BranchView<T>| reparent(b, before.root, before.next, c)).push(BranchView {
                id: before.root,
                parent: At { branch: before.next, current: c as usize },
                states: before.record.states.subrange(c, before.record.states.len() as int),
            }),
    ensures
        after.wf(),
{
    let n = before.branches.len() as int;
    let old_root = before.root;
    let new = before.next;
    assert(after.branches.len() == n + 1);
    assert forall|i: int| 0 <= i < n implies #[trigger] after.branches[i]
        == reparent(before.branches[i], old_root, new, c) by {}
    assert forall|i: int| 0 <= i < n implies #[trigger] after.branches[i].parent.branch != new
        || before.branches[i].parent.branch == old_root by {
        lemma_parent_below(before, i);
    }
    assert forall|i: int| 0 <= i < after.branches.len() implies #[trigger] after.branch_ok(i) by {
        if i < n {
            assert(before.branch_ok(i));
            lemma_parent_below(before, i);
            let b = before.branches[i];
            let a = after.branches[i];
            if b.parent.branch == old_root && b.parent.current <= c {
                assert(after.record.states[b.parent.current as int] == before.record.states[b.parent.current as int]);
            }
            assert(a.id != after.root);
            assert(a.id < after.next);
            assert(a.states.len() >= 1);
            assert(a.end() <= after.record.limit);
            assert(a.parent.branch != a.id);
            assert(a.parent.branch == after.root ==> a.parent.current <= after.record.len());
            assert(a.parent.branch == after.root ==> a.states[0] == after.record.states[a.parent.current as int]);
        } else {
            let a = after.branches[i];
            assert(a.states[0] == before.record.states[c]);
            assert(after.record.states[c] == before.record.states[c]);
            assert(a.id != after.root);
            assert(a.id < after.next);
            assert(a.states.len() >= 1);
            assert(a.end() <= after.record.limit);
            assert(a.parent.branch != a.id);
            assert(a.parent.current == c);
        }
    }
    assert forall|i: int| 0 <= i < after.branches.len() implies
        #[trigger] after.branches[i].parent.branch == after.root
            || after.live(after.branches[i].parent.branch) by {
        if i < n && after.branches[i].parent.branch != after.root {
            let p = before.branches[i].parent.branch;
            if p == old_root {
                assert(after.stores(old_root, n));
            } else {
                assert(before.branches[i].parent.branch == before.root || before.live(p));
                let j = choose|j: int| #[trigger] before.stores(p, j);
                assert(after.stores(p, j));
            }
        }
    }
    assert forall|i: int, j: int| #![trigger after.branches[i], after.branches[j]]
        0 <= i < after.branches.len() && 0 <= j < after.branches.len() && i != j
            implies after.branches[i].id != after.branches[j].id by {
        if i < n && j < n {
            assert(before.branches[i].id != before.branches[j].id);
        } else if i < n {
            assert(before.branch_ok(i));
        } else {
            assert(before.branch_ok(j));
        }
    }
    assert forall|i: int, j: int| #![trigger after.branches[i], after.branches[j]]
        0 <= i < after.branches.len() && 0 <= j < after.branches.len()
            && after.branches[j].id == after.branches[i].parent.branch
            implies after.grows_from(i, j) by {
        if i < n {
            lemma_parent_below(before, i);
            assert(before.branch_ok(i));
            if j < n {
                assert(before.branch_ok(j));
                assert(before.branches[j].id == before.branches[i].parent.branch);
                assert(before.grows_from(i, j));
            } else {
                let b = before.branches[i];
                assert(b.parent.branch == old_root);
                assert(b.parent.current > c);
                assert(b.states[0] == before.record.states[b.parent.current as int]);
                assert(after.branches[j].state_at(b.parent.current as int)
                    == before.record.states[b.parent.current as int]);
            }
        } else {
            assert(after.branches[i].parent.branch == new);
            if j < n {
                lemma_parent_below(before, j);
                assert(before.branch_ok(j));
            }
        }
    }
    assert(after.record.wf());
    assert(after.root < after.next);
    assert(after.saved_once());
    if let Some(at) = after.saved {
        match before.record.saved {
            Some(k) => {
                if k > c {
                    assert(after.stores(at.branch, n));
                } else {
                    assert(false);
                }
            },
            None => {
                let j = choose|j: int| #[trigger] before.stores(at.branch, j) && before.branches[j].holds(at);
                assert(after.stores(at.branch, j));
            },
        }
    }
}

/// Removing a stored branch that does not hold the saved marker keeps the shape,
/// but for parents that are gone.
proof fn lemma_removed<T>(h: HistoryView<T>, k: int)
    requires
        h.tree_ok(),
        0 <= k < h.branches.len(),
        h.saved matches Some(at) ==> at.branch != h.branches[k].id,
    ensures
        (HistoryView { branches: h.branches.remove(k), ..h }).tree_ok(),
{
    let g = HistoryView { branches: h.branches.remove(k), ..h };
    let n = g.branches.len() as int;
    assert forall|i: int| 0 <= i < n implies #[trigger] g.branches[i]
        == h.branches[if i < k { i } else { i + 1 }] by {}
    assert forall|i: int| 0 <= i < n implies #[trigger] g.branch_ok(i) by {
        assert(h.branch_ok(if i < k { i } else { i + 1 }));
    }
    assert forall|i: int, j: int| #![trigger g.branches[i], g.branches[j]]
        0 <= i < n && 0 <= j < n && i != j implies g.branches[i].id != g.branches[j].id by {
        let a = if i < k { i } else { i + 1 };
        let b = if j < k { j } else { j + 1 };
        assert(h.branches[a].id != h.branches[b].id);
    }
    assert forall|i: int, j: int| #![trigger g.branches[i], g.branches[j]]
        0 <= i < n && 0 <= j < n && g.branches[j].id == g.branches[i].parent.branch
            implies g.grows_from(i, j) by {
        let a = if i < k { i } else { i + 1 };
        let b = if j < k { j } else { j + 1 };
        assert(h.grows_from(a, b));
    }
    if let Some(at) = g.saved {
        let j = choose|j: int| #[trigger] h.stores(at.branch, j) && h.branches[j].holds(at);
        assert(j != k);
        let m = if j < k { j } else { j - 1 };
        assert(g.stores(at.branch, m));
    }
}

/// The branch `b` after the `k` oldest nodes of the tree have gone: `k` positions
/// earlier.
pub open spec fn shifted<T>(b: BranchView<T>, k: int) -> BranchView<T> {
    BranchView { parent: At { branch: b.parent.branch, current: (b.parent.current - k) as usize }, ..b }
}

/// Once branches growing from one of the `k` oldest nodes, from a branch that is gone,
/// or reaching past the new limit have been removed, shifting every position back by
/// `k` fits the record that lost its `k` oldest states.
proof fn lemma_shifted<T>(pre: HistoryView<T>, post: HistoryView<T>, k: int)
    requires
        pre.tree_ok(),
        k >= 0,
        forall|i: int| 0 <= i < pre.branches.len() ==> {
            &&& (#[trigger] pre.branches[i]).parent.current >= k
            &&& pre.branches[i].parent.branch == pre.root || pre.live(pre.branches[i].parent.branch)
            &&& pre.branches[i].end() - k <= post.record.limit
        },
        post.record.wf(),
        post.root == pre.root,
        post.next == pre.next,
        post.record.len() + k >= pre.record.len(),
        forall|j: int| 0 <= j <= post.record.len() && j + k <= pre.record.len() ==>
            #[trigger] post.record.states[j] == pre.record.states[j + k],
        post.record.saved is Some ==> pre.record.saved is Some,
        post.branches == pre.branches.map_values(|b: BranchView<T>| shifted(b, k)),
        post.saved == (match pre.saved {
            Some(at) => Some(At { branch: at.branch, current: (at.current - k) as usize }),
            None => None,
        }),
    ensures
        post.wf(),
{
    let n = pre.branches.len() as int;
    assert forall|i: int| 0 <= i < n implies #[trigger] post.branches[i] == shifted(pre.branches[i], k) by {}
    assert forall|i: int| 0 <= i < n implies #[trigger] post.branch_ok(i) by {
        assert(pre.branch_ok(i));
        let b = pre.branches[i];
        if b.parent.branch == pre.root {
            assert(post.record.states[b.parent.current - k] == pre.record.states[b.parent.current as int]);
        }
    }
    assert forall|i: int, j: int| #![trigger post.branches[i], post.branches[j]]
        0 <= i < n && 0 <= j < n && i != j implies post.branches[i].id != post.branches[j].id by {
        assert(pre.branches[i].id != pre.branches[j].id);
    }
    assert forall|i: int, j: int| #![trigger post.branches[i], post.branches[j]]
        0 <= i < n && 0 <= j < n && post.branches[j].id == post.branches[i].parent.branch
            implies post.grows_from(i, j) by {
        assert(pre.grows_from(i, j));
    }
    assert forall|i: int| 0 <= i < n implies
        #[trigger] post.branches[i].parent.branch == post.root
            || post.live(post.branches[i].parent.branch) by {
        let p = pre.branches[i].parent.branch;
        if p != pre.root {
            assert(pre.branches[i].parent.current >= k);
            assert(pre.live(p));
            let j = choose|j: int| #[trigger] pre.stores(p, j);
            assert(post.stores(p, j));
        }
    }
    if let Some(at) = pre.saved {
        let j = choose|j: int| #[trigger] pre.stores(at.branch, j) && pre.branches[j].holds(at);
        assert(pre.branches[j].parent.current >= k);
        assert(post.stores(at.branch, j));
        let nat_at = post.saved.unwrap();
        assert(post.branches[j].holds(nat_at));
    }
    assert(post.saved_once());
    assert(post.root < post.next);
    assert(post.parents_live());
}

/// The saved marker of the active branch after the branch `to` has been spliced in at
/// `p`: kept where it lies at or before `p`, or taken from `to`.
pub open spec fn saved_after_jump(record_saved: Option<nat>, saved: Option<At>, to: usize, p: int) -> Option<nat> {
    match record_saved {
        Some(k) => if k <= p { Some(k) } else { None },
        None => match saved {
            Some(at) => if at.branch == to { Some(at.current as nat) } else { None },
            None => None,
        },
    }
}

/// The saved marker on another branch after the branch `to` has been spliced in at `p`
/// in place of `from`.
pub open spec fn other_saved_after_jump(record_saved: Option<nat>, saved: Option<At>, from: usize, to: usize, p: int) -> Option<At> {
    match record_saved {
        Some(k) => if k <= p { saved } else { Some(At { branch: from, current: k as usize }) },
        None => match saved {
            Some(at) => if at.branch == to { None } else { saved },
            None => None,
        },
    }
}

/// Splicing the stored branch at index `i`, which grows from the cursor, into the
/// active branch: the old active branch from the cursor on is stored in its place.
proof fn lemma_jumped<T>(before: HistoryView<T>, after: HistoryView<T>, i: int)
    requires
        before.wf(),
        0 <= i < before.branches.len(),
        before.branches[i].parent == (At { branch: before.root, current: before.record.current as usize }),
        after.root == before.branches[i].id,
        after.next == before.next,
        after.record.wf(),
        after.record.limit == before.record.limit,
        after.record.current == before.record.current,
        after.record.states == before.record.states.subrange(0, before.record.current as int) + before.branches[i].states,
        after.record.saved == saved_after_jump(before.record.saved, before.saved, before.branches[i].id, before.record.current as int),
        after.saved == other_saved_after_jump(before.record.saved, before.saved, before.root, before.branches[i].id, before.record.current as int),
        after.branches == before.branches.update(i, BranchView {
            id: before.root,
            parent: At { branch: before.branches[i].id, current: before.record.current as usize },
            states: before.record.states.subrange(before.record.current as int, before.record.states.len() as int),
        }).map_values(|b: BranchView<T>| reparent(b, before.root, before.branches[i].id, before.record.current as int)),
    ensures
        after.wf(),
{
    let n = before.branches.len() as int;
    let b = before.branches[i];
    let p = before.record.current as int;
    let old_root = before.root;
    let to = b.id;
    assert(before.branch_ok(i));
    assert forall|m: int| 0 <= m < n && m != i implies #[trigger] after.branches[m]
        == reparent(before.branches[m], old_root, to, p) by {}
    assert(after.branches[i].id == old_root);
    assert(after.branches[i].parent == (At { branch: to, current: p as usize }));
    assert forall|m: int| 0 <= m < n && m != i implies #[trigger] before.branches[m].id != to by {
        assert(before.branches[m].id != before.branches[i].id);
    }
    assert forall|m: int| 0 <= m < n implies #[trigger] after.branch_ok(m) by {
        if m == i {
            assert(after.branches[i].states[0] == before.record.states[p]);
            assert(after.record.states[p] == b.states[0]);
        } else {
            let c = before.branches[m];
            assert(before.branch_ok(m));
            assert(c.id != to);
            if c.parent.branch == old_root && c.parent.current <= p {
                if c.parent.current < p {
                    assert(after.record.states[c.parent.current as int] == before.record.states[c.parent.current as int]);
                } else {
                    assert(after.record.states[p] == b.states[0]);
                }
            } else if c.parent.branch == to {
                assert(before.branches[i].id == before.branches[m].parent.branch);
                assert(before.grows_from(m, i));
                assert(after.record.states[c.parent.current as int] == b.states[c.parent.current - p]);
            }
        }
    }
    assert forall|m: int, j: int| #![trigger after.branches[m], after.branches[j]]
        0 <= m < n && 0 <= j < n && m != j implies after.branches[m].id != after.branches[j].id by {
        if m != i && j != i {
            assert(before.branches[m].id != before.branches[j].id);
        } else if m == i {
            assert(before.branch_ok(j));
        } else {
            assert(before.branch_ok(m));
        }
    }
    assert forall|m: int, j: int| #![trigger after.branches[m], after.branches[j]]
        0 <= m < n && 0 <= j < n && after.branches[j].id == after.branches[m].parent.branch
            implies after.grows_from(m, j) by {
        if m != i {
            let c = before.branches[m];
            assert(before.branch_ok(m));
            if j == i {
                assert(c.parent.branch == old_root);
                assert(c.parent.current > p);
                assert(after.branches[i].state_at(c.parent.current as int) == before.record.states[c.parent.current as int]);
            } else {
                assert(before.branches[j].id != to);
                assert(before.branch_ok(j));
                assert(before.branches[j].id == c.parent.branch);
                assert(before.grows_from(m, j));
            }
        } else {
            if j != i {
                assert(before.branches[j].id != to);
            }
        }
    }
    assert forall|m: int| 0 <= m < n implies
        #[trigger] after.branches[m].parent.branch == after.root
            || after.live(after.branches[m].parent.branch) by {
        if m != i && after.branches[m].parent.branch != after.root {
            let x = after.branches[m].parent.branch;
            if x == old_root {
                assert(after.stores(old_root, i));
            } else {
                assert(before.branches[m].parent.branch == before.root || before.live(x));
                let j = choose|j: int| #[trigger] before.stores(x, j);
                assert(j != i);
                assert(after.stores(x, j));
            }
        }
    }
    assert(after.saved_once());
    if let Some(at) = after.saved {
        match before.record.saved {
            Some(k) => {
                if k <= p {
                    assert(false);
                } else {
                    assert(after.stores(old_root, i));
                    assert(after.branches[i].holds(at));
                }
            },
            None => {
                let j = choose|j: int| #[trigger] before.stores(at.branch, j) && before.branches[j].holds(at);
                assert(j != i);
                assert(after.stores(at.branch, j));
            },
        }
    }
}

/// A tree of commands applied to a target.
///
/// The active branch lives in a record; every other branch is stored with the node
/// it grows from, so that `go_to` can reach any node of the tree.
pub struct History<C: Command, F: Slot = NoSlot> {
    pub(crate) root: usize,
    pub(crate) next: usize,
    pub(crate) saved: Option<At>,
    pub(crate) record: Record<C, F>,
    pub(crate) branches: Vec<Branch<C>>,
}

impl<C: Command, F: Slot> View for History<C, F> {
    type V = HistoryView<C::Target>;

    closed spec fn view(&self) -> HistoryView<C::Target> {
        HistoryView {
            root: self.root,
            next: self.next,
            saved: self.saved,
            record: self.record@,
            branches: self.branches@.map_values(|b: Branch<C>| b@),
        }
    }
}

impl<C: Command, F: Slot> History<C, F> {
    /// What the history keeps true of its fields beyond its view's shape.
    pub closed spec fn inv(&self) -> bool {
        &&& self.record.wf()
        &&& forall|i: int| 0 <= i < self.branches@.len() ==>
            chains(#[trigger] self.branches@[i].entries@, self.branches@[i].states@)
    }

    /// The history's invariant.
    pub open spec fn wf(&self) -> bool {
        &&& self.inv()
        &&& self@.wf()
    }

    /// Returns the number of commands on the active branch.
    pub fn len(&self) -> (r: usize)
        requires
            self.wf(),
        ensures
            r == self@.record.len(),
    {
        self.record.len()
    }

    /// Returns `true` if the active branch holds no commands.
    pub fn is_empty(&self) -> (r: bool)
        requires
            self.wf(),
        ensures
            r == (self@.record.len() == 0),
    {
        self.record.is_empty()
    }

    /// Returns the largest number of commands a branch keeps.
    pub fn limit(&self) -> (r: usize)
        requires
            self.wf(),
        ensures
            r == self@.record.limit,
    {
        self.record.limit()
    }

    /// Returns `true` if the target is in its saved state.
    pub fn is_saved(&self) -> (r: bool)
        requires
            self.wf(),
        ensures
            r == self@.record.is_saved(),
    {
        self.record.is_saved()
    }

    /// Returns `true` if the history can undo.
    pub fn can_undo(&self) -> (r: bool)
        requires
            self.wf(),
        ensures
            r == (self@.record.current > 0),
    {
        self.record.can_undo()
    }

    /// Returns `true` if the history can redo.
    pub fn can_redo(&self) -> (r: bool)
        requires
            self.wf(),
        ensures
            r == (self@.record.current < self@.record.len()),
    {
        self.record.can_redo()
    }

    /// Returns the active branch.
    pub fn branch(&self) -> (r: usize)
        requires
            self.wf(),
        ensures
            r == self@.root,
    {
        self.root
    }

    /// Returns the position of the cursor on the active branch.
    pub fn current(&self) -> (r: usize)
        requires
            self.wf(),
        ensures
            r == self@.record.current,
    {
        self.record.current()
    }

    /// Returns a reference to the target.
    pub fn target(&self) -> (r: &C::Target)
        requires
            self.wf(),
        ensures
            *r == self@.record.target(),
    {
        self.record.target()
    }

    /// Undoes the command before the cursor on the active branch.
    ///
    /// Returns `None` where there is nothing to undo.
    pub fn undo(&mut self) -> (r: Option<Result<(), C::Error>>)
        requires
            old(self).wf(),
        ensures
            final(self).signals() =~= old(self).signals() + notices(old(self)@.record, final(self)@.record),
            final(self).wf(),
            r is None <==> old(self)@.record.current == 0,
            r matches Some(Ok(_)) ==> final(self)@ == (HistoryView {
                record: RecordView { current: (old(self)@.record.current - 1) as nat, ..old(self)@.record },
                ..old(self)@
            }),
            !(r matches Some(Ok(_))) ==> final(self)@ == old(self)@,
    {
        let r = self.record.undo();
        proof {
            assert(self@.branches == old(self)@.branches);
            lemma_cursor_moved(old(self)@, self@);
        }
        r
    }

    /// Redoes the command at the cursor on the active branch.
    ///
    /// Returns `None` where there is nothing to redo.
    pub fn redo(&mut self) -> (r: Option<Result<(), C::Error>>)
        requires
            old(self).wf(),
        ensures
            final(self).signals() =~= old(self).signals() + notices(old(self)@.record, final(self)@.record),
            final(self).wf(),
            r is None <==> old(self)@.record.current == old(self)@.record.len(),
            r matches Some(Ok(_)) ==> final(self)@ == (HistoryView {
                record: RecordView { current: old(self)@.record.current + 1, ..old(self)@.record },
                ..old(self)@
            }),
            !(r matches Some(Ok(_))) ==> final(self)@ == old(self)@,
    {
        let r = self.record.redo();
        proof {
            assert(self@.branches == old(self)@.branches);
            lemma_cursor_moved(old(self)@, self@);
        }
        r
    }

    /// Marks the target as being in its saved state, or as not being in it. A saved
    /// node on another branch is forgotten.
    pub fn set_saved(&mut self, saved: bool)
        requires
            old(self).wf(),
        ensures
            final(self).signals() =~= old(self).signals() + notices(old(self)@.record, final(self)@.record),
            final(self).wf(),
            final(self)@ == (HistoryView {
                saved: None,
                record: RecordView {
                    saved: if saved { Some(old(self)@.record.current) } else { None },
                    ..old(self)@.record
                },
                ..old(self)@
            }),
    {
        self.saved = None;
        self.record.set_saved(saved);
        proof {
            assert(self@.branches == old(self)@.branches);
            lemma_cursor_moved(old(self)@, self@);
        }
    }

    /// Moves every branch that grows from `from` at or before `upto` to grow from `to`.
    fn reparent(&mut self, from: usize, to: usize, upto: usize)
        requires
            old(self).inv(),
        ensures
            final(self).inv(),
            final(self).root == old(self).root,
            final(self).next == old(self).next,
            final(self).saved == old(self).saved,
            final(self).record == old(self).record,
            final(self)@.branches == old(self)@.branches.map_values(
                |b: BranchView<C::Target>| reparent(b, from, to, upto as int)),
    {
        let ghost start = self@.branches;
        proof {
            assert forall|m: int| 0 <= m < start.len() implies #[trigger] start[m] == old(self).branches@[m]@ by {}
        }
        let mut k: usize = 0;
        while k < self.branches.len()
            invariant
                self.inv(),
                self.root == old(self).root,
                self.next == old(self).next,
                self.saved == old(self).saved,
                self.record == old(self).record,
                start == old(self)@.branches,
                self.branches@.len() == start.len(),
                k <= start.len(),
                forall|m: int| 0 <= m < start.len() ==> {
                    &&& (#[trigger] self.branches@[m]).entries == old(self).branches@[m].entries
                    &&& self.branches@[m].states == old(self).branches@[m].states
                },
                old(self).inv(),
                old(self).branches@.len() == start.len(),
                forall|m: int| 0 <= m < start.len() ==> #[trigger] start[m] == old(self).branches@[m]@,
                forall|m: int| 0 <= m < start.len() ==> (#[trigger] self.branches@[m])@ == if m < k {
                    reparent(start[m], from, to, upto as int)
                } else {
                    start[m]
                },
            decreases start.len() - k,
        {
            if self.branches[k].parent.branch == from && self.branches[k].parent.current <= upto {
                let current = self.branches[k].parent.current;
                self.branches[k].parent = At::new(to, current);
            }
            proof {
                assert forall|m: int| 0 <= m < self.branches@.len() implies
                    chains(#[trigger] self.branches@[m].entries@, self.branches@[m].states@) by {
                    assert(old(self).inv());
                    assert(chains(old(self).branches@[m].entries@, old(self).branches@[m].states@));
                }
            }
            k = k + 1;
        }
        proof {
            assert(self@.branches =~= start.map_values(|b: BranchView<C::Target>| reparent(b, from, to, upto as int)));
        }
    }

    /// Returns the index at which the branch `id` is stored, if it is.
    fn find(&self, id: usize) -> (r: Option<usize>)
        ensures
            r matches Some(j) ==> self@.stores(id, j as int),
            r is None ==> !self@.live(id),
    {
        let mut k: usize = 0;
        while k < self.branches.len()
            invariant
                k <= self.branches@.len(),
                forall|m: int| 0 <= m < k ==> (#[trigger] self.branches@[m]).id != id,
            decreases self.branches@.len() - k,
        {
            if self.branches[k].id == id {
                return Some(k);
            }
            k = k + 1;
        }
        proof {
            assert forall|j: int| !(#[trigger] self@.stores(id, j)) by {
                if 0 <= j < self.branches@.len() {
                    assert(self.branches@[j].id != id);
                }
            }
        }
        None
    }

    /// Returns `true` if a branch grows from the node `current` of the active branch.
    fn has_child_at(&self, current: usize) -> (r: bool)
        ensures
            !r ==> forall|i: int| 0 <= i < self@.branches.len() ==>
                (#[trigger] self@.branches[i]).parent != (At { branch: self.root, current }),
    {
        let mut k: usize = 0;
        while k < self.branches.len()
            invariant
                k <= self.branches@.len(),
                forall|m: int| 0 <= m < k ==>
                    (#[trigger] self.branches@[m]).parent != (At { branch: self.root, current }),
            decreases self.branches@.len() - k,
        {
            if self.branches[k].parent.branch == self.root && self.branches[k].parent.current == current {
                return true;
            }
            k = k + 1;
        }
        false
    }

    /// Returns the index of a branch that grows from one of the `k` oldest nodes, from
    /// a branch that is not stored, or that reaches more than `lim` past the `k` oldest
    /// nodes, if there is one.
    fn find_dead(&self, k: usize, lim: usize) -> (r: Option<usize>)
        requires
            self.inv(),
        ensures
            r matches Some(m) ==> m < self@.branches.len(),
            r is None ==> forall|i: int| 0 <= i < self@.branches.len() ==> {
                &&& (#[trigger] self@.branches[i]).parent.current >= k
                &&& self@.branches[i].parent.branch == self@.root || self@.live(self@.branches[i].parent.branch)
                &&& self@.branches[i].end() - k <= lim
            },
    {
        let mut m: usize = 0;
        while m < self.branches.len()
            invariant
                self.inv(),
                m <= self.branches@.len(),
                forall|q: int| 0 <= q < m ==> {
                    &&& (#[trigger] self@.branches[q]).parent.current >= k
                    &&& self@.branches[q].parent.branch == self@.root || self@.live(self@.branches[q].parent.branch)
                    &&& self@.branches[q].end() - k <= lim
                },
            decreases self.branches@.len() - m,
        {
            let parent = self.branches[m].parent;
            let size = self.branches[m].entries.len();
            proof {
                assert(self@.branches[m as int] == self.branches@[m as int]@);
                assert(chains(self.branches@[m as int].entries@, self.branches@[m as int].states@));
            }
            if parent.current < k {
                return Some(m);
            }
            let rel = parent.current - k;
            if rel > lim || size > lim - rel {
                return Some(m);
            }
            if parent.branch != self.root && self.find(parent.branch).is_none() {
                return Some(m);
            }
            m = m + 1;
        }
        None
    }

    /// After the record dropped its `k` oldest entries and took the limit `lim`, removes
    /// the branches that grew from those, that reach past the limit, or that grew from a
    /// removed branch, and moves every other position back by `k`. A saved node on a
    /// removed branch is lost, which is signalled.
    fn prune(&mut self, k: usize, lim: usize, pre_record: Ghost<RecordView<C::Target>>)
        requires
            old(self).inv(),
            (HistoryView { record: pre_record@, ..old(self)@ }).wf(),
            old(self)@.record.limit == lim,
            old(self)@.record.len() + k >= pre_record@.len(),
            forall|j: int| 0 <= j <= old(self)@.record.len() && j + k <= pre_record@.len() ==>
                #[trigger] old(self)@.record.states[j] == pre_record@.states[j + k],
            old(self)@.record.saved is Some ==> pre_record@.saved is Some,
        ensures
            final(self).signals() == if old(self)@.saved is Some && final(self)@.saved is None {
                old(self).signals().push(Signal::Saved(false))
            } else {
                old(self).signals()
            },
            final(self).wf(),
            final(self)@.record == old(self)@.record,
            final(self).root == old(self).root,
            final(self).next == old(self).next,
            final(self)@.branches.len() <= old(self)@.branches.len(),
            final(self)@.saved is Some ==> (old(self)@.saved matches Some(at)
                && final(self)@.saved == Some(At { branch: at.branch, current: (at.current - k) as usize })),
    {
        let had_saved = self.saved.is_some();
        loop
            invariant
                self.inv(),
                self.record == old(self).record,
                self.root == old(self).root,
                self.next == old(self).next,
                (HistoryView { record: pre_record@, ..self@ }).tree_ok(),
                self@.record.saved is Some ==> pre_record@.saved is Some,
                self@.branches.len() <= old(self)@.branches.len(),
                self.saved is Some ==> self.saved == old(self).saved,
            ensures
                self@.branches.len() <= old(self)@.branches.len(),
                self.saved is Some ==> self.saved == old(self).saved,
                self.inv(),
                self.record == old(self).record,
                self.root == old(self).root,
                self.next == old(self).next,
                (HistoryView { record: pre_record@, ..self@ }).tree_ok(),
                forall|i: int| 0 <= i < self@.branches.len() ==> {
                    &&& (#[trigger] self@.branches[i]).parent.current >= k
                    &&& self@.branches[i].parent.branch == self@.root || self@.live(self@.branches[i].parent.branch)
                    &&& self@.branches[i].end() - k <= lim
                },
            decreases self.branches@.len(),
        {
            match self.find_dead(k, lim) {
                None => {
                    break;
                },
                Some(m) => {
                    let ghost before = *self;
                    let dead = self.branches.remove(m);
                    if let Some(at) = self.saved {
                        if at.branch == dead.id {
                            self.saved = None;
                        }
                    }
                    proof {
                        let h = HistoryView { record: pre_record@, saved: self.saved, ..before@ };
                        assert(h.tree_ok()) by {
                            let hb = HistoryView { record: pre_record@, ..before@ };
                            assert forall|j: int| 0 <= j < h.branches.len() implies #[trigger] h.branch_ok(j) by {
                                assert(hb.branch_ok(j));
                            }
                        }
                        lemma_removed(h, m as int);

                        assert(self@.branches =~= h.branches.remove(m as int));
                        assert forall|q: int| 0 <= q < self.branches@.len() implies
                            chains(#[trigger] self.branches@[q].entries@, self.branches@[q].states@) by {
                            let a = if q < m { q } else { q + 1 };
                            assert(self.branches@[q] == before.branches@[a]);
                            assert(chains(before.branches@[a].entries@, before.branches@[a].states@));
                        }
                    }
                },
            }
        }
        let ghost pre = HistoryView { record: pre_record@, ..self@ };
        let ghost kept = *self;
        proof {
            assert forall|q: int| 0 <= q < self.branches@.len() implies #[trigger] kept@.branches[q] == kept.branches@[q]@ by {}
            assert forall|i: int| 0 <= i < pre.branches.len() implies {
                &&& (#[trigger] pre.branches[i]).parent.current >= k
                &&& pre.branches[i].parent.branch == pre.root || pre.live(pre.branches[i].parent.branch)
                &&& pre.branches[i].end() - k <= self@.record.limit
            } by {
                assert(kept@.branches[i].parent.current >= k);
                if pre.branches[i].parent.branch != pre.root {
                    let p = pre.branches[i].parent.branch;
                    assert(kept@.live(p));
                    let j = choose|j: int| #[trigger] kept@.stores(p, j);
                    assert(pre.stores(p, j));
                }
            }
        }
        let mut m: usize = 0;
        while m < self.branches.len()
            invariant
                self.inv(),
                self.record == old(self).record,
                self.root == old(self).root,
                self.next == old(self).next,
                self.saved == kept.saved,
                kept.inv(),
                self.branches@.len() == kept.branches@.len(),
                m <= self.branches@.len(),
                forall|q: int| 0 <= q < self.branches@.len() ==> (#[trigger] kept@.branches[q]).parent.current >= k,
                forall|q: int| 0 <= q < self.branches@.len() ==> {
                    &&& (#[trigger] self.branches@[q]).entries == kept.branches@[q].entries
                    &&& self.branches@[q].states == kept.branches@[q].states
                },
                forall|q: int| 0 <= q < self.branches@.len() ==> #[trigger] kept@.branches[q] == kept.branches@[q]@,
                forall|q: int| 0 <= q < self.branches@.len() ==> (#[trigger] self.branches@[q])@ == if q < m {
                    shifted(kept@.branches[q], k as int)
                } else {
                    kept@.branches[q]
                },
            decreases self.branches@.len() - m,
        {
            let parent = self.branches[m].parent;
            proof {
                assert(kept@.branches[m as int].parent.current >= k);
            }
            self.branches[m].parent = At::new(parent.branch, parent.current - k);
            proof {
                assert forall|q: int| 0 <= q < self.branches@.len() implies
                    chains(#[trigger] self.branches@[q].entries@, self.branches@[q].states@) by {
                    assert(chains(kept.branches@[q].entries@, kept.branches@[q].states@));
                }
            }
            m = m + 1;
        }
        if let Some(at) = self.saved {
            proof {
                let j = choose|j: int| #[trigger] pre.stores(at.branch, j) && pre.branches[j].holds(at);
                assert(pre.branch_ok(j));
            }
            self.saved = Some(At::new(at.branch, at.current - k));
        }
        proof {
            assert(pre.branches == kept@.branches);
            assert(self@.branches.len() == pre.branches.len());
            assert forall|q: int| 0 <= q < pre.branches.len() implies
                #[trigger] self@.branches[q] == shifted(pre.branches[q], k as int) by {
                assert(self@.branches[q] == self.branches@[q]@);
            }
            assert(self@.branches =~= pre.branches.map_values(|b: BranchView<C::Target>| shifted(b, k as int)));
            lemma_shifted(pre, self@, k as int);

        }
        if had_saved && self.saved.is_none() {
            let ghost before = self@;
            self.record.signal(Signal::Saved(false));
            proof {
                assert(self@ =~= before);
            }
        }
    }

    /// What a successful `apply` of `command` leaves: the command took the target to
    /// the new one; where commands had been undone and an id is
    /// free, they form a branch under the old id and the active branch gets a new id;
    /// where the cursor was at the end, the command was pushed or folded in.
    pub open spec fn applied(after: HistoryView<C::Target>, before: HistoryView<C::Target>, command: C) -> bool {
        &&& forall|t: C::Target| #[trigger] command.steps(before.record.target(), t) ==> after.record.target() == t
        &&& before.record.current < before.record.len() && before.next < usize::MAX ==> {
            let c = before.record.current as int;
            &&& after.root == before.next
            &&& after.next == before.next + 1
            &&& after.record.limit == before.record.limit
            &&& after.record.current == c + 1
            &&& after.record.states == before.record.states.subrange(0, c + 1).push(after.record.target())
            &&& after.record.saved == saved_upto(before.record.saved, c)
            &&& after.saved == (match before.record.saved {
                Some(k) => if k > c { Some(At { branch: before.root, current: k as usize }) } else { before.saved },
                None => before.saved,
            })
            &&& after.branches == before.branches.map_values(
                |b: BranchView<C::Target>| reparent(b, before.root, before.next, c)).push(BranchView {
                    id: before.root,
                    parent: At { branch: before.next, current: c as usize },
                    states: before.record.states.subrange(c, before.record.states.len() as int),
                })
        }
        &&& before.record.current == before.record.len() ==> {
            &&& after.root == before.root
            &&& after.next == before.next
            &&& after.record.pushed(before.record, after.record.target())
                || Record::<C, F>::merged_view(after.record, before.record)
            &&& !command.mergeable() ==> after.record.pushed(before.record, after.record.target())
            &&& before.record.current < before.record.limit ==> after.branches == before.branches
                && after.saved == before.saved
            &&& before.record.current == before.record.limit && !command.mergeable()
                ==> after.branches.len() <= before.branches.len()
                && (after.saved is Some ==> (before.saved matches Some(at)
                    && after.saved == Some(At { branch: at.branch, current: (at.current - 1) as usize })))
        }
    }

    /// Applies `command` to the target and pushes it onto the active branch.
    ///
    /// Where commands had been undone, they do not vanish: they become a branch that
    /// keeps the old id, and the active branch gets a new one. A command is folded into
    /// the one before only where no branch grows from the node between them. Where the
    /// limit is reached, the oldest node leaves, with every branch that grows from it.
    /// Once every id has been handed out, the undone commands are dropped instead, with
    /// every stored branch. On error nothing changes.
    pub fn apply(&mut self, command: C) -> (r: Result<(), C::Error>)
        requires
            old(self).wf(),
        ensures
            r is Ok && old(self)@.record.current == old(self)@.record.len()
                && old(self)@.record.current == old(self)@.record.limit && !command.mergeable()
                ==> final(self).signals() =~= if old(self)@.saved is Some && final(self)@.saved is None {
                    (old(self).signals() + notices(old(self)@.record, final(self)@.record)).push(Signal::Saved(false))
                } else {
                    old(self).signals() + notices(old(self)@.record, final(self)@.record)
                },
            r is Err ==> final(self).signals() == old(self).signals(),
            r is Ok && old(self)@.record.current < old(self)@.record.len() && old(self)@.next < usize::MAX
                ==> final(self).signals() =~= (old(self).signals() + notices(old(self)@.record, final(self)@.record))
                    .push(Signal::Branch { old: old(self)@.root, new: final(self)@.root }),
            r is Ok && old(self)@.record.current == old(self)@.record.len()
                && old(self)@.record.current < old(self)@.record.limit
                ==> final(self).signals() =~= old(self).signals() + notices(old(self)@.record, final(self)@.record),
            final(self).wf(),
            final(self)@.record.limit == old(self)@.record.limit,
            r is Err ==> final(self)@ == old(self)@,
            r is Ok ==> Self::applied(final(self)@, old(self)@, command),
    {
        let old_root = self.root;
        let c = self.record.current();
        let len = self.record.len();
        let prior_saved = self.record.saved_at();
        let allow_merge = !self.has_child_at(c);
        let ghost before = self@;
        let (merged, tail, _) = match self.record.apply_entry(command, allow_merge) {
            Err(e) => {
                proof {
                    assert(self@ =~= before);
                }
                return Err(e);
            },
            Ok(x) => x,
        };
        if c < len && self.next == usize::MAX {
            let had_saved = self.saved.is_some();
            self.branches.clear();
            self.saved = None;
            if had_saved {
                self.record.signal(Signal::Saved(false));
            }
            proof {
                assert(self@.branches =~= Seq::<BranchView<C::Target>>::empty());
            }
        } else if c < len {
            let new = self.next;
            self.next = new + 1;
            let ghost tail_states = before.record.states.subrange(c as int, before.record.states.len() as int);
            let ghost t = self.record@.target();
            self.branches.push(Branch { id: old_root, parent: At::new(new, c), entries: tail, states: Ghost(tail_states) });
            self.root = new;
            proof {
                assert forall|m: int| 0 <= m < self.branches@.len() implies
                    chains(#[trigger] self.branches@[m].entries@, self.branches@[m].states@) by {
                    if m < before.branches.len() {
                        assert(self.branches@[m] == old(self).branches@[m]);
                        assert(chains(old(self).branches@[m].entries@, old(self).branches@[m].states@));
                    }
                }
            }
            let ghost pushed = self@.branches;
            self.reparent(old_root, new, c);
            if let Some(k) = prior_saved {
                if k > c {
                    self.saved = Some(At::new(old_root, k));
                }
            }
            self.record.signal(Signal::Branch { old: old_root, new });
            proof {
                let nb = BranchView {
                    id: before.root,
                    parent: At { branch: before.next, current: c },
                    states: tail_states,
                };
                assert(pushed =~= before.branches.push(nb));
                assert(reparent(nb, old_root, new, c as int) == nb);
                assert(self@.branches =~= before.branches.map_values(
                    |b: BranchView<C::Target>| reparent(b, before.root, before.next, c as int)).push(nb));
                lemma_branched(before, self@, c as int, t);
            }
        } else if !merged && self.record.current() == c {
            proof {
                assert(self@.branches == before.branches);
                assert((HistoryView { record: before.record, ..self@ }) == before);
            }
            self.prune(1, self.record.limit(), Ghost(before.record));
        } else {
            proof {
                assert forall|i: int| 0 <= i < before.branches.len()
                    && (#[trigger] before.branches[i]).parent.branch == before.root
                    implies before.branches[i].parent.current <= self@.record.len()
                        && self@.record.states[before.branches[i].parent.current as int]
                            == before.record.states[before.branches[i].parent.current as int] by {
                    assert(before.branch_ok(i));
                    if merged {
                        assert(before.branches[i].parent != (At { branch: before.root, current: c }));
                    }
                }
                lemma_record_changed(before, self@);
            }
        }
        Ok(())
    }

    /// The saved markers, the stored branches and the signals after the stored branch
    /// at index `i` has been spliced in.
    #[verifier::opaque]
    pub open spec fn jumped(before: &Self, after: &Self, i: int) -> bool {
        let o = before@;
        let p = o.record.current as int;
        &&& after.signals() =~= (before.signals() + notices(o.record, after@.record))
            .push(Signal::Branch { old: o.root, new: after@.root })
        &&& after@.record.saved == saved_after_jump(o.record.saved, o.saved, o.branches[i].id, p)
        &&& after@.saved == other_saved_after_jump(o.record.saved, o.saved, o.root, o.branches[i].id, p)
        &&& after@.branches == o.branches.update(i, BranchView {
                id: o.root,
                parent: At { branch: o.branches[i].id, current: p as usize },
                states: o.record.states.subrange(p, o.record.states.len() as int),
            }).map_values(|b: BranchView<C::Target>| reparent(b, o.root, o.branches[i].id, p))
    }

    /// Splices the stored branch at index `i`, which grows from the cursor, into the
    /// active branch, and stores the active branch from the cursor on in its place.
    fn jump_to(&mut self, i: usize)
        requires
            old(self).wf(),
            i < old(self)@.branches.len(),
            old(self)@.branches[i as int].parent == (At { branch: old(self)@.root, current: old(self)@.record.current as usize }),
        ensures
            final(self).wf(),
            final(self)@.root == old(self)@.branches[i as int].id,
            final(self)@.next == old(self)@.next,
            final(self)@.record.current == old(self)@.record.current,
            final(self)@.record.len() == old(self)@.branches[i as int].end(),
            final(self)@.record.limit == old(self)@.record.limit,
            final(self)@.record.states == old(self)@.record.states.subrange(0, old(self)@.record.current as int)
                + old(self)@.branches[i as int].states,
            final(self)@.branches.len() == old(self)@.branches.len(),
            forall|m: int| 0 <= m < old(self)@.branches.len() && m != i ==> {
                &&& (#[trigger] final(self)@.branches[m]).id == old(self)@.branches[m].id
                &&& final(self)@.branches[m].states == old(self)@.branches[m].states
                &&& final(self)@.branches[m].parent.current == old(self)@.branches[m].parent.current
                &&& old(self)@.branches[m].parent.branch != old(self)@.root
                    ==> final(self)@.branches[m].parent == old(self)@.branches[m].parent
            },
            Self::jumped(old(self), final(self), i as int),
    {
        let ghost before = self@;
        let ghost old_inner = *self;
        let p = self.record.current();
        let old_root = self.root;
        let rs = self.record.saved_at();
        let hs = self.saved;
        let b = self.branches.remove(i);
        let Branch { id, parent, entries, states } = b;
        proof {
            assert(before.branches[i as int] == old_inner.branches@[i as int]@);
            assert(before.branch_ok(i as int));
            assert(chains(old_inner.branches@[i as int].entries@, old_inner.branches@[i as int].states@));
        }
        let mut new_rs: Option<usize> = None;
        let mut new_hs = hs;
        match rs {
            Some(k) => {
                if k <= p {
                    new_rs = Some(k);
                } else {
                    new_hs = Some(At::new(old_root, k));
                }
            },
            None => {
                if let Some(at) = hs {
                    if at.branch == id {
                        proof {
                            let j = choose|j: int| #[trigger] before.stores(at.branch, j) && before.branches[j].holds(at);
                            assert(before.branches[j].id == before.branches[i as int].id);
                        }
                        new_rs = Some(at.current);
                        new_hs = None;
                    }
                }
            },
        }
        let tail = self.record.restore_tail(entries, new_rs, states);
        let ghost tail_states = before.record.states.subrange(p as int, before.record.states.len() as int);
        self.branches.insert(i, Branch { id: old_root, parent: At::new(id, p), entries: tail, states: Ghost(tail_states) });
        self.root = id;
        self.saved = new_hs;
        proof {
            assert forall|m: int| 0 <= m < self.branches@.len() implies
                chains(#[trigger] self.branches@[m].entries@, self.branches@[m].states@) by {
                if m != i {
                    assert(self.branches@[m] == old_inner.branches@[m]);
                    assert(chains(old_inner.branches@[m].entries@, old_inner.branches@[m].states@));
                }
            }
        }
        let ghost spliced = self@.branches;
        self.reparent(old_root, id, p);
        self.record.signal(Signal::Branch { old: old_root, new: id });
        proof {
            let nb = BranchView {
                id: before.root,
                parent: At { branch: before.branches[i as int].id, current: p },
                states: tail_states,
            };
            assert(spliced =~= before.branches.update(i as int, nb));
            lemma_jumped(before, self@, i as int);
            reveal(History::jumped);
            assert forall|m: int| 0 <= m < before.branches.len() && m != i implies {
                &&& (#[trigger] self@.branches[m]).id == before.branches[m].id
                &&& self@.branches[m].states == before.branches[m].states
                &&& self@.branches[m].parent.current == before.branches[m].parent.current
                &&& before.branches[m].parent.branch != before.root
                    ==> self@.branches[m].parent == before.branches[m].parent
            } by {
                assert(self@.branches[m] == reparent(spliced[m], old_root, id, p as int));
            }
        }
    }

    /// Applies each command of `commands` in order, as `apply` does, and stops at the
    /// first error, which it returns.
    ///
    /// The history goes through one view per command applied, each reached from the one
    /// before as `apply` leaves it.
    pub fn extend(&mut self, commands: Vec<C>) -> (r: Result<(), C::Error>)
        requires
            old(self).wf(),
        ensures
            final(self).wf(),
            exists|trace: Seq<HistoryView<C::Target>>| {
                &&& trace.len() >= 1
                &&& trace.len() <= commands@.len() + 1
                &&& r is Ok ==> trace.len() == commands@.len() + 1
                &&& trace[0] == old(self)@
                &&& trace.last() == final(self)@
                &&& forall|i: int| 0 <= i < trace.len() - 1 ==>
                    #[trigger] Self::applied(trace[i + 1], trace[i], commands@[i])
            },
    {
        let mut rest = commands;
        let ghost n = rest@.len();
        let ghost mut trace = seq![self@];
        while rest.len() > 0
            invariant
                self.wf(),
                rest@.len() <= n,
                n == commands@.len(),
                rest@ == commands@.subrange(n - rest@.len(), n as int),
                trace.len() == n - rest@.len() + 1,
                trace[0] == old(self)@,
                trace.last() == self@,
                forall|i: int| 0 <= i < trace.len() - 1 ==>
                    #[trigger] Self::applied(trace[i + 1], trace[i], commands@[i]),
            decreases rest@.len(),
        {
            let command = rest.remove(0);
            let ghost before = trace;
            let ghost c = command;
            if let Err(e) = self.apply(command) {
                return Err(e);
            }
            proof {
                trace = trace.push(self@);
                let last = trace.len() - 2;
                assert(c == commands@[last]);
                assert forall|i: int| 0 <= i < trace.len() - 1 implies
                    #[trigger] Self::applied(trace[i + 1], trace[i], commands@[i]) by {
                    if i < last {
                        assert(trace[i] == before[i]);
                        assert(trace[i + 1] == before[i + 1]);
                    }
                }
            }
        }
        Ok(())
    }

    #[verifier::rlimit(100)]
    pub fn go_to(&mut self, branch: usize, current: usize) -> (r: Option<Result<(), C::Error>>)
        requires
            old(self).wf(),
        ensures
            branch == old(self)@.root ==> final(self)@ == (HistoryView {
                record: RecordView { current: final(self)@.record.current, ..old(self)@.record },
                ..old(self)@
            }),
            branch == old(self)@.root && current == old(self)@.record.current
                ==> (r matches Some(Ok(_))) && final(self)@ == old(self)@,
            final(self).wf(),
            r is None ==> final(self)@ == old(self)@,
            r matches Some(Ok(_)) ==> final(self)@.root == branch && final(self)@.record.current == current,
            branch == old(self)@.root ==> (r is None <==> current > old(self)@.record.len()),
            branch != old(self)@.root ==> (r is None <==> !exists|j: int|
                #[trigger] old(self)@.stores(branch, j) && current <= old(self)@.branches[j].end()),
            branch == old(self)@.root && (r matches Some(Ok(_))) ==> final(self)@.record.target()
                == old(self)@.record.states[current as int],
            branch != old(self)@.root && (r matches Some(Ok(_))) ==> forall|j: int|
                #[trigger] old(self)@.stores(branch, j) && old(self)@.branches[j].parent.current <= current
                    ==> final(self)@.record.target() == old(self)@.branches[j].state_at(current as int),
    {
        if branch == self.root {
            let ghost before = self@;
            let r = self.record.go_to(current);
            proof {
                lemma_cursor_moved(before, self@);
            }
            return r;
        }
        let target = match self.find(branch) {
            Some(j) => j,
            None => {
                return None;
            },
        };
        proof {
            assert forall|j: int| #[trigger] self@.stores(branch, j) implies j == target by {
                if j != target {
                    assert(self@.branches[j].id != self@.branches[target as int].id);
                }
            }
        }
        let start = self.branches[target].parent.current;
        let size = self.branches[target].entries.len();
        proof {
            assert(self@.branches[target as int] == self.branches@[target as int]@);
            assert(self@.branch_ok(target as int));
            assert(chains(self.branches@[target as int].entries@, self.branches@[target as int].states@));
        }
        if current > start + size {
            return None;
        }
        let ghost target_end = self@.branches[target as int].end();
        let mut path: Vec<usize> = Vec::new();
        path.push(target);
        let mut at = target;
        while self.branches[at].parent.branch != self.root
            invariant
                self@ == old(self)@,
                self.wf(),
                branch != self@.root,
                current <= target_end,
                target_end == self@.branches[target as int].end(),
                path@.len() >= 1,
                path@[0] == target,
                at == path@.last(),
                at < self@.branches.len(),
                self@.stores(branch, target as int),
                forall|k: int| 0 <= k < path@.len() ==> #[trigger] path@[k] < self@.branches.len(),
                forall|a: int, b: int| 0 <= a < b < path@.len() ==>
                    self@.branches[path@[a] as int].parent.current > self@.branches[path@[b] as int].parent.current,
                forall|k: int| 0 <= k < path@.len() - 1 ==>
                    self@.branches[#[trigger] path@[k] as int].parent.branch == self@.branches[path@[k + 1] as int].id,
            decreases self@.branches[at as int].parent.current,
        {
            proof {
                assert(self@.branches[at as int] == self.branches@[at as int]@);
                assert(self@.branches[at as int].parent.branch == self@.root
                    || self@.live(self@.branches[at as int].parent.branch));
            }
            let up = match self.find(self.branches[at].parent.branch) {
                Some(u) => u,
                None => {
                    return None;
                },
            };
            proof {
                assert(self@.grows_from(at as int, up as int));
                assert forall|a: int, b: int| 0 <= a < b < path@.len() + 1 implies
                    self@.branches[path@.push(up)[a] as int].parent.current
                        > self@.branches[path@.push(up)[b] as int].parent.current by {
                    if b < path@.len() {
                        assert(path@.push(up)[a] == path@[a]);
                        assert(path@.push(up)[b] == path@[b]);
                    } else if a < path@.len() - 1 {
                        assert(self@.branches[path@[a] as int].parent.current
                            > self@.branches[path@[path@.len() - 1] as int].parent.current);
                    }
                }
            }
            path.push(up);
            at = up;
        }
        proof {
            assert(self@.branches[at as int] == self.branches@[at as int]@);
            assert forall|a: int, b: int| 0 <= a < b < path@.len() implies path@[a] != path@[b] by {
                assert(self@.branches[path@[a] as int].parent.current > self@.branches[path@[b] as int].parent.current);
            }
        }
        while path.len() > 0
            invariant
                self.wf(),
                branch != old(self)@.root,
                old(self)@.live(branch),
                old(self)@.stores(branch, target as int),
                current <= old(self)@.branches[target as int].end(),
                current <= target_end,
                path@.len() > 0 ==> path@[0] == target && self@.branches[target as int].id == branch
                    && self@.branches[target as int].end() == target_end
                    && self@.branches[target as int].states == old(self)@.branches[target as int].states
                    && self@.branches[target as int].parent.current == old(self)@.branches[target as int].parent.current,
                path@.len() == 0 ==> self@.root == branch && self@.record.len() == target_end,
                path@.len() == 0 ==> forall|c: int| old(self)@.branches[target as int].parent.current <= c <= target_end
                    ==> #[trigger] self@.record.states[c] == old(self)@.branches[target as int].state_at(c),
                forall|k: int| 0 <= k < path@.len() ==> #[trigger] path@[k] < self@.branches.len(),
                forall|a: int, b: int| 0 <= a < b < path@.len() ==> path@[a] != path@[b],
                forall|k: int| 0 <= k < path@.len() - 1 ==>
                    self@.branches[#[trigger] path@[k] as int].parent.branch == self@.branches[path@[k + 1] as int].id,
                path@.len() > 0 ==> self@.branches[path@.last() as int].parent.branch == self@.root,
            decreases path@.len(),
        {
            let ghost before_pop = path@;
            let i = path.pop().unwrap();
            let pc = self.branches[i].parent.current;
            proof {
                assert(self@.branches[i as int] == self.branches@[i as int]@);
                assert(self@.branch_ok(i as int));
            }
            let ghost before = self@;
            match self.record.go_to(pc) {
                Some(Err(e)) => {
                    proof {
                        lemma_cursor_moved(before, self@);
                    }
                    return Some(Err(e));
                },
                _ => {},
            }
            proof {
                lemma_cursor_moved(before, self@);
            }
            let ghost mid = self@;
            self.jump_to(i);
            proof {
                if path@.len() == 0 {
                    let p = mid.record.current as int;
                    assert forall|c: int| old(self)@.branches[target as int].parent.current <= c <= target_end
                        implies #[trigger] self@.record.states[c] == old(self)@.branches[target as int].state_at(c) by {
                        assert(self@.record.states[c] == mid.branches[i as int].states[c - p]);
                    }
                }
            }
            proof {
                let n = path@.len() as int;
                assert forall|k: int| 0 <= k < n implies #[trigger] path@[k] != i by {
                    assert(before_pop[k] != before_pop[n]);
                }
                assert forall|k: int| 0 <= k < n implies mid.branches[#[trigger] path@[k] as int].parent.branch != mid.root by {
                    let x = path@[k] as int;
                    assert(mid.branch_ok(x));
                    if k < n - 1 {
                        let y = path@[k + 1] as int;
                        assert(mid.branch_ok(y));
                        assert(before_pop[k] == path@[k]);
                        assert(before_pop[k + 1] == path@[k + 1]);
                    } else {
                        assert(before_pop[k] == path@[k]);
                        assert(mid.branch_ok(i as int));
                    }
                }
                assert forall|k: int| 0 <= k < n - 1 implies
                    self@.branches[#[trigger] path@[k] as int].parent.branch == self@.branches[path@[k + 1] as int].id by {
                    assert(before_pop[k] == path@[k]);
                    assert(before_pop[k + 1] == path@[k + 1]);
                    assert(path@[k + 1] != i);
                }
                if n > 0 {
                    assert(before_pop[n - 1] == path@[n - 1]);
                    assert(path@[n - 1] != i);
                }
            }
        }
        let ghost before = self@;
        let r = self.record.go_to(current);
        proof {
            lemma_cursor_moved(before, self@);
            assert forall|j: int|
                #[trigger] old(self)@.stores(branch, j) && old(self)@.branches[j].parent.current <= current
                    implies j == target by {
                if j != target {
                    assert(old(self)@.branches[j].id != old(self)@.branches[target as int].id);
                }
            }
        }
        r
    }

    /// Removes every command and every stored branch without undoing anything; the
    /// target stays as it is.
    pub fn clear(&mut self)
        requires
            old(self).wf(),
        ensures
            final(self).wf(),
            final(self)@ == (HistoryView {
                root: 0,
                next: 1,
                saved: None,
                record: RecordView {
                    current: 0,
                    limit: old(self)@.record.limit,
                    saved: if old(self)@.record.is_saved() { Some(0) } else { None },
                    states: seq![old(self)@.record.target()],
                },
                branches: Seq::empty(),
            }),
    {
        self.root = 0;
        self.next = 1;
        self.saved = None;
        self.record.clear();
        self.branches.clear();
        proof {
            assert(self@.branches =~= Seq::<BranchView<C::Target>>::empty());
        }
    }

    /// Returns a mutable reference to the target; see `Record::target_mut`.
    pub fn target_mut(&mut self) -> (r: &mut C::Target)
        requires
            old(self).wf(),
        ensures
            *r == old(self)@.record.target(),
            final(self).target_value() == *final(r),
            final(self)@ == old(self)@,
    {
        self.record.target_mut()
    }

    /// Consumes the history and returns the target.
    pub fn into_target(self) -> (r: C::Target)
        requires
            self.wf(),
        ensures
            r == self@.record.target(),
    {
        self.record.into_target()
    }

    /// Reserves room for at least `additional` more commands on the active branch.
    pub fn reserve(&mut self, additional: usize)
        requires
            old(self).wf(),
        ensures
            final(self).wf(),
            final(self)@ == old(self)@,
    {
        self.record.reserve(additional);
        proof {
            assert(self@ =~= old(self)@);
        }
    }

    /// Returns how many commands the active branch can hold without reallocating.
    pub fn capacity(&self) -> (r: usize)
        requires
            self.wf(),
        ensures
            r >= self@.record.len(),
    {
        self.record.capacity()
    }

    /// Shrinks the storage of the active branch as much as possible.
    pub fn shrink_to_fit(&mut self)
        requires
            old(self).wf(),
        ensures
            final(self).wf(),
            final(self)@ == old(self)@,
    {
        self.record.shrink_to_fit();
        proof {
            assert(self@ =~= old(self)@);
        }
    }

    /// The observer of the history's signals.
    pub closed spec fn observer(&self) -> Option<F> {
        self.record.observer()
    }

    /// The target as it is held; see `Record::target_value`.
    pub closed spec fn target_value(&self) -> C::Target {
        self.record.target_value()
    }

    /// Every signal handed to an observer so far, oldest first.
    pub closed spec fn signals(&self) -> Seq<Signal> {
        self.record.signals()
    }

    /// Sets the observer of the history's signals; returns the one it replaces.
    pub fn connect(&mut self, slot: F) -> (r: Option<F>)
        requires
            old(self).wf(),
        ensures
            final(self).wf(),
            final(self)@ == old(self)@,
            r == old(self).observer(),
            final(self).observer() == Some(slot),
    {
        let r = self.record.connect(slot);
        proof {
            assert(self@ =~= old(self)@);
        }
        r
    }

    /// Removes the observer of the history's signals and returns it.
    pub fn disconnect(&mut self) -> (r: Option<F>)
        requires
            old(self).wf(),
        ensures
            final(self).wf(),
            final(self)@ == old(self)@,
            r == old(self).observer(),
            final(self).observer() is None,
    {
        let r = self.record.disconnect();
        proof {
            assert(self@ =~= old(self)@);
        }
        r
    }

    /// Returns the history with its signals going to `slot` instead.
    pub fn connect_with<G: Slot>(self, slot: G) -> (r: History<C, G>)
        requires
            self.wf(),
        ensures
            r.wf(),
            r@ == self@,
            r.observer() == Some(slot),
    {
        let History { root, next, saved, record, branches } = self;
        let r = History { root, next, saved, record: record.connect_with(slot), branches };
        proof {
            assert(r@ =~= self@);
        }
        r
    }

    /// Returns a history whose active branch is `record`, with no other branch.
    pub fn from_record(record: Record<C, F>) -> (r: History<C, F>)
        requires
            record.wf(),
        ensures
            r.wf(),
            r@ == (HistoryView { root: 0, next: 1, saved: None, record: record@, branches: Seq::empty() }),
    {
        let r = History { root: 0, next: 1, saved: None, record, branches: Vec::new() };
        proof {
            assert(r@.branches =~= Seq::<BranchView<C::Target>>::empty());
        }
        r
    }

    /// Sets the largest number of commands a branch keeps, and drops the oldest nodes
    /// beyond it as `Record::set_limit` does. Branches that grow from a dropped node, or
    /// that would reach past the new limit, are removed with every branch growing from
    /// them.
    ///
    /// Returns the limit that was set.
    pub fn set_limit(&mut self, limit: usize) -> (r: usize)
        requires
            old(self).wf(),
            limit >= 1,
        ensures
            final(self)@.branches.len() <= old(self)@.branches.len(),
            final(self)@.saved is Some ==> (old(self)@.saved matches Some(at)
                && final(self)@.saved == Some(At { branch: at.branch, current: (at.current - (old(self)@.record.len()
                    - final(self)@.record.len())) as usize })),
            final(self).wf(),
            final(self)@.root == old(self)@.root,
            final(self)@.next == old(self)@.next,
            final(self)@.record.limit == r,
            ({
                let before = old(self)@.record;
                let k: int = if limit >= before.len() {
                    0
                } else if before.len() - limit <= before.current {
                    before.len() - limit
                } else {
                    before.current as int
                };
                &&& r == (if limit >= before.len() { limit as int } else { before.len() - k })
                &&& final(self)@.record.current == before.current - k
                &&& final(self)@.record.states == before.states.subrange(k, before.states.len() as int)
                &&& final(self)@.record.saved == (match before.saved {
                    Some(p) => if p >= k { Some((p - k) as nat) } else { None },
                    None => None,
                })
            }),
    {
        let ghost before = self@;
        let len = self.record.len();
        let r = self.record.set_limit(limit);
        let k = len - self.record.len();
        proof {
            assert(self@.branches == before.branches);
            assert((HistoryView { record: before.record, ..self@ }) == before);
        }
        self.prune(k, r, Ghost(before.record));
        r
    }

    /// Goes to the saved node, on the active branch or on another one, if there is one.
    pub fn revert(&mut self) -> (r: Option<Result<(), C::Error>>)
        requires
            old(self).wf(),
        ensures
            final(self).wf(),
            r is None <==> old(self)@.record.saved is None && old(self)@.saved is None,
            old(self)@.record.saved matches Some(k) ==> (r matches Some(Ok(_)) ==> final(self)@.root
                == old(self)@.root && final(self)@.record.current == k
                && Some(final(self)@.record.target()) == old(self)@.record.saved_state()
                && final(self)@.record.is_saved()),
            old(self)@.saved matches Some(at) ==> (r matches Some(Ok(_)) ==> final(self)@.root == at.branch
                && final(self)@.record.current == at.current
                && forall|j: int| #[trigger] old(self)@.stores(at.branch, j)
                    ==> final(self)@.record.target() == old(self)@.branches[j].state_at(at.current as int)),
    {
        match self.record.saved_at() {
            Some(k) => self.go_to(self.root, k),
            None => match self.saved {
                Some(at) => {
                    proof {
                        let j = choose|j: int| #[trigger] self@.stores(at.branch, j) && self@.branches[j].holds(at);
                        assert(self@.branch_ok(j));
                        assert forall|m: int| #[trigger] self@.stores(at.branch, m) implies m == j by {
                            if m != j {
                                assert(self@.branches[m].id != self@.branches[j].id);
                            }
                        }
                    }
                    self.go_to(at.branch, at.current)
                },
                None => None,
            },
        }
    }
}

impl<C: Command> History<C> {
    /// Returns a history over `target` with no limit, saved as it is.
    pub fn new(target: C::Target) -> (r: History<C>)
        ensures
            r.wf(),
            r@ == (HistoryView {
                root: 0,
                next: 1,
                saved: None,
                record: RecordView { current: 0, limit: usize::MAX as nat, saved: Some(0), states: seq![target] },
                branches: Seq::empty(),
            }),
    {
        History::from_record(Record::new(target))
    }
}

impl<C: Command> Default for History<C> where C::Target: Default {
    fn default() -> (r: Self)
        ensures
            r.wf(),
            r@.root == 0 && r@.next == 1 && r@.saved is None && r@.branches.len() == 0,
            r@.record.current == 0 && r@.record.saved == Some(0nat) && r@.record.states.len() == 1,
    {
        History::new(C::Target::default())
    }
}

impl<C: Command, F: Slot> Timeline for History<C, F> {
    type Command = C;

    open spec fn ready(&self) -> bool {
        self.wf()
    }

    fn apply(&mut self, command: C) -> (r: Result<(), C::Error>) {
        History::apply(self, command)
    }

    fn undo(&mut self) -> (r: Option<Result<(), C::Error>>) {
        History::undo(self)
    }

    fn redo(&mut self) -> (r: Option<Result<(), C::Error>>) {
        History::redo(self)
    }
}

/// Settings for a new history.
#[derive(Clone, Copy, Debug, PartialEq, Eq, Structural, Hash)]
pub struct HistoryBuilder {
    pub inner: RecordBuilder,
}

impl HistoryBuilder {
    /// Returns the settings of a default history: no reserved room, no limit, saved.
    pub fn new() -> (r: HistoryBuilder)
        ensures
            r.inner == (RecordBuilder { capacity: 0, limit: usize::MAX, saved: true }),
    {
        HistoryBuilder { inner: RecordBuilder::new() }
    }

    /// Sets the room reserved for commands.
    pub fn capacity(&mut self, capacity: usize) -> (r: &mut HistoryBuilder)
        ensures
            r.inner == (RecordBuilder { capacity, ..old(self).inner }),
            *final(self) == *final(r),
    {
        self.inner.capacity = capacity;
        self
    }

    /// Sets the largest number of commands a branch keeps; it must not be zero.
    pub fn limit(&mut self, limit: usize) -> (r: &mut HistoryBuilder)
        requires
            limit >= 1,
        ensures
            r.inner == (RecordBuilder { limit, ..old(self).inner }),
            *final(self) == *final(r),
    {
        self.inner.limit = limit;
        self
    }

    /// Sets whether the target starts in its saved state.
    pub fn saved(&mut self, saved: bool) -> (r: &mut HistoryBuilder)
        ensures
            r.inner == (RecordBuilder { saved, ..old(self).inner }),
            *final(self) == *final(r),
    {
        self.inner.saved = saved;
        self
    }

    /// Builds a history over `target`.
    pub fn build<C: Command>(&self, target: C::Target) -> (r: History<C>)
        requires
            self.inner.limit >= 1,
        ensures
            r.wf(),
            r@ == (HistoryView { root: 0, next: 1, saved: None, record: self.inner.built(target), branches: Seq::empty() }),
    {
        History::from_record(self.inner.build(target))
    }

    /// Builds a history over `target` whose signals go to `slot`.
    pub fn build_with<C: Command, F: Slot>(&self, target: C::Target, slot: F) -> (r: History<C, F>)
        requires
            self.inner.limit >= 1,
        ensures
            r.wf(),
            r@ == (HistoryView { root: 0, next: 1, saved: None, record: self.inner.built(target), branches: Seq::empty() }),
    {
        History::from_record(self.inner.build_with(target, slot))
    }

    /// Builds a history over the default target.
    pub fn default<C: Command>(&self) -> (r: History<C>)
        where C::Target: Default,
        requires
            self.inner.limit >= 1,
        ensures
            r.wf(),
            r@.root == 0 && r@.next == 1 && r@.saved is None && r@.branches.len() == 0,
            r@.record == (RecordView {
                current: 0,
                limit: self.inner.limit as nat,
                saved: if self.inner.saved { Some(0nat) } else { None },
                states: r@.record.states,
            }),
            r@.record.states.len() == 1,
    {
        self.build(C::Target::default())
    }

    /// Builds a history over the default target whose signals go to `slot`.
    pub fn default_with<C: Command, F: Slot>(&self, slot: F) -> (r: History<C, F>)
        where C::Target: Default,
        requires
            self.inner.limit >= 1,
        ensures
            r.wf(),
            r@.root == 0 && r@.next == 1 && r@.saved is None && r@.branches.len() == 0,
            r@.record == (RecordView {
                current: 0,
                limit: self.inner.limit as nat,
                saved: if self.inner.saved { Some(0nat) } else { None },
                states: r@.record.states,
            }),
            r@.record.states.len() == 1,
    {
        self.build_with(C::Target::default(), slot)
    }
}

impl Default for HistoryBuilder {
    fn default() -> Self {
        HistoryBuilder::new()
    }
}

} // verus!
