//! Finding a process and everything below it in a listing of who is whose child.

use std::collections::HashMap;

use vstd::prelude::*;

verus! {

/// One line of a process listing: `pid` is a child of `parent`.
#[derive(Debug, Clone, Copy)]
pub struct ProcessLink {
    pub parent: i32,
    pub pid: i32,
}

/// The children of `parent`, in the order of the listing.
pub open spec fn children(links: Seq<ProcessLink>, parent: i32) -> Seq<i32>
    decreases links.len(),
{
    if links.len() == 0 {
        Seq::empty()
    } else {
        let before = children(links.drop_last(), parent);
        if links.last().parent == parent {
            before.push(links.last().pid)
        } else {
            before
        }
    }
}

/// One list behind another, where both are there.
pub open spec fn chained(a: Option<Seq<i32>>, b: Option<Seq<i32>>) -> Option<Seq<i32>> {
    match (a, b) {
        (Some(x), Some(y)) => Some(x + y),
        _ => None,
    }
}

/// The processes below `parent`: its children, then what is below the last child, then below
/// the one before it, and so on back to the first. `None` where there is something more than
/// `depth` generations down.
pub open spec fn below(links: Seq<ProcessLink>, parent: i32, depth: nat) -> Option<Seq<i32>>
    decreases depth, 0nat,
{
    let kids = children(links, parent);
    if kids.len() == 0 {
        Some(Seq::empty())
    } else if depth == 0 {
        None
    } else {
        chained(Some(kids), below_all(links, kids, (depth - 1) as nat))
    }
}

/// What is below each of `parents`, from the last to the first.
pub open spec fn below_all(links: Seq<ProcessLink>, parents: Seq<i32>, depth: nat) -> Option<
    Seq<i32>,
>
    decreases depth, 1 + parents.len(),
{
    if parents.len() == 0 {
        Some(Seq::empty())
    } else {
        chained(
            below(links, parents.last(), depth),
            below_all(links, parents.drop_last(), depth),
        )
    }
}

/// `pid` is listed as a child of `parent`.
pub open spec fn is_child(links: Seq<ProcessLink>, parent: i32, pid: i32) -> bool {
    exists|i: int|
        0 <= i < links.len() && (#[trigger] links[i]).parent == parent && links[i].pid == pid
}

/// Each process of `path` is a child of the one before it.
pub open spec fn is_lineage(links: Seq<ProcessLink>, path: Seq<i32>) -> bool {
    forall|k: int|
        #![trigger path[k]]
        0 <= k && k + 1 < path.len() ==> is_child(links, path[k], path[k + 1])
}

/// `path` leads from `root` down to `pid`.
pub open spec fn leads_to(links: Seq<ProcessLink>, path: Seq<i32>, root: i32, pid: i32) -> bool {
    &&& path.len() >= 1
    &&& path.first() == root
    &&& path.last() == pid
    &&& is_lineage(links, path)
}

/// `pid` is `root` or one of its descendants.
pub open spec fn in_tree(links: Seq<ProcessLink>, root: i32, pid: i32) -> bool {
    exists|path: Seq<i32>| #[trigger] leads_to(links, path, root, pid)
}

/// `path` goes down from `root` and meets a process twice.
pub open spec fn goes_round(links: Seq<ProcessLink>, path: Seq<i32>, root: i32) -> bool {
    &&& path.len() >= 1
    &&& path.first() == root
    &&& is_lineage(links, path)
    &&& exists|i: int, j: int|
        0 <= i < j < path.len() && #[trigger] path[i] == #[trigger] path[j]
}

/// Some process at or below `root` is listed as its own descendant. No moment has such a tree,
/// but a listing that is read while processes come and go may show one.
pub open spec fn has_cycle(links: Seq<ProcessLink>, root: i32) -> bool {
    exists|path: Seq<i32>| #[trigger] goes_round(links, path, root)
}

/// `children` lists exactly the children.
proof fn lemma_children_are_listed(links: Seq<ProcessLink>, parent: i32, pid: i32)
    ensures
        children(links, parent).contains(pid) <==> is_child(links, parent, pid),
    decreases links.len(),
{
    if links.len() > 0 {
        let front = links.drop_last();
        let last = links.last();
        let kids = children(links, parent);
        let before = children(front, parent);
        lemma_children_are_listed(front, parent, pid);
        assert(links[links.len() - 1] == last);
        if is_child(front, parent, pid) {
            let i = choose|i: int|
                0 <= i < front.len() && (#[trigger] front[i]).parent == parent && front[i].pid
                    == pid;
            assert(links[i].parent == parent);
        }
        if is_child(links, parent, pid) && !is_child(front, parent, pid) {
            let i = choose|i: int|
                0 <= i < links.len() && (#[trigger] links[i]).parent == parent && links[i].pid
                    == pid;
            if i < front.len() {
                assert(front[i].parent == parent && front[i].pid == pid);
            }
            assert(kids[before.len() as int] == pid);
        }
        if before.contains(pid) {
            let k = choose|k: int| 0 <= k < before.len() && before[k] == pid;
            assert(kids[k] == pid);
        }
        if kids.contains(pid) {
            let k = choose|k: int| 0 <= k < kids.len() && kids[k] == pid;
            if k < before.len() {
                assert(before[k] == pid);
            } else {
                assert(last.parent == parent && last.pid == pid);
            }
        }
    }
}

/// Where one of several is not finished, neither are all.
proof fn lemma_all_or_none(links: Seq<ProcessLink>, parents: Seq<i32>, depth: nat, k: int)
    requires
        0 <= k < parents.len(),
    ensures
        below(links, parents[k], depth) is None ==> below_all(links, parents, depth) is None,
        below_all(links, parents, depth) is Some ==> below(links, parents[k], depth) is Some && (
        forall|pid: i32| #[trigger]
            below(links, parents[k], depth)->0.contains(pid) ==> below_all(
                links,
                parents,
                depth,
            )->0.contains(pid)),
    decreases parents.len(),
{
    let front = parents.drop_last();
    if k < front.len() {
        lemma_all_or_none(links, front, depth, k);
        assert(front[k] == parents[k]);
    }
    if below_all(links, parents, depth) is Some {
        let a = below(links, parents.last(), depth)->0;
        let b = below_all(links, front, depth)->0;
        assert forall|pid: i32| #[trigger]
            below(links, parents[k], depth)->0.contains(pid) implies (a + b).contains(pid) by {
            if k < front.len() {
                assert(b.contains(pid));
                let i = choose|i: int| 0 <= i < b.len() && b[i] == pid;
                assert((a + b)[a.len() + i] == pid);
            } else {
                let i = choose|i: int| 0 <= i < a.len() && a[i] == pid;
                assert((a + b)[i] == pid);
            }
        }
    }
}

/// Where not all are finished, one of them is not.
proof fn lemma_one_unfinished(links: Seq<ProcessLink>, parents: Seq<i32>, depth: nat) -> (k: int)
    requires
        below_all(links, parents, depth) is None,
    ensures
        0 <= k < parents.len(),
        below(links, parents[k], depth) is None,
    decreases parents.len(),
{
    if below(links, parents.last(), depth) is None {
        parents.len() - 1
    } else {
        lemma_one_unfinished(links, parents.drop_last(), depth)
    }
}

/// Where something is more than `depth` generations down, there is a lineage that long.
proof fn lemma_long_lineage(links: Seq<ProcessLink>, parent: i32, depth: nat) -> (path: Seq<i32>)
    requires
        below(links, parent, depth) is None,
    ensures
        path.len() == depth + 2,
        path.first() == parent,
        is_lineage(links, path),
    decreases depth,
{
    let kids = children(links, parent);
    if depth == 0 {
        lemma_children_are_listed(links, parent, kids[0]);
        assert(kids.contains(kids[0]));
        seq![parent, kids[0]]
    } else {
        let k = lemma_one_unfinished(links, kids, (depth - 1) as nat);
        let rest = lemma_long_lineage(links, kids[k], (depth - 1) as nat);
        assert(kids.contains(kids[k]));
        lemma_children_are_listed(links, parent, kids[k]);
        let path = seq![parent] + rest;
        assert forall|i: int| #![trigger path[i]] 0 <= i && i + 1 < path.len() implies is_child(
            links,
            path[i],
            path[i + 1],
        ) by {
            if i > 0 {
                assert(path[i] == rest[i - 1]);
                assert(path[i + 1] == rest[i]);
            }
        }
        path
    }
}

/// A lineage with more steps than the listing has lines meets a process twice.
proof fn lemma_long_lineage_goes_round(links: Seq<ProcessLink>, path: Seq<i32>)
    requires
        is_lineage(links, path),
        path.len() >= links.len() + 2,
    ensures
        exists|i: int, j: int|
            0 <= i < j < path.len() && #[trigger] path[i] == #[trigger] path[j],
{
    let n = links.len();
    let lines = Seq::new(
        n + 1,
        |k: int|
            choose|i: int|
                0 <= i < links.len() && (#[trigger] links[i]).parent == path[k] && links[i].pid
                    == path[k + 1],
    );
    assert forall|k: int| 0 <= k < lines.len() implies 0 <= (#[trigger] lines[k]) < n
        && links[lines[k]].pid == path[k + 1] by {
        assert(is_child(links, path[k], path[k + 1]));
    }
    if lines.no_duplicates() {
        lines.unique_seq_to_set();
        let range = vstd::set_lib::set_int_range(0, n as int);
        vstd::set_lib::lemma_int_range(0, n as int);
        assert(lines.to_set().subset_of(range)) by {
            assert forall|x: int| lines.to_set().contains(x) implies range.contains(x) by {
                let k = choose|k: int| 0 <= k < lines.len() && lines[k] == x;
                assert(0 <= lines[k] < n);
            }
        }
        vstd::set_lib::lemma_len_subset(lines.to_set(), range);
        assert(false);
    }
    let (i, j) = choose|i: int, j: int|
        0 <= i < lines.len() && 0 <= j < lines.len() && i != j && lines[i] == lines[j];
    let (a, b) = if i < j {
        (i, j)
    } else {
        (j, i)
    };
    assert(links[lines[a]].pid == path[a + 1]);
    assert(links[lines[b]].pid == path[b + 1]);
    assert(path[a + 1] == path[b + 1]);
}

/// A path that meets a process twice never ends, however deep one looks.
proof fn lemma_cycle_never_ends(
    links: Seq<ProcessLink>,
    path: Seq<i32>,
    i: int,
    j: int,
    k: int,
    depth: nat,
)
    requires
        is_lineage(links, path),
        0 <= i < j < path.len(),
        path[i] == path[j],
        0 <= k < j,
    ensures
        below(links, path[k], depth) is None,
    decreases depth,
{
    let kids = children(links, path[k]);
    assert(is_child(links, path[k], path[k + 1]));
    lemma_children_are_listed(links, path[k], path[k + 1]);
    let m = choose|m: int| 0 <= m < kids.len() && kids[m] == path[k + 1];
    if depth > 0 {
        let next = if k + 1 == j {
            i
        } else {
            k + 1
        };
        lemma_cycle_never_ends(links, path, i, j, next, (depth - 1) as nat);
        lemma_all_or_none(links, kids, (depth - 1) as nat, m);
    }
}

/// A tree of processes is never deeper than its listing is long; only a cycle is.
pub proof fn lemma_unfinished_iff_cycle(links: Seq<ProcessLink>, root: i32)
    ensures
        below(links, root, links.len()) is None <==> has_cycle(links, root),
{
    if below(links, root, links.len()) is None {
        let path = lemma_long_lineage(links, root, links.len());
        lemma_long_lineage_goes_round(links, path);
        assert(goes_round(links, path, root));
    }
    if has_cycle(links, root) {
        let path = choose|path: Seq<i32>| #[trigger] goes_round(links, path, root);
        let (i, j) = choose|i: int, j: int|
            0 <= i < j < path.len() && #[trigger] path[i] == #[trigger] path[j];
        lemma_cycle_never_ends(links, path, i, j, 0, links.len());
    }
}

/// Whatever is found below a process has a lineage that leads there.
proof fn lemma_found_is_below(
    links: Seq<ProcessLink>,
    parent: i32,
    depth: nat,
    pid: i32,
) -> (path: Seq<i32>)
    requires
        below(links, parent, depth) is Some,
        below(links, parent, depth)->0.contains(pid),
    ensures
        leads_to(links, path, parent, pid),
        path.len() >= 2,
    decreases depth, 0nat,
{
    let kids = children(links, parent);
    let rest = below_all(links, kids, (depth - 1) as nat)->0;
    let found = kids + rest;
    let at = choose|at: int| 0 <= at < found.len() && found[at] == pid;
    if at < kids.len() {
        assert(kids[at] == pid);
        lemma_children_are_listed(links, parent, pid);
        seq![parent, pid]
    } else {
        assert(rest[at - kids.len()] == pid);
        let (k, tail) = lemma_found_below_one(links, kids, (depth - 1) as nat, pid);
        assert(kids.contains(kids[k]));
        lemma_children_are_listed(links, parent, kids[k]);
        let path = seq![parent] + tail;
        assert forall|i: int| #![trigger path[i]] 0 <= i && i + 1 < path.len() implies is_child(
            links,
            path[i],
            path[i + 1],
        ) by {
            if i > 0 {
                assert(path[i] == tail[i - 1]);
                assert(path[i + 1] == tail[i]);
            }
        }
        path
    }
}

/// Whatever is found below several processes is below one of them.
proof fn lemma_found_below_one(
    links: Seq<ProcessLink>,
    parents: Seq<i32>,
    depth: nat,
    pid: i32,
) -> (r: (int, Seq<i32>))
    requires
        below_all(links, parents, depth) is Some,
        below_all(links, parents, depth)->0.contains(pid),
    ensures
        0 <= r.0 < parents.len(),
        leads_to(links, r.1, parents[r.0], pid),
        r.1.len() >= 2,
    decreases depth, 1 + parents.len(),
{
    let a = below(links, parents.last(), depth)->0;
    let b = below_all(links, parents.drop_last(), depth)->0;
    let at = choose|at: int| 0 <= at < (a + b).len() && (a + b)[at] == pid;
    if at < a.len() {
        assert(a[at] == pid);
        (parents.len() - 1, lemma_found_is_below(links, parents.last(), depth, pid))
    } else {
        assert(b[at - a.len()] == pid);
        lemma_found_below_one(links, parents.drop_last(), depth, pid)
    }
}

/// Whatever a lineage of two or more leads to is found.
proof fn lemma_below_is_found(
    links: Seq<ProcessLink>,
    parent: i32,
    depth: nat,
    path: Seq<i32>,
    pid: i32,
)
    requires
        below(links, parent, depth) is Some,
        leads_to(links, path, parent, pid),
        path.len() >= 2,
    ensures
        below(links, parent, depth)->0.contains(pid),
    decreases path.len(),
{
    let kids = children(links, parent);
    let kid = path[1];
    assert(is_child(links, path[0], path[1]));
    lemma_children_are_listed(links, parent, kid);
    let k = choose|k: int| 0 <= k < kids.len() && kids[k] == kid;
    let rest = below_all(links, kids, (depth - 1) as nat)->0;
    let found = kids + rest;
    if path.len() == 2 {
        assert(found[k] == pid);
    } else {
        let tail = path.drop_first();
        assert forall|i: int| #![trigger tail[i]] 0 <= i && i + 1 < tail.len() implies is_child(
            links,
            tail[i],
            tail[i + 1],
        ) by {
            assert(tail[i] == path[i + 1]);
            assert(tail[i + 1] == path[i + 2]);
        }
        lemma_all_or_none(links, kids, (depth - 1) as nat, k);
        lemma_below_is_found(links, kid, (depth - 1) as nat, tail, pid);
        assert(rest.contains(pid));
        let at = choose|at: int| 0 <= at < rest.len() && rest[at] == pid;
        assert(found[kids.len() + at] == pid);
    }
}

/// The tree that is collected holds the root and its descendants, all of them and nothing else.
pub proof fn lemma_tree_is_complete(links: Seq<ProcessLink>, root: i32, pid: i32)
    requires
        !has_cycle(links, root),
    ensures
        (seq![root] + below(links, root, links.len())->0).contains(pid) <==> in_tree(
            links,
            root,
            pid,
        ),
{
    lemma_unfinished_iff_cycle(links, root);
    let found = below(links, root, links.len())->0;
    let tree = seq![root] + found;
    if tree.contains(pid) {
        let at = choose|at: int| 0 <= at < tree.len() && tree[at] == pid;
        if at == 0 {
            assert(leads_to(links, seq![root], root, pid));
        } else {
            assert(found[at - 1] == pid);
            let path = lemma_found_is_below(links, root, links.len(), pid);
            assert(leads_to(links, path, root, pid));
        }
    }
    if in_tree(links, root, pid) {
        let path = choose|path: Seq<i32>| #[trigger] leads_to(links, path, root, pid);
        if path.len() == 1 {
            assert(tree[0] == pid);
        } else {
            lemma_below_is_found(links, root, links.len(), path, pid);
            let at = choose|at: int| 0 <= at < found.len() && found[at] == pid;
            assert(tree[at + 1] == pid);
        }
    }
}

/// No process is listed twice.
pub open spec fn listed_once(links: Seq<ProcessLink>) -> bool {
    forall|i: int, j: int|
        0 <= i < j < links.len() ==> (#[trigger] links[i]).pid != (#[trigger] links[j]).pid
}

proof fn lemma_children_differ(links: Seq<ProcessLink>, parent: i32)
    requires
        listed_once(links),
    ensures
        children(links, parent).no_duplicates(),
    decreases links.len(),
{
    if links.len() > 0 {
        let front = links.drop_last();
        let before = children(front, parent);
        let kids = children(links, parent);
        assert(listed_once(front)) by {
            assert forall|i: int, j: int| 0 <= i < j < front.len() implies (#[trigger] front[i]).pid
                != (#[trigger] front[j]).pid by {
                assert(links[i].pid != links[j].pid);
            }
        }
        lemma_children_differ(front, parent);
        assert forall|k: int| 0 <= k < before.len() implies #[trigger] before[k]
            != links.last().pid by {
            assert(before.contains(before[k]));
            lemma_children_are_listed(front, parent, before[k]);
            let i = choose|i: int|
                0 <= i < front.len() && (#[trigger] front[i]).parent == parent && front[i].pid
                    == before[k];
            assert(links[i].pid != links[links.len() - 1].pid);
        }
        assert forall|i: int, j: int|
            0 <= i < kids.len() && 0 <= j < kids.len() && i != j implies kids[i] != kids[j] by {
            if i < before.len() {
                assert(kids[i] == before[i]);
            }
            if j < before.len() {
                assert(kids[j] == before[j]);
            }
        }
    }
}

/// A process that is listed once has one parent.
proof fn lemma_one_parent(links: Seq<ProcessLink>, a: i32, b: i32, pid: i32)
    requires
        listed_once(links),
        is_child(links, a, pid),
        is_child(links, b, pid),
    ensures
        a == b,
{
    let i = choose|i: int|
        0 <= i < links.len() && (#[trigger] links[i]).parent == a && links[i].pid == pid;
    let j = choose|j: int|
        0 <= j < links.len() && (#[trigger] links[j]).parent == b && links[j].pid == pid;
    if i < j {
        assert(links[i].pid != links[j].pid);
    }
    if j < i {
        assert(links[j].pid != links[i].pid);
    }
}

/// A lineage without its last process.
proof fn lemma_shorter_lineage(links: Seq<ProcessLink>, path: Seq<i32>)
    requires
        is_lineage(links, path),
        path.len() >= 2,
    ensures
        is_lineage(links, path.drop_last()),
        is_child(links, path[path.len() - 2], path.last()),
{
    let front = path.drop_last();
    assert forall|k: int| #![trigger front[k]] 0 <= k && k + 1 < front.len() implies is_child(
        links,
        front[k],
        front[k + 1],
    ) by {
        assert(front[k] == path[k]);
        assert(front[k + 1] == path[k + 1]);
    }
    assert(is_child(links, path[path.len() - 2], path[path.len() - 1]));
}

/// A lineage with one more process at its head.
proof fn lemma_longer_lineage(links: Seq<ProcessLink>, parent: i32, path: Seq<i32>)
    requires
        is_lineage(links, path),
        path.len() >= 1,
        is_child(links, parent, path.first()),
    ensures
        is_lineage(links, seq![parent] + path),
{
    let longer = seq![parent] + path;
    assert forall|k: int| #![trigger longer[k]] 0 <= k && k + 1 < longer.len() implies is_child(
        links,
        longer[k],
        longer[k + 1],
    ) by {
        if k > 0 {
            assert(longer[k] == path[k - 1]);
            assert(longer[k + 1] == path[k]);
        }
    }
}

/// Two different ways down from the children of `parent` to one process need a cycle.
proof fn lemma_two_ways_need_a_cycle(
    links: Seq<ProcessLink>,
    parent: i32,
    one: Seq<i32>,
    other: Seq<i32>,
)
    requires
        listed_once(links),
        one.len() >= 1,
        other.len() >= 1,
        is_lineage(links, one),
        is_lineage(links, other),
        is_child(links, parent, one.first()),
        is_child(links, parent, other.first()),
        one.last() == other.last(),
        one.first() != other.first() || one.len() != other.len(),
    ensures
        has_cycle(links, parent),
    decreases one.len() + other.len(),
{
    if one.len() >= 2 {
        lemma_shorter_lineage(links, one);
    }
    if other.len() >= 2 {
        lemma_shorter_lineage(links, other);
    }
    if one.len() >= 2 && other.len() >= 2 {
        lemma_one_parent(links, one[one.len() - 2], other[other.len() - 2], one.last());
        lemma_two_ways_need_a_cycle(links, parent, one.drop_last(), other.drop_last());
    } else {
        let longer = if one.len() >= 2 {
            one
        } else {
            other
        };
        lemma_one_parent(links, parent, longer[longer.len() - 2], longer.last());
        let front = longer.drop_last();
        lemma_longer_lineage(links, parent, front);
        let round = seq![parent] + front;
        assert(round[0] == round[round.len() - 1]);
        assert(goes_round(links, round, parent));
    }
}

/// No cycle below a process, none below its child.
proof fn lemma_child_without_cycle(links: Seq<ProcessLink>, parent: i32, child: i32)
    requires
        !has_cycle(links, parent),
        is_child(links, parent, child),
    ensures
        !has_cycle(links, child),
{
    if has_cycle(links, child) {
        let path = choose|path: Seq<i32>| #[trigger] goes_round(links, path, child);
        let (i, j) = choose|i: int, j: int|
            0 <= i < j < path.len() && #[trigger] path[i] == #[trigger] path[j];
        lemma_longer_lineage(links, parent, path);
        let longer = seq![parent] + path;
        assert(longer[i + 1] == longer[j + 1]);
        assert(goes_round(links, longer, parent));
    }
}

/// What is found below one process differs from it and from each other.
proof fn lemma_below_differs(links: Seq<ProcessLink>, parent: i32, depth: nat)
    requires
        listed_once(links),
        !has_cycle(links, parent),
        below(links, parent, depth) is Some,
    ensures
        below(links, parent, depth)->0.no_duplicates(),
        !below(links, parent, depth)->0.contains(parent),
    decreases depth, 0nat,
{
    let kids = children(links, parent);
    let found = below(links, parent, depth)->0;
    if found.contains(parent) {
        let path = lemma_found_is_below(links, parent, depth, parent);
        assert(path[0] == path[path.len() - 1]);
        assert(goes_round(links, path, parent));
    }
    if kids.len() > 0 {
        let rest = below_all(links, kids, (depth - 1) as nat)->0;
        lemma_children_differ(links, parent);
        assert forall|k: int| 0 <= k < kids.len() implies is_child(
            links,
            parent,
            #[trigger] kids[k],
        ) by {
            assert(kids.contains(kids[k]));
            lemma_children_are_listed(links, parent, kids[k]);
        }
        lemma_all_below_differ(links, parent, kids, (depth - 1) as nat);
        assert forall|i: int, j: int| 0 <= i < kids.len() && 0 <= j < rest.len() implies kids[i]
            != rest[j] by {
            if kids[i] == rest[j] {
                assert(rest.contains(rest[j]));
                let (k, path) = lemma_found_below_one(links, kids, (depth - 1) as nat, rest[j]);
                assert(is_child(links, parent, kids[i]));
                assert(is_child(links, parent, kids[k]));
                lemma_two_ways_need_a_cycle(links, parent, seq![kids[i]], path);
            }
        }
        assert forall|i: int, j: int|
            0 <= i < found.len() && 0 <= j < found.len() && i != j implies found[i]
            != found[j] by {
            if i < kids.len() && j >= kids.len() {
                assert(kids[i] != rest[j - kids.len()]);
            } else if j < kids.len() && i >= kids.len() {
                assert(kids[j] != rest[i - kids.len()]);
            } else if i < kids.len() {
                assert(kids[i] != kids[j]);
            } else {
                assert(rest[i - kids.len()] != rest[j - kids.len()]);
            }
        }
    }
}

/// What is found below several children of one process differs from each other.
proof fn lemma_all_below_differ(
    links: Seq<ProcessLink>,
    parent: i32,
    kids: Seq<i32>,
    depth: nat,
)
    requires
        listed_once(links),
        !has_cycle(links, parent),
        kids.no_duplicates(),
        forall|k: int| 0 <= k < kids.len() ==> is_child(links, parent, #[trigger] kids[k]),
        below_all(links, kids, depth) is Some,
    ensures
        below_all(links, kids, depth)->0.no_duplicates(),
    decreases depth, 1 + kids.len(),
{
    if kids.len() > 0 {
        let front = kids.drop_last();
        let last = kids.last();
        assert forall|k: int| 0 <= k < front.len() implies is_child(
            links,
            parent,
            #[trigger] front[k],
        ) by {
            assert(front[k] == kids[k]);
        }
        assert(is_child(links, parent, kids[kids.len() - 1]));
        lemma_child_without_cycle(links, parent, last);
        lemma_below_differs(links, last, depth);
        lemma_all_below_differ(links, parent, front, depth);
        let a = below(links, last, depth)->0;
        let b = below_all(links, front, depth)->0;
        assert forall|i: int, j: int| 0 <= i < a.len() && 0 <= j < b.len() implies a[i]
            != b[j] by {
            if a[i] == b[j] {
                assert(a.contains(a[i]) && b.contains(b[j]));
                let one = lemma_found_is_below(links, last, depth, a[i]);
                let (k, other) = lemma_found_below_one(links, front, depth, b[j]);
                assert(is_child(links, parent, front[k]));
                assert(front[k] == kids[k]);
                lemma_two_ways_need_a_cycle(links, parent, one, other);
            }
        }
        let found = a + b;
        assert forall|i: int, j: int|
            0 <= i < found.len() && 0 <= j < found.len() && i != j implies found[i]
            != found[j] by {
            if i < a.len() && j >= a.len() {
                assert(a[i] != b[j - a.len()]);
            } else if j < a.len() && i >= a.len() {
                assert(a[j] != b[i - a.len()]);
            } else if i < a.len() {
                assert(a[i] != a[j]);
            } else {
                assert(b[i - a.len()] != b[j - a.len()]);
            }
        }
    }
}

/// Where no process is listed twice, none is collected twice.
pub proof fn lemma_tree_holds_each_once(links: Seq<ProcessLink>, root: i32)
    requires
        listed_once(links),
        !has_cycle(links, root),
    ensures
        (seq![root] + below(links, root, links.len())->0).no_duplicates(),
{
    lemma_unfinished_iff_cycle(links, root);
    lemma_below_differs(links, root, links.len());
    let found = below(links, root, links.len())->0;
    let tree = seq![root] + found;
    assert forall|i: int, j: int|
        0 <= i < tree.len() && 0 <= j < tree.len() && i != j implies tree[i] != tree[j] by {
        if i > 0 {
            assert(tree[i] == found[i - 1]);
            assert(found.contains(found[i - 1]));
        }
        if j > 0 {
            assert(tree[j] == found[j - 1]);
            assert(found.contains(found[j - 1]));
        }
    }
}

/// A child of `parent`, or of one that stands earlier in `found`.
spec fn follows_its_parent(links: Seq<ProcessLink>, found: Seq<i32>, parents: Seq<i32>, k: int) -> bool {
    ||| exists|i: int| 0 <= i < parents.len() && is_child(links, #[trigger] parents[i], found[k])
    ||| exists|j: int| 0 <= j < k && is_child(links, #[trigger] found[j], found[k])
}

proof fn lemma_below_follows(links: Seq<ProcessLink>, parent: i32, depth: nat)
    ensures
        below(links, parent, depth) matches Some(found) ==> forall|k: int|
            0 <= k < found.len() ==> #[trigger] follows_its_parent(links, found, seq![parent], k),
    decreases depth, 0nat,
{
    if let Some(found) = below(links, parent, depth) {
        let kids = children(links, parent);
        if kids.len() > 0 {
            let down = (depth - 1) as nat;
            lemma_all_below_follow(links, kids, down);
            let rest = below_all(links, kids, down)->0;
            let n = kids.len() as int;
            assert(found == kids + rest);
            assert forall|k: int| 0 <= k < found.len() implies #[trigger] follows_its_parent(
                links,
                found,
                seq![parent],
                k,
            ) by {
                if k < n {
                    assert(kids.contains(kids[k]));
                    lemma_children_are_listed(links, parent, kids[k]);
                    assert(is_child(links, seq![parent][0], found[k]));
                } else {
                    assert(follows_its_parent(links, rest, kids, k - n));
                    if exists|i: int|
                        0 <= i < kids.len() && is_child(links, #[trigger] kids[i], rest[k - n]) {
                        let i = choose|i: int|
                            0 <= i < kids.len() && is_child(links, #[trigger] kids[i], rest[k - n]);
                        assert(is_child(links, found[i], found[k]));
                    } else {
                        let j = choose|j: int|
                            0 <= j < k - n && is_child(links, #[trigger] rest[j], rest[k - n]);
                        assert(is_child(links, found[n + j], found[k]));
                    }
                }
            }
        }
    }
}

proof fn lemma_all_below_follow(links: Seq<ProcessLink>, parents: Seq<i32>, depth: nat)
    ensures
        below_all(links, parents, depth) matches Some(found) ==> forall|k: int|
            0 <= k < found.len() ==> #[trigger] follows_its_parent(links, found, parents, k),
    decreases depth, 1 + parents.len(),
{
    if let Some(found) = below_all(links, parents, depth) {
        if parents.len() > 0 {
            let last = parents.last();
            let front = parents.drop_last();
            lemma_below_follows(links, last, depth);
            lemma_all_below_follow(links, front, depth);
            let a = below(links, last, depth)->0;
            let b = below_all(links, front, depth)->0;
            let n = a.len() as int;
            assert(found == a + b);
            assert forall|k: int| 0 <= k < found.len() implies #[trigger] follows_its_parent(
                links,
                found,
                parents,
                k,
            ) by {
                if k < n {
                    assert(follows_its_parent(links, a, seq![last], k));
                    if exists|j: int| 0 <= j < k && is_child(links, #[trigger] a[j], a[k]) {
                        let j = choose|j: int| 0 <= j < k && is_child(links, #[trigger] a[j], a[k]);
                        assert(is_child(links, found[j], found[k]));
                    } else {
                        assert(is_child(links, parents[parents.len() - 1], found[k]));
                    }
                } else {
                    assert(follows_its_parent(links, b, front, k - n));
                    if exists|j: int|
                        0 <= j < k - n && is_child(links, #[trigger] b[j], b[k - n]) {
                        let j = choose|j: int|
                            0 <= j < k - n && is_child(links, #[trigger] b[j], b[k - n]);
                        assert(is_child(links, found[n + j], found[k]));
                    } else {
                        let i = choose|i: int|
                            0 <= i < front.len() && is_child(links, #[trigger] front[i], b[k - n]);
                        assert(is_child(links, parents[i], found[k]));
                    }
                }
            }
        }
    }
}

/// Children come in the order of the listing, and those of a process before what is below them.
pub proof fn lemma_children_keep_their_order(
    links: Seq<ProcessLink>,
    more: Seq<ProcessLink>,
    one: ProcessLink,
    parent: i32,
    depth: nat,
)
    ensures
        children(links + more, parent) == children(links, parent) + children(more, parent),
        children(seq![one], parent) == if one.parent == parent {
            seq![one.pid]
        } else {
            Seq::empty()
        },
        below(links, parent, depth) matches Some(found) ==> {
            &&& children(links, parent).len() <= found.len()
            &&& found.take(children(links, parent).len() as int) == children(links, parent)
        },
    decreases more.len(),
{
    let whole = seq![one];
    assert(whole.drop_last() =~= Seq::empty());
    assert(whole.last() == one);
    assert(children(whole.drop_last(), parent) =~= Seq::empty());
    assert(children(whole, parent) =~= if one.parent == parent {
        seq![one.pid]
    } else {
        Seq::empty()
    });
    if more.len() == 0 {
        assert(links + more =~= links);
        assert(children(links, parent) + children(more, parent) =~= children(links, parent));
    } else {
        let front = more.drop_last();
        lemma_children_keep_their_order(links, front, one, parent, depth);
        assert((links + more).drop_last() =~= links + front);
        assert((links + more).last() == more.last());
        assert(children(links + more, parent) =~= children(links, parent) + children(more, parent));
    }
    if let Some(found) = below(links, parent, depth) {
        let kids = children(links, parent);
        assert(found.take(kids.len() as int) =~= kids);
    }
}

/// The root comes first, and every other process behind one that it is a child of.
pub proof fn lemma_parents_come_first(links: Seq<ProcessLink>, root: i32, k: int)
    requires
        !has_cycle(links, root),
    ensures
        ({
            let tree = seq![root] + below(links, root, links.len())->0;
            &&& tree[0] == root
            &&& 0 < k < tree.len() ==> exists|j: int|
                0 <= j < k && is_child(links, #[trigger] tree[j], tree[k])
        }),
{
    lemma_unfinished_iff_cycle(links, root);
    lemma_below_follows(links, root, links.len());
    let found = below(links, root, links.len())->0;
    let tree = seq![root] + found;
    if 0 < k < tree.len() {
        assert(follows_its_parent(links, found, seq![root], k - 1));
        if exists|j: int| 0 <= j < k - 1 && is_child(links, #[trigger] found[j], found[k - 1]) {
            let j = choose|j: int|
                0 <= j < k - 1 && is_child(links, #[trigger] found[j], found[k - 1]);
            assert(is_child(links, tree[j + 1], tree[k]));
        } else {
            let i = choose|i: int|
                0 <= i < seq![root].len() && is_child(
                    links,
                    #[trigger] seq![root][i],
                    found[k - 1],
                );
            assert(is_child(links, tree[0], tree[k]));
        }
    }
}

/// How many processes are looked at on the way through what is below `parent`.
spec fn visits(links: Seq<ProcessLink>, parent: i32, depth: nat) -> nat
    decreases depth, 0nat,
{
    if depth == 0 {
        1
    } else {
        1 + visits_all(links, children(links, parent), (depth - 1) as nat)
    }
}

spec fn visits_all(links: Seq<ProcessLink>, parents: Seq<i32>, depth: nat) -> nat
    decreases depth, 1 + parents.len(),
{
    if parents.len() == 0 {
        0
    } else {
        visits(links, parents.last(), depth) + visits_all(links, parents.drop_last(), depth)
    }
}

/// What is still to come from the processes on the stack, each with the depth left to it.
spec fn pending_below(links: Seq<ProcessLink>, stack: Seq<(i32, usize)>) -> Option<Seq<i32>>
    decreases stack.len(),
{
    if stack.len() == 0 {
        Some(Seq::empty())
    } else {
        chained(
            below(links, stack.last().0, stack.last().1 as nat),
            pending_below(links, stack.drop_last()),
        )
    }
}

spec fn pending_visits(links: Seq<ProcessLink>, stack: Seq<(i32, usize)>) -> nat
    decreases stack.len(),
{
    if stack.len() == 0 {
        0
    } else {
        visits(links, stack.last().0, stack.last().1 as nat) + pending_visits(
            links,
            stack.drop_last(),
        )
    }
}

/// `parents` as they go on the stack.
spec fn stacked(parents: Seq<i32>, depth: usize) -> Seq<(i32, usize)> {
    Seq::new(parents.len(), |i: int| (parents[i], depth))
}

/// Children that go on the stack come before what is already there.
proof fn lemma_pending_push(
    links: Seq<ProcessLink>,
    stack: Seq<(i32, usize)>,
    parents: Seq<i32>,
    depth: usize,
)
    ensures
        pending_below(links, stack + stacked(parents, depth)) == chained(
            below_all(links, parents, depth as nat),
            pending_below(links, stack),
        ),
        pending_visits(links, stack + stacked(parents, depth)) == visits_all(
            links,
            parents,
            depth as nat,
        ) + pending_visits(links, stack),
    decreases parents.len(),
{
    let pushed = stack + stacked(parents, depth);
    if parents.len() == 0 {
        assert(pushed =~= stack);
        if let Some(rest) = pending_below(links, stack) {
            assert(Seq::<i32>::empty() + rest =~= rest);
        }
    } else {
        let front = parents.drop_last();
        lemma_pending_push(links, stack, front, depth);
        assert(pushed.drop_last() =~= stack + stacked(front, depth));
        assert(pushed.last() == (parents.last(), depth));
        if let (Some(a), Some(b), Some(c)) = (
            below(links, parents.last(), depth as nat),
            below_all(links, front, depth as nat),
            pending_below(links, stack),
        ) {
            assert(a + (b + c) =~= (a + b) + c);
        }
    }
}

/// Lists the children of every process.
fn group_by_parent(links: &Vec<ProcessLink>) -> (by_parent: HashMap<i32, Vec<i32>>)
    ensures
        forall|parent: i32| #[trigger]
            by_parent@.contains_key(parent) ==> by_parent@[parent]@ == children(links@, parent),
        forall|parent: i32|
            !(#[trigger] by_parent@.contains_key(parent)) ==> children(links@, parent).len() == 0,
{
    let mut by_parent: HashMap<i32, Vec<i32>> = HashMap::new();
    let n: usize = links.len();
    let mut i: usize = 0;
    while i < n
        invariant
            i <= n == links@.len(),
            forall|parent: i32| #[trigger]
                by_parent@.contains_key(parent) ==> by_parent@[parent]@ == children(
                    links@.take(i as int),
                    parent,
                ),
            forall|parent: i32|
                !(#[trigger] by_parent@.contains_key(parent)) ==> children(
                    links@.take(i as int),
                    parent,
                ).len() == 0,
        decreases n - i,
    {
        let link: ProcessLink = links[i];
        let ghost before: Map<i32, Vec<i32>> = by_parent@;
        let mut siblings: Vec<i32> = match by_parent.remove(&link.parent) {
            Some(known) => known,
            None => Vec::new(),
        };
        let ghost known: Seq<i32> = siblings@;
        siblings.push(link.pid);
        proof {
            assert(links@.take(i + 1).drop_last() =~= links@.take(i as int));
            assert(before.contains_key(link.parent) || known =~= children(
                links@.take(i as int),
                link.parent,
            ));
        }
        by_parent.insert(link.parent, siblings);
        i = i + 1;
    }
    assert(links@.take(n as int) =~= links@);
    by_parent
}

/// Collects `root` and all its descendants from a process listing: `root` first, and then, for
/// each process taken up, its children in the order of the listing, where the child listed last
/// is taken up first. With nothing listed below it, `root` stands alone.
///
/// Returns `None` where the listing goes round in a circle below `root`.
pub fn collect_descendants(root: i32, links: &Vec<ProcessLink>) -> (r: Option<Vec<i32>>)
    ensures
        r is None <==> has_cycle(links@, root),
        r matches Some(pids) ==> pids@ == seq![root] + below(links@, root, links@.len())->0,
{
    let by_parent: HashMap<i32, Vec<i32>> = group_by_parent(links);
    let mut out: Vec<i32> = Vec::new();
    out.push(root);
    let mut stack: Vec<(i32, usize)> = Vec::new();
    stack.push((root, links.len()));
    let ghost whole: Option<Seq<i32>> = below(links@, root, links@.len());
    proof {
        lemma_unfinished_iff_cycle(links@, root);
        assert(stack@.drop_last() =~= Seq::empty());
        assert(pending_below(links@, Seq::empty()) == Some(Seq::<i32>::empty()));
        if let Some(rest) = whole {
            assert(rest + Seq::empty() =~= rest);
            assert(out@ =~= seq![root]);
        }
    }
    while stack.len() > 0
        invariant
            whole == below(links@, root, links@.len()),
            whole is None <==> has_cycle(links@, root),
            forall|parent: i32| #[trigger]
                by_parent@.contains_key(parent) ==> by_parent@[parent]@ == children(
                    links@,
                    parent,
                ),
            forall|parent: i32|
                !(#[trigger] by_parent@.contains_key(parent)) ==> children(
                    links@,
                    parent,
                ).len() == 0,
            chained(Some(out@), pending_below(links@, stack@)) == chained(
                Some(seq![root]),
                whole,
            ),
        ensures
            stack@.len() == 0,
        decreases pending_visits(links@, stack@),
    {
        let ghost was: Seq<(i32, usize)> = stack@;
        let ghost shown: Seq<i32> = out@;
        let (parent, depth): (i32, usize) = match stack.pop() {
            Some(top) => top,
            None => break,
        };
        let ghost rest: Seq<(i32, usize)> = stack@;
        assert(was.drop_last() =~= rest);
        if let Some(siblings) = by_parent.get(&parent) {
            let ghost kids: Seq<i32> = children(links@, parent);
            let n: usize = siblings.len();
            if n > 0 {
                if depth == 0 {
                    return None;
                }
                let mut j: usize = 0;
                assert(stacked(kids.take(0), (depth - 1) as usize) =~= Seq::empty());
                assert(kids.take(0) =~= Seq::empty());
                while j < n
                    invariant
                        j <= n == siblings@.len(),
                        depth > 0,
                        siblings@ == kids,
                        out@ == shown + kids.take(j as int),
                        stack@ == rest + stacked(kids.take(j as int), (depth - 1) as usize),
                    decreases n - j,
                {
                    let child: i32 = siblings[j];
                    out.push(child);
                    stack.push((child, depth - 1));
                    proof {
                        assert(out@ =~= shown + kids.take(j + 1));
                        assert(stack@ =~= rest + stacked(
                            kids.take(j + 1),
                            (depth - 1) as usize,
                        ));
                    }
                    j = j + 1;
                }
                proof {
                    assert(kids.take(n as int) =~= kids);
                    lemma_pending_push(links@, rest, kids, (depth - 1) as usize);
                    if let (Some(a), Some(b)) = (
                        below_all(links@, kids, (depth - 1) as nat),
                        pending_below(links@, rest),
                    ) {
                        assert((shown + kids) + (a + b) =~= shown + ((kids + a) + b));
                    }
                }
            } else {
                proof {
                    if let Some(b) = pending_below(links@, rest) {
                        assert(Seq::<i32>::empty() + b =~= b);
                    }
                }
            }
        } else {
            proof {
                assert(children(links@, parent).len() == 0);
                if let Some(b) = pending_below(links@, rest) {
                    assert(Seq::<i32>::empty() + b =~= b);
                }
            }
        }
    }
    assert(out@ + Seq::<i32>::empty() =~= out@);
    Some(out)
}

} // verus!
