//! The running processes, and the trees that they form.
//!
//! A table lists the processes in the order in which the system reported them.

use crate::paths::{
    are_equal, parts_of, plain_path, same_path, same_place, written_names,
};
use vstd::prelude::*;

verus! {

/// A running process. A name or a path that is not Unicode is left out.
#[derive(Debug)]
pub struct ProcessInfo {
    pub pid: u32,
    pub parent: Option<u32>,
    pub name: Option<String>,
    pub exe: Option<String>,
    pub cpu_usage_bits: u32,
    pub memory: u64,
}

/// Whether no process number occurs twice.
pub open spec fn distinct(procs: Seq<ProcessInfo>) -> bool {
    forall|i: int, j: int|
        0 <= i < j < procs.len() ==> (#[trigger] procs[i]).pid != (#[trigger] procs[j]).pid
}

/// The process with the given number.
pub open spec fn lookup(procs: Seq<ProcessInfo>, pid: u32) -> Option<ProcessInfo>
    decreases procs.len(),
{
    if procs.len() == 0 {
        None
    } else if procs[0].pid == pid {
        Some(procs[0])
    } else {
        lookup(procs.skip(1), pid)
    }
}

/// The parent of a process.
pub open spec fn parent_of(procs: Seq<ProcessInfo>, pid: u32) -> Option<u32> {
    match lookup(procs, pid) {
        Some(p) => p.parent,
        None => None,
    }
}

/// The ancestor of a process `k` generations up, whether it runs or not.
pub open spec fn ancestor(procs: Seq<ProcessInfo>, pid: u32, k: nat) -> Option<u32>
    decreases k,
{
    if k == 0 {
        Some(pid)
    } else {
        match parent_of(procs, pid) {
            Some(parent) => ancestor(procs, parent, (k - 1) as nat),
            None => None,
        }
    }
}

/// Whether a process is `root` or descends from it.
pub open spec fn descends(procs: Seq<ProcessInfo>, pid: u32, root: u32) -> bool {
    exists|k: nat| #[trigger] ancestor(procs, pid, k) == Some(root)
}

/// Whether a process is an ancestor of itself. The walk through its tree would
/// never end.
pub open spec fn own_ancestor(procs: Seq<ProcessInfo>, pid: u32) -> bool {
    exists|k: nat| k >= 1 && #[trigger] ancestor(procs, pid, k) == Some(pid)
}

/// The children of a process, in the order of the table.
pub open spec fn children(procs: Seq<ProcessInfo>, pid: u32) -> Seq<u32>
    decreases procs.len(),
{
    if procs.len() == 0 {
        Seq::empty()
    } else if procs.last().parent == Some(pid) {
        children(procs.drop_last(), pid).push(procs.last().pid)
    } else {
        children(procs.drop_last(), pid)
    }
}

/// The processes that a walk finds which takes those found first first: from
/// position `i` on the children of each are appended.
pub open spec fn breadth_walk(procs: Seq<ProcessInfo>, found: Seq<u32>, i: nat, steps: nat) -> Seq<
    u32,
>
    decreases steps,
{
    if steps == 0 || i >= found.len() {
        found
    } else {
        breadth_walk(procs, found + children(procs, found[i as int]), i + 1, (steps - 1) as nat)
    }
}

/// The tree of a process, level by level. No tree is larger than the table.
pub open spec fn tree(procs: Seq<ProcessInfo>, root: u32) -> Seq<u32> {
    breadth_walk(procs, seq![root], 0, procs.len())
}

/// The processes that a walk finds which takes those found last first: the
/// children of the one on top of the stack are appended, and take its place.
pub open spec fn stack_walk(
    procs: Seq<ProcessInfo>,
    found: Seq<u32>,
    stack: Seq<u32>,
    steps: nat,
) -> Seq<u32>
    decreases steps,
{
    if steps == 0 || stack.len() == 0 {
        found
    } else {
        let next = children(procs, stack.last());
        stack_walk(procs, found + next, stack.drop_last() + next, (steps - 1) as nat)
    }
}

/// The tree of a process in the order in which it is closed down.
pub open spec fn family(procs: Seq<ProcessInfo>, root: u32) -> Seq<u32> {
    stack_walk(procs, seq![root], seq![root], procs.len())
}

/// What is known half-way through a walk: the numbers found are different, they
/// belong to running processes in the tree, and the children of those dealt
/// with are among them.
spec fn explored(procs: Seq<ProcessInfo>, root: u32, found: Seq<u32>, done: Set<u32>) -> bool {
    &&& found.no_duplicates()
    &&& found.contains(root)
    &&& forall|e: u32| #[trigger]
        found.contains(e) ==> lookup(procs, e) is Some && descends(procs, e, root)
    &&& forall|e: u32| #[trigger]
        found.contains(e) ==> e == root || (parent_of(procs, e) is Some && done.contains(
            parent_of(procs, e)->0,
        ))
    &&& forall|q: u32| #[trigger] done.contains(q) ==> found.contains(q)
    &&& forall|q: u32, c: u32|
        done.contains(q) && #[trigger] children(procs, q).contains(c) ==> found.contains(c)
}

proof fn lemma_lookup(procs: Seq<ProcessInfo>, pid: u32)
    ensures
        match lookup(procs, pid) {
            Some(p) => p.pid == pid && exists|i: int| 0 <= i < procs.len() && procs[i] == p,
            None => forall|i: int| 0 <= i < procs.len() ==> (#[trigger] procs[i]).pid != pid,
        },
    decreases procs.len(),
{
    if procs.len() > 0 && procs[0].pid != pid {
        lemma_lookup(procs.skip(1), pid);
        match lookup(procs.skip(1), pid) {
            Some(p) => {
                let i = choose|i: int|
                    0 <= i < procs.skip(1).len() && #[trigger] procs.skip(1)[i] == p;
                assert(procs[i + 1] == p);
            },
            None => {
                assert forall|i: int| 0 <= i < procs.len() implies (#[trigger] procs[i]).pid
                    != pid by {
                    if i > 0 {
                        assert(procs.skip(1)[i - 1] == procs[i]);
                    }
                }
            },
        }
    }
}

proof fn lemma_lookup_at(procs: Seq<ProcessInfo>, i: int)
    requires
        distinct(procs),
        0 <= i < procs.len(),
    ensures
        lookup(procs, procs[i].pid) == Some(procs[i]),
{
    lemma_lookup(procs, procs[i].pid);
    let p = lookup(procs, procs[i].pid)->0;
    let j = choose|j: int| 0 <= j < procs.len() && procs[j] == p;
    assert(procs[j].pid == procs[i].pid);
}

proof fn lemma_children(procs: Seq<ProcessInfo>, pid: u32)
    requires
        distinct(procs),
    ensures
        children(procs, pid).no_duplicates(),
        forall|c: u32| #[trigger]
            children(procs, pid).contains(c) <==> parent_of(procs, c) == Some(pid),
{
    lemma_children_listed(procs, pid);
    assert forall|c: u32| #[trigger]
        children(procs, pid).contains(c) <==> parent_of(procs, c) == Some(pid) by {
        if children(procs, pid).contains(c) {
            let i = choose|i: int| lists_child(procs, pid, c, i);
            lemma_lookup_at(procs, i);
        }
        if parent_of(procs, c) == Some(pid) {
            lemma_lookup(procs, c);
            let p = lookup(procs, c)->0;
            let i = choose|i: int| 0 <= i < procs.len() && procs[i] == p;
            assert(lists_child(procs, pid, c, i));
        }
    }
}

spec fn lists_child(procs: Seq<ProcessInfo>, pid: u32, c: u32, i: int) -> bool {
    0 <= i < procs.len() && procs[i].pid == c && procs[i].parent == Some(pid)
}

proof fn lemma_children_listed(procs: Seq<ProcessInfo>, pid: u32)
    requires
        distinct(procs),
    ensures
        children(procs, pid).no_duplicates(),
        forall|c: u32| #[trigger]
            children(procs, pid).contains(c) <==> exists|i: int| lists_child(procs, pid, c, i),
    decreases procs.len(),
{
    if procs.len() > 0 {
        let before = procs.drop_last();
        let last = procs.len() - 1;
        lemma_children_listed(before, pid);
        let known = children(before, pid);
        assert forall|c: u32| #[trigger]
            children(procs, pid).contains(c) <==> exists|i: int| lists_child(procs, pid, c, i) by {
            if children(procs, pid).contains(c) {
                let k = children(procs, pid).index_of(c);
                if k < known.len() {
                    assert(known[k] == c);
                    assert(known.contains(c));
                    let i = choose|i: int| lists_child(before, pid, c, i);
                    assert(lists_child(procs, pid, c, i));
                } else {
                    assert(lists_child(procs, pid, c, last));
                }
            }
            if exists|i: int| lists_child(procs, pid, c, i) {
                let i = choose|i: int| lists_child(procs, pid, c, i);
                if i < last {
                    assert(lists_child(before, pid, c, i));
                    assert(known.contains(c));
                    let k = known.index_of(c);
                    assert(children(procs, pid)[k] == c);
                } else {
                    assert(children(procs, pid)[known.len() as int] == c);
                }
            }
        }
        if procs.last().parent == Some(pid) {
            let c = procs.last().pid;
            if known.contains(c) {
                let i = choose|i: int| lists_child(before, pid, c, i);
                assert(procs[i].pid == procs[last].pid);
            }
            assert(children(procs, pid).no_duplicates());
        }
    } else {
        assert forall|c: u32| !(#[trigger] children(procs, pid).contains(c)) by {}
    }
}

/// Dealing with one more process keeps what is known, unless the root is an
/// ancestor of itself.
proof fn lemma_explore(
    procs: Seq<ProcessInfo>,
    root: u32,
    found: Seq<u32>,
    done: Set<u32>,
    p: u32,
)
    requires
        distinct(procs),
        !own_ancestor(procs, root),
        explored(procs, root, found, done),
        found.contains(p),
        !done.contains(p),
    ensures
        explored(procs, root, found + children(procs, p), done.insert(p)),
{
    let next = children(procs, p);
    let all = found + next;
    lemma_children(procs, p);
    let k = choose|k: nat| #[trigger] ancestor(procs, p, k) == Some(root);
    assert forall|c: u32| #[trigger] next.contains(c) implies !found.contains(c) && lookup(
        procs,
        c,
    ) is Some && descends(procs, c, root) by {
        assert(parent_of(procs, c) == Some(p));
        assert(ancestor(procs, c, k + 1) == Some(root));
    }
    assert(all.no_duplicates()) by {
        assert forall|i: int, j: int| 0 <= i < j < all.len() implies all[i] != all[j] by {
            if i < found.len() && j >= found.len() {
                assert(found.contains(all[i]));
                assert(next.contains(all[j])) by {
                    assert(next[j - found.len()] == all[j]);
                }
            }
        }
    }
    assert forall|e: u32| #[trigger] all.contains(e) <==> found.contains(e) || next.contains(e) by {
        if found.contains(e) {
            assert(all[found.index_of(e)] == e);
        }
        if next.contains(e) {
            assert(all[found.len() + next.index_of(e)] == e);
        }
        if all.contains(e) {
            let i = all.index_of(e);
            if i < found.len() {
                assert(found[i] == e);
            } else {
                assert(next[i - found.len()] == e);
            }
        }
    }
    let wider = done.insert(p);
    assert forall|e: u32| #[trigger] all.contains(e) implies e == root || (parent_of(
        procs,
        e,
    ) is Some && wider.contains(parent_of(procs, e)->0)) by {
        if next.contains(e) {
            assert(parent_of(procs, e) == Some(p));
        }
    }
    assert forall|q: u32, c: u32|
        wider.contains(q) && #[trigger] children(procs, q).contains(c) implies all.contains(c) by {
        if q != p {
            assert(done.contains(q));
            assert(found.contains(c));
        }
    }
}

/// Different numbers of running processes are no more than the processes.
proof fn lemma_found_fits(procs: Seq<ProcessInfo>, found: Seq<u32>)
    requires
        found.no_duplicates(),
        forall|e: u32| #[trigger] found.contains(e) ==> lookup(procs, e) is Some,
    ensures
        found.len() <= procs.len(),
{
    let pids = Seq::new(procs.len(), |i: int| procs[i].pid);
    assert forall|e: u32| #[trigger] found.to_set().contains(e) implies pids.to_set().contains(
        e,
    ) by {
        assert(found.contains(e));
        lemma_lookup(procs, e);
        let p = lookup(procs, e)->0;
        let i = choose|i: int| 0 <= i < procs.len() && procs[i] == p;
        assert(pids[i] == e);
        assert(pids.contains(e));
    }
    found.unique_seq_to_set();
    pids.lemma_cardinality_of_set();
    vstd::set_lib::lemma_len_subset(found.to_set(), pids.to_set());
}

/// At the end of a walk exactly the tree has been found.
proof fn lemma_explored_all(procs: Seq<ProcessInfo>, root: u32, found: Seq<u32>, done: Set<u32>)
    requires
        distinct(procs),
        explored(procs, root, found, done),
        forall|e: u32| #[trigger] found.contains(e) ==> done.contains(e),
    ensures
        forall|e: u32| #[trigger]
            found.contains(e) <==> lookup(procs, e) is Some && descends(procs, e, root),
{
    assert forall|e: u32| lookup(procs, e) is Some && descends(procs, e, root) implies #[trigger]
    found.contains(e) by {
        let k = choose|k: nat| #[trigger] ancestor(procs, e, k) == Some(root);
        lemma_descendant_found(procs, root, found, done, e, k);
    }
}

proof fn lemma_descendant_found(
    procs: Seq<ProcessInfo>,
    root: u32,
    found: Seq<u32>,
    done: Set<u32>,
    e: u32,
    k: nat,
)
    requires
        distinct(procs),
        explored(procs, root, found, done),
        forall|e: u32| #[trigger] found.contains(e) ==> done.contains(e),
        ancestor(procs, e, k) == Some(root),
    ensures
        found.contains(e),
    decreases k,
{
    if k > 0 {
        let parent = parent_of(procs, e)->0;
        lemma_descendant_found(procs, root, found, done, parent, (k - 1) as nat);
        lemma_children(procs, parent);
        assert(children(procs, parent).contains(e));
    }
}

proof fn lemma_start_explored(procs: Seq<ProcessInfo>, root: u32)
    requires
        lookup(procs, root) is Some,
    ensures
        explored(procs, root, seq![root], Set::empty()),
{
    let found = seq![root];
    assert(found[0] == root);
    assert(ancestor(procs, root, 0) == Some(root));
    assert forall|e: u32| #[trigger] found.contains(e) implies e == root by {}
}

proof fn lemma_breadth_walk(procs: Seq<ProcessInfo>, root: u32, found: Seq<u32>, i: nat)
    requires
        distinct(procs),
        !own_ancestor(procs, root),
        i <= found.len(),
        explored(procs, root, found, found.take(i as int).to_set()),
    ensures
        i <= procs.len(),
        ({
            let all = breadth_walk(procs, found, i, (procs.len() - i) as nat);
            explored(procs, root, all, all.to_set()) && found.is_prefix_of(all)
        }),
    decreases procs.len() - i,
{
    lemma_found_fits(procs, found);
    if i < found.len() {
        lemma_step_breadth(procs, root, found, i);
        let wider = found + children(procs, found[i as int]);
        lemma_breadth_walk(procs, root, wider, i + 1);
        assert(found.is_prefix_of(wider));
    } else {
        assert(found.take(i as int) =~= found);
    }
}

proof fn lemma_step_breadth(procs: Seq<ProcessInfo>, root: u32, found: Seq<u32>, i: nat)
    requires
        distinct(procs),
        !own_ancestor(procs, root),
        i < found.len(),
        explored(procs, root, found, found.take(i as int).to_set()),
    ensures
        ({
            let wider = found + children(procs, found[i as int]);
            explored(procs, root, wider, wider.take(i as int + 1).to_set())
        }),
{
    let p = found[i as int];
    let done = found.take(i as int).to_set();
    assert(found.contains(p));
    assert(!done.contains(p)) by {
        if done.contains(p) {
            assert(found.take(i as int).contains(p));
            let j = found.take(i as int).index_of(p);
            assert(found[j] == p);
        }
    }
    lemma_explore(procs, root, found, done, p);
    let wider = found + children(procs, p);
    assert(wider.take(i as int + 1).to_set() =~= done.insert(p)) by {
        assert(wider.take(i as int + 1) =~= found.take(i as int).push(p));
        assert forall|e: u32|
            wider.take(i as int + 1).to_set().contains(e) <==> #[trigger] done.insert(p).contains(
                e,
            ) by {
            let shorter = found.take(i as int);
            if shorter.contains(e) {
                assert(shorter.push(p)[shorter.index_of(e)] == e);
            }
            assert(shorter.push(p)[i as int] == p);
            if shorter.push(p).contains(e) {
                let j = shorter.push(p).index_of(e);
                if j < i {
                    assert(shorter[j] == e);
                }
            }
        }
    }
}

proof fn lemma_stack_walk(
    procs: Seq<ProcessInfo>,
    root: u32,
    found: Seq<u32>,
    stack: Seq<u32>,
    done: Set<u32>,
)
    requires
        distinct(procs),
        !own_ancestor(procs, root),
        pending(procs, root, found, stack, done),
    ensures
        done.len() <= procs.len(),
        ({
            let all = stack_walk(procs, found, stack, (procs.len() - done.len()) as nat);
            explored(procs, root, all, all.to_set()) && found.is_prefix_of(all)
        }),
    decreases procs.len() - done.len(),
{
    lemma_found_fits(procs, found);
    if stack.len() > 0 {
        let next = children(procs, stack.last());
        lemma_step_stack(procs, root, found, stack, done);
        lemma_stack_walk(
            procs,
            root,
            found + next,
            stack.drop_last() + next,
            done.insert(stack.last()),
        );
        assert(found.is_prefix_of(found + next));
    } else {
        assert forall|e: u32| found.contains(e) implies #[trigger] done.contains(e) by {
            assert(!stack.contains(e));
        }
        assert(done =~= found.to_set());
    }
}

/// What is known half-way through a walk with a stack: it holds what was found
/// and is still to be dealt with.
spec fn pending(
    procs: Seq<ProcessInfo>,
    root: u32,
    found: Seq<u32>,
    stack: Seq<u32>,
    done: Set<u32>,
) -> bool {
    &&& explored(procs, root, found, done)
    &&& stack.no_duplicates()
    &&& forall|e: u32| #[trigger] stack.contains(e) <==> found.contains(e) && !done.contains(e)
    &&& done.finite()
    &&& done.len() + stack.len() == found.len()
}

proof fn lemma_step_stack(
    procs: Seq<ProcessInfo>,
    root: u32,
    found: Seq<u32>,
    stack: Seq<u32>,
    done: Set<u32>,
)
    requires
        distinct(procs),
        !own_ancestor(procs, root),
        pending(procs, root, found, stack, done),
        stack.len() > 0,
    ensures
        ({
            let next = children(procs, stack.last());
            pending(
                procs,
                root,
                found + next,
                stack.drop_last() + next,
                done.insert(stack.last()),
            )
        }),
{
    let p = stack.last();
    assert(stack.contains(p));
    lemma_explore(procs, root, found, done, p);
    let next = children(procs, p);
    let all = found + next;
    let top = stack.drop_last() + next;
    let wider = done.insert(p);
    lemma_children(procs, p);
    assert forall|e: u32| #[trigger] all.contains(e) <==> found.contains(e) || next.contains(e) by {
        lemma_joined(found, next, e);
    }
    assert forall|e: u32| next.contains(e) implies !(#[trigger] found.contains(e)) by {
        let i = found.index_of(e);
        let j = next.index_of(e);
        if found.contains(e) {
            assert(all[i] == e && all[found.len() + j] == e);
        }
    }
    assert forall|e: u32| #[trigger]
        top.contains(e) <==> all.contains(e) && !wider.contains(e) by {
        lemma_joined(stack.drop_last(), next, e);
        lemma_joined(stack.drop_last(), seq![p], e);
        assert(stack =~= stack.drop_last() + seq![p]);
        if stack.drop_last().contains(e) {
            assert(stack[stack.drop_last().index_of(e)] == e);
            assert(e != p);
        }
        if seq![p].contains(e) {
            assert(e == p);
        }
        if next.contains(e) {
            assert(!found.contains(e));
            assert(!done.contains(e));
            assert(found.contains(p));
        }
    }
    assert(top.no_duplicates()) by {
        assert forall|i: int, j: int| 0 <= i < j < top.len() implies top[i] != top[j] by {
            let n = stack.len() - 1;
            if i < n && j >= n {
                assert(stack[i] == top[i]);
                assert(stack.contains(top[i]));
                assert(next[j - n] == top[j]);
                assert(next.contains(top[j]));
            } else if i < n {
                assert(stack[i] == top[i] && stack[j] == top[j]);
            } else {
                assert(next[i - n] == top[i] && next[j - n] == top[j]);
            }
        }
    }
}

proof fn lemma_joined(a: Seq<u32>, b: Seq<u32>, e: u32)
    ensures
        (a + b).contains(e) <==> a.contains(e) || b.contains(e),
{
    let all = a + b;
    if a.contains(e) {
        assert(all[a.index_of(e)] == e);
    }
    if b.contains(e) {
        assert(all[a.len() + b.index_of(e)] == e);
    }
    if all.contains(e) {
        let i = all.index_of(e);
        if i < a.len() {
            assert(a[i] == e);
        } else {
            assert(b[i - a.len()] == e);
        }
    }
}

/// A tree starts with its root and lists each running process that descends
/// from it once, and nothing else.
pub proof fn law_tree_is_complete(procs: Seq<ProcessInfo>, root: u32)
    requires
        distinct(procs),
        lookup(procs, root) is Some,
        !own_ancestor(procs, root),
    ensures
        tree(procs, root).len() > 0,
        tree(procs, root)[0] == root,
        tree(procs, root).no_duplicates(),
        forall|e: u32| #[trigger]
            tree(procs, root).contains(e) <==> lookup(procs, e) is Some && descends(procs, e, root),
{
    lemma_start_explored(procs, root);
    assert(seq![root].take(0).to_set() =~= Set::<u32>::empty()) by {
        assert forall|e: u32| !(#[trigger] seq![root].take(0).to_set().contains(e)) by {}
    }
    lemma_breadth_walk(procs, root, seq![root], 0);
    let all = tree(procs, root);
    assert(seq![root][0] == all[0]);
    lemma_explored_all(procs, root, all, all.to_set());
}

/// What is closed down with a process is its tree: its root first, and each
/// running process that descends from it once.
pub proof fn law_family_is_complete(procs: Seq<ProcessInfo>, root: u32)
    requires
        distinct(procs),
        lookup(procs, root) is Some,
        !own_ancestor(procs, root),
    ensures
        family(procs, root).len() > 0,
        family(procs, root)[0] == root,
        family(procs, root).no_duplicates(),
        forall|e: u32| #[trigger]
            family(procs, root).contains(e) <==> lookup(procs, e) is Some && descends(
                procs,
                e,
                root,
            ),
{
    lemma_start_explored(procs, root);
    lemma_start_pending(procs, root);
    lemma_stack_walk(procs, root, seq![root], seq![root], Set::empty());
    let all = family(procs, root);
    assert(seq![root][0] == all[0]);
    lemma_explored_all(procs, root, all, all.to_set());
}

proof fn lemma_start_pending(procs: Seq<ProcessInfo>, root: u32)
    requires
        lookup(procs, root) is Some,
    ensures
        pending(procs, root, seq![root], seq![root], Set::empty()),
{
    lemma_start_explored(procs, root);
}

/// What is measured of a tree is what is closed down with it.
pub proof fn law_tree_and_family_agree(procs: Seq<ProcessInfo>, root: u32, pid: u32)
    requires
        distinct(procs),
        lookup(procs, root) is Some,
        !own_ancestor(procs, root),
    ensures
        tree(procs, root).contains(pid) == family(procs, root).contains(pid),
{
    law_tree_is_complete(procs, root);
    law_family_is_complete(procs, root);
}

proof fn lemma_ancestor_joined(procs: Seq<ProcessInfo>, pid: u32, a: nat, b: nat)
    ensures
        ancestor(procs, pid, a + b) == match ancestor(procs, pid, a) {
            Some(p) => ancestor(procs, p, b),
            None => None,
        },
    decreases a,
{
    if a > 0 {
        match parent_of(procs, pid) {
            Some(parent) => lemma_ancestor_joined(procs, parent, (a - 1) as nat, b),
            None => {},
        }
    }
}

/// A process that is an ancestor of itself is so within as many generations as
/// there are processes.
proof fn lemma_cycle_is_short(procs: Seq<ProcessInfo>, root: u32, k: nat)
    requires
        k >= 1,
        ancestor(procs, root, k) == Some(root),
    ensures
        exists|j: nat| 1 <= j <= procs.len() && #[trigger] ancestor(procs, root, j) == Some(root),
    decreases k,
{
    if k > procs.len() {
        let line = Seq::new(k, |i: int| ancestor(procs, root, i as nat)->0);
        assert forall|e: u32| #[trigger] line.contains(e) implies lookup(procs, e) is Some by {
            let i = line.index_of(e) as nat;
            lemma_ancestor_joined(procs, root, i, (k - i) as nat);
            assert(ancestor(procs, e, (k - i) as nat) is Some);
        }
        if line.no_duplicates() {
            lemma_found_fits(procs, line);
        } else {
            let (i, j) = choose|i: int, j: int|
                0 <= i < line.len() && 0 <= j < line.len() && i != j && line[i] == line[j];
            let (lo, hi): (int, int) = if i < j {
                (i, j)
            } else {
                (j, i)
            };
            lemma_ancestor_joined(procs, root, lo as nat, (k - hi) as nat);
            lemma_ancestor_joined(procs, root, hi as nat, (k - hi) as nat);
            lemma_ancestor_joined(procs, root, lo as nat, (k - lo) as nat);
            lemma_cycle_is_short(procs, root, (lo + k - hi) as nat);
        }
    }
}

/// The memory that some processes use together.
pub open spec fn memory_of(procs: Seq<ProcessInfo>, pids: Seq<u32>) -> nat
    decreases pids.len(),
{
    if pids.len() == 0 {
        0
    } else {
        memory_of(procs, pids.drop_last()) + match lookup(procs, pids.last()) {
            Some(p) => p.memory as nat,
            None => 0,
        }
    }
}

/// The load of a process, as its bits.
pub open spec fn load_of(procs: Seq<ProcessInfo>, pid: u32) -> u32 {
    match lookup(procs, pid) {
        Some(p) => p.cpu_usage_bits,
        None => 0,
    }
}

/// Whether the tree of a process can be measured: it ends, and the memory is a
/// 64-bit number.
pub open spec fn measurable(procs: Seq<ProcessInfo>, root: u32) -> bool {
    lookup(procs, root) is Some ==> !own_ancestor(procs, root) && memory_of(
        procs,
        tree(procs, root),
    ) <= u64::MAX
}

proof fn lemma_memory_grows(procs: Seq<ProcessInfo>, pids: Seq<u32>, i: int)
    requires
        0 <= i <= pids.len(),
    ensures
        memory_of(procs, pids.take(i)) <= memory_of(procs, pids),
    decreases pids.len() - i,
{
    if i < pids.len() {
        assert(pids.take(i + 1).drop_last() =~= pids.take(i));
        lemma_memory_grows(procs, pids, i + 1);
    } else {
        assert(pids.take(i) =~= pids);
    }
}

/// What the processes of a tree use: the load of each, as its bits, in the order
/// in which they are added up, and the memory. There is none if the root does
/// not run.
#[derive(Debug)]
pub struct ProcStat {
    pub pid: u32,
    pub cpu_usage_bits: Vec<u32>,
    pub memory: u64,
}

/// Whether `stat` is what the tree of a process uses.
pub open spec fn is_tree_usage(stat: ProcStat, procs: Seq<ProcessInfo>, root: u32) -> bool {
    &&& stat.pid == root
    &&& if lookup(procs, root) is Some {
        &&& stat.cpu_usage_bits@ == tree(procs, root).map_values(|pid: u32| load_of(procs, pid))
        &&& stat.memory == memory_of(procs, tree(procs, root))
    } else {
        stat.cpu_usage_bits@.len() == 0 && stat.memory == 0
    }
}

/// The position of the first true value.
pub open spec fn first_true(flags: Seq<bool>) -> Option<int>
    decreases flags.len(),
{
    if flags.len() == 0 {
        None
    } else if flags[0] {
        Some(0)
    } else {
        match first_true(flags.skip(1)) {
            Some(i) => Some(i + 1),
            None => None,
        }
    }
}

/// Whether the process with the given number runs and is marked.
pub open spec fn marked(procs: Seq<ProcessInfo>, marks: Seq<bool>, pid: u32) -> bool {
    exists|j: int| 0 <= j < procs.len() && (#[trigger] procs[j]).pid == pid && marks[j]
}

/// For each process whether it is marked and its parent is not.
pub open spec fn tops(procs: Seq<ProcessInfo>, marks: Seq<bool>) -> Seq<bool> {
    Seq::new(
        procs.len(),
        |i: int|
            marks[i] && match procs[i].parent {
                Some(parent) => !marked(procs, marks, parent),
                None => true,
            },
    )
}

/// The topmost of the marked processes: the first whose parent is not marked;
/// failing that, the first one.
pub open spec fn topmost(procs: Seq<ProcessInfo>, marks: Seq<bool>) -> Option<u32> {
    match first_true(tops(procs, marks)) {
        Some(i) => Some(procs[i].pid),
        None => match first_true(marks) {
            Some(i) => Some(procs[i].pid),
            None => None,
        },
    }
}

/// Whether `marks` are those of the processes that run the given program: their
/// paths are equal to it as the platform takes paths apart.
pub open spec fn marks_program(procs: Seq<ProcessInfo>, path: Seq<char>, marks: Seq<bool>) -> bool {
    &&& marks.len() == procs.len()
    &&& forall|i: int|
        0 <= i < procs.len() ==> match (#[trigger] procs[i]).exe {
            None => !marks[i],
            Some(exe) => are_equal(exe@, path, marks[i]),
        }
}

/// Whether `found` is the topmost process that runs the given program.
pub open spec fn finds_program(
    procs: Seq<ProcessInfo>,
    path: Seq<char>,
    found: Option<u32>,
) -> bool {
    exists|marks: Seq<bool>| #[trigger]
        marks_program(procs, path, marks) && found == topmost(procs, marks)
}

/// Whether a process is a child of `old` with the given name.
pub open spec fn takes_over(p: ProcessInfo, old: u32, name: Seq<char>) -> bool {
    p.parent == Some(old) && p.name is Some && p.name->0@ == name
}

/// The first process that takes over from `old`.
pub open spec fn successor(procs: Seq<ProcessInfo>, old: u32, name: Seq<char>) -> Option<u32>
    decreases procs.len(),
{
    if procs.len() == 0 {
        None
    } else if takes_over(procs[0], old, name) {
        Some(procs[0].pid)
    } else {
        successor(procs.skip(1), old, name)
    }
}

/// The first true value.
fn find_true(flags: &Vec<bool>) -> (res: Option<usize>)
    ensures
        match res {
            Some(i) => i < flags.len() && first_true(flags@) == Some(i as int),
            None => first_true(flags@) is None,
        },
{
    let mut i: usize = 0;
    assert(flags@.skip(0) =~= flags@);
    while i < flags.len()
        invariant
            i <= flags.len(),
            first_true(flags@) == match first_true(flags@.skip(i as int)) {
                Some(k) => Some(k + i),
                None => None::<int>,
            },
        decreases flags.len() - i,
    {
        if flags[i] {
            return Some(i);
        }
        assert(flags@.skip(i as int).skip(1) =~= flags@.skip(i + 1));
        i += 1;
    }
    None
}

/// The running processes at one time.
#[derive(Debug)]
pub struct ProcessTable {
    procs: Vec<ProcessInfo>,
}

impl View for ProcessTable {
    type V = Seq<ProcessInfo>;

    closed spec fn view(&self) -> Seq<ProcessInfo> {
        self.procs@
    }
}

impl ProcessTable {
    /// Process numbers are different.
    #[verifier::type_invariant]
    spec fn inv(self) -> bool {
        distinct(self.procs@)
    }

    /// A table of processes. There is none if a process number occurs twice.
    pub fn new(procs: Vec<ProcessInfo>) -> (res: Option<Self>)
        ensures
            match res {
                Some(table) => distinct(procs@) && table@ == procs@,
                None => !distinct(procs@),
            },
    {
        let mut i: usize = 0;
        while i < procs.len()
            invariant
                i <= procs.len(),
                forall|a: int, b: int|
                    0 <= a < b < i ==> (#[trigger] procs@[a]).pid != (#[trigger] procs@[b]).pid,
            decreases procs.len() - i,
        {
            let mut j: usize = 0;
            while j < i
                invariant
                    j <= i < procs.len(),
                    forall|a: int| 0 <= a < j ==> (#[trigger] procs@[a]).pid != procs@[i as int].pid,
                decreases i - j,
            {
                if procs[j].pid == procs[i].pid {
                    return None;
                }
                j += 1;
            }
            i += 1;
        }
        Some(ProcessTable { procs })
    }

    /// The position of a process.
    fn position(&self, pid: u32) -> (res: Option<usize>)
        ensures
            match res {
                Some(i) => i < self@.len() && lookup(self@, pid) == Some(self@[i as int])
                    && self@[i as int].pid == pid,
                None => lookup(self@, pid) is None,
            },
    {
        let mut i: usize = 0;
        assert(self.procs@.skip(0) =~= self.procs@);
        while i < self.procs.len()
            invariant
                i <= self.procs.len(),
                lookup(self.procs@, pid) == lookup(self.procs@.skip(i as int), pid),
            decreases self.procs.len() - i,
        {
            if self.procs[i].pid == pid {
                return Some(i);
            }
            assert(self.procs@.skip(i as int).skip(1) =~= self.procs@.skip(i + 1));
            i += 1;
        }
        None
    }

    /// Whether a process runs.
    pub fn contains(&self, pid: u32) -> (res: bool)
        ensures
            res == lookup(self@, pid) is Some,
    {
        self.position(pid).is_some()
    }

    /// The parent of a process.
    fn parent(&self, pid: u32) -> (res: Option<u32>)
        ensures
            res == parent_of(self@, pid),
    {
        match self.position(pid) {
            Some(i) => self.procs[i].parent,
            None => None,
        }
    }

    /// The children of a process, in the order of the table.
    fn children(&self, pid: u32) -> (res: Vec<u32>)
        ensures
            res@ == children(self@, pid),
    {
        let mut out: Vec<u32> = Vec::new();
        let mut i: usize = 0;
        while i < self.procs.len()
            invariant
                i <= self.procs.len(),
                out@ == children(self.procs@.take(i as int), pid),
            decreases self.procs.len() - i,
        {
            assert(self.procs@.take(i + 1).drop_last() =~= self.procs@.take(i as int));
            let p = &self.procs[i];
            let child = match p.parent {
                Some(parent) => parent == pid,
                None => false,
            };
            if child {
                out.push(p.pid);
            }
            i += 1;
        }
        assert(self.procs@.take(i as int) =~= self.procs@);
        out
    }

    /// Whether a process is an ancestor of itself.
    pub fn is_own_ancestor(&self, pid: u32) -> (res: bool)
        ensures
            res == own_ancestor(self@, pid),
    {
        let n = self.procs.len();
        let ghost procs = self.procs@;
        let mut current: u32 = pid;
        let mut k: usize = 0;
        while k < n
            invariant
                k <= n,
                n == procs.len(),
                procs == self@,
                ancestor(procs, pid, k as nat) == Some(current),
                forall|j: nat| 1 <= j <= k ==> #[trigger] ancestor(procs, pid, j) != Some(pid),
            decreases n - k,
        {
            proof {
                lemma_ancestor_joined(procs, pid, k as nat, 1);
                assert(ancestor(procs, current, 1) == match parent_of(procs, current) {
                    Some(parent) => ancestor(procs, parent, 0),
                    None => None,
                });
            }
            match self.parent(current) {
                None => {
                    proof {
                        if own_ancestor(procs, pid) {
                            let j = choose|j: nat|
                                j >= 1 && #[trigger] ancestor(procs, pid, j) == Some(pid);
                            if j > k + 1 {
                                lemma_ancestor_joined(
                                    procs,
                                    pid,
                                    (k + 1) as nat,
                                    (j - k - 1) as nat,
                                );
                            }
                        }
                    }
                    return false;
                },
                Some(parent) => {
                    if parent == pid {
                        assert(ancestor(procs, pid, (k + 1) as nat) == Some(pid));
                        return true;
                    }
                    current = parent;
                },
            }
            k += 1;
        }
        proof {
            if own_ancestor(procs, pid) {
                let j = choose|j: nat| j >= 1 && #[trigger] ancestor(procs, pid, j) == Some(pid);
                lemma_cycle_is_short(procs, pid, j);
            }
        }
        false
    }

    /// The tree of a process, level by level.
    fn tree(&self, root: u32) -> (res: Vec<u32>)
        requires
            lookup(self@, root) is Some,
            !own_ancestor(self@, root),
        ensures
            res@ == tree(self@, root),
    {
        proof {
            use_type_invariant(self);
            lemma_start_explored(self@, root);
        }
        let ghost procs = self@;
        let mut found: Vec<u32> = vec![root];
        let mut i: usize = 0;
        assert(found@ =~= seq![root]);
        assert(found@.take(0).to_set() =~= Set::<u32>::empty()) by {
            assert forall|e: u32| !(#[trigger] found@.take(0).to_set().contains(e)) by {}
        }
        proof {
            lemma_found_fits(procs, found@);
        }
        while i < found.len()
            invariant
                i <= found.len() <= procs.len(),
                procs == self@,
                distinct(procs),
                !own_ancestor(procs, root),
                explored(procs, root, found@, found@.take(i as int).to_set()),
                breadth_walk(procs, found@, i as nat, (procs.len() - i) as nat) == tree(
                    procs,
                    root,
                ),
            decreases procs.len() - i,
        {
            proof {
                lemma_step_breadth(procs, root, found@, i as nat);
            }
            let mut next = self.children(found[i]);
            found.append(&mut next);
            proof {
                lemma_found_fits(procs, found@);
            }
            i += 1;
        }
        found
    }

    /// The tree of a process in the order in which it is closed down.
    pub fn family(&self, root: u32) -> (res: Vec<u32>)
        requires
            lookup(self@, root) is Some,
            !own_ancestor(self@, root),
        ensures
            res@ == family(self@, root),
    {
        proof {
            use_type_invariant(self);
            lemma_start_pending(self@, root);
        }
        let ghost procs = self@;
        let mut found: Vec<u32> = vec![root];
        let mut stack: Vec<u32> = vec![root];
        let ghost mut done: Set<u32> = Set::empty();
        assert(found@ =~= seq![root]);
        assert(stack@ =~= seq![root]);
        proof {
            lemma_found_fits(procs, found@);
        }
        while stack.len() > 0
            invariant
                procs == self@,
                distinct(procs),
                !own_ancestor(procs, root),
                pending(procs, root, found@, stack@, done),
                found.len() <= procs.len(),
                stack_walk(procs, found@, stack@, (procs.len() - done.len()) as nat) == family(
                    procs,
                    root,
                ),
            decreases procs.len() - done.len(),
        {
            let ghost before = stack@;
            proof {
                lemma_step_stack(procs, root, found@, stack@, done);
                done = done.insert(before.last());
            }
            let n = stack.len();
            let parent: u32 = stack[n - 1];
            stack.pop();
            let mut next = self.children(parent);
            let mut copy = self.children(parent);
            found.append(&mut next);
            stack.append(&mut copy);
            assert(stack@ =~= before.drop_last() + children(procs, parent));
            proof {
                lemma_found_fits(procs, found@);
            }
        }
        found
    }

    /// What the processes of a tree use. There is no answer if the tree cannot be
    /// measured.
    fn tree_usage(&self, root: u32) -> (res: Option<ProcStat>)
        ensures
            match res {
                Some(stat) => measurable(self@, root) && is_tree_usage(stat, self@, root),
                None => !measurable(self@, root),
            },
    {
        if !self.contains(root) {
            return Some(ProcStat { pid: root, cpu_usage_bits: Vec::new(), memory: 0 });
        }
        if self.is_own_ancestor(root) {
            return None;
        }
        let pids = self.tree(root);
        let ghost procs = self@;
        let mut loads: Vec<u32> = Vec::new();
        let mut memory: u64 = 0;
        let mut i: usize = 0;
        assert(pids@.take(0) =~= Seq::<u32>::empty());
        while i < pids.len()
            invariant
                i <= pids.len(),
                procs == self@,
                lookup(procs, root) is Some,
                pids@ == tree(procs, root),
                memory == memory_of(procs, pids@.take(i as int)),
                loads@ == pids@.take(i as int).map_values(|pid: u32| load_of(procs, pid)),
            decreases pids.len() - i,
        {
            let pid = pids[i];
            assert(pids@.take(i + 1).drop_last() =~= pids@.take(i as int));
            proof {
                lemma_memory_grows(procs, pids@, i + 1);
            }
            let (load, more): (u32, u64) = match self.position(pid) {
                Some(k) => (self.procs[k].cpu_usage_bits, self.procs[k].memory),
                None => (0, 0),
            };
            if more > u64::MAX - memory {
                return None;
            }
            memory = memory + more;
            loads.push(load);
            i += 1;
            assert(loads@ =~= pids@.take(i as int).map_values(|pid: u32| load_of(procs, pid)));
        }
        assert(pids@.take(i as int) =~= pids@);
        Some(ProcStat { pid: root, cpu_usage_bits: loads, memory })
    }

    /// The topmost of the marked processes.
    pub fn topmost_marked(&self, marks: &Vec<bool>) -> (res: Option<u32>)
        requires
            marks.len() == self@.len(),
        ensures
            res == topmost(self@, marks@),
    {
        proof {
            use_type_invariant(self);
        }
        let ghost procs = self@;
        let mut above: Vec<bool> = Vec::new();
        let mut i: usize = 0;
        while i < self.procs.len()
            invariant
                i <= self.procs.len(),
                marks.len() == procs.len(),
                procs == self@,
                distinct(procs),
                above@ == tops(procs, marks@).take(i as int),
            decreases self.procs.len() - i,
        {
            let top = if marks[i] {
                match self.procs[i].parent {
                    None => true,
                    Some(parent) => match self.position(parent) {
                        None => {
                            proof {
                                lemma_lookup(procs, parent);
                            }
                            assert(!marked(procs, marks@, parent));
                            true
                        },
                        Some(k) => {
                            assert(marked(procs, marks@, parent) == marks@[k as int]) by {
                                assert(procs[k as int].pid == parent);
                            }
                            !marks[k]
                        },
                    },
                }
            } else {
                false
            };
            assert(top == tops(procs, marks@)[i as int]);
            above.push(top);
            i += 1;
            assert(above@ =~= tops(procs, marks@).take(i as int));
        }
        assert(above@ =~= tops(procs, marks@));
        match find_true(&above) {
            Some(k) => Some(self.procs[k].pid),
            None => match find_true(marks) {
                Some(k) => Some(self.procs[k].pid),
                None => None,
            },
        }
    }

    /// For each process whether it runs the given program.
    fn program_marks(&self, path: &str) -> (res: Vec<bool>)
        ensures
            marks_program(self@, path@, res@),
    {
        let mut out: Vec<bool> = Vec::new();
        let mut i: usize = 0;
        while i < self.procs.len()
            invariant
                i <= self.procs.len(),
                out.len() == i,
                forall|j: int|
                    0 <= j < i ==> match (#[trigger] self.procs@[j]).exe {
                        None => !out@[j],
                        Some(exe) => are_equal(exe@, path@, out@[j]),
                    },
            decreases self.procs.len() - i,
        {
            let mark = match &self.procs[i].exe {
                None => false,
                Some(exe) => same_path(exe.as_str(), path),
            };
            out.push(mark);
            i += 1;
        }
        out
    }

    /// The first process that takes over from `old`.
    fn find_successor(&self, old: u32, name: &String) -> (res: Option<u32>)
        ensures
            res == successor(self@, old, name@),
    {
        let mut i: usize = 0;
        assert(self.procs@.skip(0) =~= self.procs@);
        while i < self.procs.len()
            invariant
                i <= self.procs.len(),
                successor(self.procs@, old, name@) == successor(
                    self.procs@.skip(i as int),
                    old,
                    name@,
                ),
            decreases self.procs.len() - i,
        {
            let p = &self.procs[i];
            let child = match p.parent {
                Some(parent) => parent == old,
                None => false,
            };
            let same_name = match &p.name {
                Some(n) => *n == *name,
                None => false,
            };
            if child && same_name {
                return Some(p.pid);
            }
            assert(self.procs@.skip(i as int).skip(1) =~= self.procs@.skip(i + 1));
            i += 1;
        }
        None
    }
}

/// Watches the running processes. The worker that refreshes the table is known
/// by its number.
#[derive(Debug)]
pub struct ProcessSampler {
    pub interval_ms: u64,
    pub worker: Option<u64>,
    pub table: ProcessTable,
}

impl ProcessSampler {
    /// A sampler without a worker.
    pub fn new(interval_ms: u64, table: ProcessTable) -> (res: Self)
        ensures
            res.interval_ms == interval_ms,
            res.worker is None,
            res.table == table,
    {
        ProcessSampler { interval_ms, worker: None, table }
    }

    /// The sampler with a worker: the one that it has, or else this one.
    pub open spec fn spawned(self, worker: u64) -> ProcessSampler {
        ProcessSampler {
            worker: if self.worker is None {
                Some(worker)
            } else {
                self.worker
            },
            ..self
        }
    }

    /// Takes note of a worker, unless there is one. The result says whether it
    /// has to be started.
    pub fn spawn(&mut self, worker: u64) -> (res: bool)
        ensures
            res == old(self).worker is None,
            *final(self) == old(self).spawned(worker),
    {
        if self.worker.is_some() {
            return false;
        }
        self.worker = Some(worker);
        true
    }

    /// Forgets the worker. The result is the worker that has to come to an end.
    pub fn stop(&mut self) -> (res: Option<u64>)
        ensures
            res == old(self).worker,
            *final(self) == (ProcessSampler { worker: None, ..*old(self) }),
    {
        let worker = self.worker;
        self.worker = None;
        worker
    }

    /// Replaces the table by a new one.
    pub fn refresh_processes(&mut self, table: ProcessTable)
        ensures
            *final(self) == (ProcessSampler { table, ..*old(self) }),
    {
        self.table = table;
    }

    /// Whether a process runs.
    pub fn check_alive(&self, pid: u32) -> (res: bool)
        ensures
            res == lookup(self.table@, pid) is Some,
    {
        self.table.contains(pid)
    }

    /// What the processes of a tree use.
    pub fn get_process_tree_usage(&self, root_pid: u32) -> (res: ProcStat)
        requires
            measurable(self.table@, root_pid),
        ensures
            is_tree_usage(res, self.table@, root_pid),
    {
        self.table.tree_usage(root_pid).unwrap()
    }

    /// What the processes of a tree use. There is no answer if the tree cannot be
    /// measured.
    pub fn try_process_tree_usage(&self, root_pid: u32) -> (res: Option<ProcStat>)
        ensures
            match res {
                Some(stat) => measurable(self.table@, root_pid) && is_tree_usage(
                    stat,
                    self.table@,
                    root_pid,
                ),
                None => !measurable(self.table@, root_pid),
            },
    {
        self.table.tree_usage(root_pid)
    }

    /// The topmost process that runs the given program.
    pub fn find_process_by_path(&self, program_path: &str) -> (res: Option<u32>)
        ensures
            finds_program(self.table@, program_path@, res),
    {
        let marks = self.table.program_marks(program_path);
        assert(marks_program(self.table@, program_path@, marks@));
        self.table.topmost_marked(&marks)
    }

    /// The process that takes over from one that has ended: a child of it with
    /// the name of the program.
    pub fn check_for_handover(&self, old_pid: u32, program_name: &String) -> (res: Option<u32>)
        ensures
            res == successor(self.table@, old_pid, program_name@),
    {
        self.table.find_successor(old_pid, program_name)
    }
}

proof fn lemma_first_true(flags: Seq<bool>)
    ensures
        match first_true(flags) {
            Some(i) => 0 <= i < flags.len() && flags[i] && forall|j: int| 0 <= j < i ==> !flags[j],
            None => forall|j: int| 0 <= j < flags.len() ==> !flags[j],
        },
    decreases flags.len(),
{
    if flags.len() > 0 && !flags[0] {
        lemma_first_true(flags.skip(1));
        assert forall|j: int| 0 < j < flags.len() implies flags[j] == flags.skip(1)[j - 1] by {}
    }
}

/// A program that runs is found, and what is found runs it. If the parent of
/// what is found runs the program too, then so do the parents of all that run it.
pub proof fn law_topmost_runs_the_program(procs: Seq<ProcessInfo>, marks: Seq<bool>)
    requires
        distinct(procs),
        marks.len() == procs.len(),
    ensures
        topmost(procs, marks) is None <==> forall|i: int| 0 <= i < marks.len() ==> !marks[i],
        topmost(procs, marks) matches Some(pid) ==> marked(procs, marks, pid) && (parent_of(
            procs,
            pid,
        ) matches Some(parent) && marked(procs, marks, parent) ==> forall|i: int|
            0 <= i < procs.len() && marks[i] ==> (#[trigger] procs[i]).parent is Some && marked(
                procs,
                marks,
                procs[i].parent->0,
            )),
{
    lemma_first_true(tops(procs, marks));
    lemma_first_true(marks);
    match first_true(tops(procs, marks)) {
        Some(i) => {
            assert(marks[i]);
            lemma_lookup_at(procs, i);
        },
        None => {
            match first_true(marks) {
                Some(i) => {
                    lemma_lookup_at(procs, i);
                    assert forall|j: int| 0 <= j < procs.len() && marks[j] implies (
                    #[trigger] procs[j]).parent is Some && marked(
                        procs,
                        marks,
                        procs[j].parent->0,
                    ) by {
                        assert(!tops(procs, marks)[j]);
                    }
                },
                None => {},
            }
        },
    }
}

/// What is found for a program runs, under a path with the same names, and if the
/// paths are plain with the same parts. A program that runs under the very path is
/// found, and so is one that runs under a plain path with the same parts.
pub proof fn law_found_process_runs_the_program(
    procs: Seq<ProcessInfo>,
    path: Seq<char>,
    found: Option<u32>,
)
    requires
        distinct(procs),
        finds_program(procs, path, found),
    ensures
        found matches Some(pid) ==> lookup(procs, pid) matches Some(p) && p.exe matches Some(exe)
            && written_names(exe@) == written_names(path) && (plain_path(exe@) && plain_path(path)
            ==> same_place(exe@, path, false)),
        forall|i: int|
            0 <= i < procs.len() && (#[trigger] procs[i]).exe is Some && (procs[i].exe->0@ == path
                || plain_path(procs[i].exe->0@) && plain_path(path) && same_place(
                procs[i].exe->0@,
                path,
                false,
            )) ==> found is Some,
{
    let marks = choose|marks: Seq<bool>| #[trigger]
        marks_program(procs, path, marks) && found == topmost(procs, marks);
    law_topmost_runs_the_program(procs, marks);
    match found {
        Some(pid) => {
            let j = choose|j: int| 0 <= j < procs.len() && (#[trigger] procs[j]).pid == pid && marks[j];
            lemma_lookup_at(procs, j);
        },
        None => {},
    }
}

/// What takes over from a process runs and is a child of it.
pub proof fn law_successor_is_a_child(procs: Seq<ProcessInfo>, old: u32, name: Seq<char>)
    requires
        distinct(procs),
        successor(procs, old, name) is Some,
    ensures
        children(procs, old).contains(successor(procs, old, name)->0),
{
    lemma_successor(procs, old, name);
    let i = choose|i: int|
        0 <= i < procs.len() && takes_over(#[trigger] procs[i], old, name) && procs[i].pid
            == successor(procs, old, name)->0;
    lemma_lookup_at(procs, i);
    lemma_children(procs, old);
}

proof fn lemma_successor(procs: Seq<ProcessInfo>, old: u32, name: Seq<char>)
    requires
        successor(procs, old, name) is Some,
    ensures
        exists|i: int|
            0 <= i < procs.len() && takes_over(#[trigger] procs[i], old, name) && procs[i].pid
                == successor(procs, old, name)->0,
    decreases procs.len(),
{
    if procs.len() > 0 && !takes_over(procs[0], old, name) {
        lemma_successor(procs.skip(1), old, name);
        let rest = procs.skip(1);
        let i = choose|i: int|
            0 <= i < rest.len() && takes_over(#[trigger] rest[i], old, name) && rest[i].pid
                == successor(rest, old, name)->0;
        assert(procs[i + 1] == rest[i]);
    } else {
        assert(takes_over(procs[0], old, name));
    }
}

/// The process with a number is the one in the table that has it, with all that the
/// table says of it; there is none if no process in the table has the number.
pub proof fn law_process_is_known_by_its_number(procs: Seq<ProcessInfo>, pid: u32, i: int)
    requires
        distinct(procs),
    ensures
        0 <= i < procs.len() && procs[i].pid == pid ==> lookup(procs, pid) == Some(procs[i]),
        (forall|j: int| 0 <= j < procs.len() ==> (#[trigger] procs[j]).pid != pid) ==> lookup(
            procs,
            pid,
        ) is None,
{
    lemma_lookup(procs, pid);
    if 0 <= i < procs.len() && procs[i].pid == pid {
        lemma_lookup_at(procs, i);
    }
    if lookup(procs, pid) is Some {
        let p = lookup(procs, pid)->0;
        let j = choose|j: int| 0 <= j < procs.len() && procs[j] == p;
        assert(procs[j].pid == pid);
    }
}

/// Whether the processes at some positions descend from each other: each is a child
/// of the next, up to one with the number `root`.
pub open spec fn is_line_of_descent(procs: Seq<ProcessInfo>, line: Seq<int>, root: u32) -> bool {
    &&& line.len() > 0
    &&& forall|i: int| 0 <= i < line.len() ==> 0 <= #[trigger] line[i] < procs.len()
    &&& forall|i: int, j: int|
        0 <= i && j == i + 1 && j < line.len() ==> procs[#[trigger] line[i]].parent == Some(
            procs[#[trigger] line[j]].pid,
        )
    &&& procs[line.last()].pid == root
}

/// Whether the process at a position descends from the one with the number `root`,
/// or is that one.
pub open spec fn belongs(procs: Seq<ProcessInfo>, i: int, root: u32) -> bool {
    exists|line: Seq<int>| #[trigger] is_line_of_descent(procs, line, root) && line[0] == i
}

proof fn lemma_line_of_ancestors(procs: Seq<ProcessInfo>, i: int, root: u32, k: nat) -> (line: Seq<
    int,
>)
    requires
        distinct(procs),
        0 <= i < procs.len(),
        lookup(procs, root) is Some,
        ancestor(procs, procs[i].pid, k) == Some(root),
    ensures
        is_line_of_descent(procs, line, root),
        line[0] == i,
        line.len() == k + 1,
    decreases k,
{
    lemma_lookup_at(procs, i);
    if k == 0 {
        seq![i]
    } else {
        let parent = procs[i].parent->0;
        assert(parent_of(procs, procs[i].pid) == Some(parent));
        lemma_lookup(procs, parent);
        assert(ancestor(procs, parent, (k - 1) as nat) == Some(root));
        if lookup(procs, parent) is None {
            assert(parent_of(procs, parent) is None);
            assert(k == 1);
        }
        let p = lookup(procs, parent)->0;
        let j = choose|j: int| 0 <= j < procs.len() && procs[j] == p;
        let rest = lemma_line_of_ancestors(procs, j, root, (k - 1) as nat);
        let line = seq![i] + rest;
        assert(line.last() == rest.last());
        assert forall|n: int| 0 <= n < line.len() implies 0 <= #[trigger] line[n] < procs.len() by {
            if n > 0 {
                assert(line[n] == rest[n - 1]);
            }
        }
        assert forall|n: int, o: int| 0 <= n && o == n + 1 && o < line.len() implies procs[
        #[trigger] line[n]].parent == Some(procs[#[trigger] line[o]].pid) by {
            assert(line[o] == rest[n]);
            if n > 0 {
                assert(line[n] == rest[n - 1]);
            }
        }
        line
    }
}

proof fn lemma_ancestors_of_line(procs: Seq<ProcessInfo>, line: Seq<int>, root: u32)
    requires
        distinct(procs),
        is_line_of_descent(procs, line, root),
    ensures
        ancestor(procs, procs[line[0]].pid, (line.len() - 1) as nat) == Some(root),
    decreases line.len(),
{
    lemma_lookup_at(procs, line[0]);
    if line.len() > 1 {
        let rest = line.skip(1);
        assert(rest.last() == line.last());
        assert forall|n: int| 0 <= n < rest.len() implies 0 <= #[trigger] rest[n] < procs.len() by {
            assert(rest[n] == line[n + 1]);
        }
        assert forall|n: int, o: int| 0 <= n && o == n + 1 && o < rest.len() implies procs[
        #[trigger] rest[n]].parent == Some(procs[#[trigger] rest[o]].pid) by {
            assert(rest[n] == line[n + 1]);
            assert(rest[o] == line[o + 1]);
        }
        lemma_ancestors_of_line(procs, rest, root);
        assert(procs[line[0]].parent == Some(procs[line[1]].pid));
        assert(rest[0] == line[1]);
    } else {
        assert(line.last() == line[0]);
    }
}

proof fn lemma_belongs(procs: Seq<ProcessInfo>, i: int, root: u32)
    requires
        distinct(procs),
        0 <= i < procs.len(),
        lookup(procs, root) is Some,
    ensures
        belongs(procs, i, root) <==> descends(procs, procs[i].pid, root),
{
    if belongs(procs, i, root) {
        let line = choose|line: Seq<int>| #[trigger]
            is_line_of_descent(procs, line, root) && line[0] == i;
        lemma_ancestors_of_line(procs, line, root);
    }
    if descends(procs, procs[i].pid, root) {
        let k = choose|k: nat| #[trigger] ancestor(procs, procs[i].pid, k) == Some(root);
        let line = lemma_line_of_ancestors(procs, i, root, k);
        assert(is_line_of_descent(procs, line, root) && line[0] == i);
    }
}

/// The position of a process that is known to be in the table.
spec fn place_of(procs: Seq<ProcessInfo>, pid: u32) -> int {
    choose|i: int| 0 <= i < procs.len() && (#[trigger] procs[i]).pid == pid
}

/// Whether some positions are those of the processes in the tree of `root`, each
/// once.
pub open spec fn lists_tree(procs: Seq<ProcessInfo>, root: u32, at: Seq<int>) -> bool {
    &&& at.no_duplicates()
    &&& forall|i: int| #[trigger]
        at.contains(i) <==> 0 <= i < procs.len() && belongs(procs, i, root)
}

/// The memory that the processes at some positions use together.
pub open spec fn memory_at(procs: Seq<ProcessInfo>, at: Seq<int>) -> nat {
    at.fold_left(0nat, |sum: nat, i: int| sum + procs[i].memory as nat)
}

proof fn lemma_memory_at(procs: Seq<ProcessInfo>, pids: Seq<u32>, at: Seq<int>)
    requires
        pids.len() == at.len(),
        forall|n: int|
            0 <= n < at.len() ==> lookup(procs, #[trigger] pids[n]) == Some(procs[at[n]]),
    ensures
        memory_of(procs, pids) == memory_at(procs, at),
    decreases pids.len(),
{
    reveal(Seq::fold_left);
    if pids.len() > 0 {
        let last = pids.len() - 1;
        assert(lookup(procs, pids[last]) == Some(procs[at[last]]));
        assert forall|n: int| 0 <= n < at.drop_last().len() implies lookup(
            procs,
            #[trigger] pids.drop_last()[n],
        ) == Some(procs[at.drop_last()[n]]) by {
            assert(pids.drop_last()[n] == pids[n]);
        }
        lemma_memory_at(procs, pids.drop_last(), at.drop_last());
    }
}

proof fn lemma_tree_places(procs: Seq<ProcessInfo>, root: u32) -> (at: Seq<int>)
    requires
        distinct(procs),
        lookup(procs, root) is Some,
        !own_ancestor(procs, root),
    ensures
        lists_tree(procs, root, at),
        at.len() == tree(procs, root).len(),
        at[0] == place_of(procs, root),
        forall|n: int|
            0 <= n < at.len() ==> lookup(procs, #[trigger] tree(procs, root)[n]) == Some(
                procs[at[n]],
            ) && 0 <= at[n] < procs.len() && procs[at[n]].pid == tree(procs, root)[n],
{
    law_tree_is_complete(procs, root);
    let pids = tree(procs, root);
    let at = pids.map_values(|pid: u32| place_of(procs, pid));
    assert forall|n: int| 0 <= n < at.len() implies lookup(procs, #[trigger] pids[n]) == Some(
        procs[at[n]],
    ) && 0 <= at[n] < procs.len() && procs[at[n]].pid == pids[n] by {
        assert(pids.contains(pids[n]));
        lemma_lookup(procs, pids[n]);
        let p = lookup(procs, pids[n])->0;
        let j = choose|j: int| 0 <= j < procs.len() && procs[j] == p;
        assert(procs[j].pid == pids[n]);
        lemma_lookup_at(procs, at[n]);
    }
    assert(at.no_duplicates()) by {
        assert forall|a: int, b: int| 0 <= a < at.len() && 0 <= b < at.len() && a != b implies at[a]
            != at[b] by {
            assert(pids[a] != pids[b]);
        }
    }
    assert forall|i: int| #[trigger] at.contains(i) <==> 0 <= i < procs.len() && belongs(
        procs,
        i,
        root,
    ) by {
        if at.contains(i) {
            let n = at.index_of(i);
            assert(pids.contains(pids[n]));
            lemma_belongs(procs, i, root);
        }
        if 0 <= i < procs.len() && belongs(procs, i, root) {
            lemma_belongs(procs, i, root);
            lemma_lookup_at(procs, i);
            assert(pids.contains(procs[i].pid));
            let n = pids.index_of(procs[i].pid);
            assert(procs[at[n]].pid == procs[i].pid);
            assert(at[n] == i);
        }
    }
    at
}

/// What a tree uses is what the table says of each process in it: the loads are
/// those that are reported, the root's first and none of them changed or left out,
/// and the memory is the sum of theirs.
pub proof fn law_tree_usage_is_that_of_every_process(
    stat: ProcStat,
    procs: Seq<ProcessInfo>,
    root: u32,
)
    requires
        distinct(procs),
        exists|i: int| 0 <= i < procs.len() && (#[trigger] procs[i]).pid == root,
        measurable(procs, root),
        is_tree_usage(stat, procs, root),
    ensures
        stat.pid == root,
        exists|at: Seq<int>| #[trigger]
            lists_tree(procs, root, at) && at.len() > 0 && procs[at[0]].pid == root
                && stat.cpu_usage_bits@ == at.map_values(|i: int| procs[i].cpu_usage_bits)
                && stat.memory == memory_at(procs, at),
{
    lemma_lookup(procs, root);
    let at = lemma_tree_places(procs, root);
    law_tree_is_complete(procs, root);
    lemma_memory_at(procs, tree(procs, root), at);
    assert(stat.cpu_usage_bits@ =~= at.map_values(|i: int| procs[i].cpu_usage_bits)) by {
        assert forall|n: int| 0 <= n < at.len() implies stat.cpu_usage_bits@[n]
            == procs[at[n]].cpu_usage_bits by {
            assert(lookup(procs, tree(procs, root)[n]) == Some(procs[at[n]]));
        }
    }
}

/// The load that is listed for a process in a tree is the one that the table
/// reports.
pub proof fn law_load_is_the_reported_one(stat: ProcStat, procs: Seq<ProcessInfo>, root: u32, i: int)
    requires
        distinct(procs),
        lookup(procs, root) is Some,
        is_tree_usage(stat, procs, root),
        0 <= i < tree(procs, root).len(),
    ensures
        stat.cpu_usage_bits@.len() == tree(procs, root).len(),
        forall|j: int|
            0 <= j < procs.len() && (#[trigger] procs[j]).pid == tree(procs, root)[i]
                ==> stat.cpu_usage_bits@[i] == procs[j].cpu_usage_bits,
{
    assert forall|j: int|
        0 <= j < procs.len() && (#[trigger] procs[j]).pid == tree(procs, root)[i] implies stat.cpu_usage_bits@[i]
        == procs[j].cpu_usage_bits by {
        lemma_lookup_at(procs, j);
    }
}

/// Nothing is used by a program that does not run.
pub proof fn law_nothing_uses_nothing(stat: ProcStat, procs: Seq<ProcessInfo>, root: u32)
    requires
        forall|i: int| 0 <= i < procs.len() ==> (#[trigger] procs[i]).pid != root,
        is_tree_usage(stat, procs, root),
    ensures
        measurable(procs, root),
        stat.pid == root,
        stat.cpu_usage_bits@.len() == 0,
        stat.memory == 0,
{
    lemma_lookup(procs, root);
    if lookup(procs, root) is Some {
        let p = lookup(procs, root)->0;
        let j = choose|j: int| 0 <= j < procs.len() && procs[j] == p;
        assert(procs[j].pid == root);
    }
}

/// A tree can be measured unless its root descends from itself or its memory has
/// more than 64 bits.
pub proof fn law_trees_can_be_measured(procs: Seq<ProcessInfo>, root: u32)
    requires
        distinct(procs),
        forall|line: Seq<int>| #[trigger]
            is_line_of_descent(procs, line, root) && procs[line[0]].pid == root ==> line.len() == 1,
        forall|at: Seq<int>| #[trigger] lists_tree(procs, root, at) ==> memory_at(procs, at)
            <= u64::MAX,
    ensures
        measurable(procs, root),
{
    if lookup(procs, root) is Some {
        lemma_lookup(procs, root);
        let p = lookup(procs, root)->0;
        let j = choose|j: int| 0 <= j < procs.len() && procs[j] == p;
        if own_ancestor(procs, root) {
            let k = choose|k: nat| k >= 1 && #[trigger] ancestor(procs, root, k) == Some(root);
            let line = lemma_line_of_ancestors(procs, j, root, k);
            assert(procs[line[0]].pid == root);
        }
        let at = lemma_tree_places(procs, root);
        lemma_memory_at(procs, tree(procs, root), at);
    }
}

/// What is closed down with a process are that process, first of all, and those
/// whose line of descent leads up to it, each once.
pub proof fn law_family_is_the_line_of_descent(procs: Seq<ProcessInfo>, root: u32, i: int)
    requires
        distinct(procs),
        lookup(procs, root) is Some,
        !own_ancestor(procs, root),
        0 <= i < procs.len(),
    ensures
        family(procs, root).contains(procs[i].pid) <==> belongs(procs, i, root),
        family(procs, root)[0] == root,
        family(procs, root).no_duplicates(),
        forall|n: int|
            0 <= n < family(procs, root).len() ==> exists|j: int|
                0 <= j < procs.len() && (#[trigger] procs[j]).pid == #[trigger] family(
                    procs,
                    root,
                )[n],
{
    law_family_is_complete(procs, root);
    lemma_lookup_at(procs, i);
    lemma_belongs(procs, i, root);
    let pids = family(procs, root);
    assert forall|n: int| 0 <= n < pids.len() implies exists|j: int|
        0 <= j < procs.len() && (#[trigger] procs[j]).pid == #[trigger] pids[n] by {
        assert(pids.contains(pids[n]));
        lemma_lookup(procs, pids[n]);
        let p = lookup(procs, pids[n])->0;
        let j = choose|j: int| 0 <= j < procs.len() && procs[j] == p;
        assert(procs[j].pid == pids[n]);
    }
}

/// Whether the process at a position is marked and no marked process is its parent.
pub open spec fn stands_above(procs: Seq<ProcessInfo>, marks: Seq<bool>, k: int) -> bool {
    marks[k] && forall|j: int|
        0 <= j < procs.len() && marks[j] ==> procs[k].parent != Some((#[trigger] procs[j]).pid)
}

/// The topmost of the marked processes is the first whose parent is not marked; if
/// there is none it is the first marked one; and there is none without a mark.
pub proof fn law_topmost_is_the_first_on_top(procs: Seq<ProcessInfo>, marks: Seq<bool>, k: int)
    requires
        marks.len() == procs.len(),
    ensures
        0 <= k < procs.len() && stands_above(procs, marks, k) && (forall|j: int|
            0 <= j < k ==> !stands_above(procs, marks, j)) ==> topmost(procs, marks) == Some(
            procs[k].pid,
        ),
        0 <= k < procs.len() && marks[k] && (forall|j: int| 0 <= j < k ==> !marks[j]) && (forall|
            j: int,
        |
            0 <= j < procs.len() ==> !stands_above(procs, marks, j)) ==> topmost(procs, marks)
            == Some(procs[k].pid),
        (forall|j: int| 0 <= j < procs.len() ==> !marks[j]) ==> topmost(procs, marks) is None,
{
    let above = tops(procs, marks);
    lemma_first_true(above);
    lemma_first_true(marks);
    assert forall|j: int| 0 <= j < procs.len() implies above[j] == #[trigger] stands_above(
        procs,
        marks,
        j,
    ) by {
        if above[j] {
            assert forall|n: int| 0 <= n < procs.len() && marks[n] implies procs[j].parent != Some(
                (#[trigger] procs[n]).pid,
            ) by {
                if procs[j].parent == Some(procs[n].pid) {
                    assert(marked(procs, marks, procs[n].pid));
                }
            }
        }
        if stands_above(procs, marks, j) && procs[j].parent is Some {
            let parent = procs[j].parent->0;
            if marked(procs, marks, parent) {
                let n = choose|n: int|
                    0 <= n < procs.len() && (#[trigger] procs[n]).pid == parent && marks[n];
                assert(procs[j].parent != Some(procs[n].pid));
            }
        }
    }
    if 0 <= k < procs.len() {
        assert(above[k] == stands_above(procs, marks, k));
    }
    match first_true(above) {
        Some(i) => {
            assert(above[i] == stands_above(procs, marks, i));
        },
        None => {},
    }
}

/// For each process whether it runs a program, where all paths are plain ones.
pub open spec fn runs(procs: Seq<ProcessInfo>, path: Seq<char>) -> Seq<bool> {
    Seq::new(
        procs.len(),
        |i: int| procs[i].exe is Some && parts_of(procs[i].exe->0@, false) == parts_of(path, false),
    )
}

/// Where paths are plain, what is found for a program is the topmost of the
/// processes whose path has the same root and the same names.
pub proof fn law_found_process_is_the_topmost(
    procs: Seq<ProcessInfo>,
    path: Seq<char>,
    found: Option<u32>,
)
    requires
        finds_program(procs, path, found),
        plain_path(path),
        forall|i: int|
            0 <= i < procs.len() && (#[trigger] procs[i]).exe is Some ==> plain_path(
                procs[i].exe->0@,
            ),
    ensures
        found == topmost(procs, runs(procs, path)),
        forall|i: int|
            0 <= i < procs.len() ==> runs(procs, path)[i] == ((#[trigger] procs[i]).exe is Some
                && same_place(procs[i].exe->0@, path, false)),
{
    let marks = choose|marks: Seq<bool>| #[trigger]
        marks_program(procs, path, marks) && found == topmost(procs, marks);
    assert(marks =~= runs(procs, path)) by {
        assert forall|i: int| 0 <= i < procs.len() implies marks[i] == #[trigger] runs(
            procs,
            path,
        )[i] by {
            match procs[i].exe {
                Some(exe) => {
                    assert(plain_path(exe@));
                    assert(are_equal(exe@, path, marks[i]));
                },
                None => {
                    assert(!marks[i]);
                },
            }
        }
    }
}

/// What takes over from a process is the first of its children with the name; there
/// is none if no child has it.
pub proof fn law_successor_is_the_first_child_with_the_name(
    procs: Seq<ProcessInfo>,
    old: u32,
    name: Seq<char>,
    k: int,
)
    requires
        0 <= k <= procs.len(),
        forall|j: int|
            0 <= j < k ==> !((#[trigger] procs[j]).parent == Some(old) && procs[j].name is Some
                && procs[j].name->0@ == name),
        k < procs.len() ==> procs[k].parent == Some(old) && procs[k].name is Some
            && procs[k].name->0@ == name,
    ensures
        successor(procs, old, name) == if k < procs.len() {
            Some(procs[k].pid)
        } else {
            None
        },
    decreases procs.len(),
{
    if k > 0 {
        let rest = procs.skip(1);
        assert(!(procs[0].parent == Some(old) && procs[0].name is Some && procs[0].name->0@ == name));
        assert forall|j: int| 0 <= j < k - 1 implies !((#[trigger] rest[j]).parent == Some(old)
            && rest[j].name is Some && rest[j].name->0@ == name) by {
            assert(rest[j] == procs[j + 1]);
        }
        law_successor_is_the_first_child_with_the_name(rest, old, name, k - 1);
    }
}

/// A sampler has one worker at most: the first one stays until it is stopped.
pub proof fn law_first_worker_stays(sampler: ProcessSampler, worker: u64, other: u64)
    ensures
        sampler.worker is None ==> sampler.spawned(worker).worker == Some(worker),
        sampler.worker is Some ==> sampler.spawned(worker) == sampler,
        sampler.spawned(worker).spawned(other) == sampler.spawned(worker),
        sampler.spawned(worker).table == sampler.table,
        sampler.spawned(worker).interval_ms == sampler.interval_ms,
{
}

/// What is found for a program is the topmost of the processes whose paths are equal
/// to its path, as the platform takes paths apart, whatever paths these are; a
/// process whose path is not known is never found.
pub proof fn law_equal_paths_decide_what_is_found(
    procs: Seq<ProcessInfo>,
    path: Seq<char>,
    found: Option<u32>,
)
    requires
        finds_program(procs, path, found),
    ensures
        exists|marks: Seq<bool>|
            marks.len() == procs.len() && #[trigger] topmost(procs, marks) == found && forall|
                i: int,
            |
                0 <= i < procs.len() ==> match (#[trigger] procs[i]).exe {
                    Some(exe) => are_equal(exe@, path, marks[i]),
                    None => !marks[i],
                },
{
    let marks = choose|marks: Seq<bool>| #[trigger]
        marks_program(procs, path, marks) && found == topmost(procs, marks);
    assert(topmost(procs, marks) == found);
}

/// Whether a number stands before another one in the table.
pub open spec fn stands_before(procs: Seq<ProcessInfo>, a: u32, b: u32) -> bool {
    forall|i: int, j: int|
        0 <= i < procs.len() && 0 <= j < procs.len() && (#[trigger] procs[i]).pid == a && (
        #[trigger] procs[j]).pid == b ==> i < j
}

/// Whether all processes with a number have the given parent.
pub open spec fn has_parent(procs: Seq<ProcessInfo>, pid: u32, parent: u32) -> bool {
    forall|i: int|
        0 <= i < procs.len() && (#[trigger] procs[i]).pid == pid ==> procs[i].parent == Some(parent)
}

/// Whether some processes are listed level by level: each comes after its parent,
/// which stands at the position `up` of it; the children of a process that comes
/// first come first, and those of the same process are in the order of the table.
pub open spec fn is_level_order(procs: Seq<ProcessInfo>, pids: Seq<u32>, up: Seq<int>) -> bool {
    &&& up.len() == pids.len()
    &&& forall|n: int|
        1 <= n < pids.len() ==> 0 <= #[trigger] up[n] < n && has_parent(procs, pids[n], pids[up[n]])
    &&& forall|a: int, b: int|
        1 <= a < b < pids.len() ==> #[trigger] up[a] <= #[trigger] up[b] && (up[a] == up[b]
            ==> stands_before(procs, pids[a], pids[b]))
}

proof fn lemma_children_in_order(procs: Seq<ProcessInfo>, pid: u32, a: int, b: int)
    requires
        distinct(procs),
        0 <= a < b < children(procs, pid).len(),
    ensures
        stands_before(procs, children(procs, pid)[a], children(procs, pid)[b]),
    decreases procs.len(),
{
    let before = procs.drop_last();
    let last = procs.len() - 1;
    let known = children(before, pid);
    let all = children(procs, pid);
    lemma_children_listed(before, pid);
    assert(known.contains(known[a]));
    let at = choose|i: int| lists_child(before, pid, known[a], i);
    assert(procs[at].pid == known[a] && at < last);
    assert(all[a] == known[a]);
    if b < known.len() {
        lemma_children_in_order(before, pid, a, b);
        assert(known.contains(known[b]));
        let bt = choose|i: int| lists_child(before, pid, known[b], i);
        assert(procs[bt].pid == known[b] && bt < last);
        assert(before[at].pid == known[a] && before[bt].pid == known[b]);
        assert(all[b] == known[b]);
        assert forall|i: int, j: int|
            0 <= i < procs.len() && 0 <= j < procs.len() && (#[trigger] procs[i]).pid == all[a] && (
            #[trigger] procs[j]).pid == all[b] implies i < j by {
            assert(i == at && j == bt);
        }
    } else {
        assert(all[b] == procs[last].pid);
        assert forall|i: int, j: int|
            0 <= i < procs.len() && 0 <= j < procs.len() && (#[trigger] procs[i]).pid == all[a] && (
            #[trigger] procs[j]).pid == all[b] implies i < j by {
            assert(i == at && j == last);
        }
    }
}

proof fn lemma_walk_in_level_order(
    procs: Seq<ProcessInfo>,
    found: Seq<u32>,
    up: Seq<int>,
    i: nat,
    steps: nat,
) -> (res: Seq<int>)
    requires
        distinct(procs),
        is_level_order(procs, found, up),
        forall|n: int| 1 <= n < found.len() ==> #[trigger] up[n] < i,
        found.len() > 0,
    ensures
        is_level_order(procs, breadth_walk(procs, found, i, steps), res),
    decreases steps,
{
    if steps == 0 || i >= found.len() {
        up
    } else {
        let p = found[i as int];
        let next = children(procs, p);
        let wider = found + next;
        let wider_up = up + Seq::new(next.len(), |n: int| i as int);
        lemma_children(procs, p);
        assert forall|n: int| 1 <= n < wider.len() implies 0 <= #[trigger] wider_up[n] < n
            && has_parent(procs, wider[n], wider[wider_up[n]]) by {
            if n < found.len() {
                assert(wider_up[n] == up[n]);
                assert(wider[n] == found[n] && wider[up[n]] == found[up[n]]);
            } else {
                let c = next[n - found.len()];
                assert(wider[n] == c && wider[i as int] == p);
                assert(next.contains(c));
                assert forall|j: int|
                    0 <= j < procs.len() && (#[trigger] procs[j]).pid == c implies procs[j].parent
                    == Some(p) by {
                    lemma_lookup_at(procs, j);
                }
            }
        }
        assert forall|a: int, b: int| 1 <= a < b < wider.len() implies #[trigger] wider_up[a]
            <= #[trigger] wider_up[b] && (wider_up[a] == wider_up[b] ==> stands_before(
            procs,
            wider[a],
            wider[b],
        )) by {
            let n = found.len();
            if b < n {
                assert(wider_up[a] == up[a] && wider_up[b] == up[b]);
            } else if a < n {
                assert(wider_up[a] == up[a]);
            } else {
                lemma_children_in_order(procs, p, a - n, b - n);
            }
        }
        assert forall|n: int| 1 <= n < wider.len() implies #[trigger] wider_up[n] < i + 1 by {
            if n < found.len() {
                assert(wider_up[n] == up[n]);
            }
        }
        lemma_walk_in_level_order(procs, wider, wider_up, i + 1, (steps - 1) as nat)
    }
}

/// The processes of a tree, and with them what each of them uses, are listed level by
/// level.
pub proof fn law_tree_is_listed_level_by_level(procs: Seq<ProcessInfo>, root: u32)
    requires
        distinct(procs),
    ensures
        exists|up: Seq<int>| is_level_order(procs, tree(procs, root), up),
{
    let up = lemma_walk_in_level_order(procs, seq![root], seq![0int], 0, procs.len());
    assert(is_level_order(procs, tree(procs, root), up));
}

} // verus!
