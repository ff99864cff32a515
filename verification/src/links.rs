//! Intrusive singly linked task queues.
//!
//! A queue is a head and a tail index; its members are linked through
//! [`Tcb::next`]. The mathematical view of a queue is the sequence of slots that
//! following the links from the head visits.
use vstd::prelude::*;
use crate::config::{NIL, TASK_SLOT_COUNT};
use crate::task::Tcb;

verus! {

/// The `next` links of all slots.
pub open spec fn links_of(tasks: Seq<Tcb>) -> Seq<usize> {
    Seq::new(tasks.len(), |i: int| tasks[i].next)
}

/// The slots visited by following at most `fuel` links from `head`.
pub open spec fn chain_from(links: Seq<usize>, head: usize, fuel: nat) -> Seq<usize>
    decreases fuel,
{
    if fuel == 0 || head >= links.len() {
        Seq::empty()
    } else {
        seq![head] + chain_from(links, links[head as int], (fuel - 1) as nat)
    }
}

/// The members of the queue that starts at `head`, in order.
pub open spec fn chain(tasks: Seq<Tcb>, head: usize) -> Seq<usize> {
    chain_from(links_of(tasks), head, tasks.len())
}

/// Following the links from `head` visits exactly `s` and then ends.
pub open spec fn is_path(links: Seq<usize>, head: usize, s: Seq<usize>) -> bool {
    &&& head == (if s.len() == 0 {
        NIL
    } else {
        s[0]
    })
    &&& forall|i: int|
        #![trigger s[i]]
        0 <= i < s.len() ==> s[i] < links.len() && links[s[i] as int] == (if i + 1 < s.len() {
            s[i + 1]
        } else {
            NIL
        })
}

/// `head` and `tail` delimit a queue with the members `s`.
pub open spec fn is_list(links: Seq<usize>, head: usize, tail: usize, s: Seq<usize>) -> bool {
    &&& is_path(links, head, s)
    &&& s.no_duplicates()
    &&& tail == (if s.len() == 0 {
        NIL
    } else {
        s.last()
    })
}

/// Only links changed, and only those of members of `s`.
pub open spec fn relinked(before: Seq<Tcb>, after: Seq<Tcb>, s: Seq<usize>) -> bool {
    &&& before.len() == after.len()
    &&& forall|i: int|
        #![trigger after[i]]
        0 <= i < after.len() ==> after[i].unlinked() == before[i].unlinked() && (!s.contains(
            i as usize,
        ) ==> after[i] == before[i])
}

/// How many leading members of `s` are served before a newcomer of `priority`.
pub open spec fn rank(tasks: Seq<Tcb>, s: Seq<usize>, priority: u8) -> nat
    decreases s.len(),
{
    if s.len() == 0 || tasks[s[0] as int].priority > priority {
        0
    } else {
        1 + rank(tasks, s.drop_first(), priority)
    }
}

/// `s` with `task` queued behind every member of the same or a better priority
/// that leads the queue.
pub open spec fn enqueued(tasks: Seq<Tcb>, s: Seq<usize>, task: usize) -> Seq<usize> {
    s.insert(rank(tasks, s, tasks[task as int].priority) as int, task)
}

/// `s` without `task`.
pub open spec fn without(s: Seq<usize>, task: usize) -> Seq<usize> {
    if s.contains(task) {
        s.remove(s.index_of(task))
    } else {
        s
    }
}

pub proof fn lemma_path_is_chain(links: Seq<usize>, head: usize, s: Seq<usize>, fuel: nat)
    requires
        is_path(links, head, s),
        s.len() <= fuel,
        links.len() <= NIL,
    ensures
        chain_from(links, head, fuel) == s,
    decreases s.len(),
{
    if s.len() == 0 {
        assert(chain_from(links, head, fuel) =~= s);
    } else {
        let rest = s.drop_first();
        let next = links[head as int];
        assert(is_path(links, next, rest)) by {
            assert(s[0] == head);
            assert forall|i: int| #![trigger rest[i]] 0 <= i < rest.len() implies rest[i]
                < links.len() && links[rest[i] as int] == (if i + 1 < rest.len() {
                rest[i + 1]
            } else {
                NIL
            }) by {
                assert(rest[i] == s[i + 1]);
            }
        }
        lemma_path_is_chain(links, next, rest, (fuel - 1) as nat);
        assert(seq![head] + rest =~= s);
    }
}

/// A sequence of distinct slots is no longer than the slot table.
pub proof fn lemma_distinct_len(s: Seq<usize>, bound: nat)
    requires
        s.no_duplicates(),
        forall|i: int| 0 <= i < s.len() ==> #[trigger] s[i] < bound,
    ensures
        s.len() <= bound,
    decreases bound,
{
    if bound == 0 {
        if s.len() > 0 {
            assert(s[0] < 0);
        }
    } else {
        let top = (bound - 1) as usize;
        if s.contains(top) && bound - 1 <= usize::MAX {
            let k = s.index_of(top);
            let t = s.remove(k);
            assert forall|i: int| 0 <= i < t.len() implies #[trigger] t[i] < bound - 1 by {
                let j = if i < k {
                    i
                } else {
                    i + 1
                };
                assert(t[i] == s[j]);
            }
            assert(t.no_duplicates()) by {
                assert forall|i: int, j: int| 0 <= i < t.len() && 0 <= j < t.len() && i
                    != j implies t[i] != t[j] by {
                    let a = if i < k {
                        i
                    } else {
                        i + 1
                    };
                    let b = if j < k {
                        j
                    } else {
                        j + 1
                    };
                    assert(t[i] == s[a] && t[j] == s[b]);
                }
            }
            lemma_distinct_len(t, (bound - 1) as nat);
        } else {
            assert forall|i: int| 0 <= i < s.len() implies #[trigger] s[i] < bound - 1 by {
                assert(s.contains(s[i]));
            }
            lemma_distinct_len(s, (bound - 1) as nat);
        }
    }
}

/// A well-formed queue is what its view says.
pub proof fn lemma_list_is_chain(tasks: Seq<Tcb>, head: usize, tail: usize, s: Seq<usize>)
    requires
        is_list(links_of(tasks), head, tail, s),
        tasks.len() <= NIL,
    ensures
        chain(tasks, head) == s,
        s.len() <= tasks.len(),
{
    lemma_distinct_len(s, tasks.len());
    lemma_path_is_chain(links_of(tasks), head, s, tasks.len());
}

/// A queue none of whose members was relinked stays the same queue.
pub proof fn lemma_list_untouched(
    before: Seq<Tcb>,
    after: Seq<Tcb>,
    head: usize,
    tail: usize,
    s: Seq<usize>,
)
    requires
        before.len() == after.len(),
        is_list(links_of(before), head, tail, s),
        forall|i: int|
            #![trigger s[i]]
            0 <= i < s.len() ==> after[s[i] as int].next == before[s[i] as int].next,
    ensures
        is_list(links_of(after), head, tail, s),
{
}

/// The rank counts exactly the leading members that are served first.
pub proof fn lemma_rank(tasks: Seq<Tcb>, s: Seq<usize>, priority: u8)
    ensures
        rank(tasks, s, priority) <= s.len(),
        forall|i: int|
            #![trigger s[i]]
            0 <= i < rank(tasks, s, priority) ==> tasks[s[i] as int].priority <= priority,
        rank(tasks, s, priority) < s.len() ==> tasks[s[rank(
            tasks,
            s,
            priority,
        ) as int] as int].priority > priority,
    decreases s.len(),
{
    if s.len() == 0 || tasks[s[0] as int].priority > priority {
    } else {
        let rest = s.drop_first();
        lemma_rank(tasks, rest, priority);
        assert forall|i: int| #![trigger s[i]] 0 <= i < rank(tasks, s, priority) implies tasks[s[i] as int].priority
            <= priority by {
            if i > 0 {
                assert(s[i] == rest[i - 1]);
            }
        }
        if rank(tasks, s, priority) < s.len() {
            assert(s[rank(tasks, s, priority) as int] == rest[rank(tasks, rest, priority) as int]);
        }
    }
}

/// Only one position separates the members served first from the rest.
pub proof fn lemma_rank_unique(tasks: Seq<Tcb>, s: Seq<usize>, priority: u8, k: int)
    requires
        0 <= k <= s.len(),
        forall|i: int| #![trigger s[i]] 0 <= i < k ==> tasks[s[i] as int].priority <= priority,
        k < s.len() ==> tasks[s[k] as int].priority > priority,
    ensures
        rank(tasks, s, priority) == k,
{
    lemma_rank(tasks, s, priority);
    let r = rank(tasks, s, priority) as int;
    if r < k {
        assert(tasks[s[r] as int].priority <= priority);
    } else if k < r {
        assert(tasks[s[k] as int].priority <= priority);
    }
}

/// The rank depends on the members' priorities alone.
pub proof fn lemma_rank_same(a: Seq<Tcb>, b: Seq<Tcb>, s: Seq<usize>, priority: u8)
    requires
        forall|i: int|
            #![trigger s[i]]
            0 <= i < s.len() ==> a[s[i] as int].priority == b[s[i] as int].priority,
    ensures
        rank(a, s, priority) == rank(b, s, priority),
{
    lemma_rank(a, s, priority);
    lemma_rank_unique(b, s, priority, rank(a, s, priority) as int);
}

/// What removing a member leaves.
pub proof fn lemma_without(s: Seq<usize>, task: usize)
    requires
        s.no_duplicates(),
    ensures
        without(s, task).no_duplicates(),
        !without(s, task).contains(task),
        forall|x: usize| x != task ==> (without(s, task).contains(x) <==> s.contains(x)),
        !s.contains(task) ==> without(s, task) == s,
        s.contains(task) ==> without(s, task).len() == s.len() - 1,
{
    if s.contains(task) {
        let k = s.index_of(task);
        let t = s.remove(k);
        assert forall|i: int, j: int| 0 <= i < t.len() && 0 <= j < t.len() && i != j implies t[i]
            != t[j] by {
            let a = if i < k {
                i
            } else {
                i + 1
            };
            let b = if j < k {
                j
            } else {
                j + 1
            };
            assert(t[i] == s[a] && t[j] == s[b]);
        }
        assert forall|i: int| 0 <= i < t.len() implies t[i] != task by {
            let a = if i < k {
                i
            } else {
                i + 1
            };
            assert(t[i] == s[a]);
        }
        assert forall|x: usize| x != task implies (t.contains(x) <==> s.contains(x)) by {
            if s.contains(x) {
                let j = s.index_of(x);
                if j < k {
                    assert(t[j] == x);
                } else {
                    assert(t[j - 1] == x);
                }
            }
            if t.contains(x) {
                let i = t.index_of(x);
                let a = if i < k {
                    i
                } else {
                    i + 1
                };
                assert(s[a] == x);
            }
        }
    }
}

/// What inserting a new member gives.
pub proof fn lemma_inserted(s: Seq<usize>, k: int, task: usize)
    requires
        0 <= k <= s.len(),
        s.no_duplicates(),
        !s.contains(task),
    ensures
        s.insert(k, task).no_duplicates(),
        forall|x: usize| s.insert(k, task).contains(x) <==> (x == task || s.contains(x)),
{
    let t = s.insert(k, task);
    assert forall|i: int, j: int| 0 <= i < t.len() && 0 <= j < t.len() && i != j implies t[i]
        != t[j] by {
        if i == k {
            let b = if j < k {
                j
            } else {
                j - 1
            };
            assert(t[j] == s[b]);
            assert(s.contains(s[b]));
        } else if j == k {
            let a = if i < k {
                i
            } else {
                i - 1
            };
            assert(t[i] == s[a]);
            assert(s.contains(s[a]));
        } else {
            let a = if i < k {
                i
            } else {
                i - 1
            };
            let b = if j < k {
                j
            } else {
                j - 1
            };
            assert(t[i] == s[a] && t[j] == s[b]);
        }
    }
    assert forall|x: usize| t.contains(x) <==> (x == task || s.contains(x)) by {
        if t.contains(x) {
            let i = t.index_of(x);
            if i != k {
                let a = if i < k {
                    i
                } else {
                    i - 1
                };
                assert(s[a] == x);
            }
        }
        if x == task {
            assert(t[k] == x);
        } else if s.contains(x) {
            let j = s.index_of(x);
            if j < k {
                assert(t[j] == x);
            } else {
                assert(t[j + 1] == x);
            }
        }
    }
}

/// Appending is inserting at the end.
pub proof fn lemma_appended(s: Seq<usize>, task: usize)
    requires
        s.no_duplicates(),
        !s.contains(task),
    ensures
        s.push(task).no_duplicates(),
        forall|x: usize| s.push(task).contains(x) <==> (x == task || s.contains(x)),
{
    assert(s.push(task) =~= s.insert(s.len() as int, task));
    lemma_inserted(s, s.len() as int, task);
}

/// What is left after the first member leaves.
pub proof fn lemma_drop_first(s: Seq<usize>)
    requires
        s.no_duplicates(),
        s.len() > 0,
    ensures
        s.drop_first().no_duplicates(),
        !s.drop_first().contains(s[0]),
        forall|x: usize| x != s[0] ==> (s.drop_first().contains(x) <==> s.contains(x)),
        s.drop_first() == without(s, s[0]),
{
    assert(s.contains(s[0]));
    assert(s.index_of(s[0]) == 0);
    assert(s.remove(0) =~= s.drop_first());
    lemma_without(s, s[0]);
}

/// Queues `node` at the end of a queue.
pub(crate) fn append(
    tasks: &mut [Tcb; TASK_SLOT_COUNT],
    head: usize,
    tail: usize,
    node: usize,
) -> (r: (usize, usize))
    requires
        node < TASK_SLOT_COUNT,
        is_list(links_of(old(tasks)@), head, tail, chain(old(tasks)@, head)),
        !chain(old(tasks)@, head).contains(node),
    ensures
        is_list(links_of(final(tasks)@), r.0, r.1, chain(old(tasks)@, head).push(node)),
        relinked(old(tasks)@, final(tasks)@, chain(old(tasks)@, head).push(node)),
{
    let ghost before = tasks@;
    let ghost s = chain(tasks@, head);
    let ghost t = s.push(node);
    tasks[node].next = NIL;
    let mut new_head: usize = head;
    if tail == NIL {
        new_head = node;
    } else {
        assert(s[s.len() - 1] == tail);
        tasks[tail].next = node;
    }
    proof {
        lemma_appended(s, node);
        assert forall|i: int| #![trigger t[i]] 0 <= i < t.len() implies t[i] < tasks@.len()
            && links_of(tasks@)[t[i] as int] == (if i + 1 < t.len() {
            t[i + 1]
        } else {
            NIL
        }) by {
            if i < s.len() {
                assert(t[i] == s[i]);
                assert(s.contains(s[i]));
                if i < s.len() - 1 {
                    assert(s[i] != s[s.len() - 1]);
                    assert(t[i + 1] == s[i + 1]);
                }
            }
        }
        if s.len() > 0 {
            assert(t[0] == s[0]);
        }
        assert forall|i: int| #![trigger tasks@[i]] 0 <= i < tasks@.len() implies tasks@[i].unlinked()
            == before[i].unlinked() && (!t.contains(i as usize) ==> tasks@[i] == before[i]) by {
            assert(t.contains(node)) by {
                assert(t[s.len() as int] == node);
            }
            if s.len() > 0 {
                assert(t[s.len() - 1] == tail);
            }
        }
    }
    (new_head, node)
}

/// Takes the first member off a non-empty queue.
pub(crate) fn take_first(
    tasks: &mut [Tcb; TASK_SLOT_COUNT],
    head: usize,
    tail: usize,
) -> (r: (usize, usize))
    requires
        is_list(links_of(old(tasks)@), head, tail, chain(old(tasks)@, head)),
        head != NIL,
    ensures
        chain(old(tasks)@, head).len() > 0,
        chain(old(tasks)@, head)[0] == head,
        is_list(links_of(final(tasks)@), r.0, r.1, chain(old(tasks)@, head).drop_first()),
        relinked(old(tasks)@, final(tasks)@, chain(old(tasks)@, head)),
{
    let ghost before = tasks@;
    let ghost s = chain(tasks@, head);
    let ghost t = s.drop_first();
    assert(s[0] == head);
    let new_head: usize = tasks[head].next;
    let mut new_tail: usize = tail;
    if new_head == NIL {
        new_tail = NIL;
    }
    tasks[head].next = NIL;
    proof {
        lemma_drop_first(s);
        if s.len() > 1 {
            assert(s[1] < NIL);
        }
        assert forall|i: int| #![trigger t[i]] 0 <= i < t.len() implies t[i] < tasks@.len()
            && links_of(tasks@)[t[i] as int] == (if i + 1 < t.len() {
            t[i + 1]
        } else {
            NIL
        }) by {
            assert(t[i] == s[i + 1]);
            assert(s[i + 1] != s[0]);
            if i + 1 < t.len() {
                assert(t[i + 1] == s[i + 2]);
            }
        }
        assert(s.contains(head));
    }
    (new_head, new_tail)
}

/// Takes `node` off a queue, if it is a member.
pub(crate) fn remove(
    tasks: &mut [Tcb; TASK_SLOT_COUNT],
    head: usize,
    tail: usize,
    node: usize,
) -> (r: (usize, usize, bool))
    requires
        is_list(links_of(old(tasks)@), head, tail, chain(old(tasks)@, head)),
        node < TASK_SLOT_COUNT,
    ensures
        r.2 == chain(old(tasks)@, head).contains(node),
        is_list(links_of(final(tasks)@), r.0, r.1, without(chain(old(tasks)@, head), node)),
        relinked(old(tasks)@, final(tasks)@, chain(old(tasks)@, head)),
{
    let ghost before = tasks@;
    let ghost s = chain(tasks@, head);
    let mut previous: usize = NIL;
    let mut current: usize = head;
    let ghost mut k: int = 0;
    while current != NIL
        invariant
            before == tasks@,
            s == chain(before, head),
            is_list(links_of(before), head, tail, s),
            0 <= k <= s.len(),
            current == (if k < s.len() {
                s[k]
            } else {
                NIL
            }),
            previous == (if k > 0 {
                s[k - 1]
            } else {
                NIL
            }),
            forall|i: int| 0 <= i < k ==> s[i] != node,
            node < TASK_SLOT_COUNT,
            before == old(tasks)@,
        decreases s.len() - k,
    {
        assert(s[k] < TASK_SLOT_COUNT);
        if current == node {
            let next: usize = tasks[current].next;
            let mut new_head: usize = head;
            if previous == NIL {
                new_head = next;
            } else {
                assert(s[k - 1] < TASK_SLOT_COUNT);
                tasks[previous].next = next;
            }
            let mut new_tail: usize = tail;
            if tail == current {
                new_tail = previous;
            }
            tasks[current].next = NIL;
            proof {
                assert(s.contains(node));
                assert(s.index_of(node) == k);
                let t = s.remove(k);
                lemma_without(s, node);
                if k > 0 {
                    assert(s[k - 1] != s[k]);
                    assert(s[k - 1] < TASK_SLOT_COUNT);
                    assert(t[0] == s[0]);
                }
                assert forall|i: int| #![trigger t[i]] 0 <= i < t.len() implies t[i] < tasks@.len()
                    && links_of(tasks@)[t[i] as int] == (if i + 1 < t.len() {
                    t[i + 1]
                } else {
                    NIL
                }) by {
                    if i < k {
                        assert(t[i] == s[i]);
                        assert(s[i] != s[k]);
                        if i < k - 1 {
                            assert(s[i] != s[k - 1]);
                            assert(t[i + 1] == s[i + 1]);
                        } else if i + 1 < t.len() {
                            assert(t[i + 1] == s[i + 2]);
                        }
                    } else {
                        assert(t[i] == s[i + 1]);
                        assert(s[i + 1] != s[k]);
                        if k > 0 {
                            assert(s[i + 1] != s[k - 1]);
                        }
                        if i + 1 < t.len() {
                            assert(t[i + 1] == s[i + 2]);
                        }
                    }
                }
                if k == s.len() - 1 {
                    if k > 0 {
                        assert(t.last() == s[k - 1]);
                    }
                } else {
                    assert(s[s.len() - 1] != s[k]);
                    assert(t.last() == s.last());
                    assert(s[k + 1] < TASK_SLOT_COUNT);
                    if k == 0 {
                        assert(t[0] == s[1]);
                    }
                }
                assert forall|i: int| #![trigger tasks@[i]] 0 <= i < tasks@.len() implies tasks@[i].unlinked()
                    == before[i].unlinked() && (!s.contains(i as usize) ==> tasks@[i]
                    == before[i]) by {
                    if k > 0 {
                        assert(s.contains(s[k - 1]));
                    }
                }
            }
            return (new_head, new_tail, true);
        }
        previous = current;
        current = tasks[current].next;
        proof {
            k = k + 1;
        }
    }
    proof {
        assert(k == s.len()) by {
            if k < s.len() {
                assert(s[k] < links_of(before).len());
            }
        }
        assert(!s.contains(node));
    }
    (head, tail, false)
}

/// Linking `node` in at position `k` of a queue.
proof fn lemma_linked_in(
    before: Seq<usize>,
    after: Seq<usize>,
    head: usize,
    tail: usize,
    s: Seq<usize>,
    k: int,
    node: usize,
)
    requires
        is_list(before, head, tail, s),
        before.len() < NIL,
        0 <= k <= s.len(),
        node < before.len(),
        !s.contains(node),
        after.len() == before.len(),
        after[node as int] == (if k < s.len() {
            s[k]
        } else {
            NIL
        }),
        k > 0 ==> after[s[k - 1] as int] == node,
        forall|i: int|
            #![trigger after[i]]
            0 <= i < after.len() && i != node && (k == 0 || i != s[k - 1]) ==> after[i]
                == before[i],
    ensures
        is_list(
            after,
            (if k == 0 {
                node
            } else {
                head
            }),
            (if k == s.len() {
                node
            } else {
                tail
            }),
            s.insert(k, node),
        ),
{
    let t = s.insert(k, node);
    lemma_inserted(s, k, node);
    assert forall|i: int| #![trigger t[i]] 0 <= i < t.len() implies t[i] < after.len()
        && after[t[i] as int] == (if i + 1 < t.len() {
        t[i + 1]
    } else {
        NIL
    }) by {
        if i < k {
            assert(t[i] == s[i]);
            assert(s.contains(s[i]));
            if i < k - 1 {
                assert(s[i] != s[k - 1]);
                assert(t[i + 1] == s[i + 1]);
            } else {
                assert(t[i + 1] == node);
            }
        } else if i == k {
            assert(t[i] == node);
            if i + 1 < t.len() {
                assert(t[i + 1] == s[i]);
            }
        } else {
            assert(t[i] == s[i - 1]);
            assert(s.contains(s[i - 1]));
            if k > 0 {
                assert(s[i - 1] != s[k - 1]);
            }
            if i + 1 < t.len() {
                assert(t[i + 1] == s[i]);
            }
        }
    }
    if k > 0 {
        assert(t[0] == s[0]);
    } else {
        assert(t[0] == node);
    }
    if k < s.len() {
        assert(t.last() == s.last());
    } else {
        assert(t.last() == node);
    }
}

/// Queues `node` by priority, first come first served among equals.
#[verifier::spinoff_prover]
#[verifier::rlimit(50)]
pub(crate) fn enqueue(
    tasks: &mut [Tcb; TASK_SLOT_COUNT],
    head: usize,
    tail: usize,
    node: usize,
) -> (r: (usize, usize))
    requires
        is_list(links_of(old(tasks)@), head, tail, chain(old(tasks)@, head)),
        node < TASK_SLOT_COUNT,
        !chain(old(tasks)@, head).contains(node),
    ensures
        is_list(
            links_of(final(tasks)@),
            r.0,
            r.1,
            enqueued(old(tasks)@, chain(old(tasks)@, head), node),
        ),
        relinked(old(tasks)@, final(tasks)@, chain(old(tasks)@, head).push(node)),
{
    let ghost before = tasks@;
    let ghost s = chain(tasks@, head);
    let priority: u8 = tasks[node].priority;
    let mut previous: usize = NIL;
    let mut current: usize = head;
    let ghost mut k: int = 0;
    while current != NIL && tasks[current].priority <= priority
        invariant
            before == tasks@,
            s == chain(before, head),
            is_list(links_of(before), head, tail, s),
            0 <= k <= s.len(),
            current == (if k < s.len() {
                s[k]
            } else {
                NIL
            }),
            previous == (if k > 0 {
                s[k - 1]
            } else {
                NIL
            }),
            forall|i: int| #![trigger s[i]] 0 <= i < k ==> before[s[i] as int].priority <= priority,
            current != NIL ==> current < TASK_SLOT_COUNT,
        decreases s.len() - k,
    {
        assert(s[k] < TASK_SLOT_COUNT);
        previous = current;
        current = tasks[current].next;
        proof {
            k = k + 1;
            if k < s.len() {
                assert(s[k] < links_of(before).len());
            }
        }
    }
    proof {
        if k < s.len() {
            assert(s[k] < links_of(before).len());
        }
        lemma_rank_unique(before, s, priority, k);
        lemma_inserted(s, k, node);
    }
    tasks[node].next = current;
    let mut new_head: usize = head;
    if previous == NIL {
        new_head = node;
    } else {
        assert(s[k - 1] < TASK_SLOT_COUNT);
        tasks[previous].next = node;
    }
    let mut new_tail: usize = tail;
    if current == NIL {
        new_tail = node;
    }
    proof {
        lemma_linked_in(links_of(before), links_of(tasks@), head, tail, s, k, node);
        let p = s.push(node);
        assert forall|i: int| #![trigger tasks@[i]] 0 <= i < tasks@.len() implies tasks@[i].unlinked()
            == before[i].unlinked() && (!p.contains(i as usize) ==> tasks@[i] == before[i]) by {
            assert(p[s.len() as int] == node);
            if k > 0 {
                assert(p[k - 1] == s[k - 1]);
            }
        }
    }
    (new_head, new_tail)
}

/// Whether `node` is a member of the queue that starts at `head`.
pub(crate) fn is_member(
    tasks: &[Tcb; TASK_SLOT_COUNT],
    head: usize,
    tail: usize,
    node: usize,
) -> (r: bool)
    requires
        is_list(links_of(tasks@), head, tail, chain(tasks@, head)),
    ensures
        r == chain(tasks@, head).contains(node),
{
    let ghost s = chain(tasks@, head);
    let mut current: usize = head;
    let ghost mut k: int = 0;
    while current != NIL
        invariant
            s == chain(tasks@, head),
            is_list(links_of(tasks@), head, tail, s),
            0 <= k <= s.len(),
            current == (if k < s.len() {
                s[k]
            } else {
                NIL
            }),
            forall|i: int| 0 <= i < k ==> s[i] != node,
        decreases s.len() - k,
    {
        assert(s[k] < TASK_SLOT_COUNT);
        if current == node {
            assert(s.contains(node));
            return true;
        }
        current = tasks[current].next;
        proof {
            k = k + 1;
        }
    }
    proof {
        if k < s.len() {
            assert(s[k] < links_of(tasks@).len());
        }
    }
    false
}

} // verus!
