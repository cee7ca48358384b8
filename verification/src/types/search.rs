use vstd::prelude::*;
use crate::types::cycle::is_cycle;
use crate::types::cycle::is_trail;
use crate::types::cycle::member_cycle;
use crate::types::cycle::members_on;
use crate::types::cycle::no_member_cycle_from;
use crate::types::cycle::no_cycle_from;
use crate::types::graph::known;
use crate::types::graph::Graph;
use crate::types::ledger::Ledger;
use crate::types::netting::members_only;
use crate::types::user::UserId;

verus! {

/// A node that waits to be expanded, with the trail that led to it from the
/// node the search began at.
pub struct Frame {
    pub node: usize,
    pub path: Vec<usize>,
}

/// The party `x` owes the party `s` on some edge.
pub open spec fn closes(ledgers: Seq<Ledger>, x: UserId, s: UserId) -> bool {
    exists|r: int|
        0 <= r < ledgers.len() && (#[trigger] ledgers[r]).is_edge() && ledgers[r].borrower == x
            && ledgers[r].owes == s
}

/// The number of nodes that the search has not come to.
pub open spec fn unvisited(visited: Seq<bool>) -> nat
    decreases visited.len(),
{
    if visited.len() == 0 {
        0
    } else {
        unvisited(visited.drop_last()) + if visited.last() {
            0nat
        } else {
            1nat
        }
    }
}

proof fn lemma_visit(visited: Seq<bool>, h: int)
    requires
        0 <= h < visited.len(),
        !visited[h],
    ensures
        unvisited(visited.update(h, true)) + 1 == unvisited(visited),
    decreases visited.len(),
{
    let after = visited.update(h, true);
    if h == visited.len() - 1 {
        assert(after.drop_last() =~= visited.drop_last());
    } else {
        lemma_visit(visited.drop_last(), h);
        assert(after.drop_last() =~= visited.drop_last().update(h, true));
    }
}

/// Some frame of the stack holds the node `h`.
spec fn on_stack(stack: Seq<Frame>, h: int) -> bool {
    exists|f: int| 0 <= f < stack.len() && (#[trigger] stack[f]).node == h
}

impl Graph {
    /// The search has come to the node of the party `x`.
    spec fn marked(&self, visited: Seq<bool>, x: UserId) -> bool {
        exists|h: int|
            0 <= h < self.nodes@.len() && (#[trigger] self.nodes@[h]).user_id == x && visited[h]
    }

    /// The search has looked at the edge `e`: if the party it is owed to has
    /// a node, the search has come to that node, and the party does not owe
    /// `s`.
    spec fn scanned(&self, visited: Seq<bool>, s: UserId, e: int) -> bool {
        forall|nb: int|
            0 <= nb < self.nodes@.len() && (#[trigger] self.nodes@[nb]).user_id
                == self.ledgers@[e].owes ==> visited[nb] && !closes(
                self.ledgers@,
                self.ledgers@[e].owes,
                s,
            )
    }

    /// The search has looked at every edge on which the party of the node `h`
    /// owes.
    spec fn expanded(&self, visited: Seq<bool>, s: UserId, h: int) -> bool {
        forall|e: int|
            0 <= e < self.ledgers@.len() && (#[trigger] self.ledgers@[e]).is_edge()
                && self.ledgers@[e].borrower == self.nodes@[h].user_id ==> self.scanned(
                visited,
                s,
                e,
            )
    }

    /// The frame holds a node that the search has come to, and a trail from
    /// `s` to the party of that node through parties whose nodes the search
    /// has come to.
    spec fn frame_ok(&self, visited: Seq<bool>, s: UserId, frame: Frame) -> bool {
        let path = frame.path@;
        &&& frame.node < self.nodes@.len()
        &&& visited[frame.node as int]
        &&& is_trail(self.ledgers@, path)
        &&& path.len() == 0 ==> self.nodes@[frame.node as int].user_id == s
        &&& path.len() > 0 ==> self.ledgers@[path[0] as int].borrower == s
            && self.ledgers@[path.last() as int].owes == self.nodes@[frame.node as int].user_id
        &&& forall|i: int|
            0 <= i < path.len() ==> self.ledgers@[(#[trigger] path[i]) as int].borrower
                != self.nodes@[frame.node as int].user_id && self.marked(
                visited,
                self.ledgers@[path[i] as int].borrower,
            )
    }

    /// What holds all through a search from the party `s`: no party whose
    /// node the search has come to owes `s`; every such node waits on the
    /// stack, is being expanded (`current`), or has been expanded; and every
    /// frame of the stack is in order.
    spec fn search_ok(
        &self,
        visited: Seq<bool>,
        s: UserId,
        stack: Seq<Frame>,
        current: int,
    ) -> bool {
        &&& visited.len() == self.nodes@.len()
        &&& forall|h: int|
            0 <= h < self.nodes@.len() && #[trigger] visited[h] ==> !closes(
                self.ledgers@,
                self.nodes@[h].user_id,
                s,
            )
        &&& forall|h: int|
            0 <= h < self.nodes@.len() && #[trigger] visited[h] ==> h == current || on_stack(
                stack,
                h,
            ) || self.expanded(visited, s, h)
        &&& forall|f: int| 0 <= f < stack.len() ==> self.frame_ok(visited, s, #[trigger] stack[f])
    }

    /// Coming to one more node leaves a frame in order.
    proof fn lemma_frame_stays(&self, visited: Seq<bool>, s: UserId, frame: Frame, nb: int)
        requires
            self.frame_ok(visited, s, frame),
            visited.len() == self.nodes@.len(),
            0 <= nb < visited.len(),
        ensures
            self.frame_ok(visited.update(nb, true), s, frame),
    {
        let after = visited.update(nb, true);
        let path = frame.path@;
        assert forall|i: int| 0 <= i < path.len() implies self.marked(
            after,
            self.ledgers@[(#[trigger] path[i]) as int].borrower,
        ) by {
            let x = self.ledgers@[path[i] as int].borrower;
            assert(self.marked(visited, x));
            let h = choose|h: int|
                0 <= h < self.nodes@.len() && (#[trigger] self.nodes@[h]).user_id == x
                    && visited[h];
            assert(after[h]);
        }
    }

    /// Coming to one more node leaves an expanded node expanded.
    proof fn lemma_expanded_stays(&self, visited: Seq<bool>, s: UserId, h: int, nb: int)
        requires
            self.expanded(visited, s, h),
            visited.len() == self.nodes@.len(),
            0 <= nb < visited.len(),
        ensures
            self.expanded(visited.update(nb, true), s, h),
    {
        let after = visited.update(nb, true);
        assert forall|e: int|
            0 <= e < self.ledgers@.len() && (#[trigger] self.ledgers@[e]).is_edge()
                && self.ledgers@[e].borrower == self.nodes@[h].user_id implies self.scanned(
            after,
            s,
            e,
        ) by {
            assert(self.scanned(visited, s, e));
            assert forall|n: int|
                0 <= n < self.nodes@.len() && (#[trigger] self.nodes@[n]).user_id
                    == self.ledgers@[e].owes implies after[n] && !closes(
                self.ledgers@,
                self.ledgers@[e].owes,
                s,
            ) by {
                assert(visited[n]);
            }
        }
    }

    /// The trail of a frame, with an edge of the frame's party and an edge on
    /// which the next party owes `s`, is a closed chain of debt from `s`.
    #[verifier::rlimit(40)]
    proof fn lemma_closed(
        &self,
        visited: Seq<bool>,
        s: UserId,
        stack: Seq<Frame>,
        frame: Frame,
        e: usize,
        r: usize,
    )
        requires
            self.search_ok(visited, s, stack, frame.node as int),
            self.frame_ok(visited, s, frame),
            e < self.ledgers@.len(),
            self.ledgers@[e as int].is_edge(),
            self.ledgers@[e as int].borrower == self.nodes@[frame.node as int].user_id,
            r < self.ledgers@.len(),
            self.ledgers@[r as int].is_edge(),
            self.ledgers@[r as int].borrower == self.ledgers@[e as int].owes,
            self.ledgers@[r as int].owes == s,
            self.has_node(self.ledgers@[r as int].borrower),
        ensures
            is_cycle(self.ledgers@, frame.path@.push(e).push(r)),
            self.ledgers@[frame.path@.push(e).push(r)[0] as int].borrower == s,
            forall|t: int|
                0 <= t < frame.path@.push(e).push(r).len() ==> self.has_node(
                    self.ledgers@[(#[trigger] frame.path@.push(e).push(r)[t]) as int].borrower,
                ),
    {
        let ledgers = self.ledgers@;
        let path = frame.path@;
        let n = path.len() as int;
        let trail = path.push(e).push(r);
        assert(trail[n] == e && trail[n + 1] == r);
        assert(forall|i: int| 0 <= i < n ==> trail[i] == path[i]);
        assert forall|i: int| 0 <= i < trail.len() implies (#[trigger] trail[i]) < ledgers.len()
            && ledgers[trail[i] as int].is_edge() by {
            if i < n {
                assert(path[i] < ledgers.len());
            }
        }
        assert forall|i: int| 0 <= i < trail.len() - 1 implies ledgers[(
        #[trigger] trail[i]) as int].owes == ledgers[trail[i + 1] as int].borrower by {
            if i < n - 1 {
                assert(ledgers[path[i] as int].owes == ledgers[path[i + 1] as int].borrower);
            } else if i == n - 1 {
                assert(path.last() == path[i]);
            }
        }
        assert forall|i: int, j: int| 0 <= i < j < trail.len() implies ledgers[(
        #[trigger] trail[i]) as int].borrower != ledgers[(#[trigger] trail[j]) as int].borrower by {
            if j < n {
                assert(ledgers[path[i] as int].borrower != ledgers[path[j] as int].borrower);
            } else if j == n {
                assert(ledgers[path[i] as int].borrower != self.nodes@[frame.node as int].user_id);
            } else if i < n {
                let x = ledgers[path[i] as int].borrower;
                assert(self.marked(visited, x));
                let h = choose|h: int|
                    0 <= h < self.nodes@.len() && (#[trigger] self.nodes@[h]).user_id == x
                        && visited[h];
                assert(!closes(ledgers, x, s));
                assert(ledgers[r as int].is_edge());
            }
        }
        if n > 0 {
            assert(trail[0] == path[0]);
        }
        assert forall|t: int| 0 <= t < trail.len() implies self.has_node(
            ledgers[(#[trigger] trail[t]) as int].borrower,
        ) by {
            if t < n {
                let x = ledgers[path[t] as int].borrower;
                assert(self.marked(visited, x));
                let h = choose|h: int|
                    0 <= h < self.nodes@.len() && (#[trigger] self.nodes@[h]).user_id == x
                        && visited[h];
            } else if t == n {
                let _ = self.nodes@[frame.node as int];
            }
        }
    }

    /// The search tells a closed chain of debt that begins at `start`, if
    /// there is one: it goes from party to party along the edges, depth
    /// first, until it meets a party that owes the party of `start`.
    #[verifier::rlimit(60)]
    pub fn find_cycle(&self, start: usize) -> (found: Option<Vec<usize>>)
        requires
            self.wf(),
            start < self.nodes@.len(),
        ensures
            match found {
                Some(trail) => is_cycle(self.ledgers@, trail@) && self.ledgers@[trail@[0] as int].borrower
                    == self.nodes@[start as int].user_id && members_on(
                    self.users@,
                    self.ledgers@,
                    trail@,
                ),
                None => no_member_cycle_from(
                    self.users@,
                    self.ledgers@,
                    self.nodes@[start as int].user_id,
                ) && (members_only(self.users@, self.ledgers@) ==> no_cycle_from(
                    self.ledgers@,
                    self.nodes@[start as int].user_id,
                )),
            },
    {
        let s = self.nodes[start].user_id;
        let mut visited: Vec<bool> = Vec::new();
        while visited.len() < self.nodes.len()
            invariant
                visited@.len() <= self.nodes@.len(),
                forall|h: int| 0 <= h < visited@.len() ==> !visited@[h],
            decreases self.nodes@.len() - visited@.len(),
        {
            visited.push(false);
        }
        visited[start] = true;
        let mut stack: Vec<Frame> = Vec::new();
        stack.push(Frame { node: start, path: Vec::new() });
        proof {
            assert(!closes(self.ledgers@, s, s));
            assert(stack@[0].node == start);
            assert(self.frame_ok(visited@, s, stack@[0]));
        }
        while stack.len() > 0
            invariant
                self.wf(),
                start < self.nodes@.len(),
                s == self.nodes@[start as int].user_id,
                visited@[start as int],
                self.search_ok(visited@, s, stack@, -1),
            decreases unvisited(visited@) + stack@.len(),
        {
            let ghost stack_before = stack@;
            let frame = stack.pop().unwrap();
            let ghost bound = unvisited(visited@) + stack@.len();
            proof {
                assert(frame == stack_before[stack_before.len() - 1]);
                assert forall|h: int|
                    0 <= h < self.nodes@.len() && #[trigger] visited@[h] implies h
                    == frame.node as int || on_stack(stack@, h) || self.expanded(
                    visited@,
                    s,
                    h,
                ) by {
                    if on_stack(stack_before, h) {
                        let f = choose|f: int|
                            0 <= f < stack_before.len() && (#[trigger] stack_before[f]).node == h;
                        if f < stack@.len() {
                            assert(stack@[f] == stack_before[f]);
                        }
                    }
                }
                assert forall|f: int| 0 <= f < stack@.len() implies self.frame_ok(
                    visited@,
                    s,
                    #[trigger] stack@[f],
                ) by {
                    assert(stack@[f] == stack_before[f]);
                }
            }
            if let Some(current) = self.find_node(frame.node) {
                assert(current == frame.node) by {
                    reveal(Graph::wf);
                }
                let mut j: usize = 0;
                while j < self.nodes[current].connections.len()
                    invariant
                        self.wf(),
                        start < self.nodes@.len(),
                        s == self.nodes@[start as int].user_id,
                        visited@[start as int],
                        current == frame.node,
                        current < self.nodes@.len(),
                        self.search_ok(visited@, s, stack@, current as int),
                        self.frame_ok(visited@, s, frame),
                        unvisited(visited@) + stack@.len() == bound,
                        j <= self.nodes@[current as int].connections@.len(),
                        forall|m: int|
                            0 <= m < j ==> {
                                let e = (#[trigger] self.nodes@[current as int].connections@[m]) as int;
                                self.ledgers@[e].is_edge() ==> self.scanned(visited@, s, e)
                            },
                    decreases self.nodes@[current as int].connections@.len() - j,
                {
                    let e = self.nodes[current].connections[j];
                    assert(e < self.ledgers@.len() && self.ledgers@[e as int].borrower
                        == self.nodes@[current as int].user_id) by {
                        reveal(Graph::wf);
                    }
                    let ghost seen = visited@;
                    let ghost waiting = stack@;
                    if let Some(ledger) = self.edge_at(e) {
                        if let Some(nb) = self.find_node_by_user(&ledger.owes) {
                            // the loop is closed if the neighbour owes the party the search began at
                            if let Some(r) = self.find_edge(ledger.owes, s) {
                                let mut trail = copy_path(&frame.path);
                                trail.push(e);
                                trail.push(r);
                                proof {
                                    self.lemma_closed(visited@, s, stack@, frame, e, r);
                                    assert forall|t: int| 0 <= t < trail@.len() implies known(
                                        self.users@,
                                        self.ledgers@[(#[trigger] trail@[t]) as int].borrower,
                                    ) by {
                                        let x = self.ledgers@[trail@[t] as int].borrower;
                                        assert(self.has_node(x));
                                        let h = choose|h: int|
                                            0 <= h < self.nodes@.len() && (
                                            #[trigger] self.nodes@[h]).user_id == x;
                                        assert(known(self.users@, self.nodes@[h].user_id)) by {
                                            reveal(Graph::wf);
                                        }
                                    }
                                }
                                return Some(trail);
                            }
                            proof {
                                assert(self.has_node(ledger.owes)) by {
                                    let _ = self.nodes@[nb as int];
                                }
                                assert(!closes(self.ledgers@, ledger.owes, s));
                                assert forall|n: int|
                                    0 <= n < self.nodes@.len() && (
                                    #[trigger] self.nodes@[n]).user_id
                                        == ledger.owes implies n == nb by {
                                    reveal(Graph::wf);
                                    let _ = self.nodes@[nb as int];
                                }
                            }
                            if !visited[nb] {
                                let mut path = copy_path(&frame.path);
                                path.push(e);
                                visited[nb] = true;
                                let next = Frame { node: nb, path };
                                stack.push(next);
                                proof {
                                    assert(visited@ == seen.update(nb as int, true));
                                    lemma_visit(seen, nb as int);
                                    self.lemma_pushed(seen, s, waiting, frame, e, nb as int, next);
                                    assert(stack@ == waiting.push(next));
                                    self.lemma_frame_stays(seen, s, frame, nb as int);
                                }
                            }
                        }
                    }
                    proof {
                        assert forall|m: int| 0 <= m < j + 1 implies {
                            let e = (#[trigger] self.nodes@[current as int].connections@[m]) as int;
                            self.ledgers@[e].is_edge() ==> self.scanned(visited@, s, e)
                        } by {
                            let c = self.nodes@[current as int].connections@[m] as int;
                            if m < j && self.ledgers@[c].is_edge() {
                                assert(self.scanned(seen, s, c));
                                assert forall|n: int|
                                    0 <= n < self.nodes@.len() && (
                                    #[trigger] self.nodes@[n]).user_id
                                        == self.ledgers@[c].owes implies visited@[n] && !closes(
                                    self.ledgers@,
                                    self.ledgers@[c].owes,
                                    s,
                                ) by {
                                    assert(seen[n]);
                                }
                            }
                        }
                    }
                    j += 1;
                }
                proof {
                    assert(self.expanded(visited@, s, current as int)) by {
                        assert forall|e: int|
                            0 <= e < self.ledgers@.len() && (#[trigger] self.ledgers@[e]).is_edge()
                                && self.ledgers@[e].borrower
                                == self.nodes@[current as int].user_id implies self.scanned(
                            visited@,
                            s,
                            e,
                        ) by {
                            let node = self.nodes@[current as int];
                            assert(node.connections@.contains(e as usize) && self.ledgers@.len()
                                <= usize::MAX) by {
                                reveal(Graph::wf);
                            }
                            let m = choose|m: int|
                                0 <= m < node.connections@.len() && node.connections@[m]
                                    == e as usize;
                            assert(self.nodes@[current as int].connections@[m] as int == e);
                        }
                    }
                }
            } else {
                proof {
                    assert(self.nodes@[frame.node as int].id == frame.node) by {
                        reveal(Graph::wf);
                    }
                }
            }
        }
        proof {
            assert forall|trail: Seq<usize>| #[trigger]
                member_cycle(self.users@, self.ledgers@, trail)
                implies self.ledgers@[trail[0] as int].borrower != s by {
                self.lemma_unreached(visited@, s, start as int, trail);
            }
            if members_only(self.users@, self.ledgers@) {
                assert forall|trail: Seq<usize>| #[trigger]
                    is_cycle(self.ledgers@, trail) implies self.ledgers@[trail[0] as int].borrower
                    != s by {
                    assert forall|t: int| 0 <= t < trail.len() implies known(
                        self.users@,
                        self.ledgers@[(#[trigger] trail[t]) as int].borrower,
                    ) by {
                        assert(self.ledgers@[trail[t] as int].is_edge());
                    }
                    self.lemma_unreached(visited@, s, start as int, trail);
                }
            }
        }
        None
    }

    /// What the search keeps when it comes to a node and puts it on the
    /// stack.
    #[verifier::rlimit(40)]
    proof fn lemma_pushed(
        &self,
        seen: Seq<bool>,
        s: UserId,
        waiting: Seq<Frame>,
        frame: Frame,
        e: usize,
        nb: int,
        next: Frame,
    )
        requires
            self.wf(),
            self.search_ok(seen, s, waiting, frame.node as int),
            self.frame_ok(seen, s, frame),
            e < self.ledgers@.len(),
            self.ledgers@[e as int].is_edge(),
            self.ledgers@[e as int].borrower == self.nodes@[frame.node as int].user_id,
            0 <= nb < self.nodes@.len(),
            self.nodes@[nb].user_id == self.ledgers@[e as int].owes,
            !seen[nb],
            !closes(self.ledgers@, self.ledgers@[e as int].owes, s),
            next.node == nb,
            next.path@ == frame.path@.push(e),
        ensures
            self.search_ok(seen.update(nb, true), s, waiting.push(next), frame.node as int),
    {
        let ledgers = self.ledgers@;
        let visited = seen.update(nb, true);
        let stack = waiting.push(next);
        let old_path = frame.path@;
        let path = next.path@;
        let n = old_path.len() as int;
        assert(path[n] == e);
        assert(forall|i: int| 0 <= i < n ==> path[i] == old_path[i]);
        assert(is_trail(ledgers, path)) by {
            assert forall|i: int| 0 <= i < path.len() implies (#[trigger] path[i]) < ledgers.len()
                && ledgers[path[i] as int].is_edge() by {
                if i < n {
                    assert(old_path[i] < ledgers.len());
                }
            }
            assert forall|i: int| 0 <= i < path.len() - 1 implies ledgers[(
            #[trigger] path[i]) as int].owes == ledgers[path[i + 1] as int].borrower by {
                if i < n - 1 {
                    assert(ledgers[old_path[i] as int].owes == ledgers[old_path[i + 1] as int].borrower);
                } else {
                    assert(old_path.last() == old_path[i]);
                }
            }
            assert forall|i: int, j: int| 0 <= i < j < path.len() implies ledgers[(
            #[trigger] path[i]) as int].borrower != ledgers[(#[trigger] path[j]) as int].borrower by {
                if j < n {
                    assert(ledgers[old_path[i] as int].borrower != ledgers[old_path[j] as int].borrower);
                } else {
                    assert(ledgers[old_path[i] as int].borrower
                        != self.nodes@[frame.node as int].user_id);
                }
            }
        }
        assert(self.frame_ok(visited, s, next)) by {
            if n > 0 {
                assert(path[0] == old_path[0]);
            }
            assert forall|i: int| 0 <= i < path.len() implies ledgers[(
            #[trigger] path[i]) as int].borrower != self.nodes@[nb].user_id && self.marked(
                visited,
                ledgers[path[i] as int].borrower,
            ) by {
                let x = ledgers[path[i] as int].borrower;
                if i < n {
                    assert(self.marked(seen, ledgers[old_path[i] as int].borrower));
                    let h = choose|h: int|
                        0 <= h < self.nodes@.len() && (#[trigger] self.nodes@[h]).user_id == x
                            && seen[h];
                    assert(visited[h]);
                    if x == self.nodes@[nb].user_id {
                        assert(h == nb) by {
                            reveal(Graph::wf);
                        }
                    }
                } else {
                    let h = frame.node as int;
                    assert(self.nodes@[h].user_id == x && visited[h]);
                }
            }
        }
        assert forall|f: int| 0 <= f < stack.len() implies self.frame_ok(
            visited,
            s,
            #[trigger] stack[f],
        ) by {
            if f < waiting.len() {
                assert(stack[f] == waiting[f]);
                self.lemma_frame_stays(seen, s, waiting[f], nb);
            }
        }
        assert forall|h: int| 0 <= h < self.nodes@.len() && #[trigger] visited[h] implies h
            == frame.node as int || on_stack(stack, h) || self.expanded(visited, s, h) by {
            if h == nb {
                assert(stack[waiting.len() as int].node == nb);
            } else {
                assert(seen[h]);
                if on_stack(waiting, h) {
                    let f = choose|f: int|
                        0 <= f < waiting.len() && (#[trigger] waiting[f]).node == h;
                    assert(stack[f] == waiting[f]);
                } else if h != frame.node as int {
                    self.lemma_expanded_stays(seen, s, h, nb);
                }
            }
        }
        assert forall|h: int| 0 <= h < self.nodes@.len() && #[trigger] visited[h] implies !closes(
            ledgers,
            self.nodes@[h].user_id,
            s,
        ) by {
            if h != nb {
                assert(seen[h]);
            }
        }
    }

    /// Where the search has expanded every node it has come to, the first
    /// `upto + 1` parties of a closed chain of debt from `s` all have nodes
    /// that the search has come to.
    proof fn lemma_reached(
        &self,
        visited: Seq<bool>,
        s: UserId,
        start: int,
        trail: Seq<usize>,
        upto: int,
    )
        requires
            self.wf(),
            members_on(self.users@, self.ledgers@, trail),
            0 <= start < self.nodes@.len(),
            self.nodes@[start].user_id == s,
            visited[start],
            self.search_ok(visited, s, Seq::<Frame>::empty(), -1),
            is_cycle(self.ledgers@, trail),
            self.ledgers@[trail[0] as int].borrower == s,
            0 <= upto < trail.len(),
        ensures
            self.marked(visited, self.ledgers@[trail[upto] as int].borrower),
        decreases upto,
    {
        if upto > 0 {
            self.lemma_reached(visited, s, start, trail, upto - 1);
            let e = trail[upto - 1] as int;
            let next = trail[upto - 1 + 1] as int;
            let x = self.ledgers@[e].borrower;
            let h = choose|h: int|
                0 <= h < self.nodes@.len() && (#[trigger] self.nodes@[h]).user_id == x
                    && visited[h];
            assert(!on_stack(Seq::<Frame>::empty(), h));
            assert(self.expanded(visited, s, h));
            assert(self.ledgers@[e].is_edge());
            assert(self.scanned(visited, s, e));
            assert(self.ledgers@[e].owes == self.ledgers@[next].borrower);
            assert(self.ledgers@[next].is_edge());
            assert(known(self.users@, self.ledgers@[trail[upto - 1 + 1] as int].borrower));
            assert(self.has_node(self.ledgers@[next].borrower)) by {
                reveal(Graph::wf);
            }
            let nb = choose|nb: int|
                0 <= nb < self.nodes@.len() && (#[trigger] self.nodes@[nb]).user_id
                    == self.ledgers@[next].borrower;
            assert(visited[nb]);
        } else {
            let _ = self.nodes@[start];
        }
    }

    /// Where the search has expanded every node it has come to, no closed
    /// chain of debt begins at `s`.
    proof fn lemma_unreached(&self, visited: Seq<bool>, s: UserId, start: int, trail: Seq<usize>)
        requires
            self.wf(),
            members_on(self.users@, self.ledgers@, trail),
            0 <= start < self.nodes@.len(),
            self.nodes@[start].user_id == s,
            visited[start],
            self.search_ok(visited, s, Seq::<Frame>::empty(), -1),
            is_cycle(self.ledgers@, trail),
        ensures
            self.ledgers@[trail[0] as int].borrower != s,
    {
        let n = trail.len() as int;
        let last = trail[n - 1] as int;
        assert(self.ledgers@[last].is_edge());
        if self.ledgers@[trail[0] as int].borrower == s && n > 1 {
            self.lemma_reached(visited, s, start, trail, n - 2);
            let e = trail[n - 2] as int;
            let x = self.ledgers@[e].borrower;
            let h = choose|h: int|
                0 <= h < self.nodes@.len() && (#[trigger] self.nodes@[h]).user_id == x
                    && visited[h];
            assert(!on_stack(Seq::<Frame>::empty(), h));
            assert(self.expanded(visited, s, h));
            assert(self.ledgers@[e].is_edge());
            assert(self.scanned(visited, s, e));
            assert(self.ledgers@[e].owes == self.ledgers@[trail[n - 2 + 1] as int].borrower);
            assert(known(self.users@, self.ledgers@[trail[n - 1] as int].borrower));
            assert(self.has_node(self.ledgers@[last].borrower)) by {
                reveal(Graph::wf);
            }
            let nb = choose|nb: int|
                0 <= nb < self.nodes@.len() && (#[trigger] self.nodes@[nb]).user_id
                    == self.ledgers@[last].borrower;
            assert(!closes(self.ledgers@, self.ledgers@[e].owes, s));
        }
    }
}

/// A copy of a trail.
fn copy_path(path: &Vec<usize>) -> (copy: Vec<usize>)
    ensures
        copy@ == path@,
{
    let mut copy: Vec<usize> = Vec::new();
    let mut i: usize = 0;
    while i < path.len()
        invariant
            i <= path@.len(),
            copy@ == path@.take(i as int),
        decreases path@.len() - i,
    {
        copy.push(path[i]);
        proof {
            assert(path@.take(i + 1) =~= path@.take(i as int).push(path@[i as int]));
        }
        i += 1;
    }
    proof {
        assert(path@.take(i as int) =~= path@);
    }
    copy
}

} // verus!
