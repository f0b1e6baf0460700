//! The search one line at a time: the same depth-first walk as
//! [`Search::search`](crate::search::Search::search), kept on an explicit stack
//! so that each line can be handed out as soon as it is found.

use vstd::prelude::*;
use crate::graph::{Id, Node, NodeView, PackageId, Resolve};
use crate::render::{line, lines};
use crate::routes::{
    expands, frontier, lemma_routes_through_grow, lemma_step_uses_a_node, routes, routes_through,
    unvisited,
};
use crate::search::{ids, Search};
use crate::text::{same_text, texts};

verus! {

/// One level of the walk: a path from which the search goes on, the node of
/// its last package, and how many of the node's edges were looked at.
struct Frame<'a> {
    path: Vec<&'a PackageId>,
    node: &'a Node,
    next: usize,
}

/// What a level of the walk needs to hold of the graph.
spec fn frame_fits(nodes: Seq<NodeView>, frame: Frame) -> bool {
    &&& expands(nodes, ids(frame.path@))
    &&& frame.node@.deps == frontier(nodes, ids(frame.path@))
    &&& frame.next <= frame.node.deps@.len()
}

/// The routes that a level has still to give: those of its path that are not
/// found through the edges already looked at.
spec fn frame_rest(nodes: Seq<NodeView>, target: Seq<char>, frame: Frame) -> Seq<Seq<Id>> {
    let path = ids(frame.path@);
    routes(nodes, path, target).skip(
        routes_through(nodes, path, target, frame.next as nat).len() as int,
    )
}

/// The routes that a stack has still to give, the topmost level first.
spec fn stack_rest(nodes: Seq<NodeView>, target: Seq<char>, frames: Seq<Frame>) -> Seq<Seq<Id>>
    decreases frames.len(),
{
    if frames.len() == 0 {
        Seq::empty()
    } else {
        frame_rest(nodes, target, frames.last()) + stack_rest(nodes, target, frames.drop_last())
    }
}

/// A bound on the steps that the walk takes for the first `k` edges at the
/// end of `path`: one for an edge declared as the target, and for any other
/// edge two and the steps for the path extended by it.
spec fn work_through(nodes: Seq<NodeView>, path: Seq<Id>, target: Seq<char>, k: nat) -> nat
    decreases unvisited(nodes, path.drop_last()).len(), k,
    via work_through_decreases
{
    let edges = frontier(nodes, path);
    if k == 0 || k > edges.len() {
        0
    } else {
        let edge = edges[k - 1];
        let earlier = work_through(nodes, path, target, (k - 1) as nat);
        if edge.name == target {
            earlier + 1
        } else {
            let longer = path.push(edge.pkg);
            earlier + 2 + work_through(nodes, longer, target, frontier(nodes, longer).len())
        }
    }
}

#[via_fn]
proof fn work_through_decreases(nodes: Seq<NodeView>, path: Seq<Id>, target: Seq<char>, k: nat) {
    let edges = frontier(nodes, path);
    if !(k == 0 || k > edges.len()) {
        let edge = edges[k - 1];
        if edge.name != target {
            lemma_step_uses_a_node(nodes, path, edge.pkg);
        }
    }
}

/// The steps that a level may still take, its own removal included.
spec fn frame_work(nodes: Seq<NodeView>, target: Seq<char>, frame: Frame) -> int {
    let path = ids(frame.path@);
    work_through(nodes, path, target, frontier(nodes, path).len()) - work_through(
        nodes,
        path,
        target,
        frame.next as nat,
    ) + 1
}

/// The steps that a stack may still take.
spec fn stack_work(nodes: Seq<NodeView>, target: Seq<char>, frames: Seq<Frame>) -> int
    decreases frames.len(),
{
    if frames.len() == 0 {
        0
    } else {
        frame_work(nodes, target, frames.last()) + stack_work(nodes, target, frames.drop_last())
    }
}

proof fn lemma_work_grows(nodes: Seq<NodeView>, path: Seq<Id>, target: Seq<char>, a: nat, b: nat)
    requires
        a <= b <= frontier(nodes, path).len(),
    ensures
        work_through(nodes, path, target, a) <= work_through(nodes, path, target, b),
    decreases b,
{
    if a < b {
        lemma_work_grows(nodes, path, target, a, (b - 1) as nat);
    }
}

proof fn lemma_stack_work_positive(nodes: Seq<NodeView>, target: Seq<char>, frames: Seq<Frame>)
    requires
        forall|i: int| 0 <= i < frames.len() ==> frame_fits(nodes, #[trigger] frames[i]),
    ensures
        stack_work(nodes, target, frames) >= frames.len(),
    decreases frames.len(),
{
    if frames.len() > 0 {
        let top = frames.last();
        let path = ids(top.path@);
        lemma_work_grows(nodes, path, target, top.next as nat, frontier(nodes, path).len());
        lemma_stack_work_positive(nodes, target, frames.drop_last());
    }
}

/// Where `head` followed by `more` begins `all`, what is left of `all` after
/// `head` is `more`, followed by what is left after both.
proof fn lemma_skip_over<A>(all: Seq<A>, head: Seq<A>, more: Seq<A>)
    requires
        (head + more).is_prefix_of(all),
    ensures
        all.skip(head.len() as int) == more + all.skip((head + more).len() as int),
{
    let joined = head + more;
    assert forall|i: int| 0 <= i < more.len() implies all[head.len() + i] == more[i] by {
        assert(all.subrange(0, joined.len() as int)[head.len() + i] == all[head.len() + i]);
    }
}

/// All levels of a stack hold what they need of the graph.
spec fn stack_fits(nodes: Seq<NodeView>, frames: Seq<Frame>) -> bool {
    forall|i: int| 0 <= i < frames.len() ==> frame_fits(nodes, #[trigger] frames[i])
}

/// Puts a level for `path` on the stack where the search goes on from it;
/// where it does not, nothing is found from `path` and the stack stays.
fn enter<'a>(
    stack: &mut Vec<Frame<'a>>,
    path: Vec<&'a PackageId>,
    resolve: &'a Resolve,
    Ghost(target): Ghost<Seq<char>>,
)
    requires
        stack_fits(resolve@, old(stack)@),
    ensures
        stack_fits(resolve@, final(stack)@),
        stack_rest(resolve@, target, final(stack)@) == routes(resolve@, ids(path@), target)
            + stack_rest(resolve@, target, old(stack)@),
        stack_work(resolve@, target, final(stack)@) <= stack_work(resolve@, target, old(stack)@)
            + work_through(resolve@, ids(path@), target, frontier(resolve@, ids(path@)).len()) + 1,
{
    let ghost below = stack@;
    if path.len() == 0 {
        return ;
    }
    if Search::revisits(&path) {
        return ;
    }
    let last = path[path.len() - 1];
    match resolve.find(last) {
        Some(node) => {
            let frame = Frame { path, node, next: 0 };
            stack.push(frame);
            proof {
                assert(stack@.drop_last() =~= below);
            }
        },
        None => {},
    }
}

/// Takes the walk on to its next line, if there is one. Each turn of the loop
/// removes a finished level from the stack or looks at one more edge.
fn advance<'a>(
    stack: &mut Vec<Frame<'a>>,
    names: &Search,
    resolve: &'a Resolve,
    target: &str,
) -> (next: Option<String>)
    requires
        stack_fits(resolve@, old(stack)@),
    ensures
        stack_fits(resolve@, final(stack)@),
        match next {
            Some(text) => {
                &&& stack_rest(resolve@, target@, old(stack)@).len() > 0
                &&& text@ == line(names@, stack_rest(resolve@, target@, old(stack)@)[0], target@)
                &&& stack_rest(resolve@, target@, final(stack)@) == stack_rest(
                    resolve@,
                    target@,
                    old(stack)@,
                ).drop_first()
            },
            None => {
                &&& stack_rest(resolve@, target@, old(stack)@).len() == 0
                &&& final(stack)@.len() == 0
            },
        },
{
    loop
        invariant
            stack_fits(resolve@, stack@),
            stack_rest(resolve@, target@, stack@) == stack_rest(resolve@, target@, old(stack)@),
        decreases stack_work(resolve@, target@, stack@),
    {
        proof {
            lemma_stack_work_positive(resolve@, target@, stack@);
        }
        let mut frame = match stack.pop() {
            Some(frame) => frame,
            None => {
                return None;
            },
        };
        let ghost below = stack@;
        let ghost path = ids(frame.path@);
        let ghost k = frame.next as nat;
        proof {
            lemma_stack_work_positive(resolve@, target@, below);
            lemma_routes_through_grow(
                resolve@,
                path,
                target@,
                k,
                frontier(resolve@, path).len(),
            );
            lemma_work_grows(resolve@, path, target@, k, frontier(resolve@, path).len());
        }
        let node = frame.node;
        if frame.next == node.deps.len() {
            // Every edge of this level was looked at: it has nothing left to give.
            continue ;
        }
        let dep = &node.deps[frame.next];
        frame.next = frame.next + 1;
        proof {
            lemma_routes_through_grow(
                resolve@,
                path,
                target@,
                k + 1,
                frontier(resolve@, path).len(),
            );
            lemma_work_grows(resolve@, path, target@, k + 1, frontier(resolve@, path).len());
        }
        if same_text(dep.name.as_str(), target) {
            // The path of this level is the next route; the level stays, one edge on.
            let text = names.render(&frame.path, target);
            stack.push(frame);
            proof {
                assert(stack@.drop_last() =~= below);
                lemma_skip_over(
                    routes(resolve@, path, target@),
                    routes_through(resolve@, path, target@, k),
                    seq![path],
                );
            }
            return Some(text);
        }
        // What the extended path gives comes before the rest of this level.
        let mut longer = frame.path.clone();
        longer.push(&dep.pkg);
        stack.push(frame);
        proof {
            assert(stack@.drop_last() =~= below);
            assert(ids(longer@) =~= path.push(dep@.pkg));
            lemma_skip_over(
                routes(resolve@, path, target@),
                routes_through(resolve@, path, target@, k),
                routes(resolve@, path.push(dep@.pkg), target@),
            );
        }
        enter(stack, longer, resolve, Ghost(target@));
        proof {
            lemma_stack_work_positive(resolve@, target@, stack@);
        }
    }
}

/// A search in progress that hands out its lines one at a time, in the order
/// in which [`Search::search`](crate::search::Search::search) collects them.
pub struct Walk<'a> {
    names: &'a Search,
    resolve: &'a Resolve,
    target: &'a str,
    stack: Vec<Frame<'a>>,
}

impl<'a> Walk<'a> {
    #[verifier::type_invariant]
    spec fn fits(&self) -> bool {
        stack_fits(self.resolve@, self.stack@)
    }

    /// The lines that the walk has still to hand out, in order.
    pub closed spec fn pending(&self) -> Seq<Seq<char>> {
        stack_rest(self.resolve@, self.target@, self.stack@).map_values(
            |route: Seq<Id>| line(self.names@, route, self.target@),
        )
    }

    /// Starts the search from `history`. Nothing is searched yet: the walk
    /// holds every line that the search from `history` finds.
    pub fn new(
        names: &'a Search,
        history: Vec<&'a PackageId>,
        resolve: &'a Resolve,
        target: &'a str,
    ) -> (walk: Walk<'a>)
        ensures
            walk.pending() == lines(names@, resolve@, ids(history@), target@),
    {
        let mut stack: Vec<Frame<'a>> = Vec::new();
        enter(&mut stack, history, resolve, Ghost(target@));
        Walk { names, resolve, target, stack }
    }

    /// Hands out the next line, searching no further than needed to find it;
    /// `None` once every line was handed out.
    pub fn next_line(&mut self) -> (next: Option<String>)
        ensures
            match next {
                Some(text) => {
                    &&& old(self).pending().len() > 0
                    &&& text@ == old(self).pending()[0]
                    &&& final(self).pending() == old(self).pending().drop_first()
                },
                None => {
                    &&& old(self).pending().len() == 0
                    &&& final(self).pending().len() == 0
                },
            },
    {
        proof {
            use_type_invariant(&*self);
        }
        let mut stack: Vec<Frame<'a>> = Vec::new();
        std::mem::swap(&mut stack, &mut self.stack);
        let next = advance(&mut stack, self.names, self.resolve, self.target);
        self.stack = stack;
        next
    }

    /// Hands out every line that is left, in order.
    pub fn drain(&mut self) -> (found: Vec<String>)
        ensures
            texts(found@) == old(self).pending(),
            final(self).pending().len() == 0,
    {
        let mut found: Vec<String> = Vec::new();
        loop
            invariant
                texts(found@) + self.pending() == old(self).pending(),
            ensures
                self.pending().len() == 0,
            decreases self.pending().len(),
        {
            match self.next_line() {
                Some(text) => {
                    found.push(text);
                },
                None => {
                    break ;
                },
            }
        }
        found
    }
}

} // verus!
