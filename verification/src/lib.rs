//! Lazy depth-first enumeration of the states reachable under a reversible
//! transition model.
//!
//! A caller supplies an [`Environment`] (how an action mutates a state and how
//! that mutation is undone), an [`ActionsGenerator`] (the ordered candidate
//! actions available from a state) and, for the policy-driven generator, an
//! [`IsTerminalState`] and a [`ShouldContinueSearch`] policy.  The engine then
//! walks the implied search tree depth first, standing on one entered node
//! per step, mutating a single shared state buffer through matched
//! apply/rollback calls instead of cloning the state at every node.

use vstd::prelude::*;

pub mod graph;
pub mod sequences;

verus! {

/// Reversible transition model.  `apply` moves a state forward along an
/// action; `rollback` moves it back.  Both are specified through the state's
/// view: `apply_spec` and `rollback_spec` say, as mathematical functions,
/// which model value the mutated state holds afterwards.
pub trait Environment: Sized {
    type State: View;
    type Action: View;

    /// Model of `apply`: the state's view after applying `a` to a state
    /// viewed as `s`.
    spec fn apply_spec(
        &self,
        s: <Self::State as View>::V,
        a: <Self::Action as View>::V,
    ) -> <Self::State as View>::V;

    /// Model of `rollback`: the state's view after rolling `a` back from a
    /// state viewed as `s`.
    spec fn rollback_spec(
        &self,
        s: <Self::State as View>::V,
        a: <Self::Action as View>::V,
    ) -> <Self::State as View>::V;

    fn apply(&self, state: &mut Self::State, action: &Self::Action)
        ensures
            final(state)@ == self.apply_spec(old(state)@, action@),
    ;

    fn rollback(&self, state: &mut Self::State, action: &Self::Action)
        ensures
            final(state)@ == self.rollback_spec(old(state)@, action@),
    ;
}

/// Terminal policy: decides whether a state is a leaf of the search, purely
/// from the state's contents.
pub trait IsTerminalState<E: Environment> {
    /// Model of `is_terminal_state`.
    spec fn is_terminal_spec(&self, s: <E::State as View>::V) -> bool;

    fn is_terminal_state(&self, state: &E::State) -> (r: bool)
        ensures
            r == self.is_terminal_spec(state@),
    ;
}

/// Action source: the ordered sequence of candidate actions available from a
/// state.  An empty sequence marks a leaf.  The sequence is a function of the
/// generator's own value and the state's view; the generator may update its
/// auxiliary value while producing it.
pub trait ActionsGenerator<E: Environment>: Sized {
    /// Model of `generate_actions`: the views of the produced actions, in
    /// order.
    spec fn actions_spec(&self, s: <E::State as View>::V) -> Seq<<E::Action as View>::V>;

    fn generate_actions(&mut self, state: &E::State) -> (r: Vec<E::Action>)
        ensures
            r@.len() == old(self).actions_spec(state@).len(),
            forall|i: int|
                0 <= i < r@.len() ==> (#[trigger] r@[i])@ == old(self).actions_spec(state@)[i],
    ;
}

/// Continuation policy: decides whether exploration should continue past a
/// state.  It may update agent-local auxiliary values (counters, bounds) but
/// not the shared search state.
pub trait ShouldContinueSearch<E: Environment>: Sized {
    /// Model of `should_continue`.
    spec fn should_continue_spec(&self, s: <E::State as View>::V) -> bool;

    fn should_continue(&mut self, state: &E::State) -> (r: bool)
        ensures
            r == old(self).should_continue_spec(state@),
    ;
}

/// Rolling an action back right after applying it restores the state model
/// `s` it was applied to.
pub open spec fn inverts_pair<E: Environment>(
    env: E,
    s: <E::State as View>::V,
    a: <E::Action as View>::V,
) -> bool {
    env.rollback_spec(env.apply_spec(s, a), a) == s
}

/// The documented precondition of the traversal engine: every action the
/// generator can produce is an exact inverse pair for the state it was
/// produced from, whatever value the agent holds at that moment.  The engine
/// only ever applies actions taken from generated sequences, so this is
/// invertibility "for every (state, action) pair ever passed to apply".
pub open spec fn generated_actions_invertible<E: Environment, A: ActionsGenerator<E>>(
    env: E,
) -> bool {
    forall|g: A, s: <E::State as View>::V, i: int|
        0 <= i < g.actions_spec(s).len() ==> inverts_pair(
            env,
            s,
            #[trigger] g.actions_spec(s)[i],
        )
}

/// Where the engine's edge-traversal cycle stands.  Exactly one mode is
/// active at a time and it determines the next transition.
#[derive(Clone, Copy, Debug, PartialEq, Eq, Structural)]
pub enum LastVisitAction {
    /// Freshly created: the root state has not been entered yet.
    New,
    /// The current node was entered via a new edge: by applying the first
    /// action generated at its parent (the root counts as entered this way
    /// once the traversal starts).
    EnterNew,
    /// The current node was entered via a sibling edge: by rolling back an
    /// exhausted subtree and applying the next untried sibling action.
    EnterOld,
    /// The traversal is exhausted; the state is back at the root.
    Done,
}

/// One stack entry of the traversal: the sibling actions generated at a node,
/// together with how many of them have been applied so far.  The action the
/// engine descended through most recently is `actions[next - 1]`.
pub struct ResumePoint<Act> {
    actions: Vec<Act>,
    next: usize,
}

impl<Act> ResumePoint<Act> {
    pub closed spec fn wf(&self) -> bool {
        1 <= self.next <= self.actions@.len()
    }
}

/// The state model reached from `root` by applying, in order, the recorded
/// action of each of the first `k` resume points.
pub closed spec fn chain_state<E: Environment>(
    env: E,
    root: <E::State as View>::V,
    frames: Seq<ResumePoint<E::Action>>,
    k: int,
) -> <E::State as View>::V
    decreases k,
{
    if k <= 0 {
        root
    } else {
        let f = frames[k - 1];
        env.apply_spec(chain_state(env, root, frames, k - 1), f.actions@[f.next - 1]@)
    }
}

/// `chain_state` only reads the first `k` frames: two stacks that agree on
/// that prefix give the same chained state.
pub proof fn lemma_chain_state_prefix<E: Environment>(
    env: E,
    root: <E::State as View>::V,
    fr1: Seq<ResumePoint<E::Action>>,
    fr2: Seq<ResumePoint<E::Action>>,
    k: int,
)
    requires
        k <= fr1.len(),
        k <= fr2.len(),
        forall|i: int| 0 <= i < k ==> fr1[i] == fr2[i],
    ensures
        chain_state(env, root, fr1, k) == chain_state(env, root, fr2, k),
    decreases k,
{
    if k > 0 {
        lemma_chain_state_prefix(env, root, fr1, fr2, k - 1);
    }
}

/// Model of one resume point: the views of its sibling actions, in order,
/// and how many of them have been applied so far.
pub closed spec fn frame_model<E: Environment>(f: ResumePoint<E::Action>) -> (
    Seq<<E::Action as View>::V>,
    int,
) {
    (Seq::new(f.actions@.len(), |i: int| f.actions@[i]@), f.next as int)
}

/// The resume-point stack after backtracking from a leaf: exhausted resume
/// points are popped, and the deepest one that still has an untried sibling
/// action has that sibling recorded as applied.
pub closed spec fn backtrack_frames<E: Environment>(
    frames: Seq<ResumePoint<E::Action>>,
) -> Seq<ResumePoint<E::Action>>
    decreases frames.len(),
{
    if frames.len() == 0 {
        frames
    } else {
        let f = frames[frames.len() - 1];
        if f.next < f.actions@.len() {
            frames.update(
                frames.len() - 1,
                ResumePoint { actions: f.actions, next: (f.next + 1) as usize },
            )
        } else {
            backtrack_frames::<E>(frames.drop_last())
        }
    }
}

/// Where backtracking from a leaf ends: the mode, depth and state model the
/// engine holds after rolling back to the deepest resume point that still
/// has an untried sibling action and applying that sibling, or after
/// finishing (with the state back at the root) when no pending sibling is
/// left.
pub closed spec fn backtrack_model<E: Environment>(
    env: E,
    root: <E::State as View>::V,
    frames: Seq<ResumePoint<E::Action>>,
) -> (LastVisitAction, int, <E::State as View>::V)
    decreases frames.len(),
{
    if frames.len() == 0 {
        (LastVisitAction::Done, 0, root)
    } else {
        let f = frames[frames.len() - 1];
        if f.next < f.actions@.len() {
            (
                LastVisitAction::EnterOld,
                frames.len() as int,
                env.apply_spec(
                    chain_state(env, root, frames, frames.len() - 1),
                    f.actions@[f.next as int]@,
                ),
            )
        } else {
            backtrack_model(env, root, frames.drop_last())
        }
    }
}

/// `b` to the power `e` (1 for `e <= 0`).
pub open spec fn upow(b: int, e: int) -> int
    decreases e,
{
    if e <= 0 {
        1
    } else {
        b * upow(b, e - 1)
    }
}

/// Number of nodes of the complete tree with branching factor `b` whose
/// leaves sit at depth `h`: `1 + b + ... + b^h`.
pub open spec fn tree_size(b: int, h: int) -> int
    decreases h,
{
    if h <= 0 {
        1
    } else {
        1 + b * tree_size(b, h - 1)
    }
}

pub proof fn lemma_upow_pos(b: int, e: int)
    requires
        b >= 1,
    ensures
        upow(b, e) >= 1,
    decreases e,
{
    if e > 0 {
        lemma_upow_pos(b, e - 1);
        assert(b * upow(b, e - 1) >= 1) by (nonlinear_arith)
            requires
                b >= 1,
                upow(b, e - 1) >= 1,
        ;
    }
}

pub proof fn lemma_tree_size_pos(b: int, h: int)
    requires
        b >= 1,
    ensures
        tree_size(b, h) >= 1,
    decreases h,
{
    if h > 0 {
        lemma_tree_size_pos(b, h - 1);
        assert(b * tree_size(b, h - 1) >= 0) by (nonlinear_arith)
            requires
                b >= 1,
                tree_size(b, h - 1) >= 1,
        ;
    }
}

/// Leaves still to come from the pending sibling actions recorded on the
/// stack, in a complete tree with branching factor `b` and leaf depth `d`:
/// each pending sibling of the resume point at index `k` roots a subtree
/// with `b ^ (d - k - 1)` leaves.
pub closed spec fn rem_leaves<E: Environment>(
    frames: Seq<ResumePoint<E::Action>>,
    b: int,
    d: int,
) -> int
    decreases frames.len(),
{
    if frames.len() == 0 {
        0
    } else {
        let f = frames.last();
        rem_leaves::<E>(frames.drop_last(), b, d) + (f.actions@.len() - f.next) * upow(
            b,
            d - frames.len(),
        )
    }
}

/// Node entries still to come from the pending sibling actions recorded on
/// the stack, counted as for `rem_leaves` but with whole subtree sizes.
pub closed spec fn rem_entries<E: Environment>(
    frames: Seq<ResumePoint<E::Action>>,
    b: int,
    d: int,
) -> int
    decreases frames.len(),
{
    if frames.len() == 0 {
        0
    } else {
        let f = frames.last();
        rem_entries::<E>(frames.drop_last(), b, d) + (f.actions@.len() - f.next) * tree_size(
            b,
            d - frames.len(),
        )
    }
}

pub proof fn lemma_rem_nonneg<E: Environment>(
    frames: Seq<ResumePoint<E::Action>>,
    b: int,
    d: int,
)
    requires
        b >= 1,
        forall|k: int| 0 <= k < frames.len() ==> (#[trigger] frames[k]).wf(),
    ensures
        rem_leaves::<E>(frames, b, d) >= 0,
        rem_entries::<E>(frames, b, d) >= 0,
    decreases frames.len(),
{
    if frames.len() > 0 {
        let f = frames.last();
        assert(forall|k: int|
            0 <= k < frames.drop_last().len() ==> (#[trigger] frames.drop_last()[k]).wf());
        lemma_rem_nonneg::<E>(frames.drop_last(), b, d);
        lemma_upow_pos(b, d - frames.len());
        lemma_tree_size_pos(b, d - frames.len());
        assert(f.wf());
        assert((f.actions@.len() - f.next) * upow(b, d - frames.len()) >= 0) by (nonlinear_arith)
            requires
                f.actions@.len() - f.next >= 0,
                upow(b, d - frames.len()) >= 1,
        ;
        assert((f.actions@.len() - f.next) * tree_size(b, d - frames.len()) >= 0)
            by (nonlinear_arith)
            requires
                f.actions@.len() - f.next >= 0,
                tree_size(b, d - frames.len()) >= 1,
        ;
    }
}

/// The stack invariants of a traversal over a uniform tree: every resume
/// point holds exactly `b` sibling actions; the recorded action chain climbs
/// one level of `lvl` per resume point; and every pending sibling action
/// leads one level down from its resume point's node.
pub closed spec fn uniform_stack<E: Environment>(
    env: E,
    root: <E::State as View>::V,
    frames: Seq<ResumePoint<E::Action>>,
    b: int,
    lvl: spec_fn(<E::State as View>::V) -> int,
) -> bool {
    &&& forall|k: int| 0 <= k < frames.len() ==> (#[trigger] frames[k]).wf()
    &&& forall|k: int| 0 <= k < frames.len() ==> (#[trigger] frames[k]).actions@.len() == b
    &&& forall|k: int| 0 <= k <= frames.len() ==> lvl(#[trigger] chain_state(env, root, frames, k)) == k
    &&& forall|k: int, j: int|
        0 <= k < frames.len() && frames[k].next - 1 <= j < frames[k].actions@.len() ==> lvl(
            env.apply_spec(chain_state(env, root, frames, k), (#[trigger] frames[k].actions@[j])@),
        ) == k + 1
}

/// What backtracking does over a uniform tree: it lands on the next pending
/// sibling, one `lvl` level below that sibling's resume point, consuming one
/// subtree of pending work, or it finishes with nothing pending left.
pub proof fn lemma_backtrack_uniform<E: Environment>(
    env: E,
    root: <E::State as View>::V,
    frames: Seq<ResumePoint<E::Action>>,
    b: int,
    d: int,
    lvl: spec_fn(<E::State as View>::V) -> int,
)
    requires
        1 <= b <= usize::MAX,
        uniform_stack::<E>(env, root, frames, b, lvl),
    ensures
        ({
            let (m, dep, c) = backtrack_model::<E>(env, root, frames);
            let nf = backtrack_frames::<E>(frames);
            &&& (m == LastVisitAction::Done || m == LastVisitAction::EnterOld)
            &&& (m == LastVisitAction::Done ==> dep == 0 && c == root && nf.len() == 0
                && rem_leaves::<E>(frames, b, d) == 0 && rem_entries::<E>(frames, b, d) == 0)
            &&& (m == LastVisitAction::EnterOld ==> {
                &&& 1 <= dep <= frames.len()
                &&& nf.len() == dep
                &&& lvl(c) == dep
                &&& chain_state(env, root, nf, dep) == c
                &&& uniform_stack::<E>(env, root, nf, b, lvl)
                &&& rem_leaves::<E>(nf, b, d) == rem_leaves::<E>(frames, b, d) - upow(b, d - dep)
                &&& rem_entries::<E>(nf, b, d) == rem_entries::<E>(frames, b, d) - tree_size(
                    b,
                    d - dep,
                )
            })
        }),
    decreases frames.len(),
{
    if frames.len() == 0 {
        return ;
    }
    let n = frames.len() as int;
    let f = frames[n - 1];
    assert(f.wf());
    if f.next < f.actions@.len() {
        // the top resume point still has a pending sibling: backtracking
        // stops right here
        let nf = backtrack_frames::<E>(frames);
        let fp = ResumePoint { actions: f.actions, next: (f.next + 1) as usize };
        assert(f.next + 1 <= usize::MAX);
        assert(fp.next == f.next + 1);
        assert(nf == frames.update(n - 1, fp));
        assert(nf[n - 1] == fp);
        assert(nf.drop_last() =~= frames.drop_last());
        assert forall|k: int| 0 <= k <= n - 1 implies chain_state(env, root, nf, k)
            == chain_state(env, root, frames, k) by {
            lemma_chain_state_prefix(env, root, nf, frames, k);
        }
        let c = env.apply_spec(chain_state(env, root, frames, n - 1), f.actions@[f.next as int]@);
        assert(lvl(c) == n);
        assert(chain_state(env, root, nf, n) == env.apply_spec(
            chain_state(env, root, nf, n - 1),
            nf[n - 1].actions@[nf[n - 1].next - 1]@,
        ));
        assert(chain_state(env, root, nf, n) == c);
        assert forall|k: int| 0 <= k <= nf.len() implies lvl(
            #[trigger] chain_state(env, root, nf, k),
        ) == k by {
            if k < n {
                assert(chain_state(env, root, nf, k) == chain_state(env, root, frames, k));
            }
        }
        assert forall|k: int, j: int|
            0 <= k < nf.len() && nf[k].next - 1 <= j < nf[k].actions@.len() implies lvl(
            env.apply_spec(chain_state(env, root, nf, k), (#[trigger] nf[k].actions@[j])@),
        ) == k + 1 by {
            if k < n - 1 {
                assert(nf[k] == frames[k]);
                assert(lvl(env.apply_spec(
                    chain_state(env, root, frames, k),
                    (frames[k].actions@[j])@,
                )) == k + 1);
            } else {
                assert(nf[k].actions@ == f.actions@);
                assert(lvl(env.apply_spec(
                    chain_state(env, root, frames, k),
                    (frames[k].actions@[j])@,
                )) == k + 1);
            }
        }
        assert(rem_leaves::<E>(nf, b, d) == rem_leaves::<E>(nf.drop_last(), b, d) + (
        f.actions@.len() - f.next - 1) * upow(b, d - n));
        assert((f.actions@.len() - f.next) * upow(b, d - n) - (f.actions@.len() - f.next - 1)
            * upow(b, d - n) == upow(b, d - n)) by (nonlinear_arith);
        assert((f.actions@.len() - f.next) * tree_size(b, d - n) - (f.actions@.len() - f.next - 1)
            * tree_size(b, d - n) == tree_size(b, d - n)) by (nonlinear_arith);
    } else {
        // the top resume point is exhausted: it contributes nothing pending
        // and backtracking continues below it
        let rest = frames.drop_last();
        assert forall|k: int| 0 <= k <= rest.len() implies lvl(
            #[trigger] chain_state(env, root, rest, k),
        ) == k by {
            lemma_chain_state_prefix(env, root, rest, frames, k);
        }
        assert forall|k: int, j: int|
            0 <= k < rest.len() && rest[k].next - 1 <= j < rest[k].actions@.len() implies lvl(
            env.apply_spec(chain_state(env, root, rest, k), (#[trigger] rest[k].actions@[j])@),
        ) == k + 1 by {
            assert(rest[k] == frames[k]);
            lemma_chain_state_prefix(env, root, rest, frames, k);
            assert(lvl(env.apply_spec(chain_state(env, root, frames, k), (frames[k].actions@[j])@))
                == k + 1);
        }
        lemma_backtrack_uniform::<E>(env, root, rest, b, d, lvl);
        assert((f.actions@.len() - f.next) * upow(b, d - n) == 0) by (nonlinear_arith)
            requires
                f.actions@.len() == f.next,
        ;
        assert((f.actions@.len() - f.next) * tree_size(b, d - n) == 0) by (nonlinear_arith)
            requires
                f.actions@.len() == f.next,
        ;
        assert(rem_leaves::<E>(frames, b, d) == rem_leaves::<E>(rest, b, d));
        assert(rem_entries::<E>(frames, b, d) == rem_entries::<E>(rest, b, d));
    }
}

/// The in-place depth-first traversal engine.  It owns one state value and an
/// explicit stack of resume points whose length equals the current depth in
/// the search tree, so the memory cost is bounded by the depth, never by the
/// number of visited nodes.  Each `advance` moves to the next entered node;
/// over a whole traversal the mutation work is one apply and one rollback
/// per traversed tree edge.
pub struct RecursiveStateVisitor<'a, E: Environment, A: ActionsGenerator<E>> {
    stack: Vec<ResumePoint<E::Action>>,
    state: E::State,
    env: &'a E,
    agent: A,
    mode: LastVisitAction,
    need_expand_current: bool,
    root: Ghost<<E::State as View>::V>,
}

impl<'a, E: Environment, A: ActionsGenerator<E>> RecursiveStateVisitor<'a, E, A> {
    /// The engine's traversal mode.
    pub closed spec fn mode_of(&self) -> LastVisitAction {
        self.mode
    }

    /// View of the shared state buffer.
    pub closed spec fn cur(&self) -> <E::State as View>::V {
        self.state@
    }

    /// View of the state the traversal started from.
    pub closed spec fn root_of(&self) -> <E::State as View>::V {
        self.root@
    }

    /// Current depth in the search tree: the number of resume points on the
    /// stack.
    pub closed spec fn depth_of(&self) -> nat {
        self.stack@.len()
    }

    /// The environment driven by this traversal.
    pub closed spec fn env_of(&self) -> E {
        *self.env
    }

    /// The agent (actions generator) driven by this traversal.
    pub closed spec fn agent_of(&self) -> A {
        self.agent
    }

    /// The pruning flag: whether the next entered node may expand its
    /// children.
    pub closed spec fn expands(&self) -> bool {
        self.need_expand_current
    }

    /// The state model at depth `k` of the current descent path.
    pub closed spec fn node_at(&self, k: int) -> <E::State as View>::V {
        chain_state(*self.env, self.root@, self.stack@, k)
    }

    /// The engine's structural invariant: the shared state buffer always
    /// equals the value reached from the root by the recorded action of every
    /// resume point in order, and the stack is empty exactly when the engine
    /// is at the root or finished.
    pub closed spec fn wf(&self) -> bool {
        &&& generated_actions_invertible::<E, A>(*self.env)
        &&& forall|k: int| 0 <= k < self.stack@.len() ==> (#[trigger] self.stack@[k]).wf()
        &&& forall|k: int, j: int|
            0 <= k < self.stack@.len() && self.stack@[k].next - 1 <= j
                < self.stack@[k].actions@.len() ==> inverts_pair(
                *self.env,
                self.node_at(k),
                (#[trigger] self.stack@[k].actions@[j])@,
            )
        &&& (self.mode == LastVisitAction::New ==> self.stack@.len() == 0 && self.state@
            == self.root@)
        &&& ((self.mode == LastVisitAction::EnterNew || self.mode == LastVisitAction::EnterOld)
            ==> self.state@ == self.node_at(self.stack@.len() as int))
        &&& (self.mode == LastVisitAction::EnterOld ==> self.stack@.len() >= 1)
        &&& (self.mode == LastVisitAction::Done ==> self.stack@.len() == 0 && self.state@
            == self.root@)
    }

    /// Creates a traversal over the tree rooted at `initial`.
    ///
    /// The caller guarantees, as a documented precondition of the whole
    /// engine, that apply and rollback are exact inverses on every action the
    /// agent can generate; the engine never checks this at run time, it is
    /// what makes the in-place traversal sound.
    pub fn new(initial: E::State, env: &'a E, agent: A) -> (r: RecursiveStateVisitor<'a, E, A>)
        requires
            generated_actions_invertible::<E, A>(*env),
        ensures
            r.wf(),
            r.mode_of() == LastVisitAction::New,
            r.cur() == initial@,
            r.root_of() == initial@,
            r.depth_of() == 0,
            r.env_of() == *env,
            r.agent_of() == agent,
            r.expands(),
    {
        let ghost root = initial@;
        RecursiveStateVisitor {
            stack: Vec::new(),
            state: initial,
            env,
            agent,
            mode: LastVisitAction::New,
            need_expand_current: true,
            root: Ghost(root),
        }
    }

    /// Tells the engine to treat the current node as a leaf: the next
    /// `advance` will not expand its children.  The decision is per node; the
    /// flag is reset once consumed.
    pub fn stop_expand_current(&mut self)
        ensures
            final(self).wf() == old(self).wf(),
            final(self).mode_of() == old(self).mode_of(),
            final(self).cur() == old(self).cur(),
            final(self).root_of() == old(self).root_of(),
            final(self).depth_of() == old(self).depth_of(),
            final(self).env_of() == old(self).env_of(),
            final(self).agent_of() == old(self).agent_of(),
            final(self).frames_of() == old(self).frames_of(),
            !final(self).expands(),
            forall|k: int| final(self).node_at(k) == old(self).node_at(k),
    {
        self.need_expand_current = false;
    }

    /// Whether the engine currently stands on an entered node, reached via a
    /// new edge or via a sibling edge.
    pub open spec fn at_node(&self) -> bool {
        self.mode_of() == LastVisitAction::EnterNew || self.mode_of() == LastVisitAction::EnterOld
    }

    /// The resume points currently on the stack.
    pub closed spec fn frames_of(&self) -> Seq<ResumePoint<E::Action>> {
        self.stack@
    }

    /// The transition relation of one `advance` call: which mode, depth,
    /// state and pruning flag the engine holds afterwards, in terms of the
    /// configuration it held before.
    pub open spec fn advance_rel(pre: Self, post: Self) -> bool {
        &&& post.root_of() == pre.root_of()
        &&& post.env_of() == pre.env_of()
        &&& post.depth_of() <= pre.depth_of() + 1
        // exhausted: a no-op
        &&& (pre.mode_of() == LastVisitAction::Done ==> post == pre)
        // not started: enters the root without mutating it
        &&& (pre.mode_of() == LastVisitAction::New ==> {
            &&& post.mode_of() == LastVisitAction::EnterNew
            &&& post.cur() == pre.cur()
            &&& post.depth_of() == 0
            &&& post.agent_of() == pre.agent_of()
            &&& post.expands() == pre.expands()
        })
        // expansion: the first generated action is applied and the engine descends
        &&& (pre.at_node() && pre.expands() && pre.agent_of().actions_spec(pre.cur()).len() > 0
            ==> {
            &&& post.mode_of() == LastVisitAction::EnterNew
            &&& post.depth_of() == pre.depth_of() + 1
            &&& post.cur() == pre.env_of().apply_spec(
                pre.cur(),
                pre.agent_of().actions_spec(pre.cur())[0],
            )
            &&& post.expands()
            &&& post.frames_of().subrange(0, pre.frames_of().len() as int) == pre.frames_of()
            &&& frame_model::<E>(post.frames_of().last()) == (
                pre.agent_of().actions_spec(pre.cur()),
                1int,
            )
        })
        // pruning suppresses the descent and leaves the agent untouched
        &&& (pre.at_node() && !pre.expands() ==> post.agent_of() == pre.agent_of())
        // leaf (pruned or childless): backtrack to the deepest pending
        // sibling action, or finish with the state back at the root
        &&& (pre.at_node() && (!pre.expands() || pre.agent_of().actions_spec(pre.cur()).len()
            == 0) ==> {
            &&& post.expands()
            &&& post.depth_of() <= pre.depth_of()
            &&& (post.mode_of(), post.depth_of() as int, post.cur()) == backtrack_model(
                pre.env_of(),
                pre.root_of(),
                pre.frames_of(),
            )
            &&& post.frames_of() == backtrack_frames::<E>(pre.frames_of())
        })
    }

    /// Walks the traversal one node forward.
    ///
    /// From `New` it enters the root without mutating it.  On an entered
    /// node, if the pruning flag allows expansion and the agent produces
    /// actions, it applies the first one and descends one tree edge.
    /// Otherwise the node is a leaf: the engine rolls its entering path back
    /// to the deepest resume point that still has an untried sibling action,
    /// applies that sibling and stands on it; with no pending sibling left
    /// the traversal finishes, the state rolled back to the root.  Once
    /// `Done`, it is a no-op.
    pub fn advance(&mut self)
        requires
            old(self).wf(),
        ensures
            final(self).wf(),
            Self::advance_rel(*old(self), *final(self)),
    {
        match self.mode {
            LastVisitAction::New => {
                self.mode = LastVisitAction::EnterNew;
            },
            LastVisitAction::Done => {
            },
            LastVisitAction::EnterNew | LastVisitAction::EnterOld => {
                if self.need_expand_current {
                    let actions = self.agent.generate_actions(&self.state);
                    if actions.len() > 0 {
                        self.env.apply(&mut self.state, &actions[0]);
                        self.stack.push(ResumePoint { actions, next: 1 });
                        self.mode = LastVisitAction::EnterNew;
                        proof {
                            let pre = *old(self);
                            let n = pre.stack@.len() as int;
                            assert forall|k: int| 0 <= k <= n implies self.node_at(k)
                                == pre.node_at(k) by {
                                lemma_chain_state_prefix(
                                    *pre.env,
                                    pre.root@,
                                    pre.stack@,
                                    self.stack@,
                                    k,
                                );
                            }
                            assert forall|k: int, j: int|
                                0 <= k < self.stack@.len() && self.stack@[k].next - 1 <= j
                                    < self.stack@[k].actions@.len() implies inverts_pair(
                                *self.env,
                                self.node_at(k),
                                (self.stack@[k].actions@[j])@,
                            ) by {
                                if k < n {
                                    assert(self.stack@[k] == pre.stack@[k]);
                                    assert(inverts_pair(
                                        *pre.env,
                                        pre.node_at(k),
                                        (pre.stack@[k].actions@[j])@,
                                    ));
                                } else {
                                    assert(self.stack@[k].actions@[j]@ == pre.agent.actions_spec(
                                        pre.state@,
                                    )[j]);
                                    assert(inverts_pair(
                                        *self.env,
                                        pre.state@,
                                        pre.agent.actions_spec(pre.state@)[j],
                                    ));
                                    assert(self.node_at(k) == pre.state@);
                                }
                            }
                            assert(self.node_at(n + 1) == (*self.env).apply_spec(
                                self.node_at(n),
                                self.stack@[n].actions@[0]@,
                            ));
                            assert(self.stack@.subrange(0, n) =~= pre.stack@);
                            assert(frame_model::<E>(self.stack@.last()).0 =~= pre.agent.actions_spec(
                                pre.state@,
                            ));
                        }
                        return ;
                    }
                }
                self.need_expand_current = true;
                let ghost entry = *self;
                loop
                    invariant_except_break
                        backtrack_model::<E>(*self.env, self.root@, self.stack@)
                            == backtrack_model::<E>(
                            *old(self).env,
                            old(self).root@,
                            old(self).stack@,
                        ),
                        backtrack_frames::<E>(self.stack@) == backtrack_frames::<E>(
                            old(self).stack@,
                        ),
                    invariant
                        generated_actions_invertible::<E, A>(*self.env),
                        self.env == old(self).env,
                        self.root == old(self).root,
                        self.agent == entry.agent,
                        self.need_expand_current,
                        self.stack@.len() <= old(self).stack@.len(),
                        forall|k: int|
                            0 <= k < self.stack@.len() ==> (#[trigger] self.stack@[k]).wf(),
                        forall|k: int, j: int|
                            0 <= k < self.stack@.len() && self.stack@[k].next - 1 <= j
                                < self.stack@[k].actions@.len() ==> inverts_pair(
                                *self.env,
                                self.node_at(k),
                                (#[trigger] self.stack@[k].actions@[j])@,
                            ),
                        self.state@ == self.node_at(self.stack@.len() as int),
                    ensures
                        self.wf(),
                        self.env == old(self).env,
                        self.root == old(self).root,
                        self.agent == entry.agent,
                        self.need_expand_current,
                        self.stack@.len() <= old(self).stack@.len(),
                        (self.mode_of(), self.stack@.len() as int, self.state@)
                            == backtrack_model::<E>(
                            *old(self).env,
                            old(self).root@,
                            old(self).stack@,
                        ),
                        self.stack@ == backtrack_frames::<E>(old(self).stack@),
                    decreases self.stack@.len(),
                {
                    if self.stack.len() == 0 {
                        self.mode = LastVisitAction::Done;
                        break ;
                    }
                    let t = self.stack.len() - 1;
                    proof {
                        assert(self.stack@[t as int].wf());
                    }
                    let a = self.stack[t].next - 1;
                    let ghost mid = *self;
                    self.env.rollback(&mut self.state, &self.stack[t].actions[a]);
                    proof {
                        let n = mid.stack@.len() as int;
                        let f = mid.stack@[n - 1];
                        assert(mid.node_at(n) == (*mid.env).apply_spec(
                            mid.node_at(n - 1),
                            f.actions@[f.next - 1]@,
                        ));
                        assert(inverts_pair(*mid.env, mid.node_at(n - 1), (f.actions@[f.next
                            - 1])@));
                        assert(self.state@ == self.node_at(n - 1));
                    }
                    let j = self.stack[t].next;
                    if j < self.stack[t].actions.len() {
                        self.env.apply(&mut self.state, &self.stack[t].actions[j]);
                        self.stack[t].next = j + 1;
                        self.mode = LastVisitAction::EnterOld;
                        proof {
                            let n = mid.stack@.len() as int;
                            let f = mid.stack@[n - 1];
                            assert(self.stack@ == mid.stack@.update(n - 1, self.stack@[n - 1]));
                            assert forall|k: int| 0 <= k <= n - 1 implies self.node_at(k)
                                == mid.node_at(k) by {
                                lemma_chain_state_prefix(
                                    *mid.env,
                                    mid.root@,
                                    mid.stack@,
                                    self.stack@,
                                    k,
                                );
                            }
                            assert forall|k: int, jj: int|
                                0 <= k < self.stack@.len() && self.stack@[k].next - 1 <= jj
                                    < self.stack@[k].actions@.len() implies inverts_pair(
                                *self.env,
                                self.node_at(k),
                                (self.stack@[k].actions@[jj])@,
                            ) by {
                                if k < n - 1 {
                                    assert(self.stack@[k] == mid.stack@[k]);
                                    assert(inverts_pair(
                                        *mid.env,
                                        mid.node_at(k),
                                        (mid.stack@[k].actions@[jj])@,
                                    ));
                                } else {
                                    assert(self.stack@[k].actions@ == f.actions@);
                                    assert(inverts_pair(
                                        *mid.env,
                                        mid.node_at(k),
                                        (f.actions@[jj])@,
                                    ));
                                }
                            }
                            assert(self.node_at(n) == (*self.env).apply_spec(
                                self.node_at(n - 1),
                                self.stack@[n - 1].actions@[self.stack@[n - 1].next - 1]@,
                            ));
                            assert(self.state@ == self.node_at(n));
                            assert(backtrack_model::<E>(*mid.env, mid.root@, mid.stack@) == (
                                LastVisitAction::EnterOld,
                                n,
                                self.state@,
                            ));
                            assert(backtrack_frames::<E>(mid.stack@) == self.stack@);
                        }
                        break ;
                    } else {
                        let _ = self.stack.pop();
                        proof {
                            let n = mid.stack@.len() as int;
                            assert(self.stack@ =~= mid.stack@.drop_last());
                            assert forall|k: int| 0 <= k <= n - 1 implies self.node_at(k)
                                == mid.node_at(k) by {
                                lemma_chain_state_prefix(
                                    *mid.env,
                                    mid.root@,
                                    mid.stack@,
                                    self.stack@,
                                    k,
                                );
                            }
                            assert(self.state@ == self.node_at(n - 1));
                            assert forall|k: int, jj: int|
                                0 <= k < self.stack@.len() && self.stack@[k].next - 1 <= jj
                                    < self.stack@[k].actions@.len() implies inverts_pair(
                                *self.env,
                                self.node_at(k),
                                (self.stack@[k].actions@[jj])@,
                            ) by {
                                assert(self.stack@[k] == mid.stack@[k]);
                                assert(inverts_pair(
                                    *mid.env,
                                    mid.node_at(k),
                                    (mid.stack@[k].actions@[jj])@,
                                ));
                            }
                            assert(backtrack_model::<E>(*mid.env, mid.root@, mid.stack@)
                                == backtrack_model::<E>(*self.env, self.root@, self.stack@));
                            assert(backtrack_frames::<E>(mid.stack@) == backtrack_frames::<E>(
                                self.stack@,
                            ));
                        }
                    }
                }
            },
        }
    }

    /// Returns a reference into the engine's own state buffer, or nothing
    /// once the traversal is exhausted.  The referenced value is mutated in
    /// place by the next `advance`: this is a streaming contract, not a
    /// standard iteration one.
    pub fn get(&self) -> (r: Option<&E::State>)
        ensures
            (match r {
                Option::Some(s) => self.mode_of() != LastVisitAction::Done && s@ == self.cur(),
                Option::None => self.mode_of() == LastVisitAction::Done,
            }),
    {
        if self.mode == LastVisitAction::Done {
            None
        } else {
            Some(&self.state)
        }
    }
}

/// The policy-driven enumeration layer: it drives the visitor and applies the
/// terminal and continuation policies after each step, so that the lazy
/// sequence it exposes holds exactly the states the terminal policy accepts,
/// while subtrees the continuation policy forbids are suppressed without
/// being surfaced.
pub struct RecursiveStateGenerator<
    'a,
    E: Environment + IsTerminalState<E>,
    A: ActionsGenerator<E> + ShouldContinueSearch<E>,
> {
    visitor: RecursiveStateVisitor<'a, E, A>,
    env: &'a E,
    budget_hit: Ghost<bool>,
    trace: Ghost<Seq<RecursiveStateVisitor<'a, E, A>>>,
}

impl<
    'a,
    E: Environment + IsTerminalState<E>,
    A: ActionsGenerator<E> + ShouldContinueSearch<E>,
> RecursiveStateGenerator<'a, E, A> {
    /// The underlying visitor's traversal mode.
    pub closed spec fn mode_of(&self) -> LastVisitAction {
        self.visitor.mode_of()
    }

    /// View of the shared state buffer.
    pub closed spec fn cur(&self) -> <E::State as View>::V {
        self.visitor.cur()
    }

    /// View of the state the traversal started from.
    pub closed spec fn root_of(&self) -> <E::State as View>::V {
        self.visitor.root_of()
    }

    /// Current depth in the search tree.
    pub closed spec fn depth_of(&self) -> nat {
        self.visitor.depth_of()
    }

    /// The environment driven by this traversal.
    pub closed spec fn env_of(&self) -> E {
        *self.env
    }

    /// The underlying visitor's pruning flag.
    pub closed spec fn expands(&self) -> bool {
        self.visitor.expands()
    }

    /// The underlying visitor's whole configuration.
    pub closed spec fn visitor_of(&self) -> RecursiveStateVisitor<'a, E, A> {
        self.visitor
    }

    /// The visitor configurations the most recent `advance` call passed
    /// through, in order: the witness of its [`Self::drives`] contract.
    pub closed spec fn last_drive(&self) -> Seq<RecursiveStateVisitor<'a, E, A>> {
        self.trace@
    }

    /// Whether the most recent `advance` call gave up after suppressing
    /// `usize::MAX` consecutive configurations without meeting a terminal
    /// state or exhaustion.  [`Self::drives`] only allows this flag when the
    /// drive trace really is that long, so no machine-driven traversal ever
    /// sets it; the budget is what keeps each call provably finite even over
    /// a search tree with no terminal state at all.
    pub closed spec fn hit_step_budget(&self) -> bool {
        self.budget_hit@
    }

    pub closed spec fn wf(&self) -> bool {
        &&& self.visitor.wf()
        &&& self.visitor.env_of() == *self.env
    }

    /// One suppressed step of the enumeration drive: the visitor stands on
    /// an entered, non-terminal configuration `u`; the continuation policy
    /// was consulted on it (its agent may update itself to any value, held
    /// by the intermediate configuration), the expansion flag was cleared
    /// exactly where the policy refused, and one visitor step led to `w`.
    /// Configurations stepped over this way are never surfaced.
    pub open spec fn policy_step(
        env: E,
        u: RecursiveStateVisitor<'a, E, A>,
        w: RecursiveStateVisitor<'a, E, A>,
    ) -> bool {
        &&& u.mode_of() != LastVisitAction::Done
        &&& !env.is_terminal_spec(u.cur())
        &&& exists|mid: RecursiveStateVisitor<'a, E, A>|
            {
                &&& (#[trigger] mid.mode_of()) == u.mode_of()
                &&& mid.cur() == u.cur()
                &&& mid.root_of() == u.root_of()
                &&& mid.env_of() == u.env_of()
                &&& mid.frames_of() == u.frames_of()
                &&& mid.depth_of() == u.depth_of()
                &&& mid.expands() == (u.expands() && u.agent_of().should_continue_spec(u.cur()))
                &&& RecursiveStateVisitor::advance_rel(mid, w)
            }
    }

    /// The whole outcome of one `advance` of the enumeration layer.  `tr`
    /// lists the visitor configurations passed through: the first comes from
    /// one visitor step out of `pre`, each later one from a policy-suppressed
    /// step, and none but the last is exhausted or terminal — the drive
    /// stops at the first configuration that is, surfacing it with its
    /// expansion flag cleared when it is terminal.  The step-budget flag is
    /// allowed only when the drive really suppressed `usize::MAX`
    /// configurations first.
    pub open spec fn drives(
        pre: Self,
        post: Self,
        tr: Seq<RecursiveStateVisitor<'a, E, A>>,
    ) -> bool {
        &&& tr.len() >= 1
        &&& RecursiveStateVisitor::advance_rel(pre.visitor_of(), tr[0])
        &&& forall|i: int|
            0 <= i < tr.len() - 1 ==> Self::policy_step(pre.env_of(), #[trigger] tr[i], tr[i + 1])
        &&& (if post.hit_step_budget() {
            &&& tr.len() == usize::MAX as int + 1
            &&& post.visitor_of() == tr.last()
            &&& tr.last().mode_of() != LastVisitAction::Done
            &&& !pre.env_of().is_terminal_spec(tr.last().cur())
        } else if tr.last().mode_of() == LastVisitAction::Done {
            post.visitor_of() == tr.last()
        } else {
            &&& pre.env_of().is_terminal_spec(tr.last().cur())
            &&& post.visitor_of().mode_of() == tr.last().mode_of()
            &&& post.visitor_of().cur() == tr.last().cur()
            &&& post.visitor_of().root_of() == tr.last().root_of()
            &&& post.visitor_of().env_of() == tr.last().env_of()
            &&& post.visitor_of().frames_of() == tr.last().frames_of()
            &&& post.visitor_of().depth_of() == tr.last().depth_of()
            &&& post.visitor_of().agent_of() == tr.last().agent_of()
            &&& !post.visitor_of().expands()
        })
    }

    /// Creates a policy-driven enumeration over the tree rooted at
    /// `initial`.  The caller guarantees the same exact-inverse precondition
    /// as for the visitor.
    pub fn new(initial: E::State, env: &'a E, agent: A) -> (r: Self)
        requires
            generated_actions_invertible::<E, A>(*env),
        ensures
            r.wf(),
            r.mode_of() == LastVisitAction::New,
            r.cur() == initial@,
            r.root_of() == initial@,
            r.depth_of() == 0,
            r.env_of() == *env,
            r.expands(),
            !r.hit_step_budget(),
    {
        RecursiveStateGenerator {
            visitor: RecursiveStateVisitor::new(initial, env, agent),
            env,
            budget_hit: Ghost(false),
            trace: Ghost(Seq::empty()),
        }
    }

    /// Drives the visitor forward until it stands on a state the terminal
    /// policy accepts (which is then treated as a leaf), or the traversal is
    /// exhausted.  States the continuation policy rejects have their
    /// subtrees suppressed and are not surfaced.  The whole outcome — which
    /// configurations were stepped over, where the drive stopped, and how
    /// the surfaced one looks — is fixed by [`Self::drives`] over the drive
    /// trace [`Self::last_drive`].
    ///
    /// An already terminal root is yielded once and the traversal then
    /// finishes; after exhaustion the call is a no-op.
    pub fn advance(&mut self)
        requires
            old(self).wf(),
        ensures
            final(self).wf(),
            final(self).root_of() == old(self).root_of(),
            final(self).env_of() == old(self).env_of(),
            // the full outcome: one visitor step, then policy-suppressed
            // steps up to the first terminal or exhausted configuration
            Self::drives(*old(self), *final(self), final(self).last_drive()),
            // the enumeration halts only at terminal states or exhaustion
            !final(self).hit_step_budget() ==> final(self).mode_of() == LastVisitAction::Done || (
            final(self).mode_of() != LastVisitAction::Done
                && final(self).env_of().is_terminal_spec(final(self).cur()) && !final(self).expands()),
            // an already terminal root is entered and yielded as a leaf
            old(self).mode_of() == LastVisitAction::New && old(self).env_of().is_terminal_spec(
                old(self).root_of(),
            ) && old(self).expands() ==> final(self).mode_of() == LastVisitAction::EnterNew
                && final(self).cur() == old(self).root_of() && final(self).depth_of() == 0 && !final(self).expands() && !final(self).hit_step_budget(),
            // ... and the call after that finishes the traversal
            old(self).mode_of() == LastVisitAction::EnterNew && old(self).depth_of() == 0 && !old(self).expands() ==> final(self).mode_of() == LastVisitAction::Done && !final(self).hit_step_budget(),
            // advancing an exhausted traversal changes nothing
            old(self).mode_of() == LastVisitAction::Done ==> final(self).mode_of()
                == LastVisitAction::Done && final(self).cur() == old(self).cur() && !final(self).hit_step_budget(),
    {
        self.budget_hit = Ghost(false);
        self.visitor.advance();
        let ghost pv = self.visitor;
        let ghost mut tr: Seq<RecursiveStateVisitor<'a, E, A>> = seq![self.visitor];
        let mut fuel: usize = usize::MAX;
        loop
            invariant_except_break
                self.budget_hit@ == false,
                tr.last() == self.visitor,
                pv.mode_of() == LastVisitAction::Done ==> self.visitor == pv,
                pv.mode_of() != LastVisitAction::Done && (*self.env).is_terminal_spec(pv.cur())
                    ==> self.visitor == pv,
            invariant
                self.visitor.wf(),
                self.env == old(self).env,
                self.visitor.env_of() == *self.env,
                self.visitor.root_of() == old(self).root_of(),
                tr.len() >= 1,
                tr.len() == usize::MAX - fuel + 1,
                tr[0] == pv,
                RecursiveStateVisitor::advance_rel(old(self).visitor, tr[0]),
                forall|i: int|
                    0 <= i < tr.len() - 1 ==> Self::policy_step(
                        *self.env,
                        #[trigger] tr[i],
                        tr[i + 1],
                    ),
            ensures
                self.visitor.wf(),
                self.visitor.env_of() == *self.env,
                self.visitor.root_of() == old(self).root_of(),
                tr.len() >= 1,
                tr[0] == pv,
                RecursiveStateVisitor::advance_rel(old(self).visitor, tr[0]),
                forall|i: int|
                    0 <= i < tr.len() - 1 ==> Self::policy_step(
                        *self.env,
                        #[trigger] tr[i],
                        tr[i + 1],
                    ),
                self.budget_hit@ ==> tr.len() == usize::MAX as int + 1 && self.visitor
                    == tr.last() && tr.last().mode_of() != LastVisitAction::Done && !(
                *self.env).is_terminal_spec(tr.last().cur()),
                !self.budget_hit@ && tr.last().mode_of() == LastVisitAction::Done ==> self.visitor
                    == tr.last(),
                !self.budget_hit@ && tr.last().mode_of() != LastVisitAction::Done ==> (
                *self.env).is_terminal_spec(tr.last().cur()) && self.visitor.mode_of()
                    == tr.last().mode_of() && self.visitor.cur() == tr.last().cur()
                    && self.visitor.root_of() == tr.last().root_of() && self.visitor.env_of()
                    == tr.last().env_of() && self.visitor.frames_of() == tr.last().frames_of()
                    && self.visitor.depth_of() == tr.last().depth_of() && self.visitor.agent_of()
                    == tr.last().agent_of() && !self.visitor.expands(),
                !self.budget_hit@ ==> self.visitor.mode_of() == LastVisitAction::Done || (
                self.visitor.mode_of() != LastVisitAction::Done && (
                *self.env).is_terminal_spec(self.visitor.cur()) && !self.visitor.expands()),
                pv.mode_of() == LastVisitAction::Done ==> self.visitor == pv && !self.budget_hit@,
                pv.mode_of() != LastVisitAction::Done && (*self.env).is_terminal_spec(pv.cur())
                    ==> self.visitor.mode_of() == pv.mode_of() && self.visitor.cur() == pv.cur()
                    && self.visitor.depth_of() == pv.depth_of() && !self.visitor.expands()
                    && !self.budget_hit@,
            decreases fuel,
        {
            if self.visitor.mode == LastVisitAction::Done {
                break ;
            }
            if self.env.is_terminal_state(&self.visitor.state) {
                self.visitor.stop_expand_current();
                break ;
            }
            if fuel == 0 {
                self.budget_hit = Ghost(true);
                break ;
            }
            let ghost u = self.visitor;
            if !self.visitor.agent.should_continue(&self.visitor.state) {
                self.visitor.stop_expand_current();
            }
            let ghost mid = self.visitor;
            fuel = fuel - 1;
            self.visitor.advance();
            proof {
                assert(Self::policy_step(*self.env, u, self.visitor)) by {
                    assert(mid.mode_of() == u.mode_of());
                    assert(mid.cur() == u.cur());
                    assert(mid.root_of() == u.root_of());
                    assert(mid.env_of() == u.env_of());
                    assert(mid.frames_of() == u.frames_of());
                    assert(mid.depth_of() == u.depth_of());
                    assert(mid.expands() == (u.expands() && u.agent_of().should_continue_spec(
                        u.cur(),
                    )));
                    assert(RecursiveStateVisitor::advance_rel(mid, self.visitor));
                }
                tr = tr.push(self.visitor);
            }
        }
        self.trace = Ghost(tr);
    }

    /// Returns a reference into the engine's own state buffer, or nothing
    /// once the traversal is exhausted.  The referenced value is mutated in
    /// place by the next `advance`.
    pub fn get(&self) -> (r: Option<&E::State>)
        ensures
            (match r {
                Option::Some(s) => self.mode_of() != LastVisitAction::Done && s@ == self.cur(),
                Option::None => self.mode_of() == LastVisitAction::Done,
            }),
    {
        self.visitor.get()
    }
}

/// Work left in a traversal over a uniform tree: node entries still to be
/// made, plus one final step to finish.  Every `advance` lowers it by
/// exactly one, which is what makes the exhaustive enumeration terminate.
pub closed spec fn uniform_measure<'a, E: Environment, A: ActionsGenerator<E>>(
    v: RecursiveStateVisitor<'a, E, A>,
    b: int,
    d: int,
) -> int {
    (if v.mode_of() == LastVisitAction::New {
        tree_size(b, d)
    } else if v.at_node() && v.expands() {
        tree_size(b, d - v.depth_of()) - 1
    } else {
        0int
    }) + rem_entries::<E>(v.frames_of(), b, d) + (if v.mode_of() == LastVisitAction::Done {
        0int
    } else {
        1int
    })
}

/// Exhaustive enumeration over a uniform tree.  On a model where every
/// state below the terminal level offers exactly `b` candidate actions,
/// every such action descends one `lvl` level, and exactly the states at
/// level `d` are terminal, the traversal
/// meets exactly `b ^ d` terminal states: no sibling is ever missed and no
/// subtree is counted twice.  Only terminal states are counted, which is the
/// enumeration convention of [`RecursiveStateGenerator`] as well.  The
/// second result is the deepest resume stack the whole traversal ever used:
/// it never exceeds `d`, so the memory cost is bounded by the tree depth,
/// never by the `b ^ d` node count.
pub fn count_uniform_terminal_states<
    'a,
    E: Environment + IsTerminalState<E>,
    A: ActionsGenerator<E>,
>(
    initial: E::State,
    env: &'a E,
    agent: A,
    Ghost(b): Ghost<int>,
    Ghost(d): Ghost<int>,
    Ghost(lvl): Ghost<spec_fn(<E::State as View>::V) -> int>,
) -> (r: (usize, Ghost<int>))
    requires
        generated_actions_invertible::<E, A>(*env),
        1 <= b <= usize::MAX,
        d >= 0,
        forall|g: A, s: <E::State as View>::V|
            lvl(s) < d ==> (#[trigger] g.actions_spec(s)).len() == b,
        forall|g: A, s: <E::State as View>::V, i: int|
            0 <= i < b && lvl(s) < d ==> lvl((*env).apply_spec(s, #[trigger] g.actions_spec(s)[i]))
                == lvl(s) + 1,
        forall|s: <E::State as View>::V| #[trigger] (*env).is_terminal_spec(s) <==> lvl(s) >= d,
        lvl(initial@) == 0,
        upow(b, d) <= usize::MAX,
    ensures
        r.0 as int == upow(b, d),
        0 <= r.1@ <= d,
{
    let mut v = RecursiveStateVisitor::new(initial, env, agent);
    let ghost mut peak: int = 0;
    let mut count: usize = 0;
    loop
        invariant_except_break
            v.mode_of() != LastVisitAction::Done,
        invariant
            1 <= b <= usize::MAX,
            d >= 0,
            upow(b, d) <= usize::MAX,
            forall|g: A, s: <E::State as View>::V|
                lvl(s) < d ==> (#[trigger] g.actions_spec(s)).len() == b,
            forall|g: A, s: <E::State as View>::V, i: int|
                0 <= i < b && lvl(s) < d ==> lvl(
                    (*env).apply_spec(s, #[trigger] g.actions_spec(s)[i]),
                ) == lvl(s) + 1,
            forall|s: <E::State as View>::V| #[trigger] (*env).is_terminal_spec(s) <==> lvl(s)
                >= d,
            lvl(initial@) == 0,
            v.wf(),
            v.env_of() == *env,
            v.root_of() == initial@,
            uniform_stack::<E>(*env, initial@, v.frames_of(), b, lvl),
            v.at_node() ==> lvl(v.cur()) == v.depth_of(),
            v.mode_of() == LastVisitAction::New ==> count == 0 && v.expands() && v.depth_of()
                == 0,
            v.at_node() && v.expands() ==> v.depth_of() < d,
            v.at_node() && !v.expands() ==> v.depth_of() == d,
            0 <= peak <= d,
            v.depth_of() <= peak || v.mode_of() == LastVisitAction::New,
            count + (if v.mode_of() == LastVisitAction::New {
                upow(b, d)
            } else if v.at_node() && v.expands() {
                upow(b, d - v.depth_of())
            } else {
                0int
            }) + rem_leaves::<E>(v.frames_of(), b, d) == upow(b, d),
        ensures
            count as int == upow(b, d),
            0 <= peak <= d,
        decreases uniform_measure(v, b, d),
    {
        let ghost pv = v;
        v.advance();
        proof {
            if v.depth_of() > peak {
                peak = v.depth_of() as int;
            }
            let fr0 = pv.frames_of();
            let n0 = fr0.len() as int;
            assert(n0 == pv.depth_of());
            if pv.mode_of() == LastVisitAction::New {
                assert(v.frames_of() =~= fr0);
                lemma_tree_size_pos(b, d);
                lemma_upow_pos(b, d);
            } else if pv.expands() {
                // expansion: the hypotheses give the new node's level, and
                // the fresh resume point holds the b generated actions
                let acts = pv.agent_of().actions_spec(pv.cur());
                assert(acts.len() == b);
                assert(v.cur() == (*env).apply_spec(pv.cur(), acts[0]));
                assert(lvl(v.cur()) == n0 + 1);
                let nf = v.frames_of();
                let n1 = n0 + 1;
                assert(nf.len() == n1);
                assert(nf.subrange(0, n0) == fr0);
                assert forall|i: int| 0 <= i < n0 implies nf[i] == fr0[i] by {
                    assert(nf.subrange(0, n0)[i] == nf[i]);
                }
                let newf = nf[n1 - 1];
                assert(frame_model::<E>(newf) == (acts, 1int));
                assert(newf.next == 1);
                assert(newf.actions@.len() == b);
                assert forall|j: int| 0 <= j < newf.actions@.len() implies (
                #[trigger] newf.actions@[j])@ == acts[j] by {
                    assert(frame_model::<E>(newf).0[j] == newf.actions@[j]@);
                }
                assert forall|k: int| 0 <= k <= n0 implies chain_state(*env, initial@, nf, k)
                    == chain_state(*env, initial@, fr0, k) by {
                    lemma_chain_state_prefix(*env, initial@, nf, fr0, k);
                }
                assert(v.cur() == chain_state(*env, initial@, nf, n1));
                assert forall|k: int| 0 <= k <= nf.len() implies lvl(
                    #[trigger] chain_state(*env, initial@, nf, k),
                ) == k by {
                    if k <= n0 {
                        assert(chain_state(*env, initial@, nf, k) == chain_state(
                            *env,
                            initial@,
                            fr0,
                            k,
                        ));
                    }
                }
                assert forall|k: int, j: int|
                    0 <= k < nf.len() && nf[k].next - 1 <= j < nf[k].actions@.len() implies lvl(
                    (*env).apply_spec(
                        chain_state(*env, initial@, nf, k),
                        (#[trigger] nf[k].actions@[j])@,
                    ),
                ) == k + 1 by {
                    if k < n0 {
                        assert(nf[k] == fr0[k]);
                        assert(lvl((*env).apply_spec(
                            chain_state(*env, initial@, fr0, k),
                            (fr0[k].actions@[j])@,
                        )) == k + 1);
                    } else {
                        assert(newf.actions@[j]@ == acts[j]);
                        assert(lvl((*env).apply_spec(pv.cur(), acts[j])) == lvl(pv.cur()) + 1);
                    }
                }
                assert(uniform_stack::<E>(*env, initial@, nf, b, lvl));
                // bookkeeping: the new resume point adds b - 1 pending
                // siblings one level down
                assert(nf.drop_last() =~= fr0);
                assert(rem_leaves::<E>(nf, b, d) == rem_leaves::<E>(fr0, b, d) + (b - 1) * upow(
                    b,
                    d - n1,
                ));
                assert(rem_entries::<E>(nf, b, d) == rem_entries::<E>(fr0, b, d) + (b - 1)
                    * tree_size(b, d - n1));
                assert(upow(b, d - n0) == b * upow(b, d - n1));
                assert(tree_size(b, d - n0) == 1 + b * tree_size(b, d - n1));
                assert(b * upow(b, d - n1) == upow(b, d - n1) + (b - 1) * upow(b, d - n1))
                    by (nonlinear_arith);
                assert(b * tree_size(b, d - n1) == tree_size(b, d - n1) + (b - 1) * tree_size(
                    b,
                    d - n1,
                )) by (nonlinear_arith);
                lemma_upow_pos(b, d - n1);
                lemma_tree_size_pos(b, d - n1);
            } else {
                // leaf: backtracking lands on the deepest pending sibling or
                // finishes with nothing pending
                lemma_backtrack_uniform::<E>(*env, initial@, fr0, b, d, lvl);
                assert((v.mode_of(), v.depth_of() as int, v.cur()) == backtrack_model::<E>(
                    *env,
                    initial@,
                    fr0,
                ));
                assert(v.frames_of() == backtrack_frames::<E>(fr0));
                if v.mode_of() == LastVisitAction::Done {
                    assert(count as int == upow(b, d));
                } else {
                    lemma_upow_pos(b, d - v.depth_of());
                    lemma_tree_size_pos(b, d - v.depth_of());
                }
            }
            lemma_rem_nonneg::<E>(v.frames_of(), b, d);
            lemma_rem_nonneg::<E>(fr0, b, d);
        }
        if v.mode == LastVisitAction::Done {
            break ;
        }
        if env.is_terminal_state(&v.state) {
            count = count + 1;
            v.stop_expand_current();
        }
    }
    (count, Ghost(peak))
}

} // verus!
