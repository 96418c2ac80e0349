//! A nondeterministic stack-rewriting automaton that reads one terminal
//! symbol at a time and follows every expansion its grammar allows.

use crate::discard::answers;
use crate::discard::kept;
use crate::discard::kept_upto;
use crate::discard::lemma_kept_upto_agrees;
use crate::discard::lemma_kept_upto_map;
use crate::discard::lemma_kept_upto_unmarked;
use crate::discard::HasDiscardFunc;
use crate::list::List;
use crate::list::ListState;
use vstd::prelude::*;
use vstd::std_specs::cmp::PartialEqSpec;

verus! {

/// One element of a grammar: a terminal symbol or a rule still to expand.
#[derive(Copy, Debug, PartialEq, Eq)]
pub enum SymbolOrRule<SymbolType, RuleType> where SymbolType: Copy, RuleType: Copy {
    Symbol(SymbolType),
    Rule(RuleType),
}

impl<S: Copy, R: Copy> Clone for SymbolOrRule<S, R> {
    fn clone(&self) -> (r: Self)
        ensures
            r == *self,
    {
        *self
    }
}

/// The elements that each of some stacks holds, top first.
pub open spec fn stacks_of<S: Copy, R: Copy>(stacks: Seq<List<SymbolOrRule<S, R>>>) -> Seq<
    Seq<SymbolOrRule<S, R>>,
> {
    stacks.map_values(|stack: List<SymbolOrRule<S, R>>| stack@)
}

/// A grammar, given by its rules. Expanding a rule depends on the rule and on
/// the stack below it alone, never on the symbol that is read next.
pub trait ParseRule<SymbolType, RuleType> where SymbolType: Copy, RuleType: Copy {
    /// The rule that a parse starts from. A grammar that does not say which
    /// it is leaves it unknown.
    open spec fn root_rule() -> RuleType {
        arbitrary()
    }

    /// The stacks that may take the place of this rule on top of `rest`, one
    /// for each way to expand it. None at all means that the rule cannot be
    /// expanded there. A grammar that does not say what they are leaves them
    /// unknown.
    open spec fn expansions(&self, rest: Seq<SymbolOrRule<SymbolType, RuleType>>) -> Seq<
        Seq<SymbolOrRule<SymbolType, RuleType>>,
    > {
        arbitrary()
    }

    /// Hands out the rule that a parse starts from.
    fn root() -> (r: RuleType)
        ensures
            r == Self::root_rule(),
    ;

    /// Expands this rule on top of `stack`: hands out, for each way to expand
    /// it, the stack that takes the place of the rule and what was below it.
    fn execute(&self, stack: List<SymbolOrRule<SymbolType, RuleType>>) -> (r: Vec<
        List<SymbolOrRule<SymbolType, RuleType>>,
    >)
        ensures
            stacks_of(r@) == self.expansions(stack@),
    ;
}

/// Why the machine turned its input down.
#[derive(Copy, Clone, Debug, PartialEq, Eq, Structural)]
pub enum RejectReason {
    /// No branch could take the symbol.
    Error,
    /// Several branches are left and all of them have accepted.
    Ambiguous,
    /// The machine had already come to an end before the symbol was given.
    AlreadyTerminal,
}

/// How far a parse has come.
#[derive(Copy, Clone, Debug, PartialEq, Eq, Structural)]
pub enum ProcessResult {
    /// More input is expected.
    Awaiting,
    /// The input read so far is a whole parse.
    Accepted,
}

/// What reading one symbol gave.
pub enum ReadResult<SymbolType, RuleType> where SymbolType: Copy, RuleType: Copy {
    /// The symbol was turned down, and the machine has come to an end.
    Rejected { reason: RejectReason },
    /// The symbol was taken. `symbols` holds the rules expanded since the
    /// last time any were handed out, oldest first; it is empty while more
    /// than one branch is alive.
    Processed { result: ProcessResult, symbols: Vec<SymbolOrRule<SymbolType, RuleType>> },
}

/// A `ReadResult` with its symbols as a sequence.
pub enum Outcome<S: Copy, R: Copy> {
    Rejected { reason: RejectReason },
    Processed { result: ProcessResult, symbols: Seq<SymbolOrRule<S, R>> },
}

impl<S: Copy, R: Copy> View for ReadResult<S, R> {
    type V = Outcome<S, R>;

    open spec fn view(&self) -> Outcome<S, R> {
        match self {
            ReadResult::Rejected { reason } => Outcome::Rejected { reason: *reason },
            ReadResult::Processed { result, symbols } => Outcome::Processed {
                result: *result,
                symbols: symbols@,
            },
        }
    }
}

/// One candidate parse: the elements still to be matched, top first, the
/// rules expanded since the last hand-out, newest first, and whether the
/// candidate is still in the running.
pub struct BranchView<S: Copy, R: Copy> {
    pub stack: Seq<SymbolOrRule<S, R>>,
    pub trace: Seq<SymbolOrRule<S, R>>,
    pub alive: bool,
}

/// One candidate parse of the input read so far.
pub struct ParseBranch<SymbolType, RuleType> where SymbolType: Copy, RuleType: Copy {
    stack: List<SymbolOrRule<SymbolType, RuleType>>,
    parsed: List<SymbolOrRule<SymbolType, RuleType>>,
    alive: bool,
}

impl<S: Copy, R: Copy> View for ParseBranch<S, R> {
    type V = BranchView<S, R>;

    closed spec fn view(&self) -> BranchView<S, R> {
        BranchView { stack: self.stack@, trace: self.parsed@, alive: self.alive }
    }
}

impl<S: Copy, R: Copy + ParseRule<S, R>> ParseBranch<S, R> {
    /// The branch that every parse starts with: the root rule to expand,
    /// an empty trace.
    pub fn new() -> (r: Self)
        ensures
            r@ == (BranchView {
                stack: seq![SymbolOrRule::<S, R>::Rule(R::root_rule())],
                trace: Seq::empty(),
                alive: true,
            }),
    {
        let root = R::root();
        let stack = List::cons(SymbolOrRule::Rule(root), List::empty());
        assert(stack@ =~= seq![SymbolOrRule::<S, R>::Rule(R::root_rule())]);
        Self { stack: stack, parsed: List::empty(), alive: true }
    }

    /// A live branch with the given stack and an empty trace.
    pub fn from_stack(stack: List<SymbolOrRule<S, R>>) -> (r: Self)
        ensures
            r@ == (BranchView { stack: stack@, trace: Seq::empty(), alive: true }),
    {
        Self { stack: stack, parsed: List::empty(), alive: true }
    }

    /// A branch with the same stack, trace and liveness, sharing their cells.
    pub fn clone(&self) -> (r: Self)
        ensures
            r@ == self@,
    {
        Self { stack: self.stack.clone(), parsed: self.parsed.clone(), alive: self.alive }
    }
}

/// The view of each branch, in order.
pub open spec fn views<S: Copy, R: Copy>(branches: Seq<ParseBranch<S, R>>) -> Seq<
    BranchView<S, R>,
> {
    branches.map_values(|branch: ParseBranch<S, R>| branch@)
}

/// Whether the rules on top of `stack` can be expanded, along every
/// alternative, down to a terminal symbol or an empty stack in at most `fuel`
/// expansions one after another.
pub open spec fn expands_within<S: Copy, R: Copy + ParseRule<S, R>>(
    stack: Seq<SymbolOrRule<S, R>>,
    fuel: nat,
) -> bool
    decreases fuel,
{
    stack.len() == 0 || match stack[0] {
        SymbolOrRule::Symbol(_) => true,
        SymbolOrRule::Rule(rule) => fuel > 0 && forall|i: int|
            0 <= i < rule.expansions(stack.skip(1)).len() ==> expands_within::<S, R>(
                #[trigger] rule.expansions(stack.skip(1))[i],
                (fuel - 1) as nat,
            ),
    }
}

/// The branches that one branch turns into when `input` is read, with at
/// most `fuel` expansions one after another.
///
/// An empty stack has accepted and stays as it is. A terminal symbol on top is
/// held against `input`: if they agree it is popped, if not the branch
/// dies. A rule on top is popped and recorded in the trace, and each of its
/// expansions is followed in turn, in the order the grammar gives them; a rule
/// without expansions leaves a dead branch. Where the fuel runs out under a
/// rule the branch is given up as dead; `expands_within` says when it does
/// not run out.
pub open spec fn resolved<S: Copy + PartialEq, R: Copy + ParseRule<S, R>>(
    stack: Seq<SymbolOrRule<S, R>>,
    trace: Seq<SymbolOrRule<S, R>>,
    input: S,
    fuel: nat,
) -> Seq<BranchView<S, R>>
    decreases fuel, 0nat,
{
    if stack.len() == 0 {
        seq![BranchView { stack, trace, alive: true }]
    } else {
        match stack[0] {
            SymbolOrRule::Symbol(symbol) => if input.eq_spec(&symbol) {
                seq![BranchView { stack: stack.skip(1), trace, alive: true }]
            } else {
                seq![BranchView { stack, trace, alive: false }]
            },
            SymbolOrRule::Rule(rule) => {
                let recorded = seq![stack[0]] + trace;
                let candidates = rule.expansions(stack.skip(1));
                if fuel == 0 || candidates.len() == 0 {
                    seq![BranchView { stack: Seq::empty(), trace: recorded, alive: false }]
                } else {
                    resolved_each(candidates, recorded, input, (fuel - 1) as nat)
                }
            },
        }
    }
}

/// The branches that the given stacks turn into, one stack after the other,
/// each starting from the same trace.
pub open spec fn resolved_each<S: Copy + PartialEq, R: Copy + ParseRule<S, R>>(
    stacks: Seq<Seq<SymbolOrRule<S, R>>>,
    trace: Seq<SymbolOrRule<S, R>>,
    input: S,
    fuel: nat,
) -> Seq<BranchView<S, R>>
    decreases fuel, stacks.len() + 1,
{
    if stacks.len() == 0 {
        Seq::empty()
    } else {
        resolved_each(stacks.drop_last(), trace, input, fuel) + resolved(
            stacks.last(),
            trace,
            input,
            fuel,
        )
    }
}

/// Follows one branch through the reading of `input` and appends what it
/// turns into to `out`.
fn resolve<S: Copy + PartialEq, R: Copy + ParseRule<S, R>>(
    stack: List<SymbolOrRule<S, R>>,
    parsed: List<SymbolOrRule<S, R>>,
    input: S,
    out: &mut Vec<ParseBranch<S, R>>,
    Ghost(fuel): Ghost<nat>,
)
    requires
        expands_within::<S, R>(stack@, fuel),
    ensures
        S::obeys_eq_spec() ==> views(final(out)@) == views(old(out)@) + resolved(
            stack@,
            parsed@,
            input,
            fuel,
        ),
    decreases fuel,
{
    let ghost before = views(out@);
    let ghost goal = resolved(stack@, parsed@, input, fuel);
    match stack.state() {
        ListState::EmptyList => {
            out.push(ParseBranch { stack: List::empty(), parsed: parsed, alive: true });
            proof {
                assert(stack@ =~= Seq::empty());
                assert(views(out@) =~= before + goal);
            }
        },
        ListState::NonEmptyList(head, tail) => {
            let top: SymbolOrRule<S, R> = *head;
            match top {
                SymbolOrRule::Symbol(symbol) => {
                    if input == symbol {
                        out.push(ParseBranch { stack: tail, parsed: parsed, alive: true });
                    } else {
                        out.push(ParseBranch { stack: stack, parsed: parsed, alive: false });
                    }
                    proof {
                        if S::obeys_eq_spec() {
                            assert(views(out@) =~= before + goal);
                        }
                    }
                },
                SymbolOrRule::Rule(rule) => {
                    let ghost rest = tail@;
                    let candidates = rule.execute(tail);
                    let recorded = List::cons(top, parsed);
                    if candidates.len() == 0 {
                        out.push(
                            ParseBranch { stack: List::empty(), parsed: recorded, alive: false },
                        );
                        proof {
                            assert(views(out@) =~= before + goal);
                        }
                    } else {
                        let ghost stacks = rule.expansions(rest);
                        let mut i: usize = 0;
                        while i < candidates.len()
                            invariant
                                i <= candidates.len(),
                                fuel > 0,
                                stacks_of(candidates@) == stacks,
                                forall|k: int|
                                    0 <= k < stacks.len() ==> expands_within::<S, R>(
                                        #[trigger] stacks[k],
                                        (fuel - 1) as nat,
                                    ),
                                S::obeys_eq_spec() ==> views(out@) == before + resolved_each(
                                    stacks.take(i as int),
                                    recorded@,
                                    input,
                                    (fuel - 1) as nat,
                                ),
                            decreases candidates.len() - i,
                        {
                            assert(stacks[i as int] == candidates@[i as int]@);
                            resolve(
                                candidates[i].clone(),
                                recorded.clone(),
                                input,
                                out,
                                Ghost((fuel - 1) as nat),
                            );
                            proof {
                                assert(stacks.take(i + 1).drop_last() =~= stacks.take(i as int));
                                if S::obeys_eq_spec() {
                                    assert(views(out@) =~= before + resolved_each(
                                        stacks.take(i + 1),
                                        recorded@,
                                        input,
                                        (fuel - 1) as nat,
                                    ));
                                }
                            }
                            i += 1;
                        }
                        proof {
                            assert(stacks.take(i as int) =~= stacks);
                        }
                    }
                },
            }
        },
    }
}

/// Whether the rules on top of `stack` can be expanded down to terminal
/// symbols in a bounded number of steps.
pub open spec fn expandable<S: Copy, R: Copy + ParseRule<S, R>>(
    stack: Seq<SymbolOrRule<S, R>>,
) -> bool {
    exists|fuel: nat| expands_within::<S, R>(stack, fuel)
}

/// Whether every stack can be expanded down to terminal symbols in a bounded
/// number of steps: no rule of the grammar leads back to itself on top of the
/// stack without a terminal symbol read in between.
pub open spec fn well_founded<S: Copy, R: Copy + ParseRule<S, R>>() -> bool {
    forall|stack: Seq<SymbolOrRule<S, R>>| #[trigger] expandable::<S, R>(stack)
}

/// A number of expansions one after another that is enough for `stack`,
/// where there is one.
pub open spec fn depth_needed<S: Copy, R: Copy + ParseRule<S, R>>(
    stack: Seq<SymbolOrRule<S, R>>,
) -> nat {
    choose|fuel: nat| expands_within::<S, R>(stack, fuel)
}

/// The branches that one branch of the machine turns into when `input` is
/// read. A dead branch stays as it is.
pub open spec fn step_branch<S: Copy + PartialEq, R: Copy + ParseRule<S, R>>(
    branch: BranchView<S, R>,
    input: S,
) -> Seq<BranchView<S, R>> {
    if branch.alive {
        resolved(branch.stack, branch.trace, input, depth_needed::<S, R>(branch.stack))
    } else {
        seq![branch]
    }
}

/// The branches that all branches turn into when `input` is read, those of
/// the first branch first.
pub open spec fn step_all<S: Copy + PartialEq, R: Copy + ParseRule<S, R>>(
    branches: Seq<BranchView<S, R>>,
    input: S,
) -> Seq<BranchView<S, R>>
    decreases branches.len(),
{
    if branches.len() == 0 {
        Seq::empty()
    } else {
        step_all(branches.drop_last(), input) + step_branch(branches.last(), input)
    }
}

/// For each branch, whether it is dead.
pub open spec fn dead_marks<S: Copy, R: Copy>(branches: Seq<BranchView<S, R>>) -> Seq<bool> {
    branches.map_values(|branch: BranchView<S, R>| !branch.alive)
}

/// The branches that are alive, in the order they stand in.
pub open spec fn survivors<S: Copy, R: Copy>(branches: Seq<BranchView<S, R>>) -> Seq<
    BranchView<S, R>,
> {
    kept(branches, dead_marks(branches))
}

/// How many of the branches have an empty stack.
pub open spec fn accepted_count<S: Copy, R: Copy>(branches: Seq<BranchView<S, R>>) -> nat
    decreases branches.len(),
{
    if branches.len() == 0 {
        0
    } else {
        accepted_count(branches.drop_last()) + if branches.last().stack.len() == 0 {
            1nat
        } else {
            0nat
        }
    }
}

/// What the machine reports once `live` are the branches left after a symbol.
pub open spec fn outcome<S: Copy, R: Copy>(live: Seq<BranchView<S, R>>) -> Outcome<S, R> {
    if live.len() == 0 {
        Outcome::Rejected { reason: RejectReason::Error }
    } else if live.len() == 1 {
        Outcome::Processed {
            result: if accepted_count(live) == 1 {
                ProcessResult::Accepted
            } else {
                ProcessResult::Awaiting
            },
            symbols: live[0].trace.reverse(),
        }
    } else if accepted_count(live) == live.len() {
        Outcome::Rejected { reason: RejectReason::Ambiguous }
    } else {
        Outcome::Processed { result: ProcessResult::Awaiting, symbols: Seq::empty() }
    }
}

/// Whether the machine has come to an end with this report: it has turned
/// the input down, or its only branch has accepted.
pub open spec fn ends<S: Copy, R: Copy>(report: Outcome<S, R>) -> bool {
    match report {
        Outcome::Rejected { .. } => true,
        Outcome::Processed { result, .. } => result == ProcessResult::Accepted,
    }
}

/// The machine as it stands once `live` are the branches left after a
/// symbol. A single branch has handed out its trace and starts a new one.
pub open spec fn settled<S: Copy, R: Copy>(live: Seq<BranchView<S, R>>) -> MachineView<S, R> {
    MachineView {
        branches: if live.len() == 1 {
            seq![BranchView { stack: live[0].stack, trace: Seq::empty(), alive: live[0].alive }]
        } else {
            live
        },
        terminal: ends(outcome(live)),
    }
}

/// Every branch that is left after the dead ones are dropped is alive.
pub proof fn lemma_survivors_alive<S: Copy, R: Copy>(branches: Seq<BranchView<S, R>>)
    ensures
        forall|k: int| 0 <= k < survivors(branches).len() ==> (#[trigger] survivors(branches)[k]).alive,
{
    lemma_kept_upto_unmarked(branches, dead_marks(branches), branches.len());
}

/// Whether `whole` ends with the elements of `end`.
pub open spec fn ends_with<T>(whole: Seq<T>, end: Seq<T>) -> bool {
    whole.len() >= end.len() && whole.skip(whole.len() - end.len()) == end
}

/// A trace only grows: whatever a branch turns into has a trace that ends
/// with the trace the branch had.
pub proof fn lemma_trace_grows<S: Copy + PartialEq, R: Copy + ParseRule<S, R>>(
    stack: Seq<SymbolOrRule<S, R>>,
    trace: Seq<SymbolOrRule<S, R>>,
    input: S,
    fuel: nat,
)
    ensures
        forall|k: int|
            0 <= k < resolved::<S, R>(stack, trace, input, fuel).len() ==> ends_with(
                (#[trigger] resolved::<S, R>(stack, trace, input, fuel)[k]).trace,
                trace,
            ),
    decreases fuel, 0nat,
{
    assert(trace.skip(0) =~= trace);
    if stack.len() > 0 {
        if let SymbolOrRule::Rule(rule) = stack[0] {
            let recorded = seq![stack[0]] + trace;
            let candidates = rule.expansions(stack.skip(1));
            assert(recorded.skip(1) =~= trace);
            if fuel > 0 && candidates.len() > 0 {
                lemma_each_trace_grows(candidates, recorded, input, (fuel - 1) as nat);
                let after = resolved_each(candidates, recorded, input, (fuel - 1) as nat);
                assert forall|k: int| 0 <= k < after.len() implies ends_with(
                    (#[trigger] after[k]).trace,
                    trace,
                ) by {
                    let grown = after[k].trace;
                    assert(grown.skip(grown.len() - recorded.len()).skip(1) =~= grown.skip(
                        grown.len() - trace.len(),
                    ));
                }
            }
        }
    }
}

/// Whatever stacks turn into has a trace that ends with the trace they
/// started from.
pub proof fn lemma_each_trace_grows<S: Copy + PartialEq, R: Copy + ParseRule<S, R>>(
    stacks: Seq<Seq<SymbolOrRule<S, R>>>,
    trace: Seq<SymbolOrRule<S, R>>,
    input: S,
    fuel: nat,
)
    ensures
        forall|k: int|
            0 <= k < resolved_each::<S, R>(stacks, trace, input, fuel).len() ==> ends_with(
                (#[trigger] resolved_each::<S, R>(stacks, trace, input, fuel)[k]).trace,
                trace,
            ),
    decreases fuel, stacks.len() + 1,
{
    if stacks.len() > 0 {
        lemma_each_trace_grows(stacks.drop_last(), trace, input, fuel);
        lemma_trace_grows(stacks.last(), trace, input, fuel);
        let front = resolved_each(stacks.drop_last(), trace, input, fuel);
        let back = resolved(stacks.last(), trace, input, fuel);
        assert forall|k: int| 0 <= k < (front + back).len() implies ends_with(
            (#[trigger] (front + back)[k]).trace,
            trace,
        ) by {
            if k < front.len() {
                assert((front + back)[k] == front[k]);
            } else {
                assert((front + back)[k] == back[k - front.len()]);
            }
        }
    }
}

/// What a branch turns into does not depend on the fuel, as long as the fuel
/// is enough for its stack.
pub proof fn lemma_resolved_any_fuel<S: Copy + PartialEq, R: Copy + ParseRule<S, R>>(
    stack: Seq<SymbolOrRule<S, R>>,
    trace: Seq<SymbolOrRule<S, R>>,
    input: S,
    one: nat,
    other: nat,
)
    requires
        expands_within::<S, R>(stack, one),
        expands_within::<S, R>(stack, other),
    ensures
        resolved(stack, trace, input, one) == resolved(stack, trace, input, other),
    decreases one, 0nat,
{
    if stack.len() > 0 {
        if let SymbolOrRule::Rule(rule) = stack[0] {
            let candidates = rule.expansions(stack.skip(1));
            if candidates.len() > 0 {
                lemma_resolved_each_any_fuel(
                    candidates,
                    seq![stack[0]] + trace,
                    input,
                    (one - 1) as nat,
                    (other - 1) as nat,
                );
            }
        }
    }
}

/// What stacks turn into does not depend on the fuel, as long as the fuel is
/// enough for each of them.
pub proof fn lemma_resolved_each_any_fuel<S: Copy + PartialEq, R: Copy + ParseRule<S, R>>(
    stacks: Seq<Seq<SymbolOrRule<S, R>>>,
    trace: Seq<SymbolOrRule<S, R>>,
    input: S,
    one: nat,
    other: nat,
)
    requires
        forall|i: int| 0 <= i < stacks.len() ==> expands_within::<S, R>(#[trigger] stacks[i], one),
        forall|i: int| 0 <= i < stacks.len() ==> expands_within::<S, R>(#[trigger] stacks[i], other),
    ensures
        resolved_each(stacks, trace, input, one) == resolved_each(stacks, trace, input, other),
    decreases one, stacks.len() + 1,
{
    if stacks.len() > 0 {
        assert(expands_within::<S, R>(stacks[stacks.len() - 1], one));
        assert(expands_within::<S, R>(stacks[stacks.len() - 1], other));
        assert forall|i: int| 0 <= i < stacks.drop_last().len() implies expands_within::<S, R>(
            #[trigger] stacks.drop_last()[i],
            one,
        ) && expands_within::<S, R>(stacks.drop_last()[i], other) by {
            assert(stacks.drop_last()[i] == stacks[i]);
        }
        lemma_resolved_each_any_fuel(stacks.drop_last(), trace, input, one, other);
        lemma_resolved_any_fuel(stacks.last(), trace, input, one, other);
    }
}

/// A live branch whose stack can be expanded with some fuel turns into what
/// that fuel gives.
pub proof fn lemma_step_branch_with_fuel<S: Copy + PartialEq, R: Copy + ParseRule<S, R>>(
    branch: BranchView<S, R>,
    input: S,
    fuel: nat,
)
    requires
        branch.alive,
        expands_within::<S, R>(branch.stack, fuel),
    ensures
        step_branch(branch, input) == resolved(branch.stack, branch.trace, input, fuel),
{
    lemma_resolved_any_fuel(
        branch.stack,
        branch.trace,
        input,
        fuel,
        depth_needed::<S, R>(branch.stack),
    );
}

/// A machine whose only branch has a terminal symbol on top of its stack
/// turns down, as an error, any input that differs from that symbol.
pub proof fn lemma_mismatch_is_error<S: Copy + PartialEq, R: Copy + ParseRule<S, R>>(
    branch: BranchView<S, R>,
    expected: S,
    input: S,
)
    requires
        branch.alive,
        branch.stack.len() > 0,
        branch.stack[0] == SymbolOrRule::<S, R>::Symbol(expected),
        !input.eq_spec(&expected),
    ensures
        outcome(survivors(step_all(seq![branch], input))) == (Outcome::<S, R>::Rejected {
            reason: RejectReason::Error,
        }),
{
    let dead = BranchView { stack: branch.stack, trace: branch.trace, alive: false };
    assert(step_branch(branch, input) == seq![dead]);
    assert(seq![branch].drop_last() =~= Seq::<BranchView<S, R>>::empty());
    reveal_with_fuel(step_all, 2);
    assert(step_all(seq![branch], input) =~= seq![dead]);
    assert(dead_marks(seq![dead]) =~= seq![true]);
    reveal_with_fuel(kept_upto, 2);
    assert(survivors(seq![dead]) =~= Seq::<BranchView<S, R>>::empty());
}

/// A machine whose only branch has nothing on its stack but a rule with two
/// expansions, each of them one and the same terminal symbol, ends as
/// ambiguous when that symbol is read: both alternatives accept at once.
pub proof fn lemma_twofold_accept_is_ambiguous<S: Copy + PartialEq, R: Copy + ParseRule<S, R>>(
    branch: BranchView<S, R>,
    rule: R,
    symbol: S,
    input: S,
)
    requires
        branch.alive,
        branch.stack == seq![SymbolOrRule::<S, R>::Rule(rule)],
        rule.expansions(Seq::empty()) == seq![
            seq![SymbolOrRule::<S, R>::Symbol(symbol)],
            seq![SymbolOrRule::<S, R>::Symbol(symbol)],
        ],
        input.eq_spec(&symbol),
    ensures
        outcome(survivors(step_all(seq![branch], input))) == (Outcome::<S, R>::Rejected {
            reason: RejectReason::Ambiguous,
        }),
{
    let top = SymbolOrRule::<S, R>::Rule(rule);
    let alternative = seq![SymbolOrRule::<S, R>::Symbol(symbol)];
    let recorded = seq![top] + branch.trace;
    let done = BranchView::<S, R> { stack: Seq::empty(), trace: recorded, alive: true };
    assert(branch.stack.skip(1) =~= Seq::empty());
    assert(alternative.skip(1) =~= Seq::empty());
    assert(expands_within::<S, R>(alternative, 0));
    assert(expands_within::<S, R>(branch.stack, 1));
    lemma_step_branch_with_fuel(branch, input, 1);
    reveal_with_fuel(resolved, 2);
    reveal_with_fuel(resolved_each, 3);
    assert(resolved::<S, R>(alternative, recorded, input, 0) == seq![done]);
    let both = seq![alternative, alternative];
    assert(both.drop_last() =~= seq![alternative]);
    assert(seq![alternative].drop_last() =~= Seq::<Seq<SymbolOrRule<S, R>>>::empty());
    assert(resolved_each::<S, R>(both, recorded, input, 0) =~= seq![done, done]);
    assert(step_branch(branch, input) == seq![done, done]);
    assert(seq![branch].drop_last() =~= Seq::<BranchView<S, R>>::empty());
    reveal_with_fuel(step_all, 2);
    assert(step_all(seq![branch], input) =~= seq![done, done]);
    assert(dead_marks(seq![done, done]) =~= seq![false, false]);
    reveal_with_fuel(kept_upto, 3);
    assert(survivors(seq![done, done]) =~= seq![done, done]);
    assert(seq![done, done].drop_last() =~= seq![done]);
    assert(seq![done].drop_last() =~= Seq::<BranchView<S, R>>::empty());
    reveal_with_fuel(accepted_count, 3);
    assert(accepted_count(seq![done, done]) == 2);
}

/// A fresh machine whose root rule has a single expansion, two terminal
/// symbols, takes the first of them, hands out the root rule as its trace and
/// waits; it then takes the second, accepts, and has come to an end.
pub proof fn lemma_single_expansion_is_accepted<S: Copy + PartialEq, R: Copy + ParseRule<S, R>>(
    first: S,
    second: S,
    first_input: S,
    second_input: S,
)
    requires
        R::root_rule().expansions(Seq::empty()) == seq![
            seq![SymbolOrRule::<S, R>::Symbol(first), SymbolOrRule::<S, R>::Symbol(second)],
        ],
        first_input.eq_spec(&first),
        second_input.eq_spec(&second),
    ensures
        ({
            let root = SymbolOrRule::<S, R>::Rule(R::root_rule());
            let fresh = seq![BranchView { stack: seq![root], trace: Seq::empty(), alive: true }];
            let midway = survivors(step_all(fresh, first_input));
            let end = survivors(step_all(settled(midway).branches, second_input));
            &&& outcome(midway) == (Outcome::<S, R>::Processed {
                result: ProcessResult::Awaiting,
                symbols: seq![root],
            })
            &&& !settled(midway).terminal
            &&& outcome(end) == (Outcome::<S, R>::Processed {
                result: ProcessResult::Accepted,
                symbols: Seq::empty(),
            })
            &&& settled(end).terminal
        }),
{
    let root = SymbolOrRule::<S, R>::Rule(R::root_rule());
    let start = BranchView::<S, R> { stack: seq![root], trace: Seq::empty(), alive: true };
    let both = seq![SymbolOrRule::<S, R>::Symbol(first), SymbolOrRule::<S, R>::Symbol(second)];
    let last = seq![SymbolOrRule::<S, R>::Symbol(second)];
    let recorded = seq![root];
    let waiting = BranchView::<S, R> { stack: last, trace: recorded, alive: true };
    let cleared = BranchView::<S, R> { stack: last, trace: Seq::empty(), alive: true };
    let done = BranchView::<S, R> { stack: Seq::empty(), trace: Seq::empty(), alive: true };
    let none = Seq::<BranchView<S, R>>::empty();
    reveal_with_fuel(resolved, 2);
    reveal_with_fuel(resolved_each, 2);
    reveal_with_fuel(step_all, 2);
    reveal_with_fuel(kept_upto, 2);
    reveal_with_fuel(accepted_count, 2);

    assert(seq![root].skip(1) =~= Seq::empty());
    assert(seq![root] + Seq::empty() =~= recorded);
    assert(both.skip(1) =~= last);
    assert(last.skip(1) =~= Seq::empty());
    assert(expands_within::<S, R>(both, 0));
    assert(expands_within::<S, R>(seq![root], 1));
    lemma_step_branch_with_fuel(start, first_input, 1);
    assert(resolved::<S, R>(both, recorded, first_input, 0) == seq![waiting]);
    assert(seq![both].drop_last() =~= Seq::<Seq<SymbolOrRule<S, R>>>::empty());
    assert(resolved_each::<S, R>(seq![both], recorded, first_input, 0) =~= seq![waiting]);
    assert(step_branch(start, first_input) == seq![waiting]);
    assert(seq![start].drop_last() =~= none);
    assert(step_all(seq![start], first_input) =~= seq![waiting]);
    assert(dead_marks(seq![waiting]) =~= seq![false]);
    assert(survivors(seq![waiting]) =~= seq![waiting]);
    assert(seq![waiting].drop_last() =~= none);
    assert(recorded.reverse() =~= seq![root]);
    assert(settled(seq![waiting]).branches =~= seq![cleared]);

    assert(expands_within::<S, R>(last, 0));
    lemma_step_branch_with_fuel(cleared, second_input, 0);
    assert(step_branch(cleared, second_input) == seq![done]);
    assert(seq![cleared].drop_last() =~= none);
    assert(step_all(seq![cleared], second_input) =~= seq![done]);
    assert(dead_marks(seq![done]) =~= seq![false]);
    assert(survivors(seq![done]) =~= seq![done]);
    assert(seq![done].drop_last() =~= none);
    assert(Seq::<SymbolOrRule<S, R>>::empty().reverse() =~= Seq::empty());
}

/// With a well-founded grammar every machine is ready to read.
pub proof fn lemma_well_founded_ready<S: Copy + Eq, R: Copy + ParseRule<S, R>>(
    machine: ParseMachine<S, R>,
)
    requires
        well_founded::<S, R>(),
    ensures
        machine.ready(),
{
    assert forall|i: int|
        0 <= i < machine@.branches.len() && (#[trigger] machine@.branches[i]).alive implies expandable::<
        S,
        R,
    >(machine@.branches[i].stack) by {
        assert(expandable::<S, R>(machine@.branches[i].stack));
    }
}

/// The branches of a machine and whether it has come to an end.
pub struct MachineView<S: Copy, R: Copy> {
    pub branches: Seq<BranchView<S, R>>,
    pub terminal: bool,
}

/// The automaton: the candidate parses of the input read so far.
pub struct ParseMachine<SymbolType, RuleType> where SymbolType: Copy, RuleType: Copy {
    /// The branches under consideration: one to begin with, more whenever a
    /// rule can be expanded in several ways, fewer as branches hit dead ends.
    branches: Vec<ParseBranch<SymbolType, RuleType>>,
    /// Whether the machine has come to an end.
    terminal: bool,
}

impl<S: Copy, R: Copy> View for ParseMachine<S, R> {
    type V = MachineView<S, R>;

    closed spec fn view(&self) -> MachineView<S, R> {
        MachineView { branches: views(self.branches@), terminal: self.terminal }
    }
}

/// Counts the branches with an empty stack.
fn count_accepted<S: Copy, R: Copy>(branches: &Vec<ParseBranch<S, R>>) -> (count: usize)
    ensures
        count == accepted_count(views(branches@)),
{
    let mut count: usize = 0;
    let mut i: usize = 0;
    while i < branches.len()
        invariant
            i <= branches.len(),
            count <= i,
            count == accepted_count(views(branches@).take(i as int)),
        decreases branches.len() - i,
    {
        proof {
            assert(views(branches@).take(i + 1).drop_last() =~= views(branches@).take(i as int));
        }
        if branches[i].stack.is_empty() {
            count += 1;
        }
        i += 1;
    }
    proof {
        assert(views(branches@).take(i as int) =~= views(branches@));
    }
    count
}

impl<S: Copy + Eq, R: Copy + ParseRule<S, R>> ParseMachine<S, R> {
    /// A machine with one branch, which has the root rule on its stack and
    /// an empty trace.
    pub fn new() -> (r: Self)
        ensures
            r@ == (MachineView {
                branches: seq![
                    BranchView {
                        stack: seq![SymbolOrRule::<S, R>::Rule(R::root_rule())],
                        trace: Seq::empty(),
                        alive: true,
                    },
                ],
                terminal: false,
            }),
    {
        let mut branches: Vec<ParseBranch<S, R>> = Vec::new();
        branches.push(ParseBranch::new());
        let r = ParseMachine { branches: branches, terminal: false };
        assert(r@.branches =~= seq![
            BranchView {
                stack: seq![SymbolOrRule::<S, R>::Rule(R::root_rule())],
                trace: Seq::empty(),
                alive: true,
            },
        ]);
        r
    }

    /// Whether every live branch of the machine can be expanded down to
    /// terminal symbols in a bounded number of steps.
    pub open spec fn ready(&self) -> bool {
        forall|i: int|
            0 <= i < self@.branches.len() && (#[trigger] self@.branches[i]).alive ==> expandable::<
                S,
                R,
            >(self@.branches[i].stack)
    }

    /// Reads one symbol: follows every live branch up to its next terminal
    /// symbol, drops the branches that could not take `input`, and reports
    /// what is left. A machine that has come to an end takes no more input.
    pub fn read(&mut self, input: S) -> (r: ReadResult<S, R>)
        requires
            !old(self)@.terminal ==> old(self).ready(),
        ensures
            old(self)@.terminal ==> r@ == (Outcome::<S, R>::Rejected {
                reason: RejectReason::AlreadyTerminal,
            }) && final(self)@ == old(self)@,
            !old(self)@.terminal && S::obeys_eq_spec() ==> r@ == outcome(
                survivors(step_all(old(self)@.branches, input)),
            ) && final(self)@ == settled(survivors(step_all(old(self)@.branches, input))),
    {
        if self.terminal {
            return ReadResult::Rejected { reason: RejectReason::AlreadyTerminal };
        }
        let ghost start = views(self.branches@);
        let mut next: Vec<ParseBranch<S, R>> = Vec::new();
        let mut i: usize = 0;
        while i < self.branches.len()
            invariant
                i <= self.branches.len(),
                start == views(self.branches@),
                forall|k: int|
                    0 <= k < start.len() && (#[trigger] start[k]).alive ==> expandable::<S, R>(
                        start[k].stack,
                    ),
                S::obeys_eq_spec() ==> views(next@) == step_all(start.take(i as int), input),
            decreases self.branches.len() - i,
        {
            let branch = &self.branches[i];
            let ghost so_far = views(next@);
            assert(start[i as int] == branch@);
            if branch.alive {
                resolve(
                    branch.stack.clone(),
                    branch.parsed.clone(),
                    input,
                    &mut next,
                    Ghost(depth_needed::<S, R>(branch@.stack)),
                );
            } else {
                next.push(branch.clone());
                assert(views(next@) =~= so_far + seq![branch@]);
            }
            proof {
                assert(start.take(i + 1).drop_last() =~= start.take(i as int));
            }
            i += 1;
        }
        proof {
            assert(start.take(i as int) =~= start);
        }
        let ghost stepped = next@;
        let is_dead = |branch: &ParseBranch<S, R>| -> (dead: bool)
            ensures
                dead == !branch@.alive,
            { !branch.alive };
        next.discard(is_dead);
        proof {
            let dropped = choose|dropped: Seq<bool>| #[trigger]
                answers(is_dead, stepped, dropped) && next@ == kept(stepped, dropped);
            assert forall|k: int| 0 <= k < stepped.len() implies dropped[k] == dead_marks(
                views(stepped),
            )[k] by {
                assert(is_dead.ensures((&stepped[k],), dropped[k]));
            }
            lemma_kept_upto_agrees(
                views(stepped),
                dropped,
                dead_marks(views(stepped)),
                stepped.len(),
            );
            lemma_kept_upto_map(
                stepped,
                dropped,
                |branch: ParseBranch<S, R>| branch@,
                stepped.len(),
            );
            assert(views(next@) =~= survivors(views(stepped)));
        }
        let ghost live = views(next@);
        let accepted = count_accepted(&next);
        let result = if next.len() == 0 {
            ReadResult::Rejected { reason: RejectReason::Error }
        } else if next.len() == 1 {
            let branch = next.pop().unwrap();
            let symbols = branch.parsed.reverse_into_vec();
            next.push(ParseBranch { stack: branch.stack, parsed: List::empty(), alive: branch.alive });
            proof {
                assert(symbols@ =~= live[0].trace.reverse());
            }
            ReadResult::Processed {
                result: if accepted == 1 {
                    ProcessResult::Accepted
                } else {
                    ProcessResult::Awaiting
                },
                symbols: symbols,
            }
        } else if accepted == next.len() {
            ReadResult::Rejected { reason: RejectReason::Ambiguous }
        } else {
            ReadResult::Processed { result: ProcessResult::Awaiting, symbols: Vec::new() }
        };
        self.terminal = match &result {
            ReadResult::Rejected { .. } => true,
            ReadResult::Processed { result, .. } => match result {
                ProcessResult::Accepted => true,
                ProcessResult::Awaiting => false,
            },
        };
        self.branches = next;
        proof {
            assert(self@.branches =~= settled(live).branches);
        }
        result
    }
}

} // verus!
