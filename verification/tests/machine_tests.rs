use parsergen::list::List;
use parsergen::parse_machine::ParseBranch;
use parsergen::parse_machine::ParseMachine;
use parsergen::parse_machine::ParseRule;
use parsergen::parse_machine::ProcessResult;
use parsergen::parse_machine::ReadResult;
use parsergen::parse_machine::RejectReason;
use parsergen::parse_machine::SymbolOrRule;

#[derive(Copy, Clone, Debug, PartialEq, Eq)]
enum Letter {
    A,
    B,
    C,
}

type Item<R> = SymbolOrRule<Letter, R>;

fn onto<R: Copy>(items: &[Item<R>], rest: &List<Item<R>>) -> List<Item<R>> {
    let mut stack = rest.clone();
    for item in items.iter().rev() {
        stack = List::cons(*item, stack);
    }
    stack
}

fn expect_processed<R: Copy + std::fmt::Debug + PartialEq>(
    got: ReadResult<Letter, R>,
    result: ProcessResult,
    symbols: Vec<Item<R>>,
) {
    match got {
        ReadResult::Processed { result: got_result, symbols: got_symbols } => {
            assert_eq!(got_result, result);
            assert_eq!(got_symbols, symbols);
        }
        ReadResult::Rejected { reason } => panic!("rejected: {:?}", reason),
    }
}

fn expect_rejected<R: Copy>(got: ReadResult<Letter, R>, reason: RejectReason) {
    match got {
        ReadResult::Rejected { reason: got_reason } => assert_eq!(got_reason, reason),
        ReadResult::Processed { .. } => panic!("processed"),
    }
}

// ROOT -> a b
#[derive(Copy, Clone, Debug, PartialEq, Eq)]
enum Pair {
    Root,
}

impl ParseRule<Letter, Pair> for Pair {
    fn root() -> Pair {
        Pair::Root
    }

    fn execute(&self, stack: List<Item<Pair>>) -> Vec<List<Item<Pair>>> {
        vec![onto(&[SymbolOrRule::Symbol(Letter::A), SymbolOrRule::Symbol(Letter::B)], &stack)]
    }
}

// ROOT -> a | a
#[derive(Copy, Clone, Debug, PartialEq, Eq)]
enum Twice {
    Root,
}

impl ParseRule<Letter, Twice> for Twice {
    fn root() -> Twice {
        Twice::Root
    }

    fn execute(&self, stack: List<Item<Twice>>) -> Vec<List<Item<Twice>>> {
        vec![
            onto(&[SymbolOrRule::Symbol(Letter::A)], &stack),
            onto(&[SymbolOrRule::Symbol(Letter::A)], &stack),
        ]
    }
}

// ROOT -> a b | a TAIL ;  TAIL -> c
#[derive(Copy, Clone, Debug, PartialEq, Eq)]
enum Fork {
    Root,
    Tail,
}

impl ParseRule<Letter, Fork> for Fork {
    fn root() -> Fork {
        Fork::Root
    }

    fn execute(&self, stack: List<Item<Fork>>) -> Vec<List<Item<Fork>>> {
        match self {
            Fork::Root => vec![
                onto(&[SymbolOrRule::Symbol(Letter::A), SymbolOrRule::Symbol(Letter::B)], &stack),
                onto(&[SymbolOrRule::Symbol(Letter::A), SymbolOrRule::Rule(Fork::Tail)], &stack),
            ],
            Fork::Tail => vec![onto(&[SymbolOrRule::Symbol(Letter::C)], &stack)],
        }
    }
}

// ROOT -> a | a b
#[derive(Copy, Clone, Debug, PartialEq, Eq)]
enum Prefix {
    Root,
}

impl ParseRule<Letter, Prefix> for Prefix {
    fn root() -> Prefix {
        Prefix::Root
    }

    fn execute(&self, stack: List<Item<Prefix>>) -> Vec<List<Item<Prefix>>> {
        vec![
            onto(&[SymbolOrRule::Symbol(Letter::A)], &stack),
            onto(&[SymbolOrRule::Symbol(Letter::A), SymbolOrRule::Symbol(Letter::B)], &stack),
        ]
    }
}

// ROOT has no expansion at all.
#[derive(Copy, Clone, Debug, PartialEq, Eq)]
enum Barren {
    Root,
}

impl ParseRule<Letter, Barren> for Barren {
    fn root() -> Barren {
        Barren::Root
    }

    fn execute(&self, _stack: List<Item<Barren>>) -> Vec<List<Item<Barren>>> {
        Vec::new()
    }
}

// ROOT -> OPT b ;  OPT -> a | (nothing)
#[derive(Copy, Clone, Debug, PartialEq, Eq)]
enum Optional {
    Root,
    Opt,
}

impl ParseRule<Letter, Optional> for Optional {
    fn root() -> Optional {
        Optional::Root
    }

    fn execute(&self, stack: List<Item<Optional>>) -> Vec<List<Item<Optional>>> {
        match self {
            Optional::Root => vec![onto(
                &[SymbolOrRule::Rule(Optional::Opt), SymbolOrRule::Symbol(Letter::B)],
                &stack,
            )],
            Optional::Opt => vec![onto(&[SymbolOrRule::Symbol(Letter::A)], &stack), stack],
        }
    }
}

#[test]
fn branch_constructors_build() {
    let fresh = ParseBranch::<Letter, Pair>::new();
    let _copy = fresh.clone();
    let _given = ParseBranch::<Letter, Pair>::from_stack(List::cons(
        SymbolOrRule::Symbol(Letter::A),
        List::empty(),
    ));
}

#[test]
fn single_expansion_is_accepted_with_its_trace() {
    let mut machine = ParseMachine::<Letter, Pair>::new();
    expect_processed(
        machine.read(Letter::A),
        ProcessResult::Awaiting,
        vec![SymbolOrRule::Rule(Pair::Root)],
    );
    expect_processed(machine.read(Letter::B), ProcessResult::Accepted, vec![]);
}

#[test]
fn two_accepting_alternatives_are_ambiguous() {
    let mut machine = ParseMachine::<Letter, Twice>::new();
    expect_rejected(machine.read(Letter::A), RejectReason::Ambiguous);
}

#[test]
fn wrong_symbol_is_an_error() {
    let mut machine = ParseMachine::<Letter, Pair>::new();
    expect_rejected(machine.read(Letter::B), RejectReason::Error);
    let mut later = ParseMachine::<Letter, Pair>::new();
    expect_processed(
        later.read(Letter::A),
        ProcessResult::Awaiting,
        vec![SymbolOrRule::Rule(Pair::Root)],
    );
    expect_rejected(later.read(Letter::A), RejectReason::Error);
}

#[test]
fn rule_without_expansion_is_an_error() {
    let mut machine = ParseMachine::<Letter, Barren>::new();
    expect_rejected(machine.read(Letter::A), RejectReason::Error);
}

#[test]
fn reading_after_the_end_is_refused() {
    let mut accepted = ParseMachine::<Letter, Pair>::new();
    accepted.read(Letter::A);
    accepted.read(Letter::B);
    expect_rejected(accepted.read(Letter::A), RejectReason::AlreadyTerminal);
    expect_rejected(accepted.read(Letter::B), RejectReason::AlreadyTerminal);

    let mut failed = ParseMachine::<Letter, Pair>::new();
    expect_rejected(failed.read(Letter::C), RejectReason::Error);
    expect_rejected(failed.read(Letter::A), RejectReason::AlreadyTerminal);

    let mut ambiguous = ParseMachine::<Letter, Twice>::new();
    expect_rejected(ambiguous.read(Letter::A), RejectReason::Ambiguous);
    expect_rejected(ambiguous.read(Letter::A), RejectReason::AlreadyTerminal);
}

#[test]
fn trace_is_withheld_while_branches_compete() {
    let mut machine = ParseMachine::<Letter, Fork>::new();
    expect_processed(machine.read(Letter::A), ProcessResult::Awaiting, vec![]);
    expect_processed(
        machine.read(Letter::C),
        ProcessResult::Accepted,
        vec![SymbolOrRule::Rule(Fork::Root), SymbolOrRule::Rule(Fork::Tail)],
    );
}

#[test]
fn first_alternative_can_win_too() {
    let mut machine = ParseMachine::<Letter, Fork>::new();
    expect_processed(machine.read(Letter::A), ProcessResult::Awaiting, vec![]);
    expect_processed(
        machine.read(Letter::B),
        ProcessResult::Accepted,
        vec![SymbolOrRule::Rule(Fork::Root)],
    );
}

#[test]
fn accepted_branch_waits_beside_a_working_one() {
    let mut machine = ParseMachine::<Letter, Prefix>::new();
    expect_processed(machine.read(Letter::A), ProcessResult::Awaiting, vec![]);
    expect_rejected(machine.read(Letter::B), RejectReason::Ambiguous);
}

#[test]
fn accepted_branch_outlives_a_dead_one() {
    let mut machine = ParseMachine::<Letter, Prefix>::new();
    expect_processed(machine.read(Letter::A), ProcessResult::Awaiting, vec![]);
    expect_processed(
        machine.read(Letter::C),
        ProcessResult::Accepted,
        vec![SymbolOrRule::Rule(Prefix::Root)],
    );
}

#[test]
fn rules_are_expanded_until_a_symbol_is_on_top() {
    let mut taken = ParseMachine::<Letter, Optional>::new();
    expect_processed(
        taken.read(Letter::A),
        ProcessResult::Awaiting,
        vec![SymbolOrRule::Rule(Optional::Root), SymbolOrRule::Rule(Optional::Opt)],
    );
    expect_processed(taken.read(Letter::B), ProcessResult::Accepted, vec![]);

    let mut skipped = ParseMachine::<Letter, Optional>::new();
    expect_processed(
        skipped.read(Letter::B),
        ProcessResult::Accepted,
        vec![SymbolOrRule::Rule(Optional::Root), SymbolOrRule::Rule(Optional::Opt)],
    );
}
