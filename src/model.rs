//! Mathematical model of the fragment arena, of the pseudo-random source and of
//! one derivation.
use vstd::prelude::*;
use vstd::utf8::encode_utf8;

verus! {

/// Index of a fragment in its grammar's arena.
#[derive(Clone, Copy, Debug, PartialEq, Eq, Structural)]
pub struct FragmentId(pub usize);

/// One node of the compiled fragment graph.
#[derive(Clone, Debug)]
pub enum Fragment {
    /// A random-choice point: one child is expanded, picked by the generator.
    NonTerminal(Vec<FragmentId>),
    /// A concatenation: all children are expanded, left to right.
    Expression(Vec<FragmentId>),
    /// A leaf whose bytes are emitted as they are.
    Terminal(Vec<u8>),
}

/// What a fragment is, with its vectors seen as sequences.
pub enum FragmentModel {
    NonTerminal(Seq<FragmentId>),
    Expression(Seq<FragmentId>),
    Terminal(Seq<u8>),
}

impl View for Fragment {
    type V = FragmentModel;

    open spec fn view(&self) -> FragmentModel {
        match self {
            Fragment::NonTerminal(c) => FragmentModel::NonTerminal(c@),
            Fragment::Expression(c) => FragmentModel::Expression(c@),
            Fragment::Terminal(b) => FragmentModel::Terminal(b@),
        }
    }
}

/// Output length past which a derivation stops (1 MiB).
pub const OUTPUT_CEILING: usize = 1048576;

/// One xorshift step: shift left 13, right 17, left 43, each XORed in.
pub open spec fn xorshift(s: u64) -> u64 {
    let a = s ^ ((s << 13u64) as u64);
    let b = a ^ (a >> 17u64);
    b ^ ((b << 43u64) as u64)
}

/// Number of work items a derivation handles at most before it stops.
pub const STEP_LIMIT: u64 = 0xffff_ffff_ffff_ffff;

/// The children of a fragment; a terminal has none.
pub open spec fn children(f: FragmentModel) -> Seq<FragmentId> {
    match f {
        FragmentModel::NonTerminal(c) => c,
        FragmentModel::Expression(c) => c,
        FragmentModel::Terminal(_) => Seq::empty(),
    }
}

/// Every id held by a fragment of the arena points into the arena.
pub open spec fn arena_closed(arena: Seq<FragmentModel>) -> bool {
    forall|i: int, k: int|
        0 <= i < arena.len() && 0 <= k < children(arena[i]).len() ==> (#[trigger] children(
            arena[i],
        )[k]).0 < arena.len()
}

/// Every choice point of the arena has something to choose from.
pub open spec fn choices_nonempty(arena: Seq<FragmentModel>) -> bool {
    forall|i: int|
        0 <= i < arena.len() ==> match #[trigger] arena[i] {
            FragmentModel::NonTerminal(c) => c.len() > 0,
            _ => true,
        }
}

/// The index that a choice point with `n` children takes for generator state `s`.
pub open spec fn pick(s: u64, n: int) -> int {
    (s as usize) as int % n
}

/// Runs a derivation for at most `fuel` work items: `stack` holds the pending
/// fragments (its last element is handled first), `out` the bytes emitted so
/// far and `seed` the state of the generator. The result is the output, the
/// generator state and the pending stack when the stack empties, the fuel runs
/// out, or a terminal takes the output past the ceiling.
pub open spec fn run(
    arena: Seq<FragmentModel>,
    stack: Seq<FragmentId>,
    out: Seq<u8>,
    seed: u64,
    fuel: nat,
) -> (Seq<u8>, u64, Seq<FragmentId>)
    decreases fuel,
{
    if fuel == 0 || stack.len() == 0 {
        (out, seed, stack)
    } else {
        let rest = stack.drop_last();
        match arena[stack.last().0 as int] {
            FragmentModel::NonTerminal(c) => {
                let s = xorshift(seed);
                run(arena, rest.push(c[pick(s, c.len() as int)]), out, s, (fuel - 1) as nat)
            },
            FragmentModel::Expression(c) => run(arena, rest + c.reverse(), out, seed, (fuel - 1) as nat),
            FragmentModel::Terminal(b) => {
                let o = out + b;
                if o.len() > OUTPUT_CEILING {
                    (o, seed, rest)
                } else {
                    run(arena, rest, o, seed, (fuel - 1) as nat)
                }
            },
        }
    }
}

/// A rule as the compiler reads it: its name and its alternatives, each an
/// ordered list of symbols.
pub type RuleModel = (Seq<char>, Seq<Seq<Seq<char>>>);

/// The names of the rules, in order.
pub open spec fn rule_names(rules: Seq<RuleModel>) -> Seq<Seq<char>> {
    rules.map_values(|r: RuleModel| r.0)
}

/// The name of the rule that derivations start from.
pub open spec fn start_name() -> Seq<char> {
    seq!['<', 's', 't', 'a', 'r', 't', '>']
}

/// `names[j]` is the first name that repeats an earlier one.
pub open spec fn first_repeat_at(names: Seq<Seq<char>>, j: int) -> bool {
    &&& 0 <= j < names.len()
    &&& names.take(j).contains(names[j])
    &&& names.take(j).no_duplicates()
}

/// The ids `base`, `base + 1`, ..., `base + n - 1`.
pub open spec fn ids_from(base: int, n: nat) -> Seq<FragmentId> {
    Seq::new(n, |k: int| FragmentId((base + k) as usize))
}

/// The fragment allocated for one symbol of an alternative: a choice point with
/// the named rule as its only child, or else the symbol's UTF-8 bytes.
pub open spec fn symbol_fragment(names: Seq<Seq<char>>, sym: Seq<char>) -> FragmentModel {
    if names.contains(sym) {
        FragmentModel::NonTerminal(seq![FragmentId(names.index_of(sym) as usize)])
    } else {
        FragmentModel::Terminal(encode_utf8(sym))
    }
}

/// The fragments allocated for one alternative from id `base` on: one per
/// symbol, then the expression that joins them.
pub open spec fn alt_fragments(names: Seq<Seq<char>>, alt: Seq<Seq<char>>, base: int) -> Seq<
    FragmentModel,
> {
    alt.map_values(|sym: Seq<char>| symbol_fragment(names, sym)).push(
        FragmentModel::Expression(ids_from(base, alt.len())),
    )
}

/// The fragments allocated for a list of alternatives from id `base` on.
pub open spec fn alts_fragments(
    names: Seq<Seq<char>>,
    alts: Seq<Seq<Seq<char>>>,
    base: int,
) -> Seq<FragmentModel>
    decreases alts.len(),
{
    if alts.len() == 0 {
        Seq::empty()
    } else {
        let prev = alts_fragments(names, alts.drop_last(), base);
        prev + alt_fragments(names, alts.last(), base + prev.len())
    }
}

/// The ids of the expressions allocated for a list of alternatives from id
/// `base` on.
pub open spec fn alts_ids(names: Seq<Seq<char>>, alts: Seq<Seq<Seq<char>>>, base: int) -> Seq<
    FragmentId,
>
    decreases alts.len(),
{
    if alts.len() == 0 {
        Seq::empty()
    } else {
        let prev = alts_fragments(names, alts.drop_last(), base);
        alts_ids(names, alts.drop_last(), base).push(
            FragmentId((base + prev.len() + alts.last().len()) as usize),
        )
    }
}

/// The fragments allocated for the alternatives of a list of rules from id
/// `base` on.
pub open spec fn rules_fragments(names: Seq<Seq<char>>, rules: Seq<RuleModel>, base: int) -> Seq<
    FragmentModel,
>
    decreases rules.len(),
{
    if rules.len() == 0 {
        Seq::empty()
    } else {
        let prev = rules_fragments(names, rules.drop_last(), base);
        prev + alts_fragments(names, rules.last().1, base + prev.len())
    }
}

/// Where the fragments of rule `i`'s alternatives begin.
pub open spec fn rule_base(rules: Seq<RuleModel>, i: int) -> int {
    rules.len() as int + rules_fragments(rule_names(rules), rules.take(i), rules.len() as int).len()
}

/// The choice point of rule `i`: one child per alternative.
pub open spec fn rule_node(rules: Seq<RuleModel>, i: int) -> FragmentModel {
    FragmentModel::NonTerminal(alts_ids(rule_names(rules), rules[i].1, rule_base(rules, i)))
}

/// The compiled arena: the rules' choice points first, in the rules' order,
/// then the fragments of each rule's alternatives.
pub open spec fn compiled_arena(rules: Seq<RuleModel>) -> Seq<FragmentModel> {
    Seq::new(rules.len(), |i: int| rule_node(rules, i)) + rules_fragments(
        rule_names(rules),
        rules,
        rules.len() as int,
    )
}

} // verus!
