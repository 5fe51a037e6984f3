//! The compiled grammar: its arena, its rule names, its start fragment and the
//! state of its pseudo-random source.
use vstd::prelude::*;
use vstd::slice::slice_to_vec;
use crate::laws::{lemma_run_bounded, max_terminal_len, stack_in};
use crate::model::{
    Fragment, FragmentId, FragmentModel, OUTPUT_CEILING, STEP_LIMIT, arena_closed, children,
    choices_nonempty, pick, run, xorshift, RuleModel, rule_names, start_name, first_repeat_at,
    compiled_arena, symbol_fragment, alts_fragments, alts_ids, rules_fragments,
    rule_base, rule_node, ids_from,
};

verus! {

/// A grammar as read from its source: each rule's name with its alternatives,
/// each alternative a list of symbols. A symbol that names a rule refers to
/// it; any other symbol stands for its own bytes.
#[derive(Clone, Debug, Default)]
pub struct Grammar(pub Vec<(String, Vec<Vec<String>>)>);

impl Grammar {
    /// The rules, with strings seen as character sequences.
    pub open spec fn rules(&self) -> Seq<RuleModel> {
        self.0@.map_values(
            |r: (String, Vec<Vec<String>>)|
                (r.0@, r.1@.map_values(|a: Vec<String>| a@.map_values(|sym: String| sym@))),
        )
    }
}

/// Why a grammar could not be compiled.
#[derive(Clone, Debug, PartialEq, Eq)]
pub enum CompileError {
    /// Two rules have this name.
    DuplicateRuleError(String),
    /// No rule is named `<start>`.
    MissingStartRuleError,
    /// The grammar's text is not an object of rules.
    InvalidJsonError,
}

/// The position of the first name equal to `name`, if any.
fn find_name(names: &Vec<String>, name: &String) -> (r: Option<usize>)
    ensures
        match r {
            Some(i) => i < names@.len() && names@[i as int]@ == name@ && forall|k: int|
                0 <= k < i ==> names@[k]@ != name@,
            None => forall|k: int| 0 <= k < names@.len() ==> names@[k]@ != name@,
        },
{
    let mut i: usize = 0;
    while i < names.len()
        invariant
            i <= names@.len(),
            forall|k: int| 0 <= k < i ==> names@[k]@ != name@,
        decreases names@.len() - i,
    {
        if names[i] == *name {
            return Some(i);
        }
        i = i + 1;
    }
    None
}

/// What compiling `rules` gives: `DuplicateRuleError` naming the first rule
/// name that repeats an earlier one; else `MissingStartRuleError` when no rule
/// is named `<start>`; else the compiled arena, with the start rule's choice
/// point as its start and the generator state zero.
pub open spec fn compile_outcome(rules: Seq<RuleModel>, r: Result<GrammarRust, CompileError>) -> bool {
    &&& (r matches Err(CompileError::DuplicateRuleError(_))) <==> !rule_names(rules).no_duplicates()
    &&& (r matches Err(CompileError::MissingStartRuleError)) <==> rule_names(rules).no_duplicates()
        && !rule_names(rules).contains(start_name())
    &&& !(r matches Err(CompileError::InvalidJsonError))
    &&& match r {
        Ok(g) => {
            &&& g.arena() == compiled_arena(rules)
            &&& g.names() == rule_names(rules)
            &&& g.start_id() == FragmentId(rule_names(rules).index_of(start_name()) as usize)
            &&& g.seed_state() == 0
            &&& g.wf()
        },
        Err(CompileError::DuplicateRuleError(name)) => exists|j: int|
            first_repeat_at(rule_names(rules), j) && name@ == rule_names(rules)[j],
        Err(_) => true,
    }
}

/// A grammar compiled into a fragment arena.
pub struct GrammarRust {
    fragments: Vec<Fragment>,
    start: FragmentId,
    rule_names: Vec<String>,
    seed: u64,
}

/// Relies on rand::random: a value drawn from the thread-local generator.
/// Nothing is known of it.
#[verifier::external_body]
fn entropy() -> i32 {
    rand::random::<i32>()
}

/// One xorshift step of the generator state.
fn next_state(s: u64) -> (r: u64)
    ensures
        r == xorshift(s),
{
    let mut x: u64 = s;
    x ^= x << 13;
    x ^= x >> 17;
    x ^= x << 43;
    x
}

impl GrammarRust {
    /// The arena, fragment by fragment.
    pub closed spec fn arena(&self) -> Seq<FragmentModel> {
        self.fragments@.map_values(|f: Fragment| f@)
    }

    /// The fragment that derivations start from.
    pub closed spec fn start_id(&self) -> FragmentId {
        self.start
    }

    /// The rule names; the rule at position `i` is the fragment with id `i`.
    pub closed spec fn names(&self) -> Seq<Seq<char>> {
        self.rule_names@.map_values(|n: String| n@)
    }

    /// The arena is closed under its ids and the start fragment is in it.
    pub open spec fn wf(&self) -> bool {
        &&& arena_closed(self.arena())
        &&& self.start_id().0 < self.arena().len()
    }

    /// What one call of `generate` emits after `out`, the generator state that
    /// it leaves, and the work items still pending when it stops.
    pub open spec fn derivation(&self, out: Seq<u8>) -> (Seq<u8>, u64, Seq<FragmentId>) {
        run(self.arena(), seq![self.start_id()], out, self.seed_state(), STEP_LIMIT as nat)
    }

    /// The current state of the pseudo-random source.
    pub closed spec fn seed_state(&self) -> u64 {
        self.seed
    }

    /// Compiles a grammar. Fails with `DuplicateRuleError` naming the first rule
    /// name that repeats an earlier one, else with `MissingStartRuleError` when
    /// no rule is named `<start>`. On success the arena holds one choice point
    /// per rule, in the rules' order, then for each rule and each of its
    /// alternatives one fragment per symbol followed by the expression that
    /// joins them; the generator state is zero.
    pub fn new(grammar: &Grammar) -> (r: Result<GrammarRust, CompileError>)
        ensures
            compile_outcome(grammar.rules(), r),
    {
        let ghost rules = grammar.rules();
        let ghost names = rule_names(rules);
        let ghost n = rules.len();
        let ghost empty_nt = FragmentModel::NonTerminal(Seq::empty());
        let mut ret = GrammarRust {
            fragments: Vec::new(),
            start: FragmentId(0),
            rule_names: Vec::new(),
            seed: 0,
        };
        proof {
            assert(ret.arena() =~= Seq::empty());
            assert(ret.names() =~= Seq::empty());
        }
        // Allocate one empty choice point per rule, so that every name
        // resolves while the alternatives are compiled.
        let mut i: usize = 0;
        while i < grammar.0.len()
            invariant
                rules == grammar.rules(),
                names == rule_names(rules),
                n == rules.len(),
                n == grammar.0@.len(),
                empty_nt == FragmentModel::NonTerminal(Seq::empty()),
                i <= n,
                ret.names() == names.take(i as int),
                names.take(i as int).no_duplicates(),
                ret.arena() == Seq::new(i as nat, |j: int| empty_nt),
                arena_closed(ret.arena()),
                ret.seed == 0,
            decreases n - i,
        {
            let name: &String = &grammar.0[i].0;
            proof {
                assert(names[i as int] == name@);
                ret.lemma_names();
            }
            if let Some(k) = find_name(&ret.rule_names, name) {
                proof {
                    assert(names.take(i as int).contains(names[i as int])) by {
                        assert(names.take(i as int)[k as int] == names[i as int]);
                    }
                    assert(first_repeat_at(names, i as int));
                    assert(names.take(i as int)[k as int] == names[k as int]);
                    assert(names[k as int] == names[i as int]);
                }
                return Err(CompileError::DuplicateRuleError(name.clone()));
            }
            let ghost before = ret.arena();
            let no_children: Vec<FragmentId> = Vec::new();
            proof {
                assert(no_children@ =~= Seq::empty());
            }
            let placeholder = Fragment::NonTerminal(no_children);
            proof {
                assert(placeholder@ == empty_nt);
            }
            let _id = ret.allocate_fragment(placeholder);
            proof {
                assert(ret.arena() == before.push(empty_nt));
            }
            let ghost names_before = ret.rule_names@;
            proof {
                assert(names_before.map_values(|s: String| s@) == names.take(i as int));
            }
            ret.rule_names.push(name.clone());
            proof {
                assert(ret.rule_names@ == names_before.push(*name));
                assert(ret.names() =~= names.take(i as int + 1));
                assert(ret.arena() =~= Seq::new(i as nat + 1, |j: int| empty_nt));
                assert(names.take(i as int + 1).no_duplicates()) by {
                    assert(forall|k: int| 0 <= k < i ==> names.take(i as int + 1)[k] == names.take(i as int)[k]);
                }
            }
            i = i + 1;
        }
        proof {
            assert(names.take(n as int) =~= names);
            assert(rules.take(0) =~= Seq::empty());
            assert(ret.arena() =~= Seq::new(n, |j: int| if j < 0 { rule_node(rules, j) } else { empty_nt })
                + rules_fragments(names, rules.take(0), n as int));
        }
        // Compile each rule's alternatives and overwrite its placeholder.
        let mut i: usize = 0;
        while i < grammar.0.len()
            invariant
                rules == grammar.rules(),
                names == rule_names(rules),
                n == rules.len(),
                n == grammar.0@.len(),
                empty_nt == FragmentModel::NonTerminal(Seq::empty()),
                i <= n,
                ret.names() == names,
                names.no_duplicates(),
                ret.arena() == Seq::new(n, |j: int| if j < i { rule_node(rules, j) } else { empty_nt })
                    + rules_fragments(names, rules.take(i as int), n as int),
                arena_closed(ret.arena()),
                ret.seed == 0,
            decreases n - i,
        {
            let alts: &Vec<Vec<String>> = &grammar.0[i].1;
            let ghost ralts = rules[i as int].1;
            let ghost head = Seq::new(n, |j: int| if j < i { rule_node(rules, j) } else { empty_nt })
                + rules_fragments(names, rules.take(i as int), n as int);
            let ghost base = rule_base(rules, i as int);
            proof {
                assert(ralts == alts@.map_values(|a: Vec<String>| a@.map_values(|sym: String| sym@)));
                assert(ralts.take(0) =~= Seq::empty());
                assert(ret.arena() =~= head + alts_fragments(names, ralts.take(0), base));
                assert(head.len() == base);
            }
            let mut expressions: Vec<FragmentId> = Vec::new();
            let mut k: usize = 0;
            while k < alts.len()
                invariant
                    names == rule_names(rules),
                    n == rules.len(),
                    i < n,
                    ralts == alts@.map_values(|a: Vec<String>| a@.map_values(|sym: String| sym@)),
                    k <= alts@.len(),
                    head.len() == base,
                    base >= n,
                    ret.names() == names,
                        names.no_duplicates(),
                    ret.arena() == head + alts_fragments(names, ralts.take(k as int), base),
                    expressions@ == alts_ids(names, ralts.take(k as int), base),
                    forall|q: int| 0 <= q < expressions@.len() ==> (#[trigger] expressions@[q]).0 < ret.arena().len(),
                    arena_closed(ret.arena()),
                    ret.seed == 0,
                decreases alts@.len() - k,
            {
                let alt: &Vec<String> = &alts[k];
                let ghost ralt = ralts[k as int];
                let ghost prefix = head + alts_fragments(names, ralts.take(k as int), base);
                let ghost base_k = prefix.len() as int;
                proof {
                    assert(ralt == alt@.map_values(|sym: String| sym@));
                    assert(ret.arena() =~= prefix + ralt.take(0).map_values(|sym: Seq<char>| symbol_fragment(names, sym)));
                    assert(ids_from(base_k, 0) =~= Seq::empty());
                    assert(base_k >= n);
                }
                let mut options: Vec<FragmentId> = Vec::new();
                let mut m: usize = 0;
                while m < alt.len()
                    invariant
                        names == rule_names(rules),
                        n == rules.len(),
                        ralt == alt@.map_values(|sym: String| sym@),
                        m <= alt@.len(),
                        prefix.len() == base_k,
                        n <= base_k,
                        ret.names() == names,
                                names.no_duplicates(),
                        ret.arena() == prefix + ralt.take(m as int).map_values(|sym: Seq<char>| symbol_fragment(names, sym)),
                        options@ == ids_from(base_k, m as nat),
                        arena_closed(ret.arena()),
                        ret.seed == 0,
                    decreases alt@.len() - m,
                {
                    let sym: &String = &alt[m];
                    let ghost before = ret.arena();
                    proof {
                        assert(ralt[m as int] == sym@);
                        ret.lemma_names();
                    }
                    let fid = match find_name(&ret.rule_names, sym) {
                        Some(idx) => {
                            proof {
                                assert(names[idx as int] == sym@);
                                assert(names.contains(sym@));
                                assert(names.index_of(sym@) == idx as int);
                            }
                            let target: Vec<FragmentId> = vec![FragmentId(idx)];
                            proof {
                                assert(target@ =~= seq![FragmentId(idx)]);
                            }
                            let wrapper = Fragment::NonTerminal(target);
                            proof {
                                assert(wrapper@ == symbol_fragment(names, sym@));
                            }
                            ret.allocate_fragment(wrapper)
                        },
                        None => {
                            proof {
                                assert(!names.contains(sym@));
                            }
                            let bytes: Vec<u8> = slice_to_vec(sym.as_str().as_bytes());
                            let leaf = Fragment::Terminal(bytes);
                            proof {
                                assert(leaf@ == symbol_fragment(names, sym@));
                            }
                            ret.allocate_fragment(leaf)
                        },
                    };
                    proof {
                        assert(before.push(symbol_fragment(names, sym@)) == ret.arena());
                        assert(ret.arena() =~= prefix + ralt.take(m as int + 1).map_values(|sym: Seq<char>| symbol_fragment(names, sym)));
                    }
                    options.push(fid);
                    proof {
                        assert(options@ =~= ids_from(base_k, m as nat + 1));
                    }
                    m = m + 1;
                }
                let ghost before = ret.arena();
                proof {
                    assert(ralt.take(m as int) =~= ralt);
                    assert(forall|q: int| 0 <= q < options@.len() ==> (#[trigger] options@[q]).0 < before.len());
                }
                let eid = ret.allocate_fragment(Fragment::Expression(options));
                expressions.push(eid);
                proof {
                    assert(ralts.take(k as int + 1).drop_last() =~= ralts.take(k as int));
                    assert(ralts.take(k as int + 1).last() == ralt);
                    assert(ret.arena() =~= head + alts_fragments(names, ralts.take(k as int + 1), base));
                    assert(expressions@ =~= alts_ids(names, ralts.take(k as int + 1), base));
                }
                k = k + 1;
            }
            proof {
                assert(ralts.take(k as int) =~= ralts);
            }
            let ghost before = ret.arena();
            let fragment = ret.lookup_fragment_mut(FragmentId(i));
            *fragment = Fragment::NonTerminal(expressions);
            proof {
                assert(rules.take(i as int + 1).drop_last() =~= rules.take(i as int));
                assert(rules.take(i as int + 1).last() == rules[i as int]);
                assert(rule_node(rules, i as int) == FragmentModel::NonTerminal(expressions@));
                assert(ret.arena() =~= Seq::new(n, |j: int| if j < i + 1 { rule_node(rules, j) } else { empty_nt })
                    + rules_fragments(names, rules.take(i as int + 1), n as int));
                assert(arena_closed(ret.arena())) by {
                    assert forall|a: int, b: int|
                        0 <= a < ret.arena().len() && 0 <= b < children(ret.arena()[a]).len()
                        implies (#[trigger] children(ret.arena()[a])[b]).0 < ret.arena().len() by {
                        if a != i {
                            assert(ret.arena()[a] == before[a]);
                        }
                    }
                }
            }
            i = i + 1;
        }
        proof {
            assert(rules.take(n as int) =~= rules);
            assert(ret.arena() =~= compiled_arena(rules));
        }
        // Resolve the start rule.
        let start_key: String = "<start>".to_owned();
        proof {
            reveal_strlit("<start>");
            assert(start_key@ =~= start_name());
            ret.lemma_names();
        }
        match find_name(&ret.rule_names, &start_key) {
            Some(idx) => {
                proof {
                    assert(names[idx as int] == start_name());
                    assert(names.contains(start_name()));
                    assert(names.index_of(start_name()) == idx as int);
                }
                ret.start = FragmentId(idx);
                Ok(ret)
            },
            None => {
                proof {
                    assert(!names.contains(start_name()));
                }
                Err(CompileError::MissingStartRuleError)
            },
        }
    }

    proof fn lemma_names(&self)
        ensures
            self.rule_names@.len() == self.names().len(),
            forall|k: int| 0 <= k < self.names().len() ==> self.names()[k] == (#[trigger] self.rule_names@[k])@,
    {
    }

    /// Appends a fragment to the arena and returns its id.
    pub fn allocate_fragment(&mut self, fragment: Fragment) -> (r: FragmentId)
        ensures
            r.0 == old(self).arena().len(),
            final(self).arena() == old(self).arena().push(fragment@),
            final(self).start_id() == old(self).start_id(),
            final(self).names() == old(self).names(),
            final(self).seed_state() == old(self).seed_state(),
            arena_closed(old(self).arena()) && (forall|k: int|
                0 <= k < children(fragment@).len() ==> (#[trigger] children(fragment@)[k]).0
                    <= old(self).arena().len()) ==> arena_closed(final(self).arena()),
    {
        let fragment_id = FragmentId(self.fragments.len());
        self.fragments.push(fragment);
        proof {
            assert(self.arena() =~= old(self).arena().push(fragment@));
        }
        fragment_id
    }

    /// Gives write access to the fragment with id `id`.
    pub fn lookup_fragment_mut(&mut self, id: FragmentId) -> (r: &mut Fragment)
        requires
            id.0 < old(self).arena().len(),
        ensures
            r@ == old(self).arena()[id.0 as int],
            final(self).arena() == old(self).arena().update(id.0 as int, final(r)@),
            final(self).start_id() == old(self).start_id(),
            final(self).names() == old(self).names(),
            final(self).seed_state() == old(self).seed_state(),
    {
        &mut self.fragments[id.0]
    }

    /// The fragment with id `id`.
    pub fn lookup_fragment(&self, id: FragmentId) -> (r: &Fragment)
        requires
            id.0 < self.arena().len(),
        ensures
            r@ == self.arena()[id.0 as int],
    {
        &self.fragments[id.0]
    }

    /// The children of the choice point with id `id`.
    pub fn lookup_fragment_nonterm(&self, id: FragmentId) -> (r: &[FragmentId])
        requires
            id.0 < self.arena().len(),
            self.arena()[id.0 as int] is NonTerminal,
        ensures
            r@ == children(self.arena()[id.0 as int]),
    {
        match &self.fragments[id.0] {
            Fragment::NonTerminal(x) => x.as_slice(),
            _ => &[],
        }
    }

    /// Whether `generate` may run: every id in the arena and the start id point
    /// into the arena, and no choice point is empty.
    pub fn can_generate(&self) -> (r: bool)
        ensures
            r == (self.wf() && choices_nonempty(self.arena())),
    {
        let len: usize = self.fragments.len();
        if self.start.0 >= len {
            return false;
        }
        let mut i: usize = 0;
        while i < len
            invariant
                len == self.arena().len(),
                i <= len,
                forall|a: int, b: int|
                    0 <= a < i && 0 <= b < children(self.arena()[a]).len() ==> (
                    #[trigger] children(self.arena()[a])[b]).0 < len,
                forall|a: int| 0 <= a < i ==> match #[trigger] self.arena()[a] {
                    FragmentModel::NonTerminal(c) => c.len() > 0,
                    _ => true,
                },
            decreases len - i,
        {
            proof {
                assert(self.fragments@[i as int]@ == self.arena()[i as int]);
            }
            let ids: &Vec<FragmentId> = match &self.fragments[i] {
                Fragment::NonTerminal(c) => {
                    if c.len() == 0 {
                        return false;
                    }
                    c
                },
                Fragment::Expression(c) => c,
                Fragment::Terminal(_) => {
                    i = i + 1;
                    continue;
                },
            };
            let mut k: usize = 0;
            while k < ids.len()
                invariant
                    ids@ == children(self.arena()[i as int]),
                    len == self.arena().len(),
                    i < len,
                    k <= ids@.len(),
                    forall|b: int| 0 <= b < k ==> (#[trigger] ids@[b]).0 < len,
                decreases ids@.len() - k,
            {
                if ids[k].0 >= len {
                    proof {
                        assert(children(self.arena()[i as int])[k as int].0 >= len);
                    }
                    return false;
                }
                k = k + 1;
            }
            i = i + 1;
        }
        true
    }

    /// Seeds the pseudo-random source from the process's entropy.
    pub fn seed_from_entropy(&mut self)
        ensures
            final(self).arena() == old(self).arena(),
            final(self).start_id() == old(self).start_id(),
            final(self).names() == old(self).names(),
    {
        let v: i32 = entropy();
        self.seed(#[verifier::truncate] (v as usize));
    }

    /// Sets the state of the pseudo-random source.
    pub fn seed(&mut self, val: usize)
        ensures
            final(self).seed_state() == val as u64,
            final(self).arena() == old(self).arena(),
            final(self).start_id() == old(self).start_id(),
            final(self).names() == old(self).names(),
    {
        self.seed = val as u64;
    }

    /// Advances the pseudo-random source by one xorshift step and returns the
    /// new state.
    pub fn rand(&mut self) -> (r: usize)
        ensures
            final(self).seed_state() == xorshift(old(self).seed_state()),
            r == final(self).seed_state() as usize,
            final(self).arena() == old(self).arena(),
            final(self).start_id() == old(self).start_id(),
            final(self).names() == old(self).names(),
    {
        let seed: u64 = next_state(self.seed);
        self.seed = seed;
        seed as usize
    }

    /// Derives one random string from the start fragment and appends it to
    /// `buf`; `stack` is scratch space. The arena is left as it was.
    pub fn generate(&mut self, stack: &mut Vec<FragmentId>, buf: &mut Vec<u8>)
        requires
            old(self).wf(),
            choices_nonempty(old(self).arena()),
        ensures
            (final(buf)@, final(self).seed_state(), final(stack)@) == old(self).derivation(
                old(buf)@,
            ),
            old(buf)@.len() <= OUTPUT_CEILING ==> final(buf)@.len() <= OUTPUT_CEILING
                + max_terminal_len(old(self).arena()),
            final(self).arena() == old(self).arena(),
            final(self).start_id() == old(self).start_id(),
            final(self).names() == old(self).names(),
    {
        let ghost arena = self.arena();
        let ghost target = self.derivation(buf@);
        proof {
            if buf@.len() <= OUTPUT_CEILING {
                assert(stack_in(arena, seq![self.start]));
                lemma_run_bounded(arena, seq![self.start], buf@, self.seed, STEP_LIMIT as nat);
            }
        }
        stack.clear();
        stack.push(self.start);
        let mut fuel: u64 = STEP_LIMIT;
        let mut halted: bool = false;
        while !halted && fuel > 0 && stack.len() > 0
            invariant
                self.arena() == arena,
                self.start_id() == old(self).start_id(),
                self.names() == old(self).names(),
                arena_closed(arena),
                choices_nonempty(arena),
                forall|k: int| 0 <= k < stack@.len() ==> (#[trigger] stack@[k]).0 < arena.len(),
                (if halted {
                    (buf@, self.seed, stack@)
                } else {
                    run(arena, stack@, buf@, self.seed, fuel as nat)
                }) == target,
            decreases fuel,
        {
            let ghost stack_before = stack@;
            let cur = stack.pop().unwrap();
            let ghost stack_rest = stack@;
            proof {
                assert(stack_rest == stack_before.drop_last());
                assert(cur == stack_before.last());
                assert(self.fragments@[cur.0 as int]@ == arena[cur.0 as int]);
                assert(forall|k: int| 0 <= k < stack_rest.len() ==> stack_rest[k] == stack_before[k]);
            }
            match &self.fragments[cur.0] {
                Fragment::NonTerminal(options) => {
                    let s: u64 = next_state(self.seed);
                    self.seed = s;
                    let n: usize = options.len();
                    let sel = options[(#[verifier::truncate] (s as usize)) % n];
                    proof {
                        assert(children(arena[cur.0 as int]) == options@);
                        assert(sel == options@[pick(s, n as int)]);
                    }
                    stack.push(sel);
                    proof {
                        assert(stack@ == stack_rest.push(sel));
                    }
                },
                Fragment::Expression(expr) => {
                    proof {
                        assert(children(arena[cur.0 as int]) == expr@);
                    }
                    let mut j: usize = expr.len();
                    while j > 0
                        invariant
                            j <= expr@.len(),
                            expr@ == children(arena[cur.0 as int]),
                            0 <= cur.0 < arena.len(),
                            arena_closed(arena),
                            stack@ == stack_rest + expr@.subrange(j as int, expr@.len() as int).reverse(),
                            forall|k: int| 0 <= k < stack@.len() ==> (#[trigger] stack@[k]).0 < arena.len(),
                        decreases j,
                    {
                        j = j - 1;
                        stack.push(expr[j]);
                        proof {
                            assert(expr@[j as int] == children(arena[cur.0 as int])[j as int]);
                            assert(stack@ =~= stack_rest + expr@.subrange(j as int, expr@.len() as int).reverse());
                        }
                    }
                    proof {
                        assert(expr@.subrange(0, expr@.len() as int) =~= expr@);
                    }
                },
                Fragment::Terminal(value) => {
                    let ghost out_before = buf@;
                    buf.extend_from_slice(value.as_slice());
                    proof {
                        assert(buf@ =~= out_before + value@);
                    }
                    if buf.len() > OUTPUT_CEILING {
                        halted = true;
                    }
                },
            }
            fuel = fuel - 1;
        }
    }
}

} // verus!
