//! Facts about derivations and compiled grammars.
use vstd::prelude::*;
use crate::grammar::GrammarRust;
use vstd::utf8::encode_utf8;
use crate::model::{
    RuleModel, rule_names, rules_fragments, alts_fragments, alt_fragments, alts_ids, compiled_arena,
    rule_base, rule_node, symbol_fragment, ids_from,
    FragmentId, FragmentModel, OUTPUT_CEILING, arena_closed, children, choices_nonempty, pick,
    run, xorshift, STEP_LIMIT,
};

verus! {

/// The bytes of a terminal; other fragments have none.
pub open spec fn terminal_bytes(f: FragmentModel) -> Seq<u8> {
    match f {
        FragmentModel::Terminal(b) => b,
        _ => Seq::empty(),
    }
}

/// The length of the longest terminal in the arena.
pub open spec fn max_terminal_len(arena: Seq<FragmentModel>) -> nat
    decreases arena.len(),
{
    if arena.len() == 0 {
        0
    } else {
        let rest = max_terminal_len(arena.drop_last());
        let here = terminal_bytes(arena.last()).len();
        if here > rest {
            here
        } else {
            rest
        }
    }
}

/// Every id on the stack points into the arena.
pub open spec fn stack_in(arena: Seq<FragmentModel>, stack: Seq<FragmentId>) -> bool {
    forall|k: int| 0 <= k < stack.len() ==> (#[trigger] stack[k]).0 < arena.len()
}

proof fn lemma_max_terminal_len(arena: Seq<FragmentModel>, i: int)
    requires
        0 <= i < arena.len(),
    ensures
        terminal_bytes(arena[i]).len() <= max_terminal_len(arena),
    decreases arena.len(),
{
    if i < arena.len() - 1 {
        lemma_max_terminal_len(arena.drop_last(), i);
        assert(arena.drop_last()[i] == arena[i]);
    }
}

/// The step of a derivation that handles a choice point keeps the stack in
/// the arena.
proof fn lemma_choice_in(arena: Seq<FragmentModel>, id: FragmentId, s: u64)
    requires
        arena_closed(arena),
        choices_nonempty(arena),
        id.0 < arena.len(),
        arena[id.0 as int] is NonTerminal,
    ensures
        0 <= pick(s, children(arena[id.0 as int]).len() as int) < children(
            arena[id.0 as int],
        ).len(),
        children(arena[id.0 as int])[pick(s, children(arena[id.0 as int]).len() as int)].0
            < arena.len(),
{
    let c = children(arena[id.0 as int]);
    assert(c.len() > 0);
    let p = pick(s, c.len() as int);
    assert(0 <= p < c.len());
    assert(c[p].0 < arena.len());
}

/// A derivation that starts with at most `OUTPUT_CEILING` bytes ends with at
/// most `OUTPUT_CEILING` bytes plus the longest terminal of the arena.
pub proof fn lemma_run_bounded(
    arena: Seq<FragmentModel>,
    stack: Seq<FragmentId>,
    out: Seq<u8>,
    seed: u64,
    fuel: nat,
)
    requires
        arena_closed(arena),
        choices_nonempty(arena),
        stack_in(arena, stack),
        out.len() <= OUTPUT_CEILING,
    ensures
        run(arena, stack, out, seed, fuel).0.len() <= OUTPUT_CEILING + max_terminal_len(arena),
    decreases fuel,
{
    if fuel == 0 || stack.len() == 0 {
    } else {
        let top = stack.last();
        let rest = stack.drop_last();
        assert(top.0 < arena.len());
        assert(stack_in(arena, rest));
        match arena[top.0 as int] {
            FragmentModel::NonTerminal(c) => {
                let s = xorshift(seed);
                lemma_choice_in(arena, top, s);
                let next = rest.push(c[pick(s, c.len() as int)]);
                assert(stack_in(arena, next));
                lemma_run_bounded(arena, next, out, s, (fuel - 1) as nat);
            },
            FragmentModel::Expression(c) => {
                let next = rest + c.reverse();
                assert(stack_in(arena, next)) by {
                    assert forall|k: int| 0 <= k < next.len() implies (#[trigger] next[k]).0
                        < arena.len() by {
                        if k >= rest.len() {
                            let q = c.len() - 1 - (k - rest.len());
                            assert(next[k] == c[q]);
                            assert(children(arena[top.0 as int])[q] == c[q]);
                        }
                    }
                }
                lemma_run_bounded(arena, next, out, seed, (fuel - 1) as nat);
            },
            FragmentModel::Terminal(b) => {
                lemma_max_terminal_len(arena, top.0 as int);
                let o = out + b;
                if o.len() > OUTPUT_CEILING {
                } else {
                    lemma_run_bounded(arena, rest, o, seed, (fuel - 1) as nat);
                }
            },
        }
    }
}

/// `path` follows child edges of the arena from its first fragment to its last.
pub open spec fn is_path(arena: Seq<FragmentModel>, path: Seq<FragmentId>) -> bool {
    &&& path.len() > 0
    &&& forall|k: int|
        0 < k < path.len() ==> children(arena[path[k - 1].0 as int]).contains(#[trigger] path[k])
}

/// Fragment `to` can be reached from fragment `from` along child edges.
pub open spec fn reachable(arena: Seq<FragmentModel>, from: FragmentId, to: FragmentId) -> bool {
    exists|path: Seq<FragmentId>| is_path(arena, path) && path[0] == from && path.last() == to
}

/// The bytes of the terminals `ts`, one after another.
pub open spec fn terminals_concat(arena: Seq<FragmentModel>, ts: Seq<FragmentId>) -> Seq<u8> {
    ts.map_values(|t: FragmentId| terminal_bytes(arena[t.0 as int])).flatten()
}

/// Each of `ts` is a terminal of the arena reachable from `root`.
pub open spec fn reachable_terminals(
    arena: Seq<FragmentModel>,
    root: FragmentId,
    ts: Seq<FragmentId>,
) -> bool {
    forall|i: int|
        0 <= i < ts.len() ==> (#[trigger] arena[ts[i].0 as int]) is Terminal && reachable(
            arena,
            root,
            ts[i],
        )
}

proof fn lemma_reach_child(arena: Seq<FragmentModel>, root: FragmentId, x: FragmentId, c: FragmentId)
    requires
        reachable(arena, root, x),
        children(arena[x.0 as int]).contains(c),
    ensures
        reachable(arena, root, c),
{
    let p = choose|p: Seq<FragmentId>| is_path(arena, p) && p[0] == root && p.last() == x;
    let q = p.push(c);
    assert forall|k: int| 0 < k < q.len() implies children(arena[q[k - 1].0 as int]).contains(
        #[trigger] q[k],
    ) by {
        if k < p.len() {
            assert(q[k] == p[k]);
            assert(q[k - 1] == p[k - 1]);
        } else {
            assert(q[k - 1] == x);
            assert(q[k] == c);
        }
    }
    assert(is_path(arena, q));
    assert(q[0] == root && q.last() == c);
}

proof fn lemma_concat_cons(arena: Seq<FragmentModel>, t: FragmentId, ts: Seq<FragmentId>)
    ensures
        terminals_concat(arena, seq![t] + ts) == terminal_bytes(arena[t.0 as int])
            + terminals_concat(arena, ts),
{
    let m = (seq![t] + ts).map_values(|u: FragmentId| terminal_bytes(arena[u.0 as int]));
    assert(m.drop_first() =~= ts.map_values(|u: FragmentId| terminal_bytes(arena[u.0 as int])));
    assert(m.first() == terminal_bytes(arena[t.0 as int]));
}

/// Every derivation emits, after what was there, the bytes of a sequence of
/// terminals each reachable from `root`, provided the stack holds only
/// fragments reachable from `root`.
pub proof fn lemma_run_emits_reachable_terminals(
    arena: Seq<FragmentModel>,
    root: FragmentId,
    stack: Seq<FragmentId>,
    out: Seq<u8>,
    seed: u64,
    fuel: nat,
)
    requires
        arena_closed(arena),
        choices_nonempty(arena),
        stack_in(arena, stack),
        forall|k: int| 0 <= k < stack.len() ==> reachable(arena, root, #[trigger] stack[k]),
    ensures
        exists|ts: Seq<FragmentId>|
            reachable_terminals(arena, root, ts) && run(arena, stack, out, seed, fuel).0 == out
                + terminals_concat(arena, ts),
    decreases fuel,
{
    if fuel == 0 || stack.len() == 0 {
        let ts = Seq::<FragmentId>::empty();
        assert(terminals_concat(arena, ts) =~= Seq::empty());
        assert(out + terminals_concat(arena, ts) =~= out);
        assert(reachable_terminals(arena, root, ts));
    } else {
        let top = stack.last();
        let rest = stack.drop_last();
        assert(top.0 < arena.len());
        assert(reachable(arena, root, top));
        assert(stack_in(arena, rest));
        assert(forall|k: int| 0 <= k < rest.len() ==> rest[k] == stack[k]);
        match arena[top.0 as int] {
            FragmentModel::NonTerminal(c) => {
                let s = xorshift(seed);
                lemma_choice_in(arena, top, s);
                let chosen = c[pick(s, c.len() as int)];
                let next = rest.push(chosen);
                assert(stack_in(arena, next));
                assert(c.contains(chosen));
                lemma_reach_child(arena, root, top, chosen);
                assert(forall|k: int| 0 <= k < rest.len() ==> next[k] == rest[k]);
                lemma_run_emits_reachable_terminals(arena, root, next, out, s, (fuel - 1) as nat);
            },
            FragmentModel::Expression(c) => {
                let next = rest + c.reverse();
                assert forall|k: int| 0 <= k < next.len() implies (#[trigger] next[k]).0
                    < arena.len() && reachable(arena, root, next[k]) by {
                    if k >= rest.len() {
                        let q = c.len() - 1 - (k - rest.len());
                        assert(next[k] == c[q]);
                        assert(children(arena[top.0 as int])[q] == c[q]);
                        assert(c.contains(c[q]));
                        lemma_reach_child(arena, root, top, c[q]);
                    } else {
                        assert(next[k] == rest[k]);
                    }
                }
                lemma_run_emits_reachable_terminals(arena, root, next, out, seed, (fuel - 1) as nat);
            },
            FragmentModel::Terminal(b) => {
                let o = out + b;
                let ts0 = seq![top];
                assert(reachable_terminals(arena, root, ts0));
                if o.len() > OUTPUT_CEILING {
                    lemma_concat_cons(arena, top, Seq::empty());
                    assert(ts0 =~= seq![top] + Seq::<FragmentId>::empty());
                    assert(terminals_concat(arena, Seq::<FragmentId>::empty()) =~= Seq::empty());
                    assert(terminals_concat(arena, ts0) =~= b);
                } else {
                    lemma_run_emits_reachable_terminals(arena, root, rest, o, seed, (fuel - 1) as nat);
                    let tail = choose|ts: Seq<FragmentId>|
                        reachable_terminals(arena, root, ts) && run(arena, rest, o, seed, (fuel - 1) as nat).0
                            == o + terminals_concat(arena, ts);
                    let ts = seq![top] + tail;
                    lemma_concat_cons(arena, top, tail);
                    assert(out + terminals_concat(arena, ts) =~= o + terminals_concat(arena, tail));
                    assert forall|i: int| 0 <= i < ts.len() implies (#[trigger] arena[ts[i].0 as int]) is Terminal
                        && reachable(arena, root, ts[i]) by {
                        if i > 0 {
                            assert(ts[i] == tail[i - 1]);
                        }
                    }
                    assert(reachable_terminals(arena, root, ts));
                }
            },
        }
    }
}

/// Every output of `generate` is what was in the buffer followed by the bytes
/// of terminals reachable from the start fragment, one after another.
pub proof fn lemma_generated_from_reachable_terminals(g: GrammarRust, out: Seq<u8>)
    requires
        g.wf(),
        choices_nonempty(g.arena()),
    ensures
        exists|ts: Seq<FragmentId>|
            reachable_terminals(g.arena(), g.start_id(), ts) && g.derivation(out).0 == out
                + terminals_concat(g.arena(), ts),
{
    let stack = seq![g.start_id()];
    assert(is_path(g.arena(), stack));
    assert(stack[0] == g.start_id() && stack.last() == g.start_id());
    assert(reachable(g.arena(), g.start_id(), g.start_id()));
    assert(stack_in(g.arena(), stack));
    lemma_run_emits_reachable_terminals(g.arena(), g.start_id(), stack, out, g.seed_state(), STEP_LIMIT as nat);
}

proof fn lemma_rules_prefix(names: Seq<Seq<char>>, rules: Seq<RuleModel>, j: int, base: int)
    requires
        0 <= j < rules.len(),
    ensures
        rules_fragments(names, rules.take(j + 1), base).len() <= rules_fragments(
            names,
            rules,
            base,
        ).len(),
        forall|q: int|
            0 <= q < rules_fragments(names, rules.take(j + 1), base).len() ==> rules_fragments(
                names,
                rules,
                base,
            )[q] == #[trigger] rules_fragments(names, rules.take(j + 1), base)[q],
    decreases rules.len(),
{
    if j + 1 == rules.len() {
        assert(rules.take(j + 1) =~= rules);
    } else {
        let shorter = rules.drop_last();
        assert(shorter.take(j + 1) =~= rules.take(j + 1));
        lemma_rules_prefix(names, shorter, j, base);
    }
}

/// Where rule `i`'s alternatives were compiled, the arena holds their fragments.
proof fn lemma_rule_block(rules: Seq<RuleModel>, i: int, q: int)
    requires
        0 <= i < rules.len(),
        0 <= q < alts_fragments(rule_names(rules), rules[i].1, rule_base(rules, i)).len(),
    ensures
        compiled_arena(rules)[rule_base(rules, i) + q] == alts_fragments(
            rule_names(rules),
            rules[i].1,
            rule_base(rules, i),
        )[q],
        rule_base(rules, i) + q < compiled_arena(rules).len(),
{
    let names = rule_names(rules);
    let n = rules.len() as int;
    let before = rules_fragments(names, rules.take(i), n);
    let upto = rules_fragments(names, rules.take(i + 1), n);
    assert(rules.take(i + 1).drop_last() =~= rules.take(i));
    assert(rules.take(i + 1).last() == rules[i]);
    assert(upto == before + alts_fragments(names, rules[i].1, n + before.len()));
    lemma_rules_prefix(names, rules, i, n);
    assert(upto[before.len() + q] == rules_fragments(names, rules, n)[before.len() + q]);
}

/// A rule whose only alternative is one symbol that names no rule always
/// emits that symbol's bytes: expanding its choice point takes one draw of the
/// generator and three work items, then the derivation goes on with the rest
/// of the stack (or stops with the rest pending, where the bytes took the
/// output past the ceiling).
pub proof fn lemma_single_terminal_rule(
    rules: Seq<RuleModel>,
    i: int,
    sym: Seq<char>,
    rest: Seq<FragmentId>,
    out: Seq<u8>,
    seed: u64,
    fuel: nat,
)
    requires
        0 <= i < rules.len(),
        rules[i].1 == seq![seq![sym]],
        !rule_names(rules).contains(sym),
        compiled_arena(rules).len() <= usize::MAX,
        fuel >= 3,
    ensures
        run(compiled_arena(rules), rest.push(FragmentId(i as usize)), out, seed, fuel) == ({
            let o = out + encode_utf8(sym);
            let s = xorshift(seed);
            if o.len() > OUTPUT_CEILING {
                (o, s, rest)
            } else {
                run(compiled_arena(rules), rest, o, s, (fuel - 3) as nat)
            }
        }),
{
    let names = rule_names(rules);
    let arena = compiled_arena(rules);
    let t = rule_base(rules, i);
    let alts = rules[i].1;
    let block = alts_fragments(names, alts, t);
    assert(alts.drop_last() =~= Seq::<Seq<Seq<char>>>::empty());
    assert(alts.last() == seq![sym]);
    let alt = seq![sym];
    assert(alt_fragments(names, alt, t) =~= seq![
        symbol_fragment(names, sym),
        FragmentModel::Expression(ids_from(t, 1)),
    ]);
    assert(block =~= alt_fragments(names, alt, t));
    assert(ids_from(t, 1) =~= seq![FragmentId(t as usize)]);
    lemma_rule_block(rules, i, 0);
    lemma_rule_block(rules, i, 1);
    assert(arena[t] == FragmentModel::Terminal(encode_utf8(sym)));
    assert(arena[t + 1] == FragmentModel::Expression(seq![FragmentId(t as usize)]));
    assert(alts_fragments(names, alts.drop_last(), t) =~= Seq::empty());
    assert(alts_ids(names, alts.drop_last(), t) =~= Seq::empty());
    assert(alts_ids(names, alts, t) =~= seq![FragmentId((t + 1) as usize)]);
    assert(arena[i] == rule_node(rules, i));
    let s = xorshift(seed);
    assert(pick(s, 1) == 0);
    let st1 = rest.push(FragmentId((t + 1) as usize));
    assert(rest.push(FragmentId(i as usize)).drop_last() == rest);
    assert(st1.drop_last() == rest);
    assert(arena.len() >= rules.len());
    assert(FragmentId(i as usize).0 as int == i);
    assert(FragmentId((t + 1) as usize).0 as int == t + 1) by {
        assert(t + 1 < arena.len());
    }
    assert(FragmentId(t as usize).0 as int == t);
    let st2 = rest + seq![FragmentId(t as usize)].reverse();
    assert(st2 =~= rest.push(FragmentId(t as usize)));
    assert(st2.drop_last() =~= rest);
    assert(st2.last() == FragmentId(t as usize));
    assert(st1.last() == FragmentId((t + 1) as usize));
    let o = out + encode_utf8(sym);
    assert(run(arena, rest.push(FragmentId(i as usize)), out, seed, fuel) == run(arena, st1, out, s, (fuel - 1) as nat));
    assert(run(arena, st1, out, s, (fuel - 1) as nat) == run(arena, st2, out, s, (fuel - 2) as nat));
    assert(run(arena, st2, out, s, (fuel - 2) as nat) == (if o.len() > OUTPUT_CEILING {
        (o, s, rest)
    } else {
        run(arena, rest, o, s, (fuel - 3) as nat)
    }));
}

/// The layout of a rule with one alternative: its choice point has the
/// alternative's expression as its only child, which joins one fragment per
/// symbol, allocated right before it.
proof fn lemma_single_alt_layout(rules: Seq<RuleModel>, j: int, alt: Seq<Seq<char>>)
    requires
        0 <= j < rules.len(),
        rules[j].1 == seq![alt],
    ensures
        rule_base(rules, j) + alt.len() < compiled_arena(rules).len(),
        compiled_arena(rules)[j] == FragmentModel::NonTerminal(
            seq![FragmentId((rule_base(rules, j) + alt.len()) as usize)],
        ),
        compiled_arena(rules)[rule_base(rules, j) + alt.len()] == FragmentModel::Expression(
            ids_from(rule_base(rules, j), alt.len()),
        ),
        forall|q: int|
            0 <= q < alt.len() ==> compiled_arena(rules)[rule_base(rules, j) + q]
                == symbol_fragment(rule_names(rules), #[trigger] alt[q]),
{
    let names = rule_names(rules);
    let b = rule_base(rules, j);
    let alts = rules[j].1;
    assert(alts.drop_last() =~= Seq::<Seq<Seq<char>>>::empty());
    assert(alts.last() == alt);
    assert(alts_fragments(names, alts.drop_last(), b) =~= Seq::empty());
    assert(alts_ids(names, alts.drop_last(), b) =~= Seq::empty());
    assert(alts_fragments(names, alts, b) =~= alt_fragments(names, alt, b));
    assert(alts_ids(names, alts, b) =~= seq![FragmentId((b + alt.len()) as usize)]);
    assert(compiled_arena(rules)[j] == rule_node(rules, j));
    lemma_rule_block(rules, j, alt.len() as int);
    assert forall|q: int| 0 <= q < alt.len() implies compiled_arena(rules)[b + q] == symbol_fragment(
        names,
        #[trigger] alt[q],
    ) by {
        lemma_rule_block(rules, j, q);
    }
}

/// What a symbol of an alternative emits, where the only rule it may name is
/// one whose single alternative is the single symbol `t`.
pub open spec fn symbol_output(names: Seq<Seq<char>>, t: Seq<char>, sym: Seq<char>) -> Seq<u8> {
    if names.contains(sym) {
        encode_utf8(t)
    } else {
        encode_utf8(sym)
    }
}

/// What a list of such symbols emits, one after another.
pub open spec fn symbols_output(names: Seq<Seq<char>>, t: Seq<char>, syms: Seq<Seq<char>>) -> Seq<u8> {
    syms.map_values(|sym: Seq<char>| symbol_output(names, t, sym)).flatten()
}

proof fn lemma_symbols_output_cons(names: Seq<Seq<char>>, t: Seq<char>, syms: Seq<Seq<char>>)
    requires
        syms.len() > 0,
    ensures
        symbols_output(names, t, syms) == symbol_output(names, t, syms[0]) + symbols_output(
            names,
            t,
            syms.drop_first(),
        ),
{
    let m = syms.map_values(|sym: Seq<char>| symbol_output(names, t, sym));
    assert(m.drop_first() =~= syms.drop_first().map_values(
        |sym: Seq<char>| symbol_output(names, t, sym),
    ));
}

/// Expanding the fragments of `alt[m..]`, allocated from id `base + m` on,
/// emits their outputs in order and empties the stack.
proof fn lemma_symbols_run(
    rules: Seq<RuleModel>,
    i: int,
    t: Seq<char>,
    alt: Seq<Seq<char>>,
    base: int,
    m: int,
    out: Seq<u8>,
    seed: u64,
    fuel: nat,
)
    requires
        0 <= i < rules.len(),
        rules[i].1 == seq![seq![t]],
        !rule_names(rules).contains(t),
        rule_names(rules).no_duplicates(),
        compiled_arena(rules).len() <= usize::MAX,
        0 <= m <= alt.len(),
        0 <= base,
        base + alt.len() <= compiled_arena(rules).len(),
        forall|q: int|
            0 <= q < alt.len() ==> compiled_arena(rules)[base + q] == symbol_fragment(
                rule_names(rules),
                #[trigger] alt[q],
            ),
        forall|q: int|
            0 <= q < alt.len() ==> #[trigger] alt[q] == rule_names(rules)[i] || !rule_names(
                rules,
            ).contains(alt[q]),
        fuel >= 4 * (alt.len() - m),
        (out + symbols_output(rule_names(rules), t, alt.subrange(m, alt.len() as int))).len()
            <= OUTPUT_CEILING,
    ensures
        run(compiled_arena(rules), ids_from(base + m, (alt.len() - m) as nat).reverse(), out, seed, fuel).0
            == out + symbols_output(rule_names(rules), t, alt.subrange(m, alt.len() as int)),
        run(compiled_arena(rules), ids_from(base + m, (alt.len() - m) as nat).reverse(), out, seed, fuel).2
            == Seq::<FragmentId>::empty(),
    decreases alt.len() - m,
{
    let names = rule_names(rules);
    let arena = compiled_arena(rules);
    let len = alt.len() as int;
    let stack = ids_from(base + m, (len - m) as nat).reverse();
    let tail = alt.subrange(m, len);
    if m == len {
        assert(stack =~= Seq::empty());
        assert(tail =~= Seq::empty());
        assert(symbols_output(names, t, tail) =~= Seq::empty());
        assert(out + symbols_output(names, t, tail) =~= out);
    } else {
        let rest = ids_from(base + m + 1, (len - m - 1) as nat).reverse();
        let id = FragmentId((base + m) as usize);
        assert(stack =~= rest.push(id));
        assert(stack.drop_last() =~= rest);
        assert(id.0 as int == base + m);
        lemma_symbols_output_cons(names, t, tail);
        assert(tail[0] == alt[m]);
        assert(tail.drop_first() =~= alt.subrange(m + 1, len));
        let b = symbol_output(names, t, alt[m]);
        let later = symbols_output(names, t, alt.subrange(m + 1, len));
        assert(out + symbols_output(names, t, tail) =~= (out + b) + later);
        assert(arena[base + m] == symbol_fragment(names, alt[m]));
        if alt[m] == names[i] {
            assert(names.contains(alt[m]));
            assert(names.index_of(alt[m]) == i);
            assert(arena[base + m] == FragmentModel::NonTerminal(seq![FragmentId(i as usize)]));
            let s = xorshift(seed);
            assert(pick(s, 1) == 0);
            assert(run(arena, stack, out, seed, fuel) == run(arena, rest.push(FragmentId(i as usize)), out, s, (fuel - 1) as nat));
            lemma_single_terminal_rule(rules, i, t, rest, out, s, (fuel - 1) as nat);
            let s2 = xorshift(s);
            assert(b == encode_utf8(t));
            assert(run(arena, stack, out, seed, fuel) == run(arena, rest, out + b, s2, (fuel - 4) as nat));
            lemma_symbols_run(rules, i, t, alt, base, m + 1, out + b, s2, (fuel - 4) as nat);
        } else {
            assert(!names.contains(alt[m]));
            assert(b == encode_utf8(alt[m]));
            assert(run(arena, stack, out, seed, fuel) == run(arena, rest, out + b, seed, (fuel - 1) as nat));
            lemma_symbols_run(rules, i, t, alt, base, m + 1, out + b, seed, (fuel - 1) as nat);
        }
    }
}

/// A rule `i` whose only alternative is one symbol `t` that names no rule
/// emits `t`'s bytes wherever it is referenced: expanding rule `j`, whose
/// single alternative is a list of symbols each naming rule `i` or no rule at
/// all, emits each symbol's bytes in order, `t`'s for each reference, whatever
/// the draws, while the output stays within the ceiling.
pub proof fn lemma_single_terminal_rule_everywhere(
    rules: Seq<RuleModel>,
    i: int,
    t: Seq<char>,
    j: int,
    alt: Seq<Seq<char>>,
    out: Seq<u8>,
    seed: u64,
    fuel: nat,
)
    requires
        0 <= i < rules.len(),
        0 <= j < rules.len(),
        rules[i].1 == seq![seq![t]],
        !rule_names(rules).contains(t),
        rule_names(rules).no_duplicates(),
        rules[j].1 == seq![alt],
        forall|q: int|
            0 <= q < alt.len() ==> #[trigger] alt[q] == rule_names(rules)[i] || !rule_names(
                rules,
            ).contains(alt[q]),
        compiled_arena(rules).len() <= usize::MAX,
        fuel >= 4 * alt.len() + 2,
        (out + symbols_output(rule_names(rules), t, alt)).len() <= OUTPUT_CEILING,
    ensures
        run(compiled_arena(rules), seq![FragmentId(j as usize)], out, seed, fuel).0 == out
            + symbols_output(rule_names(rules), t, alt),
        run(compiled_arena(rules), seq![FragmentId(j as usize)], out, seed, fuel).2
            == Seq::<FragmentId>::empty(),
{
    let arena = compiled_arena(rules);
    let base = rule_base(rules, j);
    let len = alt.len() as int;
    lemma_single_alt_layout(rules, j, alt);
    assert(arena.len() >= rules.len());
    let e = FragmentId((base + len) as usize);
    assert(e.0 as int == base + len);
    assert(FragmentId(j as usize).0 as int == j);
    let s = xorshift(seed);
    assert(pick(s, 1) == 0);
    let st0 = seq![FragmentId(j as usize)];
    assert(st0.drop_last() =~= Seq::<FragmentId>::empty());
    let st1 = seq![e];
    assert(Seq::<FragmentId>::empty().push(e) =~= st1);
    assert(st1.drop_last() =~= Seq::<FragmentId>::empty());
    let ids = ids_from(base, len as nat);
    assert(Seq::<FragmentId>::empty() + ids.reverse() =~= ids.reverse());
    assert(ids_from(base + 0, (len - 0) as nat) =~= ids);
    assert(alt.subrange(0, len) =~= alt);
    assert(run(arena, st0, out, seed, fuel) == run(arena, st1, out, s, (fuel - 1) as nat));
    assert(run(arena, st1, out, s, (fuel - 1) as nat) == run(arena, ids.reverse(), out, s, (fuel - 2) as nat));
    lemma_symbols_run(rules, i, t, alt, base, 0, out, s, (fuel - 2) as nat);
}

/// What a call of `generate` emits depends only on the arena, the start
/// fragment, the generator state and the buffer it appends to: two grammars
/// that agree on those produce the same bytes and leave the same state.
pub proof fn lemma_generate_deterministic(g1: GrammarRust, g2: GrammarRust, out: Seq<u8>)
    requires
        g1.arena() == g2.arena(),
        g1.start_id() == g2.start_id(),
        g1.seed_state() == g2.seed_state(),
    ensures
        g1.derivation(out) == g2.derivation(out),
{
}

} // verus!
