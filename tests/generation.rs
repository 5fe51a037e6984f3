use grammar_gen::grammar::{CompileError, Grammar, GrammarRust};
use grammar_gen::json::compile_json;
use grammar_gen::model::{Fragment, FragmentId, OUTPUT_CEILING};

fn rule(name: &str, alts: &[&[&str]]) -> (String, Vec<Vec<String>>) {
    (
        name.to_string(),
        alts.iter().map(|a| a.iter().map(|s| s.to_string()).collect()).collect(),
    )
}

fn compile(rules: Vec<(String, Vec<Vec<String>>)>) -> GrammarRust {
    GrammarRust::new(&Grammar(rules)).expect("grammar compiles")
}

fn draw(g: &mut GrammarRust) -> Vec<u8> {
    let mut stack = Vec::new();
    let mut buf = Vec::new();
    g.generate(&mut stack, &mut buf);
    buf
}

#[test]
fn rand_follows_xorshift() {
    let mut g = compile(vec![rule("<start>", &[&["a"]])]);
    g.seed(1);
    assert_eq!(g.rand(), 72066390130958337);
    assert_eq!(g.rand(), 4503599627371009);
    g.seed(12345);
    assert_eq!(g.rand(), 4078519636080399162);
}

#[test]
fn zero_seed_stays_zero() {
    let mut g = compile(vec![rule("<start>", &[&["a"]])]);
    g.seed(0);
    assert_eq!(g.rand(), 0);
    assert_eq!(g.rand(), 0);
}

#[test]
fn repeated_rule_name_is_rejected() {
    let r = GrammarRust::new(&Grammar(vec![
        rule("<start>", &[&["a"]]),
        rule("<b>", &[&["b"]]),
        rule("<start>", &[&["c"]]),
    ]));
    assert_eq!(r.err(), Some(CompileError::DuplicateRuleError("<start>".to_string())));
}

#[test]
fn first_repeated_name_is_reported() {
    let r = GrammarRust::new(&Grammar(vec![
        rule("<start>", &[&["a"]]),
        rule("<b>", &[&["b"]]),
        rule("<b>", &[&["b"]]),
        rule("<start>", &[&["c"]]),
    ]));
    assert_eq!(r.err(), Some(CompileError::DuplicateRuleError("<b>".to_string())));
}

#[test]
fn missing_start_is_rejected() {
    let r = GrammarRust::new(&Grammar(vec![rule("<a>", &[&["x"]])]));
    assert_eq!(r.err(), Some(CompileError::MissingStartRuleError));
    let r = GrammarRust::new(&Grammar(vec![]));
    assert_eq!(r.err(), Some(CompileError::MissingStartRuleError));
}

#[test]
fn duplicate_wins_over_missing_start() {
    let r = GrammarRust::new(&Grammar(vec![rule("<a>", &[&["x"]]), rule("<a>", &[&["y"]])]));
    assert_eq!(r.err(), Some(CompileError::DuplicateRuleError("<a>".to_string())));
}

#[test]
fn arena_layout() {
    let g = compile(vec![rule("<start>", &[&["<a>", "b"]]), rule("<a>", &[&["x"], &["y"]])]);
    // Rule choice points first.
    assert_eq!(g.lookup_fragment_nonterm(FragmentId(0)), &[FragmentId(4)]);
    assert_eq!(g.lookup_fragment_nonterm(FragmentId(1)), &[FragmentId(6), FragmentId(8)]);
    // Then the first rule's alternative: a reference, a terminal, the expression.
    assert_eq!(g.lookup_fragment_nonterm(FragmentId(2)), &[FragmentId(1)]);
    assert!(matches!(g.lookup_fragment(FragmentId(3)), Fragment::Terminal(b) if b == b"b"));
    assert!(matches!(g.lookup_fragment(FragmentId(4)),
        Fragment::Expression(c) if c == &vec![FragmentId(2), FragmentId(3)]));
    assert!(matches!(g.lookup_fragment(FragmentId(5)), Fragment::Terminal(b) if b == b"x"));
    assert!(matches!(g.lookup_fragment(FragmentId(6)),
        Fragment::Expression(c) if c == &vec![FragmentId(5)]));
    assert!(matches!(g.lookup_fragment(FragmentId(7)), Fragment::Terminal(b) if b == b"y"));
    assert!(matches!(g.lookup_fragment(FragmentId(8)),
        Fragment::Expression(c) if c == &vec![FragmentId(7)]));
}

#[test]
fn terminal_holds_utf8_bytes() {
    let g = compile(vec![rule("<start>", &[&["é"]])]);
    assert!(matches!(g.lookup_fragment(FragmentId(1)), Fragment::Terminal(b) if b == &vec![0xc3u8, 0xa9]));
    let mut g = g;
    g.seed(7);
    assert_eq!(draw(&mut g), vec![0xc3u8, 0xa9]);
}

#[test]
fn allocate_and_overwrite() {
    let mut g = compile(vec![rule("<start>", &[&["a"]])]);
    let id = g.allocate_fragment(Fragment::Terminal(b"q".to_vec()));
    assert_eq!(id, FragmentId(3));
    *g.lookup_fragment_mut(FragmentId(1)) = Fragment::NonTerminal(vec![id]);
    g.seed(3);
    assert!(g.can_generate());
    assert_eq!(draw(&mut g), b"q".to_vec());
}

#[test]
fn empty_choice_cannot_generate() {
    let g = compile(vec![rule("<start>", &[&["<a>"]]), rule("<a>", &[])]);
    assert!(!g.can_generate());
    let g = compile(vec![rule("<start>", &[&["<a>"]]), rule("<a>", &[&[]])]);
    assert!(g.can_generate());
}

#[test]
fn empty_alternative_gives_empty_output() {
    let mut g = compile(vec![rule("<start>", &[&[]])]);
    g.seed(5);
    assert_eq!(draw(&mut g), Vec::<u8>::new());
}

#[test]
fn two_references_concatenate() {
    let mut g = compile(vec![rule("<start>", &[&["<a>", "<a>"]]), rule("<a>", &[&["z"]])]);
    g.seed(99);
    for _ in 0..200 {
        assert_eq!(draw(&mut g), b"zz".to_vec());
    }
}

#[test]
fn choice_between_two_rules() {
    let mut g = compile(vec![
        rule("<start>", &[&["<a>"], &["<b>"]]),
        rule("<a>", &[&["x"]]),
        rule("<b>", &[&["y"]]),
    ]);
    g.seed(0x1234_5678);
    let (mut xs, mut ys) = (0, 0);
    for _ in 0..1000 {
        let out = draw(&mut g);
        if out == b"x".to_vec() {
            xs += 1;
        } else if out == b"y".to_vec() {
            ys += 1;
        } else {
            panic!("unexpected output {:?}", out);
        }
    }
    assert!(xs > 0 && ys > 0);
}

#[test]
fn single_terminal_rule_is_identity() {
    let mut g = compile(vec![
        rule("<start>", &[&["<w>", "-", "<w>"], &["<w>"]]),
        rule("<w>", &[&["word"]]),
    ]);
    g.seed(42);
    for _ in 0..200 {
        let out = draw(&mut g);
        assert!(out == b"word-word".to_vec() || out == b"word".to_vec());
    }
}

#[test]
fn same_seed_same_outputs() {
    let rules = vec![
        rule("<start>", &[&["<d>", "<start>"], &["<d>"]]),
        rule("<d>", &[&["0"], &["1"], &["2"]]),
    ];
    let mut a = compile(rules.clone());
    let mut b = compile(rules);
    a.seed(2024);
    b.seed(2024);
    for _ in 0..100 {
        assert_eq!(draw(&mut a), draw(&mut b));
    }
}

#[test]
fn output_is_cut_after_ceiling() {
    let mut g = compile(vec![rule("<start>", &[&["abc", "<start>"]])]);
    g.seed(1);
    let out = draw(&mut g);
    assert!(out.len() > OUTPUT_CEILING);
    assert!(out.len() <= OUTPUT_CEILING + 3);
    assert_eq!(out.len(), 1048578);
}

#[test]
fn generate_appends_to_buffer() {
    let mut g = compile(vec![rule("<start>", &[&["ab"]])]);
    g.seed(1);
    let mut stack = vec![FragmentId(0), FragmentId(0)];
    let mut buf = b"pre".to_vec();
    g.generate(&mut stack, &mut buf);
    assert_eq!(buf, b"preab".to_vec());
}

#[test]
fn json_grammar_compiles() {
    let text = br#"{"<start>": [["<a>", "<a>"]], "<a>": [["z"]]}"#;
    let mut g = compile_json(text).expect("valid grammar");
    g.seed(8);
    assert_eq!(draw(&mut g), b"zz".to_vec());
}

#[test]
fn json_errors() {
    assert_eq!(compile_json(b"not json").err(), Some(CompileError::InvalidJsonError));
    assert_eq!(compile_json(br#"{"<start>": "x"}"#).err(), Some(CompileError::InvalidJsonError));
    assert_eq!(
        compile_json(br#"{"<a>": [["x"]]}"#).err(),
        Some(CompileError::MissingStartRuleError)
    );
}

#[test]
fn entropy_seeding_keeps_arena() {
    let mut g = compile(vec![rule("<start>", &[&["a"], &["b"]])]);
    g.seed_from_entropy();
    let out = draw(&mut g);
    assert!(out == b"a".to_vec() || out == b"b".to_vec());
}

#[test]
fn first_draw_picks_the_alternative() {
    let cases: [(usize, &[u8], usize); 4] = [
        (1, b"y", 281474976972835),
        (2, b"x", 562949953945670),
        (3, b"y", 844424930918501),
        (77, b"y", 9227171957649443191),
    ];
    for (seed, expected, fourth_draw) in cases {
        let mut g = compile(vec![
            rule("<start>", &[&["<a>"], &["<b>"]]),
            rule("<a>", &[&["x"]]),
            rule("<b>", &[&["y"]]),
        ]);
        g.seed(seed);
        assert_eq!(draw(&mut g), expected.to_vec());
        // Three draws were made: one per choice point expanded.
        assert_eq!(g.rand(), fourth_draw);
    }
}

#[test]
fn stack_is_empty_after_a_complete_derivation() {
    let mut g = compile(vec![rule("<start>", &[&["<a>", "-", "<a>"]]), rule("<a>", &[&["z"]])]);
    g.seed(11);
    let mut stack = vec![FragmentId(1)];
    let mut buf = Vec::new();
    g.generate(&mut stack, &mut buf);
    assert_eq!(buf, b"z-z".to_vec());
    assert!(stack.is_empty());
}

#[test]
fn stack_keeps_pending_items_past_ceiling() {
    let mut g = compile(vec![rule("<start>", &[&["abc", "<start>"]])]);
    g.seed(1);
    let mut stack = Vec::new();
    let mut buf = Vec::new();
    g.generate(&mut stack, &mut buf);
    assert!(buf.len() > OUTPUT_CEILING);
    // The reference to `<start>` (fragment 2, after the terminal at 1) that
    // follows the last terminal is still pending.
    assert_eq!(stack, vec![FragmentId(2)]);
}
