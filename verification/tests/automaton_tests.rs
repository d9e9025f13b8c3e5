use grammar::automaton::dfa::DFA;
use grammar::automaton::nfa::NFA;
use grammar::grammar::letter::Letter;

fn t(s: &str) -> Letter {
    Letter::Terminal(String::from(s))
}

fn sample_nfa() -> NFA {
    // 0 -.-> 1, 0 -a-> 0, 1 -a-> 2, 2 -b-> 3; final: 3
    NFA {
        start: 0,
        end: vec![3],
        letters: vec![t("a"), t("b")],
        edges: vec![
            vec![(Letter::Empty, 1), (t("a"), 0)],
            vec![(t("a"), 2)],
            vec![(t("b"), 3)],
            vec![],
        ],
    }
}

#[test]
fn nfa_epsilon_closure_lists_reachable_states_in_order() {
    let nfa = sample_nfa();
    assert_eq!(nfa.epsilon_closure(&vec![0]), vec![0, 1]);
    assert_eq!(nfa.epsilon_closure(&vec![2]), vec![2]);
    assert_eq!(nfa.epsilon_closure(&vec![]), Vec::<usize>::new());
}

#[test]
fn nfa_step_follows_letter_then_closure() {
    let nfa = sample_nfa();
    assert_eq!(nfa.step(&vec![0, 1], t("a")), vec![0, 1, 2]);
    assert_eq!(nfa.step(&vec![0, 1, 2], t("b")), vec![3]);
    assert_eq!(nfa.step(&vec![0, 1], t("b")), Vec::<usize>::new());
}

#[test]
fn nfa_to_dfa_subset_construction() {
    let nfa = sample_nfa();
    let (dfa, rows) = nfa.to_dfa_with_process();
    let sets: Vec<Vec<usize>> = rows.iter().map(|r| r.set.clone()).collect();
    assert_eq!(sets, vec![vec![0, 1], vec![0, 1, 2], vec![3]]);
    assert_eq!(dfa.start, 0);
    assert_eq!(dfa.end, vec![2]);
    assert_eq!(dfa.letters, vec![t("a"), t("b")]);
    assert_eq!(dfa.edges, vec![
        vec![(t("a"), 1)],
        vec![(t("a"), 1), (t("b"), 2)],
        vec![],
    ]);
    assert_eq!(rows.iter().map(|r| r.is_end).collect::<Vec<bool>>(), vec![false, false, true]);
    assert_eq!(rows[0].targets, vec![vec![0, 1, 2], vec![]]);
    assert_eq!(rows[1].targets, vec![vec![0, 1, 2], vec![3]]);
}

#[test]
fn nfa_to_dfa_repeats_end_state_per_transition() {
    // every transition into a state with a final state records it again
    let nfa = NFA {
        start: 0,
        end: vec![0],
        letters: vec![t("a")],
        edges: vec![vec![(t("a"), 0)]],
    };
    let (dfa, _) = nfa.to_dfa_with_process();
    assert_eq!(dfa.end, vec![0, 0]);
    assert_eq!(dfa.edges, vec![vec![(t("a"), 0)]]);
}

fn sample_dfa() -> DFA {
    // 1 and 2 cannot be told apart
    DFA {
        start: 0,
        end: vec![3],
        letters: vec![t("a"), t("b")],
        edges: vec![
            vec![(t("a"), 1), (t("b"), 2)],
            vec![(t("a"), 3)],
            vec![(t("a"), 3)],
            vec![(t("a"), 3)],
        ],
    }
}

#[test]
fn dfa_step_single_takes_first_transition() {
    let dfa = sample_dfa();
    assert_eq!(dfa.step_single(0, t("b")), Some(2));
    assert_eq!(dfa.step_single(1, t("b")), None);
}

#[test]
fn dfa_minimize_merges_equivalent_states() {
    let dfa = sample_dfa();
    let (m, blocks) = dfa.minimize_with_process();
    assert_eq!(blocks, vec![vec![0], vec![1, 2], vec![3]]);
    assert_eq!(m.start, 0);
    assert_eq!(m.end, vec![2]);
    assert_eq!(m.edges, vec![
        vec![(t("a"), 1), (t("b"), 1)],
        vec![(t("a"), 2)],
        vec![(t("a"), 2)],
    ]);
}

#[test]
fn dfa_minimize_keeps_missing_transitions_apart() {
    // 1 has a transition on b and 2 has not: they stay apart
    let dfa = DFA {
        start: 0,
        end: vec![],
        letters: vec![t("a"), t("b")],
        edges: vec![
            vec![(t("a"), 1)],
            vec![(t("b"), 2)],
            vec![],
        ],
    };
    let (m, blocks) = dfa.minimize_with_process();
    assert_eq!(blocks, vec![vec![0], vec![1], vec![2]]);
    assert_eq!(m.end, Vec::<usize>::new());
}

#[test]
fn dfa_minimize_twice_changes_nothing() {
    let (m1, _) = sample_dfa().minimize_with_process();
    let (m2, blocks) = m1.minimize_with_process();
    assert_eq!(blocks.len(), m1.edges.len());
    assert_eq!(m2.edges, m1.edges);
    assert_eq!(m2.end, m1.end);
}

const BOOK_DFA: &str = "0\n4 5 6\na b\n2 a 5 b 2\n2 a 6 b 2\n2 a 0 b 4\n2 a 3 b 5\n2 a 6 b 2\n2 a 3 b 0\n2 a 3 b 1\n";

#[test]
fn dfa_from_text_reads_the_file() {
    let d = DFA::from_text(BOOK_DFA).unwrap();
    assert_eq!(d.start, 0);
    assert_eq!(d.end, vec![4, 5, 6]);
    assert_eq!(d.letters, vec![t("a"), t("b")]);
    assert_eq!(d.edges.len(), 7);
    assert_eq!(d.edges[3], vec![(t("a"), 3), (t("b"), 5)]);
}

#[test]
fn fa_from_text_rejects_bad_lines() {
    assert!(DFA::from_text("0\n1\na\n2 a 1\n").is_none());
    assert!(DFA::from_text("x\n1\na\n0\n").is_none());
    assert!(NFA::from_text("").is_none());
}

#[test]
fn nfa_from_text_reads_empty_word() {
    let n = NFA::from_text("0\n1\na\n2 . 1 a 0\n0\n").unwrap();
    assert_eq!(n.edges[0], vec![(Letter::Empty, 1), (t("a"), 0)]);
    assert_eq!(n.epsilon_closure(&vec![0]), vec![0, 1]);
    let d = DFA::from_text("0\n1\na\n2 . 1 a 0\n0\n").unwrap();
    assert_eq!(d.edges[0], vec![(t("."), 1), (t("a"), 0)]);
}

#[test]
fn dfa_minimize_book_example() {
    let d = DFA::from_text(BOOK_DFA).unwrap();
    let (m, blocks) = d.minimize_with_process();
    let mut sorted: Vec<Vec<usize>> = blocks
        .iter()
        .map(|b| {
            let mut c = b.clone();
            c.sort();
            c
        })
        .collect();
    assert_eq!(sorted, vec![vec![0, 1], vec![2], vec![3], vec![4], vec![5, 6]]);
    sorted.sort();
    assert_eq!(m.start, 0);
    assert_eq!(m.end, vec![3, 4]);
    assert_eq!(m.edges.len(), 5);
    let expect = [(0, 4, 1), (1, 0, 3), (2, 2, 4), (3, 4, 1), (4, 2, 0)];
    for (s, on_a, on_b) in expect.iter() {
        assert_eq!(m.step_single(*s, t("a")), Some(*on_a));
        assert_eq!(m.step_single(*s, t("b")), Some(*on_b));
    }
}

#[test]
fn dfa_minimize_without_final_states() {
    let d = DFA::from_text("0\n\na\n1 a 1\n1 a 0\n").unwrap();
    let (m, blocks) = d.minimize_with_process();
    assert_eq!(blocks.len(), 1);
    assert_eq!(m.end, Vec::<usize>::new());
    assert_eq!(m.step_single(0, t("a")), Some(0));
}

fn history_view(d: &DFA) -> Vec<(Vec<Vec<usize>>, Vec<(Vec<usize>, Vec<Vec<usize>>)>)> {
    d.split_history()
        .into_iter()
        .map(|r| (r.blocks, r.rows.into_iter().map(|x| (x.block, x.pieces)).collect()))
        .collect()
}

#[test]
fn dfa_split_history_rounds() {
    let h = history_view(&sample_dfa());
    assert_eq!(
        h,
        vec![
            (vec![vec![3], vec![0, 1, 2]], vec![(vec![0, 1, 2], vec![vec![1, 2], vec![0]])]),
            (vec![vec![3], vec![1, 2], vec![0]], vec![]),
        ]
    );
}

#[test]
fn dfa_split_history_drops_empty_block() {
    let d = DFA {
        start: 0,
        end: vec![],
        letters: vec![t("a")],
        edges: vec![vec![(t("a"), 1)], vec![(t("a"), 0)]],
    };
    let h = history_view(&d);
    assert_eq!(
        h,
        vec![
            (vec![vec![], vec![0, 1]], vec![(vec![], vec![])]),
            (vec![vec![0, 1]], vec![]),
        ]
    );
}
