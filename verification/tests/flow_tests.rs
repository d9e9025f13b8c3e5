use grammar::optimization::dominant::{calc_loop, dominant};
use grammar::optimization::input::{graph_from_text, load_gen_kill_from_text, load_use_def_from_text};
use grammar::optimization::program::{calc_gen_kill, calc_use_def, parse_program};
use grammar::optimization::{du, ud};
use grammar::utils::graph::Graph;

const BOOK_GRAPH: &str = "1 1\n2 2 3\n2 3 4\n2 5 1\n1 2\n0\n";
const LOOP_GRAPH: &str = "1 1\n1 2\n1 1\n";

fn sorted(v: &[usize]) -> Vec<usize> {
    let mut c = v.to_vec();
    c.sort();
    c
}

fn points(v: &[(String, usize)]) -> Vec<String> {
    let mut c: Vec<String> = v.iter().map(|(n, p)| format!("{}{}", n, p)).collect();
    c.sort();
    c
}

#[test]
fn test_graph_from_text() {
    let g = graph_from_text(BOOK_GRAPH).unwrap();
    assert_eq!(g.value.len(), 6);
    assert_eq!(sorted(&g.successors(1)), vec![2, 3]);
    assert_eq!(sorted(&g.predecessors(1)), vec![0, 3]);
    assert_eq!(sorted(&g.predecessors(2)), vec![1, 4]);
    assert!(g.successors(5).is_empty());
    assert!(graph_from_text("1 7\n").is_none());
    assert!(graph_from_text("2 1\n0\n").is_none());
}

#[test]
fn test_graph_building() {
    let mut g: Graph<(), ()> = Graph::new();
    g.add_node(());
    g.add_node(());
    g.add_node(());
    g.add_edge(0, 1, ());
    g.add_edge(0, 2, ());
    g.add_edge(2, 1, ());
    assert_eq!(g.successors(0), vec![2, 1]);
    assert_eq!(sorted(&g.predecessors(1)), vec![0, 2]);
    assert!(g.predecessors(0).is_empty());
}

#[test]
fn test_dominators_and_back_edges() {
    let g = graph_from_text(BOOK_GRAPH).unwrap();
    let dom = dominant(&g);
    let as_vecs: Vec<Vec<usize>> = dom.iter().map(|s| {
        let v: Vec<usize> = s.iter().cloned().collect();
        sorted(&v)
    }).collect();
    assert_eq!(
        as_vecs,
        vec![vec![0], vec![0, 1], vec![0, 1, 2], vec![0, 1, 3], vec![0, 1, 2, 4], vec![0, 1, 3, 5]]
    );
    assert_eq!(calc_loop(&g, &dom), vec![(3, 1), (4, 2)]);
}

#[test]
fn test_reaching_definitions() {
    let g = graph_from_text(LOOP_GRAPH).unwrap();
    let gk = load_gen_kill_from_text("1, 3\n2,\n3, 1\n").unwrap();
    assert_eq!(gk, vec![(vec![1], vec![3]), (vec![2], vec![]), (vec![3], vec![1])]);
    let (ans, rounds) = ud::calc_with_process(&g, &gk);
    let ins: Vec<Vec<usize>> = ans.iter().map(|(i, _)| sorted(i)).collect();
    let outs: Vec<Vec<usize>> = ans.iter().map(|(_, o)| sorted(o)).collect();
    assert_eq!(ins, vec![vec![], vec![1, 2, 3], vec![1, 2, 3]]);
    assert_eq!(outs, vec![vec![1], vec![1, 2, 3], vec![2, 3]]);
    assert!(!rounds.is_empty());
    assert!(rounds.last().unwrap().iter().all(|c| c.is_none()));
}

#[test]
fn test_gen_kill_file_errors() {
    assert!(load_gen_kill_from_text("1 2\n").is_none());
    assert!(load_gen_kill_from_text("1 x, 2\n").is_none());
}

#[test]
fn test_live_variables() {
    let g = graph_from_text(LOOP_GRAPH).unwrap();
    let ud = load_use_def_from_text(", x: 1\nx: 2, y: 2\ny: 3, x: 2\n").unwrap();
    assert_eq!(points(&ud[0].0), Vec::<String>::new());
    assert_eq!(points(&ud[0].1), vec!["x1"]);
    assert_eq!(points(&ud[2].0), vec!["y3"]);
    let (ans, _) = du::calc_with_process(&g, &ud);
    let ins: Vec<Vec<String>> = ans.iter().map(|(i, _)| points(i)).collect();
    let outs: Vec<Vec<String>> = ans.iter().map(|(_, o)| points(o)).collect();
    assert_eq!(ins, vec![vec!["x2", "y3"], vec!["x2", "y3"], vec!["y3"]]);
    assert_eq!(outs, vec![vec!["x2", "y3"], vec!["y3"], vec!["x2", "y3"]]);
}

#[test]
fn test_use_def_file_errors() {
    assert!(load_use_def_from_text("x 1\n").is_none());
    assert!(load_use_def_from_text("x: 1; y, \n").is_none());
}

const PROGRAM: &str = "d1: x = a\nd2: y = x\n\nd3: x = y\n";

#[test]
fn test_parse_program() {
    let blocks = parse_program(PROGRAM).unwrap();
    assert_eq!(blocks.len(), 2);
    assert_eq!(blocks[0].len(), 2);
    assert_eq!(blocks[0][1], (2, String::from("y"), vec![String::from("x")]));
    assert_eq!(blocks[1][0], (3, String::from("x"), vec![String::from("y")]));
    assert!(parse_program("d1 x = a\n").is_none());
    assert!(parse_program("dz: x = a\n").is_none());
}

#[test]
fn test_calc_gen_kill() {
    let blocks = parse_program(PROGRAM).unwrap();
    let gk = calc_gen_kill(&blocks);
    let gens: Vec<Vec<usize>> = gk.iter().map(|(g, _)| sorted(g)).collect();
    let kills: Vec<Vec<usize>> = gk.iter().map(|(_, k)| sorted(k)).collect();
    assert_eq!(gens, vec![vec![1, 2], vec![3]]);
    assert_eq!(kills, vec![vec![3], vec![1]]);
}

#[test]
fn test_calc_use_def() {
    let blocks = parse_program(PROGRAM).unwrap();
    let ud = calc_use_def(&blocks);
    assert_eq!(points(&ud[0].0), vec!["a1"]);
    assert_eq!(points(&ud[0].1), vec!["x2", "y3"]);
    assert_eq!(points(&ud[1].0), vec!["y3"]);
    assert_eq!(points(&ud[1].1), vec!["x2"]);
}

fn usize_round(r: &[Option<(Vec<usize>, Vec<usize>)>]) -> Vec<Option<(Vec<usize>, Vec<usize>)>> {
    r.iter().map(|c| c.as_ref().map(|(a, b)| (sorted(a), sorted(b)))).collect()
}

fn point_round(r: &[Option<(Vec<(String, usize)>, Vec<(String, usize)>)>]) -> Vec<Option<(Vec<String>, Vec<String>)>> {
    r.iter().map(|c| c.as_ref().map(|(a, b)| (points(a), points(b)))).collect()
}

#[test]
fn test_reaching_definition_rounds() {
    let g = graph_from_text(LOOP_GRAPH).unwrap();
    let gk = load_gen_kill_from_text("1, 3\n2,\n3, 1\n").unwrap();
    let (_, rounds) = ud::calc_with_process(&g, &gk);
    let got: Vec<_> = rounds.iter().map(|r| usize_round(r)).collect();
    assert_eq!(
        got,
        vec![
            vec![None, Some((vec![1, 3], vec![1, 2, 3])), Some((vec![1, 2, 3], vec![2, 3]))],
            vec![None, Some((vec![1, 2, 3], vec![1, 2, 3])), None],
            vec![None, None, None],
        ]
    );
}

#[test]
fn test_live_variable_rounds() {
    let g = graph_from_text(LOOP_GRAPH).unwrap();
    let ud = load_use_def_from_text(", x: 1\nx: 2, y: 2\ny: 3, x: 2\n").unwrap();
    let (_, rounds) = du::calc_with_process(&g, &ud);
    let got: Vec<_> = rounds.iter().map(|r| point_round(r)).collect();
    let s = |v: &[&str]| v.iter().map(|x| String::from(*x)).collect::<Vec<String>>();
    assert_eq!(
        got,
        vec![
            vec![
                Some((s(&["x2", "y3"]), s(&["x2", "y3"]))),
                Some((s(&["x2", "y3"]), s(&["y3"]))),
                Some((s(&["y3"]), s(&["x2"]))),
            ],
            vec![None, None, Some((s(&["y3"]), s(&["x2", "y3"])))],
            vec![None, None, None],
        ]
    );
}

#[test]
fn test_points_printed_in_order() {
    let v = vec![(String::from("y"), 3), (String::from("x"), 12), (String::from("x"), 2)];
    assert_eq!(du::format_helper(&v), "{x2,x12,y3}");
    assert_eq!(du::format_helper(&Vec::new()), "{}");
}
