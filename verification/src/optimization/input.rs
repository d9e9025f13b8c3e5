use vstd::prelude::*;
use crate::grammar::rule::{str_chars, split_on, split_chars};
use crate::utils::text::{trim, trim_chars};
use super::du::{VarPoint, point_view};
use super::program::chars_string;
use crate::utils::graph::Graph;
use crate::utils::text::{words, lines, parse_number, char_seqs, split_words, split_lines, parse_usize};

verus! {

/// The targets listed on a line of a graph file: a count, then that many node numbers;
/// `None` where a number is missing or does not read.
pub open spec fn line_targets(line: Seq<char>) -> Option<Seq<usize>> {
    let ws = words(line);
    if ws.len() == 0 {
        None
    } else {
        match parse_number(ws[0]) {
            None => None,
            Some(c) => if c >= ws.len() {
                None
            } else if forall|i: int| 1 <= i <= c ==> #[trigger] parse_number(ws[i]) is Some {
                Some(Seq::new(c as nat, |i: int| parse_number(ws[i + 1])->0))
            } else {
                None
            },
        }
    }
}

/// The target lists of the lines of a graph file, one line per node; `None` where a line
/// does not read or names a node that does not exist.
pub open spec fn graph_targets(ls: Seq<Seq<char>>) -> Option<Seq<Seq<usize>>> {
    if forall|u: int| 0 <= u < ls.len() ==> (#[trigger] line_targets(ls[u])) is Some
        && forall|k: int| 0 <= k < line_targets(ls[u])->0.len() ==> line_targets(ls[u])->0[k] < ls.len() {
        Some(Seq::new(ls.len(), |u: int| line_targets(ls[u])->0))
    } else {
        None
    }
}

/// The edges of the target lists, node by node and in the order listed.
pub open spec fn listed_edges(ts: Seq<Seq<usize>>) -> Seq<(usize, usize)>
    decreases ts.len(),
{
    if ts.len() == 0 {
        seq![]
    } else {
        listed_edges(ts.drop_last()) + ts.last().map_values(|t: usize| ((ts.len() - 1) as usize, t))
    }
}

/// The targets of the edges out of `u`, the last added first.
pub open spec fn targets_from(es: Seq<(usize, usize)>, u: int) -> Seq<int>
    decreases es.len(),
{
    if es.len() == 0 {
        seq![]
    } else if es.last().0 == u {
        seq![es.last().1 as int] + targets_from(es.drop_last(), u)
    } else {
        targets_from(es.drop_last(), u)
    }
}

/// The sources of the edges into `v`, the last added first.
pub open spec fn sources_into(es: Seq<(usize, usize)>, v: int) -> Seq<int>
    decreases es.len(),
{
    if es.len() == 0 {
        seq![]
    } else if es.last().1 == v {
        seq![es.last().0 as int] + sources_into(es.drop_last(), v)
    } else {
        sources_into(es.drop_last(), v)
    }
}

/// Reads the target list of a line of a graph file.
fn read_targets(line: &Vec<char>) -> (res: Option<Vec<usize>>)
    ensures
        match res {
            Some(v) => line_targets(line@) == Some(v@),
            None => line_targets(line@) is None,
        },
{
    let ws = split_words(line);
    let ghost wv = char_seqs(ws@);
    if ws.len() == 0 {
        return None;
    }
    assert(wv[0] == ws@[0]@);
    let c = match parse_usize(&ws[0]) {
        None => {
            return None;
        },
        Some(c) => c,
    };
    if c >= ws.len() {
        return None;
    }
    let mut v: Vec<usize> = Vec::new();
    for i in 0..c
        invariant
            wv == char_seqs(ws@),
            wv == words(line@),
            parse_number(wv[0]) == Some(c),
            c < ws@.len(),
            v@.len() == i,
            forall|k: int| 1 <= k <= i ==> #[trigger] parse_number(wv[k]) is Some,
            forall|k: int| 0 <= k < i ==> v@[k] == parse_number(wv[k + 1])->0,
    {
        assert(wv[i + 1] == ws@[i + 1]@);
        match parse_usize(&ws[i + 1]) {
            None => {
                assert(!(parse_number(wv[i + 1]) is Some));
                return None;
            },
            Some(t) => {
                v.push(t);
            },
        }
    }
    assert(v@ =~= Seq::new(c as nat, |i: int| parse_number(wv[i + 1])->0));
    Some(v)
}

proof fn lemma_listed_edges_push(ts: Seq<Seq<usize>>, t: Seq<usize>)
    ensures
        listed_edges(ts.push(t)) == listed_edges(ts) + t.map_values(|x: usize| (ts.len() as usize, x)),
{
    assert(ts.push(t).drop_last() =~= ts);
}

/// A prefix of the target lists lists no more edges than the whole.
proof fn lemma_listed_edges_len(ts: Seq<Seq<usize>>, j: int)
    requires
        0 <= j <= ts.len(),
    ensures
        listed_edges(ts.take(j)).len() <= listed_edges(ts).len(),
    decreases ts.len() - j,
{
    if j < ts.len() {
        lemma_listed_edges_len(ts, j + 1);
        assert(ts.take(j + 1) =~= ts.take(j).push(ts[j]));
        lemma_listed_edges_push(ts.take(j), ts[j]);
    } else {
        assert(ts.take(j) =~= ts);
    }
}

/// Reads a flow graph: line `u` lists the edges out of node `u` as a count followed by
/// that many node numbers. The graph has a node per line and the edges are added node by
/// node in the order listed; `None` where the text does not read so (or the graph would
/// not fit the edge numbering).
pub fn graph_from_text(text: &str) -> (res: Option<Graph<(), ()>>)
    ensures
        match res {
            Some(g) => {
                &&& graph_targets(lines(text@)) is Some
                &&& g.wf()
                &&& g.value@.len() == lines(text@).len()
                &&& forall|u: int| 0 <= u < g.value@.len() ==>
                    #[trigger] g.succs()[u] == targets_from(listed_edges(graph_targets(lines(text@))->0), u)
                &&& forall|v: int| 0 <= v < g.value@.len() ==>
                    #[trigger] g.preds()[v] == sources_into(listed_edges(graph_targets(lines(text@))->0), v)
            },
            None => graph_targets(lines(text@)) is None || lines(text@).len() >= 0x7fff_ffff
                || listed_edges(graph_targets(lines(text@))->0).len() + 1 >= 0x7fff_ffff,
        },
{
    let cs = str_chars(text);
    let ls = split_lines(&cs);
    let ghost lv = char_seqs(ls@);
    assert(lines(text@) == lv);
    let n = ls.len();
    if n >= 0x7fff_ffff {
        return None;
    }
    let mut targets: Vec<Vec<usize>> = Vec::new();
    for u in 0..n
        invariant
            lv == char_seqs(ls@),
            lv == lines(text@),
            n == ls@.len(),
            targets@.len() == u,
            forall|w: int| 0 <= w < u ==> line_targets(lv[w]) == Some((#[trigger] targets@[w])@),
            forall|w: int, k: int| 0 <= w < u && 0 <= k < targets@[w]@.len() ==> (#[trigger] targets@[w]@[k]) < n,
    {
        assert(lv[u as int] == ls@[u as int]@);
        let t = match read_targets(&ls[u]) {
            None => {
                assert(!(line_targets(lv[u as int]) is Some));
                return None;
            },
            Some(t) => t,
        };
        for k in 0..t.len()
            invariant
                lv == lines(text@),
                n == lv.len(),
                u < n,
                line_targets(lv[u as int]) == Some(t@),
                forall|k2: int| 0 <= k2 < k ==> t@[k2] < n,
        {
            if t[k] >= n {
                proof {
                    assert(line_targets(lv[u as int])->0[k as int] >= lv.len());
                }
                return None;
            }
        }
        let ghost t0 = targets@;
        targets.push(t);
        proof {
            assert forall|w: int| 0 <= w < u + 1 implies line_targets(lv[w]) == Some((#[trigger] targets@[w])@) by {
                if w < u { assert(targets@[w] == t0[w]); }
            }
            assert forall|w: int, k: int| 0 <= w < u + 1 && 0 <= k < targets@[w]@.len() implies (#[trigger] targets@[w]@[k]) < n by {
                if w < u { assert(targets@[w] == t0[w]); }
            }
        }
    }
    let ghost ts = Seq::new(n as nat, |u: int| targets@[u]@);
    proof {
        assert(lines(text@) == lv);
        assert forall|u: int| 0 <= u < lv.len() implies (#[trigger] line_targets(lv[u])) is Some
            && forall|k: int| 0 <= k < line_targets(lv[u])->0.len() ==> line_targets(lv[u])->0[k] < lv.len() by {
            assert(line_targets(lv[u]) == Some(targets@[u]@));
        }
        assert(graph_targets(lv) == Some(ts)) by {
            assert(Seq::new(lv.len(), |u: int| line_targets(lv[u])->0) =~= ts);
        }
    }
    let mut g: Graph<(), ()> = Graph::new();
    for u in 0..n
        invariant
            g.wf(),
            g.value@.len() == u,
            g.edges@.len() == 0,
            forall|w: int| 0 <= w < u ==> #[trigger] g.succs()[w] == Seq::<int>::empty(),
            forall|w: int| 0 <= w < u ==> #[trigger] g.preds()[w] == Seq::<int>::empty(),
    {
        g.add_node(());
    }
    let ghost mut es: Seq<(usize, usize)> = seq![];
    assert(ts.take(0) =~= Seq::<Seq<usize>>::empty());
    for u in 0..n
        invariant
            n == g.value@.len(),
            n < 0x7fff_ffff,
            targets@.len() == n,
            ts == Seq::new(n as nat, |w: int| targets@[w]@),
            graph_targets(lines(text@)) == Some(ts),
            forall|w: int, k: int| 0 <= w < n && 0 <= k < targets@[w]@.len() ==> (#[trigger] targets@[w]@[k]) < n,
            g.wf(),
            es == listed_edges(ts.take(u as int)),
            g.edges@.len() == es.len(),
            forall|w: int| 0 <= w < n ==> #[trigger] g.succs()[w] == targets_from(es, w),
            forall|w: int| 0 <= w < n ==> #[trigger] g.preds()[w] == sources_into(es, w),
    {
        let t = &targets[u];
        let ghost es_u = es;
        for k in 0..t.len()
            invariant
                n == g.value@.len(),
                n < 0x7fff_ffff,
                u < n,
                targets@.len() == n,
                ts == Seq::new(n as nat, |w: int| targets@[w]@),
                es_u == listed_edges(ts.take(u as int)),
                graph_targets(lines(text@)) == Some(ts),
                *t == targets@[u as int],
                forall|k2: int| 0 <= k2 < t@.len() ==> (#[trigger] t@[k2]) < n,
                g.wf(),
                es == es_u + t@.take(k as int).map_values(|x: usize| (u, x)),
                g.edges@.len() == es.len(),
                forall|w: int| 0 <= w < n ==> #[trigger] g.succs()[w] == targets_from(es, w),
                forall|w: int| 0 <= w < n ==> #[trigger] g.preds()[w] == sources_into(es, w),
        {
            if g.edges.len() + 2 >= 0x7fff_ffff {
                proof {
                    assert(ts.take(u + 1) =~= ts.take(u as int).push(t@));
                    lemma_listed_edges_push(ts.take(u as int), t@);
                    lemma_listed_edges_len(ts, u + 1);
                }
                return None;
            }
            let to = t[k];
            let ghost s0 = g.succs();
            let ghost p0 = g.preds();
            g.add_edge(u, to, ());
            proof {
                let es2 = es.push((u, to));
                assert(es2.drop_last() =~= es);
                assert(es_u + t@.take(k + 1).map_values(|x: usize| (u, x)) =~= es2);
                assert forall|w: int| 0 <= w < n implies #[trigger] g.succs()[w] == targets_from(es2, w) by {}
                assert forall|w: int| 0 <= w < n implies #[trigger] g.preds()[w] == sources_into(es2, w) by {}
                es = es2;
            }
        }
        proof {
            assert(t@.take(t@.len() as int) =~= t@);
            assert(ts.take(u + 1) =~= ts.take(u as int).push(t@));
            lemma_listed_edges_push(ts.take(u as int), t@);
            assert(t@.map_values(|x: usize| (u, x)) =~= t@.map_values(|x: usize| (ts.take(u as int).len() as usize, x)));
        }
    }
    proof {
        assert(ts.take(n as int) =~= ts);
    }
    Some(g)
}


/// The numbers that the words of `s` write; `None` where a word does not read as one.
pub open spec fn number_list(s: Seq<char>) -> Option<Seq<usize>> {
    let ws = words(s);
    if forall|i: int| 0 <= i < ws.len() ==> #[trigger] parse_number(ws[i]) is Some {
        Some(Seq::new(ws.len(), |i: int| parse_number(ws[i])->0))
    } else {
        None
    }
}

/// Reads the numbers of the words of `s`.
fn read_numbers(s: &Vec<char>) -> (res: Option<Vec<usize>>)
    ensures
        match res {
            Some(v) => number_list(s@) == Some(v@),
            None => number_list(s@) is None,
        },
{
    let ws = split_words(s);
    let ghost wv = char_seqs(ws@);
    let mut v: Vec<usize> = Vec::new();
    for i in 0..ws.len()
        invariant
            wv == char_seqs(ws@),
            wv == words(s@),
            v@.len() == i,
            forall|k: int| 0 <= k < i ==> #[trigger] parse_number(wv[k]) is Some,
            forall|k: int| 0 <= k < i ==> v@[k] == parse_number(wv[k])->0,
    {
        assert(wv[i as int] == ws@[i as int]@);
        match parse_usize(&ws[i]) {
            None => {
                assert(!(parse_number(wv[i as int]) is Some));
                return None;
            },
            Some(t) => {
                v.push(t);
            },
        }
    }
    assert(v@ =~= Seq::new(wv.len(), |i: int| parse_number(wv[i])->0));
    Some(v)
}

/// A line of a GEN/KILL file: the numbers before the first `,` and those between it and
/// the next one.
pub open spec fn gen_kill_line(line: Seq<char>) -> Option<(Seq<usize>, Seq<usize>)> {
    let parts = split_on(line, ',');
    if parts.len() < 2 {
        None
    } else {
        match (number_list(parts[0]), number_list(parts[1])) {
            (Some(g), Some(k)) => Some((g, k)),
            _ => None,
        }
    }
}

/// Reads a GEN/KILL file: a line per block, the GEN numbers, a `,`, the KILL numbers;
/// `None` where a line does not read so.
pub fn load_gen_kill_from_text(text: &str) -> (res: Option<Vec<(Vec<usize>, Vec<usize>)>>)
    ensures
        match res {
            Some(l) => {
                &&& l@.len() == lines(text@).len()
                &&& forall|i: int| 0 <= i < l@.len() ==> gen_kill_line(lines(text@)[i]) == Some(((#[trigger] l@[i]).0@, l@[i].1@))
            },
            None => exists|i: int| 0 <= i < lines(text@).len() && #[trigger] gen_kill_line(lines(text@)[i]) is None,
        },
{
    let cs = str_chars(text);
    let ls = split_lines(&cs);
    let ghost lv = char_seqs(ls@);
    let mut ans: Vec<(Vec<usize>, Vec<usize>)> = Vec::new();
    for i in 0..ls.len()
        invariant
            lv == char_seqs(ls@),
            lv == lines(text@),
            ans@.len() == i,
            forall|j: int| 0 <= j < i ==> gen_kill_line(lv[j]) == Some(((#[trigger] ans@[j]).0@, ans@[j].1@)),
    {
        assert(lv[i as int] == ls@[i as int]@);
        let parts = split_chars(&ls[i], ',');
        if parts.len() < 2 {
            assert(gen_kill_line(lines(text@)[i as int]) is None);
                return None;
        }
        assert(parts@.map_values(|p: Vec<char>| p@)[0] == parts@[0]@);
        assert(parts@.map_values(|p: Vec<char>| p@)[1] == parts@[1]@);
        let g = match read_numbers(&parts[0]) {
            None => {
                assert(gen_kill_line(lines(text@)[i as int]) is None);
                return None;
            },
            Some(g) => g,
        };
        let k = match read_numbers(&parts[1]) {
            None => {
                assert(gen_kill_line(lines(text@)[i as int]) is None);
                return None;
            },
            Some(k) => k,
        };
        let ghost a0 = ans@;
        ans.push((g, k));
        proof {
            assert forall|j: int| 0 <= j < i + 1 implies gen_kill_line(lv[j]) == Some(((#[trigger] ans@[j]).0@, ans@[j].1@)) by {
                if j < i { assert(ans@[j] == a0[j]); }
            }
        }
    }
    Some(ans)
}

/// The variable points of a `x: 1 2; y: 3` list: for each part between `;`, the trimmed
/// text before its first `:` with each number after it up to the next `:`.
pub open spec fn point_groups(parts: Seq<Seq<char>>) -> Option<Seq<(Seq<char>, usize)>>
    decreases parts.len(),
{
    if parts.len() == 0 {
        Some(seq![])
    } else {
        match point_groups(parts.drop_last()) {
            None => None,
            Some(prev) => {
                let q = split_on(parts.last(), ':');
                if q.len() < 2 {
                    None
                } else {
                    match number_list(q[1]) {
                        None => None,
                        Some(ns) => Some(prev + ns.map_values(|x: usize| (trim(q[0]), x))),
                    }
                }
            },
        }
    }
}

/// A line of a USE/DEF file: the USE points before the first `,` (none where that text
/// is blank) and the DEF points between it and the next `,` (none where that text is
/// empty).
pub open spec fn use_def_line(line: Seq<char>) -> Option<(Seq<(Seq<char>, usize)>, Seq<(Seq<char>, usize)>)> {
    let parts = split_on(line, ',');
    if parts.len() < 2 {
        None
    } else {
        let u = if trim(parts[0]).len() == 0 { Some(seq![]) } else { point_groups(split_on(parts[0], ';')) };
        let d = if parts[1].len() == 0 { Some(seq![]) } else { point_groups(split_on(parts[1], ';')) };
        match (u, d) {
            (Some(u), Some(d)) => Some((u, d)),
            _ => None,
        }
    }
}

/// The abstract values of variable points.
pub open spec fn points_view(v: Seq<VarPoint>) -> Seq<(Seq<char>, usize)> {
    v.map_values(|f: VarPoint| point_view(f))
}

/// Reads the variable points of a `;`-separated list.
fn read_point_groups(s: &Vec<char>) -> (res: Option<Vec<VarPoint>>)
    ensures
        match res {
            Some(v) => point_groups(split_on(s@, ';')) == Some(points_view(v@)),
            None => point_groups(split_on(s@, ';')) is None,
        },
{
    let parts = split_chars(s, ';');
    let ghost pv = parts@.map_values(|p: Vec<char>| p@);
    let mut res: Vec<VarPoint> = Vec::new();
    assert(pv.take(0) =~= Seq::<Seq<char>>::empty());
    for i in 0..parts.len()
        invariant
            pv == parts@.map_values(|p: Vec<char>| p@),
            pv == split_on(s@, ';'),
            point_groups(pv.take(i as int)) == Some(points_view(res@)),
    {
        assert(pv.take(i + 1).drop_last() =~= pv.take(i as int));
        assert(pv.take(i + 1).last() == parts@[i as int]@);
        let q = split_chars(&parts[i], ':');
        if q.len() < 2 {
            proof {
                lemma_point_groups_none(pv, i + 1);
            }
            return None;
        }
        assert(q@.map_values(|p: Vec<char>| p@)[0] == q@[0]@);
        assert(q@.map_values(|p: Vec<char>| p@)[1] == q@[1]@);
        let name_chars = trim_chars(&q[0]);
        let ns = match read_numbers(&q[1]) {
            None => {
                proof {
                    lemma_point_groups_none(pv, i + 1);
                }
                return None;
            },
            Some(ns) => ns,
        };
        let ghost r0 = points_view(res@);
        for k in 0..ns.len()
            invariant
                points_view(res@) == r0 + ns@.take(k as int).map_values(|x: usize| (name_chars@, x)),
        {
            let name = chars_string(&name_chars);
            let ghost rr = res@;
            res.push((name, ns[k]));
            proof {
                assert(points_view(res@) =~= points_view(rr).push((name_chars@, ns@[k as int])));
                assert(ns@.take(k + 1).map_values(|x: usize| (name_chars@, x)) =~= ns@.take(k as int).map_values(|x: usize| (name_chars@, x)).push((name_chars@, ns@[k as int])));
                assert(points_view(res@) =~= r0 + ns@.take(k + 1).map_values(|x: usize| (name_chars@, x)));
            }
        }
        assert(ns@.take(ns@.len() as int) =~= ns@);
    }
    assert(pv.take(pv.len() as int) =~= pv);
    Some(res)
}

proof fn lemma_point_groups_none(parts: Seq<Seq<char>>, i: int)
    requires
        0 <= i <= parts.len(),
        point_groups(parts.take(i)) is None,
    ensures
        point_groups(parts) is None,
    decreases parts.len(),
{
    if i < parts.len() {
        assert(parts.drop_last().take(i) =~= parts.take(i));
        lemma_point_groups_none(parts.drop_last(), i);
    } else {
        assert(parts.take(i) =~= parts);
    }
}

/// Reads a USE/DEF file: a line per block, the USE points, a `,`, the DEF points, each
/// written `x: 1 2; y: 3`; `None` where a line does not read so.
pub fn load_use_def_from_text(text: &str) -> (res: Option<Vec<(Vec<VarPoint>, Vec<VarPoint>)>>)
    ensures
        match res {
            Some(l) => {
                &&& l@.len() == lines(text@).len()
                &&& forall|i: int| 0 <= i < l@.len() ==> use_def_line(lines(text@)[i]) == Some((points_view((#[trigger] l@[i]).0@), points_view(l@[i].1@)))
            },
            None => exists|i: int| 0 <= i < lines(text@).len() && #[trigger] use_def_line(lines(text@)[i]) is None,
        },
{
    let cs = str_chars(text);
    let ls = split_lines(&cs);
    let ghost lv = char_seqs(ls@);
    let mut ans: Vec<(Vec<VarPoint>, Vec<VarPoint>)> = Vec::new();
    for i in 0..ls.len()
        invariant
            lv == char_seqs(ls@),
            lv == lines(text@),
            ans@.len() == i,
            forall|j: int| 0 <= j < i ==> use_def_line(lv[j]) == Some((points_view((#[trigger] ans@[j]).0@), points_view(ans@[j].1@))),
    {
        assert(lv[i as int] == ls@[i as int]@);
        let parts = split_chars(&ls[i], ',');
        if parts.len() < 2 {
            assert(use_def_line(lines(text@)[i as int]) is None);
                    return None;
        }
        assert(parts@.map_values(|p: Vec<char>| p@)[0] == parts@[0]@);
        assert(parts@.map_values(|p: Vec<char>| p@)[1] == parts@[1]@);
        let t0 = trim_chars(&parts[0]);
        let u = if t0.len() == 0 {
            let e: Vec<VarPoint> = Vec::new();
            assert(points_view(e@) =~= Seq::<(Seq<char>, usize)>::empty());
            e
        } else {
            match read_point_groups(&parts[0]) {
                None => {
                    assert(use_def_line(lines(text@)[i as int]) is None);
                    return None;
                },
                Some(u) => u,
            }
        };
        let d = if parts[1].len() == 0 {
            let e: Vec<VarPoint> = Vec::new();
            assert(points_view(e@) =~= Seq::<(Seq<char>, usize)>::empty());
            e
        } else {
            match read_point_groups(&parts[1]) {
                None => {
                    assert(use_def_line(lines(text@)[i as int]) is None);
                    return None;
                },
                Some(d) => d,
            }
        };
        let ghost a0 = ans@;
        ans.push((u, d));
        proof {
            assert forall|j: int| 0 <= j < i + 1 implies use_def_line(lv[j]) == Some((points_view((#[trigger] ans@[j]).0@), points_view(ans@[j].1@))) by {
                if j < i { assert(ans@[j] == a0[j]); }
            }
        }
    }
    Some(ans)
}
} // verus!
