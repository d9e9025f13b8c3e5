use vstd::prelude::*;
use crate::grammar::rule::{split_on, split_chars, str_chars, string_from_chars};
use crate::utils::text::{trim, words, lines, parse_number, char_seqs, trim_chars, split_words, split_lines, parse_usize};
use crate::utils::lemma_push_no_dup;
use super::du::{VarPoint, point_set};

verus! {

/// A statement of a program: its point, the variable it defines and the variables it uses.
pub type Stmt = (usize, String, Vec<String>);

/// The abstract value of a statement.
pub struct SpecStmt {
    pub point: usize,
    pub def: Seq<char>,
    pub uses: Seq<Seq<char>>,
}

/// The characters of each string.
pub open spec fn string_seqs(v: Seq<String>) -> Seq<Seq<char>> {
    v.map_values(|u: String| u@)
}

/// The abstract value of a statement.
pub open spec fn stmt_view(s: Stmt) -> SpecStmt {
    SpecStmt { point: s.0, def: s.1@, uses: string_seqs(s.2@) }
}

/// The abstract value of the blocks of a program.
pub open spec fn blocks_view(b: Seq<Vec<Stmt>>) -> Seq<Seq<SpecStmt>> {
    b.map_values(|blk: Vec<Stmt>| blk@.map_values(|s: Stmt| stmt_view(s)))
}

/// A statement line `dN: x = a b ...`: the point `N` after the first character of the
/// text before the first `:`, the variable between that `:` and the first `=` after it,
/// and the words up to the next `=`; `None` where the line does not read so.
pub open spec fn parse_stmt(line: Seq<char>) -> Option<SpecStmt> {
    let pieces = split_on(line, ':');
    if pieces.len() < 2 {
        None
    } else {
        let name = trim(pieces[0]);
        if name.len() == 0 || name[0] >= '\u{80}' {
            None
        } else {
            match parse_number(name.drop_first()) {
                None => None,
                Some(p) => {
                    let q = split_on(pieces[1], '=');
                    if q.len() < 2 {
                        None
                    } else {
                        Some(SpecStmt { point: p, def: trim(q[0]), uses: words(trim(q[1])) })
                    }
                },
            }
        }
    }
}

/// The blocks of a program written one statement a line, blocks apart by an empty line;
/// `None` where a line does not read as a statement.
pub open spec fn program_blocks(ls: Seq<Seq<char>>) -> Option<Seq<Seq<SpecStmt>>>
    decreases ls.len(),
{
    if ls.len() == 0 {
        Some(seq![seq![]])
    } else {
        match program_blocks(ls.drop_last()) {
            None => None,
            Some(bs) => if ls.last().len() == 0 {
                Some(bs.push(seq![]))
            } else {
                match parse_stmt(ls.last()) {
                    None => None,
                    Some(st) => Some(bs.update(bs.len() - 1, bs.last().push(st))),
                }
            },
        }
    }
}

proof fn lemma_program_blocks_len(ls: Seq<Seq<char>>)
    ensures
        program_blocks(ls) matches Some(bs) ==> bs.len() >= 1,
    decreases ls.len(),
{
    if ls.len() > 0 {
        lemma_program_blocks_len(ls.drop_last());
    }
}

/// A line that does not read stops the whole program from reading.
proof fn lemma_program_blocks_none(ls: Seq<Seq<char>>, i: int)
    requires
        0 <= i <= ls.len(),
        program_blocks(ls.take(i)) is None,
    ensures
        program_blocks(ls) is None,
    decreases ls.len(),
{
    if i < ls.len() {
        assert(ls.drop_last().take(i) =~= ls.take(i));
        lemma_program_blocks_none(ls.drop_last(), i);
    } else {
        assert(ls.take(i) =~= ls);
    }
}

/// A string holding the characters.
pub fn chars_string(v: &Vec<char>) -> (res: String)
    ensures
        res@ == v@,
{
    let mut c: Vec<char> = Vec::new();
    for i in 0..v.len()
        invariant
            c@ == v@.take(i as int),
    {
        c.push(v[i]);
        assert(c@ =~= v@.take(i + 1));
    }
    assert(c@ =~= v@);
    string_from_chars(c)
}

/// Reads a statement line.
pub fn read_stmt(line: &Vec<char>) -> (res: Option<Stmt>)
    ensures
        match res {
            Some(s) => parse_stmt(line@) == Some(stmt_view(s)),
            None => parse_stmt(line@) is None,
        },
{
    let pieces = split_chars(line, ':');
    if pieces.len() < 2 {
        return None;
    }
    let name = trim_chars(&pieces[0]);
    if name.len() == 0 || name[0] >= '\u{80}' {
        return None;
    }
    let mut rest: Vec<char> = Vec::new();
    for i in 1..name.len()
        invariant
            1 <= name@.len(),
            rest@ == name@.subrange(1, i as int),
    {
        rest.push(name[i]);
        assert(rest@ =~= name@.subrange(1, i + 1));
    }
    assert(rest@ =~= name@.drop_first());
    let p = match parse_usize(&rest) {
        None => {
            return None;
        },
        Some(p) => p,
    };
    let q = split_chars(&pieces[1], '=');
    if q.len() < 2 {
        return None;
    }
    let def = trim_chars(&q[0]);
    let tail = trim_chars(&q[1]);
    let ws = split_words(&tail);
    let mut uses: Vec<String> = Vec::new();
    for k in 0..ws.len()
        invariant
            string_seqs(uses@) == char_seqs(ws@).take(k as int),
    {
        let w = chars_string(&ws[k]);
        assert(char_seqs(ws@)[k as int] == ws@[k as int]@);
        let ghost u0 = uses@;
        let ghost wv = w@;
        uses.push(w);
        assert(string_seqs(uses@) =~= string_seqs(u0).push(wv));
        assert(string_seqs(uses@) =~= char_seqs(ws@).take(k + 1));
    }
    assert(char_seqs(ws@).take(ws@.len() as int) =~= char_seqs(ws@));
    let d = chars_string(&def);
    Some((p, d, uses))
}

/// Reads a program: its statements in blocks, apart by empty lines, the whole text
/// trimmed first; `None` where a line does not read as a statement.
pub fn parse_program(text: &str) -> (res: Option<Vec<Vec<Stmt>>>)
    ensures
        match res {
            Some(b) => program_blocks(lines(trim(text@))) == Some(blocks_view(b@)),
            None => program_blocks(lines(trim(text@))) is None,
        },
{
    let cs = str_chars(text);
    let t = trim_chars(&cs);
    let ls = split_lines(&t);
    let ghost lv = char_seqs(ls@);
    let mut blocks: Vec<Vec<Stmt>> = Vec::new();
    blocks.push(Vec::new());
    assert(blocks_view(blocks@)[0] =~= Seq::<SpecStmt>::empty());
    assert(blocks_view(blocks@) =~= seq![seq![]]);
    assert(lv.take(0) =~= Seq::<Seq<char>>::empty());
    for i in 0..ls.len()
        invariant
            lv == char_seqs(ls@),
            lv == lines(trim(text@)),
            blocks@.len() >= 1,
            program_blocks(lv.take(i as int)) == Some(blocks_view(blocks@)),
    {
        assert(lv.take(i + 1).drop_last() =~= lv.take(i as int));
        assert(lv.take(i + 1).last() == ls@[i as int]@);
        let ghost b0 = blocks@;
        if ls[i].len() == 0 {
            blocks.push(Vec::new());
            assert(blocks_view(blocks@)[b0.len() as int] =~= Seq::<SpecStmt>::empty());
            assert(blocks_view(blocks@) =~= blocks_view(b0).push(seq![]));
        } else {
            match read_stmt(&ls[i]) {
                None => {
                    proof {
                        lemma_program_blocks_none(lv, i + 1);
                    }
                    return None;
                },
                Some(st) => {
                    let last = blocks.len() - 1;
                    let mut blk = blocks.pop().unwrap();
                    let ghost k0 = blk@;
                    blk.push(st);
                    blocks.push(blk);
                    proof {
                        assert(k0 == b0[last as int]@);
                        assert(blocks_view(blocks@)[last as int] =~= blocks_view(b0)[last as int].push(stmt_view(st)));
                        assert(blocks_view(blocks@) =~= blocks_view(b0).update(last as int, blocks_view(b0)[last as int].push(stmt_view(st))));
                    }
                },
            }
        }
    }
    assert(lv.take(ls@.len() as int) =~= lv);
    Some(blocks)
}


/// The points of the statements of block `i`: its GEN set.
pub open spec fn gen_of(b: Seq<Seq<SpecStmt>>, i: int) -> Set<usize> {
    Set::new(|p: usize| exists|s: int| 0 <= s < b[i].len() && #[trigger] b[i][s].point == p)
}

/// The points of the statements of other blocks that define a variable that block `i`
/// defines: its KILL set.
pub open spec fn kill_of(b: Seq<Seq<SpecStmt>>, i: int) -> Set<usize> {
    Set::new(|p: usize| exists|j: int, k: int| 0 <= j < b.len() && j != i && 0 <= k < b[j].len()
        && #[trigger] b[j][k].point == p && defines(b[i], b[j][k].def))
}

/// Some statement of `blk` defines `x`.
pub open spec fn defines(blk: Seq<SpecStmt>, x: Seq<char>) -> bool {
    exists|m: int| 0 <= m < blk.len() && #[trigger] blk[m].def == x
}

/// Whether some statement of `blk` defines `x`.
fn defines_var(blk: &Vec<Stmt>, x: &String) -> (res: bool)
    ensures
        res == defines(blk@.map_values(|s: Stmt| stmt_view(s)), x@),
{
    let ghost bv = blk@.map_values(|s: Stmt| stmt_view(s));
    let mut m: usize = 0;
    while m < blk.len()
        invariant
            bv == blk@.map_values(|s: Stmt| stmt_view(s)),
            m <= blk@.len(),
            forall|m2: int| 0 <= m2 < m ==> bv[m2].def != x@,
        decreases blk@.len() - m,
    {
        if blk[m].1.eq(x) {
            assert(bv[m as int].def == x@);
            return true;
        }
        m = m + 1;
    }
    false
}

/// The GEN and KILL sets of the blocks: for reaching definitions, each block generates
/// the points of its statements and kills the points of the other blocks' statements
/// that define a variable it defines.
pub fn calc_gen_kill(blocks: &Vec<Vec<Stmt>>) -> (res: Vec<(Vec<usize>, Vec<usize>)>)
    ensures
        res@.len() == blocks@.len(),
        forall|i: int| 0 <= i < blocks@.len() ==>
            (#[trigger] res@[i]).0@.to_set() == gen_of(blocks_view(blocks@), i)
            && res@[i].1@.to_set() == kill_of(blocks_view(blocks@), i),
{
    let ghost b = blocks_view(blocks@);
    let mut ans: Vec<(Vec<usize>, Vec<usize>)> = Vec::new();
    for index in 0..blocks.len()
        invariant
            b == blocks_view(blocks@),
            ans@.len() == index,
            forall|i: int| 0 <= i < index ==>
                (#[trigger] ans@[i]).0@.to_set() == gen_of(b, i) && ans@[i].1@.to_set() == kill_of(b, i),
    {
        let blk = &blocks[index];
        assert(b[index as int] == blk@.map_values(|s: Stmt| stmt_view(s)));
        let mut gen: Vec<usize> = Vec::new();
        for s in 0..blk.len()
            invariant
                b == blocks_view(blocks@),
                index < blocks@.len(),
                *blk == blocks@[index as int],
                gen@.to_set() == Set::new(|p: usize| exists|s2: int| 0 <= s2 < s && #[trigger] b[index as int][s2].point == p),
        {
            let ghost g0 = gen@;
            gen.push(blk[s].0);
            proof {
                g0.lemma_push_to_set_commute(blk@[s as int].0);
                assert(b[index as int][s as int].point == blk@[s as int].0);
                assert(gen@.to_set() =~= Set::new(|p: usize| exists|s2: int| 0 <= s2 < s + 1 && #[trigger] b[index as int][s2].point == p)) by {
                    assert forall|p: usize| (exists|s2: int| 0 <= s2 < s + 1 && #[trigger] b[index as int][s2].point == p) implies gen@.to_set().contains(p) by {
                        let s2 = choose|s2: int| 0 <= s2 < s + 1 && #[trigger] b[index as int][s2].point == p;
                        if s2 < s {
                            assert(g0.to_set().contains(p));
                        }
                    }
                }
            }
        }
        let mut kill: Vec<usize> = Vec::new();
        for j in 0..blocks.len()
            invariant
                b == blocks_view(blocks@),
                index < blocks@.len(),
                *blk == blocks@[index as int],
                kill@.to_set() == Set::new(|p: usize| exists|j2: int, k: int| 0 <= j2 < j && j2 != index && 0 <= k < b[j2].len()
                    && #[trigger] b[j2][k].point == p && defines(b[index as int], b[j2][k].def)),
        {
            let other = &blocks[j];
            let ghost kj = kill@.to_set();
            for k in 0..other.len()
                invariant
                    b == blocks_view(blocks@),
                    index < blocks@.len(),
                    j < blocks@.len(),
                    *blk == blocks@[index as int],
                    *other == blocks@[j as int],
                    kill@.to_set() == kj.union(Set::new(|p: usize| exists|k2: int| 0 <= k2 < k && j != index
                        && #[trigger] b[j as int][k2].point == p && defines(b[index as int], b[j as int][k2].def))),
            {
                assert(b[j as int][k as int] == stmt_view(other@[k as int]));
                assert(b[index as int] == blk@.map_values(|s: Stmt| stmt_view(s)));
                let ghost k0 = kill@;
                if j != index && defines_var(blk, &other[k].1) {
                    kill.push(other[k].0);
                    proof {
                        k0.lemma_push_to_set_commute(other@[k as int].0);
                    }
                }
                proof {
                    let news = Set::new(|p: usize| exists|k2: int| 0 <= k2 < k + 1 && j != index
                        && #[trigger] b[j as int][k2].point == p && defines(b[index as int], b[j as int][k2].def));
                    let olds = Set::new(|p: usize| exists|k2: int| 0 <= k2 < k && j != index
                        && #[trigger] b[j as int][k2].point == p && defines(b[index as int], b[j as int][k2].def));
                    assert(k0.to_set() == kj.union(olds));
                    assert forall|p: usize| kill@.to_set().contains(p) <==> kj.union(news).contains(p) by {
                        if kill@.to_set().contains(p) {
                            if k0.to_set().contains(p) {
                                if !kj.contains(p) {
                                    assert(olds.contains(p));
                                    let k2 = choose|k2: int| 0 <= k2 < k && j != index
                                        && #[trigger] b[j as int][k2].point == p && defines(b[index as int], b[j as int][k2].def);
                                    assert(news.contains(p));
                                }
                            } else {
                                assert(p == other@[k as int].0);
                                assert(b[j as int][k as int].point == p);
                                assert(b[j as int][k as int].def == other@[k as int].1@);
                                assert(news.contains(p));
                            }
                        }
                        if kj.union(news).contains(p) {
                            if !kj.contains(p) {
                                let k2 = choose|k2: int| 0 <= k2 < k + 1 && j != index
                                    && #[trigger] b[j as int][k2].point == p && defines(b[index as int], b[j as int][k2].def);
                                if k2 < k {
                                    assert(olds.contains(p));
                                    assert(k0.to_set().contains(p));
                                } else {
                                    assert(b[j as int][k as int].def == other@[k as int].1@);
                                }
                            }
                        }
                    }
                    assert(kill@.to_set() =~= kj.union(news));
                }
            }
            proof {
                assert(kill@.to_set() =~= Set::new(|p: usize| exists|j2: int, k: int| 0 <= j2 < j + 1 && j2 != index && 0 <= k < b[j2].len()
                    && #[trigger] b[j2][k].point == p && defines(b[index as int], b[j2][k].def))) by {
                    assert forall|p: usize| (exists|j2: int, k: int| 0 <= j2 < j + 1 && j2 != index && 0 <= k < b[j2].len()
                        && #[trigger] b[j2][k].point == p && defines(b[index as int], b[j2][k].def)) implies kill@.to_set().contains(p) by {
                        let (j2, k) = choose|j2: int, k: int| 0 <= j2 < j + 1 && j2 != index && 0 <= k < b[j2].len()
                            && #[trigger] b[j2][k].point == p && defines(b[index as int], b[j2][k].def);
                        if j2 < j {
                            assert(kj.contains(p));
                        }
                    }
                }
            }
        }
        let ghost a0 = ans@;
        proof {
            assert(gen@.to_set() =~= gen_of(b, index as int));
            assert(kill@.to_set() =~= kill_of(b, index as int));
        }
        ans.push((gen, kill));
        proof {
            assert forall|i: int| 0 <= i < index + 1 implies
                (#[trigger] ans@[i]).0@.to_set() == gen_of(b, i) && ans@[i].1@.to_set() == kill_of(b, i) by {
                if i < index { assert(ans@[i] == a0[i]); }
            }
        }
    }
    ans
}

/// The uses of statement `s` of `blk` of a variable that no earlier statement of the
/// block defines.
pub open spec fn stmt_use_set(blk: Seq<SpecStmt>, s: int) -> Set<(Seq<char>, usize)> {
    Set::new(|f: (Seq<char>, usize)| f.1 == blk[s].point && blk[s].uses.contains(f.0) && !defines(blk.take(s), f.0))
}

/// The points that use the variable that statement `s` of block `i` defines: later
/// statements of the block and statements of other blocks.
pub open spec fn stmt_def_set(b: Seq<Seq<SpecStmt>>, i: int, s: int) -> Set<(Seq<char>, usize)> {
    Set::new(|f: (Seq<char>, usize)| f.0 == b[i][s].def && (
        (exists|j: int| s < j < b[i].len() && #[trigger] b[i][j].point == f.1 && b[i][j].uses.contains(f.0))
        || (exists|j: int, k: int| 0 <= j < b.len() && j != i && 0 <= k < b[j].len() && #[trigger] b[j][k].point == f.1 && b[j][k].uses.contains(f.0))))
}

/// The USE set of block `i`: the uses of a variable before any definition of it in the block.
pub open spec fn use_of(b: Seq<Seq<SpecStmt>>, i: int) -> Set<(Seq<char>, usize)> {
    Set::new(|f: (Seq<char>, usize)| exists|s: int| 0 <= s < b[i].len() && #[trigger] stmt_use_set(b[i], s).contains(f))
}

/// The DEF set of block `i`: for each variable it defines, the points that use it later
/// in the block or in another block.
pub open spec fn def_of(b: Seq<Seq<SpecStmt>>, i: int) -> Set<(Seq<char>, usize)> {
    Set::new(|f: (Seq<char>, usize)| exists|s: int| 0 <= s < b[i].len() && #[trigger] stmt_def_set(b, i, s).contains(f))
}

/// Whether `x` is among the strings of `v`.
fn has_string(v: &Vec<String>, x: &String) -> (res: bool)
    ensures
        res == string_seqs(v@).contains(x@),
{
    let mut m: usize = 0;
    while m < v.len()
        invariant
            m <= v@.len(),
            forall|m2: int| 0 <= m2 < m ==> v@[m2]@ != x@,
        decreases v@.len() - m,
    {
        if v[m].eq(x) {
            assert(string_seqs(v@)[m as int] == x@);
            return true;
        }
        m = m + 1;
    }
    proof {
        if string_seqs(v@).contains(x@) {
            let m2 = choose|m2: int| 0 <= m2 < string_seqs(v@).len() && string_seqs(v@)[m2] == x@;
            assert(v@[m2]@ == x@);
        }
    }
    false
}

/// Pushing a variable point adds its value to the set.
proof fn lemma_point_set_push(v: Seq<VarPoint>, f: VarPoint)
    ensures
        point_set(v.push(f)) == point_set(v).insert(super::du::point_view(f)),
{
    assert(v.push(f).map_values(|g: VarPoint| super::du::point_view(g)) =~= v.map_values(|g: VarPoint| super::du::point_view(g)).push(super::du::point_view(f)));
    v.map_values(|g: VarPoint| super::du::point_view(g)).lemma_push_to_set_commute(super::du::point_view(f));
}

/// The uses of statement `s` of `blk` before any definition in the block.
fn stmt_uses(blk: &Vec<Stmt>, s: usize) -> (res: Vec<VarPoint>)
    requires
        s < blk@.len(),
    ensures
        point_set(res@) == stmt_use_set(blk@.map_values(|t: Stmt| stmt_view(t)), s as int),
{
    let ghost bv = blk@.map_values(|t: Stmt| stmt_view(t));
    let uses = &blk[s].2;
    let mut res: Vec<VarPoint> = Vec::new();
    assert(bv[s as int] == stmt_view(blk@[s as int]));
    for k in 0..uses.len()
        invariant
            bv == blk@.map_values(|t: Stmt| stmt_view(t)),
            s < blk@.len(),
            *uses == blk@[s as int].2,
            bv[s as int] == stmt_view(blk@[s as int]),
            point_set(res@) == Set::new(|f: (Seq<char>, usize)| f.1 == bv[s as int].point
                && string_seqs(uses@).take(k as int).contains(f.0) && !defines(bv.take(s as int), f.0)),
    {
        let u = &uses[k];
        let mut defined = false;
        let mut m: usize = 0;
        while m < s
            invariant
                bv == blk@.map_values(|t: Stmt| stmt_view(t)),
                s < blk@.len(),
                m <= s,
                defined == defines(bv.take(m as int), u@),
            decreases s - m,
        {
            assert(bv.take(m + 1) =~= bv.take(m as int).push(bv[m as int]));
            assert(bv[m as int].def == blk@[m as int].1@);
            if blk[m].1.eq(u) {
                defined = true;
                assert(bv.take(m + 1)[m as int].def == u@);
            } else {
                proof {
                    if defines(bv.take(m + 1), u@) {
                        let m2 = choose|m2: int| 0 <= m2 < bv.take(m + 1).len() && #[trigger] bv.take(m + 1)[m2].def == u@;
                        if m2 < m {
                            assert(bv.take(m as int)[m2].def == u@);
                        }
                    }
                }
            }
            proof {
                if defines(bv.take(m as int), u@) {
                    let m2 = choose|m2: int| 0 <= m2 < bv.take(m as int).len() && #[trigger] bv.take(m as int)[m2].def == u@;
                    assert(bv.take(m + 1)[m2].def == u@);
                }
            }
            m = m + 1;
        }
        let ghost r0 = res@;
        assert(string_seqs(uses@).take(k + 1) =~= string_seqs(uses@).take(k as int).push(u@));
        if !defined {
            let f = (u.clone(), blk[s].0);
            let ghost fv = f;
            res.push(f);
            proof {
                lemma_point_set_push(r0, fv);
                assert(super::du::point_view(fv) == (u@, bv[s as int].point));
            }
        }
        proof {
            string_seqs(uses@).take(k as int).lemma_push_to_set_commute(u@);
            let ns = Set::new(|f: (Seq<char>, usize)| f.1 == bv[s as int].point
                && string_seqs(uses@).take(k + 1).contains(f.0) && !defines(bv.take(s as int), f.0));
            let os = Set::new(|f: (Seq<char>, usize)| f.1 == bv[s as int].point
                && string_seqs(uses@).take(k as int).contains(f.0) && !defines(bv.take(s as int), f.0));
            assert(point_set(r0) == os);
            assert(string_seqs(uses@)[k as int] == u@);
            assert forall|f: (Seq<char>, usize)| point_set(res@).contains(f) <==> ns.contains(f) by {
                assert(string_seqs(uses@).take(k + 1).contains(f.0) <==> (string_seqs(uses@).take(k as int).contains(f.0) || f.0 == u@)) by {
                    assert(string_seqs(uses@).take(k + 1).to_set().contains(f.0) == string_seqs(uses@).take(k as int).to_set().insert(u@).contains(f.0));
                }
            }
            assert(point_set(res@) =~= ns);
        }
    }
    assert(string_seqs(uses@).take(uses@.len() as int) =~= string_seqs(uses@));
    assert(point_set(res@) =~= stmt_use_set(bv, s as int));
    res
}


/// The points that use the variable that statement `s` of block `index` defines.
fn stmt_defs(blocks: &Vec<Vec<Stmt>>, index: usize, s: usize) -> (res: Vec<VarPoint>)
    requires
        index < blocks@.len(),
        s < blocks@[index as int]@.len(),
    ensures
        point_set(res@) == stmt_def_set(blocks_view(blocks@), index as int, s as int),
{
    let ghost b = blocks_view(blocks@);
    let blk = &blocks[index];
    let left = &blk[s].1;
    assert(b[index as int][s as int].def == left@);
    let ghost x = left@;
    let mut res: Vec<VarPoint> = Vec::new();
    for j in s + 1..blk.len()
        invariant
            b == blocks_view(blocks@),
            index < blocks@.len(),
            *blk == blocks@[index as int],
            s < blk@.len(),
            x == left@,
            x == b[index as int][s as int].def,
            point_set(res@) == Set::new(|f: (Seq<char>, usize)| f.0 == x && exists|j2: int| s < j2 < j
                && #[trigger] b[index as int][j2].point == f.1 && b[index as int][j2].uses.contains(f.0)),
    {
        let ghost r0 = res@;
        assert(b[index as int][j as int] == stmt_view(blk@[j as int]));
        let ghost ns = Set::new(|f: (Seq<char>, usize)| f.0 == x && exists|j2: int| s < j2 < j + 1
            && #[trigger] b[index as int][j2].point == f.1 && b[index as int][j2].uses.contains(f.0));
        let ghost os = point_set(r0);
        if has_string(&blk[j].2, left) {
            let f = (left.clone(), blk[j].0);
            let ghost fv = f;
            res.push(f);
            proof {
                lemma_point_set_push(r0, fv);
                assert(b[index as int][j as int].point == fv.1);
                assert(b[index as int][j as int].uses.contains(x));
                assert(ns.contains(super::du::point_view(fv)));
            }
        }
        proof {
            assert forall|f: (Seq<char>, usize)| ns.contains(f) implies point_set(res@).contains(f) by {
                let j2 = choose|j2: int| s < j2 < j + 1 && #[trigger] b[index as int][j2].point == f.1 && b[index as int][j2].uses.contains(f.0);
                if j2 < j {
                    assert(os.contains(f));
                }
            }
            assert forall|f: (Seq<char>, usize)| os.contains(f) implies ns.contains(f) by {
                let j2 = choose|j2: int| s < j2 < j && #[trigger] b[index as int][j2].point == f.1 && b[index as int][j2].uses.contains(f.0);
            }
            assert(point_set(res@) =~= ns);
        }
    }
    let ghost within = point_set(res@);
    for j in 0..blocks.len()
        invariant
            b == blocks_view(blocks@),
            index < blocks@.len(),
            x == left@,
            x == b[index as int][s as int].def,
            point_set(res@) == within.union(Set::new(|f: (Seq<char>, usize)| f.0 == x && exists|j2: int, k: int| 0 <= j2 < j && j2 != index
                && 0 <= k < b[j2].len() && #[trigger] b[j2][k].point == f.1 && b[j2][k].uses.contains(f.0))),
    {
        let other = &blocks[j];
        let ghost rj = point_set(res@);
        for k in 0..other.len()
            invariant
                b == blocks_view(blocks@),
                index < blocks@.len(),
                j < blocks@.len(),
                *other == blocks@[j as int],
                x == left@,
                point_set(res@) == rj.union(Set::new(|f: (Seq<char>, usize)| f.0 == x && j != index && exists|k2: int| 0 <= k2 < k
                    && #[trigger] b[j as int][k2].point == f.1 && b[j as int][k2].uses.contains(f.0))),
        {
            let ghost r0 = res@;
            assert(b[j as int][k as int] == stmt_view(other@[k as int]));
            if j != index && has_string(&other[k].2, left) {
                let f = (left.clone(), other[k].0);
                let ghost fv = f;
                res.push(f);
                proof {
                    lemma_point_set_push(r0, fv);
                    assert(b[j as int][k as int].point == fv.1);
                    assert(b[j as int][k as int].uses.contains(x));
                }
            }
            proof {
                let ns = Set::new(|f: (Seq<char>, usize)| f.0 == x && j != index && exists|k2: int| 0 <= k2 < k + 1
                    && #[trigger] b[j as int][k2].point == f.1 && b[j as int][k2].uses.contains(f.0));
                assert forall|f: (Seq<char>, usize)| point_set(res@).contains(f) <==> rj.union(ns).contains(f) by {
                    if rj.union(ns).contains(f) && !rj.contains(f) {
                        let k2 = choose|k2: int| 0 <= k2 < k + 1 && #[trigger] b[j as int][k2].point == f.1 && b[j as int][k2].uses.contains(f.0);
                        if k2 < k {
                            assert(point_set(r0).contains(f));
                        }
                    }
                    if point_set(res@).contains(f) && !point_set(r0).contains(f) {
                        assert(f.1 == other@[k as int].0);
                        assert(b[j as int][k as int].point == f.1);
                        assert(ns.contains(f));
                    }
                    if point_set(r0).contains(f) && !rj.contains(f) {
                        let k2 = choose|k2: int| 0 <= k2 < k && #[trigger] b[j as int][k2].point == f.1 && b[j as int][k2].uses.contains(f.0);
                        assert(ns.contains(f));
                    }
                }
                assert(point_set(res@) =~= rj.union(ns));
            }
        }
        proof {
            let ns = Set::new(|f: (Seq<char>, usize)| f.0 == x && exists|j2: int, k: int| 0 <= j2 < j + 1 && j2 != index
                && 0 <= k < b[j2].len() && #[trigger] b[j2][k].point == f.1 && b[j2][k].uses.contains(f.0));
            assert forall|f: (Seq<char>, usize)| point_set(res@).contains(f) <==> within.union(ns).contains(f) by {
                if within.union(ns).contains(f) && !within.contains(f) {
                    let (j2, k) = choose|j2: int, k: int| 0 <= j2 < j + 1 && j2 != index
                        && 0 <= k < b[j2].len() && #[trigger] b[j2][k].point == f.1 && b[j2][k].uses.contains(f.0);
                    if j2 < j {
                        assert(rj.contains(f));
                    }
                }
                if point_set(res@).contains(f) && !rj.contains(f) {
                    let k2 = choose|k2: int| 0 <= k2 < other@.len() && #[trigger] b[j as int][k2].point == f.1 && b[j as int][k2].uses.contains(f.0);
                    assert(ns.contains(f));
                }
                if rj.contains(f) && !within.contains(f) {
                    let (j2, k) = choose|j2: int, k: int| 0 <= j2 < j && j2 != index
                        && 0 <= k < b[j2].len() && #[trigger] b[j2][k].point == f.1 && b[j2][k].uses.contains(f.0);
                    assert(ns.contains(f));
                }
            }
            assert(point_set(res@) =~= within.union(ns));
        }
    }
    proof {
        assert(point_set(res@) =~= stmt_def_set(b, index as int, s as int)) by {
            assert forall|f: (Seq<char>, usize)| point_set(res@).contains(f) <==> stmt_def_set(b, index as int, s as int).contains(f) by {
                if stmt_def_set(b, index as int, s as int).contains(f) {
                    if exists|j: int| s < j < b[index as int].len() && #[trigger] b[index as int][j].point == f.1 && b[index as int][j].uses.contains(f.0) {
                        let j = choose|j: int| s < j < b[index as int].len() && #[trigger] b[index as int][j].point == f.1 && b[index as int][j].uses.contains(f.0);
                        assert(within.contains(f));
                    }
                }
            }
        }
    }
    res
}

/// Appends a copy of `b` to `a`.
fn append_points(a: &mut Vec<VarPoint>, b: &Vec<VarPoint>)
    ensures
        point_set(final(a)@) == point_set(old(a)@).union(point_set(b@)),
{
    let ghost a0 = point_set(a@);
    for k in 0..b.len()
        invariant
            point_set(a@) == a0.union(point_set(b@.take(k as int))),
    {
        let ghost r0 = a@;
        let f = (b[k].0.clone(), b[k].1);
        let ghost fv = f;
        a.push(f);
        proof {
            lemma_point_set_push(r0, fv);
            assert(b@.take(k + 1) =~= b@.take(k as int).push(b@[k as int]));
            lemma_point_set_push(b@.take(k as int), b@[k as int]);
            assert(super::du::point_view(fv) == super::du::point_view(b@[k as int]));
            assert(point_set(a@) =~= a0.union(point_set(b@.take(k + 1))));
        }
    }
    assert(b@.take(b@.len() as int) =~= b@);
}

/// The USE and DEF sets of the blocks, for live variables: a block uses a variable at a
/// point before any definition of it in the block, and each variable it defines is used
/// at the points of later statements of the block and of statements of other blocks
/// that use it.
pub fn calc_use_def(blocks: &Vec<Vec<Stmt>>) -> (res: Vec<(Vec<VarPoint>, Vec<VarPoint>)>)
    ensures
        res@.len() == blocks@.len(),
        forall|i: int| 0 <= i < blocks@.len() ==>
            point_set((#[trigger] res@[i]).0@) == use_of(blocks_view(blocks@), i)
            && point_set(res@[i].1@) == def_of(blocks_view(blocks@), i),
{
    let ghost b = blocks_view(blocks@);
    let mut ans: Vec<(Vec<VarPoint>, Vec<VarPoint>)> = Vec::new();
    for index in 0..blocks.len()
        invariant
            b == blocks_view(blocks@),
            ans@.len() == index,
            forall|i: int| 0 <= i < index ==>
                point_set((#[trigger] ans@[i]).0@) == use_of(b, i) && point_set(ans@[i].1@) == def_of(b, i),
    {
        let blk = &blocks[index];
        assert(b[index as int] == blk@.map_values(|t: Stmt| stmt_view(t)));
        let mut use_set: Vec<VarPoint> = Vec::new();
        let mut def_set: Vec<VarPoint> = Vec::new();
        for s in 0..blk.len()
            invariant
                b == blocks_view(blocks@),
                index < blocks@.len(),
                *blk == blocks@[index as int],
                b[index as int] == blk@.map_values(|t: Stmt| stmt_view(t)),
                point_set(use_set@) == Set::new(|f: (Seq<char>, usize)| exists|s2: int| 0 <= s2 < s && #[trigger] stmt_use_set(b[index as int], s2).contains(f)),
                point_set(def_set@) == Set::new(|f: (Seq<char>, usize)| exists|s2: int| 0 <= s2 < s && #[trigger] stmt_def_set(b, index as int, s2).contains(f)),
        {
            let ghost u0 = point_set(use_set@);
            let ghost d0 = point_set(def_set@);
            let us = stmt_uses(blk, s);
            let ds = stmt_defs(blocks, index, s);
            append_points(&mut use_set, &us);
            append_points(&mut def_set, &ds);
            proof {
                assert forall|f: (Seq<char>, usize)| point_set(use_set@).contains(f) <==> (exists|s2: int| 0 <= s2 < s + 1 && #[trigger] stmt_use_set(b[index as int], s2).contains(f)) by {
                    if exists|s2: int| 0 <= s2 < s + 1 && #[trigger] stmt_use_set(b[index as int], s2).contains(f) {
                        let s2 = choose|s2: int| 0 <= s2 < s + 1 && #[trigger] stmt_use_set(b[index as int], s2).contains(f);
                        if s2 < s { assert(u0.contains(f)); }
                    }
                }
                assert(point_set(use_set@) =~= Set::new(|f: (Seq<char>, usize)| exists|s2: int| 0 <= s2 < s + 1 && #[trigger] stmt_use_set(b[index as int], s2).contains(f)));
                assert forall|f: (Seq<char>, usize)| point_set(def_set@).contains(f) <==> (exists|s2: int| 0 <= s2 < s + 1 && #[trigger] stmt_def_set(b, index as int, s2).contains(f)) by {
                    if exists|s2: int| 0 <= s2 < s + 1 && #[trigger] stmt_def_set(b, index as int, s2).contains(f) {
                        let s2 = choose|s2: int| 0 <= s2 < s + 1 && #[trigger] stmt_def_set(b, index as int, s2).contains(f);
                        if s2 < s { assert(d0.contains(f)); }
                    }
                }
                assert(point_set(def_set@) =~= Set::new(|f: (Seq<char>, usize)| exists|s2: int| 0 <= s2 < s + 1 && #[trigger] stmt_def_set(b, index as int, s2).contains(f)));
            }
        }
        let ghost a0 = ans@;
        proof {
            assert(point_set(use_set@) =~= use_of(b, index as int));
            assert(point_set(def_set@) =~= def_of(b, index as int));
        }
        ans.push((use_set, def_set));
        proof {
            assert forall|i: int| 0 <= i < index + 1 implies
                point_set((#[trigger] ans@[i]).0@) == use_of(b, i) && point_set(ans@[i].1@) == def_of(b, i) by {
                if i < index { assert(ans@[i] == a0[i]); }
            }
        }
    }
    ans
}
} // verus!
