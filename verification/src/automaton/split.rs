use vstd::prelude::*;
use super::dfa::DFA;

verus! {

/// The blocks of a partition as sequences of states.
pub open spec fn blocks_view(v: Seq<Vec<usize>>) -> Seq<Seq<usize>> {
    v.map_values(|b: Vec<usize>| b@)
}

/// The first block, from the `i`-th on, that holds `v` (block 0 where none does).
pub open spec fn first_block_from(p: Seq<Seq<usize>>, v: usize, i: int) -> int
    decreases p.len() - i,
{
    if i < 0 || i >= p.len() {
        0
    } else if p[i].contains(v) {
        i
    } else {
        first_block_from(p, v, i + 1)
    }
}

/// The first block of the partition that holds `v`, block 0 where none does.
pub open spec fn first_block(p: Seq<Seq<usize>>, v: usize) -> int {
    first_block_from(p, v, 0)
}

/// Where state `q` goes on the `t`-th letter: the first block holding its successor, or
/// one past the last block where it has no transition on that letter.
pub open spec fn split_key(d: &DFA, p: Seq<Seq<usize>>, q: usize, t: int) -> int {
    match d.target(q, d.letters@[t]@) {
        Some(v) => first_block(p, v),
        None => p.len() as int,
    }
}

/// States whose key is `k`.
pub open spec fn key_is(d: &DFA, p: Seq<Seq<usize>>, t: int, k: int) -> spec_fn(usize) -> bool {
    |q: usize| split_key(d, p, q, t) == k
}

/// The states of `b` whose key is `k`, in the order of `b`.
pub open spec fn bucket(d: &DFA, p: Seq<Seq<usize>>, b: Seq<usize>, t: int, k: int) -> Seq<usize> {
    b.filter(key_is(d, p, t, k))
}

/// A sequence with some element.
pub open spec fn nonempty() -> spec_fn(Seq<usize>) -> bool {
    |s: Seq<usize>| s.len() > 0
}

/// The pieces of block `b` under the `t`-th letter: its states grouped by key, the groups
/// in the order of their keys, empty groups left out.
pub open spec fn pieces_of(d: &DFA, p: Seq<Seq<usize>>, b: Seq<usize>, t: int) -> Seq<Seq<usize>> {
    Seq::new((p.len() + 1int) as nat, |k: int| bucket(d, p, b, t, k)).filter(nonempty())
}

/// The first letter, from the `t`-th on, under which `b` does not stay one piece.
pub open spec fn split_letter_from(d: &DFA, p: Seq<Seq<usize>>, b: Seq<usize>, t: int) -> Option<int>
    decreases d.letters@.len() - t,
{
    if t < 0 || t >= d.letters@.len() {
        None
    } else if pieces_of(d, p, b, t).len() != 1 {
        Some(t)
    } else {
        split_letter_from(d, p, b, t + 1)
    }
}

/// The first letter under which `b` does not stay one piece.
pub open spec fn split_letter(d: &DFA, p: Seq<Seq<usize>>, b: Seq<usize>) -> Option<int> {
    split_letter_from(d, p, b, 0)
}

/// The rows of a round over the first `i` blocks: each block that some letter splits,
/// with its pieces under the first such letter.
pub open spec fn round_rows_upto(d: &DFA, p: Seq<Seq<usize>>, i: int) -> Seq<(Seq<usize>, Seq<Seq<usize>>)>
    decreases i,
{
    if i <= 0 {
        seq![]
    } else {
        let before = round_rows_upto(d, p, i - 1);
        match split_letter(d, p, p[i - 1]) {
            Some(t) => before.push((p[i - 1], pieces_of(d, p, p[i - 1], t))),
            None => before,
        }
    }
}

/// The rows of a round of refinement of the partition `p`.
pub open spec fn round_rows(d: &DFA, p: Seq<Seq<usize>>) -> Seq<(Seq<usize>, Seq<Seq<usize>>)> {
    round_rows_upto(d, p, p.len() as int)
}

/// The first `i` blocks after a round: each split block replaced by its pieces.
pub open spec fn next_upto(d: &DFA, p: Seq<Seq<usize>>, i: int) -> Seq<Seq<usize>>
    decreases i,
{
    if i <= 0 {
        seq![]
    } else {
        let before = next_upto(d, p, i - 1);
        match split_letter(d, p, p[i - 1]) {
            Some(t) => before + pieces_of(d, p, p[i - 1], t),
            None => before.push(p[i - 1]),
        }
    }
}

/// The partition after a round of refinement of `p`.
pub open spec fn next_partition(d: &DFA, p: Seq<Seq<usize>>) -> Seq<Seq<usize>> {
    next_upto(d, p, p.len() as int)
}

/// The first partition: the final states, then the others (one empty block where the
/// automaton has no state).
pub open spec fn initial_partition(d: &DFA) -> Seq<Seq<usize>> {
    let all = Seq::new(d.edges@.len(), |q: int| q as usize);
    let e = all.filter(|q: usize| d.end@.contains(q));
    let o = all.filter(|q: usize| !d.end@.contains(q));
    if e.len() == 0 && o.len() == 0 {
        seq![e]
    } else {
        seq![e, o]
    }
}

/// A split of one block: the block and the pieces it falls into.
#[derive(Debug)]
pub struct SplitRow {
    pub block: Vec<usize>,
    pub pieces: Vec<Vec<usize>>,
}

/// A round of refinement: the partition it starts from and the blocks it splits.
#[derive(Debug)]
pub struct SplitRound {
    pub blocks: Vec<Vec<usize>>,
    pub rows: Vec<SplitRow>,
}

/// The rows of a round as blocks and pieces.
pub open spec fn rows_view(r: Seq<SplitRow>) -> Seq<(Seq<usize>, Seq<Seq<usize>>)> {
    r.map_values(|x: SplitRow| (x.block@, blocks_view(x.pieces@)))
}

/// How far a partition is from the finest one: one per empty block, and one less than
/// its size per other block.
pub open spec fn spread(p: Seq<Seq<usize>>) -> int
    decreases p.len(),
{
    if p.len() == 0 {
        0
    } else {
        spread(p.drop_last()) + (if p.last().len() == 0 { 1int } else { p.last().len() - 1 })
    }
}

/// The total size of the blocks.
pub open spec fn total_len(p: Seq<Seq<usize>>) -> int
    decreases p.len(),
{
    if p.len() == 0 {
        0
    } else {
        total_len(p.drop_last()) + p.last().len()
    }
}

proof fn lemma_spread_concat(a: Seq<Seq<usize>>, b: Seq<Seq<usize>>)
    ensures
        spread(a + b) == spread(a) + spread(b),
    decreases b.len(),
{
    if b.len() > 0 {
        assert((a + b).drop_last() =~= a + b.drop_last());
        lemma_spread_concat(a, b.drop_last());
    } else {
        assert(a + b =~= a);
    }
}

/// Blocks that are all non-empty spread by their total size less their number.
proof fn lemma_spread_nonempty(p: Seq<Seq<usize>>)
    requires
        forall|i: int| 0 <= i < p.len() ==> (#[trigger] p[i]).len() > 0,
    ensures
        spread(p) == total_len(p) - p.len(),
    decreases p.len(),
{
    if p.len() > 0 {
        lemma_spread_nonempty(p.drop_last());
    }
}

/// Dropping the empty blocks keeps the total size.
proof fn lemma_total_len_filter(s: Seq<Seq<usize>>)
    ensures
        total_len(s.filter(nonempty())) == total_len(s),
    decreases s.len(),
{
    reveal(Seq::filter);
    if s.len() > 0 {
        lemma_total_len_filter(s.drop_last());
        let f = s.drop_last().filter(nonempty());
        if s.last().len() > 0 {
            assert(s.filter(nonempty()) == f.push(s.last()));
            assert(f.push(s.last()).drop_last() =~= f);
        } else {
            assert(s.filter(nonempty()) == f);
        }
    }
}

/// Keys of the states of the automaton lie between 0 and the number of blocks.
proof fn lemma_key_range(d: &DFA, p: Seq<Seq<usize>>, q: usize, t: int)
    ensures
        0 <= split_key(d, p, q, t) <= p.len(),
{
    if d.target(q, d.letters@[t]@) is Some {
        lemma_first_block_range(p, d.target(q, d.letters@[t]@)->0, 0);
    }
}

proof fn lemma_first_block_range(p: Seq<Seq<usize>>, v: usize, i: int)
    ensures
        0 <= first_block_from(p, v, i) <= p.len(),
    decreases p.len() - i,
{
    if 0 <= i < p.len() && !p[i].contains(v) {
        lemma_first_block_range(p, v, i + 1);
    }
}

/// The sizes of the first `kk` buckets.
spec fn bucket_sizes(d: &DFA, p: Seq<Seq<usize>>, b: Seq<usize>, t: int, kk: int) -> int
    decreases kk,
{
    if kk <= 0 {
        0
    } else {
        bucket_sizes(d, p, b, t, kk - 1) + bucket(d, p, b, t, kk - 1).len()
    }
}

proof fn lemma_bucket_sizes_push(d: &DFA, p: Seq<Seq<usize>>, b: Seq<usize>, t: int, x: usize, kk: int)
    requires
        0 <= kk,
    ensures
        bucket_sizes(d, p, b.push(x), t, kk) == bucket_sizes(d, p, b, t, kk) + (if 0 <= split_key(d, p, x, t) < kk { 1int } else { 0int }),
    decreases kk,
{
    if kk > 0 {
        lemma_bucket_sizes_push(d, p, b, t, x, kk - 1);
        b.lemma_filter_push(x, key_is(d, p, t, kk - 1));
    }
}

/// Every state of `b` falls into exactly one bucket.
proof fn lemma_bucket_sizes(d: &DFA, p: Seq<Seq<usize>>, b: Seq<usize>, t: int)
    ensures
        bucket_sizes(d, p, b, t, p.len() + 1int) == b.len(),
    decreases b.len(),
{
    if b.len() == 0 {
        lemma_bucket_sizes_empty(d, p, b, t, p.len() + 1int);
    } else {
        let c = b.drop_last();
        assert(c.push(b.last()) =~= b);
        lemma_bucket_sizes(d, p, c, t);
        lemma_bucket_sizes_push(d, p, c, t, b.last(), p.len() + 1int);
        lemma_key_range(d, p, b.last(), t);
    }
}

proof fn lemma_bucket_sizes_empty(d: &DFA, p: Seq<Seq<usize>>, b: Seq<usize>, t: int, kk: int)
    requires
        b.len() == 0,
    ensures
        bucket_sizes(d, p, b, t, kk) == 0,
    decreases kk,
{
    reveal(Seq::filter);
    if kk > 0 {
        lemma_bucket_sizes_empty(d, p, b, t, kk - 1);
    }
}

proof fn lemma_total_len_buckets(d: &DFA, p: Seq<Seq<usize>>, b: Seq<usize>, t: int, kk: int)
    requires
        0 <= kk <= p.len() + 1,
    ensures
        total_len(Seq::new((p.len() + 1int) as nat, |k: int| bucket(d, p, b, t, k)).take(kk)) == bucket_sizes(d, p, b, t, kk),
    decreases kk,
{
    let s = Seq::new((p.len() + 1int) as nat, |k: int| bucket(d, p, b, t, k));
    if kk > 0 {
        lemma_total_len_buckets(d, p, b, t, kk - 1);
        assert(s.take(kk).drop_last() =~= s.take(kk - 1));
    }
}

/// The pieces of a block hold its states: as many in all as the block, each piece
/// non-empty.
pub proof fn lemma_pieces_total(d: &DFA, p: Seq<Seq<usize>>, b: Seq<usize>, t: int)
    ensures
        total_len(pieces_of(d, p, b, t)) == b.len(),
        forall|j: int| 0 <= j < pieces_of(d, p, b, t).len() ==> (#[trigger] pieces_of(d, p, b, t)[j]).len() > 0,
        spread(pieces_of(d, p, b, t)) == b.len() - pieces_of(d, p, b, t).len(),
{
    let s = Seq::new((p.len() + 1int) as nat, |k: int| bucket(d, p, b, t, k));
    lemma_total_len_buckets(d, p, b, t, p.len() + 1int);
    assert(s.take(p.len() + 1int) =~= s);
    lemma_bucket_sizes(d, p, b, t);
    lemma_total_len_filter(s);
    assert forall|j: int| 0 <= j < pieces_of(d, p, b, t).len() implies (#[trigger] pieces_of(d, p, b, t)[j]).len() > 0 by {
        s.lemma_filter_pred(nonempty(), j);
    }
    lemma_spread_nonempty(pieces_of(d, p, b, t));
}

/// Whether `v` lists `x`.
fn holds(v: &Vec<usize>, x: usize) -> (res: bool)
    ensures
        res == v@.contains(x),
{
    for i in 0..v.len()
        invariant
            forall|j: int| 0 <= j < i ==> v@[j] != x,
    {
        if v[i] == x {
            assert(v@[i as int] == x);
            return true;
        }
    }
    false
}

/// The first block that holds `v`, block 0 where none does.
fn find_block(blocks: &Vec<Vec<usize>>, v: usize) -> (res: usize)
    ensures
        res as int == first_block(blocks_view(blocks@), v),
        res <= blocks@.len(),
{
    let ghost p = blocks_view(blocks@);
    let mut i: usize = 0;
    while i < blocks.len()
        invariant
            p == blocks_view(blocks@),
            i <= blocks@.len(),
            forall|j: int| 0 <= j < i ==> !p[j].contains(v),
        decreases blocks@.len() - i,
    {
        assert(p[i as int] == blocks@[i as int]@);
        if holds(&blocks[i], v) {
            proof {
                lemma_first_block_skip(p, v, i as int);
            }
            return i;
        }
        i = i + 1;
    }
    proof {
        lemma_first_block_skip(p, v, i as int);
    }
    0
}

/// Past blocks that do not hold `v`, the search goes on where it stands.
proof fn lemma_first_block_skip(p: Seq<Seq<usize>>, v: usize, i: int)
    requires
        0 <= i <= p.len(),
        forall|j: int| 0 <= j < i ==> !p[j].contains(v),
    ensures
        first_block(p, v) == first_block_from(p, v, i),
    decreases i,
{
    if i > 0 {
        lemma_first_block_skip(p, v, i - 1);
    }
}

/// The key of state `q` under the `t`-th letter.
fn key_of(d: &DFA, blocks: &Vec<Vec<usize>>, q: usize, t: usize) -> (res: usize)
    requires
        q < d.edges@.len(),
        t < d.letters@.len(),
    ensures
        res as int == split_key(d, blocks_view(blocks@), q, t as int),
        res <= blocks@.len(),
{
    let x = d.letters[t].clone();
    match d.step_single(q, x) {
        Some(v) => find_block(blocks, v),
        None => blocks.len(),
    }
}

/// A copy of a list of states.
fn copy_states(v: &Vec<usize>) -> (res: Vec<usize>)
    ensures
        res@ == v@,
{
    let mut r: Vec<usize> = Vec::new();
    for i in 0..v.len()
        invariant
            r@ == v@.take(i as int),
    {
        r.push(v[i]);
        assert(r@ =~= v@.take(i + 1));
    }
    assert(v@.take(v@.len() as int) =~= v@);
    r
}

/// A copy of a list of blocks.
fn copy_blocks(v: &Vec<Vec<usize>>) -> (res: Vec<Vec<usize>>)
    ensures
        blocks_view(res@) == blocks_view(v@),
{
    let mut r: Vec<Vec<usize>> = Vec::new();
    for i in 0..v.len()
        invariant
            blocks_view(r@) == blocks_view(v@).take(i as int),
    {
        let c = copy_states(&v[i]);
        let ghost before = r@;
        r.push(c);
        assert(blocks_view(r@) =~= blocks_view(before).push(v@[i as int]@));
        assert(blocks_view(v@).take(i + 1) =~= blocks_view(v@).take(i as int).push(v@[i as int]@));
    }
    assert(blocks_view(v@).take(v@.len() as int) =~= blocks_view(v@));
    r
}

/// Every state listed in the blocks is below `n`.
pub open spec fn states_below(p: Seq<Seq<usize>>, n: nat) -> bool {
    forall|i: int, k: int| 0 <= i < p.len() && 0 <= k < p[i].len() ==> (#[trigger] p[i][k]) < n
}

/// The pieces of block `b` under the `t`-th letter.
fn pieces_for(d: &DFA, blocks: &Vec<Vec<usize>>, b: &Vec<usize>, t: usize) -> (res: Vec<Vec<usize>>)
    requires
        t < d.letters@.len(),
        forall|k: int| 0 <= k < b@.len() ==> #[trigger] b@[k] < d.edges@.len(),
    ensures
        blocks_view(res@) == pieces_of(d, blocks_view(blocks@), b@, t as int),
        states_below(blocks_view(res@), d.edges@.len()),
{
    let ghost p = blocks_view(blocks@);
    let ghost s = Seq::new((p.len() + 1int) as nat, |k: int| bucket(d, p, b@, t as int, k));
    let nb = blocks.len();
    let mut pieces: Vec<Vec<usize>> = Vec::new();
    let mut k: usize = 0;
    assert(s.take(0).filter(nonempty()) =~= blocks_view(pieces@)) by {
        reveal(Seq::filter);
    }
    loop
        invariant_except_break
            blocks_view(pieces@) == s.take(k as int).filter(nonempty()),
        invariant
            p == blocks_view(blocks@),
            nb == blocks@.len(),
            s == Seq::new((p.len() + 1int) as nat, |k: int| bucket(d, p, b@, t as int, k)),
            t < d.letters@.len(),
            forall|m: int| 0 <= m < b@.len() ==> #[trigger] b@[m] < d.edges@.len(),
            k <= nb,
            states_below(blocks_view(pieces@), d.edges@.len()),
        ensures
            blocks_view(pieces@) == s.filter(nonempty()),
            states_below(blocks_view(pieces@), d.edges@.len()),
        decreases nb - k,
    {
        let mut bk: Vec<usize> = Vec::new();
        let ghost pred = key_is(d, p, t as int, k as int);
        assert(b@.take(0) =~= Seq::<usize>::empty());
        assert(b@.take(0).filter(pred) =~= bk@) by {
            reveal(Seq::filter);
        }
        for j in 0..b.len()
            invariant
                p == blocks_view(blocks@),
                pred == key_is(d, p, t as int, k as int),
                t < d.letters@.len(),
                forall|m: int| 0 <= m < b@.len() ==> #[trigger] b@[m] < d.edges@.len(),
                bk@ == b@.take(j as int).filter(pred),
                forall|m: int| 0 <= m < bk@.len() ==> #[trigger] bk@[m] < d.edges@.len(),
        {
            let x = b[j];
            let kx = key_of(d, blocks, x, t);
            proof {
                assert(b@.take(j + 1) =~= b@.take(j as int).push(x));
                b@.take(j as int).lemma_filter_push(x, pred);
            }
            if kx == k {
                bk.push(x);
            }
        }
        assert(b@.take(b@.len() as int) =~= b@);
        assert(bk@ == s[k as int]);
        proof {
            assert(s.take(k + 1) =~= s.take(k as int).push(s[k as int]));
            s.take(k as int).lemma_filter_push(s[k as int], nonempty());
        }
        if bk.len() > 0 {
            let ghost before = pieces@;
            pieces.push(bk);
            assert(blocks_view(pieces@) =~= blocks_view(before).push(s[k as int]));
        }
        if k == nb {
            assert(s.take(k + 1) =~= s);
            break;
        }
        k = k + 1;
    }
    pieces
}

proof fn lemma_spread_nonneg(p: Seq<Seq<usize>>)
    ensures
        spread(p) >= 0,
    decreases p.len(),
{
    if p.len() > 0 {
        lemma_spread_nonneg(p.drop_last());
    }
}

/// One round of refinement: the rows of the blocks it splits, and the partition it leaves.
fn split_round(d: &DFA, blocks: &Vec<Vec<usize>>) -> (res: (Vec<SplitRow>, Vec<Vec<usize>>))
    requires
        states_below(blocks_view(blocks@), d.edges@.len()),
    ensures
        rows_view(res.0@) == round_rows(d, blocks_view(blocks@)),
        blocks_view(res.1@) == next_partition(d, blocks_view(blocks@)),
        states_below(blocks_view(res.1@), d.edges@.len()),
        res.0@.len() > 0 ==> spread(blocks_view(res.1@)) < spread(blocks_view(blocks@)),
{
    let ghost p = blocks_view(blocks@);
    let mut rows: Vec<SplitRow> = Vec::new();
    let mut next: Vec<Vec<usize>> = Vec::new();
    assert(blocks_view(next@) =~= next_upto(d, p, 0));
    assert(rows_view(rows@) =~= round_rows_upto(d, p, 0));
    for i in 0..blocks.len()
        invariant
            p == blocks_view(blocks@),
            states_below(p, d.edges@.len()),
            rows_view(rows@) == round_rows_upto(d, p, i as int),
            blocks_view(next@) == next_upto(d, p, i as int),
            states_below(blocks_view(next@), d.edges@.len()),
            spread(blocks_view(next@)) + rows@.len() <= spread(p.take(i as int)),
    {
        let b = &blocks[i];
        assert(b@ == p[i as int]);
        assert(forall|k: int| 0 <= k < b@.len() ==> #[trigger] b@[k] < d.edges@.len()) by {
            assert forall|k: int| 0 <= k < b@.len() implies #[trigger] b@[k] < d.edges@.len() by {
                assert(p[i as int][k] == b@[k]);
            }
        }
        let mut t: usize = 0;
        let mut found: Option<Vec<Vec<usize>>> = None;
        while t < d.letters.len()
            invariant_except_break
                found is None,
                split_letter(d, p, b@) == split_letter_from(d, p, b@, t as int),
            invariant
                p == blocks_view(blocks@),
                b@ == p[i as int],
                forall|k: int| 0 <= k < b@.len() ==> #[trigger] b@[k] < d.edges@.len(),
                t <= d.letters@.len(),
            ensures
                match found {
                    Some(ps) => split_letter(d, p, b@) is Some && ps@.len() != 1 && blocks_view(ps@) == pieces_of(d, p, b@, split_letter(d, p, b@)->0)
                        && states_below(blocks_view(ps@), d.edges@.len()),
                    None => split_letter(d, p, b@) is None,
                },
            decreases d.letters@.len() - t,
        {
            let ps = pieces_for(d, blocks, b, t);
            if ps.len() != 1 {
                found = Some(ps);
                break;
            }
            t = t + 1;
        }
        let ghost n0 = blocks_view(next@);
        let ghost r0 = rows_view(rows@);
        assert(p.take(i + 1).drop_last() =~= p.take(i as int));
        assert(p.take(i + 1).last() == p[i as int]);
        match found {
            Some(ps) => {
                let ghost tt = split_letter(d, p, b@)->0;
                proof {
                    lemma_pieces_total(d, p, b@, tt);
                    lemma_spread_concat(n0, blocks_view(ps@));
                }
                for j in 0..ps.len()
                    invariant
                        blocks_view(next@) == n0 + blocks_view(ps@).take(j as int),
                        states_below(blocks_view(next@), d.edges@.len()),
                        states_below(blocks_view(ps@), d.edges@.len()),
                        states_below(n0, d.edges@.len()),
                {
                    let c = copy_states(&ps[j]);
                    let ghost before = next@;
                    next.push(c);
                    assert(blocks_view(next@) =~= blocks_view(before).push(ps@[j as int]@));
                    assert(blocks_view(ps@).take(j + 1) =~= blocks_view(ps@).take(j as int).push(ps@[j as int]@));
                    assert(blocks_view(next@) =~= n0 + blocks_view(ps@).take(j + 1));
                }
                assert(blocks_view(ps@).take(ps@.len() as int) =~= blocks_view(ps@));
                proof {
                    let pv = blocks_view(ps@);
                    lemma_spread_nonneg(pv);
                    assert(spread(p.take(i + 1)) == spread(p.take(i as int)) + (if p[i as int].len() == 0 { 1int } else { p[i as int].len() - 1 }));
                    assert(pv.len() != 1);
                    if pv.len() == 0 {
                        assert(total_len(pv) == 0);
                    }
                    assert(spread(blocks_view(next@)) == spread(n0) + spread(pv));
                }
                let blk = copy_states(b);
                rows.push(SplitRow { block: blk, pieces: ps });
                assert(rows_view(rows@) =~= r0.push((p[i as int], pieces_of(d, p, p[i as int], tt))));
            },
            None => {
                let c = copy_states(b);
                next.push(c);
                assert(blocks_view(next@) =~= n0.push(p[i as int]));
                assert(n0.push(p[i as int]).drop_last() =~= n0);
            },
        }
    }
    assert(p.take(blocks@.len() as int) =~= p);
    proof {
        if rows@.len() == 0 {
            lemma_round_unchanged(d, p, p.len() as int);
        }
    }
    (rows, next)
}

/// A round that splits nothing leaves the partition as it was.
proof fn lemma_round_unchanged(d: &DFA, p: Seq<Seq<usize>>, i: int)
    requires
        0 <= i <= p.len(),
        round_rows_upto(d, p, i).len() == 0,
    ensures
        next_upto(d, p, i) == p.take(i),
    decreases i,
{
    if i > 0 {
        lemma_rows_prefix_empty(d, p, i);
        lemma_round_unchanged(d, p, i - 1);
        assert(p.take(i) =~= p.take(i - 1).push(p[i - 1]));
    } else {
        assert(p.take(0) =~= Seq::<Seq<usize>>::empty());
    }
}

proof fn lemma_rows_prefix_empty(d: &DFA, p: Seq<Seq<usize>>, i: int)
    requires
        0 < i <= p.len(),
        round_rows_upto(d, p, i).len() == 0,
    ensures
        round_rows_upto(d, p, i - 1).len() == 0,
        split_letter(d, p, p[i - 1]) is None,
{
}

impl DFA {
    /// The rounds in which the blocks of states are split until no letter tells the
    /// states of a block apart: the first round starts from the final states and the
    /// others; in each round every block that some letter splits is replaced by its
    /// pieces under the first such letter; the last round splits nothing.
    pub fn split_history(&self) -> (res: Vec<SplitRound>)
        requires
            forall|i: int| 0 <= i < self.end@.len() ==> #[trigger] self.end@[i] < self.edges@.len(),
        ensures
            res@.len() > 0,
            blocks_view(res@[0].blocks@) == initial_partition(self),
            forall|r: int| 0 <= r < res@.len() ==> #[trigger] rows_view(res@[r].rows@) == round_rows(self, blocks_view(res@[r].blocks@)),
            forall|r: int| 0 <= r < res@.len() - 1 ==> (#[trigger] res@[r]).rows@.len() > 0
                && blocks_view(res@[r + 1].blocks@) == next_partition(self, blocks_view(res@[r].blocks@)),
            res@.last().rows@.len() == 0,
    {
        let n = self.edges.len();
        let ghost all = Seq::new(n as nat, |q: int| q as usize);
        let ghost pe = |q: usize| self.end@.contains(q);
        let ghost po = |q: usize| !self.end@.contains(q);
        let mut e: Vec<usize> = Vec::new();
        let mut o: Vec<usize> = Vec::new();
        assert(all.take(0).filter(pe) =~= e@ && all.take(0).filter(po) =~= o@) by {
            reveal(Seq::filter);
        }
        for q in 0..n
            invariant
                n == self.edges@.len(),
                all == Seq::new(n as nat, |q: int| q as usize),
                pe == (|q: usize| self.end@.contains(q)),
                po == (|q: usize| !self.end@.contains(q)),
                e@ == all.take(q as int).filter(pe),
                o@ == all.take(q as int).filter(po),
                forall|k: int| 0 <= k < e@.len() ==> #[trigger] e@[k] < n,
                forall|k: int| 0 <= k < o@.len() ==> #[trigger] o@[k] < n,
        {
            proof {
                assert(all.take(q + 1) =~= all.take(q as int).push(q));
                all.take(q as int).lemma_filter_push(q, pe);
                all.take(q as int).lemma_filter_push(q, po);
            }
            if holds(&self.end, q) {
                e.push(q);
            } else {
                o.push(q);
            }
        }
        assert(all.take(n as int) =~= all);
        let mut cur: Vec<Vec<usize>> = Vec::new();
        let both_empty = e.len() == 0 && o.len() == 0;
        cur.push(e);
        if !both_empty {
            cur.push(o);
        }
        assert(blocks_view(cur@) =~= initial_partition(self));
        let mut rounds: Vec<SplitRound> = Vec::new();
        loop
            invariant_except_break
                rounds@.len() == 0 ==> blocks_view(cur@) == initial_partition(self),
                rounds@.len() > 0 ==> blocks_view(rounds@[0].blocks@) == initial_partition(self),
                rounds@.len() > 0 ==> rounds@.last().rows@.len() > 0
                    && blocks_view(cur@) == next_partition(self, blocks_view(rounds@.last().blocks@)),
                forall|r: int| 0 <= r < rounds@.len() ==> #[trigger] rows_view(rounds@[r].rows@) == round_rows(self, blocks_view(rounds@[r].blocks@)),
                forall|r: int| 0 <= r < rounds@.len() - 1 ==> (#[trigger] rounds@[r]).rows@.len() > 0
                    && blocks_view(rounds@[r + 1].blocks@) == next_partition(self, blocks_view(rounds@[r].blocks@)),
            invariant
                states_below(blocks_view(cur@), self.edges@.len()),
            ensures
                rounds@.len() > 0,
                blocks_view(rounds@[0].blocks@) == initial_partition(self),
                forall|r: int| 0 <= r < rounds@.len() ==> #[trigger] rows_view(rounds@[r].rows@) == round_rows(self, blocks_view(rounds@[r].blocks@)),
                forall|r: int| 0 <= r < rounds@.len() - 1 ==> (#[trigger] rounds@[r]).rows@.len() > 0
                    && blocks_view(rounds@[r + 1].blocks@) == next_partition(self, blocks_view(rounds@[r].blocks@)),
                rounds@.last().rows@.len() == 0,
            decreases spread(blocks_view(cur@)),
        {
            proof {
                lemma_spread_nonneg(blocks_view(cur@));
            }
            let (rows, next) = split_round(self, &cur);
            let done = rows.len() == 0;
            let ghost cur_v = blocks_view(cur@);
            let ghost old_rounds = rounds@;
            rounds.push(SplitRound { blocks: cur, rows });
            assert(rounds@.last().blocks@ == rounds@[rounds@.len() - 1].blocks@);
            assert forall|r: int| 0 <= r < rounds@.len() - 1 implies (#[trigger] rounds@[r]).rows@.len() > 0
                && blocks_view(rounds@[r + 1].blocks@) == next_partition(self, blocks_view(rounds@[r].blocks@)) by {
                assert(rounds@[r] == old_rounds[r]);
                if r + 1 < old_rounds.len() {
                    assert(rounds@[r + 1] == old_rounds[r + 1]);
                }
            }
            assert forall|r: int| 0 <= r < rounds@.len() implies #[trigger] rows_view(rounds@[r].rows@) == round_rows(self, blocks_view(rounds@[r].blocks@)) by {
                if r < old_rounds.len() {
                    assert(rounds@[r] == old_rounds[r]);
                }
            }
            if done {
                assert(rounds@[0].blocks@ == (if old_rounds.len() > 0 { old_rounds[0].blocks@ } else { rounds@[0].blocks@ }));
                break;
            }
            assert(spread(blocks_view(next@)) < spread(cur_v));
            proof {
                lemma_spread_nonneg(blocks_view(next@));
            }
            cur = next;
            assert(spread(blocks_view(cur@)) < spread(cur_v));
        }
        rounds
    }
}

} // verus!
