use vstd::prelude::*;
use super::letter::{Letter, SpecLetter};
use super::rule::str_chars;

verus! {

/// `lt` is a strict total order: irreflexive, transitive, and any two different values
/// are comparable.
pub open spec fn strict_total<T>(lt: spec_fn(T, T) -> bool) -> bool {
    &&& forall|a: T| !(#[trigger] lt(a, a))
    &&& forall|a: T, b: T, c: T| #[trigger] lt(a, b) && #[trigger] lt(b, c) ==> lt(a, c)
    &&& forall|a: T, b: T| a != b ==> #[trigger] lt(a, b) || #[trigger] lt(b, a)
}

/// The lexicographic order on sequences: the first differing element decides, and a
/// proper prefix comes first.
pub open spec fn lex_lt<T>(a: Seq<T>, b: Seq<T>, lt: spec_fn(T, T) -> bool) -> bool
    decreases a.len(),
{
    if a.len() == 0 {
        b.len() > 0
    } else if b.len() == 0 {
        false
    } else if a[0] == b[0] {
        lex_lt(a.drop_first(), b.drop_first(), lt)
    } else {
        lt(a[0], b[0])
    }
}

/// No element of `s` comes before an earlier one.
pub open spec fn sorted_by<T>(s: Seq<T>, lt: spec_fn(T, T) -> bool) -> bool {
    forall|i: int, j: int| 0 <= i < j < s.len() ==> !lt(#[trigger] s[j], #[trigger] s[i])
}

/// Putting `x` at `pos` keeps a sorted sequence sorted when everything before `pos`
/// comes no later than `x` and `x` comes before what stands at `pos`.
pub proof fn lemma_insert_sorted<T>(s: Seq<T>, pos: int, x: T, lt: spec_fn(T, T) -> bool)
    requires
        strict_total(lt),
        sorted_by(s, lt),
        0 <= pos <= s.len(),
        forall|k: int| 0 <= k < pos ==> !lt(x, #[trigger] s[k]),
        pos < s.len() ==> lt(x, s[pos]),
    ensures
        sorted_by(s.insert(pos, x), lt),
{
    let n = s.insert(pos, x);
    assert forall|i: int, j: int| 0 <= i < j < n.len() implies !lt(#[trigger] n[j], #[trigger] n[i]) by {
        if j < pos {
            assert(n[i] == s[i] && n[j] == s[j]);
        } else if j == pos {
            assert(n[i] == s[i]);
        } else if i == pos {
            assert(n[j] == s[j - 1]);
            if j - 1 > pos {
                assert(!lt(s[j - 1], s[pos]));
                if s[j - 1] != s[pos] {
                    assert(lt(s[pos], s[j - 1]));
                }
            }
            assert(lt(x, s[j - 1]));
            if lt(s[j - 1], x) {
                assert(lt(x, x));
            }
        } else if i < pos {
            assert(n[i] == s[i] && n[j] == s[j - 1]);
            assert(!lt(s[j - 1], s[i]));
        } else {
            assert(n[i] == s[i - 1] && n[j] == s[j - 1]);
        }
    }
}

/// Two sequences with the same elements, counted with multiplicity, hold the same set,
/// and one has no duplicates exactly when the other has none.
pub proof fn lemma_same_multiset<T>(a: Seq<T>, b: Seq<T>)
    requires
        a.to_multiset() == b.to_multiset(),
    ensures
        a.to_set() == b.to_set(),
        a.no_duplicates() ==> b.no_duplicates(),
        b.no_duplicates() ==> a.no_duplicates(),
{
    broadcast use vstd::seq_lib::group_to_multiset_ensures;
    assert forall|x: T| a.to_set().contains(x) <==> b.to_set().contains(x) by {
        assert(a.contains(x) <==> a.to_multiset().count(x) > 0);
        assert(b.contains(x) <==> b.to_multiset().count(x) > 0);
    }
    assert(a.to_set() =~= b.to_set());
    if a.no_duplicates() {
        a.lemma_multiset_has_no_duplicates();
        b.lemma_multiset_has_no_duplicates_conv();
    }
    if b.no_duplicates() {
        b.lemma_multiset_has_no_duplicates();
        a.lemma_multiset_has_no_duplicates_conv();
    }
}

proof fn lemma_lex_irrefl<T>(a: Seq<T>, lt: spec_fn(T, T) -> bool)
    ensures
        !lex_lt(a, a, lt),
    decreases a.len(),
{
    if a.len() > 0 {
        lemma_lex_irrefl(a.drop_first(), lt);
    }
}

proof fn lemma_lex_trans<T>(a: Seq<T>, b: Seq<T>, c: Seq<T>, lt: spec_fn(T, T) -> bool)
    requires
        strict_total(lt),
        lex_lt(a, b, lt),
        lex_lt(b, c, lt),
    ensures
        lex_lt(a, c, lt),
    decreases a.len(),
{
    if a.len() > 0 && b.len() > 0 && c.len() > 0 {
        if a[0] == b[0] && b[0] == c[0] {
            lemma_lex_trans(a.drop_first(), b.drop_first(), c.drop_first(), lt);
        } else if a[0] != b[0] && b[0] != c[0] {
            assert(lt(a[0], b[0]) && lt(b[0], c[0]));
            assert(lt(a[0], c[0]));
            if a[0] == c[0] {
                assert(!lt(a[0], a[0]));
            }
        }
    }
}

proof fn lemma_lex_total<T>(a: Seq<T>, b: Seq<T>, lt: spec_fn(T, T) -> bool)
    requires
        strict_total(lt),
        a != b,
    ensures
        lex_lt(a, b, lt) || lex_lt(b, a, lt),
    decreases a.len(),
{
    if a.len() > 0 && b.len() > 0 {
        if a[0] == b[0] {
            if a.drop_first() == b.drop_first() {
                assert(a =~= seq![a[0]] + a.drop_first());
                assert(b =~= seq![b[0]] + b.drop_first());
            }
            lemma_lex_total(a.drop_first(), b.drop_first(), lt);
        } else {
            assert(lt(a[0], b[0]) || lt(b[0], a[0]));
        }
    } else if a.len() == 0 && b.len() == 0 {
        assert(a =~= b);
    }
}

/// The lexicographic order built on a strict total order is one too.
pub proof fn lemma_lex_strict_total<T>(lt: spec_fn(T, T) -> bool)
    requires
        strict_total(lt),
    ensures
        strict_total(|a: Seq<T>, b: Seq<T>| lex_lt(a, b, lt)),
{
    let l = |a: Seq<T>, b: Seq<T>| lex_lt(a, b, lt);
    assert forall|a: Seq<T>| !(#[trigger] l(a, a)) by {
        lemma_lex_irrefl(a, lt);
    }
    assert forall|a: Seq<T>, b: Seq<T>, c: Seq<T>| #[trigger] l(a, b) && #[trigger] l(b, c) implies l(a, c) by {
        lemma_lex_trans(a, b, c, lt);
    }
    assert forall|a: Seq<T>, b: Seq<T>| a != b implies #[trigger] l(a, b) || #[trigger] l(b, a) by {
        lemma_lex_total(a, b, lt);
    }
}

/// With equal first `i` elements, the order is decided by what follows them.
proof fn lemma_lex_skip<T>(a: Seq<T>, b: Seq<T>, i: int, lt: spec_fn(T, T) -> bool)
    requires
        0 <= i < a.len(),
        i < b.len(),
        a[i] == b[i],
    ensures
        lex_lt(a.skip(i), b.skip(i), lt) == lex_lt(a.skip(i + 1), b.skip(i + 1), lt),
{
    assert(a.skip(i).drop_first() =~= a.skip(i + 1));
    assert(b.skip(i).drop_first() =~= b.skip(i + 1));
}

/// Characters ordered by their code points, as `char`'s `Ord` orders them.
pub open spec fn char_lt() -> spec_fn(char, char) -> bool {
    |a: char, b: char| (a as int) < (b as int)
}

/// Names ordered as `String`'s `Ord` orders them: lexicographically by code point.
pub open spec fn name_lt(a: Seq<char>, b: Seq<char>) -> bool {
    lex_lt(a, b, char_lt())
}

/// The position of a symbol's kind in the declaration of `Letter`.
pub open spec fn letter_rank(l: SpecLetter) -> int {
    match l {
        SpecLetter::NonTerminal(_) => 0,
        SpecLetter::Terminal(_) => 1,
        SpecLetter::Empty => 2,
        SpecLetter::EndSign => 3,
    }
}

/// The name of a symbol that has one.
pub open spec fn letter_name(l: SpecLetter) -> Seq<char> {
    match l {
        SpecLetter::NonTerminal(s) => s,
        SpecLetter::Terminal(s) => s,
        _ => seq![],
    }
}

/// Symbols ordered as the derived `Ord` of `Letter` orders them: by kind in the order
/// of declaration, then by name.
pub open spec fn letter_lt(a: SpecLetter, b: SpecLetter) -> bool {
    letter_rank(a) < letter_rank(b) || (letter_rank(a) == letter_rank(b) && name_lt(letter_name(a), letter_name(b)))
}

/// Sequences of symbols ordered lexicographically, as the derived `Ord` of `Vec<Letter>`.
pub open spec fn letters_lt(a: Seq<SpecLetter>, b: Seq<SpecLetter>) -> bool {
    lex_lt(a, b, letter_order())
}

/// `letter_lt` as a function value.
pub open spec fn letter_order() -> spec_fn(SpecLetter, SpecLetter) -> bool {
    |x: SpecLetter, y: SpecLetter| letter_lt(x, y)
}

/// `letters_lt` as a function value.
pub open spec fn letters_order() -> spec_fn(Seq<SpecLetter>, Seq<SpecLetter>) -> bool {
    |x: Seq<SpecLetter>, y: Seq<SpecLetter>| letters_lt(x, y)
}

pub proof fn lemma_char_strict_total()
    ensures
        strict_total(char_lt()),
{
    assert forall|a: char, b: char| a != b implies #[trigger] char_lt()(a, b) || #[trigger] char_lt()(b, a) by {
        assert((a as int) != (b as int));
    }
}

/// The order on symbols is a strict total order.
pub proof fn lemma_letter_strict_total()
    ensures
        strict_total(letter_order()),
{
    lemma_char_strict_total();
    lemma_lex_strict_total(char_lt());
    let n = |a: Seq<char>, b: Seq<char>| lex_lt(a, b, char_lt());
    assert(strict_total(n));
    let l = letter_order();
    assert forall|a: SpecLetter| !(#[trigger] l(a, a)) by {
        assert(!n(letter_name(a), letter_name(a)));
    }
    assert forall|a: SpecLetter, b: SpecLetter, c: SpecLetter| #[trigger] l(a, b) && #[trigger] l(b, c) implies l(a, c) by {
        if letter_rank(a) == letter_rank(b) && letter_rank(b) == letter_rank(c) {
            assert(n(letter_name(a), letter_name(b)) && n(letter_name(b), letter_name(c)));
            assert(n(letter_name(a), letter_name(c)));
        }
    }
    assert forall|a: SpecLetter, b: SpecLetter| a != b implies #[trigger] l(a, b) || #[trigger] l(b, a) by {
        if letter_rank(a) == letter_rank(b) {
            if letter_name(a) == letter_name(b) {
                assert(a == b);
            }
            assert(n(letter_name(a), letter_name(b)) || n(letter_name(b), letter_name(a)));
        }
    }
}

/// The order on sequences of symbols is a strict total order.
pub proof fn lemma_letters_strict_total()
    ensures
        strict_total(letters_order()),
{
    let l = letter_order();
    lemma_letter_strict_total();
    lemma_lex_strict_total(l);
    let m = |a: Seq<SpecLetter>, b: Seq<SpecLetter>| lex_lt(a, b, l);
    assert(strict_total(m));
    let s = letters_order();
    assert(forall|a: Seq<SpecLetter>, b: Seq<SpecLetter>| #[trigger] s(a, b) == m(a, b));
}

/// Compares two names: negative, zero or positive as `a` comes before, equals or comes
/// after `b`.
pub fn compare_names(a: &str, b: &str) -> (res: i8)
    ensures
        (res < 0) == name_lt(a@, b@),
        (res == 0) == (a@ == b@),
        (res > 0) == name_lt(b@, a@),
{
    proof {
        lemma_char_strict_total();
        lemma_lex_strict_total(char_lt());
    }
    let x = str_chars(a);
    let y = str_chars(b);
    let mut i: usize = 0;
    assert(x@.skip(0) =~= x@);
    assert(y@.skip(0) =~= y@);
    while i < x.len() && i < y.len()
        invariant
            i <= x@.len(),
            i <= y@.len(),
            x@ == a@,
            y@ == b@,
            x@.take(i as int) == y@.take(i as int),
            lex_lt(x@, y@, char_lt()) == lex_lt(x@.skip(i as int), y@.skip(i as int), char_lt()),
            lex_lt(y@, x@, char_lt()) == lex_lt(y@.skip(i as int), x@.skip(i as int), char_lt()),
        decreases x@.len() - i,
    {
        let c = x[i];
        let d = y[i];
        if c != d {
            assert(x@.take(i as int) + x@.skip(i as int) =~= x@);
            assert(y@.take(i as int) + y@.skip(i as int) =~= y@);
            assert(x@.skip(i as int)[0] == c && y@.skip(i as int)[0] == d);
            assert(x@[i as int] != y@[i as int]);
            if c < d {
                assert(char_lt()(c, d));
                return -1;
            } else {
                assert(char_lt()(d, c));
                return 1;
            }
        }
        proof {
            lemma_lex_skip(x@, y@, i as int, char_lt());
            lemma_lex_skip(y@, x@, i as int, char_lt());
            assert(x@.take(i + 1) =~= x@.take(i as int).push(c));
            assert(y@.take(i + 1) =~= y@.take(i as int).push(d));
        }
        i = i + 1;
    }
    assert(x@.take(i as int) + x@.skip(i as int) =~= x@);
    assert(y@.take(i as int) + y@.skip(i as int) =~= y@);
    if x.len() == y.len() {
        assert(x@ =~= x@.take(i as int));
        assert(y@ =~= y@.take(i as int));
        proof {
            lemma_lex_irrefl(x@, char_lt());
        }
        0
    } else if i == x.len() {
        assert(x@.skip(i as int).len() == 0);
        assert(x@ != y@);
        -1
    } else {
        assert(y@.skip(i as int).len() == 0);
        assert(x@ != y@);
        1
    }
}

fn letter_rank_of(l: &Letter) -> (res: u8)
    ensures
        res as int == letter_rank(l@),
{
    match l {
        Letter::NonTerminal(_) => 0,
        Letter::Terminal(_) => 1,
        Letter::Empty => 2,
        Letter::EndSign => 3,
    }
}

/// Compares two symbols as the derived `Ord` of `Letter` does.
pub fn compare_letters(a: &Letter, b: &Letter) -> (res: i8)
    ensures
        (res < 0) == letter_lt(a@, b@),
        (res == 0) == (a@ == b@),
        (res > 0) == letter_lt(b@, a@),
{
    let ra = letter_rank_of(a);
    let rb = letter_rank_of(b);
    if ra < rb {
        return -1;
    }
    if rb < ra {
        return 1;
    }
    proof {
        lemma_char_strict_total();
        lemma_lex_strict_total(char_lt());
    }
    match (a, b) {
        (Letter::NonTerminal(x), Letter::NonTerminal(y)) => compare_names(x.as_str(), y.as_str()),
        (Letter::Terminal(x), Letter::Terminal(y)) => compare_names(x.as_str(), y.as_str()),
        _ => {
            proof {
                lemma_lex_irrefl(letter_name(a@), char_lt());
            }
            0
        },
    }
}

/// Compares two sequences of symbols as the derived `Ord` of `Vec<Letter>` does.
pub fn compare_letter_seqs(a: &Vec<Letter>, b: &Vec<Letter>) -> (res: i8)
    ensures
        (res < 0) == letters_lt(super::letter::seq_view(a@), super::letter::seq_view(b@)),
        (res == 0) == (super::letter::seq_view(a@) == super::letter::seq_view(b@)),
        (res > 0) == letters_lt(super::letter::seq_view(b@), super::letter::seq_view(a@)),
{
    let ghost x = super::letter::seq_view(a@);
    let ghost y = super::letter::seq_view(b@);
    let ghost l = letter_order();
    proof {
        lemma_letter_strict_total();
        lemma_lex_strict_total(l);
        assert(x.skip(0) =~= x);
        assert(y.skip(0) =~= y);
    }
    let mut i: usize = 0;
    while i < a.len() && i < b.len()
        invariant
            i <= a@.len(),
            i <= b@.len(),
            x == super::letter::seq_view(a@),
            y == super::letter::seq_view(b@),
            l == letter_order(),
            strict_total(l),
            x.take(i as int) == y.take(i as int),
            lex_lt(x, y, l) == lex_lt(x.skip(i as int), y.skip(i as int), l),
            lex_lt(y, x, l) == lex_lt(y.skip(i as int), x.skip(i as int), l),
        decreases a@.len() - i,
    {
        let r = compare_letters(&a[i], &b[i]);
        assert(x[i as int] == a@[i as int]@ && y[i as int] == b@[i as int]@);
        if r != 0 {
            assert(x.skip(i as int)[0] == x[i as int] && y.skip(i as int)[0] == y[i as int]);
            assert(x.take(i as int) + x.skip(i as int) =~= x);
            assert(y.take(i as int) + y.skip(i as int) =~= y);
            assert(x[i as int] != y[i as int]);
            assert(x != y);
            if r < 0 {
                assert(l(x[i as int], y[i as int]));
            } else {
                assert(l(y[i as int], x[i as int]));
            }
            return r;
        }
        proof {
            lemma_lex_skip(x, y, i as int, l);
            lemma_lex_skip(y, x, i as int, l);
            assert(x.take(i + 1) =~= x.take(i as int).push(x[i as int]));
            assert(y.take(i + 1) =~= y.take(i as int).push(y[i as int]));
        }
        i = i + 1;
    }
    assert(x.take(i as int) + x.skip(i as int) =~= x);
    assert(y.take(i as int) + y.skip(i as int) =~= y);
    if a.len() == b.len() {
        assert(x =~= x.take(i as int));
        assert(y =~= y.take(i as int));
        proof {
            lemma_lex_irrefl(x, l);
        }
        0
    } else if i == a.len() {
        assert(x.skip(i as int).len() == 0);
        assert(x.len() != y.len());
        -1
    } else {
        assert(y.skip(i as int).len() == 0);
        assert(x.len() != y.len());
        1
    }
}

} // verus!
