use vstd::prelude::*;
use crate::grammar::letter::{Letter, spec_letter_display};
use crate::automaton::nfa::ascending;

verus! {

/// The decimal digit `d`.
pub open spec fn digit_char(d: nat) -> char {
    if d == 0 { '0' } else if d == 1 { '1' } else if d == 2 { '2' } else if d == 3 { '3' } else if d == 4 { '4' }
    else if d == 5 { '5' } else if d == 6 { '6' } else if d == 7 { '7' } else if d == 8 { '8' } else { '9' }
}

/// `n` written in decimal.
pub open spec fn decimal(n: nat) -> Seq<char>
    decreases n,
{
    if n < 10 {
        seq![digit_char(n)]
    } else {
        decimal(n / 10).push(digit_char(n % 10))
    }
}

/// A value with a printed form.
pub trait Shown {
    /// The printed form.
    spec fn shown_spec(&self) -> Seq<char>;

    /// Prints the value.
    fn shown(&self) -> (res: String)
        ensures
            res@ == self.shown_spec(),
    ;
}

fn digit(d: usize) -> (res: char)
    requires
        d < 10,
    ensures
        res == digit_char(d as nat),
{
    if d == 0 { '0' } else if d == 1 { '1' } else if d == 2 { '2' } else if d == 3 { '3' } else if d == 4 { '4' }
    else if d == 5 { '5' } else if d == 6 { '6' } else if d == 7 { '7' } else if d == 8 { '8' } else { '9' }
}

impl Shown for usize {
    open spec fn shown_spec(&self) -> Seq<char> {
        decimal(*self as nat)
    }

    fn shown(&self) -> (res: String) {
        let mut rev: Vec<char> = Vec::new();
        let mut n: usize = *self;
        let ghost mut tail: Seq<char> = seq![];
        while n >= 10
            invariant
                decimal(*self as nat) == decimal(n as nat) + tail,
                rev@ == tail.reverse(),
            decreases n,
        {
            let ghost n0 = n;
            let d = n % 10;
            rev.push(digit(d));
            n = n / 10;
            proof {
                assert(decimal(n0 as nat) == decimal(n as nat).push(digit_char(d as nat)));
                assert(decimal(n as nat).push(digit_char(d as nat)) + tail =~= decimal(n as nat) + (seq![digit_char(d as nat)] + tail));
                assert((seq![digit_char(d as nat)] + tail).reverse() =~= tail.reverse().push(digit_char(d as nat)));
                tail = seq![digit_char(d as nat)] + tail;
            }
        }
        rev.push(digit(n));
        proof {
            assert(decimal(n as nat) == seq![digit_char(n as nat)]);
            assert((seq![digit_char(n as nat)] + tail).reverse() =~= tail.reverse().push(digit_char(n as nat)));
        }
        let ghost all = seq![digit_char(n as nat)] + tail;
        assert(rev@ == all.reverse());
        assert(decimal(*self as nat) =~= all);
        let mut out: Vec<char> = Vec::new();
        let mut i = rev.len();
        while i > 0
            invariant
                i <= rev@.len(),
                rev@ == all.reverse(),
                out@ == all.take(rev@.len() - i),
            decreases i,
        {
            i = i - 1;
            out.push(rev[i]);
            assert(out@ =~= all.take(rev@.len() - i));
        }
        assert(out@ =~= all);
        crate::grammar::rule::string_from_chars(out)
    }
}

impl Shown for Letter {
    open spec fn shown_spec(&self) -> Seq<char> {
        spec_letter_display(self@)
    }

    fn shown(&self) -> (res: String) {
        self.to_string()
    }
}

/// The printed forms of the values, with `split` between them.
pub open spec fn joined<T: Shown>(v: Seq<T>, split: Seq<char>) -> Seq<char>
    decreases v.len(),
{
    if v.len() == 0 {
        seq![]
    } else if v.len() == 1 {
        v[0].shown_spec()
    } else {
        joined(v.drop_last(), split) + split + v.last().shown_spec()
    }
}

/// The printed forms of the values with `split` between them.
pub fn vec_to_string<T: Shown>(v: &[T], split: &str) -> (res: String)
    ensures
        res@ == joined(v@, split@),
{
    let mut s = String::new();
    for i in 0..v.len()
        invariant
            s@ == joined(v@.take(i as int), split@),
    {
        assert(v@.take(i + 1).drop_last() =~= v@.take(i as int));
        assert(v@.take(i + 1).last() == v@[i as int]);
        if i > 0 {
            s.append(split);
        } else {
            assert(s@ =~= Seq::<char>::empty());
        }
        let t = v[i].shown();
        s.append(t.as_str());
        proof {
            if i == 0 {
                assert(v@.take(1)[0] == v@[0]);
            }
        }
    }
    assert(v@.take(v@.len() as int) =~= v@);
    s
}

/// The values as a set: `{}` for none, else `{` and `}` around them with `, ` between.
pub fn vec_to_set_string<T: Shown>(v: &Vec<T>) -> (res: String)
    ensures
        v@.len() == 0 ==> res@ == seq!['{', '}'],
        v@.len() > 0 ==> res@ == seq!['{'] + joined(v@, seq![',', ' ']) + seq!['}'],
{
    let sep = String::from_str(", ");
    let inner = vec_to_string(v.as_slice(), sep.as_str());
    proof {
        reveal_strlit(", ");
    }
    let mut s = String::from_str("{");
    proof {
        reveal_strlit("{");
    }
    if v.len() > 0 {
        s.append(inner.as_str());
    }
    s.append("}");
    proof {
        reveal_strlit("}");
        assert(sep@ =~= seq![',', ' ']);
        if v@.len() == 0 {
            assert(s@ =~= seq!['{', '}']);
        } else {
            assert(s@ =~= seq!['{'] + joined(v@, seq![',', ' ']) + seq!['}']);
        }
    }
    s
}

/// The distinct values in increasing order, in braces with `split` between them (`{}`
/// for none).
pub fn hash_set_to_sorted_str(v: &Vec<usize>, split: &str) -> (res: String)
    ensures
        exists|s: Seq<usize>| ascending(s) && s.no_duplicates() && s.to_set() == v@.to_set() && res@ == (
            if s.len() == 0 { seq!['{', '}'] } else { seq!['{'] + joined(s, split@) + seq!['}'] }),
{
    let mut sorted: Vec<usize> = v.clone();
    assert(sorted@ =~= v@);
    crate::automaton::nfa::sort_indices(&mut sorted);
    let mut uniq: Vec<usize> = Vec::new();
    for i in 0..sorted.len()
        invariant
            ascending(sorted@),
            ascending(uniq@),
            uniq@.no_duplicates(),
            uniq@.to_set() == sorted@.take(i as int).to_set(),
            uniq@.len() > 0 ==> i > 0 && uniq@.last() == sorted@[i - 1],
            i > 0 ==> uniq@.len() > 0,
    {
        let x = sorted[i];
        let ghost u0 = uniq@;
        proof {
            assert(sorted@.take(i + 1) =~= sorted@.take(i as int).push(x));
            sorted@.take(i as int).lemma_push_to_set_commute(x);
        }
        if uniq.len() == 0 || uniq[uniq.len() - 1] != x {
            proof {
                if u0.len() > 0 {
                    assert(sorted@[i - 1] <= x);
                    assert forall|k: int| 0 <= k < u0.len() implies u0[k] < x by {
                        if k < u0.len() - 1 {
                            assert(u0[k] <= u0[u0.len() - 1]);
                            assert(u0[k] != u0[u0.len() - 1]);
                        }
                    }
                }
                assert(!u0.contains(x)) by {
                    if u0.contains(x) {
                        let k = choose|k: int| 0 <= k < u0.len() && u0[k] == x;
                    }
                }
                crate::utils::lemma_push_no_dup(u0, x);
            }
            uniq.push(x);
            proof {
                u0.lemma_push_to_set_commute(x);
                assert forall|a: int, b: int| 0 <= a < b < uniq@.len() implies uniq@[a] <= uniq@[b] by {
                    if b == uniq@.len() - 1 && a < b {
                        if u0.len() > 0 {
                            assert(u0[a] <= u0[u0.len() - 1] || a == u0.len() - 1);
                            assert(sorted@[i - 1] <= x);
                        }
                    }
                }
            }
        } else {
            proof {
                assert(u0.to_set().contains(x)) by {
                    assert(u0[u0.len() - 1] == x);
                }
                assert(uniq@.to_set() =~= sorted@.take(i + 1).to_set());
            }
        }
    }
    assert(sorted@.take(sorted@.len() as int) =~= sorted@);
    proof {
        assert(sorted@.to_set() =~= v@.to_set()) by {
            assert forall|x: usize| sorted@.to_set().contains(x) <==> v@.to_set().contains(x) by {
                assert(sorted@.to_multiset().count(x) == v@.to_multiset().count(x));
                sorted@.to_multiset_ensures();
                v@.to_multiset_ensures();
            }
        }
    }
    let inner = vec_to_string(uniq.as_slice(), split);
    let mut s = String::from_str("{");
    proof {
        reveal_strlit("{");
    }
    if uniq.len() > 0 {
        s.append(inner.as_str());
    }
    s.append("}");
    proof {
        reveal_strlit("}");
        if uniq@.len() == 0 {
            assert(s@ =~= seq!['{', '}']);
        } else {
            assert(s@ =~= seq!['{'] + joined(uniq@, split@) + seq!['}']);
        }
    }
    s
}

} // verus!
