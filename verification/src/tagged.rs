//! One string that stands for several: each character is written after an
//! `x` and each string ends with a `y`, so that no two different lists of
//! strings give the same text. Such texts serve as keys of hash sets.

use vstd::prelude::*;

use crate::text::chars_of;

verus! {

/// `s` with an `x` before each character, then a `y`.
pub open spec fn tagged(s: Seq<char>) -> Seq<char>
    decreases s.len(),
{
    if s.len() == 0 {
        seq!['y']
    } else {
        seq!['x', s[0]] + tagged(s.drop_first())
    }
}

/// `n` for nothing, else `s` and the tagged string.
pub open spec fn tagged_opt(o: Option<Seq<char>>) -> Seq<char> {
    match o {
        None => seq!['n'],
        Some(s) => seq!['s'] + tagged(s),
    }
}

/// A tagged string is never a proper prefix of another: when two texts
/// start with tagged strings and agree, the strings and the rests agree.
pub proof fn lemma_tagged_prefix(s: Seq<char>, t: Seq<char>, r1: Seq<char>, r2: Seq<char>)
    requires
        tagged(s) + r1 == tagged(t) + r2,
    ensures
        s == t,
        r1 == r2,
    decreases s.len(),
{
    let a = tagged(s) + r1;
    let b = tagged(t) + r2;
    if s.len() == 0 {
        assert(a[0] == 'y');
        if t.len() > 0 {
            assert(b[0] == 'x');
        }
        assert(r1 =~= a.drop_first());
        assert(r2 =~= b.drop_first());
        assert(s =~= t);
    } else {
        assert(a[0] == 'x');
        if t.len() == 0 {
            assert(b[0] == 'y');
        }
        assert(a[1] == s[0]);
        assert(b[1] == t[0]);
        assert(a.subrange(2, a.len() as int) =~= tagged(s.drop_first()) + r1);
        assert(b.subrange(2, b.len() as int) =~= tagged(t.drop_first()) + r2);
        lemma_tagged_prefix(s.drop_first(), t.drop_first(), r1, r2);
        assert(s =~= seq![s[0]] + s.drop_first());
        assert(t =~= seq![t[0]] + t.drop_first());
    }
}

/// Different options give different tagged texts.
pub proof fn lemma_tagged_opt(o: Option<Seq<char>>, p: Option<Seq<char>>)
    requires
        tagged_opt(o) == tagged_opt(p),
    ensures
        o == p,
{
    let a = tagged_opt(o);
    match (o, p) {
        (Some(s), Some(t)) => {
            assert(a.drop_first() =~= tagged(s) + Seq::<char>::empty());
            assert(tagged_opt(p).drop_first() =~= tagged(t) + Seq::<char>::empty());
            lemma_tagged_prefix(s, t, Seq::empty(), Seq::empty());
        },
        (None, Some(t)) => {
            assert(tagged_opt(p)[0] == 's');
        },
        (Some(s), None) => {
            assert(a[0] == 's');
        },
        (None, None) => {},
    }
}

/// Appends `s`, tagged.
pub fn push_tagged(out: &mut Vec<char>, s: &str)
    ensures
        final(out)@ == old(out)@ + tagged(s@),
{
    let cs = chars_of(s);
    let ghost start = out@;
    assert(cs@.skip(0) =~= cs@);
    let mut k: usize = 0;
    while k < cs.len()
        invariant
            k <= cs@.len(),
            cs@ == s@,
            out@ + tagged(cs@.skip(k as int)) == start + tagged(cs@),
        decreases cs@.len() - k,
    {
        let ghost before = out@;
        out.push('x');
        out.push(cs[k]);
        proof {
            let rest = cs@.skip(k as int);
            assert(rest.drop_first() =~= cs@.skip(k + 1));
            assert(rest[0] == cs@[k as int]);
            assert(tagged(rest) == seq!['x', cs@[k as int]] + tagged(cs@.skip(k + 1)));
            assert(out@ =~= before + seq!['x', cs@[k as int]]);
            assert(out@ + tagged(cs@.skip(k + 1)) =~= before + tagged(rest));
        }
        k = k + 1;
    }
    proof {
        assert(cs@.skip(k as int).len() == 0);
        assert(tagged(cs@.skip(k as int)) == seq!['y']);
    }
    out.push('y');
}

/// Appends an optional string, tagged.
pub fn push_tagged_opt(out: &mut Vec<char>, o: &Option<String>)
    ensures
        final(out)@ == old(out)@ + tagged_opt(
            match o {
                Some(s) => Some(s@),
                None => None,
            },
        ),
{
    match o {
        Some(s) => {
            let ghost start = out@;
            out.push('s');
            push_tagged(out, s.as_str());
            assert(out@ =~= start + (seq!['s'] + tagged(s@)));
        },
        None => {
            out.push('n');
        },
    }
}

} // verus!
