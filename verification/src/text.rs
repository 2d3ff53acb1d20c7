use vstd::prelude::*;

verus! {

/// The characters of `s`, one by one.
pub fn chars_of(s: &str) -> (chars: Vec<char>)
    ensures
        chars@ == s@,
{
    let mut chars: Vec<char> = Vec::new();
    for c in it: s.chars()
        invariant
            chars@ == it.seq().take(it.index() as int),
            it.seq() == s@,
    {
        chars.push(c);
    }
    chars
}

/// Whether `chars` is the one letter `a`.
pub fn is_single(chars: &Vec<char>, a: char) -> (r: bool)
    ensures
        r == (chars@ == seq![a]),
{
    let r = chars.len() == 1 && chars[0] == a;
    proof {
        if r {
            assert(chars@ =~= seq![a]);
        } else if chars@.len() == 1 {
            assert(seq![a][0] == a);
        }
    }
    r
}

/// Whether `chars` is the word of the two letters `a` and `b`.
pub fn is_pair(chars: &Vec<char>, a: char, b: char) -> (r: bool)
    ensures
        r == (chars@ == seq![a, b]),
{
    let r = chars.len() == 2 && chars[0] == a && chars[1] == b;
    proof {
        if r {
            assert(chars@ =~= seq![a, b]);
        } else if chars@.len() == 2 {
            assert(seq![a, b][0] == a && seq![a, b][1] == b);
        }
    }
    r
}

/// Whether `chars` is the word of the three letters `a`, `b` and `c`.
pub fn is_triple(chars: &Vec<char>, a: char, b: char, c: char) -> (r: bool)
    ensures
        r == (chars@ == seq![a, b, c]),
{
    let r = chars.len() == 3 && chars[0] == a && chars[1] == b && chars[2] == c;
    proof {
        if r {
            assert(chars@ =~= seq![a, b, c]);
        } else if chars@.len() == 3 {
            assert(seq![a, b, c][0] == a && seq![a, b, c][1] == b && seq![a, b, c][2] == c);
        }
    }
    r
}

} // verus!
