//! Strings as texts: comparing them, finding one among others, copying them.

use vstd::prelude::*;
use vstd::std_specs::iter::IteratorSpec;

verus! {

broadcast use vstd::string::group_string_axioms;

/// What the strings of `v` hold, in order.
pub open spec fn texts(v: Seq<String>) -> Seq<Seq<char>> {
    Seq::new(v.len(), |i: int| v[i]@)
}

/// Whether two string slices hold the same text.
fn same_text(a: &str, b: &str) -> (same: bool)
    ensures
        same == (a@ == b@),
{
    let mut left = a.chars();
    let mut right = b.chars();
    let ghost mut i: int = 0;
    loop
        invariant
            0 <= i <= a@.len(),
            i <= b@.len(),
            left.remaining() == a@.skip(i),
            right.remaining() == b@.skip(i),
            left.obeys_prophetic_iter_laws(),
            right.obeys_prophetic_iter_laws(),
            left.decrease() is Some,
            right.decrease() is Some,
            forall|k: int| 0 <= k < i ==> a@[k] == b@[k],
        decreases a@.len() - i,
    {
        let x = left.next();
        let y = right.next();
        match x {
            None => {
                proof {
                    if y is None {
                        assert(a@ =~= b@);
                    }
                }
                return y.is_none();
            },
            Some(c) => {
                match y {
                    None => {
                        return false;
                    },
                    Some(d) => {
                        if c != d {
                            return false;
                        }
                        proof {
                            assert(a@.skip(i).drop_first() =~= a@.skip(i + 1));
                            assert(b@.skip(i).drop_first() =~= b@.skip(i + 1));
                            i = i + 1;
                        }
                    },
                }
            },
        }
    }
}

/// The first place of `needle` in `v`, if it has one.
pub(crate) fn position(v: &Vec<String>, needle: &str) -> (found: Option<usize>)
    ensures
        match found {
            Some(i) => i < v.len() && v[i as int]@ == needle@ && forall|k: int|
                0 <= k < i ==> v[k]@ != needle@,
            None => !texts(v@).contains(needle@),
        },
{
    let mut i: usize = 0;
    while i < v.len()
        invariant
            i <= v.len(),
            forall|k: int| 0 <= k < i ==> v[k]@ != needle@,
        decreases v.len() - i,
    {
        if same_text(v[i].as_str(), needle) {
            return Some(i);
        }
        i = i + 1;
    }
    None
}

/// A copy of `v`, string by string.
pub(crate) fn copy_texts(v: &Vec<String>) -> (copy: Vec<String>)
    ensures
        texts(copy@) == texts(v@),
{
    let mut copy: Vec<String> = Vec::new();
    let mut i: usize = 0;
    while i < v.len()
        invariant
            i <= v.len(),
            copy.len() == i,
            forall|k: int| 0 <= k < i ==> copy[k]@ == v[k]@,
        decreases v.len() - i,
    {
        copy.push(v[i].clone());
        i = i + 1;
    }
    assert(texts(copy@) =~= texts(v@));
    copy
}

/// The set of a sequence with one more item at its end.
pub(crate) proof fn lemma_push_to_set(s: Seq<Seq<char>>, x: Seq<char>)
    ensures
        s.push(x).to_set() == s.to_set().insert(x),
{
    let t = s.push(x);
    assert forall|y: Seq<char>| t.to_set().contains(y) implies s.to_set().insert(x).contains(
        y,
    ) by {
        let j = choose|j: int| 0 <= j < t.len() && t[j] == y;
        if j < s.len() {
            assert(s[j] == y);
        }
    }
    assert forall|y: Seq<char>| s.to_set().insert(x).contains(y) implies t.to_set().contains(
        y,
    ) by {
        if y == x {
            assert(t[s.len() as int] == y);
        } else {
            let j = choose|j: int| 0 <= j < s.len() && s[j] == y;
            assert(t[j] == y);
        }
    }
    assert(t.to_set() =~= s.to_set().insert(x));
}

} // verus!
