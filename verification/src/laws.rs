//! What holds of the grouping of any lines.

use crate::aggregate::{grouping, lemma_grouping_empty, lemma_grouping_push, places, with_line};
use crate::category_map::{holds, Grouping};
use crate::path::{category_of, instance_of, is_name, is_separator, joined, well_formed};
use crate::path::lemma_joined_line;
use vstd::prelude::*;

verus! {

/// Every well-formed line is grouped: its category is a key, and its instance
/// is in that key's set.
pub proof fn lemma_line_is_grouped(lines: Seq<Seq<char>>, i: int)
    requires
        0 <= i < lines.len(),
        well_formed(lines[i]),
    ensures
        holds(grouping(lines), category_of(lines[i]), instance_of(lines[i])),
{
    assert(places(lines, i, category_of(lines[i]), instance_of(lines[i])));
}

/// A line written as `category/instance/leaf`, alone or after a head that
/// ends in a delimiter, puts `instance` into the set of the key `category`.
pub proof fn lemma_joined_line_is_grouped(
    lines: Seq<Seq<char>>,
    i: int,
    head: Seq<char>,
    category: Seq<char>,
    instance: Seq<char>,
    leaf: Seq<char>,
)
    requires
        0 <= i < lines.len(),
        lines[i] == joined(head, category, instance, leaf),
        head.len() == 0 || is_separator(head.last()),
        is_name(category),
        is_name(instance),
        is_name(leaf),
    ensures
        holds(grouping(lines), category, instance),
{
    lemma_joined_line(head, category, instance, leaf);
    lemma_line_is_grouped(lines, i);
}

/// Nothing is grouped but what a well-formed line names: every key has an
/// instance, and every instance under a key comes from a line.
pub proof fn lemma_grouped_is_line(lines: Seq<Seq<char>>, category: Seq<char>)
    requires
        grouping(lines).dom().contains(category),
    ensures
        exists|i: int, x: Seq<char>| #[trigger]
            places(lines, i, category, x) && grouping(lines)[category].contains(x),
        forall|x: Seq<char>|
            grouping(lines)[category].contains(x) ==> exists|i: int| #[trigger]
                places(lines, i, category, x),
{
    let (i, x) = choose|i: int, x: Seq<char>| #[trigger] places(lines, i, category, x);
    assert(places(lines, i, category, x) && grouping(lines)[category].contains(x));
}

/// A line whose pair the grouping already holds adds nothing.
pub proof fn lemma_repeated_pair(lines: Seq<Seq<char>>, line: Seq<char>)
    requires
        well_formed(line),
        holds(grouping(lines), category_of(line), instance_of(line)),
    ensures
        grouping(lines.push(line)) == grouping(lines),
{
    lemma_grouping_push(lines, line);
    let g = grouping(lines);
    let c = category_of(line);
    assert(g[c].insert(instance_of(line)) =~= g[c]);
    assert(with_line(g, line) =~= g);
}

/// The grouping of two well-formed lines.
proof fn lemma_grouping_pair(a: Seq<char>, b: Seq<char>)
    ensures
        grouping(seq![a, b]) == with_line(with_line(Grouping::empty(), a), b),
{
    let none = Seq::<Seq<char>>::empty();
    lemma_grouping_empty();
    lemma_grouping_push(none, a);
    lemma_grouping_push(none.push(a), b);
    assert(seq![a, b] =~= none.push(a).push(b));
}

/// Two lines with the same category and the same instance give that
/// category one instance, not two.
pub proof fn lemma_same_pair_once(a: Seq<char>, b: Seq<char>)
    requires
        well_formed(a),
        well_formed(b),
        category_of(a) == category_of(b),
        instance_of(a) == instance_of(b),
    ensures
        grouping(seq![a, b]) == Grouping::empty().insert(
            category_of(a),
            Set::empty().insert(instance_of(a)),
        ),
        grouping(seq![a, b])[category_of(a)].len() == 1,
{
    lemma_grouping_pair(a, b);
    let one = Set::<Seq<char>>::empty().insert(instance_of(a));
    let g = with_line(Grouping::empty(), a);
    assert(g[category_of(a)] =~= one);
    assert(one.insert(instance_of(b)) =~= one);
    assert(grouping(seq![a, b]) =~= Grouping::empty().insert(category_of(a), one));
}

/// Two lines with the same category give that category both instances.
pub proof fn lemma_two_instances(a: Seq<char>, b: Seq<char>)
    requires
        well_formed(a),
        well_formed(b),
        category_of(a) == category_of(b),
    ensures
        grouping(seq![a, b]) == Grouping::empty().insert(
            category_of(a),
            Set::empty().insert(instance_of(a)).insert(instance_of(b)),
        ),
{
    lemma_grouping_pair(a, b);
    let g = with_line(Grouping::empty(), a);
    assert(g[category_of(a)] =~= Set::empty().insert(instance_of(a)));
    assert(grouping(seq![a, b]) =~= Grouping::empty().insert(
        category_of(a),
        Set::empty().insert(instance_of(a)).insert(instance_of(b)),
    ));
}

/// Two lines with different categories give two keys, each with the instance
/// of its own line and nothing of the other's.
pub proof fn lemma_two_categories(a: Seq<char>, b: Seq<char>)
    requires
        well_formed(a),
        well_formed(b),
        category_of(a) != category_of(b),
    ensures
        grouping(seq![a, b]) == Grouping::empty().insert(
            category_of(a),
            Set::empty().insert(instance_of(a)),
        ).insert(category_of(b), Set::empty().insert(instance_of(b))),
{
    lemma_grouping_pair(a, b);
    let g = with_line(Grouping::empty(), a);
    assert(g[category_of(a)] =~= Set::empty().insert(instance_of(a)));
    assert(!g.dom().contains(category_of(b)));
    assert(grouping(seq![a, b]) =~= Grouping::empty().insert(
        category_of(a),
        Set::empty().insert(instance_of(a)),
    ).insert(category_of(b), Set::empty().insert(instance_of(b))));
}

/// The grouping depends only on which lines occur, not on where or how
/// often.
pub proof fn lemma_grouping_same_lines(a: Seq<Seq<char>>, b: Seq<Seq<char>>)
    requires
        forall|line: Seq<char>| a.contains(line) <==> b.contains(line),
    ensures
        grouping(a) == grouping(b),
{
    lemma_grouping_covers(a, b);
    lemma_grouping_covers(b, a);
    let g = grouping(a);
    let h = grouping(b);
    assert forall|c: Seq<char>| g.dom().contains(c) implies g[c] == h[c] by {
        assert forall|x: Seq<char>| g[c].contains(x) == h[c].contains(x) by {
            assert(g[c].contains(x) ==> holds(g, c, x));
            assert(h[c].contains(x) ==> holds(h, c, x));
        }
        assert(g[c] =~= h[c]);
    }
    assert(g =~= h);
}

/// A grouping only ever grows: where every line of `a` occurs in `b`,
/// whatever `a` groups, `b` groups.
pub proof fn lemma_grouping_covers(a: Seq<Seq<char>>, b: Seq<Seq<char>>)
    requires
        forall|line: Seq<char>| a.contains(line) ==> b.contains(line),
    ensures
        forall|c: Seq<char>, x: Seq<char>| #[trigger]
            holds(grouping(a), c, x) ==> holds(grouping(b), c, x),
        forall|c: Seq<char>| #[trigger]
            grouping(a).dom().contains(c) ==> grouping(b).dom().contains(c),
{
    assert forall|i: int, c: Seq<char>, x: Seq<char>| #[trigger]
        places(a, i, c, x) implies exists|j: int| #[trigger] places(b, j, c, x) by {
        assert(a.contains(a[i]));
        let j = choose|j: int| 0 <= j < b.len() && b[j] == a[i];
        assert(places(b, j, c, x));
    }
    assert forall|c: Seq<char>, x: Seq<char>| #[trigger]
        holds(grouping(a), c, x) implies holds(grouping(b), c, x) by {
        let i = choose|i: int| #[trigger] places(a, i, c, x);
        let j = choose|j: int| #[trigger] places(b, j, c, x);
        assert(places(b, j, c, x));
    }
    assert forall|c: Seq<char>| #[trigger]
        grouping(a).dom().contains(c) implies grouping(b).dom().contains(c) by {
        let (i, x) = choose|i: int, x: Seq<char>| #[trigger] places(a, i, c, x);
        let j = choose|j: int| #[trigger] places(b, j, c, x);
        assert(places(b, j, c, x));
    }
}

/// The order of the lines does not matter: two sequences that hold the same
/// lines equally often have the same grouping.
pub proof fn lemma_grouping_permutation(a: Seq<Seq<char>>, b: Seq<Seq<char>>)
    requires
        a.to_multiset() == b.to_multiset(),
    ensures
        grouping(a) == grouping(b),
{
    a.to_multiset_ensures();
    b.to_multiset_ensures();
    assert forall|line: Seq<char>| a.contains(line) <==> b.contains(line) by {
        assert(a.contains(line) <==> a.to_multiset().count(line) > 0);
        assert(b.contains(line) <==> b.to_multiset().count(line) > 0);
    }
    lemma_grouping_same_lines(a, b);
}

} // verus!
