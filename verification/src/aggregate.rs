//! The aggregation of path lines into a category map.

use crate::category_map::{with_instance, CategoryMap, Grouping};
use crate::path::{category_of, instance_of, split_line, well_formed};
use crate::text::texts;
use vstd::prelude::*;

verus! {

/// Line `i` of `lines` is well formed and places `instance` under `category`.
pub open spec fn places(
    lines: Seq<Seq<char>>,
    i: int,
    category: Seq<char>,
    instance: Seq<char>,
) -> bool {
    &&& 0 <= i < lines.len()
    &&& well_formed(lines[i])
    &&& category_of(lines[i]) == category
    &&& instance_of(lines[i]) == instance
}

/// The grouping that `lines` describe: a category is a key when some
/// well-formed line names it, and maps to the instances that such lines place
/// under it. Lines that are not well formed contribute nothing.
pub open spec fn grouping(lines: Seq<Seq<char>>) -> Grouping {
    Map::new(
        |c: Seq<char>| exists|i: int, x: Seq<char>| #[trigger] places(lines, i, c, x),
        |c: Seq<char>| Set::new(|x: Seq<char>| exists|i: int| #[trigger] places(lines, i, c, x)),
    )
}

/// What one more line does to a grouping.
pub open spec fn with_line(m: Grouping, line: Seq<char>) -> Grouping {
    if well_formed(line) {
        with_instance(m, category_of(line), instance_of(line))
    } else {
        m
    }
}

/// What to do with a line that is not well formed.
#[derive(Clone, Copy, Debug, PartialEq, Eq, Structural)]
pub enum Strictness {
    /// Leave the line out and go on.
    Permissive,
    /// Give up the whole aggregation, naming the line.
    Strict,
}

/// A line that has fewer than three segments.
#[derive(Clone, Copy, Debug, PartialEq, Eq, Structural)]
pub struct MalformedPath {
    /// The index of the line among those given, from zero.
    pub line: usize,
}

/// The grouping of a sequence with one more line at its end is that of the
/// sequence with the line's pair recorded.
pub proof fn lemma_grouping_push(lines: Seq<Seq<char>>, line: Seq<char>)
    ensures
        grouping(lines.push(line)) == with_line(grouping(lines), line),
{
    let more = lines.push(line);
    let g = grouping(lines);
    let h = grouping(more);
    let w = with_line(g, line);
    let n = lines.len() as int;
    assert forall|i: int, c: Seq<char>, x: Seq<char>| #[trigger]
        places(lines, i, c, x) implies places(more, i, c, x) by {
        assert(more[i] == lines[i]);
    }
    assert forall|i: int, c: Seq<char>, x: Seq<char>| #[trigger]
        places(more, i, c, x) implies (i < n && places(lines, i, c, x)) || (i == n && well_formed(
        line,
    ) && c == category_of(line) && x == instance_of(line)) by {
        if i < n {
            assert(more[i] == lines[i]);
        } else {
            assert(more[i] == line);
        }
    }
    if well_formed(line) {
        assert(more[n] == line);
        assert(places(more, n, category_of(line), instance_of(line)));
    }
    assert forall|c: Seq<char>| h.dom().contains(c) == w.dom().contains(c) by {
        if h.dom().contains(c) {
            let (i, x) = choose|i: int, x: Seq<char>| #[trigger] places(more, i, c, x);
            if i < n {
                assert(places(lines, i, c, x));
            }
        }
        if w.dom().contains(c) {
            if g.dom().contains(c) {
                let (i, x) = choose|i: int, x: Seq<char>| #[trigger] places(lines, i, c, x);
                assert(places(more, i, c, x));
            }
        }
    }
    assert forall|c: Seq<char>| h.dom().contains(c) implies h[c] == w[c] by {
        assert forall|x: Seq<char>| h[c].contains(x) == w[c].contains(x) by {
            if h[c].contains(x) {
                let i = choose|i: int| #[trigger] places(more, i, c, x);
                if i < n {
                    assert(places(lines, i, c, x));
                }
            }
            if w[c].contains(x) {
                if g.dom().contains(c) && g[c].contains(x) {
                    let i = choose|i: int| #[trigger] places(lines, i, c, x);
                    assert(places(more, i, c, x));
                }
            }
        }
        assert(h[c] =~= w[c]);
    }
    assert(h =~= w);
}

/// No lines, no categories.
pub proof fn lemma_grouping_empty()
    ensures
        grouping(Seq::empty()) == Grouping::empty(),
{
    assert(grouping(Seq::empty()) =~= Grouping::empty());
}

impl CategoryMap {
    /// Records the pair that `line` names, and says whether the line was well
    /// formed. A line that is not changes nothing.
    pub fn add_line(&mut self, line: &str) -> (accepted: bool)
        requires
            old(self).wf(),
        ensures
            final(self).wf(),
            accepted == well_formed(line@),
            final(self)@ == with_line(old(self)@, line@),
    {
        match split_line(line) {
            Some((category, instance)) => {
                self.insert(category, instance);
                true
            },
            None => false,
        }
    }
}

/// Aggregates `lines` under the given policy.
///
/// Under `Permissive` the result is always the grouping of the lines, those
/// that are not well formed left out. Under `Strict` it is that grouping when
/// every line is well formed, and otherwise the first line that is not.
pub fn calc_categories_with(lines: &Vec<String>, strictness: Strictness) -> (result: Result<
    CategoryMap,
    MalformedPath,
>)
    ensures
        match result {
            Ok(map) => {
                &&& map.wf()
                &&& map@ == grouping(texts(lines@))
                &&& strictness == Strictness::Strict ==> forall|i: int|
                    0 <= i < lines.len() ==> well_formed(#[trigger] lines[i]@)
            },
            Err(e) => {
                &&& strictness == Strictness::Strict
                &&& e.line < lines.len()
                &&& !well_formed(lines[e.line as int]@)
                &&& forall|i: int| 0 <= i < e.line ==> well_formed(#[trigger] lines[i]@)
            },
        },
{
    let mut map = CategoryMap::new();
    let mut k: usize = 0;
    proof {
        lemma_grouping_empty();
        assert(texts(lines@).take(0) =~= Seq::empty());
    }
    while k < lines.len()
        invariant
            k <= lines.len(),
            map.wf(),
            map@ == grouping(texts(lines@).take(k as int)),
            strictness == Strictness::Strict ==> forall|i: int|
                0 <= i < k ==> well_formed(#[trigger] lines[i]@),
        decreases lines.len() - k,
    {
        proof {
            let all = texts(lines@);
            assert(all.take(k + 1) =~= all.take(k as int).push(lines[k as int]@));
            lemma_grouping_push(all.take(k as int), lines[k as int]@);
        }
        let accepted = map.add_line(lines[k].as_str());
        if !accepted {
            match strictness {
                Strictness::Strict => {
                    return Err(MalformedPath { line: k });
                },
                Strictness::Permissive => {},
            }
        }
        k = k + 1;
    }
    proof {
        assert(texts(lines@).take(lines.len() as int) =~= texts(lines@));
    }
    Ok(map)
}

/// Aggregates `lines` into the map from each category to its instances.
///
/// Lines with fewer than three segments are left out.
pub fn calc_categories(lines: &Vec<String>) -> (map: CategoryMap)
    ensures
        map.wf(),
        map@ == grouping(texts(lines@)),
{
    match calc_categories_with(lines, Strictness::Permissive) {
        Ok(map) => map,
        Err(_) => unreached(),
    }
}

/// The texts among `reads`, in order: a reading that failed leaves no line.
pub open spec fn readable(reads: Seq<Option<String>>) -> Seq<Seq<char>>
    decreases reads.len(),
{
    if reads.len() == 0 {
        Seq::empty()
    } else {
        match reads.last() {
            Some(text) => readable(reads.drop_last()).push(text@),
            None => readable(reads.drop_last()),
        }
    }
}

/// Aggregates the lines of an input of which some could not be read: each
/// reading is the line's text, or `None` where reading it failed.
///
/// A failed reading is passed over, as is a line with fewer than three
/// segments; an input of which nothing could be read gives the empty map.
pub fn calc_categories_from_reads(reads: &Vec<Option<String>>) -> (map: CategoryMap)
    ensures
        map.wf(),
        map@ == grouping(readable(reads@)),
{
    let mut map = CategoryMap::new();
    let mut k: usize = 0;
    proof {
        lemma_grouping_empty();
        assert(reads@.take(0) =~= Seq::empty());
    }
    while k < reads.len()
        invariant
            k <= reads.len(),
            map.wf(),
            map@ == grouping(readable(reads@.take(k as int))),
        decreases reads.len() - k,
    {
        proof {
            assert(reads@.take(k + 1).drop_last() =~= reads@.take(k as int));
        }
        match &reads[k] {
            Some(text) => {
                proof {
                    lemma_grouping_push(readable(reads@.take(k as int)), text@);
                }
                map.add_line(text.as_str());
            },
            None => {},
        }
        k = k + 1;
    }
    proof {
        assert(reads@.take(reads.len() as int) =~= reads@);
    }
    map
}

/// Aggregates `lines`, or names the first line with fewer than three segments.
pub fn try_calc_categories(lines: &Vec<String>) -> (result: Result<CategoryMap, MalformedPath>)
    ensures
        result is Ok <==> forall|i: int| 0 <= i < lines.len() ==> well_formed(#[trigger] lines[i]@),
        result matches Ok(map) ==> map.wf() && map@ == grouping(texts(lines@)),
        result matches Err(e) ==> e.line < lines.len() && !well_formed(lines[e.line as int]@)
            && forall|i: int| 0 <= i < e.line ==> well_formed(#[trigger] lines[i]@),
{
    calc_categories_with(lines, Strictness::Strict)
}

} // verus!
