//! Decomposition of a path line into its segments.
//!
//! A line is read as plain text: its segments are the maximal non-empty runs
//! of characters between `/` delimiters. Repeated, leading and trailing
//! delimiters therefore separate nothing, and `.` and `..` are names like any
//! other.

use vstd::prelude::*;
use vstd::std_specs::iter::IteratorSpec;

verus! {

broadcast use vstd::string::group_string_axioms;

/// The delimiter between the segments of a path line.
pub open spec fn is_separator(c: char) -> bool {
    c == '/'
}

/// The segments of `s`, in order: its maximal non-empty runs of characters
/// that are not delimiters.
pub open spec fn segments(s: Seq<char>) -> Seq<Seq<char>>
    decreases s.len(),
{
    if s.len() == 0 {
        Seq::empty()
    } else {
        let before = s.drop_last();
        let segs = segments(before);
        if is_separator(s.last()) {
            segs
        } else if before.len() == 0 || is_separator(before.last()) {
            segs.push(seq![s.last()])
        } else {
            segs.drop_last().push(segs.last().push(s.last()))
        }
    }
}

/// A segment: a non-empty text without a delimiter.
pub open spec fn is_name(w: Seq<char>) -> bool {
    w.len() > 0 && forall|k: int| 0 <= k < w.len() ==> !is_separator(#[trigger] w[k])
}

/// A line is well formed when it has a leaf and two directories above it.
pub open spec fn well_formed(s: Seq<char>) -> bool {
    segments(s).len() >= 3
}

/// The category of a well-formed line: the segment two above its leaf.
pub open spec fn category_of(s: Seq<char>) -> Seq<char>
    recommends
        well_formed(s),
{
    segments(s)[segments(s).len() - 3]
}

/// The instance of a well-formed line: the segment directly above its leaf.
pub open spec fn instance_of(s: Seq<char>) -> Seq<char>
    recommends
        well_formed(s),
{
    segments(s)[segments(s).len() - 2]
}

/// Reading one more character: how the segments of `s.take(i + 1)` come from
/// those of `s.take(i)`.
proof fn lemma_segments_step(s: Seq<char>, i: int)
    requires
        0 <= i < s.len(),
    ensures
        is_separator(s[i]) ==> segments(s.take(i + 1)) == segments(s.take(i)),
        !is_separator(s[i]) && (i == 0 || is_separator(s[i - 1])) ==> segments(s.take(i + 1))
            == segments(s.take(i)).push(seq![s[i]]),
        !is_separator(s[i]) && i > 0 && !is_separator(s[i - 1]) ==> segments(s.take(i + 1))
            == segments(s.take(i)).drop_last().push(segments(s.take(i)).last().push(s[i])),
{
    let t = s.take(i + 1);
    assert(t.drop_last() =~= s.take(i));
    assert(t.last() == s[i]);
    if i > 0 {
        assert(s.take(i).last() == s[i - 1]);
    }
}

/// Every segment is a name: it is not empty and holds no delimiter. A text
/// that ends in another character than a delimiter has a segment.
pub proof fn lemma_segments_are_names(s: Seq<char>)
    ensures
        forall|k: int| 0 <= k < segments(s).len() ==> is_name(#[trigger] segments(s)[k]),
        s.len() > 0 && !is_separator(s.last()) ==> segments(s).len() > 0,
    decreases s.len(),
{
    if s.len() > 0 {
        let before = s.drop_last();
        lemma_segments_are_names(before);
        let segs = segments(before);
        if is_separator(s.last()) {
        } else if before.len() == 0 || is_separator(before.last()) {
            assert(is_name(seq![s.last()]));
        } else {
            let grown = segs.last().push(s.last());
            assert(is_name(segs[segs.len() - 1]));
            assert(is_name(grown)) by {
                assert forall|k: int| 0 <= k < grown.len() implies !is_separator(
                    #[trigger] grown[k],
                ) by {
                    if k < grown.len() - 1 {
                        assert(grown[k] == segs.last()[k]);
                    }
                }
            }
            assert forall|k: int| 0 <= k < segments(s).len() implies is_name(
                #[trigger] segments(s)[k],
            ) by {
                if k < segs.len() - 1 {
                    assert(segments(s)[k] == segs[k]);
                } else {
                    assert(segments(s)[k] == grown);
                }
            }
        }
    }
}

/// A delimiter at the end of a text adds no segment.
pub proof fn lemma_segments_push_separator(s: Seq<char>, c: char)
    requires
        is_separator(c),
    ensures
        segments(s.push(c)) == segments(s),
{
    assert(s.push(c).drop_last() =~= s);
}

/// A name written after the start of a text, or after a delimiter, is one
/// more segment.
pub proof fn lemma_segments_append_name(head: Seq<char>, name: Seq<char>)
    requires
        is_name(name),
        head.len() == 0 || is_separator(head.last()),
    ensures
        segments(head + name) == segments(head).push(name),
    decreases name.len(),
{
    let whole = head + name;
    assert(whole.last() == name.last());
    assert(!is_separator(name[name.len() - 1]));
    if name.len() == 1 {
        assert(whole.drop_last() =~= head);
        assert(seq![name.last()] =~= name);
    } else {
        let shorter = name.drop_last();
        assert(is_name(shorter)) by {
            assert forall|k: int| 0 <= k < shorter.len() implies !is_separator(
                #[trigger] shorter[k],
            ) by {
                assert(shorter[k] == name[k]);
            }
        }
        assert(whole.drop_last() =~= head + shorter);
        assert((head + shorter).last() == shorter.last());
        assert(!is_separator(shorter[shorter.len() - 1]));
        lemma_segments_append_name(head, shorter);
        let segs = segments(head + shorter);
        assert(segs.drop_last() =~= segments(head));
        assert(segs.last().push(name.last()) =~= name);
    }
}

/// The text `head` `category` `/` `instance` `/` `leaf`.
pub open spec fn joined(
    head: Seq<char>,
    category: Seq<char>,
    instance: Seq<char>,
    leaf: Seq<char>,
) -> Seq<char> {
    head + category + seq!['/'] + instance + seq!['/'] + leaf
}

/// A line written as `category/instance/leaf`, alone or after a head that
/// ends in a delimiter, is well formed, and its category and instance are the
/// names it was written with.
pub proof fn lemma_joined_line(
    head: Seq<char>,
    category: Seq<char>,
    instance: Seq<char>,
    leaf: Seq<char>,
)
    requires
        head.len() == 0 || is_separator(head.last()),
        is_name(category),
        is_name(instance),
        is_name(leaf),
    ensures
        well_formed(joined(head, category, instance, leaf)),
        category_of(joined(head, category, instance, leaf)) == category,
        instance_of(joined(head, category, instance, leaf)) == instance,
{
    let s1 = head + category;
    let s2 = s1.push('/');
    let s3 = s2 + instance;
    let s4 = s3.push('/');
    lemma_segments_append_name(head, category);
    lemma_segments_push_separator(s1, '/');
    lemma_segments_append_name(s2, instance);
    lemma_segments_push_separator(s3, '/');
    lemma_segments_append_name(s4, leaf);
    assert(s2 =~= s1 + seq!['/']);
    assert(s4 =~= s3 + seq!['/']);
    assert(joined(head, category, instance, leaf) =~= s4 + leaf);
}

/// Splits a line into its category and its instance.
///
/// Returns `None` exactly when the line has fewer than three segments.
pub fn split_line(line: &str) -> (parts: Option<(String, String)>)
    ensures
        parts is Some <==> well_formed(line@),
        parts matches Some((category, instance)) ==> category@ == category_of(line@)
            && instance@ == instance_of(line@),
{
    let n: usize = line.unicode_len();
    let ghost s = line@;
    let mut chars = line.chars();
    let mut i: usize = 0;
    let mut count: usize = 0;
    let mut in_segment: bool = false;
    let mut a1: usize = 0;
    let mut b1: usize = 0;
    let mut a2: usize = 0;
    let mut b2: usize = 0;
    let mut a3: usize = 0;
    let mut b3: usize = 0;
    proof {
        assert(s.take(0) =~= Seq::<char>::empty());
    }
    loop
        invariant
            s == line@,
            n == s.len(),
            i <= n,
            chars.remaining() == s.skip(i as int),
            chars.obeys_prophetic_iter_laws(),
            chars.decrease() is Some,
            count <= 3,
            count == if segments(s.take(i as int)).len() >= 3 {
                3
            } else {
                segments(s.take(i as int)).len()
            },
            in_segment == (i > 0 && !is_separator(s[i - 1])),
            in_segment ==> count >= 1 && b3 == i,
            count >= 1 ==> a3 < b3 <= i && segments(s.take(i as int)).last() == s.subrange(
                a3 as int,
                b3 as int,
            ),
            count >= 2 ==> a2 < b2 <= i && segments(s.take(i as int))[segments(
                s.take(i as int),
            ).len() - 2] == s.subrange(a2 as int, b2 as int),
            count >= 3 ==> a1 < b1 <= i && segments(s.take(i as int))[segments(
                s.take(i as int),
            ).len() - 3] == s.subrange(a1 as int, b1 as int),
        ensures
            i == n,
        decreases n - i,
    {
        let ghost before = chars;
        let next = chars.next();
        match next {
            None => {
                break ;
            },
            Some(c) => {
                proof {
                    lemma_segments_step(s, i as int);
                    assert(s.skip(i as int).drop_first() =~= s.skip(i + 1));
                }
                if c == '/' {
                    in_segment = false;
                } else if in_segment {
                    proof {
                        assert(s.subrange(a3 as int, i as int).push(c) =~= s.subrange(
                            a3 as int,
                            i + 1,
                        ));
                    }
                    b3 = i + 1;
                } else {
                    proof {
                        assert(seq![c] =~= s.subrange(i as int, i + 1));
                    }
                    a1 = a2;
                    b1 = b2;
                    a2 = a3;
                    b2 = b3;
                    a3 = i;
                    b3 = i + 1;
                    if count < 3 {
                        count = count + 1;
                    }
                    in_segment = true;
                }
                i = i + 1;
            },
        }
    }
    proof {
        assert(s.take(n as int) =~= s);
    }
    if count == 3 {
        let category = line.substring_char(a1, b1).to_owned();
        let instance = line.substring_char(a2, b2).to_owned();
        Some((category, instance))
    } else {
        None
    }
}

} // verus!
