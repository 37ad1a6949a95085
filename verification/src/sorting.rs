//! Sorting of paths into ascending order, by merging.

use crate::text::{
    bytes_of, lemma_lex_le_total, lemma_lex_le_transitive, lemma_text_le_total_ordering, str_le,
    text_le,
};
use vstd::prelude::*;
use vstd::relations::sorted_by;
use vstd::seq_lib::{lemma_multiset_commutative, lemma_sorted_unique, to_multiset_build};

verus! {

/// Whether `paths` ascend in the order of texts: none comes after a later one.
pub open spec fn ascending(paths: Seq<Seq<char>>) -> bool {
    forall|i: int, j: int| 0 <= i < j < paths.len() ==> #[trigger] text_le(paths[i], paths[j])
}

/// Whether `paths` descend in the order of texts.
pub open spec fn descending(paths: Seq<Seq<char>>) -> bool {
    forall|i: int, j: int| 0 <= i < j < paths.len() ==> #[trigger] text_le(paths[j], paths[i])
}

/// Whether no path of `low` comes after a path of `high`.
pub open spec fn all_le(low: Seq<Seq<char>>, high: Seq<Seq<char>>) -> bool {
    forall|i: int, j: int|
        0 <= i < low.len() && 0 <= j < high.len() ==> #[trigger] text_le(low[i], high[j])
}

/// Ascending order leaves no choice: two ascending lists of the same paths are
/// the same list.
pub proof fn lemma_ascending_unique(a: Seq<Seq<char>>, b: Seq<Seq<char>>)
    requires
        ascending(a),
        ascending(b),
        a.to_multiset() == b.to_multiset(),
    ensures
        a == b,
{
    let le = |x: Seq<char>, y: Seq<char>| text_le(x, y);
    lemma_text_le_total_ordering();
    assert(sorted_by(a, le)) by {
        assert forall|i: int, j: int| 0 <= i < j < a.len() implies #[trigger] le(a[i], a[j]) by {
            assert(text_le(a[i], a[j]));
        }
    }
    assert(sorted_by(b, le)) by {
        assert forall|i: int, j: int| 0 <= i < j < b.len() implies #[trigger] le(b[i], b[j]) by {
            assert(text_le(b[i], b[j]));
        }
    }
    lemma_sorted_unique(a, b, le);
}

/// Moves the last path of `from` to the end of `backward`.
fn move_last(from: &mut Vec<String>, backward: &mut Vec<String>)
    requires
        old(from).len() > 0,
    ensures
        final(from).deep_view() == old(from).deep_view().drop_last(),
        final(backward).deep_view() == old(backward).deep_view().push(
            old(from).deep_view().last(),
        ),
{
    let ghost from_before = from.deep_view();
    let ghost backward_before = backward.deep_view();
    match from.pop() {
        Some(path) => {
            backward.push(path);
        },
        None => {},
    }
    proof {
        assert(from.deep_view() =~= from_before.drop_last());
        assert(backward.deep_view() =~= backward_before.push(from_before.last()));
    }
}

/// Merges two ascending lists of paths into one.
fn merge_ascending(left: Vec<String>, right: Vec<String>) -> (merged: Vec<String>)
    requires
        ascending(left.deep_view()),
        ascending(right.deep_view()),
    ensures
        ascending(merged.deep_view()),
        merged.deep_view().to_multiset() == left.deep_view().to_multiset().add(
            right.deep_view().to_multiset(),
        ),
{
    broadcast use vstd::multiset::group_multiset_axioms;

    let ghost all = left.deep_view().to_multiset().add(right.deep_view().to_multiset());
    let mut left = left;
    let mut right = right;
    let mut backward: Vec<String> = Vec::new();
    proof {
        vstd::seq_lib::to_multiset_len(backward.deep_view());
        assert(backward.deep_view().to_multiset() =~= vstd::multiset::Multiset::empty());
        assert(backward.deep_view().to_multiset().add(left.deep_view().to_multiset()).add(
            right.deep_view().to_multiset(),
        ) =~= all);
    }
    while left.len() > 0 || right.len() > 0
        invariant
            ascending(left.deep_view()),
            ascending(right.deep_view()),
            descending(backward.deep_view()),
            all_le(left.deep_view(), backward.deep_view()),
            all_le(right.deep_view(), backward.deep_view()),
            backward.deep_view().to_multiset().add(left.deep_view().to_multiset()).add(
                right.deep_view().to_multiset(),
            ) == all,
        decreases left.len() + right.len(),
    {
        let ghost l = left.deep_view();
        let ghost r = right.deep_view();
        let ghost b = backward.deep_view();
        let from_right = if left.len() == 0 {
            true
        } else if right.len() == 0 {
            false
        } else {
            str_le(left[left.len() - 1].as_str(), right[right.len() - 1].as_str())
        };
        if from_right {
            move_last(&mut right, &mut backward);
        } else {
            move_last(&mut left, &mut backward);
        }
        proof {
            let from = if from_right { r } else { l };
            let other = if from_right { l } else { r };
            let moved = from.last();
            let l2 = left.deep_view();
            let r2 = right.deep_view();
            let b2 = backward.deep_view();
            assert(from =~= from.drop_last().push(moved));
            to_multiset_build(from.drop_last(), moved);
            to_multiset_build(b, moved);
            assert(b2.to_multiset().add(l2.to_multiset()).add(r2.to_multiset()) =~= b.to_multiset().add(
                l.to_multiset(),
            ).add(r.to_multiset()));
            // Nothing that stays behind comes after the path that was moved.
            assert forall|i: int| 0 <= i < from.drop_last().len() implies text_le(
                #[trigger] from.drop_last()[i],
                moved,
            ) by {
                assert(text_le(from[i], from[from.len() - 1]));
            }
            assert forall|i: int| 0 <= i < other.len() implies text_le(
                #[trigger] other[i],
                moved,
            ) by {
                let last = other[other.len() - 1];
                if from_right {
                    assert(text_le(last, moved));
                } else {
                    lemma_lex_le_total(bytes_of(last), bytes_of(moved));
                }
                if i < other.len() - 1 {
                    assert(text_le(other[i], other[other.len() - 1]));
                    lemma_lex_le_transitive(bytes_of(other[i]), bytes_of(last), bytes_of(moved));
                }
            }
            assert(descending(b2)) by {
                assert forall|i: int, j: int| 0 <= i < j < b2.len() implies #[trigger] text_le(
                    b2[j],
                    b2[i],
                ) by {
                    if j < b.len() {
                        assert(text_le(b[j], b[i]));
                    } else {
                        assert(text_le(from[from.len() - 1], b[i]));
                    }
                }
            }
            assert(all_le(l2, b2)) by {
                assert forall|i: int, j: int|
                    0 <= i < l2.len() && 0 <= j < b2.len() implies #[trigger] text_le(
                    l2[i],
                    b2[j],
                ) by {
                    if j < b.len() {
                        assert(text_le(l[i], b[j]));
                    } else if from_right {
                        assert(text_le(other[i], moved));
                    } else {
                        assert(text_le(from.drop_last()[i], moved));
                    }
                }
            }
            assert(all_le(r2, b2)) by {
                assert forall|i: int, j: int|
                    0 <= i < r2.len() && 0 <= j < b2.len() implies #[trigger] text_le(
                    r2[i],
                    b2[j],
                ) by {
                    if j < b.len() {
                        assert(text_le(r[i], b[j]));
                    } else if from_right {
                        assert(text_le(from.drop_last()[i], moved));
                    } else {
                        assert(text_le(other[i], moved));
                    }
                }
            }
            assert(ascending(l2)) by {
                assert forall|i: int, j: int| 0 <= i < j < l2.len() implies #[trigger] text_le(
                    l2[i],
                    l2[j],
                ) by {
                    assert(text_le(l[i], l[j]));
                }
            }
            assert(ascending(r2)) by {
                assert forall|i: int, j: int| 0 <= i < j < r2.len() implies #[trigger] text_le(
                    r2[i],
                    r2[j],
                ) by {
                    assert(text_le(r[i], r[j]));
                }
            }
        }
    }
    let mut merged: Vec<String> = Vec::new();
    proof {
        vstd::seq_lib::to_multiset_len(left.deep_view());
        vstd::seq_lib::to_multiset_len(right.deep_view());
        vstd::seq_lib::to_multiset_len(merged.deep_view());
        assert(left.deep_view().to_multiset() =~= vstd::multiset::Multiset::empty());
        assert(right.deep_view().to_multiset() =~= vstd::multiset::Multiset::empty());
        assert(merged.deep_view().to_multiset() =~= vstd::multiset::Multiset::empty());
        assert(merged.deep_view().to_multiset().add(backward.deep_view().to_multiset()) =~= all);
    }
    while backward.len() > 0
        invariant
            ascending(merged.deep_view()),
            descending(backward.deep_view()),
            all_le(merged.deep_view(), backward.deep_view()),
            merged.deep_view().to_multiset().add(backward.deep_view().to_multiset()) == all,
        decreases backward.len(),
    {
        let ghost m = merged.deep_view();
        let ghost b = backward.deep_view();
        move_last(&mut backward, &mut merged);
        proof {
            let moved = b.last();
            let m2 = merged.deep_view();
            let b2 = backward.deep_view();
            assert(b =~= b2.push(moved));
            to_multiset_build(b2, moved);
            to_multiset_build(m, moved);
            assert(m2.to_multiset().add(b2.to_multiset()) =~= m.to_multiset().add(b.to_multiset()));
            assert(ascending(m2)) by {
                assert forall|i: int, j: int| 0 <= i < j < m2.len() implies #[trigger] text_le(
                    m2[i],
                    m2[j],
                ) by {
                    if j < m.len() {
                        assert(text_le(m[i], m[j]));
                    } else {
                        assert(text_le(m[i], b[b.len() - 1]));
                    }
                }
            }
            assert(descending(b2)) by {
                assert forall|i: int, j: int| 0 <= i < j < b2.len() implies #[trigger] text_le(
                    b2[j],
                    b2[i],
                ) by {
                    assert(text_le(b[j], b[i]));
                }
            }
            assert(all_le(m2, b2)) by {
                assert forall|i: int, j: int|
                    0 <= i < m2.len() && 0 <= j < b2.len() implies #[trigger] text_le(
                    m2[i],
                    b2[j],
                ) by {
                    if i < m.len() {
                        assert(text_le(m[i], b[j]));
                    } else {
                        assert(text_le(b[b.len() - 1], b[j]));
                    }
                }
            }
        }
    }
    proof {
        vstd::seq_lib::to_multiset_len(backward.deep_view());
        assert(backward.deep_view().to_multiset() =~= vstd::multiset::Multiset::empty());
        assert(merged.deep_view().to_multiset().add(backward.deep_view().to_multiset())
            =~= merged.deep_view().to_multiset());
    }
    merged
}

/// Sorts paths into ascending order.
pub fn sort_paths(paths: Vec<String>) -> (sorted: Vec<String>)
    ensures
        ascending(sorted.deep_view()),
        sorted.deep_view().to_multiset() == paths.deep_view().to_multiset(),
    decreases paths.len(),
{
    if paths.len() <= 1 {
        return paths;
    }
    let ghost all = paths.deep_view();
    let mut left = paths;
    let half = left.len() / 2;
    let right = left.split_off(half);
    proof {
        assert(all =~= left.deep_view() + right.deep_view());
        lemma_multiset_commutative(left.deep_view(), right.deep_view());
    }
    let left = sort_paths(left);
    let right = sort_paths(right);
    merge_ascending(left, right)
}

} // verus!
