//! Discovery: which entries of a directory listing are candidate images.
//!
//! A listing is handed in as plain values, one [`DirEntry`] per entry of the
//! directory. Paths are judged by their bytes: the file name is what follows
//! the last `/`, and the extension is what follows the last `.` of the name.

use crate::sorting::{ascending, lemma_ascending_unique, sort_paths};
use crate::text::{ascii_lower, bytes_eq_ignore_ascii_case, bytes_of, eq_ignore_ascii_case};
use vstd::multiset::Multiset;
use vstd::prelude::*;
use vstd::seq_lib::{
    lemma_multiset_commutative, to_multiset_build, to_multiset_contains, to_multiset_len,
    to_multiset_remove,
};
use vstd::slice::slice_subrange;

verus! {

/// The byte `/`, which separates the components of a path.
pub const SEPARATOR: u8 = 47;

/// The byte `.`, which separates a file name from its extension.
pub const DOT: u8 = 46;

/// One entry of a directory listing.
#[derive(Debug, PartialEq, Eq)]
pub struct DirEntry {
    /// The path of the entry: the directory's path, `/`, and the entry's name.
    pub path: String,
    /// Whether the entry is a regular file (not a directory, nor a link to one).
    pub is_file: bool,
}

/// What a [`DirEntry`] holds.
pub struct DirEntryView {
    pub path: Seq<char>,
    pub is_file: bool,
}

impl View for DirEntry {
    type V = DirEntryView;

    open spec fn view(&self) -> DirEntryView {
        DirEntryView { path: self.path@, is_file: self.is_file }
    }
}

impl DeepView for DirEntry {
    type V = DirEntryView;

    open spec fn deep_view(&self) -> DirEntryView {
        self@
    }
}

/// The last index at which `b` occurs in `s`, or -1 where it does not occur.
pub open spec fn last_index_of(s: Seq<u8>, b: u8) -> int
    decreases s.len(),
{
    if s.len() == 0 {
        -1
    } else if s.last() == b {
        s.len() - 1
    } else {
        last_index_of(s.drop_last(), b)
    }
}

/// The final component of a path: what follows its last separator.
pub open spec fn file_name(path: Seq<u8>) -> Seq<u8> {
    path.subrange(last_index_of(path, SEPARATOR) + 1, path.len() as int)
}

/// The extension of a file name: what follows its last dot. A name without a
/// dot has none, nor has a name whose only dot is its first byte, nor has `..`.
pub open spec fn extension(name: Seq<u8>) -> Option<Seq<u8>> {
    let dot = last_index_of(name, DOT);
    if name == seq![DOT, DOT] || dot <= 0 {
        None
    } else {
        Some(name.subrange(dot + 1, name.len() as int))
    }
}

/// Whether the file name of `path` has the extension `wanted`, ASCII case
/// aside.
pub open spec fn path_has_extension(path: Seq<u8>, wanted: Seq<u8>) -> bool {
    match extension(file_name(path)) {
        Some(found) => eq_ignore_ascii_case(found, wanted),
        None => false,
    }
}

/// Whether discovery selects `entry` for the extension `wanted`.
pub open spec fn is_match(entry: DirEntryView, wanted: Seq<u8>) -> bool {
    entry.is_file && path_has_extension(bytes_of(entry.path), wanted)
}

/// The paths that discovery selects from a listing, in the listing's order.
pub open spec fn matching_paths(entries: Seq<DirEntryView>, wanted: Seq<u8>) -> Seq<Seq<char>> {
    entries.filter(|e: DirEntryView| is_match(e, wanted)).map_values(|e: DirEntryView| e.path)
}

/// The extension `jpeg`.
pub open spec fn jpeg_extension() -> Seq<char> {
    seq!['j', 'p', 'e', 'g']
}

/// The extension `jpg`.
pub open spec fn jpg_extension() -> Seq<char> {
    seq!['j', 'p', 'g']
}

/// The candidate images of a listing before they are sorted: the files with
/// the extension `jpeg`, then those with the extension `jpg`.
pub open spec fn candidates(entries: Seq<DirEntryView>) -> Seq<Seq<char>> {
    matching_paths(entries, bytes_of(jpeg_extension())) + matching_paths(
        entries,
        bytes_of(jpg_extension()),
    )
}

/// What `last_index_of` finds is the position of the last occurrence.
pub proof fn lemma_last_index_of(s: Seq<u8>, b: u8)
    ensures
        -1 <= last_index_of(s, b) < s.len(),
        last_index_of(s, b) >= 0 ==> s[last_index_of(s, b)] == b,
        forall|j: int| last_index_of(s, b) < j < s.len() ==> s[j] != b,
    decreases s.len(),
{
    if s.len() > 0 && s.last() != b {
        let rest = s.drop_last();
        lemma_last_index_of(rest, b);
        assert forall|j: int| last_index_of(s, b) < j < s.len() implies s[j] != b by {
            if j < rest.len() {
                assert(rest[j] == s[j]);
            }
        }
    }
}

/// An index that holds `b` and is followed by no `b` is the last index of `b`.
pub proof fn lemma_last_index_of_unique(s: Seq<u8>, b: u8, at: int)
    requires
        -1 <= at < s.len(),
        at >= 0 ==> s[at] == b,
        forall|j: int| at < j < s.len() ==> s[j] != b,
    ensures
        last_index_of(s, b) == at,
{
    lemma_last_index_of(s, b);
}

/// Finds the last occurrence of `b` in `s`.
pub fn find_last(s: &[u8], b: u8) -> (r: Option<usize>)
    ensures
        match r {
            Some(at) => at < s@.len() && s@[at as int] == b && at == last_index_of(s@, b),
            None => last_index_of(s@, b) == -1,
        },
{
    let mut i: usize = s.len();
    while i > 0
        invariant
            i <= s.len(),
            forall|j: int| i <= j < s.len() ==> s@[j] != b,
        decreases i,
    {
        i -= 1;
        if s[i] == b {
            proof {
                lemma_last_index_of_unique(s@, b, i as int);
            }
            return Some(i);
        }
    }
    proof {
        lemma_last_index_of_unique(s@, b, -1);
    }
    None
}

/// Tells whether the file name of `path` has the given extension, ASCII case
/// aside. The extension is given without a leading dot.
pub fn has_extension(path: &str, extension: &str) -> (r: bool)
    ensures
        r == path_has_extension(bytes_of(path@), bytes_of(extension@)),
{
    let bytes = path.as_bytes();
    let len = bytes.len();
    let start: usize = match find_last(bytes, SEPARATOR) {
        Some(at) => at + 1,
        None => 0,
    };
    let name = slice_subrange(bytes, start, len);
    if name.len() == 2 && name[0] == DOT && name[1] == DOT {
        assert(name@ =~= seq![DOT, DOT]);
        return false;
    }
    assert(name@ != seq![DOT, DOT]) by {
        if name@.len() == 2 {
            assert(seq![DOT, DOT][0] == DOT);
            assert(seq![DOT, DOT][1] == DOT);
        }
    }
    match find_last(name, DOT) {
        Some(dot) => {
            if dot == 0 {
                false
            } else {
                let found = slice_subrange(name, dot + 1, name.len());
                bytes_eq_ignore_ascii_case(found, extension.as_bytes())
            }
        },
        None => false,
    }
}

/// Selects from a directory listing the regular files whose extension is
/// `extension`, ASCII case aside, and returns their paths in the listing's
/// order. Directories and files without an extension are never selected.
pub fn find_files_by_extension(entries: &Vec<DirEntry>, extension: &str) -> (files: Vec<String>)
    ensures
        files.deep_view() == matching_paths(entries.deep_view(), bytes_of(extension@)),
{
    let mut files: Vec<String> = Vec::new();
    let ghost listing = entries.deep_view();
    let ghost wanted = bytes_of(extension@);
    let ghost keep = |e: DirEntryView| is_match(e, wanted);
    let ghost path_of = |e: DirEntryView| e.path;
    proof {
        assert(listing.take(0) =~= Seq::<DirEntryView>::empty());
        reveal(Seq::filter);
        assert(files.deep_view() =~= matching_paths(listing.take(0), wanted));
    }
    let mut i: usize = 0;
    while i < entries.len()
        invariant
            i <= entries.len(),
            listing == entries.deep_view(),
            wanted == bytes_of(extension@),
            keep == (|e: DirEntryView| is_match(e, wanted)),
            path_of == (|e: DirEntryView| e.path),
            files.deep_view() == listing.take(i as int).filter(keep).map_values(path_of),
        decreases entries.len() - i,
    {
        let entry = &entries[i];
        let ghost before = listing.take(i as int);
        let ghost old_files = files.deep_view();
        proof {
            assert(listing[i as int] == entry@);
            before.lemma_filter_push(listing[i as int], keep);
            before.filter(keep).lemma_push_map_commute(path_of, listing[i as int]);
            assert(listing.take(i + 1) =~= before.push(listing[i as int]));
        }
        if entry.is_file && has_extension(entry.path.as_str(), extension) {
            files.push(entry.path.clone());
            assert(files.deep_view() =~= old_files.push(entry.path@));
        }
        i += 1;
    }
    proof {
        assert(listing.take(entries.len() as int) =~= listing);
    }
    files
}

/// Picks the candidate images from a directory listing: the regular files with
/// the extension `jpeg` or `jpg`, ASCII case aside, in ascending order of
/// their paths.
pub fn discover(entries: &Vec<DirEntry>) -> (paths: Vec<String>)
    ensures
        ascending(paths.deep_view()),
        paths.deep_view().to_multiset() == candidates(entries.deep_view()).to_multiset(),
{
    proof {
        reveal_strlit("jpeg");
        reveal_strlit("jpg");
        assert("jpeg"@ =~= jpeg_extension());
        assert("jpg"@ =~= jpg_extension());
    }
    let mut files = find_files_by_extension(entries, "jpeg");
    let mut more = find_files_by_extension(entries, "jpg");
    let ghost first = files.deep_view();
    let ghost second = more.deep_view();
    files.append(&mut more);
    proof {
        assert(files.deep_view() =~= first + second);
    }
    sort_paths(files)
}

/// Whether the name ends with a dot and the wanted extension, ASCII case
/// aside.
pub open spec fn ends_with_dot_and(name: Seq<u8>, wanted: Seq<u8>) -> bool {
    &&& name.len() >= wanted.len() + 1
    &&& eq_ignore_ascii_case(
        name.subrange(name.len() - wanted.len() - 1, name.len() as int),
        seq![DOT] + wanted,
    )
}

/// For an extension that holds no dot, a path is selected exactly where its
/// file name has an extension at all and ends with a dot and the wanted
/// extension, ASCII case aside.
pub proof fn lemma_selected_by_suffix(path: Seq<u8>, wanted: Seq<u8>)
    requires
        !wanted.contains(DOT),
    ensures
        path_has_extension(path, wanted) <==> extension(file_name(path)) is Some
            && ends_with_dot_and(file_name(path), wanted),
{
    let name = file_name(path);
    let dot = last_index_of(name, DOT);
    lemma_last_index_of(name, DOT);
    if extension(name) is Some {
        let found = name.subrange(dot + 1, name.len() as int);
        let at = name.len() - wanted.len() - 1;
        let tail = name.subrange(at, name.len() as int);
        let dotted = seq![DOT] + wanted;
        if path_has_extension(path, wanted) {
            assert(at == dot);
            assert forall|i: int| 0 <= i < tail.len() implies ascii_lower(#[trigger] tail[i])
                == ascii_lower(dotted[i]) by {
                if i > 0 {
                    assert(tail[i] == found[i - 1]);
                    assert(dotted[i] == wanted[i - 1]);
                }
            }
        }
        if ends_with_dot_and(name, wanted) {
            assert(tail[0] == name[at]);
            assert(dotted[0] == DOT);
            assert(name[at] == DOT);
            assert forall|j: int| at < j < name.len() implies name[j] != DOT by {
                assert(tail[j - at] == name[j]);
                assert(dotted[j - at] == wanted[j - at - 1]);
                assert(wanted.contains(wanted[j - at - 1]));
            }
            lemma_last_index_of_unique(name, DOT, at);
            assert forall|i: int| 0 <= i < found.len() implies ascii_lower(#[trigger] found[i])
                == ascii_lower(wanted[i]) by {
                assert(tail[i + 1] == found[i]);
                assert(dotted[i + 1] == wanted[i]);
            }
        }
    }
}

/// No entry is a candidate twice: it cannot have both extensions.
pub proof fn lemma_one_extension_at_most(entry: DirEntryView)
    ensures
        !(is_match(entry, bytes_of(jpeg_extension())) && is_match(
            entry,
            bytes_of(jpg_extension()),
        )),
{
    vstd::utf8::is_ascii_chars_encode_utf8(jpeg_extension());
    vstd::utf8::is_ascii_chars_encode_utf8(jpg_extension());
}

/// What is no regular file is never selected, nor is a file whose name has
/// no extension.
pub proof fn lemma_never_selected(entry: DirEntryView, wanted: Seq<u8>)
    ensures
        !entry.is_file ==> !is_match(entry, wanted),
        extension(file_name(bytes_of(entry.path))) is None ==> !is_match(entry, wanted),
{
}

/// The selected paths are exactly the paths of the entries that are regular
/// files and have the wanted extension.
pub proof fn lemma_selected_exactly(entries: Seq<DirEntryView>, wanted: Seq<u8>, path: Seq<char>)
    ensures
        matching_paths(entries, wanted).contains(path) <==> exists|i: int|
            0 <= i < entries.len() && (#[trigger] entries[i]).path == path && is_match(
                entries[i],
                wanted,
            ),
    decreases entries.len(),
{
    let keep = |e: DirEntryView| is_match(e, wanted);
    let path_of = |e: DirEntryView| e.path;
    reveal(Seq::filter);
    if entries.len() == 0 {
        assert(matching_paths(entries, wanted) =~= Seq::<Seq<char>>::empty());
    } else {
        let rest = entries.drop_last();
        let last = entries.last();
        lemma_selected_exactly(rest, wanted, path);
        let selected = matching_paths(entries, wanted);
        let before = matching_paths(rest, wanted);
        if is_match(last, wanted) {
            assert(selected =~= before.push(last.path)) by {
                rest.filter(keep).lemma_push_map_commute(path_of, last);
            }
            assert(selected.last() == last.path);
        } else {
            assert(selected =~= before);
        }
        if selected.contains(path) {
            let k = choose|k: int| 0 <= k < selected.len() && selected[k] == path;
            if k < before.len() {
                assert(before[k] == path);
                assert(before.contains(path));
                let i = choose|i: int|
                    0 <= i < rest.len() && (#[trigger] rest[i]).path == path && is_match(
                        rest[i],
                        wanted,
                    );
                assert(entries[i] == rest[i]);
            } else {
                assert(entries[entries.len() - 1] == last);
            }
        }
        if exists|i: int|
            0 <= i < entries.len() && (#[trigger] entries[i]).path == path && is_match(
                entries[i],
                wanted,
            ) {
            let i = choose|i: int|
                0 <= i < entries.len() && (#[trigger] entries[i]).path == path && is_match(
                    entries[i],
                    wanted,
                );
            if i < rest.len() {
                assert(rest[i] == entries[i]);
                assert(before.contains(path));
                let k = choose|k: int| 0 <= k < before.len() && before[k] == path;
                assert(selected[k] == path);
            } else {
                assert(selected[selected.len() - 1] == path);
            }
        }
    }
}

/// Two byte strings that hold `b` at the same places have its last
/// occurrence at the same place.
proof fn lemma_last_index_of_agrees(s: Seq<u8>, t: Seq<u8>, b: u8)
    requires
        s.len() == t.len(),
        forall|j: int| 0 <= j < s.len() ==> (s[j] == b) == (t[j] == b),
    ensures
        last_index_of(s, b) == last_index_of(t, b),
{
    lemma_last_index_of(s, b);
    lemma_last_index_of_unique(t, b, last_index_of(s, b));
}

/// Two paths that differ in the case of ASCII letters only are selected alike.
pub proof fn lemma_path_case_is_ignored(a: Seq<u8>, b: Seq<u8>, wanted: Seq<u8>)
    requires
        eq_ignore_ascii_case(a, b),
    ensures
        path_has_extension(a, wanted) == path_has_extension(b, wanted),
{
    lemma_last_index_of_agrees(a, b, SEPARATOR);
    lemma_last_index_of(a, SEPARATOR);
    let start = last_index_of(a, SEPARATOR) + 1;
    let name_a = file_name(a);
    let name_b = file_name(b);
    assert forall|j: int| 0 <= j < name_a.len() implies ascii_lower(#[trigger] name_a[j])
        == ascii_lower(name_b[j]) by {
        assert(name_a[j] == a[start + j]);
        assert(name_b[j] == b[start + j]);
    }
    lemma_last_index_of_agrees(name_a, name_b, DOT);
    lemma_last_index_of(name_a, DOT);
    let dot = last_index_of(name_a, DOT);
    if name_a == seq![DOT, DOT] {
        assert(name_b =~= seq![DOT, DOT]) by {
            assert(name_a[0] == DOT && name_a[1] == DOT);
        }
    }
    if name_b == seq![DOT, DOT] {
        assert(name_a =~= seq![DOT, DOT]) by {
            assert(name_b[0] == DOT && name_b[1] == DOT);
        }
    }
    if extension(name_a) is Some {
        let found_a = name_a.subrange(dot + 1, name_a.len() as int);
        let found_b = name_b.subrange(dot + 1, name_b.len() as int);
        assert forall|j: int| 0 <= j < found_a.len() implies ascii_lower(#[trigger] found_a[j])
            == ascii_lower(found_b[j]) by {
            assert(found_a[j] == name_a[dot + 1 + j]);
            assert(found_b[j] == name_b[dot + 1 + j]);
        }
        if eq_ignore_ascii_case(found_a, wanted) {
            assert forall|j: int| 0 <= j < found_b.len() implies ascii_lower(
                #[trigger] found_b[j],
            ) == ascii_lower(wanted[j]) by {
                assert(ascii_lower(found_a[j]) == ascii_lower(wanted[j]));
            }
        }
        if eq_ignore_ascii_case(found_b, wanted) {
            assert forall|j: int| 0 <= j < found_a.len() implies ascii_lower(
                #[trigger] found_a[j],
            ) == ascii_lower(wanted[j]) by {
                assert(ascii_lower(found_b[j]) == ascii_lower(wanted[j]));
            }
        }
    }
}

/// Two wanted extensions that differ in the case of ASCII letters only select
/// the same paths.
pub proof fn lemma_wanted_case_is_ignored(path: Seq<u8>, wanted: Seq<u8>, other: Seq<u8>)
    requires
        eq_ignore_ascii_case(wanted, other),
    ensures
        path_has_extension(path, wanted) == path_has_extension(path, other),
{
    match extension(file_name(path)) {
        Some(found) => {
            if eq_ignore_ascii_case(found, wanted) {
                assert forall|j: int| 0 <= j < found.len() implies ascii_lower(
                    #[trigger] found[j],
                ) == ascii_lower(other[j]) by {
                    assert(ascii_lower(wanted[j]) == ascii_lower(other[j]));
                }
            }
            if eq_ignore_ascii_case(found, other) {
                assert forall|j: int| 0 <= j < found.len() implies ascii_lower(
                    #[trigger] found[j],
                ) == ascii_lower(wanted[j]) by {
                    assert(ascii_lower(wanted[j]) == ascii_lower(other[j]));
                }
            }
        },
        None => {},
    }
}

/// Taking one entry out of a listing takes its path out of the selected
/// paths, where it was selected, and nothing else.
proof fn lemma_selected_without(entries: Seq<DirEntryView>, wanted: Seq<u8>, i: int)
    requires
        0 <= i < entries.len(),
    ensures
        matching_paths(entries, wanted).to_multiset() == if is_match(entries[i], wanted) {
            matching_paths(entries.remove(i), wanted).to_multiset().insert(entries[i].path)
        } else {
            matching_paths(entries.remove(i), wanted).to_multiset()
        },
{
    broadcast use vstd::multiset::group_multiset_axioms;

    let keep = |e: DirEntryView| is_match(e, wanted);
    let path_of = |e: DirEntryView| e.path;
    let before = entries.take(i);
    let one = seq![entries[i]];
    let after = entries.skip(i + 1);
    assert(entries =~= before + one + after);
    assert(entries.remove(i) =~= before + after);
    Seq::filter_distributes_over_add(before + one, after, keep);
    Seq::filter_distributes_over_add(before, one, keep);
    Seq::filter_distributes_over_add(before, after, keep);
    let kept_before = before.filter(keep).map_values(path_of);
    let kept_after = after.filter(keep).map_values(path_of);
    let kept_one = one.filter(keep).map_values(path_of);
    assert(matching_paths(entries, wanted) =~= kept_before + kept_one + kept_after);
    assert(matching_paths(entries.remove(i), wanted) =~= kept_before + kept_after);
    lemma_multiset_commutative(kept_before + kept_one, kept_after);
    lemma_multiset_commutative(kept_before, kept_one);
    lemma_multiset_commutative(kept_before, kept_after);
    assert(one.drop_last() =~= Seq::<DirEntryView>::empty());
    reveal_with_fuel(Seq::filter, 2);
    if is_match(entries[i], wanted) {
        assert(one.filter(keep) =~= one);
        assert(kept_one =~= Seq::<Seq<char>>::empty().push(entries[i].path));
        to_multiset_build(Seq::<Seq<char>>::empty(), entries[i].path);
        to_multiset_len(Seq::<Seq<char>>::empty());
        assert(kept_one.to_multiset() =~= Multiset::<Seq<char>>::empty().insert(entries[i].path));
        assert(kept_before.to_multiset().add(kept_one.to_multiset()).add(
            kept_after.to_multiset(),
        ) =~= kept_before.to_multiset().add(kept_after.to_multiset()).insert(entries[i].path));
    } else {
        assert(one.filter(keep) =~= Seq::<DirEntryView>::empty());
        assert(kept_one =~= Seq::<Seq<char>>::empty());
        to_multiset_len(kept_one);
        assert(kept_one.to_multiset() =~= Multiset::<Seq<char>>::empty());
        assert(kept_before.to_multiset().add(kept_one.to_multiset()).add(
            kept_after.to_multiset(),
        ) =~= kept_before.to_multiset().add(kept_after.to_multiset()));
    }
}

/// Listings that hold the same entries, in whatever order, have the same
/// selected paths, order aside.
pub proof fn lemma_selected_whatever_the_order(
    first: Seq<DirEntryView>,
    second: Seq<DirEntryView>,
    wanted: Seq<u8>,
)
    requires
        first.to_multiset() == second.to_multiset(),
    ensures
        matching_paths(first, wanted).to_multiset() == matching_paths(
            second,
            wanted,
        ).to_multiset(),
    decreases first.len(),
{
    to_multiset_len(first);
    to_multiset_len(second);
    if first.len() == 0 {
        assert(first =~= second);
    } else {
        let at = first.len() - 1;
        let entry = first[at];
        assert(first.contains(entry));
        to_multiset_contains(first, entry);
        to_multiset_contains(second, entry);
        let i = choose|i: int| 0 <= i < second.len() && second[i] == entry;
        to_multiset_remove(first, at);
        to_multiset_remove(second, i);
        lemma_selected_whatever_the_order(first.remove(at), second.remove(i), wanted);
        lemma_selected_without(first, wanted, at);
        lemma_selected_without(second, wanted, i);
    }
}

/// Discovery does not depend on the order of the listing: from listings that
/// hold the same entries it picks the same candidates, in the same order.
pub proof fn lemma_discovery_ignores_listing_order(
    first: Seq<DirEntryView>,
    second: Seq<DirEntryView>,
    from_first: Seq<Seq<char>>,
    from_second: Seq<Seq<char>>,
)
    requires
        first.to_multiset() == second.to_multiset(),
        ascending(from_first),
        from_first.to_multiset() == candidates(first).to_multiset(),
        ascending(from_second),
        from_second.to_multiset() == candidates(second).to_multiset(),
    ensures
        from_first == from_second,
{
    let jpeg = bytes_of(jpeg_extension());
    let jpg = bytes_of(jpg_extension());
    lemma_selected_whatever_the_order(first, second, jpeg);
    lemma_selected_whatever_the_order(first, second, jpg);
    lemma_multiset_commutative(matching_paths(first, jpeg), matching_paths(first, jpg));
    lemma_multiset_commutative(matching_paths(second, jpeg), matching_paths(second, jpg));
    lemma_ascending_unique(from_first, from_second);
}

} // verus!
