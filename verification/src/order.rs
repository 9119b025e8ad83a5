//! The order of the catalogue: ascending by author, and stable.

use crate::book::{records, Book, BookView};
use vstd::prelude::*;
use vstd::set_lib::{lemma_int_range, lemma_set_subset_finite, lemma_subset_equality, set_int_range};
use vstd::string::*;
use vstd::utf8::encode_utf8;

verus! {

/// Whether `first` comes before `second`, or is equal to it, in the
/// lexicographic order of byte strings: the first byte in which they differ
/// decides, and a string comes before every string that it begins.
pub open spec fn bytes_le(first: Seq<u8>, second: Seq<u8>) -> bool
    decreases first.len(),
{
    if first.len() == 0 {
        true
    } else if second.len() == 0 {
        false
    } else if first[0] != second[0] {
        first[0] < second[0]
    } else {
        bytes_le(first.skip(1), second.skip(1))
    }
}

/// Whether the author `first` comes before the author `second`, or is equal
/// to it: authors are ordered as the byte strings of their UTF-8 encodings.
pub open spec fn author_le(first: Seq<char>, second: Seq<char>) -> bool {
    bytes_le(encode_utf8(first), encode_utf8(second))
}

/// Of any two byte strings, one comes before the other or they are equal.
pub proof fn lemma_bytes_le_total(first: Seq<u8>, second: Seq<u8>)
    ensures
        bytes_le(first, second) || bytes_le(second, first),
    decreases first.len(),
{
    if first.len() > 0 && second.len() > 0 && first[0] == second[0] {
        lemma_bytes_le_total(first.skip(1), second.skip(1));
    }
}

/// What comes before a string that comes before a third comes before the
/// third.
pub proof fn lemma_bytes_le_transitive(first: Seq<u8>, second: Seq<u8>, third: Seq<u8>)
    requires
        bytes_le(first, second),
        bytes_le(second, third),
    ensures
        bytes_le(first, third),
    decreases first.len(),
{
    if first.len() > 0 && first[0] == second[0] && second[0] == third[0] {
        lemma_bytes_le_transitive(first.skip(1), second.skip(1), third.skip(1));
    }
}

/// Two byte strings of which each comes before the other are equal.
pub proof fn lemma_bytes_le_antisymmetric(first: Seq<u8>, second: Seq<u8>)
    requires
        bytes_le(first, second),
        bytes_le(second, first),
    ensures
        first == second,
    decreases first.len(),
{
    if first.len() > 0 {
        lemma_bytes_le_antisymmetric(first.skip(1), second.skip(1));
        assert(first =~= seq![first[0]] + first.skip(1));
        assert(second =~= seq![second[0]] + second.skip(1));
    } else {
        assert(first =~= second);
    }
}

/// Whether the author `first` comes before the author `second` or is equal
/// to it.
pub fn author_precedes(first: &str, second: &str) -> (yes: bool)
    ensures
        yes == author_le(first@, second@),
{
    let left = first.as_bytes();
    let right = second.as_bytes();
    let mut at: usize = 0;
    proof {
        assert(left@.skip(0) =~= left@);
        assert(right@.skip(0) =~= right@);
    }
    while at < left.len() && at < right.len()
        invariant
            left@ == encode_utf8(first@),
            right@ == encode_utf8(second@),
            at <= left@.len(),
            at <= right@.len(),
            bytes_le(left@, right@) == bytes_le(left@.skip(at as int), right@.skip(at as int)),
        decreases left@.len() - at,
    {
        proof {
            assert(left@.skip(at as int)[0] == left@[at as int]);
            assert(right@.skip(at as int)[0] == right@[at as int]);
        }
        if left[at] != right[at] {
            return left[at] < right[at];
        }
        proof {
            assert(left@.skip(at as int).skip(1) =~= left@.skip(at + 1));
            assert(right@.skip(at as int).skip(1) =~= right@.skip(at + 1));
        }
        at += 1;
    }
    at == left.len()
}

/// Whether the authors of `books` ascend.
pub open spec fn is_sorted_by_author(books: Seq<BookView>) -> bool {
    forall|i: int, j: int|
        #![trigger books[i], books[j]]
        0 <= i < j < books.len() ==> author_le(books[i].author, books[j].author)
}

/// Whether `output` holds the books of `input`, each of them once, with
/// `from[i]` the place in `input` of the book at place `i` of `output`.
pub open spec fn is_arrangement(from: Seq<int>, input: Seq<BookView>, output: Seq<BookView>)
    -> bool {
    &&& from.len() == output.len()
    &&& input.len() == output.len()
    &&& forall|i: int|
        0 <= i < output.len() ==> 0 <= #[trigger] from[i] < input.len() && output[i]
            == input[from[i]]
    &&& forall|i: int, j: int|
        #![trigger from[i], from[j]]
        0 <= i < j < output.len() ==> from[i] != from[j]
}

/// Whether books of `output` that neither come before the other stand in the
/// order of the places `from` that they came from.
pub open spec fn keeps_ties_in_order(from: Seq<int>, output: Seq<BookView>) -> bool {
    forall|i: int, j: int|
        #![trigger from[i], from[j]]
        0 <= i < j < output.len() && author_le(output[j].author, output[i].author) ==> from[i]
            < from[j]
}

/// Whether `from` shows `output` to be `input` sorted by author, with books
/// of equal authors left in the order that they have in `input`.
pub open spec fn is_stable_sort_by(from: Seq<int>, input: Seq<BookView>, output: Seq<BookView>)
    -> bool {
    &&& is_arrangement(from, input, output)
    &&& is_sorted_by_author(output)
    &&& keeps_ties_in_order(from, output)
}

/// Whether `output` is `input` sorted by author, ascending and stable.
pub open spec fn is_stable_sort_of(output: Seq<BookView>, input: Seq<BookView>) -> bool {
    exists|from: Seq<int>| #[trigger] is_stable_sort_by(from, input, output)
}

/// A stable sort of the two halves' stable sorts, one after the other, is a
/// stable sort of the two halves, one after the other.
proof fn lemma_stable_sort_of_parts(
    left: Seq<BookView>,
    right: Seq<BookView>,
    left_sorted: Seq<BookView>,
    right_sorted: Seq<BookView>,
    output: Seq<BookView>,
)
    requires
        is_stable_sort_of(left_sorted, left),
        is_stable_sort_of(right_sorted, right),
        is_stable_sort_of(output, left_sorted + right_sorted),
    ensures
        is_stable_sort_of(output, left + right),
{
    let from_left = choose|from: Seq<int>| #[trigger] is_stable_sort_by(from, left, left_sorted);
    let from_right = choose|from: Seq<int>| #[trigger]
        is_stable_sort_by(from, right, right_sorted);
    let merged = choose|from: Seq<int>| #[trigger]
        is_stable_sort_by(from, left_sorted + right_sorted, output);
    let half = left.len() as int;
    let from = Seq::new(
        output.len(),
        |i: int|
            if merged[i] < half {
                from_left[merged[i]]
            } else {
                half + from_right[merged[i] - half]
            },
    );
    let sorted = left_sorted + right_sorted;
    let input = left + right;
    assert forall|i: int| 0 <= i < output.len() implies 0 <= #[trigger] from[i] < input.len()
        && output[i] == input[from[i]] by {
        let at = merged[i];
        assert(output[i] == sorted[at]);
        if at < half {
            assert(sorted[at] == left_sorted[at]);
            assert(left_sorted[at] == left[from_left[at]]);
        } else {
            assert(sorted[at] == right_sorted[at - half]);
            assert(right_sorted[at - half] == right[from_right[at - half]]);
        }
    }
    assert forall|i: int, j: int|
        #![trigger from[i], from[j]]
        0 <= i < j < output.len() implies from[i] != from[j] && (author_le(
        output[j].author,
        output[i].author,
    ) ==> from[i] < from[j]) by {
        let (p, q) = (merged[i], merged[j]);
        assert(p != q);
        assert(output[i] == sorted[p] && output[j] == sorted[q]);
        if p < half && q < half {
            assert(sorted[p] == left_sorted[p] && sorted[q] == left_sorted[q]);
            if p < q {
                assert(from_left[p] != from_left[q]);
            } else {
                assert(from_left[q] != from_left[p]);
            }
        } else if p >= half && q >= half {
            assert(sorted[p] == right_sorted[p - half] && sorted[q] == right_sorted[q - half]);
            if p < q {
                assert(from_right[p - half] != from_right[q - half]);
            } else {
                assert(from_right[q - half] != from_right[p - half]);
            }
        } else {
            assert(0 <= from_left[if p < half { p } else { q }] < half);
            assert(0 <= from_right[if p < half { q - half } else { p - half }]);
        }
    }
    assert(is_stable_sort_by(from, input, output));
}

/// Every place of the input is the source of some place of an arrangement.
proof fn lemma_arrangement_reaches(
    from: Seq<int>,
    input: Seq<BookView>,
    output: Seq<BookView>,
    place: int,
)
    requires
        is_arrangement(from, input, output),
        0 <= place < input.len(),
    ensures
        exists|i: int| 0 <= i < from.len() && from[i] == place,
{
    let places = set_int_range(0, input.len() as int);
    assert forall|i: int, j: int| 0 <= i < from.len() && 0 <= j < from.len() && i != j implies from[i]
        != from[j] by {
        if i < j {
            assert(from[i] != from[j]);
        } else {
            assert(from[j] != from[i]);
        }
    }
    from.unique_seq_to_set();
    lemma_int_range(0, input.len() as int);
    assert forall|source: int| from.to_set().contains(source) implies places.contains(source) by {
        let i = choose|i: int| 0 <= i < from.len() && from[i] == source;
        assert(0 <= from[i] < input.len());
    }
    lemma_set_subset_finite(places, from.to_set());
    lemma_subset_equality(from.to_set(), places);
    assert(places.contains(place));
    assert(from.contains(place));
}

/// Two stable sorts of one input take every place from the same source.
proof fn lemma_same_sources(
    first_from: Seq<int>,
    second_from: Seq<int>,
    input: Seq<BookView>,
    first: Seq<BookView>,
    second: Seq<BookView>,
    upto: int,
)
    requires
        is_stable_sort_by(first_from, input, first),
        is_stable_sort_by(second_from, input, second),
        0 <= upto <= input.len(),
    ensures
        forall|i: int| 0 <= i < upto ==> first_from[i] == second_from[i],
    decreases upto,
{
    if upto > 0 {
        lemma_same_sources(first_from, second_from, input, first, second, upto - 1);
        let i = upto - 1;
        let (ours, theirs) = (first_from[i], second_from[i]);
        if ours != theirs {
            lemma_arrangement_reaches(second_from, input, second, ours);
            lemma_arrangement_reaches(first_from, input, first, theirs);
            let j = choose|j: int| 0 <= j < second_from.len() && second_from[j] == ours;
            let k = choose|k: int| 0 <= k < first_from.len() && first_from[k] == theirs;
            if j < i {
                assert(first_from[j] == second_from[j]);
                assert(first_from[j] != first_from[i]);
            }
            if k < i {
                assert(first_from[k] == second_from[k]);
                assert(second_from[k] != second_from[i]);
            }
            assert(second[i] == input[theirs] && second[j] == input[ours]);
            assert(first[i] == input[ours] && first[k] == input[theirs]);
            assert(author_le(second[i].author, second[j].author));
            assert(author_le(first[i].author, first[k].author));
            assert(second_from[i] < second_from[j]);
            assert(first_from[i] < first_from[k]);
        }
    }
}

/// The stable sort of a catalogue is unique: two catalogues that are both
/// stable sorts of one input are equal.
pub proof fn lemma_stable_sort_is_unique(
    input: Seq<BookView>,
    first: Seq<BookView>,
    second: Seq<BookView>,
)
    requires
        is_stable_sort_of(first, input),
        is_stable_sort_of(second, input),
    ensures
        first == second,
{
    let first_from = choose|from: Seq<int>| #[trigger] is_stable_sort_by(from, input, first);
    let second_from = choose|from: Seq<int>| #[trigger] is_stable_sort_by(from, input, second);
    lemma_same_sources(first_from, second_from, input, first, second, input.len() as int);
    assert forall|i: int| 0 <= i < first.len() implies first[i] == second[i] by {
        assert(first[i] == input[first_from[i]]);
        assert(second[i] == input[second_from[i]]);
    }
    assert(first =~= second);
}

/// A stable sort of a catalogue holds as many books as the catalogue, and
/// its authors ascend.
pub proof fn lemma_stable_sort_is_sorted(input: Seq<BookView>, output: Seq<BookView>)
    requires
        is_stable_sort_of(output, input),
    ensures
        output.len() == input.len(),
        is_sorted_by_author(output),
{
}

/// The laws of the order of byte strings, for authors.
proof fn lemma_author_le_total(first: Seq<char>, second: Seq<char>)
    ensures
        author_le(first, second) || author_le(second, first),
{
    lemma_bytes_le_total(encode_utf8(first), encode_utf8(second));
}

proof fn lemma_author_le_transitive(first: Seq<char>, second: Seq<char>, third: Seq<char>)
    requires
        author_le(first, second),
        author_le(second, third),
    ensures
        author_le(first, third),
{
    lemma_bytes_le_transitive(encode_utf8(first), encode_utf8(second), encode_utf8(third));
}

/// Whether both halves of `whole`, which part at `half`, are sorted.
spec fn halves_sorted(whole: Seq<BookView>, half: int) -> bool {
    &&& 0 <= half <= whole.len()
    &&& forall|i: int, j: int|
        #![trigger whole[i], whole[j]]
        0 <= i < j < half ==> author_le(whole[i].author, whole[j].author)
    &&& forall|i: int, j: int|
        #![trigger whole[i], whole[j]]
        half <= i < j < whole.len() ==> author_le(whole[i].author, whole[j].author)
}

/// Whether the book at `place` of `whole` still waits in one of the halves,
/// of which `left` and `right` books are left.
spec fn waits(place: int, half: int, left: int, right: int) -> bool {
    0 <= place < left || half <= place < half + right
}

/// The state of a merge that takes the books off the ends of both halves:
/// `spare` holds the books taken so far, the last of the result first, and
/// `source` their places in `whole`.
spec fn is_merging(
    whole: Seq<BookView>,
    half: int,
    left: int,
    right: int,
    spare: Seq<BookView>,
    source: Seq<int>,
) -> bool {
    &&& 0 <= left <= half
    &&& 0 <= right <= whole.len() - half
    &&& spare.len() == source.len()
    &&& spare.len() == whole.len() - left - right
    &&& forall|t: int|
        0 <= t < spare.len() ==> 0 <= #[trigger] source[t] < whole.len() && !waits(
            source[t],
            half,
            left,
            right,
        ) && spare[t] == whole[source[t]]
    &&& forall|s: int, t: int|
        #![trigger spare[s], spare[t]]
        0 <= s < t < spare.len() ==> author_le(spare[t].author, spare[s].author) && (author_le(
            spare[s].author,
            spare[t].author,
        ) ==> source[t] < source[s])
    &&& forall|t: int, place: int|
        #![trigger spare[t], whole[place]]
        0 <= t < spare.len() && waits(place, half, left, right) ==> author_le(
            whole[place].author,
            spare[t].author,
        ) && (author_le(spare[t].author, whole[place].author) ==> place < source[t])
}

/// Taking the right book off the end of a half keeps the merge in order: the
/// last of the right half where it does not come before the last of the left
/// half, the last of the left half else.
proof fn lemma_merge_step(
    whole: Seq<BookView>,
    half: int,
    left: int,
    right: int,
    spare: Seq<BookView>,
    source: Seq<int>,
    from_right: bool,
)
    requires
        halves_sorted(whole, half),
        is_merging(whole, half, left, right, spare, source),
        from_right ==> right > 0,
        !from_right ==> left > 0,
        left > 0 && right > 0 ==> from_right == author_le(
            whole[left - 1].author,
            whole[half + right - 1].author,
        ),
    ensures
        from_right ==> is_merging(
            whole,
            half,
            left,
            right - 1,
            spare.push(whole[half + right - 1]),
            source.push(half + right - 1),
        ),
        !from_right ==> is_merging(
            whole,
            half,
            left - 1,
            right,
            spare.push(whole[left - 1]),
            source.push(left - 1),
        ),
{
    let taken = if from_right { half + right - 1 } else { left - 1 };
    let (left_after, right_after) = if from_right { (left, right - 1) } else { (left - 1, right) };
    let spare_after = spare.push(whole[taken]);
    let source_after = source.push(taken);
    let book = whole[taken];
    assert(waits(taken, half, left, right));
    assert forall|place: int| waits(place, half, left_after, right_after) implies author_le(
        #[trigger] whole[place].author,
        book.author,
    ) && (author_le(book.author, whole[place].author) ==> place < taken) by {
        if from_right {
            if place < left {
                let last = whole[left - 1];
                if place < left - 1 {
                    assert(author_le(whole[place].author, last.author));
                    lemma_author_le_transitive(whole[place].author, last.author, book.author);
                }
            } else {
                assert(author_le(whole[place].author, whole[taken].author));
            }
        } else {
            if place < left_after {
                assert(author_le(whole[place].author, whole[taken].author));
            } else {
                let last = whole[half + right - 1];
                lemma_author_le_total(book.author, last.author);
                if place < half + right - 1 {
                    assert(author_le(whole[place].author, last.author));
                    lemma_author_le_transitive(whole[place].author, last.author, book.author);
                    if author_le(book.author, whole[place].author) {
                        lemma_author_le_transitive(book.author, whole[place].author, last.author);
                    }
                }
            }
        }
    }
    assert forall|t: int| 0 <= t < spare_after.len() implies 0 <= #[trigger] source_after[t]
        < whole.len() && !waits(source_after[t], half, left_after, right_after) && spare_after[t]
        == whole[source_after[t]] by {
        if t < spare.len() {
            assert(source_after[t] == source[t]);
        }
    }
    assert forall|s: int, t: int|
        #![trigger spare_after[s], spare_after[t]]
        0 <= s < t < spare_after.len() implies author_le(
        spare_after[t].author,
        spare_after[s].author,
    ) && (author_le(spare_after[s].author, spare_after[t].author) ==> source_after[t]
        < source_after[s]) by {
        assert(source_after[s] == source[s]);
        if t < spare.len() {
            assert(source_after[t] == source[t]);
        } else {
            assert(whole[taken] == book);
        }
    }
    assert forall|t: int, place: int|
        #![trigger spare_after[t], whole[place]]
        0 <= t < spare_after.len() && waits(place, half, left_after, right_after) implies author_le(
        whole[place].author,
        spare_after[t].author,
    ) && (author_le(spare_after[t].author, whole[place].author) ==> place < source_after[t]) by {
        if t < spare.len() {
            assert(source_after[t] == source[t]);
            assert(waits(place, half, left, right));
        } else {
            assert(spare_after[t] == book && source_after[t] == taken);
            assert(author_le(whole[place].author, book.author));
        }
    }
    assert(is_merging(whole, half, left_after, right_after, spare_after, source_after));
}

/// Merges two sorted runs into one; where a book of `left` and a book of
/// `right` have equal authors, the book of `left` comes first.
fn merge(left: Vec<Book>, right: Vec<Book>) -> (output: Vec<Book>)
    requires
        is_sorted_by_author(records(left@)),
        is_sorted_by_author(records(right@)),
    ensures
        is_stable_sort_of(records(output@), records(left@) + records(right@)),
{
    let ghost whole = records(left@) + records(right@);
    let ghost half = left@.len() as int;
    let mut left = left;
    let mut right = right;
    let mut spare: Vec<Book> = Vec::new();
    let ghost mut source: Seq<int> = Seq::empty();
    proof {
        assert forall|i: int, j: int|
            #![trigger whole[i], whole[j]]
            0 <= i < j < half implies author_le(whole[i].author, whole[j].author) by {
            assert(whole[i] == records(left@)[i] && whole[j] == records(left@)[j]);
        }
        assert forall|i: int, j: int|
            #![trigger whole[i], whole[j]]
            half <= i < j < whole.len() implies author_le(whole[i].author, whole[j].author) by {
            assert(whole[i] == records(right@)[i - half] && whole[j] == records(right@)[j - half]);
        }
        assert(records(left@) =~= whole.subrange(0, half));
        assert(records(right@) =~= whole.subrange(half, whole.len() as int));
    }
    while left.len() > 0 || right.len() > 0
        invariant
            halves_sorted(whole, half),
            is_merging(whole, half, left@.len() as int, right@.len() as int, records(spare@), source),
            records(left@) == whole.subrange(0, left@.len() as int),
            records(right@) == whole.subrange(half, half + right@.len()),
        decreases left@.len() + right@.len(),
    {
        let from_right = if left.len() == 0 {
            true
        } else if right.len() == 0 {
            false
        } else {
            let ours = &left[left.len() - 1];
            let theirs = &right[right.len() - 1];
            proof {
                assert(ours@ == records(left@)[left@.len() - 1]);
                assert(theirs@ == records(right@)[right@.len() - 1]);
            }
            author_precedes(ours.author.as_str(), theirs.author.as_str())
        };
        proof {
            lemma_merge_step(
                whole,
                half,
                left@.len() as int,
                right@.len() as int,
                records(spare@),
                source,
                from_right,
            );
        }
        let ghost before = (records(left@), records(right@), records(spare@));
        let taken = if from_right {
            proof {
                source = source.push(half + right@.len() - 1);
                assert(before.1[right@.len() - 1] == whole[source.last()]);
            }
            right.pop()
        } else {
            proof {
                source = source.push(left@.len() - 1);
                assert(before.0[left@.len() - 1] == whole[source.last()]);
            }
            left.pop()
        };
        if let Some(book) = taken {
            spare.push(book);
            proof {
                assert(records(left@) =~= before.0.take(left@.len() as int));
                assert(records(right@) =~= before.1.take(right@.len() as int));
                assert(book@ == whole[source.last()]);
                assert(records(spare@) =~= before.2.push(book@));
                assert(records(left@) =~= whole.subrange(0, left@.len() as int));
                assert(records(right@) =~= whole.subrange(half, half + right@.len()));
            }
        }
    }
    let ghost taken = records(spare@);
    let ghost total = taken.len() as int;
    let mut output: Vec<Book> = Vec::new();
    while spare.len() > 0
        invariant
            records(spare@) == taken.take(spare@.len() as int),
            output@.len() + spare@.len() == total,
            total == taken.len(),
            forall|i: int|
                0 <= i < output@.len() ==> (#[trigger] records(output@)[i]) == taken[total - 1 - i],
        decreases spare@.len(),
    {
        let ghost before = (records(spare@), records(output@));
        if let Some(book) = spare.pop() {
            output.push(book);
            proof {
                assert(records(spare@) =~= before.0.take(spare@.len() as int));
                assert(records(output@) =~= before.1.push(book@));
                assert(book@ == before.0[spare@.len() as int]);
            }
        }
    }
    proof {
        let from = Seq::new(total as nat, |i: int| source[total - 1 - i]);
        let merged = records(output@);
        assert forall|i: int| 0 <= i < merged.len() implies 0 <= #[trigger] from[i] < whole.len()
            && merged[i] == whole[from[i]] by {
            assert(merged[i] == taken[total - 1 - i]);
        }
        assert forall|i: int, j: int|
            #![trigger from[i], from[j]]
            0 <= i < j < merged.len() implies from[i] != from[j] && author_le(
            merged[i].author,
            merged[j].author,
        ) && (author_le(merged[j].author, merged[i].author) ==> from[i] < from[j]) by {
            let (s, t) = (total - 1 - j, total - 1 - i);
            assert(merged[i] == taken[t] && merged[j] == taken[s]);
            assert(from[i] == source[t] && from[j] == source[s]);
            if source[s] == source[t] {
                assert(taken[s] == taken[t]);
                lemma_author_le_total(taken[s].author, taken[t].author);
            }
        }
        assert forall|i: int, j: int|
            #![trigger merged[i], merged[j]]
            0 <= i < j < merged.len() implies author_le(merged[i].author, merged[j].author) by {
            assert(from[i] != from[j]);
        }
        assert(is_stable_sort_by(from, whole, merged));
    }
    output
}

/// Sorts a run by author: halves it, sorts the halves and merges them.
fn sorted_run(run: Vec<Book>) -> (output: Vec<Book>)
    ensures
        is_stable_sort_of(records(output@), records(run@)),
    decreases run@.len(),
{
    if run.len() <= 1 {
        proof {
            let from = Seq::new(run@.len(), |i: int| i);
            assert(is_stable_sort_by(from, records(run@), records(run@)));
        }
        return run;
    }
    let mut left = run;
    let middle = left.len() / 2;
    let right = left.split_off(middle);
    let ghost first = records(left@);
    let ghost second = records(right@);
    let left = sorted_run(left);
    let right = sorted_run(right);
    let output = merge(left, right);
    proof {
        assert(records(run@) =~= first + second);
        lemma_stable_sort_of_parts(first, second, records(left@), records(right@), records(output@));
    }
    output
}

/// Sorts `books` by author, ascending. The sort is stable: books whose
/// authors are equal keep the order that they had.
pub fn sort_by_author(books: &mut Vec<Book>)
    ensures
        is_stable_sort_of(records(final(books)@), records(old(books)@)),
{
    let mut run: Vec<Book> = Vec::new();
    std::mem::swap(books, &mut run);
    let sorted = sorted_run(run);
    *books = sorted;
}

} // verus!
