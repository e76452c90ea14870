//! Paths and their segments.
//!
//! A path is text whose segments are separated by `/`. Empty segments do not
//! count, so leading, trailing and repeated separators change nothing.

use vstd::prelude::*;
use vstd::std_specs::iter::IteratorSpec;

verus! {

broadcast use vstd::string::group_string_axioms;

/// The pieces between the separators of `path`, empty ones included: one more
/// piece than `path` holds separators.
pub open spec fn pieces(path: Seq<char>) -> Seq<Seq<char>>
    decreases path.len(),
{
    if path.len() == 0 {
        seq![Seq::<char>::empty()]
    } else {
        let before = pieces(path.drop_last());
        if path.last() == '/' {
            before.push(Seq::<char>::empty())
        } else {
            before.drop_last().push(before.last().push(path.last()))
        }
    }
}

/// The test by which a piece counts as a segment: it is not empty.
pub open spec fn is_segment() -> spec_fn(Seq<char>) -> bool {
    |piece: Seq<char>| piece.len() > 0
}

/// The segments of `path`: its pieces in order, without the empty ones.
pub open spec fn segments(path: Seq<char>) -> Seq<Seq<char>> {
    pieces(path).filter(is_segment())
}

/// The texts that a vector of string slices holds.
pub open spec fn texts(parts: Seq<&str>) -> Seq<Seq<char>> {
    parts.map_values(|part: &str| part@)
}

/// A path always splits into at least one piece.
pub proof fn lemma_pieces_nonempty(path: Seq<char>)
    ensures
        pieces(path).len() > 0,
    decreases path.len(),
{
    if path.len() > 0 {
        lemma_pieces_nonempty(path.drop_last());
    }
}

/// Dropping the last piece and keeping the segments of the rest gives the
/// segments, but for the last piece where it is one.
proof fn lemma_segments_by_last_piece(path: Seq<char>)
    ensures
        pieces(path).len() > 0,
        segments(path) == if pieces(path).last().len() > 0 {
            pieces(path).drop_last().filter(is_segment()).push(pieces(path).last())
        } else {
            pieces(path).drop_last().filter(is_segment())
        },
{
    lemma_pieces_nonempty(path);
    reveal(Seq::filter);
}

/// The text that pieces spell when a separator is written between each two
/// neighbours.
pub open spec fn joined(parts: Seq<Seq<char>>) -> Seq<char>
    decreases parts.len(),
{
    if parts.len() == 0 {
        Seq::empty()
    } else if parts.len() == 1 {
        parts[0]
    } else {
        joined(parts.drop_last()) + seq!['/'] + parts.last()
    }
}

/// Splitting loses nothing: the pieces of a path, joined by separators, spell
/// the path again.
pub proof fn lemma_pieces_rejoin(path: Seq<char>)
    ensures
        joined(pieces(path)) == path,
    decreases path.len(),
{
    if path.len() == 0 {
        assert(joined(pieces(path)) == path);
    } else {
        let shorter = path.drop_last();
        let before = pieces(shorter);
        lemma_pieces_rejoin(shorter);
        lemma_pieces_nonempty(shorter);
        assert(shorter.push(path.last()) == path);
        if path.last() == '/' {
            assert(pieces(path).drop_last() == before);
            assert(joined(pieces(path)) == path);
        } else {
            let grown = before.last().push(path.last());
            assert(pieces(path).drop_last() == before.drop_last());
            assert(pieces(path).last() == grown);
            if before.len() > 1 {
                assert(joined(before.drop_last()) + seq!['/'] + grown == (joined(
                    before.drop_last(),
                ) + seq!['/'] + before.last()).push(path.last()));
            }
            assert(joined(pieces(path)) == path);
        }
    }
}

/// Splitting is compositional: the pieces of two paths joined by a separator
/// are the pieces of the first followed by the pieces of the second.
pub proof fn lemma_pieces_join(front: Seq<char>, back: Seq<char>)
    ensures
        pieces(front + seq!['/'] + back) == pieces(front) + pieces(back),
    decreases back.len(),
{
    let whole = front + seq!['/'] + back;
    if back.len() == 0 {
        assert(whole.drop_last() == front);
        assert(pieces(back) == seq![Seq::<char>::empty()]);
        assert(pieces(whole) == pieces(front) + pieces(back));
    } else {
        let shorter = front + seq!['/'] + back.drop_last();
        assert(whole.drop_last() == shorter);
        assert(whole.last() == back.last());
        lemma_pieces_join(front, back.drop_last());
        lemma_pieces_nonempty(back.drop_last());
        let rest = pieces(back.drop_last());
        if back.last() == '/' {
            assert(pieces(whole) == pieces(front) + pieces(back));
        } else {
            assert((pieces(front) + rest).drop_last() == pieces(front) + rest.drop_last());
            assert((pieces(front) + rest).last() == rest.last());
            assert(pieces(whole) == pieces(front) + pieces(back));
        }
    }
}

/// The segments of two paths joined by a separator are the segments of the
/// first followed by the segments of the second.
pub proof fn lemma_segments_join(front: Seq<char>, back: Seq<char>)
    ensures
        segments(front + seq!['/'] + back) == segments(front) + segments(back),
{
    lemma_pieces_join(front, back);
    Seq::filter_distributes_over_add(pieces(front), pieces(back), is_segment());
}

/// The empty path has no segments.
pub proof fn lemma_segments_of_nothing()
    ensures
        segments(Seq::<char>::empty()) == Seq::<Seq<char>>::empty(),
{
    reveal_with_fuel(Seq::filter, 2);
    assert(pieces(Seq::<char>::empty()).drop_last() == Seq::<Seq<char>>::empty());
}

/// Text without a separator is a single piece.
pub proof fn lemma_pieces_of_word(word: Seq<char>)
    requires
        !word.contains('/'),
    ensures
        pieces(word) == seq![word],
    decreases word.len(),
{
    if word.len() == 0 {
        assert(word == Seq::<char>::empty());
    } else {
        assert(word.last() == word[word.len() - 1]);
        assert forall|i: int| 0 <= i < word.drop_last().len() implies word.drop_last()[i]
            != '/' by {
            assert(word.drop_last()[i] == word[i]);
        }
        lemma_pieces_of_word(word.drop_last());
        assert(word.drop_last().push(word.last()) == word);
        assert(pieces(word) == seq![word]);
    }
}

/// Text that is not empty and holds no separator is its own single segment.
pub proof fn lemma_segments_of_word(word: Seq<char>)
    requires
        word.len() > 0,
        !word.contains('/'),
    ensures
        segments(word) == seq![word],
{
    lemma_pieces_of_word(word);
    reveal_with_fuel(Seq::filter, 2);
    assert(seq![word].drop_last() == Seq::<Seq<char>>::empty());
    assert(Seq::<Seq<char>>::empty().push(word) == seq![word]);
}

/// A separator at the start of a path changes nothing.
pub proof fn lemma_leading_separator(path: Seq<char>)
    ensures
        segments(seq!['/'] + path) == segments(path),
{
    let nothing = Seq::<char>::empty();
    lemma_segments_join(nothing, path);
    lemma_segments_of_nothing();
    assert(nothing + seq!['/'] + path == seq!['/'] + path);
    assert(segments(nothing) + segments(path) == segments(path));
}

/// A separator at the end of a path changes nothing.
pub proof fn lemma_trailing_separator(path: Seq<char>)
    ensures
        segments(path + seq!['/']) == segments(path),
{
    let nothing = Seq::<char>::empty();
    lemma_segments_join(path, nothing);
    lemma_segments_of_nothing();
    assert(path + seq!['/'] + nothing == path + seq!['/']);
    assert(segments(path) + segments(nothing) == segments(path));
}

/// A separator written twice counts once.
pub proof fn lemma_repeated_separator(front: Seq<char>, back: Seq<char>)
    ensures
        segments(front + seq!['/'] + seq!['/'] + back) == segments(front + seq!['/'] + back),
{
    lemma_segments_join(front + seq!['/'], back);
    lemma_trailing_separator(front);
    lemma_segments_join(front, back);
}

/// No piece holds a separator.
pub proof fn lemma_pieces_hold_no_separator(path: Seq<char>, i: int)
    requires
        0 <= i < pieces(path).len(),
    ensures
        !pieces(path)[i].contains('/'),
    decreases path.len(),
{
    if path.len() > 0 {
        let before = pieces(path.drop_last());
        lemma_pieces_nonempty(path.drop_last());
        if i < before.len() - 1 {
            lemma_pieces_hold_no_separator(path.drop_last(), i);
        } else if path.last() != '/' {
            lemma_pieces_hold_no_separator(path.drop_last(), before.len() - 1);
            let grown = before.last().push(path.last());
            assert forall|k: int| 0 <= k < grown.len() implies grown[k] != '/' by {
                if k < before.last().len() {
                    assert(before.last().contains(before.last()[k]));
                }
            }
        } else if i == before.len() - 1 {
            lemma_pieces_hold_no_separator(path.drop_last(), i);
        }
    }
}

/// Every character of a piece is a character of the path.
pub proof fn lemma_pieces_hold_path_characters(path: Seq<char>, i: int, c: char)
    requires
        0 <= i < pieces(path).len(),
        pieces(path)[i].contains(c),
    ensures
        path.contains(c),
    decreases path.len(),
{
    if path.len() > 0 {
        let shorter = path.drop_last();
        let before = pieces(shorter);
        lemma_pieces_nonempty(shorter);
        let k = choose|k: int| 0 <= k < pieces(path)[i].len() && pieces(path)[i][k] == c;
        if i < before.len() - 1 || (i == before.len() - 1 && path.last() == '/') {
            assert(before[i] == pieces(path)[i]);
            lemma_pieces_hold_path_characters(shorter, i, c);
            let at = choose|at: int| 0 <= at < shorter.len() && shorter[at] == c;
            assert(path[at] == c);
        } else if path.last() != '/' {
            if k < before.last().len() {
                assert(before.last()[k] == c);
                lemma_pieces_hold_path_characters(shorter, before.len() - 1, c);
                let at = choose|at: int| 0 <= at < shorter.len() && shorter[at] == c;
                assert(path[at] == c);
            } else {
                assert(path[path.len() - 1] == c);
            }
        }
    }
}

/// Every character of a segment is a character of the path.
pub proof fn lemma_segments_hold_path_characters(path: Seq<char>, i: int, c: char)
    requires
        0 <= i < segments(path).len(),
        segments(path)[i].contains(c),
    ensures
        path.contains(c),
{
    let segment = segments(path)[i];
    assert(segments(path).contains(segment));
    pieces(path).lemma_filter_contains_rev(is_segment(), segment);
    let k = choose|k: int| 0 <= k < pieces(path).len() && pieces(path)[k] == segment;
    lemma_pieces_hold_path_characters(path, k, c);
}

/// Every segment holds at least one character and no separator.
pub proof fn lemma_segments_shape(path: Seq<char>, i: int)
    requires
        0 <= i < segments(path).len(),
    ensures
        segments(path)[i].len() > 0,
        !segments(path)[i].contains('/'),
{
    let segment = segments(path)[i];
    pieces(path).lemma_filter_pred(is_segment(), i);
    assert(segments(path).contains(segment));
    pieces(path).lemma_filter_contains_rev(is_segment(), segment);
    let k = choose|k: int| 0 <= k < pieces(path).len() && pieces(path)[k] == segment;
    lemma_pieces_hold_no_separator(path, k);
}

/// Splits `path` at its separators and keeps the segments that are not empty.
pub fn split_segments<'a>(path: &'a str) -> (parts: Vec<&'a str>)
    ensures
        texts(parts@) == segments(path@),
{
    let total = path.unicode_len();
    let mut parts: Vec<&'a str> = Vec::new();
    let mut rest = path.chars();
    let mut start: usize = 0;
    let mut at: usize = 0;
    proof {
        assert(path@.take(0) == Seq::<char>::empty());
        assert(path@.subrange(0, 0) == Seq::<char>::empty());
        assert(pieces(path@.take(0)).drop_last() == Seq::<Seq<char>>::empty());
        reveal(Seq::filter);
        assert(texts(parts@) == Seq::<Seq<char>>::empty());
    }
    loop
        invariant
            total == path@.len(),
            start <= at <= total,
            rest.remaining() == path@.skip(at as int),
            rest.obeys_prophetic_iter_laws(),
            pieces(path@.take(at as int)).len() > 0,
            pieces(path@.take(at as int)).last() == path@.subrange(start as int, at as int),
            texts(parts@) == pieces(path@.take(at as int)).drop_last().filter(is_segment()),
        decreases total - at,
    {
        let ghost seen = path@.take(at as int);
        match rest.next() {
            None => {
                assert(path@.take(at as int) == path@);
                proof {
                    lemma_segments_by_last_piece(path@);
                }
                if start < at {
                    let ghost before = parts@;
                    let part = path.substring_char(start, at);
                    parts.push(part);
                    assert(texts(parts@) =~= texts(before).push(part@));
                }
                return parts;
            },
            Some(c) => {
                proof {
                    let next = path@.take(at + 1);
                    assert(next.drop_last() == seen);
                    assert(next.last() == c);
                    assert(path@.skip(at as int).drop_first() == path@.skip(at + 1));
                    lemma_pieces_nonempty(next);
                    lemma_segments_by_last_piece(seen);
                }
                if c == '/' {
                    if start < at {
                        let ghost before = parts@;
                        let part = path.substring_char(start, at);
                        parts.push(part);
                        assert(texts(parts@) =~= texts(before).push(part@));
                    }
                    start = at + 1;
                    proof {
                        let next = path@.take(at + 1);
                        assert(pieces(next).drop_last() == pieces(seen));
                        assert(path@.subrange(start as int, at + 1) == Seq::<char>::empty());
                    }
                } else {
                    proof {
                        let next = path@.take(at + 1);
                        assert(pieces(next).drop_last() == pieces(seen).drop_last());
                        assert(path@.subrange(start as int, at + 1) == path@.subrange(
                            start as int,
                            at as int,
                        ).push(c));
                    }
                }
                at = at + 1;
            },
        }
    }
}

/// Whether two texts hold the same characters.
pub fn same_text(a: &str, b: &str) -> (same: bool)
    ensures
        same == (a@ == b@),
{
    let mut left = a.chars();
    let mut right = b.chars();
    let ghost mut seen: int = 0;
    loop
        invariant
            0 <= seen <= a@.len(),
            seen <= b@.len(),
            left.remaining() == a@.skip(seen),
            right.remaining() == b@.skip(seen),
            a@.take(seen) == b@.take(seen),
            left.obeys_prophetic_iter_laws(),
            right.obeys_prophetic_iter_laws(),
        decreases a@.len() - seen,
    {
        match (left.next(), right.next()) {
            (None, None) => {
                assert(a@ == a@.take(seen));
                assert(b@ == b@.take(seen));
                return true;
            },
            (Some(c), Some(d)) => {
                if c != d {
                    assert(a@[seen] != b@[seen]);
                    return false;
                }
                proof {
                    assert(a@.take(seen + 1) == a@.take(seen).push(c));
                    assert(b@.take(seen + 1) == b@.take(seen).push(d));
                    assert(a@.skip(seen).drop_first() == a@.skip(seen + 1));
                    assert(b@.skip(seen).drop_first() == b@.skip(seen + 1));
                    seen = seen + 1;
                }
            },
            _ => {
                assert(a@.len() != b@.len());
                return false;
            },
        }
    }
}

} // verus!
