//! Path patterns: which requests a pattern accepts, and what it extracts.
//!
//! A pattern is a path whose segments are literals, captures or wildcards. A
//! segment that begins with `:` captures the request segment at its position
//! under the name that follows the colon. A segment equal to `*` is a
//! wildcard. Matching does not support wildcards: it is defined for patterns
//! without them, and no route table is built from a route whose pattern
//! holds one.

use vstd::hash_map::StringHashMap;
use vstd::prelude::*;

use crate::http::routing::path::{
    lemma_segments_hold_path_characters, same_text, segments, texts,
};

verus! {

broadcast use vstd::string::group_string_axioms;

/// A pattern segment that captures: it begins with `:`.
pub open spec fn is_capture(segment: Seq<char>) -> bool {
    segment.len() > 0 && segment[0] == ':'
}

/// The name under which a capturing segment records its value: what follows
/// the colon.
pub open spec fn capture_name(segment: Seq<char>) -> Seq<char> {
    segment.skip(1)
}

/// A wildcard segment: exactly `*`.
pub open spec fn is_wildcard(segment: Seq<char>) -> bool {
    segment == seq!['*']
}

/// A static pattern: none of its segments captures or is a wildcard.
pub open spec fn is_static(pattern: Seq<Seq<char>>) -> bool {
    forall|i: int|
        0 <= i < pattern.len() ==> !is_capture(#[trigger] pattern[i]) && !is_wildcard(pattern[i])
}

/// Whether some segment of the pattern is a wildcard.
pub open spec fn has_wildcard(pattern: Seq<Seq<char>>) -> bool {
    exists|i: int| 0 <= i < pattern.len() && is_wildcard(#[trigger] pattern[i])
}

/// Whether a pattern segment admits a request segment: a capture admits any,
/// a literal only itself.
pub open spec fn admits(segment: Seq<char>, value: Seq<char>) -> bool {
    is_capture(segment) || segment == value
}

/// Whether a pattern without wildcards accepts a request: both have the same
/// number of segments, and each pattern segment admits the request segment at
/// its position.
pub open spec fn accepts(pattern: Seq<Seq<char>>, request: Seq<Seq<char>>) -> bool {
    &&& pattern.len() == request.len()
    &&& forall|i: int| 0 <= i < pattern.len() ==> admits(#[trigger] pattern[i], request[i])
}

/// The parameters that a pattern extracts from a request of the same length:
/// each capturing segment binds its name to the request segment at its
/// position, a later segment overriding an earlier one of the same name.
pub open spec fn captures(pattern: Seq<Seq<char>>, request: Seq<Seq<char>>) -> Map<
    Seq<char>,
    Seq<char>,
>
    decreases pattern.len(),
{
    if pattern.len() == 0 || request.len() == 0 {
        Map::empty()
    } else {
        let earlier = captures(pattern.drop_last(), request.drop_last());
        if is_capture(pattern.last()) {
            earlier.insert(capture_name(pattern.last()), request.last())
        } else {
            earlier
        }
    }
}

/// A path without a star holds no wildcard segment.
pub proof fn lemma_no_star_no_wildcard(path: Seq<char>)
    requires
        !path.contains('*'),
    ensures
        !has_wildcard(segments(path)),
{
    if has_wildcard(segments(path)) {
        let i = choose|i: int| 0 <= i < segments(path).len() && is_wildcard(
            #[trigger] segments(path)[i],
        );
        assert(segments(path)[i][0] == '*');
        lemma_segments_hold_path_characters(path, i, '*');
    }
}

/// A path with neither a colon nor a star is a static pattern.
pub proof fn lemma_plain_path_is_static(path: Seq<char>)
    requires
        !path.contains(':'),
        !path.contains('*'),
    ensures
        is_static(segments(path)),
{
    assert forall|i: int| 0 <= i < segments(path).len() implies !is_capture(
        #[trigger] segments(path)[i],
    ) && !is_wildcard(segments(path)[i]) by {
        let segment = segments(path)[i];
        if is_capture(segment) {
            assert(segment[0] == ':');
            lemma_segments_hold_path_characters(path, i, ':');
        }
        if is_wildcard(segment) {
            assert(segment[0] == '*');
            lemma_segments_hold_path_characters(path, i, '*');
        }
    }
}

/// A static pattern accepts exactly the requests whose segments are its own.
pub proof fn lemma_static_accepts_itself(pattern: Seq<Seq<char>>, request: Seq<Seq<char>>)
    requires
        is_static(pattern),
    ensures
        accepts(pattern, request) <==> pattern == request,
{
    if accepts(pattern, request) {
        assert forall|i: int| 0 <= i < pattern.len() implies pattern[i] == request[i] by {
            assert(admits(pattern[i], request[i]));
        }
        assert(pattern =~= request);
    }
}

/// A static pattern extracts no parameters.
pub proof fn lemma_static_captures_nothing(pattern: Seq<Seq<char>>, request: Seq<Seq<char>>)
    requires
        is_static(pattern),
    ensures
        captures(pattern, request) == Map::<Seq<char>, Seq<char>>::empty(),
    decreases pattern.len(),
{
    if pattern.len() > 0 && request.len() > 0 {
        assert(!is_capture(pattern[pattern.len() - 1]));
        assert forall|i: int| 0 <= i < pattern.drop_last().len() implies !is_capture(
            #[trigger] pattern.drop_last()[i],
        ) && !is_wildcard(pattern.drop_last()[i]) by {
            assert(pattern.drop_last()[i] == pattern[i]);
        }
        lemma_static_captures_nothing(pattern.drop_last(), request.drop_last());
    }
}

/// A capturing segment binds its name to the request segment at its
/// position, unless a later segment captures under the same name.
pub proof fn lemma_capture_binds(pattern: Seq<Seq<char>>, request: Seq<Seq<char>>, i: int)
    requires
        pattern.len() == request.len(),
        0 <= i < pattern.len(),
        is_capture(pattern[i]),
        forall|j: int|
            i < j < pattern.len() && is_capture(#[trigger] pattern[j]) ==> capture_name(pattern[j])
                != capture_name(pattern[i]),
    ensures
        captures(pattern, request).contains_key(capture_name(pattern[i])),
        captures(pattern, request)[capture_name(pattern[i])] == request[i],
    decreases pattern.len(),
{
    if i < pattern.len() - 1 {
        assert(pattern.drop_last()[i] == pattern[i]);
        assert(request.drop_last()[i] == request[i]);
        assert forall|j: int|
            i < j < pattern.drop_last().len() && is_capture(
                #[trigger] pattern.drop_last()[j],
            ) implies capture_name(pattern.drop_last()[j]) != capture_name(
            pattern.drop_last()[i],
        ) by {
            assert(pattern.drop_last()[j] == pattern[j]);
        }
        lemma_capture_binds(pattern.drop_last(), request.drop_last(), i);
        assert(is_capture(pattern[pattern.len() - 1]) ==> capture_name(pattern[pattern.len() - 1])
            != capture_name(pattern[i]));
    }
}

/// Every name that a pattern binds is the name of one of its capturing
/// segments.
pub proof fn lemma_captured_names(
    pattern: Seq<Seq<char>>,
    request: Seq<Seq<char>>,
    name: Seq<char>,
)
    requires
        captures(pattern, request).contains_key(name),
    ensures
        exists|i: int|
            0 <= i < pattern.len() && is_capture(#[trigger] pattern[i]) && capture_name(pattern[i])
                == name,
    decreases pattern.len(),
{
    if pattern.len() > 0 && request.len() > 0 {
        let at = pattern.len() - 1;
        if is_capture(pattern[at]) && capture_name(pattern[at]) == name {
        } else {
            lemma_captured_names(pattern.drop_last(), request.drop_last(), name);
            let i = choose|i: int|
                0 <= i < pattern.drop_last().len() && is_capture(#[trigger] pattern.drop_last()[i])
                    && capture_name(pattern.drop_last()[i]) == name;
            assert(pattern[i] == pattern.drop_last()[i]);
        }
    }
}

/// The parameters that a map holds, each value as its text.
pub open spec fn bindings(params: StringHashMap<String>) -> Map<Seq<char>, Seq<char>> {
    params@.map_values(|value: String| value@)
}

/// Whether `segment` begins with a colon.
pub fn segment_is_capture(segment: &str) -> (capture: bool)
    ensures
        capture == is_capture(segment@),
{
    let mut rest = segment.chars();
    match rest.next() {
        Some(first) => first == ':',
        None => false,
    }
}

/// Whether `segment` is the wildcard.
pub fn segment_is_wildcard(segment: &str) -> (wildcard: bool)
    ensures
        wildcard == is_wildcard(segment@),
{
    proof {
        reveal_strlit("*");
        assert("*"@ =~= seq!['*']);
    }
    same_text(segment, "*")
}

/// Whether none of the segments of `pattern` captures or is a wildcard.
pub fn pattern_is_static(pattern: &Vec<&str>) -> (fixed: bool)
    ensures
        fixed == is_static(texts(pattern@)),
{
    let mut at: usize = 0;
    while at < pattern.len()
        invariant
            at <= pattern.len(),
            forall|i: int|
                0 <= i < at ==> !is_capture(#[trigger] texts(pattern@)[i]) && !is_wildcard(
                    texts(pattern@)[i],
                ),
        decreases pattern.len() - at,
    {
        if segment_is_capture(pattern[at]) || segment_is_wildcard(pattern[at]) {
            assert(is_capture(texts(pattern@)[at as int]) || is_wildcard(
                texts(pattern@)[at as int],
            ));
            return false;
        }
        at = at + 1;
    }
    true
}

/// Whether some segment of `pattern` is a wildcard.
pub fn pattern_has_wildcard(pattern: &Vec<&str>) -> (found: bool)
    ensures
        found == has_wildcard(texts(pattern@)),
{
    let mut at: usize = 0;
    while at < pattern.len()
        invariant
            at <= pattern.len(),
            forall|i: int| 0 <= i < at ==> !is_wildcard(#[trigger] texts(pattern@)[i]),
        decreases pattern.len() - at,
    {
        if segment_is_wildcard(pattern[at]) {
            assert(is_wildcard(texts(pattern@)[at as int]));
            return true;
        }
        at = at + 1;
    }
    false
}

/// Matches the segments of a request against those of a pattern without
/// wildcards, and extracts the parameters where the pattern accepts.
pub fn match_segments(pattern: &Vec<&str>, request: &Vec<&str>) -> (found: Option<
    StringHashMap<String>,
>)
    requires
        !has_wildcard(texts(pattern@)),
    ensures
        found is Some <==> accepts(texts(pattern@), texts(request@)),
        found matches Some(params) ==> bindings(params) == captures(
            texts(pattern@),
            texts(request@),
        ),
{
    if pattern.len() != request.len() {
        return None;
    }
    let mut params: StringHashMap<String> = StringHashMap::new();
    let mut at: usize = 0;
    proof {
        assert(bindings(params) =~= Map::<Seq<char>, Seq<char>>::empty());
    }
    while at < pattern.len()
        invariant
            at <= pattern.len(),
            pattern.len() == request.len(),
            forall|i: int|
                0 <= i < at ==> admits(#[trigger] texts(pattern@)[i], texts(request@)[i]),
            bindings(params) == captures(
                texts(pattern@).take(at as int),
                texts(request@).take(at as int),
            ),
        decreases pattern.len() - at,
    {
        let segment = pattern[at];
        let value = request[at];
        proof {
            let p = texts(pattern@).take(at + 1);
            let r = texts(request@).take(at + 1);
            assert(p.drop_last() == texts(pattern@).take(at as int));
            assert(r.drop_last() == texts(request@).take(at as int));
            assert(p.last() == segment@);
            assert(r.last() == value@);
        }
        if segment_is_capture(segment) {
            let name = segment.substring_char(1, segment.unicode_len());
            let ghost before = params;
            params.insert(name.to_owned(), value.to_owned());
            assert(bindings(params) =~= bindings(before).insert(name@, value@));
        } else if !same_text(segment, value) {
            assert(!admits(texts(pattern@)[at as int], texts(request@)[at as int]));
            return None;
        }
        at = at + 1;
    }
    proof {
        assert(texts(pattern@).take(at as int) == texts(pattern@));
        assert(texts(request@).take(at as int) == texts(request@));
    }
    Some(params)
}

} // verus!
