//! Sequences of characters: runs, trimming, footer markers, and the
//! conversions between `String` and the character buffer the lexer scans.

use vstd::prelude::*;
use crate::chars::{char_is_whitespace, is_alphanumeric, is_whitespace};

verus! {

/// `String::push` appends one character.
pub assume_specification[ String::push ](s: &mut String, ch: char)
    ensures
        final(s)@ == old(s)@.push(ch),
;

/// The character at index `i`, if `s` has one there.
pub open spec fn char_at(s: Seq<char>, i: int) -> Option<char> {
    if 0 <= i < s.len() {
        Some(s[i])
    } else {
        None
    }
}

/// Where the run of characters of `class` that starts at `from` ends: the
/// first index at or after `from` whose character is outside `class`, or the
/// length of `s` where the run reaches the end.
pub open spec fn run_end(s: Seq<char>, from: int, class: spec_fn(char) -> bool) -> int
    decreases s.len() - from,
{
    if 0 <= from < s.len() && class(s[from]) {
        run_end(s, from + 1, class)
    } else {
        from
    }
}

/// The end of the whitespace that starts at `from`.
pub open spec fn whitespace_end(s: Seq<char>, from: int) -> int {
    run_end(s, from, |c: char| is_whitespace(c))
}

/// The end of the alphanumeric run that starts at `from`.
pub open spec fn alphanumeric_end(s: Seq<char>, from: int) -> int {
    run_end(s, from, |c: char| is_alphanumeric(c))
}

/// The index of the first `target` at or after `from`; the length of `s`
/// where there is none.
pub open spec fn index_of(s: Seq<char>, from: int, target: char) -> int {
    run_end(s, from, |c: char| c != target)
}

/// `s` without its leading whitespace.
pub open spec fn trim_start(s: Seq<char>) -> Seq<char> {
    s.skip(whitespace_end(s, 0))
}

/// `s` without its trailing whitespace.
pub open spec fn trim_end(s: Seq<char>) -> Seq<char>
    decreases s.len(),
{
    if s.len() > 0 && is_whitespace(s.last()) {
        trim_end(s.drop_last())
    } else {
        s
    }
}

/// `s` without its leading and trailing whitespace.
pub open spec fn trim(s: Seq<char>) -> Seq<char> {
    trim_end(trim_start(s))
}

/// The footer marker for a breaking change.
pub const BREAKING_CHANGE: &'static str = "BREAKING CHANGE:";

/// The footer marker for a sign-off.
pub const REVIEWED_BY: &'static str = "Reviewed-by:";

/// The footer marker for references.
pub const REFS: &'static str = "Refs:";

/// Whether `marker` is one of the three footer markers.
pub open spec fn is_footer_marker(marker: Seq<char>) -> bool {
    marker == BREAKING_CHANGE@ || marker == REVIEWED_BY@ || marker == REFS@
}

/// Whether a footer marker starts at index `i` of `s`.
pub open spec fn is_footer_start(s: Seq<char>, i: int) -> bool {
    0 <= i <= s.len() && (BREAKING_CHANGE@.is_prefix_of(s.skip(i)) || REVIEWED_BY@.is_prefix_of(
        s.skip(i),
    ) || REFS@.is_prefix_of(s.skip(i)))
}

/// The first index at or after `from` where a footer marker starts; the
/// length of `s` where none does.
pub open spec fn footer_index(s: Seq<char>, from: int) -> int
    decreases s.len() - from,
{
    if from < 0 || from >= s.len() {
        s.len() as int
    } else if is_footer_start(s, from) {
        from
    } else {
        footer_index(s, from + 1)
    }
}

/// A run lies inside the sequence, every character of it is in the class,
/// and the character after it, if there is one, is not.
pub proof fn lemma_run_end(s: Seq<char>, from: int, class: spec_fn(char) -> bool)
    requires
        0 <= from <= s.len(),
    ensures
        from <= run_end(s, from, class) <= s.len(),
        forall|i: int| from <= i < run_end(s, from, class) ==> class(#[trigger] s[i]),
        run_end(s, from, class) < s.len() ==> !class(s[run_end(s, from, class)]),
    decreases s.len() - from,
{
    if from < s.len() && class(s[from]) {
        lemma_run_end(s, from + 1, class);
    }
}

/// The end of a run is the only index that [`lemma_run_end`] describes.
pub proof fn lemma_run_end_unique(s: Seq<char>, from: int, class: spec_fn(char) -> bool, end: int)
    requires
        0 <= from <= end <= s.len(),
        forall|i: int| from <= i < end ==> class(#[trigger] s[i]),
        end < s.len() ==> !class(s[end]),
    ensures
        run_end(s, from, class) == end,
    decreases end - from,
{
    if from < end {
        assert(class(s[from]));
        lemma_run_end_unique(s, from + 1, class, end);
    }
}

/// The whitespace that starts at `from` lies inside the sequence, is all
/// whitespace, and ends before a character that is none.
pub proof fn lemma_whitespace_end(s: Seq<char>, from: int)
    requires
        0 <= from <= s.len(),
    ensures
        from <= whitespace_end(s, from) <= s.len(),
        forall|i: int| from <= i < whitespace_end(s, from) ==> is_whitespace(#[trigger] s[i]),
        whitespace_end(s, from) < s.len() ==> !is_whitespace(s[whitespace_end(s, from)]),
{
    lemma_run_end(s, from, |c: char| is_whitespace(c));
}

/// The alphanumeric run that starts at `from` lies inside the sequence, is
/// all alphanumeric, and ends before a character that is not.
pub proof fn lemma_alphanumeric_end(s: Seq<char>, from: int)
    requires
        0 <= from <= s.len(),
    ensures
        from <= alphanumeric_end(s, from) <= s.len(),
        forall|i: int| from <= i < alphanumeric_end(s, from) ==> is_alphanumeric(#[trigger] s[i]),
        alphanumeric_end(s, from) < s.len() ==> !is_alphanumeric(s[alphanumeric_end(s, from)]),
{
    lemma_run_end(s, from, |c: char| is_alphanumeric(c));
}

/// The index of the first `target` lies inside the sequence, no `target`
/// stands before it, and `target` stands at it unless it is the length.
pub proof fn lemma_index_of(s: Seq<char>, from: int, target: char)
    requires
        0 <= from <= s.len(),
    ensures
        from <= index_of(s, from, target) <= s.len(),
        forall|i: int| from <= i < index_of(s, from, target) ==> #[trigger] s[i] != target,
        index_of(s, from, target) < s.len() ==> s[index_of(s, from, target)] == target,
    decreases s.len() - from,
{
    if from < s.len() && s[from] != target {
        lemma_index_of(s, from + 1, target);
    }
}

/// The whitespace that starts at `from` ends at `end` if it is all
/// whitespace up to `end` and none stands at `end`.
pub proof fn lemma_whitespace_end_is(s: Seq<char>, from: int, end: int)
    requires
        0 <= from <= end <= s.len(),
        forall|i: int| from <= i < end ==> is_whitespace(#[trigger] s[i]),
        end < s.len() ==> !is_whitespace(s[end]),
    ensures
        whitespace_end(s, from) == end,
{
    lemma_run_end_unique(s, from, |c: char| is_whitespace(c), end);
}

/// The alphanumeric run that starts at `from` ends at `end` if it is all
/// alphanumeric up to `end` and the character at `end` is not.
pub proof fn lemma_alphanumeric_end_is(s: Seq<char>, from: int, end: int)
    requires
        0 <= from <= end <= s.len(),
        forall|i: int| from <= i < end ==> is_alphanumeric(#[trigger] s[i]),
        end < s.len() ==> !is_alphanumeric(s[end]),
    ensures
        alphanumeric_end(s, from) == end,
{
    lemma_run_end_unique(s, from, |c: char| is_alphanumeric(c), end);
}

/// The first `target` at or after `from` stands at `at` if none stands
/// before `at`, and `at` is the length or holds `target`.
pub proof fn lemma_index_of_is(s: Seq<char>, from: int, target: char, at: int)
    requires
        0 <= from <= at <= s.len(),
        forall|i: int| from <= i < at ==> #[trigger] s[i] != target,
        at < s.len() ==> s[at] == target,
    ensures
        index_of(s, from, target) == at,
    decreases at - from,
{
    if from < at {
        assert(s[from] != target);
        lemma_index_of_is(s, from + 1, target, at);
    }
}

/// Trimming at the end keeps a prefix of the sequence: one that does not end
/// in whitespace, and behind which the sequence holds whitespace only.
pub proof fn lemma_trim_end(s: Seq<char>)
    ensures
        trim_end(s).len() <= s.len(),
        trim_end(s) == s.take(trim_end(s).len() as int),
        trim_end(s).len() > 0 ==> !is_whitespace(trim_end(s).last()),
        forall|i: int| trim_end(s).len() <= i < s.len() ==> is_whitespace(#[trigger] s[i]),
    decreases s.len(),
{
    if s.len() > 0 && is_whitespace(s.last()) {
        let front = s.drop_last();
        lemma_trim_end(front);
        let kept = trim_end(front).len() as int;
        assert(front.take(kept) == s.take(kept));
        assert forall|i: int| kept <= i < s.len() implies is_whitespace(#[trigger] s[i]) by {
            if i < front.len() {
                assert(front[i] == s[i]);
            }
        }
    } else {
        assert(s.take(s.len() as int) == s);
    }
}

/// Trimming cuts a range out of the sequence. The range neither begins nor
/// ends with whitespace, all that stands outside it is whitespace, and it is
/// empty exactly where the sequence holds nothing else.
pub proof fn lemma_trim(s: Seq<char>)
    ensures
        ({
            let from = whitespace_end(s, 0);
            let to = from + trim(s).len();
            &&& 0 <= from <= to <= s.len()
            &&& trim(s) == s.subrange(from, to)
            &&& forall|i: int| 0 <= i < from || to <= i < s.len() ==> is_whitespace(#[trigger] s[i])
            &&& from < to ==> !is_whitespace(s[from]) && !is_whitespace(s[to - 1])
        }),
        trim(s).len() == 0 <==> forall|i: int| 0 <= i < s.len() ==> is_whitespace(#[trigger] s[i]),
{
    let from = whitespace_end(s, 0);
    lemma_whitespace_end(s, 0);
    let tail = s.skip(from);
    lemma_trim_end(tail);
    let to = from + trim(s).len();
    assert(trim(s) == s.subrange(from, to));
    assert forall|i: int| 0 <= i < from || to <= i < s.len() implies is_whitespace(
        #[trigger] s[i],
    ) by {
        if to <= i {
            assert(tail[i - from] == s[i]);
        }
    }
    if from < to {
        assert(trim(s).last() == s[to - 1]);
    }
}

/// A sequence that neither begins nor ends with whitespace is its own trim.
pub proof fn lemma_trim_of_trimmed(s: Seq<char>)
    requires
        s.len() > 0 ==> !is_whitespace(s[0]) && !is_whitespace(s.last()),
    ensures
        trim(s) == s,
{
    assert(s.skip(0) == s);
}

/// A footer marker is not empty and neither begins nor ends with whitespace.
pub proof fn lemma_footer_marker(marker: Seq<char>)
    requires
        is_footer_marker(marker),
    ensures
        marker.len() > 0,
        !is_whitespace(marker[0]),
        !is_whitespace(marker.last()),
{
    reveal_strlit("BREAKING CHANGE:");
    reveal_strlit("Reviewed-by:");
    reveal_strlit("Refs:");
}

/// A footer index lies inside the sequence, a marker starts there unless it
/// is the length, and none starts between `from` and it.
pub proof fn lemma_footer_index(s: Seq<char>, from: int)
    requires
        0 <= from <= s.len(),
    ensures
        from <= footer_index(s, from) <= s.len(),
        footer_index(s, from) < s.len() ==> is_footer_start(s, footer_index(s, from)),
        forall|i: int| from <= i < footer_index(s, from) ==> !is_footer_start(s, i),
    decreases s.len() - from,
{
    if from < s.len() && !is_footer_start(s, from) {
        lemma_footer_index(s, from + 1);
    }
}

/// The characters of `s`, in order.
pub(crate) fn decode(s: &str) -> (v: Vec<char>)
    ensures
        v@ == s@,
{
    let mut v: Vec<char> = Vec::new();
    for c in it: s.chars()
        invariant
            it.seq() == s@,
            v@ == it.seq().take(it.index()),
    {
        v.push(c);
        assert(it.seq().take(it.index() + 1) == it.seq().take(it.index()).push(c));
    }
    v
}

/// The string made of `chars[from..to]`.
pub(crate) fn encode(chars: &Vec<char>, from: usize, to: usize) -> (s: String)
    requires
        from <= to <= chars.len(),
    ensures
        s@ == chars@.subrange(from as int, to as int),
{
    let mut s = String::new();
    let mut i: usize = from;
    while i < to
        invariant
            from <= i <= to <= chars.len(),
            s@ == chars@.subrange(from as int, i as int),
        decreases to - i,
    {
        s.push(chars[i]);
        i = i + 1;
    }
    s
}

/// Whether `pattern` occurs in `chars` at index `at`.
pub(crate) fn occurs_at(chars: &Vec<char>, at: usize, pattern: &Vec<char>) -> (r: bool)
    requires
        at <= chars.len(),
    ensures
        r == pattern@.is_prefix_of(chars@.skip(at as int)),
{
    if pattern.len() > chars.len() - at {
        return false;
    }
    let mut k: usize = 0;
    while k < pattern.len()
        invariant
            at <= chars.len(),
            k <= pattern.len() <= chars.len() - at,
            forall|j: int| 0 <= j < k ==> pattern@[j] == chars@[at + j],
        decreases pattern.len() - k,
    {
        if pattern[k] != chars[at + k] {
            assert(chars@.skip(at as int)[k as int] == chars@[at + k]);
            return false;
        }
        k = k + 1;
    }
    assert(pattern@ =~= chars@.skip(at as int).subrange(0, pattern@.len() as int));
    true
}

/// The bounds of `chars[from..to]` once trimmed.
pub(crate) fn trim_range(chars: &Vec<char>, from: usize, to: usize) -> (r: (usize, usize))
    requires
        from <= to <= chars.len(),
    ensures
        from <= r.0 <= r.1 <= to,
        chars@.subrange(r.0 as int, r.1 as int) == trim(chars@.subrange(from as int, to as int)),
{
    let ghost whole = chars@.subrange(from as int, to as int);
    let mut a: usize = from;
    while a < to && char_is_whitespace(chars[a])
        invariant
            from <= a <= to <= chars.len(),
            whole == chars@.subrange(from as int, to as int),
            whitespace_end(whole, 0) == whitespace_end(whole, a - from),
        decreases to - a,
    {
        assert(whole[a - from] == chars@[a as int]);
        a = a + 1;
    }
    proof {
        if a < to {
            assert(whole[a - from] == chars@[a as int]);
        }
        assert(whitespace_end(whole, 0) == a - from);
        assert(trim_start(whole) == chars@.subrange(a as int, to as int));
    }
    let mut b: usize = to;
    while b > a && char_is_whitespace(chars[b - 1])
        invariant
            a <= b <= to <= chars.len(),
            trim_end(chars@.subrange(a as int, to as int)) == trim_end(
                chars@.subrange(a as int, b as int),
            ),
        decreases b - a,
    {
        assert(chars@.subrange(a as int, b as int).last() == chars@[b - 1]);
        assert(chars@.subrange(a as int, b as int).drop_last() == chars@.subrange(
            a as int,
            b - 1,
        ));
        b = b - 1;
    }
    proof {
        if b > a {
            assert(chars@.subrange(a as int, b as int).last() == chars@[b - 1]);
        }
    }
    (a, b)
}

/// The first index at or after `from` where a footer marker starts.
pub(crate) fn find_footer(chars: &Vec<char>, from: usize) -> (at: usize)
    requires
        from <= chars.len(),
    ensures
        at == footer_index(chars@, from as int),
{
    let breaking = decode(BREAKING_CHANGE);
    let reviewed = decode(REVIEWED_BY);
    let refs = decode(REFS);
    let mut i: usize = from;
    while i < chars.len()
        invariant
            from <= i <= chars.len(),
            breaking@ == BREAKING_CHANGE@,
            reviewed@ == REVIEWED_BY@,
            refs@ == REFS@,
            footer_index(chars@, from as int) == footer_index(chars@, i as int),
        decreases chars.len() - i,
    {
        if occurs_at(chars, i, &breaking) || occurs_at(chars, i, &reviewed) || occurs_at(
            chars,
            i,
            &refs,
        ) {
            return i;
        }
        i = i + 1;
    }
    i
}

} // verus!
