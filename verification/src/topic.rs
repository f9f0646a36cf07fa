//! Topic names and subscription patterns, compared segment by segment.
use vstd::prelude::*;

verus! {

/// The dot-separated segments of `s`, exactly as `str::split('.')` yields them:
/// `n` dots give `n + 1` segments, some of which may be empty.
pub open spec fn segments(s: Seq<char>) -> Seq<Seq<char>>
    decreases s.len(),
{
    if s.len() == 0 {
        seq![Seq::empty()]
    } else {
        let init = segments(s.drop_last());
        if s.last() == '.' {
            init.push(Seq::empty())
        } else {
            init.update(init.len() - 1, init.last().push(s.last()))
        }
    }
}

/// A pattern segment matches a topic segment when it is exactly `*` or equal to it.
pub open spec fn segment_matches(pattern_segment: Seq<char>, topic_segment: Seq<char>) -> bool {
    pattern_segment == seq!['*'] || pattern_segment == topic_segment
}

/// Does `topic` match subscription `pattern`? Both must be non-empty, have the
/// same number of segments, and agree segment by segment.
pub open spec fn topic_matches(pattern: Seq<char>, topic: Seq<char>) -> bool {
    &&& pattern.len() > 0
    &&& topic.len() > 0
    &&& segments(pattern).len() == segments(topic).len()
    &&& forall|i: int|
        0 <= i < segments(pattern).len() ==> #[trigger] segment_matches(
            segments(pattern)[i],
            segments(topic)[i],
        )
}

/// Every string has at least one segment.
pub proof fn lemma_segments_nonempty(s: Seq<char>)
    ensures
        segments(s).len() >= 1,
    decreases s.len(),
{
    if s.len() > 0 {
        lemma_segments_nonempty(s.drop_last());
    }
}

/// The segments joined back together with `.` between them.
pub open spec fn join_segments(parts: Seq<Seq<char>>) -> Seq<char>
    decreases parts.len(),
{
    if parts.len() <= 1 {
        if parts.len() == 1 {
            parts[0]
        } else {
            Seq::empty()
        }
    } else {
        join_segments(parts.drop_last()) + seq!['.'] + parts.last()
    }
}

/// Extending the last segment by one character extends the joined string by it.
proof fn lemma_join_extend_last(parts: Seq<Seq<char>>, c: char)
    requires
        parts.len() >= 1,
    ensures
        join_segments(parts.update(parts.len() - 1, parts.last().push(c))) == join_segments(
            parts,
        ).push(c),
{
    let p2 = parts.update(parts.len() - 1, parts.last().push(c));
    if parts.len() > 1 {
        assert(p2.drop_last() =~= parts.drop_last());
        assert(join_segments(p2) =~= join_segments(parts).push(c));
    }
}

/// Joining the segments of `s` gives `s` back, so `s` is determined by its segments.
pub proof fn lemma_join_segments(s: Seq<char>)
    ensures
        join_segments(segments(s)) == s,
    decreases s.len(),
{
    if s.len() > 0 {
        lemma_join_segments(s.drop_last());
        lemma_segments_nonempty(s.drop_last());
        let init = segments(s.drop_last());
        if s.last() == '.' {
            assert(init.push(Seq::empty()).drop_last() =~= init);
            assert(join_segments(init.push(Seq::<char>::empty())) =~= s);
        } else {
            lemma_join_extend_last(init, s.last());
            assert(s.drop_last().push(s.last()) =~= s);
        }
    }
}

/// A topic matches a pattern exactly when both are non-empty, they have the
/// same number of segments, and every pattern segment is either exactly `*`
/// or equal to the topic segment in the same position.
pub proof fn law_match_compares_every_segment(pattern: Seq<char>, topic: Seq<char>)
    ensures
        topic_matches(pattern, topic) <==> {
            &&& pattern.len() > 0
            &&& topic.len() > 0
            &&& segments(pattern).len() == segments(topic).len()
            &&& forall|i: int|
                0 <= i < segments(pattern).len() ==> segments(pattern)[i] == seq!['*']
                    || segments(pattern)[i] == segments(topic)[i]
        },
{
    if topic_matches(pattern, topic) {
        assert forall|i: int| 0 <= i < segments(pattern).len() implies segments(pattern)[i]
            == seq!['*'] || segments(pattern)[i] == segments(topic)[i] by {
            assert(segment_matches(segments(pattern)[i], segments(topic)[i]));
        }
    }
    if pattern.len() > 0 && topic.len() > 0 && segments(pattern).len() == segments(topic).len()
        && forall|i: int|
        0 <= i < segments(pattern).len() ==> segments(pattern)[i] == seq!['*']
            || segments(pattern)[i] == segments(topic)[i] {
        assert forall|i: int| 0 <= i < segments(pattern).len() implies #[trigger] segment_matches(
            segments(pattern)[i],
            segments(topic)[i],
        ) by {
            assert(segments(pattern)[i] == seq!['*'] || segments(pattern)[i] == segments(topic)[i]);
        }
    }
}

/// The segments of a name are its dot-separated parts: there is at least
/// one, none holds a dot, and joining them with dots gives the name back.
pub proof fn law_segments_are_the_dot_separated_parts(s: Seq<char>)
    ensures
        segments(s).len() >= 1,
        forall|k: int| 0 <= k < segments(s).len() ==> dot_free(#[trigger] segments(s)[k]),
        join_segments(segments(s)) == s,
        segments(s).len() == 1 + s.filter(|c: char| c == '.').len(),
{
    lemma_segments_nonempty(s);
    assert forall|k: int| 0 <= k < segments(s).len() implies dot_free(#[trigger] segments(s)[k]) by {
        lemma_segments_dot_free(s, k);
    }
    lemma_join_segments(s);
    lemma_segment_count(s);
}

/// There is one more segment than there are dots.
proof fn lemma_segment_count(s: Seq<char>)
    ensures
        segments(s).len() == 1 + s.filter(|c: char| c == '.').len(),
    decreases s.len(),
{
    reveal_with_fuel(Seq::filter, 1);
    if s.len() > 0 {
        lemma_segment_count(s.drop_last());
        lemma_segments_nonempty(s.drop_last());
    }
}

/// An empty pattern or an empty topic never matches anything.
pub proof fn law_empty_never_matches(pattern: Seq<char>, topic: Seq<char>)
    requires
        pattern.len() == 0 || topic.len() == 0,
    ensures
        !topic_matches(pattern, topic),
{
}

/// Every non-empty name, read as a pattern, matches itself.
pub proof fn law_name_matches_itself(name: Seq<char>)
    requires
        name.len() > 0,
    ensures
        topic_matches(name, name),
{
}

/// A match needs the same number of segments on both sides: `logs.*`
/// matches neither `logs` nor `logs.error.detail`.
pub proof fn law_match_needs_equal_segment_counts(pattern: Seq<char>, topic: Seq<char>)
    requires
        segments(pattern).len() != segments(topic).len(),
    ensures
        !topic_matches(pattern, topic),
{
}

/// A pattern with no `*` segment matches exactly the topic spelled the same way.
pub proof fn law_exact_pattern_matches_only_itself(pattern: Seq<char>, topic: Seq<char>)
    requires
        forall|i: int|
            0 <= i < segments(pattern).len() ==> #[trigger] segments(pattern)[i] != seq!['*'],
    ensures
        topic_matches(pattern, topic) <==> (pattern.len() > 0 && pattern == topic),
{
    if topic_matches(pattern, topic) {
        assert(segments(pattern) =~= segments(topic)) by {
            assert forall|i: int| 0 <= i < segments(pattern).len() implies segments(pattern)[i]
                == segments(topic)[i] by {
                assert(segment_matches(segments(pattern)[i], segments(topic)[i]));
            }
        }
        lemma_join_segments(pattern);
        lemma_join_segments(topic);
    }
}

/// `s` holds no dot.
pub open spec fn dot_free(s: Seq<char>) -> bool {
    forall|k: int| 0 <= k < s.len() ==> s[k] != '.'
}

/// Appending dot-free text extends the last segment.
proof fn lemma_segments_append_plain(a: Seq<char>, b: Seq<char>)
    requires
        dot_free(b),
    ensures
        segments(a + b) == segments(a).update(
            segments(a).len() - 1,
            segments(a).last() + b,
        ),
    decreases b.len(),
{
    lemma_segments_nonempty(a);
    if b.len() == 0 {
        assert(a + b =~= a);
        assert(segments(a).last() + b =~= segments(a).last());
        assert(segments(a).update(segments(a).len() - 1, segments(a).last() + b) =~= segments(a));
    } else {
        let b0 = b.drop_last();
        let c = b.last();
        lemma_segments_append_plain(a, b0);
        assert((a + b).drop_last() =~= a + b0);
        assert((a + b).last() == c);
        lemma_segments_nonempty(a + b0);
        assert(c != '.') by {
            assert(b[b.len() - 1] != '.');
        }
        let sa = segments(a);
        let init = segments(a + b0);
        assert(init.len() == sa.len());
        assert(init.last() == sa.last() + b0);
        assert(init.last().push(c) =~= sa.last() + b);
        assert(segments(a + b) == init.update(init.len() - 1, init.last().push(c)));
        assert(segments(a + b) =~= segments(a).update(
            segments(a).len() - 1,
            segments(a).last() + b,
        ));
    }
}

/// Splitting what was joined from dot-free segments gives those segments back.
pub proof fn lemma_segments_of_join(parts: Seq<Seq<char>>)
    requires
        parts.len() >= 1,
        forall|i: int| 0 <= i < parts.len() ==> dot_free(#[trigger] parts[i]),
    ensures
        segments(join_segments(parts)) == parts,
    decreases parts.len(),
{
    if parts.len() == 1 {
        assert(dot_free(parts[0]));
        lemma_segments_append_plain(Seq::empty(), parts[0]);
        assert(Seq::<char>::empty() + parts[0] =~= parts[0]);
        assert(segments(Seq::<char>::empty()) =~= seq![Seq::<char>::empty()]);
        assert(seq![Seq::<char>::empty()].update(0, Seq::<char>::empty() + parts[0]) =~= parts);
    } else {
        let init = parts.drop_last();
        let last = parts.last();
        assert(forall|i: int| 0 <= i < init.len() ==> init[i] == parts[i]);
        lemma_segments_of_join(init);
        let head = join_segments(init) + seq!['.'];
        assert(head.drop_last() =~= join_segments(init));
        assert(head.last() == '.');
        assert(segments(head) == init.push(Seq::empty()));
        assert(dot_free(parts[parts.len() - 1]));
        lemma_segments_append_plain(head, last);
        assert(Seq::<char>::empty() + last =~= last);
        assert(init.push(Seq::empty()).update(init.len() as int, Seq::<char>::empty() + last)
            =~= parts);
    }
}

/// A `*` segment matches any single topic segment in its position: if a
/// pattern matches a topic, it still matches when the topic segment under a
/// `*` is replaced by any other non-empty, dot-free segment.
pub proof fn law_wildcard_matches_any_segment(
    pattern: Seq<char>,
    topic: Seq<char>,
    i: int,
    other: Seq<char>,
)
    requires
        topic_matches(pattern, topic),
        0 <= i < segments(pattern).len(),
        segments(pattern)[i] == seq!['*'],
        other.len() > 0,
        dot_free(other),
    ensures
        topic_matches(pattern, join_segments(segments(topic).update(i, other))),
{
    let parts = segments(topic).update(i, other);
    assert forall|k: int| 0 <= k < parts.len() implies dot_free(#[trigger] parts[k]) by {
        if k != i {
            lemma_segments_dot_free(topic, k);
        }
    }
    lemma_segments_of_join(parts);
    let t2 = join_segments(parts);
    lemma_join_segments(topic);
    assert(t2.len() > 0) by {
        lemma_join_len(parts, i);
    }
    assert forall|k: int| 0 <= k < segments(pattern).len() implies #[trigger] segment_matches(
        segments(pattern)[k],
        segments(t2)[k],
    ) by {
        if k != i {
            assert(segment_matches(segments(pattern)[k], segments(topic)[k]));
        }
    }
}

/// No segment holds a dot.
proof fn lemma_segments_dot_free(s: Seq<char>, k: int)
    requires
        0 <= k < segments(s).len(),
    ensures
        dot_free(segments(s)[k]),
    decreases s.len(),
{
    if s.len() > 0 {
        lemma_segments_nonempty(s.drop_last());
        let init = segments(s.drop_last());
        if k < init.len() {
            lemma_segments_dot_free(s.drop_last(), k);
        }
        if s.last() != '.' && k == init.len() - 1 {
            let seg = init.last().push(s.last());
            assert forall|q: int| 0 <= q < seg.len() implies seg[q] != '.' by {
                if q < seg.len() - 1 {
                    assert(seg[q] == init.last()[q]);
                }
            }
        }
    }
}

/// The joined string is at least as long as any one segment.
proof fn lemma_join_len(parts: Seq<Seq<char>>, i: int)
    requires
        0 <= i < parts.len(),
    ensures
        join_segments(parts).len() >= parts[i].len(),
    decreases parts.len(),
{
    if parts.len() > 1 && i < parts.len() - 1 {
        lemma_join_len(parts.drop_last(), i);
    }
}

/// The characters of `s`, in order.
fn chars_of(s: &str) -> (v: Vec<char>)
    ensures
        v@ == s@,
{
    broadcast use vstd::string::group_string_axioms;
    let mut v: Vec<char> = Vec::new();
    for c in it: s.chars()
        invariant
            v@ == it.seq().take(it.index()),
    {
        v.push(c);
    }
    v
}


/// The segments of `s` as vectors of characters.
fn split_segments(s: &str) -> (parts: Vec<Vec<char>>)
    ensures
        parts.deep_view() == segments(s@),
{
    let chars = chars_of(s);
    let mut parts: Vec<Vec<char>> = Vec::new();
    let mut current: Vec<char> = Vec::new();
    let mut i: usize = 0;
    while i < chars.len()
        invariant
            0 <= i <= chars@.len(),
            chars@ == s@,
            segments(chars@.take(i as int)) == parts.deep_view().push(current@),
        decreases chars@.len() - i,
    {
        let c = chars[i];
        assert(chars@.take(i + 1).drop_last() == chars@.take(i as int));
        let ghost prev = parts.deep_view();
        let ghost cur = current@;
        if c == '.' {
            let mut done: Vec<char> = Vec::new();
            std::mem::swap(&mut done, &mut current);
            parts.push(done);
            assert(done.deep_view() =~= done@);
            assert(parts.deep_view() =~= prev.push(done@));
        } else {
            current.push(c);
            assert(prev.push(cur).update(prev.len() as int, cur.push(c)) =~= prev.push(current@));
        }
        i = i + 1;
    }
    assert(chars@.take(i as int) == chars@);
    let ghost prev = parts.deep_view();
    parts.push(current);
    assert(current.deep_view() =~= current@);
    assert(parts.deep_view() =~= prev.push(current@));
    parts
}


/// Whether two character vectors hold the same characters.
fn same_chars(a: &Vec<char>, b: &Vec<char>) -> (r: bool)
    ensures
        r == (a@ == b@),
{
    if a.len() != b.len() {
        return false;
    }
    let mut i: usize = 0;
    while i < a.len()
        invariant
            0 <= i <= a@.len(),
            a@.len() == b@.len(),
            forall|j: int| 0 <= j < i ==> a@[j] == b@[j],
        decreases a@.len() - i,
    {
        if a[i] != b[i] {
            return false;
        }
        i = i + 1;
    }
    assert(a@ =~= b@);
    true
}

/// Whether one pattern segment matches one topic segment.
fn segment_matches_exec(p: &Vec<char>, t: &Vec<char>) -> (r: bool)
    ensures
        r == segment_matches(p@, t@),
{
    if p.len() == 1 && p[0] == '*' {
        assert(p@ =~= seq!['*']);
        true
    } else {
        assert(p@ != seq!['*']) by {
            if p@ == seq!['*'] {
                assert(p@.len() == 1 && p@[0] == '*');
            }
        }
        same_chars(p, t)
    }
}

/// Does `topic` match subscription `pattern`?
///
/// A pattern is a dot-separated list of segments, for example `logs.error`
/// or `logs.*`. Matching is exact segment by segment, except a pattern
/// segment of `*` matches exactly one arbitrary topic segment in that
/// position. Both sides must have the same number of segments, so `logs.*`
/// matches `logs.error` but not `logs` and not `logs.error.detail`.
///
/// An empty pattern or empty topic never matches.
pub fn matches(pattern: &str, topic: &str) -> (r: bool)
    ensures
        r == topic_matches(pattern@, topic@),
{
    if pattern.is_empty() || topic.is_empty() {
        return false;
    }
    let pat = split_segments(pattern);
    let top = split_segments(topic);
    if pat.len() != top.len() {
        return false;
    }
    let mut i: usize = 0;
    while i < pat.len()
        invariant
            0 <= i <= pat@.len(),
            pat@.len() == top@.len(),
            pat.deep_view() == segments(pattern@),
            top.deep_view() == segments(topic@),
            forall|j: int| 0 <= j < i ==> #[trigger] segment_matches(
                segments(pattern@)[j],
                segments(topic@)[j],
            ),
        decreases pat@.len() - i,
    {
        assert(pat[i as int].deep_view() =~= pat[i as int]@);
        assert(top[i as int].deep_view() =~= top[i as int]@);
        assert(segments(pattern@)[i as int] == pat[i as int]@);
        assert(segments(topic@)[i as int] == top[i as int]@);
        if !segment_matches_exec(&pat[i], &top[i]) {
            return false;
        }
        i = i + 1;
    }
    true
}

} // verus!
