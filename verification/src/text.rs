//! Text as a sequence of characters: classes of characters, runs, lines,
//! tokens, trimming, prefixes and pattern search.
//!
//! Every function here works on `&[char]`, so that a part of a text is a
//! sub-slice and nothing is copied while a text is taken apart.
use vstd::prelude::*;
use vstd::slice::slice_subrange;

verus! {

/// The classes of characters by which a text is cut.
#[derive(Clone, Copy, Debug, PartialEq, Eq)]
pub enum Class {
    /// White space.
    Space,
    /// Anything but white space.
    Solid,
    /// The decimal digits `0` to `9`.
    Digit,
    /// Anything but a line feed.
    Inline,
}

/// White space as Unicode defines it (the property `White_Space`).
pub open spec fn is_space(c: char) -> bool {
    let n = c as u32;
    ||| 0x09 <= n <= 0x0D
    ||| n == 0x20
    ||| n == 0x85
    ||| n == 0xA0
    ||| n == 0x1680
    ||| 0x2000 <= n <= 0x200A
    ||| n == 0x2028
    ||| n == 0x2029
    ||| n == 0x202F
    ||| n == 0x205F
    ||| n == 0x3000
}

/// A decimal digit.
pub open spec fn is_digit(c: char) -> bool {
    '0' <= c <= '9'
}

/// Whether `c` belongs to `class`.
pub open spec fn in_class(class: Class, c: char) -> bool {
    match class {
        Class::Space => is_space(c),
        Class::Solid => !is_space(c),
        Class::Digit => is_digit(c),
        Class::Inline => c != '\n',
    }
}

/// Length of the longest prefix of `s` that lies in `class`.
pub open spec fn prefix_len(s: Seq<char>, class: Class) -> nat
    decreases s.len(),
{
    if s.len() > 0 && in_class(class, s[0]) {
        1 + prefix_len(s.skip(1), class)
    } else {
        0
    }
}

/// Length of the longest suffix of `s` that lies in `class`.
pub open spec fn suffix_len(s: Seq<char>, class: Class) -> nat
    decreases s.len(),
{
    if s.len() > 0 && in_class(class, s.last()) {
        1 + suffix_len(s.drop_last(), class)
    } else {
        0
    }
}

/// `s` without its leading white space.
pub open spec fn trimmed_start(s: Seq<char>) -> Seq<char> {
    s.skip(prefix_len(s, Class::Space) as int)
}

/// `s` without its trailing white space.
pub open spec fn trimmed_end(s: Seq<char>) -> Seq<char> {
    s.take(s.len() - suffix_len(s, Class::Space))
}

/// `s` without the white space at both ends.
pub open spec fn trimmed(s: Seq<char>) -> Seq<char> {
    trimmed_end(trimmed_start(s))
}

/// `s` without one trailing carriage return, if it ends in one.
pub open spec fn without_return(s: Seq<char>) -> Seq<char> {
    if s.len() > 0 && s.last() == '\r' {
        s.drop_last()
    } else {
        s
    }
}

/// The lines of a text. A line ends at a line feed, or at a carriage return
/// followed by a line feed; neither belongs to the line. The end of the last
/// line may be missing, and what follows the last line feed is a line only
/// if it is not empty.
pub open spec fn lines(s: Seq<char>) -> Seq<Seq<char>>
    decreases s.len(),
    via lines_decreases
{
    if s.len() == 0 {
        Seq::empty()
    } else {
        let n = prefix_len(s, Class::Inline) as int;
        if n == s.len() {
            seq![s]
        } else {
            seq![without_return(s.take(n))] + lines(s.skip(n + 1))
        }
    }
}

/// The tokens of a text: its maximal runs of characters that are not white
/// space, in the order in which they stand.
pub open spec fn tokens(s: Seq<char>) -> Seq<Seq<char>>
    decreases s.len(),
    via tokens_decreases
{
    if s.len() == 0 {
        Seq::empty()
    } else if is_space(s[0]) {
        tokens(s.skip(1))
    } else {
        let n = prefix_len(s, Class::Solid) as int;
        seq![s.take(n)] + tokens(s.skip(n))
    }
}

#[via_fn]
proof fn lines_decreases(s: Seq<char>) {
    lemma_prefix_len_bounds(s, Class::Inline);
}

#[via_fn]
proof fn tokens_decreases(s: Seq<char>) {
    lemma_prefix_len_bounds(s, Class::Solid);
}

/// What follows `tag` on a line that begins with it, leading white space
/// aside; `None` for a line that does not begin with it.
pub open spec fn after_tag(line: Seq<char>, tag: Seq<char>) -> Option<Seq<char>> {
    let body = trimmed_start(line);
    if tag.is_prefix_of(body) {
        Some(body.skip(tag.len() as int))
    } else {
        None
    }
}

/// Whether `pattern` stands in `s` at index `at`.
pub open spec fn occurs_at(s: Seq<char>, pattern: Seq<char>, at: int) -> bool {
    &&& 0 <= at
    &&& at + pattern.len() <= s.len()
    &&& s.subrange(at, at + pattern.len()) =~= pattern
}

/// The least index from `from` on at which `pattern` stands in `s`.
pub open spec fn first_match_from(s: Seq<char>, pattern: Seq<char>, from: int) -> Option<int>
    decreases s.len() - from,
{
    if from < 0 || from + pattern.len() > s.len() {
        None
    } else if occurs_at(s, pattern, from) {
        Some(from)
    } else {
        first_match_from(s, pattern, from + 1)
    }
}

/// The least index at which `pattern` stands in `s`.
pub open spec fn first_match(s: Seq<char>, pattern: Seq<char>) -> Option<int> {
    first_match_from(s, pattern, 0)
}

/// The texts that a sequence of slices holds.
pub open spec fn views(parts: Seq<&[char]>) -> Seq<Seq<char>> {
    Seq::new(parts.len(), |i: int| parts[i]@)
}

/// A prefix of `k` characters of `class` that cannot be made longer is the
/// longest one.
pub proof fn lemma_prefix_len_is(s: Seq<char>, class: Class, k: int)
    requires
        0 <= k <= s.len(),
        forall|j: int| 0 <= j < k ==> in_class(class, #[trigger] s[j]),
        k == s.len() || !in_class(class, s[k]),
    ensures
        prefix_len(s, class) == k,
    decreases s.len(),
{
    if k > 0 {
        let rest = s.skip(1);
        assert forall|j: int| 0 <= j < k - 1 implies in_class(class, #[trigger] rest[j]) by {
            assert(rest[j] == s[j + 1]);
        }
        lemma_prefix_len_is(rest, class, k - 1);
    }
}

/// The longest prefix of `class` lies within `s`, holds only characters of
/// `class`, and ends where `s` ends or a character of another kind stands.
pub proof fn lemma_prefix_len_bounds(s: Seq<char>, class: Class)
    ensures
        prefix_len(s, class) <= s.len(),
        forall|j: int| 0 <= j < prefix_len(s, class) ==> in_class(class, #[trigger] s[j]),
        prefix_len(s, class) == s.len() || !in_class(class, s[prefix_len(s, class) as int]),
    decreases s.len(),
{
    if s.len() > 0 && in_class(class, s[0]) {
        let rest = s.skip(1);
        lemma_prefix_len_bounds(rest, class);
        assert forall|j: int| 0 <= j < prefix_len(s, class) implies in_class(
            class,
            #[trigger] s[j],
        ) by {
            if j > 0 {
                assert(s[j] == rest[j - 1]);
            }
        }
        if prefix_len(s, class) < s.len() {
            assert(s[prefix_len(s, class) as int] == rest[prefix_len(rest, class) as int]);
        }
    }
}

/// A suffix of `k` characters of `class` that cannot be made longer is the
/// longest one.
pub proof fn lemma_suffix_len_is(s: Seq<char>, class: Class, k: int)
    requires
        0 <= k <= s.len(),
        forall|j: int| s.len() - k <= j < s.len() ==> in_class(class, #[trigger] s[j]),
        k == s.len() || !in_class(class, s[s.len() - k - 1]),
    ensures
        suffix_len(s, class) == k,
    decreases s.len(),
{
    if k > 0 {
        let rest = s.drop_last();
        assert forall|j: int| rest.len() - (k - 1) <= j < rest.len() implies in_class(
            class,
            #[trigger] rest[j],
        ) by {
            assert(rest[j] == s[j]);
        }
        lemma_suffix_len_is(rest, class, k - 1);
    }
}

/// Whether `c` is white space.
pub fn is_whitespace(c: char) -> (b: bool)
    ensures
        b == is_space(c),
{
    let n: u32 = c as u32;
    (0x09 <= n && n <= 0x0D) || n == 0x20 || n == 0x85 || n == 0xA0 || n == 0x1680 || (0x2000 <= n
        && n <= 0x200A) || n == 0x2028 || n == 0x2029 || n == 0x202F || n == 0x205F || n == 0x3000
}

/// Whether `c` belongs to `class`.
pub fn belongs(class: Class, c: char) -> (b: bool)
    ensures
        b == in_class(class, c),
{
    match class {
        Class::Space => is_whitespace(c),
        Class::Solid => !is_whitespace(c),
        Class::Digit => '0' <= c && c <= '9',
        Class::Inline => c != '\n',
    }
}

/// The characters of a string, in a vector.
pub fn to_chars(s: &str) -> (v: Vec<char>)
    ensures
        v@ == s@,
{
    let mut v: Vec<char> = Vec::new();
    for c in it: s.chars()
        invariant
            v@ == it.seq().take(it.index() as int),
    {
        v.push(c);
    }
    v
}

/// The end of the run of `class` that starts at `from`.
pub fn run_end(s: &[char], from: usize, class: Class) -> (to: usize)
    requires
        from <= s@.len(),
    ensures
        to == from + prefix_len(s@.skip(from as int), class),
        from <= to <= s@.len(),
{
    let mut to: usize = from;
    while to < s.len() && belongs(class, s[to])
        invariant
            from <= to <= s@.len(),
            forall|j: int| from <= j < to ==> in_class(class, #[trigger] s@[j]),
        decreases s@.len() - to,
    {
        to += 1;
    }
    proof {
        let rest = s@.skip(from as int);
        assert forall|j: int| 0 <= j < to - from implies in_class(class, #[trigger] rest[j]) by {
            assert(rest[j] == s@[from + j]);
        }
        lemma_prefix_len_is(rest, class, to - from);
    }
    to
}

/// `s` without its leading white space.
pub fn trim_start<'a>(s: &'a [char]) -> (r: &'a [char])
    ensures
        r@ == trimmed_start(s@),
{
    let from = run_end(s, 0, Class::Space);
    assert(s@.skip(0) =~= s@);
    assert(s@.skip(from as int) =~= s@.subrange(from as int, s@.len() as int));
    slice_subrange(s, from, s.len())
}

/// `s` without its trailing white space.
pub fn trim_end<'a>(s: &'a [char]) -> (r: &'a [char])
    ensures
        r@ == trimmed_end(s@),
{
    let mut to: usize = s.len();
    while to > 0 && is_whitespace(s[to - 1])
        invariant
            to <= s@.len(),
            forall|j: int| to <= j < s@.len() ==> is_space(#[trigger] s@[j]),
        decreases to,
    {
        to -= 1;
    }
    proof {
        lemma_suffix_len_is(s@, Class::Space, s@.len() - to);
        assert(s@.take(to as int) =~= s@.subrange(0, to as int));
    }
    slice_subrange(s, 0, to)
}

/// `s` without the white space at both ends.
pub fn trim<'a>(s: &'a [char]) -> (r: &'a [char])
    ensures
        r@ == trimmed(s@),
{
    trim_end(trim_start(s))
}

/// Whether `s` begins with `prefix`.
pub fn starts_with(s: &[char], prefix: &[char]) -> (b: bool)
    ensures
        b == prefix@.is_prefix_of(s@),
{
    if prefix.len() > s.len() {
        return false;
    }
    let mut i: usize = 0;
    while i < prefix.len()
        invariant
            i <= prefix@.len() <= s@.len(),
            forall|j: int| 0 <= j < i ==> prefix@[j] == s@[j],
        decreases prefix@.len() - i,
    {
        if prefix[i] != s[i] {
            assert(s@.subrange(0, prefix@.len() as int)[i as int] == s@[i as int]);
            return false;
        }
        i += 1;
    }
    assert(prefix@ =~= s@.subrange(0, prefix@.len() as int));
    true
}

/// What follows `tag` on a line that begins with it, leading white space
/// aside.
pub fn strip_tag<'a>(line: &'a [char], tag: &[char]) -> (r: Option<&'a [char]>)
    ensures
        match r {
            Some(rest) => after_tag(line@, tag@) == Some(rest@),
            None => after_tag(line@, tag@) is None,
        },
{
    let body = trim_start(line);
    if starts_with(body, tag) {
        assert(body@.skip(tag@.len() as int) =~= body@.subrange(
            tag@.len() as int,
            body@.len() as int,
        ));
        Some(slice_subrange(body, tag.len(), body.len()))
    } else {
        None
    }
}

/// Whether `c` stands somewhere in `s`.
pub fn holds(s: &[char], c: char) -> (b: bool)
    ensures
        b == s@.contains(c),
{
    let mut i: usize = 0;
    while i < s.len()
        invariant
            i <= s@.len(),
            forall|j: int| 0 <= j < i ==> s@[j] != c,
        decreases s@.len() - i,
    {
        if s[i] == c {
            return true;
        }
        i += 1;
    }
    false
}

/// The lines of a text, each a part of it.
pub fn split_lines<'a>(s: &'a [char]) -> (r: Vec<&'a [char]>)
    ensures
        views(r@) == lines(s@),
{
    let mut out: Vec<&'a [char]> = Vec::new();
    let mut at: usize = 0;
    assert(s@.skip(0) =~= s@);
    assert(views(out@) =~= Seq::<Seq<char>>::empty());
    while at < s.len()
        invariant
            at <= s@.len(),
            lines(s@) == views(out@) + lines(s@.skip(at as int)),
        decreases s@.len() - at,
    {
        let end = run_end(s, at, Class::Inline);
        let ghost rest = s@.skip(at as int);
        let ghost before = views(out@);
        if end == s.len() {
            out.push(slice_subrange(s, at, end));
            proof {
                assert(rest =~= s@.subrange(at as int, end as int));
                assert(lines(s@.skip(end as int)) =~= Seq::<Seq<char>>::empty());
                assert(views(out@) =~= before + seq![rest]);
                assert(views(out@) + lines(s@.skip(end as int)) =~= before + lines(rest));
            }
            at = end;
        } else {
            let mut stop: usize = end;
            if stop > at && s[stop - 1] == '\r' {
                stop -= 1;
            }
            out.push(slice_subrange(s, at, stop));
            proof {
                let n = end - at;
                assert(rest.take(n) =~= s@.subrange(at as int, end as int));
                assert(without_return(rest.take(n)) =~= s@.subrange(at as int, stop as int));
                assert(rest.skip(n + 1) =~= s@.skip(end + 1));
                assert(views(out@) =~= before + seq![without_return(rest.take(n))]);
                assert(views(out@) + lines(s@.skip(end + 1)) =~= before + lines(rest));
            }
            at = end + 1;
        }
    }
    assert(lines(s@.skip(at as int)) =~= Seq::<Seq<char>>::empty());
    assert(views(out@) + Seq::<Seq<char>>::empty() =~= views(out@));
    out
}

/// The tokens of a text, each a part of it.
pub fn split_whitespace<'a>(s: &'a [char]) -> (r: Vec<&'a [char]>)
    ensures
        views(r@) == tokens(s@),
{
    let mut out: Vec<&'a [char]> = Vec::new();
    let mut at: usize = 0;
    assert(s@.skip(0) =~= s@);
    assert(views(out@) =~= Seq::<Seq<char>>::empty());
    while at < s.len()
        invariant
            at <= s@.len(),
            tokens(s@) == views(out@) + tokens(s@.skip(at as int)),
        decreases s@.len() - at,
    {
        let ghost rest = s@.skip(at as int);
        let ghost before = views(out@);
        assert(rest[0] == s@[at as int]);
        if is_whitespace(s[at]) {
            assert(rest.skip(1) =~= s@.skip(at + 1));
            at += 1;
        } else {
            let end = run_end(s, at, Class::Solid);
            out.push(slice_subrange(s, at, end));
            proof {
                let n = end - at;
                assert(rest.take(n) =~= s@.subrange(at as int, end as int));
                assert(rest.skip(n) =~= s@.skip(end as int));
                assert(views(out@) =~= before + seq![rest.take(n)]);
                assert(views(out@) + tokens(s@.skip(end as int)) =~= before + tokens(rest));
                assert(n > 0);
            }
            at = end;
        }
    }
    assert(tokens(s@.skip(at as int)) =~= Seq::<Seq<char>>::empty());
    assert(views(out@) + Seq::<Seq<char>>::empty() =~= views(out@));
    out
}

/// The first place from `from` on at which `pattern` stands in `s`.
pub fn find_from(s: &[char], pattern: &[char], from: usize) -> (r: Option<usize>)
    ensures
        match r {
            Some(at) => first_match_from(s@, pattern@, from as int) == Some(at as int),
            None => first_match_from(s@, pattern@, from as int) is None,
        },
{
    let mut at: usize = from;
    while pattern.len() <= s.len() && at <= s.len() - pattern.len()
        invariant
            from <= at,
            first_match_from(s@, pattern@, from as int) == first_match_from(
                s@,
                pattern@,
                at as int,
            ),
        decreases s@.len() - at,
    {
        let window = slice_subrange(s, at, at + pattern.len());
        if starts_with(window, pattern) {
            assert(window@.subrange(0, pattern@.len() as int) =~= window@);
            return Some(at);
        }
        assert(!occurs_at(s@, pattern@, at as int)) by {
            if occurs_at(s@, pattern@, at as int) {
                assert(pattern@ =~= window@.subrange(0, pattern@.len() as int));
            }
        }
        at += 1;
    }
    None
}

} // verus!
