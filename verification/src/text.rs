//! Character-sequence helpers shared by the parsers: the text is handled as
//! a sequence of `char`s, and each helper is specified over `Seq<char>`.

use vstd::prelude::*;

verus! {

/// Copies the characters of `s` into a vector.
pub fn chars_of(s: &str) -> (v: Vec<char>)
    ensures
        v@ == s@,
{
    let mut v: Vec<char> = Vec::new();
    for c in it: s.chars()
        invariant
            v@ == it.seq().take(it.index() as int),
            it.seq() == s@,
    {
        v.push(c);
    }
    v
}

/// `String::push`: appends one character.
#[verifier::external_body]
fn push_char(s: &mut String, c: char)
    ensures
        final(s)@ == old(s)@.push(c),
{
    s.push(c);
}

/// Builds a `String` holding exactly the given characters.
pub fn string_of(v: &[char]) -> (s: String)
    ensures
        s@ == v@,
{
    let mut s = String::new();
    for i in 0..v.len()
        invariant
            s@ == v@.take(i as int),
    {
        push_char(&mut s, v[i]);
        assert(v@.take(i + 1) == v@.take(i as int).push(v@[i as int]));
    }
    assert(v@.take(v@.len() as int) == v@);
    s
}

/// Unicode `White_Space`, the property that `char::is_whitespace` tests.
pub open spec fn is_ws(c: char) -> bool {
    ||| ('\u{9}' <= c && c <= '\u{d}')
    ||| c == ' '
    ||| c == '\u{85}'
    ||| c == '\u{a0}'
    ||| c == '\u{1680}'
    ||| ('\u{2000}' <= c && c <= '\u{200a}')
    ||| c == '\u{2028}'
    ||| c == '\u{2029}'
    ||| c == '\u{202f}'
    ||| c == '\u{205f}'
    ||| c == '\u{3000}'
}

pub fn is_whitespace(c: char) -> (b: bool)
    ensures
        b == is_ws(c),
{
    ('\u{9}' <= c && c <= '\u{d}') || c == ' ' || c == '\u{85}' || c == '\u{a0}' || c == '\u{1680}'
        || ('\u{2000}' <= c && c <= '\u{200a}') || c == '\u{2028}' || c == '\u{2029}'
        || c == '\u{202f}' || c == '\u{205f}' || c == '\u{3000}'
}

pub open spec fn is_digit(c: char) -> bool {
    '0' <= c && c <= '9'
}

/// The text without its leading white space.
pub open spec fn trim_start(s: Seq<char>) -> Seq<char>
    decreases s.len(),
{
    if s.len() > 0 && is_ws(s[0]) {
        trim_start(s.drop_first())
    } else {
        s
    }
}

/// The text without its trailing white space.
pub open spec fn trim_end(s: Seq<char>) -> Seq<char>
    decreases s.len(),
{
    if s.len() > 0 && is_ws(s.last()) {
        trim_end(s.drop_last())
    } else {
        s
    }
}

/// `str::trim`: the text without leading and trailing white space.
pub open spec fn trim(s: Seq<char>) -> Seq<char> {
    trim_end(trim_start(s))
}

proof fn lemma_trim_start_skip(s: Seq<char>, i: int)
    requires
        0 <= i <= s.len(),
        forall|k: int| 0 <= k < i ==> is_ws(#[trigger] s[k]),
    ensures
        trim_start(s) == trim_start(s.skip(i)),
    decreases i,
{
    if i > 0 {
        assert(s.skip(1) =~= s.drop_first());
        lemma_trim_start_skip(s.drop_first(), i - 1);
        assert(s.drop_first().skip(i - 1) =~= s.skip(i));
    } else {
        assert(s.skip(0) =~= s);
    }
}

proof fn lemma_trim_end_take(s: Seq<char>, j: int)
    requires
        0 <= j <= s.len(),
        forall|k: int| j <= k < s.len() ==> is_ws(#[trigger] s[k]),
    ensures
        trim_end(s) == trim_end(s.take(j)),
    decreases s.len() - j,
{
    if j < s.len() {
        lemma_trim_end_take(s.drop_last(), j);
        assert(s.drop_last().take(j) =~= s.take(j));
    } else {
        assert(s.take(j) =~= s);
    }
}

proof fn lemma_trim_start_shape(s: Seq<char>)
    ensures
        exists|i: int| 0 <= i <= s.len() && trim_start(s) == s.skip(i),
        trim_start(s).len() > 0 ==> !is_ws(trim_start(s)[0]),
    decreases s.len(),
{
    if s.len() > 0 && is_ws(s[0]) {
        lemma_trim_start_shape(s.drop_first());
        let i = choose|i: int| 0 <= i <= s.drop_first().len() && trim_start(s.drop_first()) == s.drop_first().skip(i);
        assert(s.drop_first().skip(i) =~= s.skip(i + 1));
    } else {
        assert(s.skip(0) =~= s);
    }
}

proof fn lemma_trim_end_shape(s: Seq<char>)
    ensures
        exists|j: int| 0 <= j <= s.len() && trim_end(s) == s.take(j),
        trim_end(s).len() > 0 ==> !is_ws(trim_end(s).last()),
        trim_end(s).len() > 0 && s.len() > 0 ==> trim_end(s)[0] == s[0],
    decreases s.len(),
{
    if s.len() > 0 && is_ws(s.last()) {
        lemma_trim_end_shape(s.drop_last());
        let j = choose|j: int| 0 <= j <= s.drop_last().len() && trim_end(s.drop_last()) == s.drop_last().take(j);
        assert(s.drop_last().take(j) =~= s.take(j));
    } else {
        assert(s.take(s.len() as int) =~= s);
    }
}

/// The trimmed text is a stretch of the text, and neither starts nor ends
/// with white space.
pub proof fn lemma_trim_shape(s: Seq<char>)
    ensures
        exists|i: int, j: int| 0 <= i <= j <= s.len() && trim(s) == s.subrange(i, j),
        trim(s).len() > 0 ==> !is_ws(trim(s)[0]) && !is_ws(trim(s).last()),
{
    lemma_trim_start_shape(s);
    let t = trim_start(s);
    let i = choose|i: int| 0 <= i <= s.len() && t == s.skip(i);
    lemma_trim_end_shape(t);
    let j = choose|j: int| 0 <= j <= t.len() && trim_end(t) == t.take(j);
    assert(t.take(j) =~= s.subrange(i, i + j));
}

/// Copies `v[from..to]` into a new vector.
pub fn slice_copy(v: &[char], from: usize, to: usize) -> (r: Vec<char>)
    requires
        from <= to <= v@.len(),
    ensures
        r@ == v@.subrange(from as int, to as int),
{
    let mut r: Vec<char> = Vec::new();
    let mut i = from;
    while i < to
        invariant
            from <= i <= to <= v@.len(),
            r@ == v@.subrange(from as int, i as int),
        decreases to - i,
    {
        r.push(v[i]);
        assert(v@.subrange(from as int, i + 1) == v@.subrange(from as int, i as int).push(v@[i as int]));
        i = i + 1;
    }
    r
}

/// `str::trim` on a character sequence.
pub fn trim_chars(v: &[char]) -> (r: Vec<char>)
    ensures
        r@ == trim(v@),
{
    let mut i: usize = 0;
    while i < v.len() && is_whitespace(v[i])
        invariant
            i <= v@.len(),
            forall|k: int| 0 <= k < i ==> is_ws(#[trigger] v@[k]),
        decreases v.len() - i,
    {
        i = i + 1;
    }
    proof {
        lemma_trim_start_skip(v@, i as int);
    }
    let ghost rest = v@.skip(i as int);
    assert(trim_start(rest) == rest);
    let mut j: usize = v.len();
    while j > i && is_whitespace(v[j - 1])
        invariant
            i <= j <= v@.len(),
            forall|k: int| j <= k < v@.len() ==> is_ws(#[trigger] v@[k]),
        decreases j,
    {
        j = j - 1;
    }
    proof {
        lemma_trim_end_take(rest, j - i);
        assert(rest.take(j - i) =~= v@.subrange(i as int, j as int));
        let t = v@.subrange(i as int, j as int);
        if t.len() > 0 {
            assert(t.last() == v@[j - 1]);
        }
    }
    slice_copy(v, i, j)
}


/// The character sequences held by a vector of character vectors.
pub open spec fn views(v: Seq<Vec<char>>) -> Seq<Seq<char>> {
    v.map_values(|x: Vec<char>| x@)
}

/// Length of the leading run of characters that are not white space.
pub open spec fn word_len(s: Seq<char>) -> nat
    decreases s.len(),
{
    if s.len() == 0 || is_ws(s[0]) {
        0
    } else {
        1 + word_len(s.drop_first())
    }
}

pub proof fn lemma_word_len(s: Seq<char>)
    ensures
        word_len(s) <= s.len(),
        s.len() > 0 && !is_ws(s[0]) ==> word_len(s) >= 1,
        forall|k: int| 0 <= k < word_len(s) ==> !is_ws(#[trigger] s[k]),
        word_len(s) < s.len() ==> is_ws(s[word_len(s) as int]),
    decreases s.len(),
{
    if s.len() > 0 && !is_ws(s[0]) {
        lemma_word_len(s.drop_first());
        assert forall|k: int| 0 <= k < word_len(s) implies !is_ws(#[trigger] s[k]) by {
            if k > 0 {
                assert(s[k] == s.drop_first()[k - 1]);
            }
        }
    }
}

/// `str::split_whitespace`: the maximal runs of characters that are not
/// white space, in order.
pub open spec fn words(s: Seq<char>) -> Seq<Seq<char>>
    decreases s.len(),
{
    if s.len() == 0 {
        seq![]
    } else if is_ws(s[0]) {
        words(s.drop_first())
    } else {
        let k = word_len(s);
        proof {
            lemma_word_len(s);
        }
        seq![s.take(k as int)] + words(s.skip(k as int))
    }
}

proof fn lemma_words_skip_ws(s: Seq<char>, i: int, j: int)
    requires
        0 <= i <= j <= s.len(),
        forall|k: int| i <= k < j ==> is_ws(#[trigger] s[k]),
    ensures
        words(s.skip(i)) == words(s.skip(j)),
    decreases j - i,
{
    if i < j {
        assert(s.skip(i).drop_first() =~= s.skip(i + 1));
        lemma_words_skip_ws(s, i + 1, j);
    }
}

proof fn lemma_word_at(s: Seq<char>, i: int, j: int)
    requires
        0 <= i < j <= s.len(),
        forall|k: int| i <= k < j ==> !is_ws(#[trigger] s[k]),
        j == s.len() || is_ws(s[j]),
    ensures
        words(s.skip(i)) == seq![s.subrange(i, j)] + words(s.skip(j)),
{
    let t = s.skip(i);
    lemma_word_len(t);
    assert(word_len(t) == j - i) by {
        if word_len(t) < j - i {
            assert(is_ws(t[word_len(t) as int]));
            assert(t[word_len(t) as int] == s[i + word_len(t)]);
        } else if word_len(t) > j - i {
            assert(!is_ws(t[j - i]));
        }
    }
    assert(t.take(j - i) =~= s.subrange(i, j));
    assert(t.skip(j - i) =~= s.skip(j));
}

/// `str::split_whitespace` on a character sequence.
pub fn split_words(v: &[char]) -> (r: Vec<Vec<char>>)
    ensures
        views(r@) == words(v@),
{
    let mut r: Vec<Vec<char>> = Vec::new();
    let mut i: usize = 0;
    assert(v@.skip(0) =~= v@);
    while i < v.len()
        invariant
            i <= v@.len(),
            words(v@) == views(r@) + words(v@.skip(i as int)),
        decreases v.len() - i,
    {
        if is_whitespace(v[i]) {
            proof {
                lemma_words_skip_ws(v@, i as int, i + 1);
            }
            i = i + 1;
        } else {
            let mut j = i + 1;
            while j < v.len() && !is_whitespace(v[j])
                invariant
                    i < j <= v@.len(),
                    forall|k: int| i <= k < j ==> !is_ws(#[trigger] v@[k]),
                decreases v.len() - j,
            {
                j = j + 1;
            }
            proof {
                lemma_word_at(v@, i as int, j as int);
            }
            let w = slice_copy(v, i, j);
            let ghost old_r = views(r@);
            r.push(w);
            assert(views(r@) =~= old_r.push(w@));
            i = j;
        }
    }
    assert(v@.skip(i as int) =~= Seq::<char>::empty());
    assert(views(r@) + Seq::<Seq<char>>::empty() =~= views(r@));
    r
}


/// Length of the text up to its first line feed (the whole text if none).
pub open spec fn line_len(s: Seq<char>) -> nat
    decreases s.len(),
{
    if s.len() == 0 || s[0] == '\n' {
        0
    } else {
        1 + line_len(s.drop_first())
    }
}

pub proof fn lemma_line_len(s: Seq<char>)
    ensures
        line_len(s) <= s.len(),
        forall|k: int| 0 <= k < line_len(s) ==> #[trigger] s[k] != '\n',
        line_len(s) < s.len() ==> s[line_len(s) as int] == '\n',
    decreases s.len(),
{
    if s.len() > 0 && s[0] != '\n' {
        lemma_line_len(s.drop_first());
        assert forall|k: int| 0 <= k < line_len(s) implies #[trigger] s[k] != '\n' by {
            if k > 0 {
                assert(s[k] == s.drop_first()[k - 1]);
            }
        }
    }
}

/// A line that was ended by a line feed loses one carriage return before it.
pub open spec fn strip_cr(l: Seq<char>) -> Seq<char> {
    if l.len() > 0 && l.last() == '\r' {
        l.drop_last()
    } else {
        l
    }
}

/// `str::lines`: the text split at each line feed, a carriage return just
/// before a line feed dropped, and no empty last line after a final line feed.
pub open spec fn lines(s: Seq<char>) -> Seq<Seq<char>>
    decreases s.len(),
{
    if s.len() == 0 {
        seq![]
    } else {
        let k = line_len(s);
        proof {
            lemma_line_len(s);
        }
        if k < s.len() {
            seq![strip_cr(s.take(k as int))] + lines(s.skip(k as int + 1))
        } else {
            seq![s]
        }
    }
}

proof fn lemma_line_at(s: Seq<char>, i: int, j: int)
    requires
        0 <= i <= j <= s.len(),
        i < s.len(),
        forall|k: int| i <= k < j ==> #[trigger] s[k] != '\n',
        j == s.len() || s[j] == '\n',
    ensures
        j < s.len() ==> lines(s.skip(i)) == seq![strip_cr(s.subrange(i, j))] + lines(s.skip(j + 1)),
        j == s.len() ==> lines(s.skip(i)) == seq![s.subrange(i, j)],
{
    let t = s.skip(i);
    lemma_line_len(t);
    assert(line_len(t) == j - i) by {
        if line_len(t) < j - i {
            assert(t[line_len(t) as int] == s[i + line_len(t)]);
        } else if line_len(t) > j - i {
            assert(t[j - i] == s[j]);
        }
    }
    assert(t.take(j - i) =~= s.subrange(i, j));
    if j < s.len() {
        assert(t.skip(j - i + 1) =~= s.skip(j + 1));
    }
    if j == s.len() {
        assert(t =~= s.subrange(i, j));
    }
}

/// `str::lines` on a character sequence.
pub fn split_lines(v: &[char]) -> (r: Vec<Vec<char>>)
    ensures
        views(r@) == lines(v@),
{
    let mut r: Vec<Vec<char>> = Vec::new();
    let mut i: usize = 0;
    assert(v@.skip(0) =~= v@);
    while i < v.len()
        invariant
            i <= v@.len(),
            lines(v@) == views(r@) + lines(v@.skip(i as int)),
        decreases v.len() - i,
    {
        let mut j = i;
        while j < v.len() && v[j] != '\n'
            invariant
                i <= j <= v@.len(),
                forall|k: int| i <= k < j ==> #[trigger] v@[k] != '\n',
            decreases v.len() - j,
        {
            j = j + 1;
        }
        proof {
            lemma_line_at(v@, i as int, j as int);
        }
        let ghost old_r = views(r@);
        if j < v.len() {
            let end = if j > i && v[j - 1] == '\r' { j - 1 } else { j };
            let w = slice_copy(v, i, end);
            proof {
                let l = v@.subrange(i as int, j as int);
                if j > i && v@[j - 1] == '\r' {
                    assert(l.drop_last() =~= v@.subrange(i as int, end as int));
                } else {
                    assert(l =~= v@.subrange(i as int, end as int));
                }
            }
            r.push(w);
            assert(views(r@) =~= old_r.push(w@));
            i = j + 1;
        } else {
            let w = slice_copy(v, i, j);
            r.push(w);
            assert(views(r@) =~= old_r.push(w@));
            i = j;
            assert(v@.skip(i as int) =~= Seq::<char>::empty());
        }
    }
    assert(v@.skip(i as int) =~= Seq::<char>::empty());
    r
}

/// The needle occurs in the text at position `i`.
pub open spec fn occurs_at(hay: Seq<char>, needle: Seq<char>, i: int) -> bool {
    0 <= i && i + needle.len() <= hay.len() && hay.subrange(i, i + needle.len()) == needle
}

/// `str::find`: the first position at or after `from` where the needle occurs.
pub open spec fn find_from(hay: Seq<char>, needle: Seq<char>, from: int) -> Option<int>
    decreases hay.len() + 1 - from,
{
    if from < 0 || from + needle.len() > hay.len() {
        None
    } else if occurs_at(hay, needle, from) {
        Some(from)
    } else {
        find_from(hay, needle, from + 1)
    }
}

pub open spec fn find(hay: Seq<char>, needle: Seq<char>) -> Option<int> {
    find_from(hay, needle, 0)
}

/// `str::contains`.
pub open spec fn contains(hay: Seq<char>, needle: Seq<char>) -> bool {
    find(hay, needle) is Some
}

/// `str::starts_with`.
pub open spec fn starts_with(s: Seq<char>, p: Seq<char>) -> bool {
    p.len() <= s.len() && s.take(p.len() as int) == p
}

/// `str::ends_with`.
pub open spec fn ends_with(s: Seq<char>, p: Seq<char>) -> bool {
    p.len() <= s.len() && s.skip(s.len() - p.len()) == p
}

pub proof fn lemma_find_from(hay: Seq<char>, needle: Seq<char>, from: int)
    requires
        0 <= from,
    ensures
        find_from(hay, needle, from) matches Some(i) ==> from <= i && occurs_at(hay, needle, i),
        find_from(hay, needle, from) is None ==> forall|i: int|
            from <= i ==> !#[trigger] occurs_at(hay, needle, i),
        find_from(hay, needle, from) matches Some(i) ==> forall|k: int|
            from <= k < i ==> !#[trigger] occurs_at(hay, needle, k),
    decreases hay.len() + 1 - from,
{
    if from + needle.len() <= hay.len() && !occurs_at(hay, needle, from) {
        lemma_find_from(hay, needle, from + 1);
    }
}

/// A text that contains a needle contains every stretch of the needle.
pub proof fn lemma_contains_part(hay: Seq<char>, needle: Seq<char>, off: int, part: Seq<char>)
    requires
        contains(hay, needle),
        0 <= off,
        off + part.len() <= needle.len(),
        needle.subrange(off, off + part.len()) == part,
    ensures
        contains(hay, part),
{
    lemma_find_from(hay, needle, 0);
    let i = find(hay, needle)->0;
    assert(hay.subrange(i + off, i + off + part.len()) =~= needle.subrange(off, off + part.len()));
    assert(occurs_at(hay, part, i + off));
    lemma_find_from(hay, part, 0);
}

/// A needle that neither starts nor ends with white space, found in a
/// text, is found in the trimmed text too.
pub proof fn lemma_contains_trim(s: Seq<char>, needle: Seq<char>)
    requires
        contains(s, needle),
        needle.len() > 0,
        !is_ws(needle[0]),
        !is_ws(needle.last()),
    ensures
        contains(trim(s), needle),
{
    lemma_trim_bounds(s);
    let (i, j) = choose|i: int, j: int|
        0 <= i <= j <= s.len() && trim(s) == s.subrange(i, j) && (forall|k: int|
            0 <= k < i ==> is_ws(#[trigger] s[k])) && (forall|k: int|
            j <= k < s.len() ==> is_ws(#[trigger] s[k]));
    lemma_find_from(s, needle, 0);
    let p = find(s, needle)->0;
    let n = needle.len();
    assert(s[p] == needle[0]) by {
        assert(s.subrange(p, p + n)[0] == s[p]);
    }
    assert(s[p + n - 1] == needle.last()) by {
        assert(s.subrange(p, p + n)[n - 1] == s[p + n - 1]);
    }
    assert(i <= p);
    assert(p + n <= j);
    let t = trim(s);
    assert(t.subrange(p - i, p - i + n) =~= needle) by {
        assert forall|k: int| 0 <= k < n implies t.subrange(p - i, p - i + n)[k] == needle[k] by {
            assert(t[p - i + k] == s[p + k]);
            assert(s.subrange(p, p + n)[k] == s[p + k]);
        }
    }
    assert(occurs_at(t, needle, p - i));
    lemma_find_from(t, needle, 0);
}

proof fn lemma_trim_start_bound(s: Seq<char>)
    ensures
        exists|i: int|
            0 <= i <= s.len() && trim_start(s) == s.skip(i) && forall|k: int|
                0 <= k < i ==> is_ws(#[trigger] s[k]),
    decreases s.len(),
{
    if s.len() > 0 && is_ws(s[0]) {
        let d = s.drop_first();
        lemma_trim_start_bound(d);
        let i = choose|i: int|
            0 <= i <= d.len() && trim_start(d) == d.skip(i) && forall|k: int|
                0 <= k < i ==> is_ws(#[trigger] d[k]);
        assert(d.skip(i) =~= s.skip(i + 1));
        assert forall|k: int| 0 <= k < i + 1 implies is_ws(#[trigger] s[k]) by {
            if k > 0 {
                assert(s[k] == d[k - 1]);
            }
        }
    } else {
        assert(s.skip(0) =~= s);
    }
}

proof fn lemma_trim_end_bound(s: Seq<char>)
    ensures
        exists|j: int|
            0 <= j <= s.len() && trim_end(s) == s.take(j) && forall|k: int|
                j <= k < s.len() ==> is_ws(#[trigger] s[k]),
    decreases s.len(),
{
    if s.len() > 0 && is_ws(s.last()) {
        let d = s.drop_last();
        lemma_trim_end_bound(d);
        let j = choose|j: int|
            0 <= j <= d.len() && trim_end(d) == d.take(j) && forall|k: int|
                j <= k < d.len() ==> is_ws(#[trigger] d[k]);
        assert(d.take(j) =~= s.take(j));
        assert forall|k: int| j <= k < s.len() implies is_ws(#[trigger] s[k]) by {
            if k < s.len() - 1 {
                assert(s[k] == d[k]);
            }
        }
    } else {
        assert(s.take(s.len() as int) =~= s);
    }
}

/// The trimmed text is the stretch between leading and trailing white space.
proof fn lemma_trim_bounds(s: Seq<char>)
    ensures
        exists|i: int, j: int|
            0 <= i <= j <= s.len() && trim(s) == s.subrange(i, j) && (forall|k: int|
                0 <= k < i ==> is_ws(#[trigger] s[k])) && (forall|k: int|
                j <= k < s.len() ==> is_ws(#[trigger] s[k])),
{
    lemma_trim_start_bound(s);
    let i = choose|i: int|
        0 <= i <= s.len() && trim_start(s) == s.skip(i) && forall|k: int|
            0 <= k < i ==> is_ws(#[trigger] s[k]);
    let t = s.skip(i);
    lemma_trim_end_bound(t);
    let j = choose|j: int|
        0 <= j <= t.len() && trim_end(t) == t.take(j) && forall|k: int|
            j <= k < t.len() ==> is_ws(#[trigger] t[k]);
    assert(t.take(j) =~= s.subrange(i, i + j));
    assert forall|k: int| i + j <= k < s.len() implies is_ws(#[trigger] s[k]) by {
        assert(s[k] == t[k - i]);
    }
    assert(0 <= i <= i + j <= s.len() && trim(s) == s.subrange(i, i + j));
}

/// Whether `needle` occurs in `hay` at position `i`.
pub fn occurs_at_exec(hay: &[char], needle: &[char], i: usize) -> (b: bool)
    ensures
        b == occurs_at(hay@, needle@, i as int),
{
    if i > hay.len() || needle.len() > hay.len() - i {
        return false;
    }
    let mut k: usize = 0;
    while k < needle.len()
        invariant
            i + needle@.len() <= hay@.len(),
            k <= needle@.len(),
            forall|m: int| 0 <= m < k ==> hay@[i + m] == needle@[m],
        decreases needle.len() - k,
    {
        assert(i + k < hay.len());
        if hay[i + k] != needle[k] {
            assert(hay@.subrange(i as int, i + needle@.len())[k as int] != needle@[k as int]);
            return false;
        }
        k = k + 1;
    }
    assert(hay@.subrange(i as int, i + needle@.len()) =~= needle@);
    true
}

/// `str::find` on character sequences.
pub fn find_chars(hay: &[char], needle: &[char]) -> (r: Option<usize>)
    ensures
        r matches Some(i) ==> find(hay@, needle@) == Some(i as int),
        r is None ==> find(hay@, needle@) is None,
{
    if needle.len() > hay.len() {
        return None;
    }
    let last = hay.len() - needle.len();
    let mut i: usize = 0;
    while i <= last
        invariant
            last + needle@.len() == hay@.len(),
            i <= last + 1,
            find(hay@, needle@) == find_from(hay@, needle@, i as int),
        decreases last + 1 - i,
    {
        if occurs_at_exec(hay, needle, i) {
            return Some(i);
        }
        if i == last {
            assert(find_from(hay@, needle@, i + 1) is None);
            return None;
        }
        i = i + 1;
    }
    None
}

/// `str::contains` on character sequences.
pub fn contains_chars(hay: &[char], needle: &[char]) -> (b: bool)
    ensures
        b == contains(hay@, needle@),
{
    find_chars(hay, needle).is_some()
}

/// `str::starts_with` on character sequences.
pub fn starts_with_chars(s: &[char], p: &[char]) -> (b: bool)
    ensures
        b == starts_with(s@, p@),
{
    let b = occurs_at_exec(s, p, 0);
    assert(b ==> s@.subrange(0, p@.len() as int) =~= s@.take(p@.len() as int));
    assert(starts_with(s@, p@) ==> s@.subrange(0, p@.len() as int) =~= s@.take(p@.len() as int));
    b
}

/// `str::ends_with` on character sequences.
pub fn ends_with_chars(s: &[char], p: &[char]) -> (b: bool)
    ensures
        b == ends_with(s@, p@),
{
    if p.len() > s.len() {
        return false;
    }
    let i = s.len() - p.len();
    let b = occurs_at_exec(s, p, i);
    assert(s@.subrange(i as int, i + p@.len()) =~= s@.skip(i as int));
    b
}


pub open spec fn digit_value(c: char) -> nat {
    ((c as int) - ('0' as int)) as nat
}

pub open spec fn all_digits(s: Seq<char>) -> bool {
    forall|i: int| 0 <= i < s.len() ==> is_digit(#[trigger] s[i])
}

/// The number written by a string of decimal digits.
pub open spec fn digits_value(s: Seq<char>) -> nat
    decreases s.len(),
{
    if s.len() == 0 {
        0
    } else {
        digits_value(s.drop_last()) * 10 + digit_value(s.last())
    }
}

pub open spec fn min_nat(a: nat, b: nat) -> nat {
    if a <= b {
        a
    } else {
        b
    }
}

proof fn lemma_capped_step(a: nat, d: nat, cap: nat)
    requires
        cap >= 1,
    ensures
        min_nat(min_nat(a, cap) * 10 + d, cap) == min_nat(a * 10 + d, cap),
{
    if a >= cap {
        assert(a * 10 >= cap * 10) by (nonlinear_arith)
            requires
                a >= cap,
        ;
    }
}

/// Reads `v[from..to]` as decimal digits: `None` if a character there is not
/// a digit, else the number they write, capped at `cap`.
pub fn digits_capped(v: &[char], from: usize, to: usize, cap: u64) -> (r: Option<u64>)
    requires
        from <= to <= v@.len(),
        1 <= cap <= u64::MAX / 16,
    ensures
        r is None <==> !all_digits(v@.subrange(from as int, to as int)),
        r matches Some(n) ==> n == min_nat(digits_value(v@.subrange(from as int, to as int)), cap as nat),
{
    let mut acc: u64 = 0;
    let mut i = from;
    let ghost s = v@.subrange(from as int, to as int);
    while i < to
        invariant
            from <= i <= to <= v@.len(),
            1 <= cap <= u64::MAX / 16,
            s == v@.subrange(from as int, to as int),
            all_digits(s.take(i - from)),
            acc == min_nat(digits_value(s.take(i - from)), cap as nat),
        decreases to - i,
    {
        let c = v[i];
        if !('0' <= c && c <= '9') {
            assert(s[i - from] == c);
            return None;
        }
        let d = (c as u32 - '0' as u32) as u64;
        proof {
            let t = s.take(i - from + 1);
            assert(t.drop_last() =~= s.take(i - from));
            assert(t.last() == c);
            lemma_capped_step(digits_value(s.take(i - from)), d as nat, cap as nat);
            assert forall|k: int| 0 <= k < t.len() implies is_digit(#[trigger] t[k]) by {
                if k < t.len() - 1 {
                    assert(t[k] == s.take(i - from)[k]);
                }
            }
        }
        let next = acc * 10 + d;
        acc = if next > cap { cap } else { next };
        i = i + 1;
    }
    assert(s.take(to - from) =~= s);
    Some(acc)
}

/// Drops one leading `+`, as the integer and float parsers of the standard
/// library accept one.
pub open spec fn unsigned_digits(s: Seq<char>) -> Seq<char> {
    if s.len() > 0 && s[0] == '+' {
        s.drop_first()
    } else {
        s
    }
}

/// `str::parse` for an unsigned integer type whose largest value is `max`.
pub open spec fn parse_unsigned(s: Seq<char>, max: nat) -> Option<nat> {
    let d = unsigned_digits(s);
    if d.len() > 0 && all_digits(d) && digits_value(d) <= max {
        Some(digits_value(d))
    } else {
        None
    }
}

/// `str::parse::<u8>`, `str::parse::<u16>` and the like, for `max < 65536`.
pub fn parse_unsigned_chars(v: &[char], max: u32) -> (r: Option<u32>)
    requires
        max <= 65535,
    ensures
        r matches Some(n) ==> parse_unsigned(v@, max as nat) == Some(n as nat),
        r is None ==> parse_unsigned(v@, max as nat) is None,
{
    let start: usize = if v.len() > 0 && v[0] == '+' { 1 } else { 0 };
    assert(v@.subrange(start as int, v@.len() as int) =~= unsigned_digits(v@));
    if start == v.len() {
        return None;
    }
    match digits_capped(v, start, v.len(), max as u64 + 1) {
        None => None,
        Some(n) => if n <= max as u64 { Some(n as u32) } else { None },
    }
}

pub open spec fn pow10(k: nat) -> nat
    decreases k,
{
    if k == 0 {
        1
    } else {
        10 * pow10((k - 1) as nat)
    }
}

/// Microseconds written by the digits after a decimal point: the first
/// three digits, padded with zeros; later digits are dropped.
pub open spec fn fraction_micros(f: Seq<char>) -> nat {
    if f.len() >= 3 {
        digits_value(f.take(3))
    } else {
        digits_value(f) * pow10((3 - f.len()) as nat)
    }
}

pub open spec fn saturate_u32(n: nat) -> u32 {
    if n > u32::MAX {
        u32::MAX
    } else {
        n as u32
    }
}

/// A time in milliseconds written as a plain decimal number (`12`, `12.3`,
/// `.5`, `7.`, with an optional leading `+`), read to the microsecond.
/// Digits after the third decimal place are dropped, and a time longer than
/// `u32::MAX` microseconds is held as `u32::MAX`. `None` where the text is
/// not such a number: no digit at all, two decimal points, or another
/// character.
pub open spec fn parse_millis(s: Seq<char>) -> Option<u32> {
    let d = unsigned_digits(s);
    match find(d, seq!['.']) {
        None => if d.len() > 0 && all_digits(d) {
            Some(saturate_u32(digits_value(d) * 1000))
        } else {
            None
        },
        Some(p) => {
            let ip = d.take(p);
            let fp = d.skip(p + 1);
            if all_digits(ip) && all_digits(fp) && (ip.len() > 0 || fp.len() > 0) {
                Some(saturate_u32(digits_value(ip) * 1000 + fraction_micros(fp)))
            } else {
                None
            }
        },
    }
}


pub proof fn lemma_digits_value_bound(s: Seq<char>)
    requires
        all_digits(s),
    ensures
        digits_value(s) < pow10(s.len()),
    decreases s.len(),
{
    if s.len() > 0 {
        let t = s.drop_last();
        assert(all_digits(t)) by {
            assert forall|i: int| 0 <= i < t.len() implies is_digit(#[trigger] t[i]) by {
                assert(t[i] == s[i]);
            }
        }
        lemma_digits_value_bound(t);
        assert(is_digit(s[s.len() - 1]));
        let a = digits_value(t);
        let p = pow10(t.len());
        assert(pow10(s.len()) == 10 * p);
        assert(a * 10 + digit_value(s.last()) < 10 * p) by (nonlinear_arith)
            requires
                a < p,
                digit_value(s.last()) < 10,
        ;
    }
}

proof fn lemma_all_digits_subrange(s: Seq<char>, i: int, j: int)
    requires
        all_digits(s),
        0 <= i <= j <= s.len(),
    ensures
        all_digits(s.subrange(i, j)),
{
    assert forall|k: int| 0 <= k < j - i implies is_digit(#[trigger] s.subrange(i, j)[k]) by {
        assert(s.subrange(i, j)[k] == s[i + k]);
    }
}

proof fn lemma_pow10_small()
    ensures
        pow10(0) == 1,
        pow10(1) == 10,
        pow10(2) == 100,
        pow10(3) == 1000,
{
    reveal_with_fuel(pow10, 4);
}

/// Reads a time in milliseconds as `parse_millis` describes it.
pub fn parse_millis_chars(v: &[char]) -> (r: Option<u32>)
    ensures
        r == parse_millis(v@),
{
    let start: usize = if v.len() > 0 && v[0] == '+' { 1 } else { 0 };
    let d = slice_copy(v, start, v.len());
    assert(d@ =~= unsigned_digits(v@));
    let point: Vec<char> = vec!['.'];
    assert(point@ =~= seq!['.']);
    let len = d.len();
    let whole_cap: u64 = 4_294_968;
    match find_chars(&d, &point) {
        None => {
            if len == 0 {
                return None;
            }
            assert(d@.subrange(0, len as int) =~= d@);
            match digits_capped(&d, 0, len, whole_cap) {
                None => None,
                Some(n) => {
                    let us = n * 1000;
                    Some(if us > 4_294_967_295 { u32::MAX } else { us as u32 })
                },
            }
        },
        Some(p) => {
            proof {
                lemma_find_from(d@, point@, 0);
            }
            assert(d@.subrange(0, p as int) =~= d@.take(p as int));
            assert(d@.subrange(p + 1, len as int) =~= d@.skip(p + 1));
            let whole = digits_capped(&d, 0, p, whole_cap);
            let frac_ok = digits_capped(&d, p + 1, len, 1);
            if whole.is_none() || frac_ok.is_none() || (p == 0 && len == 1) {
                return None;
            }
            let w = whole.unwrap();
            let ghost fp = d@.skip(p + 1);
            proof {
                lemma_digits_value_bound(fp);
            }
            let flen = len - (p + 1);
            let frac: u64 = if flen >= 3 {
                proof {
                    lemma_all_digits_subrange(fp, 0, 3);
                    lemma_digits_value_bound(fp.take(3));
                    assert(fp.take(3) =~= d@.subrange(p + 1, p + 4));
                    lemma_pow10_small();
                }
                digits_capped(&d, p + 1, p + 4, 1000).unwrap()
            } else {
                proof {
                    lemma_pow10_small();
                }
                let f = digits_capped(&d, p + 1, len, 1000).unwrap();
                assert(f <= 1000);
                if flen == 0 { f * 1000 } else if flen == 1 { f * 100 } else { f * 10 }
            };
            let us = w * 1000 + frac;
            Some(if us > 4_294_967_295 { u32::MAX } else { us as u32 })
        },
    }
}


/// Length of the text up to the first `sep` (the whole text if none).
pub open spec fn piece_len(s: Seq<char>, sep: char) -> nat
    decreases s.len(),
{
    if s.len() == 0 || s[0] == sep {
        0
    } else {
        1 + piece_len(s.drop_first(), sep)
    }
}

pub proof fn lemma_piece_len(s: Seq<char>, sep: char)
    ensures
        piece_len(s, sep) <= s.len(),
        forall|k: int| 0 <= k < piece_len(s, sep) ==> #[trigger] s[k] != sep,
        piece_len(s, sep) < s.len() ==> s[piece_len(s, sep) as int] == sep,
    decreases s.len(),
{
    if s.len() > 0 && s[0] != sep {
        lemma_piece_len(s.drop_first(), sep);
        assert forall|k: int| 0 <= k < piece_len(s, sep) implies #[trigger] s[k] != sep by {
            if k > 0 {
                assert(s[k] == s.drop_first()[k - 1]);
            }
        }
    }
}

/// `str::split` at a character: the pieces between separators, empty ones
/// included, so that the empty text gives one empty piece.
pub open spec fn split_on(s: Seq<char>, sep: char) -> Seq<Seq<char>>
    decreases s.len(),
{
    let k = piece_len(s, sep);
    proof {
        lemma_piece_len(s, sep);
    }
    if k < s.len() {
        seq![s.take(k as int)] + split_on(s.skip(k as int + 1), sep)
    } else {
        seq![s]
    }
}

proof fn lemma_piece_at(s: Seq<char>, sep: char, i: int, j: int)
    requires
        0 <= i <= j <= s.len(),
        forall|k: int| i <= k < j ==> #[trigger] s[k] != sep,
        j == s.len() || s[j] == sep,
    ensures
        j < s.len() ==> split_on(s.skip(i), sep) == seq![s.subrange(i, j)] + split_on(
            s.skip(j + 1),
            sep,
        ),
        j == s.len() ==> split_on(s.skip(i), sep) == seq![s.subrange(i, j)],
{
    let t = s.skip(i);
    lemma_piece_len(t, sep);
    assert(piece_len(t, sep) == j - i) by {
        if piece_len(t, sep) < j - i {
            assert(t[piece_len(t, sep) as int] == s[i + piece_len(t, sep)]);
        } else if piece_len(t, sep) > j - i {
            assert(t[j - i] == s[j]);
        }
    }
    assert(t.take(j - i) =~= s.subrange(i, j));
    if j < s.len() {
        assert(t.skip(j - i + 1) =~= s.skip(j + 1));
    } else {
        assert(t =~= s.subrange(i, j));
    }
}

/// `str::split` at a character, on a character sequence.
pub fn split_on_chars(v: &[char], sep: char) -> (r: Vec<Vec<char>>)
    ensures
        views(r@) == split_on(v@, sep),
{
    let mut r: Vec<Vec<char>> = Vec::new();
    let mut i: usize = 0;
    assert(v@.skip(0) =~= v@);
    loop
        invariant
            i <= v@.len(),
            split_on(v@, sep) == views(r@) + split_on(v@.skip(i as int), sep),
        decreases v.len() - i,
    {
        let mut j = i;
        while j < v.len() && v[j] != sep
            invariant
                i <= j <= v@.len(),
                forall|k: int| i <= k < j ==> #[trigger] v@[k] != sep,
            decreases v.len() - j,
        {
            j = j + 1;
        }
        proof {
            lemma_piece_at(v@, sep, i as int, j as int);
        }
        let ghost old_r = views(r@);
        let w = slice_copy(v, i, j);
        r.push(w);
        assert(views(r@) =~= old_r.push(w@));
        if j == v.len() {
            assert(views(r@) =~= old_r + seq![w@]);
            return r;
        }
        i = j + 1;
    }
}

/// Appends the characters of `src` to `dst`.
pub fn extend_chars(dst: &mut Vec<char>, src: &[char])
    ensures
        final(dst)@ == old(dst)@ + src@,
{
    let ghost start = dst@;
    for i in 0..src.len()
        invariant
            dst@ == start + src@.take(i as int),
    {
        dst.push(src[i]);
        assert(src@.take(i + 1) == src@.take(i as int).push(src@[i as int]));
        assert(start + src@.take(i + 1) =~= (start + src@.take(i as int)).push(src@[i as int]));
    }
    assert(src@.take(src@.len() as int) =~= src@);
}

pub open spec fn digit_char(d: nat) -> char {
    ((d + 48) as u8) as char
}

/// The decimal digits of a number, as `u64`'s `Display` writes them.
pub open spec fn decimal(n: nat) -> Seq<char>
    decreases n,
{
    if n < 10 {
        seq![digit_char(n)]
    } else {
        decimal(n / 10).push(digit_char(n % 10))
    }
}

/// Writes a number in decimal.
pub fn decimal_chars(n: u64) -> (r: Vec<char>)
    ensures
        r@ == decimal(n as nat),
    decreases n,
{
    let c = ((n % 10) as u8 + 48u8) as char;
    if n < 10 {
        vec![c]
    } else {
        let mut r = decimal_chars(n / 10);
        r.push(c);
        r
    }
}

} // verus!
