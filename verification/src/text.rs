//! Character-level text operations: white space, trimming, splitting into
//! words, and cutting a marker out of a line.
//!
//! Every operation has a mathematical definition on `Seq<char>` and an
//! executable function proved to compute it.

use vstd::prelude::*;

verus! {

/// Specification assumed for `String::push` of the standard library: the
/// string afterwards is the string before with the character added at its end.
pub assume_specification[ String::push ](s: &mut String, c: char)
    ensures
        final(s)@ == old(s)@.push(c),
;

/// A character with the Unicode property `White_Space`.
pub open spec fn white_space(c: char) -> bool {
    let u = c as u32;
    ||| 0x09 <= u <= 0x0D
    ||| u == 0x20
    ||| u == 0x85
    ||| u == 0xA0
    ||| u == 0x1680
    ||| 0x2000 <= u <= 0x200A
    ||| u == 0x2028
    ||| u == 0x2029
    ||| u == 0x202F
    ||| u == 0x205F
    ||| u == 0x3000
}

/// Every character of `s` is white space (so the empty line is blank).
pub open spec fn blank(s: Seq<char>) -> bool {
    forall|i: int| 0 <= i < s.len() ==> white_space(#[trigger] s[i])
}

/// `s` without its leading white space.
pub open spec fn trim_start(s: Seq<char>) -> Seq<char>
    decreases s.len(),
{
    if s.len() > 0 && white_space(s[0]) {
        trim_start(s.skip(1))
    } else {
        s
    }
}

/// `s` without its trailing white space.
pub open spec fn trim_end(s: Seq<char>) -> Seq<char>
    decreases s.len(),
{
    if s.len() > 0 && white_space(s.last()) {
        trim_end(s.drop_last())
    } else {
        s
    }
}

/// `s` without leading and trailing white space.
pub open spec fn trimmed(s: Seq<char>) -> Seq<char> {
    trim_end(trim_start(s))
}

/// `s` with every occurrence of `marker` cut out, found from left to right
/// without overlap. An empty marker cuts nothing.
pub open spec fn without(s: Seq<char>, marker: Seq<char>) -> Seq<char>
    decreases s.len(),
{
    if marker.len() == 0 || s.len() < marker.len() {
        s
    } else if marker.is_prefix_of(s) {
        without(s.skip(marker.len() as int), marker)
    } else {
        seq![s[0]] + without(s.skip(1), marker)
    }
}

/// The length of the longest prefix of `s` that holds no white space.
pub open spec fn word_len(s: Seq<char>) -> nat
    decreases s.len(),
{
    if s.len() == 0 || white_space(s[0]) {
        0
    } else {
        1 + word_len(s.skip(1))
    }
}

/// The words of `s`: its maximal runs of characters that are not white space,
/// from left to right.
pub open spec fn words(s: Seq<char>) -> Seq<Seq<char>>
    decreases s.len(),
    via words_decreases
{
    if s.len() == 0 {
        Seq::empty()
    } else if white_space(s[0]) {
        words(s.skip(1))
    } else {
        seq![s.take(word_len(s) as int)] + words(s.skip(word_len(s) as int))
    }
}

#[via_fn]
proof fn words_decreases(s: Seq<char>) {
    lemma_word_len_bounds(s);
}

/// A word is never longer than the text it starts, and is not empty where a
/// character that is not white space stands first.
pub proof fn lemma_word_len_bounds(s: Seq<char>)
    ensures
        word_len(s) <= s.len(),
        s.len() > 0 && !white_space(s[0]) ==> word_len(s) >= 1,
        forall|i: int| 0 <= i < word_len(s) ==> !white_space(#[trigger] s[i]),
        word_len(s) < s.len() ==> white_space(s[word_len(s) as int]),
    decreases s.len(),
{
    if s.len() > 0 && !white_space(s[0]) {
        let rest = s.skip(1);
        lemma_word_len_bounds(rest);
        assert forall|i: int| 0 <= i < word_len(s) implies !white_space(#[trigger] s[i]) by {
            if i > 0 {
                assert(s[i] == rest[i - 1]);
            }
        }
        if word_len(s) < s.len() {
            assert(s[word_len(s) as int] == rest[word_len(rest) as int]);
        }
    }
}

/// Whether `c` is white space.
pub fn is_white_space(c: char) -> (b: bool)
    ensures
        b == white_space(c),
{
    let u: u32 = c as u32;
    (0x09 <= u && u <= 0x0D) || u == 0x20 || u == 0x85 || u == 0xA0 || u == 0x1680 || (0x2000 <= u
        && u <= 0x200A) || u == 0x2028 || u == 0x2029 || u == 0x202F || u == 0x205F || u == 0x3000
}

/// The characters of `s`, in order.
pub fn chars_of(s: &str) -> (out: Vec<char>)
    ensures
        out@ == s@,
{
    let mut out: Vec<char> = Vec::new();
    for c in it: s.chars()
        invariant
            out@ == it.seq().take(it.index() as int),
            it.seq() == s@,
    {
        out.push(c);
    }
    out
}

/// The string made of `chars[from..to]`.
pub fn string_of(chars: &Vec<char>, from: usize, to: usize) -> (out: String)
    requires
        from <= to <= chars.len(),
    ensures
        out@ == chars@.subrange(from as int, to as int),
{
    let mut out = String::new();
    let mut i: usize = from;
    while i < to
        invariant
            from <= i <= to <= chars.len(),
            out@ == chars@.subrange(from as int, i as int),
        decreases to - i,
    {
        out.push(chars[i]);
        i += 1;
    }
    out
}

/// Whether every character of `chars` is white space.
pub fn is_blank(chars: &Vec<char>) -> (b: bool)
    ensures
        b == blank(chars@),
{
    let mut i: usize = 0;
    while i < chars.len()
        invariant
            i <= chars.len(),
            forall|j: int| 0 <= j < i ==> white_space(#[trigger] chars@[j]),
        decreases chars.len() - i,
    {
        if !is_white_space(chars[i]) {
            return false;
        }
        i += 1;
    }
    true
}

/// Whether `marker` stands in `chars` at position `at`.
pub fn occurs_at(chars: &Vec<char>, marker: &Vec<char>, at: usize) -> (b: bool)
    requires
        at <= chars.len(),
    ensures
        b == marker@.is_prefix_of(chars@.skip(at as int)),
{
    let n = chars.len();
    let m = marker.len();
    if m > n - at {
        return false;
    }
    let mut j: usize = 0;
    while j < m
        invariant
            j <= m,
            m == marker.len(),
            n == chars.len(),
            at <= n,
            m <= n - at,
            forall|k: int| 0 <= k < j ==> chars@[at + k] == marker@[k],
        decreases m - j,
    {
        if chars[at + j] != marker[j] {
            assert(chars@.skip(at as int).subrange(0, m as int)[j as int] != marker@[j as int]);
            return false;
        }
        j += 1;
    }
    assert(marker@ =~= chars@.skip(at as int).subrange(0, m as int));
    true
}

/// Whether `chars` begins with `marker`.
pub fn starts_with(chars: &Vec<char>, marker: &Vec<char>) -> (b: bool)
    ensures
        b == marker@.is_prefix_of(chars@),
{
    assert(chars@.skip(0) =~= chars@);
    occurs_at(chars, marker, 0)
}

/// `chars` with every occurrence of `marker` cut out.
pub fn remove_all(chars: &Vec<char>, marker: &Vec<char>) -> (out: Vec<char>)
    ensures
        out@ == without(chars@, marker@),
{
    let n = chars.len();
    let m = marker.len();
    let mut out: Vec<char> = Vec::new();
    let mut i: usize = 0;
    assert(chars@.skip(0) =~= chars@);
    assert(out@ + without(chars@, marker@) =~= without(chars@, marker@));
    while i < n
        invariant
            i <= n,
            n == chars.len(),
            m == marker.len(),
            without(chars@, marker@) == out@ + without(chars@.skip(i as int), marker@),
        decreases n - i,
    {
        let ghost rest = chars@.skip(i as int);
        if m > 0 && occurs_at(chars, marker, i) {
            assert(rest.skip(m as int) =~= chars@.skip(i + m));
            i += m;
        } else {
            proof {
                assert(rest.skip(1) =~= chars@.skip(i + 1));
                if m > 0 && rest.len() < m {
                    assert(rest.skip(1).len() < m);
                    assert(rest =~= seq![rest[0]] + rest.skip(1));
                } else if m == 0 {
                    assert(rest =~= seq![rest[0]] + rest.skip(1));
                }
                assert(without(rest, marker@) == seq![rest[0]] + without(rest.skip(1), marker@));
                assert(out@.push(chars@[i as int]) + without(rest.skip(1), marker@) =~= out@ + (
                seq![rest[0]] + without(rest.skip(1), marker@)));
            }
            out.push(chars[i]);
            i += 1;
        }
    }
    assert(chars@.skip(n as int) =~= Seq::<char>::empty());
    assert(out@ + Seq::<char>::empty() =~= out@);
    out
}

/// The bounds `(from, to)` of `chars` without its leading and trailing white space.
pub fn trim_bounds(chars: &Vec<char>) -> (bounds: (usize, usize))
    ensures
        bounds.0 <= bounds.1 <= chars.len(),
        chars@.subrange(bounds.0 as int, bounds.1 as int) == trimmed(chars@),
{
    let n = chars.len();
    let mut from: usize = 0;
    assert(chars@.skip(0) =~= chars@);
    while from < n && is_white_space(chars[from])
        invariant
            from <= n,
            n == chars.len(),
            trim_start(chars@) == trim_start(chars@.skip(from as int)),
        decreases n - from,
    {
        assert(chars@.skip(from as int).skip(1) =~= chars@.skip(from + 1));
        from += 1;
    }
    assert(trim_start(chars@) == chars@.skip(from as int));
    assert(chars@.skip(from as int) =~= chars@.subrange(from as int, n as int));
    let mut to: usize = n;
    while to > from && is_white_space(chars[to - 1])
        invariant
            from <= to <= n,
            n == chars.len(),
            trimmed(chars@) == trim_end(chars@.subrange(from as int, to as int)),
        decreases to - from,
    {
        assert(chars@.subrange(from as int, to as int).drop_last() =~= chars@.subrange(
            from as int,
            to - 1,
        ));
        to -= 1;
    }
    (from, to)
}

/// The words of `chars`, each as a string.
pub fn split_words(chars: &Vec<char>) -> (out: Vec<String>)
    ensures
        out.deep_view() == words(chars@),
{
    let n = chars.len();
    let mut out: Vec<String> = Vec::new();
    let mut i: usize = 0;
    assert(chars@.skip(0) =~= chars@);
    assert(out.deep_view() =~= Seq::<Seq<char>>::empty());
    while i < n
        invariant
            i <= n,
            n == chars.len(),
            words(chars@) == out.deep_view() + words(chars@.skip(i as int)),
        decreases n - i,
    {
        let ghost rest = chars@.skip(i as int);
        if is_white_space(chars[i]) {
            assert(rest.skip(1) =~= chars@.skip(i + 1));
            i += 1;
        } else {
            let start = i;
            let ghost before = out.deep_view();
            while i < n && !is_white_space(chars[i])
                invariant
                    start <= i <= n,
                    n == chars.len(),
                    rest == chars@.skip(start as int),
                    word_len(rest) == (i - start) + word_len(chars@.skip(i as int)),
                decreases n - i,
            {
                assert(chars@.skip(i as int).skip(1) =~= chars@.skip(i + 1));
                i += 1;
            }
            assert(word_len(rest) == i - start);
            let word = string_of(chars, start, i);
            out.push(word);
            proof {
                assert(rest.take((i - start) as int) =~= chars@.subrange(start as int, i as int));
                assert(rest.skip((i - start) as int) =~= chars@.skip(i as int));
                assert(out.deep_view() =~= before.push(word@));
                assert(before.push(word@) + words(chars@.skip(i as int)) =~= before + (seq![word@]
                    + words(chars@.skip(i as int))));
            }
        }
    }
    assert(chars@.skip(n as int) =~= Seq::<char>::empty());
    assert(out.deep_view() + Seq::<Seq<char>>::empty() =~= out.deep_view());
    out
}

/// A copy of `strings`.
pub fn copy_strings(strings: &Vec<String>) -> (out: Vec<String>)
    ensures
        out@ == strings@,
        out.deep_view() == strings.deep_view(),
{
    let out = strings.clone();
    assert(out@ =~= strings@);
    out
}

/// A text is blank exactly if trimming leaves nothing of it.
pub proof fn lemma_blank_trims_to_nothing(s: Seq<char>)
    ensures
        blank(s) <==> trimmed(s).len() == 0,
    decreases s.len(),
{
    if s.len() > 0 && white_space(s[0]) {
        let rest = s.skip(1);
        lemma_blank_trims_to_nothing(rest);
        assert(blank(s) <==> blank(rest)) by {
            if blank(s) {
                assert forall|i: int| 0 <= i < rest.len() implies white_space(#[trigger] rest[i]) by {
                    assert(rest[i] == s[i + 1]);
                }
            }
            if blank(rest) {
                assert forall|i: int| 0 <= i < s.len() implies white_space(#[trigger] s[i]) by {
                    if i > 0 {
                        assert(s[i] == rest[i - 1]);
                    }
                }
            }
        }
    } else if s.len() > 0 {
        assert(trim_start(s) == s);
        lemma_trim_end_keeps_first(s);
    }
}

/// Trimming the end of a text that begins with a character that is not
/// white space leaves that character in place.
proof fn lemma_trim_end_keeps_first(s: Seq<char>)
    requires
        s.len() > 0,
        !white_space(s[0]),
    ensures
        trim_end(s).len() > 0,
    decreases s.len(),
{
    if white_space(s.last()) {
        assert(s.len() > 1);
        assert(s.drop_last()[0] == s[0]);
        lemma_trim_end_keeps_first(s.drop_last());
    }
}

} // verus!
