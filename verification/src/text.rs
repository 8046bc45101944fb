//! Character-level helpers shared by path rendering and key handling.

use vstd::prelude::*;
use vstd::string::StringExecFns;

verus! {

/// The decimal digit character for `d`.
pub open spec fn digit_char(d: nat) -> char {
    if d == 0 { '0' } else if d == 1 { '1' } else if d == 2 { '2' } else if d == 3 { '3' }
    else if d == 4 { '4' } else if d == 5 { '5' } else if d == 6 { '6' } else if d == 7 { '7' }
    else if d == 8 { '8' } else { '9' }
}

/// Shortest decimal rendering of a natural number, as `{}` formats it.
pub open spec fn decimal(n: nat) -> Seq<char>
    decreases n,
{
    if n < 10 {
        seq![digit_char(n)]
    } else {
        decimal(n / 10).push(digit_char(n % 10))
    }
}

/// Appends the text of one decimal digit.
fn push_digit(s: &mut String, d: usize)
    requires
        d < 10,
    ensures
        final(s)@ == old(s)@.push(digit_char(d as nat)),
{
    let text: &str = if d == 0 {
        proof { reveal_strlit("0"); }
        "0"
    } else if d == 1 {
        proof { reveal_strlit("1"); }
        "1"
    } else if d == 2 {
        proof { reveal_strlit("2"); }
        "2"
    } else if d == 3 {
        proof { reveal_strlit("3"); }
        "3"
    } else if d == 4 {
        proof { reveal_strlit("4"); }
        "4"
    } else if d == 5 {
        proof { reveal_strlit("5"); }
        "5"
    } else if d == 6 {
        proof { reveal_strlit("6"); }
        "6"
    } else if d == 7 {
        proof { reveal_strlit("7"); }
        "7"
    } else if d == 8 {
        proof { reveal_strlit("8"); }
        "8"
    } else {
        proof { reveal_strlit("9"); }
        "9"
    };
    s.append(text);
    assert(final(s)@ =~= old(s)@.push(digit_char(d as nat)));
}

/// Appends the decimal rendering of `n`.
pub fn push_decimal(s: &mut String, n: usize)
    ensures
        final(s)@ == old(s)@ + decimal(n as nat),
    decreases n,
{
    if n >= 10 {
        push_decimal(s, n / 10);
        push_digit(s, n % 10);
        assert(final(s)@ =~= old(s)@ + decimal(n as nat));
    } else {
        push_digit(s, n);
        assert(final(s)@ =~= old(s)@ + decimal(n as nat));
    }
}


/// `String::push` of std: appends the character `c` at the end of the text.
#[verifier::external_body]
pub(crate) fn push_char(s: &mut String, c: char)
    ensures
        final(s)@ == old(s)@.push(c),
{
    s.push(c);
}

/// The characters of a text, in order.
pub fn chars_of(s: &str) -> (chars: Vec<char>)
    ensures
        chars@ == s@,
{
    let mut chars: Vec<char> = Vec::new();
    for c in it: s.chars()
        invariant
            chars@ == it.seq().take(it.index() as int),
            it.seq() == s@,
    {
        chars.push(c);
        assert(chars@ =~= it.seq().take(it.index() + 1));
    }
    assert(chars@ =~= s@);
    chars
}

/// A string made of the characters `chars[from..to]`.
pub fn string_from_chars(chars: &Vec<char>, from: usize, to: usize) -> (s: String)
    requires
        from <= to <= chars@.len(),
    ensures
        s@ == chars@.subrange(from as int, to as int),
{
    let mut s = String::new();
    let mut i = from;
    while i < to
        invariant
            from <= i <= to <= chars@.len(),
            s@ == chars@.subrange(from as int, i as int),
        decreases to - i,
    {
        push_char(&mut s, chars[i]);
        i = i + 1;
        assert(s@ =~= chars@.subrange(from as int, i as int));
    }
    s
}

/// Lexicographic order of texts by character code, which is the order of
/// `String` (UTF-8 preserves code-point order byte by byte).
pub open spec fn text_lt(a: Seq<char>, b: Seq<char>) -> bool
    decreases a.len(),
{
    if a.len() == 0 {
        b.len() > 0
    } else if b.len() == 0 {
        false
    } else if a[0] == b[0] {
        text_lt(a.drop_first(), b.drop_first())
    } else {
        (a[0] as int) < (b[0] as int)
    }
}

/// No text precedes itself.
pub proof fn lemma_text_lt_irreflexive(a: Seq<char>)
    ensures
        !text_lt(a, a),
    decreases a.len(),
{
    if a.len() > 0 {
        lemma_text_lt_irreflexive(a.drop_first());
    }
}

/// Text order is transitive.
pub proof fn lemma_text_lt_transitive(a: Seq<char>, b: Seq<char>, c: Seq<char>)
    requires
        text_lt(a, b),
        text_lt(b, c),
    ensures
        text_lt(a, c),
    decreases a.len(),
{
    if a.len() > 0 && b.len() > 0 && c.len() > 0 && a[0] == b[0] && b[0] == c[0] {
        lemma_text_lt_transitive(a.drop_first(), b.drop_first(), c.drop_first());
    }
}

/// Any two distinct texts are ordered one way or the other.
pub proof fn lemma_text_lt_total(a: Seq<char>, b: Seq<char>)
    ensures
        a == b || text_lt(a, b) || text_lt(b, a),
    decreases a.len(),
{
    if a.len() > 0 && b.len() > 0 {
        if a[0] == b[0] {
            lemma_text_lt_total(a.drop_first(), b.drop_first());
            if a.drop_first() == b.drop_first() {
                assert(a =~= seq![a[0]] + a.drop_first());
                assert(b =~= seq![b[0]] + b.drop_first());
            }
        } else {
            assert((a[0] as int) != (b[0] as int));
        }
    } else if a.len() == 0 && b.len() == 0 {
        assert(a =~= b);
    }
}

/// No text precedes another in both directions.
pub proof fn lemma_text_lt_asymmetric(a: Seq<char>, b: Seq<char>)
    ensures
        !(text_lt(a, b) && text_lt(b, a)),
{
    if text_lt(a, b) && text_lt(b, a) {
        lemma_text_lt_transitive(a, b, a);
        lemma_text_lt_irreflexive(a);
    }
}

/// Outcome of comparing two texts.
#[derive(Debug, Clone, Copy, PartialEq, Eq, Structural)]
pub enum TextOrder {
    /// The first text sorts before the second.
    Before,
    /// The texts are equal.
    Same,
    /// The first text sorts after the second.
    After,
}

/// What comparing `a` with `b` yields.
pub open spec fn text_order(a: Seq<char>, b: Seq<char>) -> TextOrder {
    if a == b {
        TextOrder::Same
    } else if text_lt(a, b) {
        TextOrder::Before
    } else {
        TextOrder::After
    }
}

proof fn lemma_text_lt_skip(a: Seq<char>, b: Seq<char>, i: int)
    requires
        0 <= i < a.len(),
        i < b.len(),
        a[i] == b[i],
    ensures
        text_lt(a.skip(i), b.skip(i)) == text_lt(a.skip(i + 1), b.skip(i + 1)),
{
    assert(a.skip(i).drop_first() =~= a.skip(i + 1));
    assert(b.skip(i).drop_first() =~= b.skip(i + 1));
}

/// Compares two character sequences in text order.
pub fn compare_chars(a: &Vec<char>, b: &Vec<char>) -> (order: TextOrder)
    ensures
        order == text_order(a@, b@),
{
    let mut i: usize = 0;
    assert(a@.skip(0) =~= a@);
    assert(b@.skip(0) =~= b@);
    while i < a.len() && i < b.len()
        invariant
            i <= a@.len(),
            i <= b@.len(),
            a@.take(i as int) == b@.take(i as int),
            text_lt(a@, b@) == text_lt(a@.skip(i as int), b@.skip(i as int)),
        decreases a@.len() - i,
    {
        if a[i] != b[i] {
            proof {
                assert(a@.skip(i as int)[0] == a@[i as int]);
                assert(b@.skip(i as int)[0] == b@[i as int]);
                if a@ == b@ {
                    assert(a@[i as int] == b@[i as int]);
                }
            }
            if a[i] < b[i] {
                return TextOrder::Before;
            } else {
                return TextOrder::After;
            }
        }
        proof {
            lemma_text_lt_skip(a@, b@, i as int);
            assert(a@.take(i + 1) =~= a@.take(i as int).push(a@[i as int]));
            assert(b@.take(i + 1) =~= b@.take(i as int).push(b@[i as int]));
        }
        i = i + 1;
    }
    if a.len() == b.len() {
        assert(a@ =~= a@.take(i as int));
        assert(b@ =~= b@.take(i as int));
        proof { lemma_text_lt_irreflexive(a@); }
        TextOrder::Same
    } else if i == a.len() {
        assert(a@.skip(i as int).len() == 0);
        proof {
            if a@ == b@ {
                assert(a@.len() == b@.len());
            }
        }
        TextOrder::Before
    } else {
        assert(b@.skip(i as int).len() == 0);
        proof {
            if a@ == b@ {
                assert(a@.len() == b@.len());
            }
        }
        TextOrder::After
    }
}


/// The character views of a list of strings.
pub open spec fn views(strings: Seq<String>) -> Seq<Seq<char>> {
    strings.map_values(|s: String| s@)
}

/// The dot-separated segments of a key, from left to right.
pub open spec fn key_segments(key: Seq<char>) -> Seq<Seq<char>>
    decreases key.len(),
{
    if key.len() == 0 {
        seq![seq![]]
    } else {
        let rest = key_segments(key.drop_last());
        if key.last() == '.' {
            rest.push(seq![])
        } else {
            rest.update(rest.len() - 1, rest.last().push(key.last()))
        }
    }
}

/// A key always has at least one segment.
pub proof fn lemma_key_segments_nonempty(key: Seq<char>)
    ensures
        key_segments(key).len() >= 1,
    decreases key.len(),
{
    if key.len() > 0 {
        lemma_key_segments_nonempty(key.drop_last());
    }
}

/// A key without dots is its own single segment.
pub proof fn lemma_plain_key_segments(key: Seq<char>)
    requires
        !key.contains('.'),
    ensures
        key_segments(key) == seq![key],
    decreases key.len(),
{
    if key.len() == 0 {
        assert(key =~= Seq::<char>::empty());
    } else {
        let front = key.drop_last();
        if front.contains('.') {
            let i = choose|i: int| 0 <= i < front.len() && front[i] == '.';
            assert(key[i] == '.');
        }
        assert(key.last() != '.') by {
            if key.last() == '.' {
                assert(key[key.len() - 1] == '.');
            }
        }
        lemma_plain_key_segments(front);
        assert(front.push(key.last()) =~= key);
    }
}

/// Splits a dotted key into its segments.
pub fn split_dots(key: &str) -> (segments: Vec<String>)
    ensures
        views(segments@) == key_segments(key@),
        segments@.len() >= 1,
{
    let chars = chars_of(key);
    let mut segments: Vec<String> = Vec::new();
    let mut start: usize = 0;
    let mut i: usize = 0;
    assert(chars@.take(0) =~= Seq::<char>::empty());
    assert(views(segments@).push(chars@.subrange(0, 0)) =~= seq![seq![]]);
    while i < chars.len()
        invariant
            start <= i <= chars@.len(),
            chars@ == key@,
            key_segments(chars@.take(i as int)) == views(segments@).push(chars@.subrange(start as int, i as int)),
        decreases chars@.len() - i,
    {
        proof {
            lemma_key_segments_nonempty(chars@.take(i as int));
            assert(chars@.take(i + 1).drop_last() =~= chars@.take(i as int));
            assert(chars@.take(i + 1).last() == chars@[i as int]);
        }
        if chars[i] == '.' {
            let segment = string_from_chars(&chars, start, i);
            let ghost old_views = views(segments@);
            segments.push(segment);
            assert(views(segments@) =~= old_views.push(chars@.subrange(start as int, i as int)));
            start = i + 1;
            assert(chars@.subrange(start as int, i + 1) =~= Seq::<char>::empty());
            assert(views(segments@).push(chars@.subrange(start as int, i + 1)) =~= key_segments(chars@.take(i + 1)));
        } else {
            let ghost rest = key_segments(chars@.take(i as int));
            assert(chars@.subrange(start as int, i + 1) =~= chars@.subrange(start as int, i as int).push(chars@[i as int]));
            assert(views(segments@).push(chars@.subrange(start as int, i + 1)) =~= rest.update(rest.len() - 1, rest.last().push(chars@[i as int])));
        }
        i = i + 1;
    }
    let segment = string_from_chars(&chars, start, chars.len());
    let ghost old_views = views(segments@);
    segments.push(segment);
    assert(views(segments@) =~= old_views.push(chars@.subrange(start as int, chars@.len() as int)));
    assert(chars@.take(chars@.len() as int) =~= chars@);
    assert(views(segments@) =~= key_segments(key@));
    segments
}

/// The part of `key` below `prefix`: the whole key for an empty prefix,
/// otherwise what follows `prefix.` when the key starts with it.
pub open spec fn relative_key(key: Seq<char>, prefix: Seq<char>) -> Option<Seq<char>> {
    if prefix.len() == 0 {
        Some(key)
    } else if key.len() > prefix.len() && key.take(prefix.len() as int) == prefix && key[prefix.len() as int]
        == '.' {
        Some(key.skip(prefix.len() as int + 1))
    } else {
        None
    }
}

/// Selects the part of `key` below `prefix`, if the key lies there.
pub fn strip_dotted_prefix(key: &str, prefix: &str) -> (relative: Option<String>)
    ensures
        match relative {
            Some(rest) => relative_key(key@, prefix@) == Some(rest@),
            None => relative_key(key@, prefix@) is None,
        },
{
    if prefix.is_empty() {
        return Some(key.to_owned());
    }
    let key_chars = chars_of(key);
    let prefix_chars = chars_of(prefix);
    if key_chars.len() <= prefix_chars.len() {
        return None;
    }
    let mut i: usize = 0;
    while i < prefix_chars.len()
        invariant
            i <= prefix_chars@.len() < key_chars@.len(),
            key_chars@ == key@,
            prefix_chars@ == prefix@,
            forall|k: int| 0 <= k < i ==> key_chars@[k] == prefix_chars@[k],
        decreases prefix_chars@.len() - i,
    {
        if key_chars[i] != prefix_chars[i] {
            proof {
                if key@.take(prefix@.len() as int) == prefix@ {
                    assert(key@.take(prefix@.len() as int)[i as int] == key@[i as int]);
                }
            }
            return None;
        }
        i = i + 1;
    }
    assert(key@.take(prefix@.len() as int) =~= prefix@);
    if key_chars[prefix_chars.len()] != '.' {
        return None;
    }
    let rest = string_from_chars(&key_chars, prefix_chars.len() + 1, key_chars.len());
    assert(rest@ =~= key@.skip(prefix@.len() as int + 1));
    Some(rest)
}

} // verus!
