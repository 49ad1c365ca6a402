//! Helpers for line-based text input: splitting a text into blank-line
//! separated blocks and parsing one signed integer per line.

use vstd::prelude::*;
use vstd::std_specs::iter::IteratorSpec;

verus! {

broadcast use vstd::seq::group_seq_axioms;

/// True when a blank-line separator (two consecutive newlines) starts at
/// position `i` of `s`.
pub open spec fn sep_at(s: Seq<char>, i: int) -> bool {
    0 <= i && i + 2 <= s.len() && s[i] == '\n' && s[i + 1] == '\n'
}

/// The blocks of `s`: the pieces between non-overlapping blank-line
/// separators, found left to right. A text without a separator is one
/// block, so the result is never empty.
pub open spec fn spec_split_blocks(s: Seq<char>) -> Seq<Seq<char>>
    decreases s.len(),
{
    if sep_at(s, 0) {
        seq![Seq::<char>::empty()] + spec_split_blocks(s.skip(2))
    } else if s.len() == 0 {
        seq![Seq::<char>::empty()]
    } else {
        let rest = spec_split_blocks(s.drop_first());
        seq![seq![s[0]] + rest[0]] + rest.drop_first()
    }
}

proof fn lemma_split_blocks_nonempty(s: Seq<char>)
    ensures
        spec_split_blocks(s).len() >= 1,
    decreases s.len(),
{
    if sep_at(s, 0) {
        lemma_split_blocks_nonempty(s.skip(2));
    } else if s.len() > 0 {
        lemma_split_blocks_nonempty(s.drop_first());
    }
}

/// When no separator starts before position `k`, the first `k`
/// characters belong to the first block: the blocks of `s` are the
/// blocks of `s.skip(k)` with those characters put in front of the
/// first one.
proof fn lemma_split_blocks_nosep_prefix(s: Seq<char>, k: int)
    requires
        0 <= k <= s.len(),
        forall|j: int| 0 <= j < k ==> !sep_at(s, j),
    ensures
        spec_split_blocks(s) == seq![s.take(k) + spec_split_blocks(s.skip(k))[0]]
            + spec_split_blocks(s.skip(k)).drop_first(),
    decreases k,
{
    lemma_split_blocks_nonempty(s.skip(k));
    if k == 0 {
        assert(s.skip(0) =~= s);
        let b = spec_split_blocks(s);
        assert(s.take(0) + b[0] =~= b[0]);
        assert(seq![b[0]] + b.drop_first() =~= b);
    } else {
        assert(!sep_at(s, 0));
        assert(s.len() > 0);
        let t = s.drop_first();
        assert forall|j: int| 0 <= j < k - 1 implies !sep_at(t, j) by {
            assert(t =~= s.skip(1));
            assert(t[j] == s[j + 1] && (j + 1 < t.len() ==> t[j + 1] == s[j + 2]));
            assert(!sep_at(s, j + 1));
        }
        assert(t =~= s.skip(1));
        lemma_split_blocks_nosep_prefix(t, k - 1);
        assert(t.skip(k - 1) =~= s.skip(k));
        let tailb = spec_split_blocks(s.skip(k));
        let rest = spec_split_blocks(t);
        // rest == [t.take(k-1) + tailb[0]] + tailb.drop_first()
        assert(rest[0] == t.take(k - 1) + tailb[0]);
        assert(rest.drop_first() =~= tailb.drop_first());
        assert(seq![s[0]] + rest[0] =~= s.take(k) + tailb[0]) by {
            assert(seq![s[0]] + (t.take(k - 1) + tailb[0]) =~= s.take(k) + tailb[0]);
        }
        assert(spec_split_blocks(s) == seq![seq![s[0]] + rest[0]] + rest.drop_first());
        assert(seq![seq![s[0]] + rest[0]] + rest.drop_first() =~= seq![s.take(k) + tailb[0]]
            + tailb.drop_first());
    }
}

/// The characters of `s`, as a vector.
pub(crate) fn chars_vec(s: &str) -> (r: Vec<char>)
    ensures
        r@ == s@,
{
    broadcast use vstd::string::group_string_axioms;

    let mut r: Vec<char> = Vec::new();
    let mut it = s.chars();
    loop
        invariant
            r@.len() <= s@.len(),
            it.obeys_prophetic_iter_laws(),
            it.remaining() == s@.skip(r@.len() as int),
            r@ == s@.take(r@.len() as int),
        ensures
            r@ == s@,
        decreases s@.len() - r@.len(),
    {
        let ghost k = r@.len() as int;
        match it.next() {
            Some(c) => {
                proof {
                    assert(s@.skip(k)[0] == s@[k]);
                    assert(s@.skip(k).drop_first() =~= s@.skip(k + 1));
                }
                r.push(c);
                proof {
                    assert(r@ =~= s@.take(k + 1));
                }
            },
            None => {
                proof {
                    assert(r@.len() == s@.len());
                    assert(r@ =~= s@);
                }
                break ;
            },
        }
    }
    r
}

/// Splits `input` into its blank-line separated blocks, left to right.
/// The pieces are slices of `input`; a text without a blank line is
/// returned whole, as the single block.
pub fn split_blocks<'a>(input: &'a str) -> (r: Vec<&'a str>)
    ensures
        r@.len() == spec_split_blocks(input@).len(),
        forall|b: int| 0 <= b < r@.len() ==> (#[trigger] r@[b])@ == spec_split_blocks(input@)[b],
{
    let chars = chars_vec(input);
    let n = chars.len();
    let mut r: Vec<&'a str> = Vec::new();
    let mut start: usize = 0;
    let mut i: usize = 0;
    proof {
        assert(input@.skip(0) =~= input@);
    }
    while i < n
        invariant
            n == input@.len(),
            start <= i <= n,
            chars@ == input@,
            forall|j: int| start <= j < i ==> !sep_at(input@, j),
            spec_split_blocks(input@) == r@.map_values(|b: &str| b@) + spec_split_blocks(
                input@.skip(start as int),
            ),
        decreases n - i,
    {
        if i + 1 < n && chars[i] == '\n' && chars[i + 1] == '\n' {
            proof {
                let tail = input@.skip(start as int);
                assert forall|j: int| 0 <= j < i - start implies !sep_at(tail, j) by {
                    assert(tail[j] == input@[start + j]);
                    assert(j + 1 < tail.len() ==> tail[j + 1] == input@[start + j + 1]);
                    assert(!sep_at(input@, start + j));
                }
                lemma_split_blocks_nosep_prefix(tail, i - start);
                assert(tail.skip(i - start) =~= input@.skip(i as int));
                assert(sep_at(input@.skip(i as int), 0)) by {
                    assert(input@.skip(i as int)[0] == input@[i as int]);
                    assert(input@.skip(i as int)[1] == input@[i + 1]);
                }
                assert(input@.skip(i as int).skip(2) =~= input@.skip(i + 2));
                // the first block of the tail is exactly the piece up to i
                assert(tail.take(i - start) + Seq::<char>::empty() =~= input@.subrange(
                    start as int,
                    i as int,
                ));
            }
            let piece = input.substring_char(start, i);
            r.push(piece);
            proof {
                let tail = input@.skip(start as int);
                let after = spec_split_blocks(input@.skip(i + 2));
                assert(spec_split_blocks(input@.skip(i as int)) == seq![Seq::<char>::empty()]
                    + after);
                assert(spec_split_blocks(tail) == seq![piece@] + after) by {
                    assert(spec_split_blocks(input@.skip(i as int)).drop_first() =~= after);
                    assert(spec_split_blocks(input@.skip(i as int))[0]
                        == Seq::<char>::empty());
                    assert(seq![tail.take(i - start) + Seq::<char>::empty()] + after
                        =~= seq![piece@] + after);
                }
                assert(spec_split_blocks(input@) =~= r@.map_values(|b: &str| b@)
                    + spec_split_blocks(input@.skip(i + 2))) by {
                    let old_blocks = r@.drop_last().map_values(|b: &str| b@);
                    assert(r@.drop_last().push(piece).map_values(|b: &str| b@) =~= old_blocks.push(
                        piece@,
                    ));
                    assert(r@.drop_last().push(piece) =~= r@);
                    assert(old_blocks + (seq![piece@] + after) =~= old_blocks.push(piece@)
                        + after);
                }
            }
            start = i + 2;
            i = i + 2;
        } else {
            proof {
                assert(!sep_at(input@, i as int));
            }
            i = i + 1;
        }
    }
    proof {
        let tail = input@.skip(start as int);
        assert forall|j: int| 0 <= j < n - start implies !sep_at(tail, j) by {
            assert(tail[j] == input@[start + j]);
            assert(j + 1 < tail.len() ==> tail[j + 1] == input@[start + j + 1]);
            assert(!sep_at(input@, start + j));
        }
        lemma_split_blocks_nosep_prefix(tail, n - start);
        assert(tail.skip(n - start) =~= Seq::<char>::empty());
        assert(spec_split_blocks(Seq::<char>::empty()) == seq![Seq::<char>::empty()]);
        assert(spec_split_blocks(tail) =~= seq![tail.take(n - start)]) by {
            assert(spec_split_blocks(tail) == seq![tail.take(n - start) + Seq::<char>::empty()]
                + seq![Seq::<char>::empty()].drop_first());
            assert(tail.take(n - start) + Seq::<char>::empty() =~= tail.take(n - start));
            assert(seq![Seq::<char>::empty()].drop_first() =~= Seq::<Seq<char>>::empty());
            assert(seq![tail.take(n - start)] + Seq::<Seq<char>>::empty() =~= seq![tail.take(
                n - start,
            )]);
        }
        assert(tail.take(n - start) =~= input@.subrange(start as int, n as int));
    }
    let last = input.substring_char(start, n);
    r.push(last);
    proof {
        let views = r@.map_values(|b: &str| b@);
        assert(r@.drop_last().push(last) =~= r@);
        assert(r@.drop_last().push(last).map_values(|b: &str| b@) =~= r@.drop_last().map_values(
            |b: &str| b@,
        ).push(last@));
        assert(views =~= spec_split_blocks(input@));
        assert forall|b: int| 0 <= b < r@.len() implies (#[trigger] r@[b])@ == spec_split_blocks(
            input@,
        )[b] by {
            assert(views[b] == r@[b]@);
        }
    }
    r
}

/// The pieces of `s` between newline characters, in order. The split
/// itself keeps a trailing empty piece; [`spec_lines`] drops it.
pub open spec fn spec_split_newlines(s: Seq<char>) -> Seq<Seq<char>>
    decreases s.len(),
{
    if s.len() == 0 {
        seq![Seq::<char>::empty()]
    } else if s[0] == '\n' {
        seq![Seq::<char>::empty()] + spec_split_newlines(s.drop_first())
    } else {
        let rest = spec_split_newlines(s.drop_first());
        seq![seq![s[0]] + rest[0]] + rest.drop_first()
    }
}

/// One carriage return at the end of a line is part of the line ending
/// and not of the line.
pub open spec fn spec_strip_cr(l: Seq<char>) -> Seq<char> {
    if l.len() > 0 && l.last() == '\r' {
        l.drop_last()
    } else {
        l
    }
}

/// The lines of `s`: the pieces between newlines, each without a
/// trailing carriage return, and without the empty piece a trailing
/// newline would add.
pub open spec fn spec_lines(s: Seq<char>) -> Seq<Seq<char>> {
    if s.len() == 0 {
        Seq::empty()
    } else {
        let raw = spec_split_newlines(s);
        let kept = if s.last() == '\n' {
            raw.drop_last()
        } else {
            raw
        };
        kept.map_values(|l: Seq<char>| spec_strip_cr(l))
    }
}

/// True when `c` has the Unicode white-space property.
pub open spec fn spec_is_whitespace(c: char) -> bool {
    let v = c as u32;
    (0x9 <= v && v <= 0xD) || v == 0x20 || v == 0x85 || v == 0xA0 || v == 0x1680 || (0x2000 <= v
        && v <= 0x200A) || v == 0x2028 || v == 0x2029 || v == 0x202F || v == 0x205F || v == 0x3000
}

/// `s` without its leading white space.
pub open spec fn spec_trim_start(s: Seq<char>) -> Seq<char>
    decreases s.len(),
{
    if s.len() > 0 && spec_is_whitespace(s[0]) {
        spec_trim_start(s.drop_first())
    } else {
        s
    }
}

/// `s` without its trailing white space.
pub open spec fn spec_trim_end(s: Seq<char>) -> Seq<char>
    decreases s.len(),
{
    if s.len() > 0 && spec_is_whitespace(s.last()) {
        spec_trim_end(s.drop_last())
    } else {
        s
    }
}

/// `s` without leading and trailing white space.
pub open spec fn spec_trim(s: Seq<char>) -> Seq<char> {
    spec_trim_end(spec_trim_start(s))
}

/// True when `c` is a decimal digit.
pub open spec fn spec_is_digit(c: char) -> bool {
    0x30 <= c as u32 && c as u32 <= 0x39
}

/// The number a sequence of decimal digits denotes.
pub open spec fn spec_digits_value(s: Seq<char>) -> int
    decreases s.len(),
{
    if s.len() == 0 {
        0
    } else {
        spec_digits_value(s.drop_last()) * 10 + (s.last() as u32 - 0x30)
    }
}

/// The digits of a signed decimal numeral: everything after an optional
/// leading sign.
pub open spec fn spec_numeral_digits(s: Seq<char>) -> Seq<char> {
    if s.len() > 0 && (s[0] == '+' || s[0] == '-') {
        s.drop_first()
    } else {
        s
    }
}

/// True when `s` is a well-formed signed decimal numeral: an optional
/// sign followed by at least one digit and nothing else.
pub open spec fn spec_is_numeral(s: Seq<char>) -> bool {
    let d = spec_numeral_digits(s);
    d.len() > 0 && forall|i: int| 0 <= i < d.len() ==> spec_is_digit(d[i])
}

/// The value a well-formed signed decimal numeral denotes.
pub open spec fn spec_numeral_value(s: Seq<char>) -> int {
    let sign: int = if s.len() > 0 && s[0] == '-' {
        -1
    } else {
        1
    };
    sign * spec_digits_value(spec_numeral_digits(s))
}

/// True when `s` parses as an `i64`: it is a well-formed numeral whose
/// value fits the type.
pub open spec fn spec_parses_as_i64(s: Seq<char>) -> bool {
    spec_is_numeral(s) && i64::MIN <= spec_numeral_value(s) <= i64::MAX
}

/// The non-blank lines of a line sequence, each trimmed of white space.
pub open spec fn spec_entries_of(lines: Seq<Seq<char>>) -> Seq<Seq<char>>
    decreases lines.len(),
{
    if lines.len() == 0 {
        Seq::empty()
    } else {
        spec_entries_of(lines.drop_last()) + (if spec_trim(lines.last()).len() > 0 {
            seq![spec_trim(lines.last())]
        } else {
            Seq::empty()
        })
    }
}

/// The lines of `s` that still hold anything after trimming white
/// space, each trimmed: the entries expected to hold one numeral each.
pub open spec fn spec_numeral_lines(s: Seq<char>) -> Seq<Seq<char>> {
    spec_entries_of(spec_lines(s))
}

/// The entries of a prefix of the lines stand unchanged at the front of
/// the entries of all the lines.
proof fn lemma_entries_of_prefix(lines: Seq<Seq<char>>, m: int)
    requires
        0 <= m <= lines.len(),
    ensures
        spec_entries_of(lines).len() >= spec_entries_of(lines.take(m)).len(),
        forall|j: int|
            0 <= j < spec_entries_of(lines.take(m)).len() ==> #[trigger] spec_entries_of(
                lines,
            )[j] == spec_entries_of(lines.take(m))[j],
    decreases lines.len() - m,
{
    if m == lines.len() {
        assert(lines.take(m) =~= lines);
    } else {
        lemma_entries_of_prefix(lines, m + 1);
        assert(lines.take(m + 1).drop_last() =~= lines.take(m));
        assert(lines.take(m + 1).last() == lines[m]);
    }
}

/// Parsing a text of numerals fails exactly when some non-blank line is
/// no `i64` numeral.
#[derive(Clone, Copy, Debug, PartialEq, Eq, Structural)]
pub struct ParseNumberError {
    /// The position of the offending entry among the non-blank lines.
    pub entry: usize,
}

proof fn lemma_split_newlines_nonempty(s: Seq<char>)
    ensures
        spec_split_newlines(s).len() >= 1,
    decreases s.len(),
{
    if s.len() > 0 {
        lemma_split_newlines_nonempty(s.drop_first());
    }
}

/// When no newline occurs before position `k`, the first `k` characters
/// belong to the first raw line.
proof fn lemma_split_newlines_prefix(s: Seq<char>, k: int)
    requires
        0 <= k <= s.len(),
        forall|j: int| 0 <= j < k ==> s[j] != '\n',
    ensures
        spec_split_newlines(s) == seq![s.take(k) + spec_split_newlines(s.skip(k))[0]]
            + spec_split_newlines(s.skip(k)).drop_first(),
    decreases k,
{
    lemma_split_newlines_nonempty(s.skip(k));
    if k == 0 {
        assert(s.skip(0) =~= s);
        let b = spec_split_newlines(s);
        assert(s.take(0) + b[0] =~= b[0]);
        assert(seq![b[0]] + b.drop_first() =~= b);
    } else {
        assert(s[0] != '\n');
        let t = s.drop_first();
        assert(t =~= s.skip(1));
        assert forall|j: int| 0 <= j < k - 1 implies t[j] != '\n' by {
            assert(t[j] == s[j + 1]);
        }
        lemma_split_newlines_prefix(t, k - 1);
        assert(t.skip(k - 1) =~= s.skip(k));
        let tailb = spec_split_newlines(s.skip(k));
        let rest = spec_split_newlines(t);
        assert(rest[0] == t.take(k - 1) + tailb[0]);
        assert(rest.drop_first() =~= tailb.drop_first());
        assert(seq![s[0]] + rest[0] =~= s.take(k) + tailb[0]) by {
            assert(seq![s[0]] + (t.take(k - 1) + tailb[0]) =~= s.take(k) + tailb[0]);
        }
        assert(seq![seq![s[0]] + rest[0]] + rest.drop_first() =~= seq![s.take(k) + tailb[0]]
            + tailb.drop_first());
    }
}

/// True exactly when `c` has the Unicode white-space property.
fn is_whitespace_char(c: char) -> (r: bool)
    ensures
        r == spec_is_whitespace(c),
{
    let v = c as u32;
    (0x9 <= v && v <= 0xD) || v == 0x20 || v == 0x85 || v == 0xA0 || v == 0x1680 || (0x2000 <= v
        && v <= 0x200A) || v == 0x2028 || v == 0x2029 || v == 0x202F || v == 0x205F || v == 0x3000
}

/// Trimming drops exactly the white space before the first and after
/// the last non-white-space character.
proof fn lemma_trim_start_is_skip(s: Seq<char>, j: int)
    requires
        0 <= j <= s.len(),
        forall|i: int| 0 <= i < j ==> spec_is_whitespace(s[i]),
        j < s.len() ==> !spec_is_whitespace(s[j]),
    ensures
        spec_trim_start(s) == s.skip(j),
    decreases j,
{
    if j == 0 {
        assert(s.skip(0) =~= s);
    } else {
        assert(spec_is_whitespace(s[0]));
        let t = s.drop_first();
        assert(t =~= s.skip(1));
        assert forall|i: int| 0 <= i < j - 1 implies spec_is_whitespace(t[i]) by {
            assert(t[i] == s[i + 1]);
        }
        assert(j - 1 < t.len() ==> t[j - 1] == s[j]);
        lemma_trim_start_is_skip(t, j - 1);
        assert(t.skip(j - 1) =~= s.skip(j));
    }
}

proof fn lemma_trim_end_is_take(s: Seq<char>, h: int)
    requires
        0 <= h <= s.len(),
        forall|i: int| h <= i < s.len() ==> spec_is_whitespace(s[i]),
        h > 0 ==> !spec_is_whitespace(s[h - 1]),
    ensures
        spec_trim_end(s) == s.take(h),
    decreases s.len() - h,
{
    if h == s.len() {
        assert(s.take(h) =~= s);
    } else {
        assert(spec_is_whitespace(s.last()));
        let t = s.drop_last();
        assert(t =~= s.take(s.len() - 1));
        assert forall|i: int| h <= i < t.len() implies spec_is_whitespace(t[i]) by {
            assert(t[i] == s[i]);
        }
        assert(h > 0 ==> t[h - 1] == s[h - 1]);
        lemma_trim_end_is_take(t, h);
        assert(t.take(h) =~= s.take(h));
    }
}

proof fn lemma_digits_value_bounds(s: Seq<char>, m: int)
    requires
        0 <= m <= s.len(),
        forall|i: int| 0 <= i < s.len() ==> spec_is_digit(s[i]),
    ensures
        spec_digits_value(s) >= spec_digits_value(s.take(m)) >= 0,
    decreases s.len() - m,
{
    if m == s.len() {
        assert(s.take(m) =~= s);
        lemma_digits_value_nonneg(s.take(m));
    } else {
        lemma_digits_value_bounds(s, m + 1);
        assert(s.take(m + 1).drop_last() =~= s.take(m));
        assert(s.take(m + 1).last() == s[m]);
        lemma_digits_value_nonneg(s.take(m));
    }
}

proof fn lemma_digits_value_nonneg(s: Seq<char>)
    requires
        forall|i: int| 0 <= i < s.len() ==> spec_is_digit(s[i]),
    ensures
        spec_digits_value(s) >= 0,
    decreases s.len(),
{
    if s.len() > 0 {
        assert(s.drop_last() =~= s.take(s.len() - 1));
        assert(forall|i: int|
            0 <= i < s.drop_last().len() ==> spec_is_digit(#[trigger] s.drop_last()[i]));
        lemma_digits_value_nonneg(s.drop_last());
    }
}

/// The sub-span of `[lo, hi)` left over when white space at either end
/// is dropped.
pub(crate) fn trim_span(chars: &Vec<char>, lo: usize, hi: usize) -> (r: (usize, usize))
    requires
        lo <= hi <= chars@.len(),
    ensures
        lo <= r.0 <= r.1 <= hi,
        chars@.subrange(r.0 as int, r.1 as int) == spec_trim(
            chars@.subrange(lo as int, hi as int),
        ),
{
    let ghost line = chars@.subrange(lo as int, hi as int);
    let mut a = lo;
    while a < hi && is_whitespace_char(chars[a])
        invariant
            lo <= a <= hi <= chars@.len(),
            forall|i: int| lo <= i < a ==> spec_is_whitespace(chars@[i]),
        decreases hi - a,
    {
        a = a + 1;
    }
    let mut b = hi;
    while b > a && is_whitespace_char(chars[b - 1])
        invariant
            lo <= a <= b <= hi <= chars@.len(),
            forall|i: int| b <= i < hi ==> spec_is_whitespace(chars@[i]),
        decreases b,
    {
        b = b - 1;
    }
    proof {
        assert forall|i: int| 0 <= i < a - lo implies spec_is_whitespace(#[trigger] line[i]) by {
            assert(line[i] == chars@[lo + i]);
        }
        assert(a - lo < line.len() ==> line[a - lo] == chars@[a as int]);
        lemma_trim_start_is_skip(line, a - lo);
        assert(line.skip(a - lo) =~= chars@.subrange(a as int, hi as int));
        let t = chars@.subrange(a as int, hi as int);
        assert forall|i: int| b - a <= i < t.len() implies spec_is_whitespace(#[trigger] t[i]) by {
            assert(t[i] == chars@[a + i]);
        }
        assert(b - a > 0 ==> t[b - a - 1] == chars@[b - 1]);
        lemma_trim_end_is_take(t, b - a);
        assert(t.take(b - a) =~= chars@.subrange(a as int, b as int));
    }
    (a, b)
}

/// Parses the characters of `chars` between `lo` and `hi` as one signed
/// decimal numeral, or returns `None` when they are none or its value
/// does not fit an `i64`.
#[verifier::rlimit(30)]
pub(crate) fn parse_i64_span(chars: &Vec<char>, lo: usize, hi: usize) -> (r: Option<i64>)
    requires
        lo <= hi <= chars@.len(),
    ensures
        ({
            let s = chars@.subrange(lo as int, hi as int);
            match r {
                Some(v) => spec_parses_as_i64(s) && v as int == spec_numeral_value(s),
                None => !spec_parses_as_i64(s),
            }
        }),
{
    let ghost s = chars@.subrange(lo as int, hi as int);
    if lo == hi {
        return None;
    }
    let first = chars[lo];
    let neg = first == '-';
    let d0 = if neg || first == '+' {
        lo + 1
    } else {
        lo
    };
    proof {
        assert(s[0] == chars@[lo as int]);
        assert(spec_numeral_digits(s) =~= chars@.subrange(d0 as int, hi as int));
    }
    let ghost digits = chars@.subrange(d0 as int, hi as int);
    if d0 == hi {
        proof {
            assert(digits.len() == 0);
        }
        return None;
    }
    let limit: u64 = if neg {
        9223372036854775808
    } else {
        9223372036854775807
    };
    let limit_div10: u64 = 922337203685477580;
    let limit_mod10: u64 = if neg {
        8
    } else {
        7
    };
    proof {
        assert(limit == limit_div10 * 10 + limit_mod10);
    }
    let mut acc: u64 = 0;
    let mut p = d0;
    while p < hi
        invariant
            d0 <= p <= hi <= chars@.len(),
            s == chars@.subrange(lo as int, hi as int),
            s.len() > 0,
            digits == chars@.subrange(d0 as int, hi as int),
            digits == spec_numeral_digits(s),
            neg == (s[0] == '-'),
            forall|i: int| d0 <= i < p ==> spec_is_digit(chars@[i]),
            acc <= limit,
            acc as int == spec_digits_value(chars@.subrange(d0 as int, p as int)),
            limit == limit_div10 * 10 + limit_mod10,
            limit_div10 == 922337203685477580,
            limit_mod10 == (if neg { 8int } else { 7int }),
            limit == (if neg { 9223372036854775808int } else { 9223372036854775807int }),
        decreases hi - p,
    {
        let c = chars[p];
        let v = c as u32;
        if !(0x30 <= v && v <= 0x39) {
            proof {
                assert(digits[p - d0] == chars@[p as int]);
                assert(!spec_is_digit(digits[p - d0]));
            }
            return None;
        }
        let d = (v - 0x30) as u64;
        proof {
            assert(chars@.subrange(d0 as int, p + 1).drop_last() =~= chars@.subrange(
                d0 as int,
                p as int,
            ));
            assert(chars@.subrange(d0 as int, p + 1).last() == chars@[p as int]);
        }
        if acc > limit_div10 || (acc == limit_div10 && d > limit_mod10) {
            proof {
                let upto = chars@.subrange(d0 as int, p + 1);
                assert(spec_digits_value(upto) == acc * 10 + d);
                assert(spec_digits_value(upto) > limit);
                if spec_is_numeral(s) {
                    assert(forall|i: int| 0 <= i < digits.len() ==> spec_is_digit(digits[i]));
                    lemma_digits_value_bounds(digits, p + 1 - d0);
                    assert(digits.take(p + 1 - d0) =~= upto);
                    assert(spec_digits_value(digits) >= spec_digits_value(upto));
                    lemma_numeral_out_of_range(s, spec_digits_value(digits), neg);
                }
            }
            return None;
        }
        acc = acc * 10 + d;
        p = p + 1;
    }
    proof {
        assert(chars@.subrange(d0 as int, p as int) =~= digits);
        assert(forall|i: int| 0 <= i < digits.len() ==> spec_is_digit(#[trigger] digits[i]));
        assert(spec_is_numeral(s));
        lemma_digits_value_nonneg(digits);
        assert(acc as int == spec_digits_value(digits));
        assert(digits == spec_numeral_digits(s));
        assert(neg == (s[0] == '-'));
    }
    if neg {
        proof {
            assert(spec_numeral_value(s) == -1 * spec_digits_value(digits));
            assert(spec_numeral_value(s) == -(acc as int));
        }
        if acc == 9223372036854775808 {
            proof {
                assert(spec_numeral_value(s) == i64::MIN);
            }
            Some(i64::MIN)
        } else {
            proof {
                assert(acc < 9223372036854775808);
                assert(i64::MIN <= spec_numeral_value(s) <= i64::MAX);
            }
            Some(-(acc as i64))
        }
    } else {
        proof {
            assert(spec_numeral_value(s) == 1 * spec_digits_value(digits));
            assert(spec_numeral_value(s) == acc as int);
            assert(i64::MIN <= spec_numeral_value(s) <= i64::MAX);
        }
        Some(acc as i64)
    }
}

/// The lines of `input`, as spans of character positions with the line
/// ending (and a carriage return before it) left out.
pub(crate) fn line_spans(chars: &Vec<char>) -> (r: Vec<(usize, usize)>)
    ensures
        r@.len() == spec_lines(chars@).len(),
        forall|i: int|
            0 <= i < r@.len() ==> (#[trigger] r@[i]).0 <= r@[i].1 <= chars@.len()
                && chars@.subrange(r@[i].0 as int, r@[i].1 as int) == spec_lines(chars@)[i],
{
    let n = chars.len();
    let ghost sv = chars@;
    let mut r: Vec<(usize, usize)> = Vec::new();
    let ghost mut raw: Seq<Seq<char>> = Seq::empty();
    let mut start: usize = 0;
    let mut i: usize = 0;
    proof {
        assert(sv.skip(0) =~= sv);
        assert(raw + spec_split_newlines(sv.skip(0)) =~= spec_split_newlines(sv));
    }
    while i < n
        invariant
            n == sv.len(),
            sv == chars@,
            start <= i <= n,
            forall|j: int| start <= j < i ==> sv[j] != '\n',
            start > 0 ==> sv[start - 1] == '\n',
            spec_split_newlines(sv) == raw + spec_split_newlines(sv.skip(start as int)),
            raw.len() == r@.len(),
            forall|k: int|
                0 <= k < r@.len() ==> (#[trigger] r@[k]).0 <= r@[k].1 <= n && sv.subrange(
                    r@[k].0 as int,
                    r@[k].1 as int,
                ) == spec_strip_cr(raw[k]),
        decreases n - i,
    {
        if chars[i] == '\n' {
            proof {
                let tail = sv.skip(start as int);
                assert forall|j: int| 0 <= j < i - start implies tail[j] != '\n' by {
                    assert(tail[j] == sv[start + j]);
                }
                lemma_split_newlines_prefix(tail, i - start);
                assert(tail.skip(i - start) =~= sv.skip(i as int));
                assert(sv.skip(i as int)[0] == sv[i as int]);
                assert(sv.skip(i as int).drop_first() =~= sv.skip(i + 1));
                assert(tail.take(i - start) =~= sv.subrange(start as int, i as int));
            }
            let hi = if i > start && chars[i - 1] == '\r' {
                i - 1
            } else {
                i
            };
            r.push((start, hi));
            proof {
                let piece = sv.subrange(start as int, i as int);
                let after = spec_split_newlines(sv.skip(i + 1));
                assert(spec_split_newlines(sv.skip(i as int)) == seq![Seq::<char>::empty()]
                    + after);
                assert(spec_split_newlines(sv.skip(start as int)) == seq![piece] + after) by {
                    assert(spec_split_newlines(sv.skip(i as int)).drop_first() =~= after);
                    assert(spec_split_newlines(sv.skip(i as int))[0] == Seq::<char>::empty());
                    assert(seq![piece + Seq::<char>::empty()] + after =~= seq![piece] + after);
                }
                assert(spec_split_newlines(sv) =~= raw.push(piece) + spec_split_newlines(
                    sv.skip(i + 1),
                )) by {
                    assert(raw + (seq![piece] + after) =~= raw.push(piece) + after);
                }
                if i > start && sv[i - 1] == '\r' {
                    assert(piece.len() > 0 && piece.last() == '\r');
                    assert(spec_strip_cr(piece) =~= sv.subrange(start as int, hi as int));
                } else {
                    if piece.len() > 0 {
                        assert(piece.last() == sv[i - 1]);
                    }
                    assert(spec_strip_cr(piece) =~= sv.subrange(start as int, hi as int));
                }
                raw = raw.push(piece);
            }
            start = i + 1;
        }
        i = i + 1;
    }
    proof {
        let tail = sv.skip(start as int);
        assert forall|j: int| 0 <= j < n - start implies tail[j] != '\n' by {
            assert(tail[j] == sv[start + j]);
        }
        lemma_split_newlines_prefix(tail, n - start);
        assert(tail.skip(n - start) =~= Seq::<char>::empty());
        assert(spec_split_newlines(Seq::<char>::empty()) == seq![Seq::<char>::empty()]);
        assert(spec_split_newlines(tail) =~= seq![tail.take(n - start)]) by {
            assert(tail.take(n - start) + Seq::<char>::empty() =~= tail.take(n - start));
            assert(seq![Seq::<char>::empty()].drop_first() =~= Seq::<Seq<char>>::empty());
            assert(seq![tail.take(n - start)] + Seq::<Seq<char>>::empty() =~= seq![tail.take(
                n - start,
            )]);
        }
        assert(tail.take(n - start) =~= sv.subrange(start as int, n as int));
    }
    if n == 0 {
        proof {
            assert(spec_lines(sv) =~= Seq::<Seq<char>>::empty());
            assert(r@.len() == 0);
        }
        return r;
    }
    if start < n {
        // the text does not end with a newline: the last piece is a line
        let hi = if chars[n - 1] == '\r' {
            n - 1
        } else {
            n
        };
        r.push((start, hi));
        proof {
            let piece = sv.subrange(start as int, n as int);
            assert(sv.last() != '\n') by {
                assert(sv[n - 1] != '\n');
            }
            assert(spec_split_newlines(sv) =~= raw.push(piece));
            let kept = spec_split_newlines(sv);
            assert(spec_lines(sv) == kept.map_values(|l: Seq<char>| spec_strip_cr(l)));
            assert(piece.len() > 0 && piece.last() == sv[n - 1]);
            assert(spec_strip_cr(piece) =~= sv.subrange(start as int, hi as int));
            raw = raw.push(piece);
            assert forall|k: int| 0 <= k < r@.len() implies (#[trigger] r@[k]).0 <= r@[k].1 <= n
                && sv.subrange(r@[k].0 as int, r@[k].1 as int) == spec_lines(sv)[k] by {
                assert(spec_lines(sv)[k] == spec_strip_cr(raw[k]));
            }
            assert(r@.len() == spec_lines(sv).len());
        }
        return r;
    }
    proof {
        // the text ends with a newline: the trailing empty piece is
        // not a line
        assert(start == n);
        assert(sv.last() == '\n') by {
            if sv[n - 1] != '\n' {
                assert(false);
            }
        }
        let piece = sv.subrange(start as int, n as int);
        assert(piece =~= Seq::<char>::empty());
        assert(spec_split_newlines(sv) =~= raw.push(piece));
        let kept = spec_split_newlines(sv).drop_last();
        assert(kept =~= raw);
        assert(spec_lines(sv) == kept.map_values(|l: Seq<char>| spec_strip_cr(l)));
        assert forall|k: int| 0 <= k < r@.len() implies (#[trigger] r@[k]).0 <= r@[k].1 <= n
            && sv.subrange(r@[k].0 as int, r@[k].1 as int) == spec_lines(sv)[k] by {
            assert(spec_lines(sv)[k] == spec_strip_cr(raw[k]));
        }
        assert(r@.len() == spec_lines(sv).len());
    }
    r
}

/// Parses one `i64` from every non-blank line of `input`, in order.
/// Blank lines are skipped; white space around a numeral is ignored.
/// The call fails exactly when some non-blank line is no `i64` numeral,
/// and reports the first one that is not.
pub fn parse_lines_i64(input: &str) -> (r: Result<Vec<i64>, ParseNumberError>)
    ensures
        ({
            let entries = spec_numeral_lines(input@);
            match r {
                Ok(v) => v@.len() == entries.len() && forall|i: int|
                    0 <= i < entries.len() ==> spec_parses_as_i64(#[trigger] entries[i]) && v@[i]
                        as int == spec_numeral_value(entries[i]),
                Err(e) => e.entry < entries.len() && !spec_parses_as_i64(entries[e.entry as int])
                    && forall|i: int|
                    0 <= i < e.entry ==> spec_parses_as_i64(#[trigger] entries[i]),
            }
        }),
{
    let chars = chars_vec(input);
    let spans = line_spans(&chars);
    let ghost lines = spec_lines(input@);
    let ghost entries = spec_numeral_lines(input@);
    let mut out: Vec<i64> = Vec::new();
    let mut li: usize = 0;
    proof {
        assert(lines.take(0) =~= Seq::<Seq<char>>::empty());
    }
    while li < spans.len()
        invariant
            chars@ == input@,
            spans@.len() == lines.len(),
            lines == spec_lines(input@),
            entries == spec_numeral_lines(input@),
            li <= spans@.len(),
            forall|i: int|
                0 <= i < spans@.len() ==> (#[trigger] spans@[i]).0 <= spans@[i].1 <= chars@.len()
                    && chars@.subrange(spans@[i].0 as int, spans@[i].1 as int) == lines[i],
            out@.len() == spec_entries_of(lines.take(li as int)).len(),
            forall|j: int|
                0 <= j < out@.len() ==> spec_parses_as_i64(
                    #[trigger] spec_entries_of(lines.take(li as int))[j],
                ) && out@[j] as int == spec_numeral_value(spec_entries_of(lines.take(li as int))[j]),
        decreases spans@.len() - li,
    {
        let (lo, hi) = spans[li];
        let ghost line = lines[li as int];

        let (a, b) = trim_span(&chars, lo, hi);
        proof {
            assert(spec_trim(line) == chars@.subrange(a as int, b as int));
            assert(lines.take(li + 1).drop_last() =~= lines.take(li as int));
            assert(lines.take(li + 1).last() == line);
        }
        if a == b {
            proof {
                assert(spec_trim(line).len() == 0);
                assert(spec_entries_of(lines.take(li + 1)) =~= spec_entries_of(
                    lines.take(li as int),
                ));
            }
            li = li + 1;
            continue ;
        }
        let ghost trimmed = spec_trim(line);
        proof {
            assert(trimmed.len() > 0);
            assert(spec_entries_of(lines.take(li + 1)) =~= spec_entries_of(
                lines.take(li as int),
            ).push(trimmed));
        }
        match parse_i64_span(&chars, a, b) {
            Some(v) => {
                out.push(v);
                proof {
                    let now = spec_entries_of(lines.take(li + 1));
                    assert forall|j: int| 0 <= j < out@.len() implies spec_parses_as_i64(
                        #[trigger] now[j],
                    ) && out@[j] as int == spec_numeral_value(now[j]) by {
                        if j < out@.len() - 1 {
                            assert(now[j] == spec_entries_of(lines.take(li as int))[j]);
                        } else {
                            assert(now[j] == trimmed);
                        }
                    }
                }
                li = li + 1;
            },
            None => {
                let e = ParseNumberError { entry: out.len() };
                proof {
                    let sofar = spec_entries_of(lines.take(li + 1));
                    lemma_entries_of_prefix(lines, li + 1);
                    assert(entries.len() >= sofar.len());
                    assert(entries[sofar.len() - 1] == sofar[sofar.len() - 1]);
                    assert(sofar[sofar.len() - 1] == trimmed);
                    assert forall|i: int| 0 <= i < e.entry implies spec_parses_as_i64(
                        #[trigger] entries[i],
                    ) by {
                        assert(entries[i] == spec_entries_of(lines.take(li as int))[i]);
                        lemma_entries_of_prefix(lines, li as int);
                    }
                }
                return Err(e);
            },
        }
    }
    proof {
        assert(lines.take(spans@.len() as int) =~= lines);
    }
    Ok(out)
}

/// A numeral whose digits denote more than the type can hold does not
/// parse as an `i64`.
proof fn lemma_numeral_out_of_range(s: Seq<char>, dv: int, neg: bool)
    requires
        s.len() > 0,
        neg == (s[0] == '-'),
        dv == spec_digits_value(spec_numeral_digits(s)),
        neg ==> dv > 9223372036854775808,
        !neg ==> dv > 9223372036854775807,
    ensures
        !(i64::MIN <= spec_numeral_value(s) <= i64::MAX),
{
    if neg {
        assert(spec_numeral_value(s) == -1 * dv);
    } else {
        assert(spec_numeral_value(s) == 1 * dv);
    }
}

/// The character for one decimal digit.
pub open spec fn spec_digit_char(d: int) -> char {
    if d == 0 {
        '0'
    } else if d == 1 {
        '1'
    } else if d == 2 {
        '2'
    } else if d == 3 {
        '3'
    } else if d == 4 {
        '4'
    } else if d == 5 {
        '5'
    } else if d == 6 {
        '6'
    } else if d == 7 {
        '7'
    } else if d == 8 {
        '8'
    } else {
        '9'
    }
}

/// The decimal digits of `m`, most significant first, with no leading
/// zero except for `m == 0` itself.
pub open spec fn spec_udigits(m: nat) -> Seq<char>
    decreases m,
{
    if m < 10 {
        seq![spec_digit_char(m as int)]
    } else {
        spec_udigits(m / 10).push(spec_digit_char((m % 10) as int))
    }
}

proof fn lemma_udigits_shape(m: nat)
    ensures
        spec_udigits(m).len() >= 1,
        forall|i: int| 0 <= i < spec_udigits(m).len() ==> spec_is_digit(#[trigger] spec_udigits(m)[i]),
        m >= 1 ==> spec_udigits(m)[0] != '0',
        spec_digits_value(spec_udigits(m)) == m,
    decreases m,
{
    if m < 10 {
        assert(spec_udigits(m) =~= seq![spec_digit_char(m as int)]);
        assert(spec_digit_char(m as int) as u32 == 0x30 + m);
        assert(spec_digits_value(spec_udigits(m)) == m) by {
            assert(spec_udigits(m).drop_last() =~= Seq::<char>::empty());
            assert(spec_digits_value(Seq::<char>::empty()) == 0);
            assert(spec_udigits(m).last() == spec_digit_char(m as int));
        }
    } else {
        assert(m / 10 < m && m / 10 >= 1) by (nonlinear_arith)
            requires
                m >= 10,
        ;
        lemma_udigits_shape(m / 10);
        let prefix = spec_udigits(m / 10);
        let d = (m % 10) as int;
        assert(spec_udigits(m) == prefix.push(spec_digit_char(d)));
        assert(spec_udigits(m)[0] == prefix[0]);
        assert(spec_udigits(m).drop_last() =~= prefix);
        assert(spec_udigits(m).last() == spec_digit_char(d));
        assert(0 <= d < 10);
        assert(spec_digit_char(d) as u32 - 0x30 == d);
        vstd::arithmetic::div_mod::lemma_fundamental_div_mod(m as int, 10);
        assert(spec_digits_value(spec_udigits(m)) == (m / 10) * 10 + d);
    }
}

/// The decimal text for one digit.
fn digit_str(d: u64) -> (r: &'static str)
    requires
        d < 10,
    ensures
        r@ == seq![spec_digit_char(d as int)],
{
    proof {
        reveal_strlit("0");
        reveal_strlit("1");
        reveal_strlit("2");
        reveal_strlit("3");
        reveal_strlit("4");
        reveal_strlit("5");
        reveal_strlit("6");
        reveal_strlit("7");
        reveal_strlit("8");
        reveal_strlit("9");
    }
    let r = match d {
        0 => "0",
        1 => "1",
        2 => "2",
        3 => "3",
        4 => "4",
        5 => "5",
        6 => "6",
        7 => "7",
        8 => "8",
        _ => "9",
    };
    proof {
        assert(r@ =~= seq![spec_digit_char(d as int)]);
    }
    r
}

/// Appends the decimal digits of `m`, most significant first.
fn push_digits(m: u64, out: &mut String)
    ensures
        final(out)@ == old(out)@ + spec_udigits(m as nat),
    decreases m,
{
    if m >= 10 {
        proof {
            assert(m / 10 < m) by (nonlinear_arith)
                requires
                    m >= 10,
            ;
        }
        push_digits(m / 10, out);
        let ghost mid = out@;
        out.append(digit_str(m % 10));
        proof {
            assert(mid + seq![spec_digit_char((m % 10) as int)] =~= old(out)@ + spec_udigits(
                m as nat,
            ));
        }
    } else {
        out.append(digit_str(m));
        proof {
            assert(old(out)@ + seq![spec_digit_char(m as int)] =~= old(out)@ + spec_udigits(
                m as nat,
            ));
        }
    }
}

/// True when `s` is the canonical decimal numeral for `v`: it parses
/// back to `v`, starts with a minus sign exactly when `v` is negative,
/// and shows no leading zero.
pub open spec fn spec_canonical_i64(s: Seq<char>, v: int) -> bool {
    &&& spec_parses_as_i64(s)
    &&& spec_numeral_value(s) == v
    &&& s.len() > 0
    &&& (s[0] == '-') == (v < 0)
    &&& (spec_numeral_digits(s).len() > 1 ==> spec_numeral_digits(s)[0] != '0')
}

/// Formats `n` as its canonical decimal numeral: a minus sign exactly
/// for negative values, then the digits with no leading zero. The text
/// parses back to `n`.
pub fn fmt_i64(n: i64) -> (r: String)
    ensures
        spec_canonical_i64(r@, n as int),
{
    let mut out = String::new();
    let m: u64 = if n == i64::MIN {
        proof {
            reveal_strlit("-");
        }
        out.append("-");
        9223372036854775808
    } else if n < 0 {
        proof {
            reveal_strlit("-");
        }
        out.append("-");
        (-n) as u64
    } else {
        n as u64
    };
    let ghost head = out@;
    push_digits(m, &mut out);
    proof {
        lemma_udigits_shape(m as nat);
        let digits = spec_udigits(m as nat);
        assert(out@ == head + digits);
        if n < 0 {
            assert(head =~= seq!['-']);
            assert(out@[0] == '-');
            assert(spec_numeral_digits(out@) =~= digits);
            assert(spec_numeral_value(out@) == -1 * spec_digits_value(digits));
            assert(m as int == -(n as int));
        } else {
            assert(head =~= Seq::<char>::empty());
            assert(out@ =~= digits);
            assert(out@[0] != '-') by {
                assert(spec_is_digit(digits[0]));
            }
            assert(out@[0] != '+') by {
                assert(spec_is_digit(digits[0]));
            }
            assert(spec_numeral_digits(out@) =~= digits);
            assert(spec_numeral_value(out@) == 1 * spec_digits_value(digits));
        }
    }
    out
}

/// Formats `m` as its decimal digits, most significant first, with no
/// leading zero except for `0` itself.
pub fn fmt_u64(m: u64) -> (r: String)
    ensures
        r@ == spec_udigits(m as nat),
        r@.len() > 0,
        m >= 1 ==> r@[0] != '0',
        forall|i: int| 0 <= i < r@.len() ==> spec_is_digit(#[trigger] r@[i]),
        spec_digits_value(r@) == m,
{
    let mut out = String::new();
    push_digits(m, &mut out);
    proof {
        lemma_udigits_shape(m as nat);
        assert(out@ =~= spec_udigits(m as nat));
    }
    out
}

} // verus!
