//! Configurable bracket validation.
//!
//! A validation call consumes a sequence of `(position, character)` pairs
//! and an [`Options`] value, and returns either success or an ordered list
//! of [`BracketError`]s. The whole behaviour is pinned down by the spec
//! functions in this module: `scan` folds the single-pass stack algorithm
//! over the input, `all_errors` appends the one unclosed-opening report the
//! chosen [`UnclosedPolicy`] selects, and `reported_errors` keeps either
//! the first error or all of them according to the [`ErrorMode`].

use crate::stack::Stack;
use vstd::prelude::*;
use vstd::std_specs::iter::IteratorSpec;

verus! {

broadcast use vstd::seq::group_seq_axioms;

/// Controls whether validation stops at the first error or collects all
/// errors found in one pass.
#[derive(Clone, Copy, Debug, PartialEq, Eq, Structural)]
pub enum ErrorMode {
    /// Stop validation immediately upon finding the first error.
    StopAtFirst,
    /// Continue validation and collect every error found.
    CollectAll,
}

/// Controls which unclosed opener is reported when several remain open at
/// the end of the input.
#[derive(Clone, Copy, Debug, PartialEq, Eq, Structural)]
pub enum UnclosedPolicy {
    /// Report the most recently opened bracket.
    LatestOpen,
    /// Report the earliest opened bracket that is still unclosed.
    EarliestOpen,
}

/// The three kinds of bracket validation errors.
#[derive(Clone, Copy, Debug, PartialEq, Eq, Structural)]
pub enum BracketErrorKind {
    /// A closing bracket appeared while no opener was pending.
    UnexpectedClosing { found: char },
    /// A closing bracket did not match the most recent pending opener.
    MismatchedPair { expected: char, found: char },
    /// An opening bracket was never closed.
    UnclosedOpenings { expected: char, open_index: usize },
}

/// A bracket validation error: the position it was detected at, and what
/// went wrong there.
#[derive(Clone, Copy, Debug, PartialEq, Eq, Structural)]
pub struct BracketError {
    /// The position in the input where the error was detected. For input
    /// derived from a string this is a byte offset.
    pub index: usize,
    /// The specific kind of error.
    pub kind: BracketErrorKind,
}

/// The set of bracket pairs a validation call recognises.
///
/// The abstract value of an alphabet is the sequence of registered
/// `(opener, closer)` pairs; when one opener is registered twice, the
/// registration made last wins, exactly as [`spec_closer_for`] says.
#[derive(Clone, Debug)]
pub struct Alphabet {
    pairs: Vec<(char, char)>,
}

impl View for Alphabet {
    type V = Seq<(char, char)>;

    closed spec fn view(&self) -> Seq<(char, char)> {
        self.pairs@
    }
}

/// The closer registered for `ch`, scanning the pairs from the most
/// recently registered one backwards, or `None` when `ch` is no opener.
pub open spec fn spec_closer_for(pairs: Seq<(char, char)>, ch: char) -> Option<char>
    decreases pairs.len(),
{
    if pairs.len() == 0 {
        None
    } else if pairs.last().0 == ch {
        Some(pairs.last().1)
    } else {
        spec_closer_for(pairs.drop_last(), ch)
    }
}

/// True exactly when `ch` is a registered opener.
pub open spec fn spec_is_opener(pairs: Seq<(char, char)>, ch: char) -> bool {
    spec_closer_for(pairs, ch) is Some
}

/// True exactly when `ch` equals some registered closing character.
pub open spec fn spec_is_closer(pairs: Seq<(char, char)>, ch: char) -> bool {
    exists|i: int| 0 <= i < pairs.len() && pairs[i].1 == ch
}

/// The default bracket pairs: parentheses, square brackets, curly braces.
pub open spec fn default_pairs() -> Seq<(char, char)> {
    seq![('(', ')'), ('[', ']'), ('{', '}')]
}

impl Alphabet {
    /// Creates an alphabet from an explicit list of `(opener, closer)`
    /// pairs, registered in order.
    pub fn with_pairs(pairs: &[(char, char)]) -> (a: Alphabet)
        ensures
            a@ == pairs@,
    {
        let mut v: Vec<(char, char)> = Vec::new();
        let mut i: usize = 0;
        while i < pairs.len()
            invariant
                0 <= i <= pairs@.len(),
                v@ == pairs@.take(i as int),
            decreases pairs@.len() - i,
        {
            v.push(pairs[i]);
            proof {
                assert(pairs@.take(i + 1) =~= pairs@.take(i as int).push(pairs@[i as int]));
            }
            i += 1;
        }
        proof {
            assert(pairs@.take(pairs@.len() as int) =~= pairs@);
        }
        Alphabet { pairs: v }
    }

    /// Creates the default alphabet with the standard pairs `()`, `[]`
    /// and `{}`.
    pub fn default_ascii() -> (a: Alphabet)
        ensures
            a@ == default_pairs(),
    {
        let mut v: Vec<(char, char)> = Vec::new();
        v.push(('(', ')'));
        v.push(('[', ']'));
        v.push(('{', '}'));
        proof {
            assert(v@ =~= default_pairs());
        }
        Alphabet { pairs: v }
    }

    /// True exactly when `ch` is a registered opening bracket.
    pub fn is_opener(&self, ch: char) -> (r: bool)
        ensures
            r == spec_is_opener(self@, ch),
    {
        self.expected_for(ch).is_some()
    }

    /// True exactly when `ch` equals some registered closing bracket.
    pub fn is_closer(&self, ch: char) -> (r: bool)
        ensures
            r == spec_is_closer(self@, ch),
    {
        let n = self.pairs.len();
        let mut i: usize = 0;
        while i < n
            invariant
                n == self@.len(),
                0 <= i <= n,
                forall|k: int| 0 <= k < i ==> self@[k].1 != ch,
            decreases n - i,
        {
            if self.pairs[i].1 == ch {
                return true;
            }
            i += 1;
        }
        false
    }

    /// The closing bracket registered for `opener`, or `None` when
    /// `opener` is not a registered opening bracket. When an opener was
    /// registered more than once the registration made last wins.
    pub fn expected_for(&self, opener: char) -> (r: Option<char>)
        ensures
            r == spec_closer_for(self@, opener),
    {
        let mut j = self.pairs.len();
        proof {
            assert(self@.take(j as int) =~= self@);
        }
        while j > 0
            invariant
                j <= self@.len(),
                spec_closer_for(self@, opener) == spec_closer_for(self@.take(j as int), opener),
            decreases j,
        {
            let p = self.pairs[j - 1];
            if p.0 == opener {
                proof {
                    assert(self@.take(j as int).last() == self@[j - 1]);
                }
                return Some(p.1);
            }
            proof {
                assert(self@.take(j as int).drop_last() =~= self@.take(j - 1));
            }
            j -= 1;
        }
        proof {
            assert(self@.take(0).len() == 0);
        }
        None
    }
}

/// Configuration for one validation call: the alphabet, the error mode,
/// and the unclosed-opener policy.
#[derive(Clone, Debug)]
pub struct Options {
    /// The alphabet defining the recognised bracket pairs.
    pub alphabet: Alphabet,
    /// Whether to stop at the first error or collect all errors.
    pub error_mode: ErrorMode,
    /// Which unclosed opener to report when several remain open.
    pub unclosed_policy: UnclosedPolicy,
}

impl Default for Options {
    /// The default configuration: the standard pairs, stop at the first
    /// error, report the most recently opened unclosed bracket.
    fn default() -> (o: Options)
        ensures
            o.alphabet@ == default_pairs(),
            o.error_mode == ErrorMode::StopAtFirst,
            o.unclosed_policy == UnclosedPolicy::LatestOpen,
    {
        Options {
            alphabet: Alphabet::default_ascii(),
            error_mode: ErrorMode::StopAtFirst,
            unclosed_policy: UnclosedPolicy::LatestOpen,
        }
    }
}

/// One step of the single-pass algorithm: how the stack of pending frames
/// and the list of recorded errors change when the character `ch` is read
/// at position `pos`. A frame pairs the expected closer with the position
/// its opener was read at.
pub open spec fn scan_step(
    alpha: Seq<(char, char)>,
    st: Seq<(char, usize)>,
    errs: Seq<BracketError>,
    pos: usize,
    ch: char,
) -> (Seq<(char, usize)>, Seq<BracketError>) {
    if spec_is_opener(alpha, ch) {
        (st.push((spec_closer_for(alpha, ch)->Some_0, pos)), errs)
    } else if spec_is_closer(alpha, ch) {
        if st.len() == 0 {
            (st, errs.push(BracketError { index: pos, kind: BracketErrorKind::UnexpectedClosing { found: ch } }))
        } else if ch == st.last().0 {
            (st.drop_last(), errs)
        } else {
            (
                st.drop_last(),
                errs.push(
                    BracketError {
                        index: pos,
                        kind: BracketErrorKind::MismatchedPair { expected: st.last().0, found: ch },
                    },
                ),
            )
        }
    } else {
        (st, errs)
    }
}

/// The stack and error list after reading the whole `input`, starting
/// from stack `st` and already-recorded errors `errs`.
pub open spec fn scan(
    alpha: Seq<(char, char)>,
    st: Seq<(char, usize)>,
    errs: Seq<BracketError>,
    input: Seq<(usize, char)>,
) -> (Seq<(char, usize)>, Seq<BracketError>)
    decreases input.len(),
{
    if input.len() == 0 {
        (st, errs)
    } else {
        let next = scan_step(alpha, st, errs, input[0].0, input[0].1);
        scan(alpha, next.0, next.1, input.drop_first())
    }
}

/// The single unclosed-openings error reported for a non-empty final
/// stack: the policy selects the newest or the oldest pending frame.
pub open spec fn unclosed_report(policy: UnclosedPolicy, st: Seq<(char, usize)>) -> BracketError
    recommends
        st.len() > 0,
{
    let frame = match policy {
        UnclosedPolicy::LatestOpen => st.last(),
        UnclosedPolicy::EarliestOpen => st[0],
    };
    BracketError {
        index: frame.1,
        kind: BracketErrorKind::UnclosedOpenings { expected: frame.0, open_index: frame.1 },
    }
}

/// Every error the input holds, in detection order: the errors recorded
/// during the pass, followed by the one unclosed-openings report when
/// openers remain pending at the end.
pub open spec fn all_errors(
    alpha: Seq<(char, char)>,
    policy: UnclosedPolicy,
    input: Seq<(usize, char)>,
) -> Seq<BracketError> {
    let end = scan(alpha, Seq::empty(), Seq::empty(), input);
    if end.0.len() > 0 {
        end.1.push(unclosed_report(policy, end.0))
    } else {
        end.1
    }
}

/// The errors a validation call reports: all of them in `CollectAll`
/// mode, only the first in `StopAtFirst` mode.
pub open spec fn reported_errors(
    alpha: Seq<(char, char)>,
    mode: ErrorMode,
    policy: UnclosedPolicy,
    input: Seq<(usize, char)>,
) -> Seq<BracketError> {
    let es = all_errors(alpha, policy, input);
    if mode is StopAtFirst && es.len() > 0 {
        seq![es[0]]
    } else {
        es
    }
}

/// The result of a validation call, as a value: `Ok(())` exactly when the
/// input holds no error, `Err` with the reported list otherwise.
pub open spec fn spec_validate(
    alpha: Seq<(char, char)>,
    mode: ErrorMode,
    policy: UnclosedPolicy,
    input: Seq<(usize, char)>,
) -> Result<(), Seq<BracketError>> {
    let es = reported_errors(alpha, mode, policy, input);
    if es.len() == 0 {
        Ok(())
    } else {
        Err(es)
    }
}

/// The abstraction of an executable validation result.
pub open spec fn abs_result(r: Result<(), Vec<BracketError>>) -> Result<(), Seq<BracketError>> {
    match r {
        Ok(()) => Ok(()),
        Err(v) => Err(v@),
    }
}

/// Reading `a + b` is reading `a`, then reading `b` from where `a` left
/// off.
pub proof fn lemma_scan_append(
    alpha: Seq<(char, char)>,
    st: Seq<(char, usize)>,
    errs: Seq<BracketError>,
    a: Seq<(usize, char)>,
    b: Seq<(usize, char)>,
)
    ensures
        scan(alpha, st, errs, a + b) == ({
            let mid = scan(alpha, st, errs, a);
            scan(alpha, mid.0, mid.1, b)
        }),
    decreases a.len(),
{
    if a.len() == 0 {
        assert(a + b =~= b);
    } else {
        let next = scan_step(alpha, st, errs, a[0].0, a[0].1);
        assert((a + b)[0] == a[0]);
        assert((a + b).drop_first() =~= a.drop_first() + b);
        lemma_scan_append(alpha, next.0, next.1, a.drop_first(), b);
    }
}

/// Reading one more character applies one `scan_step` to the state the
/// prefix before it produced.
pub proof fn lemma_scan_snoc(
    alpha: Seq<(char, char)>,
    st: Seq<(char, usize)>,
    errs: Seq<BracketError>,
    input: Seq<(usize, char)>,
    k: int,
)
    requires
        0 <= k < input.len(),
    ensures
        scan(alpha, st, errs, input.take(k + 1)) == ({
            let mid = scan(alpha, st, errs, input.take(k));
            scan_step(alpha, mid.0, mid.1, input[k].0, input[k].1)
        }),
{
    let one = seq![input[k]];
    assert(input.take(k + 1) =~= input.take(k) + one);
    lemma_scan_append(alpha, st, errs, input.take(k), one);
    let mid = scan(alpha, st, errs, input.take(k));
    let next = scan_step(alpha, mid.0, mid.1, one[0].0, one[0].1);
    assert(one.drop_first() =~= Seq::<(usize, char)>::empty());
    assert(scan(alpha, mid.0, mid.1, one) == scan(alpha, next.0, next.1, one.drop_first()));
}

/// The stack a read produces does not depend on the errors recorded so
/// far, and the errors recorded so far stay in front of whatever the read
/// adds.
pub proof fn lemma_scan_errors_accumulate(
    alpha: Seq<(char, char)>,
    st: Seq<(char, usize)>,
    errs: Seq<BracketError>,
    input: Seq<(usize, char)>,
)
    ensures
        scan(alpha, st, errs, input).0 == scan(alpha, st, Seq::<BracketError>::empty(), input).0,
        scan(alpha, st, errs, input).1 == errs + scan(
            alpha,
            st,
            Seq::<BracketError>::empty(),
            input,
        ).1,
    decreases input.len(),
{
    let none = Seq::<BracketError>::empty();
    if input.len() == 0 {
        assert(errs + none =~= errs);
    } else {
        let pos = input[0].0;
        let ch = input[0].1;
        let next = scan_step(alpha, st, errs, pos, ch);
        let next0 = scan_step(alpha, st, none, pos, ch);
        assert(next.0 == next0.0);
        lemma_scan_errors_accumulate(alpha, next.0, next.1, input.drop_first());
        lemma_scan_errors_accumulate(alpha, next0.0, next0.1, input.drop_first());
        let tail = scan(alpha, next.0, none, input.drop_first()).1;
        assert(scan(alpha, st, errs, input).1 == next.1 + tail);
        assert(scan(alpha, st, none, input).1 == next0.1 + tail);
        if spec_is_opener(alpha, ch) || !spec_is_closer(alpha, ch) || (st.len() > 0 && ch
            == st.last().0) {
            assert(next.1 == errs && next0.1 == none);
            assert(errs + (none + tail) =~= errs + tail);
        } else {
            let e = if st.len() == 0 {
                BracketError { index: pos, kind: BracketErrorKind::UnexpectedClosing { found: ch } }
            } else {
                BracketError {
                    index: pos,
                    kind: BracketErrorKind::MismatchedPair { expected: st.last().0, found: ch },
                }
            };
            assert(next.1 == errs.push(e) && next0.1 == none.push(e));
            Seq::<BracketError>::push_distributes_over_add(errs, none, e);
            assert(errs + none =~= errs);
            vstd::seq_lib::lemma_concat_associative(errs, none.push(e), tail);
            assert(errs.push(e) + tail == errs + (none.push(e) + tail));
        }
    }
}

/// When the prefix before position `k` holds no error and reading the
/// character at `k` records `e`, then `e` is the first error of the whole
/// input, whatever follows.
pub(crate) proof fn lemma_first_error_stands(
    alpha: Seq<(char, char)>,
    policy: UnclosedPolicy,
    input: Seq<(usize, char)>,
    k: int,
    e: BracketError,
)
    requires
        0 <= k < input.len(),
        scan(alpha, Seq::empty(), Seq::empty(), input.take(k)).1 == Seq::<BracketError>::empty(),
        scan(alpha, Seq::empty(), Seq::empty(), input.take(k + 1)).1 == seq![e],
    ensures
        all_errors(alpha, policy, input).len() > 0,
        all_errors(alpha, policy, input)[0] == e,
{
    let none = Seq::<BracketError>::empty();
    let mid = scan(alpha, Seq::empty(), none, input.take(k + 1));
    assert(input =~= input.take(k + 1) + input.skip(k + 1));
    lemma_scan_append(alpha, Seq::empty(), none, input.take(k + 1), input.skip(k + 1));
    lemma_scan_errors_accumulate(alpha, mid.0, mid.1, input.skip(k + 1));
    let end = scan(alpha, Seq::empty(), none, input);
    assert(end.1 == seq![e] + scan(alpha, mid.0, none, input.skip(k + 1)).1);
    assert(end.1[0] == e);
    if end.0.len() > 0 {
        assert(all_errors(alpha, policy, input) == end.1.push(unclosed_report(policy, end.0)));
    }
}

/// Validates a pre-indexed character sequence: the core single-pass
/// engine every other entry point delegates to.
///
/// The result is exactly what the specification model says: `Ok(())`
/// when `reported_errors` is empty for this input and configuration,
/// otherwise `Err` carrying precisely that non-empty list.
pub fn validate_indexed_iter(items: &[(usize, char)], opts: &Options) -> (r: Result<
    (),
    Vec<BracketError>,
>)
    ensures
        abs_result(r) == spec_validate(
            opts.alphabet@,
            opts.error_mode,
            opts.unclosed_policy,
            items@,
        ),
        r matches Err(v) ==> v@.len() > 0,
{
    let ghost alpha = opts.alphabet@;
    let ghost policy = opts.unclosed_policy;
    let ghost none = Seq::<BracketError>::empty();
    let mut st: Stack<(char, usize)> = Stack::new();
    let mut errors: Vec<BracketError> = Vec::new();
    let n = items.len();
    let mut k: usize = 0;

    proof {
        assert(items@.take(0) =~= Seq::<(usize, char)>::empty());
    }

    while k < n
        invariant
            n == items@.len(),
            k <= n,
            alpha == opts.alphabet@,
            policy == opts.unclosed_policy,
            none == Seq::<BracketError>::empty(),
            st@ == scan(alpha, Seq::empty(), none, items@.take(k as int)).0,
            errors@ == scan(alpha, Seq::empty(), none, items@.take(k as int)).1,
            opts.error_mode == ErrorMode::StopAtFirst ==> errors@.len() == 0,
        decreases n - k,
    {
        let (i, ch) = items[k];
        proof {
            lemma_scan_snoc(alpha, Seq::empty(), none, items@, k as int);
            assert(items@[k as int] == (i, ch));
        }
        if opts.alphabet.is_opener(ch) {
            let expected = opts.alphabet.expected_for(ch).unwrap();
            st.push((expected, i));
        } else if opts.alphabet.is_closer(ch) {
            match st.pop() {
                None => {
                    let e = BracketError {
                        index: i,
                        kind: BracketErrorKind::UnexpectedClosing { found: ch },
                    };
                    if opts.error_mode == ErrorMode::StopAtFirst {
                        proof {
                            assert(errors@ =~= none);
                            assert(scan(alpha, Seq::empty(), none, items@.take(k + 1)).1
                                =~= seq![e]);
                            lemma_first_error_stands(alpha, policy, items@, k as int, e);
                        }
                        let mut v: Vec<BracketError> = Vec::new();
                        v.push(e);
                        proof {
                            assert(v@ =~= seq![e]);
                        }
                        return Err(v);
                    }
                    errors.push(e);
                }
                Some(frame) => {
                    if ch != frame.0 {
                        let e = BracketError {
                            index: i,
                            kind: BracketErrorKind::MismatchedPair {
                                expected: frame.0,
                                found: ch,
                            },
                        };
                        if opts.error_mode == ErrorMode::StopAtFirst {
                            proof {
                                assert(errors@ =~= none);
                                assert(scan(alpha, Seq::empty(), none, items@.take(k + 1)).1
                                    =~= seq![e]);
                                lemma_first_error_stands(alpha, policy, items@, k as int, e);
                            }
                            let mut v: Vec<BracketError> = Vec::new();
                            v.push(e);
                            proof {
                                assert(v@ =~= seq![e]);
                            }
                            return Err(v);
                        }
                        errors.push(e);
                    }
                }
            }
        }
        k += 1;
    }

    proof {
        assert(items@.take(n as int) =~= items@);
    }

    if !st.is_empty() {
        let frame = match opts.unclosed_policy {
            UnclosedPolicy::LatestOpen => st.pop().unwrap(),
            UnclosedPolicy::EarliestOpen => {
                let ghost whole = st@;
                let mut bottom = st.pop().unwrap();
                while st.len() > 0
                    invariant
                        st@.len() < whole.len(),
                        st@ == whole.take(st@.len() as int),
                        bottom == whole[st@.len() as int],
                    decreases st@.len(),
                {
                    proof {
                        assert(whole.take(st@.len() as int).drop_last() =~= whole.take(
                            st@.len() - 1,
                        ));
                    }
                    bottom = st.pop().unwrap();
                }
                proof {
                    assert(bottom == whole[0]);
                }
                bottom
            },
        };
        let e = BracketError {
            index: frame.1,
            kind: BracketErrorKind::UnclosedOpenings { expected: frame.0, open_index: frame.1 },
        };
        if opts.error_mode == ErrorMode::StopAtFirst {
            let mut v: Vec<BracketError> = Vec::new();
            v.push(e);
            proof {
                assert(v@ =~= seq![e]);
            }
            return Err(v);
        }
        errors.push(e);
    }

    if errors.len() == 0 {
        Ok(())
    } else {
        Err(errors)
    }
}

/// The `(byte offset, character)` pairs a string yields: character `i`
/// stands at the byte offset where the UTF-8 encoding of the characters
/// before it ends.
pub open spec fn byte_positions(s: Seq<char>) -> Seq<(usize, char)> {
    Seq::new(s.len(), |i: int| (vstd::utf8::encode_utf8(s.take(i)).len() as usize, s[i]))
}

/// The `(index, character)` pairs a plain character sequence yields:
/// character `i` stands at position `i`.
pub open spec fn char_positions(s: Seq<char>) -> Seq<(usize, char)> {
    Seq::new(s.len(), |i: int| (i as usize, s[i]))
}

/// UTF-8 encoding distributes over concatenation of character sequences.
pub proof fn lemma_encode_utf8_append(a: Seq<char>, b: Seq<char>)
    ensures
        vstd::utf8::encode_utf8(a + b) == vstd::utf8::encode_utf8(a) + vstd::utf8::encode_utf8(b),
    decreases a.len(),
{
    if a.len() == 0 {
        assert(a + b =~= b);
        assert(vstd::utf8::encode_utf8(a) + vstd::utf8::encode_utf8(b) =~= vstd::utf8::encode_utf8(
            b,
        ));
    } else {
        assert((a + b)[0] == a[0]);
        assert((a + b).drop_first() =~= a.drop_first() + b);
        lemma_encode_utf8_append(a.drop_first(), b);
        vstd::seq_lib::lemma_concat_associative(
            vstd::utf8::encode_scalar(a[0] as u32),
            vstd::utf8::encode_utf8(a.drop_first()),
            vstd::utf8::encode_utf8(b),
        );
    }
}

/// Reading one more character extends the encoded prefix by that
/// character's own encoding.
pub(crate) proof fn lemma_encode_utf8_take_succ(s: Seq<char>, k: int)
    requires
        0 <= k < s.len(),
    ensures
        vstd::utf8::encode_utf8(s.take(k + 1)).len() == vstd::utf8::encode_utf8(s.take(k)).len()
            + vstd::utf8::encode_scalar(s[k] as u32).len(),
        vstd::utf8::encode_utf8(s.take(k + 1)).len() <= vstd::utf8::encode_utf8(s).len(),
{
    let one = seq![s[k]];
    assert(s.take(k + 1) =~= s.take(k) + one);
    lemma_encode_utf8_append(s.take(k), one);
    assert(one.drop_first() =~= Seq::<char>::empty());
    assert(vstd::utf8::encode_utf8(Seq::<char>::empty()) =~= Seq::<u8>::empty());
    assert(vstd::utf8::encode_utf8(one) == vstd::utf8::encode_scalar(one[0] as u32)
        + vstd::utf8::encode_utf8(one.drop_first()));
    assert(vstd::utf8::encode_utf8(one) =~= vstd::utf8::encode_scalar(s[k] as u32));
    assert(s =~= s.take(k + 1) + s.skip(k + 1));
    lemma_encode_utf8_append(s.take(k + 1), s.skip(k + 1));
}

/// The number of bytes the UTF-8 encoding of one character takes.
pub(crate) fn utf8_len(c: char) -> (n: usize)
    ensures
        n == vstd::utf8::encode_scalar(c as u32).len(),
{
    proof {
        vstd::utf8::char_is_scalar(c);
    }
    let v = c as u32;
    if v < 0x80 {
        1
    } else if v < 0x800 {
        2
    } else if v < 0x10000 {
        3
    } else {
        4
    }
}

/// Validates a string. Each character is reported at its byte offset, so
/// positions in errors are valid indexes into the UTF-8 text even when it
/// holds multi-byte characters.
pub fn validate_with_options(s: &str, opts: &Options) -> (r: Result<(), Vec<BracketError>>)
    ensures
        abs_result(r) == spec_validate(
            opts.alphabet@,
            opts.error_mode,
            opts.unclosed_policy,
            byte_positions(s@),
        ),
        r matches Err(v) ==> v@.len() > 0,
{
    broadcast use vstd::string::group_string_axioms;

    let total = s.as_bytes().len();
    let mut items: Vec<(usize, char)> = Vec::new();
    let mut idx: usize = 0;
    let mut it = s.chars();
    proof {
        assert(s@.skip(0) =~= s@);
        assert(s@.take(0) =~= Seq::<char>::empty());
        assert(items@ =~= byte_positions(s@).take(0));
    }
    loop
        invariant
            items@.len() <= s@.len(),
            it.obeys_prophetic_iter_laws(),
            it.remaining() == s@.skip(items@.len() as int),
            idx == vstd::utf8::encode_utf8(s@.take(items@.len() as int)).len(),
            items@ == byte_positions(s@).take(items@.len() as int),
            total == vstd::utf8::encode_utf8(s@).len(),
        ensures
            items@ == byte_positions(s@),
        decreases s@.len() - items@.len(),
    {
        let ghost k = items@.len() as int;
        match it.next() {
            Some(c) => {
                proof {
                    assert(s@.skip(k)[0] == s@[k]);
                    assert(s@.skip(k).drop_first() =~= s@.skip(k + 1));
                    lemma_encode_utf8_take_succ(s@, k);
                }
                items.push((idx, c));
                proof {
                    assert(items@ =~= byte_positions(s@).take(k + 1));
                }
                let w = utf8_len(c);
                idx += w;
            },
            None => {
                proof {
                    assert(items@.len() == s@.len());
                    assert(items@ =~= byte_positions(s@));
                }
                break ;
            },
        }
    }
    validate_indexed_iter(items.as_slice(), opts)
}

/// Validates a plain character sequence. Each character is reported at
/// its index in the sequence, not at a byte offset.
pub fn validate_iter(chars: &[char], opts: &Options) -> (r: Result<(), Vec<BracketError>>)
    ensures
        abs_result(r) == spec_validate(
            opts.alphabet@,
            opts.error_mode,
            opts.unclosed_policy,
            char_positions(chars@),
        ),
        r matches Err(v) ==> v@.len() > 0,
{
    let mut items: Vec<(usize, char)> = Vec::new();
    let mut k: usize = 0;
    proof {
        assert(items@ =~= char_positions(chars@).take(0));
    }
    while k < chars.len()
        invariant
            k <= chars@.len(),
            items@ == char_positions(chars@).take(k as int),
        decreases chars@.len() - k,
    {
        items.push((k, chars[k]));
        proof {
            assert(items@ =~= char_positions(chars@).take(k + 1));
        }
        k += 1;
    }
    proof {
        assert(items@ =~= char_positions(chars@));
    }
    validate_indexed_iter(items.as_slice(), opts)
}

/// Validates a pre-indexed sequence, passing the caller's positions
/// through unchanged.
pub fn validate_indexed(items: &[(usize, char)], opts: &Options) -> (r: Result<
    (),
    Vec<BracketError>,
>)
    ensures
        abs_result(r) == spec_validate(
            opts.alphabet@,
            opts.error_mode,
            opts.unclosed_policy,
            items@,
        ),
        r matches Err(v) ==> v@.len() > 0,
{
    validate_indexed_iter(items, opts)
}

/// Validates a string with the default configuration and reports only the
/// first error.
pub fn validate_brackets(s: &str) -> (r: Result<(), BracketError>)
    ensures
        ({
            let es = reported_errors(
                default_pairs(),
                ErrorMode::StopAtFirst,
                UnclosedPolicy::LatestOpen,
                byte_positions(s@),
            );
            match r {
                Ok(()) => es.len() == 0,
                Err(e) => es.len() > 0 && e == es[0],
            }
        }),
{
    let opts = Options::default();
    match validate_with_options(s, &opts) {
        Ok(()) => Ok(()),
        Err(mut errs) => {
            let e = errs.remove(0);
            Err(e)
        },
    }
}

/// The characters of an indexed input, positions forgotten.
pub open spec fn chars_of(input: Seq<(usize, char)>) -> Seq<char> {
    input.map_values(|p: (usize, char)| p.1)
}

/// A character sequence composed only of properly nested pairs of the
/// alphabet: it is empty, or it starts with an opener whose matching
/// closer stands at some position `i`, the body between them is itself
/// so composed, and so is the remainder after `i`.
pub open spec fn is_balanced(alpha: Seq<(char, char)>, s: Seq<char>) -> bool
    decreases s.len(),
{
    s.len() == 0 || exists|i: int|
        1 <= i < s.len() && spec_is_opener(alpha, s[0]) && s[i] == spec_closer_for(
            alpha,
            s[0],
        )->Some_0 && is_balanced(alpha, s.subrange(1, i)) && is_balanced(
            alpha,
            s.subrange(i + 1, s.len() as int),
        )
}

/// No registered closing character is also a registered opener. The
/// algorithm assumes this of every alphabet it is given; it is what makes
/// a closer reach the matching test instead of opening a new frame.
pub open spec fn openers_closers_disjoint(alpha: Seq<(char, char)>) -> bool {
    forall|c: char| #[trigger] spec_is_closer(alpha, c) ==> !spec_is_opener(alpha, c)
}

proof fn lemma_closer_of_opener_is_closer(alpha: Seq<(char, char)>, ch: char)
    requires
        spec_is_opener(alpha, ch),
    ensures
        spec_is_closer(alpha, spec_closer_for(alpha, ch)->Some_0),
    decreases alpha.len(),
{
    if alpha.len() == 0 {
    } else if alpha.last().0 == ch {
        assert(alpha[alpha.len() - 1].1 == spec_closer_for(alpha, ch)->Some_0);
    } else {
        lemma_closer_of_opener_is_closer(alpha.drop_last(), ch);
        let c = spec_closer_for(alpha, ch)->Some_0;
        let i = choose|i: int| 0 <= i < alpha.drop_last().len() && alpha.drop_last()[i].1 == c;
        assert(alpha[i].1 == c);
    }
}

proof fn lemma_scan_ignores_balanced(
    alpha: Seq<(char, char)>,
    st: Seq<(char, usize)>,
    errs: Seq<BracketError>,
    input: Seq<(usize, char)>,
)
    requires
        openers_closers_disjoint(alpha),
        is_balanced(alpha, chars_of(input)),
    ensures
        scan(alpha, st, errs, input) == (st, errs),
    decreases input.len(),
{
    let cs = chars_of(input);
    assert(cs.len() == input.len());
    if input.len() == 0 {
    } else {
        let i = choose|i: int|
            1 <= i < cs.len() && spec_is_opener(alpha, cs[0]) && cs[i] == spec_closer_for(
                alpha,
                cs[0],
            )->Some_0 && is_balanced(alpha, cs.subrange(1, i)) && is_balanced(
                alpha,
                cs.subrange(i + 1, cs.len() as int),
            );
        let first = seq![input[0]];
        let mid = input.subrange(1, i);
        let close = seq![input[i]];
        let rest = input.subrange(i + 1, input.len() as int);
        let exp = spec_closer_for(alpha, cs[0])->Some_0;
        let st1 = st.push((exp, input[0].0));

        assert(cs[0] == input[0].1);
        assert(cs[i] == input[i].1);
        assert(chars_of(mid) =~= cs.subrange(1, i));
        assert(chars_of(rest) =~= cs.subrange(i + 1, cs.len() as int));

        // the opener pushes one frame
        assert(first.drop_first() =~= Seq::<(usize, char)>::empty());
        assert(scan_step(alpha, st, errs, input[0].0, input[0].1) == (st1, errs));
        assert(scan(alpha, st1, errs, first.drop_first()) == (st1, errs));
        assert(scan(alpha, st, errs, first) == (st1, errs));

        // the body leaves the stack and the errors alone
        lemma_scan_ignores_balanced(alpha, st1, errs, mid);

        // the matching closer pops that frame again
        lemma_closer_of_opener_is_closer(alpha, cs[0]);
        assert(!spec_is_opener(alpha, cs[i]));
        assert(close.drop_first() =~= Seq::<(usize, char)>::empty());
        assert(st1.last() == (exp, input[0].0));
        assert(st1.drop_last() =~= st);
        assert(scan_step(alpha, st1, errs, input[i].0, input[i].1) == (st, errs));
        assert(scan(alpha, st, errs, close.drop_first()) == (st, errs));
        assert(scan(alpha, st1, errs, close) == (st, errs));

        // the remainder leaves the state alone as well
        lemma_scan_ignores_balanced(alpha, st, errs, rest);

        assert(input =~= first + (mid + (close + rest)));
        lemma_scan_append(alpha, st, errs, first, mid + (close + rest));
        lemma_scan_append(alpha, st1, errs, mid, close + rest);
        lemma_scan_append(alpha, st1, errs, close, rest);
    }
}

/// Input composed only of properly nested pairs of the alphabet
/// validates successfully, in either error mode and under either
/// unclosed policy.
pub proof fn lemma_balanced_input_validates(
    alpha: Seq<(char, char)>,
    mode: ErrorMode,
    policy: UnclosedPolicy,
    input: Seq<(usize, char)>,
)
    requires
        openers_closers_disjoint(alpha),
        is_balanced(alpha, chars_of(input)),
    ensures
        spec_validate(alpha, mode, policy, input) == Ok::<(), Seq<BracketError>>(()),
        reported_errors(alpha, mode, policy, input).len() == 0,
{
    lemma_scan_ignores_balanced(
        alpha,
        Seq::<(char, usize)>::empty(),
        Seq::<BracketError>::empty(),
        input,
    );
}

/// A validation result is exactly one of two shapes: `Ok(())`, exactly
/// when the input holds no error, or `Err` with a non-empty list.
pub proof fn lemma_result_is_ok_or_nonempty_err(
    alpha: Seq<(char, char)>,
    mode: ErrorMode,
    policy: UnclosedPolicy,
    input: Seq<(usize, char)>,
)
    ensures
        spec_validate(alpha, mode, policy, input) is Ok <==> reported_errors(
            alpha,
            mode,
            policy,
            input,
        ).len() == 0,
        spec_validate(alpha, mode, policy, input) matches Err(es) ==> es.len() > 0,
{
}

/// Validation is deterministic: its result is the one value
/// `spec_validate` assigns to the input and the configuration, so two
/// calls on identical input and options return identical results.
pub proof fn lemma_validate_deterministic(
    alpha: Seq<(char, char)>,
    mode: ErrorMode,
    policy: UnclosedPolicy,
    input: Seq<(usize, char)>,
    r1: Result<(), Seq<BracketError>>,
    r2: Result<(), Seq<BracketError>>,
)
    requires
        r1 == spec_validate(alpha, mode, policy, input),
        r2 == spec_validate(alpha, mode, policy, input),
    ensures
        r1 == r2,
{
}

/// The single error reported in `StopAtFirst` mode is exactly the first
/// entry of the list reported in `CollectAll` mode for the same input,
/// alphabet and unclosed policy.
pub proof fn lemma_stop_at_first_matches_collect_all(
    alpha: Seq<(char, char)>,
    policy: UnclosedPolicy,
    input: Seq<(usize, char)>,
)
    requires
        reported_errors(alpha, ErrorMode::CollectAll, policy, input).len() > 0,
    ensures
        reported_errors(alpha, ErrorMode::StopAtFirst, policy, input) == seq![
            reported_errors(alpha, ErrorMode::CollectAll, policy, input)[0],
        ],
{
}

/// True when some input item stands at position `p`.
pub open spec fn input_has_pos(input: Seq<(usize, char)>, p: usize) -> bool {
    exists|i: int| 0 <= i < input.len() && input[i].0 == p
}

proof fn lemma_scan_positions(
    alpha: Seq<(char, char)>,
    st: Seq<(char, usize)>,
    errs: Seq<BracketError>,
    input: Seq<(usize, char)>,
)
    ensures
        forall|j: int|
            0 <= j < scan(alpha, st, errs, input).0.len() ==> st.contains(
                #[trigger] scan(alpha, st, errs, input).0[j],
            ) || input_has_pos(input, scan(alpha, st, errs, input).0[j].1),
        forall|j: int|
            0 <= j < scan(alpha, st, errs, input).1.len() ==> errs.contains(
                #[trigger] scan(alpha, st, errs, input).1[j],
            ) || input_has_pos(input, scan(alpha, st, errs, input).1[j].index),
    decreases input.len(),
{
    if input.len() == 0 {
    } else {
        let pos = input[0].0;
        let ch = input[0].1;
        let next = scan_step(alpha, st, errs, pos, ch);
        let tail = input.drop_first();
        lemma_scan_positions(alpha, next.0, next.1, tail);
        let end = scan(alpha, st, errs, input);
        assert(input_has_pos(input, pos)) by {
            assert(input[0].0 == pos);
        }
        assert forall|p: usize| input_has_pos(tail, p) implies input_has_pos(input, p) by {
            let i = choose|i: int| 0 <= i < tail.len() && tail[i].0 == p;
            assert(input[i + 1].0 == p);
        }
        assert forall|f: (char, usize)| next.0.contains(f) implies st.contains(f)
            || input_has_pos(input, f.1) by {
            if spec_is_opener(alpha, ch) {
                let j = choose|j: int| 0 <= j < next.0.len() && next.0[j] == f;
                if j < st.len() {
                    assert(st[j] == f);
                } else {
                    assert(f.1 == pos);
                }
            } else if spec_is_closer(alpha, ch) && st.len() > 0 {
                let j = choose|j: int| 0 <= j < next.0.len() && next.0[j] == f;
                assert(st[j] == f);
            }
        }
        assert forall|e: BracketError| next.1.contains(e) implies errs.contains(e)
            || input_has_pos(input, e.index) by {
            if spec_is_opener(alpha, ch) || !spec_is_closer(alpha, ch) || (st.len() > 0 && ch
                == st.last().0) {
                assert(next.1 == errs);
            } else {
                let e0 = if st.len() == 0 {
                    BracketError { index: pos, kind: BracketErrorKind::UnexpectedClosing { found: ch } }
                } else {
                    BracketError {
                        index: pos,
                        kind: BracketErrorKind::MismatchedPair { expected: st.last().0, found: ch },
                    }
                };
                assert(next.1 == errs.push(e0));
                vstd::seq_lib::lemma_seq_contains_after_push(errs, e0, e);
            }
        }
        assert forall|j: int| 0 <= j < end.0.len() implies st.contains(#[trigger] end.0[j])
            || input_has_pos(input, end.0[j].1) by {
            assert(next.0.contains(end.0[j]) || input_has_pos(tail, end.0[j].1));
        }
        assert forall|j: int| 0 <= j < end.1.len() implies errs.contains(#[trigger] end.1[j])
            || input_has_pos(input, end.1[j].index) by {
            assert(next.1.contains(end.1[j]) || input_has_pos(tail, end.1[j].index));
        }
    }
}

/// Every error of a report points at a position one of the input items
/// stands at; the unclosed-openings report names such a position twice.
pub proof fn lemma_reported_positions_come_from_input(
    alpha: Seq<(char, char)>,
    mode: ErrorMode,
    policy: UnclosedPolicy,
    input: Seq<(usize, char)>,
)
    ensures
        forall|j: int|
            0 <= j < reported_errors(alpha, mode, policy, input).len() ==> input_has_pos(
                input,
                #[trigger] reported_errors(alpha, mode, policy, input)[j].index,
            ),
{
    let st0 = Seq::<(char, usize)>::empty();
    let errs0 = Seq::<BracketError>::empty();
    lemma_scan_positions(alpha, st0, errs0, input);
    let end = scan(alpha, st0, errs0, input);
    let all = all_errors(alpha, policy, input);
    assert forall|j: int| 0 <= j < all.len() implies input_has_pos(
        input,
        #[trigger] all[j].index,
    ) by {
        if j < end.1.len() {
            assert(all[j] == end.1[j]);
            assert(end.1.contains(end.1[j]));
        } else {
            let frame = match policy {
                UnclosedPolicy::LatestOpen => end.0.last(),
                UnclosedPolicy::EarliestOpen => end.0[0],
            };
            assert(end.0.contains(frame));
            assert(all[j].index == frame.1);
        }
    }
    let es = reported_errors(alpha, mode, policy, input);
    assert forall|j: int| 0 <= j < es.len() implies input_has_pos(
        input,
        #[trigger] es[j].index,
    ) by {
        if mode is StopAtFirst && all.len() > 0 {
            assert(es[j] == all[0]);
        } else {
            assert(es[j] == all[j]);
        }
    }
}

/// For input derived from a string, every reported position is the byte
/// offset at which one of the string's characters starts. The bound on
/// the encoded length only says that the text fits in memory.
pub proof fn lemma_string_positions_are_byte_offsets(
    alpha: Seq<(char, char)>,
    mode: ErrorMode,
    policy: UnclosedPolicy,
    s: Seq<char>,
)
    requires
        vstd::utf8::encode_utf8(s).len() <= usize::MAX,
    ensures
        forall|j: int|
            0 <= j < reported_errors(alpha, mode, policy, byte_positions(s)).len() ==> exists|
                i: int,
            |
                0 <= i < s.len() && #[trigger] reported_errors(
                    alpha,
                    mode,
                    policy,
                    byte_positions(s),
                )[j].index == vstd::utf8::encode_utf8(s.take(i)).len(),
{
    let input = byte_positions(s);
    lemma_reported_positions_come_from_input(alpha, mode, policy, input);
    let es = reported_errors(alpha, mode, policy, input);
    assert forall|j: int| 0 <= j < es.len() implies exists|i: int|
        0 <= i < s.len() && #[trigger] es[j].index == vstd::utf8::encode_utf8(s.take(i)).len() by {
        let i = choose|i: int| 0 <= i < input.len() && input[i].0 == es[j].index;
        assert(s =~= s.take(i) + s.skip(i));
        lemma_encode_utf8_append(s.take(i), s.skip(i));
        assert(vstd::utf8::encode_utf8(s.take(i)).len() <= usize::MAX);
        assert(input[i].0 == vstd::utf8::encode_utf8(s.take(i)).len());
    }
}

} // verus!
