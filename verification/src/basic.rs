//! Plain bracket validation over the fixed alphabet `()`, `[]`, `{}`.
//!
//! This is the configurable validator specialised to its defaults: the
//! standard three pairs, stop at the first error, and report the most
//! recently opened bracket when openers remain unclosed. The contract is
//! stated over the same specification model, with [`default_pairs`] as
//! the alphabet; the implementation is a single pass of its own, built
//! directly on the [`Stack`].

use crate::extended::all_errors;
use crate::extended::byte_positions;
use crate::extended::default_pairs;
use crate::extended::lemma_encode_utf8_take_succ;
use crate::extended::lemma_first_error_stands;
use crate::extended::lemma_scan_snoc;
use crate::extended::reported_errors;
use crate::extended::scan;
use crate::extended::spec_closer_for;
use crate::extended::spec_is_closer;
use crate::extended::ErrorMode;
use crate::extended::UnclosedPolicy;
use crate::stack::Stack;
use vstd::prelude::*;
use vstd::std_specs::iter::IteratorSpec;

pub use crate::extended::BracketError;
pub use crate::extended::BracketErrorKind;

verus! {

broadcast use vstd::seq::group_seq_axioms;

proof fn lemma_default_closer_cases(c: char)
    ensures
        spec_closer_for(default_pairs(), c) == (if c == '(' {
            Some(')')
        } else if c == '[' {
            Some(']')
        } else if c == '{' {
            Some('}')
        } else {
            None::<char>
        }),
{
    reveal_with_fuel(spec_closer_for, 5);
    let d = default_pairs();
    assert(d.drop_last() =~= seq![('(', ')'), ('[', ']')]);
    assert(seq![('(', ')'), ('[', ']')].drop_last() =~= seq![('(', ')')]);
    assert(seq![('(', ')')].drop_last() =~= Seq::<(char, char)>::empty());
}

proof fn lemma_default_closer_chars(c: char)
    ensures
        spec_is_closer(default_pairs(), c) == (c == ')' || c == ']' || c == '}'),
{
    let d = default_pairs();
    assert(d[0] == ('(', ')') && d[1] == ('[', ']') && d[2] == ('{', '}'));
    if c == ')' || c == ']' || c == '}' {
        assert(spec_is_closer(d, c));
    } else {
        assert(forall|i: int| 0 <= i < 3 ==> #[trigger] d[i].1 != c);
    }
}

/// The closing character required for an opening bracket of the fixed
/// alphabet, or `None` when `c` is not one of `(`, `[`, `{`.
fn opening_to_expected_closer(c: char) -> (r: Option<char>)
    ensures
        r == spec_closer_for(default_pairs(), c),
{
    proof {
        lemma_default_closer_cases(c);
    }
    match c {
        '(' => Some(')'),
        '[' => Some(']'),
        '{' => Some('}'),
        _ => None,
    }
}

/// True exactly when `c` is a closing bracket of the fixed alphabet.
fn is_closing(c: char) -> (r: bool)
    ensures
        r == spec_is_closer(default_pairs(), c),
{
    proof {
        lemma_default_closer_chars(c);
    }
    matches!(c, ')' | ']' | '}')
}

/// Validates that the brackets of `s` are properly matched and nested,
/// ignoring every other character, and returns the earliest error when
/// they are not. Positions are byte offsets into `s`.
///
/// The reported error is exactly the first entry of the error list the
/// specification model assigns to this string under the default
/// configuration.
pub fn validate_brackets(s: &str) -> (r: Result<(), BracketError>)
    ensures
        ({
            let es = reported_errors(
                default_pairs(),
                ErrorMode::StopAtFirst,
                UnclosedPolicy::LatestOpen,
                byte_positions(s@),
            );
            match r {
                Ok(()) => es.len() == 0,
                Err(e) => es.len() > 0 && e == es[0],
            }
        }),
{
    broadcast use vstd::string::group_string_axioms;

    let ghost alpha = default_pairs();
    let ghost input = byte_positions(s@);
    let ghost none = Seq::<BracketError>::empty();
    let mut st: Stack<(char, usize)> = Stack::new();
    let total = s.as_bytes().len();
    let mut idx: usize = 0;
    let mut it = s.chars();
    let ghost mut k: int = 0;
    proof {
        assert(s@.skip(0) =~= s@);
        assert(s@.take(0) =~= Seq::<char>::empty());
        assert(input.take(0) =~= Seq::<(usize, char)>::empty());
    }
    loop
        invariant
            0 <= k <= s@.len(),
            alpha == default_pairs(),
            input == byte_positions(s@),
            none == Seq::<BracketError>::empty(),
            it.obeys_prophetic_iter_laws(),
            it.remaining() == s@.skip(k),
            idx == vstd::utf8::encode_utf8(s@.take(k)).len(),
            total == vstd::utf8::encode_utf8(s@).len(),
            st@ == scan(alpha, Seq::empty(), none, input.take(k)).0,
            scan(alpha, Seq::empty(), none, input.take(k)).1 == none,
        ensures
            k == s@.len(),
            st@ == scan(alpha, Seq::empty(), none, input).0,
            scan(alpha, Seq::empty(), none, input).1 == none,
        decreases s@.len() - k,
    {
        let next = it.next();
        match next {
            Some(ch) => {
                proof {
                    assert(s@.skip(k)[0] == s@[k]);
                    assert(s@.skip(k).drop_first() =~= s@.skip(k + 1));
                    lemma_encode_utf8_take_succ(s@, k);
                    lemma_scan_snoc(alpha, Seq::empty(), none, input, k);
                    assert(input[k] == (idx, ch));
                }
                if let Some(expected) = opening_to_expected_closer(ch) {
                    st.push((expected, idx));
                } else if is_closing(ch) {
                    match st.pop() {
                        None => {
                            let e = BracketError {
                                index: idx,
                                kind: BracketErrorKind::UnexpectedClosing { found: ch },
                            };
                            proof {
                                assert(scan(alpha, Seq::empty(), none, input.take(k + 1)).1
                                    =~= seq![e]);
                                lemma_first_error_stands(
                                    alpha,
                                    UnclosedPolicy::LatestOpen,
                                    input,
                                    k,
                                    e,
                                );
                            }
                            return Err(e);
                        },
                        Some(frame) => {
                            if ch != frame.0 {
                                let e = BracketError {
                                    index: idx,
                                    kind: BracketErrorKind::MismatchedPair {
                                        expected: frame.0,
                                        found: ch,
                                    },
                                };
                                proof {
                                    assert(scan(alpha, Seq::empty(), none, input.take(k + 1)).1
                                        =~= seq![e]);
                                    lemma_first_error_stands(
                                        alpha,
                                        UnclosedPolicy::LatestOpen,
                                        input,
                                        k,
                                        e,
                                    );
                                }
                                return Err(e);
                            }
                        },
                    }
                }
                let w = crate::extended::utf8_len(ch);
                idx += w;
                proof {
                    k = k + 1;
                }
            },
            None => {
                proof {
                    assert(k == s@.len());
                    assert(input.take(k) =~= input);
                }
                break ;
            },
        }
    }
    if let Some(frame) = st.pop() {
        let e = BracketError {
            index: frame.1,
            kind: BracketErrorKind::UnclosedOpenings { expected: frame.0, open_index: frame.1 },
        };
        proof {
            let end = scan(alpha, Seq::<(char, usize)>::empty(), none, input);
            assert(all_errors(alpha, UnclosedPolicy::LatestOpen, input) == none.push(e));
            assert(none.push(e)[0] == e);
            assert(all_errors(alpha, UnclosedPolicy::LatestOpen, input)[0] == e);
        }
        return Err(e);
    }
    Ok(())
}

} // verus!
