//! The escape sequences that the automaton accepts, described directly.
use crate::ansi::{
    code_at, first_start, is_code, is_digit, is_final_char, is_lead, longest_end, next_code, run,
    starts_code, State,
};
use vstd::prelude::*;

verus! {

/// A character that may come between the lead and the parameters.
pub open spec fn is_marker(c: char) -> bool {
    c == '[' || c == '(' || c == ')' || c == '#' || c == ';' || c == '?'
}

pub open spec fn is_paren(c: char) -> bool {
    c == '(' || c == ')'
}

/// A digit that designates a character set after a parenthesis.
pub open spec fn is_low_digit(c: char) -> bool {
    '0' <= c <= '2'
}

/// The length of the run of digits that ends just before position `n`.
pub open spec fn digit_run(w: Seq<char>, n: int) -> nat
    decreases n,
{
    if n <= 0 || n > w.len() {
        0
    } else if is_digit(w[n - 1]) {
        1 + digit_run(w, n - 1)
    } else {
        0
    }
}

/// Where the markers that start at `i` end.
pub open spec fn markers_end(w: Seq<char>, i: int) -> int
    decreases w.len() - i,
{
    if 0 <= i < w.len() && is_marker(w[i]) {
        markers_end(w, i + 1)
    } else {
        i
    }
}

/// After the lead, `w` holds markers and then parameters: digits and
/// semicolons, starting with a digit, with at most four digits before each
/// semicolon. A lone parenthesis followed by 0, 1 or 2 designates a character
/// set instead.
pub open spec fn params(w: Seq<char>) -> bool {
    let k = markers_end(w, 1);
    &&& 1 <= k < w.len()
    &&& is_digit(w[k])
    &&& !(k == 2 && is_paren(w[1]) && is_low_digit(w[2]))
    &&& forall|i: int| k <= i < w.len() ==> is_digit(#[trigger] w[i]) || w[i] == ';'
    &&& forall|i: int| k <= i < w.len() && #[trigger] w[i] == ';' ==> digit_run(w, i) <= 4
}

/// An ANSI escape sequence: a lead character, then either a character-set
/// designation (a parenthesis and 0, 1 or 2), or markers and parameters
/// that end in a digit (at most five digits in the last run), or markers and
/// parameters, if any, followed by one final character (at most four digits
/// right before it).
pub open spec fn ansi_sequence(w: Seq<char>) -> bool {
    let n = w.len() as int;
    &&& n >= 2
    &&& is_lead(w[0])
    &&& {
        ||| (n == 3 && is_paren(w[1]) && is_low_digit(w[2]))
        ||| (params(w) && is_digit(w[n - 1]) && digit_run(w, n) <= 5)
        ||| (is_final_char(w[n - 1]) && (markers_end(w.drop_last(), 1) >= n - 1 || (params(
            w.drop_last(),
        ) && (w[n - 2] == ';' || digit_run(w, n - 1) <= 4))))
    }
}

/// The state that the automaton reaches on `w`, described directly.
pub open spec fn expected_state(w: Seq<char>) -> State {
    let n = w.len() as int;
    if n == 0 {
        State::Start
    } else if !is_lead(w[0]) {
        State::Trap
    } else if n == 1 {
        State::S1
    } else if n == 2 && is_paren(w[1]) {
        State::S2
    } else if n == 3 && is_paren(w[1]) && is_low_digit(w[2]) {
        State::S3
    } else if markers_end(w, 1) >= n {
        State::S4
    } else if params(w) && is_digit(w[n - 1]) && digit_run(w, n) <= 5 {
        let r = digit_run(w, n);
        if r == 1 {
            State::S5
        } else if r == 2 {
            State::S6
        } else if r == 3 {
            State::S7
        } else if r == 4 {
            State::S8
        } else {
            State::S9
        }
    } else if params(w) && w[n - 1] == ';' {
        State::S10
    } else if is_final_char(w[n - 1]) && (markers_end(w.drop_last(), 1) >= n - 1 || (params(
        w.drop_last(),
    ) && (w[n - 2] == ';' || digit_run(w, n - 1) <= 4))) {
        State::S11
    } else {
        State::Trap
    }
}

pub proof fn lemma_digit_run_push(w: Seq<char>, c: char, i: int)
    requires
        i <= w.len(),
    ensures
        digit_run(w.push(c), i) == digit_run(w, i),
    decreases i,
{
    if i > 0 {
        lemma_digit_run_push(w, c, i - 1);
    }
}

pub proof fn lemma_markers_end_push(w: Seq<char>, c: char, i: int)
    requires
        0 <= i <= w.len(),
    ensures
        markers_end(w, i) < w.len() ==> markers_end(w.push(c), i) == markers_end(w, i),
        markers_end(w, i) >= w.len() ==> markers_end(w.push(c), i) == if is_marker(c) {
            w.len() + 1int
        } else {
            w.len() as int
        },
        i <= markers_end(w, i) <= w.len(),
        forall|j: int| i <= j < markers_end(w, i) ==> is_marker(#[trigger] w[j]),
        markers_end(w, i) < w.len() ==> !is_marker(w[markers_end(w, i)]),
    decreases w.len() - i,
{
    if i < w.len() && is_marker(w[i]) {
        lemma_markers_end_push(w, c, i + 1);
    } else if i == w.len() {
        let v = w.push(c);
        if is_marker(c) {
            assert(markers_end(v, i + 1) == i + 1);
        }
    }
}

/// How the parameters change when a character is added.
pub proof fn lemma_params_push(v: Seq<char>, c: char)
    requires
        v.len() >= 1,
    ensures
        ({
            let n = v.len() as int;
            let w = v.push(c);
            &&& markers_end(v, 1) < n ==> params(w) == (params(v) && (is_digit(c) || c == ';') && (c
                == ';' ==> digit_run(v, n) <= 4))
            &&& markers_end(v, 1) >= n ==> params(w) == (is_digit(c) && !(n == 2 && is_paren(v[1])
                && is_low_digit(c)))
            &&& markers_end(v, 1) >= n ==> !params(v)
        }),
{
    let n = v.len() as int;
    let w = v.push(c);
    lemma_markers_end_push(v, c, 1);
    assert forall|i: int| i <= n implies digit_run(w, i) == digit_run(v, i) by {
        lemma_digit_run_push(v, c, i);
    }
    let k = markers_end(v, 1);
    if k < n {
        assert(markers_end(w, 1) == k);
        if params(w) {
            assert forall|i: int| k <= i < n implies is_digit(#[trigger] v[i]) || v[i] == ';' by {
                assert(w[i] == v[i]);
            }
            assert forall|i: int| k <= i < n && #[trigger] v[i] == ';' implies digit_run(v, i)
                <= 4 by {
                assert(w[i] == v[i]);
            }
            assert(w[n] == c);
        }
        if params(v) && (is_digit(c) || c == ';') && (c == ';' ==> digit_run(v, n) <= 4) {
            assert forall|i: int| k <= i < w.len() implies is_digit(#[trigger] w[i]) || w[i]
                == ';' by {
                if i < n {
                    assert(w[i] == v[i]);
                }
            }
            assert forall|i: int| k <= i < w.len() && #[trigger] w[i] == ';' implies digit_run(
                w,
                i,
            ) <= 4 by {
                if i < n {
                    assert(w[i] == v[i]);
                }
            }
        }
    } else {
        if !is_marker(c) {
            assert(markers_end(w, 1) == n);
            if is_digit(c) && !(n == 2 && is_paren(v[1]) && is_low_digit(c)) {
                assert forall|i: int| n <= i < w.len() implies is_digit(#[trigger] w[i]) || w[i]
                    == ';' by {
                    assert(i == n);
                }
                assert forall|i: int| n <= i < w.len() && #[trigger] w[i] == ';' implies digit_run(
                    w,
                    i,
                ) <= 4 by {
                    assert(i == n);
                }
            }
            if params(w) {
                assert(w[n] == c);
                if n == 2 {
                    assert(w[1] == v[1]);
                }
            }
        }
    }
}

/// Adding one character moves the described state as the automaton does.
pub proof fn lemma_step_expected(v: Seq<char>, c: char)
    ensures
        expected_state(v.push(c)) == expected_state(v).step(c),
{
    let w = v.push(c);
    let n = v.len() as int;
    assert(w.drop_last() =~= v);
    assert(w[n] == c);
    assert forall|i: int| 0 <= i < n implies w[i] == v[i] by {}
    if n >= 1 && is_lead(v[0]) {
        lemma_markers_end_push(v, c, 1);
        lemma_params_push(v, c);
        assert forall|i: int| i <= n implies digit_run(w, i) == digit_run(v, i) by {
            lemma_digit_run_push(v, c, i);
        }
        assert(digit_run(w, n + 1) == if is_digit(c) { 1 + digit_run(v, n) } else { 0 });
    }
}

/// The automaton reaches the state that `expected_state` describes.
pub proof fn lemma_run_expected(w: Seq<char>)
    ensures
        run(State::Start, w) == expected_state(w),
    decreases w.len(),
{
    if w.len() > 0 {
        let v = w.drop_last();
        lemma_run_expected(v);
        assert(v.push(w.last()) =~= w);
        lemma_step_expected(v, w.last());
    }
}

/// The automaton accepts exactly the ANSI escape sequences.
pub proof fn law_code_is_ansi_sequence(w: Seq<char>)
    ensures
        is_code(w) == ansi_sequence(w),
{
    lemma_run_expected(w);
}

/// No sequence that starts at `a` ends after `longest_end` and by `k`.
pub proof fn lemma_longest_is_max(s: Seq<char>, a: int, k: int)
    ensures
        forall|e: int| longest_end(s, a, k) < e <= k ==> !code_at(s, a, e),
    decreases k - a,
{
    if k > a && !code_at(s, a, k) {
        lemma_longest_is_max(s, a, k - 1);
    }
}

/// No sequence starts between `from` and the first start.
pub proof fn lemma_first_start_is_min(s: Seq<char>, from: int)
    requires
        0 <= from,
    ensures
        forall|q: int| from <= q < first_start(s, from) ==> !starts_code(s, q),
    decreases s.len() - from,
{
    if from < s.len() && !starts_code(s, from) {
        lemma_first_start_is_min(s, from + 1);
    }
}

/// Where no sequence starts at `q`, none of any length does.
pub proof fn lemma_no_start(s: Seq<char>, q: int, k: int)
    requires
        0 <= q,
        !starts_code(s, q),
    ensures
        !code_at(s, q, k),
{
    lemma_longest_is_max(s, q, s.len() as int);
}

/// The search for the next escape sequence from `from` on finds the leftmost
/// position at which an ANSI sequence starts and, of the sequences that start
/// there, the longest; it finds nothing where no ANSI sequence lies in the
/// text from `from` on.
pub proof fn law_next_code_leftmost_longest(s: Seq<char>, from: int)
    requires
        0 <= from <= s.len(),
    ensures
        match next_code(s, from) {
            Some((a, b)) => {
                &&& from <= a < b <= s.len()
                &&& ansi_sequence(s.subrange(a, b))
                &&& forall|k: int| b < k <= s.len() ==> !ansi_sequence(#[trigger] s.subrange(a, k))
                &&& forall|q: int, k: int|
                    from <= q < a && q < k <= s.len() ==> !ansi_sequence(#[trigger] s.subrange(q, k))
            },
            None => forall|q: int, k: int|
                from <= q < k <= s.len() ==> !ansi_sequence(#[trigger] s.subrange(q, k)),
        },
{
    crate::ansi::lemma_next_code_range(s, from);
    crate::ansi::lemma_first_start_range(s, from);
    lemma_first_start_is_min(s, from);
    assert forall|q: int, k: int| 0 <= q < k <= s.len() implies ansi_sequence(
        #[trigger] s.subrange(q, k),
    ) == code_at(s, q, k) by {
        law_code_is_ansi_sequence(s.subrange(q, k));
    }
    let a = first_start(s, from);
    assert forall|q: int, k: int| from <= q < a && q < k <= s.len() implies !code_at(s, q, k) by {
        lemma_no_start(s, q, k);
    }
    if a < s.len() {
        lemma_longest_is_max(s, a, s.len() as int);
    }
}

} // verus!
