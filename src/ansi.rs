//! Recognition of ANSI escape sequences inside text.
use std::borrow::Cow;
use vstd::prelude::*;
use vstd::string::*;

verus! {

/// A state of the automaton that recognizes one escape sequence.
#[derive(Debug, Clone, Copy, PartialEq, Eq, Structural)]
pub enum State {
    Start,
    S1,
    S2,
    S3,
    S4,
    S5,
    S6,
    S7,
    S8,
    S9,
    S10,
    S11,
    Trap,
}

/// A character that opens an escape sequence: ESC or the single-byte CSI.
pub open spec fn is_lead(c: char) -> bool {
    c == '\u{1b}' || c == '\u{9b}'
}

/// A character that ends a control sequence.
pub open spec fn is_final_char(c: char) -> bool {
    ('A' <= c && c <= 'P') || c == 'R' || c == 'Z' || c == 'c' || ('f' <= c && c <= 'n')
        || c == 'q' || c == 'r' || c == 'y' || c == '=' || c == '>' || c == '<'
}

pub open spec fn is_digit(c: char) -> bool {
    '0' <= c && c <= '9'
}

impl State {
    /// The states in which the characters read so far form a complete sequence.
    pub open spec fn accepting(self) -> bool {
        self is S3 || self is S5 || self is S6 || self is S7 || self is S8 || self is S9
            || self is S11
    }

    /// The transition table of the automaton.
    pub open spec fn step(self, c: char) -> State {
        if is_lead(c) {
            if self is Start { State::S1 } else { State::Trap }
        } else if c == '(' || c == ')' {
            match self {
                State::S1 => State::S2,
                State::S2 | State::S4 => State::S4,
                _ => State::Trap,
            }
        } else if c == ';' {
            match self {
                State::S1 | State::S2 | State::S4 => State::S4,
                State::S5 | State::S6 | State::S7 | State::S8 | State::S10 => State::S10,
                _ => State::Trap,
            }
        } else if c == '[' || c == '#' || c == '?' {
            match self {
                State::S1 | State::S2 | State::S4 => State::S4,
                _ => State::Trap,
            }
        } else if is_digit(c) {
            match self {
                State::S1 | State::S4 | State::S10 => State::S5,
                State::S2 => if c <= '2' { State::S3 } else { State::S5 },
                State::S5 => State::S6,
                State::S6 => State::S7,
                State::S7 => State::S8,
                State::S8 => State::S9,
                _ => State::Trap,
            }
        } else if is_final_char(c) {
            match self {
                State::S1 | State::S2 | State::S4 | State::S5 | State::S6 | State::S7 | State::S8
                | State::S10 => State::S11,
                _ => State::Trap,
            }
        } else {
            State::Trap
        }
    }

    pub fn is_final(&self) -> (r: bool)
        ensures
            r == self.accepting(),
    {
        match self {
            State::S3 | State::S5 | State::S6 | State::S7 | State::S8 | State::S9 | State::S11 => true,
            _ => false,
        }
    }

    pub fn is_trapped(&self) -> (r: bool)
        ensures
            r == (*self == State::Trap),
    {
        match self {
            State::Trap => true,
            _ => false,
        }
    }

    pub fn transition(&mut self, c: char)
        ensures
            *final(self) == old(self).step(c),
    {
        let lead = c == '\u{1b}' || c == '\u{9b}';
        *self = if lead {
            match self {
                State::Start => State::S1,
                _ => State::Trap,
            }
        } else if c == '(' || c == ')' {
            match self {
                State::S1 => State::S2,
                State::S2 | State::S4 => State::S4,
                _ => State::Trap,
            }
        } else if c == ';' {
            match self {
                State::S1 | State::S2 | State::S4 => State::S4,
                State::S5 | State::S6 | State::S7 | State::S8 | State::S10 => State::S10,
                _ => State::Trap,
            }
        } else if c == '[' || c == '#' || c == '?' {
            match self {
                State::S1 | State::S2 | State::S4 => State::S4,
                _ => State::Trap,
            }
        } else if '0' <= c && c <= '9' {
            match self {
                State::S1 | State::S4 | State::S10 => State::S5,
                State::S2 => if c <= '2' { State::S3 } else { State::S5 },
                State::S5 => State::S6,
                State::S6 => State::S7,
                State::S7 => State::S8,
                State::S8 => State::S9,
                _ => State::Trap,
            }
        } else if ('A' <= c && c <= 'P') || c == 'R' || c == 'Z' || c == 'c' || ('f' <= c && c
            <= 'n') || c == 'q' || c == 'r' || c == 'y' || c == '=' || c == '>' || c == '<' {
            match self {
                State::S1 | State::S2 | State::S4 | State::S5 | State::S6 | State::S7 | State::S8
                | State::S10 => State::S11,
                _ => State::Trap,
            }
        } else {
            State::Trap
        };
    }
}

impl Default for State {
    fn default() -> (r: State)
        ensures
            r == State::Start,
    {
        State::Start
    }
}

/// The state reached from `st` after reading `w`.
pub open spec fn run(st: State, w: Seq<char>) -> State
    decreases w.len(),
{
    if w.len() == 0 {
        st
    } else {
        run(st, w.drop_last()).step(w.last())
    }
}

/// `w` is one complete escape sequence: the automaton accepts it. The grammar
/// module describes these sequences directly and proves the two agree.
pub open spec fn is_code(w: Seq<char>) -> bool {
    run(State::Start, w).accepting()
}

/// `s[a..b]` is an escape sequence.
pub open spec fn code_at(s: Seq<char>, a: int, b: int) -> bool {
    0 <= a < b <= s.len() && is_code(s.subrange(a, b))
}

/// The end of the longest escape sequence that starts at `a` and ends at or
/// before `k`; `a` itself where there is none.
pub open spec fn longest_end(s: Seq<char>, a: int, k: int) -> int
    decreases k - a,
{
    if k <= a {
        a
    } else if code_at(s, a, k) {
        k
    } else {
        longest_end(s, a, k - 1)
    }
}

/// Some escape sequence starts at `a`.
pub open spec fn starts_code(s: Seq<char>, a: int) -> bool {
    longest_end(s, a, s.len() as int) > a
}

/// The first position at or after `i` where an escape sequence starts; the
/// length of `s` where there is none.
pub open spec fn first_start(s: Seq<char>, i: int) -> int
    decreases s.len() - i,
{
    if i >= s.len() {
        s.len() as int
    } else if starts_code(s, i) {
        i
    } else {
        first_start(s, i + 1)
    }
}

/// The span of the next escape sequence at or after `i`: the leftmost one,
/// and of those that start there, the longest.
pub open spec fn next_code(s: Seq<char>, i: int) -> Option<(int, int)> {
    let a = first_start(s, i);
    if a < s.len() {
        Some((a, longest_end(s, a, s.len() as int)))
    } else {
        None
    }
}

pub proof fn lemma_trap_absorbs(w: Seq<char>)
    ensures
        run(State::Trap, w) == State::Trap,
    decreases w.len(),
{
    if w.len() > 0 {
        lemma_trap_absorbs(w.drop_last());
    }
}

pub proof fn lemma_run_concat(st: State, u: Seq<char>, v: Seq<char>)
    ensures
        run(st, u + v) == run(run(st, u), v),
    decreases v.len(),
{
    if v.len() > 0 {
        assert((u + v).drop_last() =~= u + v.drop_last());
        lemma_run_concat(st, u, v.drop_last());
    } else {
        assert(u + v =~= u);
    }
}

/// No escape sequence starts at a character that is not a lead character.
pub proof fn lemma_no_code_at_plain(s: Seq<char>, a: int, k: int)
    requires
        0 <= a < s.len(),
        !is_lead(s[a]),
    ensures
        !code_at(s, a, k),
{
    if a < k <= s.len() {
        let w = s.subrange(a, k);
        assert(w =~= seq![s[a]] + w.drop_first());
        lemma_run_concat(State::Start, seq![s[a]], w.drop_first());
        assert(seq![s[a]].drop_last() =~= Seq::<char>::empty());
        assert(run(State::Start, Seq::<char>::empty()) == State::Start);
        assert(run(State::Start, seq![s[a]]) == State::Trap);
        lemma_trap_absorbs(w.drop_first());
    }
}

/// Once the automaton is trapped, no longer sequence is complete.
pub proof fn lemma_longest_past_trap(s: Seq<char>, a: int, t: int, k: int)
    requires
        0 <= a < t <= k <= s.len(),
        run(State::Start, s.subrange(a, t)) == State::Trap,
    ensures
        longest_end(s, a, k) == longest_end(s, a, t - 1),
    decreases k - t,
{
    if k > t {
        let w = s.subrange(a, k);
        assert(w =~= s.subrange(a, t) + s.subrange(t, k));
        lemma_run_concat(State::Start, s.subrange(a, t), s.subrange(t, k));
        lemma_trap_absorbs(s.subrange(t, k));
        lemma_longest_past_trap(s, a, t, k - 1);
    }
}

pub proof fn lemma_longest_bounds(s: Seq<char>, a: int, k: int)
    ensures
        a <= k ==> a <= longest_end(s, a, k) <= k,
        longest_end(s, a, k) > a ==> code_at(s, a, longest_end(s, a, k)),
    decreases k - a,
{
    if k > a && !code_at(s, a, k) {
        lemma_longest_bounds(s, a, k - 1);
    }
}

/// Positions where no escape sequence starts do not move the next start.
pub proof fn lemma_first_start_skip(s: Seq<char>, i: int, j: int)
    requires
        0 <= i <= j <= s.len(),
        forall|p: int| i <= p < j ==> !starts_code(s, p),
    ensures
        first_start(s, i) == first_start(s, j),
    decreases j - i,
{
    if i < j {
        lemma_first_start_skip(s, i + 1, j);
    }
}

/// Finds the next escape sequence in `s` at or after position `i`, as the
/// automaton does: greedily, up to the last accepting state before the trap.
pub fn find_ansi_code_exclusive(s: &Vec<char>, from: usize) -> (r: Option<(usize, usize)>)
    requires
        from <= s@.len(),
    ensures
        match r {
            Some((a, b)) => next_code(s@, from as int) == Some((a as int, b as int)),
            None => next_code(s@, from as int) is None,
        },
{
    let n = s.len();
    let mut i = from;
    let ghost i0 = from as int;
    while i < n
        invariant
            i0 == from,
            i0 <= i <= n == s@.len(),
            first_start(s@, i0) == first_start(s@, i as int),
        decreases n - i,
    {
        let c = s[i];
        if c == '\u{1b}' || c == '\u{9b}' {
            let mut state = State::Start;
            let mut best: Option<usize> = None;
            let mut j = i;
            let mut trapped = false;
            while j < n && !trapped
                invariant
                    i <= j <= n == s@.len(),
                    i0 == from,
                    first_start(s@, i0) == first_start(s@, i as int),
                    i < n,
                    is_lead(s@[i as int]),
                    !trapped ==> state == run(State::Start, s@.subrange(i as int, j as int)),
                    trapped ==> j < n && run(State::Start, s@.subrange(i as int, j + 1)) == State::Trap,
                    j > i ==> state != State::Start,
                    trapped ==> j > i,
                    forall|q: int| i < q < j ==> !is_lead(#[trigger] s@[q]),
                    match best {
                        Some(e) => i <= e < j && longest_end(s@, i as int, j as int) == e + 1,
                        None => longest_end(s@, i as int, j as int) == i,
                    },
                decreases 2 * (n - j) + if trapped { 0int } else { 1int },
            {
                let ghost prev = state;
                state.transition(s[j]);
                assert(s@.subrange(i as int, j + 1).drop_last() =~= s@.subrange(i as int, j as int));
                if state.is_trapped() {
                    trapped = true;
                } else {
                    if state.is_final() {
                        best = Some(j);
                    }
                    proof {
                        if j > i && is_lead(s@[j as int]) {
                            assert(prev != State::Start);
                        }
                    }
                    j = j + 1;
                }
            }
            proof {
                if trapped {
                    lemma_longest_past_trap(s@, i as int, j + 1, n as int);
                }
                assert(longest_end(s@, i as int, n as int) == longest_end(s@, i as int, j as int));
            }
            match best {
                Some(e) => {
                    proof {
                        assert(starts_code(s@, i as int));
                    }
                    return Some((i, e + 1));
                },
                None => {
                    proof {
                        assert(!starts_code(s@, i as int));
                        assert forall|q: int| i < q < j implies !starts_code(s@, q) by {
                            lemma_no_code_at_plain(s@, q, longest_end(s@, q, n as int));
                            lemma_longest_bounds(s@, q, n as int);
                        }
                        lemma_first_start_skip(s@, i as int, j as int);
                    }
                    if j >= n {
                        return None;
                    }
                    i = j;
                },
            }
        } else {
            proof {
                lemma_no_code_at_plain(s@, i as int, longest_end(s@, i as int, n as int));
                lemma_longest_bounds(s@, i as int, n as int);
            }
            i = i + 1;
        }
    }
    None
}

/// The characters of `s`, in order.
pub fn chars_of(s: &str) -> (v: Vec<char>)
    ensures
        v@ == s@,
{
    let mut v: Vec<char> = Vec::new();
    for c in it: s.chars()
        invariant
            v@ == it.seq().take(it.index() as int),
    {
        v.push(c);
    }
    assert(v@ =~= s@);
    v
}

/// Cuts `s` into literal runs and escape sequences, from position `from` on.
/// Each item is a run of text and whether it is an escape sequence.
pub open spec fn segments_from(s: Seq<char>, from: int) -> Seq<(Seq<char>, bool)>
    decreases s.len() - from,
{
    if from < 0 || from >= s.len() {
        seq![]
    } else {
        let rest_literal = seq![(s.subrange(from, s.len() as int), false)];
        match next_code(s, from) {
            Some((a, b)) => {
                if from <= a < b <= s.len() {
                    let code = seq![(s.subrange(a, b), true)];
                    if a > from {
                        seq![(s.subrange(from, a), false)] + code + segments_from(s, b)
                    } else {
                        code + segments_from(s, b)
                    }
                } else {
                    rest_literal
                }
            },
            None => rest_literal,
        }
    }
}

/// All segments of `s`.
pub open spec fn segments(s: Seq<char>) -> Seq<(Seq<char>, bool)> {
    segments_from(s, 0)
}

/// The texts of `segs`, joined.
pub open spec fn concat_texts(segs: Seq<(Seq<char>, bool)>) -> Seq<char>
    decreases segs.len(),
{
    if segs.len() == 0 {
        Seq::empty()
    } else {
        segs[0].0 + concat_texts(segs.drop_first())
    }
}

/// The texts of the segments of `segs` that are not escape sequences, joined.
pub open spec fn plain_texts(segs: Seq<(Seq<char>, bool)>) -> Seq<char>
    decreases segs.len(),
{
    if segs.len() == 0 {
        Seq::empty()
    } else {
        (if segs[0].1 { Seq::empty() } else { segs[0].0 }) + plain_texts(segs.drop_first())
    }
}

/// `s` with every escape sequence removed.
pub open spec fn strip(s: Seq<char>) -> Seq<char> {
    plain_texts(segments(s))
}

pub proof fn lemma_first_start_range(s: Seq<char>, i: int)
    requires
        0 <= i,
    ensures
        i <= s.len() ==> i <= first_start(s, i) <= s.len(),
        first_start(s, i) < s.len() ==> starts_code(s, first_start(s, i)),
    decreases s.len() - i,
{
    if i < s.len() && !starts_code(s, i) {
        lemma_first_start_range(s, i + 1);
    }
}

/// The span that `next_code` gives lies inside `s`, after `from`.
pub proof fn lemma_next_code_range(s: Seq<char>, from: int)
    requires
        0 <= from <= s.len(),
    ensures
        next_code(s, from) matches Some((a, b)) ==> from <= a < b <= s.len() && code_at(s, a, b),
{
    lemma_first_start_range(s, from);
    let a = first_start(s, from);
    if a < s.len() {
        lemma_longest_bounds(s, a, s.len() as int);
    }
}

/// Joining the segments of `s` from `from` on gives back `s` from `from` on.
pub proof fn lemma_segments_lossless(s: Seq<char>, from: int)
    requires
        0 <= from <= s.len(),
    ensures
        concat_texts(segments_from(s, from)) =~= s.subrange(from, s.len() as int),
    decreases s.len() - from,
{
    if from < s.len() {
        lemma_next_code_range(s, from);
        let m = next_code(s, from);
        let tail = s.subrange(from, s.len() as int);
        if m is Some {
            let (a, b) = m->0;
            let rest = segments_from(s, b);
            lemma_segments_lossless(s, b);
            let code = seq![(s.subrange(a, b), true)];
            assert((code + rest)[0] == (s.subrange(a, b), true));
            assert((code + rest).drop_first() =~= rest);
            assert(concat_texts(code + rest) == s.subrange(a, b) + concat_texts(rest));
            assert(s.subrange(a, b) + s.subrange(b, s.len() as int) =~= s.subrange(
                a,
                s.len() as int,
            ));
            if a > from {
                let lit = seq![(s.subrange(from, a), false)];
                assert((lit + code + rest)[0] == (s.subrange(from, a), false));
                assert((lit + code + rest).drop_first() =~= code + rest);
                assert(concat_texts(lit + code + rest) == s.subrange(from, a) + concat_texts(
                    code + rest,
                ));
                assert(s.subrange(from, a) + s.subrange(a, s.len() as int) =~= tail);
            }
        } else {
            let one = seq![(tail, false)];
            assert(one.drop_first() =~= Seq::<(Seq<char>, bool)>::empty());
            assert(concat_texts(one) == tail + concat_texts(one.drop_first()));
            assert(tail + Seq::<char>::empty() =~= tail);
        }
    } else {
        assert(s.subrange(from, s.len() as int) =~= Seq::<char>::empty());
    }
}

/// Text that holds no escape sequence is one literal segment.
pub proof fn lemma_strip_plain(s: Seq<char>)
    requires
        next_code(s, 0) is None,
    ensures
        strip(s) == s,
{
    if s.len() > 0 {
        let one = seq![(s.subrange(0, s.len() as int), false)];
        assert(segments(s) == one);
        assert(one.drop_first() =~= Seq::<(Seq<char>, bool)>::empty());
        assert(plain_texts(one) == s.subrange(0, s.len() as int) + plain_texts(one.drop_first()));
        assert(s.subrange(0, s.len() as int) + Seq::<char>::empty() =~= s);
    } else {
        assert(s =~= Seq::<char>::empty());
    }
}

/// One escape sequence found in a text.
pub struct Match<'a> {
    pub text: &'a str,
    pub start: usize,
    pub end: usize,
}

impl<'a> Match<'a> {
    /// The matched escape sequence.
    pub fn as_str(&self) -> (r: &'a str)
        requires
            self.start <= self.end <= self.text@.len(),
        ensures
            r@ == self.text@.subrange(self.start as int, self.end as int),
    {
        self.text.substring_char(self.start, self.end)
    }
}

/// The escape sequences of a text, from left to right.
pub struct Matches<'a> {
    s: &'a str,
    chars: Vec<char>,
    pos: usize,
}

impl<'a> Matches<'a> {
    pub closed spec fn text(&self) -> Seq<char> {
        self.s@
    }

    /// Where the search for the next escape sequence starts.
    pub closed spec fn position(&self) -> int {
        self.pos as int
    }

    pub closed spec fn wf(&self) -> bool {
        self.chars@ == self.s@ && self.pos <= self.chars@.len()
    }

    pub fn new(s: &'a str) -> (r: Matches<'a>)
        ensures
            r.wf(),
            r.text() == s@,
            r.position() == 0,
    {
        Matches { s, chars: chars_of(s), pos: 0 }
    }

    /// The next escape sequence: the leftmost one, and the longest of those
    /// that start there.
    pub fn next(&mut self) -> (r: Option<Match<'a>>)
        requires
            old(self).wf(),
        ensures
            final(self).wf(),
            final(self).text() == old(self).text(),
            match r {
                Some(m) => {
                    &&& next_code(old(self).text(), old(self).position()) == Some(
                        (m.start as int, m.end as int),
                    )
                    &&& m.text@ == old(self).text()
                    &&& final(self).position() == m.end
                },
                None => next_code(old(self).text(), old(self).position()) is None,
            },
    {
        match find_ansi_code_exclusive(&self.chars, self.pos) {
            Some((a, b)) => {
                proof {
                    lemma_next_code_range(self.chars@, self.pos as int);
                    assert(next_code(self.chars@, self.pos as int) == Some((a as int, b as int)));
                }
                self.pos = b;
                Some(Match { text: self.s, start: a, end: b })
            },
            None => None,
        }
    }
}

/// An iterator over the segments of a text: runs of literal text and escape
/// sequences, in order. Each item is a slice of the text and whether it is an
/// escape sequence.
pub struct AnsiCodeIterator<'a> {
    s: &'a str,
    chars: Vec<char>,
    pending_item: Option<(&'a str, bool)>,
    last_idx: usize,
    cur_idx: usize,
}

impl<'a> AnsiCodeIterator<'a> {
    pub closed spec fn text(&self) -> Seq<char> {
        self.s@
    }

    /// The segments that are still to come.
    pub closed spec fn remaining(&self) -> Seq<(Seq<char>, bool)> {
        let rest = segments_from(self.chars@, self.last_idx as int);
        match self.pending_item {
            Some((p, b)) => seq![(p@, b)] + rest,
            None => rest,
        }
    }

    /// How much of the text has been handed out.
    pub closed spec fn position(&self) -> int {
        self.cur_idx as int
    }

    pub closed spec fn wf(&self) -> bool {
        &&& self.chars@ == self.s@
        &&& self.last_idx <= self.chars@.len()
        &&& self.cur_idx <= self.last_idx
        &&& match self.pending_item {
            Some((p, b)) => b && p@ == self.s@.subrange(self.cur_idx as int, self.last_idx as int),
            None => self.cur_idx == self.last_idx,
        }
    }

    /// Creates a new iterator over the segments of `s`.
    pub fn new(s: &'a str) -> (r: AnsiCodeIterator<'a>)
        ensures
            r.wf(),
            r.text() == s@,
            r.remaining() == segments(s@),
            r.position() == 0,
    {
        AnsiCodeIterator { s, chars: chars_of(s), pending_item: None, last_idx: 0, cur_idx: 0 }
    }

    /// Returns the string slice up to the current match.
    pub fn current_slice(&self) -> (r: &'a str)
        requires
            self.wf(),
        ensures
            r@ == self.text().subrange(0, self.position()),
    {
        self.s.substring_char(0, self.cur_idx)
    }

    /// Returns the string slice from the current match to the end.
    pub fn rest_slice(&self) -> (r: &'a str)
        requires
            self.wf(),
        ensures
            r@ == self.text().subrange(self.position(), self.text().len() as int),
    {
        self.s.substring_char(self.cur_idx, self.chars.len())
    }

    /// The next segment.
    pub fn next(&mut self) -> (r: Option<(&'a str, bool)>)
        requires
            old(self).wf(),
        ensures
            final(self).wf(),
            final(self).text() == old(self).text(),
            match r {
                Some((t, b)) => {
                    &&& old(self).remaining().len() > 0
                    &&& old(self).remaining()[0] == (t@, b)
                    &&& final(self).remaining() == old(self).remaining().drop_first()
                    &&& final(self).position() == old(self).position() + t@.len()
                },
                None => {
                    &&& old(self).remaining().len() == 0
                    &&& final(self).remaining().len() == 0
                    &&& final(self).position() == old(self).position()
                },
            },
    {
        let ghost s = self.chars@;
        proof {
            lemma_next_code_range(s, self.last_idx as int);
        }
        if let Some(pending_item) = self.pending_item.take() {
            assert(old(self).remaining().drop_first() =~= segments_from(s, self.last_idx as int));
            self.cur_idx = self.last_idx;
            Some(pending_item)
        } else if self.last_idx < self.chars.len() {
            match find_ansi_code_exclusive(&self.chars, self.last_idx) {
                Some((a, b)) => {
                    let code = self.s.substring_char(a, b);
                    let start = self.last_idx;
                    self.last_idx = b;
                    if a == start {
                        self.cur_idx = b;
                        assert(old(self).remaining().drop_first() =~= segments_from(s, b as int));
                        Some((code, true))
                    } else {
                        let lit = self.s.substring_char(start, a);
                        self.cur_idx = a;
                        self.pending_item = Some((code, true));
                        assert(old(self).remaining().drop_first() =~= seq![(code@, true)]
                            + segments_from(s, b as int));
                        Some((lit, false))
                    }
                },
                None => {
                    let rv = self.s.substring_char(self.last_idx, self.chars.len());
                    self.cur_idx = self.chars.len();
                    self.last_idx = self.chars.len();
                    assert(old(self).remaining().drop_first() =~= segments_from(s, s.len() as int));
                    Some((rv, false))
                },
            }
        } else {
            None
        }
    }
}

/// Removes every escape sequence from `s`. Where there is none, `s` itself is
/// returned, without a copy.
pub fn strip_ansi_codes<'a>(s: &'a str) -> (r: Cow<'a, str>)
    ensures
        r@ == strip(s@),
        (r is Borrowed) == (next_code(s@, 0) is None),
{
    let chars = chars_of(s);
    match find_ansi_code_exclusive(&chars, 0) {
        Some(_) => {
            let mut stripped = String::new();
            let mut it = AnsiCodeIterator::new(s);
            loop
                invariant
                    it.wf(),
                    stripped@ + plain_texts(it.remaining()) == strip(s@),
                ensures
                    stripped@ == strip(s@),
                decreases it.remaining().len(),
            {
                let ghost before = it.remaining();
                match it.next() {
                    Some((text, is_ansi)) => {
                        let ghost piece = if is_ansi { Seq::<char>::empty() } else { text@ };
                        assert(plain_texts(before) == piece + plain_texts(it.remaining()));
                        let ghost acc = stripped@;
                        if !is_ansi {
                            stripped.append(text);
                        }
                        assert(stripped@ == acc + piece);
                        assert(acc + (piece + plain_texts(it.remaining())) =~= (acc + piece)
                            + plain_texts(it.remaining()));
                    },
                    None => {
                        assert(plain_texts(before) =~= Seq::<char>::empty());
                        assert(stripped@ + Seq::<char>::empty() =~= stripped@);
                        break;
                    },
                }
            }
            Cow::Owned(stripped)
        },
        None => {
            proof {
                lemma_strip_plain(s@);
            }
            Cow::Borrowed(s)
        },
    }
}

/// Stripping text that holds no escape sequence gives the text back, and
/// stripping twice gives what stripping once gave, wherever the stripped text
/// holds no escape sequence of its own.
pub proof fn law_strip_idempotent(s: Seq<char>)
    ensures
        next_code(s, 0) is None ==> strip(s) == s,
        next_code(strip(s), 0) is None ==> strip(strip(s)) == strip(s),
{
    if next_code(s, 0) is None {
        lemma_strip_plain(s);
    }
    if next_code(strip(s), 0) is None {
        lemma_strip_plain(strip(s));
    }
}

/// Joining the segments of a text gives back the text.
pub proof fn law_segments_lossless(s: Seq<char>)
    ensures
        concat_texts(segments(s)) == s,
{
    lemma_segments_lossless(s, 0);
    assert(s.subrange(0, s.len() as int) =~= s);
}

/// No segment is empty, and two runs of literal text never stand side by side.
pub open spec fn segments_well_formed(segs: Seq<(Seq<char>, bool)>) -> bool {
    &&& forall|i: int| 0 <= i < segs.len() ==> (#[trigger] segs[i]).0.len() > 0
    &&& forall|i: int| 0 <= i < segs.len() - 1 ==> (#[trigger] segs[i]).1 || segs[i + 1].1
}

pub proof fn lemma_segments_well_formed(s: Seq<char>, from: int)
    requires
        0 <= from <= s.len(),
    ensures
        segments_well_formed(segments_from(s, from)),
    decreases s.len() - from,
{
    if from < s.len() {
        lemma_next_code_range(s, from);
        let m = next_code(s, from);
        if m is Some {
            let (a, b) = m->0;
            let rest = segments_from(s, b);
            lemma_segments_well_formed(s, b);
            let code = seq![(s.subrange(a, b), true)];
            let cr = code + rest;
            assert forall|i: int| 0 <= i < cr.len() implies (#[trigger] cr[i]).0.len() > 0 by {
                if i > 0 {
                    assert(cr[i] == rest[i - 1]);
                }
            }
            assert forall|i: int| 0 <= i < cr.len() - 1 implies (#[trigger] cr[i]).1 || cr[i + 1].1 by {
                if i > 0 {
                    assert(cr[i] == rest[i - 1]);
                    assert(cr[i + 1] == rest[i]);
                }
            }
            if a > from {
                let lit = seq![(s.subrange(from, a), false)];
                let all = lit + cr;
                assert(all =~= lit + code + rest);
                assert forall|i: int| 0 <= i < all.len() implies (#[trigger] all[i]).0.len() > 0 by {
                    if i > 0 {
                        assert(all[i] == cr[i - 1]);
                    }
                }
                assert forall|i: int| 0 <= i < all.len() - 1 implies (#[trigger] all[i]).1 || all[i
                    + 1].1 by {
                    if i > 0 {
                        assert(all[i] == cr[i - 1]);
                        assert(all[i + 1] == cr[i]);
                    } else {
                        assert(all[1] == cr[0]);
                    }
                }
            }
        }
    }
}

/// The segments of a text are never empty, and two runs of literal text never
/// follow each other: a literal run is as long as it can be.
pub proof fn law_segments_well_formed(s: Seq<char>)
    ensures
        segments_well_formed(segments(s)),
{
    lemma_segments_well_formed(s, 0);
}

} // verus!
