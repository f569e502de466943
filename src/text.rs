//! Width-aware measuring, slicing, truncation and padding of text that may
//! hold escape sequences.
use crate::ansi::{concat_texts, segments, AnsiCodeIterator};
use std::borrow::Cow;
use vstd::prelude::*;
use vstd::string::*;

verus! {

/// The number of terminal columns that `c` takes.
pub uninterp spec fn char_cols(c: char) -> nat;

/// Relies on unicode-width's `UnicodeWidthChar::width`, with a control
/// character counted as zero columns: the column count of `c`, at most two,
/// one for each printable ASCII character.
#[verifier::external_body]
pub(crate) fn char_width(c: char) -> (r: usize)
    ensures
        r == char_cols(c),
        r <= 2,
        ' ' <= c <= '~' ==> r == 1,
{
    unicode_width::UnicodeWidthChar::width(c).unwrap_or(0)
}

/// The number of columns that the characters of `t` take, all counted.
pub open spec fn cols(t: Seq<char>) -> nat
    decreases t.len(),
{
    if t.len() == 0 {
        0
    } else {
        cols(t.drop_last()) + char_cols(t.last())
    }
}

/// Relies on unicode-width's `UnicodeWidthStr::width`, which adds up the
/// column counts of the characters of `s`.
#[verifier::external_body]
fn str_width(s: &str) -> (r: usize)
    requires
        s@.len() <= isize::MAX,
    ensures
        r == cols(s@),
        r <= 2 * s@.len(),
{
    unicode_width::UnicodeWidthStr::width(s)
}

/// Each character of a segment, with whether it belongs to an escape sequence.
pub open spec fn label_seg(seg: (Seq<char>, bool)) -> Seq<(char, bool)> {
    seg.0.map_values(|c: char| (c, seg.1))
}

pub open spec fn labels(segs: Seq<(Seq<char>, bool)>) -> Seq<(char, bool)>
    decreases segs.len(),
{
    if segs.len() == 0 {
        Seq::empty()
    } else {
        label_seg(segs[0]) + labels(segs.drop_first())
    }
}

/// Each character of `s`, with whether it belongs to an escape sequence.
pub open spec fn labelled(s: Seq<char>) -> Seq<(char, bool)> {
    labels(segments(s))
}

/// The columns that a labelled character takes: none for part of an escape
/// sequence.
pub open spec fn label_cols(p: (char, bool)) -> nat {
    if p.1 {
        0
    } else {
        char_cols(p.0)
    }
}

/// The columns that the visible characters of `l` take.
pub open spec fn width_of(l: Seq<(char, bool)>) -> nat
    decreases l.len(),
{
    if l.len() == 0 {
        0
    } else {
        width_of(l.drop_last()) + label_cols(l.last())
    }
}

/// The column at which position `i` of `l` stands.
pub open spec fn col(l: Seq<(char, bool)>, i: int) -> nat {
    width_of(l.subrange(0, i))
}

/// The width of `s` on a terminal: its escape sequences take no room.
pub open spec fn text_width(s: Seq<char>) -> nat {
    width_of(labelled(s))
}

/// The characters of `l` that belong to escape sequences.
pub open spec fn codes_of(l: Seq<(char, bool)>) -> Seq<char>
    decreases l.len(),
{
    if l.len() == 0 {
        Seq::empty()
    } else {
        codes_of(l.drop_last()) + if l.last().1 {
            seq![l.last().0]
        } else {
            Seq::empty()
        }
    }
}

/// The characters of `l`.
pub open spec fn chars_of_labels(l: Seq<(char, bool)>) -> Seq<char> {
    l.map_values(|p: (char, bool)| p.0)
}

pub proof fn lemma_width_concat(a: Seq<(char, bool)>, b: Seq<(char, bool)>)
    ensures
        width_of(a + b) == width_of(a) + width_of(b),
    decreases b.len(),
{
    if b.len() == 0 {
        assert(a + b =~= a);
    } else {
        assert((a + b).drop_last() =~= a + b.drop_last());
        lemma_width_concat(a, b.drop_last());
    }
}

pub proof fn lemma_codes_concat(a: Seq<(char, bool)>, b: Seq<(char, bool)>)
    ensures
        codes_of(a + b) == codes_of(a) + codes_of(b),
    decreases b.len(),
{
    if b.len() == 0 {
        assert(a + b =~= a);
        assert(codes_of(a) + Seq::<char>::empty() =~= codes_of(a));
    } else {
        assert((a + b).drop_last() =~= a + b.drop_last());
        lemma_codes_concat(a, b.drop_last());
        assert(codes_of(a + b) =~= codes_of(a) + codes_of(b));
    }
}

/// A segment's columns: those of its characters, or none for an escape sequence.
pub proof fn lemma_width_seg(seg: (Seq<char>, bool))
    ensures
        width_of(label_seg(seg)) == if seg.1 {
            0
        } else {
            cols(seg.0)
        },
    decreases seg.0.len(),
{
    if seg.0.len() > 0 {
        let shorter = (seg.0.drop_last(), seg.1);
        assert(label_seg(seg).drop_last() =~= label_seg(shorter));
        lemma_width_seg(shorter);
    }
}

/// A segment's escape-sequence characters: all of them or none.
pub proof fn lemma_codes_seg(seg: (Seq<char>, bool))
    ensures
        codes_of(label_seg(seg)) == if seg.1 {
            seg.0
        } else {
            Seq::empty()
        },
    decreases seg.0.len(),
{
    if seg.0.len() > 0 {
        let shorter = (seg.0.drop_last(), seg.1);
        assert(label_seg(seg).drop_last() =~= label_seg(shorter));
        lemma_codes_seg(shorter);
        assert(seg.0.drop_last().push(seg.0.last()) =~= seg.0);
    } else {
        assert(seg.0 =~= Seq::<char>::empty());
    }
}

pub proof fn lemma_labels_first(segs: Seq<(Seq<char>, bool)>)
    requires
        segs.len() > 0,
    ensures
        labels(segs) == label_seg(segs[0]) + labels(segs.drop_first()),
        label_seg(segs[0]).len() == segs[0].0.len(),
{
}

pub proof fn lemma_labels_len(segs: Seq<(Seq<char>, bool)>)
    ensures
        labels(segs).len() == concat_texts(segs).len(),
        chars_of_labels(labels(segs)) == concat_texts(segs),
    decreases segs.len(),
{
    if segs.len() > 0 {
        lemma_labels_len(segs.drop_first());
        assert(chars_of_labels(labels(segs)) =~= concat_texts(segs));
    }
}

/// Measures the width of `s` in terminal columns; escape sequences take none.
pub fn measure_text_width(s: &str) -> (r: usize)
    requires
        s@.len() <= isize::MAX,
    ensures
        r == text_width(s@),
{
    let mut it = AnsiCodeIterator::new(s);
    let mut total: usize = 0;
    proof {
        crate::ansi::law_segments_lossless(s@);
        lemma_labels_len(segments(s@));
    }
    loop
        invariant
            it.wf(),
            it.text() == s@,
            s@.len() <= isize::MAX,
            0 <= it.position() <= s@.len(),
            labels(it.remaining()) == labelled(s@).subrange(it.position(), s@.len() as int),
            labelled(s@).len() == s@.len(),
            total == width_of(labelled(s@).subrange(0, it.position())),
            total <= 2 * it.position(),
        ensures
            total == text_width(s@),
        decreases it.remaining().len(),
    {
        let ghost l = labelled(s@);
        let ghost before = it.remaining();
        let ghost seg_start = it.position();
        match it.next() {
            Some((t, is_ansi)) => {
                proof {
                    lemma_labels_first(before);
                    let seg_end = seg_start + t@.len();
                    assert(l.subrange(seg_start, s@.len() as int) == label_seg((t@, is_ansi)) + labels(
                        it.remaining(),
                    ));
                    assert(seg_end <= s@.len());
                    assert(l.subrange(seg_start, seg_end) =~= label_seg((t@, is_ansi)));
                    let x = l.subrange(seg_start, s@.len() as int);
                    assert(x.subrange(t@.len() as int, x.len() as int) =~= labels(it.remaining()));
                    assert(x.subrange(t@.len() as int, x.len() as int) =~= l.subrange(
                        seg_end,
                        s@.len() as int,
                    ));
                    assert(l.subrange(0, seg_end) =~= l.subrange(0, seg_start) + l.subrange(seg_start, seg_end));
                    lemma_width_concat(l.subrange(0, seg_start), l.subrange(seg_start, seg_end));
                    lemma_width_seg((t@, is_ansi));
                }
                if !is_ansi {
                    let w = str_width(t);
                    total = total + w;
                }
            },
            None => {
                proof {
                    assert(labels(before).len() == 0);
                    assert(l.subrange(0, seg_start) =~= l);
                }
                break;
            },
        }
    }
    total
}

/// Where a slice from column `start` on begins: the first position whose column
/// is `start` or more, looking from `i` on.
pub open spec fn cut_start(l: Seq<(char, bool)>, start: int, i: int) -> int
    decreases l.len() - i,
{
    if i >= l.len() || col(l, i) >= start {
        i
    } else {
        cut_start(l, start, i + 1)
    }
}

/// Where a slice up to column `end` stops: the first visible character, from
/// `i` on, that would reach past `end`.
pub open spec fn cut_end(l: Seq<(char, bool)>, end: int, i: int) -> int
    decreases l.len() - i,
{
    if i >= l.len() {
        i
    } else if !l[i].1 && col(l, i) + char_cols(l[i].0) > end {
        i
    } else {
        cut_end(l, end, i + 1)
    }
}

/// `s` cut to the columns from `start` up to `end`, between `head` and `tail`.
/// The escape sequences before the cut come first, those after it last.
pub open spec fn sliced(s: Seq<char>, head: Seq<char>, start: int, end: int, tail: Seq<char>) -> Seq<
    char,
> {
    let l = labelled(s);
    let p = cut_start(l, start, 0);
    let q = cut_end(l, end, p);
    codes_of(l.subrange(0, p)) + head + s.subrange(p, q) + tail + codes_of(l.subrange(q, l.len() as int))
}

/// Whether slicing needs no new string: nothing is put around the slice and
/// no escape sequence lies outside it.
pub open spec fn slice_borrows(s: Seq<char>, head: Seq<char>, start: int, end: int, tail: Seq<char>) -> bool {
    let l = labelled(s);
    let p = cut_start(l, start, 0);
    let q = cut_end(l, end, p);
    head.len() == 0 && tail.len() == 0 && codes_of(l.subrange(0, p)).len() == 0 && codes_of(
        l.subrange(q, l.len() as int),
    ).len() == 0
}

pub open spec fn all_plain(l: Seq<(char, bool)>, i: int, j: int) -> bool {
    forall|m: int| i <= m < j ==> !(#[trigger] l[m]).1
}

pub open spec fn all_codes(l: Seq<(char, bool)>, i: int, j: int) -> bool {
    forall|m: int| i <= m < j ==> (#[trigger] l[m]).1
}

/// What the next segment of an iterator stands for among the labels.
pub proof fn lemma_step_labels(
    l: Seq<(char, bool)>,
    seg_start: int,
    before: Seq<(Seq<char>, bool)>,
)
    requires
        before.len() > 0,
        0 <= seg_start <= l.len(),
        labels(before) == l.subrange(seg_start, l.len() as int),
    ensures
        seg_start + before[0].0.len() <= l.len(),
        l.subrange(seg_start, seg_start + before[0].0.len()) == label_seg(before[0]),
        labels(before.drop_first()) == l.subrange(seg_start + before[0].0.len(), l.len() as int),
        forall|m: int|
            seg_start <= m < seg_start + before[0].0.len() ==> #[trigger] l[m] == (before[0].0[m - seg_start], before[0].1),
{
    lemma_labels_first(before);
    let n = before[0].0.len();
    let x = l.subrange(seg_start, l.len() as int);
    assert(x.len() == label_seg(before[0]).len() + labels(before.drop_first()).len());
    assert(x.subrange(0, n as int) =~= label_seg(before[0]));
    assert(x.subrange(0, n as int) =~= l.subrange(seg_start, seg_start + n));
    assert(x.subrange(n as int, x.len() as int) =~= labels(before.drop_first()));
    assert(x.subrange(n as int, x.len() as int) =~= l.subrange(seg_start + n, l.len() as int));
    assert forall|m: int| seg_start <= m < seg_start + n implies #[trigger] l[m] == (before[0].0[m - seg_start], before[0].1) by {
        assert(l[m] == x[m - seg_start]);
        assert(x[m - seg_start] == label_seg(before[0])[m - seg_start]);
    }
}

/// One more character: its columns are added and, for part of an escape
/// sequence, it joins the codes.
pub proof fn lemma_extend(l: Seq<(char, bool)>, i: int)
    requires
        0 <= i < l.len(),
    ensures
        col(l, i + 1) == col(l, i) + label_cols(l[i]),
        codes_of(l.subrange(0, i + 1)) == codes_of(l.subrange(0, i)) + if l[i].1 {
            seq![l[i].0]
        } else {
            Seq::empty()
        },
{
    assert(l.subrange(0, i + 1).drop_last() =~= l.subrange(0, i));
}

/// A run of escape-sequence characters adds no columns.
pub proof fn lemma_codes_run(l: Seq<(char, bool)>, i: int, j: int)
    requires
        0 <= i <= j <= l.len(),
        all_codes(l, i, j),
    ensures
        forall|m: int| i <= m <= j ==> #[trigger] col(l, m) == col(l, i),
    decreases j - i,
{
    if i < j {
        lemma_codes_run(l, i, j - 1);
        lemma_extend(l, j - 1);
    }
}

pub proof fn lemma_cut_start_skip(l: Seq<(char, bool)>, start: int, i: int, j: int)
    requires
        0 <= i <= j <= l.len(),
        forall|m: int| i <= m < j ==> #[trigger] col(l, m) < start,
    ensures
        cut_start(l, start, i) == cut_start(l, start, j),
    decreases j - i,
{
    if i < j {
        lemma_cut_start_skip(l, start, i + 1, j);
    }
}

pub proof fn lemma_cut_end_skip_codes(l: Seq<(char, bool)>, end: int, i: int, j: int)
    requires
        0 <= i <= j <= l.len(),
        all_codes(l, i, j),
    ensures
        cut_end(l, end, i) == cut_end(l, end, j),
    decreases j - i,
{
    if i < j {
        lemma_cut_end_skip_codes(l, end, i + 1, j);
    }
}

pub proof fn lemma_codes_plain_run(l: Seq<(char, bool)>, i: int, j: int)
    requires
        0 <= i <= j <= l.len(),
        all_plain(l, i, j),
    ensures
        codes_of(l.subrange(i, j)) == Seq::<char>::empty(),
    decreases j - i,
{
    if i < j {
        assert(l.subrange(i, j).drop_last() =~= l.subrange(i, j - 1));
        lemma_codes_plain_run(l, i, j - 1);
    }
}

/// Slices `s` by terminal columns: only the text in the columns from
/// `bounds.start` up to `bounds.end` is kept, between `head` and `tail`.
///
/// A character that takes several columns and reaches past `bounds.end` is
/// left out whole. No escape sequence is lost: those before the slice come
/// before `head`, those after it come after `tail`.
#[verifier::spinoff_prover]
#[verifier::rlimit(100)]
pub fn slice_str<'a>(s: &'a str, head: &str, bounds: std::ops::Range<usize>, tail: &str) -> (r: Cow<
    'a,
    str,
>)
    requires
        s@.len() <= isize::MAX,
    ensures
        r@ == sliced(s@, head@, bounds.start as int, bounds.end as int, tail@),
        (r is Borrowed) == slice_borrows(s@, head@, bounds.start as int, bounds.end as int, tail@),
{
    let start = bounds.start;
    let end = bounds.end;
    let ghost n = s@.len() as int;
    let ghost l = labelled(s@);
    proof {
        crate::ansi::law_segments_lossless(s@);
        lemma_labels_len(segments(s@));
        assert(l.subrange(0, 0) =~= Seq::<(char, bool)>::empty());
        assert(l.subrange(0, n) =~= l);
    }
    let mut it = AnsiCodeIterator::new(s);
    let mut pos: usize = 0;
    let mut idx: usize = 0;
    let mut front_ansi = String::new();

    // Look for the position where the slice begins, keeping the escape
    // sequences met on the way.
    let mut found = false;
    let mut exhausted = false;
    let mut carry: Vec<char> = Vec::new();
    let mut carry_k: usize = 0;
    let ghost mut base: int = 0;
    while pos < start && !found && !exhausted
        invariant
            it.wf(),
            it.text() == s@,
            0 <= it.position() <= n == s@.len() <= isize::MAX,
            l == labelled(s@),
            l.len() == n,
            labels(it.remaining()) == l.subrange(it.position(), n),
            idx <= it.position(),
            0 <= base,
            pos == col(l, idx as int),
            pos <= 2 * idx,
            front_ansi@ == codes_of(l.subrange(0, idx as int)),
            cut_start(l, start as int, 0) == cut_start(l, start as int, idx as int),
            !found ==> idx == it.position(),
            found ==> {
                &&& col(l, idx as int) >= start
                &&& carry_k <= carry@.len()
                &&& base + carry@.len() == it.position()
                &&& idx == base + carry_k
                &&& forall|m: int| 0 <= m < carry@.len() ==> #[trigger] l[base + m] == (carry@[m], false)
            },
            exhausted ==> it.remaining().len() == 0,
        decreases it.remaining().len() + if exhausted { 0int } else { 1int },
    {
        let ghost before = it.remaining();
        let ghost seg_start = it.position();
        match it.next() {
            None => {
                exhausted = true;
            },
            Some((sub, is_ansi)) => {
                proof {
                    lemma_step_labels(l, seg_start, before);
                }
                let cs = crate::ansi::chars_of(sub);
                if is_ansi {
                    proof {
                        let seg_end = seg_start + cs@.len();
                        lemma_codes_run(l, seg_start, seg_end);
                        assert forall|m: int| seg_start <= m < seg_end implies #[trigger] col(l, m) < start by {
                            assert(col(l, m) == col(l, seg_start));
                        }
                        lemma_cut_start_skip(l, start as int, seg_start, seg_end);
                        assert(l.subrange(0, seg_end) =~= l.subrange(0, seg_start) + l.subrange(seg_start, seg_end));
                        lemma_codes_concat(l.subrange(0, seg_start), l.subrange(seg_start, seg_end));
                        lemma_codes_seg(before[0]);
                    }
                    front_ansi.append(sub);
                    idx = idx + cs.len();
                } else {
                    let mut k: usize = 0;
                    while k < cs.len() && !found
                        invariant
                            n == s@.len() <= isize::MAX,
                            l.len() == n,
                            0 <= seg_start,
                            seg_start + cs@.len() == it.position() <= n,
                            k <= cs@.len(),
                            idx == seg_start + k,
                            forall|m: int| seg_start <= m < seg_start + cs@.len() ==> #[trigger] l[m] == (cs@[m - seg_start], false),
                            pos == col(l, idx as int),
                            pos <= 2 * idx,
                            front_ansi@ == codes_of(l.subrange(0, idx as int)),
                            cut_start(l, start as int, 0) == cut_start(l, start as int, idx as int),
                            found ==> col(l, idx as int) >= start,
                        decreases cs@.len() - k + if found { 0int } else { 1int },
                    {
                        if pos >= start {
                            found = true;
                        } else {
                            let w = char_width(cs[k]);
                            proof {
                                lemma_extend(l, idx as int);
                                assert(l[idx as int] == (cs@[k as int], false));
                            }
                            pos = pos + w;
                            k = k + 1;
                            idx = idx + 1;
                        }
                    }
                    if found {
                        proof {
                            base = seg_start;
                        }
                        carry = cs;
                        carry_k = k;
                    }
                }
            },
        }
    }
    let slice_start = idx;
    proof {
        if exhausted {
            assert(l.subrange(it.position(), n).len() == 0);
        }
        assert(cut_start(l, start as int, idx as int) == idx);
    }

    // Look for the position where the slice ends; escape sequences are kept
    // in the slice and take no columns.
    let mut cut = false;
    if found {
        let mut k = carry_k;
        while k < carry.len() && !cut
            invariant
                n == s@.len() <= isize::MAX,
                l.len() == n,
                0 <= base,
                base + carry@.len() == it.position() <= n,
                k <= carry@.len(),
                idx == base + k,
                slice_start <= idx,
                forall|m: int| 0 <= m < carry@.len() ==> #[trigger] l[base + m] == (carry@[m], false),
                pos == col(l, idx as int),
                pos <= 2 * idx,
                cut_end(l, end as int, slice_start as int) == cut_end(l, end as int, idx as int),
                cut ==> idx < n && !l[idx as int].1 && col(l, idx as int) + char_cols(l[idx as int].0)
                    > end,
            decreases carry@.len() - k + if cut { 0int } else { 1int },
        {
            let w = char_width(carry[k]);
            proof {
                assert(l[base + k] == (carry@[k as int], false));
                lemma_extend(l, idx as int);
            }
            if pos + w > end {
                cut = true;
            } else {
                pos = pos + w;
                k = k + 1;
                idx = idx + 1;
            }
        }
        proof {
            assert forall|m: int| idx <= m < it.position() implies !(#[trigger] l[m]).1 by {
                assert(l[base + (m - base)] == (carry@[m - base], false));
            }
        }
    }
    exhausted = false;
    while !cut && !exhausted
        invariant
            it.wf(),
            it.text() == s@,
            0 <= it.position() <= n == s@.len() <= isize::MAX,
            l.len() == n,
            labels(it.remaining()) == l.subrange(it.position(), n),
            slice_start <= idx <= it.position(),
            all_plain(l, idx as int, it.position()),
            !cut ==> idx == it.position(),
            pos == col(l, idx as int),
            pos <= 2 * idx,
            cut_end(l, end as int, slice_start as int) == cut_end(l, end as int, idx as int),
            cut ==> idx < n && !l[idx as int].1 && col(l, idx as int) + char_cols(l[idx as int].0)
                > end,
            exhausted ==> it.remaining().len() == 0,
        decreases it.remaining().len() + if exhausted { 0int } else { 1int },
    {
        let ghost before = it.remaining();
        let ghost seg_start = it.position();
        match it.next() {
            None => {
                exhausted = true;
            },
            Some((sub, is_ansi)) => {
                proof {
                    lemma_step_labels(l, seg_start, before);
                }
                let cs = crate::ansi::chars_of(sub);
                if is_ansi {
                    proof {
                        let seg_end = seg_start + cs@.len();
                        lemma_codes_run(l, seg_start, seg_end);
                        lemma_cut_end_skip_codes(l, end as int, seg_start, seg_end);
                    }
                    idx = idx + cs.len();
                } else {
                    let mut k: usize = 0;
                    while k < cs.len() && !cut
                        invariant
                            n == s@.len() <= isize::MAX,
                            l.len() == n,
                            0 <= seg_start,
                            seg_start + cs@.len() == it.position() <= n,
                            k <= cs@.len(),
                            idx == seg_start + k,
                            slice_start <= idx,
                            forall|m: int| seg_start <= m < seg_start + cs@.len() ==> #[trigger] l[m] == (cs@[m - seg_start], false),
                            pos == col(l, idx as int),
                            pos <= 2 * idx,
                            cut_end(l, end as int, slice_start as int) == cut_end(l, end as int, idx as int),
                            cut ==> idx < n && !l[idx as int].1 && col(l, idx as int) + char_cols(
                                l[idx as int].0,
                            ) > end,
                        decreases cs@.len() - k + if cut { 0int } else { 1int },
                    {
                        let w = char_width(cs[k]);
                        proof {
                            assert(l[idx as int] == (cs@[k as int], false));
                            lemma_extend(l, idx as int);
                        }
                        if pos + w > end {
                            cut = true;
                        } else {
                            pos = pos + w;
                            k = k + 1;
                            idx = idx + 1;
                        }
                    }
                    proof {
                        assert forall|m: int| idx <= m < it.position() implies !(#[trigger] l[m]).1 by {
                            assert(l[m] == (cs@[m - seg_start], false));
                        }
                    }
                }
            },
        }
    }
    let slice_end = idx;
    proof {
        if exhausted && !cut {
            assert(l.subrange(it.position(), n).len() == 0);
        }
        assert(cut_end(l, end as int, idx as int) == idx);
        lemma_codes_plain_run(l, idx as int, it.position());
        assert(l.subrange(idx as int, n) =~= l.subrange(idx as int, it.position()) + l.subrange(
            it.position(),
            n,
        ));
        lemma_codes_concat(l.subrange(idx as int, it.position()), l.subrange(it.position(), n));
        assert(codes_of(l.subrange(idx as int, n)) =~= codes_of(labels(it.remaining())));
    }

    // The escape sequences after the slice.
    let mut trail = String::new();
    exhausted = false;
    while !exhausted
        invariant
            it.wf(),
            it.text() == s@,
            trail@ + codes_of(labels(it.remaining())) == codes_of(l.subrange(slice_end as int, n)),
            exhausted ==> it.remaining().len() == 0,
        decreases it.remaining().len() + if exhausted { 0int } else { 1int },
    {
        let ghost before = it.remaining();
        match it.next() {
            None => {
                exhausted = true;
            },
            Some((sub, is_ansi)) => {
                proof {
                    lemma_labels_first(before);
                    lemma_codes_concat(label_seg(before[0]), labels(it.remaining()));
                    lemma_codes_seg(before[0]);
                }
                let ghost acc = trail@;
                if is_ansi {
                    trail.append(sub);
                }
                proof {
                    let piece = if is_ansi { sub@ } else { Seq::<char>::empty() };
                    assert(trail@ == acc + piece);
                    assert(acc + (piece + codes_of(labels(it.remaining()))) =~= (acc + piece)
                        + codes_of(labels(it.remaining())));
                }
            },
        }
    }
    proof {
        assert(labels(it.remaining()) =~= Seq::<(char, bool)>::empty());
        assert(trail@ + Seq::<char>::empty() =~= trail@);
    }
    let slice = s.substring_char(slice_start, slice_end);
    if front_ansi.as_str().is_empty() && head.is_empty() && tail.is_empty()
        && trail.as_str().is_empty() {
        proof {
            assert(Seq::<char>::empty() + Seq::<char>::empty() + slice@ + Seq::<char>::empty()
                + Seq::<char>::empty() =~= slice@);
        }
        Cow::Borrowed(slice)
    } else {
        let rv = front_ansi.concat(head).concat(slice).concat(tail).concat(trail.as_str());
        Cow::Owned(rv)
    }
}

pub proof fn lemma_col_monotone(l: Seq<(char, bool)>, i: int, j: int)
    requires
        0 <= i <= j <= l.len(),
    ensures
        col(l, i) <= col(l, j),
    decreases j - i,
{
    if i < j {
        lemma_col_monotone(l, i, j - 1);
        lemma_extend(l, j - 1);
    }
}

/// No character from `i` on reaches past the full width of the text.
pub proof fn lemma_cut_end_at_width(l: Seq<(char, bool)>, i: int)
    requires
        0 <= i <= l.len(),
    ensures
        cut_end(l, width_of(l) as int, i) == l.len(),
    decreases l.len() - i,
{
    if i < l.len() {
        lemma_extend(l, i);
        lemma_col_monotone(l, i + 1, l.len() as int);
        assert(l.subrange(0, l.len() as int) =~= l);
        lemma_cut_end_at_width(l, i + 1);
    }
}

/// Slicing a text from column zero up to its full width, with nothing put
/// around it, gives the text back.
pub proof fn law_slice_whole(s: Seq<char>)
    ensures
        sliced(s, Seq::empty(), 0, text_width(s) as int, Seq::empty()) == s,
{
    let l = labelled(s);
    crate::ansi::law_segments_lossless(s);
    lemma_labels_len(segments(s));
    assert(l.subrange(0, 0) =~= Seq::<(char, bool)>::empty());
    assert(cut_start(l, 0, 0) == 0);
    lemma_cut_end_at_width(l, 0);
    assert(l.subrange(l.len() as int, l.len() as int) =~= Seq::<(char, bool)>::empty());
    assert(Seq::<char>::empty() + Seq::<char>::empty() + s.subrange(0, s.len() as int)
        + Seq::<char>::empty() + Seq::<char>::empty() =~= s);
}

/// `a - b`, or zero where `b` is larger.
pub open spec fn sat_sub(a: int, b: int) -> int {
    if a >= b {
        a - b
    } else {
        0
    }
}

/// `s` cut to `width` columns, with `tail` put after the cut; unchanged where
/// it fits.
pub open spec fn truncated(s: Seq<char>, width: int, tail: Seq<char>) -> Seq<char> {
    if text_width(s) <= width {
        s
    } else {
        sliced(s, Seq::empty(), 0, sat_sub(width, text_width(tail) as int), tail)
    }
}

/// Truncates `s` to `width` columns. Where it is wider, it is cut and `tail`
/// is put after the cut, so that both together fit where `tail` is narrow
/// enough. Escape sequences are kept.
pub fn truncate_str<'a>(s: &'a str, width: usize, tail: &str) -> (r: Cow<'a, str>)
    requires
        s@.len() <= isize::MAX,
        tail@.len() <= isize::MAX,
    ensures
        r@ == truncated(s@, width as int, tail@),
        text_width(s@) <= width ==> r is Borrowed,
{
    if measure_text_width(s) <= width {
        Cow::Borrowed(s)
    } else {
        let tail_width = measure_text_width(tail);
        let keep = width.saturating_sub(tail_width);
        proof {
            reveal_strlit("");
        }
        slice_str(s, "", 0..keep, tail)
    }
}

/// How text is placed within a wider field.
#[derive(Debug, Clone, Copy, PartialEq, Eq, Structural)]
pub enum Alignment {
    Left,
    Center,
    Right,
}

/// The padding put before and after text that is `diff` columns short.
pub open spec fn pad_counts(align: Alignment, diff: int) -> (int, int) {
    match align {
        Alignment::Left => (0, diff),
        Alignment::Right => (diff, 0),
        Alignment::Center => (diff / 2, diff - diff / 2),
    }
}

/// `n` copies of `c`.
pub open spec fn repeat(c: char, n: int) -> Seq<char> {
    Seq::new(n as nat, |i: int| c)
}

/// `s` padded with `pad` to `width` columns as `align` says; where it is not
/// narrower, unchanged, or truncated with `truncate` as its tail where one is
/// given.
pub open spec fn padded(
    s: Seq<char>,
    width: int,
    align: Alignment,
    truncate: Option<Seq<char>>,
    pad: char,
) -> Seq<char> {
    let cols = text_width(s);
    if cols >= width {
        match truncate {
            None => s,
            Some(tail) => truncated(s, width, tail),
        }
    } else {
        let (left, right) = pad_counts(align, width - cols);
        repeat(pad, left) + s + repeat(pad, right)
    }
}

pub open spec fn opt_view(o: Option<&str>) -> Option<Seq<char>> {
    match o {
        Some(t) => Some(t@),
        None => None,
    }
}

/// Relies on `String::push`: `c` is added at the end.
#[verifier::external_body]
pub(crate) fn push_char(s: &mut String, c: char)
    ensures
        final(s)@ == old(s)@.push(c),
{
    s.push(c)
}

/// Adds `n` copies of `c` at the end of `s`.
fn push_repeated(s: &mut String, c: char, n: usize)
    ensures
        final(s)@ == old(s)@ + repeat(c, n as int),
{
    let mut i: usize = 0;
    while i < n
        invariant
            i <= n,
            s@ == old(s)@ + repeat(c, i as int),
        decreases n - i,
    {
        push_char(s, c);
        i = i + 1;
        assert(s@ =~= old(s)@ + repeat(c, i as int));
    }
}

/// Pads `s` with `pad` to `width` columns, placed as `align` says. Where `s`
/// is already as wide, it is returned unchanged, or truncated with
/// `truncate` as its tail where that is given.
pub fn pad_str_with<'a>(
    s: &'a str,
    width: usize,
    align: Alignment,
    truncate: Option<&str>,
    pad: char,
) -> (r: Cow<'a, str>)
    requires
        s@.len() <= isize::MAX,
        truncate matches Some(t) ==> t@.len() <= isize::MAX,
    ensures
        r@ == padded(s@, width as int, align, opt_view(truncate), pad),
        text_width(s@) < width ==> r is Owned,
        text_width(s@) >= width && truncate is None ==> r is Borrowed,
{
    let cols = measure_text_width(s);
    if cols >= width {
        return match truncate {
            None => Cow::Borrowed(s),
            Some(tail) => truncate_str(s, width, tail),
        };
    }
    let diff = width - cols;
    let (left_pad, right_pad) = match align {
        Alignment::Left => (0, diff),
        Alignment::Right => (diff, 0),
        Alignment::Center => (diff / 2, diff - diff / 2),
    };
    let mut rv = String::new();
    push_repeated(&mut rv, pad, left_pad);
    rv.append(s);
    push_repeated(&mut rv, pad, right_pad);
    Cow::Owned(rv)
}

/// Pads `s` with spaces to `width` columns; see `pad_str_with`.
pub fn pad_str<'a>(s: &'a str, width: usize, align: Alignment, truncate: Option<&str>) -> (r: Cow<
    'a,
    str,
>)
    requires
        s@.len() <= isize::MAX,
        truncate matches Some(t) ==> t@.len() <= isize::MAX,
    ensures
        r@ == padded(s@, width as int, align, opt_view(truncate), ' '),
{
    pad_str_with(s, width, align, truncate, ' ')
}

} // verus!
