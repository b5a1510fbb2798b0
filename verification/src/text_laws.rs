//! What holds of texts: searching, splitting, and previews.
use crate::text;
use crate::text::PREVIEW_N;
use vstd::prelude::*;

verus! {

/// The first `c` of `a + [c] + b` stands behind `a`, where `a` has none.
pub proof fn lemma_first_index(a: Seq<char>, c: char, b: Seq<char>)
    requires
        !a.contains(c),
    ensures
        text::first_index(a + seq![c] + b, c) == a.len(),
    decreases a.len(),
{
    let s = a + seq![c] + b;
    if a.len() > 0 {
        assert(a[0] != c) by {
            assert(a.contains(a[0]));
        }
        let rest = a.drop_first();
        assert(!rest.contains(c)) by {
            if rest.contains(c) {
                let k = choose|k: int| 0 <= k < rest.len() && rest[k] == c;
                assert(a[k + 1] == c);
            }
        }
        lemma_first_index(rest, c, b);
        assert(s.drop_first() =~= rest + seq![c] + b);
    }
}

/// A text without `c` has no first `c`.
pub proof fn lemma_no_index(s: Seq<char>, c: char)
    requires
        !s.contains(c),
    ensures
        text::first_index(s, c) == s.len(),
    decreases s.len(),
{
    if s.len() > 0 {
        assert(s[0] != c) by {
            assert(s.contains(s[0]));
        }
        let rest = s.drop_first();
        assert(!rest.contains(c)) by {
            if rest.contains(c) {
                let k = choose|k: int| 0 <= k < rest.len() && rest[k] == c;
                assert(s[k + 1] == c);
            }
        }
        lemma_no_index(rest, c);
    }
}

/// Two texts without `c` make a text without `c`.
pub proof fn lemma_lacks(a: Seq<char>, b: Seq<char>, c: char)
    requires
        !a.contains(c),
        !b.contains(c),
    ensures
        !(a + b).contains(c),
{
    let s = a + b;
    if s.contains(c) {
        let k = choose|k: int| 0 <= k < s.len() && s[k] == c;
        if k < a.len() {
            assert(a[k] == c);
        } else {
            assert(b[k - a.len()] == c);
        }
    }
}

/// A text that neither starts nor ends with whitespace is trimmed.
pub proof fn lemma_trimmed(s: Seq<char>)
    requires
        s.len() > 0,
        !text::is_space(s[0]),
        !text::is_space(s.last()),
    ensures
        text::trimmed(s) == s,
{
}

/// A text without the separator is one piece.
pub proof fn lemma_one_piece(s: Seq<char>, sep: char)
    requires
        !s.contains(sep),
    ensures
        text::pieces(s, sep) == seq![s],
    decreases s.len(),
{
    if s.len() > 0 {
        let init = s.drop_last();
        assert(!init.contains(sep)) by {
            if init.contains(sep) {
                let k = choose|k: int| 0 <= k < init.len() && init[k] == sep;
                assert(s[k] == sep);
            }
        }
        lemma_one_piece(init, sep);
        assert(s.last() != sep) by {
            assert(s.contains(s.last()));
        }
        assert(init.push(s.last()) =~= s);
        assert(text::pieces(s, sep) =~= seq![s]);
    } else {
        assert(s =~= Seq::empty());
    }
}

/// Behind a separator comes one more piece.
pub proof fn lemma_more_pieces(a: Seq<char>, sep: char, b: Seq<char>)
    requires
        !b.contains(sep),
    ensures
        text::pieces(a + seq![sep] + b, sep) == text::pieces(a, sep).push(b),
    decreases b.len(),
{
    let s = a + seq![sep] + b;
    if b.len() == 0 {
        assert(s.drop_last() =~= a);
        assert(b =~= Seq::empty());
    } else {
        let init = b.drop_last();
        assert(!init.contains(sep)) by {
            if init.contains(sep) {
                let k = choose|k: int| 0 <= k < init.len() && init[k] == sep;
                assert(b[k] == sep);
            }
        }
        assert(b.last() != sep) by {
            assert(b.contains(b.last()));
        }
        lemma_more_pieces(a, sep, init);
        assert(s.drop_last() =~= a + seq![sep] + init);
        assert(init.push(b.last()) =~= b);
        assert(text::pieces(s, sep) =~= text::pieces(a, sep).push(b));
    }
}

/// A text as a preview leaves it: no whitespace but single spaces, and none in
/// front.
pub open spec fn is_tidy(s: Seq<char>) -> bool {
    &&& forall|i: int| 0 <= i < s.len() && text::is_space(#[trigger] s[i]) ==> s[i] == ' '
    &&& forall|i: int|
        0 < i < s.len() && text::is_space(#[trigger] s[i]) ==> !text::is_space(s[i - 1])
    &&& s.len() > 0 ==> !text::is_space(s[0])
}

/// Words with single spaces between them are tidy, and end in a word.
proof fn lemma_joined_tidy(ws: Seq<Seq<char>>)
    requires
        forall|i: int| 0 <= i < ws.len() ==> text::is_word(#[trigger] ws[i]),
    ensures
        is_tidy(text::joined(ws)),
        ws.len() > 0 ==> text::joined(ws).len() > 0 && !text::is_space(text::joined(ws).last()),
    decreases ws.len(),
{
    if ws.len() == 1 {
        assert(text::is_word(ws[0]));
    } else if ws.len() > 1 {
        let init = ws.drop_last();
        let w = ws.last();
        let a = text::joined(init);
        let s = text::joined(ws);
        assert forall|i: int| 0 <= i < init.len() implies text::is_word(#[trigger] init[i]) by {
            assert(init[i] == ws[i]);
        }
        lemma_joined_tidy(init);
        assert(text::is_word(ws[ws.len() - 1]));
        assert forall|i: int| 0 <= i < s.len() && text::is_space(#[trigger] s[i]) implies s[i] == ' '
            && (i > 0 ==> !text::is_space(s[i - 1])) by {
            if i < a.len() {
                assert(s[i] == a[i]);
                if i > 0 {
                    assert(s[i - 1] == a[i - 1]);
                }
            } else if i == a.len() {
                assert(s[i - 1] == a[a.len() - 1]);
            } else {
                assert(s[i] == w[i - a.len() - 1]);
            }
        }
        assert(s[0] == a[0]);
        assert(s.last() == w.last());
        assert(w.last() == w[w.len() - 1]);
    }
}

/// A preview has at most [`PREVIEW_N`] characters, no whitespace but single
/// spaces, and none in front.
pub proof fn law_previews_are_short_and_tidy(s: Seq<char>)
    ensures
        text::preview_of(s).len() <= PREVIEW_N,
        is_tidy(text::preview_of(s)),
{
    text::lemma_words(s);
    lemma_joined_tidy(text::words(s));
    let c = text::collapsed(s);
    let p = text::preview_of(s);
    assert forall|i: int| 0 <= i < p.len() implies #[trigger] p[i] == c[i] by {}
}

/// One more word behind a space, or in front.
proof fn lemma_one_more_word(a: Seq<char>, w: Seq<char>)
    requires
        a.len() == 0 || text::is_space(a.last()),
        text::is_word(w),
    ensures
        text::words(a + w) == text::words(a).push(w),
    decreases w.len(),
{
    let s = a + w;
    let c = w.last();
    assert(c == w[w.len() - 1]);
    assert(s.last() == c);
    if w.len() == 1 {
        assert(s.drop_last() =~= a);
        assert(w =~= seq![c]);
    } else {
        let v = w.drop_last();
        assert(text::is_word(v)) by {
            assert forall|i: int| 0 <= i < v.len() implies !text::is_space(#[trigger] v[i]) by {
                assert(v[i] == w[i]);
            }
        }
        lemma_one_more_word(a, v);
        assert(s.drop_last() =~= a + v);
        assert((a + v).last() == v[v.len() - 1]);
        assert(v.push(c) =~= w);
        assert(text::words(s) =~= text::words(a).push(w));
    }
}

/// Joining words loses none of them.
proof fn lemma_words_of_joined(ws: Seq<Seq<char>>)
    requires
        forall|i: int| 0 <= i < ws.len() ==> text::is_word(#[trigger] ws[i]),
    ensures
        text::words(text::joined(ws)) == ws,
    decreases ws.len(),
{
    if ws.len() == 0 {
        assert(text::words(text::joined(ws)) =~= ws);
    } else if ws.len() == 1 {
        let none = Seq::<char>::empty();
        assert(text::is_word(ws[0]));
        lemma_one_more_word(none, ws[0]);
        assert(none + ws[0] =~= ws[0]);
        assert(text::words(none) =~= Seq::empty());
        assert(ws =~= seq![ws[0]]);
    } else {
        let init = ws.drop_last();
        let w = ws.last();
        assert forall|i: int| 0 <= i < init.len() implies text::is_word(#[trigger] init[i]) by {
            assert(init[i] == ws[i]);
        }
        lemma_words_of_joined(init);
        let a = text::joined(init) + seq![' '];
        assert(a.drop_last() =~= text::joined(init));
        assert(text::words(a) == init);
        assert(text::is_word(ws[ws.len() - 1]));
        lemma_one_more_word(a, w);
        assert(init.push(w) =~= ws);
    }
}

/// Collapsing whitespace keeps the words, and collapsing twice is collapsing once.
pub proof fn law_collapsing_keeps_words(s: Seq<char>)
    ensures
        text::words(text::collapsed(s)) == text::words(s),
        text::collapsed(text::collapsed(s)) == text::collapsed(s),
{
    text::lemma_words(s);
    lemma_words_of_joined(text::words(s));
}

/// A preview of a text short enough is the whole of it, collapsed, and is its own
/// preview.
pub proof fn law_short_previews_are_whole(s: Seq<char>)
    requires
        text::collapsed(s).len() <= PREVIEW_N,
    ensures
        text::preview_of(s) == text::collapsed(s),
        text::preview_of(text::preview_of(s)) == text::preview_of(s),
{
    law_collapsing_keeps_words(s);
}

/// Trimming takes the whitespace at both ends away, and nothing else.
pub proof fn law_trimming_takes_whitespace_away(front: Seq<char>, s: Seq<char>, end: Seq<char>)
    requires
        forall|i: int| 0 <= i < front.len() ==> text::is_space(#[trigger] front[i]),
        forall|i: int| 0 <= i < end.len() ==> text::is_space(#[trigger] end[i]),
        s.len() > 0,
        !text::is_space(s[0]),
        !text::is_space(s.last()),
    ensures
        text::trimmed(front + s + end) == s,
{
    lemma_trim_front(front, s + end);
    assert(front + s + end =~= front + (s + end));
    assert((s + end)[0] == s[0]);
    lemma_trim_end(s, end);
}

proof fn lemma_trim_front(front: Seq<char>, s: Seq<char>)
    requires
        forall|i: int| 0 <= i < front.len() ==> text::is_space(#[trigger] front[i]),
        s.len() == 0 || !text::is_space(s[0]),
    ensures
        text::trimmed_start(front + s) == s,
    decreases front.len(),
{
    if front.len() == 0 {
        assert(front + s =~= s);
    } else {
        let rest = front.drop_first();
        assert(text::is_space(front[0]));
        assert forall|i: int| 0 <= i < rest.len() implies text::is_space(#[trigger] rest[i]) by {
            assert(rest[i] == front[i + 1]);
        }
        lemma_trim_front(rest, s);
        assert((front + s).drop_first() =~= rest + s);
    }
}

proof fn lemma_trim_end(s: Seq<char>, end: Seq<char>)
    requires
        forall|i: int| 0 <= i < end.len() ==> text::is_space(#[trigger] end[i]),
        s.len() == 0 || !text::is_space(s.last()),
    ensures
        text::trimmed_end(s + end) == s,
    decreases end.len(),
{
    if end.len() == 0 {
        assert(s + end =~= s);
    } else {
        let init = end.drop_last();
        assert(text::is_space(end[end.len() - 1]));
        assert forall|i: int| 0 <= i < init.len() implies text::is_space(#[trigger] init[i]) by {
            assert(init[i] == end[i]);
        }
        lemma_trim_end(s, init);
        assert((s + end).drop_last() =~= s + init);
    }
}

/// The words of a text are what stands between its whitespace: one more word behind
/// whitespace is one more word, and whitespace at the end adds none.
pub proof fn law_words_stand_between_spaces(a: Seq<char>, gap: Seq<char>, w: Seq<char>)
    requires
        gap.len() > 0,
        forall|i: int| 0 <= i < gap.len() ==> text::is_space(#[trigger] gap[i]),
        w.len() > 0,
        forall|i: int| 0 <= i < w.len() ==> !text::is_space(#[trigger] w[i]),
    ensures
        text::words(Seq::empty()).len() == 0,
        text::words(w) == seq![w],
        text::words(a + gap) == text::words(a),
        text::words(a + gap + w) == text::words(a).push(w),
{
    lemma_space_at_end(a, gap);
    assert((a + gap).last() == gap[gap.len() - 1]);
    lemma_one_more_word(a + gap, w);
    let none = Seq::<char>::empty();
    lemma_one_more_word(none, w);
    assert(none + w =~= w);
    assert(text::words(none) =~= Seq::empty());
    assert(text::words(w) =~= seq![w]);
}

proof fn lemma_space_at_end(a: Seq<char>, gap: Seq<char>)
    requires
        forall|i: int| 0 <= i < gap.len() ==> text::is_space(#[trigger] gap[i]),
    ensures
        text::words(a + gap) == text::words(a),
    decreases gap.len(),
{
    if gap.len() == 0 {
        assert(a + gap =~= a);
    } else {
        let init = gap.drop_last();
        assert(text::is_space(gap[gap.len() - 1]));
        assert forall|i: int| 0 <= i < init.len() implies text::is_space(#[trigger] init[i]) by {
            assert(init[i] == gap[i]);
        }
        lemma_space_at_end(a, init);
        assert((a + gap).drop_last() =~= a + init);
    }
}

/// A preview is the words of a text with single spaces between them, or the first
/// 220 characters of that: one more word behind whitespace is seen behind a space,
/// as far as there is room.
pub proof fn law_previews_show_the_words(a: Seq<char>, gap: Seq<char>, w: Seq<char>)
    requires
        gap.len() > 0,
        forall|i: int| 0 <= i < gap.len() ==> text::is_space(#[trigger] gap[i]),
        w.len() > 0,
        forall|i: int| 0 <= i < w.len() ==> !text::is_space(#[trigger] w[i]),
    ensures
        text::preview_of(Seq::empty()).len() == 0,
        text::preview_of(a + gap) == text::preview_of(a),
        w.len() <= 220 ==> text::preview_of(w) == w,
        w.len() > 220 ==> text::preview_of(w) == w.take(220),
        text::words(a).len() > 0 && text::collapsed(a).len() + 1 + w.len() <= 220
            ==> text::preview_of(a + gap + w) == text::preview_of(a) + seq![' '] + w,
        text::words(a).len() == 0 ==> text::preview_of(a + gap + w) == text::preview_of(w),
        text::words(a).len() > 0 && text::collapsed(a).len() <= 220 < text::collapsed(a).len() + 1
            + w.len() ==> text::preview_of(a + gap + w) == (text::preview_of(a) + seq![' ']
            + w).take(220),
        text::collapsed(a).len() > 220 ==> text::preview_of(a + gap + w) == text::preview_of(a),
{
    law_words_stand_between_spaces(a, gap, w);
    let ws = text::words(a);
    let all = ws.push(w);
    assert(all.drop_last() =~= ws);
    assert(text::joined(seq![w]) == w);
    if ws.len() == 0 {
        assert(all =~= seq![w]);
        assert(text::collapsed(a).len() == 0);
    }
    if text::collapsed(a).len() > 220 {
        assert((text::collapsed(a) + seq![' '] + w).take(220) =~= text::collapsed(a).take(220));
    }
}

/// The code points of whitespace.
pub open spec fn whitespace() -> Seq<int> {
    seq![
        0x09int,
        0x0a,
        0x0b,
        0x0c,
        0x0d,
        0x20,
        0x85,
        0xa0,
        0x1680,
        0x2000,
        0x2001,
        0x2002,
        0x2003,
        0x2004,
        0x2005,
        0x2006,
        0x2007,
        0x2008,
        0x2009,
        0x200a,
        0x2028,
        0x2029,
        0x202f,
        0x205f,
        0x3000,
    ]
}

/// Whitespace is what Unicode calls so, and nothing else.
pub proof fn law_whitespace(c: char)
    ensures
        text::is_space(c) <==> whitespace().contains(c as int),
{
    let w = whitespace();
    let n = c as int;
    if text::is_space(c) {
        if 0x09 <= n <= 0x0d {
            assert(w[n - 0x09] == n);
        } else if 0x2000 <= n <= 0x200a {
            assert(w[9 + n - 0x2000] == n);
        } else if n == 0x20 {
            assert(w[5] == n);
        } else if n == 0x85 {
            assert(w[6] == n);
        } else if n == 0xa0 {
            assert(w[7] == n);
        } else if n == 0x1680 {
            assert(w[8] == n);
        } else if n == 0x2028 {
            assert(w[20] == n);
        } else if n == 0x2029 {
            assert(w[21] == n);
        } else if n == 0x202f {
            assert(w[22] == n);
        } else if n == 0x205f {
            assert(w[23] == n);
        } else {
            assert(w[24] == n);
        }
    }
}

/// Nothing but whitespace trims to nothing.
pub proof fn law_blank_texts_trim_to_nothing(gap: Seq<char>)
    requires
        forall|i: int| 0 <= i < gap.len() ==> text::is_space(#[trigger] gap[i]),
    ensures
        text::trimmed(gap).len() == 0,
{
    lemma_trim_front(gap, Seq::empty());
    assert(gap + Seq::<char>::empty() =~= gap);
}

} // verus!
