//! The greedy word wrapper: words are packed onto lines as long as the
//! estimated width — character count times `font_size / 2` pixels — stays
//! within the budget. A word that alone exceeds the budget still gets a
//! line of its own, never split or truncated.

use vstd::prelude::*;
use crate::chars::{
    spec_words, split_words, str_to_chars, chars_to_string, char_vec_views, no_space, string_views,
    all_words_wf, lemma_words_wf, lemma_words_single, lemma_words_space_concat,
};

verus! {

/// Whether a line of `len` characters overflows the pixel budget under the
/// crude per-character estimate of `font_size / 2` pixels.
pub open spec fn line_too_wide(len: int, max_width: int, font_size: int) -> bool {
    len * (font_size / 2) > max_width
}

/// The candidate made by appending `w` to the line `cur`: the word alone
/// when the line is empty, otherwise line, single space, word.
pub open spec fn extend_line(cur: Seq<char>, w: Seq<char>) -> Seq<char> {
    if cur.len() == 0 {
        w
    } else {
        cur + seq![' '] + w
    }
}

/// The finished lines after greedily placing `ws` onto the open line `cur`,
/// with `acc` already flushed.
pub open spec fn wrap_words(
    ws: Seq<Seq<char>>,
    cur: Seq<char>,
    acc: Seq<Seq<char>>,
    max_width: int,
    font_size: int,
) -> Seq<Seq<char>>
    decreases ws.len(),
{
    if ws.len() == 0 {
        if cur.len() == 0 {
            acc
        } else {
            acc.push(cur)
        }
    } else {
        let cand = extend_line(cur, ws[0]);
        if line_too_wide(cand.len() as int, max_width, font_size) {
            if cur.len() > 0 {
                wrap_words(ws.drop_first(), ws[0], acc.push(cur), max_width, font_size)
            } else {
                wrap_words(ws.drop_first(), cur, acc.push(ws[0]), max_width, font_size)
            }
        } else {
            wrap_words(ws.drop_first(), cand, acc, max_width, font_size)
        }
    }
}

/// The wrapped lines of `text`: its words, greedily packed. Empty input
/// gives no lines at all.
pub open spec fn spec_wrap(text: Seq<char>, max_width: int, font_size: int) -> Seq<Seq<char>> {
    wrap_words(spec_words(text), Seq::<char>::empty(), Seq::<Seq<char>>::empty(), max_width,
        font_size)
}

/// All words of all lines, line by line, in order.
pub open spec fn words_of_lines(lines: Seq<Seq<char>>) -> Seq<Seq<char>>
    decreases lines.len(),
{
    if lines.len() == 0 {
        Seq::<Seq<char>>::empty()
    } else {
        words_of_lines(lines.drop_last()) + spec_words(lines.last())
    }
}

proof fn lemma_words_of_lines_push(lines: Seq<Seq<char>>, l: Seq<char>)
    ensures
        words_of_lines(lines.push(l)) == words_of_lines(lines) + spec_words(l),
{
    assert(lines.push(l).drop_last() =~= lines);
    assert(lines.push(l).last() == l);
}

/// One word appended to a line contributes exactly that word.
proof fn lemma_extend_line_words(cur: Seq<char>, w: Seq<char>)
    requires
        w.len() > 0,
        no_space(w),
    ensures
        spec_words(extend_line(cur, w)) == spec_words(cur) + seq![w],
{
    lemma_words_single(w);
    if cur.len() == 0 {
        assert(spec_words(cur) + seq![w] =~= seq![w]);
    } else {
        lemma_words_space_concat(cur, w);
    }
}

proof fn lemma_wrap_words_preserve(
    ws: Seq<Seq<char>>,
    cur: Seq<char>,
    acc: Seq<Seq<char>>,
    max_width: int,
    font_size: int,
)
    requires
        all_words_wf(ws),
    ensures
        words_of_lines(wrap_words(ws, cur, acc, max_width, font_size)) == words_of_lines(acc)
            + spec_words(cur) + ws,
    decreases ws.len(),
{
    if ws.len() == 0 {
        if cur.len() == 0 {
            assert(spec_words(cur) =~= Seq::<Seq<char>>::empty());
            assert(words_of_lines(acc) + spec_words(cur) + ws =~= words_of_lines(acc));
        } else {
            lemma_words_of_lines_push(acc, cur);
            assert(words_of_lines(acc) + spec_words(cur) + ws =~= words_of_lines(acc)
                + spec_words(cur));
        }
    } else {
        let w = ws[0];
        let tail = ws.drop_first();
        assert(all_words_wf(tail)) by {
            assert forall|k: int| 0 <= k < tail.len() implies (#[trigger] tail[k]).len() > 0
                && no_space(tail[k]) by {
                assert(tail[k] == ws[k + 1]);
            }
        }
        assert(w.len() > 0 && no_space(w));
        let cand = extend_line(cur, w);
        lemma_extend_line_words(cur, w);
        lemma_words_single(w);
        if line_too_wide(cand.len() as int, max_width, font_size) {
            if cur.len() > 0 {
                lemma_wrap_words_preserve(tail, w, acc.push(cur), max_width, font_size);
                lemma_words_of_lines_push(acc, cur);
                assert(words_of_lines(acc.push(cur)) + spec_words(w) + tail =~= words_of_lines(
                    acc,
                ) + spec_words(cur) + ws);
            } else {
                lemma_wrap_words_preserve(tail, cur, acc.push(w), max_width, font_size);
                lemma_words_of_lines_push(acc, w);
                assert(spec_words(cur) =~= Seq::<Seq<char>>::empty());
                assert(words_of_lines(acc.push(w)) + spec_words(cur) + tail =~= words_of_lines(
                    acc,
                ) + spec_words(cur) + ws);
            }
        } else {
            lemma_wrap_words_preserve(tail, cand, acc, max_width, font_size);
            assert(words_of_lines(acc) + spec_words(cand) + tail =~= words_of_lines(acc)
                + spec_words(cur) + ws);
        }
    }
}

/// Wrapping loses, duplicates and reorders nothing: the words of the
/// returned lines, concatenated in order, are exactly the words of the
/// input text.
pub proof fn lemma_wrap_preserves_words(text: Seq<char>, max_width: int, font_size: int)
    ensures
        words_of_lines(spec_wrap(text, max_width, font_size)) == spec_words(text),
{
    lemma_words_wf(text);
    lemma_wrap_words_preserve(
        spec_words(text),
        Seq::<char>::empty(),
        Seq::<Seq<char>>::empty(),
        max_width,
        font_size,
    );
    assert(spec_words(Seq::<char>::empty()) =~= Seq::<Seq<char>>::empty());
    assert(words_of_lines(Seq::<Seq<char>>::empty()) + Seq::<Seq<char>>::empty() + spec_words(
        text,
    ) =~= spec_words(text));
}

/// A text that is one single word — however wide — wraps to exactly one
/// line holding that word unmodified: words are never split or truncated.
pub proof fn lemma_single_word_one_line(w: Seq<char>, max_width: int, font_size: int)
    requires
        w.len() > 0,
        no_space(w),
    ensures
        spec_wrap(w, max_width, font_size) == seq![w],
{
    lemma_words_single(w);
    let e = Seq::<char>::empty();
    let ea = Seq::<Seq<char>>::empty();
    assert(extend_line(e, w) == w);
    if line_too_wide(w.len() as int, max_width, font_size) {
        assert(seq![w].drop_first() =~= ea);
        assert(wrap_words(seq![w], e, ea, max_width, font_size) == wrap_words(
            ea,
            e,
            ea.push(w),
            max_width,
            font_size,
        ));
        assert(ea.push(w) =~= seq![w]);
    } else {
        assert(seq![w].drop_first() =~= ea);
        assert(wrap_words(seq![w], e, ea, max_width, font_size) == wrap_words(
            ea,
            w,
            ea,
            max_width,
            font_size,
        ));
        assert(ea.push(w) =~= seq![w]);
    }
}

proof fn lemma_div_test(len: int, max_width: int, approx: int)
    requires
        len >= 0,
        approx > 0,
        max_width >= 0,
    ensures
        (len > max_width / approx) <==> (len * approx > max_width),
{
    let q = max_width / approx;
    let r = max_width % approx;
    assert(max_width == q * approx + r && 0 <= r < approx) by (nonlinear_arith)
        requires
            approx > 0,
            max_width >= 0,
            q == max_width / approx,
            r == max_width % approx,
    ;
    assert((len > q) <==> (len * approx > q * approx + r)) by (nonlinear_arith)
        requires
            0 <= r < approx,
            len >= 0,
            approx > 0,
    ;
}

/// Decides the width test exactly as `line_too_wide` states it, without
/// any overflowing arithmetic.
fn too_wide(len: usize, max_width: i32, font_size: i32) -> (r: bool)
    requires
        font_size >= 0,
    ensures
        r == line_too_wide(len as int, max_width as int, font_size as int),
{
    let approx: i32 = font_size / 2;
    if approx == 0 {
        max_width < 0
    } else if max_width < 0 {
        proof {
            assert(len as int * (approx as int) >= 0) by (nonlinear_arith)
                requires
                    len as int >= 0,
                    approx as int > 0,
            ;
        }
        true
    } else {
        proof {
            lemma_div_test(len as int, max_width as int, approx as int);
        }
        len > (max_width / approx) as usize
    }
}

/// A fresh copy of `cur` extended by a space (when non-empty) and `w`.
fn make_candidate(cur: &Vec<char>, w: &Vec<char>) -> (c: Vec<char>)
    ensures
        c@ == extend_line(cur@, w@),
{
    let mut c: Vec<char> = Vec::new();
    let mut i: usize = 0;
    while i < cur.len()
        invariant
            0 <= i <= cur@.len(),
            c@ == cur@.take(i as int),
        decreases cur@.len() - i,
    {
        c.push(cur[i]);
        proof {
            assert(cur@.take(i as int).push(cur@[i as int]) =~= cur@.take(i + 1));
        }
        i = i + 1;
    }
    proof {
        assert(cur@.take(cur@.len() as int) =~= cur@);
    }
    if cur.len() > 0 {
        c.push(' ');
    }
    let ghost base = c@;
    let mut j: usize = 0;
    while j < w.len()
        invariant
            0 <= j <= w@.len(),
            c@ == base + w@.take(j as int),
        decreases w@.len() - j,
    {
        proof {
            assert((base + w@.take(j as int)).push(w@[j as int]) =~= base + w@.take(j + 1));
        }
        c.push(w[j]);
        j = j + 1;
    }
    proof {
        assert(base + w@.take(w@.len() as int) =~= base + w@);
        if cur@.len() == 0 {
            assert(c@ =~= w@);
        } else {
            assert(c@ =~= cur@ + seq![' '] + w@);
        }
    }
    c
}

/// Reflows `text` into display lines within the width budget: as many
/// whitespace-separated words per line as the estimate allows, a lone
/// over-wide word on a line of its own, and no line emitted for empty
/// input.
pub fn wrap_text(text: &str, max_width: i32, font_size: i32) -> (r: Vec<String>)
    requires
        font_size >= 0,
    ensures
        string_views(r@) == spec_wrap(text@, max_width as int, font_size as int),
{
    let chars = str_to_chars(text);
    let words = split_words(&chars);
    let ghost ws = spec_words(text@);
    let n = words.len();
    let mut lines: Vec<String> = Vec::new();
    let mut cur: Vec<char> = Vec::new();
    let mut wi: usize = 0;
    proof {
        assert(char_vec_views(words@).skip(0) =~= char_vec_views(words@));
        assert(string_views(lines@) =~= Seq::<Seq<char>>::empty());
    }
    while wi < n
        invariant
            font_size >= 0,
            0 <= wi <= n == words@.len(),
            char_vec_views(words@) == ws,
            wrap_words(ws.skip(wi as int), cur@, string_views(lines@), max_width as int,
                font_size as int) == spec_wrap(text@, max_width as int, font_size as int),
        decreases n - wi,
    {
        let ghost rest = ws.skip(wi as int);
        proof {
            assert(rest[0] == ws[wi as int]);
            assert(rest.drop_first() =~= ws.skip(wi + 1));
            assert(words@[wi as int]@ == ws[wi as int]);
        }
        let word = &words[wi];
        let cand = make_candidate(&cur, word);
        if too_wide(cand.len(), max_width, font_size) {
            if cur.len() > 0 {
                let ghost old_lines = lines@;
                let ghost old_cur = cur@;
                let line = chars_to_string(&cur);
                lines.push(line);
                proof {
                    assert(string_views(lines@) =~= string_views(old_lines).push(old_cur));
                }
                cur = make_candidate(&Vec::new(), word);
            } else {
                proof {
                    assert(cur@ =~= Seq::<char>::empty());
                }
                let ghost old_lines = lines@;
                let line = chars_to_string(word);
                lines.push(line);
                proof {
                    assert(string_views(lines@) =~= string_views(old_lines).push(rest[0]));
                }
            }
        } else {
            cur = cand;
        }
        wi = wi + 1;
    }
    proof {
        assert(ws.skip(n as int) =~= Seq::<Seq<char>>::empty());
    }
    if cur.len() > 0 {
        let ghost old_lines = lines@;
        let ghost old_cur = cur@;
        let line = chars_to_string(&cur);
        lines.push(line);
        proof {
            assert(string_views(lines@) =~= string_views(old_lines).push(old_cur));
        }
    }
    lines
}

} // verus!
