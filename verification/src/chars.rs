//! Character-level primitives shared by the parser, the wrapper and the
//! catalog: the whitespace predicate, whitespace trimming, and conversions
//! between `&str`, `Vec<char>` and `String`.

use vstd::prelude::*;

verus! {

/// The Unicode `White_Space` code points, the set that `str::trim` and
/// `str::split_whitespace` go by.
pub open spec fn is_space(c: char) -> bool {
    c == ' ' || c == '\t' || c == '\n' || c == '\u{000B}' || c == '\u{000C}' || c == '\r'
        || c == '\u{0085}' || c == '\u{00A0}' || c == '\u{1680}'
        || ('\u{2000}' <= c && c <= '\u{200A}')
        || c == '\u{2028}' || c == '\u{2029}' || c == '\u{202F}' || c == '\u{205F}'
        || c == '\u{3000}'
}

pub fn char_is_space(c: char) -> (r: bool)
    ensures
        r == is_space(c),
{
    c == ' ' || c == '\t' || c == '\n' || c == '\u{000B}' || c == '\u{000C}' || c == '\r'
        || c == '\u{0085}' || c == '\u{00A0}' || c == '\u{1680}'
        || ('\u{2000}' <= c && c <= '\u{200A}')
        || c == '\u{2028}' || c == '\u{2029}' || c == '\u{202F}' || c == '\u{205F}'
        || c == '\u{3000}'
}

/// What remains of `s` once its leading whitespace is dropped.
pub open spec fn trim_start(s: Seq<char>) -> Seq<char>
    decreases s.len(),
{
    if s.len() > 0 && is_space(s[0]) {
        trim_start(s.drop_first())
    } else {
        s
    }
}

/// What remains of `s` once its trailing whitespace is dropped.
pub open spec fn trim_end(s: Seq<char>) -> Seq<char>
    decreases s.len(),
{
    if s.len() > 0 && is_space(s.last()) {
        trim_end(s.drop_last())
    } else {
        s
    }
}

/// `s` with leading and trailing whitespace dropped; internal content is
/// never altered.
pub open spec fn spec_trim(s: Seq<char>) -> Seq<char> {
    trim_end(trim_start(s))
}

proof fn lemma_trim_start_skip(s: Seq<char>, i: int)
    requires
        0 <= i <= s.len(),
        forall|k: int| 0 <= k < i ==> is_space(s[k]),
    ensures
        trim_start(s) == trim_start(s.skip(i)),
    decreases i,
{
    if i > 0 {
        assert(s.skip(0) =~= s);
        assert(is_space(s[0]));
        assert(s.drop_first() =~= s.skip(1));
        lemma_trim_start_skip_step(s, 1, i);
    } else {
        assert(s.skip(0) =~= s);
    }
}

proof fn lemma_trim_start_skip_step(s: Seq<char>, j: int, i: int)
    requires
        1 <= j <= i <= s.len(),
        forall|k: int| 0 <= k < i ==> is_space(s[k]),
    ensures
        trim_start(s.skip(j - 1)) == trim_start(s.skip(i)),
    decreases i - j,
{
    assert(s.skip(j - 1)[0] == s[j - 1]);
    assert(is_space(s[j - 1]));
    assert(s.skip(j - 1).drop_first() =~= s.skip(j));
    if j < i {
        lemma_trim_start_skip_step(s, j + 1, i);
    }
}

proof fn lemma_trim_end_subrange(s: Seq<char>, b: int, e: int)
    requires
        0 <= b <= e <= s.len(),
        forall|k: int| e <= k < s.len() ==> is_space(s[k]),
    ensures
        trim_end(s.subrange(b, s.len() as int)) == trim_end(s.subrange(b, e)),
    decreases s.len() - e,
{
    if e < s.len() {
        lemma_trim_end_subrange(s, b, e + 1);
        let t = s.subrange(b, e + 1);
        assert(t.last() == s[e]);
        assert(is_space(t.last()));
        assert(t.drop_last() =~= s.subrange(b, e));
    } else {
        assert(s.subrange(b, s.len() as int) =~= s.subrange(b, e));
    }
}

/// A copy of `v` with leading and trailing whitespace removed.
pub fn trim_chars(v: &Vec<char>) -> (r: Vec<char>)
    ensures
        r@ == spec_trim(v@),
{
    let n = v.len();
    let mut a: usize = 0;
    while a < n && char_is_space(v[a])
        invariant
            0 <= a <= n == v@.len(),
            forall|k: int| 0 <= k < a ==> is_space(v@[k]),
        decreases n - a,
    {
        a = a + 1;
    }
    proof {
        lemma_trim_start_skip(v@, a as int);
        assert(v@.skip(a as int) =~= v@.subrange(a as int, n as int));
    }
    if a == n {
        proof {
            assert(v@.skip(a as int) =~= Seq::<char>::empty());
        }
        let r: Vec<char> = Vec::new();
        return r;
    }
    // v[a] is not whitespace, so trim_start(v@) == v@.subrange(a, n)
    assert(trim_start(v@) == v@.subrange(a as int, n as int));
    let mut b: usize = n;
    while b > a && char_is_space(v[b - 1])
        invariant
            a <= b <= n == v@.len(),
            forall|k: int| b <= k < n ==> is_space(v@[k]),
        decreases b,
    {
        b = b - 1;
    }
    proof {
        lemma_trim_end_subrange(v@, a as int, b as int);
        if b > a {
            let t = v@.subrange(a as int, b as int);
            assert(t.last() == v@[b - 1]);
        } else {
            assert(v@.subrange(a as int, b as int) =~= Seq::<char>::empty());
        }
        assert(trim_end(v@.subrange(a as int, b as int)) == v@.subrange(a as int, b as int));
    }
    let mut r: Vec<char> = Vec::new();
    let mut j: usize = a;
    while j < b
        invariant
            a <= j <= b <= v@.len(),
            r@ == v@.subrange(a as int, j as int),
        decreases b - j,
    {
        r.push(v[j]);
        proof {
            assert(v@.subrange(a as int, j as int).push(v@[j as int])
                =~= v@.subrange(a as int, j + 1 as int));
        }
        j = j + 1;
    }
    r
}

/// The characters of `s`, in order, as a vector.
pub fn str_to_chars(s: &str) -> (r: Vec<char>)
    ensures
        r@ == s@,
{
    let n = s.unicode_len();
    let mut r: Vec<char> = Vec::new();
    let mut i: usize = 0;
    while i < n
        invariant
            0 <= i <= n == s@.len(),
            r@ == s@.take(i as int),
        decreases n - i,
    {
        let c = s.get_char(i);
        r.push(c);
        proof {
            assert(s@.take(i as int).push(s@[i as int]) =~= s@.take(i + 1 as int));
        }
        i = i + 1;
    }
    proof {
        assert(s@.take(n as int) =~= s@);
    }
    r
}

/// Relies on `String: FromIterator<char>`: collecting an iterator of
/// characters yields the string of exactly those characters, in order.
#[verifier::external_body]
pub(crate) fn chars_to_string(v: &Vec<char>) -> (r: String)
    ensures
        r@ == v@,
{
    v.iter().collect()
}

/// The words that remain of `s` when the partial word `cur` is still open
/// and the words in `acc` are already closed. Runs of whitespace close the
/// open word; whitespace itself never enters a word.
pub open spec fn words_acc(s: Seq<char>, cur: Seq<char>, acc: Seq<Seq<char>>) -> Seq<Seq<char>>
    decreases s.len(),
{
    if s.len() == 0 {
        if cur.len() == 0 {
            acc
        } else {
            acc.push(cur)
        }
    } else if is_space(s[0]) {
        words_acc(
            s.drop_first(),
            Seq::<char>::empty(),
            if cur.len() == 0 {
                acc
            } else {
                acc.push(cur)
            },
        )
    } else {
        words_acc(s.drop_first(), cur.push(s[0]), acc)
    }
}

/// The whitespace-separated words of `s`, in order: consecutive whitespace
/// collapses, leading and trailing whitespace is discarded.
pub open spec fn spec_words(s: Seq<char>) -> Seq<Seq<char>> {
    words_acc(s, Seq::<char>::empty(), Seq::<Seq<char>>::empty())
}

/// No character of `w` is whitespace.
pub open spec fn no_space(w: Seq<char>) -> bool {
    forall|k: int| 0 <= k < w.len() ==> !is_space(#[trigger] w[k])
}

/// Every word of `ws` is non-empty and free of whitespace.
pub open spec fn all_words_wf(ws: Seq<Seq<char>>) -> bool {
    forall|k: int| 0 <= k < ws.len() ==> (#[trigger] ws[k]).len() > 0 && no_space(ws[k])
}

/// Every word that `words_acc` closes is non-empty and free of whitespace.
pub proof fn lemma_words_acc_wf(s: Seq<char>, cur: Seq<char>, acc: Seq<Seq<char>>)
    requires
        all_words_wf(acc),
        no_space(cur),
    ensures
        all_words_wf(words_acc(s, cur, acc)),
    decreases s.len(),
{
    if s.len() == 0 {
        if cur.len() > 0 {
            assert forall|k: int| 0 <= k < acc.push(cur).len() implies (#[trigger] acc.push(
                cur,
            )[k]).len() > 0 && no_space(acc.push(cur)[k]) by {
                if k == acc.len() {
                    assert(acc.push(cur)[k] == cur);
                }
            }
        }
    } else if is_space(s[0]) {
        let acc2 = if cur.len() == 0 {
            acc
        } else {
            acc.push(cur)
        };
        assert forall|k: int| 0 <= k < acc2.len() implies (#[trigger] acc2[k]).len() > 0
            && no_space(acc2[k]) by {
            if cur.len() > 0 && k == acc.len() {
                assert(acc2[k] == cur);
            }
        }
        lemma_words_acc_wf(s.drop_first(), Seq::<char>::empty(), acc2);
        assert(words_acc(s, cur, acc) == words_acc(s.drop_first(), Seq::<char>::empty(), acc2));
    } else {
        assert(no_space(cur.push(s[0]))) by {
            assert forall|k: int| 0 <= k < cur.push(s[0]).len() implies !is_space(
                #[trigger] cur.push(s[0])[k],
            ) by {
                if k == cur.len() {
                    assert(cur.push(s[0])[k] == s[0]);
                }
            }
        }
        lemma_words_acc_wf(s.drop_first(), cur.push(s[0]), acc);
    }
}

/// Every word of `spec_words(s)` is non-empty and free of whitespace.
pub proof fn lemma_words_wf(s: Seq<char>)
    ensures
        all_words_wf(spec_words(s)),
{
    lemma_words_acc_wf(s, Seq::<char>::empty(), Seq::<Seq<char>>::empty());
}

/// Closed words accumulate on the left: the words of `s` from any starting
/// accumulator are the accumulator followed by the words from an empty one.
pub proof fn lemma_words_acc_prefix(s: Seq<char>, cur: Seq<char>, acc: Seq<Seq<char>>)
    ensures
        words_acc(s, cur, acc) == acc + words_acc(s, cur, Seq::<Seq<char>>::empty()),
    decreases s.len(),
{
    let e = Seq::<Seq<char>>::empty();
    if s.len() == 0 {
        if cur.len() == 0 {
            assert(acc + e =~= acc);
        } else {
            assert(acc + e.push(cur) =~= acc.push(cur));
        }
    } else if is_space(s[0]) {
        if cur.len() == 0 {
            lemma_words_acc_prefix(s.drop_first(), Seq::<char>::empty(), acc);
        } else {
            lemma_words_acc_prefix(s.drop_first(), Seq::<char>::empty(), acc.push(cur));
            lemma_words_acc_prefix(s.drop_first(), Seq::<char>::empty(), e.push(cur));
            assert(acc.push(cur) + words_acc(s.drop_first(), Seq::<char>::empty(), e) =~= acc + (
            e.push(cur) + words_acc(s.drop_first(), Seq::<char>::empty(), e)));
        }
    } else {
        lemma_words_acc_prefix(s.drop_first(), cur.push(s[0]), acc);
    }
}

/// A whitespace-free, non-empty text is a single word, appended to the
/// open partial word.
pub proof fn lemma_words_acc_nospace(s: Seq<char>, cur: Seq<char>, acc: Seq<Seq<char>>)
    requires
        s.len() > 0,
        no_space(s),
    ensures
        words_acc(s, cur, acc) == acc.push(cur + s),
    decreases s.len(),
{
    assert(!is_space(s[0]));
    if s.len() == 1 {
        assert(words_acc(s, cur, acc) == words_acc(s.drop_first(), cur.push(s[0]), acc));
        assert(s.drop_first().len() == 0);
        assert(words_acc(s.drop_first(), cur.push(s[0]), acc) == acc.push(cur.push(s[0])));
        assert(cur.push(s[0]) =~= cur + s);
    } else {
        assert(no_space(s.drop_first())) by {
            assert forall|k: int| 0 <= k < s.drop_first().len() implies !is_space(
                #[trigger] s.drop_first()[k],
            ) by {
                assert(s.drop_first()[k] == s[k + 1]);
            }
        }
        lemma_words_acc_nospace(s.drop_first(), cur.push(s[0]), acc);
        assert(cur.push(s[0]) + s.drop_first() =~= cur + s);
    }
}

/// A whitespace-free, non-empty text is exactly one word.
pub proof fn lemma_words_single(w: Seq<char>)
    requires
        w.len() > 0,
        no_space(w),
    ensures
        spec_words(w) == seq![w],
{
    lemma_words_acc_nospace(w, Seq::<char>::empty(), Seq::<Seq<char>>::empty());
    assert(Seq::<char>::empty() + w =~= w);
    assert(Seq::<Seq<char>>::empty().push(w) =~= seq![w]);
}

/// Scanning past a space flushes the open word: the words of
/// `x + " " + y` continue from the closed words of `x`.
pub proof fn lemma_words_acc_split(x: Seq<char>, y: Seq<char>, cur: Seq<char>, acc: Seq<Seq<char>>)
    ensures
        words_acc(x + seq![' '] + y, cur, acc) == words_acc(
            y,
            Seq::<char>::empty(),
            words_acc(x, cur, acc),
        ),
    decreases x.len(),
{
    let s = x + seq![' '] + y;
    if x.len() == 0 {
        assert(s[0] == ' ');
        assert(is_space(' '));
        assert(s.drop_first() =~= y);
    } else {
        assert(s[0] == x[0]);
        assert(s.drop_first() =~= x.drop_first() + seq![' '] + y);
        if is_space(x[0]) {
            let acc2 = if cur.len() == 0 {
                acc
            } else {
                acc.push(cur)
            };
            lemma_words_acc_split(x.drop_first(), y, Seq::<char>::empty(), acc2);
        } else {
            lemma_words_acc_split(x.drop_first(), y, cur.push(x[0]), acc);
        }
    }
}

/// The words of `x + " " + y` are the words of `x` followed by those of
/// `y`: a space at the junction keeps words from merging.
pub proof fn lemma_words_space_concat(x: Seq<char>, y: Seq<char>)
    ensures
        spec_words(x + seq![' '] + y) == spec_words(x) + spec_words(y),
{
    lemma_words_acc_split(x, y, Seq::<char>::empty(), Seq::<Seq<char>>::empty());
    lemma_words_acc_prefix(y, Seq::<char>::empty(), spec_words(x));
}

/// The views of a vector of strings.
pub open spec fn string_views(v: Seq<String>) -> Seq<Seq<char>> {
    v.map_values(|s: String| s@)
}

/// The views of a vector of character vectors.
pub open spec fn char_vec_views(v: Seq<Vec<char>>) -> Seq<Seq<char>> {
    v.map_values(|w: Vec<char>| w@)
}

/// Splits `v` into its whitespace-separated words.
pub fn split_words(v: &Vec<char>) -> (r: Vec<Vec<char>>)
    ensures
        char_vec_views(r@) == spec_words(v@),
{
    let n = v.len();
    let mut i: usize = 0;
    let mut cur: Vec<char> = Vec::new();
    let mut out: Vec<Vec<char>> = Vec::new();
    proof {
        assert(v@.skip(0) =~= v@);
        assert(char_vec_views(out@) =~= Seq::<Seq<char>>::empty());
    }
    while i < n
        invariant
            0 <= i <= n == v@.len(),
            words_acc(v@.skip(i as int), cur@, char_vec_views(out@)) == spec_words(v@),
        decreases n - i,
    {
        let ghost rest = v@.skip(i as int);
        proof {
            assert(rest[0] == v@[i as int]);
            assert(rest.drop_first() =~= v@.skip(i + 1));
        }
        let c = v[i];
        if char_is_space(c) {
            proof {
                if cur@.len() == 0 {
                    assert(cur@ =~= Seq::<char>::empty());
                }
            }
            if cur.len() > 0 {
                let ghost old_out = out@;
                let ghost old_cur = cur@;
                out.push(cur);
                cur = Vec::new();
                proof {
                    assert(char_vec_views(out@) =~= char_vec_views(old_out).push(old_cur));
                    assert(words_acc(rest, old_cur, char_vec_views(old_out)) == words_acc(
                        rest.drop_first(),
                        Seq::<char>::empty(),
                        char_vec_views(old_out).push(old_cur),
                    ));
                }
            }
        } else {
            cur.push(c);
        }
        i = i + 1;
    }
    proof {
        assert(v@.skip(n as int) =~= Seq::<char>::empty());
    }
    if cur.len() > 0 {
        let ghost old_out = out@;
        out.push(cur);
        proof {
            assert(char_vec_views(old_out.push(cur)) =~= char_vec_views(old_out).push(cur@));
        }
    }
    out
}

} // verus!
