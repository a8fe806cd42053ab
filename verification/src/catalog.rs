//! The deck catalog: an ordered, cyclically navigable list of deck files.
//! Construction filters a directory snapshot down to names with the deck
//! extension, sorts them by code point, and refuses an empty result; the
//! other operations derive paths, display names and a position counter.

use vstd::prelude::*;
use crate::chars::{
    spec_words, split_words, str_to_chars, chars_to_string, char_vec_views, string_views,
    lemma_words_wf,
};

use crate::errors::CatalogError;

verus! {

/// Code-point lexicographic order on character sequences; for UTF-8
/// encoded names this agrees with byte order.
pub open spec fn lex_le(a: Seq<char>, b: Seq<char>) -> bool
    decreases a.len(),
{
    if a.len() == 0 {
        true
    } else if b.len() == 0 {
        false
    } else if a[0] == b[0] {
        lex_le(a.drop_first(), b.drop_first())
    } else {
        a[0] < b[0]
    }
}

/// Any two sequences are ordered one way or the other.
pub proof fn lemma_lex_le_total(a: Seq<char>, b: Seq<char>)
    ensures
        lex_le(a, b) || lex_le(b, a),
    decreases a.len(),
{
    if a.len() > 0 && b.len() > 0 {
        if a[0] == b[0] {
            lemma_lex_le_total(a.drop_first(), b.drop_first());
        }
    }
}

/// The order is transitive.
pub proof fn lemma_lex_le_trans(a: Seq<char>, b: Seq<char>, c: Seq<char>)
    requires
        lex_le(a, b),
        lex_le(b, c),
    ensures
        lex_le(a, c),
    decreases a.len(),
{
    if a.len() > 0 && b.len() > 0 && c.len() > 0 && a[0] == b[0] && b[0] == c[0] {
        lemma_lex_le_trans(a.drop_first(), b.drop_first(), c.drop_first());
    }
}

/// The order is antisymmetric: together with totality and transitivity it
/// makes the sorted order of a catalog unique.
pub proof fn lemma_lex_le_antisym(a: Seq<char>, b: Seq<char>)
    requires
        lex_le(a, b),
        lex_le(b, a),
    ensures
        a == b,
    decreases a.len(),
{
    if a.len() == 0 {
        assert(b.len() == 0);
        assert(a =~= b);
    } else {
        assert(b.len() > 0);
        assert(a[0] == b[0]);
        lemma_lex_le_antisym(a.drop_first(), b.drop_first());
        assert forall|k: int| 0 <= k < a.len() implies a[k] == b[k] by {
            if k > 0 {
                assert(a[k] == a.drop_first()[k - 1]);
                assert(b[k] == b.drop_first()[k - 1]);
            }
        }
        assert(a =~= b);
    }
}

proof fn lemma_lex_le_skip(a: Seq<char>, b: Seq<char>, i: int)
    requires
        0 <= i <= a.len(),
        i <= b.len(),
        forall|k: int| 0 <= k < i ==> a[k] == b[k],
    ensures
        lex_le(a, b) == lex_le(a.skip(i), b.skip(i)),
    decreases i,
{
    if i == 0 {
        assert(a.skip(0) =~= a);
        assert(b.skip(0) =~= b);
    } else {
        assert(a[0] == b[0]);
        if a.len() > 0 && b.len() > 0 {
            assert(a.drop_first() =~= a.skip(1));
            assert(b.drop_first() =~= b.skip(1));
            lemma_lex_le_skip(a.skip(1), b.skip(1), i - 1);
            assert(a.skip(1).skip(i - 1) =~= a.skip(i));
            assert(b.skip(1).skip(i - 1) =~= b.skip(i));
        }
    }
}

/// Compares two strings in code-point lexicographic order.
pub fn str_lex_le(a: &str, b: &str) -> (r: bool)
    ensures
        r == lex_le(a@, b@),
{
    let na = a.unicode_len();
    let nb = b.unicode_len();
    let mut i: usize = 0;
    while i < na && i < nb
        invariant
            0 <= i <= na == a@.len(),
            i <= nb == b@.len(),
            forall|k: int| 0 <= k < i ==> a@[k] == b@[k],
        decreases na - i,
    {
        let ca = a.get_char(i);
        let cb = b.get_char(i);
        if ca != cb {
            proof {
                lemma_lex_le_skip(a@, b@, i as int);
                assert(a@.skip(i as int)[0] == a@[i as int]);
                assert(b@.skip(i as int)[0] == b@[i as int]);
            }
            return ca < cb;
        }
        i = i + 1;
    }
    proof {
        lemma_lex_le_skip(a@, b@, i as int);
    }
    na <= nb
}

/// The views are sorted: every pair of positions is ordered.
pub open spec fn sorted_views(vs: Seq<Seq<char>>) -> bool {
    forall|i: int, j: int| 0 <= i <= j < vs.len() ==> lex_le(#[trigger] vs[i], #[trigger] vs[j])
}

/// Sorts strings into code-point lexicographic order, keeping exactly the
/// same multiset of values.
pub fn sort_strings(names: Vec<String>) -> (r: Vec<String>)
    ensures
        sorted_views(string_views(r@)),
        string_views(r@).to_multiset() == string_views(names@).to_multiset(),
{
    broadcast use vstd::seq_lib::group_to_multiset_ensures;

    let ghost orig = string_views(names@);
    let mut v = names;
    let mut out: Vec<String> = Vec::new();
    proof {
        assert(string_views(out@) =~= Seq::<Seq<char>>::empty());
        assert(string_views(out@).to_multiset().add(string_views(v@).to_multiset())
            =~= orig.to_multiset());
    }
    while v.len() > 0
        invariant
            string_views(out@).to_multiset().add(string_views(v@).to_multiset())
                == orig.to_multiset(),
            sorted_views(string_views(out@)),
            forall|i: int, j: int|
                0 <= i < string_views(out@).len() && 0 <= j < string_views(v@).len() ==> lex_le(
                    #[trigger] string_views(out@)[i],
                    #[trigger] string_views(v@)[j],
                ),
        decreases v.len(),
    {
        broadcast use vstd::seq_lib::group_to_multiset_ensures;

        let ghost vs = string_views(v@);
        proof {
            lemma_lex_le_total(vs[0], vs[0]);
        }
        // find the index of a minimal remaining name
        let mut m: usize = 0;
        let mut k: usize = 1;
        while k < v.len()
            invariant
                0 <= m < k <= v@.len(),
                vs == string_views(v@),
                forall|t: int| 0 <= t < k ==> lex_le(vs[m as int], #[trigger] vs[t]),
            decreases v@.len() - k,
        {
            if str_lex_le(v[k].as_str(), v[m].as_str()) {
                proof {
                    assert forall|t: int| 0 <= t < k + 1 implies lex_le(
                        vs[k as int],
                        #[trigger] vs[t],
                    ) by {
                        if t < k {
                            lemma_lex_le_trans(vs[k as int], vs[m as int], vs[t]);
                        } else {
                            lemma_lex_le_total(vs[k as int], vs[k as int]);
                        }
                    }
                }
                m = k;
            } else {
                proof {
                    lemma_lex_le_total(vs[k as int], vs[m as int]);
                }
            }
            k = k + 1;
        }
        let ghost old_out = string_views(out@);
        let ghost old_vs = vs;
        let x = v.remove(m);
        out.push(x);
        proof {
            assert(string_views(v@) =~= old_vs.remove(m as int));
            assert(string_views(out@) =~= old_out.push(old_vs[m as int]));
            // the multiset is preserved: x moved from v to out
            assert(string_views(out@).to_multiset() =~= old_out.to_multiset().insert(
                old_vs[m as int],
            ));
            assert(string_views(v@).to_multiset() =~= old_vs.to_multiset().remove(
                old_vs[m as int],
            ));
            assert(old_vs.to_multiset().count(old_vs[m as int]) > 0);
            assert(string_views(out@).to_multiset().add(string_views(v@).to_multiset())
                =~= old_out.to_multiset().add(old_vs.to_multiset()));
            // x is ordered after everything flushed and before everything left
            assert forall|i: int, j: int|
                0 <= i <= j < string_views(out@).len() implies lex_le(
                #[trigger] string_views(out@)[i],
                #[trigger] string_views(out@)[j],
            ) by {
                if j == old_out.len() && i < j {
                    assert(string_views(out@)[i] == old_out[i]);
                }
            }
            assert forall|i: int, j: int|
                0 <= i < string_views(out@).len() && 0 <= j < string_views(v@).len() implies lex_le(
                #[trigger] string_views(out@)[i],
                #[trigger] string_views(v@)[j],
            ) by {
                let jv = if j < m { j } else { j + 1 };
                assert(string_views(v@)[j] == old_vs[jv]);
                if i < old_out.len() {
                    assert(lex_le(old_out[i], old_vs[jv]));
                } else {
                    assert(string_views(out@)[i] == old_vs[m as int]);
                    assert(lex_le(old_vs[m as int], old_vs[jv]));
                }
            }
        }
    }
    proof {
        assert(string_views(v@) =~= Seq::<Seq<char>>::empty());
        assert(string_views(out@).to_multiset().add(string_views(v@).to_multiset())
            =~= string_views(out@).to_multiset());
    }
    out
}

/// With a single deck, cycling in either direction is a no-op: the wrapped
/// index that `next_deck` and `prev_deck` promise equals the current index.
pub proof fn lemma_single_deck_cycle_noop(d: DeckManager)
    requires
        d.wf(),
        d.deck_files@.len() == 1,
    ensures
        (d.current_deck_index + 1) % (d.deck_files@.len() as int) == d.current_deck_index as int,
        d.deck_files@.len() - 1 == d.current_deck_index as int,
{
    assert(d.current_deck_index == 0);
}

/// The name ends in the four characters of the deck extension.
pub open spec fn ends_with_csv(n: Seq<char>) -> bool {
    n.len() >= 4 && n.subrange(n.len() - 4, n.len() as int) == seq!['.', 'c', 's', 'v']
}

/// The name has the deck extension in the sense of a file extension: a
/// non-empty stem followed by the suffix.
pub open spec fn has_csv_ext(n: Seq<char>) -> bool {
    n.len() >= 5 && ends_with_csv(n)
}

/// The names with the deck extension, kept in their given order.
pub open spec fn spec_keep_csv(names: Seq<Seq<char>>) -> Seq<Seq<char>>
    decreases names.len(),
{
    if names.len() == 0 {
        Seq::<Seq<char>>::empty()
    } else {
        spec_keep_csv(names.drop_last()) + if has_csv_ext(names.last()) {
            seq![names.last()]
        } else {
            Seq::<Seq<char>>::empty()
        }
    }
}

fn ends_csv(s: &str) -> (r: bool)
    ensures
        r == ends_with_csv(s@),
{
    let n = s.unicode_len();
    if n < 4 {
        return false;
    }
    let ghost tail = s@.subrange(n - 4, n as int);
    proof {
        assert(tail.len() == 4);
        assert(tail[0] == s@[n - 4]);
        assert(tail[1] == s@[n - 3]);
        assert(tail[2] == s@[n - 2]);
        assert(tail[3] == s@[n - 1]);
    }
    let r = s.get_char(n - 4) == '.' && s.get_char(n - 3) == 'c' && s.get_char(n - 2) == 's'
        && s.get_char(n - 1) == 'v';
    proof {
        let lit = seq!['.', 'c', 's', 'v'];
        if r {
            assert(tail =~= lit);
        } else {
            assert(tail != lit);
        }
    }
    r
}

fn name_has_csv_ext(s: &str) -> (r: bool)
    ensures
        r == has_csv_ext(s@),
{
    let n = s.unicode_len();
    n >= 5 && ends_csv(s)
}

/// The decimal digit characters of `n`, most significant first.
pub open spec fn dec_digits(n: nat) -> Seq<char>
    decreases n,
{
    if n < 10 {
        seq![digit_char(n)]
    } else {
        dec_digits(n / 10).push(digit_char(n % 10))
    }
}

/// The character of one decimal digit.
pub open spec fn digit_char(d: nat) -> char
    recommends
        d < 10,
{
    if d == 0 {
        '0'
    } else if d == 1 {
        '1'
    } else if d == 2 {
        '2'
    } else if d == 3 {
        '3'
    } else if d == 4 {
        '4'
    } else if d == 5 {
        '5'
    } else if d == 6 {
        '6'
    } else if d == 7 {
        '7'
    } else if d == 8 {
        '8'
    } else {
        '9'
    }
}

fn digit_char_exec(d: usize) -> (c: char)
    requires
        d < 10,
    ensures
        c == digit_char(d as nat),
{
    if d == 0 {
        '0'
    } else if d == 1 {
        '1'
    } else if d == 2 {
        '2'
    } else if d == 3 {
        '3'
    } else if d == 4 {
        '4'
    } else if d == 5 {
        '5'
    } else if d == 6 {
        '6'
    } else if d == 7 {
        '7'
    } else if d == 8 {
        '8'
    } else {
        '9'
    }
}

/// Writes `n` in decimal: digits are collected least significant first by
/// repeated division, then emitted in reverse.
fn usize_to_string(n: usize) -> (r: String)
    ensures
        r@ == dec_digits(n as nat),
{
    let mut rev: Vec<char> = Vec::new();
    let mut m: usize = n;
    let d0 = digit_char_exec(m % 10);
    rev.push(d0);
    m = m / 10;
    proof {
        assert(rev@.reverse() =~= seq![digit_char((n % 10) as nat)]);
        if n >= 10 {
            assert(dec_digits((n / 10) as nat).push(digit_char((n % 10) as nat))
                =~= dec_digits((n / 10) as nat) + rev@.reverse());
        } else {
            assert(dec_digits(n as nat) =~= rev@.reverse());
        }
    }
    while m > 0
        invariant
            dec_digits(n as nat) == if m > 0 {
                dec_digits(m as nat) + rev@.reverse()
            } else {
                rev@.reverse()
            },
        decreases m,
    {
        let ghost mm = m as nat;
        let ghost old_rev = rev@;
        let d = digit_char_exec(m % 10);
        rev.push(d);
        m = m / 10;
        proof {
            assert(rev@.reverse() =~= seq![digit_char((mm % 10) as nat)] + old_rev.reverse());
            if mm >= 10 {
                assert(dec_digits(mm / 10).push(digit_char(mm % 10)) + old_rev.reverse()
                    =~= dec_digits(mm / 10) + rev@.reverse());
            } else {
                assert(dec_digits(mm) =~= seq![digit_char(mm)]);
                assert(dec_digits(mm) + old_rev.reverse() =~= rev@.reverse());
            }
        }
    }
    let nd = rev.len();
    let mut out: Vec<char> = Vec::new();
    let mut j: usize = nd;
    proof {
        assert(out@ =~= rev@.reverse().take(0));
    }
    while j > 0
        invariant
            0 <= j <= nd == rev@.len(),
            out@ == rev@.reverse().take((nd - j) as int),
        decreases j,
    {
        j = j - 1;
        let ghost k = rev@.len() - 1 - j;
        out.push(rev[j]);
        proof {
            assert(rev@.reverse()[k as int] == rev@[j as int]);
            assert(rev@.reverse().take(k as int).push(rev@.reverse()[k as int])
                =~= rev@.reverse().take(k + 1 as int));
        }
    }
    proof {
        assert(rev@.reverse().take(nd as int) =~= rev@.reverse());
    }
    chars_to_string(&out)
}

/// What `char::to_uppercase` yields for one character.
pub uninterp spec fn upper_of(c: char) -> Seq<char>;

/// Relies on `char::to_uppercase`: the uppercase mapping depends on the
/// character alone and yields one or more characters.
#[verifier::external_body]
fn char_upper(c: char) -> (r: Vec<char>)
    ensures
        r@ == upper_of(c),
        r@.len() >= 1,
{
    c.to_uppercase().collect()
}

/// The display name of a deck file: its name with the extension suffix
/// stripped when present, otherwise the name unchanged.
pub open spec fn spec_display_name(n: Seq<char>) -> Seq<char> {
    if ends_with_csv(n) {
        n.take(n.len() - 4)
    } else {
        n
    }
}

/// Underscores become spaces; every other character stays.
pub open spec fn replace_underscores(s: Seq<char>) -> Seq<char> {
    s.map_values(|c: char| if c == '_' { ' ' } else { c })
}

/// The word with its first character uppercased and the rest unchanged.
pub open spec fn capitalize_word(w: Seq<char>) -> Seq<char> {
    if w.len() == 0 {
        w
    } else {
        upper_of(w[0]) + w.drop_first()
    }
}

/// The words joined by single spaces.
pub open spec fn join_spaces(ws: Seq<Seq<char>>) -> Seq<char>
    decreases ws.len(),
{
    if ws.len() == 0 {
        Seq::<char>::empty()
    } else if ws.len() == 1 {
        ws[0]
    } else {
        join_spaces(ws.drop_last()) + seq![' '] + ws.last()
    }
}

/// The human-readable form of a display name: underscores become spaces,
/// each whitespace-separated word is capitalized, the words are rejoined
/// with single spaces, and empty words are dropped.
pub open spec fn spec_formatted_name(n: Seq<char>) -> Seq<char> {
    join_spaces(
        spec_words(replace_underscores(spec_display_name(n))).map_values(
            |w: Seq<char>| capitalize_word(w),
        ),
    )
}

/// The ordered collection of discovered decks and which one is active.
pub struct DeckManager {
    pub deck_files: Vec<String>,
    pub current_deck_index: usize,
    pub deck_folder: String,
}

impl DeckManager {
    /// The catalog holds at least one deck and points at one of them.
    pub open spec fn wf(&self) -> bool {
        self.deck_files@.len() > 0 && self.current_deck_index < self.deck_files@.len()
    }

    /// The views of the deck file names.
    pub open spec fn file_views(&self) -> Seq<Seq<char>> {
        string_views(self.deck_files@)
    }

    /// Builds the catalog from a snapshot of the names of the regular
    /// files directly under `folder`: keeps those with the deck extension,
    /// sorts them by code point for a reproducible order, and refuses an
    /// empty result. The active deck starts at the first entry.
    pub fn from_entries(folder: &str, names: Vec<String>) -> (r: Result<
        DeckManager,
        CatalogError,
    >)
        ensures
            r is Ok <==> spec_keep_csv(string_views(names@)).len() > 0,
            r is Err ==> r->Err_0 == CatalogError::NoDecksFound,
            r is Ok ==> r->Ok_0.wf(),
            r is Ok ==> r->Ok_0.deck_folder@ == folder@,
            r is Ok ==> r->Ok_0.current_deck_index == 0,
            r is Ok ==> sorted_views(r->Ok_0.file_views()),
            r is Ok ==> r->Ok_0.file_views().to_multiset() == spec_keep_csv(
                string_views(names@),
            ).to_multiset(),
    {
        broadcast use vstd::seq_lib::group_to_multiset_ensures;

        let ghost nv = string_views(names@);
        let n = names.len();
        let mut kept: Vec<String> = Vec::new();
        let mut i: usize = 0;
        proof {
            assert(nv.take(0) =~= Seq::<Seq<char>>::empty());
            assert(string_views(kept@) =~= Seq::<Seq<char>>::empty());
        }
        while i < n
            invariant
                0 <= i <= n == names@.len(),
                nv == string_views(names@),
                string_views(kept@) == spec_keep_csv(nv.take(i as int)),
            decreases n - i,
        {
            proof {
                assert(nv.take(i + 1).drop_last() =~= nv.take(i as int));
                assert(nv.take(i + 1).last() == names@[i as int]@);
            }
            let nm = &names[i];
            if name_has_csv_ext(nm.as_str()) {
                let ghost old_kept = kept@;
                kept.push(nm.clone());
                proof {
                    assert(string_views(kept@) =~= string_views(old_kept).push(nm@));
                    assert(spec_keep_csv(nv.take(i + 1)) =~= spec_keep_csv(
                        nv.take(i as int),
                    ).push(nm@));
                }
            } else {
                proof {
                    assert(spec_keep_csv(nv.take(i + 1)) =~= spec_keep_csv(nv.take(i as int)));
                }
            }
            i = i + 1;
        }
        proof {
            assert(nv.take(n as int) =~= nv);
        }
        if kept.len() == 0 {
            Err(CatalogError::NoDecksFound)
        } else {
            let ghost kv = string_views(kept@);
            let files = sort_strings(kept);
            proof {
                assert(string_views(files@).to_multiset().len() == string_views(files@).len());
                assert(kv.to_multiset().len() == kv.len());
            }
            Ok(DeckManager {
                deck_files: files,
                current_deck_index: 0,
                deck_folder: String::from_str(folder),
            })
        }
    }

    /// The path of the active deck: folder, separator, filename.
    pub fn get_current_deck_path(&self) -> (r: String)
        requires
            self.wf(),
        ensures
            r@ == self.deck_folder@ + seq!['/'] + self.file_views()[
                self.current_deck_index as int],
    {
        let mut r = self.deck_folder.clone();
        r.append("/");
        let f = &self.deck_files[self.current_deck_index];
        r.append(f.as_str());
        proof {
            reveal_strlit("/");
            assert("/"@ =~= seq!['/']);
        }
        r
    }

    /// Cycles to the next deck, wrapping from the last back to the first.
    pub fn next_deck(&mut self)
        requires
            old(self).wf(),
        ensures
            final(self).wf(),
            final(self).deck_files == old(self).deck_files,
            final(self).deck_folder == old(self).deck_folder,
            final(self).current_deck_index as int == (old(self).current_deck_index + 1) % (
            old(self).deck_files@.len() as int),
    {
        if self.deck_files.len() > 0 {
            self.current_deck_index = (self.current_deck_index + 1) % self.deck_files.len();
        }
    }

    /// Cycles to the previous deck, wrapping from the first to the last.
    pub fn prev_deck(&mut self)
        requires
            old(self).wf(),
        ensures
            final(self).wf(),
            final(self).deck_files == old(self).deck_files,
            final(self).deck_folder == old(self).deck_folder,
            old(self).current_deck_index == 0 ==> final(self).current_deck_index == old(
                self,
            ).deck_files@.len() - 1,
            old(self).current_deck_index > 0 ==> final(self).current_deck_index == old(
                self,
            ).current_deck_index - 1,
    {
        if self.deck_files.len() > 0 {
            if self.current_deck_index == 0 {
                self.current_deck_index = self.deck_files.len() - 1;
            } else {
                self.current_deck_index = self.current_deck_index - 1;
            }
        }
    }

    /// The active deck's name without the extension suffix.
    pub fn get_current_deck_name(&self) -> (r: &str)
        requires
            self.wf(),
        ensures
            r@ == spec_display_name(self.file_views()[self.current_deck_index as int]),
    {
        let f = &self.deck_files[self.current_deck_index];
        if ends_csv(f.as_str()) {
            let n = f.as_str().unicode_len();
            let r = f.as_str().substring_char(0, n - 4);
            proof {
                assert(f@.subrange(0, n - 4) =~= f@.take(n - 4));
            }
            r
        } else {
            f.as_str()
        }
    }

    /// A one-based "Deck position / total" indicator.
    pub fn get_deck_counter(&self) -> (r: String)
        requires
            self.wf(),
        ensures
            r@ == "Deck "@ + dec_digits((self.current_deck_index + 1) as nat) + " / "@
                + dec_digits(self.deck_files@.len() as nat),
    {
        let total = self.deck_files.len();
        let mut r = String::from_str("Deck ");
        let a = usize_to_string(self.current_deck_index + 1);
        r.append(a.as_str());
        r.append(" / ");
        let b = usize_to_string(total);
        r.append(b.as_str());
        r
    }

    /// How many decks the catalog holds.
    pub fn total_decks(&self) -> (r: usize)
        ensures
            r == self.deck_files@.len(),
    {
        self.deck_files.len()
    }

    /// Whether there is more than one deck to cycle through.
    pub fn has_multiple_decks(&self) -> (r: bool)
        ensures
            r == (self.deck_files@.len() > 1),
    {
        self.deck_files.len() > 1
    }

    /// The active deck's display name made human-readable: underscores to
    /// spaces, every word capitalized, single spaces between words.
    pub fn get_formatted_deck_name(&self) -> (r: String)
        requires
            self.wf(),
        ensures
            r@ == spec_formatted_name(self.file_views()[self.current_deck_index as int]),
    {
        let name = self.get_current_deck_name();
        let chars = str_to_chars(name);
        let nc = chars.len();
        let mut rep: Vec<char> = Vec::new();
        let mut i: usize = 0;
        proof {
            assert(rep@ =~= replace_underscores(chars@.take(0)));
        }
        while i < nc
            invariant
                0 <= i <= nc == chars@.len(),
                rep@ == replace_underscores(chars@.take(i as int)),
            decreases nc - i,
        {
            let c = chars[i];
            if c == '_' {
                rep.push(' ');
            } else {
                rep.push(c);
            }
            proof {
                assert(rep@ =~= replace_underscores(chars@.take(i + 1)));
            }
            i = i + 1;
        }
        proof {
            assert(chars@.take(nc as int) =~= chars@);
        }
        let words = split_words(&rep);
        proof {
            lemma_words_wf(rep@);
        }
        let ghost mapped = spec_words(rep@).map_values(|w: Seq<char>| capitalize_word(w));
        let nw = words.len();
        let mut out: Vec<char> = Vec::new();
        let mut wi: usize = 0;
        proof {
            assert(mapped.take(0) =~= Seq::<Seq<char>>::empty());
        }
        while wi < nw
            invariant
                0 <= wi <= nw == words@.len(),
                char_vec_views(words@) == spec_words(rep@),
                mapped == spec_words(rep@).map_values(|w: Seq<char>| capitalize_word(w)),
                out@ == join_spaces(mapped.take(wi as int)),
            decreases nw - wi,
        {
            proof {
                lemma_words_wf(rep@);
                assert(char_vec_views(words@)[wi as int] == words@[wi as int]@);
                assert(spec_words(rep@)[wi as int].len() > 0);
            }
            let w = &words[wi];
            if wi > 0 {
                out.push(' ');
            }
            let ghost base = out@;
            let up = char_upper(w[0]);
            let mut u: usize = 0;
            while u < up.len()
                invariant
                    0 <= u <= up@.len(),
                    out@ == base + up@.take(u as int),
                decreases up@.len() - u,
            {
                proof {
                    assert((base + up@.take(u as int)).push(up@[u as int]) =~= base + up@.take(
                        u + 1,
                    ));
                }
                out.push(up[u]);
                u = u + 1;
            }
            proof {
                assert(base + up@.take(up@.len() as int) =~= base + up@);
            }
            let ghost mid = out@;
            let mut t: usize = 1;
            while t < w.len()
                invariant
                    1 <= t <= w@.len(),
                    out@ == mid + w@.subrange(1, t as int),
                decreases w@.len() - t,
            {
                proof {
                    assert((mid + w@.subrange(1, t as int)).push(w@[t as int]) =~= mid
                        + w@.subrange(1, t + 1));
                    assert(mid + w@.subrange(1, 1) =~= mid);
                }
                out.push(w[t]);
                t = t + 1;
            }
            proof {
                assert(mid + w@.subrange(1, 1) =~= mid);
                assert(w@.subrange(1, w@.len() as int) =~= w@.drop_first());
                assert(mapped[wi as int] == capitalize_word(w@));
                assert(capitalize_word(w@) == upper_of(w@[0]) + w@.drop_first());
                if wi == 0 {
                    assert(out@ =~= join_spaces(mapped.take(1)));
                } else {
                    assert(mapped.take(wi + 1).drop_last() =~= mapped.take(wi as int));
                    assert(mapped.take(wi + 1).last() == mapped[wi as int]);
                    assert(out@ =~= join_spaces(mapped.take(wi as int)) + seq![' ']
                        + mapped[wi as int]);
                    assert(out@ =~= join_spaces(mapped.take(wi + 1)));
                }
            }
            wi = wi + 1;
        }
        proof {
            assert(mapped.take(nw as int) =~= mapped);
        }
        chars_to_string(&out)
    }
}

} // verus!
