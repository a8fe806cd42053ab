//! Cards and the card store loader: text lines go through the parser, and
//! only records whose two fields are both non-empty after trimming become
//! cards, in file order. Zero resulting cards is a failure, never a valid
//! empty collection.

use vstd::prelude::*;
use crate::parser::{spec_parse_line, parse_csv_line};
use crate::chars::string_views;
use crate::errors::LoadError;

verus! {

/// One flashcard: a question shown first and an answer shown on flip.
pub struct Flashcard {
    pub question: String,
    pub answer: String,
}

impl View for Flashcard {
    type V = (Seq<char>, Seq<char>);

    open spec fn view(&self) -> (Seq<char>, Seq<char>) {
        (self.question@, self.answer@)
    }
}

impl Flashcard {
    /// Both fields are non-empty; the loader never constructs a card
    /// without this.
    pub open spec fn wf(&self) -> bool {
        self.question@.len() > 0 && self.answer@.len() > 0
    }
}

/// The views of a sequence of cards.
pub open spec fn card_views(s: Seq<Flashcard>) -> Seq<(Seq<char>, Seq<char>)> {
    s.map_values(|c: Flashcard| c@)
}

/// The record of one line, kept only when both fields are non-empty.
pub open spec fn spec_card_of_line(line: Seq<char>) -> Option<(Seq<char>, Seq<char>)> {
    match spec_parse_line(line) {
        Some(qa) => if qa.0.len() > 0 && qa.1.len() > 0 {
            Some(qa)
        } else {
            None
        },
        None => None,
    }
}

/// The cards of a whole file: the kept records of its lines, in order.
pub open spec fn spec_cards(lines: Seq<Seq<char>>) -> Seq<(Seq<char>, Seq<char>)>
    decreases lines.len(),
{
    if lines.len() == 0 {
        Seq::<(Seq<char>, Seq<char>)>::empty()
    } else {
        spec_cards(lines.drop_last()) + match spec_card_of_line(lines.last()) {
            Some(qa) => seq![qa],
            None => Seq::<(Seq<char>, Seq<char>)>::empty(),
        }
    }
}

/// Builds the card collection of a file given as its lines. Returns
/// `NoUsableCards` when no line yields a card with two non-empty fields:
/// an empty collection is a load failure, not a success.
pub fn load_flashcards(lines: &Vec<String>) -> (r: Result<Vec<Flashcard>, LoadError>)
    ensures
        spec_cards(string_views(lines@)).len() > 0 ==> r is Ok,
        r is Ok ==> card_views(r->Ok_0@) == spec_cards(string_views(lines@)),
        r is Ok ==> r->Ok_0@.len() > 0,
        r is Ok ==> forall|k: int| 0 <= k < r->Ok_0@.len() ==> (#[trigger] r->Ok_0@[k]).wf(),
        spec_cards(string_views(lines@)).len() == 0 <==> (r is Err && r->Err_0
            == LoadError::NoUsableCards),
{
    let ghost sv = string_views(lines@);
    let n = lines.len();
    let mut cards: Vec<Flashcard> = Vec::new();
    let mut i: usize = 0;
    proof {
        assert(sv.take(0) =~= Seq::<Seq<char>>::empty());
        assert(card_views(cards@) =~= Seq::<(Seq<char>, Seq<char>)>::empty());
    }
    while i < n
        invariant
            0 <= i <= n == lines@.len(),
            sv == string_views(lines@),
            card_views(cards@) == spec_cards(sv.take(i as int)),
            forall|k: int| 0 <= k < cards@.len() ==> (#[trigger] cards@[k]).wf(),
        decreases n - i,
    {
        proof {
            assert(sv.take(i + 1).drop_last() =~= sv.take(i as int));
            assert(sv.take(i + 1).last() == lines@[i as int]@);
        }
        let line = &lines[i];
        if let Some((q, a)) = parse_csv_line(line.as_str()) {
            if !q.as_str().is_empty() && !a.as_str().is_empty() {
                let card = Flashcard { question: q, answer: a };
                let ghost old_cards = cards@;
                cards.push(card);
                proof {
                    assert(card_views(old_cards.push(card))
                        =~= card_views(old_cards).push(card@));
                    assert(spec_cards(sv.take(i + 1))
                        =~= spec_cards(sv.take(i as int)).push(card@));
                }
            }
        }
        i = i + 1;
    }
    proof {
        assert(sv.take(n as int) =~= sv);
    }
    if cards.len() == 0 {
        Err(LoadError::NoUsableCards)
    } else {
        Ok(cards)
    }
}

} // verus!
