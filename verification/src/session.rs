//! The navigation state machine: which card is current and whether it is
//! flipped. Navigation saturates at the collection's ends and always turns
//! the question side up — a saturating boundary call too — flipping never
//! moves, and a reload either installs a non-empty collection afresh or
//! leaves the whole prior state untouched.

use vstd::prelude::*;
use crate::cards::Flashcard;
use crate::errors::LoadError;

verus! {

/// The running session over one loaded deck.
pub struct FlashcardGame {
    pub cards: Vec<Flashcard>,
    pub current_index: usize,
    pub is_flipped: bool,
}

impl FlashcardGame {
    /// The session always points at an existing card.
    pub open spec fn wf(&self) -> bool {
        self.current_index < self.cards@.len()
    }

    /// Starts a session on a non-empty collection, at the first card,
    /// question side up.
    pub fn new(cards: Vec<Flashcard>) -> (game: FlashcardGame)
        requires
            cards@.len() > 0,
        ensures
            game.cards == cards,
            game.current_index == 0,
            !game.is_flipped,
            game.wf(),
    {
        FlashcardGame { cards, current_index: 0, is_flipped: false }
    }

    /// Moves to the next card; at the last card the position saturates
    /// (never wraps). Every call — a saturating one included — resets the
    /// flip state, so the question side is up afterwards.
    pub fn next_card(&mut self)
        requires
            old(self).wf(),
        ensures
            final(self).wf(),
            final(self).cards == old(self).cards,
            !final(self).is_flipped,
            old(self).current_index + 1 < old(self).cards@.len() ==> final(self).current_index
                == old(self).current_index + 1,
            old(self).current_index + 1 >= old(self).cards@.len() ==> final(self).current_index
                == old(self).current_index,
    {
        if self.current_index < self.cards.len() - 1 {
            self.current_index = self.current_index + 1;
        }
        self.is_flipped = false;
    }

    /// Moves to the previous card; at the first card the position
    /// saturates (never wraps). Every call — a saturating one included —
    /// resets the flip state, so the question side is up afterwards.
    pub fn prev_card(&mut self)
        requires
            old(self).wf(),
        ensures
            final(self).wf(),
            final(self).cards == old(self).cards,
            !final(self).is_flipped,
            old(self).current_index > 0 ==> final(self).current_index == old(
                self,
            ).current_index - 1,
            old(self).current_index == 0 ==> final(self).current_index == 0,
    {
        if self.current_index > 0 {
            self.current_index = self.current_index - 1;
        }
        self.is_flipped = false;
    }

    /// Toggles between question and answer; never changes the position.
    pub fn flip(&mut self)
        ensures
            final(self).is_flipped == !old(self).is_flipped,
            final(self).cards == old(self).cards,
            final(self).current_index == old(self).current_index,
    {
        self.is_flipped = !self.is_flipped;
    }

    /// The text of the current card's visible side.
    pub fn get_current_text(&self) -> (r: &str)
        requires
            self.wf(),
        ensures
            self.is_flipped ==> r@ == self.cards@[self.current_index as int]@.1,
            !self.is_flipped ==> r@ == self.cards@[self.current_index as int]@.0,
    {
        let card = &self.cards[self.current_index];
        if self.is_flipped {
            card.answer.as_str()
        } else {
            card.question.as_str()
        }
    }

    /// Replaces the collection wholesale and restarts at the first card,
    /// question side up. An empty collection is refused and the prior
    /// session — cards, position and flip state — is left untouched.
    pub fn reload(&mut self, new_cards: Vec<Flashcard>) -> (r: Result<(), LoadError>)
        ensures
            new_cards@.len() == 0 ==> {
                &&& *final(self) == *old(self)
                &&& r is Err
                &&& r->Err_0 == LoadError::NoUsableCards
            },
            new_cards@.len() > 0 ==> {
                &&& r is Ok
                &&& final(self).cards == new_cards
                &&& final(self).current_index == 0
                &&& !final(self).is_flipped
                &&& final(self).wf()
            },
    {
        if new_cards.len() == 0 {
            Err(LoadError::NoUsableCards)
        } else {
            self.cards = new_cards;
            self.current_index = 0;
            self.is_flipped = false;
            Ok(())
        }
    }

    /// The zero-based position of the current card.
    pub fn position(&self) -> (r: usize)
        ensures
            r == self.current_index,
    {
        self.current_index
    }

    /// How many cards the active collection holds.
    pub fn total(&self) -> (r: usize)
        ensures
            r == self.cards@.len(),
    {
        self.cards.len()
    }

    /// Whether the answer side is up.
    pub fn flipped(&self) -> (r: bool)
        ensures
            r == self.is_flipped,
    {
        self.is_flipped
    }
}

} // verus!
