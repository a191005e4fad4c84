//! The cards that are known by name.
//!
//! A dataset is a list of records, each under a key. Looking a name up gives
//! the spell that the first record under that key describes, with its cost
//! read from brace notation.

use vstd::prelude::*;
use vstd::string::StringExecFns;
use crate::card::{Card, CardView};
use crate::cost::{cost_of, parse_mana_cost};

verus! {

/// What is known of one card.
#[derive(Debug)]
pub struct CardRecord {
    /// The name under which the card is looked up.
    pub key: String,
    /// The name of the card.
    pub name: String,
    /// The cost in brace notation, where the card has one.
    pub mana_cost: Option<String>,
    /// The rules text, where the card has any.
    pub text: Option<String>,
}

/// A record as a mathematical value.
pub struct RecordView {
    pub key: Seq<char>,
    pub name: Seq<char>,
    pub mana_cost: Option<Seq<char>>,
    pub text: Option<Seq<char>>,
}

impl View for CardRecord {
    type V = RecordView;

    open spec fn view(&self) -> RecordView {
        RecordView {
            key: self.key@,
            name: self.name@,
            mana_cost: match self.mana_cost {
                Some(cost) => Some(cost@),
                None => None,
            },
            text: match self.text {
                Some(text) => Some(text@),
                None => None,
            },
        }
    }
}

/// A text that may be missing; a missing one counts as empty.
pub open spec fn text_or_empty(text: Option<Seq<char>>) -> Seq<char> {
    match text {
        Some(text) => text,
        None => Seq::empty(),
    }
}

/// The spell that a record describes.
pub open spec fn record_card(record: RecordView) -> CardView {
    CardView::Spell {
        name: record.name,
        mana_cost: cost_of(text_or_empty(record.mana_cost)),
        text: text_or_empty(record.text),
    }
}

/// The spell of the first record under the key `name`, if there is one.
pub open spec fn lookup(records: Seq<RecordView>, name: Seq<char>) -> Option<CardView>
    decreases records.len(),
{
    if records.len() == 0 {
        None
    } else if records.first().key == name {
        Some(record_card(records.first()))
    } else {
        lookup(records.drop_first(), name)
    }
}

/// What each of a sequence of records is.
pub open spec fn record_views(records: Seq<CardRecord>) -> Seq<RecordView> {
    Seq::new(records.len(), |i: int| records[i]@)
}

impl CardRecord {
    /// The spell that the record describes.
    pub fn card(&self) -> (card: Card)
        ensures
            card@ == record_card(self@),
            card.wf(),
    {
        let mana_cost = match &self.mana_cost {
            Some(cost) => parse_mana_cost(cost.as_str()),
            None => parse_mana_cost(""),
        };
        let text = match &self.text {
            Some(text) => text.clone(),
            None => String::from_str(""),
        };
        proof {
            reveal_strlit("");
            assert(""@ =~= Seq::<char>::empty());
        }
        Card::Card { name: self.name.clone(), mana_cost, text }
    }
}

/// A dataset of cards.
pub struct Dataset {
    records: Vec<CardRecord>,
}

impl View for Dataset {
    type V = Seq<RecordView>;

    closed spec fn view(&self) -> Seq<RecordView> {
        record_views(self.records@)
    }
}

impl Dataset {
    /// The dataset of the given records.
    pub fn new(records: Vec<CardRecord>) -> (dataset: Dataset)
        ensures
            dataset@ == record_views(records@),
    {
        Dataset { records }
    }

    /// The card of the given name: the spell of the first record under that
    /// key, or nothing where no record is.
    pub fn get(&self, name: &str) -> (found: Option<Card>)
        ensures
            match found {
                Some(card) => lookup(self@, name@) == Some(card@) && card.wf(),
                None => lookup(self@, name@) is None,
            },
    {
        let wanted = String::from_str(name);
        let mut i: usize = 0;
        assert(self@.skip(0) =~= self@);
        while i < self.records.len()
            invariant
                i <= self.records.len(),
                wanted@ == name@,
                lookup(self@, name@) == lookup(self@.skip(i as int), name@),
            decreases self.records.len() - i,
        {
            assert(self@.skip(i as int).first() == self.records@[i as int]@);
            assert(self@.skip(i as int).drop_first() =~= self@.skip(i + 1));
            if self.records[i].key == wanted {
                return Some(self.records[i].card());
            }
            i += 1;
        }
        None
    }
}

} // verus!
