//! Merging an incoming note into the collection: insert it, skip it, or hand
//! back a pending decision that the caller resolves later.
use vstd::prelude::*;
use crate::collection::{
    add_spec,
    backfill_spec,
    intern,
    lemma_intern,
    stored,
    replace_spec,
    stored_seq,
    ColMeaning,
    Collection,
    CollectionView,
};
use crate::history::{handled, record, History, HistoryView};
use crate::source::{Meaning, MeaningView};

verus! {

/// Which of the three outcomes a submission has.
#[derive(Debug, Clone, Copy, PartialEq, Eq, Structural)]
pub enum OutcomeKind {
    Inserted,
    Skipped,
    Decision,
}

/// What submitting `(term, m)` from a source titled `title` does: its
/// outcome, the collection after it and the history after it.
///
/// A pair already decided on is skipped; a new term is inserted and recorded;
/// an exact duplicate is skipped, lending its symbol to a stored meaning that
/// has none, and is not recorded; any other meaning waits for a decision.
pub open spec fn submit_spec(
    c: CollectionView,
    h: HistoryView,
    term: Seq<char>,
    m: MeaningView,
    title: Seq<char>,
) -> (OutcomeKind, CollectionView, HistoryView) {
    if handled(h, term, m.text) {
        (OutcomeKind::Skipped, c, h)
    } else if !c.contents.contains_key(term) {
        (OutcomeKind::Inserted, add_spec(c, term, m, title), record(h, term, m.text))
    } else if c.has_text(term, m.text) {
        (OutcomeKind::Skipped, backfill_spec(c, term, m), h)
    } else {
        (OutcomeKind::Decision, c, h)
    }
}

/// A pending decision, as values.
pub struct PendingView {
    pub term: Seq<char>,
    pub meaning: MeaningView,
    pub source_title: Seq<char>,
}

/// An incoming meaning that conflicts with the stored ones of its term. It is
/// resolved once, by `reject`, `add_new`, `replace` or `update`, each of which
/// consumes it.
#[derive(Debug)]
pub struct PendingDecision {
    term: String,
    meaning: Meaning,
    source_title: String,
}

impl View for PendingDecision {
    type V = PendingView;

    closed spec fn view(&self) -> PendingView {
        PendingView { term: self.term@, meaning: self.meaning@, source_title: self.source_title@ }
    }
}

/// The outcome of a submission.
#[derive(Debug)]
pub enum Outcome {
    /// The term was new: the meaning was stored and recorded.
    AutoInserted,
    /// Nothing to decide: the pair was decided on before, or is stored already.
    AutoSkipped,
    /// The meaning conflicts with the stored ones: the caller decides.
    NeedsDecision(PendingDecision),
}

/// The kind of an outcome.
pub open spec fn kind(o: Outcome) -> OutcomeKind {
    match o {
        Outcome::AutoInserted => OutcomeKind::Inserted,
        Outcome::AutoSkipped => OutcomeKind::Skipped,
        Outcome::NeedsDecision(_) => OutcomeKind::Decision,
    }
}

/// A copy of an optional string.
fn copy_opt(o: &Option<String>) -> (r: Option<String>)
    ensures
        r == *o,
{
    match o {
        Some(s) => Some(s.clone()),
        None => None,
    }
}

/// Merges the meaning `meaning` of `term`, read from a source titled
/// `source_title`, into `collection`, as `submit_spec` states.
pub fn submit(
    collection: &mut Collection,
    history: &mut History,
    term: String,
    meaning: Meaning,
    source_title: &str,
) -> (r: Outcome)
    requires
        old(collection).wf(),
        old(history).wf(),
        old(collection)@.has_room(source_title@),
    ensures
        final(collection).wf(),
        final(history).wf(),
        (kind(r), final(collection)@, final(history)@) == submit_spec(
            old(collection)@,
            old(history)@,
            term@,
            meaning@,
            source_title@,
        ),
        match r {
            Outcome::NeedsDecision(p) => p@ == PendingView {
                term: term@,
                meaning: meaning@,
                source_title: source_title@,
            },
            _ => true,
        },
{
    if history.contains(term.as_str(), meaning.text.as_str()) {
        return Outcome::AutoSkipped;
    }
    if collection.meanings(term.as_str()).len() == 0 {
        proof {
            collection.lemma_valid();
        }
        let text = meaning.text.clone();
        collection.add_meaning(term.clone(), meaning, source_title);
        history.insert(term, text);
        return Outcome::AutoInserted;
    }
    proof {
        collection.lemma_valid();
    }
    if collection.contains(term.as_str(), meaning.text.as_str()) {
        let symbol = copy_opt(&meaning.symbol);
        collection.backfill_symbol(term.as_str(), meaning.text.as_str(), symbol);
        return Outcome::AutoSkipped;
    }
    Outcome::NeedsDecision(
        PendingDecision { term, meaning, source_title: String::from_str(source_title) },
    )
}

impl PendingDecision {
    /// The term.
    pub fn term(&self) -> (r: &String)
        ensures
            r@ == self@.term,
    {
        &self.term
    }

    /// The incoming meaning.
    pub fn meaning(&self) -> (r: &Meaning)
        ensures
            r@ == self@.meaning,
    {
        &self.meaning
    }

    /// The title of the source the meaning came from.
    pub fn source_title(&self) -> (r: &String)
        ensures
            r@ == self@.source_title,
    {
        &self.source_title
    }

    /// The stored meanings of the term, in order, for display.
    pub fn existing_meanings<'a>(&self, collection: &'a Collection) -> (r: &'a Vec<ColMeaning>)
        requires
            collection.wf(),
        ensures
            stored_seq(r@) == collection@.meanings_of(self@.term),
    {
        collection.meanings(self.term.as_str())
    }

    /// Dismisses the meaning: it is recorded, so it is not asked about again.
    pub fn reject(self, history: &mut History)
        requires
            old(history).wf(),
        ensures
            final(history).wf(),
            final(history)@ == record(old(history)@, self@.term, self@.meaning.text),
    {
        history.insert(self.term, self.meaning.text);
    }

    /// Stores the meaning as one more meaning of the term, and records it.
    pub fn add_new(self, collection: &mut Collection, history: &mut History)
        requires
            old(collection).wf(),
            old(history).wf(),
            old(collection)@.has_room(self@.source_title),
        ensures
            final(collection).wf(),
            final(history).wf(),
            final(collection)@ == add_spec(
                old(collection)@,
                self@.term,
                self@.meaning,
                self@.source_title,
            ),
            final(history)@ == record(old(history)@, self@.term, self@.meaning.text),
    {
        let text = self.meaning.text.clone();
        collection.add_meaning(self.term.clone(), self.meaning, self.source_title.as_str());
        history.insert(self.term, text);
    }

    /// Overwrites the stored meaning at `index` with the incoming one, and
    /// records it. Where `index` is out of bounds nothing changes and the
    /// decision comes back, still pending.
    pub fn replace(self, collection: &mut Collection, history: &mut History, index: usize) -> (r:
        Result<(), PendingDecision>)
        requires
            old(collection).wf(),
            old(history).wf(),
            old(collection)@.has_room(self@.source_title),
        ensures
            final(collection).wf(),
            final(history).wf(),
            r is Ok <==> index < old(collection)@.meanings_of(self@.term).len(),
            match r {
                Ok(()) => {
                    &&& final(collection)@ == replace_spec(
                        old(collection)@,
                        self@.term,
                        index as int,
                        self@.meaning.text,
                        self@.meaning.symbol,
                        self@.source_title,
                    )
                    &&& final(history)@ == record(old(history)@, self@.term, self@.meaning.text)
                },
                Err(p) => {
                    &&& p@ == self@
                    &&& final(collection)@ == old(collection)@
                    &&& final(history)@ == old(history)@
                },
            },
    {
        let text = self.meaning.text.clone();
        self.update(collection, history, index, text)
    }

    /// As `replace`, with the text `new_text` in place of the incoming one;
    /// the incoming symbol is still used where the stored meaning has none.
    /// What is recorded is the incoming text.
    pub fn update(
        self,
        collection: &mut Collection,
        history: &mut History,
        index: usize,
        new_text: String,
    ) -> (r: Result<(), PendingDecision>)
        requires
            old(collection).wf(),
            old(history).wf(),
            old(collection)@.has_room(self@.source_title),
        ensures
            final(collection).wf(),
            final(history).wf(),
            r is Ok <==> index < old(collection)@.meanings_of(self@.term).len(),
            match r {
                Ok(()) => {
                    &&& final(collection)@ == replace_spec(
                        old(collection)@,
                        self@.term,
                        index as int,
                        new_text@,
                        self@.meaning.symbol,
                        self@.source_title,
                    )
                    &&& final(history)@ == record(old(history)@, self@.term, self@.meaning.text)
                },
                Err(p) => {
                    &&& p@ == self@
                    &&& final(collection)@ == old(collection)@
                    &&& final(history)@ == old(history)@
                },
            },
    {
        let symbol = copy_opt(&self.meaning.symbol);
        match collection.replace_meaning(
            self.term.as_str(),
            index,
            new_text,
            symbol,
            self.source_title.as_str(),
        ) {
            Ok(()) => {
                history.insert(self.term, self.meaning.text);
                Ok(())
            },
            Err(_) => Err(self),
        }
    }
}

/// The empty collection.
pub open spec fn empty_collection() -> CollectionView {
    CollectionView { contents: Map::empty(), titles: seq![] }
}

/// Submitting the same meaning of a term twice to an empty collection with an
/// empty history inserts it, then skips it, and leaves exactly that one
/// meaning stored.
pub proof fn lemma_submit_twice(term: Seq<char>, m: MeaningView, title: Seq<char>, title2: Seq<char>)
    ensures
        ({
            let (k1, c1, h1) = submit_spec(empty_collection(), HistoryView::empty(), term, m, title);
            let (k2, c2, h2) = submit_spec(c1, h1, term, m, title2);
            &&& k1 == OutcomeKind::Inserted
            &&& k2 == OutcomeKind::Skipped
            &&& c2.contents[term].len() == 1
            &&& c2.contents[term][0] == stored(m, 0)
        }),
{
    let c0 = empty_collection();
    assert(!c0.titles.contains(title));
    let (k1, c1, h1) = submit_spec(c0, HistoryView::empty(), term, m, title);
    assert(handled(h1, term, m.text));
}

/// Once a pending decision is rejected, submitting the same text for the same
/// term again is skipped and changes nothing.
pub proof fn lemma_reject_then_skip(
    c: CollectionView,
    h: HistoryView,
    p: PendingView,
    m: MeaningView,
    title: Seq<char>,
)
    requires
        m.text == p.meaning.text,
    ensures
        ({
            let h1 = record(h, p.term, p.meaning.text);
            submit_spec(c, h1, p.term, m, title) == (OutcomeKind::Skipped, c, h1)
        }),
{
}

/// Two sources with the same title share one title id: after a meaning from
/// a source titled `title` is stored, a second one from a source with the
/// same title gets the same id and adds no title.
pub proof fn lemma_same_title_same_id(
    c: CollectionView,
    t1: Seq<char>,
    m1: MeaningView,
    t2: Seq<char>,
    m2: MeaningView,
    title: Seq<char>,
)
    requires
        c.valid(),
        c.has_room(title),
    ensures
        ({
            let c1 = add_spec(c, t1, m1, title);
            let c2 = add_spec(c1, t2, m2, title);
            &&& c2.titles == c1.titles
            &&& c2.contents[t2].last().source == c1.contents[t1].last().source
            &&& c2.titles[c2.contents[t2].last().source as int] == title
        }),
{
    lemma_intern(c.titles, title);
    let c1 = add_spec(c, t1, m1, title);
    lemma_intern(c1.titles, title);
}

/// Replacing or updating a stored meaning gives it the submitting source's
/// title id, whatever its text.
pub proof fn lemma_replace_takes_source(
    c: CollectionView,
    term: Seq<char>,
    index: int,
    text: Seq<char>,
    symbol: Option<Seq<char>>,
    title: Seq<char>,
)
    requires
        c.valid(),
        c.has_room(title),
        0 <= index < c.meanings_of(term).len(),
    ensures
        ({
            let c2 = replace_spec(c, term, index, text, symbol, title);
            &&& c2.contents[term][index].text == text
            &&& c2.contents[term][index].source as int == intern(c.titles, title).1
            &&& c2.titles[c2.contents[term][index].source as int] == title
        }),
{
    lemma_intern(c.titles, title);
}

} // verus!
