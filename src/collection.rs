//! The collection: each term's meanings with their provenance, and the table
//! of source titles.
use vstd::prelude::*;
use vstd::hash_map::StringHashMap;
use crate::source::{opt_chars, Meaning, MeaningView};

verus! {

broadcast use vstd::hash_map::group_hash_map_axioms;

/// A stored meaning, as values.
pub struct StoredView {
    pub text: Seq<char>,
    pub symbol: Option<Seq<char>>,
    pub source: u32,
}

/// A meaning as the collection keeps it, with the id of the title of the
/// source it came from.
#[derive(Debug, Clone, PartialEq, Eq)]
pub struct ColMeaning {
    pub text: String,
    pub symbol: Option<String>,
    pub source: u32,
}

impl View for ColMeaning {
    type V = StoredView;

    open spec fn view(&self) -> StoredView {
        StoredView { text: self.text@, symbol: opt_chars(self.symbol), source: self.source }
    }
}

/// `m` stored as coming from title `source`.
pub open spec fn stored(m: MeaningView, source: u32) -> StoredView {
    StoredView { text: m.text, symbol: m.symbol, source }
}

/// The views of a sequence of stored meanings.
pub open spec fn stored_seq(v: Seq<ColMeaning>) -> Seq<StoredView> {
    v.map_values(|m: ColMeaning| m@)
}

impl ColMeaning {
    fn new(meaning: Meaning, source: u32) -> (r: ColMeaning)
        ensures
            r@ == stored(meaning@, source),
    {
        ColMeaning { text: meaning.text, symbol: meaning.symbol, source }
    }

    /// A copy of this meaning.
    fn duplicate(&self) -> (r: ColMeaning)
        ensures
            r == *self,
    {
        let symbol = match &self.symbol {
            Some(s) => Some(s.clone()),
            None => None,
        };
        ColMeaning { text: self.text.clone(), symbol, source: self.source }
    }
}

/// A copy of a sequence of meanings.
fn copy_meanings(v: &Vec<ColMeaning>) -> (r: Vec<ColMeaning>)
    ensures
        r@ == v@,
{
    let mut r: Vec<ColMeaning> = Vec::new();
    let mut i: usize = 0;
    while i < v.len()
        invariant
            i <= v@.len(),
            r@ == v@.subrange(0, i as int),
        decreases v@.len() - i,
    {
        r.push(v[i].duplicate());
        i = i + 1;
        proof {
            assert(r@ =~= v@.subrange(0, i as int));
        }
    }
    proof {
        assert(r@ =~= v@);
    }
    r
}

/// The collection, as values: each known term's meanings in the order they
/// came, and the titles, each at the index that is its id.
pub struct CollectionView {
    pub contents: Map<Seq<char>, Seq<StoredView>>,
    pub titles: Seq<Seq<char>>,
}

/// Whether no two titles are equal.
pub open spec fn titles_distinct(titles: Seq<Seq<char>>) -> bool {
    forall|i: int, j: int| 0 <= i < j < titles.len() ==> titles[i] != titles[j]
}

impl CollectionView {
    /// What holds of every collection: titles are interned, every known term
    /// has at least one meaning, and every meaning's source is a title id.
    pub open spec fn valid(self) -> bool {
        &&& titles_distinct(self.titles)
        &&& self.titles.len() <= u32::MAX
        &&& forall|k: Seq<char>| #[trigger]
            self.contents.contains_key(k) ==> {
                &&& self.contents[k].len() > 0
                &&& forall|j: int|
                    0 <= j < self.contents[k].len() ==> (#[trigger] self.contents[k][j]).source
                        < self.titles.len()
            }
    }

    /// The meanings of `term`; empty for an unknown term.
    pub open spec fn meanings_of(self, term: Seq<char>) -> Seq<StoredView> {
        if self.contents.contains_key(term) {
            self.contents[term]
        } else {
            seq![]
        }
    }

    /// Whether `term` is known with a meaning whose text is `text`.
    pub open spec fn has_text(self, term: Seq<char>, text: Seq<char>) -> bool {
        exists|j: int| 0 <= j < self.meanings_of(term).len() && #[trigger] self.meanings_of(term)[j].text == text
    }

    /// Whether `title` can be given an id: it has one, or ids are left.
    pub open spec fn has_room(self, title: Seq<char>) -> bool {
        self.titles.contains(title) || self.titles.len() < u32::MAX
    }
}

/// The titles after interning `title`, and its id.
pub open spec fn intern(titles: Seq<Seq<char>>, title: Seq<char>) -> (Seq<Seq<char>>, int) {
    if titles.contains(title) {
        (titles, titles.index_of(title))
    } else {
        (titles.push(title), titles.len() as int)
    }
}

/// The id that `intern` gives is the index of `title` in the titles after it,
/// and interning a title that is there changes nothing.
pub proof fn lemma_intern(titles: Seq<Seq<char>>, title: Seq<char>)
    requires
        titles_distinct(titles),
    ensures
        0 <= intern(titles, title).1 < intern(titles, title).0.len(),
        intern(titles, title).0[intern(titles, title).1] == title,
        titles_distinct(intern(titles, title).0),
        intern(titles, title).0.len() <= titles.len() + 1,
        intern(intern(titles, title).0, title) == intern(titles, title),
{
    let (t1, id) = intern(titles, title);
    if titles.contains(title) {
        let k = titles.index_of(title);
        assert(titles[k] == title);
    } else {
        assert(t1[id] == title);
        assert(t1.contains(title));
        let k = t1.index_of(title);
        assert(t1[k] == title);
        if k != id {
            assert(titles[k] == title);
        }
    }
}

/// The collection after appending `m`, from a source titled `title`, to the
/// meanings of `term`.
pub open spec fn add_spec(c: CollectionView, term: Seq<char>, m: MeaningView, title: Seq<char>) -> CollectionView {
    let (titles, id) = intern(c.titles, title);
    CollectionView {
        contents: c.contents.insert(term, c.meanings_of(term).push(stored(m, id as u32))),
        titles,
    }
}

/// The collection after the meaning at `index` of `term` takes the text
/// `text`, the symbol `symbol` where it is given (else it keeps its own), and
/// the source titled `title`.
pub open spec fn replace_spec(
    c: CollectionView,
    term: Seq<char>,
    index: int,
    text: Seq<char>,
    symbol: Option<Seq<char>>,
    title: Seq<char>,
) -> CollectionView {
    let (titles, id) = intern(c.titles, title);
    let old = c.contents[term][index];
    let new = StoredView {
        text,
        symbol: if symbol is Some {
            symbol
        } else {
            old.symbol
        },
        source: id as u32,
    };
    CollectionView { contents: c.contents.insert(term, c.contents[term].update(index, new)), titles }
}

/// A map from terms to meanings, read from pairs in order.
pub open spec fn contents_of(cs: Seq<(Seq<char>, Seq<StoredView>)>) -> Map<Seq<char>, Seq<StoredView>>
    decreases cs.len(),
{
    if cs.len() == 0 {
        Map::empty()
    } else {
        contents_of(cs.drop_last()).insert(cs.last().0, cs.last().1)
    }
}

/// Whether the parts describe a valid collection: `next` counts the titles,
/// which are distinct; terms are distinct, each with at least one meaning,
/// and every source is a title id.
pub open spec fn parts_ok(cs: Seq<(Seq<char>, Seq<StoredView>)>, titles: Seq<Seq<char>>, next: u32) -> bool {
    &&& next == titles.len()
    &&& titles_distinct(titles)
    &&& forall|i: int, j: int| 0 <= i < j < cs.len() ==> cs[i].0 != cs[j].0
    &&& forall|i: int| #![trigger cs[i]] 0 <= i < cs.len() ==> {
        &&& cs[i].1.len() > 0
        &&& forall|j: int| 0 <= j < cs[i].1.len() ==> (#[trigger] cs[i].1[j]).source < titles.len()
    }
}

/// The views of the parts of a collection.
pub open spec fn parts_view(cs: Seq<(String, Vec<ColMeaning>)>) -> Seq<(Seq<char>, Seq<StoredView>)> {
    cs.map_values(|p: (String, Vec<ColMeaning>)| (p.0@, stored_seq(p.1@)))
}

/// The views of a sequence of strings.
pub open spec fn strings_view(v: Seq<String>) -> Seq<Seq<char>> {
    v.map_values(|s: String| s@)
}

/// The first index at or after `i` whose meaning has the text `text`
/// (`ms.len()` where there is none).
pub open spec fn find_text(ms: Seq<StoredView>, text: Seq<char>, i: int) -> int
    decreases ms.len() - i,
{
    if 0 <= i < ms.len() && ms[i].text != text {
        find_text(ms, text, i + 1)
    } else {
        i
    }
}

/// No meaning before `find_text(ms, text, i)` (from `i` on) has the text `text`.
pub proof fn lemma_find_text_first(ms: Seq<StoredView>, text: Seq<char>, i: int, k: int)
    requires
        0 <= i <= k < find_text(ms, text, i),
    ensures
        ms[k].text != text,
    decreases k - i,
{
    if i < k {
        lemma_find_text_first(ms, text, i + 1, k);
    }
}

/// The collection after an exact duplicate of `m` came for `term`: the first
/// meaning with the same text takes `m`'s symbol where it has none.
pub open spec fn backfill_spec(c: CollectionView, term: Seq<char>, m: MeaningView) -> CollectionView {
    let ms = c.contents[term];
    let j = find_text(ms, m.text, 0);
    if m.symbol is Some && ms[j].symbol is None {
        CollectionView {
            contents: c.contents.insert(term, ms.update(j, StoredView { symbol: m.symbol, ..ms[j] })),
            ..c
        }
    } else {
        c
    }
}

/// With distinct terms, each listed term maps to its listed meanings.
pub proof fn lemma_contents_of_entry(cs: Seq<(Seq<char>, Seq<StoredView>)>, i: int)
    requires
        0 <= i < cs.len(),
        forall|a: int, b: int| 0 <= a < b < cs.len() ==> cs[a].0 != cs[b].0,
    ensures
        contents_of(cs).contains_key(cs[i].0),
        contents_of(cs)[cs[i].0] == cs[i].1,
    decreases cs.len(),
{
    if i < cs.len() - 1 {
        let d = cs.drop_last();
        assert(d[i] == cs[i]);
        assert forall|a: int, b: int| 0 <= a < b < d.len() implies d[a].0 != d[b].0 by {
            assert(d[a] == cs[a] && d[b] == cs[b]);
        }
        lemma_contents_of_entry(d, i);
        assert(cs.last().0 != cs[i].0);
    }
}

/// Any listing of a valid collection, each term once with its meanings in
/// order and the titles in id order, is accepted by `from_parts`, and
/// rebuilding from it gives the collection back; `to_parts` gives such a
/// listing.
pub proof fn lemma_parts_round_trip(
    c: CollectionView,
    cs: Seq<(Seq<char>, Seq<StoredView>)>,
    titles: Seq<Seq<char>>,
    next: u32,
)
    requires
        c.valid(),
        contents_of(cs) == c.contents,
        forall|a: int, b: int| 0 <= a < b < cs.len() ==> cs[a].0 != cs[b].0,
        titles == c.titles,
        next == titles.len(),
    ensures
        parts_ok(cs, titles, next),
        (CollectionView { contents: contents_of(cs), titles }) == c,
{
    assert forall|a: int| #![trigger cs[a]] 0 <= a < cs.len() implies {
        &&& cs[a].1.len() > 0
        &&& forall|j: int| 0 <= j < cs[a].1.len() ==> (#[trigger] cs[a].1[j]).source < titles.len()
    } by {
        lemma_contents_of_entry(cs, a);
        assert(c.contents.contains_key(cs[a].0));
        assert forall|j: int| 0 <= j < cs[a].1.len() implies (#[trigger] cs[a].1[j]).source < titles.len() by {
            assert(cs[a].1[j] == c.contents[cs[a].0][j]);
        }
    }
}

/// `terms` lists each element of `keys` once, and nothing else.
pub open spec fn terms_list(terms: Seq<String>, keys: Set<Seq<char>>) -> bool {
    &&& forall|i: int, j: int| 0 <= i < j < terms.len() ==> terms[i]@ != terms[j]@
    &&& forall|i: int| 0 <= i < terms.len() ==> keys.contains(#[trigger] terms[i]@)
    &&& forall|k: Seq<char>| #[trigger]
        keys.contains(k) ==> exists|i: int| 0 <= i < terms.len() && #[trigger] terms[i]@ == k
}

/// Terms and their meanings, each meaning tagged with the id of its source's
/// title; and the table of titles.
pub struct Collection {
    contents: StringHashMap<Vec<ColMeaning>>,
    terms: Vec<String>,
    titles: Vec<String>,
    titles_rev: StringHashMap<u32>,
    next_title_id: u32,
    empty: Vec<ColMeaning>,
}

impl View for Collection {
    type V = CollectionView;

    closed spec fn view(&self) -> CollectionView {
        CollectionView {
            contents: self.contents@.map_values(|v: Vec<ColMeaning>| stored_seq(v@)),
            titles: strings_view(self.titles@),
        }
    }
}

impl Collection {
    /// The invariant: the view is valid, the title table and its reverse map
    /// agree, `next_title_id` counts the titles, `terms` lists each known term
    /// once.
    pub closed spec fn wf(&self) -> bool {
        &&& self@.valid()
        &&& self.next_title_id as int == self.titles@.len()
        &&& self.empty@.len() == 0
        &&& forall|i: int|
            0 <= i < self.titles@.len() ==> {
                &&& #[trigger] self.titles_rev@.contains_key(self.titles@[i]@)
                &&& self.titles_rev@[self.titles@[i]@] == i
            }
        &&& forall|t: Seq<char>| #[trigger]
            self.titles_rev@.contains_key(t) ==> {
                &&& (self.titles_rev@[t] as int) < self.titles@.len()
                &&& self.titles@[self.titles_rev@[t] as int]@ == t
            }
        &&& terms_list(self.terms@, self.contents@.dom())
    }
    /// A well-formed collection has a valid view.
    pub proof fn lemma_valid(&self)
        requires
            self.wf(),
        ensures
            self@.valid(),
    {
    }

    /// An empty collection, with no titles.
    pub fn new() -> (r: Collection)
        ensures
            r.wf(),
            r@.contents == Map::<Seq<char>, Seq<StoredView>>::empty(),
            r@.titles == Seq::<Seq<char>>::empty(),
    {
        let r = Collection {
            contents: StringHashMap::new(),
            terms: Vec::new(),
            titles: Vec::new(),
            titles_rev: StringHashMap::new(),
            next_title_id: 0,
            empty: Vec::new(),
        };
        proof {
            assert(r@.contents =~= Map::<Seq<char>, Seq<StoredView>>::empty());
            assert(r@.titles =~= Seq::<Seq<char>>::empty());
        }
        r
    }

    /// The id of `title`, giving it the next id if it has none.
    fn ensure_title(&mut self, title: &str) -> (id: u32)
        requires
            old(self).wf(),
            old(self)@.has_room(title@),
        ensures
            final(self).wf(),
            final(self)@.titles == intern(old(self)@.titles, title@).0,
            id as int == intern(old(self)@.titles, title@).1,
            final(self)@.contents == old(self)@.contents,
    {
        let ghost tv = self@.titles;
        match self.titles_rev.get(title) {
            Some(id) => {
                let id = *id;
                proof {
                    assert(tv[id as int] == title@);
                    assert(tv.contains(title@));
                    let k = tv.index_of(title@);
                    assert(tv[k] == title@);
                    if k != id as int {
                        if k < id as int {
                            assert(tv[k] != tv[id as int]);
                        } else {
                            assert(tv[id as int] != tv[k]);
                        }
                    }
                }
                id
            },
            None => {
                proof {
                    if tv.contains(title@) {
                        let k = choose|k: int| 0 <= k < tv.len() && tv[k] == title@;
                        assert(self.titles_rev@.contains_key(self.titles@[k]@));
                    }
                }
                let id = self.next_title_id;
                self.titles.push(String::from_str(title));
                self.titles_rev.insert(String::from_str(title), id);
                self.next_title_id = id + 1;
                proof {
                    assert(self@.titles =~= tv.push(title@));
                    assert forall|i: int| 0 <= i < self.titles@.len() implies {
                        &&& #[trigger] self.titles_rev@.contains_key(self.titles@[i]@)
                        &&& self.titles_rev@[self.titles@[i]@] == i
                    } by {
                        if i < tv.len() {
                            assert(self.titles@[i]@ == tv[i]);
                            assert(tv[i] != title@);
                        }
                    }
                }
                id
            },
        }
    }

    /// Appends `meaning`, from the source titled `source_title`, to the
    /// meanings of `term`; an unknown term becomes known with it.
    pub fn add_meaning(&mut self, term: String, meaning: Meaning, source_title: &str)
        requires
            old(self).wf(),
            old(self)@.has_room(source_title@),
        ensures
            final(self).wf(),
            final(self)@ == add_spec(old(self)@, term@, meaning@, source_title@),
    {
        let ghost c0 = self@;
        let id = self.ensure_title(source_title);
        let ghost c1 = self@;
        let cm = ColMeaning::new(meaning, id);
        let existing = match self.contents.get(term.as_str()) {
            Some(ms) => Some(copy_meanings(ms)),
            None => None,
        };
        let ghost ms0 = c0.meanings_of(term@);
        let ghost t0 = self.terms@;
        let ghost keys0 = self.contents@.dom();
        let mut v = match existing {
            Some(v) => v,
            None => {
                self.terms.push(term.clone());
                Vec::new()
            },
        };
        proof {
            assert(stored_seq(v@) =~= ms0);
        }
        v.push(cm);
        proof {
            assert(stored_seq(v@) =~= ms0.push(cm@));
        }
        self.contents.insert(term, v);
        proof {
            assert(self@.contents =~= c1.contents.insert(term@, ms0.push(cm@)));
            assert(self@.titles == c1.titles);
            let keys = self.contents@.dom();
            assert forall|k: Seq<char>| #[trigger] keys.contains(k) implies exists|i: int|
                0 <= i < self.terms@.len() && #[trigger] self.terms@[i]@ == k by {
                if keys0.contains(k) {
                    let i = choose|i: int| 0 <= i < t0.len() && #[trigger] t0[i]@ == k;
                    assert(self.terms@[i] == t0[i]);
                } else {
                    assert(self.terms@[t0.len() as int]@ == k);
                }
            }
        }
    }

    /// Overwrites the meaning at `index` of `term`: its text becomes `text`,
    /// its symbol `symbol` where that is given, and its source the title
    /// `source_title`. Fails, changing nothing, where `term` has no meanings
    /// or `index` is out of bounds.
    pub fn replace_meaning(
        &mut self,
        term: &str,
        index: usize,
        text: String,
        symbol: Option<String>,
        source_title: &str,
    ) -> (r: Result<(), String>)
        requires
            old(self).wf(),
            old(self)@.has_room(source_title@),
        ensures
            final(self).wf(),
            r is Ok <==> index < old(self)@.meanings_of(term@).len(),
            match r {
                Ok(()) => final(self)@ == replace_spec(
                    old(self)@,
                    term@,
                    index as int,
                    text@,
                    opt_chars(symbol),
                    source_title@,
                ),
                Err(msg) => {
                    &&& final(self)@ == old(self)@
                    &&& !old(self)@.contents.contains_key(term@) ==> msg@ == "No meanings found for term '"@
                        + term@ + "'"@
                    &&& old(self)@.contents.contains_key(term@) ==> exists|a: Seq<char>, b: Seq<char>|
                        msg@ == "Invalid index: "@ + a + " >= "@ + b + "."@
                },
            },
    {
        let n = match self.contents.get(term) {
            Some(ms) => ms.len(),
            None => 0,
        };
        proof {
            if self@.contents.contains_key(term@) {
                assert(self@.contents[term@] == stored_seq(self.contents@[term@]@));
            }
        }
        if n == 0 {
            let mut msg = String::from_str("No meanings found for term '");
            msg.append(term);
            msg.append("'");
            return Err(msg);
        }
        if index >= n {
            let a = index.to_string();
            let b = n.to_string();
            let mut msg = String::from_str("Invalid index: ");
            msg.append(a.as_str());
            msg.append(" >= ");
            msg.append(b.as_str());
            msg.append(".");
            proof {
                assert(msg@ == "Invalid index: "@ + a@ + " >= "@ + b@ + "."@);
            }
            return Err(msg);
        }
        let ghost c0 = self@;
        let id = self.ensure_title(source_title);
        let ghost c1 = self@;
        let mut v = match self.contents.get(term) {
            Some(ms) => copy_meanings(ms),
            None => Vec::new(),
        };
        proof {
            assert(c0.contents.contains_key(term@));
            assert(c1.contents[term@] == stored_seq(v@));
            assert(stored_seq(v@).len() == v@.len());
        }
        let old_symbol = match &v[index].symbol {
            Some(s) => Some(s.clone()),
            None => None,
        };
        let new_symbol = match symbol {
            Some(s) => Some(s),
            None => old_symbol,
        };
        let ghost ms0 = c0.contents[term@];
        let cm = ColMeaning { text, symbol: new_symbol, source: id };
        v.set(index, cm);
        proof {
            assert(stored_seq(v@) =~= ms0.update(
                index as int,
                replace_spec(c0, term@, index as int, text@, opt_chars(symbol), source_title@).contents[term@][index as int],
            ));
        }
        self.contents.insert(String::from_str(term), v);
        proof {
            assert(self@.contents =~= replace_spec(
                c0,
                term@,
                index as int,
                text@,
                opt_chars(symbol),
                source_title@,
            ).contents);
        }
        Ok(())
    }

    /// Where `term` is known with a meaning whose text is `text`, that
    /// meaning's symbol becomes `symbol` if it has none; else nothing changes.
    pub fn backfill_symbol(&mut self, term: &str, text: &str, symbol: Option<String>)
        requires
            old(self).wf(),
        ensures
            final(self).wf(),
            old(self)@.has_text(term@, text@) ==> final(self)@ == backfill_spec(
                old(self)@,
                term@,
                MeaningView { text: text@, symbol: opt_chars(symbol) },
            ),
            !old(self)@.has_text(term@, text@) ==> final(self)@ == old(self)@,
    {
        let ghost c0 = self@;
        let ghost m = MeaningView { text: text@, symbol: opt_chars(symbol) };
        let t = String::from_str(text);
        let mut v = match self.contents.get(term) {
            Some(ms) => copy_meanings(ms),
            None => {
                return;
            },
        };
        let ghost ms = c0.contents[term@];
        proof {
            assert(ms == stored_seq(v@));
        }
        let mut j: usize = 0;
        while j < v.len() && v[j].text != t
            invariant
                j <= v@.len(),
                t@ == text@,
                ms == stored_seq(v@),
                find_text(ms, text@, 0) == find_text(ms, text@, j as int),
            decreases v@.len() - j,
        {
            j = j + 1;
        }
        if j == v.len() {
            proof {
                assert forall|k: int| 0 <= k < c0.meanings_of(term@).len() implies #[trigger] c0.meanings_of(term@)[k].text != text@ by {
                    lemma_find_text_first(ms, text@, 0, k);
                }
            }
            return;
        }
        let missing = match &v[j].symbol {
            Some(_) => false,
            None => true,
        };
        match symbol {
            Some(sym) => {
                if missing {
                    let cm = ColMeaning { text: v[j].text.clone(), symbol: Some(sym), source: v[j].source };
                    v.set(j, cm);
                    proof {
                        assert(stored_seq(v@) =~= ms.update(j as int, StoredView { symbol: m.symbol, ..ms[j as int] }));
                    }
                    self.contents.insert(String::from_str(term), v);
                    proof {
                        assert(self@.contents =~= backfill_spec(c0, term@, m).contents);
                    }
                }
            },
            None => {},
        }
    }

    /// Whether `term` is known with a meaning whose text is `meaning`.
    pub fn contains(&self, term: &str, meaning: &str) -> (r: bool)
        requires
            self.wf(),
        ensures
            r == self@.has_text(term@, meaning@),
    {
        match self.contents.get(term) {
            None => false,
            Some(ms) => {
                let m = String::from_str(meaning);
                let mut i: usize = 0;
                while i < ms.len()
                    invariant
                        i <= ms@.len(),
                        m@ == meaning@,
                        stored_seq(ms@) == self@.meanings_of(term@),
                        forall|j: int| 0 <= j < i ==> ms@[j].text@ != meaning@,
                    decreases ms@.len() - i,
                {
                    if ms[i].text == m {
                        proof {
                            assert(self@.meanings_of(term@)[i as int].text == meaning@);
                        }
                        return true;
                    }
                    i = i + 1;
                }
                proof {
                    assert forall|j: int| 0 <= j < self@.meanings_of(term@).len() implies #[trigger] self@.meanings_of(term@)[j].text != meaning@ by {
                        assert(self@.meanings_of(term@)[j] == ms@[j]@);
                    }
                }
                false
            },
        }
    }

    /// The meanings of `term`, in the order they came; empty for an unknown term.
    pub fn meanings(&self, term: &str) -> (r: &Vec<ColMeaning>)
        requires
            self.wf(),
        ensures
            stored_seq(r@) == self@.meanings_of(term@),
            r@.len() == self@.meanings_of(term@).len(),
    {
        match self.contents.get(term) {
            Some(ms) => ms,
            None => {
                proof {
                    assert(stored_seq(self.empty@) =~= Seq::<StoredView>::empty());
                }
                &self.empty
            },
        }
    }

    /// The collection as plain parts: each term with its meanings (terms in
    /// the order they became known), the titles in id order, and the next id.
    pub fn to_parts(&self) -> (r: (Vec<(String, Vec<ColMeaning>)>, Vec<String>, u32))
        requires
            self.wf(),
        ensures
            parts_ok(parts_view(r.0@), strings_view(r.1@), r.2),
            contents_of(parts_view(r.0@)) == self@.contents,
            strings_view(r.1@) == self@.titles,
    {
        let mut out: Vec<(String, Vec<ColMeaning>)> = Vec::new();
        let mut i: usize = 0;
        while i < self.terms.len()
            invariant
                self.wf(),
                i <= self.terms@.len(),
                out@.len() == i,
                forall|j: int| 0 <= j < i ==> (#[trigger] parts_view(out@)[j]).0 == self.terms@[j]@,
                forall|j: int| 0 <= j < i ==> (#[trigger] parts_view(out@)[j]).1 == self@.contents[self.terms@[j]@],
                forall|k: Seq<char>| #[trigger] contents_of(parts_view(out@)).contains_key(k) <==> exists|j: int| 0 <= j < i && self.terms@[j]@ == k,
                forall|k: Seq<char>| #[trigger] contents_of(parts_view(out@)).contains_key(k) ==> contents_of(parts_view(out@))[k] == self@.contents[k],
            decreases self.terms@.len() - i,
        {
            let term = &self.terms[i];
            let ms = match self.contents.get(term.as_str()) {
                Some(ms) => copy_meanings(ms),
                None => Vec::new(),
            };
            let ghost old_pv = parts_view(out@);
            out.push((term.clone(), ms));
            proof {
                assert(parts_view(out@) =~= old_pv.push((self.terms@[i as int]@, self@.contents[self.terms@[i as int]@])));
                assert(parts_view(out@).drop_last() =~= old_pv);
                let key = self.terms@[i as int]@;
                assert(parts_view(out@).last() == (key, self@.contents[key]));
                assert(contents_of(parts_view(out@)) == contents_of(old_pv).insert(key, self@.contents[key]));
                assert forall|k: Seq<char>| #[trigger] contents_of(parts_view(out@)).contains_key(k) <==> exists|j: int| 0 <= j < i + 1 && self.terms@[j]@ == k by {
                    if k == self.terms@[i as int]@ {
                        assert(0 <= i < i + 1 && self.terms@[i as int]@ == k);
                    } else if exists|j: int| 0 <= j < i + 1 && self.terms@[j]@ == k {
                        let j = choose|j: int| 0 <= j < i + 1 && self.terms@[j]@ == k;
                        assert(j < i);
                    }
                }
            }
            i = i + 1;
        }
        let mut titles: Vec<String> = Vec::new();
        let mut t: usize = 0;
        while t < self.titles.len()
            invariant
                self.wf(),
                t <= self.titles@.len(),
                titles@ == self.titles@.subrange(0, t as int),
            decreases self.titles@.len() - t,
        {
            titles.push(self.titles[t].clone());
            t = t + 1;
            proof {
                assert(titles@ =~= self.titles@.subrange(0, t as int));
            }
        }
        proof {
            assert(titles@ =~= self.titles@);
            let pv = parts_view(out@);
            assert(contents_of(pv) =~= self@.contents) by {
                assert forall|k: Seq<char>| self@.contents.contains_key(k) implies #[trigger] contents_of(pv).contains_key(k) by {
                    let j = choose|j: int| 0 <= j < self.terms@.len() && #[trigger] self.terms@[j]@ == k;
                }
            }
            assert forall|a: int, b: int| 0 <= a < b < pv.len() implies pv[a].0 != pv[b].0 by {
                assert(pv[a].0 == self.terms@[a]@);
                assert(pv[b].0 == self.terms@[b]@);
            }
            assert forall|a: int| #![trigger pv[a]] 0 <= a < pv.len() implies {
                &&& pv[a].1.len() > 0
                &&& forall|j: int| 0 <= j < pv[a].1.len() ==> (#[trigger] pv[a].1[j]).source < strings_view(titles@).len()
            } by {
                assert(self@.contents.contains_key(self.terms@[a]@));
            }
        }
        (out, titles, self.next_title_id)
    }

    /// A collection from plain parts, as `to_parts` gives them: each term
    /// with its meanings, the titles in id order, and the next id. `None`
    /// where the parts do not describe a valid collection.
    pub fn from_parts(
        contents: Vec<(String, Vec<ColMeaning>)>,
        titles: Vec<String>,
        next_title_id: u32,
    ) -> (r: Option<Collection>)
        ensures
            match r {
                Some(c) => {
                    &&& c.wf()
                    &&& parts_ok(parts_view(contents@), strings_view(titles@), next_title_id)
                    &&& c@ == CollectionView {
                        contents: contents_of(parts_view(contents@)),
                        titles: strings_view(titles@),
                    }
                },
                None => !parts_ok(parts_view(contents@), strings_view(titles@), next_title_id),
            },
    {
        let ghost pv = parts_view(contents@);
        let ghost tv = strings_view(titles@);
        let n = titles.len();
        if n != next_title_id as usize {
            return None;
        }
        let mut rev: StringHashMap<u32> = StringHashMap::new();
        let mut tcopy: Vec<String> = Vec::new();
        let mut i: usize = 0;
        while i < n
            invariant
                n == titles@.len() == next_title_id,
                i <= n,
                tv == strings_view(titles@),
                tcopy@ == titles@.subrange(0, i as int),
                forall|a: int, b: int| 0 <= a < b < i ==> tv[a] != tv[b],
                forall|a: int| 0 <= a < i ==> {
                    &&& #[trigger] rev@.contains_key(tv[a])
                    &&& rev@[tv[a]] == a
                },
                forall|t: Seq<char>| #[trigger]
                    rev@.contains_key(t) ==> {
                        &&& (rev@[t] as int) < i
                        &&& tv[rev@[t] as int] == t
                    },
            decreases n - i,
        {
            if rev.contains_key(titles[i].as_str()) {
                proof {
                    let a = rev@[tv[i as int]] as int;
                    assert(tv[a] == tv[i as int]);
                }
                return None;
            }
            rev.insert(titles[i].clone(), i as u32);
            tcopy.push(titles[i].clone());
            i = i + 1;
            proof {
                assert(tcopy@ =~= titles@.subrange(0, i as int));
            }
        }
        proof {
            assert(tcopy@ =~= titles@);
        }
        let mut map: StringHashMap<Vec<ColMeaning>> = StringHashMap::new();
        let mut terms: Vec<String> = Vec::new();
        let mut i: usize = 0;
        while i < contents.len()
            invariant
                n == titles@.len() == next_title_id,
                pv == parts_view(contents@),
                i <= contents@.len(),
                map@.map_values(|v: Vec<ColMeaning>| stored_seq(v@)) == contents_of(pv.subrange(0, i as int)),
                forall|a: int, b: int| 0 <= a < b < i ==> pv[a].0 != pv[b].0,
                forall|a: int| #![trigger pv[a]] 0 <= a < i ==> {
                    &&& pv[a].1.len() > 0
                    &&& forall|j: int| 0 <= j < pv[a].1.len() ==> (#[trigger] pv[a].1[j]).source < n
                },
                forall|k: Seq<char>| #[trigger] map@.contains_key(k) ==> exists|a: int| 0 <= a < i && pv[a].0 == k,
                forall|a: int| 0 <= a < i ==> #[trigger] map@.contains_key(pv[a].0),
                forall|k: Seq<char>| #[trigger] map@.contains_key(k) ==> {
                    &&& map@[k]@.len() > 0
                    &&& forall|j: int| 0 <= j < map@[k]@.len() ==> (#[trigger] map@[k]@[j]).source < n
                },
                terms_list(terms@, map@.dom()),
            decreases contents@.len() - i,
        {
            let term = &contents[i].0;
            let ms = &contents[i].1;
            proof {
                assert(pv[i as int] == (term@, stored_seq(ms@)));
            }
            if ms.len() == 0 {
                return None;
            }
            if map.contains_key(term.as_str()) {
                proof {
                    let a = choose|a: int| 0 <= a < i && pv[a].0 == term@;
                    assert(pv[a].0 == pv[i as int].0);
                }
                return None;
            }
            let mut k: usize = 0;
            while k < ms.len()
                invariant
                    k <= ms@.len(),
                    i < contents@.len(),
                    n == titles@.len(),
                    pv == parts_view(contents@),
                    pv[i as int] == (term@, stored_seq(ms@)),
                    forall|j: int| 0 <= j < k ==> (#[trigger] ms@[j]).source < n,
                decreases ms@.len() - k,
            {
                if ms[k].source as usize >= n {
                    proof {
                        assert(pv[i as int].1[k as int].source >= n);
                    }
                    return None;
                }
                k = k + 1;
            }
            let ghost t0 = terms@;
            let ghost keys0 = map@.dom();
            let ghost m0 = map@;
            map.insert(term.clone(), copy_meanings(ms));
            terms.push(term.clone());
            proof {
                let sub = pv.subrange(0, i + 1);
                assert(sub.drop_last() =~= pv.subrange(0, i as int));
                assert(contents_of(sub) == contents_of(pv.subrange(0, i as int)).insert(term@, stored_seq(ms@)));
                assert(map@.map_values(|v: Vec<ColMeaning>| stored_seq(v@)) =~= contents_of(sub));
                assert forall|kk: Seq<char>| #[trigger] map@.dom().contains(kk) implies exists|a: int|
                    0 <= a < terms@.len() && #[trigger] terms@[a]@ == kk by {
                    if keys0.contains(kk) {
                        let a = choose|a: int| 0 <= a < t0.len() && #[trigger] t0[a]@ == kk;
                        assert(terms@[a] == t0[a]);
                    } else {
                        assert(terms@[t0.len() as int]@ == kk);
                    }
                }
                assert forall|kk: Seq<char>| #[trigger] map@.contains_key(kk) implies exists|a: int| 0 <= a < i + 1 && pv[a].0 == kk by {
                    if m0.contains_key(kk) {
                        let a = choose|a: int| 0 <= a < i && pv[a].0 == kk;
                    } else {
                        assert(pv[i as int].0 == kk);
                    }
                }
                assert forall|a: int, b: int| 0 <= a < b < i + 1 implies pv[a].0 != pv[b].0 by {
                    if b == i {
                        assert(m0.contains_key(pv[a].0));
                    }
                }
            }
            i = i + 1;
        }
        proof {
            assert(pv.subrange(0, pv.len() as int) =~= pv);
        }
        let c = Collection {
            contents: map,
            terms,
            titles: tcopy,
            titles_rev: rev,
            next_title_id,
            empty: Vec::new(),
        };
        proof {
            assert(c@.titles == tv);
            assert forall|a: int| 0 <= a < c.titles@.len() implies {
                &&& #[trigger] c.titles_rev@.contains_key(c.titles@[a]@)
                &&& c.titles_rev@[c.titles@[a]@] == a
            } by {
                assert(c.titles@[a]@ == tv[a]);
            }
            assert forall|k: Seq<char>| #[trigger] c@.contents.contains_key(k) implies {
                &&& c@.contents[k].len() > 0
                &&& forall|j: int| 0 <= j < c@.contents[k].len() ==> (#[trigger] c@.contents[k][j]).source < c@.titles.len()
            } by {
                assert(c@.contents[k] == stored_seq(c.contents@[k]@));
                assert forall|j: int| 0 <= j < c@.contents[k].len() implies (#[trigger] c@.contents[k][j]).source < c@.titles.len() by {
                    assert(c@.contents[k][j] == c.contents@[k]@[j]@);
                }
            }
        }
        Some(c)
    }

    /// Whether `title` can be given an id.
    pub fn has_room(&self, title: &str) -> (r: bool)
        requires
            self.wf(),
        ensures
            r == self@.has_room(title@),
    {
        if self.titles_rev.contains_key(title) {
            proof {
                let id = self.titles_rev@[title@];
                assert(self@.titles[id as int] == title@);
            }
            true
        } else {
            proof {
                if self@.titles.contains(title@) {
                    let k = choose|k: int| 0 <= k < self@.titles.len() && self@.titles[k] == title@;
                    assert(self.titles_rev@.contains_key(self.titles@[k]@));
                }
            }
            self.next_title_id < u32::MAX
        }
    }

    /// The title with id `id`, if there is one.
    pub fn title(&self, id: u32) -> (r: Option<&String>)
        requires
            self.wf(),
        ensures
            match r {
                Some(t) => (id as int) < self@.titles.len() && t@ == self@.titles[id as int],
                None => id as int >= self@.titles.len(),
            },
    {
        if id < self.next_title_id {
            Some(&self.titles[id as usize])
        } else {
            None
        }
    }
}

} // verus!
