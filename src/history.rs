//! The history: the (term, meaning text) pairs already decided on.
use vstd::prelude::*;
use vstd::hash_map::StringHashMap;
use crate::collection::{strings_view, terms_list};

verus! {

broadcast use vstd::hash_map::group_hash_map_axioms;

/// The pairs recorded for each term, as values.
pub type HistoryView = Map<Seq<char>, Set<Seq<char>>>;

/// Whether `(term, text)` is recorded in `h`.
pub open spec fn handled(h: HistoryView, term: Seq<char>, text: Seq<char>) -> bool {
    h.contains_key(term) && h[term].contains(text)
}

/// `h` with `(term, text)` recorded.
pub open spec fn record(h: HistoryView, term: Seq<char>, text: Seq<char>) -> HistoryView {
    let old = if h.contains_key(term) {
        h[term]
    } else {
        Set::empty()
    };
    h.insert(term, old.insert(text))
}

/// The set of the views of a sequence of strings.
pub open spec fn text_set(v: Seq<String>) -> Set<Seq<char>> {
    strings_view(v).to_set()
}

/// `ps` lists each recorded term of `h` once, with its recorded texts.
pub open spec fn lists_history(h: HistoryView, ps: Seq<(String, Vec<String>)>) -> bool {
    &&& forall|a: int, b: int| 0 <= a < b < ps.len() ==> ps[a].0@ != ps[b].0@
    &&& forall|a: int| #![trigger ps[a]] 0 <= a < ps.len() ==> h.contains_key(ps[a].0@) && h[ps[a].0@] == text_set(ps[a].1@)
    &&& forall|k: Seq<char>| #[trigger] h.contains_key(k) ==> exists|a: int| 0 <= a < ps.len() && #[trigger] ps[a].0@ == k
}

/// For each term, the meaning texts already decided on. Entries are only
/// ever added.
pub struct History {
    handled: StringHashMap<Vec<String>>,
    terms: Vec<String>,
}

impl View for History {
    type V = HistoryView;

    closed spec fn view(&self) -> HistoryView {
        self.handled@.map_values(|v: Vec<String>| text_set(v@))
    }
}

/// A copy of a sequence of strings.
fn copy_strings(v: &Vec<String>) -> (r: Vec<String>)
    ensures
        r@ == v@,
{
    let mut r: Vec<String> = Vec::new();
    let mut i: usize = 0;
    while i < v.len()
        invariant
            i <= v@.len(),
            r@ == v@.subrange(0, i as int),
        decreases v@.len() - i,
    {
        r.push(v[i].clone());
        i = i + 1;
        proof {
            assert(r@ =~= v@.subrange(0, i as int));
        }
    }
    proof {
        assert(r@ =~= v@);
    }
    r
}

/// Whether `v` holds a string equal to `s`.
fn holds(v: &Vec<String>, s: &String) -> (r: bool)
    ensures
        r == text_set(v@).contains(s@),
{
    let mut i: usize = 0;
    while i < v.len()
        invariant
            i <= v@.len(),
            forall|j: int| 0 <= j < i ==> v@[j]@ != s@,
        decreases v@.len() - i,
    {
        if v[i] == *s {
            proof {
                assert(strings_view(v@)[i as int] == s@);
            }
            return true;
        }
        i = i + 1;
    }
    proof {
        if text_set(v@).contains(s@) {
            let j = choose|j: int| 0 <= j < strings_view(v@).len() && strings_view(v@)[j] == s@;
            assert(v@[j]@ == s@);
        }
    }
    false
}

impl History {
    /// The invariant: `terms` lists each recorded term once.
    pub closed spec fn wf(&self) -> bool {
        terms_list(self.terms@, self.handled@.dom())
    }

    /// An empty history.
    pub fn new() -> (r: History)
        ensures
            r.wf(),
            r@ == HistoryView::empty(),
    {
        let r = History { handled: StringHashMap::new(), terms: Vec::new() };
        proof {
            assert(r@ =~= HistoryView::empty());
        }
        r
    }

    /// Records `(term, meaning)`; recording a pair twice changes nothing.
    pub fn insert(&mut self, term: String, meaning: String)
        requires
            old(self).wf(),
        ensures
            final(self).wf(),
            final(self)@ == record(old(self)@, term@, meaning@),
            forall|t: Seq<char>, m: Seq<char>| handled(old(self)@, t, m) ==> handled(final(self)@, t, m),
    {
        let ghost h0 = self@;
        let ghost t0 = self.terms@;
        let ghost keys0 = self.handled@.dom();
        let mut v = match self.handled.get(term.as_str()) {
            Some(v) => copy_strings(v),
            None => {
                self.terms.push(term.clone());
                Vec::new()
            },
        };
        let ghost old_set = if h0.contains_key(term@) {
            h0[term@]
        } else {
            Set::<Seq<char>>::empty()
        };
        proof {
            assert(text_set(v@) =~= old_set);
        }
        if !holds(&v, &meaning) {
            let ghost vb = v@;
            let ghost m = meaning@;
            v.push(meaning);
            proof {
                assert(v@ == vb.push(meaning));
                let before = strings_view(vb);
                assert(strings_view(v@) =~= before.push(m));
                before.lemma_push_to_set_commute(m);
                assert(text_set(v@) =~= old_set.insert(m));
            }
        } else {
            proof {
                assert(old_set.insert(meaning@) =~= old_set);
            }
        }
        self.handled.insert(term, v);
        proof {
            assert(self@ =~= record(h0, term@, meaning@));
            let keys = self.handled@.dom();
            assert forall|k: Seq<char>| #[trigger] keys.contains(k) implies exists|i: int|
                0 <= i < self.terms@.len() && #[trigger] self.terms@[i]@ == k by {
                if keys0.contains(k) {
                    let i = choose|i: int| 0 <= i < t0.len() && #[trigger] t0[i]@ == k;
                    assert(self.terms@[i] == t0[i]);
                } else {
                    assert(self.terms@[t0.len() as int]@ == k);
                }
            }
        }
    }

    /// Each recorded term with its recorded texts, terms in the order they
    /// were first recorded.
    pub fn to_parts(&self) -> (r: Vec<(String, Vec<String>)>)
        requires
            self.wf(),
        ensures
            lists_history(self@, r@),
    {
        let mut out: Vec<(String, Vec<String>)> = Vec::new();
        let mut i: usize = 0;
        while i < self.terms.len()
            invariant
                self.wf(),
                i <= self.terms@.len(),
                out@.len() == i,
                forall|a: int| 0 <= a < i ==> (#[trigger] out@[a]).0@ == self.terms@[a]@,
                forall|a: int| #![trigger out@[a]] 0 <= a < i ==> self@.contains_key(out@[a].0@) && self@[out@[a].0@] == text_set(out@[a].1@),
            decreases self.terms@.len() - i,
        {
            let term = &self.terms[i];
            let texts = match self.handled.get(term.as_str()) {
                Some(v) => copy_strings(v),
                None => Vec::new(),
            };
            out.push((term.clone(), texts));
            i = i + 1;
        }
        proof {
            assert forall|a: int, b: int| 0 <= a < b < out@.len() implies out@[a].0@ != out@[b].0@ by {
                assert(out@[a].0@ == self.terms@[a]@);
                assert(out@[b].0@ == self.terms@[b]@);
            }
            assert forall|k: Seq<char>| #[trigger] self@.contains_key(k) implies exists|a: int| 0 <= a < out@.len() && #[trigger] out@[a].0@ == k by {
                let a = choose|a: int| 0 <= a < self.terms@.len() && #[trigger] self.terms@[a]@ == k;
                assert(out@[a].0@ == k);
            }
        }
        out
    }

    /// Whether `(term, meaning)` is recorded.
    pub fn contains(&self, term: &str, meaning: &str) -> (r: bool)
        ensures
            r == handled(self@, term@, meaning@),
    {
        match self.handled.get(term) {
            None => false,
            Some(v) => holds(v, &String::from_str(meaning)),
        }
    }
}

} // verus!
