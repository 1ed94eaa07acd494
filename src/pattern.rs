//! The vocabulary line pattern: a term, an optional Han annotation, a meaning.
//!
//! The term is a greedy run of words (markers `- ( ) / ~ N I A V` and Hangul
//! characters), each followed by white space or colons. Then comes an optional
//! run of Han characters and white space, the symbol, and the rest of the line
//! is the meaning. When the greedy choice leaves nothing for the meaning, the
//! scan gives back as little as it can: one separator character, or else the
//! whole last word with its separator.
use vstd::prelude::*;
use crate::script::{han_class, han_flags, hangul_class, hangul_flags};
use crate::source::{Meaning, MeaningView, Note, NoteView};
use crate::text::{
    lemma_run_end,
    lemma_run_end_bounds,
    run_end,
    string_of,
    trim,
    trim_bounds,
    trimmed_string,
    white_space,
    is_white_space,
};

verus! {

/// The grammatical markers allowed in a term besides Hangul.
pub open spec fn is_marker(c: char) -> bool {
    c == '-' || c == '(' || c == ')' || c == '/' || c == '~' || c == 'N' || c == 'I' || c == 'A'
        || c == 'V'
}

/// What ends a word of the term: white space or a colon.
pub open spec fn is_separator(c: char) -> bool {
    white_space(c) || c == ':'
}

/// A character of a term word. (No Hangul character is white space, so the
/// last condition only keeps the two classes apart.)
pub open spec fn is_term_char(c: char) -> bool {
    (is_marker(c) || hangul_class(c)) && !is_separator(c)
}

/// A character of the symbol field: Han or white space.
pub open spec fn is_symbol_char(c: char) -> bool {
    han_class(c) || white_space(c)
}

pub open spec fn term_chars() -> spec_fn(char) -> bool {
    |c: char| is_term_char(c)
}

pub open spec fn separators() -> spec_fn(char) -> bool {
    |c: char| is_separator(c)
}

pub open spec fn symbol_chars() -> spec_fn(char) -> bool {
    |c: char| is_symbol_char(c)
}

/// Whether a non-empty word followed by non-empty separators starts at `p`.
pub open spec fn pair_at(s: Seq<char>, p: int) -> bool {
    let a = run_end(s, p, term_chars());
    p < a && a < run_end(s, a, separators())
}

/// Where the separators after the word at `p` end.
pub open spec fn pair_end(s: Seq<char>, p: int) -> int {
    run_end(s, run_end(s, p, term_chars()), separators())
}

/// The end of the term field, once the greedy scan has read word/separator
/// pairs up to `p`, the last of them starting at `q` with its separators at `a`.
pub open spec fn term_end_from(s: Seq<char>, q: int, a: int, p: int) -> Option<int>
    decreases s.len() - p,
{
    if 0 <= p <= s.len() && pair_at(s, p) {
        proof {
            lemma_run_end_bounds(s, p, term_chars());
            lemma_run_end_bounds(s, run_end(s, p, term_chars()), separators());
        }
        term_end_from(s, p, run_end(s, p, term_chars()), pair_end(s, p))
    } else if p < s.len() {
        Some(p)
    } else if p - a >= 2 {
        Some(p - 1)
    } else if q > 0 {
        Some(q)
    } else {
        None
    }
}

/// The end of the term field of `s`, if `s` starts with one.
pub open spec fn term_field_end(s: Seq<char>) -> Option<int> {
    if pair_at(s, 0) {
        term_end_from(s, 0, run_end(s, 0, term_chars()), pair_end(s, 0))
    } else {
        None
    }
}

/// `t` without one trailing colon.
pub open spec fn strip_colon(t: Seq<char>) -> Seq<char> {
    if t.len() > 0 && t.last() == ':' {
        t.drop_last()
    } else {
        t
    }
}

/// `None` for the empty sequence.
pub open spec fn non_empty(t: Seq<char>) -> Option<Seq<char>> {
    if t.len() == 0 {
        None
    } else {
        Some(t)
    }
}

/// The note that the vocabulary line `s` holds, if it holds one.
pub open spec fn vocab_note(s: Seq<char>) -> Option<NoteView> {
    match term_field_end(s) {
        None => None,
        Some(e) => {
            let h = run_end(s, e, symbol_chars());
            let g = if h < s.len() {
                h
            } else {
                s.len() - 1
            };
            Some(
                NoteView {
                    term: strip_colon(trim(s.subrange(0, e))),
                    meaning: MeaningView {
                        text: trim(s.subrange(g, s.len() as int)),
                        symbol: non_empty(trim(s.subrange(e, g))),
                    },
                },
            )
        },
    }
}

/// Whether `t` is a term as a line writes it: words of term characters, each
/// two separated by one space.
pub open spec fn is_term_text(t: Seq<char>) -> bool {
    &&& t.len() > 0
    &&& is_term_char(t[0])
    &&& is_term_char(t.last())
    &&& forall|i: int| 0 <= i < t.len() ==> is_term_char(#[trigger] t[i]) || t[i] == ' '
    &&& forall|i: int| 0 <= i < t.len() - 1 ==> !(#[trigger] t[i] == ' ' && t[i + 1] == ' ')
}

/// Whether `y` can stand as a symbol: Han characters, none of them white space
/// or a colon, the first not a term character.
pub open spec fn is_symbol_text(y: Seq<char>) -> bool {
    &&& y.len() > 0
    &&& !is_term_char(y[0])
    &&& forall|i: int| 0 <= i < y.len() ==> han_class(#[trigger] y[i]) && !is_separator(y[i])
}

/// Whether `m` can stand as a meaning after a term and symbol: its first
/// character is neither a term, a separator nor a symbol character, and it
/// ends without white space.
pub open spec fn is_meaning_text(m: Seq<char>) -> bool {
    &&& m.len() > 0
    &&& !is_term_char(m[0])
    &&& !is_separator(m[0])
    &&& !is_symbol_char(m[0])
    &&& !white_space(m.last())
}

/// The line that writes `term`, then `symbol` where there is one, then
/// `meaning`, each followed by one space but the last.
pub open spec fn vocab_line(term: Seq<char>, symbol: Option<Seq<char>>, meaning: Seq<char>) -> Seq<char> {
    match symbol {
        Some(y) => term + seq![' '] + y + seq![' '] + meaning,
        None => term + seq![' '] + meaning,
    }
}

/// `trim(t)` is `t[a..b]` where only white space stands outside it and no
/// white space at its ends.
proof fn lemma_trim_exact(t: Seq<char>, a: int, b: int)
    requires
        0 <= a < b <= t.len(),
        forall|k: int| 0 <= k < a ==> white_space(#[trigger] t[k]),
        forall|k: int| b <= k < t.len() ==> white_space(#[trigger] t[k]),
        !white_space(t[a]),
        !white_space(t[b - 1]),
    ensures
        trim(t) == t.subrange(a, b),
{
    lemma_run_end(t, 0, a, crate::text::spaces());
    crate::text::lemma_run_start(t, a, b, t.len() as int, crate::text::spaces());
}

/// Read from `p`, where the rest of a term (words and single spaces, the
/// last followed by a space) runs up to `e` and is followed by neither a term
/// character nor a separator, the term field ends at `e`.
proof fn lemma_term_chain(s: Seq<char>, q: int, a: int, p: int, e: int)
    requires
        0 <= p <= e < s.len(),
        forall|i: int| p <= i < e ==> is_term_char(#[trigger] s[i]) || s[i] == ' ',
        forall|i: int| p <= i < e - 1 ==> !(#[trigger] s[i] == ' ' && s[i + 1] == ' '),
        p < e ==> is_term_char(s[p]) && s[e - 1] == ' ',
        !is_term_char(s[e]),
        !is_separator(s[e]),
    ensures
        term_end_from(s, q, a, p) == Some(e),
    decreases e - p,
{
    lemma_run_end_bounds(s, p, term_chars());
    let x = run_end(s, p, term_chars());
    if p == e {
        assert(!pair_at(s, p));
    } else {
        if x >= e {
            assert(term_chars()(s[e - 1]));
        }
        assert(s[x] == ' ');
        lemma_run_end_bounds(s, x, separators());
        if x + 1 < e {
            assert(is_term_char(s[x + 1]) || s[x + 1] == ' ');
            assert(!(s[x] == ' ' && s[x + 1] == ' '));
        }
        lemma_run_end(s, x, x + 1, separators());
        assert(pair_at(s, p));
        lemma_term_chain(s, p, x, x + 1, e);
    }
}

/// A line written from a term (one word or several), an optional symbol and a
/// meaning is read back as exactly that term, symbol and meaning.
pub proof fn lemma_vocab_line(term: Seq<char>, symbol: Option<Seq<char>>, meaning: Seq<char>)
    requires
        is_term_text(term),
        match symbol {
            Some(y) => is_symbol_text(y),
            None => true,
        },
        is_meaning_text(meaning),
    ensures
        vocab_note(vocab_line(term, symbol, meaning)) == Some(
            NoteView { term, meaning: MeaningView { text: meaning, symbol } },
        ),
{
    let s = vocab_line(term, symbol, meaning);
    let e: int = term.len() as int + 1;
    let n: int = s.len() as int;
    assert forall|i: int| 0 <= i < e - 1 implies #[trigger] s[i] == term[i] by {}
    assert(s[e - 1] == ' ');
    let r = match symbol {
        Some(y) => y + seq![' '] + meaning,
        None => meaning,
    };
    assert(s =~= term + seq![' '] + r);
    assert forall|i: int| e <= i < n implies #[trigger] s[i] == r[i - e] by {}
    assert(s[e] == r[0]);
    assert(!is_term_char(s[e]) && !is_separator(s[e])) by {
        match symbol {
            Some(y) => {
                assert(r[0] == y[0]);
            },
            None => {},
        }
    }
    assert forall|i: int| 0 <= i < e - 1 implies !(#[trigger] s[i] == ' ' && s[i + 1] == ' ') by {
        if i < e - 2 {
            assert(s[i + 1] == term[i + 1]);
        } else {
            assert(s[i] == term.last());
        }
    }
    lemma_term_chain(s, 0, 0, 0, e);
    assert(term_field_end(s) == Some(e));
    // the term field
    let tf = s.subrange(0, e);
    assert forall|k: int| 0 <= k < e - 1 implies #[trigger] tf[k] == term[k] by {}
    lemma_trim_exact(tf, 0, e - 1);
    assert(trim(tf) =~= term);
    assert(term.last() != ':');
    // the symbol and the meaning
    let h: int = match symbol {
        Some(y) => e + y.len() + 1,
        None => e,
    };
    assert(h < n);
    assert(s[h] == meaning[0]) by {
        match symbol {
            Some(y) => {
                assert(r[y.len() as int + 1] == meaning[0]);
            },
            None => {},
        }
    }
    assert forall|k: int| e <= k < h implies symbol_chars()(#[trigger] s[k]) by {
        match symbol {
            Some(y) => {
                if k < h - 1 {
                    assert(r[k - e] == y[k - e]);
                } else {
                    assert(r[k - e] == ' ');
                }
            },
            None => {},
        }
    }
    lemma_run_end(s, e, h, symbol_chars());
    let mt = s.subrange(h, n as int);
    assert(mt =~= meaning) by {
        match symbol {
            Some(y) => {
                assert forall|k: int| 0 <= k < meaning.len() implies #[trigger] mt[k] == meaning[k] by {
                    assert(r[y.len() as int + 1 + k] == meaning[k]);
                }
            },
            None => {
                assert forall|k: int| 0 <= k < meaning.len() implies #[trigger] mt[k] == meaning[k] by {
                    assert(r[k] == meaning[k]);
                }
            },
        }
    }
    lemma_trim_exact(meaning, 0, meaning.len() as int);
    assert(meaning.subrange(0, meaning.len() as int) =~= meaning);
    let st = s.subrange(e, h);
    match symbol {
        Some(y) => {
            assert forall|k: int| 0 <= k < y.len() implies #[trigger] st[k] == y[k] by {
                assert(r[k] == y[k]);
            }
            assert(st[y.len() as int] == ' ') by {
                assert(r[y.len() as int] == ' ');
            }
            lemma_trim_exact(st, 0, y.len() as int);
            assert(st.subrange(0, y.len() as int) =~= y);
        },
        None => {
            assert(st =~= Seq::<char>::empty());
            assert(trim(st) =~= Seq::<char>::empty());
        },
    }
}

/// Where the run of term characters from `i` ends; `hangul` holds the script class of each character.
fn scan_term(s: &Vec<char>, hangul: &Vec<bool>, i: usize) -> (j: usize)
    requires
        i <= s@.len(),
        hangul@.len() == s@.len(),
        forall|k: int| 0 <= k < s@.len() ==> hangul@[k] == hangul_class(#[trigger] s@[k]),
    ensures
        i <= j <= s@.len(),
        j == run_end(s@, i as int, term_chars()),
{
    let mut j = i;
    while j < s.len() && (s[j] == '-' || s[j] == '(' || s[j] == ')' || s[j] == '/' || s[j] == '~'
        || s[j] == 'N' || s[j] == 'I' || s[j] == 'A' || s[j] == 'V' || hangul[j]) && !(
    is_white_space(s[j]) || s[j] == ':')
        invariant
            i <= j <= s@.len(),
            hangul@.len() == s@.len(),
            forall|k: int| 0 <= k < s@.len() ==> hangul@[k] == hangul_class(#[trigger] s@[k]),
            forall|k: int| i <= k < j ==> term_chars()(#[trigger] s@[k]),
        decreases s@.len() - j,
    {
        j = j + 1;
    }
    proof {
        lemma_run_end(s@, i as int, j as int, term_chars());
    }
    j
}

/// Where the run of separators from `i` ends.
fn scan_separators(s: &Vec<char>, i: usize) -> (j: usize)
    requires
        i <= s@.len(),
    ensures
        i <= j <= s@.len(),
        j == run_end(s@, i as int, separators()),
{
    let mut j = i;
    while j < s.len() && (is_white_space(s[j]) || s[j] == ':')
        invariant
            i <= j <= s@.len(),
            forall|k: int| i <= k < j ==> separators()(#[trigger] s@[k]),
        decreases s@.len() - j,
    {
        j = j + 1;
    }
    proof {
        lemma_run_end(s@, i as int, j as int, separators());
    }
    j
}

/// Where the run of symbol characters from `i` ends.
fn scan_symbol(s: &Vec<char>, han: &Vec<bool>, i: usize) -> (j: usize)
    requires
        i <= s@.len(),
        han@.len() == s@.len(),
        forall|k: int| 0 <= k < s@.len() ==> han@[k] == han_class(#[trigger] s@[k]),
    ensures
        i <= j <= s@.len(),
        j == run_end(s@, i as int, symbol_chars()),
{
    let mut j = i;
    while j < s.len() && (han[j] || is_white_space(s[j]))
        invariant
            i <= j <= s@.len(),
            han@.len() == s@.len(),
            forall|k: int| 0 <= k < s@.len() ==> han@[k] == han_class(#[trigger] s@[k]),
            forall|k: int| i <= k < j ==> symbol_chars()(#[trigger] s@[k]),
        decreases s@.len() - j,
    {
        j = j + 1;
    }
    proof {
        lemma_run_end(s@, i as int, j as int, symbol_chars());
    }
    j
}

/// The end of the term field of `s`, as `term_field_end` states it.
fn find_term_end(s: &Vec<char>, hangul: &Vec<bool>) -> (r: Option<usize>)
    requires
        hangul@.len() == s@.len(),
        forall|k: int| 0 <= k < s@.len() ==> hangul@[k] == hangul_class(#[trigger] s@[k]),
    ensures
        match r {
            Some(e) => e < s@.len() && term_field_end(s@) == Some(e as int),
            None => term_field_end(s@) is None,
        },
{
    let a = scan_term(s, hangul, 0);
    if a == 0 {
        return None;
    }
    let b = scan_separators(s, a);
    if b == a {
        return None;
    }
    proof {
        lemma_run_end_bounds(s@, 0, term_chars());
        lemma_run_end_bounds(s@, a as int, separators());
    }
    let mut q: usize = 0;
    let mut qa: usize = a;
    let mut p: usize = b;
    loop
        invariant
            q < qa < p <= s@.len(),
            hangul@.len() == s@.len(),
            forall|k: int| 0 <= k < s@.len() ==> hangul@[k] == hangul_class(#[trigger] s@[k]),
            term_field_end(s@) == term_end_from(s@, q as int, qa as int, p as int),
        ensures
            q < qa < p <= s@.len(),
            term_field_end(s@) == term_end_from(s@, q as int, qa as int, p as int),
            !pair_at(s@, p as int),
        decreases s@.len() - p,
    {
        let a2 = scan_term(s, hangul, p);
        if a2 == p {
            break;
        }
        let b2 = scan_separators(s, a2);
        if b2 == a2 {
            break;
        }
        proof {
            lemma_run_end_bounds(s@, p as int, term_chars());
            lemma_run_end_bounds(s@, a2 as int, separators());
        }
        q = p;
        qa = a2;
        p = b2;
    }
    if p < s.len() {
        Some(p)
    } else if p - qa >= 2 {
        Some(p - 1)
    } else if q > 0 {
        Some(q)
    } else {
        None
    }
}

/// The note that the vocabulary line `s` holds, given the script class of
/// each of its characters.
pub fn match_vocab(s: &Vec<char>, hangul: &Vec<bool>, han: &Vec<bool>) -> (r: Option<Note>)
    requires
        hangul@.len() == s@.len(),
        han@.len() == s@.len(),
        forall|k: int| 0 <= k < s@.len() ==> hangul@[k] == hangul_class(#[trigger] s@[k]),
        forall|k: int| 0 <= k < s@.len() ==> han@[k] == han_class(#[trigger] s@[k]),
    ensures
        match r {
            Some(n) => vocab_note(s@) == Some(n@),
            None => vocab_note(s@) is None,
        },
{
    let e = match find_term_end(s, hangul) {
        Some(e) => e,
        None => return None,
    };
    let h = scan_symbol(s, han, e);
    proof {
        lemma_run_end_bounds(s@, e as int, symbol_chars());
    }
    let n = s.len();
    let g = if h < n {
        h
    } else {
        n - 1
    };
    let (x, y) = trim_bounds(s, 0, e);
    let y = if y > x && s[y - 1] == ':' {
        proof {
            assert(s@.subrange(x as int, y - 1) =~= s@.subrange(x as int, y as int).drop_last());
        }
        y - 1
    } else {
        y
    };
    let term = string_of(s, x, y);
    let sym = trimmed_string(s, e, g);
    let symbol = if sym.as_str().is_empty() {
        None
    } else {
        Some(sym)
    };
    let text = trimmed_string(s, g, n);
    Some(Note { term, meaning: Meaning { text, symbol } })
}

/// The note on a vocabulary line given as characters.
pub fn note_of_chars(s: &Vec<char>) -> (r: Option<Note>)
    ensures
        match r {
            Some(n) => vocab_note(s@) == Some(n@),
            None => vocab_note(s@) is None,
        },
{
    let hangul = hangul_flags(s);
    let han = han_flags(s);
    match_vocab(s, &hangul, &han)
}

} // verus!
