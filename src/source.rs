//! Notes and sources: what a vocabulary file holds.
use vstd::prelude::*;
use crate::pattern::{match_vocab, note_of_chars, vocab_note};
use crate::script::{han_class, han_flags, hangul_class, hangul_flags};
use crate::text::{
    all_white,
    chars_of,
    copy_range,
    is_white_space,
    lines_from,
    lines_of,
    next_line,
    string_of,
    trim,
    trimmed_string,
};

verus! {

/// A string option as a character sequence option.
pub open spec fn opt_chars(o: Option<String>) -> Option<Seq<char>> {
    match o {
        Some(s) => Some(s@),
        None => None,
    }
}

/// What a meaning is, as values.
pub struct MeaningView {
    pub text: Seq<char>,
    pub symbol: Option<Seq<char>>,
}

/// What a note is, as values.
pub struct NoteView {
    pub term: Seq<char>,
    pub meaning: MeaningView,
}

/// The text of a definition and its optional annotation (such as a Han gloss).
#[derive(Debug, Clone)]
pub struct Meaning {
    pub text: String,
    pub symbol: Option<String>,
}

impl View for Meaning {
    type V = MeaningView;

    open spec fn view(&self) -> MeaningView {
        MeaningView { text: self.text@, symbol: opt_chars(self.symbol) }
    }
}

/// A term with one meaning, as read from a vocabulary line.
#[derive(Debug, Clone)]
pub struct Note {
    pub term: String,
    pub meaning: Meaning,
}

impl View for Note {
    type V = NoteView;

    open spec fn view(&self) -> NoteView {
        NoteView { term: self.term@, meaning: self.meaning@ }
    }
}

impl Note {
    /// Reads a vocabulary line: its term, its optional Han symbol and its meaning.
    pub fn from_line(line: &str) -> (r: Option<Note>)
        ensures
            match r {
                Some(n) => vocab_note(line@) == Some(n@),
                None => vocab_note(line@) is None,
            },
    {
        let chars = chars_of(line);
        note_of_chars(&chars)
    }
}

/// A vocabulary file, read: its title and its notes in file order.
#[derive(Debug, Clone)]
pub struct Source {
    pub title: String,
    pub contents: Vec<Note>,
}

/// Why a vocabulary file could not be read.
#[derive(Debug)]
pub enum SourceLoadError {
    /// The file could not be opened or read.
    Io(std::io::Error),
    /// A line where a vocabulary line was expected does not hold one.
    /// `lineno` counts from 0.
    InvalidNote { file: String, lineno: usize, line: String },
}

/// `std::io::Error`, carried opaque in `SourceLoadError::Io`; nothing is
/// assumed of it.
#[verifier::external_type_specification]
#[verifier::external_body]
pub struct ExIoError(std::io::Error);

/// The part of a file that a line belongs to.
#[derive(Debug, Clone, Copy, PartialEq, Eq, Structural)]
pub enum SourceScope {
    /// Vocabulary lines.
    Vocab,
    /// A reading block, expecting an example sentence.
    ReadingExample,
    /// A reading block, right after an example sentence: its vocabulary.
    ReadingVocab,
    /// The next content line is the title.
    Title,
}

/// Where a directive `# ?[lL]rest` (the `#`, an optional space, the keyword
/// with its first letter in either case) that starts at `p` ends, if one does.
pub open spec fn keyword_at(s: Seq<char>, p: int, lower: char, upper: char, rest: Seq<char>) -> Option<
    int,
> {
    if 0 <= p < s.len() && s[p] == '#' {
        let q = if p + 1 < s.len() && s[p + 1] == ' ' {
            p + 2
        } else {
            p + 1
        };
        let e = q + 1 + rest.len();
        if e <= s.len() && (s[q] == lower || s[q] == upper) && s.subrange(q + 1, e) == rest {
            Some(e)
        } else {
            None
        }
    } else {
        None
    }
}

/// The end of the leftmost directive `# ?[lL]rest` at or after `p`.
pub open spec fn find_keyword(s: Seq<char>, p: int, lower: char, upper: char, rest: Seq<char>) -> Option<
    int,
>
    decreases s.len() - p,
{
    if 0 <= p < s.len() {
        if keyword_at(s, p, lower, upper, rest) is Some {
            keyword_at(s, p, lower, upper, rest)
        } else {
            find_keyword(s, p + 1, lower, upper, rest)
        }
    } else {
        None
    }
}

/// The end of the leftmost match of `# ?[tT]itle:?` in `s`.
pub open spec fn title_directive(s: Seq<char>) -> Option<int> {
    match find_keyword(s, 0, 't', 'T', seq!['i', 't', 'l', 'e']) {
        Some(e) => if e < s.len() && s[e] == ':' {
            Some(e + 1)
        } else {
            Some(e)
        },
        None => None,
    }
}

/// Whether `s` holds a match of `# ?[rR]ead`.
pub open spec fn reading_directive(s: Seq<char>) -> bool {
    find_keyword(s, 0, 'r', 'R', seq!['e', 'a', 'd']) is Some
}

/// Whether `s` holds a match of `# ?[vV]ocab`.
pub open spec fn vocab_directive(s: Seq<char>) -> bool {
    find_keyword(s, 0, 'v', 'V', seq!['o', 'c', 'a', 'b']) is Some
}

/// The parser's state between lines, as values.
pub struct ParseView {
    pub scope: SourceScope,
    pub title: Seq<char>,
    pub notes: Seq<NoteView>,
}

/// The parser's state after `line`, or `None` where `line` should hold a
/// vocabulary note and does not.
pub open spec fn step(st: ParseView, line: Seq<char>) -> Option<ParseView> {
    if line.len() > 0 && line[0] == '#' {
        match title_directive(line) {
            Some(e) => {
                let rem = trim(line.subrange(e, line.len() as int));
                if rem.len() > 0 {
                    Some(ParseView { title: rem, ..st })
                } else {
                    Some(ParseView { scope: SourceScope::Title, ..st })
                }
            },
            None => if reading_directive(line) {
                Some(ParseView { scope: SourceScope::ReadingExample, ..st })
            } else if vocab_directive(line) {
                Some(ParseView { scope: SourceScope::Vocab, ..st })
            } else {
                Some(st)
            },
        }
    } else if all_white(line) {
        if st.scope == SourceScope::ReadingVocab {
            Some(ParseView { scope: SourceScope::ReadingExample, ..st })
        } else {
            Some(st)
        }
    } else {
        match st.scope {
            SourceScope::Title => Some(
                ParseView { scope: SourceScope::Vocab, title: trim(line), notes: st.notes },
            ),
            SourceScope::ReadingExample => Some(
                ParseView { scope: SourceScope::ReadingVocab, ..st },
            ),
            _ => match vocab_note(line) {
                Some(n) => Some(ParseView { notes: st.notes.push(n), ..st }),
                None => None,
            },
        }
    }
}

/// The state after `lines`, whose first line has number `k`; or the number
/// of the first line that fails.
pub open spec fn run_lines(st: ParseView, lines: Seq<Seq<char>>, k: nat) -> Result<ParseView, nat>
    decreases lines.len(),
{
    if lines.len() == 0 {
        Ok(st)
    } else {
        match step(st, lines[0]) {
            Some(st2) => run_lines(st2, lines.drop_first(), k + 1),
            None => Err(k),
        }
    }
}

/// What reading `text` gives, with `title` as the title until the file sets one.
pub open spec fn parse_text(text: Seq<char>, title: Seq<char>) -> Result<ParseView, nat> {
    run_lines(ParseView { scope: SourceScope::Vocab, title, notes: seq![] }, lines_of(text), 0)
}

/// Whether `line` is a content line: neither a directive nor blank.
pub open spec fn is_content(line: Seq<char>) -> bool {
    !(line.len() > 0 && line[0] == '#') && !all_white(line)
}

/// In a reading block, the example line yields no note, and the content line
/// right after it is read as a vocabulary line: it adds its note, or it is an
/// error where it holds none.
pub proof fn lemma_reading_example(st: ParseView, example: Seq<char>, next: Seq<char>)
    requires
        st.scope == SourceScope::ReadingExample,
        is_content(example),
        is_content(next),
    ensures
        step(st, example) == Some(ParseView { scope: SourceScope::ReadingVocab, ..st }),
        step(step(st, example).unwrap(), next) == match vocab_note(next) {
            Some(n) => Some(
                ParseView { scope: SourceScope::ReadingVocab, title: st.title, notes: st.notes.push(n) },
            ),
            None => None,
        },
{
}

/// The views of a sequence of notes.
pub open spec fn notes_view(notes: Seq<Note>) -> Seq<NoteView> {
    notes.map_values(|n: Note| n@)
}

/// Where the directive `# ?[lL]rest` that starts at `p` ends, if one does.
fn keyword_match(s: &Vec<char>, p: usize, lower: char, upper: char, rest: &Vec<char>) -> (r: Option<
    usize,
>)
    requires
        p < s@.len(),
    ensures
        match r {
            Some(e) => keyword_at(s@, p as int, lower, upper, rest@) == Some(e as int),
            None => keyword_at(s@, p as int, lower, upper, rest@) is None,
        },
{
    let n = s.len();
    if s[p] != '#' {
        return None;
    }
    let q = if p + 1 < n && s[p + 1] == ' ' {
        p + 2
    } else {
        p + 1
    };
    if q >= n || rest.len() > n - q - 1 {
        return None;
    }
    if s[q] != lower && s[q] != upper {
        return None;
    }
    let mut k: usize = 0;
    while k < rest.len()
        invariant
            p < q < n == s@.len(),
            s@[p as int] == '#',
            q == (if p + 1 < n && s@[p + 1] == ' ' {
                p + 2
            } else {
                p + 1
            }),
            s@[q as int] == lower || s@[q as int] == upper,
            rest@.len() <= n - q - 1,
            0 <= k <= rest@.len(),
            forall|m: int| 0 <= m < k ==> s@[q + 1 + m] == rest@[m],
        decreases rest@.len() - k,
    {
        if s[q + 1 + k] != rest[k] {
            proof {
                let sub = s@.subrange(q + 1, q + 1 + rest@.len());
                assert(sub[k as int] == s@[q + 1 + k]);
                assert(sub != rest@);
            }
            return None;
        }
        k = k + 1;
    }
    proof {
        assert(s@.subrange(q + 1, q + 1 + rest@.len()) =~= rest@);
    }
    Some(q + 1 + rest.len())
}

/// The end of the leftmost directive `# ?[lL]rest` in `s`.
fn keyword_search(s: &Vec<char>, lower: char, upper: char, rest: &Vec<char>) -> (r: Option<usize>)
    ensures
        match r {
            Some(e) => e <= s@.len() && find_keyword(s@, 0, lower, upper, rest@) == Some(e as int),
            None => find_keyword(s@, 0, lower, upper, rest@) is None,
        },
{
    let mut p: usize = 0;
    while p < s.len()
        invariant
            p <= s@.len(),
            find_keyword(s@, 0, lower, upper, rest@) == find_keyword(s@, p as int, lower, upper, rest@),
        decreases s@.len() - p,
    {
        match keyword_match(s, p, lower, upper, rest) {
            Some(e) => {
                return Some(e);
            },
            None => {
                p = p + 1;
            },
        }
    }
    None
}

/// Whether every character of `s` is white space.
fn is_blank(s: &Vec<char>) -> (r: bool)
    ensures
        r == all_white(s@),
{
    let mut k: usize = 0;
    while k < s.len()
        invariant
            k <= s@.len(),
            forall|m: int| 0 <= m < k ==> crate::text::white_space(#[trigger] s@[m]),
        decreases s@.len() - k,
    {
        if !is_white_space(s[k]) {
            return false;
        }
        k = k + 1;
    }
    true
}

/// The parser's state between lines.
struct Parser {
    scope: SourceScope,
    title: String,
    notes: Vec<Note>,
}

impl View for Parser {
    type V = ParseView;

    closed spec fn view(&self) -> ParseView {
        ParseView { scope: self.scope, title: self.title@, notes: notes_view(self.notes@) }
    }
}

impl Parser {
    /// Takes one line: `false` where it should hold a vocabulary note and does not.
    fn feed(&mut self, line: &Vec<char>, hangul: &Vec<bool>, han: &Vec<bool>) -> (ok: bool)
        requires
            hangul@.len() == line@.len(),
            han@.len() == line@.len(),
            forall|k: int| 0 <= k < line@.len() ==> hangul@[k] == hangul_class(#[trigger] line@[k]),
            forall|k: int| 0 <= k < line@.len() ==> han@[k] == han_class(#[trigger] line@[k]),
        ensures
            ok ==> step(old(self)@, line@) == Some(final(self)@),
            !ok ==> step(old(self)@, line@) is None,
    {
        let n = line.len();
        proof {
            assert(line@.subrange(0, n as int) =~= line@);
        }
        if n > 0 && line[0] == '#' {
            match keyword_search(line, 't', 'T', &vec!['i', 't', 'l', 'e']) {
                Some(e) => {
                    let e = if e < n && line[e] == ':' {
                        e + 1
                    } else {
                        e
                    };
                    let rem = trimmed_string(line, e, n);
                    if rem.as_str().is_empty() {
                        self.scope = SourceScope::Title;
                    } else {
                        self.title = rem;
                    }
                },
                None => {
                    if keyword_search(line, 'r', 'R', &vec!['e', 'a', 'd']).is_some() {
                        self.scope = SourceScope::ReadingExample;
                    } else if keyword_search(line, 'v', 'V', &vec!['o', 'c', 'a', 'b']).is_some() {
                        self.scope = SourceScope::Vocab;
                    }
                },
            }
            true
        } else if is_blank(line) {
            if self.scope == SourceScope::ReadingVocab {
                self.scope = SourceScope::ReadingExample;
            }
            true
        } else {
            match self.scope {
                SourceScope::Title => {
                    self.title = trimmed_string(line, 0, n);
                    self.scope = SourceScope::Vocab;
                    true
                },
                SourceScope::ReadingExample => {
                    self.scope = SourceScope::ReadingVocab;
                    true
                },
                _ => match match_vocab(line, hangul, han) {
                    Some(note) => {
                        proof {
                            assert(notes_view(self.notes@.push(note)) =~= notes_view(
                                self.notes@,
                            ).push(note@));
                        }
                        self.notes.push(note);
                        true
                    },
                    None => false,
                },
            }
        }
    }
}

impl Source {
    /// Reads the text of a vocabulary file named `file`. The title is `title`
    /// until a title directive, or the line after an empty one, sets it.
    pub fn parse(file: &str, title: &str, text: &str) -> (r: Result<Source, SourceLoadError>)
        ensures
            match (r, parse_text(text@, title@)) {
                (Ok(src), Ok(st)) => src.title@ == st.title && notes_view(src.contents@) == st.notes,
                (Err(SourceLoadError::InvalidNote { file: f, lineno, line }), Err(k)) => {
                    &&& f@ == file@
                    &&& lineno == k
                    &&& k < lines_of(text@).len()
                    &&& line@ == lines_of(text@)[k as int]
                },
                _ => false,
            },
    {
        let cs = chars_of(text);
        let hangul = hangul_flags(&cs);
        let han = han_flags(&cs);
        let n = cs.len();
        let mut st = Parser {
            scope: SourceScope::Vocab,
            title: String::from_str(title),
            notes: Vec::new(),
        };
        proof {
            assert(notes_view(st.notes@) =~= Seq::<NoteView>::empty());
        }
        let ghost done: Seq<Seq<char>> = seq![];
        let mut i: usize = 0;
        let mut lineno: usize = 0;
        while i < n
            invariant
                i <= n == cs@.len(),
                cs@ == text@,
                hangul@.len() == n,
                han@.len() == n,
                forall|k: int| 0 <= k < n ==> hangul@[k] == hangul_class(#[trigger] cs@[k]),
                forall|k: int| 0 <= k < n ==> han@[k] == han_class(#[trigger] cs@[k]),
                lineno <= i,
                done.len() == lineno,
                lines_of(cs@) == done + lines_from(cs@, i as int),
                parse_text(text@, title@) == run_lines(st@, lines_from(cs@, i as int), lineno as nat),
            decreases n - i,
        {
            let (e, j) = next_line(&cs, i);
            let line = copy_range(&cs, i, e);
            let hg = copy_range(&hangul, i, e);
            let hn = copy_range(&han, i, e);
            let ghost rest = lines_from(cs@, j + 1);
            proof {
                assert(lines_from(cs@, i as int)[0] == line@);
                assert(lines_from(cs@, i as int).drop_first() =~= rest);
                assert forall|k: int| 0 <= k < line@.len() implies hg@[k] == hangul_class(
                    #[trigger] line@[k],
                ) by {
                    assert(line@[k] == cs@[i + k]);
                }
                assert forall|k: int| 0 <= k < line@.len() implies hn@[k] == han_class(
                    #[trigger] line@[k],
                ) by {
                    assert(line@[k] == cs@[i + k]);
                }
            }
            if !st.feed(&line, &hg, &hn) {
                proof {
                    assert((done + lines_from(cs@, i as int))[lineno as int] == line@);
                }
                let raw = string_of(&line, 0, line.len());
                proof {
                    assert(line@.subrange(0, line@.len() as int) =~= line@);
                }
                return Err(
                    SourceLoadError::InvalidNote { file: String::from_str(file), lineno, line: raw },
                );
            }
            proof {
                assert(done + lines_from(cs@, i as int) =~= done.push(line@) + rest);
                done = done.push(line@);
            }
            lineno = lineno + 1;
            i = if j < n {
                j + 1
            } else {
                n
            };
        }
        Ok(Source { title: st.title, contents: st.notes })
    }
}

} // verus!
