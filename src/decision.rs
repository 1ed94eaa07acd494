//! Reading a person's answer to a pending decision, one input line at a time:
//! add, replace at an index, update at an index with a text, or ignore.
use vstd::prelude::*;
use crate::text::{chars_of, lemma_run_end, run_end, string_of, trim, trim_bounds};

verus! {

/// What the next input line is expected to hold.
#[derive(Debug, Clone, PartialEq, Eq)]
pub enum PromptState {
    /// A command: `a`, `r [index]`, `u [index [text]]` or `i`.
    Command,
    /// The index of the stored meaning to replace (`update` false) or to
    /// update, with the new text where it was given already.
    Index { update: bool, text: Option<String> },
    /// The new text for the meaning at `index`.
    Text { index: usize },
}

/// A decision taken.
#[derive(Debug, Clone, PartialEq, Eq)]
pub enum Decision {
    /// Store the incoming meaning as one more meaning.
    Add,
    /// Overwrite the stored meaning at the index with the incoming one.
    Replace(usize),
    /// Overwrite the stored meaning at the index with the given text.
    Update(usize, String),
    /// Dismiss the incoming meaning.
    Reject,
}

/// What an input line leads to.
#[derive(Debug, Clone, PartialEq, Eq)]
pub enum Reply {
    /// The decision is taken.
    Done(Decision),
    /// Another line is needed, in the given state.
    Ask(PromptState),
    /// The command was not recognised; another command is needed.
    Unknown,
}

/// A prompt state, as values.
pub enum PromptView {
    Command,
    Index { update: bool, text: Option<Seq<char>> },
    Text { index: usize },
}

/// A decision, as values.
pub enum DecisionView {
    Add,
    Replace(usize),
    Update(usize, Seq<char>),
    Reject,
}

/// A reply, as values.
pub enum ReplyView {
    Done(DecisionView),
    Ask(PromptView),
    Unknown,
}

impl View for PromptState {
    type V = PromptView;

    open spec fn view(&self) -> PromptView {
        match self {
            PromptState::Command => PromptView::Command,
            PromptState::Index { update, text } => PromptView::Index {
                update: *update,
                text: match text {
                    Some(t) => Some(t@),
                    None => None,
                },
            },
            PromptState::Text { index } => PromptView::Text { index: *index },
        }
    }
}

impl View for Decision {
    type V = DecisionView;

    open spec fn view(&self) -> DecisionView {
        match self {
            Decision::Add => DecisionView::Add,
            Decision::Replace(i) => DecisionView::Replace(*i),
            Decision::Update(i, t) => DecisionView::Update(*i, t@),
            Decision::Reject => DecisionView::Reject,
        }
    }
}

impl View for Reply {
    type V = ReplyView;

    open spec fn view(&self) -> ReplyView {
        match self {
            Reply::Done(d) => ReplyView::Done(d@),
            Reply::Ask(s) => ReplyView::Ask(s@),
            Reply::Unknown => ReplyView::Unknown,
        }
    }
}

/// Anything but a space.
pub open spec fn not_blank() -> spec_fn(char) -> bool {
    |c: char| c != ' '
}

/// `s` up to its first space.
pub open spec fn word(s: Seq<char>) -> Seq<char> {
    s.subrange(0, run_end(s, 0, not_blank()))
}

/// What follows the first space of `s` (empty where it has none).
pub open spec fn after_word(s: Seq<char>) -> Seq<char> {
    let p = run_end(s, 0, not_blank());
    if p < s.len() {
        s.subrange(p + 1, s.len() as int)
    } else {
        seq![]
    }
}

/// Whether `s` is one or more ASCII digits.
pub open spec fn is_digits(s: Seq<char>) -> bool {
    s.len() > 0 && forall|i: int| 0 <= i < s.len() ==> '0' <= #[trigger] s[i] <= '9'
}

/// The number that the digits `s` write in base ten.
pub open spec fn digits_value(s: Seq<char>) -> int
    decreases s.len(),
{
    if s.len() == 0 {
        0
    } else {
        digits_value(s.drop_last()) * 10 + (s.last() as int - '0' as int)
    }
}

/// The index that `s` writes, as `usize::from_str` reads it: an optional `+`
/// and digits, with a value that fits.
pub open spec fn index_value(s: Seq<char>) -> Option<int> {
    let d = if s.len() > 0 && s[0] == '+' {
        s.drop_first()
    } else {
        s
    };
    if is_digits(d) && digits_value(d) <= usize::MAX {
        Some(digits_value(d))
    } else {
        None
    }
}

/// What an index `s` leads to, for `n` stored meanings.
pub open spec fn index_reply(s: Seq<char>, n: usize, update: bool, text: Option<Seq<char>>) -> ReplyView {
    match index_value(s) {
        Some(i) if i < n => if !update {
            ReplyView::Done(DecisionView::Replace(i as usize))
        } else {
            match text {
                Some(t) => ReplyView::Done(DecisionView::Update(i as usize, t)),
                None => ReplyView::Ask(PromptView::Text { index: i as usize }),
            }
        },
        _ => ReplyView::Ask(PromptView::Index { update, text }),
    }
}

/// What the input line `input` leads to in state `st`, for `n` stored meanings.
pub open spec fn reply_spec(st: PromptView, input: Seq<char>, n: usize) -> ReplyView {
    let t = trim(input);
    match st {
        PromptView::Command => {
            let cmd = word(t);
            let rem = after_word(t);
            if cmd == seq!['a'] {
                ReplyView::Done(DecisionView::Add)
            } else if cmd == seq!['i'] {
                ReplyView::Done(DecisionView::Reject)
            } else if cmd == seq!['r'] {
                index_reply(rem, n, false, None)
            } else if cmd == seq!['u'] {
                let text = trim(after_word(rem));
                index_reply(
                    word(rem),
                    n,
                    true,
                    if text.len() > 0 {
                        Some(text)
                    } else {
                        None
                    },
                )
            } else {
                ReplyView::Unknown
            }
        },
        PromptView::Index { update, text } => index_reply(t, n, update, text),
        PromptView::Text { index } => if t.len() > 0 {
            ReplyView::Done(DecisionView::Update(index, t))
        } else {
            ReplyView::Ask(PromptView::Text { index })
        },
    }
}

/// The digits of a prefix write no more than the digits of the whole.
proof fn lemma_digits_prefix(s: Seq<char>, k: int)
    requires
        0 <= k <= s.len(),
        forall|i: int| 0 <= i < s.len() ==> '0' <= #[trigger] s[i] <= '9',
    ensures
        digits_value(s.subrange(0, k)) <= digits_value(s),
        0 <= digits_value(s),
    decreases s.len(),
{
    if s.len() > 0 {
        let d = s.drop_last();
        if k < s.len() {
            assert(d.subrange(0, k) =~= s.subrange(0, k));
            lemma_digits_prefix(d, k);
        } else {
            assert(s.subrange(0, k) =~= s);
            lemma_digits_prefix(d, 0);
        }
    }
}

/// The index that `s[lo..hi]` writes, as `index_value` states it.
fn parse_index(s: &Vec<char>, lo: usize, hi: usize) -> (r: Option<usize>)
    requires
        lo <= hi <= s@.len(),
    ensures
        match r {
            Some(i) => index_value(s@.subrange(lo as int, hi as int)) == Some(i as int),
            None => index_value(s@.subrange(lo as int, hi as int)) is None,
        },
{
    let ghost t = s@.subrange(lo as int, hi as int);
    let start = if lo < hi && s[lo] == '+' {
        lo + 1
    } else {
        lo
    };
    let ghost d = s@.subrange(start as int, hi as int);
    proof {
        if lo < hi && s@[lo as int] == '+' {
            assert(t.drop_first() =~= d);
        } else {
            assert(t =~= d);
        }
    }
    if start == hi {
        return None;
    }
    let mut v: usize = 0;
    let mut k = start;
    while k < hi
        invariant
            lo <= start <= k <= hi <= s@.len(),
            start < hi,
            d == s@.subrange(start as int, hi as int),
            t == s@.subrange(lo as int, hi as int),
            (if t.len() > 0 && t[0] == '+' {
                t.drop_first()
            } else {
                t
            }) == d,
            forall|i: int| start <= i < k ==> '0' <= #[trigger] s@[i] <= '9',
            v as int == digits_value(s@.subrange(start as int, k as int)),
        decreases hi - k,
    {
        let c = s[k];
        if c < '0' || c > '9' {
            proof {
                assert(d[k - start] == c);
            }
            return None;
        }
        let digit = (c as u32 - '0' as u32) as usize;
        let ghost pre = s@.subrange(start as int, k + 1);
        proof {
            assert(pre.drop_last() =~= s@.subrange(start as int, k as int));
            assert(digits_value(pre) == v * 10 + digit);
        }
        let next = match v.checked_mul(10) {
            Some(m) => m.checked_add(digit),
            None => None,
        };
        match next {
            Some(w) => {
                v = w;
            },
            None => {
                proof {
                    assert(digits_value(pre) > usize::MAX);
                    if forall|i: int| 0 <= i < d.len() ==> '0' <= #[trigger] d[i] <= '9' {
                        assert(d.subrange(0, k + 1 - start) =~= pre);
                        lemma_digits_prefix(d, k + 1 - start);
                    }
                }
                return None;
            },
        }
        k = k + 1;
    }
    proof {
        assert(s@.subrange(start as int, k as int) =~= d);
    }
    Some(v)
}

/// Where the first space of `s[lo..hi]` stands (`hi` where it has none).
fn split_word(s: &Vec<char>, lo: usize, hi: usize) -> (p: usize)
    requires
        lo <= hi <= s@.len(),
    ensures
        lo <= p <= hi,
        word(s@.subrange(lo as int, hi as int)) == s@.subrange(lo as int, p as int),
        after_word(s@.subrange(lo as int, hi as int)) == if p < hi {
            s@.subrange(p + 1, hi as int)
        } else {
            Seq::<char>::empty()
        },
{
    let ghost t = s@.subrange(lo as int, hi as int);
    let mut p = lo;
    while p < hi && s[p] != ' '
        invariant
            lo <= p <= hi <= s@.len(),
            t == s@.subrange(lo as int, hi as int),
            forall|k: int| lo <= k < p ==> s@[k] != ' ',
        decreases hi - p,
    {
        p = p + 1;
    }
    proof {
        assert forall|k: int| 0 <= k < p - lo implies not_blank()(#[trigger] t[k]) by {
            assert(t[k] == s@[lo + k]);
        }
        if p < hi {
            assert(t[p - lo] == s@[p as int]);
        }
        lemma_run_end(t, 0, p - lo, not_blank());
        assert(t.subrange(0, p - lo) =~= s@.subrange(lo as int, p as int));
        if p < hi {
            assert(t.subrange(p - lo + 1, t.len() as int) =~= s@.subrange(p + 1, hi as int));
        }
    }
    p
}

/// A copy of an optional string.
fn copy_text(o: &Option<String>) -> (r: Option<String>)
    ensures
        r == *o,
{
    match o {
        Some(t) => Some(t.clone()),
        None => None,
    }
}

/// What the index `s[lo..hi]` leads to, as `index_reply` states it.
fn index_reply_of(
    s: &Vec<char>,
    lo: usize,
    hi: usize,
    n: usize,
    update: bool,
    text: Option<String>,
) -> (r: Reply)
    requires
        lo <= hi <= s@.len(),
    ensures
        r@ == index_reply(
            s@.subrange(lo as int, hi as int),
            n,
            update,
            match text {
                Some(t) => Some(t@),
                None => None,
            },
        ),
{
    match parse_index(s, lo, hi) {
        Some(i) => {
            if i < n {
                if !update {
                    Reply::Done(Decision::Replace(i))
                } else {
                    match text {
                        Some(t) => Reply::Done(Decision::Update(i, t)),
                        None => Reply::Ask(PromptState::Text { index: i }),
                    }
                }
            } else {
                Reply::Ask(PromptState::Index { update, text })
            }
        },
        None => Reply::Ask(PromptState::Index { update, text }),
    }
}

/// What the input line `input` leads to in state `state`, when the term has
/// `n` stored meanings: an index must be below `n`, and a text must not be
/// blank; otherwise the same question is asked again.
pub fn reply(state: &PromptState, input: &str, n: usize) -> (r: Reply)
    ensures
        r@ == reply_spec(state@, input@, n),
{
    let cs = chars_of(input);
    let (a, b) = trim_bounds(&cs, 0, cs.len());
    let ghost t = trim(input@);
    proof {
        assert(cs@.subrange(0, cs@.len() as int) =~= cs@);
        assert(t == cs@.subrange(a as int, b as int));
    }
    match state {
        PromptState::Command => {
            let p = split_word(&cs, a, b);
            let ghost cmd = cs@.subrange(a as int, p as int);
            let (rlo, rhi) = if p < b {
                (p + 1, b)
            } else {
                (b, b)
            };
            proof {
                assert(after_word(t) =~= cs@.subrange(rlo as int, rhi as int));
            }
            let single = p - a == 1;
            if single && cs[a] == 'a' {
                proof {
                    assert(cmd =~= seq!['a']);
                }
                Reply::Done(Decision::Add)
            } else if single && cs[a] == 'i' {
                proof {
                    assert(cmd =~= seq!['i']);
                    assert(cmd != seq!['a']);
                }
                Reply::Done(Decision::Reject)
            } else if single && cs[a] == 'r' {
                proof {
                    assert(cmd =~= seq!['r']);
                    assert(cmd != seq!['a'] && cmd != seq!['i']);
                }
                index_reply_of(&cs, rlo, rhi, n, false, None)
            } else if single && cs[a] == 'u' {
                proof {
                    assert(cmd =~= seq!['u']);
                    assert(cmd != seq!['a'] && cmd != seq!['i'] && cmd != seq!['r']);
                }
                let q = split_word(&cs, rlo, rhi);
                let (tlo, thi) = if q < rhi {
                    trim_bounds(&cs, q + 1, rhi)
                } else {
                    (rhi, rhi)
                };
                proof {
                    let rem = cs@.subrange(rlo as int, rhi as int);
                    if q < rhi {
                        assert(trim(after_word(rem)) == cs@.subrange(tlo as int, thi as int));
                    } else {
                        assert(after_word(rem) =~= Seq::<char>::empty());
                        assert(trim(Seq::<char>::empty()) =~= Seq::<char>::empty());
                        assert(cs@.subrange(tlo as int, thi as int) =~= Seq::<char>::empty());
                    }
                }
                let text = if tlo < thi {
                    Some(string_of(&cs, tlo, thi))
                } else {
                    None
                };
                index_reply_of(&cs, rlo, q, n, true, text)
            } else {
                proof {
                    if cmd.len() == 1 {
                        assert(cmd[0] == cs@[a as int]);
                    }
                    assert(cmd != seq!['a'] && cmd != seq!['i'] && cmd != seq!['r'] && cmd != seq!['u']) by {
                        if cmd.len() == 1 {
                            assert(seq!['a'][0] == 'a');
                        }
                    }
                }
                Reply::Unknown
            }
        },
        PromptState::Index { update, text } => index_reply_of(&cs, a, b, n, *update, copy_text(text)),
        PromptState::Text { index } => {
            if a < b {
                Reply::Done(Decision::Update(*index, string_of(&cs, a, b)))
            } else {
                Reply::Ask(PromptState::Text { index: *index })
            }
        },
    }
}

} // verus!
