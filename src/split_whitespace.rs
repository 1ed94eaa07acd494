//! Splitting a string at runs of white space, keeping each piece's byte offset.
use vstd::prelude::*;
use vstd::string::StrSliceExecFns;
use vstd::utf8::encode_utf8;
use crate::text::{chars_of, is_white_space, lemma_run_end, lemma_run_end_bounds, run_end, spaces, white_space};

verus! {

/// Anything but white space.
pub open spec fn not_space() -> spec_fn(char) -> bool {
    |c: char| !white_space(c)
}

/// The pieces of `s` from position `i` on, as character ranges: each piece
/// runs up to the next white space, and a run of white space ends it. Where
/// `pending` holds and `i` is the end of `s`, one empty piece is left there.
pub open spec fn pieces_from(s: Seq<char>, i: int, pending: bool) -> Seq<(int, int)>
    decreases s.len() - i,
{
    if 0 <= i < s.len() {
        proof {
            lemma_run_end_bounds(s, i, not_space());
        }
        let e = run_end(s, i, not_space());
        if e < s.len() {
            proof {
                lemma_run_end_bounds(s, e, spaces());
            }
            seq![(i, e)] + pieces_from(s, run_end(s, e, spaces()), true)
        } else {
            seq![(i, e)]
        }
    } else if pending && i == s.len() {
        seq![(i, i)]
    } else {
        seq![]
    }
}

/// A piece of `s` as the split hands it out: the byte offset where it starts
/// (the UTF-8 length of what comes before it) and its characters.
pub open spec fn piece_item(s: Seq<char>, p: (int, int)) -> (usize, Seq<char>) {
    (encode_utf8(s.subrange(0, p.0)).len() as usize, s.subrange(p.0, p.1))
}

/// What splitting `s` hands out, in order: the pieces between the runs of
/// white space, with an empty piece at the start where `s` starts with white
/// space and one at the end where it ends with white space. The empty string
/// has no pieces.
pub open spec fn split_items(s: Seq<char>) -> Seq<(usize, Seq<char>)> {
    pieces_from(s, 0, false).map_values(|p: (int, int)| piece_item(s, p))
}

/// Hands out the pieces of a string between its runs of white space, one at
/// a time, each with its byte offset.
pub struct SplitWhitespaceIndices<'a> {
    source: &'a str,
    chars: Vec<char>,
    pos: usize,
    needs_final_split: bool,
}

impl<'a> SplitWhitespaceIndices<'a> {
    /// The invariant: `chars` are the characters of `source`.
    pub closed spec fn wf(&self) -> bool {
        self.chars@ == self.source@ && self.pos <= self.chars@.len()
    }

    /// What is left to hand out, in order.
    pub closed spec fn remaining(&self) -> Seq<(usize, Seq<char>)> {
        pieces_from(self.chars@, self.pos as int, self.needs_final_split).map_values(
            |p: (int, int)| piece_item(self.chars@, p),
        )
    }

    /// The byte offset of character position `i`.
    fn offset(&self, i: usize) -> (r: usize)
        requires
            self.wf(),
            i <= self.chars@.len(),
        ensures
            r == encode_utf8(self.chars@.subrange(0, i as int)).len() as usize,
    {
        self.source.substring_char(0, i).len()
    }

    /// The next piece and its byte offset; `None` once all are handed out.
    pub fn next(&mut self) -> (r: Option<(usize, &'a str)>)
        requires
            old(self).wf(),
        ensures
            final(self).wf(),
            match r {
                None => old(self).remaining().len() == 0 && final(self).remaining().len() == 0,
                Some((off, w)) => {
                    &&& old(self).remaining().len() > 0
                    &&& (off, w@) == old(self).remaining()[0]
                    &&& final(self).remaining() == old(self).remaining().drop_first()
                },
            },
    {
        let n = self.chars.len();
        let ghost s = self.chars@;
        let ghost before = self.remaining();
        if self.pos == n {
            if self.needs_final_split {
                self.needs_final_split = false;
                let off = self.offset(n);
                let w = self.source.substring_char(n, n);
                proof {
                    assert(self.remaining() =~= before.drop_first());
                }
                return Some((off, w));
            }
            return None;
        }
        let i = self.pos;
        let mut e = i;
        while e < n && !is_white_space(self.chars[e])
            invariant
                i <= e <= n == self.chars@.len(),
                self.wf(),
                forall|k: int| i <= k < e ==> not_space()(#[trigger] self.chars@[k]),
            decreases n - e,
        {
            e = e + 1;
        }
        proof {
            lemma_run_end(s, i as int, e as int, not_space());
        }
        let off = self.offset(i);
        if e == n {
            self.pos = n;
            self.needs_final_split = false;
            proof {
                assert(self.remaining() =~= before.drop_first());
            }
            return Some((off, self.source.substring_char(i, n)));
        }
        let mut k = e;
        while k < n && is_white_space(self.chars[k])
            invariant
                e <= k <= n == self.chars@.len(),
                self.wf(),
                forall|m: int| e <= m < k ==> spaces()(#[trigger] self.chars@[m]),
            decreases n - k,
        {
            k = k + 1;
        }
        proof {
            lemma_run_end(s, e as int, k as int, spaces());
        }
        self.pos = k;
        self.needs_final_split = true;
        proof {
            assert(self.remaining() =~= before.drop_first());
        }
        Some((off, self.source.substring_char(i, e)))
    }
}

/// A split of `text` at its runs of white space.
pub fn split_whitespace_indices<'a>(text: &'a str) -> (r: SplitWhitespaceIndices<'a>)
    ensures
        r.wf(),
        r.remaining() == split_items(text@),
{
    SplitWhitespaceIndices { source: text, chars: chars_of(text), pos: 0, needs_final_split: false }
}

} // verus!
