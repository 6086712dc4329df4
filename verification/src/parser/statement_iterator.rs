//! Scanning raw ledger text: lines, whitespace-delimited tokens, and whole
//! logical statements.
use crate::text::{
    first_from, trim_comment_spec, trim_spec, ws_char,
};
use vstd::prelude::*;

verus! {

/// The whitespace-delimited tokens of `s`, from position `i` on.
pub open spec fn tokens_from(s: Seq<char>, i: int) -> Seq<Seq<char>>
    decreases s.len() - i,
{
    if i < 0 || i >= s.len() {
        Seq::<Seq<char>>::empty()
    } else if ws_char(s[i]) {
        tokens_from(s, i + 1)
    } else {
        let e = first_from(s, i, |c: char| ws_char(c));
        let q = if e <= i {
            i + 1
        } else if e > s.len() {
            s.len() as int
        } else {
            e
        };
        seq![s.subrange(i, q)] + tokens_from(s, q)
    }
}

pub open spec fn tokens_of(s: Seq<char>) -> Seq<Seq<char>> {
    tokens_from(s, 0)
}

/// Skipping whitespace does not change the tokens.
pub proof fn lemma_tokens_ws_skip(s: Seq<char>, i: int, j: int)
    requires
        0 <= i <= j <= s.len(),
        forall|k: int| i <= k < j ==> ws_char(#[trigger] s[k]),
    ensures
        tokens_from(s, i) == tokens_from(s, j),
    decreases j - i,
{
    if i < j {
        lemma_tokens_ws_skip(s, i + 1, j);
    }
}

/// Unfolding one token: at a non-whitespace position the first token runs to
/// the next whitespace.
pub proof fn lemma_tokens_step(s: Seq<char>, i: int)
    requires
        0 <= i < s.len(),
        !ws_char(s[i]),
    ensures
        ({
            let e = first_from(s, i, |c: char| ws_char(c));
            tokens_from(s, i) == seq![s.subrange(i, e)] + tokens_from(s, e)
        }),
{
    crate::text::lemma_first_from(s, i, |c: char| ws_char(c));
}

/// Splits a single-line string into whitespace-delimited tokens, stripping a
/// trailing comment first.  Multi-line input is excluded by contract.
pub struct TokenIterator {
    pub data: String,
    pub position: usize,
    pub size: usize,
}

impl TokenIterator {
    pub open spec fn wf(self) -> bool {
        &&& self.position <= self.data@.len()
        &&& self.size == self.data@.len()
    }

    /// The comment-stripped, trimmed text this tokenizer works on.
    pub open spec fn src(self) -> Seq<char> {
        self.data@
    }

    /// The tokens not yet handed out.
    pub open spec fn toks(self) -> Seq<Seq<char>> {
        tokens_from(self.data@, self.position as int)
    }

    /// A fresh tokenizer over one line: the trailing comment is removed and
    /// the text trimmed before any splitting.
    pub fn new(data: &str) -> (r: TokenIterator)
        requires
            forall|i: int| 0 <= i < data@.len() ==> (#[trigger] data@[i]) != '\n',
        ensures
            r.wf(),
            r.src() == trim_spec(trim_comment_spec(data@)),
            r.position == 0,
            r.toks() == tokens_of(r.src()),
    {
        let cut = crate::parser::trim_comment_at_end(data);
        let trimmed = crate::text::trim_str(cut);
        let owned = String::from_str(trimmed);
        let size = owned.unicode_len();
        TokenIterator { data: owned, position: 0, size }
    }

    /// The untokenized rest of the line, with leading whitespace skipped.
    pub fn remaining(&self) -> (r: String)
        requires
            self.wf(),
        ensures
            r@ == self.data@.skip(
                first_from(self.data@, self.position as int, |c: char| !ws_char(c)),
            ),
    {
        let n = self.size;
        let mut p = self.position;
        while p < n && crate::text::is_ws(self.data.as_str().get_char(p))
            invariant
                self.wf(),
                self.position <= p <= n,
                n == self.data@.len(),
                forall|i: int| self.position <= i < p ==> ws_char(#[trigger] self.data@[i]),
            decreases n - p,
        {
            p = p + 1;
        }
        proof {
            crate::text::lemma_first_from_shift(
                self.data@,
                self.position as int,
                p as int,
                |c: char| !ws_char(c),
            );
            crate::text::lemma_first_from(self.data@, p as int, |c: char| !ws_char(c));
        }
        let r = String::from_str(self.data.as_str().substring_char(p, n));
        proof {
            assert(r@ =~= self.data@.skip(
                first_from(self.data@, self.position as int, |c: char| !ws_char(c)),
            ));
        }
        r
    }

    /// The next token, if any.
    pub fn next(&mut self) -> (r: Option<String>)
        requires
            old(self).wf(),
        ensures
            final(self).wf(),
            final(self).data == old(self).data,
            old(self).toks().len() == 0 ==> r is None && *final(self) == *old(self),
            old(self).toks().len() > 0 ==> (r matches Some(t) && t@ == old(self).toks()[0]
                && final(self).toks() == old(self).toks().drop_first()),
    {
        let ghost s = self.data@;
        let n = self.size;
        if self.position >= n {
            return None;
        }
        let mut p = self.position;
        while p < n && crate::text::is_ws(self.data.as_str().get_char(p))
            invariant
                self.wf(),
                self.position <= p <= n,
                n == s.len(),
                s == self.data@,
                forall|i: int| self.position <= i < p ==> ws_char(#[trigger] s[i]),
            decreases n - p,
        {
            p = p + 1;
        }
        proof {
            lemma_tokens_ws_skip(s, self.position as int, p as int);
        }
        if p >= n {
            proof {
                assert(tokens_from(s, p as int) == Seq::<Seq<char>>::empty());
            }
            return None;
        }
        let mut e = p;
        while e < n && !crate::text::is_ws(self.data.as_str().get_char(e))
            invariant
                self.wf(),
                p <= e <= n,
                n == s.len(),
                s == self.data@,
                forall|i: int| p <= i < e ==> !ws_char(#[trigger] s[i]),
            decreases n - e,
        {
            e = e + 1;
        }
        proof {
            crate::text::lemma_first_from_shift(s, p as int, e as int, |c: char| ws_char(c));
            crate::text::lemma_first_from(s, e as int, |c: char| ws_char(c));
            assert(first_from(s, p as int, |c: char| ws_char(c)) == e as int);
            lemma_tokens_step(s, p as int);
        }
        let t = String::from_str(self.data.as_str().substring_char(p, e));
        self.position = e;
        proof {
            assert(t@ == s.subrange(p as int, e as int));
            assert(final(self).toks() == old(self).toks().drop_first());
        }
        Some(t)
    }
}

/// A line that does not affect statement boundaries: blank, a comment, or a
/// bare `*` heading.  The line is given trimmed.
pub open spec fn skip_line_spec(t: Seq<char>) -> bool {
    ||| t.len() == 0
    ||| crate::text::spec_is_comment_char(t[0])
    ||| t[0] == '*'
}

pub fn skip_line(line: &str) -> (r: bool)
    ensures
        r == skip_line_spec(line@),
{
    if line.unicode_len() == 0 {
        return true;
    }
    let c = line.get_char(0);
    crate::parser::is_comment_char(c) || c == '*'
}

/// The line (trimmed) begins with a `YYYY-MM-DD` shape: the pattern that
/// starts any new statement.
pub open spec fn stmt_start_spec(t: Seq<char>) -> bool {
    &&& t.len() >= 10
    &&& crate::text::digit_char(t[0]) && crate::text::digit_char(t[1]) && crate::text::digit_char(
        t[2],
    ) && crate::text::digit_char(t[3])
    &&& t[4] == '-'
    &&& crate::text::digit_char(t[5]) && crate::text::digit_char(t[6])
    &&& t[7] == '-'
    &&& crate::text::digit_char(t[8]) && crate::text::digit_char(t[9])
}

/// The line additionally carries a `*` flag after at least one space: it
/// opens a multi-line transaction block.
pub open spec fn multiline_start_spec(t: Seq<char>) -> bool {
    let j = first_from(t, 10, |c: char| c != ' ');
    &&& stmt_start_spec(t)
    &&& t.len() > 10
    &&& t[10] == ' '
    &&& j < t.len()
    &&& t[j] == '*'
}

pub fn is_statement_start(line: &str) -> (r: bool)
    ensures
        r == stmt_start_spec(line@),
{
    if line.unicode_len() < 10 {
        return false;
    }
    crate::text::is_digit(line.get_char(0)) && crate::text::is_digit(line.get_char(1))
        && crate::text::is_digit(line.get_char(2)) && crate::text::is_digit(line.get_char(3))
        && line.get_char(4) == '-' && crate::text::is_digit(line.get_char(5))
        && crate::text::is_digit(line.get_char(6)) && line.get_char(7) == '-'
        && crate::text::is_digit(line.get_char(8)) && crate::text::is_digit(line.get_char(9))
}

pub fn is_multiline_statement_start(line: &str) -> (r: bool)
    ensures
        r == multiline_start_spec(line@),
{
    if !is_statement_start(line) {
        return false;
    }
    let n = line.unicode_len();
    if n <= 10 || line.get_char(10) != ' ' {
        return false;
    }
    let mut j: usize = 10;
    while j < n && line.get_char(j) == ' '
        invariant
            10 <= j <= n,
            n == line@.len(),
            forall|i: int| 10 <= i < j ==> (#[trigger] line@[i]) == ' ',
        decreases n - j,
    {
        j = j + 1;
    }
    proof {
        crate::text::lemma_first_from_shift(line@, 10, j as int, |c: char| c != ' ');
        crate::text::lemma_first_from(line@, j as int, |c: char| c != ' ');
    }
    j < n && line.get_char(j) == '*'
}

/// The end of the line starting at `pos`.
pub open spec fn line_end(s: Seq<char>, pos: int) -> int {
    first_from(s, pos, |c: char| c == '\n')
}

/// The start of the following line.
pub open spec fn next_line(s: Seq<char>, pos: int) -> int {
    let e = line_end(s, pos);
    if e < pos {
        pos + 1
    } else if e >= s.len() {
        s.len() as int
    } else {
        e + 1
    }
}

/// How raw ledger text splits into logical statements, reading from `pos` in
/// search of a statement start.  The first component lists the statements in
/// order; each is the raw span out of the input, with any leading or
/// trailing whitespace of its lines preserved (matching is done against a
/// trimmed copy only).  The second component carries the first
/// unrecognizable top-level line, trimmed, if the scan runs into one
/// (everything after it is abandoned).
pub open spec fn seg_search(s: Seq<char>, pos: int) -> (Seq<Seq<char>>, Option<Seq<char>>)
    decreases s.len() - pos,
{
    if pos < 0 || pos >= s.len() {
        (Seq::<Seq<char>>::empty(), None::<Seq<char>>)
    } else {
        let e = line_end(s, pos);
        let e2 = if e < pos {
            pos
        } else if e > s.len() {
            s.len() as int
        } else {
            e
        };
        let t = trim_spec(s.subrange(pos, e2));
        let nxt = next_line(s, pos);
        if skip_line_spec(t) {
            seg_search(s, nxt)
        } else if multiline_start_spec(t) {
            seg_multi(s, pos, e2, nxt)
        } else if stmt_start_spec(t) {
            let rest = seg_search(s, nxt);
            (seq![s.subrange(pos, e2)] + rest.0, rest.1)
        } else {
            (Seq::<Seq<char>>::empty(), Some(t))
        }
    }
}

/// Reading the body of a multi-line statement that began at `start`, whose
/// span currently reaches `end_sf`.  A new statement start closes the span;
/// the end of input closes it at the end of the text.
pub open spec fn seg_multi(s: Seq<char>, start: int, end_sf: int, pos: int) -> (
    Seq<Seq<char>>,
    Option<Seq<char>>,
)
    decreases s.len() - pos,
{
    if pos < 0 || pos >= s.len() {
        (seq![s.subrange(start, s.len() as int)], None::<Seq<char>>)
    } else {
        let e = line_end(s, pos);
        let e2 = if e < pos {
            pos
        } else if e > s.len() {
            s.len() as int
        } else {
            e
        };
        let t = trim_spec(s.subrange(pos, e2));
        let nxt = next_line(s, pos);
        if skip_line_spec(t) {
            seg_multi(s, start, end_sf, nxt)
        } else if multiline_start_spec(t) {
            let rest = seg_multi(s, pos, e2, nxt);
            (seq![s.subrange(start, end_sf)] + rest.0, rest.1)
        } else if stmt_start_spec(t) {
            let rest = seg_search(s, nxt);
            (seq![s.subrange(start, end_sf), s.subrange(pos, e2)] + rest.0, rest.1)
        } else {
            seg_multi(s, start, e2, nxt)
        }
    }
}

/// The statements of a whole ledger text.
pub open spec fn seg_statements(s: Seq<char>) -> (Seq<Seq<char>>, Option<Seq<char>>) {
    seg_search(s, 0)
}

/// Where the statement scan stands between two yielded statements.
pub enum IteratorState {
    SearchingNextStart,
    ReadingMultiline { start: usize, end_so_far: usize },
    FinishedMultilineFoundSingle { start: usize, end: usize },
}

/// Walks raw ledger text and yields one logical statement at a time: a
/// single directive line, or a whole multi-line transaction block.  A
/// top-level line that starts no statement is reported as a typed error
/// instead of being dropped.
pub struct StatementIterator {
    pub data: String,
    pub position: usize,
    pub state: IteratorState,
}

impl StatementIterator {
    pub open spec fn wf(self) -> bool {
        &&& self.position <= self.data@.len()
        &&& match self.state {
            IteratorState::ReadingMultiline { start, end_so_far } => start <= end_so_far
                <= self.data@.len() && start <= self.position,
            IteratorState::FinishedMultilineFoundSingle { start, end } => start <= end
                <= self.data@.len(),
            IteratorState::SearchingNextStart => true,
        }
    }

    /// The statements not yet yielded, with the pending bad line if the text
    /// ends in one.
    pub open spec fn remaining(self) -> (Seq<Seq<char>>, Option<Seq<char>>) {
        match self.state {
            IteratorState::SearchingNextStart => seg_search(self.data@, self.position as int),
            IteratorState::ReadingMultiline { start, end_so_far } => seg_multi(
                self.data@,
                start as int,
                end_so_far as int,
                self.position as int,
            ),
            IteratorState::FinishedMultilineFoundSingle { start, end } => {
                let rest = seg_search(self.data@, self.position as int);
                (seq![self.data@.subrange(start as int, end as int)] + rest.0, rest.1)
            }
        }
    }

    pub fn new(data: &str) -> (r: StatementIterator)
        ensures
            r.wf(),
            r.data@ == data@,
            r.remaining() == seg_statements(data@),
    {
        let size = data.unicode_len();
        StatementIterator {
            data: String::from_str(data),
            position: 0,
            state: IteratorState::SearchingNextStart,
        }
    }

    /// The next statement: its full text, or the structural error carrying
    /// the first unrecognizable top-level line.
    pub fn next(&mut self) -> (r: Option<Result<String, crate::parser::ParseError>>)
        requires
            old(self).wf(),
        ensures
            final(self).wf(),
            final(self).data@ == old(self).data@,
            ({
                let before = old(self).remaining();
                let after = final(self).remaining();
                &&& before.0.len() > 0 ==> (r matches Some(q) && q matches Ok(t) && t@
                    == before.0[0] && after.0 == before.0.drop_first() && after.1 == before.1)
                &&& before.0.len() == 0 ==> (before.1 matches Some(l) ==> (r matches Some(q)
                    && q matches Err(e) && e.failed_statement@ == l && after.0.len() == 0
                    && after.1 is None))
                &&& (before.0.len() == 0 && before.1 is None) ==> (r is None && after.0.len() == 0
                    && after.1 is None)
            }),
    {
        let ghost s = self.data@;
        let ghost orig = old(self).remaining();
        let n = self.data.unicode_len();
        match self.state {
            IteratorState::FinishedMultilineFoundSingle { start, end } => {
                self.state = IteratorState::SearchingNextStart;
                let t = String::from_str(self.data.as_str().substring_char(start, end));
                return Some(Ok(t));
            }
            _ => {}
        }
        loop
            invariant
                self.wf(),
                n == s.len(),
                s == self.data@,
                s == old(self).data@,
                orig == old(self).remaining(),
                self.remaining() == orig,
                !(self.state matches IteratorState::FinishedMultilineFoundSingle { .. }),
            decreases n - self.position,
        {
            if self.position >= n {
                match self.state {
                    IteratorState::SearchingNextStart => {
                        return None;
                    }
                    IteratorState::ReadingMultiline { start, end_so_far } => {
                        let t = String::from_str(self.data.as_str().substring_char(start, n));
                        self.state = IteratorState::SearchingNextStart;
                        return Some(Ok(t));
                    }
                    IteratorState::FinishedMultilineFoundSingle { .. } => {
                        proof {
                            assert(false);
                        }
                        return None;
                    }
                }
            }
            let start = self.position;
            let mut e = start;
            while e < n && self.data.as_str().get_char(e) != '\n'
                invariant
                    start <= e <= n,
                    n == s.len(),
                    s == self.data@,
                    forall|i: int| start <= i < e ==> (#[trigger] s[i]) != '\n',
                decreases n - e,
            {
                e = e + 1;
            }
            proof {
                crate::text::lemma_first_from_shift(s, start as int, e as int, |c: char| c == '\n');
                crate::text::lemma_first_from(s, e as int, |c: char| c == '\n');
                assert(line_end(s, start as int) == e as int);
            }
            let nxt = if e < n {
                e + 1
            } else {
                n
            };
            proof {
                assert(next_line(s, start as int) == nxt as int);
            }
            let line = String::from_str(
                crate::text::trim_str(self.data.as_str().substring_char(start, e)),
            );
            proof {
                assert(line@ == trim_spec(s.subrange(start as int, e as int)));
            }
            if skip_line(line.as_str()) {
                self.position = nxt;
                continue;
            }
            if is_multiline_statement_start(line.as_str()) {
                match self.state {
                    IteratorState::SearchingNextStart => {
                        self.state = IteratorState::ReadingMultiline { start, end_so_far: e };
                        self.position = nxt;
                    }
                    IteratorState::ReadingMultiline { start: mstart, end_so_far } => {
                        let out = String::from_str(
                            self.data.as_str().substring_char(mstart, end_so_far),
                        );
                        self.state = IteratorState::ReadingMultiline { start, end_so_far: e };
                        self.position = nxt;
                        return Some(Ok(out));
                    }
                    IteratorState::FinishedMultilineFoundSingle { .. } => {
                        proof {
                            assert(false);
                        }
                    }
                }
            } else if is_statement_start(line.as_str()) {
                match self.state {
                    IteratorState::SearchingNextStart => {
                        let raw = String::from_str(self.data.as_str().substring_char(start, e));
                        self.position = nxt;
                        return Some(Ok(raw));
                    }
                    IteratorState::ReadingMultiline { start: mstart, end_so_far } => {
                        let out = String::from_str(
                            self.data.as_str().substring_char(mstart, end_so_far),
                        );
                        self.state = IteratorState::FinishedMultilineFoundSingle {
                            start,
                            end: e,
                        };
                        self.position = nxt;
                        return Some(Ok(out));
                    }
                    IteratorState::FinishedMultilineFoundSingle { .. } => {
                        proof {
                            assert(false);
                        }
                    }
                }
            } else {
                match self.state {
                    IteratorState::SearchingNextStart => {
                        // a structural error: surface it instead of crashing
                        let err = crate::parser::ParseError {
                            context: String::from_str("Unhandled line"),
                            failed_statement: line,
                        };
                        self.position = n;
                        return Some(Err(err));
                    }
                    IteratorState::ReadingMultiline { start: mstart, end_so_far } => {
                        // an ordinary body line: the span now reaches its end
                        self.state = IteratorState::ReadingMultiline {
                            start: mstart,
                            end_so_far: e,
                        };
                        self.position = nxt;
                    }
                    IteratorState::FinishedMultilineFoundSingle { .. } => {
                        proof {
                            assert(false);
                        }
                    }
                }
            }
        }
    }
}

/// The line ranges of `s` from position `pos` on: `(start, end)` pairs in
/// character offsets, the terminating newline excluded.
pub open spec fn lines_from(s: Seq<char>, pos: int) -> Seq<(int, int)>
    decreases s.len() - pos,
{
    if pos < 0 || pos >= s.len() {
        Seq::<(int, int)>::empty()
    } else {
        let e = first_from(s, pos, |c: char| c == '\n');
        let nxt = if e < pos {
            pos + 1
        } else if e >= s.len() {
            s.len() as int
        } else {
            e + 1
        };
        seq![(pos, if e < pos { pos } else { e })] + lines_from(s, nxt)
    }
}

/// Splits text into lines by character offset.
pub struct LineIterator {
    pub data: String,
    pub position: usize,
    pub size: usize,
}

impl LineIterator {
    pub open spec fn wf(self) -> bool {
        &&& self.position <= self.data@.len()
        &&& self.size == self.data@.len()
    }

    pub open spec fn src(self) -> Seq<char> {
        self.data@
    }

    /// The line ranges not yet handed out.
    pub open spec fn lines(self) -> Seq<(int, int)> {
        lines_from(self.data@, self.position as int)
    }

    pub fn new(data: &str) -> (r: LineIterator)
        ensures
            r.wf(),
            r.src() == data@,
            r.position == 0,
            r.lines() == lines_from(data@, 0),
    {
        let size = data.unicode_len();
        LineIterator { data: String::from_str(data), position: 0, size }
    }

    /// The next line's `(start, end)` character range.
    pub fn next(&mut self) -> (r: Option<(usize, usize)>)
        requires
            old(self).wf(),
        ensures
            final(self).wf(),
            final(self).data == old(self).data,
            old(self).lines().len() == 0 ==> r is None && *final(self) == *old(self),
            old(self).lines().len() > 0 ==> (r matches Some(l) && (l.0 as int, l.1 as int)
                == old(self).lines()[0] && final(self).lines() == old(self).lines().drop_first()),
    {
        let ghost s = self.data@;
        let n = self.size;
        if self.position >= n {
            return None;
        }
        let start = self.position;
        let mut e = start;
        while e < n && self.data.as_str().get_char(e) != '\n'
            invariant
                self.wf(),
                start <= e <= n,
                n == s.len(),
                s == self.data@,
                start == self.position,
                forall|i: int| start <= i < e ==> (#[trigger] s[i]) != '\n',
            decreases n - e,
        {
            e = e + 1;
        }
        proof {
            crate::text::lemma_first_from_shift(s, start as int, e as int, |c: char| c == '\n');
            crate::text::lemma_first_from(s, e as int, |c: char| c == '\n');
            assert(first_from(s, start as int, |c: char| c == '\n') == e as int);
        }
        if e < n {
            self.position = e + 1;
        } else {
            self.position = n;
        }
        Some((start, e))
    }
}

} // verus!
