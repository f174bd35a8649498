//! The relaxed-text parser: a single-pass recursive descent over a character
//! buffer with one character of lookahead and line/column bookkeeping for
//! diagnostics.
//!
//! Every parsing function is proved equal to a functional specification of
//! the grammar (`spec_value` and its companions). The specification threads
//! an explicit parser state and a fuel bound; `POut::Out` marks fuel
//! exhaustion, and the executable functions return exactly the
//! specification's verdict at every fuel at which it does not run out.

use vstd::prelude::*;
use vstd::string::StringExecFns;

use crate::util::text::{
    dec_str, dec_val, hex_val, is_dec_digit, is_hex_digit, json_quote_chars, json_quoted,
    pow10, u64_to_string,
};
use crate::util::value::{
    fields_view, lemma_fields_view, lemma_vals_view, obj_update, object_set, vals_view, FloatLex,
    Num, SpecNum, SpecValue, Value,
};

verus! {

broadcast use vstd::std_specs::vec::group_vec_axioms, vstd::seq::axiom_seq_index_decreases;

/// The parser state: the full character buffer, the cursor, the 1-based
/// line and column, and the one-character lookahead.
pub ghost struct PSt {
    pub text: Seq<char>,
    pub at: int,
    pub line: int,
    pub col: int,
    pub ch: Option<char>,
}

/// The outcome of one specification-level parsing step: a result with the
/// state after it, a full diagnostic message, or fuel exhaustion.
pub ghost enum POut<T> {
    Done(T, PSt),
    Fail(Seq<char>),
    Out,
}

/// A parse error, carrying a rendered message with position and excerpt.
#[derive(Debug)]
pub struct ParseError {
    pub message: String,
}

/// The state a fresh parser starts in: cursor at the beginning, a blank as
/// the pretended lookahead.
pub open spec fn init_state(text: Seq<char>) -> PSt {
    PSt { text, at: 0, line: 1, col: 1, ch: Some(' ') }
}

pub open spec fn spec_peek_at(text: Seq<char>, at: int) -> Option<char> {
    if 0 <= at < text.len() {
        Some(text[at])
    } else {
        None
    }
}

/// The states the executable parser can reach: the cursor stays within one
/// past the end, and the lookahead is the character before the cursor. The
/// final conjunct tolerates a buffer so large that the cursor saturates.
pub open spec fn wf(s: PSt) -> bool {
    let n = s.text.len() as int;
    &&& 0 <= s.at <= n + 1
    &&& 0 <= s.line <= usize::MAX
    &&& 0 <= s.col <= usize::MAX
    &&& 0 <= n
    &&& if s.at == 0 {
        s.ch == Some(' ')
    } else if s.at == usize::MAX as int {
        s.ch is None || s.ch == spec_peek_at(s.text, s.at - 1)
    } else {
        s.ch == spec_peek_at(s.text, s.at - 1)
    }
}

/// The unread portion of the buffer, for termination.
pub open spec fn pmeas(s: PSt) -> int {
    if s.at <= s.text.len() {
        s.text.len() - s.at
    } else {
        0
    }
}

pub open spec fn chw(s: PSt) -> int {
    if s.ch is Some {
        1
    } else {
        0
    }
}

pub open spec fn sat_inc(n: int) -> int {
    if n < usize::MAX {
        n + 1
    } else {
        n
    }
}

/// How a character is shown in an error message.
pub open spec fn spec_render_char(c: char) -> Seq<char> {
    if c == '\0' {
        "EOF"@
    } else {
        Seq::empty().push('\'').push(c).push('\'')
    }
}

/// The full text of a diagnostic: the message, the position, and a quoted
/// excerpt of about twenty characters around the cursor.
pub open spec fn spec_error(s: PSt, msg: Seq<char>) -> Seq<char> {
    let n = s.text.len() as int;
    let start = if s.at >= 1 {
        s.at - 1
    } else {
        0
    };
    let end = if s.at + 19 <= n {
        s.at + 19
    } else {
        n
    };
    let snippet = if 0 <= start <= end <= n {
        s.text.subrange(start, end)
    } else {
        Seq::empty()
    };
    msg + " at line "@ + dec_str(s.line as nat) + " column "@ + dec_str(s.col as nat)
        + ". Next part: "@ + json_quoted(snippet)
}

/// The message of a failed expectation at the cursor.
pub open spec fn spec_expect_msg(c: char, cur: Option<char>) -> Seq<char> {
    "Expected "@ + spec_render_char(c) + " instead of "@ + (match cur {
        Some(x) => spec_render_char(x),
        None => "EOF"@,
    })
}

/// One step of the cursor: checks the expected character, reads the next
/// one, and updates line and column.
pub open spec fn spec_next(s: PSt, expect: Option<char>) -> POut<Option<char>> {
    if expect matches Some(c) && s.ch != Some(c) {
        POut::Fail(spec_error(s, spec_expect_msg(expect->0, s.ch)))
    } else {
        let n = s.text.len() as int;
        let ch2 = spec_peek_at(s.text, s.at);
        let at2 = if s.at <= n && s.at < usize::MAX {
            s.at + 1
        } else {
            s.at
        };
        let col2 = sat_inc(s.col);
        let newline = ch2 == Some('\n') || (ch2 == Some('\r') && spec_peek_at(s.text, at2)
            != Some('\n'));
        let st = if newline {
            PSt { at: at2, line: sat_inc(s.line), col: 0, ch: ch2, ..s }
        } else {
            PSt { at: at2, col: col2, ch: ch2, ..s }
        };
        POut::Done(ch2, st)
    }
}

/// The parser over an owned character buffer.
pub struct Parser {
    /// The index of the current character.
    at: usize,
    /// The current line number.
    line_number: usize,
    /// The current column number.
    column_number: usize,
    /// The current character.
    ch: Option<char>,
    /// The input text, stored as a vector of characters.
    text: Vec<char>,
}

impl View for Parser {
    type V = PSt;

    closed spec fn view(&self) -> PSt {
        PSt {
            text: self.text@,
            at: self.at as int,
            line: self.line_number as int,
            col: self.column_number as int,
            ch: self.ch,
        }
    }
}

/// The characters of the range `[start, end)` of `v`.
fn subvec(v: &Vec<char>, start: usize, end: usize) -> (r: Vec<char>)
    requires
        start <= end,
        end <= v@.len(),
    ensures
        r@ == v@.subrange(start as int, end as int),
{
    let mut r: Vec<char> = Vec::new();
    let mut i: usize = start;
    while i < end
        invariant
            start <= i <= end,
            end <= v@.len(),
            r@ == v@.subrange(start as int, i as int),
        decreases end - i,
    {
        r.push(v[i]);
        proof {
            assert(r@ =~= v@.subrange(start as int, i + 1));
        }
        i = i + 1;
    }
    r
}

impl Parser {
    pub fn new(input_str: &str) -> (p: Self)
        ensures
            p@ == init_state(input_str@),
            wf(p@),
    {
        let n = input_str.unicode_len();
        let mut text: Vec<char> = Vec::new();
        let mut i: usize = 0;
        while i < n
            invariant
                i <= n,
                n == input_str@.len(),
                text@ == input_str@.subrange(0, i as int),
            decreases n - i,
        {
            text.push(input_str.get_char(i));
            proof {
                assert(text@ =~= input_str@.subrange(0, i + 1));
            }
            i = i + 1;
        }
        proof {
            assert(text@ =~= input_str@);
        }
        Self { at: 0, line_number: 1, column_number: 1, ch: Some(' '), text }
    }

    fn error(&self, msg: String) -> (e: ParseError)
        requires
            wf(self@),
        ensures
            e.message@ == spec_error(self@, msg@),
    {
        let len = self.text.len();
        let start = if self.at >= 1 {
            self.at - 1
        } else {
            0
        };
        let end = if len >= 19 && self.at <= len - 19 {
            self.at + 19
        } else {
            len
        };
        let snippet = subvec(&self.text, start, end);
        let quoted = json_quote_chars(&snippet);
        let mut m = msg;
        m.append(" at line ");
        let ln = u64_to_string(self.line_number as u64);
        m.append(ln.as_str());
        m.append(" column ");
        let cn = u64_to_string(self.column_number as u64);
        m.append(cn.as_str());
        m.append(". Next part: ");
        m.append(quoted.as_str());
        ParseError { message: m }
    }

    /// Shows a character as the diagnostics do.
    fn render_char_str(c: char) -> (r: String)
        ensures
            r@ == spec_render_char(c),
    {
        if c == '\0' {
            "EOF".to_owned()
        } else {
            let mut s = String::new();
            s.push('\'');
            s.push(c);
            s.push('\'');
            s
        }
    }

    /// Get the next character without consuming it.
    fn peek(&self) -> (r: Option<char>)
        ensures
            r == spec_peek_at(self@.text, self@.at),
    {
        if self.at < self.text.len() {
            Some(self.text[self.at])
        } else {
            None
        }
    }

    fn next(&mut self, expect: Option<char>) -> (r: Result<Option<char>, ParseError>)
        requires
            wf(old(self)@),
        ensures
            wf(final(self)@),
            final(self)@.text == old(self)@.text,
            final(self)@.at >= old(self)@.at,
            match r {
                Ok(c) => spec_next(old(self)@, expect) == POut::Done(c, final(self)@),
                Err(e) => spec_next(old(self)@, expect) == POut::<Option<char>>::Fail(
                    e.message@,
                ) && final(self)@ == old(self)@,
            },
            old(self)@.ch is None && expect is None ==> final(self)@.ch is None && final(self)@.at == old(self)@.at,
            r is Ok && old(self)@.ch is Some ==> pmeas(final(self)@) < pmeas(old(self)@) || (
            pmeas(final(self)@) == pmeas(old(self)@) && chw(final(self)@) < chw(old(self)@)),
    {
        if let Some(c) = expect {
            let matches_expect = match self.ch {
                Some(cur) => cur == c,
                None => false,
            };
            if !matches_expect {
                let rendered = Self::render_char_str(c);
                let cur_str = match self.ch {
                    Some(x) => Self::render_char_str(x),
                    None => "EOF".to_owned(),
                };
                let mut m = "Expected ".to_owned();
                m.append(rendered.as_str());
                m.append(" instead of ");
                m.append(cur_str.as_str());
                return Err(self.error(m));
            }
        }
        self.ch = if self.at < self.text.len() {
            Some(self.text[self.at])
        } else {
            None
        };
        if self.at <= self.text.len() && self.at < usize::MAX {
            self.at = self.at + 1;
        }
        if self.column_number < usize::MAX {
            self.column_number = self.column_number + 1;
        }
        if let Some(c2) = self.ch {
            if c2 == '\n' || (c2 == '\r' && self.peek() != Some('\n')) {
                if self.line_number < usize::MAX {
                    self.line_number = self.line_number + 1;
                }
                self.column_number = 0;
            }
        }
        Ok(self.ch)
    }
}


/// The state does not grow: the cursor moves forward and a missing lookahead
/// stays missing.
pub open spec fn step_le(a: PSt, b: PSt) -> bool {
    pmeas(b) <= pmeas(a) && (pmeas(b) < pmeas(a) || chw(b) <= chw(a))
}

/// Strict progress: at least one character consumed, or the lookahead ran
/// out at the end of the buffer.
pub open spec fn step_lt(a: PSt, b: PSt) -> bool {
    pmeas(b) < pmeas(a) || (pmeas(b) == pmeas(a) && chw(b) < chw(a))
}

pub open spec fn is_ws(c: char) -> bool {
    c == ' ' || c == '\t' || c == '\r' || c == '\n' || c == '\u{000B}' || c == '\u{000C}' || c
        == '\u{00A0}' || c == '\u{FEFF}'
}

/// The body of a line comment: everything to the line end or end of input.
pub open spec fn spec_inline_loop(s: PSt, f: nat) -> POut<()>
    decreases f,
{
    if f == 0 {
        POut::Out
    } else {
        match spec_next(s, None) {
            POut::Done(_, s1) => match s1.ch {
                Some('\n') | Some('\r') => match spec_next(s1, None) {
                    POut::Done(_, s2) => POut::Done((), s2),
                    POut::Fail(m) => POut::Fail(m),
                    POut::Out => POut::Out,
                },
                None => POut::Done((), s1),
                _ => spec_inline_loop(s1, (f - 1) as nat),
            },
            POut::Fail(m) => POut::Fail(m),
            POut::Out => POut::Out,
        }
    }
}

pub open spec fn spec_inline_comment(s: PSt, f: nat) -> POut<()>
    decreases f,
{
    if f == 0 {
        POut::Out
    } else if s.ch != Some('/') {
        POut::Fail(spec_error(s, "Not an inline comment"@))
    } else {
        spec_inline_loop(s, (f - 1) as nat)
    }
}

/// Inside a block comment after a run of stars: a slash closes it, another
/// star keeps scanning, anything else returns to the plain body.
pub open spec fn spec_block_stars(s: PSt, f: nat) -> POut<()>
    decreases f,
{
    if f == 0 {
        POut::Out
    } else if s.ch == Some('*') {
        match spec_next(s, Some('*')) {
            POut::Done(_, s1) => if s1.ch == Some('/') {
                match spec_next(s1, Some('/')) {
                    POut::Done(_, s2) => POut::Done((), s2),
                    POut::Fail(m) => POut::Fail(m),
                    POut::Out => POut::Out,
                }
            } else {
                spec_block_stars(s1, (f - 1) as nat)
            },
            POut::Fail(m) => POut::Fail(m),
            POut::Out => POut::Out,
        }
    } else if s.ch is None {
        POut::Fail(spec_error(s, "Unterminated block comment"@))
    } else {
        spec_block_loop(s, (f - 1) as nat)
    }
}

pub open spec fn spec_block_loop(s: PSt, f: nat) -> POut<()>
    decreases f,
{
    if f == 0 {
        POut::Out
    } else {
        match spec_next(s, None) {
            POut::Done(_, s1) => spec_block_stars(s1, (f - 1) as nat),
            POut::Fail(m) => POut::Fail(m),
            POut::Out => POut::Out,
        }
    }
}

pub open spec fn spec_block_comment(s: PSt, f: nat) -> POut<()>
    decreases f,
{
    if f == 0 {
        POut::Out
    } else if s.ch != Some('*') {
        POut::Fail(spec_error(s, "Not a block comment"@))
    } else {
        spec_block_loop(s, (f - 1) as nat)
    }
}

/// A comment of either kind, after its leading slash.
pub open spec fn spec_comment(s: PSt, f: nat) -> POut<()>
    decreases f,
{
    if f == 0 {
        POut::Out
    } else if s.ch != Some('/') {
        POut::Fail(spec_error(s, "Not a comment"@))
    } else {
        match spec_next(s, Some('/')) {
            POut::Done(_, s1) => match s1.ch {
                Some('/') => spec_inline_comment(s1, (f - 1) as nat),
                Some('*') => spec_block_comment(s1, (f - 1) as nat),
                _ => POut::Fail(spec_error(s1, "Unrecognized comment"@)),
            },
            POut::Fail(m) => POut::Fail(m),
            POut::Out => POut::Out,
        }
    }
}

/// Whitespace and comments before the next token.
pub open spec fn spec_white(s: PSt, f: nat) -> POut<()>
    decreases f,
{
    if f == 0 {
        POut::Out
    } else {
        match s.ch {
            Some('/') => match spec_comment(s, (f - 1) as nat) {
                POut::Done(_, s1) => spec_white(s1, (f - 1) as nat),
                POut::Fail(m) => POut::Fail(m),
                POut::Out => POut::Out,
            },
            Some(c) => if is_ws(c) {
                match spec_next(s, None) {
                    POut::Done(_, s1) => spec_white(s1, (f - 1) as nat),
                    POut::Fail(m) => POut::Fail(m),
                    POut::Out => POut::Out,
                }
            } else {
                POut::Done((), s)
            },
            None => POut::Done((), s),
        }
    }
}

impl Parser {
    /// Whether the lookahead is exactly `c`.
    fn ch_is(&self, c: char) -> (r: bool)
        ensures
            r == (self@.ch == Some(c)),
    {
        match self.ch {
            Some(x) => x == c,
            None => false,
        }
    }

    fn ch_is_none(&self) -> (r: bool)
        ensures
            r == (self@.ch is None),
    {
        match self.ch {
            Some(_) => false,
            None => true,
        }
    }

    fn inline_loop(&mut self) -> (r: Result<(), ParseError>)
        requires
            wf(old(self)@),
        ensures
            wf(final(self)@),
            final(self)@.text == old(self)@.text,
            final(self)@.at >= old(self)@.at,
            step_le(old(self)@, final(self)@),
            r matches Ok(_) ==> (forall|f: nat|
                spec_inline_loop(old(self)@, f) != POut::<()>::Out ==> spec_inline_loop(
                    old(self)@,
                    f,
                ) == POut::Done((), final(self)@)),
            r matches Err(e) ==> (forall|f: nat|
                spec_inline_loop(old(self)@, f) != POut::<()>::Out ==> spec_inline_loop(
                    old(self)@,
                    f,
                ) == POut::<()>::Fail(e.message@)),
        decreases pmeas(self@), chw(self@), 1int,
    {
        let ghost pre = self@;
        match self.next(None) {
            Ok(_) => {},
            Err(e) => {
                return Err(e);
            },
        }
        let ghost s1 = self@;
        let progressed = self.ch_is('\n') || self.ch_is('\r');
        if progressed {
            match self.next(None) {
                Ok(_) => {
                    proof {
                        assert forall|f: nat|
                            spec_inline_loop(pre, f) != POut::<()>::Out implies spec_inline_loop(
                            pre,
                            f,
                        ) == POut::Done((), self@) by {
                            assert(spec_inline_loop(pre, f) == (match spec_next(s1, None) {
                                POut::Done(_, s2) => POut::Done((), s2),
                                POut::Fail(m) => POut::Fail(m),
                                POut::Out => POut::Out,
                            }));
                        }
                    }
                    Ok(())
                },
                Err(e) => Err(e),
            }
        } else if self.ch_is_none() {
            proof {
                assert forall|f: nat|
                    spec_inline_loop(pre, f) != POut::<()>::Out implies spec_inline_loop(pre, f)
                    == POut::Done((), self@) by {}
            }
            Ok(())
        } else {
            proof {
                assert(chw(pre) == 1);
            }
            let res = self.inline_loop();
            proof {
                assert forall|f: nat|
                    spec_inline_loop(pre, f) != POut::<()>::Out implies spec_inline_loop(pre, f)
                    == spec_inline_loop(s1, (f - 1) as nat) && spec_inline_loop(
                    s1,
                    (f - 1) as nat,
                ) != POut::<()>::Out by {}
            }
            res
        }
    }

    fn inline_comment(&mut self) -> (r: Result<(), ParseError>)
        requires
            wf(old(self)@),
        ensures
            wf(final(self)@),
            final(self)@.text == old(self)@.text,
            final(self)@.at >= old(self)@.at,
            step_le(old(self)@, final(self)@),
            r matches Ok(_) ==> (forall|f: nat|
                spec_inline_comment(old(self)@, f) != POut::<()>::Out ==> spec_inline_comment(
                    old(self)@,
                    f,
                ) == POut::Done((), final(self)@)),
            r matches Err(e) ==> (forall|f: nat|
                spec_inline_comment(old(self)@, f) != POut::<()>::Out ==> spec_inline_comment(
                    old(self)@,
                    f,
                ) == POut::<()>::Fail(e.message@)),
        decreases pmeas(self@), chw(self@), 3int,
    {
        if !self.ch_is('/') {
            return Err(self.error("Not an inline comment".to_owned()));
        }
        self.inline_loop()
    }

    fn block_stars(&mut self) -> (r: Result<(), ParseError>)
        requires
            wf(old(self)@),
        ensures
            wf(final(self)@),
            final(self)@.text == old(self)@.text,
            final(self)@.at >= old(self)@.at,
            step_le(old(self)@, final(self)@),
            r matches Ok(_) ==> (forall|f: nat|
                spec_block_stars(old(self)@, f) != POut::<()>::Out ==> spec_block_stars(
                    old(self)@,
                    f,
                ) == POut::Done((), final(self)@)),
            r matches Err(e) ==> (forall|f: nat|
                spec_block_stars(old(self)@, f) != POut::<()>::Out ==> spec_block_stars(
                    old(self)@,
                    f,
                ) == POut::<()>::Fail(e.message@)),
        decreases pmeas(self@), chw(self@), 2int,
    {
        let ghost pre = self@;
        if self.ch_is('*') {
            match self.next(Some('*')) {
                Ok(_) => {},
                Err(e) => {
                    return Err(e);
                },
            }
            let ghost s1 = self@;
            if self.ch_is('/') {
                match self.next(Some('/')) {
                    Ok(_) => {
                        proof {
                            assert forall|f: nat|
                                spec_block_stars(pre, f) != POut::<()>::Out implies spec_block_stars(
                                pre,
                                f,
                            ) == POut::Done((), self@) by {
                                assert(spec_block_stars(pre, f) == (match spec_next(s1, Some('/')) {
                                    POut::Done(_, s2) => POut::Done((), s2),
                                    POut::Fail(m) => POut::Fail(m),
                                    POut::Out => POut::Out,
                                }));
                            }
                        }
                        Ok(())
                    },
                    Err(e) => Err(e),
                }
            } else {
                let res = self.block_stars();
                proof {
                    assert forall|f: nat|
                        spec_block_stars(pre, f) != POut::<()>::Out implies spec_block_stars(
                        pre,
                        f,
                    ) == spec_block_stars(s1, (f - 1) as nat) && spec_block_stars(
                        s1,
                        (f - 1) as nat,
                    ) != POut::<()>::Out by {}
                }
                res
            }
        } else if self.ch_is_none() {
            Err(self.error("Unterminated block comment".to_owned()))
        } else {
            let res = self.block_loop();
            proof {
                assert forall|f: nat|
                    spec_block_stars(pre, f) != POut::<()>::Out implies spec_block_stars(pre, f)
                    == spec_block_loop(pre, (f - 1) as nat) && spec_block_loop(
                    pre,
                    (f - 1) as nat,
                ) != POut::<()>::Out by {}
            }
            res
        }
    }

    fn block_loop(&mut self) -> (r: Result<(), ParseError>)
        requires
            wf(old(self)@),
            old(self)@.ch is Some,
        ensures
            wf(final(self)@),
            final(self)@.text == old(self)@.text,
            final(self)@.at >= old(self)@.at,
            step_le(old(self)@, final(self)@),
            r matches Ok(_) ==> (forall|f: nat|
                spec_block_loop(old(self)@, f) != POut::<()>::Out ==> spec_block_loop(
                    old(self)@,
                    f,
                ) == POut::Done((), final(self)@)),
            r matches Err(e) ==> (forall|f: nat|
                spec_block_loop(old(self)@, f) != POut::<()>::Out ==> spec_block_loop(
                    old(self)@,
                    f,
                ) == POut::<()>::Fail(e.message@)),
        decreases pmeas(self@), chw(self@), 1int,
    {
        let ghost pre = self@;
        match self.next(None) {
            Ok(_) => {},
            Err(e) => {
                return Err(e);
            },
        }
        let ghost s1 = self@;
        let res = self.block_stars();
        proof {
            assert forall|f: nat|
                spec_block_loop(pre, f) != POut::<()>::Out implies spec_block_loop(pre, f)
                == spec_block_stars(s1, (f - 1) as nat) && spec_block_stars(s1, (f - 1) as nat)
                != POut::<()>::Out by {}
        }
        res
    }

    fn block_comment(&mut self) -> (r: Result<(), ParseError>)
        requires
            wf(old(self)@),
        ensures
            wf(final(self)@),
            final(self)@.text == old(self)@.text,
            final(self)@.at >= old(self)@.at,
            step_le(old(self)@, final(self)@),
            r matches Ok(_) ==> (forall|f: nat|
                spec_block_comment(old(self)@, f) != POut::<()>::Out ==> spec_block_comment(
                    old(self)@,
                    f,
                ) == POut::Done((), final(self)@)),
            r matches Err(e) ==> (forall|f: nat|
                spec_block_comment(old(self)@, f) != POut::<()>::Out ==> spec_block_comment(
                    old(self)@,
                    f,
                ) == POut::<()>::Fail(e.message@)),
        decreases pmeas(self@), chw(self@), 3int,
    {
        if !self.ch_is('*') {
            return Err(self.error("Not a block comment".to_owned()));
        }
        self.block_loop()
    }

    fn comment(&mut self) -> (r: Result<(), ParseError>)
        requires
            wf(old(self)@),
        ensures
            wf(final(self)@),
            final(self)@.text == old(self)@.text,
            final(self)@.at >= old(self)@.at,
            step_le(old(self)@, final(self)@),
            r is Ok ==> step_lt(old(self)@, final(self)@),
            r matches Ok(_) ==> (forall|f: nat|
                spec_comment(old(self)@, f) != POut::<()>::Out ==> spec_comment(old(self)@, f)
                    == POut::Done((), final(self)@)),
            r matches Err(e) ==> (forall|f: nat|
                spec_comment(old(self)@, f) != POut::<()>::Out ==> spec_comment(old(self)@, f)
                    == POut::<()>::Fail(e.message@)),
        decreases pmeas(self@), chw(self@), 4int,
    {
        let ghost pre = self@;
        if !self.ch_is('/') {
            return Err(self.error("Not a comment".to_owned()));
        }
        match self.next(Some('/')) {
            Ok(_) => {},
            Err(e) => {
                return Err(e);
            },
        }
        let ghost s1 = self@;
        if self.ch_is('/') {
            let res = self.inline_comment();
            proof {
                assert forall|f: nat|
                    spec_comment(pre, f) != POut::<()>::Out implies spec_comment(pre, f)
                    == spec_inline_comment(s1, (f - 1) as nat) && spec_inline_comment(
                    s1,
                    (f - 1) as nat,
                ) != POut::<()>::Out by {}
            }
            res
        } else if self.ch_is('*') {
            let res = self.block_comment();
            proof {
                assert forall|f: nat|
                    spec_comment(pre, f) != POut::<()>::Out implies spec_comment(pre, f)
                    == spec_block_comment(s1, (f - 1) as nat) && spec_block_comment(
                    s1,
                    (f - 1) as nat,
                ) != POut::<()>::Out by {}
            }
            res
        } else {
            Err(self.error("Unrecognized comment".to_owned()))
        }
    }

    fn white(&mut self) -> (r: Result<(), ParseError>)
        requires
            wf(old(self)@),
        ensures
            wf(final(self)@),
            final(self)@.text == old(self)@.text,
            final(self)@.at >= old(self)@.at,
            step_le(old(self)@, final(self)@),
            r matches Ok(_) ==> (forall|f: nat|
                spec_white(old(self)@, f) != POut::<()>::Out ==> spec_white(old(self)@, f)
                    == POut::Done((), final(self)@)),
            r matches Err(e) ==> (forall|f: nat|
                spec_white(old(self)@, f) != POut::<()>::Out ==> spec_white(old(self)@, f)
                    == POut::<()>::Fail(e.message@)),
        decreases pmeas(self@), chw(self@), 5int,
    {
        let ghost pre = self@;
        let is_slash = self.ch_is('/');
        let is_space = match self.ch {
            Some(c) => is_ws_exec(c),
            None => false,
        };
        if is_slash {
            match self.comment() {
                Ok(_) => {},
                Err(e) => {
                    return Err(e);
                },
            }
            let ghost s1 = self@;
            let res = self.white();
            proof {
                assert forall|f: nat|
                    spec_white(pre, f) != POut::<()>::Out implies spec_white(pre, f) == spec_white(
                    s1,
                    (f - 1) as nat,
                ) && spec_white(s1, (f - 1) as nat) != POut::<()>::Out by {
                    assert(spec_comment(pre, (f - 1) as nat) != POut::<()>::Out);
                }
            }
            res
        } else if is_space {
            match self.next(None) {
                Ok(_) => {},
                Err(e) => {
                    return Err(e);
                },
            }
            let ghost s1 = self@;
            let res = self.white();
            proof {
                assert forall|f: nat|
                    spec_white(pre, f) != POut::<()>::Out implies spec_white(pre, f) == spec_white(
                    s1,
                    (f - 1) as nat,
                ) && spec_white(s1, (f - 1) as nat) != POut::<()>::Out by {}
            }
            res
        } else {
            Ok(())
        }
    }
}

/// Whether the character counts as whitespace.
fn is_ws_exec(c: char) -> (r: bool)
    ensures
        r == is_ws(c),
{
    c == ' ' || c == '\t' || c == '\r' || c == '\n' || c == '\u{000B}' || c == '\u{000C}' || c
        == '\u{00A0}' || c == '\u{FEFF}'
}


/// Sequences an expectation step after a previous outcome.
pub open spec fn and_then_next(r: POut<()>, c: char) -> POut<()> {
    match r {
        POut::Done(_, s) => match spec_next(s, Some(c)) {
            POut::Done(_, s2) => POut::Done((), s2),
            POut::Fail(m) => POut::Fail(m),
            POut::Out => POut::Out,
        },
        POut::Fail(m) => POut::Fail(m),
        POut::Out => POut::Out,
    }
}

pub open spec fn out_val(r: POut<()>, v: SpecValue) -> POut<SpecValue> {
    match r {
        POut::Done(_, s) => POut::Done(v, s),
        POut::Fail(m) => POut::Fail(m),
        POut::Out => POut::Out,
    }
}

/// A bare word literal: `true`, `false`, `null`, or the literal strings
/// `Infinity` and `NaN` (a bare word, unlike a sign-prefixed one, reads as a
/// string).
pub open spec fn spec_word(s: PSt) -> POut<SpecValue> {
    let start = POut::<()>::Done((), s);
    match s.ch {
        Some('t') => out_val(
            and_then_next(and_then_next(and_then_next(and_then_next(start, 't'), 'r'), 'u'), 'e'),
            SpecValue::Bool(true),
        ),
        Some('f') => out_val(
            and_then_next(
                and_then_next(
                    and_then_next(and_then_next(and_then_next(start, 'f'), 'a'), 'l'),
                    's',
                ),
                'e',
            ),
            SpecValue::Bool(false),
        ),
        Some('n') => out_val(
            and_then_next(and_then_next(and_then_next(and_then_next(start, 'n'), 'u'), 'l'), 'l'),
            SpecValue::Null,
        ),
        Some('I') => out_val(
            and_then_next(
                and_then_next(
                    and_then_next(
                        and_then_next(
                            and_then_next(
                                and_then_next(
                                    and_then_next(and_then_next(start, 'I'), 'n'),
                                    'f',
                                ),
                                'i',
                            ),
                            'n',
                        ),
                        'i',
                    ),
                    't',
                ),
                'y',
            ),
            SpecValue::Str("Infinity"@),
        ),
        Some('N') => out_val(
            and_then_next(and_then_next(and_then_next(start, 'N'), 'a'), 'N'),
            SpecValue::Str("NaN"@),
        ),
        _ => POut::Fail(
            spec_error(
                s,
                "Unexpected "@ + (match s.ch {
                    Some(x) => spec_render_char(x),
                    None => "EOF"@,
                }),
            ),
        ),
    }
}

/// What a one-character escape stands for.
pub open spec fn spec_escapee(c: char) -> Option<Seq<char>> {
    if c == '\'' {
        Some("'"@)
    } else if c == '"' {
        Some("\""@)
    } else if c == '\\' {
        Some("\\"@)
    } else if c == '/' {
        Some("/"@)
    } else if c == '\n' {
        Some(""@)
    } else if c == 'b' {
        Some("\u{0008}"@)
    } else if c == 'f' {
        Some("\u{000C}"@)
    } else if c == 'n' {
        Some("\n"@)
    } else if c == 'r' {
        Some("\r"@)
    } else if c == 't' {
        Some("\t"@)
    } else {
        None
    }
}

/// The character a `\u` escape's code denotes.
pub uninterp spec fn char_from_u32(u: u32) -> Option<char>;

/// Relies on char::from_u32: the character with the given code, or nothing
/// for a surrogate code or one beyond the largest character.
pub assume_specification[ char::from_u32 ](u: u32) -> (r: Option<char>)
    ensures
        r == char_from_u32(u),
        r matches Some(c) ==> c as u32 == u,
        r is Some <==> (u < 0xD800 || (0xE000 <= u && u <= 0x10FFFF)),
;

/// One hexadecimal digit of a `\u` escape.
pub open spec fn spec_hex_step(r: POut<u32>) -> POut<u32> {
    match r {
        POut::Done(acc, s) => match spec_next(s, None) {
            POut::Done(_, s1) => if s1.ch matches Some(h) && is_hex_digit(s1.ch->0) {
                POut::Done((16 * acc + crate::util::text::hex_digit_val(s1.ch->0)) as u32, s1)
            } else {
                POut::Fail(spec_error(s1, "Invalid Unicode escape in string"@))
            },
            POut::Fail(m) => POut::Fail(m),
            POut::Out => POut::Out,
        },
        POut::Fail(m) => POut::Fail(m),
        POut::Out => POut::Out,
    }
}

/// The body of a string literal, accumulated into `acc`, after the opening
/// delimiter.
pub open spec fn spec_string_loop(s: PSt, delim: char, acc: Seq<char>, f: nat) -> POut<Seq<char>>
    decreases f,
{
    if f == 0 {
        POut::Out
    } else {
        match spec_next(s, None) {
            POut::Done(copt, s1) => match copt {
                None => POut::Fail(spec_error(s1, "Bad string"@)),
                Some(c) => if c == delim {
                    match spec_next(s1, None) {
                        POut::Done(_, s2) => POut::Done(acc, s2),
                        POut::Fail(m) => POut::Fail(m),
                        POut::Out => POut::Out,
                    }
                } else if c == '\\' {
                    match spec_next(s1, None) {
                        POut::Done(_, s2) => match s2.ch {
                            Some('u') => {
                                let h = spec_hex_step(
                                    spec_hex_step(
                                        spec_hex_step(spec_hex_step(POut::Done(0u32, s2))),
                                    ),
                                );
                                match h {
                                    POut::Done(u, s3) => match char_from_u32(u) {
                                        Some(uc) => spec_string_loop(
                                            s3,
                                            delim,
                                            acc.push(uc),
                                            (f - 1) as nat,
                                        ),
                                        None => POut::Fail(
                                            spec_error(s3, "Invalid Unicode codepoint in string"@),
                                        ),
                                    },
                                    POut::Fail(m) => POut::Fail(m),
                                    POut::Out => POut::Out,
                                }
                            },
                            Some('\r') => if spec_peek_at(s2.text, s2.at) == Some('\n') {
                                match spec_next(s2, None) {
                                    POut::Done(_, s3) => spec_string_loop(
                                        s3,
                                        delim,
                                        acc,
                                        (f - 1) as nat,
                                    ),
                                    POut::Fail(m) => POut::Fail(m),
                                    POut::Out => POut::Out,
                                }
                            } else {
                                spec_string_loop(s2, delim, acc, (f - 1) as nat)
                            },
                            Some(esc) => match spec_escapee(esc) {
                                Some(m) => spec_string_loop(s2, delim, acc + m, (f - 1) as nat),
                                None => POut::Fail(
                                    spec_error(
                                        s2,
                                        "Invalid escape character: "@ + Seq::empty().push(esc),
                                    ),
                                ),
                            },
                            None => POut::Fail(
                                spec_error(s2, "Unexpected end of input in string escape"@),
                            ),
                        },
                        POut::Fail(m) => POut::Fail(m),
                        POut::Out => POut::Out,
                    }
                } else if c == '\r' {
                    spec_string_loop(s1, delim, acc, (f - 1) as nat)
                } else if c == '\n' {
                    spec_string_loop(s1, delim, acc.push('\n'), (f - 1) as nat)
                } else {
                    spec_string_loop(s1, delim, acc.push(c), (f - 1) as nat)
                },
            },
            POut::Fail(m) => POut::Fail(m),
            POut::Out => POut::Out,
        }
    }
}

/// A string literal: matching single or double quotes around a body of
/// plain characters and escapes.
pub open spec fn spec_string(s: PSt, f: nat) -> POut<Seq<char>>
    decreases f,
{
    if f == 0 {
        POut::Out
    } else if s.ch == Some('"') || s.ch == Some('\'') {
        spec_string_loop(s, s.ch->0, Seq::empty(), (f - 1) as nat)
    } else {
        POut::Fail(spec_error(s, "Bad string: expected starting quote"@))
    }
}

/// What a one-character escape stands for.
pub fn escapee_get(esc: char) -> (r: Option<&'static str>)
    ensures
        match r {
            Some(t) => spec_escapee(esc) == Some(t@),
            None => spec_escapee(esc) is None,
        },
{
    if esc == '\'' {
        Some("'")
    } else if esc == '"' {
        Some("\"")
    } else if esc == '\\' {
        Some("\\")
    } else if esc == '/' {
        Some("/")
    } else if esc == '\n' {
        Some("")
    } else if esc == 'b' {
        Some("\u{0008}")
    } else if esc == 'f' {
        Some("\u{000C}")
    } else if esc == 'n' {
        Some("\n")
    } else if esc == 'r' {
        Some("\r")
    } else if esc == 't' {
        Some("\t")
    } else {
        None
    }
}

fn hex_digit_of(c: char) -> (r: Option<u32>)
    ensures
        r is Some <==> is_hex_digit(c),
        r matches Some(d) ==> d == crate::util::text::hex_digit_val(c) && d < 16,
{
    if c >= '0' && c <= '9' {
        Some(c as u32 - '0' as u32)
    } else if c >= 'a' && c <= 'f' {
        Some(c as u32 - 'a' as u32 + 10)
    } else if c >= 'A' && c <= 'F' {
        Some(c as u32 - 'A' as u32 + 10)
    } else {
        None
    }
}

impl Parser {
    /// A bare word literal.
    #[verifier::rlimit(100)]
    fn word(&mut self) -> (r: Result<Value, ParseError>)
        requires
            wf(old(self)@),
        ensures
            wf(final(self)@),
            final(self)@.text == old(self)@.text,
            final(self)@.at >= old(self)@.at,
            step_le(old(self)@, final(self)@),
            r is Ok ==> step_lt(old(self)@, final(self)@),
            r matches Ok(v) ==> spec_word(old(self)@) == POut::Done(v@, final(self)@),
            r matches Err(e) ==> spec_word(old(self)@) == POut::<SpecValue>::Fail(e.message@),
    {
        let c0 = self.ch;
        match c0 {
            Some('t') => {
                self.next(Some('t'))?;
                self.next(Some('r'))?;
                self.next(Some('u'))?;
                self.next(Some('e'))?;
                Ok(Value::Bool(true))
            },
            Some('f') => {
                self.next(Some('f'))?;
                self.next(Some('a'))?;
                self.next(Some('l'))?;
                self.next(Some('s'))?;
                self.next(Some('e'))?;
                Ok(Value::Bool(false))
            },
            Some('n') => {
                self.next(Some('n'))?;
                self.next(Some('u'))?;
                self.next(Some('l'))?;
                self.next(Some('l'))?;
                Ok(Value::Null)
            },
            Some('I') => {
                self.next(Some('I'))?;
                self.next(Some('n'))?;
                self.next(Some('f'))?;
                self.next(Some('i'))?;
                self.next(Some('n'))?;
                self.next(Some('i'))?;
                self.next(Some('t'))?;
                self.next(Some('y'))?;
                Ok(Value::Str("Infinity".to_owned()))
            },
            Some('N') => {
                self.next(Some('N'))?;
                self.next(Some('a'))?;
                self.next(Some('N'))?;
                Ok(Value::Str("NaN".to_owned()))
            },
            _ => {
                let mut m = "Unexpected ".to_owned();
                let shown = match self.ch {
                    Some(x) => Self::render_char_str(x),
                    None => "EOF".to_owned(),
                };
                m.append(shown.as_str());
                Err(self.error(m))
            },
        }
    }
}


impl Parser {
    /// One hexadecimal digit of a `\u` escape.
    fn hex_step(&mut self, acc: u32) -> (r: Result<u32, ParseError>)
        requires
            wf(old(self)@),
            acc < 0x10000000,
        ensures
            wf(final(self)@),
            final(self)@.text == old(self)@.text,
            final(self)@.at >= old(self)@.at,
            step_le(old(self)@, final(self)@),
            r matches Ok(v) ==> spec_hex_step(POut::Done(acc, old(self)@)) == POut::Done(
                v,
                final(self)@,
            ) && v < 16 * acc + 16,
            r matches Err(e) ==> spec_hex_step(POut::Done(acc, old(self)@)) == POut::<u32>::Fail(
                e.message@,
            ),
    {
        self.next(None)?;
        let d = match self.ch {
            Some(h) => hex_digit_of(h),
            None => None,
        };
        match d {
            Some(h) => Ok(16 * acc + h),
            None => Err(self.error("Invalid Unicode escape in string".to_owned())),
        }
    }

    /// The body of a string literal after its opening delimiter,
    /// accumulating into `result`.
    fn string_loop(&mut self, delim: char, result: String) -> (r: Result<String, ParseError>)
        requires
            wf(old(self)@),
            old(self)@.ch is Some,
        ensures
            wf(final(self)@),
            final(self)@.text == old(self)@.text,
            final(self)@.at >= old(self)@.at,
            step_le(old(self)@, final(self)@),
            r is Ok ==> step_lt(old(self)@, final(self)@),
            r matches Ok(v) ==> (forall|f: nat|
                spec_string_loop(old(self)@, delim, result@, f) != POut::<Seq<char>>::Out
                    ==> spec_string_loop(old(self)@, delim, result@, f) == POut::Done(
                    v@,
                    final(self)@,
                )),
            r matches Err(e) ==> (forall|f: nat|
                spec_string_loop(old(self)@, delim, result@, f) != POut::<Seq<char>>::Out
                    ==> spec_string_loop(old(self)@, delim, result@, f) == POut::<Seq<
                    char,
                >>::Fail(e.message@)),
        decreases pmeas(self@), chw(self@), 1int,
    {
        let ghost pre = self@;
        let ghost acc0 = result@;
        let copt = self.next(None)?;
        let ghost s1 = self@;
        match copt {
            None => Err(self.error("Bad string".to_owned())),
            Some(c) => {
                if c == delim {
                    self.next(None)?;
                    proof {
                        assert forall|f: nat|
                            spec_string_loop(pre, delim, acc0, f) != POut::<Seq<char>>::Out
                                implies spec_string_loop(pre, delim, acc0, f) == POut::Done(
                            acc0,
                            self@,
                        ) by {}
                    }
                    Ok(result)
                } else if c == '\\' {
                    self.next(None)?;
                    let ghost s2 = self@;
                    match self.ch {
                        Some('u') => {
                            let a1 = self.hex_step(0)?;
                            let a2 = self.hex_step(a1)?;
                            let a3 = self.hex_step(a2)?;
                            let a4 = self.hex_step(a3)?;
                            let ghost s3 = self@;
                            match char::from_u32(a4) {
                                Some(uc) => {
                                    let mut res2 = result;
                                    res2.push(uc);
                                    let out = self.string_loop(delim, res2);
                                    proof {
                                        assert forall|f: nat|
                                            spec_string_loop(pre, delim, acc0, f) != POut::<Seq<
                                            char,
                                        >>::Out implies spec_string_loop(pre, delim, acc0, f)
                                            == spec_string_loop(
                                            s3,
                                            delim,
                                            acc0.push(uc),
                                            (f - 1) as nat,
                                        ) && spec_string_loop(
                                            s3,
                                            delim,
                                            acc0.push(uc),
                                            (f - 1) as nat,
                                        ) != POut::<Seq<char>>::Out by {}
                                    }
                                    out
                                },
                                None => Err(
                                    self.error("Invalid Unicode codepoint in string".to_owned()),
                                ),
                            }
                        },
                        Some('\r') => {
                            let pk = self.peek();
                            let is_nl = match pk {
                                Some(x) => x == '\n',
                                None => false,
                            };
                            if is_nl {
                                self.next(None)?;
                            }
                            let ghost s3 = self@;
                            let out = self.string_loop(delim, result);
                            proof {
                                assert forall|f: nat|
                                    spec_string_loop(pre, delim, acc0, f) != POut::<Seq<
                                    char,
                                >>::Out implies spec_string_loop(pre, delim, acc0, f)
                                    == spec_string_loop(s3, delim, acc0, (f - 1) as nat)
                                    && spec_string_loop(s3, delim, acc0, (f - 1) as nat) != POut::<
                                    Seq<char>,
                                >::Out by {}
                            }
                            out
                        },
                        Some(esc) => {
                            match escapee_get(esc) {
                                Some(mapped) => {
                                    let mut res2 = result;
                                    res2.append(mapped);
                                    let out = self.string_loop(delim, res2);
                                    proof {
                                        assert forall|f: nat|
                                            spec_string_loop(pre, delim, acc0, f) != POut::<Seq<
                                            char,
                                        >>::Out implies spec_string_loop(pre, delim, acc0, f)
                                            == spec_string_loop(
                                            s2,
                                            delim,
                                            acc0 + mapped@,
                                            (f - 1) as nat,
                                        ) && spec_string_loop(
                                            s2,
                                            delim,
                                            acc0 + mapped@,
                                            (f - 1) as nat,
                                        ) != POut::<Seq<char>>::Out by {}
                                    }
                                    out
                                },
                                None => {
                                    let mut m = "Invalid escape character: ".to_owned();
                                    m.push(esc);
                                    proof {
                                        assert(m@ == "Invalid escape character: "@
                                            + Seq::empty().push(esc));
                                    }
                                    Err(self.error(m))
                                },
                            }
                        },
                        None => Err(
                            self.error("Unexpected end of input in string escape".to_owned()),
                        ),
                    }
                } else if c == '\r' {
                    let out = self.string_loop(delim, result);
                    proof {
                        assert forall|f: nat|
                            spec_string_loop(pre, delim, acc0, f) != POut::<Seq<char>>::Out
                                implies spec_string_loop(pre, delim, acc0, f) == spec_string_loop(
                            s1,
                            delim,
                            acc0,
                            (f - 1) as nat,
                        ) && spec_string_loop(s1, delim, acc0, (f - 1) as nat) != POut::<Seq<
                            char,
                        >>::Out by {}
                    }
                    out
                } else if c == '\n' {
                    let mut res2 = result;
                    res2.push('\n');
                    let out = self.string_loop(delim, res2);
                    proof {
                        assert forall|f: nat|
                            spec_string_loop(pre, delim, acc0, f) != POut::<Seq<char>>::Out
                                implies spec_string_loop(pre, delim, acc0, f) == spec_string_loop(
                            s1,
                            delim,
                            acc0.push('\n'),
                            (f - 1) as nat,
                        ) && spec_string_loop(s1, delim, acc0.push('\n'), (f - 1) as nat)
                            != POut::<Seq<char>>::Out by {}
                    }
                    out
                } else {
                    let mut res2 = result;
                    res2.push(c);
                    let out = self.string_loop(delim, res2);
                    proof {
                        assert forall|f: nat|
                            spec_string_loop(pre, delim, acc0, f) != POut::<Seq<char>>::Out
                                implies spec_string_loop(pre, delim, acc0, f) == spec_string_loop(
                            s1,
                            delim,
                            acc0.push(c),
                            (f - 1) as nat,
                        ) && spec_string_loop(s1, delim, acc0.push(c), (f - 1) as nat) != POut::<
                            Seq<char>,
                        >::Out by {}
                    }
                    out
                }
            },
        }
    }

    /// A string literal; the returned string is its decoded body.
    fn string(&mut self) -> (r: Result<String, ParseError>)
        requires
            wf(old(self)@),
        ensures
            wf(final(self)@),
            final(self)@.text == old(self)@.text,
            final(self)@.at >= old(self)@.at,
            step_le(old(self)@, final(self)@),
            r is Ok ==> step_lt(old(self)@, final(self)@),
            r matches Ok(v) ==> (forall|f: nat|
                spec_string(old(self)@, f) != POut::<Seq<char>>::Out ==> spec_string(
                    old(self)@,
                    f,
                ) == POut::Done(v@, final(self)@)),
            r matches Err(e) ==> (forall|f: nat|
                spec_string(old(self)@, f) != POut::<Seq<char>>::Out ==> spec_string(
                    old(self)@,
                    f,
                ) == POut::<Seq<char>>::Fail(e.message@)),
        decreases pmeas(self@), chw(self@), 5int,
    {
        let ghost pre = self@;
        let delim = match self.ch {
            Some('"') => '"',
            Some('\'') => '\'',
            _ => {
                return Err(self.error("Bad string: expected starting quote".to_owned()));
            },
        };
        let out = self.string_loop(delim, String::new());
        proof {
            assert forall|f: nat|
                spec_string(pre, f) != POut::<Seq<char>>::Out implies spec_string(pre, f)
                == spec_string_loop(pre, delim, Seq::empty(), (f - 1) as nat) && spec_string_loop(
                pre,
                delim,
                Seq::empty(),
                (f - 1) as nat,
            ) != POut::<Seq<char>>::Out by {}
        }
        out
    }
}


/// Whether every character of the string is the zero digit.
pub open spec fn all_zero(s: Seq<char>) -> bool {
    forall|i: int| 0 <= i < s.len() ==> s[i] == '0'
}

/// The exact magnitude of an integer-valued lexeme: the digits before the
/// decimal position `p`, padded with zeros where the position runs past
/// them.
pub open spec fn int_mag(digits: Seq<char>, p: int) -> nat {
    if p >= digits.len() {
        dec_val(digits) * pow10((p - digits.len()) as nat)
    } else if p >= 0 {
        dec_val(digits.subrange(0, p))
    } else {
        0
    }
}

/// The numeric policy, applied to a lexed number: an exact integer in the
/// signed 64-bit range, or (for a plain unsigned literal) in the unsigned
/// range; a magnitude at or beyond ten to the 310th is rejected as
/// non-finite; every other value keeps its lexeme as a floating-point
/// magnitude.
pub open spec fn spec_classify(
    neg: bool,
    hex: bool,
    full: Seq<char>,
    hexd: Seq<char>,
    intd: Seq<char>,
    fracd: Seq<char>,
    has_dot: bool,
    has_exp: bool,
    exp_neg: bool,
    expd: Seq<char>,
) -> Result<SpecNum, Seq<char>> {
    if hex {
        if hexd.len() == 0 || hex_val(hexd) > u64::MAX {
            Err("Bad hex number"@)
        } else {
            let n = hex_val(hexd);
            if !neg {
                Ok(SpecNum::Int(n as int))
            } else if n <= 0x8000000000000000 {
                Ok(SpecNum::Int(-(n as int)))
            } else {
                Ok(SpecNum::Float { negative: neg, hex: true, lexeme: full })
            }
        }
    } else if intd.len() + fracd.len() == 0 || (has_exp && expd.len() == 0) {
        Err("Bad number"@)
    } else {
        let digits = intd + fracd;
        if all_zero(digits) {
            Ok(SpecNum::Int(0))
        } else {
            let ev = dec_val(expd) as int;
            let expval = if exp_neg {
                -ev
            } else {
                ev
            };
            let p = intd.len() + expval;
            let lead = crate::util::text::lead_zeros(digits);
            let si = if p - lead > 0 {
                p - lead
            } else {
                0
            };
            if si >= 310 {
                Err("Bad number"@)
            } else {
                let integer = p >= digits.len() || (p >= 0 && all_zero(
                    digits.subrange(p, digits.len() as int),
                ));
                if !integer {
                    Ok(SpecNum::Float { negative: neg, hex: false, lexeme: full })
                } else {
                    let v = int_mag(digits, p);
                    if neg {
                        if v <= 0x8000000000000000 {
                            Ok(SpecNum::Int(-(v as int)))
                        } else {
                            Ok(SpecNum::Float { negative: neg, hex: false, lexeme: full })
                        }
                    } else if v <= i64::MAX as nat {
                        Ok(SpecNum::Int(v as int))
                    } else if !has_dot && !has_exp && v <= u64::MAX as nat {
                        Ok(SpecNum::Int(v as int))
                    } else {
                        Ok(SpecNum::Float { negative: neg, hex: false, lexeme: full })
                    }
                }
            }
        }
    }
}

/// Evaluates a run of hexadecimal digits exactly, or reports that the value
/// exceeds the unsigned 64-bit range.
fn hex_digits_value(hexd: &Vec<char>) -> (r: Option<u64>)
    requires
        forall|i: int| 0 <= i < hexd@.len() ==> is_hex_digit(#[trigger] hexd@[i]),
    ensures
        match r {
            Some(v) => v == hex_val(hexd@),
            None => hex_val(hexd@) > u64::MAX,
        },
{
    let mut acc: u64 = 0;
    let mut i: usize = 0;
    while i < hexd.len()
        invariant
            i <= hexd@.len(),
            forall|j: int| 0 <= j < hexd@.len() ==> is_hex_digit(#[trigger] hexd@[j]),
            acc == hex_val(hexd@.subrange(0, i as int)),
        decreases hexd@.len() - i,
    {
        let d = match hex_digit_of(hexd[i]) {
            Some(d) => d,
            None => 0,
        };
        if acc > (u64::MAX - d as u64) / 16 {
            proof {
                crate::util::text::lemma_hex_val_snoc(hexd@, i as int);
                lemma_hex_overflow_grows(hexd@, i + 1);
            }
            return None;
        }
        acc = acc * 16 + d as u64;
        proof {
            crate::util::text::lemma_hex_val_snoc(hexd@, i as int);
        }
        i = i + 1;
    }
    proof {
        assert(hexd@.subrange(0, hexd@.len() as int) =~= hexd@);
    }
    Some(acc)
}

/// Once a prefix of a digit string exceeds a bound, the whole string does.
proof fn lemma_hex_overflow_grows(s: Seq<char>, i: int)
    requires
        0 <= i <= s.len(),
        hex_val(s.subrange(0, i)) > u64::MAX,
    ensures
        hex_val(s) > u64::MAX,
    decreases s.len() - i,
{
    if i < s.len() {
        crate::util::text::lemma_hex_val_snoc(s, i);
        lemma_hex_overflow_grows(s, i + 1);
    } else {
        assert(s.subrange(0, s.len() as int) =~= s);
    }
}

proof fn lemma_dec_overflow_grows(s: Seq<char>, i: int, bound: nat)
    requires
        0 <= i <= s.len(),
        dec_val(s.subrange(0, i)) > bound,
    ensures
        dec_val(s) > bound,
    decreases s.len() - i,
{
    if i < s.len() {
        crate::util::text::lemma_dec_val_snoc(s, i);
        lemma_dec_overflow_grows(s, i + 1, bound);
    } else {
        assert(s.subrange(0, s.len() as int) =~= s);
    }
}

fn dec_digit_of(c: char) -> (r: Option<u32>)
    ensures
        r is Some <==> is_dec_digit(c),
        r matches Some(d) ==> d == crate::util::text::dec_digit_val(c) && d < 10,
{
    if c >= '0' && c <= '9' {
        Some(c as u32 - '0' as u32)
    } else {
        None
    }
}

/// Evaluates a run of decimal digits exactly, or reports that the value
/// exceeds the unsigned 64-bit range.
fn dec_digits_value(d: &Vec<char>, upto: usize) -> (r: Option<u64>)
    requires
        upto <= d@.len(),
        forall|i: int| 0 <= i < d@.len() ==> is_dec_digit(#[trigger] d@[i]),
    ensures
        match r {
            Some(v) => v == dec_val(d@.subrange(0, upto as int)),
            None => dec_val(d@.subrange(0, upto as int)) > u64::MAX,
        },
{
    let mut acc: u64 = 0;
    let mut i: usize = 0;
    while i < upto
        invariant
            i <= upto <= d@.len(),
            forall|j: int| 0 <= j < d@.len() ==> is_dec_digit(#[trigger] d@[j]),
            acc == dec_val(d@.subrange(0, i as int)),
        decreases upto - i,
    {
        let dv = match dec_digit_of(d[i]) {
            Some(x) => x,
            None => 0,
        };
        if acc > (u64::MAX - dv as u64) / 10 {
            proof {
                crate::util::text::lemma_dec_val_snoc(d@, i as int);
                assert(dec_val(d@.subrange(0, i + 1)) > u64::MAX);
                lemma_dec_prefix_grows(d@, i + 1, upto as int, u64::MAX as nat);
            }
            return None;
        }
        acc = acc * 10 + dv as u64;
        proof {
            crate::util::text::lemma_dec_val_snoc(d@, i as int);
        }
        i = i + 1;
    }
    Some(acc)
}

proof fn lemma_dec_prefix_grows(s: Seq<char>, i: int, j: int, bound: nat)
    requires
        0 <= i <= j <= s.len(),
        dec_val(s.subrange(0, i)) > bound,
    ensures
        dec_val(s.subrange(0, j)) > bound,
    decreases j - i,
{
    if i < j {
        crate::util::text::lemma_dec_val_snoc(s, i);
        lemma_dec_prefix_grows(s, i + 1, j, bound);
    }
}


proof fn lemma_pow10_pos(k: nat)
    ensures
        pow10(k) >= 1,
    decreases k,
{
    if k > 0 {
        lemma_pow10_pos((k - 1) as nat);
    }
}

/// Evaluates a run of decimal digits exactly up to a generous bound, or
/// reports that the value exceeds it.
fn dec_digits_value_bounded(d: &Vec<char>) -> (r: Option<u128>)
    requires
        forall|i: int| 0 <= i < d@.len() ==> is_dec_digit(#[trigger] d@[i]),
    ensures
        match r {
            Some(v) => v == dec_val(d@) && v <= 0x100000000000000000000,
            None => dec_val(d@) > 0x100000000000000000000,
        },
{
    let mut acc: u128 = 0;
    let mut i: usize = 0;
    while i < d.len()
        invariant
            i <= d@.len(),
            forall|j: int| 0 <= j < d@.len() ==> is_dec_digit(#[trigger] d@[j]),
            acc == dec_val(d@.subrange(0, i as int)),
            acc <= 0x100000000000000000000,
        decreases d@.len() - i,
    {
        let dv = match dec_digit_of(d[i]) {
            Some(x) => x,
            None => 0,
        };
        acc = acc * 10 + dv as u128;
        proof {
            crate::util::text::lemma_dec_val_snoc(d@, i as int);
        }
        i = i + 1;
        if acc > 0x100000000000000000000 {
            proof {
                lemma_dec_prefix_grows(d@, i as int, d@.len() as int, 0x100000000000000000000nat);
                assert(d@.subrange(0, d@.len() as int) =~= d@);
            }
            return None;
        }
    }
    proof {
        assert(d@.subrange(0, d@.len() as int) =~= d@);
    }
    Some(acc)
}


/// The exact integer magnitude of an integer-valued lexeme, or a report
/// that it exceeds the unsigned 64-bit range.
fn int_mag_value(digits: &Vec<char>, p: i128) -> (r: Option<u64>)
    requires
        0 <= p,
        forall|i: int| 0 <= i < digits@.len() ==> is_dec_digit(#[trigger] digits@[i]),
        p <= digits@.len() + 310,
    ensures
        match r {
            Some(v) => v == int_mag(digits@, p as int),
            None => int_mag(digits@, p as int) > u64::MAX,
        },
{
    let upto: usize = if p >= digits.len() as i128 {
        digits.len()
    } else {
        p as usize
    };
    let ghost im = int_mag(digits@, p as int);
    match dec_digits_value(digits, upto) {
        None => {
            proof {
                if p >= digits@.len() {
                    assert(digits@.subrange(0, digits@.len() as int) =~= digits@);
                    lemma_pow10_pos((p - digits@.len()) as nat);
                    assert(int_mag(digits@, p as int) >= dec_val(digits@) * 1) by (nonlinear_arith)
                        requires
                            int_mag(digits@, p as int) == dec_val(digits@) * pow10(
                                (p - digits@.len()) as nat,
                            ),
                            pow10((p - digits@.len()) as nat) >= 1,
                    ;
                }
            }
            None
        },
        Some(pv) => {
            let mut v: u64 = pv;
            let mut kk: i128 = upto as i128;
            proof {
                if p >= digits@.len() {
                    assert(digits@.subrange(0, digits@.len() as int) =~= digits@);
                    assert(v == dec_val(digits@));
                    assert(v * pow10((p - kk) as nat) == im);
                } else {
                    assert(kk == p);
                    assert(pow10(0) == 1);
                    assert(v * pow10((p - kk) as nat) == v * 1);
                    assert(v == im);
                }
            }
            let mut overflow = false;
            while kk < p
                invariant
                    !overflow ==> v * pow10((p - kk) as nat) == im,
                    overflow ==> im > u64::MAX,
                    kk <= p,
                decreases p - kk,
            {
                if v > u64::MAX / 10 {
                    proof {
                        lemma_pow10_pos((p - kk - 1) as nat);
                        assert((v * 10) * pow10((p - kk - 1) as nat) >= v * 10) by (nonlinear_arith)
                            requires
                                pow10((p - kk - 1) as nat) >= 1,
                                v >= 0,
                        ;
                        assert(v * pow10((p - kk) as nat) == (v * 10) * pow10((p - kk - 1) as nat))
                            by (nonlinear_arith)
                            requires
                                p - kk >= 1,
                                pow10((p - kk) as nat) == 10 * pow10((p - kk - 1) as nat),
                        ;
                    }
                    overflow = true;
                    v = 0;
                    kk = p;
                } else {
                    proof {
                        assert((v * 10) * pow10((p - kk - 1) as nat) == v * pow10((p - kk) as nat))
                            by (nonlinear_arith)
                            requires
                                p - kk >= 1,
                                pow10((p - kk) as nat) == 10 * pow10((p - kk - 1) as nat),
                        ;
                    }
                    v = v * 10;
                    kk = kk + 1;
                }
            }
            if overflow {
                None
            } else {
                proof {
                    assert(kk == p);
                    assert(v * pow10((p - kk) as nat) == im);
                    assert(pow10(0) == 1);
                    assert(v * pow10(0) == v);
                }
                Some(v)
            }
        },
    }
}

/// Applies the numeric policy to a lexed number.
#[verifier::rlimit(100)]
fn classify(
    neg: bool,
    hex: bool,
    full: &Vec<char>,
    hexd: &Vec<char>,
    intd: &Vec<char>,
    fracd: &Vec<char>,
    has_dot: bool,
    has_exp: bool,
    exp_neg: bool,
    expd: &Vec<char>,
) -> (r: Result<Num, String>)
    requires
        forall|i: int| 0 <= i < hexd@.len() ==> is_hex_digit(#[trigger] hexd@[i]),
        forall|i: int| 0 <= i < intd@.len() ==> is_dec_digit(#[trigger] intd@[i]),
        forall|i: int| 0 <= i < fracd@.len() ==> is_dec_digit(#[trigger] fracd@[i]),
        forall|i: int| 0 <= i < expd@.len() ==> is_dec_digit(#[trigger] expd@[i]),
    ensures
        match r {
            Ok(n) => spec_classify(
                neg,
                hex,
                full@,
                hexd@,
                intd@,
                fracd@,
                has_dot,
                has_exp,
                exp_neg,
                expd@,
            ) == Ok::<SpecNum, Seq<char>>(n@),
            Err(m) => spec_classify(
                neg,
                hex,
                full@,
                hexd@,
                intd@,
                fracd@,
                has_dot,
                has_exp,
                exp_neg,
                expd@,
            ) == Err::<SpecNum, Seq<char>>(m@),
        },
{
    if hex {
        if hexd.len() == 0 {
            return Err("Bad hex number".to_owned());
        }
        match hex_digits_value(hexd) {
            None => Err("Bad hex number".to_owned()),
            Some(n) => {
                if !neg {
                    if n <= 0x7fffffffffffffff {
                        Ok(Num::Int(n as i64))
                    } else {
                        Ok(Num::UInt(n))
                    }
                } else if n <= 0x8000000000000000 {
                    let v: i64 = if n == 0x8000000000000000 {
                        i64::MIN
                    } else {
                        -(n as i64)
                    };
                    Ok(Num::Int(v))
                } else {
                    let lexeme = crate::util::text::chars_to_string(full, 0, full.len());
                    proof {
                        assert(full@.subrange(0, full@.len() as int) =~= full@);
                    }
                    Ok(Num::Float(FloatLex { negative: neg, hex: true, lexeme }))
                }
            },
        }
    } else {
        classify_dec(neg, full, intd, fracd, has_dot, has_exp, exp_neg, expd)
    }
}

/// The decimal side of the numeric policy.
#[verifier::rlimit(100)]
#[verifier::spinoff_prover]
fn classify_dec(
    neg: bool,
    full: &Vec<char>,
    intd: &Vec<char>,
    fracd: &Vec<char>,
    has_dot: bool,
    has_exp: bool,
    exp_neg: bool,
    expd: &Vec<char>,
) -> (r: Result<Num, String>)
    requires
        forall|i: int| 0 <= i < intd@.len() ==> is_dec_digit(#[trigger] intd@[i]),
        forall|i: int| 0 <= i < fracd@.len() ==> is_dec_digit(#[trigger] fracd@[i]),
        forall|i: int| 0 <= i < expd@.len() ==> is_dec_digit(#[trigger] expd@[i]),
    ensures
        match r {
            Ok(n) => spec_classify(
                neg,
                false,
                full@,
                Seq::empty(),
                intd@,
                fracd@,
                has_dot,
                has_exp,
                exp_neg,
                expd@,
            ) == Ok::<SpecNum, Seq<char>>(n@),
            Err(m) => spec_classify(
                neg,
                false,
                full@,
                Seq::empty(),
                intd@,
                fracd@,
                has_dot,
                has_exp,
                exp_neg,
                expd@,
            ) == Err::<SpecNum, Seq<char>>(m@),
        },
{
    if intd.len() == 0 && fracd.len() == 0 {
        Err("Bad number".to_owned())
    } else if has_exp && expd.len() == 0 {
        Err("Bad number".to_owned())
    } else {
        let ghost sc = spec_classify(
            neg,
            false,
            full@,
            Seq::empty(),
            intd@,
            fracd@,
            has_dot,
            has_exp,
            exp_neg,
            expd@,
        );
        let mut digits: Vec<char> = Vec::new();
        let mut i: usize = 0;
        while i < intd.len()
            invariant
                i <= intd@.len(),
                digits@ == intd@.subrange(0, i as int),
            decreases intd@.len() - i,
        {
            digits.push(intd[i]);
            proof {
                assert(digits@ =~= intd@.subrange(0, i + 1));
            }
            i = i + 1;
        }
        let mut j: usize = 0;
        while j < fracd.len()
            invariant
                j <= fracd@.len(),
                digits@ == intd@.subrange(0, intd@.len() as int) + fracd@.subrange(0, j as int),
            decreases fracd@.len() - j,
        {
            digits.push(fracd[j]);
            proof {
                assert(digits@ =~= intd@.subrange(0, intd@.len() as int) + fracd@.subrange(
                    0,
                    j + 1,
                ));
            }
            j = j + 1;
        }
        proof {
            assert(intd@.subrange(0, intd@.len() as int) =~= intd@);
            assert(fracd@.subrange(0, fracd@.len() as int) =~= fracd@);
            assert(digits@ =~= intd@ + fracd@);
        }
        let mut azero = true;
        let mut k: usize = 0;
        while k < digits.len()
            invariant
                k <= digits@.len(),
                azero == (forall|q: int| 0 <= q < k ==> digits@[q] == '0'),
            decreases digits@.len() - k,
        {
            if digits[k] != '0' {
                azero = false;
            }
            k = k + 1;
        }
        if azero {
            return Ok(Num::Int(0));
        }
        let mut lead: usize = 0;
        while lead < digits.len() && digits[lead] == '0'
            invariant
                lead <= digits@.len(),
                forall|q: int| 0 <= q < lead ==> digits@[q] == '0',
            decreases digits@.len() - lead,
        {
            lead = lead + 1;
        }
        proof {
            crate::util::text::lemma_lead_zeros(digits@);
            assert(lead as int == crate::util::text::lead_zeros(digits@));
        }
        let float_lex = Num::Float(
            FloatLex {
                negative: neg,
                hex: false,
                lexeme: crate::util::text::chars_to_string(full, 0, full.len()),
            },
        );
        proof {
            assert(full@.subrange(0, full@.len() as int) =~= full@);
        }
        match dec_digits_value_bounded(expd) {
            None => {
                // The exponent alone puts the magnitude far past any
                // representable integer.
                if exp_neg {
                    proof {
                        assert(sc == Ok::<SpecNum, Seq<char>>(
                            SpecNum::Float { negative: neg, hex: false, lexeme: full@ },
                        ));
                    }
                    Ok(float_lex)
                } else {
                    proof {
                        assert(sc == Err::<SpecNum, Seq<char>>("Bad number"@));
                    }
                    Err("Bad number".to_owned())
                }
            },
            Some(ev) => {
                let p: i128 = if exp_neg {
                    intd.len() as i128 - ev as i128
                } else {
                    intd.len() as i128 + ev as i128
                };
                let si: i128 = if p - lead as i128 > 0 {
                    p - lead as i128
                } else {
                    0
                };
                if si >= 310 {
                    return Err("Bad number".to_owned());
                }
                let integer: bool = if p >= digits.len() as i128 {
                    true
                } else if p < 0 {
                    false
                } else {
                    let pu = p as usize;
                    let mut q = pu;
                    let mut tail_zero = true;
                    while q < digits.len()
                        invariant
                            pu <= q <= digits@.len(),
                            tail_zero == (forall|w: int| pu <= w < q ==> digits@[w] == '0'),
                        decreases digits@.len() - q,
                    {
                        if digits[q] != '0' {
                            tail_zero = false;
                        }
                        q = q + 1;
                    }
                    proof {
                        let sub = digits@.subrange(p as int, digits@.len() as int);
                        if tail_zero {
                            assert forall|w: int| 0 <= w < sub.len() implies sub[w] == '0' by {
                                assert(digits@[p + w] == '0');
                            }
                            assert(all_zero(sub));
                        } else {
                            assert(!(forall|w: int|
                                pu <= w < digits@.len() ==> digits@[w] == '0'));
                            let w = choose|w: int|
                                pu <= w < digits@.len() && digits@[w] != '0';
                            assert(sub[w - p] != '0');
                            assert(!all_zero(sub));
                        }
                    }
                    tail_zero
                };
                if !integer {
                    return Ok(float_lex);
                }
                match int_mag_value(&digits, p) {
                    None => Ok(float_lex),
                    Some(v) => {
                        if neg {
                            if v <= 0x8000000000000000 {
                                let iv: i64 = if v == 0x8000000000000000 {
                                    i64::MIN
                                } else {
                                    -(v as i64)
                                };
                                Ok(Num::Int(iv))
                            } else {
                                Ok(float_lex)
                            }
                        } else if v <= 0x7fffffffffffffff {
                            Ok(Num::Int(v as i64))
                        } else if !has_dot && !has_exp {
                            Ok(Num::UInt(v))
                        } else {
                            Ok(float_lex)
                        }
                    },
                }
            },
        }
    }
}

/// A run of decimal digits, appended to `acc`.
pub open spec fn spec_dec_run(s: PSt, acc: Seq<char>, f: nat) -> POut<Seq<char>>
    decreases f,
{
    if f == 0 {
        POut::Out
    } else if s.ch matches Some(c) && is_dec_digit(s.ch->0) {
        match spec_next(s, None) {
            POut::Done(_, s1) => spec_dec_run(s1, acc.push(s.ch->0), (f - 1) as nat),
            POut::Fail(m) => POut::Fail(m),
            POut::Out => POut::Out,
        }
    } else {
        POut::Done(acc, s)
    }
}

/// A run of hexadecimal digits, appended to `acc`.
pub open spec fn spec_hex_run(s: PSt, acc: Seq<char>, f: nat) -> POut<Seq<char>>
    decreases f,
{
    if f == 0 {
        POut::Out
    } else if s.ch matches Some(c) && is_hex_digit(s.ch->0) {
        match spec_next(s, None) {
            POut::Done(_, s1) => spec_hex_run(s1, acc.push(s.ch->0), (f - 1) as nat),
            POut::Fail(m) => POut::Fail(m),
            POut::Out => POut::Out,
        }
    } else {
        POut::Done(acc, s)
    }
}

/// The verdict of the numeric policy at the end of a number's lexeme.
pub open spec fn spec_num_finish(
    s: PSt,
    neg: bool,
    hex: bool,
    full: Seq<char>,
    hexd: Seq<char>,
    intd: Seq<char>,
    fracd: Seq<char>,
    has_dot: bool,
    has_exp: bool,
    exp_neg: bool,
    expd: Seq<char>,
) -> POut<SpecNum> {
    match spec_classify(neg, hex, full, hexd, intd, fracd, has_dot, has_exp, exp_neg, expd) {
        Ok(n) => POut::Done(n, s),
        Err(m) => POut::Fail(spec_error(s, m)),
    }
}

/// The exponent part of a decimal number, then the policy verdict.
pub open spec fn spec_exp_tail(
    s: PSt,
    neg: bool,
    full: Seq<char>,
    intd: Seq<char>,
    fracd: Seq<char>,
    has_dot: bool,
    f: nat,
) -> POut<SpecNum>
    decreases f,
{
    if f == 0 {
        POut::Out
    } else if s.ch == Some('e') || s.ch == Some('E') {
        let full1 = full.push(s.ch->0);
        match spec_next(s, None) {
            POut::Done(_, s1) => if s1.ch == Some('-') || s1.ch == Some('+') {
                let en = s1.ch == Some('-');
                let full2 = full1.push(s1.ch->0);
                match spec_next(s1, None) {
                    POut::Done(_, s2) => match spec_dec_run(s2, Seq::empty(), (f - 1) as nat) {
                        POut::Done(expd, s3) => spec_num_finish(
                            s3,
                            neg,
                            false,
                            full2 + expd,
                            Seq::empty(),
                            intd,
                            fracd,
                            has_dot,
                            true,
                            en,
                            expd,
                        ),
                        POut::Fail(m) => POut::Fail(m),
                        POut::Out => POut::Out,
                    },
                    POut::Fail(m) => POut::Fail(m),
                    POut::Out => POut::Out,
                }
            } else {
                match spec_dec_run(s1, Seq::empty(), (f - 1) as nat) {
                    POut::Done(expd, s3) => spec_num_finish(
                        s3,
                        neg,
                        false,
                        full1 + expd,
                        Seq::empty(),
                        intd,
                        fracd,
                        has_dot,
                        true,
                        false,
                        expd,
                    ),
                    POut::Fail(m) => POut::Fail(m),
                    POut::Out => POut::Out,
                }
            },
            POut::Fail(m) => POut::Fail(m),
            POut::Out => POut::Out,
        }
    } else {
        spec_num_finish(
            s,
            neg,
            false,
            full,
            Seq::empty(),
            intd,
            fracd,
            has_dot,
            false,
            false,
            Seq::empty(),
        )
    }
}

/// The integer and fraction parts of a decimal number.
pub open spec fn spec_dec_tail(s: PSt, neg: bool, intd0: Seq<char>, f: nat) -> POut<SpecNum>
    decreases f,
{
    if f == 0 {
        POut::Out
    } else {
        match spec_dec_run(s, intd0, (f - 1) as nat) {
            POut::Done(intd, s1) => if s1.ch == Some('.') {
                match spec_next(s1, None) {
                    POut::Done(_, s2) => match spec_dec_run(s2, Seq::empty(), (f - 1) as nat) {
                        POut::Done(fracd, s3) => spec_exp_tail(
                            s3,
                            neg,
                            intd + seq!['.'] + fracd,
                            intd,
                            fracd,
                            true,
                            (f - 1) as nat,
                        ),
                        POut::Fail(m) => POut::Fail(m),
                        POut::Out => POut::Out,
                    },
                    POut::Fail(m) => POut::Fail(m),
                    POut::Out => POut::Out,
                }
            } else {
                spec_exp_tail(s1, neg, intd, intd, Seq::empty(), false, (f - 1) as nat)
            },
            POut::Fail(m) => POut::Fail(m),
            POut::Out => POut::Out,
        }
    }
}

/// The digits of a hexadecimal literal after its `0x` prefix, then the
/// policy verdict.
pub open spec fn spec_hex_tail(s: PSt, neg: bool, xc: char, f: nat) -> POut<SpecNum>
    decreases f,
{
    if f == 0 {
        POut::Out
    } else {
        match spec_hex_run(s, Seq::empty(), (f - 1) as nat) {
            POut::Done(hexd, s4) => spec_num_finish(
                s4,
                neg,
                true,
                seq!['0', xc] + hexd,
                hexd,
                Seq::empty(),
                Seq::empty(),
                false,
                false,
                false,
                Seq::empty(),
            ),
            POut::Fail(m) => POut::Fail(m),
            POut::Out => POut::Out,
        }
    }
}

/// A number after its optional sign: the dedicated infinity and not-a-number
/// word forms, a hexadecimal literal, or a decimal literal; a zero followed
/// by another digit is rejected as an octal literal.
pub open spec fn spec_num_after_sign(s: PSt, neg: bool, f: nat) -> POut<SpecNum>
    decreases f,
{
    if f == 0 {
        POut::Out
    } else if s.ch == Some('I') {
        match spec_word(s) {
            POut::Done(v, s2) => if v == SpecValue::Str("Infinity"@) {
                POut::Done(SpecNum::Inf(neg), s2)
            } else {
                POut::Fail(spec_error(s2, "Unexpected word for number"@))
            },
            POut::Fail(m) => POut::Fail(m),
            POut::Out => POut::Out,
        }
    } else if s.ch == Some('N') {
        match spec_word(s) {
            POut::Done(v, s2) => if v == SpecValue::Str("NaN"@) {
                POut::Done(SpecNum::NaN, s2)
            } else {
                POut::Fail(spec_error(s2, "expected word to be NaN"@))
            },
            POut::Fail(m) => POut::Fail(m),
            POut::Out => POut::Out,
        }
    } else if s.ch == Some('0') {
        match spec_next(s, None) {
            POut::Done(_, s2) => if s2.ch == Some('x') || s2.ch == Some('X') {
                let xc = s2.ch->0;
                match spec_next(s2, None) {
                    POut::Done(_, s3) => spec_hex_tail(s3, neg, xc, (f - 1) as nat),
                    POut::Fail(m) => POut::Fail(m),
                    POut::Out => POut::Out,
                }
            } else if s2.ch matches Some(d) && is_dec_digit(s2.ch->0) {
                POut::Fail(spec_error(s2, "Octal literal"@))
            } else {
                spec_dec_tail(s2, neg, seq!['0'], (f - 1) as nat)
            },
            POut::Fail(m) => POut::Fail(m),
            POut::Out => POut::Out,
        }
    } else {
        spec_dec_tail(s, neg, Seq::empty(), (f - 1) as nat)
    }
}

/// A number: an optional sign, then one of the numeric forms.
pub open spec fn spec_number(s: PSt, f: nat) -> POut<SpecNum>
    decreases f,
{
    if f == 0 {
        POut::Out
    } else if s.ch == Some('-') || s.ch == Some('+') {
        let neg = s.ch == Some('-');
        match spec_next(s, s.ch) {
            POut::Done(_, s1) => spec_num_after_sign(s1, neg, (f - 1) as nat),
            POut::Fail(m) => POut::Fail(m),
            POut::Out => POut::Out,
        }
    } else {
        spec_num_after_sign(s, false, (f - 1) as nat)
    }
}


/// Appends all characters of `src` to `dst`.
fn push_all(dst: &mut Vec<char>, src: &Vec<char>)
    ensures
        final(dst)@ == old(dst)@ + src@,
{
    let mut i: usize = 0;
    while i < src.len()
        invariant
            i <= src@.len(),
            dst@ == old(dst)@ + src@.subrange(0, i as int),
        decreases src@.len() - i,
    {
        dst.push(src[i]);
        proof {
            assert(dst@ =~= old(dst)@ + src@.subrange(0, i + 1));
        }
        i = i + 1;
    }
    proof {
        assert(old(dst)@ + src@.subrange(0, src@.len() as int) =~= old(dst)@ + src@);
    }
}

impl Parser {
    /// A run of decimal digits.
    fn dec_run(&mut self, acc: Vec<char>) -> (r: Result<Vec<char>, ParseError>)
        requires
            wf(old(self)@),
        ensures
            wf(final(self)@),
            final(self)@.text == old(self)@.text,
            final(self)@.at >= old(self)@.at,
            step_le(old(self)@, final(self)@),
            r matches Ok(v) ==> (forall|f: nat|
                spec_dec_run(old(self)@, acc@, f) != POut::<Seq<char>>::Out ==> spec_dec_run(
                    old(self)@,
                    acc@,
                    f,
                ) == POut::Done(v@, final(self)@)),
            r matches Err(e) ==> (forall|f: nat|
                spec_dec_run(old(self)@, acc@, f) != POut::<Seq<char>>::Out ==> spec_dec_run(
                    old(self)@,
                    acc@,
                    f,
                ) == POut::<Seq<char>>::Fail(e.message@)),
            r matches Ok(v) ==> v@.len() >= acc@.len() && (forall|i: int|
                0 <= i < acc@.len() ==> v@[i] == acc@[i]) && (forall|i: int|
                acc@.len() <= i < v@.len() ==> is_dec_digit(#[trigger] v@[i])),
            r matches Ok(v) ==> (v@.len() > acc@.len() ==> step_lt(old(self)@, final(self)@)) && (
            v@.len() == acc@.len() ==> final(self)@ == old(self)@),
        decreases pmeas(self@), chw(self@), 1int,
    {
        let ghost pre = self@;
        let ghost a0 = acc@;
        let isdig = match self.ch {
            Some(c) => c >= '0' && c <= '9',
            None => false,
        };
        if isdig {
            let c = match self.ch {
                Some(c) => c,
                None => ' ',
            };
            let mut acc2 = acc;
            acc2.push(c);
            self.next(None)?;
            let ghost s1 = self@;
            let res = self.dec_run(acc2);
            proof {
                assert forall|f: nat|
                    spec_dec_run(pre, a0, f) != POut::<Seq<char>>::Out implies spec_dec_run(
                    pre,
                    a0,
                    f,
                ) == spec_dec_run(s1, a0.push(c), (f - 1) as nat) && spec_dec_run(
                    s1,
                    a0.push(c),
                    (f - 1) as nat,
                ) != POut::<Seq<char>>::Out by {}
            }
            res
        } else {
            proof {
                assert forall|f: nat|
                    spec_dec_run(pre, a0, f) != POut::<Seq<char>>::Out implies spec_dec_run(
                    pre,
                    a0,
                    f,
                ) == POut::Done(a0, self@) by {}
            }
            Ok(acc)
        }
    }

    /// A run of hexadecimal digits.
    fn hex_run(&mut self, acc: Vec<char>) -> (r: Result<Vec<char>, ParseError>)
        requires
            wf(old(self)@),
        ensures
            wf(final(self)@),
            final(self)@.text == old(self)@.text,
            final(self)@.at >= old(self)@.at,
            step_le(old(self)@, final(self)@),
            r matches Ok(v) ==> (forall|f: nat|
                spec_hex_run(old(self)@, acc@, f) != POut::<Seq<char>>::Out ==> spec_hex_run(
                    old(self)@,
                    acc@,
                    f,
                ) == POut::Done(v@, final(self)@)),
            r matches Err(e) ==> (forall|f: nat|
                spec_hex_run(old(self)@, acc@, f) != POut::<Seq<char>>::Out ==> spec_hex_run(
                    old(self)@,
                    acc@,
                    f,
                ) == POut::<Seq<char>>::Fail(e.message@)),
            r matches Ok(v) ==> v@.len() >= acc@.len() && (forall|i: int|
                0 <= i < acc@.len() ==> v@[i] == acc@[i]) && (forall|i: int|
                acc@.len() <= i < v@.len() ==> is_hex_digit(#[trigger] v@[i])),
        decreases pmeas(self@), chw(self@), 1int,
    {
        let ghost pre = self@;
        let ghost a0 = acc@;
        let isdig = match self.ch {
            Some(c) => (c >= '0' && c <= '9') || (c >= 'a' && c <= 'f') || (c >= 'A' && c <= 'F'),
            None => false,
        };
        if isdig {
            let c = match self.ch {
                Some(c) => c,
                None => ' ',
            };
            let mut acc2 = acc;
            acc2.push(c);
            self.next(None)?;
            let ghost s1 = self@;
            let res = self.hex_run(acc2);
            proof {
                assert forall|f: nat|
                    spec_hex_run(pre, a0, f) != POut::<Seq<char>>::Out implies spec_hex_run(
                    pre,
                    a0,
                    f,
                ) == spec_hex_run(s1, a0.push(c), (f - 1) as nat) && spec_hex_run(
                    s1,
                    a0.push(c),
                    (f - 1) as nat,
                ) != POut::<Seq<char>>::Out by {}
            }
            res
        } else {
            proof {
                assert forall|f: nat|
                    spec_hex_run(pre, a0, f) != POut::<Seq<char>>::Out implies spec_hex_run(
                    pre,
                    a0,
                    f,
                ) == POut::Done(a0, self@) by {}
            }
            Ok(acc)
        }
    }

    /// The exponent part of a decimal number, then the policy verdict.
    fn exp_tail(
        &mut self,
        neg: bool,
        full: Vec<char>,
        intd: Vec<char>,
        fracd: Vec<char>,
        has_dot: bool,
    ) -> (r: Result<Num, ParseError>)
        requires
            wf(old(self)@),
            forall|i: int| 0 <= i < intd@.len() ==> is_dec_digit(#[trigger] intd@[i]),
            forall|i: int| 0 <= i < fracd@.len() ==> is_dec_digit(#[trigger] fracd@[i]),
        ensures
            wf(final(self)@),
            final(self)@.text == old(self)@.text,
            final(self)@.at >= old(self)@.at,
            step_le(old(self)@, final(self)@),
            r matches Ok(v) ==> (forall|f: nat|
                spec_exp_tail(old(self)@, neg, full@, intd@, fracd@, has_dot, f) != POut::<
                    SpecNum,
                >::Out ==> spec_exp_tail(old(self)@, neg, full@, intd@, fracd@, has_dot, f)
                    == POut::Done(v@, final(self)@)),
            r matches Err(e) ==> (forall|f: nat|
                spec_exp_tail(old(self)@, neg, full@, intd@, fracd@, has_dot, f) != POut::<
                    SpecNum,
                >::Out ==> spec_exp_tail(old(self)@, neg, full@, intd@, fracd@, has_dot, f)
                    == POut::<SpecNum>::Fail(e.message@)),
            r is Ok ==> !(intd@.len() == 0 && fracd@.len() == 0),
        decreases pmeas(self@), chw(self@), 3int,
    {
        let ghost pre = self@;
        let empty: Vec<char> = Vec::new();
        let echar = if self.ch_is('e') {
            Some('e')
        } else if self.ch_is('E') {
            Some('E')
        } else {
            None
        };
        match echar {
            Some(ec) => {
                let mut full2 = full;
                full2.push(ec);
                self.next(None)?;
                let ghost s1 = self@;
                let sgn = if self.ch_is('-') {
                    Some('-')
                } else if self.ch_is('+') {
                    Some('+')
                } else {
                    None
                };
                let mut en = false;
                if let Some(sc) = sgn {
                    if sc == '-' {
                        en = true;
                    }
                    full2.push(sc);
                    self.next(None)?;
                }
                let ghost s2 = self@;
                let expd = match self.dec_run(Vec::new()) {
                    Ok(v) => v,
                    Err(e) => {
                        proof {
                            assert forall|f: nat|
                                spec_exp_tail(pre, neg, full@, intd@, fracd@, has_dot, f)
                                    != POut::<SpecNum>::Out implies spec_exp_tail(
                                pre,
                                neg,
                                full@,
                                intd@,
                                fracd@,
                                has_dot,
                                f,
                            ) == POut::<SpecNum>::Fail(e.message@) by {
                                assert(spec_dec_run(s2, Seq::empty(), (f - 1) as nat) != POut::<
                                    Seq<char>,
                                >::Out);
                            }
                        }
                        return Err(e);
                    },
                };
                let ghost s3 = self@;
                push_all(&mut full2, &expd);
                match classify(neg, false, &full2, &empty, &intd, &fracd, has_dot, true, en, &expd)
                {
                    Ok(n) => {
                        proof {
                            assert forall|f: nat|
                                spec_exp_tail(pre, neg, full@, intd@, fracd@, has_dot, f)
                                    != POut::<SpecNum>::Out implies spec_exp_tail(
                                pre,
                                neg,
                                full@,
                                intd@,
                                fracd@,
                                has_dot,
                                f,
                            ) == POut::Done(n@, self@) by {
                                assert(spec_dec_run(s2, Seq::empty(), (f - 1) as nat) != POut::<
                                    Seq<char>,
                                >::Out);
                            }
                        }
                        Ok(n)
                    },
                    Err(m) => {
                        let err = self.error(m);
                        proof {
                            assert forall|f: nat|
                                spec_exp_tail(pre, neg, full@, intd@, fracd@, has_dot, f)
                                    != POut::<SpecNum>::Out implies spec_exp_tail(
                                pre,
                                neg,
                                full@,
                                intd@,
                                fracd@,
                                has_dot,
                                f,
                            ) == POut::<SpecNum>::Fail(err.message@) by {
                                assert(spec_dec_run(s2, Seq::empty(), (f - 1) as nat) != POut::<
                                    Seq<char>,
                                >::Out);
                            }
                        }
                        Err(err)
                    },
                }
            },
            None => {
                match classify(
                    neg,
                    false,
                    &full,
                    &empty,
                    &intd,
                    &fracd,
                    has_dot,
                    false,
                    false,
                    &empty,
                ) {
                    Ok(n) => {
                        proof {
                            assert(empty@ =~= Seq::<char>::empty());
                        }
                        Ok(n)
                    },
                    Err(m) => {
                        let err = self.error(m);
                        proof {
                            assert(empty@ =~= Seq::<char>::empty());
                        }
                        Err(err)
                    },
                }
            },
        }
    }

    /// The integer and fraction parts of a decimal number.
    #[verifier::rlimit(100)]
    #[verifier::spinoff_prover]
    fn dec_tail(&mut self, neg: bool, intd0: Vec<char>) -> (r: Result<Num, ParseError>)
        requires
            wf(old(self)@),
            forall|i: int| 0 <= i < intd0@.len() ==> is_dec_digit(#[trigger] intd0@[i]),
        ensures
            wf(final(self)@),
            final(self)@.text == old(self)@.text,
            final(self)@.at >= old(self)@.at,
            step_le(old(self)@, final(self)@),
            r is Ok && intd0@.len() == 0 ==> step_lt(old(self)@, final(self)@),
            r matches Ok(v) ==> (forall|f: nat|
                spec_dec_tail(old(self)@, neg, intd0@, f) != POut::<SpecNum>::Out
                    ==> spec_dec_tail(old(self)@, neg, intd0@, f) == POut::Done(v@, final(self)@)),
            r matches Err(e) ==> (forall|f: nat|
                spec_dec_tail(old(self)@, neg, intd0@, f) != POut::<SpecNum>::Out
                    ==> spec_dec_tail(old(self)@, neg, intd0@, f) == POut::<SpecNum>::Fail(
                    e.message@,
                )),
        decreases pmeas(self@), chw(self@), 4int,
    {
        let ghost pre = self@;
        let ghost i0 = intd0@;
        let intd = match self.dec_run(intd0) {
            Ok(v) => v,
            Err(e) => {
                proof {
                    assert forall|f: nat|
                        spec_dec_tail(pre, neg, i0, f) != POut::<SpecNum>::Out
                            implies spec_dec_tail(pre, neg, i0, f) == POut::<SpecNum>::Fail(
                        e.message@,
                    ) by {
                        assert(spec_dec_run(pre, i0, (f - 1) as nat) != POut::<Seq<char>>::Out);
                    }
                }
                return Err(e);
            },
        };
        let ghost s1 = self@;
        if self.ch_is('.') {
            self.next(None)?;
            let ghost s2 = self@;
            let fracd = match self.dec_run(Vec::new()) {
                Ok(v) => v,
                Err(e) => {
                    proof {
                        assert forall|f: nat|
                            spec_dec_tail(pre, neg, i0, f) != POut::<SpecNum>::Out
                                implies spec_dec_tail(pre, neg, i0, f) == POut::<SpecNum>::Fail(
                            e.message@,
                        ) by {
                            assert(spec_dec_run(pre, i0, (f - 1) as nat) != POut::<Seq<
                                char,
                            >>::Out);
                            assert(spec_dec_run(s2, Seq::empty(), (f - 1) as nat) != POut::<Seq<
                                char,
                            >>::Out);
                        }
                    }
                    return Err(e);
                },
            };
            let ghost s3 = self@;
            let mut full: Vec<char> = Vec::new();
            push_all(&mut full, &intd);
            full.push('.');
            push_all(&mut full, &fracd);
            proof {
                assert(full@ =~= intd@ + seq!['.'] + fracd@);
            }
            let res = self.exp_tail(neg, full, intd, fracd, true);
            proof {
                assert forall|f: nat|
                    spec_dec_tail(pre, neg, i0, f) != POut::<SpecNum>::Out implies spec_dec_tail(
                    pre,
                    neg,
                    i0,
                    f,
                ) == spec_exp_tail(s3, neg, intd@ + seq!['.'] + fracd@, intd@, fracd@, true, (f
                    - 1) as nat) && spec_exp_tail(
                    s3,
                    neg,
                    intd@ + seq!['.'] + fracd@,
                    intd@,
                    fracd@,
                    true,
                    (f - 1) as nat,
                ) != POut::<SpecNum>::Out by {
                    assert(spec_dec_run(pre, i0, (f - 1) as nat) != POut::<Seq<char>>::Out);
                    assert(spec_dec_run(s2, Seq::empty(), (f - 1) as nat) != POut::<Seq<
                        char,
                    >>::Out);
                }
            }
            res
        } else {
            let mut full: Vec<char> = Vec::new();
            push_all(&mut full, &intd);
            proof {
                assert(full@ =~= intd@);
            }
            let fr: Vec<char> = Vec::new();
            proof {
                assert(fr@ =~= Seq::<char>::empty());
            }
            let ghost intd_v = intd@;
            let res = self.exp_tail(neg, full, intd, fr, false);
            proof {
                match &res {
                    Ok(_) => {
                        assert(intd_v.len() > 0);
                        if i0.len() == 0 {
                            assert(step_lt(pre, s1));
                        }
                    },
                    _ => {},
                }
                assert forall|f: nat|
                    spec_dec_tail(pre, neg, i0, f) != POut::<SpecNum>::Out implies spec_dec_tail(
                    pre,
                    neg,
                    i0,
                    f,
                ) == spec_exp_tail(s1, neg, intd_v, intd_v, Seq::empty(), false, (f - 1) as nat)
                    && spec_exp_tail(s1, neg, intd_v, intd_v, Seq::empty(), false, (f - 1) as nat)
                    != POut::<SpecNum>::Out by {
                    assert(spec_dec_run(pre, i0, (f - 1) as nat) != POut::<Seq<char>>::Out);
                }
            }
            res
        }
    }
}


impl Parser {
    /// The digits of a hexadecimal literal after its `0x` prefix, then the
    /// policy verdict.
    #[verifier::rlimit(100)]
    #[verifier::spinoff_prover]
    fn hex_tail(&mut self, neg: bool, xc: char) -> (r: Result<Num, ParseError>)
        requires
            wf(old(self)@),
        ensures
            wf(final(self)@),
            final(self)@.text == old(self)@.text,
            final(self)@.at >= old(self)@.at,
            step_le(old(self)@, final(self)@),
            r matches Ok(v) ==> (forall|f: nat|
                spec_hex_tail(old(self)@, neg, xc, f) != POut::<SpecNum>::Out ==> spec_hex_tail(
                    old(self)@,
                    neg,
                    xc,
                    f,
                ) == POut::Done(v@, final(self)@)),
            r matches Err(e) ==> (forall|f: nat|
                spec_hex_tail(old(self)@, neg, xc, f) != POut::<SpecNum>::Out ==> spec_hex_tail(
                    old(self)@,
                    neg,
                    xc,
                    f,
                ) == POut::<SpecNum>::Fail(e.message@)),
        decreases pmeas(self@), chw(self@), 4int,
    {
        let ghost pre = self@;
        let hexd = match self.hex_run(Vec::new()) {
            Ok(v) => v,
            Err(e) => {
                proof {
                    assert forall|f: nat|
                        spec_hex_tail(pre, neg, xc, f) != POut::<SpecNum>::Out
                            implies spec_hex_tail(pre, neg, xc, f) == POut::<SpecNum>::Fail(
                        e.message@,
                    ) by {
                        assert(spec_hex_run(pre, Seq::empty(), (f - 1) as nat) != POut::<Seq<
                            char,
                        >>::Out);
                    }
                }
                return Err(e);
            },
        };
        let mut full: Vec<char> = Vec::new();
        full.push('0');
        full.push(xc);
        push_all(&mut full, &hexd);
        let empty: Vec<char> = Vec::new();
        proof {
            assert(full@ =~= seq!['0', xc] + hexd@);
            assert(empty@ =~= Seq::<char>::empty());
        }
        match classify(neg, true, &full, &hexd, &empty, &empty, false, false, false, &empty) {
            Ok(n) => {
                proof {
                    assert forall|f: nat|
                        spec_hex_tail(pre, neg, xc, f) != POut::<SpecNum>::Out
                            implies spec_hex_tail(pre, neg, xc, f) == POut::Done(n@, self@) by {
                        assert(spec_hex_run(pre, Seq::empty(), (f - 1) as nat) != POut::<Seq<
                            char,
                        >>::Out);
                    }
                }
                Ok(n)
            },
            Err(m) => {
                let err = self.error(m);
                proof {
                    assert forall|f: nat|
                        spec_hex_tail(pre, neg, xc, f) != POut::<SpecNum>::Out
                            implies spec_hex_tail(pre, neg, xc, f) == POut::<SpecNum>::Fail(
                        err.message@,
                    ) by {
                        assert(spec_hex_run(pre, Seq::empty(), (f - 1) as nat) != POut::<Seq<
                            char,
                        >>::Out);
                    }
                }
                Err(err)
            },
        }
    }

    /// A number after its optional sign.
    #[verifier::rlimit(100)]
    #[verifier::spinoff_prover]
    fn num_after_sign(&mut self, neg: bool) -> (r: Result<Num, ParseError>)
        requires
            wf(old(self)@),
        ensures
            wf(final(self)@),
            final(self)@.text == old(self)@.text,
            final(self)@.at >= old(self)@.at,
            step_le(old(self)@, final(self)@),
            r is Ok ==> step_lt(old(self)@, final(self)@),
            r matches Ok(v) ==> (forall|f: nat|
                spec_num_after_sign(old(self)@, neg, f) != POut::<SpecNum>::Out
                    ==> spec_num_after_sign(old(self)@, neg, f) == POut::Done(v@, final(self)@)),
            r matches Err(e) ==> (forall|f: nat|
                spec_num_after_sign(old(self)@, neg, f) != POut::<SpecNum>::Out
                    ==> spec_num_after_sign(old(self)@, neg, f) == POut::<SpecNum>::Fail(
                    e.message@,
                )),
        decreases pmeas(self@), chw(self@), 5int,
    {
        let ghost pre = self@;
        if self.ch_is('I') {
            match self.word() {
                Ok(v) => {
                    let inf_str = "Infinity".to_owned();
                    let is_inf = match &v {
                        Value::Str(ws) => *ws == inf_str,
                        _ => false,
                    };
                    proof {
                        assert(is_inf == (v@ == SpecValue::Str("Infinity"@)));
                    }
                    if is_inf {
                        Ok(Num::Inf(neg))
                    } else {
                        Err(self.error("Unexpected word for number".to_owned()))
                    }
                },
                Err(e) => Err(e),
            }
        } else if self.ch_is('N') {
            match self.word() {
                Ok(v) => {
                    let nan_str = "NaN".to_owned();
                    let is_nan = match &v {
                        Value::Str(ws) => *ws == nan_str,
                        _ => false,
                    };
                    proof {
                        assert(is_nan == (v@ == SpecValue::Str("NaN"@)));
                    }
                    if is_nan {
                        Ok(Num::NaN)
                    } else {
                        Err(self.error("expected word to be NaN".to_owned()))
                    }
                },
                Err(e) => Err(e),
            }
        } else if self.ch_is('0') {
            self.next(None)?;
            let ghost s2 = self@;
            let xch = if self.ch_is('x') {
                Some('x')
            } else if self.ch_is('X') {
                Some('X')
            } else {
                None
            };
            match xch {
                Some(xc) => {
                    self.next(None)?;
                    let ghost s3 = self@;
                    let res = self.hex_tail(neg, xc);
                    proof {
                        assert forall|f: nat|
                            spec_num_after_sign(pre, neg, f) != POut::<SpecNum>::Out
                                implies spec_num_after_sign(pre, neg, f) == spec_hex_tail(
                            s3,
                            neg,
                            xc,
                            (f - 1) as nat,
                        ) && spec_hex_tail(s3, neg, xc, (f - 1) as nat) != POut::<
                            SpecNum,
                        >::Out by {}
                    }
                    res
                },
                None => {
                    let isdig = match self.ch {
                        Some(c) => c >= '0' && c <= '9',
                        None => false,
                    };
                    if isdig {
                        Err(self.error("Octal literal".to_owned()))
                    } else {
                        let mut seed: Vec<char> = Vec::new();
                        seed.push('0');
                        proof {
                            assert(seed@ =~= seq!['0']);
                        }
                        let res = self.dec_tail(neg, seed);
                        proof {
                            assert forall|f: nat|
                                spec_num_after_sign(pre, neg, f) != POut::<SpecNum>::Out
                                    implies spec_num_after_sign(pre, neg, f) == spec_dec_tail(
                                s2,
                                neg,
                                seq!['0'],
                                (f - 1) as nat,
                            ) && spec_dec_tail(s2, neg, seq!['0'], (f - 1) as nat) != POut::<
                                SpecNum,
                            >::Out by {}
                        }
                        res
                    }
                },
            }
        } else {
            let res = self.dec_tail(neg, Vec::new());
            proof {
                assert forall|f: nat|
                    spec_num_after_sign(pre, neg, f) != POut::<SpecNum>::Out
                        implies spec_num_after_sign(pre, neg, f) == spec_dec_tail(
                    pre,
                    neg,
                    Seq::empty(),
                    (f - 1) as nat,
                ) && spec_dec_tail(pre, neg, Seq::empty(), (f - 1) as nat) != POut::<
                    SpecNum,
                >::Out by {}
            }
            res
        }
    }

    /// A number: an optional sign, then one of the numeric forms.
    fn number(&mut self) -> (r: Result<Num, ParseError>)
        requires
            wf(old(self)@),
        ensures
            wf(final(self)@),
            final(self)@.text == old(self)@.text,
            final(self)@.at >= old(self)@.at,
            step_le(old(self)@, final(self)@),
            r is Ok ==> step_lt(old(self)@, final(self)@),
            r matches Ok(v) ==> (forall|f: nat|
                spec_number(old(self)@, f) != POut::<SpecNum>::Out ==> spec_number(old(self)@, f)
                    == POut::Done(v@, final(self)@)),
            r matches Err(e) ==> (forall|f: nat|
                spec_number(old(self)@, f) != POut::<SpecNum>::Out ==> spec_number(old(self)@, f)
                    == POut::<SpecNum>::Fail(e.message@)),
        decreases pmeas(self@), chw(self@), 6int,
    {
        let ghost pre = self@;
        let signed = self.ch_is('-') || self.ch_is('+');
        let neg = self.ch_is('-');
        if signed {
            let e0 = self.ch;
            self.next(e0)?;
            let ghost s1 = self@;
            let res = self.num_after_sign(neg);
            proof {
                assert forall|f: nat|
                    spec_number(pre, f) != POut::<SpecNum>::Out implies spec_number(pre, f)
                    == spec_num_after_sign(s1, neg, (f - 1) as nat) && spec_num_after_sign(
                    s1,
                    neg,
                    (f - 1) as nat,
                ) != POut::<SpecNum>::Out by {}
            }
            res
        } else {
            let res = self.num_after_sign(false);
            proof {
                assert forall|f: nat|
                    spec_number(pre, f) != POut::<SpecNum>::Out implies spec_number(pre, f)
                    == spec_num_after_sign(pre, false, (f - 1) as nat) && spec_num_after_sign(
                    pre,
                    false,
                    (f - 1) as nat,
                ) != POut::<SpecNum>::Out by {}
            }
            res
        }
    }
}


/// The elements of an array after its opening bracket, accumulated into
/// `arr`.
pub open spec fn spec_array_loop(s: PSt, arr: Seq<SpecValue>, had_comma: bool, f: nat) -> POut<
    Seq<SpecValue>,
>
    decreases f,
{
    if f == 0 {
        POut::Out
    } else {
        match s.ch {
            Some(']') => if had_comma {
                POut::Fail(spec_error(s, "Superfluous trailing comma"@))
            } else {
                match spec_next(s, Some(']')) {
                    POut::Done(_, s1) => POut::Done(arr, s1),
                    POut::Fail(m) => POut::Fail(m),
                    POut::Out => POut::Out,
                }
            },
            Some(',') => POut::Fail(spec_error(s, "Missing array element"@)),
            Some(_) => match spec_value(s, (f - 1) as nat) {
                POut::Done(v, s1) => match spec_white(s1, (f - 1) as nat) {
                    POut::Done(_, s2) => if s2.ch != Some(',') {
                        match spec_next(s2, Some(']')) {
                            POut::Done(_, s3) => POut::Done(arr.push(v), s3),
                            POut::Fail(m) => POut::Fail(m),
                            POut::Out => POut::Out,
                        }
                    } else {
                        match spec_next(s2, Some(',')) {
                            POut::Done(_, s3) => match spec_white(s3, (f - 1) as nat) {
                                POut::Done(_, s4) => spec_array_loop(
                                    s4,
                                    arr.push(v),
                                    true,
                                    (f - 1) as nat,
                                ),
                                POut::Fail(m) => POut::Fail(m),
                                POut::Out => POut::Out,
                            },
                            POut::Fail(m) => POut::Fail(m),
                            POut::Out => POut::Out,
                        }
                    },
                    POut::Fail(m) => POut::Fail(m),
                    POut::Out => POut::Out,
                },
                POut::Fail(m) => POut::Fail(m),
                POut::Out => POut::Out,
            },
            None => POut::Fail(spec_error(s, "Bad array"@)),
        }
    }
}

/// An array: values between brackets, separated by commas, a trailing comma
/// rejected.
pub open spec fn spec_array(s: PSt, f: nat) -> POut<Seq<SpecValue>>
    decreases f,
{
    if f == 0 {
        POut::Out
    } else if s.ch == Some('[') {
        match spec_next(s, Some('[')) {
            POut::Done(_, s1) => match spec_white(s1, (f - 1) as nat) {
                POut::Done(_, s2) => spec_array_loop(s2, Seq::empty(), false, (f - 1) as nat),
                POut::Fail(m) => POut::Fail(m),
                POut::Out => POut::Out,
            },
            POut::Fail(m) => POut::Fail(m),
            POut::Out => POut::Out,
        }
    } else {
        POut::Fail(spec_error(s, "Bad array"@))
    }
}

/// The fields of an object after its opening brace, accumulated into
/// `fields`; a later duplicate key overwrites in place.
pub open spec fn spec_object_loop(
    s: PSt,
    fields: Seq<(Seq<char>, SpecValue)>,
    had_comma: bool,
    f: nat,
) -> POut<Seq<(Seq<char>, SpecValue)>>
    decreases f,
{
    if f == 0 {
        POut::Out
    } else {
        match s.ch {
            Some('}') => if had_comma {
                POut::Fail(spec_error(s, "Superfluous trailing comma"@))
            } else {
                match spec_next(s, Some('}')) {
                    POut::Done(_, s1) => POut::Done(fields, s1),
                    POut::Fail(m) => POut::Fail(m),
                    POut::Out => POut::Out,
                }
            },
            Some('"') | Some('\'') => match spec_string(s, (f - 1) as nat) {
                POut::Done(key, s1) => match spec_white(s1, (f - 1) as nat) {
                    POut::Done(_, s2) => match spec_next(s2, Some(':')) {
                        POut::Done(_, s3) => match spec_value(s3, (f - 1) as nat) {
                            POut::Done(v, s4) => {
                                let fields2 = obj_update(fields, key, v);
                                match spec_white(s4, (f - 1) as nat) {
                                    POut::Done(_, s5) => if s5.ch != Some(',') {
                                        match spec_next(s5, Some('}')) {
                                            POut::Done(_, s6) => POut::Done(fields2, s6),
                                            POut::Fail(m) => POut::Fail(m),
                                            POut::Out => POut::Out,
                                        }
                                    } else {
                                        match spec_next(s5, Some(',')) {
                                            POut::Done(_, s6) => match spec_white(
                                                s6,
                                                (f - 1) as nat,
                                            ) {
                                                POut::Done(_, s7) => spec_object_loop(
                                                    s7,
                                                    fields2,
                                                    true,
                                                    (f - 1) as nat,
                                                ),
                                                POut::Fail(m) => POut::Fail(m),
                                                POut::Out => POut::Out,
                                            },
                                            POut::Fail(m) => POut::Fail(m),
                                            POut::Out => POut::Out,
                                        }
                                    },
                                    POut::Fail(m) => POut::Fail(m),
                                    POut::Out => POut::Out,
                                }
                            },
                            POut::Fail(m) => POut::Fail(m),
                            POut::Out => POut::Out,
                        },
                        POut::Fail(m) => POut::Fail(m),
                        POut::Out => POut::Out,
                    },
                    POut::Fail(m) => POut::Fail(m),
                    POut::Out => POut::Out,
                },
                POut::Fail(m) => POut::Fail(m),
                POut::Out => POut::Out,
            },
            Some(',') => POut::Fail(spec_error(s, "Expected key"@)),
            Some(_) => POut::Fail(spec_error(s, "Unquoted key"@)),
            None => POut::Fail(spec_error(s, "Bad object"@)),
        }
    }
}

/// An object: quoted keys with values between braces, insertion order kept,
/// a later duplicate key overwriting the value at the first position.
pub open spec fn spec_object(s: PSt, f: nat) -> POut<Seq<(Seq<char>, SpecValue)>>
    decreases f,
{
    if f == 0 {
        POut::Out
    } else if s.ch == Some('{') {
        match spec_next(s, Some('{')) {
            POut::Done(_, s1) => match spec_white(s1, (f - 1) as nat) {
                POut::Done(_, s2) => spec_object_loop(s2, Seq::empty(), false, (f - 1) as nat),
                POut::Fail(m) => POut::Fail(m),
                POut::Out => POut::Out,
            },
            POut::Fail(m) => POut::Fail(m),
            POut::Out => POut::Out,
        }
    } else {
        POut::Fail(spec_error(s, "Bad object"@))
    }
}

/// A single value: leading whitespace and comments, then an object, array,
/// string, number or word, chosen by one character of lookahead.
pub open spec fn spec_value(s: PSt, f: nat) -> POut<SpecValue>
    decreases f,
{
    if f == 0 {
        POut::Out
    } else {
        match spec_white(s, (f - 1) as nat) {
            POut::Done(_, s1) => match s1.ch {
                Some('{') => match spec_object(s1, (f - 1) as nat) {
                    POut::Done(fields, s2) => POut::Done(SpecValue::Object(fields), s2),
                    POut::Fail(m) => POut::Fail(m),
                    POut::Out => POut::Out,
                },
                Some('[') => match spec_array(s1, (f - 1) as nat) {
                    POut::Done(items, s2) => POut::Done(SpecValue::Array(items), s2),
                    POut::Fail(m) => POut::Fail(m),
                    POut::Out => POut::Out,
                },
                Some('"') | Some('\'') => match spec_string(s1, (f - 1) as nat) {
                    POut::Done(cs, s2) => POut::Done(SpecValue::Str(cs), s2),
                    POut::Fail(m) => POut::Fail(m),
                    POut::Out => POut::Out,
                },
                Some(c) => if c == '-' || c == '+' || c == '.' || is_dec_digit(c) {
                    match spec_number(s1, (f - 1) as nat) {
                        POut::Done(n, s2) => POut::Done(SpecValue::Num(n), s2),
                        POut::Fail(m) => POut::Fail(m),
                        POut::Out => POut::Out,
                    }
                } else {
                    spec_word(s1)
                },
                None => spec_word(s1),
            },
            POut::Fail(m) => POut::Fail(m),
            POut::Out => POut::Out,
        }
    }
}

/// The outcome of parsing a whole document.
pub ghost enum ParseOut {
    Value(SpecValue),
    Fault(Seq<char>),
    Out,
}

/// A whole document: exactly one value, then only whitespace and comments to
/// the end of the input.
pub open spec fn spec_parse(t: Seq<char>, f: nat) -> ParseOut
    decreases f,
{
    if f == 0 {
        ParseOut::Out
    } else {
        match spec_value(init_state(t), (f - 1) as nat) {
            POut::Done(v, s1) => match spec_white(s1, (f - 1) as nat) {
                POut::Done(_, s2) => if s2.ch is Some {
                    ParseOut::Fault(spec_error(s2, "Syntax error"@))
                } else {
                    ParseOut::Value(v)
                },
                POut::Fail(m) => ParseOut::Fault(m),
                POut::Out => ParseOut::Out,
            },
            POut::Fail(m) => ParseOut::Fault(m),
            POut::Out => ParseOut::Out,
        }
    }
}


impl Parser {
    /// The elements of an array after its opening bracket.
    #[verifier::rlimit(100)]
    #[verifier::spinoff_prover]
    fn array_loop(&mut self, arr: Vec<Value>, had_comma: bool) -> (r: Result<
        Vec<Value>,
        ParseError,
    >)
        requires
            wf(old(self)@),
        ensures
            wf(final(self)@),
            final(self)@.text == old(self)@.text,
            final(self)@.at >= old(self)@.at,
            step_le(old(self)@, final(self)@),
            r matches Ok(v) ==> (forall|f: nat|
                spec_array_loop(old(self)@, vals_view(arr@), had_comma, f) != POut::<Seq<
                    SpecValue,
                >>::Out ==> spec_array_loop(old(self)@, vals_view(arr@), had_comma, f)
                    == POut::Done(vals_view(v@), final(self)@)),
            r matches Err(e) ==> (forall|f: nat|
                spec_array_loop(old(self)@, vals_view(arr@), had_comma, f) != POut::<Seq<
                    SpecValue,
                >>::Out ==> spec_array_loop(old(self)@, vals_view(arr@), had_comma, f) == POut::<
                    Seq<SpecValue>,
                >::Fail(e.message@)),
        decreases pmeas(self@), chw(self@), 11int,
    {
        let ghost pre = self@;
        let ghost arr0 = vals_view(arr@);
        if self.ch_is(']') {
            if had_comma {
                return Err(self.error("Superfluous trailing comma".to_owned()));
            }
            self.next(Some(']'))?;
            Ok(arr)
        } else if self.ch_is(',') {
            Err(self.error("Missing array element".to_owned()))
        } else if self.ch_is_none() {
            Err(self.error("Bad array".to_owned()))
        } else {
            let v = match self.value() {
                Ok(v) => v,
                Err(e) => {
                    proof {
                        assert forall|f: nat|
                            spec_array_loop(pre, arr0, had_comma, f) != POut::<Seq<
                            SpecValue,
                        >>::Out implies spec_array_loop(pre, arr0, had_comma, f) == POut::<Seq<
                            SpecValue,
                        >>::Fail(e.message@) by {
                            assert(spec_value(pre, (f - 1) as nat) != POut::<SpecValue>::Out);
                        }
                    }
                    return Err(e);
                },
            };
            let ghost s1 = self@;
            let mut arr2 = arr;
            arr2.push(v);
            proof {
                assert(arr2@.drop_last() =~= arr@);
                assert(vals_view(arr2@) == arr0.push(arr2@.last()@));
            }
            match self.white() {
                Ok(_) => {},
                Err(e) => {
                    proof {
                        assert forall|f: nat|
                            spec_array_loop(pre, arr0, had_comma, f) != POut::<Seq<
                            SpecValue,
                        >>::Out implies spec_array_loop(pre, arr0, had_comma, f) == POut::<Seq<
                            SpecValue,
                        >>::Fail(e.message@) by {
                            assert(spec_value(pre, (f - 1) as nat) != POut::<SpecValue>::Out);
                            assert(spec_white(s1, (f - 1) as nat) != POut::<()>::Out);
                        }
                    }
                    return Err(e);
                },
            }
            let ghost s2 = self@;
            if !self.ch_is(',') {
                match self.next(Some(']')) {
                    Ok(_) => {
                        proof {
                            assert forall|f: nat|
                                spec_array_loop(pre, arr0, had_comma, f) != POut::<Seq<
                                SpecValue,
                            >>::Out implies spec_array_loop(pre, arr0, had_comma, f) == POut::Done(
                                vals_view(arr2@),
                                self@,
                            ) by {
                                assert(spec_value(pre, (f - 1) as nat) != POut::<
                                    SpecValue,
                                >::Out);
                                assert(spec_white(s1, (f - 1) as nat) != POut::<()>::Out);
                            }
                        }
                        Ok(arr2)
                    },
                    Err(e) => {
                        proof {
                            assert forall|f: nat|
                                spec_array_loop(pre, arr0, had_comma, f) != POut::<Seq<
                                SpecValue,
                            >>::Out implies spec_array_loop(pre, arr0, had_comma, f) == POut::<
                                Seq<SpecValue>,
                            >::Fail(e.message@) by {
                                assert(spec_value(pre, (f - 1) as nat) != POut::<
                                    SpecValue,
                                >::Out);
                                assert(spec_white(s1, (f - 1) as nat) != POut::<()>::Out);
                            }
                        }
                        Err(e)
                    },
                }
            } else {
                self.next(Some(','))?;
                let ghost s3 = self@;
                match self.white() {
                    Ok(_) => {},
                    Err(e) => {
                        proof {
                            assert forall|f: nat|
                                spec_array_loop(pre, arr0, had_comma, f) != POut::<Seq<
                                SpecValue,
                            >>::Out implies spec_array_loop(pre, arr0, had_comma, f) == POut::<
                                Seq<SpecValue>,
                            >::Fail(e.message@) by {
                                assert(spec_value(pre, (f - 1) as nat) != POut::<
                                    SpecValue,
                                >::Out);
                                assert(spec_white(s1, (f - 1) as nat) != POut::<()>::Out);
                                assert(spec_white(s3, (f - 1) as nat) != POut::<()>::Out);
                            }
                        }
                        return Err(e);
                    },
                }
                let ghost s4 = self@;
                let res = self.array_loop(arr2, true);
                proof {
                    assert forall|f: nat|
                        spec_array_loop(pre, arr0, had_comma, f) != POut::<Seq<SpecValue>>::Out
                            implies spec_array_loop(pre, arr0, had_comma, f) == spec_array_loop(
                        s4,
                        arr0.push(arr2@.last()@),
                        true,
                        (f - 1) as nat,
                    ) && spec_array_loop(s4, arr0.push(arr2@.last()@), true, (f - 1) as nat)
                        != POut::<Seq<SpecValue>>::Out by {
                        assert(spec_value(pre, (f - 1) as nat) != POut::<SpecValue>::Out);
                        assert(spec_white(s1, (f - 1) as nat) != POut::<()>::Out);
                        assert(spec_white(s3, (f - 1) as nat) != POut::<()>::Out);
                    }
                }
                res
            }
        }
    }

    /// An array literal.
    fn array(&mut self) -> (r: Result<Vec<Value>, ParseError>)
        requires
            wf(old(self)@),
        ensures
            wf(final(self)@),
            final(self)@.text == old(self)@.text,
            final(self)@.at >= old(self)@.at,
            step_le(old(self)@, final(self)@),
            r is Ok ==> step_lt(old(self)@, final(self)@),
            r matches Ok(v) ==> (forall|f: nat|
                spec_array(old(self)@, f) != POut::<Seq<SpecValue>>::Out ==> spec_array(
                    old(self)@,
                    f,
                ) == POut::Done(vals_view(v@), final(self)@)),
            r matches Err(e) ==> (forall|f: nat|
                spec_array(old(self)@, f) != POut::<Seq<SpecValue>>::Out ==> spec_array(
                    old(self)@,
                    f,
                ) == POut::<Seq<SpecValue>>::Fail(e.message@)),
        decreases pmeas(self@), chw(self@), 8int,
    {
        let ghost pre = self@;
        if !self.ch_is('[') {
            return Err(self.error("Bad array".to_owned()));
        }
        self.next(Some('['))?;
        let ghost s1 = self@;
        match self.white() {
            Ok(_) => {},
            Err(e) => {
                proof {
                    assert forall|f: nat|
                        spec_array(pre, f) != POut::<Seq<SpecValue>>::Out implies spec_array(
                        pre,
                        f,
                    ) == POut::<Seq<SpecValue>>::Fail(e.message@) by {
                        assert(spec_white(s1, (f - 1) as nat) != POut::<()>::Out);
                    }
                }
                return Err(e);
            },
        }
        let ghost s2 = self@;
        let empty_arr: Vec<Value> = Vec::new();
        proof {
            assert(vals_view(empty_arr@) =~= Seq::<SpecValue>::empty());
        }
        let res = self.array_loop(empty_arr, false);
        proof {
            assert forall|f: nat|
                spec_array(pre, f) != POut::<Seq<SpecValue>>::Out implies spec_array(pre, f)
                == spec_array_loop(s2, Seq::empty(), false, (f - 1) as nat) && spec_array_loop(
                s2,
                Seq::empty(),
                false,
                (f - 1) as nat,
            ) != POut::<Seq<SpecValue>>::Out by {
                assert(spec_white(s1, (f - 1) as nat) != POut::<()>::Out);
            }
        }
        res
    }
}


impl Parser {
    /// The fields of an object after its opening brace.
    #[verifier::rlimit(100)]
    #[verifier::spinoff_prover]
    fn object_loop(&mut self, fields: Vec<(String, Value)>, had_comma: bool) -> (r: Result<
        Vec<(String, Value)>,
        ParseError,
    >)
        requires
            wf(old(self)@),
        ensures
            wf(final(self)@),
            final(self)@.text == old(self)@.text,
            final(self)@.at >= old(self)@.at,
            step_le(old(self)@, final(self)@),
            r matches Ok(v) ==> (forall|f: nat|
                spec_object_loop(old(self)@, fields_view(fields@), had_comma, f) != POut::<Seq<
                    (Seq<char>, SpecValue),
                >>::Out ==> spec_object_loop(old(self)@, fields_view(fields@), had_comma, f)
                    == POut::Done(fields_view(v@), final(self)@)),
            r matches Err(e) ==> (forall|f: nat|
                spec_object_loop(old(self)@, fields_view(fields@), had_comma, f) != POut::<Seq<
                    (Seq<char>, SpecValue),
                >>::Out ==> spec_object_loop(old(self)@, fields_view(fields@), had_comma, f)
                    == POut::<Seq<(Seq<char>, SpecValue)>>::Fail(e.message@)),
        decreases pmeas(self@), chw(self@), 11int,
    {
        let ghost pre = self@;
        let ghost flds0 = fields_view(fields@);
        if self.ch_is('}') {
            if had_comma {
                return Err(self.error("Superfluous trailing comma".to_owned()));
            }
            self.next(Some('}'))?;
            Ok(fields)
        } else if self.ch_is('"') || self.ch_is('\'') {
            let key = match self.string() {
                Ok(k) => k,
                Err(e) => {
                    proof {
                        assert forall|f: nat|
                            spec_object_loop(pre, flds0, had_comma, f) != POut::<Seq<
                            (Seq<char>, SpecValue),
                        >>::Out implies spec_object_loop(pre, flds0, had_comma, f) == POut::<Seq<
                            (Seq<char>, SpecValue),
                        >>::Fail(e.message@) by {
                            assert(spec_string(pre, (f - 1) as nat) != POut::<Seq<char>>::Out);
                        }
                    }
                    return Err(e);
                },
            };
            let ghost keyv = key@;
            let ghost s1 = self@;
            match self.white() {
                Ok(_) => {},
                Err(e) => {
                    proof {
                        assert forall|f: nat|
                            spec_object_loop(pre, flds0, had_comma, f) != POut::<Seq<
                            (Seq<char>, SpecValue),
                        >>::Out implies spec_object_loop(pre, flds0, had_comma, f) == POut::<Seq<
                            (Seq<char>, SpecValue),
                        >>::Fail(e.message@) by {
                            assert(spec_string(pre, (f - 1) as nat) != POut::<Seq<char>>::Out);
                            assert(spec_white(s1, (f - 1) as nat) != POut::<()>::Out);
                        }
                    }
                    return Err(e);
                },
            }
            let ghost s2 = self@;
            match self.next(Some(':')) {
                Ok(_) => {},
                Err(e) => {
                    proof {
                        assert forall|f: nat|
                            spec_object_loop(pre, flds0, had_comma, f) != POut::<Seq<
                            (Seq<char>, SpecValue),
                        >>::Out implies spec_object_loop(pre, flds0, had_comma, f) == POut::<Seq<
                            (Seq<char>, SpecValue),
                        >>::Fail(e.message@) by {
                            assert(spec_string(pre, (f - 1) as nat) != POut::<Seq<char>>::Out);
                            assert(spec_white(s1, (f - 1) as nat) != POut::<()>::Out);
                        }
                    }
                    return Err(e);
                },
            }
            let ghost s3 = self@;
            let v = match self.value() {
                Ok(v) => v,
                Err(e) => {
                    proof {
                        assert forall|f: nat|
                            spec_object_loop(pre, flds0, had_comma, f) != POut::<Seq<
                            (Seq<char>, SpecValue),
                        >>::Out implies spec_object_loop(pre, flds0, had_comma, f) == POut::<Seq<
                            (Seq<char>, SpecValue),
                        >>::Fail(e.message@) by {
                            assert(spec_string(pre, (f - 1) as nat) != POut::<Seq<char>>::Out);
                            assert(spec_white(s1, (f - 1) as nat) != POut::<()>::Out);
                            assert(spec_value(s3, (f - 1) as nat) != POut::<SpecValue>::Out);
                        }
                    }
                    return Err(e);
                },
            };
            let ghost s4 = self@;
            let ghost vv = v@;
            let mut fields2 = fields;
            object_set(&mut fields2, key, v);
            proof {
                assert(fields_view(fields2@) == obj_update(flds0, keyv, vv));
            }
            match self.white() {
                Ok(_) => {},
                Err(e) => {
                    proof {
                        assert forall|f: nat|
                            spec_object_loop(pre, flds0, had_comma, f) != POut::<Seq<
                            (Seq<char>, SpecValue),
                        >>::Out implies spec_object_loop(pre, flds0, had_comma, f) == POut::<Seq<
                            (Seq<char>, SpecValue),
                        >>::Fail(e.message@) by {
                            assert(spec_string(pre, (f - 1) as nat) != POut::<Seq<char>>::Out);
                            assert(spec_white(s1, (f - 1) as nat) != POut::<()>::Out);
                            assert(spec_value(s3, (f - 1) as nat) != POut::<SpecValue>::Out);
                            assert(spec_white(s4, (f - 1) as nat) != POut::<()>::Out);
                        }
                    }
                    return Err(e);
                },
            }
            let ghost s5 = self@;
            if !self.ch_is(',') {
                match self.next(Some('}')) {
                    Ok(_) => {
                        proof {
                            assert forall|f: nat|
                                spec_object_loop(pre, flds0, had_comma, f) != POut::<Seq<
                                (Seq<char>, SpecValue),
                            >>::Out implies spec_object_loop(pre, flds0, had_comma, f)
                                == POut::Done(fields_view(fields2@), self@) by {
                                assert(spec_string(pre, (f - 1) as nat) != POut::<Seq<
                                    char,
                                >>::Out);
                                assert(spec_white(s1, (f - 1) as nat) != POut::<()>::Out);
                                assert(spec_value(s3, (f - 1) as nat) != POut::<SpecValue>::Out);
                                assert(spec_white(s4, (f - 1) as nat) != POut::<()>::Out);
                            }
                        }
                        Ok(fields2)
                    },
                    Err(e) => {
                        proof {
                            assert forall|f: nat|
                                spec_object_loop(pre, flds0, had_comma, f) != POut::<Seq<
                                (Seq<char>, SpecValue),
                            >>::Out implies spec_object_loop(pre, flds0, had_comma, f) == POut::<
                                Seq<(Seq<char>, SpecValue)>,
                            >::Fail(e.message@) by {
                                assert(spec_string(pre, (f - 1) as nat) != POut::<Seq<
                                    char,
                                >>::Out);
                                assert(spec_white(s1, (f - 1) as nat) != POut::<()>::Out);
                                assert(spec_value(s3, (f - 1) as nat) != POut::<SpecValue>::Out);
                                assert(spec_white(s4, (f - 1) as nat) != POut::<()>::Out);
                            }
                        }
                        Err(e)
                    },
                }
            } else {
                self.next(Some(','))?;
                let ghost s6 = self@;
                match self.white() {
                    Ok(_) => {},
                    Err(e) => {
                        proof {
                            assert forall|f: nat|
                                spec_object_loop(pre, flds0, had_comma, f) != POut::<Seq<
                                (Seq<char>, SpecValue),
                            >>::Out implies spec_object_loop(pre, flds0, had_comma, f) == POut::<
                                Seq<(Seq<char>, SpecValue)>,
                            >::Fail(e.message@) by {
                                assert(spec_string(pre, (f - 1) as nat) != POut::<Seq<
                                    char,
                                >>::Out);
                                assert(spec_white(s1, (f - 1) as nat) != POut::<()>::Out);
                                assert(spec_value(s3, (f - 1) as nat) != POut::<SpecValue>::Out);
                                assert(spec_white(s4, (f - 1) as nat) != POut::<()>::Out);
                                assert(spec_white(s6, (f - 1) as nat) != POut::<()>::Out);
                            }
                        }
                        return Err(e);
                    },
                }
                let ghost s7 = self@;
                let res = self.object_loop(fields2, true);
                proof {
                    assert forall|f: nat|
                        spec_object_loop(pre, flds0, had_comma, f) != POut::<Seq<
                        (Seq<char>, SpecValue),
                    >>::Out implies spec_object_loop(pre, flds0, had_comma, f)
                        == spec_object_loop(s7, obj_update(flds0, keyv, vv), true, (f - 1) as nat)
                        && spec_object_loop(s7, obj_update(flds0, keyv, vv), true, (f - 1) as nat)
                        != POut::<Seq<(Seq<char>, SpecValue)>>::Out by {
                        assert(spec_string(pre, (f - 1) as nat) != POut::<Seq<char>>::Out);
                        assert(spec_white(s1, (f - 1) as nat) != POut::<()>::Out);
                        assert(spec_value(s3, (f - 1) as nat) != POut::<SpecValue>::Out);
                        assert(spec_white(s4, (f - 1) as nat) != POut::<()>::Out);
                        assert(spec_white(s6, (f - 1) as nat) != POut::<()>::Out);
                    }
                }
                res
            }
        } else if self.ch_is(',') {
            Err(self.error("Expected key".to_owned()))
        } else if self.ch_is_none() {
            Err(self.error("Bad object".to_owned()))
        } else {
            Err(self.error("Unquoted key".to_owned()))
        }
    }

    /// An object literal.
    fn object(&mut self) -> (r: Result<Vec<(String, Value)>, ParseError>)
        requires
            wf(old(self)@),
        ensures
            wf(final(self)@),
            final(self)@.text == old(self)@.text,
            final(self)@.at >= old(self)@.at,
            step_le(old(self)@, final(self)@),
            r is Ok ==> step_lt(old(self)@, final(self)@),
            r matches Ok(v) ==> (forall|f: nat|
                spec_object(old(self)@, f) != POut::<Seq<(Seq<char>, SpecValue)>>::Out
                    ==> spec_object(old(self)@, f) == POut::Done(fields_view(v@), final(self)@)),
            r matches Err(e) ==> (forall|f: nat|
                spec_object(old(self)@, f) != POut::<Seq<(Seq<char>, SpecValue)>>::Out
                    ==> spec_object(old(self)@, f) == POut::<Seq<(Seq<char>, SpecValue)>>::Fail(
                    e.message@,
                )),
        decreases pmeas(self@), chw(self@), 8int,
    {
        let ghost pre = self@;
        if !self.ch_is('{') {
            return Err(self.error("Bad object".to_owned()));
        }
        self.next(Some('{'))?;
        let ghost s1 = self@;
        match self.white() {
            Ok(_) => {},
            Err(e) => {
                proof {
                    assert forall|f: nat|
                        spec_object(pre, f) != POut::<Seq<(Seq<char>, SpecValue)>>::Out
                            implies spec_object(pre, f) == POut::<Seq<
                        (Seq<char>, SpecValue),
                    >>::Fail(e.message@) by {
                        assert(spec_white(s1, (f - 1) as nat) != POut::<()>::Out);
                    }
                }
                return Err(e);
            },
        }
        let ghost s2 = self@;
        let empty_fields: Vec<(String, Value)> = Vec::new();
        proof {
            assert(fields_view(empty_fields@) =~= Seq::<(Seq<char>, SpecValue)>::empty());
        }
        let res = self.object_loop(empty_fields, false);
        proof {
            assert forall|f: nat|
                spec_object(pre, f) != POut::<Seq<(Seq<char>, SpecValue)>>::Out
                    implies spec_object(pre, f) == spec_object_loop(
                s2,
                Seq::empty(),
                false,
                (f - 1) as nat,
            ) && spec_object_loop(s2, Seq::empty(), false, (f - 1) as nat) != POut::<Seq<
                (Seq<char>, SpecValue),
            >>::Out by {
                assert(spec_white(s1, (f - 1) as nat) != POut::<()>::Out);
            }
        }
        res
    }

    /// A single value.
    #[verifier::rlimit(100)]
    #[verifier::spinoff_prover]
    fn value(&mut self) -> (r: Result<Value, ParseError>)
        requires
            wf(old(self)@),
        ensures
            wf(final(self)@),
            final(self)@.text == old(self)@.text,
            final(self)@.at >= old(self)@.at,
            step_le(old(self)@, final(self)@),
            r is Ok ==> step_lt(old(self)@, final(self)@),
            r matches Ok(v) ==> (forall|f: nat|
                spec_value(old(self)@, f) != POut::<SpecValue>::Out ==> spec_value(old(self)@, f)
                    == POut::Done(v@, final(self)@)),
            r matches Err(e) ==> (forall|f: nat|
                spec_value(old(self)@, f) != POut::<SpecValue>::Out ==> spec_value(old(self)@, f)
                    == POut::<SpecValue>::Fail(e.message@)),
        decreases pmeas(self@), chw(self@), 10int,
    {
        let ghost pre = self@;
        match self.white() {
            Ok(_) => {},
            Err(e) => {
                proof {
                    assert forall|f: nat|
                        spec_value(pre, f) != POut::<SpecValue>::Out implies spec_value(pre, f)
                        == POut::<SpecValue>::Fail(e.message@) by {}
                }
                return Err(e);
            },
        }
        let ghost s1 = self@;
        let kind: u8 = match self.ch {
            Some('{') => 0,
            Some('[') => 1,
            Some('"') => 2,
            Some('\'') => 2,
            Some(c) => if c == '-' || c == '+' || c == '.' || (c >= '0' && c <= '9') {
                3
            } else {
                4
            },
            None => 4,
        };
        if kind == 0 {
            let res = self.object();
            proof {
                assert forall|f: nat|
                    spec_value(pre, f) != POut::<SpecValue>::Out implies spec_value(pre, f) == (
                match spec_object(s1, (f - 1) as nat) {
                    POut::Done(fields, s2) => POut::Done(SpecValue::Object(fields), s2),
                    POut::Fail(m) => POut::Fail(m),
                    POut::Out => POut::Out,
                }) && spec_object(s1, (f - 1) as nat) != POut::<Seq<
                    (Seq<char>, SpecValue),
                >>::Out by {}
            }
            match res {
                Ok(fields) => Ok(Value::Object(fields)),
                Err(e) => Err(e),
            }
        } else if kind == 1 {
            let res = self.array();
            proof {
                assert forall|f: nat|
                    spec_value(pre, f) != POut::<SpecValue>::Out implies spec_value(pre, f) == (
                match spec_array(s1, (f - 1) as nat) {
                    POut::Done(items, s2) => POut::Done(SpecValue::Array(items), s2),
                    POut::Fail(m) => POut::Fail(m),
                    POut::Out => POut::Out,
                }) && spec_array(s1, (f - 1) as nat) != POut::<Seq<SpecValue>>::Out by {}
            }
            match res {
                Ok(items) => Ok(Value::Array(items)),
                Err(e) => Err(e),
            }
        } else if kind == 2 {
            let res = self.string();
            proof {
                assert forall|f: nat|
                    spec_value(pre, f) != POut::<SpecValue>::Out implies spec_value(pre, f) == (
                match spec_string(s1, (f - 1) as nat) {
                    POut::Done(cs, s2) => POut::Done(SpecValue::Str(cs), s2),
                    POut::Fail(m) => POut::Fail(m),
                    POut::Out => POut::Out,
                }) && spec_string(s1, (f - 1) as nat) != POut::<Seq<char>>::Out by {}
            }
            match res {
                Ok(s) => Ok(Value::Str(s)),
                Err(e) => Err(e),
            }
        } else if kind == 3 {
            let res = self.number();
            proof {
                assert forall|f: nat|
                    spec_value(pre, f) != POut::<SpecValue>::Out implies spec_value(pre, f) == (
                match spec_number(s1, (f - 1) as nat) {
                    POut::Done(n, s2) => POut::Done(SpecValue::Num(n), s2),
                    POut::Fail(m) => POut::Fail(m),
                    POut::Out => POut::Out,
                }) && spec_number(s1, (f - 1) as nat) != POut::<SpecNum>::Out by {}
            }
            match res {
                Ok(n) => Ok(Value::Num(n)),
                Err(e) => Err(e),
            }
        } else {
            let res = self.word();
            proof {
                assert forall|f: nat|
                    spec_value(pre, f) != POut::<SpecValue>::Out implies spec_value(pre, f)
                    == spec_word(s1) by {}
            }
            res
        }
    }
}

/// Parses a whole document: one value followed only by whitespace and
/// comments. On success the result is the specification's verdict at every
/// sufficient fuel; on failure the message is the specification's
/// diagnostic.
pub fn parse(text: &str) -> (r: Result<Value, ParseError>)
    ensures
        r matches Ok(v) ==> (forall|f: nat|
            spec_parse(text@, f) != ParseOut::Out ==> spec_parse(text@, f) == ParseOut::Value(v@)),
        r matches Err(e) ==> (forall|f: nat|
            spec_parse(text@, f) != ParseOut::Out ==> spec_parse(text@, f) == ParseOut::Fault(
                e.message@,
            )),
{
    let mut parser = Parser::new(text);
    let ghost s0 = parser@;
    let result = match parser.value() {
        Ok(v) => v,
        Err(e) => {
            proof {
                assert forall|f: nat|
                    spec_parse(text@, f) != ParseOut::Out implies spec_parse(text@, f)
                    == ParseOut::Fault(e.message@) by {
                    assert(spec_value(s0, (f - 1) as nat) != POut::<SpecValue>::Out);
                }
            }
            return Err(e);
        },
    };
    let ghost s1 = parser@;
    match parser.white() {
        Ok(_) => {},
        Err(e) => {
            proof {
                assert forall|f: nat|
                    spec_parse(text@, f) != ParseOut::Out implies spec_parse(text@, f)
                    == ParseOut::Fault(e.message@) by {
                    assert(spec_value(s0, (f - 1) as nat) != POut::<SpecValue>::Out);
                    assert(spec_white(s1, (f - 1) as nat) != POut::<()>::Out);
                }
            }
            return Err(e);
        },
    }
    if !parser.ch_is_none() {
        let e = parser.error("Syntax error".to_owned());
        proof {
            assert forall|f: nat|
                spec_parse(text@, f) != ParseOut::Out implies spec_parse(text@, f)
                == ParseOut::Fault(e.message@) by {
                assert(spec_value(s0, (f - 1) as nat) != POut::<SpecValue>::Out);
                assert(spec_white(s1, (f - 1) as nat) != POut::<()>::Out);
            }
        }
        return Err(e);
    }
    proof {
        assert forall|f: nat|
            spec_parse(text@, f) != ParseOut::Out implies spec_parse(text@, f) == ParseOut::Value(
            result@,
        ) by {
            assert(spec_value(s0, (f - 1) as nat) != POut::<SpecValue>::Out);
            assert(spec_white(s1, (f - 1) as nat) != POut::<()>::Out);
        }
    }
    Ok(result)
}

/// Round trip of exact integers under the numeric policy: the decimal
/// rendering of any unsigned 64-bit integer, read back as a plain decimal
/// literal, classifies as exactly that integer, with no drift into floating
/// point.
pub proof fn lemma_int_render_roundtrip(n: u64)
    ensures
        spec_classify(
            false,
            false,
            dec_str(n as nat),
            Seq::empty(),
            dec_str(n as nat),
            Seq::empty(),
            false,
            false,
            false,
            Seq::empty(),
        ) == Ok::<SpecNum, Seq<char>>(SpecNum::Int(n as int)),
{
    let d = dec_str(n as nat);
    crate::util::text::lemma_dec_str_digits(n as nat);
    crate::util::text::lemma_dec_val_dec_str(n as nat);
    assert(d + Seq::<char>::empty() =~= d);
    assert(dec_val(Seq::<char>::empty()) == 0);
    if n == 0 {
        assert(d == seq![crate::util::text::digit_char(0)]);
        assert(all_zero(d));
    } else {
        crate::util::text::lemma_dec_str_first(n as nat);
        assert(!all_zero(d));
        assert(crate::util::text::lead_zeros(d) == 0);
        assert(pow10(20) == 0x56bc75e2d63100000) by {
            reveal_with_fuel(pow10, 21);
        }
        crate::util::text::lemma_dec_str_len(n as nat, 20);
        assert(d.len() <= 20);
        let p = d.len() as int;
        assert(int_mag(d, p) == dec_val(d) * pow10(0));
        assert(pow10(0) == 1);
        assert(dec_val(d) * 1 == dec_val(d));
        assert(int_mag(d, p) == n);
    }
}

/// The same round trip for a negative integer: the rendering of its
/// magnitude, read back with a leading minus sign, classifies as the
/// original value.
pub proof fn lemma_int_render_roundtrip_neg(n: i64)
    requires
        n < 0,
    ensures
        spec_classify(
            true,
            false,
            dec_str((-(n as int)) as nat),
            Seq::empty(),
            dec_str((-(n as int)) as nat),
            Seq::empty(),
            false,
            false,
            false,
            Seq::empty(),
        ) == Ok::<SpecNum, Seq<char>>(SpecNum::Int(n as int)),
{
    let m = (-(n as int)) as nat;
    let d = dec_str(m);
    crate::util::text::lemma_dec_str_digits(m);
    crate::util::text::lemma_dec_val_dec_str(m);
    assert(d + Seq::<char>::empty() =~= d);
    assert(dec_val(Seq::<char>::empty()) == 0);
    crate::util::text::lemma_dec_str_first(m);
    assert(!all_zero(d));
    assert(crate::util::text::lead_zeros(d) == 0);
    assert(pow10(20) == 0x56bc75e2d63100000) by {
        reveal_with_fuel(pow10, 21);
    }
    crate::util::text::lemma_dec_str_len(m, 20);
    let p = d.len() as int;
    assert(int_mag(d, p) == dec_val(d) * pow10(0));
    assert(pow10(0) == 1);
    assert(dec_val(d) * 1 == dec_val(d));
    assert(int_mag(d, p) == m);
}

} // verus!
