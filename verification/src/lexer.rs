use vstd::prelude::*;

verus! {

use crate::catcode::{classify, default_catcode_spec, CatcodeTable};
use crate::cursor::{logical_of, logical_stream, spans_wf, LChar};
use crate::cursor::lemma_logical_spans;
use crate::token::{Span, Token, TokenSpec, TokenType};

/// The whitespace condition of the scanner: at the start of a line, in the
/// middle of a line, or skipping blanks (after a space token or a control
/// word).
#[derive(Debug, Clone, Copy, PartialEq, Eq, Structural)]
pub enum State {
    N,
    M,
    S,
}

/// The mathematical shadow of a [`Lexer`]: the logical input stream, the
/// scan position within it, the whitespace state, the catcode table, and
/// the recorded positions of invalid characters.
#[verifier::ext_equal]
pub ghost struct LexState {
    pub input: Seq<LChar>,
    pub pos: int,
    pub state: State,
    pub cats: Seq<TokenType>,
    pub diags: Seq<usize>,
}

impl LexState {
    /// The scan position stays within the input and the catcode table has
    /// one entry per byte value.
    pub open spec fn wf(self) -> bool {
        0 <= self.pos <= self.input.len() && self.cats.len() == 256
    }
}

/// A hexadecimal digit as the raw-character notation reads them: `0`-`9`
/// or lower-case `a`-`f`.
pub open spec fn is_hex_digit(b: u8) -> bool {
    (0x30 <= b && b <= 0x39) || (0x61 <= b && b <= 0x66)
}

/// The value of a hexadecimal digit.
pub open spec fn hex_val(b: u8) -> u8 {
    if b <= 0x39 {
        (b - 0x30) as u8
    } else {
        (b - 0x61 + 10) as u8
    }
}

/// The control fold: the decoded byte is the folded byte minus 64, taken
/// modulo 256 (so `M`, code 77, folds to 13).
pub open spec fn fold64(b: u8) -> u8 {
    if b >= 64 {
        (b - 64) as u8
    } else {
        (b + 192) as u8
    }
}

/// Whether the two-superscript raw-character pattern triggers for the
/// current character `c` when the next unread logical character sits at
/// `p`: `c` classifies superscript, the character at `p` is identical to
/// it, and one more character follows whose code is below 128.
pub open spec fn ss_matches(cats: Seq<TokenType>, input: Seq<LChar>, c: u8, p: int) -> bool {
    &&& classify(cats, c) == TokenType::Superscript
    &&& 0 <= p
    &&& p + 1 < input.len()
    &&& input[p].b == c
    &&& input[p + 1].b < 128
}

/// One step of raw-character decoding once the pattern has triggered at
/// `p`: the identical superscript at `p` is consumed, then either a pair
/// of hexadecimal digits naming the byte, or a single character decoded by
/// the control fold. Yields the decoded byte and the next unread position.
pub open spec fn decode_step(input: Seq<LChar>, p: int) -> (u8, int) {
    let d = input[p + 1].b;
    if is_hex_digit(d) && p + 2 < input.len() && is_hex_digit(input[p + 2].b) {
        ((hex_val(d) * 16 + hex_val(input[p + 2].b)) as u8, p + 3)
    } else {
        (fold64(d), p + 2)
    }
}

/// The logical character the scanner works on, after raw-character
/// decoding has cascaded as far as it reaches: starting from the character
/// `c` whose source ends at `p`, each round of the pattern consumes input
/// and feeds the decoded byte back into classification. Yields the final
/// character and the next unread position.
pub open spec fn fetch(cats: Seq<TokenType>, input: Seq<LChar>, c: u8, p: int) -> (u8, int)
    decreases input.len() - p when 0 <= p <= input.len()
{
    if ss_matches(cats, input, c, p) {
        let step = decode_step(input, p);
        fetch(cats, input, step.0, step.1)
    } else {
        (c, p)
    }
}

pub proof fn lemma_fetch_bounds(cats: Seq<TokenType>, input: Seq<LChar>, c: u8, p: int)
    requires
        0 <= p <= input.len(),
    ensures
        p <= fetch(cats, input, c, p).1 <= input.len(),
    decreases input.len() - p,
{
    if ss_matches(cats, input, c, p) {
        let step = decode_step(input, p);
        lemma_fetch_bounds(cats, input, step.0, step.1);
    }
}

/// The name accumulated by the control-word scanner from position `p` on:
/// every further letter (each raw-character-decoded first) joins `acc`;
/// the first character that does not classify as a letter is left unread.
/// Yields the full name and the next unread position.
pub open spec fn cw_scan(cats: Seq<TokenType>, input: Seq<LChar>, p: int, acc: Seq<u8>) -> (
    Seq<u8>,
    int,
)
    decreases input.len() - p when 0 <= p <= input.len()
{
    if p >= input.len() {
        (acc, p)
    } else {
        proof {
            lemma_fetch_bounds(cats, input, input[p].b, p + 1);
        }
        let fr = fetch(cats, input, input[p].b, p + 1);
        if classify(cats, fr.0) == TokenType::Letter {
            cw_scan(cats, input, fr.1, acc.push(fr.0))
        } else {
            (acc, p)
        }
    }
}

pub proof fn lemma_cw_scan_bounds(cats: Seq<TokenType>, input: Seq<LChar>, p: int, acc: Seq<u8>)
    requires
        0 <= p <= input.len(),
    ensures
        p <= cw_scan(cats, input, p, acc).1 <= input.len(),
    decreases input.len() - p,
{
    if p < input.len() {
        lemma_fetch_bounds(cats, input, input[p].b, p + 1);
        let fr = fetch(cats, input, input[p].b, p + 1);
        if classify(cats, fr.0) == TokenType::Letter {
            lemma_cw_scan_bounds(cats, input, fr.1, acc.push(fr.0));
        }
    }
}

/// Where the run of consecutive space-classified characters starting at
/// `p` ends.
pub open spec fn space_run_end(cats: Seq<TokenType>, input: Seq<LChar>, p: int) -> int
    decreases input.len() - p when 0 <= p <= input.len()
{
    if p < input.len() && classify(cats, input[p].b) == TokenType::Space {
        space_run_end(cats, input, p + 1)
    } else {
        p
    }
}

pub proof fn lemma_space_run_bounds(cats: Seq<TokenType>, input: Seq<LChar>, p: int)
    requires
        0 <= p <= input.len(),
    ensures
        p <= space_run_end(cats, input, p) <= input.len(),
    decreases input.len() - p,
{
    if p < input.len() && classify(cats, input[p].b) == TokenType::Space {
        lemma_space_run_bounds(cats, input, p + 1);
    }
}

/// Where the comment starting after a comment character at position `p`
/// ends: the index of the next end-of-line-classified character (left
/// unread), or the end of the input.
pub open spec fn comment_end(cats: Seq<TokenType>, input: Seq<LChar>, p: int) -> int
    decreases input.len() - p when 0 <= p <= input.len()
{
    if p < input.len() && classify(cats, input[p].b) != TokenType::Eol {
        comment_end(cats, input, p + 1)
    } else {
        p
    }
}

pub proof fn lemma_comment_end_bounds(cats: Seq<TokenType>, input: Seq<LChar>, p: int)
    requires
        0 <= p <= input.len(),
    ensures
        p <= comment_end(cats, input, p) <= input.len(),
    decreases input.len() - p,
{
    if p < input.len() && classify(cats, input[p].b) != TokenType::Eol {
        lemma_comment_end_bounds(cats, input, p + 1);
    }
}

/// The text of the synthetic paragraph-break token.
pub open spec fn par_text() -> Seq<u8> {
    seq![0x70, 0x61, 0x72]
}

/// The token covering logical characters `s..e`, with its source span
/// taken from the raw spans of those characters.
pub open spec fn token_at(
    input: Seq<LChar>,
    typ: TokenType,
    s: int,
    e: int,
    text: Seq<u8>,
) -> TokenSpec {
    TokenSpec {
        typ,
        start: input[s].start as int,
        end: input[e - 1].end as int,
        text,
    }
}

/// What one token request does to a lexer in state `st`: the state after
/// the request and the token produced, or `None` when the input is
/// exhausted. This is the whole scanner: classification through the
/// catcode table (with raw-character decoding folded into every character
/// fetch), control-sequence scanning, comment discarding, the
/// new-line / mid-line / skip-blanks whitespace machine, and the dropping
/// of ignored and invalid characters.
pub open spec fn spec_next(st: LexState) -> (LexState, Option<TokenSpec>)
    decreases st.input.len() - st.pos when st.wf()
{
    if st.pos >= st.input.len() {
        (st, None)
    } else {
        proof {
            lemma_fetch_bounds(st.cats, st.input, st.input[st.pos].b, st.pos + 1);
        }
        let start = st.pos;
        let fr = fetch(st.cats, st.input, st.input[start].b, start + 1);
        let c = fr.0;
        let p = fr.1;
        let typ = classify(st.cats, c);
        match typ {
            TokenType::Escape => {
                if p >= st.input.len() {
                    // Input exhausted right after the escape character:
                    // the null control sequence.
                    (
                        LexState { pos: p, state: State::M, ..st },
                        Some(token_at(st.input, TokenType::Escape, start, p, Seq::empty())),
                    )
                } else {
                    proof {
                        lemma_fetch_bounds(st.cats, st.input, st.input[p].b, p + 1);
                    }
                    let fr1 = fetch(st.cats, st.input, st.input[p].b, p + 1);
                    let c1 = fr1.0;
                    let p1 = fr1.1;
                    let t1 = classify(st.cats, c1);
                    if t1 == TokenType::Eol {
                        // Null control sequence: the end of line is left
                        // unread.
                        (
                            LexState { pos: p, state: State::M, ..st },
                            Some(token_at(st.input, TokenType::Escape, start, p, Seq::empty())),
                        )
                    } else if t1 == TokenType::Letter {
                        // Control word: accumulate the letter run.
                        let cw = cw_scan(st.cats, st.input, p1, seq![c1]);
                        (
                            LexState { pos: cw.1, state: State::S, ..st },
                            Some(token_at(st.input, TokenType::Escape, start, cw.1, cw.0)),
                        )
                    } else {
                        // Control symbol: exactly one more character.
                        (
                            LexState { pos: p1, state: State::M, ..st },
                            Some(token_at(st.input, TokenType::Escape, start, p1, seq![c1])),
                        )
                    }
                }
            },
            TokenType::Eol => match st.state {
                State::N => (
                    LexState { pos: p, ..st },
                    Some(TokenSpec { typ: TokenType::Escape, start: 0, end: 0, text: par_text() }),
                ),
                State::M => (
                    LexState { pos: p, state: State::N, ..st },
                    Some(token_at(st.input, TokenType::Space, start, p, seq![0x20u8])),
                ),
                State::S => spec_next(LexState { pos: p, ..st }),
            },
            TokenType::Space => match st.state {
                State::M => {
                    proof {
                        lemma_space_run_bounds(st.cats, st.input, p);
                    }
                    let e = space_run_end(st.cats, st.input, p);
                    (
                        LexState { pos: e, state: State::S, ..st },
                        Some(token_at(st.input, TokenType::Space, start, e, seq![0x20u8])),
                    )
                },
                _ => spec_next(LexState { pos: p, ..st }),
            },
            TokenType::Ignored => spec_next(LexState { pos: p, ..st }),
            TokenType::Comment => {
                proof {
                    lemma_comment_end_bounds(st.cats, st.input, p);
                }
                spec_next(LexState { pos: comment_end(st.cats, st.input, p), ..st })
            },
            TokenType::Invalid => spec_next(
                LexState { pos: p, diags: st.diags.push(st.input[start].start), ..st },
            ),
            _ => (
                LexState { pos: p, state: State::M, ..st },
                Some(token_at(st.input, typ, start, p, seq![c])),
            ),
        }
    }
}

/// Whether token `t`'s range is exactly the raw span of the logical
/// characters `s..e`.
pub open spec fn spanned(input: Seq<LChar>, s: int, e: int, t: TokenSpec) -> bool {
    t.start == input[s].start as int && t.end == input[e - 1].end as int
}

/// Whether token `t`'s range is the raw span of some run of logical
/// characters lying between positions `lo` and `hi`.
pub open spec fn token_from(input: Seq<LChar>, lo: int, hi: int, t: TokenSpec) -> bool {
    exists|s: int, e: int| lo <= s < e <= hi && #[trigger] spanned(input, s, e, t)
}

pub proof fn lemma_token_from_widen(
    input: Seq<LChar>,
    lo1: int,
    hi1: int,
    lo2: int,
    hi2: int,
    t: TokenSpec,
)
    requires
        token_from(input, lo1, hi1, t),
        lo2 <= lo1,
        hi1 <= hi2,
    ensures
        token_from(input, lo2, hi2, t),
{
    let (s, e) = choose|s: int, e: int| lo1 <= s < e <= hi1 && #[trigger] spanned(input, s, e, t);
    assert(spanned(input, s, e, t));
}

/// One token request leaves the input and the catcode table alone, never
/// moves the position backwards, exhausts the input exactly when it yields
/// no token, strictly advances whenever it yields one, and every token
/// with a textual origin takes its range from logical characters passed
/// over during the request.
pub proof fn lemma_spec_next_props(st: LexState)
    requires
        st.wf(),
    ensures
        spec_next(st).0.wf(),
        spec_next(st).0.input == st.input,
        spec_next(st).0.cats == st.cats,
        st.pos <= spec_next(st).0.pos,
        spec_next(st).1 is None ==> spec_next(st).0.pos == st.input.len(),
        spec_next(st).1 is Some ==> st.pos < spec_next(st).0.pos,
        spec_next(st).1 matches Some(t) ==> ((t.start != 0 || t.end != 0) ==> token_from(
            st.input,
            st.pos,
            spec_next(st).0.pos,
            t,
        )),
    decreases st.input.len() - st.pos,
{
    if st.pos < st.input.len() {
        lemma_fetch_bounds(st.cats, st.input, st.input[st.pos].b, st.pos + 1);
        let start = st.pos;
        let fr = fetch(st.cats, st.input, st.input[start].b, start + 1);
        let c = fr.0;
        let p = fr.1;
        let typ = classify(st.cats, c);
        match typ {
            TokenType::Escape => {
                if p >= st.input.len() {
                    let t = token_at(st.input, TokenType::Escape, start, p, Seq::empty());
                    assert(spanned(st.input, start, p, t));
                } else {
                    lemma_fetch_bounds(st.cats, st.input, st.input[p].b, p + 1);
                    let fr1 = fetch(st.cats, st.input, st.input[p].b, p + 1);
                    let t1 = classify(st.cats, fr1.0);
                    if t1 == TokenType::Eol {
                        let t = token_at(st.input, TokenType::Escape, start, p, Seq::empty());
                        assert(spanned(st.input, start, p, t));
                    } else if t1 == TokenType::Letter {
                        lemma_cw_scan_bounds(st.cats, st.input, fr1.1, seq![fr1.0]);
                        let cw = cw_scan(st.cats, st.input, fr1.1, seq![fr1.0]);
                        let t = token_at(st.input, TokenType::Escape, start, cw.1, cw.0);
                        assert(spanned(st.input, start, cw.1, t));
                    } else {
                        let t = token_at(st.input, TokenType::Escape, start, fr1.1, seq![fr1.0]);
                        assert(spanned(st.input, start, fr1.1, t));
                    }
                }
            },
            TokenType::Eol => match st.state {
                State::N => {},
                State::M => {
                    let t = token_at(st.input, TokenType::Space, start, p, seq![0x20u8]);
                    assert(spanned(st.input, start, p, t));
                },
                State::S => {
                    let st1 = LexState { pos: p, ..st };
                    lemma_spec_next_props(st1);
                    match spec_next(st1).1 {
                        Some(t) => {
                            if t.start != 0 || t.end != 0 {
                                lemma_token_from_widen(
                                    st.input,
                                    st1.pos,
                                    spec_next(st1).0.pos,
                                    st.pos,
                                    spec_next(st1).0.pos,
                                    t,
                                );
                            }
                        },
                        None => {},
                    }
                },
            },
            TokenType::Space => match st.state {
                State::M => {
                    lemma_space_run_bounds(st.cats, st.input, p);
                    let e = space_run_end(st.cats, st.input, p);
                    let t = token_at(st.input, TokenType::Space, start, e, seq![0x20u8]);
                    assert(spanned(st.input, start, e, t));
                },
                _ => {
                    let st1 = LexState { pos: p, ..st };
                    lemma_spec_next_props(st1);
                    match spec_next(st1).1 {
                        Some(t) => {
                            if t.start != 0 || t.end != 0 {
                                lemma_token_from_widen(
                                    st.input,
                                    st1.pos,
                                    spec_next(st1).0.pos,
                                    st.pos,
                                    spec_next(st1).0.pos,
                                    t,
                                );
                            }
                        },
                        None => {},
                    }
                },
            },
            TokenType::Ignored => {
                let st1 = LexState { pos: p, ..st };
                lemma_spec_next_props(st1);
                match spec_next(st1).1 {
                    Some(t) => {
                        if t.start != 0 || t.end != 0 {
                            lemma_token_from_widen(
                                st.input,
                                st1.pos,
                                spec_next(st1).0.pos,
                                st.pos,
                                spec_next(st1).0.pos,
                                t,
                            );
                        }
                    },
                    None => {},
                }
            },
            TokenType::Comment => {
                lemma_comment_end_bounds(st.cats, st.input, p);
                let st1 = LexState { pos: comment_end(st.cats, st.input, p), ..st };
                lemma_spec_next_props(st1);
                match spec_next(st1).1 {
                    Some(t) => {
                        if t.start != 0 || t.end != 0 {
                            lemma_token_from_widen(
                                st.input,
                                st1.pos,
                                spec_next(st1).0.pos,
                                st.pos,
                                spec_next(st1).0.pos,
                                t,
                            );
                        }
                    },
                    None => {},
                }
            },
            TokenType::Invalid => {
                let st1 = LexState { pos: p, diags: st.diags.push(st.input[start].start), ..st };
                lemma_spec_next_props(st1);
                match spec_next(st1).1 {
                    Some(t) => {
                        if t.start != 0 || t.end != 0 {
                            lemma_token_from_widen(
                                st.input,
                                st1.pos,
                                spec_next(st1).0.pos,
                                st.pos,
                                spec_next(st1).0.pos,
                                t,
                            );
                        }
                    },
                    None => {},
                }
            },
            _ => {
                let t = token_at(st.input, typ, start, p, seq![c]);
                assert(spanned(st.input, start, p, t));
            },
        }
    }
}

/// The whole token sequence a lexer in state `st` yields if tokens are
/// requested until the input is exhausted.
pub open spec fn token_stream(st: LexState) -> Seq<TokenSpec>
    decreases st.input.len() - st.pos when st.wf() via token_stream_decreases
{
    match spec_next(st).1 {
        None => Seq::empty(),
        Some(t) => seq![t] + token_stream(spec_next(st).0),
    }
}

#[via_fn]
proof fn token_stream_decreases(st: LexState) {
    if st.wf() {
        lemma_spec_next_props(st);
    }
}

/// The views of a sequence of tokens.
pub open spec fn views_of(v: Seq<Token>) -> Seq<TokenSpec> {
    v.map_values(|t: Token| t@)
}

/// The lexer: pulls category-coded tokens out of its input, one per
/// request, reading the catcode table fresh on every classification.
pub struct Lexer {
    input: Vec<LChar>,
    pos: usize,
    state: State,
    catcodes: CatcodeTable,
    diagnostics: Vec<usize>,
}

impl View for Lexer {
    type V = LexState;

    closed spec fn view(&self) -> LexState {
        LexState {
            input: self.input@,
            pos: self.pos as int,
            state: self.state,
            cats: self.catcodes@,
            diags: self.diagnostics@,
        }
    }
}

fn is_hex(b: u8) -> (r: bool)
    ensures
        r == is_hex_digit(b),
{
    (0x30 <= b && b <= 0x39) || (0x61 <= b && b <= 0x66)
}

fn hex_value(b: u8) -> (r: u8)
    requires
        is_hex_digit(b),
    ensures
        r == hex_val(b),
{
    if b <= 0x39 {
        b - 0x30
    } else {
        b - 0x61 + 10
    }
}

fn fold_back(b: u8) -> (r: u8)
    ensures
        r == fold64(b),
{
    if b >= 64 {
        b - 64
    } else {
        b + 192
    }
}

impl Lexer {
    /// A lexer is well formed when its position sits within the input, the
    /// catcode table is complete, and the logical characters' raw spans
    /// are ordered and non-overlapping.
    pub open spec fn wf(&self) -> bool {
        self@.wf() && spans_wf(self@.input, 0, usize::MAX as int)
    }

    /// A fresh lexer over a whole raw input: the cursor turns it into the
    /// logical stream (lines trimmed of trailing blanks, one end-of-line
    /// character each), the state starts at new-line, the catcode table at
    /// the defaults, and no invalid characters have been seen.
    pub fn new(input: Vec<u8>) -> (l: Lexer)
        ensures
            l.wf(),
            l@.input == logical_of(input@),
            l@.pos == 0,
            l@.state == State::N,
            forall|b: u8| classify(l@.cats, b) == default_catcode_spec(b),
            l@.diags == Seq::<usize>::empty(),
            spans_wf(l@.input, 0, input@.len() as int),
    {
        let n = input.len();
        let stream = logical_stream(&input);
        proof {
            // The raw length is a usize, so the cursor lemma applies.
            assert(input@.len() == n);
            lemma_logical_spans(input@, 0);
        }
        Lexer {
            input: stream,
            pos: 0,
            state: State::N,
            catcodes: CatcodeTable::new(),
            diagnostics: Vec::new(),
        }
    }

    /// Overrides the category of byte `b` for every later classification;
    /// nothing else about the lexer changes.
    pub fn set_catcode(&mut self, b: u8, cat: TokenType)
        requires
            old(self).wf(),
        ensures
            final(self).wf(),
            final(self)@.cats == old(self)@.cats.update(b as int, cat),
            final(self)@.input == old(self)@.input,
            final(self)@.pos == old(self)@.pos,
            final(self)@.state == old(self)@.state,
            final(self)@.diags == old(self)@.diags,
    {
        self.catcodes.set(b, cat);
    }

    /// The category the current table assigns to byte `b`: the override if
    /// one was set, the default classification otherwise.
    pub fn catcode_of(&self, b: u8) -> (t: TokenType)
        requires
            self.wf(),
        ensures
            t == classify(self@.cats, b),
    {
        self.catcodes.get(b)
    }

    /// The raw input positions of the invalid characters dropped so far,
    /// in the order they were met: the non-fatal diagnostics channel.
    pub fn invalid_positions(&self) -> (d: &Vec<usize>)
        ensures
            d@ == self@.diags,
    {
        &self.diagnostics
    }

    /// Reads the logical character the scanner is to work on, given the
    /// already-read character `c0` whose source ends at `p0`: cascades the
    /// two-superscript raw-character decoding as far as it reaches.
    fn fetch_char(&self, c0: u8, p0: usize) -> (r: (u8, usize))
        requires
            self.wf(),
            p0 <= self@.input.len(),
        ensures
            r.0 == fetch(self@.cats, self@.input, c0, p0 as int).0,
            r.1 == fetch(self@.cats, self@.input, c0, p0 as int).1,
            p0 <= r.1 <= self@.input.len(),
    {
        let mut c = c0;
        let mut p = p0;
        loop
            invariant
                self.wf(),
                p0 <= p <= self@.input.len(),
                fetch(self@.cats, self@.input, c0, p0 as int) == fetch(
                    self@.cats,
                    self@.input,
                    c,
                    p as int,
                ),
            ensures
                c == fetch(self@.cats, self@.input, c0, p0 as int).0,
                p == fetch(self@.cats, self@.input, c0, p0 as int).1,
            decreases self@.input.len() - p,
        {
            let trig = p < self.input.len() && p + 1 < self.input.len() && self.catcodes.get(c)
                == TokenType::Superscript
                && self.input[p].b == c && self.input[p + 1].b < 128;
            proof {
                assert(trig == ss_matches(self@.cats, self@.input, c, p as int));
            }
            if !trig {
                break ;
            }
            let d = self.input[p + 1].b;
            if is_hex(d) && p + 2 < self.input.len() && is_hex(self.input[p + 2].b) {
                c = hex_value(d) * 16 + hex_value(self.input[p + 2].b);
                p = p + 3;
            } else {
                c = fold_back(d);
                p = p + 2;
            }
        }
        (c, p)
    }

    /// Produces the next token, or `None` once the input is exhausted:
    /// exactly what [`spec_next`] says of the state the lexer was in, both
    /// for the token and for the state left behind.
    #[verifier::rlimit(60)]
    pub fn next(&mut self) -> (r: Option<Token>)
        requires
            old(self).wf(),
        ensures
            final(self).wf(),
            spec_next(old(self)@).0 == final(self)@,
            match r {
                Some(tok) => spec_next(old(self)@).1 == Some(tok@),
                None => spec_next(old(self)@).1 == None::<TokenSpec>,
            },
            final(self)@.input == old(self)@.input,
            final(self)@.cats == old(self)@.cats,
            old(self)@.pos <= final(self)@.pos,
            r is None ==> final(self)@.pos == final(self)@.input.len(),
            r is Some ==> old(self)@.pos < final(self)@.pos,
    {
        let ghost st0 = self@;
        proof {
            lemma_spec_next_props(st0);
        }
        loop
            invariant
                self.wf(),
                st0 == old(self)@,
                spec_next(st0) == spec_next(self@),
                spec_next(st0).0.input == st0.input,
                spec_next(st0).0.cats == st0.cats,
                st0.pos <= spec_next(st0).0.pos,
                spec_next(st0).1 is None ==> spec_next(st0).0.pos == st0.input.len(),
                spec_next(st0).1 is Some ==> st0.pos < spec_next(st0).0.pos,
            decreases self@.input.len() - self@.pos,
        {
            let ghost stit = self@;
            if self.pos >= self.input.len() {
                proof {
                    assert(spec_next(stit) == (stit, None::<TokenSpec>));
                }
                return None;
            }
            let start = self.pos;
            let c0 = self.input[start].b;
            let fr = self.fetch_char(c0, start + 1);
            let c = fr.0;
            let p = fr.1;
            let typ = self.catcodes.get(c);
            match typ {
                TokenType::Escape => {
                    if p >= self.input.len() {
                        // Input exhausted right after the escape: the null
                        // control sequence.
                        self.pos = p;
                        self.state = State::M;
                        let tok = Token {
                            typ: TokenType::Escape,
                            range: Span { start: self.input[start].start, end: self.input[p - 1].end },
                            source: Vec::new(),
                        };
                        proof {
                            assert(tok.source@ =~= Seq::<u8>::empty());
                            assert(spec_next(stit) == (self@, Some(tok@)));
                        }
                        return Some(tok);
                    }
                    let fr1 = self.fetch_char(self.input[p].b, p + 1);
                    let c1 = fr1.0;
                    let p1 = fr1.1;
                    let t1 = self.catcodes.get(c1);
                    if t1 == TokenType::Eol {
                        // Null control sequence; the end of line stays unread.
                        self.pos = p;
                        self.state = State::M;
                        let tok = Token {
                            typ: TokenType::Escape,
                            range: Span { start: self.input[start].start, end: self.input[p - 1].end },
                            source: Vec::new(),
                        };
                        proof {
                            assert(tok.source@ =~= Seq::<u8>::empty());
                            assert(spec_next(stit) == (self@, Some(tok@)));
                        }
                        return Some(tok);
                    } else if t1 == TokenType::Letter {
                        // Control word: accumulate the letter run, each
                        // character raw-character-decoded first.
                        let mut name: Vec<u8> = Vec::new();
                        name.push(c1);
                        proof {
                            assert(name@ =~= seq![c1]);
                        }
                        let mut e: usize = p1;
                        loop
                            invariant
                                self.wf(),
                                p1 <= e <= self@.input.len(),
                                cw_scan(self@.cats, self@.input, p1 as int, seq![c1]) == cw_scan(
                                    self@.cats,
                                    self@.input,
                                    e as int,
                                    name@,
                                ),
                            ensures
                                p1 <= e <= self@.input.len(),
                                cw_scan(self@.cats, self@.input, p1 as int, seq![c1]) == (
                                    name@,
                                    e as int,
                                ),
                            decreases self@.input.len() - e,
                        {
                            if e >= self.input.len() {
                                proof {
                                    assert(cw_scan(self@.cats, self@.input, e as int, name@) == (
                                        name@,
                                        e as int,
                                    ));
                                }
                                break ;
                            }
                            let fr2 = self.fetch_char(self.input[e].b, e + 1);
                            let c2 = fr2.0;
                            let p2 = fr2.1;
                            if self.catcodes.get(c2) == TokenType::Letter {
                                proof {
                                    assert(cw_scan(self@.cats, self@.input, e as int, name@)
                                        == cw_scan(
                                        self@.cats,
                                        self@.input,
                                        p2 as int,
                                        name@.push(c2),
                                    ));
                                }
                                name.push(c2);
                                e = p2;
                            } else {
                                proof {
                                    assert(cw_scan(self@.cats, self@.input, e as int, name@) == (
                                        name@,
                                        e as int,
                                    ));
                                }
                                break ;
                            }
                        }
                        self.pos = e;
                        self.state = State::S;
                        let tok = Token {
                            typ: TokenType::Escape,
                            range: Span { start: self.input[start].start, end: self.input[e - 1].end },
                            source: name,
                        };
                        proof {
                            assert(spec_next(stit) == (self@, Some(tok@)));
                        }
                        return Some(tok);
                    } else {
                        // Control symbol: exactly one more character.
                        self.pos = p1;
                        self.state = State::M;
                        let mut src: Vec<u8> = Vec::new();
                        src.push(c1);
                        let tok = Token {
                            typ: TokenType::Escape,
                            range: Span {
                                start: self.input[start].start,
                                end: self.input[p1 - 1].end,
                            },
                            source: src,
                        };
                        proof {
                            assert(tok.source@ =~= seq![c1]);
                            assert(spec_next(stit) == (self@, Some(tok@)));
                        }
                        return Some(tok);
                    }
                },
                TokenType::Eol => {
                    match self.state {
                        State::N => {
                            // A line with no content yet: the synthetic
                            // paragraph break, with no textual origin.
                            self.pos = p;
                            let mut src: Vec<u8> = Vec::new();
                            src.push(0x70);
                            src.push(0x61);
                            src.push(0x72);
                            let tok = Token {
                                typ: TokenType::Escape,
                                range: Span { start: 0, end: 0 },
                                source: src,
                            };
                            proof {
                                assert(tok.source@ =~= par_text());
                                assert(spec_next(stit) == (self@, Some(tok@)));
                            }
                            return Some(tok);
                        },
                        State::M => {
                            // The end of line counts as one space.
                            self.pos = p;
                            self.state = State::N;
                            let mut src: Vec<u8> = Vec::new();
                            src.push(0x20);
                            let tok = Token {
                                typ: TokenType::Space,
                                range: Span {
                                    start: self.input[start].start,
                                    end: self.input[p - 1].end,
                                },
                                source: src,
                            };
                            proof {
                                assert(tok.source@ =~= seq![0x20u8]);
                                assert(spec_next(stit) == (self@, Some(tok@)));
                            }
                            return Some(tok);
                        },
                        State::S => {
                            // Already skipping blanks: the end of line is
                            // skipped too.
                            self.pos = p;
                            proof {
                                assert(spec_next(stit) == spec_next(self@));
                            }
                        },
                    }
                },
                TokenType::Space => {
                    match self.state {
                        State::M => {
                            // One space token for the whole run.
                            let mut e: usize = p;
                            while e < self.input.len() && self.catcodes.get(self.input[e].b)
                                == TokenType::Space
                                invariant
                                    self.wf(),
                                    p <= e <= self@.input.len(),
                                    space_run_end(self@.cats, self@.input, p as int)
                                        == space_run_end(self@.cats, self@.input, e as int),
                                decreases self@.input.len() - e,
                            {
                                e = e + 1;
                            }
                            proof {
                                assert(space_run_end(self@.cats, self@.input, e as int) == e as int);
                            }
                            self.pos = e;
                            self.state = State::S;
                            let mut src: Vec<u8> = Vec::new();
                            src.push(0x20);
                            let tok = Token {
                                typ: TokenType::Space,
                                range: Span {
                                    start: self.input[start].start,
                                    end: self.input[e - 1].end,
                                },
                                source: src,
                            };
                            proof {
                                assert(tok.source@ =~= seq![0x20u8]);
                                assert(spec_next(stit) == (self@, Some(tok@)));
                            }
                            return Some(tok);
                        },
                        _ => {
                            // At the start of a line or already skipping
                            // blanks: spaces are skipped.
                            self.pos = p;
                            proof {
                                assert(spec_next(stit) == spec_next(self@));
                            }
                        },
                    }
                },
                TokenType::Ignored => {
                    self.pos = p;
                    proof {
                        assert(spec_next(stit) == spec_next(self@));
                    }
                },
                TokenType::Comment => {
                    // Discard up to, not including, the next end of line,
                    // which the next round handles under the current state.
                    let mut e: usize = p;
                    while e < self.input.len() && self.catcodes.get(self.input[e].b)
                        != TokenType::Eol
                        invariant
                            self.wf(),
                            p <= e <= self@.input.len(),
                            comment_end(self@.cats, self@.input, p as int) == comment_end(
                                self@.cats,
                                self@.input,
                                e as int,
                            ),
                        decreases self@.input.len() - e,
                    {
                        e = e + 1;
                    }
                    proof {
                        assert(comment_end(self@.cats, self@.input, e as int) == e as int);
                    }
                    self.pos = e;
                    proof {
                        assert(spec_next(stit) == spec_next(self@));
                    }
                },
                TokenType::Invalid => {
                    // Dropped, with the character's raw position recorded.
                    let posn = self.input[start].start;
                    self.diagnostics.push(posn);
                    self.pos = p;
                    proof {
                        assert(spec_next(stit) == spec_next(self@));
                    }
                },
                _ => {
                    // Begin-group, end-group, math shift, alignment tab,
                    // parameter, superscript, subscript, letter, other,
                    // active: one token for the one character.
                    self.pos = p;
                    self.state = State::M;
                    let mut src: Vec<u8> = Vec::new();
                    src.push(c);
                    let tok = Token {
                        typ,
                        range: Span { start: self.input[start].start, end: self.input[p - 1].end },
                        source: src,
                    };
                    proof {
                        assert(tok.source@ =~= seq![c]);
                        assert(spec_next(stit) == (self@, Some(tok@)));
                    }
                    return Some(tok);
                },
            }
        }
    }

    /// Runs the scanner to the end of the input and collects every
    /// remaining token in order: exactly the sequence [`token_stream`]
    /// names for the state the lexer was in.
    pub fn tokens(&mut self) -> (v: Vec<Token>)
        requires
            old(self).wf(),
        ensures
            final(self).wf(),
            views_of(v@) == token_stream(old(self)@),
            final(self)@.pos == final(self)@.input.len(),
    {
        let ghost st0 = self@;
        let mut v: Vec<Token> = Vec::new();
        proof {
            assert(views_of(v@) =~= Seq::<TokenSpec>::empty());
        }
        loop
            invariant
                self.wf(),
                st0 == old(self)@,
                token_stream(st0) == views_of(v@) + token_stream(self@),
            ensures
                self.wf(),
                self@.pos == self@.input.len(),
                token_stream(st0) == views_of(v@),
            decreases self@.input.len() - self@.pos,
        {
            let ghost stb = self@;
            let r = self.next();
            match r {
                None => {
                    proof {
                        assert(token_stream(stb) =~= Seq::<TokenSpec>::empty());
                        assert(views_of(v@) + token_stream(stb) =~= views_of(v@));
                    }
                    break ;
                },
                Some(tok) => {
                    proof {
                        assert(token_stream(stb) == seq![tok@] + token_stream(self@));
                    }
                    let ghost vm0 = views_of(v@);
                    v.push(tok);
                    proof {
                        assert(views_of(v@) =~= vm0.push(v@[v@.len() - 1]@));
                        assert(views_of(v@) + token_stream(self@) =~= vm0 + (seq![v@[v@.len()
                            - 1]@] + token_stream(self@)));
                    }
                },
            }
        }
        v
    }
}

} // verus!
