use vstd::prelude::*;

verus! {

use crate::cursor::{lemma_spans_ordered, spans_wf};
use crate::catcode::classify;
use crate::lexer::{
    comment_end, fetch, lemma_comment_end_bounds, lemma_fetch_bounds, lemma_spec_next_props,
    lemma_token_from_widen, spanned, spec_next, token_from, token_stream, LexState, State,
};
use crate::token::{TokenSpec, TokenType};

/// Termination: the token sequence of any finite input is finite — no
/// longer than the input left to scan — because every token strictly
/// advances the cursor.
pub proof fn lemma_stream_finite(st: LexState)
    requires
        st.wf(),
    ensures
        token_stream(st).len() <= st.input.len() - st.pos,
    decreases st.input.len() - st.pos,
{
    lemma_spec_next_props(st);
    match spec_next(st).1 {
        None => {},
        Some(t) => {
            lemma_stream_finite(spec_next(st).0);
        },
    }
}

/// Every token of the stream whose range is not the empty `0..0` takes
/// that range from logical characters at or after the scan position.
pub proof fn lemma_stream_ranges(st: LexState)
    requires
        st.wf(),
    ensures
        forall|k: int|
            0 <= k < token_stream(st).len() && ((#[trigger] token_stream(st)[k]).start != 0
                || token_stream(st)[k].end != 0) ==> token_from(
                st.input,
                st.pos,
                st.input.len() as int,
                token_stream(st)[k],
            ),
    decreases st.input.len() - st.pos,
{
    lemma_spec_next_props(st);
    match spec_next(st).1 {
        None => {},
        Some(t) => {
            let st2 = spec_next(st).0;
            lemma_stream_ranges(st2);
            assert forall|k: int|
                0 <= k < token_stream(st).len() && ((#[trigger] token_stream(st)[k]).start != 0
                    || token_stream(st)[k].end != 0) implies token_from(
                st.input,
                st.pos,
                st.input.len() as int,
                token_stream(st)[k],
            ) by {
                if k == 0 {
                    assert(token_stream(st)[0] == t);
                    lemma_token_from_widen(
                        st.input,
                        st.pos,
                        st2.pos,
                        st.pos,
                        st.input.len() as int,
                        t,
                    );
                } else {
                    assert(token_stream(st)[k] == token_stream(st2)[k - 1]);
                    lemma_token_from_widen(
                        st.input,
                        st2.pos,
                        st.input.len() as int,
                        st.pos,
                        st.input.len() as int,
                        token_stream(st)[k],
                    );
                }
            }
        },
    }
}

/// Every token with a non-empty range lies within bounds: for a lexer
/// whose logical characters' spans sit below `hi` (as a fresh lexer's do,
/// with `hi` the raw input length), so does every token range.
pub proof fn lemma_ranges_in_bounds(st: LexState, hi: int, k: int)
    requires
        st.wf(),
        spans_wf(st.input, 0, hi),
        0 <= k < token_stream(st).len(),
        token_stream(st)[k].start < token_stream(st)[k].end,
    ensures
        0 <= token_stream(st)[k].start,
        token_stream(st)[k].end <= hi,
{
    lemma_stream_ranges(st);
    let t = token_stream(st)[k];
    let (s, e) = choose|s: int, e: int|
        st.pos <= s < e <= st.input.len() && #[trigger] spanned(st.input, s, e, t);
}

/// Range monotonicity: of any two tokens of the stream with non-empty
/// ranges, the earlier one's range ends no later than the later one's
/// begins.
pub proof fn lemma_range_monotone(st: LexState, i: int, j: int)
    requires
        st.wf(),
        spans_wf(st.input, 0, usize::MAX as int),
        0 <= i < j < token_stream(st).len(),
        token_stream(st)[i].start < token_stream(st)[i].end,
        token_stream(st)[j].start < token_stream(st)[j].end,
    ensures
        token_stream(st)[i].end <= token_stream(st)[j].start,
    decreases st.input.len() - st.pos,
{
    lemma_spec_next_props(st);
    match spec_next(st).1 {
        None => {},
        Some(t) => {
            let st2 = spec_next(st).0;
            if i == 0 {
                assert(token_stream(st)[0] == t);
                let tj = token_stream(st)[j];
                assert(tj == token_stream(st2)[j - 1]);
                lemma_stream_ranges(st2);
                assert(token_from(st.input, st.pos, st2.pos, t));
                assert(token_from(st.input, st2.pos, st.input.len() as int, tj));
                let (s0, e0) = choose|s: int, e: int|
                    st.pos <= s < e <= st2.pos && #[trigger] spanned(
                        st.input,
                        s,
                        e,
                        t,
                    );
                let (s1, e1) = choose|s: int, e: int|
                    st2.pos <= s < e <= st.input.len() && #[trigger] spanned(
                        st.input,
                        s,
                        e,
                        tj,
                    );
                lemma_spans_ordered(st.input, e0 - 1, s1);
            } else {
                assert(token_stream(st)[i] == token_stream(st2)[i - 1]);
                assert(token_stream(st)[j] == token_stream(st2)[j - 1]);
                lemma_range_monotone(st2, i - 1, j - 1);
            }
        },
    }
}

/// One request is blind to the diagnostics already recorded: two lexer
/// states agreeing on input, position, whitespace state and catcode table
/// yield the same token and agree again afterwards.
pub proof fn lemma_next_ignores_diags(st1: LexState, st2: LexState)
    requires
        st1.wf(),
        st2.wf(),
        st1.input == st2.input,
        st1.pos == st2.pos,
        st1.state == st2.state,
        st1.cats == st2.cats,
    ensures
        spec_next(st1).1 == spec_next(st2).1,
        spec_next(st1).0.input == spec_next(st2).0.input,
        spec_next(st1).0.pos == spec_next(st2).0.pos,
        spec_next(st1).0.state == spec_next(st2).0.state,
        spec_next(st1).0.cats == spec_next(st2).0.cats,
    decreases st1.input.len() - st1.pos,
{
    if st1.pos < st1.input.len() {
        lemma_fetch_bounds(st1.cats, st1.input, st1.input[st1.pos].b, st1.pos + 1);
        let fr = fetch(st1.cats, st1.input, st1.input[st1.pos].b, st1.pos + 1);
        let typ = classify(st1.cats, fr.0);
        match typ {
            TokenType::Eol => {
                if st1.state == State::S {
                    lemma_next_ignores_diags(
                        LexState { pos: fr.1, ..st1 },
                        LexState { pos: fr.1, ..st2 },
                    );
                }
            },
            TokenType::Space => {
                if st1.state != State::M {
                    lemma_next_ignores_diags(
                        LexState { pos: fr.1, ..st1 },
                        LexState { pos: fr.1, ..st2 },
                    );
                }
            },
            TokenType::Ignored => {
                lemma_next_ignores_diags(
                    LexState { pos: fr.1, ..st1 },
                    LexState { pos: fr.1, ..st2 },
                );
            },
            TokenType::Comment => {
                lemma_comment_end_bounds(st1.cats, st1.input, fr.1);
                let e = comment_end(st1.cats, st1.input, fr.1);
                lemma_next_ignores_diags(LexState { pos: e, ..st1 }, LexState { pos: e, ..st2 });
            },
            TokenType::Invalid => {
                lemma_next_ignores_diags(
                    LexState {
                        pos: fr.1,
                        diags: st1.diags.push(st1.input[st1.pos].start),
                        ..st1
                    },
                    LexState {
                        pos: fr.1,
                        diags: st2.diags.push(st2.input[st2.pos].start),
                        ..st2
                    },
                );
            },
            _ => {},
        }
    }
}

/// Determinism: the token sequence is a function of the input, the scan
/// position, the whitespace state and the catcode table alone — replaying
/// the same input and table yields the identical sequence, whatever
/// diagnostics either run has already gathered.
pub proof fn lemma_deterministic(st1: LexState, st2: LexState)
    requires
        st1.wf(),
        st2.wf(),
        st1.input == st2.input,
        st1.pos == st2.pos,
        st1.state == st2.state,
        st1.cats == st2.cats,
    ensures
        token_stream(st1) == token_stream(st2),
    decreases st1.input.len() - st1.pos,
{
    lemma_next_ignores_diags(st1, st2);
    lemma_spec_next_props(st1);
    lemma_spec_next_props(st2);
    match spec_next(st1).1 {
        None => {},
        Some(t) => {
            lemma_deterministic(spec_next(st1).0, spec_next(st2).0);
        },
    }
}

} // verus!
