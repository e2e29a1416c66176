use vstd::prelude::*;

verus! {

/// One character of the logical stream the scanner reads: the byte itself
/// and the half-open span of raw input bytes it stands for. The end-of-line
/// character synthesized after the final line, when the raw input does not
/// end in a newline, has an empty span at the end of the input.
#[derive(Debug, Clone, Copy, PartialEq, Eq, Structural)]
pub struct LChar {
    pub b: u8,
    pub start: usize,
    pub end: usize,
}

/// Horizontal whitespace: what is trimmed from the tail of each line.
pub open spec fn is_blank(b: u8) -> bool {
    b == 0x20 || b == 0x09
}

/// Index of the first newline byte at or after `i`, or `raw.len()` if the
/// rest of the input holds none.
pub open spec fn next_eol(raw: Seq<u8>, i: int) -> int
    decreases raw.len() - i when 0 <= i <= raw.len()
{
    if i >= raw.len() {
        raw.len() as int
    } else if raw[i] == 0x0a {
        i
    } else {
        next_eol(raw, i + 1)
    }
}

/// Where the content of the line `raw[i..k]` ends once trailing horizontal
/// whitespace is trimmed: the largest `t` with `raw[i..t]` ending in a
/// non-blank byte (or `t == i`).
pub open spec fn trim_end(raw: Seq<u8>, i: int, k: int) -> int
    decreases k - i when i <= k
{
    if k > i && is_blank(raw[k - 1]) {
        trim_end(raw, i, k - 1)
    } else {
        k
    }
}

/// The logical characters of `raw[i..]`: line by line, each line's content
/// with trailing blanks trimmed, followed by exactly one end-of-line
/// character — synthesized with an empty span when the line is not closed
/// by a newline byte. Empty raw input yields no characters at all.
pub open spec fn logical_rec(raw: Seq<u8>, i: int) -> Seq<LChar>
    decreases raw.len() - i when 0 <= i <= raw.len()
{
    if i >= raw.len() {
        Seq::empty()
    } else {
        proof {
            lemma_next_eol_bounds(raw, i);
        }
        let k = next_eol(raw, i);
        let t = trim_end(raw, i, k);
        let line = Seq::new(
            (t - i) as nat,
            |j: int| LChar { b: raw[i + j], start: (i + j) as usize, end: (i + j + 1) as usize },
        );
        if k < raw.len() {
            line + seq![LChar { b: 0x0a, start: k as usize, end: (k + 1) as usize }]
                + logical_rec(raw, k + 1)
        } else {
            line + seq![LChar { b: 0x0a, start: raw.len() as usize, end: raw.len() as usize }]
        }
    }
}

/// The logical stream of a whole raw input.
pub open spec fn logical_of(raw: Seq<u8>) -> Seq<LChar> {
    logical_rec(raw, 0)
}

pub proof fn lemma_next_eol_bounds(raw: Seq<u8>, i: int)
    requires
        0 <= i <= raw.len(),
    ensures
        i <= next_eol(raw, i) <= raw.len(),
    decreases raw.len() - i,
{
    if i < raw.len() && raw[i] != 0x0a {
        lemma_next_eol_bounds(raw, i + 1);
    }
}

/// `next_eol` is pinned down by its characterization: no newline before
/// `k`, and `k` either is a newline or the end of the input.
pub proof fn lemma_next_eol_char(raw: Seq<u8>, i: int, k: int)
    requires
        0 <= i <= k <= raw.len(),
        forall|m: int| i <= m < k ==> raw[m] != 0x0a,
        k == raw.len() || raw[k] == 0x0a,
    ensures
        next_eol(raw, i) == k,
    decreases k - i,
{
    if i < k {
        assert(raw[i] != 0x0a);
        lemma_next_eol_char(raw, i + 1, k);
    }
}

pub proof fn lemma_trim_end_bounds(raw: Seq<u8>, i: int, k: int)
    requires
        i <= k,
    ensures
        i <= trim_end(raw, i, k) <= k,
    decreases k - i,
{
    if k > i && is_blank(raw[k - 1]) {
        lemma_trim_end_bounds(raw, i, k - 1);
    }
}

/// Spans of a logical stream sit between `lo` and `hi`, never run
/// backwards, and consecutive spans never overlap.
pub open spec fn spans_wf(s: Seq<LChar>, lo: int, hi: int) -> bool {
    &&& forall|j: int|
        0 <= j < s.len() ==> lo <= (#[trigger] s[j]).start && s[j].start <= s[j].end && s[j].end
            <= hi
    &&& forall|j: int| 0 <= j && j + 1 < s.len() ==> (#[trigger] s[j]).end <= s[j + 1].start
}

/// Every logical character's span lies between `i` and the end of the raw
/// input, spans never run backwards, and consecutive spans never overlap.
pub proof fn lemma_logical_spans(raw: Seq<u8>, i: int)
    requires
        0 <= i <= raw.len(),
        raw.len() <= usize::MAX,
    ensures
        spans_wf(logical_rec(raw, i), i, raw.len() as int),
    decreases raw.len() - i,
{
    if i < raw.len() {
        let k = next_eol(raw, i);
        let t = trim_end(raw, i, k);
        lemma_next_eol_bounds(raw, i);
        lemma_trim_end_bounds(raw, i, k);
        let s = logical_rec(raw, i);
        let line = Seq::new(
            (t - i) as nat,
            |j: int| LChar { b: raw[i + j], start: (i + j) as usize, end: (i + j + 1) as usize },
        );
        if k < raw.len() {
            lemma_logical_spans(raw, k + 1);
            let eolc = LChar { b: 0x0a, start: k as usize, end: (k + 1) as usize };
            let rest = logical_rec(raw, k + 1);
            assert(s == line + seq![eolc] + rest);
            assert forall|j: int|
                0 <= j < s.len() implies i <= (#[trigger] s[j]).start && s[j].start <= s[j].end
                && s[j].end <= raw.len() by {
                if j < line.len() {
                    assert(s[j] == line[j]);
                } else if j == line.len() {
                    assert(s[j] == eolc);
                } else {
                    assert(s[j] == rest[j - line.len() - 1]);
                }
            }
            assert forall|j: int| 0 <= j && j + 1 < s.len() implies (#[trigger] s[j]).end <= s[j
                + 1].start by {
                if j + 1 < line.len() {
                    assert(s[j] == line[j] && s[j + 1] == line[j + 1]);
                } else if j + 1 == line.len() {
                    assert(s[j] == line[j] && s[j + 1] == eolc);
                } else if j + 1 == line.len() + 1 {
                    assert(s[j] == eolc && s[j + 1] == rest[0]);
                } else {
                    assert(s[j] == rest[j - line.len() - 1] && s[j + 1] == rest[j - line.len()]);
                }
            }
        } else {
            let eolc = LChar { b: 0x0a, start: raw.len() as usize, end: raw.len() as usize };
            assert(s == line + seq![eolc]);
            assert forall|j: int|
                0 <= j < s.len() implies i <= (#[trigger] s[j]).start && s[j].start <= s[j].end
                && s[j].end <= raw.len() by {
                if j < line.len() {
                    assert(s[j] == line[j]);
                } else {
                    assert(s[j] == eolc);
                }
            }
            assert forall|j: int| 0 <= j && j + 1 < s.len() implies (#[trigger] s[j]).end <= s[j
                + 1].start by {
                if j + 1 < line.len() {
                    assert(s[j] == line[j] && s[j + 1] == line[j + 1]);
                } else {
                    assert(s[j] == line[j] && s[j + 1] == eolc);
                }
            }
        }
    }
}

/// From non-overlap of consecutive spans to non-overlap of any ordered pair.
pub proof fn lemma_spans_ordered(s: Seq<LChar>, j: int, k: int)
    requires
        forall|m: int| 0 <= m < s.len() ==> (#[trigger] s[m]).start <= s[m].end,
        forall|m: int| 0 <= m && m + 1 < s.len() ==> (#[trigger] s[m]).end <= s[m + 1].start,
        0 <= j <= k < s.len(),
    ensures
        s[j].end <= s[k].end,
        j < k ==> s[j].end <= s[k].start,
    decreases k - j,
{
    if j < k {
        lemma_spans_ordered(s, j, k - 1);
        assert(s[k - 1].end <= s[k].start);
    }
}

/// Builds the logical stream of `raw`: each line trimmed of trailing
/// blanks, closed by one end-of-line character, with the raw span of every
/// character carried along.
pub fn logical_stream(raw: &Vec<u8>) -> (out: Vec<LChar>)
    ensures
        out@ == logical_of(raw@),
{
    let ghost raws = raw@;
    let mut out: Vec<LChar> = Vec::new();
    let mut i: usize = 0;
    while i < raw.len()
        invariant
            i <= raw.len(),
            raw@ == raws,
            logical_of(raws) == out@ + logical_rec(raws, i as int),
        decreases raw.len() - i,
    {
        let ghost i0 = i as int;
        // Find the end of the current line.
        let mut k: usize = i;
        while k < raw.len() && raw[k] != 0x0a
            invariant
                i0 <= k <= raw.len(),
                raw@ == raws,
                forall|m: int| i0 <= m < k ==> raws[m] != 0x0a,
            decreases raw.len() - k,
        {
            k = k + 1;
        }
        proof {
            lemma_next_eol_char(raws, i0, k as int);
        }
        // Trim trailing horizontal whitespace off the line's content.
        let mut t: usize = k;
        while t > i && (raw[t - 1] == 0x20 || raw[t - 1] == 0x09)
            invariant
                i0 == i as int,
                i0 <= t <= k <= raw.len(),
                raw@ == raws,
                trim_end(raws, i0, k as int) == trim_end(raws, i0, t as int),
            decreases t,
        {
            t = t - 1;
        }
        assert(trim_end(raws, i0, k as int) == t as int);
        let ghost line = Seq::new(
            (t - i) as nat,
            |j: int| LChar { b: raws[i0 + j], start: (i0 + j) as usize, end: (i0 + j + 1) as usize },
        );
        // The line's content, character by character.
        let ghost out0 = out@;
        let mut j: usize = i;
        while j < t
            invariant
                i0 <= j <= t <= raw.len(),
                raw@ == raws,
                line == Seq::new(
                    (t - i0) as nat,
                    |m: int| LChar {
                        b: raws[i0 + m],
                        start: (i0 + m) as usize,
                        end: (i0 + m + 1) as usize,
                    },
                ),
                out@ == out0 + line.take(j - i0),
            decreases t - j,
        {
            out.push(LChar { b: raw[j], start: j, end: j + 1 });
            proof {
                assert(out@ =~= out0 + line.take(j + 1 - i0));
            }
            j = j + 1;
        }
        assert(out@ == out0 + line) by {
            assert(line.take(t as int - i0) =~= line);
        }
        // One end-of-line character closes the line.
        if k < raw.len() {
            out.push(LChar { b: 0x0a, start: k, end: k + 1 });
            proof {
                assert(logical_rec(raws, i0) =~= line
                    + seq![LChar { b: 0x0a, start: k as usize, end: (k + 1) as usize }]
                    + logical_rec(raws, k + 1));
                assert(out@ + logical_rec(raws, k + 1) =~= out0 + logical_rec(raws, i0));
            }
            i = k + 1;
        } else {
            out.push(LChar { b: 0x0a, start: raw.len(), end: raw.len() });
            proof {
                assert(logical_rec(raws, i0) =~= line
                    + seq![LChar { b: 0x0a, start: raws.len() as usize, end: raws.len() as usize }]);
                assert(out@ + logical_rec(raws, k as int) =~= out0 + logical_rec(raws, i0));
            }
            i = k;
        }
    }
    proof {
        assert(out@ =~= out@ + logical_rec(raws, i as int));
    }
    out
}

} // verus!
