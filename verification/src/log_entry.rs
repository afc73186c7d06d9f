//! Log lines of the log window: the SGR escape sequences that tracing's ANSI
//! formatter emits are interpreted into plain text plus styled byte ranges.
use vstd::prelude::*;
use vstd::utf8::*;
use vstd::string::StringSliceAdditionalSpecFns;

use crate::utf8_text::{
    extend_from_range, lemma_after_ascii_is_boundary, lemma_ascii_is_boundary,
    lemma_subrange_valid, string_from_utf8,
};

verus! {

broadcast use vstd::utf8::group_utf8_lib;

/// The colour given to dimmed text (`ESC[2m`), as `0xRRGGBB`.
pub const DIM_COLOR: u32 = 0xa0a6ad;

/// The eight foreground colours selected by the codes 30 to 37, as `0xRRGGBB`.
pub open spec fn palette(index: int) -> u32 {
    if index == 0 {
        0x000000
    } else if index == 1 {
        0xff5555
    } else if index == 2 {
        0x28cd41
    } else if index == 3 {
        0xe5c07b
    } else if index == 4 {
        0x4aa5ff
    } else if index == 5 {
        0xc678dd
    } else if index == 6 {
        0x56b6c2
    } else {
        0xe6edf3
    }
}

/// The colour of palette entry `index` (0 to 7).
pub fn palette_color(index: u8) -> (c: u32)
    requires
        index < 8,
    ensures
        c == palette(index as int),
{
    match index {
        0 => 0x000000,
        1 => 0xff5555,
        2 => 0x28cd41,
        3 => 0xe5c07b,
        4 => 0x4aa5ff,
        5 => 0xc678dd,
        6 => 0x56b6c2,
        _ => 0xe6edf3,
    }
}

/// The style of a run of text: bold or not, and an optional `0xRRGGBB` colour.
#[derive(Clone, Copy, Debug, PartialEq, Eq)]
pub struct SpanStyle {
    pub bold: bool,
    pub color: Option<u32>,
}

impl SpanStyle {
    pub open spec fn spec_plain() -> SpanStyle {
        SpanStyle { bold: false, color: None }
    }

    /// The default style: not bold, no colour.
    pub fn plain() -> (s: SpanStyle)
        ensures
            s == SpanStyle::spec_plain(),
    {
        SpanStyle { bold: false, color: None }
    }
}

/// A styled byte range `start..end` of a log entry's text.
#[derive(Clone, Copy, Debug, PartialEq, Eq)]
pub struct Highlight {
    pub start: usize,
    pub end: usize,
    pub style: SpanStyle,
}

pub open spec fn is_digit(c: u8) -> bool {
    48 <= c <= 57
}

/// The decimal value of a sequence of ASCII digits.
pub open spec fn digits_value(d: Seq<u8>) -> int
    decreases d.len(),
{
    if d.len() == 0 {
        0
    } else {
        digits_value(d.drop_last()) * 10 + (d.last() as int - 48)
    }
}

/// The digits of an unsigned number: the text without one leading `+`.
pub open spec fn unsigned_digits(s: Seq<u8>) -> Seq<u8> {
    if s.len() > 0 && s[0] == 43 {
        s.skip(1)
    } else {
        s
    }
}

pub open spec fn all_digits(d: Seq<u8>) -> bool {
    forall|k: int| 0 <= k < d.len() ==> is_digit(#[trigger] d[k])
}

/// What std's `u8::from_str` accepts: an optional `+`, then one or more ASCII
/// digits whose value is at most 255.
pub open spec fn parse_u8(s: Seq<u8>) -> Option<u8> {
    let d = unsigned_digits(s);
    if d.len() > 0 && all_digits(d) && digits_value(d) <= 255 {
        Some(digits_value(d) as u8)
    } else {
        None
    }
}

/// The style after one SGR parameter; a parameter that does not parse counts as 0.
pub open spec fn sgr_apply(style: SpanStyle, code: Seq<u8>) -> SpanStyle {
    let v: u8 = match parse_u8(code) {
        Some(v) => v,
        None => 0,
    };
    if v == 0 {
        SpanStyle::spec_plain()
    } else if v == 1 {
        SpanStyle { bold: true, color: style.color }
    } else if v == 2 {
        SpanStyle { bold: style.bold, color: Some(DIM_COLOR) }
    } else if v == 22 {
        SpanStyle { bold: false, color: None }
    } else if 30 <= v <= 37 {
        SpanStyle { bold: style.bold, color: Some(palette(v - 30)) }
    } else if v == 39 {
        SpanStyle { bold: style.bold, color: None }
    } else {
        style
    }
}

/// The index of the first occurrence of byte `c` in `s`.
pub open spec fn find_byte(s: Seq<u8>, c: u8) -> Option<int>
    decreases s.len(),
{
    if s.len() == 0 {
        None
    } else if s[0] == c {
        Some(0)
    } else {
        match find_byte(s.skip(1), c) {
            Some(i) => Some(i + 1),
            None => None,
        }
    }
}

/// The index of the first occurrence of the two bytes `ESC [` in `s`.
pub open spec fn find_escape(s: Seq<u8>) -> Option<int>
    decreases s.len(),
{
    if s.len() < 2 {
        None
    } else if s[0] == 27 && s[1] == 91 {
        Some(0)
    } else {
        match find_escape(s.skip(1)) {
            Some(i) => Some(i + 1),
            None => None,
        }
    }
}

pub proof fn lemma_find_byte_bounds(s: Seq<u8>, c: u8)
    ensures
        find_byte(s, c) matches Some(i) ==> 0 <= i < s.len() && s[i] == c && forall|k: int|
            0 <= k < i ==> s[k] != c,
        find_byte(s, c) is None ==> forall|k: int| 0 <= k < s.len() ==> s[k] != c,
    decreases s.len(),
{
    if s.len() > 0 && s[0] != c {
        lemma_find_byte_bounds(s.skip(1), c);
        assert forall|k: int| 1 <= k < s.len() implies s[k] == s.skip(1)[k - 1] by {}
        if find_byte(s, c) is None {
            assert forall|k: int| 0 <= k < s.len() implies s[k] != c by {
                if k > 0 {
                    assert(s[k] == s.skip(1)[k - 1]);
                }
            }
        } else {
            let i = find_byte(s, c).unwrap();
            assert forall|k: int| 0 <= k < i implies s[k] != c by {
                if k > 0 {
                    assert(s[k] == s.skip(1)[k - 1]);
                }
            }
        }
    }
}

pub proof fn lemma_find_escape_bounds(s: Seq<u8>)
    ensures
        find_escape(s) matches Some(i) ==> 0 <= i && i + 1 < s.len() && s[i] == 27 && s[i + 1]
            == 91 && forall|k: int| 0 <= k < i ==> !(#[trigger] s[k] == 27 && s[k + 1] == 91),
        find_escape(s) is None ==> forall|k: int|
            0 <= k && k + 1 < s.len() ==> !(#[trigger] s[k] == 27 && s[k + 1] == 91),
    decreases s.len(),
{
    if s.len() >= 2 && !(s[0] == 27 && s[1] == 91) {
        lemma_find_escape_bounds(s.skip(1));
        if find_escape(s) is None {
            assert forall|k: int| 0 <= k && k + 1 < s.len() implies !(#[trigger] s[k] == 27
                && s[k + 1] == 91) by {
                if k > 0 {
                    assert(s[k] == s.skip(1)[k - 1] && s[k + 1] == s.skip(1)[k]);
                }
            }
        } else {
            let i = find_escape(s).unwrap();
            assert(s[i] == s.skip(1)[i - 1] && s[i + 1] == s.skip(1)[i]);
            assert forall|k: int| 0 <= k < i implies !(#[trigger] s[k] == 27 && s[k + 1] == 91) by {
                if k > 0 {
                    assert(s[k] == s.skip(1)[k - 1] && s[k + 1] == s.skip(1)[k]);
                }
            }
        }
    }
}

/// The first occurrence found by a left-to-right scan is the one `find_byte` names.
proof fn lemma_find_byte_at(s: Seq<u8>, c: u8, j: int)
    requires
        0 <= j < s.len(),
        s[j] == c,
        forall|k: int| 0 <= k < j ==> s[k] != c,
    ensures
        find_byte(s, c) == Some(j),
{
    lemma_find_byte_bounds(s, c);
    if find_byte(s, c) is None {
        assert(s[j] != c);
    }
}

proof fn lemma_find_escape_at(s: Seq<u8>, j: int)
    requires
        0 <= j && j + 1 < s.len(),
        s[j] == 27 && s[j + 1] == 91,
        forall|k: int| 0 <= k < j ==> !(#[trigger] s[k] == 27 && s[k + 1] == 91),
    ensures
        find_escape(s) == Some(j),
{
    lemma_find_escape_bounds(s);
    if find_escape(s) is None {
        assert(!(s[j] == 27 && s[j + 1] == 91));
    }
}

/// The style after the `;`-separated parameter list `params`, applied left to right.
pub open spec fn sgr_apply_all(style: SpanStyle, params: Seq<u8>) -> SpanStyle
    decreases params.len(),
{
    match find_byte(params, 59) {
        None => sgr_apply(style, params),
        Some(i) => {
            proof {
                lemma_find_byte_bounds(params, 59);
            }
            sgr_apply_all(sgr_apply(style, params.take(i)), params.skip(i + 1))
        },
    }
}

pub open spec fn starts_with_escape(s: Seq<u8>) -> bool {
    s.len() >= 2 && s[0] == 27 && s[1] == 91
}

/// The styled runs of text that `rest` yields when the current style is `style`:
/// a complete `ESC [ params m` changes the style and yields nothing; otherwise the
/// text up to the next `ESC [` (or to the end) forms one run.
pub open spec fn ansi_runs_from(rest: Seq<u8>, style: SpanStyle) -> Seq<(Seq<u8>, SpanStyle)>
    decreases rest.len(),
{
    if rest.len() == 0 {
        seq![]
    } else if starts_with_escape(rest) && find_byte(rest.skip(2), 109) is Some {
        let e = find_byte(rest.skip(2), 109).unwrap();
        proof {
            lemma_find_byte_bounds(rest.skip(2), 109);
        }
        ansi_runs_from(rest.skip(e + 3), sgr_apply_all(style, rest.subrange(2, e + 2)))
    } else {
        let end = match find_escape(rest) {
            Some(i) => if i > 0 {
                i
            } else {
                rest.len() as int
            },
            None => rest.len() as int,
        };
        proof {
            lemma_find_escape_bounds(rest);
        }
        seq![(rest.take(end), style)] + ansi_runs_from(rest.skip(end), style)
    }
}

/// The input without its one trailing newline, if it has one.
pub open spec fn strip_newline(b: Seq<u8>) -> Seq<u8> {
    if b.len() > 0 && b.last() == 10 {
        b.drop_last()
    } else {
        b
    }
}

/// The runs of a whole log line, given as its UTF-8 bytes.
pub open spec fn ansi_runs(b: Seq<u8>) -> Seq<(Seq<u8>, SpanStyle)> {
    ansi_runs_from(strip_newline(b), SpanStyle::spec_plain())
}

/// The text of a sequence of runs: their bytes concatenated.
pub open spec fn runs_text(runs: Seq<(Seq<u8>, SpanStyle)>) -> Seq<u8>
    decreases runs.len(),
{
    if runs.len() == 0 {
        seq![]
    } else {
        runs_text(runs.drop_last()) + runs.last().0
    }
}

/// Highlight `h` covers exactly run `k` of `runs` inside the text of the runs.
pub open spec fn highlight_of_run(runs: Seq<(Seq<u8>, SpanStyle)>, k: int, h: Highlight) -> bool {
    &&& h.start == runs_text(runs.take(k)).len()
    &&& h.end == runs_text(runs.take(k + 1)).len()
    &&& h.style == runs[k].1
}

/// A log line with its escape sequences interpreted.
pub struct LogEntry {
    text: String,
    highlights: Vec<Highlight>,
}

impl LogEntry {
    pub closed spec fn spec_text(&self) -> Seq<char> {
        self.text@
    }

    pub closed spec fn spec_highlights(&self) -> Seq<Highlight> {
        self.highlights@
    }

    /// The entry is what `from_ansi` makes of the bytes `input`.
    pub open spec fn is_parse_of(&self, input: Seq<u8>) -> bool {
        &&& encode_utf8(self.spec_text()) == runs_text(ansi_runs(input))
        &&& self.spec_highlights().len() == ansi_runs(input).len()
        &&& forall|k: int|
            0 <= k < self.spec_highlights().len() ==> highlight_of_run(
                ansi_runs(input),
                k,
                #[trigger] self.spec_highlights()[k],
            )
    }

    /// The text without escape sequences.
    pub fn get_text(&self) -> (t: String)
        ensures
            t@ == self.spec_text(),
    {
        self.text.clone()
    }

    /// The styled byte ranges of the text, in order.
    pub fn get_highlights(&self) -> (h: &Vec<Highlight>)
        ensures
            h@ == self.spec_highlights(),
    {
        &self.highlights
    }

    /// Interpret the SGR styles emitted by tracing's default ANSI formatter.
    ///
    /// One trailing newline is dropped. Each complete `ESC [ params m` sequence
    /// updates the style (0 resets, 1 bold, 2 dim colour, 22 normal intensity,
    /// 30 to 37 palette colours, 39 default colour); every other stretch of text
    /// is kept with the style in force and recorded as one highlight.
    #[verifier::spinoff_prover]
    #[verifier::rlimit(40)]
    pub fn from_ansi(input: &str) -> (entry: LogEntry)
        ensures
            entry.is_parse_of(input.spec_bytes()),
            encode_utf8(entry.spec_text()) == runs_text(ansi_runs(input.spec_bytes())),
            entry.spec_highlights().len() == ansi_runs(input.spec_bytes()).len(),
            forall|k: int|
                0 <= k < entry.spec_highlights().len() ==> highlight_of_run(
                    ansi_runs(input.spec_bytes()),
                    k,
                    #[trigger] entry.spec_highlights()[k],
                ),
    {
        let b = input.as_bytes();
        let ghost bs = b@;
        proof {
            encode_utf8_valid_utf8(input@);
            is_char_boundary_start_end_of_seq(bs);
        }
        let n: usize = if b.len() > 0 && b[b.len() - 1] == 10 {
            b.len() - 1
        } else {
            b.len()
        };
        proof {
            assert(strip_newline(bs) =~= bs.subrange(0, n as int));
            if n < bs.len() {
                lemma_ascii_is_boundary(bs, n as int);
            }
        }
        let mut text: Vec<u8> = Vec::new();
        let mut highlights: Vec<Highlight> = Vec::new();
        let mut style = SpanStyle::plain();
        let mut pos: usize = 0;
        let ghost mut done: Seq<(Seq<u8>, SpanStyle)> = seq![];
        assert(bs.subrange(0, n as int).subrange(0, n as int) =~= bs.subrange(0, n as int));
        while pos < n
            invariant
                bs == b@,
                valid_utf8(bs),
                n <= bs.len(),
                is_char_boundary(bs, n as int),
                0 <= pos <= n,
                is_char_boundary(bs, pos as int),
                ansi_runs(bs) == done + ansi_runs_from(bs.subrange(pos as int, n as int), style),
                text@ == runs_text(done),
                text@.len() <= pos,
                valid_utf8(text@),
                highlights@.len() == done.len(),
                forall|k: int|
                    0 <= k < done.len() ==> highlight_of_run(done, k, #[trigger] highlights@[k]),
            decreases n - pos,
        {
            let ghost rest = bs.subrange(pos as int, n as int);
            let is_escape = pos + 1 < n && b[pos] == 27 && b[pos + 1] == 91;
            let mut m_at: Option<usize> = None;
            if is_escape {
                let mut j = pos + 2;
                while j < n && b[j] != 109
                    invariant
                        bs == b@,
                        pos + 2 <= j <= n <= bs.len(),
                        forall|k: int| pos + 2 <= k < j ==> #[trigger] bs[k] != 109,
                    decreases n - j,
                {
                    j = j + 1;
                }
                if j < n && b[j] == 109 {
                    m_at = Some(j);
                }
                proof {
                    let tail = rest.skip(2);
                    assert(tail =~= bs.subrange(pos + 2, n as int));
                    if j < n && bs[j as int] == 109 {
                        lemma_find_byte_at(tail, 109, j - pos - 2);
                    } else {
                        lemma_find_byte_bounds(tail, 109);
                        if find_byte(tail, 109) is Some {
                            let e = find_byte(tail, 109).unwrap();
                            assert(tail[e] == bs[pos + 2 + e]);
                            assert(bs[pos + 2 + e] == 109);
                        }
                        assert(find_byte(tail, 109) is None);
                    }
                }
                assert(m_at is None ==> find_byte(rest.skip(2), 109) is None);
            }
            assert(rest.len() == n - pos);
            assert(rest.len() >= 2 ==> rest[0] == bs[pos as int] && rest[1] == bs[pos + 1]);
            match m_at {
                Some(j) => {
                    let new_style = apply_sgr_params(style, b, pos + 2, j);
                    proof {
                        assert(starts_with_escape(rest));
                        assert(rest.skip(2) =~= bs.subrange(pos + 2, n as int));
                        assert(rest.subrange(2, j - pos) =~= bs.subrange(pos + 2, j as int));
                        assert(rest.skip(j - pos + 1) =~= bs.subrange(j + 1, n as int));
                        lemma_after_ascii_is_boundary(bs, j as int);
                    }
                    style = new_style;
                    pos = j + 1;
                },
                None => {
                    let mut end = n;
                    if !is_escape {
                        let mut k = pos;
                        while k < n - 1 && !(b[k] == 27 && b[k + 1] == 91)
                            invariant
                                bs == b@,
                                pos < n,
                                pos <= k <= n <= bs.len(),
                                forall|q: int| pos <= q < k ==> !(#[trigger] bs[q] == 27 && bs[q + 1] == 91),
                            decreases n - k,
                        {
                            k = k + 1;
                        }
                        if k < n - 1 && b[k] == 27 && b[k + 1] == 91 {
                            end = k;
                        }
                        proof {
                            if k + 1 < n && bs[k as int] == 27 && bs[k + 1] == 91 {
                                lemma_find_escape_at(rest, k - pos);
                                lemma_ascii_is_boundary(bs, k as int);
                            } else {
                                lemma_find_escape_bounds(rest);
                                if find_escape(rest) is Some {
                                    let e = find_escape(rest).unwrap();
                                    assert(bs[pos + e] == 27 && bs[pos + e + 1] == 91);
                                }
                            }
                        }
                    } else {
                        proof {
                            lemma_find_escape_at(rest, 0);
                        }
                    }
                    assert(end > pos);
                    let start = text.len();
                    proof {
                        lemma_subrange_valid(bs, pos as int, end as int);
                    }
                    extend_from_range(&mut text, b, pos, end);
                    let h = Highlight { start, end: text.len(), style };
                    proof {
                        let run = (bs.subrange(pos as int, end as int), style);
                        assert(rest.take(end - pos) =~= run.0);
                        assert(rest.skip(end - pos) =~= bs.subrange(end as int, n as int));
                        assert(!(starts_with_escape(rest) && find_byte(rest.skip(2), 109) is Some));
                        assert(ansi_runs_from(rest, style) == seq![(rest.take(end - pos), style)]
                            + ansi_runs_from(rest.skip(end - pos), style));
                        let nd = done.push(run);
                        assert(nd.drop_last() =~= done);
                        assert(nd.take(nd.len() - 1) =~= done);
                        assert(nd.take(nd.len() as int) =~= nd);
                        assert forall|q: int| 0 <= q < done.len() implies highlight_of_run(
                            nd,
                            q,
                            #[trigger] highlights@[q],
                        ) by {
                            assert(nd.take(q) =~= done.take(q));
                            assert(nd.take(q + 1) =~= done.take(q + 1));
                        }
                        assert(done + ansi_runs_from(rest, style) =~= nd + ansi_runs_from(
                            bs.subrange(end as int, n as int),
                            style,
                        ));
                        valid_utf8_concat(runs_text(done), run.0);
                        done = nd;
                    }
                    highlights.push(h);
                    pos = end;
                },
            }
        }
        proof {
            assert(bs.subrange(pos as int, n as int).len() == 0);
            assert(done + seq![] =~= done);
            decode_utf8_encode_utf8(text@);
        }
        LogEntry { text: string_from_utf8(text), highlights }
    }
}

/// Parse `b[lo..hi]` as std's `u8::from_str` would.
fn parse_code(b: &[u8], lo: usize, hi: usize) -> (r: Option<u8>)
    requires
        lo <= hi <= b@.len(),
    ensures
        r == parse_u8(b@.subrange(lo as int, hi as int)),
{
    let ghost s = b@.subrange(lo as int, hi as int);
    let mut start = lo;
    if hi > lo && b[lo] == 43 {
        start = lo + 1;
    }
    let ghost d = b@.subrange(start as int, hi as int);
    proof {
        if hi > lo && b@[lo as int] == 43 {
            assert(s.skip(1) =~= d);
        } else {
            assert(s =~= d);
        }
    }
    if start == hi {
        return None;
    }
    let mut acc: u32 = 0;
    let mut i = start;
    while i < hi
        invariant
            lo <= start < hi <= b@.len(),
            start <= i <= hi,
            d == b@.subrange(start as int, hi as int),
            s == b@.subrange(lo as int, hi as int),
            d == unsigned_digits(s),
            forall|k: int| 0 <= k < i - start ==> is_digit(#[trigger] d[k]),
            acc as int == digits_value(d.take(i - start)),
            acc <= 255,
        decreases hi - i,
    {
        let c = b[i];
        if !(48 <= c && c <= 57) {
            proof {
                assert(!is_digit(d[i - start]));
                assert(!all_digits(d));
            }
            return None;
        }
        acc = acc * 10 + (c - 48) as u32;
        proof {
            assert(d.take(i - start + 1).drop_last() =~= d.take(i - start));
        }
        i = i + 1;
        if acc > 255 {
            proof {
                if all_digits(d) {
                    lemma_digits_value_mono(d, i - start);
                }
            }
            return None;
        }
    }
    proof {
        assert(d.take(d.len() as int) =~= d);
    }
    Some(acc as u8)
}

proof fn lemma_digits_value_mono(d: Seq<u8>, k: int)
    requires
        0 <= k <= d.len(),
        forall|q: int| 0 <= q < d.len() ==> is_digit(#[trigger] d[q]),
    ensures
        digits_value(d) >= digits_value(d.take(k)),
    decreases d.len() - k,
{
    if k < d.len() {
        lemma_digits_value_mono(d, k + 1);
        assert(d.take(k + 1).drop_last() =~= d.take(k));
        assert(d.take(k + 1).last() == d[k]);
        lemma_digits_value_nonneg(d.take(k));
    } else {
        assert(d.take(k) =~= d);
    }
}

proof fn lemma_digits_value_nonneg(d: Seq<u8>)
    requires
        forall|q: int| 0 <= q < d.len() ==> is_digit(#[trigger] d[q]),
    ensures
        digits_value(d) >= 0,
    decreases d.len(),
{
    if d.len() > 0 {
        lemma_digits_value_nonneg(d.drop_last());
    }
}

/// The style after one parameter `b[lo..hi]`.
fn apply_sgr_code(style: SpanStyle, b: &[u8], lo: usize, hi: usize) -> (r: SpanStyle)
    requires
        lo <= hi <= b@.len(),
    ensures
        r == sgr_apply(style, b@.subrange(lo as int, hi as int)),
{
    let v = match parse_code(b, lo, hi) {
        Some(v) => v,
        None => 0,
    };
    if v == 0 {
        SpanStyle::plain()
    } else if v == 1 {
        SpanStyle { bold: true, color: style.color }
    } else if v == 2 {
        SpanStyle { bold: style.bold, color: Some(DIM_COLOR) }
    } else if v == 22 {
        SpanStyle { bold: false, color: None }
    } else if 30 <= v && v <= 37 {
        SpanStyle { bold: style.bold, color: Some(palette_color(v - 30)) }
    } else if v == 39 {
        SpanStyle { bold: style.bold, color: None }
    } else {
        style
    }
}

/// The style after the `;`-separated parameters `b[lo..hi]`.
fn apply_sgr_params(style: SpanStyle, b: &[u8], lo: usize, hi: usize) -> (r: SpanStyle)
    requires
        lo <= hi <= b@.len(),
    ensures
        r == sgr_apply_all(style, b@.subrange(lo as int, hi as int)),
{
    let mut st = style;
    let mut piece = lo;
    let mut i = lo;
    while i < hi
        invariant
            lo <= piece <= i <= hi <= b@.len(),
            sgr_apply_all(style, b@.subrange(lo as int, hi as int)) == sgr_apply_all(
                st,
                b@.subrange(piece as int, hi as int),
            ),
            forall|k: int| piece <= k < i ==> #[trigger] b@[k] != 59,
        decreases hi - i,
    {
        if b[i] == 59 {
            proof {
                let p = b@.subrange(piece as int, hi as int);
                lemma_find_byte_at(p, 59, i - piece);
                assert(p.take(i - piece) =~= b@.subrange(piece as int, i as int));
                assert(p.skip(i - piece + 1) =~= b@.subrange(i + 1, hi as int));
            }
            st = apply_sgr_code(st, b, piece, i);
            piece = i + 1;
        }
        i = i + 1;
    }
    proof {
        let p = b@.subrange(piece as int, hi as int);
        lemma_find_byte_bounds(p, 59);
        if find_byte(p, 59) is Some {
            let e = find_byte(p, 59).unwrap();
            assert(p[e] == b@[piece + e]);
        }
    }
    apply_sgr_code(st, b, piece, hi)
}

} // verus!
