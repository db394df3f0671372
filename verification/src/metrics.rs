//! The metrics log's line codec and bounded-tail reader. One record is
//! one JSON object on one line; the tail reader keeps the last lines,
//! parses each, and skips a line that does not parse.
//!
//! The serializer escapes the quote, the backslash, and the newline,
//! carriage-return and tab characters; other characters pass through
//! unchanged. The parser accepts exactly the serializer's output form.

use vstd::prelude::*;
use vstd::string::StrSliceExecFns;
use vstd::string::StringExecFns;

use crate::strutil::all_digits;
use crate::strutil::digit_val;
use crate::strutil::digits_int;
use crate::strutil::is_digit;
use crate::strutil::parse_u64;

verus! {

/// One usage observation: when it happened, which mode and provider
/// served it, optional latency and token counts, and whether it
/// succeeded.
pub struct MetricsRecord {
    pub timestamp: u64,
    pub mode: String,
    pub provider: String,
    pub latency_ms: Option<u64>,
    pub tokens_in: Option<u32>,
    pub tokens_out: Option<u32>,
    pub success: bool,
}

/// The serialized form of one character inside a JSON string.
pub open spec fn esc_char(c: char) -> Seq<char> {
    if c == '"' {
        seq!['\\', '"']
    } else if c == '\\' {
        seq!['\\', '\\']
    } else if c == '\n' {
        seq!['\\', 'n']
    } else if c == '\r' {
        seq!['\\', 'r']
    } else if c == '\t' {
        seq!['\\', 't']
    } else {
        seq![c]
    }
}

/// The serialized form of a string's characters.
pub open spec fn esc_str(s: Seq<char>) -> Seq<char>
    decreases s.len(),
{
    if s.len() == 0 {
        Seq::empty()
    } else {
        esc_str(s.drop_last()) + esc_char(s.last())
    }
}

/// The character of a decimal digit value.
pub open spec fn digit_char(d: int) -> char {
    (48 + d) as char
}

/// The decimal rendering of a number, most significant digit first,
/// without leading zeroes.
pub open spec fn dec_str(n: u64) -> Seq<char>
    decreases n,
{
    if n < 10 {
        seq![digit_char(n as int)]
    } else {
        dec_str(n / 10).push(digit_char((n % 10) as int))
    }
}

/// The rendering of the success flag.
pub open spec fn bool_str(b: bool) -> Seq<char> {
    if b {
        "true"@
    } else {
        "false"@
    }
}

/// An optional numeric field: its label and value, or nothing.
pub open spec fn opt_field(label: Seq<char>, v: Option<u64>) -> Seq<char> {
    match v {
        Some(x) => label + dec_str(x),
        None => Seq::empty(),
    }
}

/// An optional `u32` value widened for rendering.
pub open spec fn widen32(v: Option<u32>) -> Option<u64> {
    match v {
        Some(x) => Some(x as u64),
        None => None,
    }
}

/// The one-line serialized form of a record.
pub open spec fn line_of_record(rec: MetricsRecord) -> Seq<char> {
    "{\"timestamp\":"@ + dec_str(rec.timestamp) + ",\"mode\":\""@ + esc_str(rec.mode@) + "\""@
        + ",\"provider\":\""@ + esc_str(rec.provider@) + "\""@ + opt_field(
        ",\"latencyMs\":"@,
        rec.latency_ms,
    ) + opt_field(",\"tokensIn\":"@, widen32(rec.tokens_in)) + opt_field(
        ",\"tokensOut\":"@,
        widen32(rec.tokens_out),
    ) + ",\"success\":"@ + bool_str(rec.success) + "}"@
}

/// The string of one decimal digit.
fn digit_piece(d: u64) -> (r: &'static str)
    requires
        d < 10,
    ensures
        r@ == seq![digit_char(d as int)],
{
    if d == 0 {
        proof {
            reveal_strlit("0");
            assert("0"@ =~= seq![digit_char(0)]);
        }
        "0"
    } else if d == 1 {
        proof {
            reveal_strlit("1");
            assert("1"@ =~= seq![digit_char(1)]);
        }
        "1"
    } else if d == 2 {
        proof {
            reveal_strlit("2");
            assert("2"@ =~= seq![digit_char(2)]);
        }
        "2"
    } else if d == 3 {
        proof {
            reveal_strlit("3");
            assert("3"@ =~= seq![digit_char(3)]);
        }
        "3"
    } else if d == 4 {
        proof {
            reveal_strlit("4");
            assert("4"@ =~= seq![digit_char(4)]);
        }
        "4"
    } else if d == 5 {
        proof {
            reveal_strlit("5");
            assert("5"@ =~= seq![digit_char(5)]);
        }
        "5"
    } else if d == 6 {
        proof {
            reveal_strlit("6");
            assert("6"@ =~= seq![digit_char(6)]);
        }
        "6"
    } else if d == 7 {
        proof {
            reveal_strlit("7");
            assert("7"@ =~= seq![digit_char(7)]);
        }
        "7"
    } else if d == 8 {
        proof {
            reveal_strlit("8");
            assert("8"@ =~= seq![digit_char(8)]);
        }
        "8"
    } else {
        proof {
            reveal_strlit("9");
            assert("9"@ =~= seq![digit_char(9)]);
        }
        "9"
    }
}

/// Renders a number in decimal.
fn u64_dec(n: u64) -> (r: String)
    ensures
        r@ == dec_str(n),
    decreases n,
{
    if n < 10 {
        String::from_str(digit_piece(n))
    } else {
        let mut s = u64_dec(n / 10);
        s.append(digit_piece(n % 10));
        proof {
            assert(dec_str(n / 10) + seq![digit_char((n % 10) as int)] =~= dec_str(n / 10).push(
                digit_char((n % 10) as int),
            ));
        }
        s
    }
}

/// Escaping splits over concatenation.
proof fn lemma_esc_concat(a: Seq<char>, b: Seq<char>)
    ensures
        esc_str(a + b) == esc_str(a) + esc_str(b),
    decreases b.len(),
{
    if b.len() == 0 {
        assert(a + b =~= a);
        assert(esc_str(a) + esc_str(b) =~= esc_str(a));
    } else {
        assert((a + b).drop_last() =~= a + b.drop_last());
        assert((a + b).last() == b.last());
        lemma_esc_concat(a, b.drop_last());
        assert((esc_str(a) + esc_str(b.drop_last())) + esc_char(b.last()) =~= esc_str(a)
            + (esc_str(b.drop_last()) + esc_char(b.last())));
    }
}

/// A run without special characters escapes to itself.
proof fn lemma_esc_plain(s: Seq<char>)
    requires
        forall|i: int| 0 <= i < s.len() ==> esc_char(#[trigger] s[i]) == seq![s[i]],
    ensures
        esc_str(s) == s,
    decreases s.len(),
{
    if s.len() > 0 {
        assert(forall|i: int|
            0 <= i < s.drop_last().len() ==> #[trigger] s.drop_last()[i] == s[i]);
        lemma_esc_plain(s.drop_last());
        assert(esc_str(s.drop_last()) + esc_char(s.last()) =~= s);
    }
}

/// Appends the escaped form of a string.
fn escape_into(out: &mut String, s: &str)
    ensures
        final(out)@ == old(out)@ + esc_str(s@),
{
    let len = s.unicode_len();
    let ghost base = out@;
    let mut start: usize = 0;
    let mut i: usize = 0;
    proof {
        assert(s@.take(0) =~= Seq::<char>::empty());
        assert(base + esc_str(s@.take(0)) =~= base);
    }
    while i < len
        invariant
            len == s@.len(),
            start <= i <= len,
            out@ == base + esc_str(s@.take(start as int)),
            forall|j: int|
                start <= j < i ==> esc_char(#[trigger] s@[j]) == seq![s@[j]],
        decreases len - i,
    {
        let c = s.get_char(i);
        if c == '"' || c == '\\' || c == '\n' || c == '\r' || c == '\t' {
            let run = s.substring_char(start, i);
            out.append(run);
            let piece: &'static str = if c == '"' {
                proof {
                    reveal_strlit("\\\"");
                    assert("\\\""@ =~= esc_char('"'));
                }
                "\\\""
            } else if c == '\\' {
                proof {
                    reveal_strlit("\\\\");
                    assert("\\\\"@ =~= esc_char('\\'));
                }
                "\\\\"
            } else if c == '\n' {
                proof {
                    reveal_strlit("\\n");
                    assert("\\n"@ =~= esc_char('\n'));
                }
                "\\n"
            } else if c == '\r' {
                proof {
                    reveal_strlit("\\r");
                    assert("\\r"@ =~= esc_char('\r'));
                }
                "\\r"
            } else {
                proof {
                    reveal_strlit("\\t");
                    assert("\\t"@ =~= esc_char('\t'));
                }
                "\\t"
            };
            out.append(piece);
            proof {
                let run_seq = s@.subrange(start as int, i as int);
                assert(s@.take(i as int) =~= s@.take(start as int) + run_seq);
                lemma_esc_concat(s@.take(start as int), run_seq);
                lemma_esc_plain(run_seq);
                assert(s@.take(i + 1).drop_last() =~= s@.take(i as int));
                assert(s@.take(i + 1).last() == s@[i as int]);
                assert(out@ =~= base + esc_str(s@.take(i + 1)));
            }
            start = i + 1;
        }
        i = i + 1;
    }
    let run = s.substring_char(start, len);
    out.append(run);
    proof {
        let run_seq = s@.subrange(start as int, len as int);
        assert(s@.take(len as int) =~= s@.take(start as int) + run_seq);
        lemma_esc_concat(s@.take(start as int), run_seq);
        lemma_esc_plain(run_seq);
        assert(s@.take(len as int) =~= s@);
    }
}

/// Serializes a record as one JSON line.
pub fn render_metrics_line(rec: &MetricsRecord) -> (r: String)
    ensures
        r@ == line_of_record(*rec),
{
    let mut out = String::from_str("{\"timestamp\":");
    out.append(u64_dec(rec.timestamp).as_str());
    out.append(",\"mode\":\"");
    escape_into(&mut out, rec.mode.as_str());
    out.append("\"");
    out.append(",\"provider\":\"");
    escape_into(&mut out, rec.provider.as_str());
    out.append("\"");
    match rec.latency_ms {
        Some(v) => {
            out.append(",\"latencyMs\":");
            out.append(u64_dec(v).as_str());
        },
        None => {},
    }
    match rec.tokens_in {
        Some(v) => {
            out.append(",\"tokensIn\":");
            out.append(u64_dec(v as u64).as_str());
        },
        None => {},
    }
    match rec.tokens_out {
        Some(v) => {
            out.append(",\"tokensOut\":");
            out.append(u64_dec(v as u64).as_str());
        },
        None => {},
    }
    out.append(",\"success\":");
    if rec.success {
        out.append("true");
    } else {
        out.append("false");
    }
    out.append("}");
    proof {
        assert(out@ =~= line_of_record(*rec));
    }
    out
}

/// A literal stands at a position of the line.
pub open spec fn lit_at(s: Seq<char>, pos: int, lit: Seq<char>) -> bool {
    0 <= pos && pos + lit.len() <= s.len() && s.subrange(pos, pos + lit.len()) == lit
}

/// The end of the digit run starting at a position.
pub open spec fn digits_end(s: Seq<char>, pos: int) -> int
    recommends
        0 <= pos <= s.len(),
    decreases s.len() - pos,
{
    if pos < 0 || pos >= s.len() || !is_digit(s[pos]) {
        pos
    } else {
        digits_end(s, pos + 1)
    }
}

/// The canonical number at a position: a non-empty digit run without a
/// leading zero whose value fits, and the position after it.
pub open spec fn num_at(s: Seq<char>, pos: int) -> Option<(u64, int)> {
    let e = digits_end(s, pos);
    if e == pos {
        None
    } else if s[pos] == '0' && e > pos + 1 {
        None
    } else if digits_int(s.subrange(pos, e)) > u64::MAX {
        None
    } else {
        Some((digits_int(s.subrange(pos, e)) as u64, e))
    }
}

/// The character an escape letter stands for.
pub open spec fn unesc_char(d: char) -> Option<char> {
    if d == '"' {
        Some('"')
    } else if d == '\\' {
        Some('\\')
    } else if d == 'n' {
        Some('\n')
    } else if d == 'r' {
        Some('\r')
    } else if d == 't' {
        Some('\t')
    } else {
        None
    }
}

/// The string content at a position, up to and including the closing
/// quote: escapes are decoded, raw specials are rejected.
pub open spec fn jstr_at(s: Seq<char>, pos: int) -> Option<(Seq<char>, int)>
    decreases s.len() - pos,
{
    if pos < 0 || pos >= s.len() {
        None
    } else {
        let c = s[pos];
        if c == '"' {
            Some((Seq::empty(), pos + 1))
        } else if c == '\\' {
            if pos + 1 >= s.len() {
                None
            } else {
                match unesc_char(s[pos + 1]) {
                    None => None,
                    Some(u) => match jstr_at(s, pos + 2) {
                        None => None,
                        Some((t, e)) => Some((seq![u] + t, e)),
                    },
                }
            }
        } else if c == '\n' || c == '\r' || c == '\t' {
            None
        } else {
            match jstr_at(s, pos + 1) {
                None => None,
                Some((t, e)) => Some((seq![c] + t, e)),
            }
        }
    }
}

/// An optional labelled number at a position: the value and the position
/// after it when the label stands there, otherwise nothing consumed.
pub open spec fn opt_num_at(s: Seq<char>, pos: int, label: Seq<char>) -> Option<(
    Option<u64>,
    int,
)> {
    if lit_at(s, pos, label) {
        match num_at(s, pos + label.len()) {
            None => None,
            Some((v, e)) => Some((Some(v), e)),
        }
    } else {
        Some((None, pos))
    }
}

/// The success flag at a position.
pub open spec fn bool_at(s: Seq<char>, pos: int) -> Option<(bool, int)> {
    if lit_at(s, pos, "true"@) {
        Some((true, pos + 4))
    } else if lit_at(s, pos, "false"@) {
        Some((false, pos + 5))
    } else {
        None
    }
}

/// The parse of one line, as the field values of the record it denotes:
/// `(timestamp, mode, provider, latency, tokens in, tokens out,
/// success)`. Only the serializer's canonical form parses.
pub open spec fn parse_line_spec(s: Seq<char>) -> Option<(
    u64,
    Seq<char>,
    Seq<char>,
    Option<u64>,
    Option<u32>,
    Option<u32>,
    bool,
)> {
    let l0 = "{\"timestamp\":"@;
    if !lit_at(s, 0, l0) {
        None
    } else {
        match num_at(s, l0.len() as int) {
            None => None,
            Some((ts, p1)) => {
                let l1 = ",\"mode\":\""@;
                if !lit_at(s, p1, l1) {
                    None
                } else {
                    match jstr_at(s, p1 + l1.len()) {
                        None => None,
                        Some((mode, p2)) => {
                            let l2 = ",\"provider\":\""@;
                            if !lit_at(s, p2, l2) {
                                None
                            } else {
                                match jstr_at(s, p2 + l2.len()) {
                                    None => None,
                                    Some((provider, p3)) => parse_line_tail(
                                        s,
                                        p3,
                                        ts,
                                        mode,
                                        provider,
                                    ),
                                }
                            }
                        },
                    }
                }
            },
        }
    }
}

/// The optional fields, the success flag and the closing brace.
pub open spec fn parse_line_tail(
    s: Seq<char>,
    pos: int,
    ts: u64,
    mode: Seq<char>,
    provider: Seq<char>,
) -> Option<(u64, Seq<char>, Seq<char>, Option<u64>, Option<u32>, Option<u32>, bool)> {
    match opt_num_at(s, pos, ",\"latencyMs\":"@) {
        None => None,
        Some((latency, p4)) => match opt_num_at(s, p4, ",\"tokensIn\":"@) {
            None => None,
            Some((tin, p5)) => match opt_num_at(s, p5, ",\"tokensOut\":"@) {
                None => None,
                Some((tout, p6)) => {
                    let l6 = ",\"success\":"@;
                    if !lit_at(s, p6, l6) {
                        None
                    } else {
                        match bool_at(s, p6 + l6.len()) {
                            None => None,
                            Some((b, p7)) => {
                                if !(lit_at(s, p7, "}"@) && p7 + 1 == s.len()) {
                                    None
                                } else {
                                    match (narrow32(tin), narrow32(tout)) {
                                        (Some(ti), Some(to)) => Some(
                                            (ts, mode, provider, latency, ti, to, b),
                                        ),
                                        _ => None,
                                    }
                                }
                            },
                        }
                    }
                },
            },
        },
    }
}

/// The field values a record carries.
pub open spec fn record_view(rec: MetricsRecord) -> (
    u64,
    Seq<char>,
    Seq<char>,
    Option<u64>,
    Option<u32>,
    Option<u32>,
    bool,
) {
    (
        rec.timestamp,
        rec.mode@,
        rec.provider@,
        rec.latency_ms,
        rec.tokens_in,
        rec.tokens_out,
        rec.success,
    )
}

/// The default number of records a tail keeps.
pub const DEFAULT_TAIL_LIMIT: usize = 20;

/// The lines a bounded tail keeps: at most `keep`, from the end, in
/// their original order.
pub open spec fn selected_lines(lines: Seq<Seq<char>>, keep: int) -> Seq<Seq<char>> {
    if lines.len() > keep {
        lines.skip(lines.len() - keep)
    } else {
        lines
    }
}

/// The records of the kept lines, in order; a line that does not parse
/// is skipped.
pub open spec fn parsed_records(sel: Seq<Seq<char>>) -> Seq<
    (u64, Seq<char>, Seq<char>, Option<u64>, Option<u32>, Option<u32>, bool),
>
    decreases sel.len(),
{
    if sel.len() == 0 {
        Seq::empty()
    } else {
        let rest = parsed_records(sel.drop_last());
        match parse_line_spec(sel.last()) {
            Some(v) => rest.push(v),
            None => rest,
        }
    }
}

/// Reads the bounded tail of the metrics log: of the given lines, the
/// last `limit` (default twenty) are kept and parsed in chronological
/// order; a line that does not parse — a corrupted or blank line — is
/// skipped without affecting its neighbours.
pub fn tail_metrics_lines(lines: &Vec<String>, limit: Option<usize>) -> (r: Vec<MetricsRecord>)
    ensures
        r@.map_values(|rec: MetricsRecord| record_view(rec)) == parsed_records(
            selected_lines(
                lines.deep_view(),
                (match limit {
                    Some(l) => l,
                    None => DEFAULT_TAIL_LIMIT,
                }) as int,
            ),
        ),
{
    let keep = match limit {
        Some(l) => l,
        None => DEFAULT_TAIL_LIMIT,
    };
    let n = lines.len();
    let start = if n > keep {
        n - keep
    } else {
        0
    };
    let ghost sel = selected_lines(lines.deep_view(), keep as int);
    proof {
        assert(lines.deep_view().len() == lines@.len());
        assert(sel =~= lines.deep_view().skip(start as int));
    }
    let mut out: Vec<MetricsRecord> = Vec::new();
    let mut i: usize = start;
    proof {
        assert(sel.take(0) =~= Seq::<Seq<char>>::empty());
        assert(out@.map_values(|rec: MetricsRecord| record_view(rec)) =~= parsed_records(
            sel.take(0),
        ));
    }
    while i < n
        invariant
            n == lines@.len(),
            start <= i <= n,
            sel == lines.deep_view().skip(start as int),
            out@.map_values(|rec: MetricsRecord| record_view(rec)) == parsed_records(
                sel.take(i - start),
            ),
        decreases n - i,
    {
        proof {
            assert(sel.take(i - start + 1).drop_last() =~= sel.take(i - start));
            assert(sel.take(i - start + 1).last() == sel[i - start]);
            assert(sel[i - start] == lines.deep_view()[i as int]);
            assert(lines.deep_view()[i as int] == lines@[i as int]@);
        }
        let ghost before = out@;
        match parse_metrics_line(lines[i].as_str()) {
            Some(rec) => {
                out.push(rec);
                proof {
                    assert(out@.map_values(|r2: MetricsRecord| record_view(r2)) =~= before
                        .map_values(|r2: MetricsRecord| record_view(r2)).push(record_view(rec)));
                }
            },
            None => {},
        }
        i = i + 1;
    }
    proof {
        assert(sel.take(n - start) =~= sel);
    }
    out
}

/// The front-recursive reading of escaping.
proof fn lemma_esc_front(m: Seq<char>)
    requires
        m.len() > 0,
    ensures
        esc_str(m) == esc_char(m[0]) + esc_str(m.skip(1)),
{
    lemma_esc_concat(seq![m[0]], m.skip(1));
    assert(seq![m[0]] + m.skip(1) =~= m);
    assert(seq![m[0]].drop_last() =~= Seq::<char>::empty());
    assert(seq![m[0]].last() == m[0]);
    assert(esc_str(seq![m[0]]) == esc_str(Seq::<char>::empty()) + esc_char(m[0]));
    assert(Seq::<char>::empty() + esc_char(m[0]) =~= esc_char(m[0]));
}

/// The string parser reads an escaped string back, up to the quote that
/// closes it.
proof fn lemma_jstr_reads_esc(s: Seq<char>, p: int, m: Seq<char>)
    requires
        0 <= p,
        p + esc_str(m).len() + 1 <= s.len(),
        s.subrange(p, p + esc_str(m).len()) == esc_str(m),
        s[p + esc_str(m).len()] == '"',
    ensures
        jstr_at(s, p) == Some((m, p + esc_str(m).len() + 1)),
    decreases m.len(),
{
    if m.len() == 0 {
        assert(esc_str(m).len() == 0);
        assert(s[p] == '"');
    } else {
        lemma_esc_front(m);
        let c = m[0];
        let head = esc_char(c);
        let rest = esc_str(m.skip(1));
        assert(esc_str(m).len() == head.len() + rest.len());
        assert forall|j: int| 0 <= j < head.len() implies s[p + j] == head[j] by {
            assert(s.subrange(p, p + esc_str(m).len())[j] == head[j]);
        }
        assert(s.subrange(p + head.len(), p + head.len() + rest.len()) =~= rest) by {
            assert forall|j: int| 0 <= j < rest.len() implies s[p + head.len() + j] == rest[j]
                by {
                assert(s.subrange(p, p + esc_str(m).len())[head.len() + j] == rest[j]);
            }
        }
        assert(s[p + head.len() + rest.len()] == '"');
        lemma_jstr_reads_esc(s, p + head.len(), m.skip(1));
        assert(s[p + 0] == head[0]);
        if head.len() == 2 {
            assert(s[p + 1] == head[1]);
        }
        if c == '"' {
            assert(s[p] == '\\' && s[p + 1] == '"');
            assert(unesc_char(s[p + 1]) == Some('"'));
            assert(seq![c] + m.skip(1) =~= m);
        } else if c == '\\' {
            assert(s[p] == '\\' && s[p + 1] == '\\');
            assert(seq![c] + m.skip(1) =~= m);
        } else if c == '\n' {
            assert(s[p] == '\\' && s[p + 1] == 'n');
            assert(seq![c] + m.skip(1) =~= m);
        } else if c == '\r' {
            assert(s[p] == '\\' && s[p + 1] == 'r');
            assert(seq![c] + m.skip(1) =~= m);
        } else if c == '\t' {
            assert(s[p] == '\\' && s[p + 1] == 't');
            assert(seq![c] + m.skip(1) =~= m);
        } else {
            assert(head[0] == c);
            assert(s[p] == c);
            assert(seq![c] + m.skip(1) =~= m);
        }
    }
}

/// A decimal rendering is a non-empty digit run without a leading zero
/// that denotes the rendered number.
proof fn lemma_dec_digits(n: u64)
    ensures
        dec_str(n).len() > 0,
        all_digits(dec_str(n)),
        dec_str(n)[0] == '0' ==> n == 0,
        n == 0 ==> dec_str(n).len() == 1,
        digits_int(dec_str(n)) == n,
    decreases n,
{
    if n < 10 {
        assert(is_digit(digit_char(n as int)));
        assert(dec_str(n).drop_last() =~= Seq::<char>::empty());
        assert(dec_str(n).last() == digit_char(n as int));
        assert(digits_int(Seq::<char>::empty()) == 0);
        assert(digit_val(digit_char(n as int)) == n);
        if n > 0 {
            assert(digit_char(n as int) != '0');
        }
    } else {
        lemma_dec_digits(n / 10);
        let prefix = dec_str(n / 10);
        let d = digit_char((n % 10) as int);
        assert(is_digit(d));
        assert(all_digits(prefix.push(d))) by {
            assert forall|i: int| 0 <= i < prefix.push(d).len() implies is_digit(
                #[trigger] prefix.push(d)[i],
            ) by {
                if i < prefix.len() {
                    assert(prefix.push(d)[i] == prefix[i]);
                } else {
                    assert(prefix.push(d)[i] == d);
                }
            }
        }
        assert(prefix.push(d)[0] == prefix[0]);
        assert(n / 10 > 0);
        assert(prefix.push(d).drop_last() =~= prefix);
        assert(prefix.push(d).last() == d);
        assert(digit_val(d) == n % 10);
        assert(digits_int(prefix.push(d)) == (n / 10) * 10 + (n % 10));
    }
}

/// A concatenation seen inside a line splits into its two parts.
proof fn lemma_concat_parts(a: Seq<char>, b: Seq<char>, s: Seq<char>, off: int)
    requires
        0 <= off,
        off + a.len() + b.len() <= s.len(),
        s.subrange(off, off + a.len() + b.len()) == a + b,
    ensures
        s.subrange(off, off + a.len()) == a,
        s.subrange(off + a.len(), off + a.len() + b.len()) == b,
{
    let whole = s.subrange(off, off + a.len() + b.len());
    assert(s.subrange(off, off + a.len()) =~= a) by {
        assert forall|j: int| 0 <= j < a.len() implies s.subrange(off, off + a.len())[j] == a[j]
            by {
            assert(whole[j] == (a + b)[j]);
            assert(s[off + j] == whole[j]);
        }
    }
    assert(s.subrange(off + a.len(), off + a.len() + b.len()) =~= b) by {
        assert forall|j: int| 0 <= j < b.len() implies s.subrange(
            off + a.len(),
            off + a.len() + b.len(),
        )[j] == b[j] by {
            assert(whole[a.len() + j] == (a + b)[a.len() + j]);
            assert(s[off + a.len() + j] == whole[a.len() + j]);
        }
    }
}

/// The opening literal, the timestamp and the two strings of a rendered
/// line parse back to the record's values.
#[verifier::rlimit(100)]
#[verifier::spinoff_prover]
proof fn lemma_parse_render_head(
    rec: MetricsRecord,
    s: Seq<char>,
    p1: int,
    p2: int,
    p3: int,
    p4: int,
    p5: int,
    p6: int,
    p7: int,
)
    requires
        "{\"timestamp\":"@.len() <= p1 <= p2 <= p3 < p4 <= p5 <= p6 < p7 <= s.len(),
        p1 == "{\"timestamp\":"@.len() + dec_str(rec.timestamp).len(),
        p2 == p1 + ",\"mode\":\""@.len(),
        p3 == p2 + esc_str(rec.mode@).len(),
        p4 == p3 + 1,
        p5 == p4 + ",\"provider\":\""@.len(),
        p6 == p5 + esc_str(rec.provider@).len(),
        p7 == p6 + 1,
        p7 < s.len(),
        s.subrange(0, "{\"timestamp\":"@.len() as int) == "{\"timestamp\":"@,
        s.subrange("{\"timestamp\":"@.len() as int, p1) == dec_str(rec.timestamp),
        s.subrange(p1, p2) == ",\"mode\":\""@,
        s.subrange(p2, p3) == esc_str(rec.mode@),
        s[p3] == '"',
        s.subrange(p4, p5) == ",\"provider\":\""@,
        s.subrange(p5, p6) == esc_str(rec.provider@),
        s[p6] == '"',
        s[p1] == ',',
    ensures
        lit_at(s, 0, "{\"timestamp\":"@),
        num_at(s, "{\"timestamp\":"@.len() as int) == Some((rec.timestamp, p1)),
        lit_at(s, p1, ",\"mode\":\""@),
        jstr_at(s, p2) == Some((rec.mode@, p4)),
        lit_at(s, p4, ",\"provider\":\""@),
        jstr_at(s, p5) == Some((rec.provider@, p7)),
{
    reveal_strlit("{\"timestamp\":");
    reveal_strlit(",\"mode\":\"");
    reveal_strlit(",\"provider\":\"");
    let l0 = "{\"timestamp\":"@;
    let p0 = l0.len() as int;
    let d0 = dec_str(rec.timestamp);
    lemma_dec_digits(rec.timestamp);
    assert(lit_at(s, 0, l0));
    assert forall|j: int| p0 <= j < p1 implies is_digit(#[trigger] s[j]) by {
        assert(s[j] == s.subrange(p0, p1)[j - p0]);
        assert(s[j] == d0[j - p0]);
    }
    lemma_digits_end(s, p0, p1);
    assert(s[p0 + 0] == s.subrange(p0, p1)[0]);
    assert(s.subrange(p0, p1) == d0);
    assert(num_at(s, p0) == Some((rec.timestamp, p1)));
    assert(lit_at(s, p1, ",\"mode\":\""@));
    lemma_jstr_reads_esc(s, p2, rec.mode@);
    assert(lit_at(s, p4, ",\"provider\":\""@));
    lemma_jstr_reads_esc(s, p5, rec.provider@);
}

/// The rendered line splits at the boundaries of its pieces.
#[verifier::rlimit(100)]
#[verifier::spinoff_prover]
proof fn lemma_render_pieces(rec: MetricsRecord, s: Seq<char>)
    requires
        s == line_of_record(rec),
    ensures
        ({
            let l0 = "{\"timestamp\":"@;
            let d0 = dec_str(rec.timestamp);
            let l1 = ",\"mode\":\""@;
            let em = esc_str(rec.mode@);
            let l2 = ",\"provider\":\""@;
            let ep = esc_str(rec.provider@);
            let fl = opt_field(",\"latencyMs\":"@, rec.latency_ms);
            let fi = opt_field(",\"tokensIn\":"@, widen32(rec.tokens_in));
            let fo = opt_field(",\"tokensOut\":"@, widen32(rec.tokens_out));
            let l6 = ",\"success\":"@;
            let bs = bool_str(rec.success);
            let p0 = l0.len() as int;
            let p1 = p0 + d0.len();
            let p2 = p1 + l1.len();
            let p3 = p2 + em.len();
            let p4 = p3 + 1;
            let p5 = p4 + l2.len();
            let p6 = p5 + ep.len();
            let p7 = p6 + 1;
            let p8 = p7 + fl.len();
            let p9 = p8 + fi.len();
            let p10 = p9 + fo.len();
            let p11 = p10 + l6.len();
            let p12 = p11 + bs.len();
            &&& s.len() == p12 + 1
            &&& s.subrange(0, p0) == l0
            &&& s.subrange(p0, p1) == d0
            &&& s.subrange(p1, p2) == l1
            &&& s.subrange(p2, p3) == em
            &&& s[p3] == '"'
            &&& s.subrange(p4, p5) == l2
            &&& s.subrange(p5, p6) == ep
            &&& s[p6] == '"'
            &&& s.subrange(p7, p8) == fl
            &&& s.subrange(p8, p9) == fi
            &&& s.subrange(p9, p10) == fo
            &&& s.subrange(p10, p11) == l6
            &&& s.subrange(p11, p12) == bs
            &&& s[p12] == '}'
        }),
{
    reveal_strlit("\"");
    reveal_strlit("}");
    let l0 = "{\"timestamp\":"@;
    let d0 = dec_str(rec.timestamp);
    let l1 = ",\"mode\":\""@;
    let em = esc_str(rec.mode@);
    let q = "\""@;
    let l2 = ",\"provider\":\""@;
    let ep = esc_str(rec.provider@);
    let fl = opt_field(",\"latencyMs\":"@, rec.latency_ms);
    let fi = opt_field(",\"tokensIn\":"@, widen32(rec.tokens_in));
    let fo = opt_field(",\"tokensOut\":"@, widen32(rec.tokens_out));
    let l6 = ",\"success\":"@;
    let bs = bool_str(rec.success);
    let rb = "}"@;
    let p0 = l0.len() as int;
    let p1 = p0 + d0.len();
    let p2 = p1 + l1.len();
    let p3 = p2 + em.len();
    let p4 = p3 + 1;
    let p5 = p4 + l2.len();
    let p6 = p5 + ep.len();
    let p7 = p6 + 1;
    let p8 = p7 + fl.len();
    let p9 = p8 + fi.len();
    let p10 = p9 + fo.len();
    let p11 = p10 + l6.len();
    let p12 = p11 + bs.len();
    assert(s.len() == p12 + 1);
    assert(s.subrange(0, p12 + 1) =~= s);
    let t1 = l0 + d0 + l1 + em + q + l2 + ep + q + fl + fi + fo + l6 + bs;
    let t2 = l0 + d0 + l1 + em + q + l2 + ep + q + fl + fi + fo + l6;
    let t3 = l0 + d0 + l1 + em + q + l2 + ep + q + fl + fi + fo;
    let t4 = l0 + d0 + l1 + em + q + l2 + ep + q + fl + fi;
    let t5 = l0 + d0 + l1 + em + q + l2 + ep + q + fl;
    let t6 = l0 + d0 + l1 + em + q + l2 + ep + q;
    let t7 = l0 + d0 + l1 + em + q + l2 + ep;
    let t8 = l0 + d0 + l1 + em + q + l2;
    let t9 = l0 + d0 + l1 + em + q;
    let t10 = l0 + d0 + l1 + em;
    let t11 = l0 + d0 + l1;
    let t12 = l0 + d0;
    lemma_concat_parts(t1, rb, s, 0);
    lemma_concat_parts(t2, bs, s, 0);
    lemma_concat_parts(t3, l6, s, 0);
    lemma_concat_parts(t4, fo, s, 0);
    lemma_concat_parts(t5, fi, s, 0);
    lemma_concat_parts(t6, fl, s, 0);
    lemma_concat_parts(t7, q, s, 0);
    lemma_concat_parts(t8, ep, s, 0);
    lemma_concat_parts(t9, l2, s, 0);
    lemma_concat_parts(t10, q, s, 0);
    lemma_concat_parts(t11, em, s, 0);
    lemma_concat_parts(t12, l1, s, 0);
    lemma_concat_parts(l0, d0, s, 0);
    assert(s[p3] == '"') by {
        assert(s[p3 + 0] == s.subrange(p3, p4)[0]);
        assert(q[0] == '"');
    }
    assert(s[p6] == '"') by {
        assert(s[p6 + 0] == s.subrange(p6, p7)[0]);
        assert(q[0] == '"');
    }
    assert(s[p12] == '}') by {
        assert(s[p12 + 0] == s.subrange(p12, p12 + 1)[0]);
        assert(rb[0] == '}');
    }
}

/// The law of the line codec: a rendered record parses back to exactly
/// its own field values — the tail reader never drops a record the
/// serializer wrote.
#[verifier::rlimit(100)]
#[verifier::spinoff_prover]
pub proof fn lemma_parse_render(rec: MetricsRecord)
    ensures
        parse_line_spec(line_of_record(rec)) == Some(record_view(rec)),
{
    reveal_strlit("{\"timestamp\":");
    reveal_strlit(",\"mode\":\"");
    reveal_strlit(",\"provider\":\"");
    let s = line_of_record(rec);
    let l0 = "{\"timestamp\":"@;
    let d0 = dec_str(rec.timestamp);
    let l1 = ",\"mode\":\""@;
    let em = esc_str(rec.mode@);
    let l2 = ",\"provider\":\""@;
    let ep = esc_str(rec.provider@);
    let fl = opt_field(",\"latencyMs\":"@, rec.latency_ms);
    let fi = opt_field(",\"tokensIn\":"@, widen32(rec.tokens_in));
    let fo = opt_field(",\"tokensOut\":"@, widen32(rec.tokens_out));
    let l6 = ",\"success\":"@;
    let bs = bool_str(rec.success);
    let p0 = l0.len() as int;
    let p1 = p0 + d0.len();
    let p2 = p1 + l1.len();
    let p3 = p2 + em.len();
    let p4 = p3 + 1;
    let p5 = p4 + l2.len();
    let p6 = p5 + ep.len();
    let p7 = p6 + 1;
    let p8 = p7 + fl.len();
    let p9 = p8 + fi.len();
    let p10 = p9 + fo.len();
    let p11 = p10 + l6.len();
    let p12 = p11 + bs.len();
    lemma_render_pieces(rec, s);
    assert(s[p1] == ',') by {
        assert(s[p1 + 0] == s.subrange(p1, p2)[0]);
        assert(l1[0] == ',');
    }
    lemma_parse_render_head(rec, s, p1, p2, p3, p4, p5, p6, p7);
    lemma_parse_render_tail(rec, s, p7, p8, p9, p10, p11, p12);
}

/// The optional fields, success flag and closing brace of a rendered
/// line parse back to the record's values.
#[verifier::spinoff_prover]
proof fn lemma_parse_render_tail(
    rec: MetricsRecord,
    s: Seq<char>,
    p7: int,
    p8: int,
    p9: int,
    p10: int,
    p11: int,
    p12: int,
)
    requires
        0 <= p7 <= p8 <= p9 <= p10 <= p11 <= p12 < s.len(),
        s.len() == p12 + 1,
        s.subrange(p7, p8) == opt_field(",\"latencyMs\":"@, rec.latency_ms),
        s.subrange(p8, p9) == opt_field(",\"tokensIn\":"@, widen32(rec.tokens_in)),
        s.subrange(p9, p10) == opt_field(",\"tokensOut\":"@, widen32(rec.tokens_out)),
        s.subrange(p10, p11) == ",\"success\":"@,
        s.subrange(p11, p12) == bool_str(rec.success),
        s[p12] == '}',
    ensures
        parse_line_tail(s, p7, rec.timestamp, rec.mode@, rec.provider@) == Some(
            record_view(rec),
        ),
{
    reveal_strlit(",\"latencyMs\":");
    reveal_strlit(",\"tokensIn\":");
    reveal_strlit(",\"tokensOut\":");
    reveal_strlit(",\"success\":");
    reveal_strlit("true");
    reveal_strlit("false");
    reveal_strlit("}");
    let ll = ",\"latencyMs\":"@;
    let li = ",\"tokensIn\":"@;
    let lo = ",\"tokensOut\":"@;
    let l6 = ",\"success\":"@;
    assert(s.subrange(p7, p8).len() == p8 - p7);
    assert(s.subrange(p8, p9).len() == p9 - p8);
    assert(s.subrange(p9, p10).len() == p10 - p9);
    assert(s.subrange(p10, p11).len() == p11 - p10);
    assert(s.subrange(p11, p12).len() == p12 - p11);
    assert(p11 == p10 + l6.len());
    // every piece that can follow a rendered number begins with a comma
    assert(p8 < p9 ==> s[p8] == ',') by {
        if p8 < p9 {
            assert(s[p8 + 0] == s.subrange(p8, p9)[0]);
        }
    }
    assert(p9 < p10 ==> s[p9] == ',') by {
        if p9 < p10 {
            assert(s[p9 + 0] == s.subrange(p9, p10)[0]);
        }
    }
    assert(s[p10] == ',') by {
        assert(s[p10 + 0] == s.subrange(p10, p11)[0]);
    }
    // the latency field
    match rec.latency_ms {
        Some(v) => {
            lemma_dec_digits(v);
            assert(p8 - p7 == ll.len() + dec_str(v).len());
            assert(s.subrange(p7, p7 + ll.len()) =~= ll) by {
                assert forall|j: int| 0 <= j < ll.len() implies s.subrange(p7, p7 + ll.len())[j]
                    == ll[j] by {
                    assert(s.subrange(p7, p8)[j] == ll[j]);
                    assert(s[p7 + j] == s.subrange(p7, p8)[j]);
                }
            }
            assert(lit_at(s, p7, ll));
            assert(s.subrange(p7 + ll.len(), p8) =~= dec_str(v)) by {
                assert forall|j: int| 0 <= j < dec_str(v).len() implies s.subrange(
                    p7 + ll.len(),
                    p8,
                )[j] == dec_str(v)[j] by {
                    assert(s.subrange(p7, p8)[ll.len() + j] == dec_str(v)[j]);
                    assert(s[p7 + ll.len() + j] == s.subrange(p7, p8)[ll.len() + j]);
                }
            }
            assert(s[p8] == ',');
            assert forall|j: int| p7 + ll.len() <= j < p8 implies is_digit(#[trigger] s[j])
                by {
                assert(s[j] == s.subrange(p7 + ll.len(), p8)[j - (p7 + ll.len())]);
                assert(s[j] == dec_str(v)[j - (p7 + ll.len())]);
            }
            lemma_digits_end(s, p7 + ll.len(), p8);
            assert(num_at(s, p7 + ll.len()) == Some((v, p8)));
            assert(opt_num_at(s, p7, ll) == Some((Some(v), p8)));
        },
        None => {
            assert(p7 == p8);
            lemma_none_next_char(rec, s, p7, p8, p9, p10);
            assert(!lit_at(s, p7, ll)) by {
                if lit_at(s, p7, ll) {
                    assert(s[p7 + 2] == s.subrange(p7, p7 + ll.len())[2]);
                    assert(ll[2] == 'l');
                }
            }
            assert(opt_num_at(s, p7, ll) == Some((None::<u64>, p7)));
        },
    }
    // the tokens-in field
    match widen32(rec.tokens_in) {
        Some(v) => {
            lemma_dec_digits(v);
            assert(p9 - p8 == li.len() + dec_str(v).len());
            assert(s.subrange(p8, p8 + li.len()) =~= li) by {
                assert forall|j: int| 0 <= j < li.len() implies s.subrange(p8, p8 + li.len())[j]
                    == li[j] by {
                    assert(s.subrange(p8, p9)[j] == li[j]);
                    assert(s[p8 + j] == s.subrange(p8, p9)[j]);
                }
            }
            assert(lit_at(s, p8, li));
            assert(s.subrange(p8 + li.len(), p9) =~= dec_str(v)) by {
                assert forall|j: int| 0 <= j < dec_str(v).len() implies s.subrange(
                    p8 + li.len(),
                    p9,
                )[j] == dec_str(v)[j] by {
                    assert(s.subrange(p8, p9)[li.len() + j] == dec_str(v)[j]);
                    assert(s[p8 + li.len() + j] == s.subrange(p8, p9)[li.len() + j]);
                }
            }
            assert(s[p9] == ',');
            assert forall|j: int| p8 + li.len() <= j < p9 implies is_digit(#[trigger] s[j])
                by {
                assert(s[j] == s.subrange(p8 + li.len(), p9)[j - (p8 + li.len())]);
                assert(s[j] == dec_str(v)[j - (p8 + li.len())]);
            }
            lemma_digits_end(s, p8 + li.len(), p9);
            assert(num_at(s, p8 + li.len()) == Some((v, p9)));
            assert(opt_num_at(s, p8, li) == Some((Some(v), p9)));
        },
        None => {
            assert(p8 == p9);
            lemma_none_next_char2(rec, s, p8, p9, p10);
            assert(!lit_at(s, p8, li)) by {
                if lit_at(s, p8, li) {
                    assert(s[p8 + 2] == s.subrange(p8, p8 + li.len())[2]);
                    assert(s[p8 + 8] == s.subrange(p8, p8 + li.len())[8]);
                    assert(li[2] == 't' && li[8] == 'I');
                }
            }
            assert(opt_num_at(s, p8, li) == Some((None::<u64>, p8)));
        },
    }
    // the tokens-out field
    match widen32(rec.tokens_out) {
        Some(v) => {
            lemma_dec_digits(v);
            assert(p10 - p9 == lo.len() + dec_str(v).len());
            assert(s.subrange(p9, p9 + lo.len()) =~= lo) by {
                assert forall|j: int| 0 <= j < lo.len() implies s.subrange(p9, p9 + lo.len())[j]
                    == lo[j] by {
                    assert(s.subrange(p9, p10)[j] == lo[j]);
                    assert(s[p9 + j] == s.subrange(p9, p10)[j]);
                }
            }
            assert(lit_at(s, p9, lo));
            assert(s.subrange(p9 + lo.len(), p10) =~= dec_str(v)) by {
                assert forall|j: int| 0 <= j < dec_str(v).len() implies s.subrange(
                    p9 + lo.len(),
                    p10,
                )[j] == dec_str(v)[j] by {
                    assert(s.subrange(p9, p10)[lo.len() + j] == dec_str(v)[j]);
                    assert(s[p9 + lo.len() + j] == s.subrange(p9, p10)[lo.len() + j]);
                }
            }
            assert(s[p10] == ',');
            assert forall|j: int| p9 + lo.len() <= j < p10 implies is_digit(#[trigger] s[j])
                by {
                assert(s[j] == s.subrange(p9 + lo.len(), p10)[j - (p9 + lo.len())]);
                assert(s[j] == dec_str(v)[j - (p9 + lo.len())]);
            }
            lemma_digits_end(s, p9 + lo.len(), p10);
            assert(num_at(s, p9 + lo.len()) == Some((v, p10)));
            assert(opt_num_at(s, p9, lo) == Some((Some(v), p10)));
        },
        None => {
            assert(p9 == p10);
            assert(!lit_at(s, p9, lo)) by {
                if lit_at(s, p9, lo) {
                    assert(s[p9 + 2] == s.subrange(p9, p9 + lo.len())[2]);
                    assert(lo[2] == 't');
                    assert(s[p10 + 2] == s.subrange(p10, p11)[2]);
                    assert(l6[2] == 's');
                }
            }
            assert(opt_num_at(s, p9, lo) == Some((None::<u64>, p9)));
        },
    }
    // the success flag and the closing brace
    assert(s.subrange(p10, p10 + l6.len()) == l6);
    assert(lit_at(s, p10, l6));
    if rec.success {
        assert(p12 - p11 == 4);
        assert(s.subrange(p11, p11 + 4) =~= "true"@) by {
            assert forall|j: int| 0 <= j < 4 implies s.subrange(p11, p11 + 4)[j] == "true"@[j]
                by {
                assert(s.subrange(p11, p12)[j] == "true"@[j]);
                assert(s[p11 + j] == s.subrange(p11, p12)[j]);
            }
        }
        assert(lit_at(s, p11, "true"@));
        assert(bool_at(s, p11) == Some((true, p12)));
    } else {
        assert(p12 - p11 == 5);
        assert(s.subrange(p11, p11 + 5) =~= "false"@) by {
            assert forall|j: int| 0 <= j < 5 implies s.subrange(p11, p11 + 5)[j] == "false"@[j]
                by {
                assert(s.subrange(p11, p12)[j] == "false"@[j]);
                assert(s[p11 + j] == s.subrange(p11, p12)[j]);
            }
        }
        assert(!lit_at(s, p11, "true"@)) by {
            if lit_at(s, p11, "true"@) {
                assert(s[p11 + 0] == s.subrange(p11, p11 + 4)[0]);
                assert(s[p11 + 0] == s.subrange(p11, p12)[0]);
            }
        }
        assert(lit_at(s, p11, "false"@));
        assert(bool_at(s, p11) == Some((false, p12)));
    }
    assert(s.subrange(p12, p12 + 1) =~= "}"@) by {
        assert(s.subrange(p12, p12 + 1)[0] == s[p12]);
    }
    assert(lit_at(s, p12, "}"@));
    assert(narrow32(widen32(rec.tokens_in)) == Some(rec.tokens_in));
    assert(narrow32(widen32(rec.tokens_out)) == Some(rec.tokens_out));
}

/// When the latency field is absent, what stands next is a later
/// label, whose third character is not `l`.
proof fn lemma_none_next_char(
    rec: MetricsRecord,
    s: Seq<char>,
    p7: int,
    p8: int,
    p9: int,
    p10: int,
)
    requires
        0 <= p7 <= p8 <= p9 <= p10 < s.len(),
        p7 == p8,
        s.subrange(p8, p9) == opt_field(",\"tokensIn\":"@, widen32(rec.tokens_in)),
        s.subrange(p9, p10) == opt_field(",\"tokensOut\":"@, widen32(rec.tokens_out)),
        s.subrange(p10, p10 + ",\"success\":"@.len()) == ",\"success\":"@,
        p10 + ",\"success\":"@.len() <= s.len(),
    ensures
        s[p7 + 2] != 'l',
{
    reveal_strlit(",\"tokensIn\":");
    reveal_strlit(",\"tokensOut\":");
    reveal_strlit(",\"success\":");
    let li = ",\"tokensIn\":"@;
    let lo = ",\"tokensOut\":"@;
    let l6 = ",\"success\":"@;
    assert(s.subrange(p8, p9).len() == p9 - p8);
    assert(s.subrange(p9, p10).len() == p10 - p9);
    if p8 < p9 {
        assert(widen32(rec.tokens_in) is Some);
        lemma_dec_digits(widen32(rec.tokens_in)->0);
        assert(p9 - p8 == li.len() + dec_str(widen32(rec.tokens_in)->0).len());
        assert(s[p8 + 2] == s.subrange(p8, p9)[2]);
        assert(s.subrange(p8, p9)[2] == li[2]);
        assert(li[2] == 't');
    } else if p9 < p10 {
        assert(widen32(rec.tokens_out) is Some);
        lemma_dec_digits(widen32(rec.tokens_out)->0);
        assert(p10 - p9 == lo.len() + dec_str(widen32(rec.tokens_out)->0).len());
        assert(s[p9 + 2] == s.subrange(p9, p10)[2]);
        assert(s.subrange(p9, p10)[2] == lo[2]);
        assert(lo[2] == 't');
    } else {
        assert(s[p10 + 2] == s.subrange(p10, p10 + l6.len())[2]);
        assert(l6[2] == 's');
    }
}

/// When the tokens-in field is absent, what stands next is a later
/// label, which differs from the tokens-in label within its length.
proof fn lemma_none_next_char2(rec: MetricsRecord, s: Seq<char>, p8: int, p9: int, p10: int)
    requires
        0 <= p8 <= p9 <= p10 < s.len(),
        p8 == p9,
        s.subrange(p9, p10) == opt_field(",\"tokensOut\":"@, widen32(rec.tokens_out)),
        s.subrange(p10, p10 + ",\"success\":"@.len()) == ",\"success\":"@,
        p10 + ",\"success\":"@.len() <= s.len(),
    ensures
        s[p8 + 2] != 't' || s[p8 + 8] != 'I',
{
    reveal_strlit(",\"tokensIn\":");
    reveal_strlit(",\"tokensOut\":");
    reveal_strlit(",\"success\":");
    let lo = ",\"tokensOut\":"@;
    let l6 = ",\"success\":"@;
    assert(s.subrange(p9, p10).len() == p10 - p9);
    if p9 < p10 {
        assert(widen32(rec.tokens_out) is Some);
        lemma_dec_digits(widen32(rec.tokens_out)->0);
        assert(p10 - p9 == lo.len() + dec_str(widen32(rec.tokens_out)->0).len());
        assert(s[p9 + 8] == s.subrange(p9, p10)[8]);
        assert(s.subrange(p9, p10)[8] == lo[8]);
        assert(lo[8] == 'O');
    } else {
        assert(s[p10 + 2] == s.subrange(p10, p10 + l6.len())[2]);
        assert(l6[2] == 's');
    }
}

/// The tail law: over lines that are rendered records, the tail reader
/// recovers exactly the records' values, in order — no record the
/// serializer wrote is dropped or reordered.
#[verifier::rlimit(100)]
#[verifier::spinoff_prover]
pub proof fn lemma_parsed_rendered(recs: Seq<MetricsRecord>)
    ensures
        parsed_records(recs.map_values(|rec: MetricsRecord| line_of_record(rec)))
            == recs.map_values(|rec: MetricsRecord| record_view(rec)),
    decreases recs.len(),
{
    let lines = recs.map_values(|rec: MetricsRecord| line_of_record(rec));
    let views = recs.map_values(|rec: MetricsRecord| record_view(rec));
    if recs.len() == 0 {
        assert(parsed_records(lines) =~= views);
    } else {
        lemma_parsed_rendered(recs.drop_last());
        lemma_parse_render(recs.last());
        assert(lines.drop_last() =~= recs.drop_last().map_values(
            |rec: MetricsRecord| line_of_record(rec),
        ));
        assert(lines.last() == line_of_record(recs.last()));
        assert(parsed_records(lines) =~= views);
    }
}

/// An optional count narrowed to `u32`; a value that does not fit fails.
pub open spec fn narrow32(v: Option<u64>) -> Option<Option<u32>> {
    match v {
        Some(x) => if x <= u32::MAX {
            Some(Some(x as u32))
        } else {
            None
        },
        None => Some(None),
    }
}

/// Whether a literal stands at a position.
fn match_lit(s: &str, pos: usize, lit: &str) -> (r: bool)
    ensures
        r == lit_at(s@, pos as int, lit@),
{
    let n = s.unicode_len();
    let ll = lit.unicode_len();
    if pos > n || ll > n - pos {
        return false;
    }
    let mut j: usize = 0;
    while j < ll
        invariant
            n == s@.len(),
            ll == lit@.len(),
            pos + ll <= n,
            j <= ll,
            forall|t: int| 0 <= t < j ==> s@[pos + t] == lit@[t],
        decreases ll - j,
    {
        if s.get_char(pos + j) != lit.get_char(j) {
            proof {
                assert(s@.subrange(pos as int, pos + ll)[j as int] != lit@[j as int]);
            }
            return false;
        }
        j = j + 1;
    }
    proof {
        assert(s@.subrange(pos as int, pos + ll) =~= lit@);
    }
    true
}

/// The digit-run end reached by a forward scan.
proof fn lemma_digits_end(s: Seq<char>, pos: int, e: int)
    requires
        0 <= pos <= e <= s.len(),
        forall|j: int| pos <= j < e ==> is_digit(#[trigger] s[j]),
        e == s.len() || !is_digit(s[e]),
    ensures
        digits_end(s, pos) == e,
    decreases e - pos,
{
    if pos < e {
        lemma_digits_end(s, pos + 1, e);
    }
}

/// Reads the canonical number at a position.
fn num_at_exec(s: &str, pos: usize) -> (r: Option<(u64, usize)>)
    requires
        pos <= s@.len(),
    ensures
        match r {
            Some((v, e)) => num_at(s@, pos as int) == Some((v, e as int)) && pos < e <= s@.len(),
            None => num_at(s@, pos as int) is None,
        },
{
    let n = s.unicode_len();
    let mut e: usize = pos;
    while e < n
        invariant_except_break
            n == s@.len(),
            pos <= e <= n,
            forall|j: int| pos <= j < e ==> is_digit(#[trigger] s@[j]),
        ensures
            n == s@.len(),
            pos <= e <= n,
            forall|j: int| pos <= j < e ==> is_digit(#[trigger] s@[j]),
            e == n || !is_digit(s@[e as int]),
        decreases n - e,
    {
        let code = s.get_char(e) as u32;
        if !(48 <= code && code <= 57) {
            proof {
                assert(!is_digit(s@[e as int]));
            }
            break;
        }
        e = e + 1;
    }
    proof {
        lemma_digits_end(s@, pos as int, e as int);
    }
    if e == pos {
        return None;
    }
    if s.get_char(pos) as u32 == 48 && e > pos + 1 {
        proof {
            assert(s@[pos as int] == '0');
        }
        return None;
    }
    proof {
        assert(s@[pos as int] != '0' || e == pos + 1);
    }
    let run = s.substring_char(pos, e);
    proof {
        assert(run@ =~= s@.subrange(pos as int, e as int));
        assert(run@.len() > 0);
        assert(all_digits(run@)) by {
            assert(forall|j: int|
                0 <= j < run@.len() ==> #[trigger] run@[j] == s@[pos + j]);
        }
    }
    match parse_u64(run) {
        Some(v) => Some((v, e)),
        None => None,
    }
}

/// Bounds of a string parse: it consumes at least the closing quote and
/// stays inside the line.
proof fn lemma_jstr_bounds(s: Seq<char>, pos: int)
    requires
        jstr_at(s, pos) is Some,
    ensures
        pos < jstr_at(s, pos)->Some_0.1 <= s.len(),
    decreases s.len() - pos,
{
    let c = s[pos];
    if c == '"' {
    } else if c == '\\' {
        lemma_jstr_bounds(s, pos + 2);
    } else {
        lemma_jstr_bounds(s, pos + 1);
    }
}

/// Reads the string content at a position, decoding escapes, up to and
/// including the closing quote.
fn jstr_at_exec(s: &str, pos: usize) -> (r: Option<(String, usize)>)
    requires
        pos <= s@.len(),
    ensures
        match r {
            Some((t, e)) => jstr_at(s@, pos as int) == Some((t@, e as int)) && pos < e
                <= s@.len(),
            None => jstr_at(s@, pos as int) is None,
        },
{
    let n = s.unicode_len();
    let mut cur: usize = pos;
    let mut out = String::new();
    proof {
        if jstr_at(s@, pos as int) is Some {
            let t = jstr_at(s@, pos as int)->Some_0.0;
            assert(out@ + t =~= t);
        }
    }
    while cur < n
        invariant_except_break
            n == s@.len(),
            pos <= cur <= n,
            jstr_at(s@, pos as int) == (match jstr_at(s@, cur as int) {
                Some((t, e)) => Some((out@ + t, e)),
                None => None::<(Seq<char>, int)>,
            }),
        ensures
            n == s@.len(),
            pos <= cur <= n,
            cur < n ==> s@[cur as int] == '"' && jstr_at(s@, pos as int) == Some(
                (out@, cur + 1 as int),
            ),
            cur >= n ==> jstr_at(s@, pos as int) is None,
        decreases n - cur,
    {
        let c = s.get_char(cur);
        if c == '"' {
            proof {
                assert(jstr_at(s@, cur as int) == Some(
                    (Seq::<char>::empty(), cur + 1 as int),
                ));
                assert(out@ + Seq::<char>::empty() =~= out@);
            }
            break;
        } else if c == '\\' {
            if cur + 1 >= n {
                return None;
            }
            let d = s.get_char(cur + 1);
            let piece: &'static str = if d == '"' {
                proof {
                    reveal_strlit("\"");
                    assert("\""@ =~= seq!['"']);
                }
                "\""
            } else if d == '\\' {
                proof {
                    reveal_strlit("\\");
                    assert("\\"@ =~= seq!['\\']);
                }
                "\\"
            } else if d == 'n' {
                proof {
                    reveal_strlit("\n");
                    assert("\n"@ =~= seq!['\n']);
                }
                "\n"
            } else if d == 'r' {
                proof {
                    reveal_strlit("\r");
                    assert("\r"@ =~= seq!['\r']);
                }
                "\r"
            } else if d == 't' {
                proof {
                    reveal_strlit("\t");
                    assert("\t"@ =~= seq!['\t']);
                }
                "\t"
            } else {
                proof {
                    assert(unesc_char(s@[cur + 1]) is None);
                }
                return None;
            };
            let ghost u = unesc_char(s@[cur + 1])->Some_0;
            let ghost before = out@;
            out.append(piece);
            proof {
                assert(out@ =~= before.push(u));
                if jstr_at(s@, cur + 2) is Some {
                    let t = jstr_at(s@, cur + 2)->Some_0.0;
                    assert(before + (seq![u] + t) =~= out@ + t);
                }
            }
            cur = cur + 2;
        } else if c == '\n' || c == '\r' || c == '\t' {
            return None;
        } else {
            let piece = s.substring_char(cur, cur + 1);
            let ghost before = out@;
            out.append(piece);
            proof {
                assert(piece@ =~= seq![s@[cur as int]]);
                assert(out@ =~= before.push(s@[cur as int]));
                if jstr_at(s@, cur + 1) is Some {
                    let t = jstr_at(s@, cur + 1)->Some_0.0;
                    assert(before + (seq![s@[cur as int]] + t) =~= out@ + t);
                }
            }
            cur = cur + 1;
        }
    }
    if cur >= n {
        return None;
    }
    Some((out, cur + 1))
}

/// Parses one serialized line back into a record; a line that is not in
/// the serializer's canonical form does not parse.
pub fn parse_metrics_line(line: &str) -> (r: Option<MetricsRecord>)
    ensures
        match r {
            Some(rec) => parse_line_spec(line@) == Some(
                (
                    rec.timestamp,
                    rec.mode@,
                    rec.provider@,
                    rec.latency_ms,
                    rec.tokens_in,
                    rec.tokens_out,
                    rec.success,
                ),
            ),
            None => parse_line_spec(line@) is None,
        },
{
    let n = line.unicode_len();
    let l_ts = "{\"timestamp\":";
    if !match_lit(line, 0, l_ts) {
        return None;
    }
    let p0 = l_ts.unicode_len();
    let (ts, p1) = match num_at_exec(line, p0) {
        Some(v) => v,
        None => {
            return None;
        },
    };
    let l_mode = ",\"mode\":\"";
    if !match_lit(line, p1, l_mode) {
        return None;
    }
    let q1 = p1 + l_mode.unicode_len();
    let (mode, p2) = match jstr_at_exec(line, q1) {
        Some(v) => v,
        None => {
            return None;
        },
    };
    let l_prov = ",\"provider\":\"";
    if !match_lit(line, p2, l_prov) {
        return None;
    }
    let q2 = p2 + l_prov.unicode_len();
    let (provider, p3) = match jstr_at_exec(line, q2) {
        Some(v) => v,
        None => {
            return None;
        },
    };
    let l_lat = ",\"latencyMs\":";
    let (latency, p4) = if match_lit(line, p3, l_lat) {
        let q = p3 + l_lat.unicode_len();
        match num_at_exec(line, q) {
            Some((v, e)) => (Some(v), e),
            None => {
                return None;
            },
        }
    } else {
        (None, p3)
    };
    let l_tin = ",\"tokensIn\":";
    let (tin, p5) = if match_lit(line, p4, l_tin) {
        let q = p4 + l_tin.unicode_len();
        match num_at_exec(line, q) {
            Some((v, e)) => {
                if v > 0xFFFFFFFF {
                    return None;
                }
                (Some(v as u32), e)
            },
            None => {
                return None;
            },
        }
    } else {
        (None, p4)
    };
    let l_tout = ",\"tokensOut\":";
    let (tout, p6) = if match_lit(line, p5, l_tout) {
        let q = p5 + l_tout.unicode_len();
        match num_at_exec(line, q) {
            Some((v, e)) => {
                if v > 0xFFFFFFFF {
                    return None;
                }
                (Some(v as u32), e)
            },
            None => {
                return None;
            },
        }
    } else {
        (None, p5)
    };
    let l_succ = ",\"success\":";
    if !match_lit(line, p6, l_succ) {
        return None;
    }
    let q6 = p6 + l_succ.unicode_len();
    let l_true = "true";
    let l_false = "false";
    proof {
        reveal_strlit("true");
        reveal_strlit("false");
        reveal_strlit("}");
    }
    let (success, p7) = if match_lit(line, q6, l_true) {
        (true, q6 + l_true.unicode_len())
    } else if match_lit(line, q6, l_false) {
        (false, q6 + l_false.unicode_len())
    } else {
        return None;
    };
    let l_close = "}";
    if !match_lit(line, p7, l_close) {
        return None;
    }
    if p7 + l_close.unicode_len() != n {
        return None;
    }
    Some(
        MetricsRecord {
            timestamp: ts,
            mode,
            provider,
            latency_ms: latency,
            tokens_in: tin,
            tokens_out: tout,
            success,
        },
    )
}

} // verus!
