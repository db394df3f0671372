//! The host telemetry reader's parsing logic: best-effort, read-only
//! facts about memory, uptime and process count, computed from text that
//! the surrounding process reads from the OS.

use vstd::prelude::*;
use vstd::string::StrSliceExecFns;
use vstd::string::StringExecFns;

use crate::strutil::all_digits;
use crate::strutil::is_digit;
use crate::strutil::parse_u64;
use crate::strutil::parse_u64_spec;

verus! {

/// A whitespace character, as the telemetry parsers understand it.
pub open spec fn is_ws_char(c: char) -> bool {
    c == ' ' || c == '\t' || c == '\n' || c == '\r' || c == '\u{c}'
}

/// Closing one accumulated token: empty tokens are dropped.
pub open spec fn close_tok(cur: Seq<char>) -> Seq<Seq<char>> {
    if cur.len() == 0 {
        Seq::empty()
    } else {
        seq![cur]
    }
}

/// Splits the remaining characters on any of the separator characters,
/// with `cur` the token read so far.
pub open spec fn tokens_acc(s: Seq<char>, cur: Seq<char>, seps: Seq<char>) -> Seq<Seq<char>>
    decreases s.len(),
{
    if s.len() == 0 {
        close_tok(cur)
    } else if seps.contains(s[0]) {
        close_tok(cur) + tokens_acc(s.skip(1), Seq::empty(), seps)
    } else {
        tokens_acc(s.skip(1), cur.push(s[0]), seps)
    }
}

/// The non-empty tokens of a string, split on the given separators.
pub open spec fn tokens_spec(s: Seq<char>, seps: Seq<char>) -> Seq<Seq<char>> {
    tokens_acc(s, Seq::empty(), seps)
}

/// Whether a string holds the given character.
fn contains_char(seps: &str, c: char) -> (r: bool)
    ensures
        r == seps@.contains(c),
{
    let n = seps.unicode_len();
    let mut i: usize = 0;
    while i < n
        invariant
            n == seps@.len(),
            i <= n,
            forall|j: int| 0 <= j < i ==> seps@[j] != c,
        decreases n - i,
    {
        if seps.get_char(i) == c {
            return true;
        }
        i = i + 1;
    }
    false
}

/// Extracts the token `s[start..end]` and appends it to `out` unless it
/// is empty.
fn push_tok(out: &mut Vec<String>, s: &str, start: usize, end: usize)
    requires
        start <= end <= s@.len(),
    ensures
        final(out).deep_view() == old(out).deep_view() + close_tok(
            s@.subrange(start as int, end as int),
        ),
{
    let ghost cur = s@.subrange(start as int, end as int);
    if end > start {
        let token = s.substring_char(start, end);
        let owned = String::from_str(token);
        let ghost before = out.deep_view();
        out.push(owned);
        proof {
            assert(close_tok(cur) == seq![cur]);
            assert(out.deep_view() =~= before + seq![cur]);
        }
    } else {
        proof {
            assert(cur.len() == 0);
            assert(out.deep_view() =~= out.deep_view() + close_tok(cur));
        }
    }
}

/// Splits a string into its non-empty tokens on the given separator
/// characters.
pub fn split_tokens(s: &str, seps: &str) -> (r: Vec<String>)
    ensures
        r.deep_view() == tokens_spec(s@, seps@),
{
    let len = s.unicode_len();
    let mut out: Vec<String> = Vec::new();
    let mut start: usize = 0;
    let mut i: usize = 0;
    proof {
        assert(s@.skip(0) =~= s@);
        assert(s@.subrange(0, 0) =~= Seq::<char>::empty());
        assert(out.deep_view() + tokens_acc(s@, Seq::empty(), seps@) =~= tokens_acc(
            s@,
            Seq::empty(),
            seps@,
        ));
    }
    while i < len
        invariant
            len == s@.len(),
            start <= i <= len,
            out.deep_view() + tokens_acc(
                s@.skip(i as int),
                s@.subrange(start as int, i as int),
                seps@,
            ) == tokens_spec(s@, seps@),
        decreases len - i,
    {
        let ghost cur = s@.subrange(start as int, i as int);
        proof {
            assert(s@.skip(i as int)[0] == s@[i as int]);
            assert(s@.skip(i as int).skip(1) =~= s@.skip(i + 1));
        }
        let c = s.get_char(i);
        if contains_char(seps, c) {
            let ghost before = out.deep_view();
            push_tok(&mut out, s, start, i);
            proof {
                assert(tokens_acc(s@.skip(i as int), cur, seps@) == close_tok(cur) + tokens_acc(
                    s@.skip(i + 1),
                    Seq::empty(),
                    seps@,
                ));
                assert(s@.subrange(i + 1, i + 1) =~= Seq::<char>::empty());
                assert(out.deep_view() + tokens_acc(s@.skip(i + 1), Seq::empty(), seps@)
                    =~= before + (close_tok(cur) + tokens_acc(
                    s@.skip(i + 1),
                    Seq::empty(),
                    seps@,
                )));
            }
            start = i + 1;
        } else {
            proof {
                assert(cur.push(c) =~= s@.subrange(start as int, i + 1));
            }
        }
        i = i + 1;
    }
    let ghost cur = s@.subrange(start as int, len as int);
    proof {
        assert(s@.skip(len as int) =~= Seq::<char>::empty());
        assert(tokens_acc(s@.skip(len as int), cur, seps@) == close_tok(cur));
    }
    let ghost before = out.deep_view();
    push_tok(&mut out, s, start, len);
    proof {
        assert(out.deep_view() =~= before + close_tok(cur));
    }
    out
}

/// The characters before the first occurrence of `c`.
pub open spec fn before_char(s: Seq<char>, c: char) -> Seq<char>
    decreases s.len(),
{
    if s.len() == 0 {
        Seq::empty()
    } else if s[0] == c {
        Seq::empty()
    } else {
        seq![s[0]] + before_char(s.skip(1), c)
    }
}

/// The prefix before the first `c` is the take up to its first index.
proof fn lemma_before_char(s: Seq<char>, c: char, i: int)
    requires
        0 <= i <= s.len(),
        forall|j: int| 0 <= j < i ==> s[j] != c,
        i == s.len() || s[i] == c,
    ensures
        before_char(s, c) == s.take(i),
    decreases i,
{
    if i == 0 {
        assert(before_char(s, c) =~= s.take(0));
    } else {
        assert(s[0] != c);
        assert forall|j: int| 0 <= j < i - 1 implies s.skip(1)[j] != c by {
            assert(s.skip(1)[j] == s[j + 1]);
        }
        assert(i - 1 == s.skip(1).len() || s.skip(1)[i - 1] == c);
        lemma_before_char(s.skip(1), c, i - 1);
        assert(seq![s[0]] + s.skip(1).take(i - 1) =~= s.take(i));
    }
}

/// The uptime in whole seconds read from the uptime text: the integer
/// part of its first whitespace-separated token.
pub open spec fn uptime_spec(s: Seq<char>) -> Option<u64> {
    let toks = tokens_spec(s, " \t\n\r"@);
    if toks.len() == 0 {
        None
    } else {
        parse_u64_spec(before_char(toks[0], '.'))
    }
}

/// Parses the uptime text: whole seconds from the first token.
pub fn parse_uptime(contents: &str) -> (r: Option<u64>)
    ensures
        r == uptime_spec(contents@),
{
    let toks = split_tokens(contents, " \t\n\r");
    if toks.len() == 0 {
        proof {
            assert(tokens_spec(contents@, " \t\n\r"@).len() == 0);
        }
        return None;
    }
    let first = &toks[0];
    proof {
        assert(toks.deep_view()[0] == toks@[0]@);
    }
    let m = first.as_str().unicode_len();
    let mut e: usize = 0;
    while e < m
        invariant_except_break
            m == first@.len(),
            e <= m,
            forall|j: int| 0 <= j < e ==> first@[j] != '.',
        ensures
            m == first@.len(),
            e <= m,
            forall|j: int| 0 <= j < e ==> first@[j] != '.',
            e == m || first@[e as int] == '.',
        decreases m - e,
    {
        if first.as_str().get_char(e) == '.' {
            break;
        }
        e = e + 1;
    }
    proof {
        lemma_before_char(first@, '.', e as int);
    }
    let head = first.as_str().substring_char(0, e);
    proof {
        assert(head@ =~= first@.take(e as int));
    }
    parse_u64(head)
}

/// Every character of a name is a decimal digit; used to recognise
/// process entries.
pub fn is_all_digits(name: &str) -> (r: bool)
    ensures
        r == all_digits(name@),
{
    let n = name.unicode_len();
    let mut i: usize = 0;
    while i < n
        invariant
            n == name@.len(),
            i <= n,
            forall|j: int| 0 <= j < i ==> is_digit(#[trigger] name@[j]),
        decreases n - i,
    {
        let code = name.get_char(i) as u32;
        if !(48 <= code && code <= 57) {
            proof {
                assert(!is_digit(name@[i as int]));
            }
            return false;
        }
        i = i + 1;
    }
    true
}

/// How many names consist of decimal digits only.
pub open spec fn count_numeric_spec(names: Seq<Seq<char>>) -> int
    decreases names.len(),
{
    if names.len() == 0 {
        0int
    } else {
        count_numeric_spec(names.drop_last()) + if all_digits(names.last()) {
            1int
        } else {
            0int
        }
    }
}

/// Counts the names that consist of decimal digits only — the process
/// entries of a process table listing.
pub fn count_numeric(names: &[String]) -> (r: usize)
    ensures
        r == count_numeric_spec(names.deep_view()),
{
    let n = names.len();
    let mut count: usize = 0;
    let mut i: usize = 0;
    proof {
        assert(names.deep_view().take(0) =~= Seq::<Seq<char>>::empty());
    }
    while i < n
        invariant
            n == names@.len(),
            i <= n,
            count <= i,
            count == count_numeric_spec(names.deep_view().take(i as int)),
        decreases n - i,
    {
        proof {
            assert(names.deep_view().take(i + 1).drop_last() =~= names.deep_view().take(i as int));
            assert(names.deep_view().take(i + 1).last() == names.deep_view()[i as int]);
            assert(names.deep_view()[i as int] == names@[i as int]@);
        }
        if is_all_digits(names[i].as_str()) {
            count = count + 1;
        }
        i = i + 1;
    }
    proof {
        assert(names.deep_view().take(n as int) =~= names.deep_view());
    }
    count
}

/// The string with leading whitespace removed.
pub open spec fn trim_front(s: Seq<char>) -> Seq<char>
    decreases s.len(),
{
    if s.len() > 0 && is_ws_char(s[0]) {
        trim_front(s.skip(1))
    } else {
        s
    }
}

/// The string with trailing whitespace removed.
pub open spec fn trim_back(s: Seq<char>) -> Seq<char>
    decreases s.len(),
{
    if s.len() > 0 && is_ws_char(s.last()) {
        trim_back(s.drop_last())
    } else {
        s
    }
}

/// The string with surrounding whitespace removed.
pub open spec fn trim_spec(s: Seq<char>) -> Seq<char> {
    trim_back(trim_front(s))
}

/// Trimming the front skips the leading whitespace run.
proof fn lemma_trim_front(s: Seq<char>, a: int)
    requires
        0 <= a <= s.len(),
        forall|j: int| 0 <= j < a ==> is_ws_char(#[trigger] s[j]),
        a == s.len() || !is_ws_char(s[a]),
    ensures
        trim_front(s) == s.skip(a),
    decreases a,
{
    if a == 0 {
        assert(s.skip(0) =~= s);
    } else {
        assert(is_ws_char(s[0]));
        assert forall|j: int| 0 <= j < a - 1 implies is_ws_char(#[trigger] s.skip(1)[j]) by {
            assert(s.skip(1)[j] == s[j + 1]);
        }
        assert(a - 1 == s.skip(1).len() || !is_ws_char(s.skip(1)[a - 1]));
        lemma_trim_front(s.skip(1), a - 1);
        assert(s.skip(1).skip(a - 1) =~= s.skip(a));
    }
}

/// Trimming the back drops the trailing whitespace run.
proof fn lemma_trim_back(s: Seq<char>, b: int)
    requires
        0 <= b <= s.len(),
        forall|j: int| b <= j < s.len() ==> is_ws_char(#[trigger] s[j]),
        b == 0 || !is_ws_char(s[b - 1]),
    ensures
        trim_back(s) == s.take(b),
    decreases s.len(),
{
    if s.len() == 0 {
        assert(trim_back(s) =~= s.take(0));
    } else if is_ws_char(s.last()) {
        assert(b < s.len());
        assert forall|j: int| b <= j < s.drop_last().len() implies is_ws_char(
            #[trigger] s.drop_last()[j],
        ) by {
            assert(s.drop_last()[j] == s[j]);
        }
        lemma_trim_back(s.drop_last(), b);
        assert(s.drop_last().take(b) =~= s.take(b));
    } else {
        assert(b == s.len());
        assert(s.take(b) =~= s);
    }
}

/// Trims surrounding whitespace from a tool's output line; an output
/// that is blank after trimming reports `None`.
pub fn clean_output(s: &str) -> (r: Option<String>)
    ensures
        match r {
            Some(t) => trim_spec(s@).len() > 0 && t@ == trim_spec(s@),
            None => trim_spec(s@).len() == 0,
        },
{
    let n = s.unicode_len();
    let mut a: usize = 0;
    while a < n
        invariant_except_break
            n == s@.len(),
            a <= n,
            forall|j: int| 0 <= j < a ==> is_ws_char(#[trigger] s@[j]),
        ensures
            n == s@.len(),
            a <= n,
            forall|j: int| 0 <= j < a ==> is_ws_char(#[trigger] s@[j]),
            a == n || !is_ws_char(s@[a as int]),
        decreases n - a,
    {
        let c = s.get_char(a);
        if !(c == ' ' || c == '\t' || c == '\n' || c == '\r' || c == '\u{c}') {
            break;
        }
        a = a + 1;
    }
    let mut b: usize = n;
    while b > a
        invariant_except_break
            n == s@.len(),
            a <= b <= n,
            forall|j: int| b <= j < n ==> is_ws_char(#[trigger] s@[j]),
        ensures
            n == s@.len(),
            a <= b <= n,
            forall|j: int| b <= j < n ==> is_ws_char(#[trigger] s@[j]),
            b == a || !is_ws_char(s@[b - 1]),
        decreases b,
    {
        let c = s.get_char(b - 1);
        if !(c == ' ' || c == '\t' || c == '\n' || c == '\r' || c == '\u{c}') {
            break;
        }
        b = b - 1;
    }
    proof {
        lemma_trim_front(s@, a as int);
        let rest = s@.skip(a as int);
        assert forall|j: int| b - a <= j < rest.len() implies is_ws_char(#[trigger] rest[j]) by {
            assert(rest[j] == s@[j + a]);
        }
        if b > a {
            assert(rest[b - a - 1] == s@[b - 1]);
        }
        lemma_trim_back(rest, b - a);
        assert(trim_spec(s@) =~= s@.subrange(a as int, b as int)) by {
            assert(rest.take(b - a) =~= s@.subrange(a as int, b as int));
        }
    }
    if b == a {
        None
    } else {
        let piece = s.substring_char(a, b);
        proof {
            assert(piece@ =~= s@.subrange(a as int, b as int));
        }
        Some(String::from_str(piece))
    }
}

/// The key token's trailing colons removed.
pub open spec fn trim_colons(s: Seq<char>) -> Seq<char>
    decreases s.len(),
{
    if s.len() > 0 && s.last() == ':' {
        trim_colons(s.drop_last())
    } else {
        s
    }
}

/// The prefix before the trailing colons is the take up to their start.
proof fn lemma_trim_colons(s: Seq<char>, e: int)
    requires
        0 <= e <= s.len(),
        forall|j: int| e <= j < s.len() ==> s[j] == ':',
        e == 0 || s[e - 1] != ':',
    ensures
        trim_colons(s) == s.take(e),
    decreases s.len(),
{
    if s.len() == 0 {
        assert(trim_colons(s) =~= s.take(0));
    } else if s.last() == ':' {
        assert(e < s.len());
        assert forall|j: int| e <= j < s.drop_last().len() implies s.drop_last()[j] == ':' by {
            assert(s.drop_last()[j] == s[j]);
        }
        lemma_trim_colons(s.drop_last(), e);
        assert(s.drop_last().take(e) =~= s.take(e));
    } else {
        assert(e == s.len());
        assert(trim_colons(s) == s);
        assert(s.take(e) =~= s);
    }
}

/// Strips trailing colons from a key token.
fn strip_colons(s: &str) -> (r: String)
    ensures
        r@ == trim_colons(s@),
{
    let n = s.unicode_len();
    let mut e: usize = n;
    while e > 0
        invariant_except_break
            n == s@.len(),
            e <= n,
            forall|j: int| e <= j < n ==> s@[j] == ':',
        ensures
            n == s@.len(),
            e <= n,
            forall|j: int| e <= j < n ==> s@[j] == ':',
            e == 0 || s@[e - 1] != ':',
        decreases e,
    {
        if s.get_char(e - 1) != ':' {
            break;
        }
        e = e - 1;
    }
    proof {
        lemma_trim_colons(s@, e as int);
    }
    let head = s.substring_char(0, e);
    proof {
        assert(head@ =~= s@.take(e as int));
    }
    String::from_str(head)
}

/// A kilobyte count scaled to bytes, saturating at the top of `u64`.
pub open spec fn kb_to_bytes(v: u64) -> u64 {
    if v * 1024 > u64::MAX {
        u64::MAX
    } else {
        (v * 1024) as u64
    }
}

/// Scales a kilobyte count to bytes, saturating.
fn kb_to_bytes_exec(v: u64) -> (r: u64)
    ensures
        r == kb_to_bytes(v),
{
    if v > u64::MAX / 1024 {
        u64::MAX
    } else {
        v * 1024
    }
}

/// The value a memory table line assigns: its second token read as a
/// decimal kilobyte count (zero when unreadable), in bytes.
pub open spec fn mem_line_value(tok: Seq<char>) -> u64 {
    kb_to_bytes(
        match parse_u64_spec(tok) {
            Some(v) => v,
            None => 0u64,
        },
    )
}

/// One memory table line applied to the running totals
/// `(total, free, available, swap_total, swap_free)`.
pub open spec fn mem_step(acc: (u64, u64, u64, u64, u64), line: Seq<char>) -> (
    u64,
    u64,
    u64,
    u64,
    u64,
) {
    let toks = tokens_spec(line, " \t\r"@);
    if toks.len() < 2 {
        acc
    } else {
        let key = trim_colons(toks[0]);
        let v = mem_line_value(toks[1]);
        if key == "MemTotal"@ {
            (v, acc.1, acc.2, acc.3, acc.4)
        } else if key == "MemFree"@ {
            (acc.0, v, acc.2, acc.3, acc.4)
        } else if key == "MemAvailable"@ {
            (acc.0, acc.1, v, acc.3, acc.4)
        } else if key == "SwapTotal"@ {
            (acc.0, acc.1, acc.2, v, acc.4)
        } else if key == "SwapFree"@ {
            (acc.0, acc.1, acc.2, acc.3, v)
        } else {
            acc
        }
    }
}

/// The memory table folded line by line; later lines overwrite earlier
/// ones.
pub open spec fn mem_fold(lines: Seq<Seq<char>>) -> (u64, u64, u64, u64, u64)
    decreases lines.len(),
{
    if lines.len() == 0 {
        (0u64, 0u64, 0u64, 0u64, 0u64)
    } else {
        mem_step(mem_fold(lines.drop_last()), lines.last())
    }
}

/// The parse of the memory table: `None` when no total was found.
pub open spec fn meminfo_spec(s: Seq<char>) -> Option<(u64, u64, u64, u64, u64)> {
    let f = mem_fold(tokens_spec(s, "\n"@));
    if f.0 == 0 {
        None
    } else {
        Some(f)
    }
}

/// Parses the OS memory table: `(total, free, available, swap_total,
/// swap_free)` in bytes, or `None` when no total is present. A value
/// that does not parse counts as zero; scaling to bytes saturates.
pub fn parse_meminfo(contents: &str) -> (r: Option<(u64, u64, u64, u64, u64)>)
    ensures
        r == meminfo_spec(contents@),
{
    let lines = split_tokens(contents, "\n");
    let n = lines.len();
    let mut acc: (u64, u64, u64, u64, u64) = (0, 0, 0, 0, 0);
    let mut i: usize = 0;
    proof {
        assert(lines.deep_view().take(0) =~= Seq::<Seq<char>>::empty());
    }
    while i < n
        invariant
            n == lines@.len(),
            i <= n,
            lines.deep_view() == tokens_spec(contents@, "\n"@),
            acc == mem_fold(lines.deep_view().take(i as int)),
        decreases n - i,
    {
        proof {
            assert(lines.deep_view().take(i + 1).drop_last() =~= lines.deep_view().take(i as int));
            assert(lines.deep_view().take(i + 1).last() == lines.deep_view()[i as int]);
            assert(lines.deep_view()[i as int] == lines@[i as int]@);
        }
        let line = &lines[i];
        let toks = split_tokens(line.as_str(), " \t\r");
        if toks.len() >= 2 {
            proof {
                assert(toks.deep_view()[0] == toks@[0]@);
                assert(toks.deep_view()[1] == toks@[1]@);
            }
            let key = strip_colons(toks[0].as_str());
            let v = kb_to_bytes_exec(
                match parse_u64(toks[1].as_str()) {
                    Some(v) => v,
                    None => 0,
                },
            );
            if crate::strutil::str_eq(key.as_str(), "MemTotal") {
                acc = (v, acc.1, acc.2, acc.3, acc.4);
            } else if crate::strutil::str_eq(key.as_str(), "MemFree") {
                acc = (acc.0, v, acc.2, acc.3, acc.4);
            } else if crate::strutil::str_eq(key.as_str(), "MemAvailable") {
                acc = (acc.0, acc.1, v, acc.3, acc.4);
            } else if crate::strutil::str_eq(key.as_str(), "SwapTotal") {
                acc = (acc.0, acc.1, acc.2, v, acc.4);
            } else if crate::strutil::str_eq(key.as_str(), "SwapFree") {
                acc = (acc.0, acc.1, acc.2, acc.3, v);
            }
        }
        i = i + 1;
    }
    proof {
        assert(lines.deep_view().take(n as int) =~= lines.deep_view());
    }
    if acc.0 == 0 {
        None
    } else {
        Some(acc)
    }
}

/// Host memory facts, in bytes.
pub struct MemoryInfo {
    pub total: u64,
    pub used: u64,
    pub free: u64,
    pub swap_total: u64,
    pub swap_used: u64,
}

/// The memory report derived from a parsed memory table: available
/// memory counts as free when present, used memory is the saturating
/// difference, and a missing table reports zeroes.
pub fn build_memory_info(sample: Option<(u64, u64, u64, u64, u64)>) -> (r: MemoryInfo)
    ensures
        match sample {
            None => r.total == 0 && r.used == 0 && r.free == 0 && r.swap_total == 0
                && r.swap_used == 0,
            Some((total, free, available, swap_total, swap_free)) => {
                let effective_free: u64 = if available > 0 {
                    available
                } else {
                    free
                };
                &&& r.total == total
                &&& r.free == effective_free
                &&& r.used == (if total >= effective_free {
                    (total - effective_free) as u64
                } else {
                    0u64
                })
                &&& r.swap_total == swap_total
                &&& r.swap_used == (if swap_total >= swap_free {
                    (swap_total - swap_free) as u64
                } else {
                    0u64
                })
            },
        },
{
    match sample {
        None => MemoryInfo { total: 0, used: 0, free: 0, swap_total: 0, swap_used: 0 },
        Some((total, free, available, swap_total, swap_free)) => {
            let effective_free = if available > 0 {
                available
            } else {
                free
            };
            MemoryInfo {
                total,
                used: total.saturating_sub(effective_free),
                free: effective_free,
                swap_total,
                swap_used: swap_total.saturating_sub(swap_free),
            }
        },
    }
}

/// Host CPU facts.
pub struct CpuInfo {
    pub logical_cores: usize,
}

/// The full telemetry report: a timestamp, identification strings as the
/// OS reports them, memory and CPU facts, and optional uptime and
/// process count.
pub struct SystemInfoResponse {
    pub timestamp_ms: u64,
    pub hostname: Option<String>,
    pub os: String,
    pub os_version: Option<String>,
    pub kernel_version: Option<String>,
    pub architecture: Option<String>,
    pub memory: MemoryInfo,
    pub cpu: CpuInfo,
    pub uptime: Option<u64>,
    pub process_count: Option<usize>,
}

/// Milliseconds since the epoch for a duration given as whole seconds
/// and a nanosecond remainder; a time before the epoch reports `None`.
/// The millisecond count is reduced modulo the `u64` range.
pub fn system_time_to_millis(since_epoch: Option<(u64, u32)>) -> (r: Option<u64>)
    ensures
        match since_epoch {
            None => r is None,
            Some((secs, nanos)) => r == Some(
                ((secs * 1000 + nanos / 1000000) % 0x10000000000000000) as u64,
            ),
        },
{
    match since_epoch {
        None => None,
        Some((secs, nanos)) => {
            let millis: u128 = (secs as u128) * 1000 + ((nanos / 1000000) as u128);
            let reduced: u64 = (millis % 0x10000000000000000) as u64;
            Some(reduced)
        },
    }
}

/// Relies on `std::time::SystemTime::now` and `duration_since`: the
/// duration from the epoch to the present, as whole seconds and a
/// nanosecond remainder, or `None` when the clock stands before the
/// epoch. Nothing further can be promised of a clock reading.
#[verifier::external_body]
fn now_unix_parts() -> (r: Option<(u64, u32)>)
    ensures
        match r {
            Some((_, nanos)) => nanos < 1000000000,
            None => true,
        },
{
    match std::time::SystemTime::now().duration_since(std::time::UNIX_EPOCH) {
        Ok(d) => Some((d.as_secs(), d.subsec_nanos())),
        Err(_) => None,
    }
}

/// The current time in epoch milliseconds; a clock before the epoch
/// reports zero.
pub fn current_timestamp_ms() -> u64 {
    match system_time_to_millis(now_unix_parts()) {
        Some(ms) => ms,
        None => 0,
    }
}

} // verus!
