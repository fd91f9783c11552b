//! The history log: its lines, and the listing that the `history` builtin prints.

use crate::decimal::{
    decimal, digits_of, int_text, is_digit, lemma_decimal_round_trip, lemma_digits_of, parse_i64,
    parse_int,
};
use crate::shell_state::{text_of, ShellState, StateView};
use crate::text::{collect_chars, join, join_strings, string_from_chars};
use chrono::{MappedLocalTime, TimeZone, Utc};
use vstd::prelude::*;
use vstd::string::StringExecFns;

verus! {

/// One entry of the log: a line that was entered, and when.
#[derive(Debug, PartialEq)]
pub struct History {
    pub input: String,
    /// Seconds since the start of 1970, UTC.
    pub date: i64,
}

/// The mathematical value of a [`History`].
pub struct HistoryView {
    pub input: Seq<char>,
    pub date: int,
}

impl View for History {
    type V = HistoryView;

    open spec fn view(&self) -> HistoryView {
        HistoryView { input: self.input@, date: self.date as int }
    }
}

/// The text that chrono writes for the UTC date and time that lies `secs`
/// seconds after the start of 1970, or `None` where chrono has no such date.
pub uninterp spec fn utc_text(secs: int) -> Option<Seq<char>>;

/// Calls chrono's `TimeZone::timestamp_opt` on `Utc` with no nanoseconds and
/// writes the date it gives with its `Display`. The contract only names the
/// result: the text depends on `secs` alone, and there is none where
/// `timestamp_opt` finds `secs` out of range.
#[verifier::external_body]
fn utc_date_text(secs: i64) -> (r: Option<String>)
    ensures
        text_of(r) == utc_text(secs as int),
{
    match Utc.timestamp_opt(secs, 0) {
        MappedLocalTime::Single(date) => Some(format!("{}", date)),
        MappedLocalTime::Ambiguous(_, _) => None,
        MappedLocalTime::None => None,
    }
}

/// The position of the first `c` in `s`, or the length of `s` if there is
/// none.
pub open spec fn first_index(s: Seq<char>, c: char) -> int
    decreases s.len(),
{
    if s.len() == 0 || s[0] == c {
        0
    } else {
        1 + first_index(s.drop_first(), c)
    }
}

/// `first_index(s, c)` is the one position that holds `c` and has no `c`
/// before it; it is the length of `s` when no position holds `c`.
pub proof fn lemma_first_index(s: Seq<char>, c: char, at: int)
    requires
        0 <= at <= s.len(),
        forall|j: int| 0 <= j < at ==> #[trigger] s[j] != c,
        at < s.len() ==> s[at] == c,
    ensures
        first_index(s, c) == at,
    decreases at,
{
    if at > 0 {
        let rest = s.drop_first();
        assert forall|j: int| 0 <= j < at - 1 implies #[trigger] rest[j] != c by {
            assert(rest[j] == s[j + 1]);
        }
        lemma_first_index(rest, c, at - 1);
    }
}

/// The entry that a line of the log holds: the seconds, written in decimal,
/// then the first `;` of the line, then the input. A line without `;` or
/// without a number before it holds none.
pub open spec fn decode(line: Seq<char>) -> Option<HistoryView> {
    let at = first_index(line, ';');
    if at >= line.len() {
        None
    } else {
        match parse_int(line.take(at)) {
            Some(date) => Some(HistoryView { input: line.skip(at + 1), date }),
            None => None,
        }
    }
}

/// The line of the log for an entry.
pub open spec fn encode(date: int, input: Seq<char>) -> Seq<char> {
    decimal(date) + ";"@ + input
}

/// Reads an entry from a line of the log.
pub fn decode_line(history: &String) -> (r: Option<History>)
    ensures
        match r {
            Some(entry) => decode(history@) == Some(entry@),
            None => decode(history@) is None,
        },
{
    let chars = collect_chars(history.as_str());
    let n = chars.len();
    let mut at: usize = 0;
    while at < n && chars[at] != ';'
        invariant
            at <= n,
            n == chars.len(),
            forall|j: int| 0 <= j < at ==> #[trigger] chars@[j] != ';',
        decreases n - at,
    {
        at += 1;
    }
    proof {
        lemma_first_index(chars@, ';', at as int);
    }
    if at == n {
        return None;
    }
    let number = string_from_chars(&chars, 0, at);
    match parse_i64(number.as_str()) {
        Some(date) => Some(History { input: string_from_chars(&chars, at + 1, n), date }),
        None => None,
    }
}

/// The entry that a line of the older log form holds. In that form two
/// characters stand before the seconds; apart from them the line is read as
/// [`decode`] reads it. A line with fewer than two characters before its
/// first `;` holds no entry.
pub open spec fn decode_prefixed(line: Seq<char>) -> Option<HistoryView> {
    let at = first_index(line, ';');
    if at >= line.len() || at < 2 {
        None
    } else {
        match parse_int(line.take(at).skip(2)) {
            Some(date) => Some(HistoryView { input: line.skip(at + 1), date }),
            None => None,
        }
    }
}

/// Reads an entry from a line of the older log form, in which two characters
/// stand before the seconds.
pub fn parse_line(history: &String) -> (r: Option<History>)
    ensures
        match r {
            Some(entry) => decode_prefixed(history@) == Some(entry@),
            None => decode_prefixed(history@) is None,
        },
{
    let chars = collect_chars(history.as_str());
    let n = chars.len();
    let mut at: usize = 0;
    while at < n && chars[at] != ';'
        invariant
            at <= n,
            n == chars.len(),
            forall|j: int| 0 <= j < at ==> #[trigger] chars@[j] != ';',
        decreases n - at,
    {
        at += 1;
    }
    proof {
        lemma_first_index(chars@, ';', at as int);
    }
    if at == n || at < 2 {
        return None;
    }
    assert(chars@.subrange(2, at as int) =~= chars@.take(at as int).skip(2));
    let number = string_from_chars(&chars, 2, at);
    match parse_i64(number.as_str()) {
        Some(date) => Some(History { input: string_from_chars(&chars, at + 1, n), date }),
        None => None,
    }
}

/// Writes an entry as a line of the log.
pub fn encode_to_line(timestamp: &i64, cmd: &String) -> (line: String)
    ensures
        line@ == encode(*timestamp as int, cmd@),
{
    int_text(*timestamp).concat(";").concat(cmd.as_str())
}

/// A number written in decimal holds no `;`.
pub proof fn lemma_decimal_has_no_semicolon(n: int)
    ensures
        forall|j: int| 0 <= j < decimal(n).len() ==> #[trigger] decimal(n)[j] != ';',
        decimal(n).len() > 0,
{
    let text = decimal(n);
    if n < 0 {
        lemma_digits_of((-n) as nat);
        let digits = digits_of((-n) as nat);
        assert forall|j: int| 0 <= j < text.len() implies #[trigger] text[j] != ';' by {
            if j > 0 {
                assert(text[j] == digits[j - 1]);
                assert(is_digit(digits[j - 1]));
            }
        }
    } else {
        lemma_digits_of(n as nat);
        assert forall|j: int| 0 <= j < text.len() implies #[trigger] text[j] != ';' by {
            assert(is_digit(text[j]));
        }
    }
}

/// Reading the line that was written for an entry gives the entry back,
/// whatever the input holds.
pub proof fn lemma_history_round_trip(date: int, input: Seq<char>)
    requires
        i64::MIN <= date <= i64::MAX,
    ensures
        decode(encode(date, input)) == Some(HistoryView { input, date }),
{
    reveal_strlit(";");
    let number = decimal(date);
    let line = encode(date, input);
    lemma_decimal_has_no_semicolon(date);
    lemma_decimal_round_trip(date);
    assert(line[number.len() as int] == ';');
    assert forall|j: int| 0 <= j < number.len() implies #[trigger] line[j] != ';' by {
        assert(line[j] == number[j]);
    }
    lemma_first_index(line, ';', number.len() as int);
    assert(line.take(number.len() as int) =~= number);
    assert(line.skip(number.len() as int + 1) =~= input);
}

/// An entry as the listing shows it: the date and time, a blank, the input.
/// There is no such text where chrono has no date for the entry's seconds.
pub open spec fn format(entry: HistoryView) -> Option<Seq<char>> {
    match utc_text(entry.date) {
        Some(date) => Some(date + " "@ + entry.input),
        None => None,
    }
}

/// Writes an entry as the listing shows it.
pub fn format_history(history: History) -> (r: Option<String>)
    ensures
        text_of(r) == format(history@),
{
    match utc_date_text(history.date) {
        Some(date) => Some(date.concat(" ").concat(history.input.as_str())),
        None => None,
    }
}

/// A line without the carriage return that may end it.
pub open spec fn strip_cr(line: Seq<char>) -> Seq<char> {
    if line.len() > 0 && line.last() == '\r' {
        line.drop_last()
    } else {
        line
    }
}

/// The lines of `s` from position `i` on, where `cur` holds the characters of
/// the line that is being read.
pub open spec fn lines_from(s: Seq<char>, i: int, cur: Seq<char>) -> Seq<Seq<char>>
    decreases s.len() - i,
{
    if i < 0 || i >= s.len() {
        if cur.len() == 0 {
            Seq::empty()
        } else {
            seq![cur]
        }
    } else if s[i] == '\n' {
        seq![strip_cr(cur)] + lines_from(s, i + 1, Seq::empty())
    } else {
        lines_from(s, i + 1, cur.push(s[i]))
    }
}

/// The lines of a text. A line ends at a line feed, which is left out, as is
/// a carriage return right before it; the last line needs no line feed.
pub open spec fn lines(s: Seq<char>) -> Seq<Seq<char>> {
    lines_from(s, 0, Seq::empty())
}

/// Cuts a text into its lines.
pub fn split_lines(text: &str) -> (out: Vec<String>)
    ensures
        out.deep_view() == lines(text@),
{
    let chars = collect_chars(text);
    let n = chars.len();
    let mut out: Vec<String> = Vec::new();
    let mut start: usize = 0;
    let mut i: usize = 0;
    assert(out.deep_view() =~= Seq::<Seq<char>>::empty());
    assert(chars@.subrange(0, 0) =~= Seq::<char>::empty());
    while i < n
        invariant
            start <= i <= n,
            n == chars.len(),
            chars@ == text@,
            out.deep_view() + lines_from(text@, i as int, chars@.subrange(start as int, i as int))
                == lines(text@),
        decreases n - i,
    {
        let ghost before = out.deep_view();
        let ghost cur = chars@.subrange(start as int, i as int);
        let ghost rest = lines_from(text@, i as int, cur);
        if chars[i] == '\n' {
            let end = if i > start && chars[i - 1] == '\r' {
                i - 1
            } else {
                i
            };
            assert(chars@.subrange(start as int, end as int) =~= strip_cr(cur));
            out.push(string_from_chars(&chars, start, end));
            start = i + 1;
            i += 1;
            assert(chars@.subrange(start as int, i as int) =~= Seq::<char>::empty());
            assert(out.deep_view() =~= before + seq![strip_cr(cur)]);
            assert(out.deep_view() + lines_from(text@, i as int, Seq::empty()) =~= before + rest);
        } else {
            i += 1;
            assert(chars@.subrange(start as int, i as int) =~= cur.push(chars@[i - 1]));
        }
    }
    if start < n {
        let ghost before = out.deep_view();
        out.push(string_from_chars(&chars, start, n));
        assert(out.deep_view() =~= before + seq![chars@.subrange(start as int, n as int)]);
    } else {
        assert(out.deep_view() + Seq::<Seq<char>>::empty() =~= out.deep_view());
    }
    out
}

/// A line of the log as the listing shows it, where it holds an entry that
/// has such a text.
pub open spec fn format_line(line: Seq<char>) -> Option<Seq<char>> {
    match decode(line) {
        Some(entry) => format(entry),
        None => None,
    }
}

/// The first `n` lines as the listing shows them, if each of them can be
/// shown.
pub open spec fn format_first(all: Seq<Seq<char>>, n: nat) -> Option<Seq<Seq<char>>>
    decreases n,
{
    if n == 0 || n > all.len() {
        Some(Seq::empty())
    } else {
        match (format_first(all, (n - 1) as nat), format_line(all[n - 1])) {
            (Some(shown), Some(text)) => Some(shown.push(text)),
            _ => None,
        }
    }
}

/// The listing of a log: every line as the listing shows it, with a line
/// feed between neighbours. There is none if a line holds no entry or an
/// entry that cannot be shown.
pub open spec fn listing(log: Seq<char>) -> Option<Seq<char>> {
    match format_first(lines(log), lines(log).len()) {
        Some(shown) => Some(join(shown, "\n"@)),
        None => None,
    }
}

/// Writes the listing of a log.
pub fn list(log: &str) -> (r: Option<String>)
    ensures
        text_of(r) == listing(log@),
{
    let all = split_lines(log);
    let mut shown: Vec<String> = Vec::new();
    let mut k: usize = 0;
    assert(shown.deep_view() =~= Seq::<Seq<char>>::empty());
    while k < all.len()
        invariant
            k <= all.len(),
            all.deep_view() == lines(log@),
            format_first(lines(log@), k as nat) == Some(shown.deep_view()),
        decreases all.len() - k,
    {
        let ghost before = shown.deep_view();
        assert(all.deep_view()[k as int] == all[k as int]@);
        let entry = match decode_line(&all[k]) {
            Some(entry) => entry,
            None => {
                proof {
                    lemma_format_first_fails(lines(log@), k as nat + 1, lines(log@).len());
                }
                return None;
            },
        };
        match format_history(entry) {
            Some(text) => {
                shown.push(text);
                assert(shown.deep_view() =~= before.push(text@));
            },
            None => {
                proof {
                    lemma_format_first_fails(lines(log@), k as nat + 1, lines(log@).len());
                }
                return None;
            },
        }
        k += 1;
    }
    Some(join_strings(&shown, "\n"))
}

/// Once some first lines cannot be shown, no longer row of first lines can.
pub proof fn lemma_format_first_fails(all: Seq<Seq<char>>, n: nat, m: nat)
    requires
        n <= m <= all.len(),
        format_first(all, n) is None,
    ensures
        format_first(all, m) is None,
    decreases m,
{
    if n < m {
        lemma_format_first_fails(all, n, (m - 1) as nat);
    }
}

/// The `history` builtin: succeeds with the listing of the log that the state
/// holds. Where the log has no listing, it fails with status 1.
pub fn run(shell_state: &mut ShellState)
    ensures
        final(shell_state)@ == history_effect(old(shell_state)@),
{
    match list(shell_state.history.as_str()) {
        Some(text) => shell_state.output.set_stdout(text),
        None => shell_state.output.set_stderr(1, String::from_str("history: malformed entry")),
    }
}

/// The state that the `history` builtin leaves.
pub open spec fn history_effect(st: StateView) -> StateView {
    match listing(st.history) {
        Some(text) => st.with_output(st.output.success(text)),
        None => st.with_output(st.output.failure(1, "history: malformed entry"@)),
    }
}

} // verus!
