use vstd::prelude::*;
use vstd::string::StrSliceExecFns;
use vstd::string::StringExecFns;

use crate::application::repository::{text_before, text_lt};
use crate::application::snapshot::{is_white_space, white_space};
use crate::storage::names::{decimal_digits, push_decimal};

verus! {

/// The number of session log files kept; older ones are pruned.
pub const RETAINED_SESSIONS: usize = 10;

/// `sidecraft-`, the start of every session log file name.
pub open spec fn session_prefix() -> Seq<char> {
    seq!['s', 'i', 'd', 'e', 'c', 'r', 'a', 'f', 't', '-']
}

/// `.jsonl`, the end of every session log file name.
pub open spec fn session_suffix() -> Seq<char> {
    seq!['.', 'j', 's', 'o', 'n', 'l']
}

/// The name of the log file of a session started at `unix_seconds`.
pub open spec fn session_file_name_text(unix_seconds: u64) -> Seq<char> {
    session_prefix() + decimal_digits(unix_seconds as nat) + session_suffix()
}

/// The value of decimal digits, most significant first.
pub open spec fn digits_value(digits: Seq<char>) -> int
    decreases digits.len(),
{
    if digits.len() == 0 {
        0
    } else {
        digits_value(digits.drop_last()) * 10 + (digits.last() as int - 48)
    }
}

/// What `str::parse::<u64>` makes of `text`: an optional `+`, then at least one ASCII digit
/// and nothing else, of a value that fits in a `u64`.
pub open spec fn parsed_u64(text: Seq<char>) -> Option<u64> {
    if text.len() > 0 && text[0] == '+' {
        parsed_digits(text.skip(1))
    } else {
        parsed_digits(text)
    }
}

/// The value of at least one ASCII digit and nothing else, when it fits in a `u64`.
pub open spec fn parsed_digits(digits: Seq<char>) -> Option<u64> {
    if digits.len() > 0 && (forall|i: int| 0 <= i < digits.len() ==> '0' <= #[trigger] digits[i] <= '9')
        && digits_value(digits) <= u64::MAX {
        Some(digits_value(digits) as u64)
    } else {
        None
    }
}

/// The start time a session log file name encodes: the text between `sidecraft-` and
/// `.jsonl`, parsed as a `u64`; `None` for any other name.
pub open spec fn session_time(name: Seq<char>) -> Option<u64> {
    if name.len() >= 16 && name.take(10) == session_prefix() && name.skip(name.len() - 6) == session_suffix() {
        parsed_u64(name.subrange(10, name.len() - 6))
    } else {
        None
    }
}

/// The name of the log file of a session started at `unix_seconds`.
pub fn session_file_name(unix_seconds: u64) -> (result: String)
    ensures
        result@ == session_file_name_text(unix_seconds),
{
    proof {
        reveal_strlit("sidecraft-");
        reveal_strlit(".jsonl");
    }
    let mut name = String::from_str("sidecraft-");
    push_decimal(&mut name, unix_seconds);
    name.append(".jsonl");
    proof {
        assert(name@ =~= session_file_name_text(unix_seconds));
    }
    name
}

fn text_is(text: &str, start: usize, expected: &str) -> (result: bool)
    requires
        start + expected@.len() <= text@.len(),
        text@.len() <= usize::MAX,
    ensures
        result == (text@.subrange(start as int, start + expected@.len()) == expected@),
{
    let n = expected.unicode_len();
    let mut i: usize = 0;
    while i < n
        invariant
            n == expected@.len(),
            start + n <= text@.len(),
            text@.len() <= usize::MAX,
            i <= n,
            forall|j: int| 0 <= j < i ==> text@[start + j] == expected@[j],
        decreases n - i,
    {
        if text.get_char(start + i) != expected.get_char(i) {
            proof {
                assert(text@.subrange(start as int, start + n)[i as int] != expected@[i as int]);
            }
            return false;
        }
        i += 1;
    }
    proof {
        assert(text@.subrange(start as int, start + n) =~= expected@);
    }
    true
}

proof fn lemma_digits_value_append(digits: Seq<char>, c: char)
    ensures
        digits_value(digits.push(c)) == digits_value(digits) * 10 + (c as int - 48),
{
    assert(digits.push(c).drop_last() =~= digits);
}

proof fn lemma_digits_value_nonnegative(digits: Seq<char>)
    requires
        forall|i: int| 0 <= i < digits.len() ==> '0' <= #[trigger] digits[i] <= '9',
    ensures
        0 <= digits_value(digits),
    decreases digits.len(),
{
    if digits.len() > 0 {
        assert forall|i: int| 0 <= i < digits.drop_last().len() implies '0' <= #[trigger] digits.drop_last()[i] <= '9' by {
            assert(digits.drop_last()[i] == digits[i]);
        }
        lemma_digits_value_nonnegative(digits.drop_last());
    }
}

proof fn lemma_digits_value_grows(digits: Seq<char>, n: int)
    requires
        0 <= n <= digits.len(),
        forall|i: int| 0 <= i < digits.len() ==> '0' <= #[trigger] digits[i] <= '9',
    ensures
        digits_value(digits.take(n)) <= digits_value(digits),
    decreases digits.len() - n,
{
    if n < digits.len() {
        lemma_digits_value_grows(digits, n + 1);
        assert(digits.take(n + 1) =~= digits.take(n).push(digits[n]));
        lemma_digits_value_append(digits.take(n), digits[n]);
        assert forall|i: int| 0 <= i < digits.take(n).len() implies '0' <= #[trigger] digits.take(n)[i] <= '9' by {
            assert(digits.take(n)[i] == digits[i]);
        }
        lemma_digits_value_nonnegative(digits.take(n));
    } else {
        assert(digits.take(n) =~= digits);
    }
}

/// Parses the digits of `text` from `first` to `end`, which must be at least one.
fn parse_digits(text: &str, first: usize, end: usize) -> (result: Option<u64>)
    requires
        first < end <= text@.len(),
    ensures
        result == parsed_digits(text@.subrange(first as int, end as int)),
{
    let ghost digits = text@.subrange(first as int, end as int);
    let mut value: u64 = 0;
    let mut i: usize = first;
    while i < end
        invariant
            first <= i <= end <= text@.len(),
            digits == text@.subrange(first as int, end as int),
            forall|j: int| 0 <= j < i - first ==> '0' <= #[trigger] digits[j] <= '9',
            value == digits_value(digits.take(i - first)),
        decreases end - i,
    {
        let c = text.get_char(i);
        proof {
            assert(digits[i - first] == c);
        }
        if !('0' <= c && c <= '9') {
            return None;
        }
        let d = (c as u32 - 48) as u64;
        proof {
            assert(digits.take(i - first + 1) =~= digits.take(i - first).push(c));
            lemma_digits_value_append(digits.take(i - first), c);
        }
        if value > (u64::MAX - d) / 10 {
            proof {
                assert(value * 10 + d > u64::MAX) by (nonlinear_arith)
                    requires
                        value > (u64::MAX - d) / 10,
                        d <= 9,
                ;
                if forall|j: int| 0 <= j < digits.len() ==> '0' <= #[trigger] digits[j] <= '9' {
                    lemma_digits_value_grows(digits, i - first + 1);
                }
            }
            return None;
        }
        assert(value * 10 + d <= u64::MAX) by (nonlinear_arith)
            requires
                value <= (u64::MAX - d) / 10,
                d <= 9,
        ;
        value = value * 10 + d;
        i += 1;
    }
    proof {
        assert(digits.take(i - first) =~= digits);
    }
    Some(value)
}

/// Parses `text` from `start` to `end` as `str::parse::<u64>` does (see `parsed_u64`).
fn parse_u64(text: &str, start: usize, end: usize) -> (result: Option<u64>)
    requires
        start <= end <= text@.len(),
    ensures
        result == parsed_u64(text@.subrange(start as int, end as int)),
{
    let ghost whole = text@.subrange(start as int, end as int);
    let signed = start < end && text.get_char(start) == '+';
    let first = if signed {
        start + 1
    } else {
        start
    };
    proof {
        if start < end {
            assert(whole[0] == text@[start as int]);
        }
        if signed {
            assert(whole.skip(1) =~= text@.subrange(first as int, end as int));
        } else {
            assert(whole =~= text@.subrange(first as int, end as int));
        }
    }
    if first == end {
        proof {
            assert(text@.subrange(first as int, end as int).len() == 0);
        }
        return None;
    }
    parse_digits(text, first, end)
}

/// The start time a session log file name encodes (see `session_time`).
pub fn session_timestamp(file_name: &str) -> (result: Option<u64>)
    ensures
        result == session_time(file_name@),
{
    proof {
        reveal_strlit("sidecraft-");
        reveal_strlit(".jsonl");
        assert("sidecraft-"@ =~= session_prefix());
        assert(".jsonl"@ =~= session_suffix());
    }
    let n = file_name.unicode_len();
    if n < 16 {
        return None;
    }
    if !text_is(file_name, 0, "sidecraft-") {
        proof {
            assert(file_name@.subrange(0, 10) =~= file_name@.take(10));
        }
        return None;
    }
    if !text_is(file_name, n - 6, ".jsonl") {
        proof {
            assert(file_name@.subrange(n - 6, n as int) =~= file_name@.skip(n - 6));
            assert(file_name@.subrange(0, 10) =~= file_name@.take(10));
        }
        return None;
    }
    proof {
        assert(file_name@.subrange(0, 10) =~= file_name@.take(10));
        assert(file_name@.subrange(n - 6, n as int) =~= file_name@.skip(n - 6));
    }
    parse_u64(file_name, 10, n - 6)
}

/// The session log files among `names`, in their order, with the start time each encodes.
pub open spec fn session_entries(names: Seq<Seq<char>>) -> Seq<(u64, Seq<char>)>
    decreases names.len(),
{
    if names.len() == 0 {
        Seq::empty()
    } else {
        let rest = session_entries(names.drop_last());
        match session_time(names.last()) {
            Some(time) => rest.push((time, names.last())),
            None => rest,
        }
    }
}

/// Retention order: the earlier session first, then by name.
pub open spec fn session_before(a: (u64, Seq<char>), b: (u64, Seq<char>)) -> bool {
    a.0 < b.0 || (a.0 == b.0 && text_lt(a.1, b.1))
}

/// `entry` inserted into `sorted` before the first element it sorts before.
pub open spec fn insert_session(sorted: Seq<(u64, Seq<char>)>, entry: (u64, Seq<char>)) -> Seq<(u64, Seq<char>)>
    decreases sorted.len(),
{
    if sorted.len() == 0 {
        seq![entry]
    } else if session_before(entry, sorted[0]) {
        seq![entry] + sorted
    } else {
        seq![sorted[0]] + insert_session(sorted.drop_first(), entry)
    }
}

/// `entries` sorted into retention order.
pub open spec fn sorted_sessions(entries: Seq<(u64, Seq<char>)>) -> Seq<(u64, Seq<char>)>
    decreases entries.len(),
{
    if entries.len() == 0 {
        Seq::empty()
    } else {
        insert_session(sorted_sessions(entries.drop_last()), entries.last())
    }
}

/// The session log files to delete so that the newest `keep` remain: the oldest first; files
/// that are not session logs are never among them.
pub open spec fn stale_session_names(names: Seq<Seq<char>>, keep: int) -> Seq<Seq<char>> {
    let sorted = sorted_sessions(session_entries(names));
    let surplus = if sorted.len() > keep {
        sorted.len() - keep
    } else {
        0
    };
    sorted.take(surplus).map_values(|e: (u64, Seq<char>)| e.1)
}

proof fn lemma_insert_session_at(sorted: Seq<(u64, Seq<char>)>, entry: (u64, Seq<char>), p: int)
    requires
        0 <= p <= sorted.len(),
        forall|q: int| 0 <= q < p ==> !session_before(entry, #[trigger] sorted[q]),
        p < sorted.len() ==> session_before(entry, sorted[p]),
    ensures
        insert_session(sorted, entry) == sorted.insert(p, entry),
    decreases sorted.len(),
{
    if sorted.len() > 0 && p > 0 {
        let rest = sorted.drop_first();
        assert forall|q: int| 0 <= q < p - 1 implies !session_before(entry, #[trigger] rest[q]) by {
            assert(rest[q] == sorted[q + 1]);
        }
        if p < sorted.len() {
            assert(rest[p - 1] == sorted[p]);
        }
        assert(!session_before(entry, sorted[0]));
        lemma_insert_session_at(rest, entry, p - 1);
        assert(seq![sorted[0]] + rest.insert(p - 1, entry) =~= sorted.insert(p, entry));
    } else if sorted.len() > 0 {
        assert(seq![entry] + sorted =~= sorted.insert(p, entry));
    } else {
        assert(seq![entry] =~= sorted.insert(p, entry));
    }
}

/// The views of a list of names.
pub open spec fn name_views(names: Seq<String>) -> Seq<Seq<char>> {
    names.map_values(|n: String| n@)
}

/// The views of a list of timed names.
pub open spec fn entry_views(entries: Seq<(u64, String)>) -> Seq<(u64, Seq<char>)> {
    entries.map_values(|e: (u64, String)| (e.0, e.1@))
}

/// The session log files among `file_names` to delete so that the newest `keep` sessions
/// remain (see `stale_session_names`).
pub fn stale_sessions(file_names: &Vec<String>, keep: usize) -> (result: Vec<String>)
    ensures
        name_views(result@) == stale_session_names(name_views(file_names@), keep as int),
{
    let mut sorted: Vec<(u64, String)> = Vec::new();
    let mut k: usize = 0;
    while k < file_names.len()
        invariant
            k <= file_names@.len(),
            entry_views(sorted@) == sorted_sessions(session_entries(name_views(file_names@.take(k as int)))),
        decreases file_names@.len() - k,
    {
        let name = &file_names[k];
        let ghost before = name_views(file_names@.take(k as int));
        proof {
            assert(name_views(file_names@.take(k as int + 1)).drop_last() =~= before);
            assert(name_views(file_names@.take(k as int + 1)).last() == name@);
        }
        let ghost after = name_views(file_names@.take(k as int + 1));
        let ghost rest = session_entries(before);
        match session_timestamp(name.as_str()) {
            Some(time) => {
                proof {
                    assert(session_entries(after) == rest.push((time, name@)));
                    assert(rest.push((time, name@)).drop_last() =~= rest);
                }
                let entry_name = name.clone();
                let mut p: usize = 0;
                while p < sorted.len() && !(time < sorted[p].0 || (time == sorted[p].0 && text_before(
                    entry_name.as_str(),
                    sorted[p].1.as_str(),
                )))
                    invariant
                        p <= sorted@.len(),
                        forall|q: int| 0 <= q < p ==> !session_before((time, entry_name@), #[trigger] entry_views(sorted@)[q]),
                    decreases sorted@.len() - p,
                {
                    p += 1;
                }
                proof {
                    lemma_insert_session_at(entry_views(sorted@), (time, entry_name@), p as int);
                }
                let ghost old_sorted = sorted@;
                sorted.insert(p, (time, entry_name));
                proof {
                    assert(entry_views(sorted@) =~= entry_views(old_sorted).insert(p as int, (time, name@)));
                }
            },
            None => {
                proof {
                    assert(session_entries(after) == rest);
                }
            },
        }
        k += 1;
    }
    proof {
        assert(file_names@.take(k as int) =~= file_names@);
    }
    let surplus = if sorted.len() > keep {
        sorted.len() - keep
    } else {
        0
    };
    let mut result: Vec<String> = Vec::new();
    let mut i: usize = 0;
    while i < surplus
        invariant
            surplus <= sorted@.len(),
            i <= surplus,
            name_views(result@) == entry_views(sorted@).take(i as int).map_values(|e: (u64, Seq<char>)| e.1),
        decreases surplus - i,
    {
        let name = sorted[i].1.clone();
        proof {
            assert(entry_views(sorted@)[i as int].1 == name@);
        }
        let ghost prev = result@;
        result.push(name);
        proof {
            let f = |e: (u64, Seq<char>)| e.1;
            assert(name_views(result@) =~= name_views(prev).push(name@));
            assert(entry_views(sorted@).take(i as int + 1) =~= entry_views(sorted@).take(i as int).push(
                entry_views(sorted@)[i as int],
            ));
            assert(entry_views(sorted@).take(i as int + 1).map_values(f) =~= entry_views(sorted@).take(
                i as int,
            ).map_values(f).push(name@));
        }
        i += 1;
    }
    result
}

/// `text` without the white space at either end, as `str::trim` gives it.
pub open spec fn trimmed(text: Seq<char>) -> Seq<char> {
    if forall|i: int| 0 <= i < text.len() ==> white_space(#[trigger] text[i]) {
        Seq::empty()
    } else {
        let first = choose|i: int|
            0 <= i < text.len() && !white_space(text[i]) && forall|j: int| 0 <= j < i ==> white_space(#[trigger] text[j]);
        let last = choose|i: int|
            0 <= i < text.len() && !white_space(text[i]) && forall|j: int| i < j < text.len() ==> white_space(#[trigger] text[j]);
        text.subrange(first, last + 1)
    }
}

/// `c` with ASCII upper-case letters made lower-case.
pub open spec fn ascii_lower(c: char) -> char {
    if 'A' <= c <= 'Z' {
        ((c as int) + 32) as char
    } else {
        c
    }
}

/// The directory session logs go to, from the configured setting: `logs` when nothing or only
/// white space is configured, the trimmed setting otherwise, and `None` (no log files) when
/// that is `off` in any letter case.
pub open spec fn log_dir_setting(configured: Option<Seq<char>>) -> Option<Seq<char>> {
    let value = match configured {
        Some(text) => if trimmed(text).len() > 0 {
            trimmed(text)
        } else {
            seq!['l', 'o', 'g', 's']
        },
        None => seq!['l', 'o', 'g', 's'],
    };
    if value.len() == 3 && ascii_lower(value[0]) == 'o' && ascii_lower(value[1]) == 'f' && ascii_lower(value[2]) == 'f' {
        None
    } else {
        Some(value)
    }
}

fn trim_text(text: &str) -> (result: String)
    ensures
        result@ == trimmed(text@),
{
    let n = text.unicode_len();
    let mut first: usize = 0;
    while first < n && is_white_space(text.get_char(first))
        invariant
            n == text@.len(),
            first <= n,
            forall|j: int| 0 <= j < first ==> white_space(#[trigger] text@[j]),
        decreases n - first,
    {
        first += 1;
    }
    if first == n {
        return String::new();
    }
    let mut last: usize = n - 1;
    while is_white_space(text.get_char(last))
        invariant
            n == text@.len(),
            first < n,
            first <= last < n,
            !white_space(text@[first as int]),
            forall|j: int| last < j < n ==> white_space(#[trigger] text@[j]),
        decreases last,
    {
        last -= 1;
    }
    proof {
        let f = choose|i: int|
            0 <= i < text@.len() && !white_space(text@[i]) && forall|j: int| 0 <= j < i ==> white_space(#[trigger] text@[j]);
        let l = choose|i: int|
            0 <= i < text@.len() && !white_space(text@[i]) && forall|j: int| i < j < text@.len() ==> white_space(#[trigger] text@[j]);
        if f < first {
        } else if f > first {
            assert(white_space(text@[first as int]));
        }
        if l < last {
            assert(white_space(text@[last as int]));
        } else if l > last {
        }
        assert(f == first && l == last);
    }
    String::from_str(text.substring_char(first, last + 1))
}

/// The text of a configured setting, if any.
pub open spec fn setting_view(configured: Option<&str>) -> Option<Seq<char>> {
    match configured {
        Some(text) => Some(text@),
        None => None,
    }
}

/// The directory session logs go to (see `log_dir_setting`).
pub fn resolve_log_dir(configured: Option<&str>) -> (result: Option<String>)
    ensures
        match (result, log_dir_setting(setting_view(configured))) {
            (Some(dir), Some(expected)) => dir@ == expected,
            (None, None) => true,
            _ => false,
        },
{
    proof {
        reveal_strlit("logs");
        assert("logs"@ =~= seq!['l', 'o', 'g', 's']);
    }
    let value = match configured {
        Some(text) => {
            let trimmed_text = trim_text(text);
            if trimmed_text.as_str().unicode_len() > 0 {
                trimmed_text
            } else {
                String::from_str("logs")
            }
        },
        None => String::from_str("logs"),
    };
    let view = value.as_str();
    if view.unicode_len() == 3 {
        let a = view.get_char(0);
        let b = view.get_char(1);
        let c = view.get_char(2);
        let la = if 'A' <= a && a <= 'Z' { ((a as u32) + 32) == 111 } else { a == 'o' };
        let lb = if 'A' <= b && b <= 'Z' { ((b as u32) + 32) == 102 } else { b == 'f' };
        let lc = if 'A' <= c && c <= 'Z' { ((c as u32) + 32) == 102 } else { c == 'f' };
        if la && lb && lc {
            return None;
        }
    }
    Some(value)
}

} // verus!
