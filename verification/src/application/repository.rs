use vstd::prelude::*;
use vstd::string::StrSliceExecFns;
use vstd::string::StringSliceAdditionalSpecFns;

verus! {

/// A character allowed in a world identifier: ASCII letters and digits, `-` and `_`.
pub open spec fn id_char(c: char) -> bool {
    ('a' <= c <= 'z') || ('A' <= c <= 'Z') || ('0' <= c <= '9') || c == '-' || c == '_'
}

/// A world identifier is 1 to 128 identifier characters; it names the world's package on disk.
pub open spec fn valid_world_id(s: Seq<char>) -> bool {
    0 < s.len() <= 128 && forall|i: int| 0 <= i < s.len() ==> #[trigger] id_char(s[i])
}

/// A validated world identifier.
#[derive(Debug, PartialEq, Eq, Hash, PartialOrd, Ord)]
pub struct WorldId(String);

impl View for WorldId {
    type V = Seq<char>;

    closed spec fn view(&self) -> Seq<char> {
        self.0@
    }
}

impl Clone for WorldId {
    fn clone(&self) -> (result: WorldId)
        ensures
            result@ == self@,
    {
        WorldId(self.0.clone())
    }
}

/// Why the world store refused or failed a request.
#[derive(Debug)]
pub enum RepositoryError {
    Unavailable(String),
    UnsupportedSchema(u32),
    Corrupt(String),
    InvalidId(String),
    InvalidSnapshot(crate::application::snapshot::SnapshotError),
}

impl WorldId {
    /// Accepts exactly the valid identifiers; anything else comes back as `InvalidId` with
    /// the rejected text.
    pub fn new(value: String) -> (result: Result<WorldId, RepositoryError>)
        ensures
            match result {
                Ok(id) => valid_world_id(value@) && id@ == value@,
                Err(RepositoryError::InvalidId(text)) => !valid_world_id(value@) && text@ == value@,
                Err(_) => false,
            },
    {
        broadcast use vstd::string::is_ascii_spec_bytes;

        let text = value.as_str();
        if !text.is_ascii() {
            proof {
                if valid_world_id(value@) {
                    assert(vstd::utf8::is_ascii_chars(value@)) by {
                        assert forall|i: int| 0 <= i < value@.len() implies '\0' <= #[trigger] value@[i] <= '\u{7f}' by {
                            assert(id_char(value@[i]));
                        }
                    }
                }
            }
            return Err(RepositoryError::InvalidId(value));
        }
        let n = text.as_bytes().len();
        proof {
            assert(text.spec_bytes().len() == text@.len());
            assert(text@ == value@);
            assert(n == text.spec_bytes().len());
        }
        if n == 0 || n > 128 {
            return Err(RepositoryError::InvalidId(value));
        }
        let mut i: usize = 0;
        while i < n
            invariant
                text@ == value@,
                vstd::string::is_ascii(text),
                n == value@.len(),
                i <= n,
                forall|j: int| 0 <= j < i ==> #[trigger] id_char(value@[j]),
            decreases n - i,
        {
            let byte = text.get_ascii(i);
            proof {
                let c = value@[i as int];
                assert('\0' <= c <= '\u{7f}');
                assert(c as u8 == byte);
                assert(c as int == byte as int);
            }
            let ok = (97 <= byte && byte <= 122) || (65 <= byte && byte <= 90) || (48 <= byte && byte <= 57)
                || byte == 45 || byte == 95;
            if !ok {
                proof {
                    assert(!id_char(value@[i as int]));
                    assert(!valid_world_id(value@));
                }
                return Err(RepositoryError::InvalidId(value));
            }
            i += 1;
        }
        Ok(WorldId(value))
    }

    /// Whether two identifiers are the same text.
    pub fn same(&self, other: &WorldId) -> (result: bool)
        ensures
            result == (self@ == other@),
    {
        self.0 == other.0
    }

    /// The identifier's text.
    pub fn as_str(&self) -> (result: &str)
        ensures
            result@ == self@,
    {
        self.0.as_str()
    }
}

/// A loadable world, as a menu lists it.
#[derive(Debug, Clone, PartialEq, Eq)]
pub struct WorldSummary {
    pub id: WorldId,
    pub name: String,
    pub last_played_unix_s: u64,
}

/// A world package that could not be loaded, and why.
#[derive(Debug, Clone, PartialEq, Eq)]
pub struct InvalidWorldEntry {
    pub display_name: String,
    pub error: String,
}

/// Every world package found in storage.
#[derive(Debug, Clone, PartialEq, Eq)]
pub struct WorldCatalog {
    pub valid: Vec<WorldSummary>,
    pub invalid: Vec<InvalidWorldEntry>,
}

impl Default for WorldCatalog {
    fn default() -> (result: WorldCatalog)
        ensures
            result.valid@.len() == 0,
            result.invalid@.len() == 0,
    {
        WorldCatalog { valid: Vec::new(), invalid: Vec::new() }
    }
}

/// Whether text `a` sorts before text `b`: at the first position where they differ `a` has
/// the smaller character, or `a` is a proper prefix of `b`. On UTF-8 this is the byte order of
/// `str`.
pub open spec fn text_lt(a: Seq<char>, b: Seq<char>) -> bool {
    exists|i: int|
        0 <= i <= a.len() && i <= b.len() && #[trigger] a.take(i) == b.take(i) && ((i == a.len() && i < b.len()) || (i
            < a.len() && i < b.len() && a[i] < b[i]))
}

/// Whether text `a` sorts before text `b` (see `text_lt`).
pub fn text_before(a: &str, b: &str) -> (result: bool)
    ensures
        result == text_lt(a@, b@),
{
    let n = a.unicode_len();
    let m = b.unicode_len();
    let mut i: usize = 0;
    while i < n && i < m
        invariant
            n == a@.len(),
            m == b@.len(),
            i <= n,
            i <= m,
            a@.take(i as int) == b@.take(i as int),
        decreases n - i,
    {
        let ca = a.get_char(i);
        let cb = b.get_char(i);
        if ca != cb {
            proof {
                if ca < cb {
                    assert(a@.take(i as int) == b@.take(i as int));
                } else {
                    assert forall|j: int|
                        0 <= j <= a@.len() && j <= b@.len() && #[trigger] a@.take(j) == b@.take(j) implies !((j
                        == a@.len() && j < b@.len()) || (j < a@.len() && j < b@.len() && a@[j] < b@[j])) by {
                        if j > i {
                            assert(a@.take(j)[i as int] == b@.take(j)[i as int]);
                        } else if j < i {
                            assert(a@.take(i as int)[j] == b@.take(i as int)[j]);
                        }
                    }
                }
            }
            return ca < cb;
        }
        proof {
            assert(a@.take(i as int + 1) =~= a@.take(i as int).push(ca));
            assert(b@.take(i as int + 1) =~= b@.take(i as int).push(cb));
        }
        i += 1;
    }
    proof {
        if n < m {
            assert(a@.take(i as int) == b@.take(i as int));
        } else {
            assert forall|j: int|
                0 <= j <= a@.len() && j <= b@.len() && #[trigger] a@.take(j) == b@.take(j) implies !((j == a@.len()
                && j < b@.len()) || (j < a@.len() && j < b@.len() && a@[j] < b@[j])) by {
                if j < i {
                    assert(a@.take(i as int)[j] == b@.take(i as int)[j]);
                }
            }
        }
    }
    n < m
}

/// Catalog order of loadable worlds: the most recently played first, then by name, then by
/// identifier.
pub open spec fn summary_before(a: WorldSummary, b: WorldSummary) -> bool {
    ||| a.last_played_unix_s > b.last_played_unix_s
    ||| a.last_played_unix_s == b.last_played_unix_s && text_lt(a.name@, b.name@)
    ||| a.last_played_unix_s == b.last_played_unix_s && a.name@ == b.name@ && text_lt(a.id@, b.id@)
}

/// Catalog order of unloadable packages: by displayed name.
pub open spec fn entry_before(a: InvalidWorldEntry, b: InvalidWorldEntry) -> bool {
    text_lt(a.display_name@, b.display_name@)
}

/// `summary` inserted into `sorted` before the first element it sorts before, after all the
/// others.
pub open spec fn insert_summary(sorted: Seq<WorldSummary>, summary: WorldSummary) -> Seq<WorldSummary>
    decreases sorted.len(),
{
    if sorted.len() == 0 {
        seq![summary]
    } else if summary_before(summary, sorted[0]) {
        seq![summary] + sorted
    } else {
        seq![sorted[0]] + insert_summary(sorted.drop_first(), summary)
    }
}

/// The stable sort of `summaries` by catalog order.
pub open spec fn sorted_summaries(summaries: Seq<WorldSummary>) -> Seq<WorldSummary>
    decreases summaries.len(),
{
    if summaries.len() == 0 {
        Seq::empty()
    } else {
        insert_summary(sorted_summaries(summaries.drop_last()), summaries.last())
    }
}

/// `entry` inserted into `sorted` before the first element it sorts before, after all the
/// others.
pub open spec fn insert_entry(sorted: Seq<InvalidWorldEntry>, entry: InvalidWorldEntry) -> Seq<InvalidWorldEntry>
    decreases sorted.len(),
{
    if sorted.len() == 0 {
        seq![entry]
    } else if entry_before(entry, sorted[0]) {
        seq![entry] + sorted
    } else {
        seq![sorted[0]] + insert_entry(sorted.drop_first(), entry)
    }
}

/// The stable sort of `entries` by displayed name.
pub open spec fn sorted_entries(entries: Seq<InvalidWorldEntry>) -> Seq<InvalidWorldEntry>
    decreases entries.len(),
{
    if entries.len() == 0 {
        Seq::empty()
    } else {
        insert_entry(sorted_entries(entries.drop_last()), entries.last())
    }
}

proof fn lemma_insert_summary_at(sorted: Seq<WorldSummary>, summary: WorldSummary, p: int)
    requires
        0 <= p <= sorted.len(),
        forall|q: int| 0 <= q < p ==> !summary_before(summary, #[trigger] sorted[q]),
        p < sorted.len() ==> summary_before(summary, sorted[p]),
    ensures
        insert_summary(sorted, summary) == sorted.insert(p, summary),
    decreases sorted.len(),
{
    if sorted.len() > 0 && p > 0 {
        let rest = sorted.drop_first();
        assert forall|q: int| 0 <= q < p - 1 implies !summary_before(summary, #[trigger] rest[q]) by {
            assert(rest[q] == sorted[q + 1]);
        }
        if p < sorted.len() {
            assert(rest[p - 1] == sorted[p]);
        }
        assert(!summary_before(summary, sorted[0]));
        lemma_insert_summary_at(rest, summary, p - 1);
        assert(seq![sorted[0]] + rest.insert(p - 1, summary) =~= sorted.insert(p, summary));
    } else if sorted.len() > 0 {
        assert(seq![summary] + sorted =~= sorted.insert(p, summary));
    } else {
        assert(seq![summary] =~= sorted.insert(p, summary));
    }
}

proof fn lemma_insert_entry_at(sorted: Seq<InvalidWorldEntry>, entry: InvalidWorldEntry, p: int)
    requires
        0 <= p <= sorted.len(),
        forall|q: int| 0 <= q < p ==> !entry_before(entry, #[trigger] sorted[q]),
        p < sorted.len() ==> entry_before(entry, sorted[p]),
    ensures
        insert_entry(sorted, entry) == sorted.insert(p, entry),
    decreases sorted.len(),
{
    if sorted.len() > 0 && p > 0 {
        let rest = sorted.drop_first();
        assert forall|q: int| 0 <= q < p - 1 implies !entry_before(entry, #[trigger] rest[q]) by {
            assert(rest[q] == sorted[q + 1]);
        }
        if p < sorted.len() {
            assert(rest[p - 1] == sorted[p]);
        }
        assert(!entry_before(entry, sorted[0]));
        lemma_insert_entry_at(rest, entry, p - 1);
        assert(seq![sorted[0]] + rest.insert(p - 1, entry) =~= sorted.insert(p, entry));
    } else if sorted.len() > 0 {
        assert(seq![entry] + sorted =~= sorted.insert(p, entry));
    } else {
        assert(seq![entry] =~= sorted.insert(p, entry));
    }
}

/// No text sorts before itself.
pub proof fn lemma_text_lt_irreflexive(a: Seq<char>)
    ensures
        !text_lt(a, a),
{
}

/// Text order is transitive.
pub proof fn lemma_text_lt_transitive(a: Seq<char>, b: Seq<char>, c: Seq<char>)
    requires
        text_lt(a, b),
        text_lt(b, c),
    ensures
        text_lt(a, c),
{
    let i = choose|i: int|
        0 <= i <= a.len() && i <= b.len() && #[trigger] a.take(i) == b.take(i) && ((i == a.len() && i < b.len()) || (i
            < a.len() && i < b.len() && a[i] < b[i]));
    let j = choose|j: int|
        0 <= j <= b.len() && j <= c.len() && #[trigger] b.take(j) == c.take(j) && ((j == b.len() && j < c.len()) || (j
            < b.len() && j < c.len() && b[j] < c[j]));
    let m = if i < j {
        i
    } else {
        j
    };
    assert(a.take(m) =~= c.take(m)) by {
        assert forall|q: int| 0 <= q < m implies a.take(m)[q] == c.take(m)[q] by {
            assert(a.take(i)[q] == b.take(i)[q]);
            assert(b.take(j)[q] == c.take(j)[q]);
        }
    }
    if i < j {
        if i < a.len() {
            assert(b.take(j)[i] == c.take(j)[i]);
        }
    } else if j < i {
        assert(a.take(i)[j] == b.take(i)[j]);
    }
    assert(a.take(m) == c.take(m));
}

/// Catalog order is transitive.
pub proof fn lemma_summary_before_transitive(a: WorldSummary, b: WorldSummary, c: WorldSummary)
    requires
        summary_before(a, b),
        summary_before(b, c),
    ensures
        summary_before(a, c),
{
    if a.last_played_unix_s == b.last_played_unix_s && b.last_played_unix_s == c.last_played_unix_s {
        if text_lt(a.name@, b.name@) && text_lt(b.name@, c.name@) {
            lemma_text_lt_transitive(a.name@, b.name@, c.name@);
        } else if text_lt(a.id@, b.id@) && text_lt(b.id@, c.id@) && a.name@ == b.name@ && b.name@ == c.name@ {
            lemma_text_lt_transitive(a.id@, b.id@, c.id@);
        }
    }
}

proof fn lemma_insert_summary_ordered(sorted: Seq<WorldSummary>, summary: WorldSummary)
    requires
        forall|i: int, j: int| 0 <= i < j < sorted.len() ==> !summary_before(#[trigger] sorted[j], #[trigger] sorted[i]),
    ensures
        forall|i: int, j: int|
            0 <= i < j < insert_summary(sorted, summary).len() ==> !summary_before(
                #[trigger] insert_summary(sorted, summary)[j],
                #[trigger] insert_summary(sorted, summary)[i],
            ),
        insert_summary(sorted, summary).len() == sorted.len() + 1,
        forall|k: int|
            0 <= k < insert_summary(sorted, summary).len() ==> #[trigger] insert_summary(sorted, summary)[k] == summary
                || sorted.contains(insert_summary(sorted, summary)[k]),
        insert_summary(sorted, summary).contains(summary),
        forall|x: WorldSummary| sorted.contains(x) ==> #[trigger] insert_summary(sorted, summary).contains(x),
    decreases sorted.len(),
{
    let r = insert_summary(sorted, summary);
    if sorted.len() == 0 {
        assert(r[0] == summary);
    } else if summary_before(summary, sorted[0]) {
        assert forall|i: int, j: int| 0 <= i < j < r.len() implies !summary_before(#[trigger] r[j], #[trigger] r[i]) by {
            if i == 0 {
                assert(r[j] == sorted[j - 1]);
                if summary_before(sorted[j - 1], summary) {
                    lemma_summary_before_transitive(sorted[j - 1], summary, sorted[0]);
                    if j - 1 > 0 {
                        assert(!summary_before(sorted[j - 1], sorted[0]));
                    } else {
                        lemma_text_lt_irreflexive(sorted[0].name@);
                        lemma_text_lt_irreflexive(sorted[0].id@);
                    }
                }
            } else {
                assert(r[i] == sorted[i - 1] && r[j] == sorted[j - 1]);
            }
        }
        assert forall|k: int| 0 <= k < r.len() implies #[trigger] r[k] == summary || sorted.contains(r[k]) by {
            if k > 0 {
                assert(r[k] == sorted[k - 1]);
            }
        }
        assert(r[0] == summary);
        assert forall|x: WorldSummary| sorted.contains(x) implies #[trigger] r.contains(x) by {
            let q = choose|q: int| 0 <= q < sorted.len() && sorted[q] == x;
            assert(r[q + 1] == x);
        }
    } else {
        let rest = sorted.drop_first();
        assert forall|i: int, j: int| 0 <= i < j < rest.len() implies !summary_before(#[trigger] rest[j], #[trigger] rest[i]) by {
            assert(rest[i] == sorted[i + 1] && rest[j] == sorted[j + 1]);
        }
        lemma_insert_summary_ordered(rest, summary);
        let tail = insert_summary(rest, summary);
        assert(r == seq![sorted[0]] + tail);
        assert forall|i: int, j: int| 0 <= i < j < r.len() implies !summary_before(#[trigger] r[j], #[trigger] r[i]) by {
            if i == 0 {
                assert(r[0] == sorted[0]);
                assert(r[j] == tail[j - 1]);
                if tail[j - 1] != summary {
                    assert(rest.contains(tail[j - 1]));
                    let q = choose|q: int| 0 <= q < rest.len() && rest[q] == tail[j - 1];
                    assert(rest[q] == sorted[q + 1]);
                }
            } else {
                assert(r[i] == tail[i - 1] && r[j] == tail[j - 1]);
            }
        }
        assert forall|k: int| 0 <= k < r.len() implies #[trigger] r[k] == summary || sorted.contains(r[k]) by {
            if k == 0 {
                assert(sorted[0] == r[0]);
            } else {
                assert(r[k] == tail[k - 1]);
                if tail[k - 1] != summary {
                    let q = choose|q: int| 0 <= q < rest.len() && rest[q] == tail[k - 1];
                    assert(sorted[q + 1] == r[k]);
                }
            }
        }
        let w = choose|w: int| 0 <= w < tail.len() && tail[w] == summary;
        assert(r[w + 1] == summary);
        assert forall|x: WorldSummary| sorted.contains(x) implies #[trigger] r.contains(x) by {
            let q = choose|q: int| 0 <= q < sorted.len() && sorted[q] == x;
            if q == 0 {
                assert(r[0] == x);
            } else {
                assert(rest[q - 1] == x);
                assert(tail.contains(x));
                let t = choose|t: int| 0 <= t < tail.len() && tail[t] == x;
                assert(r[t + 1] == x);
            }
        }
    }
}

/// A sorted catalog lists exactly the worlds it was given, each as often, and no world after
/// one it sorts before: the most recently played come first.
pub proof fn lemma_sorted_summaries_ordered(summaries: Seq<WorldSummary>)
    ensures
        forall|i: int, j: int|
            0 <= i < j < sorted_summaries(summaries).len() ==> !summary_before(
                #[trigger] sorted_summaries(summaries)[j],
                #[trigger] sorted_summaries(summaries)[i],
            ),
        sorted_summaries(summaries).len() == summaries.len(),
        forall|x: WorldSummary| #[trigger] sorted_summaries(summaries).contains(x) <==> summaries.contains(x),
    decreases summaries.len(),
{
    if summaries.len() > 0 {
        let front = summaries.drop_last();
        let last = summaries.last();
        lemma_sorted_summaries_ordered(front);
        lemma_insert_summary_ordered(sorted_summaries(front), last);
        let r = sorted_summaries(summaries);
        assert forall|x: WorldSummary| #[trigger] r.contains(x) <==> summaries.contains(x) by {
            if r.contains(x) {
                let k = choose|k: int| 0 <= k < r.len() && r[k] == x;
                if x == last {
                    assert(summaries[summaries.len() - 1] == x);
                } else {
                    assert(sorted_summaries(front).contains(x));
                    assert(front.contains(x));
                    let q = choose|q: int| 0 <= q < front.len() && front[q] == x;
                    assert(summaries[q] == x);
                }
            }
            if summaries.contains(x) {
                let q = choose|q: int| 0 <= q < summaries.len() && summaries[q] == x;
                if q < summaries.len() - 1 {
                    assert(front[q] == x);
                    assert(front.contains(x));
                    assert(sorted_summaries(front).contains(x));
                }
            }
        }
    }
}

fn summary_precedes(a: &WorldSummary, b: &WorldSummary) -> (result: bool)
    ensures
        result == summary_before(*a, *b),
{
    if a.last_played_unix_s != b.last_played_unix_s {
        return a.last_played_unix_s > b.last_played_unix_s;
    }
    if text_before(a.name.as_str(), b.name.as_str()) {
        return true;
    }
    if a.name != b.name {
        return false;
    }
    text_before(a.id.as_str(), b.id.as_str())
}

impl WorldCatalog {
    /// Puts the catalog in display order: loadable worlds most recently played first, then by
    /// name and identifier; unloadable packages by displayed name. Both sorts are stable.
    pub fn sort(&mut self)
        ensures
            final(self).valid@ == sorted_summaries(old(self).valid@),
            final(self).invalid@ == sorted_entries(old(self).invalid@),
    {
        let mut input: Vec<WorldSummary> = Vec::new();
        std::mem::swap(&mut input, &mut self.valid);
        let ghost all = input@;
        assert(all.len() == input.len());
        let mut sorted: Vec<WorldSummary> = Vec::new();
        let mut k: usize = 0;
        while input.len() > 0
            invariant
                k <= all.len(),
                all.len() <= usize::MAX,
                input@ == all.skip(k as int),
                sorted@ == sorted_summaries(all.take(k as int)),
            decreases input@.len(),
        {
            let summary = input.remove(0);
            proof {
                assert(summary == all[k as int]);
            }
            let mut p: usize = 0;
            while p < sorted.len() && !summary_precedes(&summary, &sorted[p])
                invariant
                    p <= sorted@.len(),
                    forall|q: int| 0 <= q < p ==> !summary_before(summary, #[trigger] sorted@[q]),
                decreases sorted@.len() - p,
            {
                p += 1;
            }
            proof {
                lemma_insert_summary_at(sorted@, summary, p as int);
                assert(all.take(k as int + 1).drop_last() =~= all.take(k as int));
                assert(all.take(k as int + 1).last() == summary);
            }
            sorted.insert(p, summary);
            k += 1;
            proof {
                assert(input@ =~= all.skip(k as int));
            }
        }
        proof {
            assert(k == all.len());
            assert(all.take(k as int) =~= all);
        }
        self.valid = sorted;
        let mut input: Vec<InvalidWorldEntry> = Vec::new();
        std::mem::swap(&mut input, &mut self.invalid);
        let ghost all = input@;
        assert(all.len() == input.len());
        let mut sorted: Vec<InvalidWorldEntry> = Vec::new();
        let mut k: usize = 0;
        while input.len() > 0
            invariant
                k <= all.len(),
                all.len() <= usize::MAX,
                input@ == all.skip(k as int),
                sorted@ == sorted_entries(all.take(k as int)),
            decreases input@.len(),
        {
            let entry = input.remove(0);
            proof {
                assert(entry == all[k as int]);
            }
            let mut p: usize = 0;
            while p < sorted.len() && !text_before(entry.display_name.as_str(), sorted[p].display_name.as_str())
                invariant
                    p <= sorted@.len(),
                    forall|q: int| 0 <= q < p ==> !entry_before(entry, #[trigger] sorted@[q]),
                decreases sorted@.len() - p,
            {
                p += 1;
            }
            proof {
                lemma_insert_entry_at(sorted@, entry, p as int);
                assert(all.take(k as int + 1).drop_last() =~= all.take(k as int));
                assert(all.take(k as int + 1).last() == entry);
            }
            sorted.insert(p, entry);
            k += 1;
            proof {
                assert(input@ =~= all.skip(k as int));
            }
        }
        proof {
            assert(k == all.len());
            assert(all.take(k as int) =~= all);
        }
        self.invalid = sorted;
    }
}

} // verus!
