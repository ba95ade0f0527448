//! Word-list validation: strict checking, lenient repair, and the errors
//! that a refused list is answered with.
use vstd::prelude::*;

use crate::text::{
    chars_of, lemma_trim_idempotent, debug_char, debug_quoted_char, debug_quoted_str, debug_str, decimal,
    push_decimal, trim, trim_str,
};

verus! {

/// Controls how strictly input word lists are validated when building a
/// `NameGenerator` or `TemplateGenerator`.
#[derive(Debug, Clone, Copy, PartialEq, Eq, Structural)]
pub enum Strictness {
    /// Reject a list containing an empty entry, an entry with leading or
    /// trailing whitespace, an entry with a character other than an ASCII
    /// letter, hyphen, apostrophe, or full stop (as in "Dr."), or a duplicate
    /// entry.
    /// This is the default.
    Strict,
    /// Trim whitespace, drop empty entries, and drop duplicates instead of
    /// erroring. Characters outside the strict allow-list are kept as-is.
    Lenient,
}

impl Default for Strictness {
    fn default() -> (s: Strictness)
        ensures
            s == Strictness::Strict,
    {
        Strictness::Strict
    }
}

/// Why building a word list based generator failed.
#[derive(Debug, Clone, PartialEq, Eq)]
pub enum BuildError {
    /// A list had no usable entries left after validation.
    EmptyList(String),
    /// An entry was the empty string.
    EmptyEntry { list: String, index: usize },
    /// An entry had leading or trailing whitespace.
    UntrimmedEntry { list: String, entry: String },
    /// An entry contained a character outside `[A-Za-z-'.]`.
    InvalidCharacter { list: String, entry: String, ch: char },
    /// The same entry appeared more than once in a list.
    DuplicateEntry { list: String, entry: String },
}

/// A `BuildError` with its strings taken as character sequences.
pub enum SpecBuildError {
    EmptyList(Seq<char>),
    EmptyEntry { list: Seq<char>, index: int },
    UntrimmedEntry { list: Seq<char>, entry: Seq<char> },
    InvalidCharacter { list: Seq<char>, entry: Seq<char>, ch: char },
    DuplicateEntry { list: Seq<char>, entry: Seq<char> },
}

impl View for BuildError {
    type V = SpecBuildError;

    open spec fn view(&self) -> SpecBuildError {
        match self {
            BuildError::EmptyList(list) => SpecBuildError::EmptyList(list@),
            BuildError::EmptyEntry { list, index } => SpecBuildError::EmptyEntry {
                list: list@,
                index: *index as int,
            },
            BuildError::UntrimmedEntry { list, entry } => SpecBuildError::UntrimmedEntry {
                list: list@,
                entry: entry@,
            },
            BuildError::InvalidCharacter { list, entry, ch } => SpecBuildError::InvalidCharacter {
                list: list@,
                entry: entry@,
                ch: *ch,
            },
            BuildError::DuplicateEntry { list, entry } => SpecBuildError::DuplicateEntry {
                list: list@,
                entry: entry@,
            },
        }
    }
}

/// The characters of each string, in order.
pub open spec fn words(v: Seq<String>) -> Seq<Seq<char>> {
    v.map_values(|s: String| s@)
}

/// A character that a strictly validated entry may hold: an ASCII letter,
/// a hyphen, an apostrophe or a full stop.
pub open spec fn name_char(c: char) -> bool {
    ||| 'A' <= c <= 'Z'
    ||| 'a' <= c <= 'z'
    ||| c == '-'
    ||| c == '\''
    ||| c == '.'
}

/// The first character of `e` at or after `i` that is not a name character.
pub open spec fn first_disallowed_from(e: Seq<char>, i: int) -> Option<char>
    decreases e.len() - i,
{
    if i < 0 || i >= e.len() {
        None
    } else if !name_char(e[i]) {
        Some(e[i])
    } else {
        first_disallowed_from(e, i + 1)
    }
}

/// The first character of `e` that is not a name character.
pub open spec fn first_disallowed(e: Seq<char>) -> Option<char> {
    first_disallowed_from(e, 0)
}

/// What is wrong with entry `i` of a list whose earlier entries all passed.
pub open spec fn entry_problem(list: Seq<char>, entries: Seq<Seq<char>>, i: int) -> Option<
    SpecBuildError,
> {
    let e = entries[i];
    if e.len() == 0 {
        Some(SpecBuildError::EmptyEntry { list, index: i })
    } else if trim(e) != e {
        Some(SpecBuildError::UntrimmedEntry { list, entry: e })
    } else if first_disallowed(e) is Some {
        Some(SpecBuildError::InvalidCharacter { list, entry: e, ch: first_disallowed(e)->0 })
    } else if entries.take(i).contains(e) {
        Some(SpecBuildError::DuplicateEntry { list, entry: e })
    } else {
        None
    }
}

/// The problem with the first failing entry among the first `n`, if any.
pub open spec fn strict_problem(list: Seq<char>, entries: Seq<Seq<char>>, n: nat) -> Option<
    SpecBuildError,
>
    decreases n,
{
    if n == 0 {
        None
    } else {
        match strict_problem(list, entries, (n - 1) as nat) {
            Some(err) => Some(err),
            None => entry_problem(list, entries, n - 1),
        }
    }
}

/// Once a prefix of the list has failed, every longer prefix fails the same way.
pub proof fn lemma_strict_problem_stable(list: Seq<char>, entries: Seq<Seq<char>>, i: nat, n: nat)
    requires
        i <= n,
        strict_problem(list, entries, i) is Some,
    ensures
        strict_problem(list, entries, n) == strict_problem(list, entries, i),
    decreases n,
{
    if n > i {
        lemma_strict_problem_stable(list, entries, i, (n - 1) as nat);
    }
}

/// The first `n` entries repaired: trimmed, with empty entries and repeats
/// of an earlier entry dropped.
pub open spec fn lenient_prefix(entries: Seq<Seq<char>>, n: nat) -> Seq<Seq<char>>
    decreases n,
{
    if n == 0 {
        Seq::empty()
    } else {
        let kept = lenient_prefix(entries, (n - 1) as nat);
        let t = trim(entries[n - 1]);
        if t.len() == 0 || kept.contains(t) {
            kept
        } else {
            kept.push(t)
        }
    }
}

/// All entries repaired.
pub open spec fn lenient(entries: Seq<Seq<char>>) -> Seq<Seq<char>> {
    lenient_prefix(entries, entries.len())
}

/// What validating `entries` as the list named `list` gives.
pub open spec fn list_outcome(list: Seq<char>, entries: Seq<Seq<char>>, strictness: Strictness) -> Result<
    Seq<Seq<char>>,
    SpecBuildError,
> {
    match strictness {
        Strictness::Strict => match strict_problem(list, entries, entries.len()) {
            Some(err) => Err(err),
            None => if entries.len() == 0 {
                Err(SpecBuildError::EmptyList(list))
            } else {
                Ok(entries)
            },
        },
        Strictness::Lenient => {
            let kept = lenient(entries);
            if kept.len() == 0 {
                Err(SpecBuildError::EmptyList(list))
            } else {
                Ok(kept)
            }
        },
    }
}

/// Whether an executable result is the one that `outcome` describes.
pub open spec fn list_result_is(r: Result<Vec<String>, BuildError>, outcome: Result<Seq<Seq<char>>, SpecBuildError>) -> bool {
    match (r, outcome) {
        (Ok(v), Ok(w)) => words(v@) == w,
        (Err(e), Err(f)) => e@ == f,
        _ => false,
    }
}

/// Whether `c` may appear in a strictly validated entry.
pub(crate) fn is_name_char(c: char) -> (r: bool)
    ensures
        r == name_char(c),
{
    ('A' <= c && c <= 'Z') || ('a' <= c && c <= 'z') || c == '-' || c == '\'' || c == '.'
}

/// The first character of `entry` that is not a name character.
fn find_disallowed(entry: &String) -> (r: Option<char>)
    ensures
        r == first_disallowed(entry@),
{
    let v = chars_of(entry.as_str());
    let n = v.len();
    let mut i: usize = 0;
    while i < n
        invariant
            v@ == entry@,
            n == v@.len(),
            i <= n,
            first_disallowed_from(entry@, i as int) == first_disallowed(entry@),
        decreases n - i,
    {
        if !is_name_char(v[i]) {
            return Some(v[i]);
        }
        i = i + 1;
    }
    None
}

/// Whether `entries[..end]` holds a string equal to `word`.
fn contains_before(entries: &Vec<String>, end: usize, word: &String) -> (r: bool)
    requires
        end <= entries@.len(),
    ensures
        r == words(entries@).take(end as int).contains(word@),
{
    let mut j: usize = 0;
    while j < end
        invariant
            end <= entries@.len(),
            j <= end,
            forall|k: int| 0 <= k < j ==> entries@[k]@ != word@,
        decreases end - j,
    {
        if entries[j] == *word {
            assert(words(entries@).take(end as int)[j as int] == word@);
            return true;
        }
        j = j + 1;
    }
    assert forall|k: int| 0 <= k < end implies words(entries@).take(end as int)[k] != word@ by {}
    false
}

/// Checks every entry in order, and answers the first failing one with its
/// error; the entries themselves come back unchanged when all pass.
fn validate_strict(list: &str, entries: Vec<String>) -> (r: Result<Vec<String>, BuildError>)
    ensures
        match strict_problem(list@, words(entries@), entries@.len()) {
            Some(err) => r matches Err(e) && e@ == err,
            None => r matches Ok(v) && v@ == entries@,
        },
{
    let n = entries.len();
    let mut i: usize = 0;
    while i < n
        invariant
            n == entries@.len(),
            i <= n,
            strict_problem(list@, words(entries@), i as nat) is None,
        decreases n - i,
    {
        let entry = &entries[i];
        assert(words(entries@)[i as int] == entry@);
        proof {
            if entry_problem(list@, words(entries@), i as int) is Some {
                lemma_strict_problem_stable(list@, words(entries@), (i + 1) as nat, n as nat);
            }
        }
        if entry.as_str().is_empty() {
            return Err(BuildError::EmptyEntry { list: String::from_str(list), index: i });
        }
        let trimmed = trim_str(entry.as_str());
        if trimmed != *entry {
            return Err(
                BuildError::UntrimmedEntry { list: String::from_str(list), entry: entry.clone() },
            );
        }
        if let Some(ch) = find_disallowed(entry) {
            return Err(
                BuildError::InvalidCharacter {
                    list: String::from_str(list),
                    entry: entry.clone(),
                    ch,
                },
            );
        }
        if contains_before(&entries, i, entry) {
            return Err(
                BuildError::DuplicateEntry { list: String::from_str(list), entry: entry.clone() },
            );
        }
        i = i + 1;
    }
    Ok(entries)
}

/// Trims every entry, drops the empty ones and keeps the first of any
/// repeated entries.
fn validate_lenient(entries: Vec<String>) -> (r: Vec<String>)
    ensures
        words(r@) == lenient(words(entries@)),
{
    let n = entries.len();
    let mut cleaned: Vec<String> = Vec::new();
    let mut i: usize = 0;
    while i < n
        invariant
            n == entries@.len(),
            i <= n,
            words(cleaned@) == lenient_prefix(words(entries@), i as nat),
        decreases n - i,
    {
        let trimmed = trim_str(entries[i].as_str());
        assert(words(entries@)[i as int] == entries@[i as int]@);
        if !trimmed.as_str().is_empty() {
            let len = cleaned.len();
            if !contains_before(&cleaned, len, &trimmed) {
                assert(words(cleaned@).take(len as int) =~= words(cleaned@));
                cleaned.push(trimmed);
                assert(words(cleaned@) =~= lenient_prefix(words(entries@), (i + 1) as nat));
            } else {
                assert(words(cleaned@).take(len as int) =~= words(cleaned@));
            }
        }
        i = i + 1;
    }
    assert(words(entries@).len() == n);
    cleaned
}

/// Validates `entries` as the list named `list` under `strictness`, and
/// refuses a list with no usable entries left.
pub(crate) fn validate_list(list: &str, entries: Vec<String>, strictness: Strictness) -> (r: Result<
    Vec<String>,
    BuildError,
>)
    ensures
        list_result_is(r, list_outcome(list@, words(entries@), strictness)),
{
    let entries = match strictness {
        Strictness::Strict => match validate_strict(list, entries) {
            Ok(v) => v,
            Err(e) => return Err(e),
        },
        Strictness::Lenient => validate_lenient(entries),
    };
    if entries.len() == 0 {
        return Err(BuildError::EmptyList(String::from_str(list)));
    }
    Ok(entries)
}

/// The message that describes a refused list.
pub open spec fn build_error_message(e: SpecBuildError) -> Seq<char> {
    match e {
        SpecBuildError::EmptyList(list) => list + " list has no usable entries"@,
        SpecBuildError::EmptyEntry { list, index } => list + " list entry "@ + decimal(
            index as nat,
        ) + " is empty"@,
        SpecBuildError::UntrimmedEntry { list, entry } => list + " list entry "@ + debug_str(entry)
            + " has leading or trailing whitespace"@,
        SpecBuildError::InvalidCharacter { list, entry, ch } => list + " list entry "@ + debug_str(
            entry,
        ) + " contains disallowed character "@ + debug_char(ch),
        SpecBuildError::DuplicateEntry { list, entry } => list + " list has duplicate entry "@
            + debug_str(entry),
    }
}

impl BuildError {
    /// A sentence that says what is wrong, naming the list and the entry.
    pub fn message(&self) -> (m: String)
        ensures
            m@ == build_error_message(self@),
    {
        match self {
            BuildError::EmptyList(list) => {
                let mut m = list.clone();
                m.append(" list has no usable entries");
                m
            },
            BuildError::EmptyEntry { list, index } => {
                let mut m = list.clone();
                m.append(" list entry ");
                push_decimal(&mut m, *index);
                m.append(" is empty");
                m
            },
            BuildError::UntrimmedEntry { list, entry } => {
                let mut m = list.clone();
                m.append(" list entry ");
                m.append(debug_quoted_str(entry.as_str()).as_str());
                m.append(" has leading or trailing whitespace");
                m
            },
            BuildError::InvalidCharacter { list, entry, ch } => {
                let mut m = list.clone();
                m.append(" list entry ");
                m.append(debug_quoted_str(entry.as_str()).as_str());
                m.append(" contains disallowed character ");
                m.append(debug_quoted_char(*ch).as_str());
                m
            },
            BuildError::DuplicateEntry { list, entry } => {
                let mut m = list.clone();
                m.append(" list has duplicate entry ");
                m.append(debug_quoted_str(entry.as_str()).as_str());
                m
            },
        }
    }
}

/// A list that strict validation accepts as it is: no entry is empty or
/// has white space around it, every character is a name character, and no
/// entry repeats.
pub open spec fn strictly_clean(entries: Seq<Seq<char>>) -> bool {
    &&& forall|i: int| 0 <= i < entries.len() ==> #[trigger] entries[i].len() > 0
    &&& forall|i: int| 0 <= i < entries.len() ==> trim(#[trigger] entries[i]) == entries[i]
    &&& forall|i: int, j: int|
        0 <= i < entries.len() && 0 <= j < entries[i].len() ==> name_char(#[trigger] entries[i][j])
    &&& forall|i: int, j: int|
        0 <= i < j < entries.len() ==> #[trigger] entries[i] != #[trigger] entries[j]
}

proof fn lemma_first_disallowed_from(e: Seq<char>, i: int)
    requires
        0 <= i <= e.len(),
    ensures
        (first_disallowed_from(e, i) is None) <==> (forall|j: int|
            i <= j < e.len() ==> name_char(#[trigger] e[j])),
    decreases e.len() - i,
{
    if i < e.len() {
        lemma_first_disallowed_from(e, i + 1);
    }
}

proof fn lemma_strict_prefix_clean(list: Seq<char>, entries: Seq<Seq<char>>, n: nat)
    requires
        n <= entries.len(),
    ensures
        (strict_problem(list, entries, n) is None) <==> strictly_clean(entries.take(n as int)),
    decreases n,
{
    if n > 0 {
        lemma_strict_prefix_clean(list, entries, (n - 1) as nat);
        let prev = entries.take(n - 1);
        let cur = entries.take(n as int);
        let e = entries[n - 1];
        assert(cur =~= prev.push(e));
        lemma_first_disallowed_from(e, 0);
        if strict_problem(list, entries, n) is None {
            assert(strictly_clean(prev));
            assert(e.len() > 0);
            assert(trim(e) == e);
            assert(first_disallowed(e) is None);
            assert(!prev.contains(e));
            assert forall|i: int, j: int| 0 <= i < j < cur.len() implies #[trigger] cur[i] != #[trigger] cur[j] by {
                if j == n - 1 {
                    assert(prev[i] == cur[i]);
                    if cur[i] == cur[j] {
                        assert(prev.contains(e));
                    }
                } else {
                    assert(prev[i] == cur[i] && prev[j] == cur[j]);
                }
            }
            assert forall|i: int, j: int| 0 <= i < cur.len() && 0 <= j < cur[i].len() implies name_char(#[trigger] cur[i][j]) by {
                if i < n - 1 {
                    assert(prev[i] == cur[i]);
                }
            }
            assert forall|i: int| 0 <= i < cur.len() implies trim(#[trigger] cur[i]) == cur[i] by {
                if i < n - 1 {
                    assert(prev[i] == cur[i]);
                }
            }
            assert forall|i: int| 0 <= i < cur.len() implies #[trigger] cur[i].len() > 0 by {
                if i < n - 1 {
                    assert(prev[i] == cur[i]);
                }
            }
        }
        if strictly_clean(cur) {
            assert forall|i: int| 0 <= i < prev.len() implies #[trigger] prev[i].len() > 0 by {
                assert(prev[i] == cur[i]);
            }
            assert forall|i: int| 0 <= i < prev.len() implies trim(#[trigger] prev[i]) == prev[i] by {
                assert(prev[i] == cur[i]);
            }
            assert forall|i: int, j: int| 0 <= i < prev.len() && 0 <= j < prev[i].len() implies name_char(#[trigger] prev[i][j]) by {
                assert(prev[i] == cur[i]);
            }
            assert forall|i: int, j: int| 0 <= i < j < prev.len() implies #[trigger] prev[i] != #[trigger] prev[j] by {
                assert(prev[i] == cur[i] && prev[j] == cur[j]);
            }
            assert(strictly_clean(prev));
            assert(cur[n - 1] == e);
            assert(e.len() > 0);
            assert(trim(e) == e);
            assert forall|j: int| 0 <= j < e.len() implies name_char(#[trigger] e[j]) by {
                assert(cur[n - 1][j] == e[j]);
            }
            if prev.contains(e) {
                let k = choose|k: int| 0 <= k < prev.len() && prev[k] == e;
                assert(cur[k] == cur[n - 1]);
            }
        }
    } else {
        assert(entries.take(0) =~= Seq::<Seq<char>>::empty());
    }
}

/// Strict validation finds no problem in a list exactly when the list is
/// strictly clean.
pub proof fn lemma_strict_accepts_exactly_clean(list: Seq<char>, entries: Seq<Seq<char>>)
    ensures
        (strict_problem(list, entries, entries.len()) is None) <==> strictly_clean(entries),
{
    lemma_strict_prefix_clean(list, entries, entries.len());
    assert(entries.take(entries.len() as int) =~= entries);
}

/// No entry is empty or has white space around it, and no entry repeats.
pub open spec fn repaired(entries: Seq<Seq<char>>) -> bool {
    &&& forall|i: int| 0 <= i < entries.len() ==> #[trigger] entries[i].len() > 0
    &&& forall|i: int| 0 <= i < entries.len() ==> trim(#[trigger] entries[i]) == entries[i]
    &&& forall|i: int, j: int|
        0 <= i < j < entries.len() ==> #[trigger] entries[i] != #[trigger] entries[j]
}

/// Lenient repair keeps what it promises on the first `n` entries.
proof fn lemma_lenient_prefix(entries: Seq<Seq<char>>, n: nat)
    requires
        n <= entries.len(),
    ensures
        repaired(lenient_prefix(entries, n)),
        forall|k: int|
            #![trigger lenient_prefix(entries, n)[k]]
            0 <= k < lenient_prefix(entries, n).len() ==> exists|i: int|
                0 <= i < n && trim(#[trigger] entries[i]) == lenient_prefix(entries, n)[k],
        forall|i: int|
            0 <= i < n && trim(#[trigger] entries[i]).len() > 0 ==> lenient_prefix(
                entries,
                n,
            ).contains(trim(entries[i])),
    decreases n,
{
    if n > 0 {
        lemma_lenient_prefix(entries, (n - 1) as nat);
        let kept = lenient_prefix(entries, (n - 1) as nat);
        let t = trim(entries[n - 1]);
        lemma_trim_idempotent(entries[n - 1]);
        let out = lenient_prefix(entries, n);
        if !(t.len() == 0 || kept.contains(t)) {
            assert(out == kept.push(t));
            assert forall|i: int, j: int| 0 <= i < j < out.len() implies #[trigger] out[i] != #[trigger] out[j] by {
                if j == out.len() - 1 {
                    assert(out[i] == kept[i]);
                    if out[i] == out[j] {
                        assert(kept.contains(t));
                    }
                } else {
                    assert(out[i] == kept[i] && out[j] == kept[j]);
                }
            }
            assert forall|k: int| 0 <= k < out.len() implies #[trigger] out[k].len() > 0 && trim(out[k]) == out[k] by {
                if k < kept.len() {
                    assert(out[k] == kept[k]);
                }
            }
            assert forall|k: int| #![trigger out[k]] 0 <= k < out.len() implies exists|i: int|
                0 <= i < n && trim(#[trigger] entries[i]) == out[k] by {
                if k < kept.len() {
                    assert(out[k] == kept[k]);
                    let i = choose|i: int| 0 <= i < n - 1 && trim(#[trigger] entries[i]) == kept[k];
                    assert(trim(entries[i]) == out[k]);
                } else {
                    assert(trim(entries[n - 1]) == out[k]);
                }
            }
            assert forall|i: int| 0 <= i < n && trim(#[trigger] entries[i]).len() > 0 implies out.contains(trim(entries[i])) by {
                if i < n - 1 {
                    let k = choose|k: int| 0 <= k < kept.len() && kept[k] == trim(entries[i]);
                    assert(out[k] == kept[k]);
                } else {
                    assert(out[out.len() - 1] == t);
                }
            }
        } else {
            assert forall|i: int| 0 <= i < n && trim(#[trigger] entries[i]).len() > 0 implies out.contains(trim(entries[i])) by {
                if i < n - 1 {
                }
            }
        }
    }
}

/// The kept entries of the first `n` are in the order in which they first
/// occur.
proof fn lemma_lenient_prefix_order(entries: Seq<Seq<char>>, n: nat)
    requires
        n <= entries.len(),
    ensures
        in_first_occurrence_order(entries, lenient_prefix(entries, n)),
    decreases n,
{
    if n > 0 {
        lemma_lenient_prefix_order(entries, (n - 1) as nat);
        lemma_lenient_prefix(entries, (n - 1) as nat);
        let kept = lenient_prefix(entries, (n - 1) as nat);
        let t = trim(entries[n - 1]);
        let out = lenient_prefix(entries, n);
        if !(t.len() == 0 || kept.contains(t)) {
            assert forall|k1: int, k2: int, i2: int|
                #![trigger entries[i2], out[k1], out[k2]]
                0 <= k1 < k2 < out.len() && 0 <= i2 < entries.len() && trim(entries[i2]) == out[k2] implies exists|i1: int|
                0 <= i1 < i2 && trim(#[trigger] entries[i1]) == out[k1] by {
                assert(out[k1] == kept[k1]);
                if k2 < kept.len() {
                    assert(out[k2] == kept[k2]);
                } else {
                    let i1 = choose|i: int| 0 <= i < n - 1 && trim(#[trigger] entries[i]) == kept[k1];
                    if i2 < n - 1 {
                        assert(kept.contains(trim(entries[i2])));
                    }
                    assert(trim(entries[i1]) == out[k1]);
                }
            }
        }
    }
}

/// Entries of `kept` come in the order of their first occurrence (by trim)
/// in `input`.
pub open spec fn in_first_occurrence_order(input: Seq<Seq<char>>, kept: Seq<Seq<char>>) -> bool {
    forall|k1: int, k2: int, i2: int|
        #![trigger input[i2], kept[k1], kept[k2]]
        0 <= k1 < k2 < kept.len() && 0 <= i2 < input.len() && trim(input[i2]) == kept[k2] ==> exists|i1: int| 0 <= i1 < i2 && trim(#[trigger] input[i1]) == kept[k1]
}

/// Lenient repair gives entries that are non-empty, trimmed and distinct;
/// each comes from an input entry by trimming, and every input entry that
/// is not blank is represented.
pub proof fn lemma_lenient_repairs(entries: Seq<Seq<char>>)
    ensures
        repaired(lenient(entries)),
        in_first_occurrence_order(entries, lenient(entries)),
        forall|k: int|
            #![trigger lenient(entries)[k]]
            0 <= k < lenient(entries).len() ==> exists|i: int|
                0 <= i < entries.len() && trim(#[trigger] entries[i]) == lenient(entries)[k],
        forall|i: int|
            0 <= i < entries.len() && trim(#[trigger] entries[i]).len() > 0 ==> lenient(
                entries,
            ).contains(trim(entries[i])),
{
    lemma_lenient_prefix(entries, entries.len());
    lemma_lenient_prefix_order(entries, entries.len());
}

/// A repaired list whose characters are all name characters passes strict
/// validation unchanged.
pub proof fn lemma_lenient_then_strict(list: Seq<char>, entries: Seq<Seq<char>>)
    requires
        forall|k: int, j: int|
            0 <= k < lenient(entries).len() && 0 <= j < lenient(entries)[k].len() ==> name_char(
                #[trigger] lenient(entries)[k][j],
            ),
    ensures
        strict_problem(list, lenient(entries), lenient(entries).len()) is None,
{
    lemma_lenient_repairs(entries);
    lemma_strict_accepts_exactly_clean(list, lenient(entries));
}

/// A list is accepted only if something usable is left: under strict
/// validation it comes back unchanged and strictly clean, under lenient
/// validation it comes back repaired.
pub proof fn lemma_accepted_list(list: Seq<char>, entries: Seq<Seq<char>>, strictness: Strictness)
    ensures
        list_outcome(list, entries, strictness) matches Ok(kept) ==> {
            &&& kept.len() > 0
            &&& repaired(kept)
            &&& strictness == Strictness::Strict ==> kept == entries && strictly_clean(kept)
        },
{
    lemma_strict_accepts_exactly_clean(list, entries);
    lemma_lenient_repairs(entries);
}

proof fn lemma_lenient_prefix_of_repaired(r: Seq<Seq<char>>, n: nat)
    requires
        repaired(r),
        n <= r.len(),
    ensures
        lenient_prefix(r, n) == r.take(n as int),
    decreases n,
{
    if n == 0 {
        assert(r.take(0) =~= Seq::<Seq<char>>::empty());
    } else {
        lemma_lenient_prefix_of_repaired(r, (n - 1) as nat);
        let kept = r.take(n - 1);
        let t = trim(r[n - 1]);
        assert(t == r[n - 1]);
        if kept.contains(t) {
            let k = choose|k: int| 0 <= k < kept.len() && kept[k] == t;
            assert(r[k] == r[n - 1]);
        }
        assert(kept.push(t) =~= r.take(n as int));
    }
}

/// Repairing a repaired list changes nothing: lenient validation is
/// idempotent.
pub proof fn lemma_lenient_idempotent(entries: Seq<Seq<char>>)
    ensures
        lenient(lenient(entries)) == lenient(entries),
{
    let r = lenient(entries);
    lemma_lenient_repairs(entries);
    lemma_lenient_prefix_of_repaired(r, r.len());
    assert(r.take(r.len() as int) =~= r);
}

/// Strict validation accepts a list exactly when it is not empty, no
/// entry is empty or has white space around it, every character is an
/// ASCII letter, `-`, `'` or `.`, and no entry repeats; an accepted list
/// comes back unchanged.
pub proof fn lemma_strict_outcome(list: Seq<char>, entries: Seq<Seq<char>>)
    ensures
        (list_outcome(list, entries, Strictness::Strict) is Ok) <==> {
            &&& entries.len() > 0
            &&& forall|i: int| 0 <= i < entries.len() ==> #[trigger] entries[i].len() > 0
            &&& forall|i: int| 0 <= i < entries.len() ==> trim(#[trigger] entries[i]) == entries[i]
            &&& forall|i: int, j: int|
                0 <= i < entries.len() && 0 <= j < entries[i].len() ==> ('A' <= #[trigger] entries[i][j] <= 'Z'
                    || 'a' <= entries[i][j] <= 'z' || entries[i][j] == '-' || entries[i][j] == '\''
                    || entries[i][j] == '.')
            &&& forall|i: int, j: int|
                0 <= i < j < entries.len() ==> #[trigger] entries[i] != #[trigger] entries[j]
        },
        list_outcome(list, entries, Strictness::Strict) matches Ok(kept) ==> kept == entries,
{
    lemma_strict_accepts_exactly_clean(list, entries);
}

/// Every entry of `kept` is the trim of some entry of `input`, the trim of
/// every entry of `input` that is not blank is in `kept`, and `kept` is in
/// the order of first occurrence.
pub open spec fn represents(input: Seq<Seq<char>>, kept: Seq<Seq<char>>) -> bool {
    &&& in_first_occurrence_order(input, kept)
    &&& forall|k: int|
        #![trigger kept[k]]
        0 <= k < kept.len() ==> exists|i: int| 0 <= i < input.len() && trim(#[trigger] input[i]) == kept[k]
    &&& forall|i: int|
        0 <= i < input.len() && trim(#[trigger] input[i]).len() > 0 ==> kept.contains(trim(input[i]))
}

/// Lenient validation refuses a list exactly when every entry is blank; an
/// accepted list has no empty entry, no entry with white space around it
/// and no repeat, and holds exactly the trims of the entries that are not
/// blank.
pub proof fn lemma_lenient_outcome(list: Seq<char>, entries: Seq<Seq<char>>)
    ensures
        (list_outcome(list, entries, Strictness::Lenient) is Err) <==> (forall|i: int|
            0 <= i < entries.len() ==> trim(#[trigger] entries[i]).len() == 0),
        list_outcome(list, entries, Strictness::Lenient) matches Ok(kept) ==> {
            &&& kept.len() > 0
            &&& repaired(kept)
            &&& represents(entries, kept)
        },
{
    lemma_lenient_repairs(entries);
    let kept = lenient(entries);
    if kept.len() == 0 {
        assert forall|i: int| 0 <= i < entries.len() implies trim(#[trigger] entries[i]).len() == 0 by {
            if trim(entries[i]).len() > 0 {
                assert(kept.contains(trim(entries[i])));
            }
        }
    } else {
        let k0: int = 0;
        assert(kept[k0] == kept[0]);
        let i = choose|i: int| 0 <= i < entries.len() && trim(#[trigger] entries[i]) == kept[k0];
        assert(trim(entries[i]).len() > 0);
    }
}

/// What an accepted list is, whatever the strictness: non-empty, without
/// empty, untrimmed or repeated entries; under strict validation the input
/// itself, under lenient validation the trims of its non-blank entries.
pub open spec fn validated(input: Seq<Seq<char>>, kept: Seq<Seq<char>>, strictness: Strictness) -> bool {
    &&& kept.len() > 0
    &&& repaired(kept)
    &&& strictness == Strictness::Strict ==> kept == input
    &&& strictness == Strictness::Lenient ==> represents(input, kept)
}

/// An accepted list is `validated` against its input.
pub proof fn lemma_list_outcome_validated(list: Seq<char>, entries: Seq<Seq<char>>, strictness: Strictness)
    ensures
        list_outcome(list, entries, strictness) matches Ok(kept) ==> validated(entries, kept, strictness),
{
    lemma_strict_outcome(list, entries);
    lemma_lenient_outcome(list, entries);
    lemma_accepted_list(list, entries, strictness);
}

/// The characters that the documentation allows in a strictly validated
/// entry: `[A-Za-z-'.]`.
pub open spec fn documented_name_char(c: char) -> bool {
    ('A' <= c <= 'Z') || ('a' <= c <= 'z') || c == '-' || c == '\'' || c == '.'
}

/// The entries before index `i` pass every strict check.
pub open spec fn clean_before(entries: Seq<Seq<char>>, i: int) -> bool {
    &&& forall|j: int| 0 <= j < i ==> #[trigger] entries[j].len() > 0
    &&& forall|j: int| 0 <= j < i ==> trim(#[trigger] entries[j]) == entries[j]
    &&& forall|j: int, p: int|
        0 <= j < i && 0 <= p < entries[j].len() ==> documented_name_char(#[trigger] entries[j][p])
    &&& forall|j1: int, j2: int| 0 <= j1 < j2 < i ==> #[trigger] entries[j1] != #[trigger] entries[j2]
}

/// The error strict validation gives for entry `i`: empty, then untrimmed,
/// then the first character outside `[A-Za-z-'.]`, then a repeat of an
/// earlier entry.
pub open spec fn strict_entry_error(list: Seq<char>, entries: Seq<Seq<char>>, i: int, e: SpecBuildError) -> bool {
    let x = entries[i];
    if x.len() == 0 {
        e == SpecBuildError::EmptyEntry { list, index: i }
    } else if trim(x) != x {
        e == SpecBuildError::UntrimmedEntry { list, entry: x }
    } else if exists|p: int| 0 <= p < x.len() && !documented_name_char(#[trigger] x[p]) {
        exists|p: int|
            0 <= p < x.len() && !documented_name_char(#[trigger] x[p]) && (forall|q: int|
                0 <= q < p ==> documented_name_char(#[trigger] x[q])) && e
                == SpecBuildError::InvalidCharacter { list, entry: x, ch: x[p] }
    } else {
        &&& exists|j: int| 0 <= j < i && #[trigger] entries[j] == x
        &&& e == SpecBuildError::DuplicateEntry { list, entry: x }
    }
}

proof fn lemma_first_disallowed_some(e: Seq<char>, i: int)
    requires
        0 <= i <= e.len(),
    ensures
        first_disallowed_from(e, i) matches Some(ch) ==> exists|p: int|
            i <= p < e.len() && !name_char(#[trigger] e[p]) && ch == e[p] && (forall|q: int|
                i <= q < p ==> name_char(#[trigger] e[q])),
    decreases e.len() - i,
{
    if i < e.len() && name_char(e[i]) {
        lemma_first_disallowed_some(e, i + 1);
    }
}

proof fn lemma_strict_problem_first(list: Seq<char>, entries: Seq<Seq<char>>, n: nat)
    requires
        n <= entries.len(),
    ensures
        strict_problem(list, entries, n) matches Some(e) ==> exists|i: int|
            0 <= i < n && strict_problem(list, entries, i as nat) is None && #[trigger] entry_problem(
                list,
                entries,
                i,
            ) == Some(e),
    decreases n,
{
    if n > 0 {
        lemma_strict_problem_first(list, entries, (n - 1) as nat);
    }
}

/// Strict validation refuses a list for its first failing entry, and for
/// that entry's first problem: an empty list is refused as empty;
/// otherwise every entry before the failing one passes, and the error is
/// the one `strict_entry_error` describes.
pub proof fn lemma_strict_error(list: Seq<char>, entries: Seq<Seq<char>>)
    ensures
        list_outcome(list, entries, Strictness::Strict) matches Err(e) ==> {
            ||| entries.len() == 0 && e == SpecBuildError::EmptyList(list)
            ||| exists|i: int|
                0 <= i < entries.len() && clean_before(entries, i) && #[trigger] strict_entry_error(
                    list,
                    entries,
                    i,
                    e,
                )
        },
{
    lemma_strict_problem_first(list, entries, entries.len());
    if let Some(e) = strict_problem(list, entries, entries.len()) {
        let i = choose|i: int|
            0 <= i < entries.len() && strict_problem(list, entries, i as nat) is None
                && #[trigger] entry_problem(list, entries, i) == Some(e);
        lemma_strict_prefix_clean(list, entries, i as nat);
        let pre = entries.take(i);
        assert forall|j: int| 0 <= j < i implies #[trigger] entries[j] == pre[j] by {}
        let x = entries[i];
        lemma_first_disallowed_from(x, 0);
        lemma_first_disallowed_some(x, 0);
        if x.len() > 0 && trim(x) == x {
            if first_disallowed(x) is Some {
                let p = choose|p: int|
                    0 <= p < x.len() && !name_char(#[trigger] x[p]) && first_disallowed(x)->0 == x[p]
                        && (forall|q: int| 0 <= q < p ==> name_char(#[trigger] x[q]));
                assert(!documented_name_char(x[p]));
                assert(strict_entry_error(list, entries, i, e));
            } else {
                assert forall|p: int| 0 <= p < x.len() implies documented_name_char(#[trigger] x[p]) by {
                    assert(name_char(x[p]));
                }
                let j = choose|j: int| 0 <= j < pre.len() && pre[j] == x;
                assert(entries[j] == x);
                assert(strict_entry_error(list, entries, i, e));
            }
        }
        assert(clean_before(entries, i)) by {
            assert forall|j: int, p: int| 0 <= j < i && 0 <= p < entries[j].len() implies documented_name_char(
                #[trigger] entries[j][p],
            ) by {
                assert(pre[j] == entries[j]);
                assert(name_char(pre[j][p]));
            }
            assert forall|j1: int, j2: int| 0 <= j1 < j2 < i implies #[trigger] entries[j1] != #[trigger] entries[j2] by {
                assert(pre[j1] == entries[j1] && pre[j2] == entries[j2]);
            }
            assert forall|j: int| 0 <= j < i implies #[trigger] entries[j].len() > 0 && trim(entries[j]) == entries[j] by {
                assert(pre[j] == entries[j]);
            }
        }
    }
}

} // verus!
