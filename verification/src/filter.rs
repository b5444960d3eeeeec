//! Filters on documents, and the arguments that they are given by.

use crate::text::{
    law_first_separator_cuts, law_sides_are_read_back, law_text_without_separator_is_one_part,
    law_trimmed_text_stays, split_once, split_text_once, texts, trim, trim_text,
};
use vstd::hash_set::StringHashSet;
use vstd::prelude::*;

verus! {

/// What is wrong with the argument of a filter.
#[derive(Copy, Clone, Debug, PartialEq, Eq, Structural)]
pub enum FilterError {
    /// No `=` in a `key=value` argument.
    NotKeyAndValue,
    /// No `=` in a `key=path` argument.
    NotKeyAndPath,
    EmptyKey,
    EmptyPath,
}

impl FilterError {
    /// What is wrong, in words.
    pub open spec fn text(self) -> Seq<char> {
        match self {
            FilterError::NotKeyAndValue => "--filter must be in the form key=value"@,
            FilterError::NotKeyAndPath => "--filter-in must be in the form key=path/to/file"@,
            FilterError::EmptyKey => "--filter-in key cannot be empty"@,
            FilterError::EmptyPath => "--filter-in path cannot be empty"@,
        }
    }

    /// What is wrong, in words.
    pub fn message(&self) -> (r: String)
        ensures
            r@ == self.text(),
    {
        match self {
            FilterError::NotKeyAndValue => "--filter must be in the form key=value".to_owned(),
            FilterError::NotKeyAndPath => {
                "--filter-in must be in the form key=path/to/file".to_owned()
            },
            FilterError::EmptyKey => "--filter-in key cannot be empty".to_owned(),
            FilterError::EmptyPath => "--filter-in path cannot be empty".to_owned(),
        }
    }
}

/// The key and the value of a `key=value` argument, or what is wrong with it.
pub open spec fn key_and_value(s: Seq<char>) -> Result<(Seq<char>, Seq<char>), FilterError> {
    match split_once(s, '=') {
        Some((key, value)) => Ok((key, value)),
        None => Err(FilterError::NotKeyAndValue),
    }
}

/// Parses a filter argument of the form `key=value`, cut at the first `=`.
pub fn parse_filter(s: &str) -> (r: Result<(String, String), FilterError>)
    ensures
        match r {
            Ok((key, value)) => key_and_value(s@) == Ok::<_, FilterError>((key@, value@)),
            Err(e) => key_and_value(s@) == Err::<(Seq<char>, Seq<char>), _>(e),
        },
{
    match split_text_once(s, '=') {
        Some(parts) => Ok(parts),
        None => Err(FilterError::NotKeyAndValue),
    }
}

/// The key and the path of a `KEY=PATH` argument, or what is wrong with it.
pub open spec fn key_and_path(s: Seq<char>) -> Result<(Seq<char>, Seq<char>), FilterError> {
    match split_once(s, '=') {
        None => Err(FilterError::NotKeyAndPath),
        Some((key, path)) => if key.len() == 0 {
            Err(FilterError::EmptyKey)
        } else if path.len() == 0 {
            Err(FilterError::EmptyPath)
        } else {
            Ok((key, path))
        },
    }
}

/// Parses a `--filter-in KEY=PATH` argument.
pub fn parse_filter_in(s: &str) -> (r: Result<(String, String), FilterError>)
    ensures
        match r {
            Ok((key, path)) => key_and_path(s@) == Ok::<_, FilterError>((key@, path@)),
            Err(e) => key_and_path(s@) == Err::<(Seq<char>, Seq<char>), _>(e),
        },
{
    match split_text_once(s, '=') {
        None => Err(FilterError::NotKeyAndPath),
        Some((key, path)) => if key.as_str().is_empty() {
            Err(FilterError::EmptyKey)
        } else if path.as_str().is_empty() {
            Err(FilterError::EmptyPath)
        } else {
            Ok((key, path))
        },
    }
}

/// A set of values that a field may have.
pub struct ValueSet {
    values: StringHashSet,
}

impl View for ValueSet {
    type V = Set<Seq<char>>;

    closed spec fn view(&self) -> Set<Seq<char>> {
        self.values@
    }
}

impl ValueSet {
    /// The number of distinct values.
    pub fn len(&self) -> (r: usize)
        ensures
            r == self@.len(),
    {
        self.values.len()
    }

    /// Whether the set holds the value.
    pub fn contains(&self, value: &str) -> (r: bool)
        ensures
            r == self@.contains(value@),
    {
        self.values.contains(value)
    }
}

/// The values of a filter file: its lines without surrounding white space, but for
/// those that are then empty.
pub open spec fn filter_values(lines: Seq<Seq<char>>) -> Set<Seq<char>> {
    Set::new(
        |value: Seq<char>|
            value.len() > 0 && exists|i: int|
                0 <= i < lines.len() && trim(#[trigger] lines[i]) == value,
    )
}

/// Collects the lines of a filter file into a set, one value per line.
/// Blank lines and lines that become empty after trimming are skipped.
pub fn load_filter_set(lines: &[String]) -> (r: ValueSet)
    ensures
        r@ == filter_values(texts(lines@)),
{
    let mut set = ValueSet { values: StringHashSet::new() };
    let ghost all = texts(lines@);
    proof {
        assert(filter_values(all.take(0)) =~= Set::empty());
    }
    let mut i: usize = 0;
    while i < lines.len()
        invariant
            i <= lines.len(),
            all == texts(lines@),
            set@ == filter_values(all.take(i as int)),
        decreases lines.len() - i,
    {
        let value = trim_text(lines[i].as_str());
        proof {
            lemma_one_more_line(all, i as int);
            assert(all[i as int] == lines@[i as int]@);
        }
        if !value.as_str().is_empty() {
            set.values.insert(value);
        }
        i += 1;
    }
    proof {
        assert(all.take(i as int) =~= all);
    }
    set
}

proof fn lemma_one_more_line(lines: Seq<Seq<char>>, i: int)
    requires
        0 <= i < lines.len(),
    ensures
        filter_values(lines.take(i + 1)) == if trim(lines[i]).len() > 0 {
            filter_values(lines.take(i)).insert(trim(lines[i]))
        } else {
            filter_values(lines.take(i))
        },
{
    let before = lines.take(i);
    let after = lines.take(i + 1);
    let expected = if trim(lines[i]).len() > 0 {
        filter_values(before).insert(trim(lines[i]))
    } else {
        filter_values(before)
    };
    assert forall|v: Seq<char>| filter_values(after).contains(v) == expected.contains(v) by {
        if filter_values(after).contains(v) {
            let j = choose|j: int| 0 <= j < after.len() && trim(#[trigger] after[j]) == v;
            if j < i {
                assert(before[j] == after[j]);
            }
        }
        if filter_values(before).contains(v) {
            let j = choose|j: int| 0 <= j < before.len() && trim(#[trigger] before[j]) == v;
            assert(after[j] == before[j]);
        }
        assert(after[i] == lines[i]);
    }
    assert(filter_values(after) =~= expected);
}

/// A key without `=` and any value are read back from the argument that they make.
pub proof fn law_filter_arguments_are_read_back(key: Seq<char>, value: Seq<char>)
    requires
        !key.contains('='),
    ensures
        split_once(key + seq!['='] + value, '=') == Some((key, value)),
        key_and_value(key + seq!['='] + value) == Ok::<_, FilterError>((key, value)),
        key.len() > 0 && value.len() > 0 ==> key_and_path(key + seq!['='] + value) == Ok::<
            _,
            FilterError,
        >((key, value)),
{
    law_sides_are_read_back(key, value, '=');
}

/// A line that is blank adds no value to a filter, wherever it stands.
pub proof fn law_blank_lines_are_ignored(
    before: Seq<Seq<char>>,
    blank: Seq<char>,
    after: Seq<Seq<char>>,
)
    requires
        trim(blank).len() == 0,
    ensures
        filter_values(before + seq![blank] + after) == filter_values(before + after),
{
    let with = before + seq![blank] + after;
    let without = before + after;
    let n = before.len() as int;
    assert(with[n] == blank);
    assert forall|v: Seq<char>| filter_values(with).contains(v) == filter_values(without).contains(
        v,
    ) by {
        if filter_values(with).contains(v) {
            let j = choose|j: int| 0 <= j < with.len() && trim(#[trigger] with[j]) == v;
            if j < n {
                assert(without[j] == with[j]);
            } else {
                assert(without[j - 1] == with[j]);
            }
        }
        if filter_values(without).contains(v) {
            let j = choose|j: int| 0 <= j < without.len() && trim(#[trigger] without[j]) == v;
            if j < n {
                assert(with[j] == without[j]);
            } else {
                assert(with[j + 1] == without[j]);
            }
        }
    }
    assert(filter_values(with) =~= filter_values(without));
}

/// White space around a value does not matter, and no value of a filter is empty or has
/// white space around it.
pub proof fn law_surrounding_white_space_is_ignored(lines: Seq<Seq<char>>)
    ensures
        filter_values(lines.map_values(|line: Seq<char>| trim(line))) == filter_values(lines),
        forall|v: Seq<char>| #[trigger]
            filter_values(lines).contains(v) ==> v.len() > 0 && trim(v) == v,
{
    let trimmed = lines.map_values(|line: Seq<char>| trim(line));
    assert forall|v: Seq<char>|
        filter_values(trimmed).contains(v) == filter_values(lines).contains(v) by {
        if filter_values(trimmed).contains(v) {
            let j = choose|j: int| 0 <= j < trimmed.len() && trim(#[trigger] trimmed[j]) == v;
            law_trimmed_text_stays(lines[j]);
            assert(trim(lines[j]) == v);
        }
        if filter_values(lines).contains(v) {
            let j = choose|j: int| 0 <= j < lines.len() && trim(#[trigger] lines[j]) == v;
            law_trimmed_text_stays(lines[j]);
            assert(trim(trimmed[j]) == v);
        }
    }
    assert(filter_values(trimmed) =~= filter_values(lines));
    assert forall|v: Seq<char>| #[trigger] filter_values(lines).contains(v) implies v.len() > 0
        && trim(v) == v by {
        let j = choose|j: int| 0 <= j < lines.len() && trim(#[trigger] lines[j]) == v;
        law_trimmed_text_stays(lines[j]);
    }
}

/// Each line that is not blank gives its text without the white space around it to the
/// filter, and every value of the filter comes from such a line.
pub proof fn law_values_come_from_the_lines(lines: Seq<Seq<char>>, v: Seq<char>, i: int)
    requires
        0 <= i < lines.len(),
    ensures
        trim(lines[i]).len() > 0 ==> filter_values(lines).contains(trim(lines[i])),
        filter_values(lines).contains(v) ==> v.len() > 0 && exists|j: int|
            0 <= j < lines.len() && trim(#[trigger] lines[j]) == v,
        !filter_values(Seq::empty()).contains(v),
{
    assert(trim(lines[i]) == trim(lines[i]));
}

/// The values of two files together are those of the one and those of the other.
pub proof fn law_files_add_up(a: Seq<Seq<char>>, b: Seq<Seq<char>>)
    ensures
        filter_values(a + b) == filter_values(a).union(filter_values(b)),
{
    let all = a + b;
    assert forall|v: Seq<char>| filter_values(all).contains(v) == (filter_values(a).contains(v)
        || filter_values(b).contains(v)) by {
        if filter_values(all).contains(v) {
            let j = choose|j: int| 0 <= j < all.len() && trim(#[trigger] all[j]) == v;
            if j < a.len() {
                assert(a[j] == all[j]);
            } else {
                assert(b[j - a.len()] == all[j]);
            }
        }
        if filter_values(a).contains(v) {
            let j = choose|j: int| 0 <= j < a.len() && trim(#[trigger] a[j]) == v;
            assert(all[j] == a[j]);
        }
        if filter_values(b).contains(v) {
            let j = choose|j: int| 0 <= j < b.len() && trim(#[trigger] b[j]) == v;
            assert(all[j + a.len()] == b[j]);
        }
    }
    assert(filter_values(all) =~= filter_values(a).union(filter_values(b)));
}

/// An argument of a set filter is refused exactly where it has no `=`, or nothing stands
/// before the first one, or nothing behind it; each with an error of its own, the key
/// before the path.
pub proof fn law_faulty_set_filters_are_refused(key: Seq<char>, path: Seq<char>)
    requires
        !key.contains('='),
    ensures
        key_and_path(key) == Err::<(Seq<char>, Seq<char>), _>(FilterError::NotKeyAndPath),
        key_and_path(seq!['='] + path) == Err::<(Seq<char>, Seq<char>), _>(FilterError::EmptyKey),
        key.len() > 0 ==> key_and_path(key + seq!['=']) == Err::<(Seq<char>, Seq<char>), _>(
            FilterError::EmptyPath,
        ),
        split_once(key, '=') is None,
{
    law_text_without_separator_is_one_part(key, '=');
    law_sides_are_read_back(Seq::empty(), path, '=');
    assert(Seq::<char>::empty() + seq!['='] + path =~= seq!['='] + path);
    law_sides_are_read_back(key, Seq::empty(), '=');
    assert(key + seq!['='] + Seq::<char>::empty() =~= key + seq!['=']);
}

/// An argument without `=` is refused, and no other `key=value` argument is: the key and
/// the value of one with `=` may be empty, and make the argument again.
pub proof fn law_filters_without_a_value_are_refused(s: Seq<char>)
    ensures
        !s.contains('=') ==> key_and_value(s) == Err::<(Seq<char>, Seq<char>), _>(
            FilterError::NotKeyAndValue,
        ),
        s.contains('=') ==> (key_and_value(s) matches Ok((key, value)) && !key.contains('=') && key
            + seq!['='] + value == s),
{
    if s.contains('=') {
        law_first_separator_cuts(s, '=');
    } else {
        law_text_without_separator_is_one_part(s, '=');
    }
}

/// Each fault of an argument has words of its own.
pub proof fn law_faults_are_told_in_words()
    ensures
        FilterError::NotKeyAndValue.text() == "--filter must be in the form key=value"@,
        FilterError::NotKeyAndPath.text() == "--filter-in must be in the form key=path/to/file"@,
        FilterError::EmptyKey.text() == "--filter-in key cannot be empty"@,
        FilterError::EmptyPath.text() == "--filter-in path cannot be empty"@,
{
}

} // verus!
