use vstd::prelude::*;
use vstd::string::StrSliceExecFns;
use vstd::string::StringExecFns;

verus! {

/// The index of the first line feed at or after `from`, or the length of
/// `s` where there is none.
pub open spec fn line_end(s: Seq<char>, from: int) -> int
    decreases s.len() - from,
{
    if from < 0 || from >= s.len() {
        s.len() as int
    } else if s[from] == '\n' {
        from
    } else {
        line_end(s, from + 1)
    }
}

/// Where the text of the line from `start` to `end` stops: a carriage
/// return just before the line feed that ends the line is not part of it (a
/// last line with no line feed keeps all of its characters).
pub open spec fn content_end(s: Seq<char>, start: int, end: int) -> int {
    if start < end && end < s.len() && s[end - 1] == '\r' {
        end - 1
    } else {
        end
    }
}

/// The index of the first `": "` that lies wholly in `[from, to)`, or `to`
/// where there is none.
pub open spec fn find_separator(s: Seq<char>, from: int, to: int) -> int
    decreases to - from,
{
    if from + 1 >= to {
        to
    } else if s[from] == ':' && s[from + 1] == ' ' {
        from
    } else {
        find_separator(s, from + 1, to)
    }
}

/// Whether the text from `start` to `stop` starts with `key`.
pub open spec fn starts_with_key(s: Seq<char>, start: int, stop: int, key: Seq<char>) -> bool {
    stop - start >= key.len() && s.subrange(start, start + key.len()) == key
}

pub proof fn lemma_line_end_bounds(s: Seq<char>, from: int)
    requires
        0 <= from <= s.len(),
    ensures
        from <= line_end(s, from) <= s.len(),
    decreases s.len() - from,
{
    if from < s.len() && s[from] != '\n' {
        lemma_line_end_bounds(s, from + 1);
    }
}

/// The bounds of the value of the last line, from `start` on, that starts
/// with `key`: the text between the first `": "` of that line and the next
/// one (or the end of the line).
pub open spec fn header_value_from(s: Seq<char>, key: Seq<char>, start: int) -> Option<(int, int)>
    decreases s.len() + 1 - start,
{
    if start < 0 || start >= s.len() {
        None
    } else {
        let end = line_end(s, start);
        let stop = content_end(s, start, end);
        proof {
            lemma_line_end_bounds(s, start);
        }
        let later = header_value_from(s, key, end + 1);
        if later is Some {
            later
        } else if starts_with_key(s, start, stop, key) {
            let sep = find_separator(s, start, stop);
            Some((sep + 2, find_separator(s, sep + 2, stop)))
        } else {
            None
        }
    }
}

pub proof fn lemma_find_separator_bounds(s: Seq<char>, from: int, to: int)
    requires
        from <= to,
    ensures
        from <= find_separator(s, from, to) <= to,
        find_separator(s, from, to) < to ==> find_separator(s, from, to) + 2 <= to,
    decreases to - from,
{
    if from + 1 < to && !(s[from] == ':' && s[from + 1] == ' ') {
        lemma_find_separator_bounds(s, from + 1, to);
    }
}

/// The value found from `start` on lies within `s`.
pub proof fn lemma_header_value_bounds(s: Seq<char>, key: Seq<char>, start: int)
    requires
        0 <= start,
        header_lines_well_formed_from(s, key, start),
    ensures
        header_value_from(s, key, start) matches Some((from, to)) ==> 0 <= from <= to <= s.len(),
    decreases s.len() + 1 - start,
{
    if start < s.len() {
        let end = line_end(s, start);
        let stop = content_end(s, start, end);
        lemma_line_end_bounds(s, start);
        lemma_header_value_bounds(s, key, end + 1);
        if header_value_from(s, key, end + 1) is None && starts_with_key(s, start, stop, key) {
            let sep = find_separator(s, start, stop);
            lemma_find_separator_bounds(s, start, stop);
            if sep + 2 <= stop {
                lemma_find_separator_bounds(s, sep + 2, stop);
            }
        }
    }
}

/// Whether every line from `start` on that starts with `key` holds a `": "`.
pub open spec fn header_lines_well_formed_from(s: Seq<char>, key: Seq<char>, start: int) -> bool
    decreases s.len() + 1 - start,
{
    if start < 0 || start >= s.len() {
        true
    } else {
        let end = line_end(s, start);
        let stop = content_end(s, start, end);
        proof {
            lemma_line_end_bounds(s, start);
        }
        (starts_with_key(s, start, stop, key) ==> find_separator(s, start, stop) < stop)
            && header_lines_well_formed_from(s, key, end + 1)
    }
}

/// Whether every line of `headers` that starts with `key` holds a `": "`,
/// so that its value can be read.
pub open spec fn header_lines_well_formed(headers: Seq<char>, key: Seq<char>) -> bool {
    header_lines_well_formed_from(headers, key, 0)
}

/// The value of `key` in `headers`: lines are separated by line feeds (a
/// carriage return before a line feed is dropped); of the lines that start
/// with `key` the last one counts, and its value is the text between its
/// first `": "` and the next one, or the end of the line.
pub open spec fn spec_header_value(headers: Seq<char>, key: Seq<char>) -> Option<Seq<char>> {
    match header_value_from(headers, key, 0) {
        None => None,
        Some((from, to)) => Some(headers.subrange(from, to)),
    }
}

/// The characters of `s`.
fn chars_of(s: &str) -> (chars: Vec<char>)
    ensures
        chars@ == s@,
{
    let n = s.unicode_len();
    let mut chars: Vec<char> = Vec::new();
    let mut i: usize = 0;
    while i < n
        invariant
            n == s@.len(),
            i <= n,
            chars@ =~= s@.subrange(0, i as int),
        decreases n - i,
    {
        chars.push(s.get_char(i));
        i = i + 1;
    }
    chars
}

fn exec_line_end(s: &Vec<char>, from: usize) -> (end: usize)
    requires
        from <= s@.len(),
    ensures
        end == line_end(s@, from as int),
{
    let mut k = from;
    while k < s.len() && s[k] != '\n'
        invariant
            from <= k <= s@.len(),
            line_end(s@, from as int) == line_end(s@, k as int),
        decreases s@.len() - k,
    {
        k = k + 1;
    }
    k
}

fn exec_find_separator(s: &Vec<char>, from: usize, to: usize) -> (sep: usize)
    requires
        from <= to <= s@.len(),
    ensures
        sep == find_separator(s@, from as int, to as int),
{
    let mut k = from;
    while to - k > 1 && !(s[k] == ':' && s[k + 1] == ' ')
        invariant
            from <= k <= to,
            to <= s@.len(),
            find_separator(s@, from as int, to as int) == find_separator(s@, k as int, to as int),
        decreases to - k,
    {
        k = k + 1;
    }
    if to - k > 1 {
        k
    } else {
        to
    }
}

fn exec_starts_with(s: &Vec<char>, start: usize, stop: usize, key: &Vec<char>) -> (b: bool)
    requires
        start <= stop <= s@.len(),
    ensures
        b == starts_with_key(s@, start as int, stop as int, key@),
{
    if stop - start < key.len() {
        return false;
    }
    let mut j: usize = 0;
    while j < key.len()
        invariant
            start + key@.len() <= stop <= s@.len(),
            j <= key@.len(),
            s@.subrange(start as int, start + j) =~= key@.subrange(0, j as int),
        decreases key@.len() - j,
    {
        if s[start + j] != key[j] {
            assert(s@.subrange(start as int, start + key@.len())[j as int] != key@[j as int]);
            return false;
        }
        j = j + 1;
    }
    assert(key@.subrange(0, key@.len() as int) =~= key@);
    true
}

/// Finds the bounds of the value of `key`, or `None` where a line that
/// starts with `key` has no `": "`.
fn scan_header(s: &Vec<char>, key: &Vec<char>) -> (found: Option<Option<(usize, usize)>>)
    ensures
        found is None <==> !header_lines_well_formed(s@, key@),
        found matches Some(value) ==> match header_value_from(s@, key@, 0) {
            None => value is None,
            Some((from, to)) => value == Some((from as usize, to as usize)),
        },
{
    let n = s.len();
    let mut start: usize = 0;
    let mut value: Option<(usize, usize)> = None;
    while start < n
        invariant
            n == s@.len(),
            start <= n,
            header_lines_well_formed(s@, key@) == header_lines_well_formed_from(
                s@,
                key@,
                start as int,
            ),
            header_value_from(s@, key@, 0) == (match header_value_from(s@, key@, start as int) {
                Some(later) => Some(later),
                None => match value {
                    None => None,
                    Some((from, to)) => Some((from as int, to as int)),
                },
            }),
        decreases n - start,
    {
        let end = exec_line_end(s, start);
        proof {
            lemma_line_end_bounds(s@, start as int);
        }
        let stop = if start < end && end < n && s[end - 1] == '\r' {
            end - 1
        } else {
            end
        };
        proof {
            lemma_find_separator_bounds(s@, start as int, stop as int);
        }
        if exec_starts_with(s, start, stop, key) {
            let sep = exec_find_separator(s, start, stop);
            if sep == stop {
                return None;
            }
            proof {
                lemma_find_separator_bounds(s@, sep + 2, stop as int);
            }
            let value_end = exec_find_separator(s, sep + 2, stop);
            value = Some((sep + 2, value_end));
        }
        let ghost old_start = start;
        if end < n {
            start = end + 1;
        } else {
            start = n;
        }
        assert(header_lines_well_formed_from(s@, key@, old_start as int) == ((starts_with_key(
            s@,
            old_start as int,
            stop as int,
            key@,
        ) ==> find_separator(s@, old_start as int, stop as int) < stop)
            && header_lines_well_formed_from(s@, key@, end + 1)));
        assert(header_lines_well_formed_from(s@, key@, end + 1) == header_lines_well_formed_from(
            s@,
            key@,
            start as int,
        ));
        assert(header_value_from(s@, key@, end + 1) == header_value_from(s@, key@, start as int));
        assert(header_value_from(s@, key@, old_start as int) == (if header_value_from(
            s@,
            key@,
            end + 1,
        ) is Some {
            header_value_from(s@, key@, end + 1)
        } else if starts_with_key(s@, old_start as int, stop as int, key@) {
            let sep = find_separator(s@, old_start as int, stop as int);
            Some((sep + 2, find_separator(s@, sep + 2, stop as int)))
        } else {
            None
        }));
    }
    Some(value)
}

/// Whether every line of `headers` that starts with `key` holds a `": "`.
pub fn header_lines_are_well_formed(headers: &str, key: &str) -> (b: bool)
    ensures
        b == header_lines_well_formed(headers@, key@),
{
    let s = chars_of(headers);
    let k = chars_of(key);
    scan_header(&s, &k).is_some()
}

/// Reads the value of `key` from the header lines in `headers`: the text
/// after the first `": "` of the last line that starts with `key`, up to the
/// next `": "` or the end of the line.
pub fn get_header_value(headers: &str, key: &str) -> (value: Result<String, String>)
    requires
        header_lines_well_formed(headers@, key@),
    ensures
        match spec_header_value(headers@, key@) {
            None => value matches Err(e) && e@ == "Header not found"@,
            Some(v) => value matches Ok(found) && found@ == v,
        },
{
    let s = chars_of(headers);
    let k = chars_of(key);
    match scan_header(&s, &k) {
        Some(Some((from, to))) => {
            proof {
                lemma_header_value_bounds(s@, k@, 0);
            assert(headers@ == s@);
            }
            Ok(headers.substring_char(from, to).to_owned())
        },
        _ => Err(String::from_str("Header not found")),
    }
}

} // verus!
