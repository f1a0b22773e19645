//! Character classes and decimal-number parsing over character sequences.

use vstd::prelude::*;

verus! {

broadcast use vstd::seq::group_seq_axioms;

/// The Unicode white-space class, the one `char::is_whitespace`
/// recognises.
pub open spec fn is_space_char(c: char) -> bool {
    let u = c as u32;
    u == 0x09 || u == 0x0A || u == 0x0B || u == 0x0C || u == 0x0D || u == 0x20 || u == 0x85
        || u == 0xA0 || u == 0x1680 || (0x2000 <= u && u <= 0x200A) || u == 0x2028 || u == 0x2029
        || u == 0x202F || u == 0x205F || u == 0x3000
}

/// Decides `is_space_char`.
pub fn is_whitespace_char(c: char) -> (r: bool)
    ensures
        r == is_space_char(c),
{
    let u = c as u32;
    u == 0x09 || u == 0x0A || u == 0x0B || u == 0x0C || u == 0x0D || u == 0x20 || u == 0x85
        || u == 0xA0 || u == 0x1680 || (0x2000 <= u && u <= 0x200A) || u == 0x2028 || u == 0x2029
        || u == 0x202F || u == 0x205F || u == 0x3000
}

/// The sequence with its trailing white space removed, as `str::trim_end`
/// leaves it.
pub open spec fn spec_trim_end(s: Seq<char>) -> Seq<char>
    decreases s.len(),
{
    if s.len() == 0 {
        s
    } else if is_space_char(s.last()) {
        spec_trim_end(s.drop_last())
    } else {
        s
    }
}

/// Removes trailing white space.
pub fn trim_end_str(line: &str) -> (r: String)
    ensures
        r@ == spec_trim_end(line@),
{
    let n = line.unicode_len();
    proof {
        assert(line@.subrange(0, n as int) =~= line@);
    }
    let mut end = n;
    while end > 0 && is_whitespace_char(line.get_char(end - 1))
        invariant
            0 <= end <= n,
            n == line@.len(),
            spec_trim_end(line@) == spec_trim_end(line@.subrange(0, end as int)),
        decreases end,
    {
        proof {
            let p = line@.subrange(0, end as int);
            assert(p.drop_last() =~= line@.subrange(0, end - 1));
        }
        end = end - 1;
    }
    proof {
        assert(line@.subrange(0, n as int) =~= line@);
        if end > 0 {
            assert(spec_trim_end(line@.subrange(0, end as int)) == line@.subrange(0, end as int));
        }
    }
    String::from_str(line.substring_char(0, end))
}

/// An ASCII decimal digit.
pub open spec fn is_digit_char(c: char) -> bool {
    0x30 <= c as u32 && c as u32 <= 0x39
}

/// The value of an ASCII decimal digit.
pub open spec fn digit_val(c: char) -> int {
    c as u32 - 0x30
}

/// Every character of the sequence is an ASCII decimal digit.
pub open spec fn all_digits(s: Seq<char>) -> bool {
    forall|i: int| 0 <= i < s.len() ==> is_digit_char(s[i])
}

/// The value of a sequence of decimal digits, most significant first.
pub open spec fn spec_dec_value(s: Seq<char>) -> int
    decreases s.len(),
{
    if s.len() == 0 {
        0
    } else {
        spec_dec_value(s.drop_last()) * 10 + digit_val(s.last())
    }
}

/// What `str::parse` for an unsigned integer type accepts, before any
/// range check: an optional leading `+`, then one or more decimal digits.
/// `None` for anything else.
pub open spec fn spec_parse_uint(s: Seq<char>) -> Option<int> {
    let body = if s.len() > 0 && s[0] == '+' {
        s.drop_first()
    } else {
        s
    };
    if body.len() > 0 && all_digits(body) {
        Some(spec_dec_value(body))
    } else {
        None
    }
}

/// `spec_parse_uint` with the range check of a bounded integer type:
/// a number above `max` is rejected.
pub open spec fn spec_parse_uint_capped(s: Seq<char>, max: u32) -> Option<u32> {
    match spec_parse_uint(s) {
        Some(v) => if 0 <= v && v <= max {
            Some(v as u32)
        } else {
            None
        },
        None => None,
    }
}

/// The character sequences of a sequence of strings.
pub open spec fn view_strings(parts: Seq<String>) -> Seq<Seq<char>> {
    Seq::new(parts.len(), |i: int| parts[i]@)
}

/// The position of the first occurrence of `c`, or the length when there
/// is none.
pub open spec fn first_index_of(s: Seq<char>, c: char) -> int
    decreases s.len(),
{
    if s.len() == 0 {
        0
    } else if s[0] == c {
        0
    } else {
        1 + first_index_of(s.drop_first(), c)
    }
}

/// `first_index_of` lands on the first occurrence of `c`.
pub proof fn lemma_first_index_of(s: Seq<char>, c: char)
    ensures
        0 <= first_index_of(s, c) <= s.len(),
        forall|j: int| 0 <= j < first_index_of(s, c) ==> s[j] != c,
        first_index_of(s, c) < s.len() ==> s[first_index_of(s, c)] == c,
    decreases s.len(),
{
    if s.len() > 0 && s[0] != c {
        lemma_first_index_of(s.drop_first(), c);
        assert forall|j: int| 0 <= j < first_index_of(s, c) implies s[j] != c by {
            if j > 0 {
                assert(s.drop_first()[j - 1] == s[j]);
            }
        }
    }
}

/// A position before which `c` does not occur and which is the end or an
/// occurrence of `c` is `first_index_of`.
pub proof fn lemma_first_index_of_is(s: Seq<char>, c: char, k: int)
    requires
        0 <= k <= s.len(),
        forall|j: int| 0 <= j < k ==> s[j] != c,
        k < s.len() ==> s[k] == c,
    ensures
        first_index_of(s, c) == k,
    decreases s.len(),
{
    if s.len() > 0 && s[0] != c {
        assert(forall|j: int| 0 <= j < k - 1 ==> #[trigger] s.drop_first()[j] != c);
        lemma_first_index_of_is(s.drop_first(), c, k - 1);
    }
}

/// The pieces of the sequence between occurrences of the separator, in
/// order, as `str::split` with a character separator yields them: empty
/// pieces are kept, and an empty input yields one empty piece.
pub open spec fn spec_split(s: Seq<char>, c: char) -> Seq<Seq<char>>
    decreases s.len(),
    via spec_split_decreases
{
    let i = first_index_of(s, c);
    if i == s.len() {
        seq![s]
    } else {
        seq![s.subrange(0, i)] + spec_split(s.subrange(i + 1, s.len() as int), c)
    }
}

#[via_fn]
proof fn spec_split_decreases(s: Seq<char>, c: char) {
    lemma_first_index_of(s, c);
}

/// Finds the first occurrence of a character.
pub fn find_char(s: &str, c: char) -> (r: Option<usize>)
    ensures
        first_index_of(s@, c) < s@.len() ==> r == Some(first_index_of(s@, c) as usize),
        first_index_of(s@, c) == s@.len() ==> r is None,
{
    let n = s.unicode_len();
    let mut i: usize = 0;
    while i < n && s.get_char(i) != c
        invariant
            0 <= i <= n,
            n == s@.len(),
            forall|j: int| 0 <= j < i ==> s@[j] != c,
        decreases n - i,
    {
        i = i + 1;
    }
    proof {
        lemma_first_index_of_is(s@, c, i as int);
    }
    if i == n {
        None
    } else {
        Some(i)
    }
}

/// Splits the string on every occurrence of the separator, keeping empty
/// pieces.
pub fn split_on(s: &str, c: char) -> (r: Vec<String>)
    ensures
        view_strings(r@) == spec_split(s@, c),
    decreases s@.len(),
{
    let n = s.unicode_len();
    let mut i: usize = 0;
    while i < n && s.get_char(i) != c
        invariant
            0 <= i <= n,
            n == s@.len(),
            forall|j: int| 0 <= j < i ==> s@[j] != c,
        decreases n - i,
    {
        i = i + 1;
    }
    proof {
        lemma_first_index_of_is(s@, c, i as int);
    }
    if i == n {
        let mut r: Vec<String> = Vec::new();
        r.push(String::from_str(s));
        proof {
            assert(view_strings(r@) =~= spec_split(s@, c));
        }
        r
    } else {
        let piece = String::from_str(s.substring_char(0, i));
        let tail = s.substring_char(i + 1, n);
        let mut rest = split_on(tail, c);
        let mut r: Vec<String> = Vec::new();
        r.push(piece);
        r.append(&mut rest);
        proof {
            assert(tail@ == s@.subrange(i + 1, n as int));
            assert(view_strings(r@) =~= spec_split(s@, c));
        }
        r
    }
}

/// Parses an unsigned decimal number of at most `max`, as `str::parse`
/// does for a bounded unsigned type: an optional leading `+`, then one or
/// more digits, rejected when the value is above `max`.
pub fn parse_uint_capped(s: &str, max: u32) -> (r: Option<u32>)
    requires
        max <= 0xFFFF,
    ensures
        r == spec_parse_uint_capped(s@, max),
{
    let n = s.unicode_len();
    let start: usize = if n > 0 && s.get_char(0) == '+' {
        1
    } else {
        0
    };
    let ghost body = if start == 1 { s@.drop_first() } else { s@ };
    if n == start {
        return None;
    }
    let mut acc: u32 = 0;
    let mut over = false;
    let mut i: usize = start;
    while i < n
        invariant
            start == 0 || start == 1,
            start <= i <= n,
            n == s@.len(),
            start == 1 ==> s@.len() > 0 && s@[0] == '+',
            start == 0 ==> !(s@.len() > 0 && s@[0] == '+'),
            start == 1 ==> body == s@.drop_first(),
            start == 0 ==> body == s@,
            max <= 0xFFFF,
            all_digits(s@.subrange(start as int, i as int)),
            !over ==> acc <= max && acc == spec_dec_value(s@.subrange(start as int, i as int)),
            over ==> spec_dec_value(s@.subrange(start as int, i as int)) > max,
        decreases n - i,
    {
        let c = s.get_char(i);
        let u = c as u32;
        if u < 0x30 || u > 0x39 {
            proof {
                if start == 1 {
                    assert(body =~= s@.subrange(1, n as int));
                }
                assert(body.len() == n - start);
                assert(body[i - start] == s@[i as int]);
                assert(!is_digit_char(body[i - start]));
                assert(!all_digits(body));
            }
            return None;
        }
        proof {
            let p = s@.subrange(start as int, i as int);
            let q = s@.subrange(start as int, i + 1);
            assert(q.drop_last() =~= p);
            assert(q.last() == s@[i as int]);
            assert(all_digits(q));
        }
        if !over {
            let next = acc * 10 + (u - 0x30);
            if next > max {
                over = true;
            } else {
                acc = next;
            }
        }
        i += 1;
    }
    proof {
        assert(s@.subrange(start as int, n as int) =~= body);
    }
    if over {
        None
    } else {
        Some(acc)
    }
}

} // verus!
