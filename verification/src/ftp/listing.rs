//! Parsing of `LIST` output lines, which are assumed to be in the Unix
//! `ls -l` style: permissions, link count, owner, group, size and date in
//! the first eight whitespace-separated fields, the name from field index
//! 8 onward.

use vstd::prelude::*;

use crate::chars::{is_space_char, is_whitespace_char, view_strings};

verus! {

broadcast use vstd::seq::group_seq_axioms;

/// The position of the first white-space character, or the length when
/// there is none.
pub open spec fn first_space_index(s: Seq<char>) -> int
    decreases s.len(),
{
    if s.len() == 0 {
        0
    } else if is_space_char(s[0]) {
        0
    } else {
        1 + first_space_index(s.drop_first())
    }
}

/// `first_space_index` lands on the first white-space character.
pub proof fn lemma_first_space_index(s: Seq<char>)
    ensures
        0 <= first_space_index(s) <= s.len(),
        forall|j: int| 0 <= j < first_space_index(s) ==> !is_space_char(#[trigger] s[j]),
        first_space_index(s) < s.len() ==> is_space_char(s[first_space_index(s)]),
    decreases s.len(),
{
    if s.len() > 0 && !is_space_char(s[0]) {
        lemma_first_space_index(s.drop_first());
        assert forall|j: int| 0 <= j < first_space_index(s) implies !is_space_char(
            #[trigger] s[j],
        ) by {
            if j > 0 {
                assert(s.drop_first()[j - 1] == s[j]);
            }
        }
    }
}

/// A position before which everything is non-space and which is the end
/// or a space is `first_space_index`.
pub proof fn lemma_first_space_index_is(s: Seq<char>, k: int)
    requires
        0 <= k <= s.len(),
        forall|j: int| 0 <= j < k ==> !is_space_char(#[trigger] s[j]),
        k < s.len() ==> is_space_char(s[k]),
    ensures
        first_space_index(s) == k,
    decreases s.len(),
{
    if s.len() > 0 && !is_space_char(s[0]) {
        assert(forall|j: int| 0 <= j < k - 1 ==> !is_space_char(#[trigger] s.drop_first()[j]));
        lemma_first_space_index_is(s.drop_first(), k - 1);
    }
}

/// The whitespace-separated fields of a line: maximal runs of non-space
/// characters, in order.
pub open spec fn spec_fields(s: Seq<char>) -> Seq<Seq<char>>
    decreases s.len(),
    via spec_fields_decreases
{
    if s.len() == 0 {
        Seq::empty()
    } else if is_space_char(s[0]) {
        spec_fields(s.drop_first())
    } else {
        seq![s.subrange(0, first_space_index(s))] + spec_fields(
            s.subrange(first_space_index(s), s.len() as int),
        )
    }
}

#[via_fn]
proof fn spec_fields_decreases(s: Seq<char>) {
    lemma_first_space_index(s);
    if s.len() > 0 && !is_space_char(s[0]) {
        assert(first_space_index(s) >= 1);
    }
}

/// The fields joined with a single space.
pub open spec fn spec_join_space(parts: Seq<Seq<char>>) -> Seq<char>
    decreases parts.len(),
{
    if parts.len() == 0 {
        Seq::empty()
    } else if parts.len() == 1 {
        parts[0]
    } else {
        parts[0] + seq![' '] + spec_join_space(parts.drop_first())
    }
}

/// The name a listing line yields: the space-joined fields from index 8
/// onward, or the empty string on a line of fewer than 9 fields.
pub open spec fn spec_parse_filename(line: Seq<char>) -> Seq<char> {
    if spec_fields(line).len() < 9 {
        Seq::empty()
    } else {
        spec_join_space(spec_fields(line).skip(8))
    }
}

/// A listing line describes a directory exactly when its first character
/// is `d`.
pub open spec fn spec_is_directory(line: Seq<char>) -> bool {
    line.len() > 0 && line[0] == 'd'
}

/// Classifies a listing line: a directory exactly when the line starts
/// with `d`.
pub fn is_directory(line: &str) -> (r: bool)
    ensures
        r == spec_is_directory(line@),
{
    line.unicode_len() > 0 && line.get_char(0) == 'd'
}

/// Splits a line into its whitespace-separated fields.
pub fn split_fields(s: &str) -> (r: Vec<String>)
    ensures
        view_strings(r@) == spec_fields(s@),
    decreases s@.len(),
{
    let n = s.unicode_len();
    let mut start: usize = 0;
    proof {
        assert(s@.subrange(0, n as int) =~= s@);
    }
    while start < n && is_whitespace_char(s.get_char(start))
        invariant
            0 <= start <= n,
            n == s@.len(),
            spec_fields(s@) == spec_fields(s@.subrange(start as int, n as int)),
        decreases n - start,
    {
        proof {
            let t = s@.subrange(start as int, n as int);
            assert(t[0] == s@[start as int]);
            assert(t.drop_first() =~= s@.subrange(start + 1, n as int));
        }
        start = start + 1;
    }
    if start == n {
        proof {
            assert(s@.subrange(start as int, n as int).len() == 0);
        }
        return Vec::new();
    }
    let mut end = start;
    while end < n && !is_whitespace_char(s.get_char(end))
        invariant
            start <= end <= n,
            n == s@.len(),
            forall|j: int| start <= j < end ==> !is_space_char(#[trigger] s@[j]),
        decreases n - end,
    {
        end = end + 1;
    }
    let field = String::from_str(s.substring_char(start, end));
    let tail = s.substring_char(end, n);
    let mut rest = split_fields(tail);
    let mut r: Vec<String> = Vec::new();
    r.push(field);
    r.append(&mut rest);
    proof {
        let t = s@.subrange(start as int, n as int);
        assert(forall|j: int| 0 <= j < end - start ==> !is_space_char(#[trigger] t[j]));
        assert(end - start < t.len() ==> is_space_char(t[end - start]));
        lemma_first_space_index_is(t, end - start);
        assert(!is_space_char(t[0]));
        assert(t.subrange(0, end - start) =~= s@.subrange(start as int, end as int));
        assert(t.subrange(end - start, t.len() as int) =~= s@.subrange(end as int, n as int));
        assert(tail@ == s@.subrange(end as int, n as int));
        assert(view_strings(r@) =~= spec_fields(s@));
    }
    r
}

/// Joins the fields from index `from` onward with single spaces.
fn join_from(parts: &Vec<String>, from: usize) -> (r: String)
    requires
        from <= parts@.len(),
    ensures
        r@ == spec_join_space(view_strings(parts@).skip(from as int)),
{
    let ghost all = view_strings(parts@);
    let mut r = String::new();
    let mut i = from;
    while i < parts.len()
        invariant
            from <= i <= parts@.len(),
            all == view_strings(parts@),
            i == from ==> r@ =~= Seq::<char>::empty(),
            i > from && i < parts@.len() ==> spec_join_space(all.skip(from as int)) == r@
                + seq![' '] + spec_join_space(all.skip(i as int)),
            i > from && i == parts@.len() ==> spec_join_space(all.skip(from as int)) == r@,
        decreases parts@.len() - i,
    {
        if i > from {
            r.append(" ");
            proof {
                reveal_strlit(" ");
                assert(" "@ =~= seq![' ']);
            }
        }
        r.append(parts[i].as_str());
        proof {
            let sk = all.skip(i as int);
            assert(sk[0] == parts@[i as int]@);
            assert(sk.drop_first() =~= all.skip(i + 1));
            if i == from {
                if i + 1 == parts@.len() {
                    assert(spec_join_space(sk) == sk[0]);
                } else {
                    assert(spec_join_space(sk) == sk[0] + seq![' '] + spec_join_space(
                        all.skip(i + 1),
                    ));
                }
            }
        }
        i = i + 1;
    }
    proof {
        if from == parts@.len() {
            assert(all.skip(from as int).len() == 0);
        }
    }
    r
}

/// Parses the node name from a listing line: the fields from index 8
/// onward, space-joined; the empty string when the line has fewer than 9
/// fields.
pub fn parse_filename(line: &str) -> (r: String)
    ensures
        r@ == spec_parse_filename(line@),
{
    let parts = split_fields(line);
    if parts.len() < 9 {
        String::new()
    } else {
        join_from(&parts, 8)
    }
}

} // verus!
