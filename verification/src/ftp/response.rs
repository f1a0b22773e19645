//! Reply framing: turning the lines a connection yields into coded
//! responses, and deciding where a reply closes.
//!
//! A reply line carries a 3-digit numeric code prefix; a missing or short
//! prefix parses as code 0.  A reply is closed by a line whose 4th
//! character is a space: the standard single-line form, or the last line
//! of a multi-line reply.

use vstd::prelude::*;

use crate::chars::{spec_parse_uint_capped, spec_trim_end, trim_end_str};

verus! {

broadcast use vstd::seq::group_seq_axioms;

/// One reply line: its numeric code and its text, trailing whitespace
/// removed.
pub type Response = (u16, String);

/// One logical (possibly multi-line) server reply, in receipt order.
pub type Responses = Vec<Response>;

/// The code-and-text pairs a sequence of responses holds.
pub open spec fn view_responses(r: Seq<(u16, String)>) -> Seq<(u16, Seq<char>)> {
    Seq::new(r.len(), |i: int| (r[i].0, r[i].1@))
}

/// The numeric code of a reply line: its first three characters read as a
/// decimal number, 0 when they are missing or not numeric.
pub open spec fn spec_parse_code(line: Seq<char>) -> u16 {
    if line.len() >= 3 {
        match spec_parse_uint_capped(line.subrange(0, 3), 0xFFFF) {
            Some(v) => v as u16,
            None => 0,
        }
    } else {
        0
    }
}

/// Whether this line closes the reply: its 4th character is a space.
pub open spec fn spec_reply_closed(line: Seq<char>) -> bool {
    line.len() >= 4 && line[3] == ' '
}

/// The response a received line becomes.
pub open spec fn spec_response_of(line: Seq<char>) -> (u16, Seq<char>) {
    (spec_parse_code(line), spec_trim_end(line))
}

/// The responses that reading one reply from the given lines yields:
/// every line up to and including the first closing one, or all of them
/// when none closes.
pub open spec fn spec_read_responses(lines: Seq<Seq<char>>) -> Seq<(u16, Seq<char>)>
    decreases lines.len(),
{
    if lines.len() == 0 {
        Seq::empty()
    } else if spec_reply_closed(lines[0]) {
        seq![spec_response_of(lines[0])]
    } else {
        seq![spec_response_of(lines[0])] + spec_read_responses(lines.drop_first())
    }
}

/// The character sequences of a sequence of lines.
pub open spec fn view_lines(lines: Seq<String>) -> Seq<Seq<char>> {
    Seq::new(lines.len(), |i: int| lines[i]@)
}

/// Parses the numeric code prefix of a reply line.
pub fn parse_code(line: &str) -> (r: u16)
    ensures
        r == spec_parse_code(line@),
{
    if line.unicode_len() >= 3 {
        let prefix = line.substring_char(0, 3);
        match crate::chars::parse_uint_capped(prefix, 0xFFFF) {
            Some(v) => v as u16,
            None => 0,
        }
    } else {
        0
    }
}

/// Decides whether a line closes the reply.
pub fn reply_closed(line: &str) -> (r: bool)
    ensures
        r == spec_reply_closed(line@),
{
    line.unicode_len() >= 4 && line.get_char(3) == ' '
}

/// Appends the response a received line becomes, and reports whether the
/// line closes the reply.
pub fn push_response(responses: &mut Responses, line: &str) -> (closed: bool)
    ensures
        view_responses(final(responses)@) == view_responses(old(responses)@).push(
            spec_response_of(line@),
        ),
        closed == spec_reply_closed(line@),
{
    let code = parse_code(line);
    let text = trim_end_str(line);
    responses.push((code, text));
    proof {
        assert(view_responses(responses@) =~= view_responses(old(responses)@).push(
            spec_response_of(line@),
        ));
    }
    reply_closed(line)
}

/// Reads one reply from the given received lines: consumes lines until
/// one closes the reply, or until the lines run out.
pub fn read_responses_from_lines(lines: &Vec<String>) -> (r: Responses)
    ensures
        view_responses(r@) == spec_read_responses(view_lines(lines@)),
{
    let mut r: Responses = Vec::new();
    let mut i: usize = 0;
    let mut closed = false;
    while i < lines.len() && !closed
        invariant
            0 <= i <= lines@.len(),
            closed ==> i >= 1 && spec_reply_closed(lines@[i - 1]@),
            forall|j: int| 0 <= j < i - 1 ==> !spec_reply_closed(#[trigger] lines@[j]@),
            !closed && i >= 1 ==> !spec_reply_closed(lines@[i - 1]@),
            view_responses(r@) == Seq::new(i as nat, |j: int| spec_response_of(lines@[j]@)),
            closed ==> view_responses(r@) == spec_read_responses(view_lines(lines@)),
        decreases lines@.len() - i,
    {
        let line = &lines[i];
        closed = push_response(&mut r, line.as_str());
        i += 1;
        proof {
            assert(view_responses(r@) =~= Seq::new(i as nat, |j: int| spec_response_of(lines@[j]@)));
            if closed {
                lemma_read_responses_prefix(view_lines(lines@), i as int);
                assert(view_responses(r@) =~= spec_read_responses(view_lines(lines@)));
            }
        }
    }
    proof {
        if !closed {
            lemma_read_responses_all(view_lines(lines@));
            assert(view_responses(r@) =~= spec_read_responses(view_lines(lines@)));
        }
    }
    r
}

/// When the first closing line is at position `k - 1`, the reply is the
/// first `k` lines.
proof fn lemma_read_responses_prefix(lines: Seq<Seq<char>>, k: int)
    requires
        1 <= k <= lines.len(),
        forall|j: int| 0 <= j < k - 1 ==> !spec_reply_closed(#[trigger] lines[j]),
        spec_reply_closed(lines[k - 1]),
    ensures
        spec_read_responses(lines) == Seq::new(k as nat, |j: int| spec_response_of(lines[j])),
    decreases k,
{
    if k == 1 {
        assert(spec_read_responses(lines) =~= Seq::new(1, |j: int| spec_response_of(lines[j])));
    } else {
        lemma_read_responses_prefix(lines.drop_first(), k - 1);
        assert(spec_read_responses(lines) =~= Seq::new(
            k as nat,
            |j: int| spec_response_of(lines[j]),
        ));
    }
}

/// When no line closes the reply, every line is consumed.
proof fn lemma_read_responses_all(lines: Seq<Seq<char>>)
    requires
        forall|j: int| 0 <= j < lines.len() ==> !spec_reply_closed(#[trigger] lines[j]),
    ensures
        spec_read_responses(lines) == Seq::new(
            lines.len(),
            |j: int| spec_response_of(lines[j]),
        ),
    decreases lines.len(),
{
    if lines.len() > 0 {
        lemma_read_responses_all(lines.drop_first());
        assert(spec_read_responses(lines) =~= Seq::new(
            lines.len(),
            |j: int| spec_response_of(lines[j]),
        ));
    } else {
        assert(spec_read_responses(lines) =~= Seq::new(
            lines.len(),
            |j: int| spec_response_of(lines[j]),
        ));
    }
}

} // verus!
