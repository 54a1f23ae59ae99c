//! The framing of server-sent events.

use crate::provider::texts;
use vstd::prelude::*;
use vstd::utf8::{
    decode_first_scalar, decode_utf8, decode_utf8_split,
    is_char_boundary_iff_not_is_continuation_byte, pop_first_scalar, valid_utf8,
    valid_utf8_concat, valid_utf8_split,
};

verus! {

/// The text that `String::from_utf8_lossy` makes of bytes.
pub uninterp spec fn lossy_text(bytes: Seq<u8>) -> Seq<char>;

/// Calls `String::from_utf8_lossy`, which decodes UTF-8 and puts replacement
/// characters where the bytes are not UTF-8. Bytes that are all UTF-8 give the
/// text that they encode.
#[verifier::external_body]
fn decode_lossy(bytes: &[u8]) -> (text: String)
    ensures
        text@ == lossy_text(bytes@),
        valid_utf8(bytes@) ==> text@ == decode_utf8(bytes@),
{
    String::from_utf8_lossy(bytes).into_owned()
}

/// `String::push` appends a character.
pub assume_specification[ String::push ](string: &mut String, character: char)
    ensures
        final(string)@ == old(string)@.push(character),
;

/// The text before the first line feed, or all of it where there is none.
pub open spec fn first_line(text: Seq<char>) -> Seq<char>
    decreases text.len(),
{
    if text.len() == 0 || text[0] == '\n' {
        Seq::empty()
    } else {
        seq![text[0]] + first_line(text.skip(1))
    }
}

/// A line without the carriage return that ends it, if one does.
pub open spec fn without_return(line: Seq<char>) -> Seq<char> {
    if line.len() > 0 && line.last() == '\r' {
        line.drop_last()
    } else {
        line
    }
}

/// The lines of a text. A line ends with a line feed or with a carriage return
/// and a line feed, neither of which is part of it; at the end of the text it
/// may end without either.
pub open spec fn lines(text: Seq<char>) -> Seq<Seq<char>>
    decreases text.len(),
{
    let line = first_line(text);
    if text.len() == 0 {
        Seq::empty()
    } else if line.len() < text.len() {
        seq![without_return(line)] + lines(text.skip(line.len() as int + 1))
    } else {
        seq![line]
    }
}

/// Whether a line of an event holds data.
pub open spec fn is_data(line: Seq<char>) -> bool {
    "data: "@.is_prefix_of(line)
}

/// What the data lines among `lines` hold, in order.
pub open spec fn data_in(lines: Seq<Seq<char>>) -> Seq<Seq<char>>
    decreases lines.len(),
{
    if lines.len() == 0 {
        Seq::empty()
    } else if is_data(lines.last()) {
        data_in(lines.drop_last()).push(lines.last().skip("data: "@.len() as int))
    } else {
        data_in(lines.drop_last())
    }
}

/// What the data lines of a chunk of events hold, in order.
pub open spec fn payloads_of(bytes: Seq<u8>) -> Seq<Seq<char>> {
    data_in(lines(lossy_text(bytes)))
}

/// What the data lines of a chunk of events hold, in order, where the chunk is UTF-8.
pub open spec fn payloads_in(bytes: Seq<u8>) -> Seq<Seq<char>> {
    data_in(lines(decode_utf8(bytes)))
}

/// The first line of a text is as far as no line feed comes, and it ends at a
/// line feed or at the end of the text.
proof fn lemma_first_line(text: Seq<char>, end: int)
    requires
        0 <= end <= text.len(),
        forall|i: int| 0 <= i < end ==> text[i] != '\n',
        end == text.len() || text[end] == '\n',
    ensures
        first_line(text) == text.take(end),
    decreases end,
{
    if end > 0 {
        lemma_first_line(text.skip(1), end - 1);
        assert(seq![text[0]] + text.skip(1).take(end - 1) =~= text.take(end));
    } else {
        assert(text.take(0) =~= Seq::<char>::empty());
    }
}

/// A line more holds what the lines before it hold, and what it holds itself.
proof fn lemma_data_push(lines: Seq<Seq<char>>, line: Seq<char>)
    ensures
        data_in(lines.push(line)) == if is_data(line) {
            data_in(lines).push(line.skip("data: "@.len() as int))
        } else {
            data_in(lines)
        },
{
    assert(lines.push(line).drop_last() =~= lines);
}

/// What a line holds, if it is a data line.
fn data_of(line: &Vec<char>) -> (data: Option<String>)
    ensures
        match data {
            Some(text) => is_data(line@) && text@ == line@.skip("data: "@.len() as int),
            None => !is_data(line@),
        },
{
    proof {
        reveal_strlit("data: ");
    }
    if line.len() < 6 || line[0] != 'd' || line[1] != 'a' || line[2] != 't' || line[3] != 'a'
        || line[4] != ':' || line[5] != ' ' {
        assert(forall|i: int|
            0 <= i < 6 <= line.len() ==> line@.subrange(0, 6)[i] == #[trigger] line@[i]);
        return None;
    }
    let mut text = String::new();
    let mut i: usize = 6;
    while i < line.len()
        invariant
            6 <= i <= line.len(),
            text@ == line@.subrange(6, i as int),
        decreases line.len() - i,
    {
        text.push(line[i]);
        i = i + 1;
    }
    assert(text@ =~= line@.skip(6));
    assert("data: "@ =~= line@.take(6));
    Some(text)
}

/// What the data lines of a chunk of events hold, in order.
pub fn data_payloads(bytes: &[u8]) -> (payloads: Vec<String>)
    ensures
        texts(payloads@) == payloads_of(bytes@),
        valid_utf8(bytes@) ==> texts(payloads@) == payloads_in(bytes@),
{
    let text = decode_lossy(bytes);
    let mut payloads: Vec<String> = Vec::new();
    let mut line: Vec<char> = Vec::new();
    let ghost all = text@;
    let ghost mut done: Seq<Seq<char>> = Seq::empty();
    let ghost mut start: int = 0;
    assert(all.skip(0) =~= all);
    assert(texts(payloads@) =~= data_in(done));
    for c in rest: text.chars()
        invariant
            rest.seq() == all,
            0 <= start <= rest.index() <= all.len(),
            line@ == all.subrange(start, rest.index() as int),
            forall|i: int| start <= i < rest.index() ==> all[i] != '\n',
            lines(all) == done + lines(all.skip(start)),
            texts(payloads@) == data_in(done),
    {
        let ghost index = rest.index() as int;
        if c == '\n' {
            proof {
                let tail = all.skip(start);
                assert(tail[index - start] == '\n');
                lemma_first_line(tail, index - start);
                assert(tail.take(index - start) =~= line@);
                assert(tail.skip(index - start + 1) =~= all.skip(index + 1));
                let ended = without_return(line@);
                lemma_data_push(done, ended);
                assert(done + (seq![ended] + lines(all.skip(index + 1))) =~= done.push(ended)
                    + lines(all.skip(index + 1)));
                done = done.push(ended);
                start = index + 1;
            }
            if line.len() > 0 && line[line.len() - 1] == '\r' {
                line.pop();
            }
            let ghost before = payloads@;
            if let Some(data) = data_of(&line) {
                payloads.push(data);
                assert(texts(payloads@) =~= texts(before).push(data@));
            }
            line = Vec::new();
        } else {
            line.push(c);
        }
        assert(line@ =~= all.subrange(start, index + 1));
    }
    if line.len() > 0 {
        proof {
            let tail = all.skip(start);
            lemma_first_line(tail, tail.len() as int);
            assert(tail.take(tail.len() as int) =~= tail);
            assert(tail =~= line@);
            lemma_data_push(done, line@);
            assert(done + seq![line@] =~= done.push(line@));
        }
        let ghost before = payloads@;
        if let Some(data) = data_of(&line) {
            payloads.push(data);
            assert(texts(payloads@) =~= texts(before).push(data@));
        }
    } else {
        assert(lines(all.skip(start)) =~= Seq::empty());
        assert(done + Seq::empty() =~= done);
    }
    payloads
}

/// The first line of a text that ends a line stays the first with more behind it.
proof fn lemma_first_line_of_more(first: Seq<char>, second: Seq<char>)
    requires
        first.len() > 0,
        first.last() == '\n',
    ensures
        first_line(first).len() < first.len(),
        first_line(first + second) == first_line(first),
    decreases first.len(),
{
    let both = first + second;
    assert(both[0] == first[0]);
    if first[0] != '\n' {
        assert(both.skip(1) =~= first.skip(1) + second);
        lemma_first_line_of_more(first.skip(1), second);
    }
}

/// The lines of two texts, the first of which ends with its last line.
proof fn lemma_lines_of_both(first: Seq<char>, second: Seq<char>)
    requires
        first.len() > 0 ==> first.last() == '\n',
    ensures
        lines(first + second) == lines(first) + lines(second),
    decreases first.len(),
{
    let both = first + second;
    if first.len() == 0 {
        assert(both =~= second);
        assert(Seq::<Seq<char>>::empty() + lines(second) =~= lines(second));
    } else {
        let line = first_line(first);
        let next = line.len() as int + 1;
        lemma_first_line_of_more(first, second);
        assert(both.skip(next) =~= first.skip(next) + second);
        lemma_lines_of_both(first.skip(next), second);
        let head = seq![without_return(line)];
        assert(head + (lines(first.skip(next)) + lines(second)) =~= (head + lines(
            first.skip(next),
        )) + lines(second));
    }
}

/// What the lines of two texts hold.
proof fn lemma_data_in_both(first: Seq<Seq<char>>, second: Seq<Seq<char>>)
    ensures
        data_in(first + second) == data_in(first) + data_in(second),
    decreases second.len(),
{
    let both = first + second;
    if second.len() == 0 {
        assert(both =~= first);
        assert(data_in(first) + Seq::<Seq<char>>::empty() =~= data_in(first));
    } else {
        assert(both.drop_last() =~= first + second.drop_last());
        assert(both.last() == second.last());
        lemma_data_in_both(first, second.drop_last());
        assert(data_in(both) =~= data_in(first) + data_in(second));
    }
}

/// Where a text is cut between two lines, its parts hold, one after the other,
/// what the whole holds.
pub proof fn cutting_between_lines_changes_nothing(first: Seq<char>, second: Seq<char>)
    requires
        first.len() > 0 ==> first.last() == '\n',
    ensures
        data_in(lines(first + second)) == data_in(lines(first)) + data_in(lines(second)),
{
    lemma_lines_of_both(first, second);
    lemma_data_in_both(lines(first), lines(second));
}

/// Two pieces of UTF-8 decode to what they decode to each.
proof fn lemma_decode_both(first: Seq<u8>, second: Seq<u8>)
    requires
        valid_utf8(first),
        valid_utf8(second),
    ensures
        valid_utf8(first + second),
        decode_utf8(first + second) == decode_utf8(first) + decode_utf8(second),
    decreases first.len(),
{
    let both = first + second;
    valid_utf8_concat(first, second);
    if first.len() == 0 {
        assert(both =~= second);
        assert(Seq::<char>::empty() + decode_utf8(second) =~= decode_utf8(second));
    } else {
        let rest = pop_first_scalar(first);
        lemma_decode_both(rest, second);
        assert(pop_first_scalar(both) =~= rest + second);
        assert(decode_first_scalar(both) == decode_first_scalar(first));
        let head = seq![decode_first_scalar(first) as char];
        assert(head + (decode_utf8(rest) + decode_utf8(second)) =~= (head + decode_utf8(rest))
            + decode_utf8(second));
    }
}

/// A line feed at the end of UTF-8 is a line feed at the end of its text.
proof fn lemma_line_feed_last(bytes: Seq<u8>)
    requires
        valid_utf8(bytes),
        bytes.len() > 0,
        bytes.last() == 0x0a,
    ensures
        decode_utf8(bytes).len() > 0,
        decode_utf8(bytes).last() == '\n',
{
    let end = bytes.len() - 1;
    let last = bytes.subrange(end, bytes.len() as int);
    assert(0x0au8 & 0xc0 != 0x80 && 0x0au8 & 0x80 == 0 && 0x0au8 & 0x7f == 0x0a) by (bit_vector);
    is_char_boundary_iff_not_is_continuation_byte(bytes, end);
    valid_utf8_split(bytes, end);
    decode_utf8_split(bytes, end);
    assert(last =~= seq![0x0au8]);
    assert(pop_first_scalar(last) =~= Seq::empty());
    assert(decode_first_scalar(last) == 0x0a);
    assert(decode_utf8(pop_first_scalar(last)) =~= Seq::empty());
    assert(decode_utf8(last) =~= seq!['\n']);
}

/// Where a chunk of UTF-8 is cut between two lines, its parts hold, one after the
/// other, what the whole holds.
pub proof fn cutting_bytes_between_lines_changes_nothing(first: Seq<u8>, second: Seq<u8>)
    requires
        valid_utf8(first),
        valid_utf8(second),
        first.len() > 0 ==> first.last() == 0x0a,
    ensures
        valid_utf8(first + second),
        payloads_in(first + second) == payloads_in(first) + payloads_in(second),
{
    lemma_decode_both(first, second);
    if first.len() > 0 {
        lemma_line_feed_last(first);
    }
    cutting_between_lines_changes_nothing(decode_utf8(first), decode_utf8(second));
}

/// The same of any bytes that decode to one text after the other, whatever in them
/// is not UTF-8.
pub proof fn cutting_lossy_bytes_between_lines_changes_nothing(first: Seq<u8>, second: Seq<u8>)
    requires
        lossy_text(first + second) == lossy_text(first) + lossy_text(second),
        lossy_text(first).len() > 0 ==> lossy_text(first).last() == '\n',
    ensures
        payloads_of(first + second) == payloads_of(first) + payloads_of(second),
{
    cutting_between_lines_changes_nothing(lossy_text(first), lossy_text(second));
}

/// A payload of one line, framed as an event, is the only thing that the event
/// holds. (A carriage return at its end would be taken for a part of the line end.)
pub proof fn a_framed_payload_is_read_back(payload: Seq<char>)
    requires
        !payload.contains('\n'),
        payload.len() > 0 ==> payload.last() != '\r',
    ensures
        data_in(lines("data: "@ + payload + "\n\n"@)) == seq![payload],
{
    reveal_strlit("data: ");
    reveal_strlit("\n\n");
    reveal_with_fuel(data_in, 3);
    let line = "data: "@ + payload;
    let text = line + "\n\n"@;
    let end = line.len() as int;
    assert forall|i: int| 0 <= i < end implies text[i] != '\n' by {
        if i >= 6 {
            assert(payload.contains(payload[i - 6]));
        }
    }
    lemma_first_line(text, end);
    assert(text.take(end) =~= line);
    assert(without_return(line) == line);
    let rest = text.skip(end + 1);
    assert(rest =~= seq!['\n']);
    lemma_first_line(rest, 0);
    assert(rest.take(0) =~= Seq::<char>::empty());
    assert(rest.skip(1) =~= Seq::<char>::empty());
    assert(lines(rest.skip(1)) =~= Seq::empty());
    assert(lines(rest) =~= seq![Seq::<char>::empty()]);
    assert(lines(text) =~= seq![line, Seq::<char>::empty()]);
    assert(line.skip(6) =~= payload);
    assert("data: "@ =~= line.subrange(0, 6));
    let front = lines(text).drop_last();
    assert(front =~= seq![line]);
    assert(front.drop_last() =~= Seq::empty());
    assert(data_in(front) =~= seq![payload]);
}

/// A text without a line feed is one line, and an empty text is none.
pub proof fn a_text_without_a_line_feed_is_one_line(text: Seq<char>)
    requires
        !text.contains('\n'),
    ensures
        text.len() > 0 ==> lines(text) == seq![text],
        text.len() == 0 ==> lines(text).len() == 0,
{
    if text.len() > 0 {
        assert forall|i: int| 0 <= i < text.len() implies text[i] != '\n' by {
            assert(text.contains(text[i]));
        }
        lemma_first_line(text, text.len() as int);
        assert(text.take(text.len() as int) =~= text);
    }
}

/// What comes before the first line feed of a text is its first line, without a
/// carriage return right before the line feed; the other lines are those of what
/// comes after.
pub proof fn a_line_feed_ends_a_line(line: Seq<char>, rest: Seq<char>)
    requires
        !line.contains('\n'),
    ensures
        line.len() == 0 || line.last() != '\r' ==> lines(line + seq!['\n'] + rest) == seq![line]
            + lines(rest),
        lines(line + seq!['\r', '\n'] + rest) == seq![line] + lines(rest),
{
    assert forall|i: int| 0 <= i < line.len() implies line[i] != '\n' by {
        assert(line.contains(line[i]));
    }
    let text = line + seq!['\n'] + rest;
    lemma_first_line(text, line.len() as int);
    assert(text.take(line.len() as int) =~= line);
    assert(text.skip(line.len() as int + 1) =~= rest);
    let other = line + seq!['\r', '\n'] + rest;
    let ended = line.push('\r');
    lemma_first_line(other, ended.len() as int);
    assert(other.take(ended.len() as int) =~= ended);
    assert(other.skip(ended.len() as int + 1) =~= rest);
    assert(ended.drop_last() =~= line);
}

/// A line holds what follows `data: ` at its start, and nothing where it starts
/// otherwise.
pub proof fn a_data_line_holds_what_follows(line: Seq<char>, rest: Seq<char>)
    ensures
        data_in(seq!["data: "@ + rest]) == seq![rest],
        (forall|after: Seq<char>| line != #[trigger] ("data: "@ + after)) ==> data_in(
            seq![line],
        ).len() == 0,
{
    reveal_strlit("data: ");
    let data = "data: "@ + rest;
    let one = seq![data];
    assert(one.drop_last() =~= Seq::empty());
    assert(data_in(one.drop_last()) =~= Seq::empty());
    assert("data: "@ =~= data.subrange(0, 6));
    assert(data.skip(6) =~= rest);
    assert(data_in(one) =~= seq![rest]);
    let other = seq![line];
    assert(other.drop_last() =~= Seq::empty());
    assert(data_in(other.drop_last()) =~= Seq::empty());
    if is_data(line) {
        assert(line =~= "data: "@ + line.skip(6));
    }
}

/// Lines hold, one after the other, what each part of them holds; no lines hold
/// nothing.
pub proof fn lines_hold_what_their_parts_hold(first: Seq<Seq<char>>, second: Seq<Seq<char>>)
    ensures
        data_in(first + second) == data_in(first) + data_in(second),
        data_in(Seq::<Seq<char>>::empty()).len() == 0,
{
    lemma_data_in_both(first, second);
}

/// A chunk that holds one event with one line of data holds that data: whether it is
/// read as UTF-8 or with replacements, and whether the event is ended by line feeds
/// or with carriage returns.
pub proof fn a_chunk_of_one_event_holds_its_data(bytes: Seq<u8>, payload: Seq<char>)
    requires
        !payload.contains('\n'),
        payload.len() > 0 ==> payload.last() != '\r',
    ensures
        lossy_text(bytes) == "data: "@ + payload + "\n\n"@ ==> payloads_of(bytes) == seq![payload],
        decode_utf8(bytes) == "data: "@ + payload + "\n\n"@ ==> payloads_in(bytes) == seq![payload],
        lossy_text(bytes) == "data: "@ + payload + "\r\n\r\n"@ ==> payloads_of(bytes) == seq![
            payload,
        ],
        decode_utf8(bytes) == "data: "@ + payload + "\r\n\r\n"@ ==> payloads_in(bytes) == seq![
            payload,
        ],
{
    reveal_strlit("data: ");
    reveal_strlit("\r\n\r\n");
    a_framed_payload_is_read_back(payload);
    let line = "data: "@ + payload;
    let nothing = Seq::<char>::empty();
    let end = seq!['\r', '\n'];
    assert(!line.contains('\n')) by {
        if line.contains('\n') {
            let i = choose|i: int| 0 <= i < line.len() && line[i] == '\n';
            if i >= 6 {
                assert(payload.contains(payload[i - 6]));
            }
        }
    }
    a_line_feed_ends_a_line(line, end);
    a_line_feed_ends_a_line(nothing, nothing);
    assert(nothing + end + nothing =~= end);
    assert(lines(nothing) =~= Seq::empty());
    assert(lines(end) =~= seq![nothing]);
    assert("data: "@ + payload + "\r\n\r\n"@ =~= line + end + end);
    let both = seq![line] + seq![nothing];
    lemma_data_in_both(seq![line], seq![nothing]);
    a_data_line_holds_what_follows(nothing, payload);
    assert(!is_data(nothing));
    assert(seq![nothing].drop_last() =~= Seq::empty());
    assert(data_in(seq![nothing]) =~= Seq::empty());
    assert(data_in(both) =~= seq![payload]);
}

} // verus!
