//! The console output of a program: cut into lines, and turned into text.

use crate::monitor::{appended, ConsoleMsg, MonitorTarget};
use vstd::prelude::*;
use vstd::utf8::{
    decode_utf8, encode_utf8, encode_utf8_decode_utf8, encode_utf8_valid_utf8, valid_utf8,
};

verus! {

/// The pause after which output without a line ending is shown, in seconds.
pub const FLUSH_INTERVAL_SECS: u64 = 1;

/// The number of bytes before the first line feed; the length if there is none.
pub open spec fn until_newline(s: Seq<u8>) -> nat
    decreases s.len(),
{
    if s.len() == 0 || s[0] == 10 {
        0
    } else {
        1 + until_newline(s.skip(1))
    }
}

/// The lines that are complete, each with its line feed.
pub open spec fn complete_lines(s: Seq<u8>) -> Seq<Seq<u8>>
    decreases s.len(),
{
    let k = until_newline(s) as int;
    if k >= s.len() {
        Seq::empty()
    } else {
        seq![s.take(k + 1)] + complete_lines(s.skip(k + 1))
    }
}

/// What follows the last line feed.
pub open spec fn remainder(s: Seq<u8>) -> Seq<u8>
    decreases s.len(),
{
    let k = until_newline(s) as int;
    if k >= s.len() {
        s
    } else {
        remainder(s.skip(k + 1))
    }
}

/// The bytes held by a vector of byte vectors.
pub open spec fn byte_views(parts: Seq<Vec<u8>>) -> Seq<Seq<u8>> {
    Seq::new(parts.len(), |i: int| parts[i]@)
}

/// All parts, one after the other.
pub open spec fn joined(parts: Seq<Seq<u8>>) -> Seq<u8>
    decreases parts.len(),
{
    if parts.len() == 0 {
        Seq::empty()
    } else {
        parts[0] + joined(parts.skip(1))
    }
}

proof fn lemma_until_newline(s: Seq<u8>, k: int)
    requires
        0 <= k <= s.len(),
        forall|j: int| 0 <= j < k ==> s[j] != 10,
        k < s.len() ==> s[k] == 10,
    ensures
        until_newline(s) == k,
    decreases s.len(),
{
    if s.len() > 0 && s[0] != 10 {
        lemma_until_newline(s.skip(1), k - 1);
    }
}

proof fn lemma_until_newline_bounds(s: Seq<u8>)
    ensures
        until_newline(s) <= s.len(),
        until_newline(s) < s.len() ==> s[until_newline(s) as int] == 10,
        forall|j: int| 0 <= j < until_newline(s) ==> s[j] != 10,
    decreases s.len(),
{
    if s.len() > 0 && s[0] != 10 {
        lemma_until_newline_bounds(s.skip(1));
        assert forall|j: int| 0 <= j < until_newline(s) implies s[j] != 10 by {
            if j > 0 {
                assert(s[j] == s.skip(1)[j - 1]);
            }
        }
    }
}

/// A copy of the bytes from `from` up to `to`.
fn bytes_between(s: &Vec<u8>, from: usize, to: usize) -> (res: Vec<u8>)
    requires
        from <= to <= s.len(),
    ensures
        res@ == s@.subrange(from as int, to as int),
{
    let mut out: Vec<u8> = Vec::new();
    let mut i: usize = from;
    while i < to
        invariant
            from <= i <= to <= s.len(),
            out@ == s@.subrange(from as int, i as int),
        decreases to - i,
    {
        out.push(s[i]);
        i += 1;
    }
    out
}

/// Output that was read and not shown yet.
#[derive(Debug)]
pub struct LineBuffer {
    pub pending: Vec<u8>,
}

impl LineBuffer {
    /// Nothing was read yet.
    pub fn new() -> (res: Self)
        ensures
            res.pending@ == Seq::<u8>::empty(),
    {
        LineBuffer { pending: Vec::new() }
    }

    /// Takes in what was read, and gives back the lines that are complete now.
    pub fn feed(&mut self, chunk: &Vec<u8>) -> (res: Vec<Vec<u8>>)
        ensures
            byte_views(res@) == complete_lines(old(self).pending@ + chunk@),
            final(self).pending@ == remainder(old(self).pending@ + chunk@),
    {
        let mut all = bytes_between(&self.pending, 0, self.pending.len());
        let mut more = bytes_between(chunk, 0, chunk.len());
        all.append(&mut more);
        assert(all@ =~= self.pending@ + chunk@);
        let mut out: Vec<Vec<u8>> = Vec::new();
        let mut start: usize = 0;
        let mut i: usize = 0;
        assert(all@.skip(0) =~= all@);
        assert(byte_views(out@) + complete_lines(all@) =~= complete_lines(all@));
        while i < all.len()
            invariant
                start <= i <= all.len(),
                forall|j: int| start <= j < i ==> all@[j] != 10,
                byte_views(out@) + complete_lines(all@.skip(start as int)) == complete_lines(all@),
                remainder(all@.skip(start as int)) == remainder(all@),
            decreases all.len() - i,
        {
            if all[i] == 10 {
                let ghost rest = all@.skip(start as int);
                let ghost before = byte_views(out@);
                proof {
                    lemma_until_newline(rest, i - start);
                }
                let line = bytes_between(&all, start, i + 1);
                assert(line@ =~= rest.take(i - start + 1));
                let ghost shown = line@;
                out.push(line);
                assert(byte_views(out@) =~= before.push(shown));
                assert(rest.skip(i - start + 1) =~= all@.skip(i + 1));
                assert(before + (seq![shown] + complete_lines(all@.skip(i + 1))) =~= byte_views(
                    out@,
                ) + complete_lines(all@.skip(i + 1)));
                start = i + 1;
            }
            i += 1;
        }
        proof {
            lemma_until_newline(all@.skip(start as int), all.len() - start);
        }
        assert(byte_views(out@) =~= complete_lines(all@));
        self.pending = bytes_between(&all, start, all.len());
        assert(self.pending@ =~= all@.skip(start as int));
        out
    }

    /// Gives back what is left, if there is anything.
    pub fn flush(&mut self) -> (res: Option<Vec<u8>>)
        ensures
            match res {
                Some(bytes) => old(self).pending@.len() > 0 && bytes@ == old(self).pending@,
                None => old(self).pending@.len() == 0,
            },
            final(self).pending@ == Seq::<u8>::empty(),
    {
        if self.pending.len() == 0 {
            return None;
        }
        let bytes = bytes_between(&self.pending, 0, self.pending.len());
        assert(bytes@ =~= self.pending@);
        self.pending = Vec::new();
        Some(bytes)
    }
}

/// Cutting into lines loses nothing: the lines and what is left are what was
/// read.
pub proof fn law_lines_lose_nothing(s: Seq<u8>)
    ensures
        joined(complete_lines(s)) + remainder(s) == s,
    decreases s.len(),
{
    let k = until_newline(s) as int;
    lemma_until_newline_bounds(s);
    if k < s.len() {
        law_lines_lose_nothing(s.skip(k + 1));
        let rest = complete_lines(s.skip(k + 1));
        let all = complete_lines(s);
        assert(all.skip(1) =~= rest);
        assert(all[0] == s.take(k + 1));
        assert(joined(all) + remainder(s) =~= s.take(k + 1) + (joined(rest) + remainder(
            s.skip(k + 1),
        )));
        assert(s.take(k + 1) + s.skip(k + 1) =~= s);
    } else {
        assert(joined(complete_lines(s)) + remainder(s) =~= s);
    }
}

/// Each line ends in its only line feed, and what is left has none.
pub proof fn law_lines_end_in_line_feeds(s: Seq<u8>)
    ensures
        forall|i: int|
            0 <= i < complete_lines(s).len() ==> (#[trigger] complete_lines(s)[i]).len() > 0
                && until_newline(complete_lines(s)[i]) == complete_lines(s)[i].len() - 1,
        until_newline(remainder(s)) == remainder(s).len(),
    decreases s.len(),
{
    let k = until_newline(s) as int;
    lemma_until_newline_bounds(s);
    if k < s.len() {
        let rest = s.skip(k + 1);
        law_lines_end_in_line_feeds(rest);
        assert forall|i: int| 0 <= i < complete_lines(s).len() implies (
        #[trigger] complete_lines(s)[i]).len() > 0 && until_newline(complete_lines(s)[i])
            == complete_lines(s)[i].len() - 1 by {
            if i == 0 {
                lemma_until_newline(s.take(k + 1), k);
            } else {
                assert(complete_lines(s)[i] == complete_lines(rest)[i - 1]);
            }
        }
    }
}

/// The lines do not depend on how the output was cut when it was read.
pub proof fn law_lines_do_not_depend_on_chunks(a: Seq<u8>, b: Seq<u8>)
    ensures
        complete_lines(a + b) == complete_lines(a) + complete_lines(remainder(a) + b),
        remainder(a + b) == remainder(remainder(a) + b),
    decreases a.len(),
{
    let k = until_newline(a) as int;
    lemma_until_newline_bounds(a);
    if k < a.len() {
        let all = a + b;
        lemma_until_newline(all, k);
        law_lines_do_not_depend_on_chunks(a.skip(k + 1), b);
        assert(all.take(k + 1) =~= a.take(k + 1));
        assert(all.skip(k + 1) =~= a.skip(k + 1) + b);
        assert(complete_lines(all) =~= complete_lines(a) + complete_lines(remainder(a) + b));
    } else {
        assert(complete_lines(a + b) =~= complete_lines(a) + complete_lines(remainder(a) + b));
    }
}

/// The text that the GBK decoder of the crate `encoding_rs` gives for some bytes.
pub uninterp spec fn gbk_text(bytes: Seq<u8>) -> Seq<char>;

/// `String::from_utf8` of std: the text that the bytes encode in UTF-8, if they
/// are valid.
#[verifier::external_body]
fn utf8_text(bytes: &Vec<u8>) -> (res: Option<String>)
    ensures
        match res {
            Some(text) => valid_utf8(bytes@) && text@ == decode_utf8(bytes@),
            None => !valid_utf8(bytes@),
        },
{
    String::from_utf8(bytes.to_vec()).ok()
}

/// `GBK.decode` of the crate `encoding_rs`, on all of the input at once. The
/// result is claimed to depend on the bytes alone. It panics if the size of its
/// buffer, which is a small multiple of the input, is not a valid one.
#[verifier::external_body]
fn decode_gbk(bytes: &Vec<u8>) -> (res: String)
    requires
        16 * bytes@.len() <= isize::MAX,
    ensures
        res@ == gbk_text(bytes@),
{
    let (text, _encoding, _had_errors) = encoding_rs::GBK.decode(bytes);
    text.to_string()
}

/// The text of some console output: UTF-8 if it is valid, else GBK.
pub open spec fn console_text(bytes: Seq<u8>) -> Seq<char> {
    if valid_utf8(bytes) {
        decode_utf8(bytes)
    } else {
        gbk_text(bytes)
    }
}

/// Whether a target keeps some console output as a message, and is as before
/// otherwise.
pub open spec fn shows_output(
    before: MonitorTarget,
    after: MonitorTarget,
    bytes: Seq<u8>,
    time: String,
    msg: ConsoleMsg,
) -> bool {
    &&& msg.msg@ == console_text(bytes)
    &&& msg.time == time
    &&& after.console_outputs@ == appended(before.console_outputs@, msg)
    &&& after == (MonitorTarget { console_outputs: after.console_outputs, ..before })
}

/// Adds some console output to a target. The result is the message that was
/// added.
pub fn emit_console_line(target: &mut MonitorTarget, bytes: &Vec<u8>, time: String) -> (res:
    ConsoleMsg)
    requires
        !valid_utf8(bytes@) ==> 16 * bytes@.len() <= isize::MAX,
    ensures
        shows_output(*old(target), *final(target), bytes@, time, res),
{
    let text = match utf8_text(bytes) {
        Some(text) => text,
        None => decode_gbk(bytes),
    };
    let payload = ConsoleMsg { msg: text, time };
    target.push_console(payload.clone());
    payload
}

/// A line is cut right after each line feed: every line ends in one and has no
/// other, and none is left over.
pub proof fn law_output_is_cut_after_line_feeds(s: Seq<u8>)
    ensures
        forall|i: int|
            0 <= i < complete_lines(s).len() ==> (#[trigger] complete_lines(s)[i]).len() > 0
                && complete_lines(s)[i].last() == 10 && forall|j: int|
                0 <= j < complete_lines(s)[i].len() - 1 ==> complete_lines(s)[i][j] != 10,
        !remainder(s).contains(10u8),
        joined(complete_lines(s)) + remainder(s) == s,
{
    law_lines_lose_nothing(s);
    law_lines_end_in_line_feeds(s);
    lemma_until_newline_bounds(remainder(s));
    assert forall|i: int| 0 <= i < complete_lines(s).len() implies (
    #[trigger] complete_lines(s)[i]).len() > 0 && complete_lines(s)[i].last() == 10 && forall|
        j: int,
    |
        0 <= j < complete_lines(s)[i].len() - 1 ==> complete_lines(s)[i][j] != 10 by {
        lemma_until_newline_bounds(complete_lines(s)[i]);
    }
}

/// A line and what follows on it are cut apart, whatever follows.
pub proof fn law_first_line_is_cut_off(line: Seq<u8>, rest: Seq<u8>)
    requires
        !line.contains(10u8),
    ensures
        complete_lines(line.push(10) + rest) == seq![line.push(10)] + complete_lines(rest),
        remainder(line.push(10) + rest) == remainder(rest),
        complete_lines(line) == Seq::<Seq<u8>>::empty(),
        remainder(line) == line,
{
    let all = line.push(10) + rest;
    let k = line.len() as int;
    assert forall|j: int| 0 <= j < k implies line[j] != 10 by {
        assert(line.contains(line[j]));
    }
    assert forall|j: int| 0 <= j < k implies all[j] != 10 by {
        assert(all[j] == line[j]);
    }
    lemma_until_newline(all, k);
    lemma_until_newline(line, k);
    assert(all.take(k + 1) =~= line.push(10));
    assert(all.skip(k + 1) =~= rest);
}

/// All parts are joined in their order.
pub proof fn law_parts_are_joined_in_order(part: Seq<u8>, parts: Seq<Seq<u8>>)
    ensures
        joined(seq![part] + parts) == part + joined(parts),
        joined(Seq::empty()) == Seq::<u8>::empty(),
{
    assert((seq![part] + parts).skip(1) =~= parts);
}

/// Text that was written in UTF-8 is read back as it is; anything else is taken for
/// GBK.
pub proof fn law_console_text_is_utf8_if_it_can_be(text: Seq<char>, bytes: Seq<u8>)
    ensures
        console_text(encode_utf8(text)) == text,
        !valid_utf8(bytes) ==> console_text(bytes) == gbk_text(bytes),
{
    encode_utf8_valid_utf8(text);
    encode_utf8_decode_utf8(text);
}

/// Output in UTF-8 becomes the latest message of its target as it was written, with
/// its time; the messages before it stay, the oldest of two thousand excepted.
pub proof fn law_output_becomes_the_latest_message(
    before: MonitorTarget,
    after: MonitorTarget,
    text: Seq<char>,
    time: String,
    msg: ConsoleMsg,
)
    requires
        before.console_outputs@.len() <= 2000,
        shows_output(before, after, encode_utf8(text), time, msg),
    ensures
        msg.msg@ == text,
        msg.time@ == time@,
        after.console_outputs@.len() > 0,
        after.console_outputs@.last() == msg,
        before.console_outputs@.len() < 2000 ==> after.console_outputs@.drop_last()
            == before.console_outputs@,
        before.console_outputs@.len() == 2000 ==> after.console_outputs@.drop_last()
            == before.console_outputs@.skip(1),
        after.performance_records == before.performance_records,
        after.monitor_enabled == before.monitor_enabled,
        after.task_handle == before.task_handle,
        after.control_signal == before.control_signal,
{
    law_console_text_is_utf8_if_it_can_be(text, Seq::empty());
    let kept = before.console_outputs@;
    if kept.len() < 2000 {
        assert(kept.push(msg).drop_last() =~= kept);
    } else {
        assert(after.console_outputs@.drop_last() =~= kept.skip(1));
    }
}

/// A list of lines holds each of them, in its order.
pub proof fn law_every_line_is_in_the_list(parts: Seq<Vec<u8>>)
    ensures
        byte_views(parts).len() == parts.len(),
        forall|i: int| 0 <= i < parts.len() ==> #[trigger] byte_views(parts)[i] == parts[i]@,
{
}

} // verus!
