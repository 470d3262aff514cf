//! The NUL-delimited framing of the input and output byte streams.
//!
//! A stream carries text records, each terminated by a single `0x00` byte; a
//! final record at the very end of the stream may lack its terminator. Records
//! are decoded as UTF-8 with lossy replacement of malformed sequences.

use vstd::prelude::*;
use vstd::utf8::decode_utf8;
use vstd::utf8::encode_utf8;
use vstd::utf8::encode_utf8_decode_utf8;
use vstd::utf8::encode_utf8_valid_utf8;
use vstd::utf8::valid_utf8;
use crate::message::Message;
use crate::message::MessageView;

verus! {

/// What `String::from_utf8_lossy` returns on the given bytes.
pub uninterp spec fn lossy_utf8(bytes: Seq<u8>) -> Seq<char>;

/// Relies on `String::from_utf8_lossy`: its result is a function of the bytes
/// alone, and bytes that already are valid UTF-8 decode to themselves.
#[verifier::external_body]
fn from_utf8_lossy(bytes: &[u8]) -> (s: String)
    ensures
        s@ == lossy_utf8(bytes@),
        valid_utf8(bytes@) ==> s@ == decode_utf8(bytes@),
{
    String::from_utf8_lossy(bytes).into_owned()
}

/// One framed record: the UTF-8 bytes of the text followed by one NUL.
pub open spec fn encode_record_spec(text: Seq<char>) -> Seq<u8> {
    encode_utf8(text) + seq![0u8]
}

/// A whole framed stream: each text's record in order.
pub open spec fn encode_stream_spec(texts: Seq<Seq<char>>) -> Seq<u8>
    decreases texts.len(),
{
    if texts.len() == 0 {
        seq![]
    } else {
        encode_record_spec(texts[0]) + encode_stream_spec(texts.drop_first())
    }
}

/// Prepend one byte to the first record, creating the record if there is none.
pub open spec fn prepend_to_first(b: u8, records: Seq<Seq<u8>>) -> Seq<Seq<u8>> {
    if records.len() == 0 {
        seq![seq![b]]
    } else {
        records.update(0, seq![b] + records[0])
    }
}

/// The records framed in `bytes`: the byte runs between NUL terminators, with
/// an unterminated final run kept as a final record.
pub open spec fn split_spec(bytes: Seq<u8>) -> Seq<Seq<u8>>
    decreases bytes.len(),
{
    if bytes.len() == 0 {
        seq![]
    } else if bytes[0] == 0u8 {
        seq![Seq::<u8>::empty()] + split_spec(bytes.drop_first())
    } else {
        prepend_to_first(bytes[0], split_spec(bytes.drop_first()))
    }
}

proof fn lemma_split_no_nul(record: Seq<u8>)
    requires
        forall|j: int| 0 <= j < record.len() ==> record[j] != 0u8,
    ensures
        record.len() == 0 ==> split_spec(record) == Seq::<Seq<u8>>::empty(),
        record.len() > 0 ==> split_spec(record) == seq![record],
    decreases record.len(),
{
    if record.len() > 0 {
        lemma_split_no_nul(record.drop_first());
        if record.len() == 1 {
            assert(split_spec(record) =~~= seq![record]);
        } else {
            assert(seq![record[0]] + record.drop_first() =~= record);
            assert(split_spec(record) =~~= seq![record]);
        }
    }
}

proof fn lemma_split_stream(record: Seq<u8>, rest: Seq<u8>)
    requires
        forall|j: int| 0 <= j < record.len() ==> record[j] != 0u8,
    ensures
        split_spec(record + seq![0u8] + rest) == seq![record] + split_spec(rest),
    decreases record.len(),
{
    let s = record + seq![0u8] + rest;
    if record.len() == 0 {
        assert(s.drop_first() =~= rest);
        assert(s[0] == 0u8);
        assert(split_spec(s) =~~= seq![record] + split_spec(rest));
    } else {
        assert(s.drop_first() =~= record.drop_first() + seq![0u8] + rest);
        lemma_split_stream(record.drop_first(), rest);
        assert(seq![record[0]] + record.drop_first() =~= record);
        assert(split_spec(s) =~~= seq![record] + split_spec(rest));
    }
}

/// Recover the records framed in `input`: the byte runs between NUL
/// terminators, with an unterminated final run kept as a final record.
pub fn split_records(input: &[u8]) -> (records: Vec<Vec<u8>>)
    ensures
        records@.map_values(|r: Vec<u8>| r@) == split_spec(input@),
{
    let mut records: Vec<Vec<u8>> = Vec::new();
    let mut current: Vec<u8> = Vec::new();
    let ghost mut done: int = 0;
    let mut i: usize = 0;
    proof {
        assert(input@.skip(0) =~= input@);
        assert(records@.map_values(|r: Vec<u8>| r@) + split_spec(input@) =~= split_spec(input@));
    }
    while i < input.len()
        invariant
            0 <= done <= i <= input@.len(),
            current@ == input@.subrange(done, i as int),
            forall|j: int| done <= j < i ==> input@[j] != 0u8,
            split_spec(input@) == records@.map_values(|r: Vec<u8>| r@) + split_spec(
                input@.skip(done),
            ),
        decreases input.len() - i,
    {
        let b = input[i];
        if b == 0u8 {
            proof {
                lemma_split_stream(current@, input@.skip(i as int + 1));
                assert(input@.skip(done) =~= current@ + seq![0u8] + input@.skip(i as int + 1));
            }
            let ghost old_records = records@;
            records.push(current);
            current = Vec::new();
            proof {
                done = i as int + 1;
                assert(records@.map_values(|r: Vec<u8>| r@) =~= old_records.map_values(
                    |r: Vec<u8>| r@,
                ).push(records@.last()@));
                assert(current@ =~= input@.subrange(done, i as int + 1));
            }
        } else {
            current.push(b);
            proof {
                assert(current@ =~= input@.subrange(done, i as int + 1));
            }
        }
        i = i + 1;
    }
    if current.len() > 0 {
        proof {
            lemma_split_no_nul(current@);
            assert(input@.skip(done) =~= current@);
        }
        let ghost old_records = records@;
        records.push(current);
        proof {
            assert(records@.map_values(|r: Vec<u8>| r@) =~= old_records.map_values(
                |r: Vec<u8>| r@,
            ).push(records@.last()@));
            assert(records@.map_values(|r: Vec<u8>| r@) =~= split_spec(input@));
        }
    } else {
        proof {
            assert(input@.skip(done) =~= Seq::<u8>::empty());
            assert(records@.map_values(|r: Vec<u8>| r@) =~= split_spec(input@));
        }
    }
    records
}

/// Decode every record framed in `input` as UTF-8 with lossy replacement, in
/// order.
pub fn decode_records(input: &[u8]) -> (texts: Vec<String>)
    ensures
        texts@.len() == split_spec(input@).len(),
        forall|i: int| 0 <= i < texts@.len() ==> texts@[i]@ == lossy_utf8(
            #[trigger] split_spec(input@)[i],
        ),
        forall|i: int|
            0 <= i < texts@.len() && valid_utf8(#[trigger] split_spec(input@)[i]) ==> texts@[i]@
                == decode_utf8(split_spec(input@)[i]),
{
    let records = split_records(input);
    let mut texts: Vec<String> = Vec::new();
    let mut i: usize = 0;
    while i < records.len()
        invariant
            records@.map_values(|r: Vec<u8>| r@) == split_spec(input@),
            0 <= i <= records@.len(),
            texts@.len() == i,
            forall|k: int| 0 <= k < i ==> texts@[k]@ == lossy_utf8(#[trigger] records@[k]@),
            forall|k: int|
                0 <= k < i && valid_utf8(#[trigger] records@[k]@) ==> texts@[k]@ == decode_utf8(
                    records@[k]@,
                ),
        decreases records.len() - i,
    {
        let text = from_utf8_lossy(records[i].as_slice());
        texts.push(text);
        i = i + 1;
    }
    proof {
        assert(forall|k: int|
            0 <= k < records@.len() ==> #[trigger] split_spec(input@)[k] == records@[k]@);
    }
    texts
}

/// A completed read with its terminator stripped: one trailing NUL is
/// dropped, and a record that ended at end of stream is kept whole.
pub open spec fn strip_terminator(bytes: Seq<u8>) -> Seq<u8> {
    if bytes.len() > 0 && bytes.last() == 0u8 {
        bytes.drop_last()
    } else {
        bytes
    }
}

/// The event for one delimited read from the input stream: an empty read is
/// end of input; otherwise the buffer, without its trailing terminator, is
/// one received record.
pub fn input_record_event(buffer: &[u8]) -> (m: Message)
    ensures
        buffer@.len() == 0 ==> m@ == MessageView::Exit,
        buffer@.len() > 0 ==> m@ == (MessageView::ReceivedText {
            text: lossy_utf8(strip_terminator(buffer@)),
        }),
        buffer@.len() > 0 && valid_utf8(strip_terminator(buffer@)) ==> m@
            == (MessageView::ReceivedText { text: decode_utf8(strip_terminator(buffer@)) }),
{
    if buffer.len() == 0 {
        Message::Exit
    } else {
        let last = buffer[buffer.len() - 1];
        let end = if last == 0u8 {
            buffer.len() - 1
        } else {
            buffer.len()
        };
        let record = vstd::slice::slice_subrange(buffer, 0, end);
        proof {
            assert(record@ =~= strip_terminator(buffer@));
        }
        Message::ReceivedText { text: from_utf8_lossy(record) }
    }
}

/// The whole event sequence that an input stream produces: one `ReceivedText`
/// per framed record, then the `Exit` sentinel.
pub fn input_events(input: &[u8]) -> (events: Vec<Message>)
    ensures
        events@.len() == split_spec(input@).len() + 1,
        forall|i: int|
            0 <= i < split_spec(input@).len() ==> #[trigger] events@[i]@
                == (MessageView::ReceivedText { text: lossy_utf8(split_spec(input@)[i]) }),
        forall|i: int|
            0 <= i < split_spec(input@).len() && valid_utf8(#[trigger] split_spec(input@)[i])
                ==> events@[i]@ == (MessageView::ReceivedText {
                text: decode_utf8(split_spec(input@)[i]),
            }),
        events@.last()@ == MessageView::Exit,
{
    let texts = decode_records(input);
    let mut events: Vec<Message> = Vec::new();
    let mut i: usize = 0;
    while i < texts.len()
        invariant
            texts@.len() == split_spec(input@).len(),
            forall|k: int| 0 <= k < texts@.len() ==> texts@[k]@ == lossy_utf8(
                #[trigger] split_spec(input@)[k],
            ),
            forall|k: int|
                0 <= k < texts@.len() && valid_utf8(#[trigger] split_spec(input@)[k])
                    ==> texts@[k]@ == decode_utf8(split_spec(input@)[k]),
            0 <= i <= texts@.len(),
            events@.len() == i,
            forall|k: int|
                0 <= k < i ==> #[trigger] events@[k]@ == (MessageView::ReceivedText {
                    text: texts@[k]@,
                }),
        decreases texts.len() - i,
    {
        events.push(Message::ReceivedText { text: texts[i].clone() });
        i = i + 1;
    }
    events.push(Message::Exit);
    events
}

proof fn lemma_encode_scalar_no_nul(c: u32)
    requires
        vstd::utf8::is_scalar(c),
        c != 0,
    ensures
        forall|j: int|
            0 <= j < vstd::utf8::encode_scalar(c).len() ==> vstd::utf8::encode_scalar(c)[j]
                != 0u8,
{
    if vstd::utf8::has_width_1_encoding(c) {
        assert(((c & 0x7F) as u8) != 0u8) by (bit_vector)
            requires
                c <= 0x7F,
                c != 0,
        ;
    } else {
        assert((0xC0u8 | (((c >> 6) & 0x1F) as u8)) != 0u8) by (bit_vector);
        assert((0xE0u8 | (((c >> 12) & 0x0F) as u8)) != 0u8) by (bit_vector);
        assert((0xF0u8 | (((c >> 18) & 0x7) as u8)) != 0u8) by (bit_vector);
        assert((0x80u8 | ((c & 0x3F) as u8)) != 0u8) by (bit_vector);
        assert((0x80u8 | (((c >> 6) & 0x3F) as u8)) != 0u8) by (bit_vector);
        assert((0x80u8 | (((c >> 12) & 0x3F) as u8)) != 0u8) by (bit_vector);
    }
}

proof fn lemma_no_nul_encoding(text: Seq<char>)
    requires
        forall|i: int| 0 <= i < text.len() ==> text[i] != '\0',
    ensures
        forall|j: int| 0 <= j < encode_utf8(text).len() ==> encode_utf8(text)[j] != 0u8,
    decreases text.len(),
{
    if text.len() > 0 {
        let c = text[0] as u32;
        vstd::utf8::char_is_scalar(text[0]);
        if c == 0 {
            vstd::utf8::char_u32_cast(text[0], c);
            assert(false);
        }
        lemma_encode_scalar_no_nul(c);
        assert(forall|i: int| 0 <= i < text.drop_first().len() ==> text.drop_first()[i] != '\0');
        lemma_no_nul_encoding(text.drop_first());
        let head = vstd::utf8::encode_scalar(c);
        let tail = encode_utf8(text.drop_first());
        assert(encode_utf8(text) == head + tail);
        assert forall|j: int| 0 <= j < encode_utf8(text).len() implies encode_utf8(text)[j]
            != 0u8 by {
            if j < head.len() {
                assert((head + tail)[j] == head[j]);
            } else {
                assert((head + tail)[j] == tail[j - head.len()]);
            }
        }
    }
}

/// Framing round trip: encoding any NUL-free texts into one stream and
/// splitting that stream back yields exactly the original texts, each as its
/// own valid-UTF-8 record.
pub proof fn lemma_framing_round_trip(texts: Seq<Seq<char>>)
    requires
        forall|i: int, j: int|
            0 <= i < texts.len() && 0 <= j < texts[i].len() ==> texts[i][j] != '\0',
    ensures
        split_spec(encode_stream_spec(texts)).len() == texts.len(),
        forall|i: int|
            0 <= i < texts.len() ==> #[trigger] split_spec(encode_stream_spec(texts))[i]
                == encode_utf8(texts[i]),
        forall|i: int|
            0 <= i < texts.len() ==> valid_utf8(
                #[trigger] split_spec(encode_stream_spec(texts))[i],
            ) && decode_utf8(split_spec(encode_stream_spec(texts))[i]) == texts[i],
    decreases texts.len(),
{
    if texts.len() > 0 {
        let enc0 = encode_utf8(texts[0]);
        let rest = encode_stream_spec(texts.drop_first());
        lemma_no_nul_encoding(texts[0]);
        assert(encode_stream_spec(texts) =~= enc0 + seq![0u8] + rest);
        lemma_split_stream(enc0, rest);
        lemma_framing_round_trip(texts.drop_first());
        encode_utf8_valid_utf8(texts[0]);
        encode_utf8_decode_utf8(texts[0]);
        assert(forall|i: int|
            1 <= i < texts.len() ==> #[trigger] split_spec(encode_stream_spec(texts))[i]
                == split_spec(rest)[i - 1] && texts[i] == texts.drop_first()[i - 1]);
    }
}

/// Append one framed record to `out`: the text's UTF-8 bytes, then the
/// terminator.
pub fn encode_record(text: &str, out: &mut Vec<u8>)
    ensures
        final(out)@ == old(out)@ + encode_record_spec(text@),
{
    out.extend_from_slice(text.as_bytes());
    out.push(0u8);
    proof {
        assert(out@ =~= old(out)@ + encode_record_spec(text@));
    }
}

proof fn lemma_encode_stream_snoc(texts: Seq<Seq<char>>, text: Seq<char>)
    ensures
        encode_stream_spec(texts.push(text)) == encode_stream_spec(texts) + encode_record_spec(
            text,
        ),
    decreases texts.len(),
{
    if texts.len() == 0 {
        assert(texts.push(text).drop_first() =~= texts);
        assert(encode_stream_spec(texts.push(text)) =~= encode_stream_spec(texts)
            + encode_record_spec(text));
    } else {
        assert(texts.push(text).drop_first() =~= texts.drop_first().push(text));
        lemma_encode_stream_snoc(texts.drop_first(), text);
        assert(encode_stream_spec(texts.push(text)) =~= encode_stream_spec(texts)
            + encode_record_spec(text));
    }
}

/// Frame every text of `texts` into one output stream, in order.
pub fn encode_texts(texts: &Vec<String>) -> (out: Vec<u8>)
    ensures
        out@ == encode_stream_spec(texts@.map_values(|t: String| t@)),
{
    let ghost views = texts@.map_values(|t: String| t@);
    let mut out: Vec<u8> = Vec::new();
    let mut i: usize = 0;
    while i < texts.len()
        invariant
            0 <= i <= texts.len(),
            views == texts@.map_values(|t: String| t@),
            out@ == encode_stream_spec(views.take(i as int)),
        decreases texts.len() - i,
    {
        proof {
            assert(views.take(i + 1) =~= views.take(i as int).push(views[i as int]));
            lemma_encode_stream_snoc(views.take(i as int), views[i as int]);
        }
        encode_record(texts[i].as_str(), &mut out);
        i = i + 1;
    }
    proof {
        assert(views.take(texts.len() as int) =~= views);
    }
    out
}

} // verus!
