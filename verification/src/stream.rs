use vstd::prelude::*;

use crate::codec::decode_line;
use crate::codec::decode_range;
use crate::codec::encode_model;
use crate::codec::lemma_encode_model_clean;
use crate::codec::lemma_entry_round_trip;
use crate::codec::line_clean;
use crate::codec::str_to_chars;
use crate::entry::EntryModel;
use crate::entry::LogEntry;
use crate::entry::wf_models;
use crate::gz::gunzip_text;
use crate::gz::gunzip_to_text;

verus! {

/// Index of the first line terminator in `s`, if there is one.
pub open spec fn first_nl(s: Seq<char>) -> Option<nat>
    decreases s.len(),
{
    if s.len() == 0 {
        None
    } else if s[0] == '\n' {
        Some(0nat)
    } else {
        match first_nl(s.skip(1)) {
            None => None,
            Some(k) => Some((k + 1) as nat),
        }
    }
}

pub proof fn lemma_first_nl_none(s: Seq<char>)
    requires
        line_clean(s),
    ensures
        first_nl(s) is None,
    decreases s.len(),
{
    if s.len() > 0 {
        assert(forall|i: int| 0 <= i < s.skip(1).len() ==> #[trigger] s.skip(1)[i] != '\n');
        lemma_first_nl_none(s.skip(1));
    }
}

pub proof fn lemma_first_nl_at(s: Seq<char>, k: int)
    requires
        0 <= k < s.len(),
        s[k] == '\n',
        forall|j: int| 0 <= j < k ==> s[j] != '\n',
    ensures
        first_nl(s) == Some(k as nat),
    decreases k,
{
    if k > 0 {
        assert(s[0] != '\n');
        assert(s.skip(1)[k - 1] == s[k]);
        assert(forall|j: int| 0 <= j < k - 1 ==> #[trigger] s.skip(1)[j] == s[j + 1]);
        lemma_first_nl_at(s.skip(1), k - 1);
    }
}

/// The records of a character stream, read one line at a time. The sequence
/// ends at the end of the input, at an unterminated trailing line (a
/// truncated tail, which is dropped), or at the first line that does not
/// parse.
pub open spec fn records_of(s: Seq<char>) -> Seq<EntryModel>
    decreases s.len(),
{
    match first_nl(s) {
        None => Seq::empty(),
        Some(k) => if k < s.len() {
            match decode_line(s.take(k as int)) {
                None => Seq::empty(),
                Some(m) => seq![m] + records_of(s.skip(k as int + 1)),
            }
        } else {
            Seq::empty()
        },
    }
}

/// The framed encoding of a whole sequence of records: each record's line
/// followed by one line terminator.
pub open spec fn encode_stream(es: Seq<EntryModel>) -> Seq<char>
    decreases es.len(),
{
    if es.len() == 0 {
        Seq::empty()
    } else {
        encode_model(es[0]) + seq!['\n'] + encode_stream(es.skip(1))
    }
}

/// Appending one framed record extends the encoded stream at its end.
pub proof fn lemma_encode_stream_snoc(es: Seq<EntryModel>, m: EntryModel)
    ensures
        encode_stream(es.push(m)) == encode_stream(es) + encode_model(m) + seq!['\n'],
    decreases es.len(),
{
    if es.len() == 0 {
        let single = es.push(m);
        assert(single.skip(1) =~= Seq::<EntryModel>::empty());
        assert(encode_stream(Seq::<EntryModel>::empty()) == Seq::<char>::empty());
        assert(encode_stream(es) + encode_model(m) + seq!['\n'] =~= encode_model(m) + seq!['\n']
            + Seq::<char>::empty());
    } else {
        assert(es.push(m)[0] == es[0]);
        assert(es.push(m).skip(1) =~= es.skip(1).push(m));
        lemma_encode_stream_snoc(es.skip(1), m);
        assert(encode_model(es[0]) + seq!['\n'] + (encode_stream(es.skip(1)) + encode_model(m)
            + seq!['\n']) =~= (encode_model(es[0]) + seq!['\n'] + encode_stream(es.skip(1)))
            + encode_model(m) + seq!['\n']);
    }
}

/// Truncation tolerance: the framed encodings of any well-formed records,
/// followed by any unterminated tail, read back as exactly those records;
/// the tail is dropped silently.
pub proof fn lemma_records_of_stream(es: Seq<EntryModel>, tail: Seq<char>)
    requires
        wf_models(es),
        line_clean(tail),
    ensures
        records_of(encode_stream(es) + tail) == es,
    decreases es.len(),
{
    if es.len() == 0 {
        assert(encode_stream(es) + tail =~= tail);
        lemma_first_nl_none(tail);
        assert(es =~= Seq::<EntryModel>::empty());
    } else {
        let m = es[0];
        let enc = encode_model(m);
        let rest = encode_stream(es.skip(1)) + tail;
        let s = encode_stream(es) + tail;
        assert(s =~= enc + seq!['\n'] + rest);
        lemma_encode_model_clean(m);
        assert(s[enc.len() as int] == '\n');
        assert(forall|j: int| 0 <= j < enc.len() ==> #[trigger] s[j] == enc[j]);
        lemma_first_nl_at(s, enc.len() as int);
        assert(s.take(enc.len() as int) =~= enc);
        assert(wf_models(es) ==> crate::entry::wf_model(m));
        lemma_entry_round_trip(m);
        assert(s.skip(enc.len() as int + 1) =~= rest);
        assert(forall|i: int| 0 <= i < es.skip(1).len() ==> crate::entry::wf_model(
            #[trigger] es.skip(1)[i],
        ));
        lemma_records_of_stream(es.skip(1), tail);
        assert(seq![m] + es.skip(1) =~= es);
    }
}

/// Round trip of a whole stream: encoding any well-formed records and
/// reading the stream back yields exactly those records, in order.
pub proof fn lemma_stream_round_trip(es: Seq<EntryModel>)
    requires
        wf_models(es),
    ensures
        records_of(encode_stream(es)) == es,
{
    lemma_records_of_stream(es, Seq::empty());
    assert(encode_stream(es) + Seq::<char>::empty() =~= encode_stream(es));
}

/// End to end: the bytes a finished sink hands back read as exactly the
/// records the sink accepted, in order.
pub proof fn lemma_sink_bytes_read_back(data: Seq<u8>, es: Seq<EntryModel>)
    requires
        gunzip_text(data) == Some(encode_stream(es)),
        wf_models(es),
    ensures
        records_of(gunzip_text(data).unwrap()) == es,
{
    lemma_stream_round_trip(es);
}

/// An empty stream holds no records.
pub proof fn lemma_empty_stream()
    ensures
        records_of(Seq::<char>::empty()) == Seq::<EntryModel>::empty(),
{
}

/// Forward-only reader over the text of a decompressed stream: yields one
/// record per complete line, and ends permanently at the end of the input,
/// at a truncated trailing line, or at the first line that does not parse.
pub struct LogEntryIter {
    chars: Vec<char>,
    pos: usize,
    done: bool,
}

impl LogEntryIter {
    pub closed spec fn wf(&self) -> bool {
        self.pos <= self.chars@.len()
    }

    /// The records this iterator has yet to yield.
    pub closed spec fn remaining(&self) -> Seq<EntryModel> {
        if self.done {
            Seq::empty()
        } else {
            records_of(self.chars@.skip(self.pos as int))
        }
    }

    /// A fresh reader over decompressed text.
    pub fn from_text(s: &str) -> (r: LogEntryIter)
        ensures
            r.wf(),
            r.remaining() == records_of(s@),
    {
        let chars = str_to_chars(s);
        proof {
            assert(chars@.skip(0) =~= chars@);
        }
        LogEntryIter { chars, pos: 0, done: false }
    }

    /// Yields the next record, or `None` once the sequence has ended; after
    /// `None` every further call yields `None` again.
    pub fn next(&mut self) -> (r: Option<LogEntry>)
        requires
            old(self).wf(),
        ensures
            final(self).wf(),
            r matches Some(e) ==> old(self).remaining().len() > 0 && e@ == old(self).remaining()[0] && e.wf() && final(self).remaining() == old(self).remaining().skip(1),
            r is None ==> old(self).remaining() == Seq::<EntryModel>::empty() && final(self).remaining() == Seq::<EntryModel>::empty(),
    {
        if self.done {
            return None;
        }
        let ghost s = self.chars@.skip(self.pos as int);
        let mut k: usize = self.pos;
        while k < self.chars.len() && self.chars[k] != '\n'
            invariant
                *self == *old(self),
                !self.done,
                old(self).wf(),
                s == self.chars@.skip(self.pos as int),
                self.pos <= k <= self.chars@.len(),
                forall|j: int| self.pos <= j < k ==> self.chars@[j] != '\n',
            decreases self.chars@.len() - k,
        {
            k += 1;
        }
        if k == self.chars.len() {
            proof {
                assert(forall|i: int| 0 <= i < s.len() ==> #[trigger] s[i] != '\n');
                lemma_first_nl_none(s);
            }
            self.done = true;
            return None;
        }
        proof {
            assert(s[k - self.pos] == self.chars@[k as int]);
            assert(forall|j: int| 0 <= j < k - self.pos ==> #[trigger] s[j] == self.chars@[j + self.pos]);
            lemma_first_nl_at(s, k - self.pos);
            assert(s.take(k - self.pos) =~= self.chars@.subrange(self.pos as int, k as int));
        }
        let r = decode_range(&self.chars, self.pos, k);
        match r {
            None => {
                self.done = true;
                None
            },
            Some(e) => {
                proof {
                    assert(s.skip(k - self.pos + 1) =~= self.chars@.skip(k + 1));
                    assert((seq![e@] + records_of(self.chars@.skip(k + 1))).skip(1)
                        =~= records_of(self.chars@.skip(k + 1)));
                }
                self.pos = k + 1;
                Some(e)
            },
        }
    }
}

/// Opens a compressed byte stream for reading: yields a reader over its
/// records. Fails exactly when the bytes do not decompress and decode to
/// text.
pub fn read_bytes(data: &Vec<u8>) -> (r: Option<LogEntryIter>)
    ensures
        r is Some <==> gunzip_text(data@) is Some,
        r matches Some(it) ==> it.wf() && it.remaining() == records_of(
            gunzip_text(data@).unwrap(),
        ),
{
    match gunzip_to_text(data) {
        None => None,
        Some(text) => Some(LogEntryIter::from_text(text.as_str())),
    }
}

} // verus!
