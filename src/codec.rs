//! Executable encoders and decoders, each proved against `wire`.

use vstd::prelude::*;
use crate::message::{
    Answer, AnswerView, DnsError, Header, Message, MessageView, Question, QuestionView,
};
use crate::wire::{
    answer_bytes, answers_bytes, encodable, encode_message, header_bytes,
    lemma_answers_err_persists, lemma_questions_err_persists, message_bytes, name_bytes,
    parse_answer, parse_answers, parse_header, parse_message, parse_name, parse_question,
    parse_questions, pointer_target, question_bytes, questions_bytes, u16_at, u16_bytes, u32_at,
    u32_bytes,
};

verus! {

/// The big-endian 16-bit integer at `i`.
pub fn read_u16(buf: &[u8], i: usize) -> (r: u16)
    requires
        i + 1 < buf@.len(),
    ensures
        r == u16_at(buf@, i as int),
{
    (buf[i] as u16) * 256 + buf[i + 1] as u16
}

/// The big-endian 32-bit integer at `i`.
pub fn read_u32(buf: &[u8], i: usize) -> (r: u32)
    requires
        i + 3 < buf@.len(),
    ensures
        r == u32_at(buf@, i as int),
{
    (buf[i] as u32) * 0x100_0000 + (buf[i + 1] as u32) * 0x1_0000 + (buf[i + 2] as u32) * 256
        + buf[i + 3] as u32
}

pub fn push_u16(out: &mut Vec<u8>, x: u16)
    ensures
        final(out)@ == old(out)@ + u16_bytes(x),
{
    out.push((x / 256) as u8);
    out.push((x % 256) as u8);
    assert(final(out)@ =~= old(out)@ + u16_bytes(x));
}

pub fn push_u32(out: &mut Vec<u8>, x: u32)
    ensures
        final(out)@ == old(out)@ + u32_bytes(x),
{
    out.push((x / 0x100_0000) as u8);
    out.push(((x / 0x1_0000) % 256) as u8);
    out.push(((x / 256) % 256) as u8);
    out.push((x % 256) as u8);
    assert(final(out)@ =~= old(out)@ + u32_bytes(x));
}

/// Appends `bytes` to `out`.
pub fn push_all(out: &mut Vec<u8>, bytes: &[u8])
    ensures
        final(out)@ == old(out)@ + bytes@,
{
    let mut i: usize = 0;
    while i < bytes.len()
        invariant
            i <= bytes@.len(),
            out@ == old(out)@ + bytes@.subrange(0, i as int),
        decreases bytes@.len() - i,
    {
        out.push(bytes[i]);
        i = i + 1;
        assert(out@ =~= old(out)@ + bytes@.subrange(0, i as int));
    }
    assert(bytes@.subrange(0, i as int) =~= bytes@);
}

/// Appends `buf[from..to]` to `out`.
pub fn push_range(out: &mut Vec<u8>, buf: &[u8], from: usize, to: usize)
    requires
        from <= to <= buf@.len(),
    ensures
        final(out)@ == old(out)@ + buf@.subrange(from as int, to as int),
{
    let mut i: usize = from;
    while i < to
        invariant
            from <= i <= to <= buf@.len(),
            out@ == old(out)@ + buf@.subrange(from as int, i as int),
        decreases to - i,
    {
        out.push(buf[i]);
        i = i + 1;
        assert(out@ =~= old(out)@ + buf@.subrange(from as int, i as int));
    }
}

/// What the whole name decodes to, given the labels read so far, the end
/// position fixed by the first pointer followed (if any), and what the
/// rest decodes to.
pub open spec fn join_name(
    prefix: Seq<u8>,
    end: Option<usize>,
    rest: Result<(Seq<u8>, int), DnsError>,
) -> Result<(Seq<u8>, int), DnsError> {
    match rest {
        Ok((s, p)) => Ok(
            (
                prefix + s,
                match end {
                    Some(e) => e as int,
                    None => p,
                },
            ),
        ),
        Err(e) => Err(e),
    }
}

/// Decodes the name at `pos`, following compression pointers. Each pointer
/// must point before the start of the name part that holds it, so the walk
/// always ends; else the result is `CompressionLoop`.
pub fn read_dns_name(buf: &[u8], pos: usize) -> (r: Result<(Vec<u8>, usize), DnsError>)
    ensures
        match r {
            Ok((n, p)) => parse_name(buf@, pos as int, pos as int) == Ok::<(Seq<u8>, int), DnsError>((n@, p as int)),
            Err(e) => parse_name(buf@, pos as int, pos as int) == Err::<(Seq<u8>, int), DnsError>(e),
        },
{
    let mut name: Vec<u8> = Vec::new();
    let mut cur: usize = pos;
    let mut limit: usize = pos;
    let mut end: Option<usize> = None;
    assert(name@ + Seq::<u8>::empty() =~= Seq::<u8>::empty());
    loop
        invariant
            parse_name(buf@, pos as int, pos as int) == join_name(
                name@,
                end,
                parse_name(buf@, cur as int, limit as int),
            ),
        decreases limit, buf@.len() - cur,
    {
        if cur >= buf.len() {
            return Err(DnsError::TruncatedInput);
        }
        let b = buf[cur];
        if b == 0 {
            assert(name@ + Seq::<u8>::empty() =~= name@);
            let e = match end {
                Some(e) => e,
                None => cur + 1,
            };
            return Ok((name, e));
        } else if b >= 0xC0 {
            if cur + 1 >= buf.len() {
                return Err(DnsError::TruncatedInput);
            }
            let target: usize = ((b - 0xC0) as usize) * 256 + buf[cur + 1] as usize;
            assert(target == pointer_target(buf@, cur as int));
            if target >= limit {
                return Err(DnsError::CompressionLoop);
            }
            if end.is_none() {
                end = Some(cur + 2);
            }
            cur = target;
            limit = target;
        } else {
            if b as usize >= buf.len() - cur {
                return Err(DnsError::TruncatedInput);
            }
            let next: usize = cur + 1 + b as usize;
            let ghost before = name@;
            push_range(&mut name, buf, cur, next);
            proof {
                match parse_name(buf@, next as int, limit as int) {
                    Ok((s, p)) => {
                        assert(before + (buf@.subrange(cur as int, next as int) + s) =~= name@ + s);
                    },
                    Err(_) => {},
                }
            }
            cur = next;
        }
    }
}

/// Appends a name in wire form: its label bytes, then a zero byte. No
/// compression is produced.
pub fn write_dns_name(out: &mut Vec<u8>, name: &Vec<u8>)
    ensures
        final(out)@ == old(out)@ + name_bytes(name@),
{
    push_all(out, name.as_slice());
    out.push(0);
    assert(final(out)@ =~= old(out)@ + name_bytes(name@));
}

impl Header {
    /// Decodes the 12-byte header at `pos`.
    pub fn decode_at(buf: &[u8], pos: usize) -> (r: Result<(Header, usize), DnsError>)
        ensures
            match r {
                Ok((h, p)) => parse_header(buf@, pos as int) == Ok::<(Header, int), DnsError>((h, p as int)),
                Err(e) => parse_header(buf@, pos as int) == Err::<(Header, int), DnsError>(e),
            },
    {
        if pos > buf.len() || buf.len() - pos < 12 {
            return Err(DnsError::TruncatedInput);
        }
        let hi = buf[pos + 2];
        let lo = buf[pos + 3];
        let h = Header {
            id: read_u16(buf, pos),
            qr: hi / 128,
            opcode: (hi / 8) % 16,
            aa: (hi / 4) % 2,
            tc: (hi / 2) % 2,
            rd: hi % 2,
            ra: lo / 128,
            z: (lo / 16) % 8,
            rcode: lo % 16,
            qdcount: read_u16(buf, pos + 4),
            ancount: read_u16(buf, pos + 6),
            nscount: read_u16(buf, pos + 8),
            arcount: read_u16(buf, pos + 10),
        };
        Ok((h, pos + 12))
    }

    /// Decodes a header from the start of `buf`; also returns the number of
    /// bytes read.
    pub fn from_bytes(buf: &[u8]) -> (r: Result<(Header, usize), DnsError>)
        ensures
            match r {
                Ok((h, p)) => parse_header(buf@, 0) == Ok::<(Header, int), DnsError>((h, p as int)),
                Err(e) => parse_header(buf@, 0) == Err::<(Header, int), DnsError>(e),
            },
            r is Err <==> buf@.len() < 12,
            buf@.len() < 12 ==> r == Err::<(Header, usize), DnsError>(DnsError::TruncatedInput),
    {
        Header::decode_at(buf, 0)
    }

    /// Appends the wire form of a well-formed header.
    pub fn write_to(&self, out: &mut Vec<u8>)
        requires
            self.well_formed(),
        ensures
            final(out)@ == old(out)@ + header_bytes(*self),
    {
        push_u16(out, self.id);
        out.push(self.qr * 128 + self.opcode * 8 + self.aa * 4 + self.tc * 2 + self.rd);
        out.push(self.ra * 128 + self.z * 16 + self.rcode);
        push_u16(out, self.qdcount);
        push_u16(out, self.ancount);
        push_u16(out, self.nscount);
        push_u16(out, self.arcount);
        assert(final(out)@ =~= old(out)@ + header_bytes(*self));
    }

    /// The 12-byte wire form; fails when a packed field exceeds its width.
    pub fn to_bytes(&self) -> (r: Result<Vec<u8>, DnsError>)
        ensures
            match r {
                Ok(v) => self.well_formed() && v@ == header_bytes(*self),
                Err(e) => !self.well_formed() && e == DnsError::FieldOverflow,
            },
    {
        if self.qr >= 2 || self.opcode >= 16 || self.aa >= 2 || self.tc >= 2 || self.rd >= 2
            || self.ra >= 2 || self.z >= 8 || self.rcode >= 16 {
            return Err(DnsError::FieldOverflow);
        }
        let mut out: Vec<u8> = Vec::new();
        self.write_to(&mut out);
        Ok(out)
    }
}

impl Question {
    /// Decodes the question at `pos`.
    pub fn decode_at(buf: &[u8], pos: usize) -> (r: Result<(Question, usize), DnsError>)
        ensures
            match r {
                Ok((q, p)) => parse_question(buf@, pos as int) == Ok::<(QuestionView, int), DnsError>((q@, p as int)),
                Err(e) => parse_question(buf@, pos as int) == Err::<(QuestionView, int), DnsError>(e),
            },
    {
        let (name, p) = match read_dns_name(buf, pos) {
            Ok(x) => x,
            Err(e) => return Err(e),
        };
        if p > buf.len() || buf.len() - p < 4 {
            return Err(DnsError::TruncatedInput);
        }
        let q = Question { name, record_type: read_u16(buf, p), class: read_u16(buf, p + 2) };
        Ok((q, p + 4))
    }

    /// Decodes a question from the start of `buf`; also returns the number
    /// of bytes read.
    pub fn from_bytes(buf: &[u8]) -> (r: Result<(Question, usize), DnsError>)
        ensures
            match r {
                Ok((q, p)) => parse_question(buf@, 0) == Ok::<(QuestionView, int), DnsError>((q@, p as int)),
                Err(e) => parse_question(buf@, 0) == Err::<(QuestionView, int), DnsError>(e),
            },
    {
        Question::decode_at(buf, 0)
    }

    /// Appends the wire form of the question.
    pub fn write_to(&self, out: &mut Vec<u8>)
        ensures
            final(out)@ == old(out)@ + question_bytes(self@),
    {
        write_dns_name(out, &self.name);
        push_u16(out, self.record_type);
        push_u16(out, self.class);
        assert(final(out)@ =~= old(out)@ + question_bytes(self@));
    }

    /// The wire form of the question; a question always encodes.
    pub fn to_bytes(&self) -> (r: Result<Vec<u8>, DnsError>)
        ensures
            r matches Ok(v) && v@ == question_bytes(self@),
    {
        let mut out: Vec<u8> = Vec::new();
        self.write_to(&mut out);
        assert(out@ =~= question_bytes(self@));
        Ok(out)
    }

    /// A copy with the same view.
    pub fn duplicate(&self) -> (r: Question)
        ensures
            r@ == self@,
    {
        let mut name: Vec<u8> = Vec::new();
        push_all(&mut name, self.name.as_slice());
        assert(name@ =~= self.name@);
        Question { name, record_type: self.record_type, class: self.class }
    }
}

impl Answer {
    /// Decodes the record at `pos`.
    pub fn decode_at(buf: &[u8], pos: usize) -> (r: Result<(Answer, usize), DnsError>)
        ensures
            match r {
                Ok((a, p)) => parse_answer(buf@, pos as int) == Ok::<(AnswerView, int), DnsError>((a@, p as int)),
                Err(e) => parse_answer(buf@, pos as int) == Err::<(AnswerView, int), DnsError>(e),
            },
    {
        let (name, p) = match read_dns_name(buf, pos) {
            Ok(x) => x,
            Err(e) => return Err(e),
        };
        if p > buf.len() || buf.len() - p < 10 {
            return Err(DnsError::TruncatedInput);
        }
        let len = read_u16(buf, p + 8);
        if buf.len() - (p + 10) < len as usize {
            return Err(DnsError::TruncatedInput);
        }
        let mut data: Vec<u8> = Vec::new();
        push_range(&mut data, buf, p + 10, p + 10 + len as usize);
        let a = Answer {
            name,
            record_type: read_u16(buf, p),
            class: read_u16(buf, p + 2),
            ttl: read_u32(buf, p + 4),
            data_length: len,
            data,
        };
        assert(a@.data =~= buf@.subrange(p + 10, p + 10 + len));
        Ok((a, p + 10 + len as usize))
    }

    /// Decodes a record from the start of `buf`; also returns the number of
    /// bytes read.
    pub fn from_bytes(buf: &[u8]) -> (r: Result<(Answer, usize), DnsError>)
        ensures
            match r {
                Ok((a, p)) => parse_answer(buf@, 0) == Ok::<(AnswerView, int), DnsError>((a@, p as int)),
                Err(e) => parse_answer(buf@, 0) == Err::<(AnswerView, int), DnsError>(e),
            },
    {
        Answer::decode_at(buf, 0)
    }

    /// Appends the wire form of a record whose data fits a 16-bit length.
    pub fn write_to(&self, out: &mut Vec<u8>)
        requires
            self.data@.len() <= 0xFFFF,
        ensures
            final(out)@ == old(out)@ + answer_bytes(self@),
    {
        write_dns_name(out, &self.name);
        push_u16(out, self.record_type);
        push_u16(out, self.class);
        push_u32(out, self.ttl);
        push_u16(out, self.data.len() as u16);
        push_all(out, self.data.as_slice());
        assert(final(out)@ =~= old(out)@ + answer_bytes(self@));
    }

    /// The wire form of the record; fails when the data is longer than a
    /// 16-bit length can say.
    pub fn to_bytes(&self) -> (r: Result<Vec<u8>, DnsError>)
        ensures
            match r {
                Ok(v) => self.data@.len() <= 0xFFFF && v@ == answer_bytes(self@),
                Err(e) => self.data@.len() > 0xFFFF && e == DnsError::FieldOverflow,
            },
    {
        if self.data.len() > 0xFFFF {
            return Err(DnsError::FieldOverflow);
        }
        let mut out: Vec<u8> = Vec::new();
        self.write_to(&mut out);
        assert(out@ =~= answer_bytes(self@));
        Ok(out)
    }

    /// A copy with the same view.
    pub fn duplicate(&self) -> (r: Answer)
        ensures
            r@ == self@,
    {
        let mut name: Vec<u8> = Vec::new();
        push_all(&mut name, self.name.as_slice());
        let mut data: Vec<u8> = Vec::new();
        push_all(&mut data, self.data.as_slice());
        assert(name@ =~= self.name@);
        assert(data@ =~= self.data@);
        Answer {
            name,
            record_type: self.record_type,
            class: self.class,
            ttl: self.ttl,
            data_length: self.data_length,
            data,
        }
    }
}

/// The view of an encoding or decoding result, bytes as a sequence.
pub open spec fn bytes_result(r: Result<Vec<u8>, DnsError>) -> Result<Seq<u8>, DnsError> {
    match r {
        Ok(v) => Ok(v@),
        Err(e) => Err(e),
    }
}

/// The view of a message decoding result.
pub open spec fn message_result(r: Result<(Message, usize), DnsError>) -> Result<(MessageView, int), DnsError> {
    match r {
        Ok((m, p)) => Ok((m@, p as int)),
        Err(e) => Err(e),
    }
}

impl Message {
    /// Decodes a message from the start of `buf`; also returns the number of
    /// bytes read. Bytes after the last record are left alone.
    pub fn from_bytes(buf: &[u8]) -> (r: Result<(Message, usize), DnsError>)
        ensures
            message_result(r) == parse_message(buf@),
    {
        let (header, p) = match Header::decode_at(buf, 0) {
            Ok(x) => x,
            Err(e) => return Err(e),
        };
        let mut questions: Vec<Question> = Vec::new();
        let mut cur: usize = p;
        let mut i: u16 = 0;
        assert(questions@.map_values(|q: Question| q@) =~= Seq::<QuestionView>::empty());
        while i < header.qdcount
            invariant
                i <= header.qdcount,
                parse_header(buf@, 0) == Ok::<(Header, int), DnsError>((header, p as int)),
                parse_questions(buf@, p as int, i as nat) == Ok::<(Seq<QuestionView>, int), DnsError>(
                    (questions@.map_values(|q: Question| q@), cur as int),
                ),
            decreases header.qdcount - i,
        {
            let (q, next) = match Question::decode_at(buf, cur) {
                Ok(x) => x,
                Err(e) => {
                    proof {
                        assert(parse_questions(buf@, p as int, (i + 1) as nat) == Err::<(Seq<QuestionView>, int), DnsError>(e));
                        lemma_questions_err_persists(buf@, p as int, (i + 1) as nat, header.qdcount as nat);
                    }
                    return Err(e);
                },
            };
            let ghost before = questions@.map_values(|q: Question| q@);
            questions.push(q);
            assert(questions@.map_values(|q: Question| q@) =~= before.push(q@));
            cur = next;
            i = i + 1;
        }
        let q_end = cur;
        let mut answers: Vec<Answer> = Vec::new();
        let mut j: u16 = 0;
        assert(answers@.map_values(|a: Answer| a@) =~= Seq::<AnswerView>::empty());
        while j < header.ancount
            invariant
                j <= header.ancount,
                parse_header(buf@, 0) == Ok::<(Header, int), DnsError>((header, p as int)),
                parse_questions(buf@, p as int, header.qdcount as nat) == Ok::<(Seq<QuestionView>, int), DnsError>(
                    (questions@.map_values(|q: Question| q@), q_end as int),
                ),
                parse_answers(buf@, q_end as int, j as nat) == Ok::<(Seq<AnswerView>, int), DnsError>(
                    (answers@.map_values(|a: Answer| a@), cur as int),
                ),
            decreases header.ancount - j,
        {
            let (a, next) = match Answer::decode_at(buf, cur) {
                Ok(x) => x,
                Err(e) => {
                    proof {
                        assert(parse_answers(buf@, q_end as int, (j + 1) as nat) == Err::<(Seq<AnswerView>, int), DnsError>(e));
                        lemma_answers_err_persists(buf@, q_end as int, (j + 1) as nat, header.ancount as nat);
                    }
                    return Err(e);
                },
            };
            let ghost before = answers@.map_values(|a: Answer| a@);
            answers.push(a);
            assert(answers@.map_values(|a: Answer| a@) =~= before.push(a@));
            cur = next;
            j = j + 1;
        }
        Ok((Message { header, questions, answers }, cur))
    }

    /// Appends the wire form of an encodable message, with the header's two
    /// counts taken from the sections.
    pub fn write_to(&self, out: &mut Vec<u8>)
        requires
            encodable(self@),
        ensures
            final(out)@ == old(out)@ + message_bytes(self@),
    {
        let ghost m = self@;
        let mut header = self.header;
        header.qdcount = self.questions.len() as u16;
        header.ancount = self.answers.len() as u16;
        header.write_to(out);
        let ghost start = out@;
        let mut i: usize = 0;
        while i < self.questions.len()
            invariant
                m == self@,
                i <= self.questions@.len(),
                out@ == start + questions_bytes(m.questions.take(i as int)),
            decreases self.questions@.len() - i,
        {
            self.questions[i].write_to(out);
            assert(m.questions.take(i + 1).drop_last() =~= m.questions.take(i as int));
            i = i + 1;
            assert(out@ =~= start + questions_bytes(m.questions.take(i as int)));
        }
        assert(m.questions.take(i as int) =~= m.questions);
        let ghost mid = out@;
        let mut j: usize = 0;
        while j < self.answers.len()
            invariant
                m == self@,
                encodable(m),
                j <= self.answers@.len(),
                out@ == mid + answers_bytes(m.answers.take(j as int)),
            decreases self.answers@.len() - j,
        {
            assert(m.answers[j as int].data.len() <= 0xFFFF);
            self.answers[j].write_to(out);
            assert(m.answers.take(j + 1).drop_last() =~= m.answers.take(j as int));
            j = j + 1;
            assert(out@ =~= mid + answers_bytes(m.answers.take(j as int)));
        }
        assert(m.answers.take(j as int) =~= m.answers);
        assert(final(out)@ =~= old(out)@ + message_bytes(m));
    }

    /// The wire form of the message; fails with `FieldOverflow` when it is
    /// not encodable.
    pub fn to_bytes(&self) -> (r: Result<Vec<u8>, DnsError>)
        ensures
            bytes_result(r) == encode_message(self@),
    {
        if self.header.qr >= 2 || self.header.opcode >= 16 || self.header.aa >= 2 || self.header.tc >= 2
            || self.header.rd >= 2 || self.header.ra >= 2 || self.header.z >= 8 || self.header.rcode >= 16
            || self.questions.len() > 0xFFFF || self.answers.len() > 0xFFFF {
            return Err(DnsError::FieldOverflow);
        }
        let mut j: usize = 0;
        while j < self.answers.len()
            invariant
                j <= self.answers@.len(),
                forall|k: int| 0 <= k < j ==> #[trigger] self@.answers[k].data.len() <= 0xFFFF,
            decreases self.answers@.len() - j,
        {
            if self.answers[j].data.len() > 0xFFFF {
                assert(self@.answers[j as int].data.len() > 0xFFFF);
                return Err(DnsError::FieldOverflow);
            }
            j = j + 1;
        }
        let mut out: Vec<u8> = Vec::new();
        self.write_to(&mut out);
        assert(out@ =~= message_bytes(self@));
        Ok(out)
    }
}

} // verus!
