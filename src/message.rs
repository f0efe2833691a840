//! The data model of a DNS message and its mathematical views.

use vstd::prelude::*;

verus! {

/// What can go wrong while decoding or encoding a message.
#[derive(Debug, Clone, Copy, PartialEq, Eq, Structural)]
pub enum DnsError {
    /// A field or record reaches past the end of the buffer.
    TruncatedInput,
    /// A compression pointer does not point strictly before the name part
    /// that holds it, so following it might never end.
    CompressionLoop,
    /// A value does not fit the width of its wire field.
    FieldOverflow,
    /// An upstream reply holds no answer for the question it was asked, or
    /// the number of replies differs from the number of questions.
    MissingAnswer,
}

/// The fixed 12-byte header. The one-bit flags, `opcode`, `z` and `rcode`
/// are held in `u8` fields; a header is well formed when each fits its width.
#[derive(Debug, Clone, Copy, PartialEq, Eq, Structural)]
pub struct Header {
    pub id: u16,
    pub qr: u8,
    pub opcode: u8,
    pub aa: u8,
    pub tc: u8,
    pub rd: u8,
    pub ra: u8,
    pub z: u8,
    pub rcode: u8,
    pub qdcount: u16,
    pub ancount: u16,
    pub nscount: u16,
    pub arcount: u16,
}

impl Header {
    /// Every packed field fits its bit width.
    pub open spec fn well_formed(self) -> bool {
        &&& self.qr < 2
        &&& self.opcode < 16
        &&& self.aa < 2
        &&& self.tc < 2
        &&& self.rd < 2
        &&& self.ra < 2
        &&& self.z < 8
        &&& self.rcode < 16
    }

    /// The same header with the two section counts replaced.
    pub open spec fn with_counts(self, qd: u16, an: u16) -> Header {
        Header { qdcount: qd, ancount: an, ..self }
    }

    pub open spec fn spec_default() -> Header {
        Header {
            id: 1234,
            qr: 1,
            opcode: 0,
            aa: 0,
            tc: 0,
            rd: 0,
            ra: 0,
            z: 0,
            rcode: 0,
            qdcount: 2,
            ancount: 2,
            nscount: 0,
            arcount: 0,
        }
    }
}

impl Default for Header {
    fn default() -> (r: Header)
        ensures
            r == Header::spec_default(),
    {
        Header {
            id: 1234,
            qr: 1,
            opcode: 0,
            aa: 0,
            tc: 0,
            rd: 0,
            ra: 0,
            z: 0,
            rcode: 0,
            qdcount: 2,
            ancount: 2,
            nscount: 0,
            arcount: 0,
        }
    }
}

/// A question: a name in label form (length byte, then the label's bytes,
/// for each label; no terminator), a record type and a class.
#[derive(Debug, Clone, PartialEq, Eq)]
pub struct Question {
    pub name: Vec<u8>,
    pub record_type: u16,
    pub class: u16,
}

pub struct QuestionView {
    pub name: Seq<u8>,
    pub record_type: u16,
    pub class: u16,
}

impl View for Question {
    type V = QuestionView;

    open spec fn view(&self) -> QuestionView {
        QuestionView { name: self.name@, record_type: self.record_type, class: self.class }
    }
}

/// A resource record. `data_length` is what the wire said on decode; encode
/// always writes the length of `data` instead.
#[derive(Debug, PartialEq, Eq)]
pub struct Answer {
    pub name: Vec<u8>,
    pub record_type: u16,
    pub class: u16,
    pub ttl: u32,
    pub data_length: u16,
    pub data: Vec<u8>,
}

pub struct AnswerView {
    pub name: Seq<u8>,
    pub record_type: u16,
    pub class: u16,
    pub ttl: u32,
    pub data_length: u16,
    pub data: Seq<u8>,
}

impl View for Answer {
    type V = AnswerView;

    open spec fn view(&self) -> AnswerView {
        AnswerView {
            name: self.name@,
            record_type: self.record_type,
            class: self.class,
            ttl: self.ttl,
            data_length: self.data_length,
            data: self.data@,
        }
    }
}

/// A whole message: header, questions and answers, in wire order.
#[derive(Debug, PartialEq, Eq)]
pub struct Message {
    pub header: Header,
    pub questions: Vec<Question>,
    pub answers: Vec<Answer>,
}

pub struct MessageView {
    pub header: Header,
    pub questions: Seq<QuestionView>,
    pub answers: Seq<AnswerView>,
}

impl View for Message {
    type V = MessageView;

    open spec fn view(&self) -> MessageView {
        MessageView {
            header: self.header,
            questions: self.questions@.map_values(|q: Question| q@),
            answers: self.answers@.map_values(|a: Answer| a@),
        }
    }
}

} // verus!
