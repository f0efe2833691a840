//! Default values of the message types, and building a name from labels.

use vstd::prelude::*;
use vstd::string::{is_ascii, is_ascii_spec_bytes, StringSliceAdditionalSpecFns};
use crate::codec::push_all;
use crate::message::{Answer, AnswerView, Header, Message, Question, QuestionView};

verus! {

/// The label form of a list of labels: a length byte, then the label's
/// bytes, for each label in order.
pub open spec fn labels_bytes(labels: Seq<Seq<u8>>) -> Seq<u8>
    decreases labels.len(),
{
    if labels.len() == 0 {
        Seq::empty()
    } else {
        labels_bytes(labels.drop_last()) + seq![labels.last().len() as u8] + labels.last()
    }
}

/// The name `codecrafters.io` in label form.
pub open spec fn default_name() -> Seq<u8> {
    seq![12u8, 99, 111, 100, 101, 99, 114, 97, 102, 116, 101, 114, 115, 2, 105, 111]
}

/// Builds a name in label form from its labels, each 1 to 63 bytes long.
pub fn encode_label(labels: &[&str]) -> (r: Vec<u8>)
    requires
        forall|i: int| 0 <= i < labels@.len() ==> 0 < (#[trigger] labels@[i]).spec_bytes().len() < 64,
    ensures
        r@ == labels_bytes(labels@.map_values(|s: &str| s.spec_bytes())),
{
    let ghost all = labels@.map_values(|s: &str| s.spec_bytes());
    let mut result: Vec<u8> = Vec::new();
    let mut i: usize = 0;
    while i < labels.len()
        invariant
            all == labels@.map_values(|s: &str| s.spec_bytes()),
            i <= labels@.len(),
            forall|k: int| 0 <= k < labels@.len() ==> 0 < (#[trigger] labels@[k]).spec_bytes().len() < 64,
            result@ == labels_bytes(all.take(i as int)),
        decreases labels@.len() - i,
    {
        let label: &str = labels[i];
        result.push(label.len() as u8);
        push_all(&mut result, label.as_bytes());
        assert(all.take(i + 1).drop_last() =~= all.take(i as int));
        i = i + 1;
        assert(result@ =~= labels_bytes(all.take(i as int)));
    }
    assert(all.take(i as int) =~= all);
    result
}

fn default_name_bytes() -> (r: Vec<u8>)
    ensures
        r@ == default_name(),
{
    let labels: [&str; 2] = ["codecrafters", "io"];
    proof {
        reveal_strlit("codecrafters");
        reveal_strlit("io");
        broadcast use is_ascii_spec_bytes;
        assert(labels@[0] == "codecrafters");
        assert(labels@[1] == "io");
        assert(is_ascii("codecrafters"));
        assert(is_ascii("io"));
        assert("codecrafters".spec_bytes().len() == 12);
        assert("io".spec_bytes().len() == 2);
        assert("codecrafters".spec_bytes() =~= seq![99u8, 111, 100, 101, 99, 114, 97, 102, 116, 101, 114, 115]);
        assert("io".spec_bytes() =~= seq![105u8, 111]);
    }
    let r = encode_label(&labels);
    proof {
        let all = labels@.map_values(|s: &str| s.spec_bytes());
        let first = seq![99u8, 111, 100, 101, 99, 114, 97, 102, 116, 101, 114, 115];
        let second = seq![105u8, 111];
        assert(all =~= seq![first, second]);
        assert(all.drop_last() =~= seq![first]);
        assert(all.drop_last().drop_last() =~= Seq::<Seq<u8>>::empty());
        let one = all.drop_last();
        assert(one.last() == first);
        assert(labels_bytes(one.drop_last()) =~= Seq::<u8>::empty());
        assert(labels_bytes(one) =~= seq![12u8] + first);
        assert(all.last() == second);
        assert(r@ =~= default_name());
    }
    r
}

impl Default for Question {
    /// A type-A, class-IN question for `codecrafters.io`.
    fn default() -> (r: Question)
        ensures
            r@ == (QuestionView { name: default_name(), record_type: 1, class: 1 }),
    {
        Question { name: default_name_bytes(), record_type: 1, class: 1 }
    }
}

/// The default record: `codecrafters.io`, type A, class IN, ttl 60, data
/// 8.8.8.8.
pub open spec fn default_answer() -> AnswerView {
    AnswerView {
        name: default_name(),
        record_type: 1,
        class: 1,
        ttl: 60,
        data_length: 4,
        data: seq![8u8, 8u8, 8u8, 8u8],
    }
}

impl Default for Answer {
    fn default() -> (r: Answer)
        ensures
            r@ == default_answer(),
    {
        let data: Vec<u8> = vec![8, 8, 8, 8];
        assert(data@ =~= seq![8u8, 8u8, 8u8, 8u8]);
        Answer {
            name: default_name_bytes(),
            record_type: 1,
            class: 1,
            ttl: 60,
            data_length: 4,
            data,
        }
    }
}

impl Default for Message {
    /// The default header with two default questions and two default
    /// answers, so that its counts match its sections.
    fn default() -> (r: Message)
        ensures
            r@.header == Header::spec_default(),
            r@.questions == seq![
                QuestionView { name: default_name(), record_type: 1, class: 1 },
                QuestionView { name: default_name(), record_type: 1, class: 1 },
            ],
            r@.answers == seq![default_answer(), default_answer()],
    {
        let questions: Vec<Question> = vec![Question::default(), Question::default()];
        let answers: Vec<Answer> = vec![Answer::default(), Answer::default()];
        let r = Message { header: Header::default(), questions, answers };
        assert(r@.questions =~= seq![
            QuestionView { name: default_name(), record_type: 1, class: 1 },
            QuestionView { name: default_name(), record_type: 1, class: 1 },
        ]);
        assert(r@.answers =~= seq![default_answer(), default_answer()]);
        r
    }
}

} // verus!
