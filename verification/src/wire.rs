//! DNS messages as plain values.
//!
//! The wire format is `hickory_proto`'s. What the resolvers decide on is read into the types of this
//! module once, and a decided reply is handed back to be encoded, so the decisions themselves are
//! verified over plain values.
use hickory_proto::op::{Message, MessageType, OpCode, ResponseCode};
use hickory_proto::rr::rdata::{A, NS, SOA, TXT};
use hickory_proto::rr::{Name, RData, Record};
use vstd::prelude::*;
use vstd::string::*;

verus! {

/// Type code of an address record.
pub const TYPE_A: u16 = 1;

/// Type code of a name-server record.
pub const TYPE_NS: u16 = 2;

/// Type code of a start-of-authority record.
pub const TYPE_SOA: u16 = 6;

/// Type code of a text record.
pub const TYPE_TXT: u16 = 16;

/// Query type of an incremental zone transfer.
pub const TYPE_IXFR: u16 = 251;

/// Query type of a zone transfer.
pub const TYPE_AXFR: u16 = 252;

/// Query type that asks for every record.
pub const TYPE_ANY: u16 = 255;

/// A domain name: its labels, the one nearest the root last.
pub struct DnsName {
    pub labels: Vec<Vec<u8>>,
    /// Whether the name was written out to the root.
    pub absolute: bool,
}

/// The model of a domain name.
#[verifier::ext_equal]
pub struct NameView {
    pub labels: Seq<Seq<u8>>,
    pub absolute: bool,
}

impl View for DnsName {
    type V = NameView;

    open spec fn view(&self) -> NameView {
        NameView { labels: self.labels.deep_view(), absolute: self.absolute }
    }
}

/// One question of a query.
pub struct Question {
    pub name: DnsName,
    pub qtype: u16,
    pub qclass: u16,
}

/// The model of a question.
#[verifier::ext_equal]
pub struct QuestionView {
    pub name: NameView,
    pub qtype: u16,
    pub qclass: u16,
}

impl View for Question {
    type V = QuestionView;

    open spec fn view(&self) -> QuestionView {
        QuestionView { name: self.name@, qtype: self.qtype, qclass: self.qclass }
    }
}

/// What a resolver reads of an incoming message.
pub struct Query {
    pub id: u16,
    /// Whether the message is itself a reply.
    pub is_reply: bool,
    pub op_code: u8,
    pub recursion_desired: bool,
    /// The largest datagram that the asker takes.
    pub max_payload: u16,
    pub questions: Vec<Question>,
}

/// The model of an incoming message.
#[verifier::ext_equal]
pub struct QueryView {
    pub id: u16,
    pub is_reply: bool,
    pub op_code: u8,
    pub recursion_desired: bool,
    pub max_payload: u16,
    pub questions: Seq<QuestionView>,
}

/// The models of a list of questions.
pub open spec fn question_views(s: Seq<Question>) -> Seq<QuestionView> {
    s.map_values(|q: Question| q@)
}

impl View for Query {
    type V = QueryView;

    open spec fn view(&self) -> QueryView {
        QueryView {
            id: self.id,
            is_reply: self.is_reply,
            op_code: self.op_code,
            recursion_desired: self.recursion_desired,
            max_payload: self.max_payload,
            questions: question_views(self.questions@),
        }
    }
}

/// How a query was dealt with.
#[derive(Clone, Copy, Debug, PartialEq, Eq, Structural)]
pub enum Rcode {
    NoError,
    FormErr,
    NXDomain,
    NotImp,
    Refused,
}

impl Rcode {
    /// The number that stands for the code on the wire.
    pub open spec fn number(self) -> u8 {
        match self {
            Rcode::NoError => 0,
            Rcode::FormErr => 1,
            Rcode::NXDomain => 3,
            Rcode::NotImp => 4,
            Rcode::Refused => 5,
        }
    }

    /// The number that stands for the code on the wire.
    pub fn code(self) -> (r: u8)
        ensures
            r == self.number(),
    {
        match self {
            Rcode::NoError => 0,
            Rcode::FormErr => 1,
            Rcode::NXDomain => 3,
            Rcode::NotImp => 4,
            Rcode::Refused => 5,
        }
    }
}

/// The header of a reply.
#[derive(Clone, Copy, Debug, PartialEq, Eq, Structural)]
pub struct Head {
    pub id: u16,
    pub op_code: u8,
    pub recursion_desired: bool,
    pub recursion_available: bool,
    pub authoritative: bool,
    pub truncated: bool,
    pub code: Rcode,
}

/// What a record says.
pub enum Data {
    /// An IPv4 address.
    Addr(u32),
    /// A name server.
    Server(DnsName),
    /// The zone's authority: primary server, mailbox and serial, and the seconds after which a copy is
    /// refreshed, a failed refresh is tried again, and a copy expires, and for which a denial is kept.
    Authority {
        server: DnsName,
        mailbox: DnsName,
        serial: u32,
        refresh: i32,
        retry: i32,
        expire: i32,
        minimum: u32,
    },
    /// A text.
    Text(String),
}

/// The model of what a record says.
pub enum DataView {
    Addr(u32),
    Server(NameView),
    Authority {
        server: NameView,
        mailbox: NameView,
        serial: u32,
        refresh: i32,
        retry: i32,
        expire: i32,
        minimum: u32,
    },
    Text(Seq<char>),
}

impl View for Data {
    type V = DataView;

    open spec fn view(&self) -> DataView {
        match self {
            Data::Addr(a) => DataView::Addr(*a),
            Data::Server(n) => DataView::Server(n@),
            Data::Authority { server, mailbox, serial, refresh, retry, expire, minimum } => {
                DataView::Authority {
                    server: server@,
                    mailbox: mailbox@,
                    serial: *serial,
                    refresh: *refresh,
                    retry: *retry,
                    expire: *expire,
                    minimum: *minimum,
                }
            },
            Data::Text(s) => DataView::Text(s@),
        }
    }
}

/// A record of a reply.
pub struct Answer {
    pub owner: DnsName,
    pub ttl: u32,
    pub data: Data,
}

/// The model of a record.
pub struct AnswerView {
    pub owner: NameView,
    pub ttl: u32,
    pub data: DataView,
}

impl View for Answer {
    type V = AnswerView;

    open spec fn view(&self) -> AnswerView {
        AnswerView { owner: self.owner@, ttl: self.ttl, data: self.data@ }
    }
}

/// The models of a list of records.
pub open spec fn answer_views(s: Seq<Answer>) -> Seq<AnswerView> {
    s.map_values(|a: Answer| a@)
}

/// A decided reply.
pub struct Reply {
    pub head: Head,
    pub questions: Vec<Question>,
    pub answers: Vec<Answer>,
    pub authorities: Vec<Answer>,
}

/// The model of a reply.
#[verifier::ext_equal]
pub struct ReplyView {
    pub head: Head,
    pub questions: Seq<QuestionView>,
    pub answers: Seq<AnswerView>,
    pub authorities: Seq<AnswerView>,
}

impl View for Reply {
    type V = ReplyView;

    open spec fn view(&self) -> ReplyView {
        ReplyView {
            head: self.head,
            questions: question_views(self.questions@),
            answers: answer_views(self.answers@),
            authorities: answer_views(self.authorities@),
        }
    }
}

/// The octets that `labels` take on the wire, the root's included.
pub open spec fn wire_len(labels: Seq<Seq<u8>>) -> nat
    decreases labels.len(),
{
    if labels.len() == 0 {
        1
    } else {
        wire_len(labels.drop_last()) + labels.last().len() + 1
    }
}

/// A name that fits the wire: labels of 1 to 63 octets, 255 octets in all.
pub open spec fn fits(n: NameView) -> bool {
    &&& forall|i: int| 0 <= i < n.labels.len() ==> 1 <= (#[trigger] n.labels[i]).len() <= 63
    &&& wire_len(n.labels) <= 255
}

/// What a record needs of the names in it to be encoded.
pub open spec fn record_fits(a: AnswerView) -> bool {
    &&& fits(a.owner)
    &&& match a.data {
        DataView::Server(n) => fits(n),
        DataView::Authority { server, mailbox, .. } => fits(server) && fits(mailbox),
        _ => true,
    }
}

/// What a reply needs of the names in it to be encoded.
pub open spec fn reply_fits(r: ReplyView) -> bool {
    &&& forall|i: int| 0 <= i < r.questions.len() ==> fits((#[trigger] r.questions[i]).name)
    &&& forall|i: int| 0 <= i < r.answers.len() ==> record_fits(#[trigger] r.answers[i])
    &&& forall|i: int| 0 <= i < r.authorities.len() ==> record_fits(#[trigger] r.authorities[i])
}

/// `hickory_proto::op::Message`, a message under construction.
#[verifier::external_type_specification]
#[verifier::external_body]
pub struct ExMessage(Message);

/// The header that a message was made with.
pub uninterp spec fn message_head(m: Message) -> Head;

/// The questions that a message holds, in order.
pub uninterp spec fn message_questions(m: Message) -> Seq<QuestionView>;

/// The records in a message's answer section, in order.
pub uninterp spec fn message_answers(m: Message) -> Seq<AnswerView>;

/// The records in a message's authority section, in order.
pub uninterp spec fn message_authorities(m: Message) -> Seq<AnswerView>;

/// The octets of a message with this header and these sections, when they can be encoded.
pub uninterp spec fn message_octets(
    head: Head,
    questions: Seq<QuestionView>,
    answers: Seq<AnswerView>,
    authorities: Seq<AnswerView>,
) -> Option<Seq<u8>>;

/// What `hickory_proto` reads in the octets of a message, when they are one.
pub uninterp spec fn message_query(octets: Seq<u8>) -> Option<QueryView>;

/// The name that `hickory_proto` reads in a text, when it is one.
pub uninterp spec fn name_in_text(text: Seq<char>) -> Option<NameView>;

/// The name that `hickory_proto` reads in a text when it keeps to ASCII, when it is one.
pub uninterp spec fn name_in_ascii(text: Seq<char>) -> Option<NameView>;

/// The text by which `hickory_proto` displays a name.
pub uninterp spec fn name_text(n: NameView) -> Seq<char>;

/// The text by which `hickory_proto` displays a name in ASCII.
pub uninterp spec fn name_ascii(n: NameView) -> Seq<char>;

/// `hickory_proto::op::Message::from_vec`: decodes a message. Claims that what is read depends on
/// the octets alone, and that the names read fit the wire, as the decoder checks of each.
#[verifier::external_body]
fn decode_message(octets: &[u8]) -> (r: Option<Query>)
    ensures
        match r {
            Some(q) => message_query(octets@) == Some(q@),
            None => message_query(octets@) is None,
        },
        r matches Some(q) ==> forall|i: int|
            0 <= i < q@.questions.len() ==> fits((#[trigger] q@.questions[i]).name),
{
    let m = Message::from_vec(octets).ok()?;
    let to_name = |n: &Name| DnsName {
        labels: n.iter().map(|l| l.to_vec()).collect(),
        absolute: n.is_fqdn(),
    };
    let questions = m.queries.iter().map(|q| Question {
        name: to_name(&q.name),
        qtype: q.query_type.into(),
        qclass: q.query_class.into(),
    }).collect();
    let h = &m.metadata;
    Some(Query { id: h.id, is_reply: h.message_type == MessageType::Response,
        op_code: h.op_code.into(), recursion_desired: h.recursion_desired,
        max_payload: m.max_payload(), questions })
}

/// `hickory_proto::rr::Name`'s `FromStr`: reads a name in a text. Claims that the name depends on
/// the text alone and fits the wire.
#[verifier::external_body]
fn read_name(text: &str) -> (r: Option<DnsName>)
    ensures
        match r {
            Some(n) => name_in_text(text@) == Some(n@),
            None => name_in_text(text@) is None,
        },
        r matches Some(n) ==> fits(n@),
{
    let n: Name = text.parse().ok()?;
    Some(DnsName { labels: n.iter().map(|l| l.to_vec()).collect(), absolute: n.is_fqdn() })
}

/// `hickory_proto::rr::Name::from_ascii`: reads a name in a text, keeping its case. Claims that the
/// name depends on the text alone and fits the wire.
#[verifier::external_body]
fn read_ascii_name(text: &str) -> (r: Option<DnsName>)
    ensures
        match r {
            Some(n) => name_in_ascii(text@) == Some(n@),
            None => name_in_ascii(text@) is None,
        },
        r matches Some(n) ==> fits(n@),
{
    let n = Name::from_ascii(text).ok()?;
    Some(DnsName { labels: n.iter().map(|l| l.to_vec()).collect(), absolute: n.is_fqdn() })
}

/// `hickory_proto::rr::Name`'s `Display`. Claims that the text depends on the name alone.
#[verifier::external_body]
fn display_name(n: &DnsName) -> (r: String)
    requires
        fits(n@),
    ensures
        r@ == name_text(n@),
{
    let mut name = Name::from_labels(n.labels.clone()).unwrap();
    name.set_fqdn(n.absolute);
    name.to_string()
}

/// `hickory_proto::rr::Name::to_ascii`. Claims that the text depends on the name alone.
#[verifier::external_body]
fn display_ascii(n: &DnsName) -> (r: String)
    requires
        fits(n@),
    ensures
        r@ == name_ascii(n@),
{
    let mut name = Name::from_labels(n.labels.clone()).unwrap();
    name.set_fqdn(n.absolute);
    name.to_ascii()
}

/// `hickory_proto::op::Message::response`: an empty reply with this header, whose code has this number
/// on the wire.
#[verifier::external_body]
fn new_message(head: &Head, code: u8) -> (m: Message)
    requires
        code == head.code.number(),
    ensures
        message_head(m) == *head,
        message_questions(m) == Seq::<QuestionView>::empty(),
        message_answers(m) == Seq::<AnswerView>::empty(),
        message_authorities(m) == Seq::<AnswerView>::empty(),
{
    let mut m = Message::response(head.id, OpCode::from_u8(head.op_code));
    m.metadata.recursion_desired = head.recursion_desired;
    m.metadata.recursion_available = head.recursion_available;
    m.metadata.authoritative = head.authoritative;
    m.metadata.truncation = head.truncated;
    m.metadata.response_code = ResponseCode::from(0, code);
    m
}

/// `hickory_proto::op::Message::add_query`: adds a question behind the others and leaves the rest as it
/// was.
#[verifier::external_body]
fn add_question(m: &mut Message, q: &Question)
    requires
        fits(q@.name),
    ensures
        message_head(*final(m)) == message_head(*old(m)),
        message_questions(*final(m)) == message_questions(*old(m)).push(q@),
        message_answers(*final(m)) == message_answers(*old(m)),
        message_authorities(*final(m)) == message_authorities(*old(m)),
{
    let mut name = Name::from_labels(q.name.labels.clone()).unwrap();
    name.set_fqdn(q.name.absolute);
    let mut query = hickory_proto::op::Query::query(name, q.qtype.into());
    query.set_query_class(q.qclass.into());
    m.add_query(query);
}

/// `hickory_proto::op::Message::add_answer`: adds a record behind the other answers and leaves the rest
/// as it was.
#[verifier::external_body]
fn add_answer(m: &mut Message, a: &Answer)
    requires
        record_fits(a@),
    ensures
        message_head(*final(m)) == message_head(*old(m)),
        message_questions(*final(m)) == message_questions(*old(m)),
        message_answers(*final(m)) == message_answers(*old(m)).push(a@),
        message_authorities(*final(m)) == message_authorities(*old(m)),
{
    let name = |n: &DnsName| {
        let mut name = Name::from_labels(n.labels.clone()).unwrap();
        name.set_fqdn(n.absolute);
        name
    };
    let data = match a.data {
        Data::Addr(ip) => RData::A(A(ip.into())),
        Data::Server(ref n) => RData::NS(NS(name(n))),
        Data::Authority { ref server, ref mailbox, serial, refresh, retry, expire, minimum } =>
            RData::SOA(SOA::new(name(server), name(mailbox), serial, refresh, retry, expire, minimum)),
        Data::Text(ref s) => RData::TXT(TXT::new(vec![s.clone()])),
    };
    m.add_answer(Record::from_rdata(name(&a.owner), a.ttl, data));
}

/// `hickory_proto::op::Message::add_authority`: adds a record behind the other authorities and leaves
/// the rest as it was.
#[verifier::external_body]
fn add_authority(m: &mut Message, a: &Answer)
    requires
        record_fits(a@),
    ensures
        message_head(*final(m)) == message_head(*old(m)),
        message_questions(*final(m)) == message_questions(*old(m)),
        message_answers(*final(m)) == message_answers(*old(m)),
        message_authorities(*final(m)) == message_authorities(*old(m)).push(a@),
{
    let name = |n: &DnsName| {
        let mut name = Name::from_labels(n.labels.clone()).unwrap();
        name.set_fqdn(n.absolute);
        name
    };
    let data = match a.data {
        Data::Addr(ip) => RData::A(A(ip.into())),
        Data::Server(ref n) => RData::NS(NS(name(n))),
        Data::Authority { ref server, ref mailbox, serial, refresh, retry, expire, minimum } =>
            RData::SOA(SOA::new(name(server), name(mailbox), serial, refresh, retry, expire, minimum)),
        Data::Text(ref s) => RData::TXT(TXT::new(vec![s.clone()])),
    };
    m.add_authority(Record::from_rdata(name(&a.owner), a.ttl, data));
}

/// `hickory_proto::op::Message::to_vec`: encodes a message. Claims that the octets depend on its
/// header and sections alone.
#[verifier::external_body]
fn message_to_octets(m: &Message) -> (r: Option<Vec<u8>>)
    ensures
        match r {
            Some(v) => message_octets(
                message_head(*m),
                message_questions(*m),
                message_answers(*m),
                message_authorities(*m),
            ) == Some(v@),
            None => message_octets(
                message_head(*m),
                message_questions(*m),
                message_answers(*m),
                message_authorities(*m),
            ) is None,
        },
{
    m.to_vec().ok()
}

/// Decodes the octets of a message.
pub fn decode(octets: &[u8]) -> (r: Option<Query>)
    ensures
        match r {
            Some(q) => message_query(octets@) == Some(q@),
            None => message_query(octets@) is None,
        },
        r matches Some(q) ==> forall|i: int|
            0 <= i < q@.questions.len() ==> fits((#[trigger] q@.questions[i]).name),
{
    decode_message(octets)
}

/// The octets of a reply, when they can be encoded.
pub open spec fn reply_octets(r: ReplyView) -> Option<Seq<u8>> {
    message_octets(r.head, r.questions, r.answers, r.authorities)
}

/// Encodes a reply.
pub fn encode(reply: &Reply) -> (r: Option<Vec<u8>>)
    requires
        reply_fits(reply@),
    ensures
        match r {
            Some(v) => reply_octets(reply@) == Some(v@),
            None => reply_octets(reply@) is None,
        },
{
    let mut m = new_message(&reply.head, reply.head.code.code());
    let ghost v = reply@;
    let mut i: usize = 0;
    assert(v.questions.take(0) =~= Seq::empty());
    while i < reply.questions.len()
        invariant
            i <= reply.questions.len(),
            v == reply@,
            reply_fits(v),
            message_head(m) == v.head,
            message_questions(m) == v.questions.take(i as int),
            message_answers(m) == Seq::<AnswerView>::empty(),
            message_authorities(m) == Seq::<AnswerView>::empty(),
        decreases reply.questions.len() - i,
    {
        assert(fits(v.questions[i as int].name));
        add_question(&mut m, &reply.questions[i]);
        assert(v.questions.take(i + 1) =~= v.questions.take(i as int).push(v.questions[i as int]));
        i += 1;
    }
    assert(v.questions.take(i as int) =~= v.questions);
    let mut j: usize = 0;
    assert(v.answers.take(0) =~= Seq::empty());
    while j < reply.answers.len()
        invariant
            j <= reply.answers.len(),
            v == reply@,
            reply_fits(v),
            message_head(m) == v.head,
            message_questions(m) == v.questions,
            message_answers(m) == v.answers.take(j as int),
            message_authorities(m) == Seq::<AnswerView>::empty(),
        decreases reply.answers.len() - j,
    {
        assert(record_fits(v.answers[j as int]));
        add_answer(&mut m, &reply.answers[j]);
        assert(v.answers.take(j + 1) =~= v.answers.take(j as int).push(v.answers[j as int]));
        j += 1;
    }
    assert(v.answers.take(j as int) =~= v.answers);
    let mut k: usize = 0;
    assert(v.authorities.take(0) =~= Seq::empty());
    while k < reply.authorities.len()
        invariant
            k <= reply.authorities.len(),
            v == reply@,
            reply_fits(v),
            message_head(m) == v.head,
            message_questions(m) == v.questions,
            message_answers(m) == v.answers,
            message_authorities(m) == v.authorities.take(k as int),
        decreases reply.authorities.len() - k,
    {
        assert(record_fits(v.authorities[k as int]));
        add_authority(&mut m, &reply.authorities[k]);
        assert(v.authorities.take(k + 1) =~= v.authorities.take(k as int).push(
            v.authorities[k as int],
        ));
        k += 1;
    }
    assert(v.authorities.take(k as int) =~= v.authorities);
    message_to_octets(&m)
}

/// An ASCII upper-case letter as its lower-case one, any other octet as itself.
pub open spec fn lower_octet(b: u8) -> u8 {
    if 65 <= b <= 90 {
        (b + 32) as u8
    } else {
        b
    }
}

/// A label in lower case.
pub open spec fn lower_label(l: Seq<u8>) -> Seq<u8> {
    l.map_values(|b: u8| lower_octet(b))
}

/// A name in lower case.
pub open spec fn lower_name(n: NameView) -> NameView {
    NameView { labels: n.labels.map_values(|l: Seq<u8>| lower_label(l)), absolute: n.absolute }
}

/// Whether the labels of `zone` are the last labels of `name`, letter case aside.
pub open spec fn within(zone: NameView, name: NameView) -> bool {
    let z = lower_name(zone).labels;
    let n = lower_name(name).labels;
    z.len() <= n.len() && n.skip(n.len() - z.len()) == z
}

/// Whether two names are the same, letter case aside.
pub open spec fn same_name(a: NameView, b: NameView) -> bool {
    lower_name(a) == lower_name(b)
}

proof fn lemma_lower_fits(labels: Seq<Seq<u8>>)
    ensures
        wire_len(labels.map_values(|l: Seq<u8>| lower_label(l))) == wire_len(labels),
    decreases labels.len(),
{
    let low = labels.map_values(|l: Seq<u8>| lower_label(l));
    if labels.len() > 0 {
        lemma_lower_fits(labels.drop_last());
        assert(low.drop_last() =~= labels.drop_last().map_values(|l: Seq<u8>| lower_label(l)));
        assert(low.last().len() == labels.last().len());
    }
}

fn lower_bytes(l: &Vec<u8>) -> (r: Vec<u8>)
    ensures
        r@ == lower_label(l@),
{
    let mut out: Vec<u8> = Vec::new();
    let mut i: usize = 0;
    while i < l.len()
        invariant
            i <= l.len(),
            out@ == lower_label(l@).take(i as int),
        decreases l.len() - i,
    {
        let b: u8 = l[i];
        out.push(
            if 65 <= b && b <= 90 {
                b + 32
            } else {
                b
            },
        );
        i += 1;
    }
    out
}

fn copy_bytes(l: &Vec<u8>) -> (r: Vec<u8>)
    ensures
        r@ == l@,
{
    let mut out: Vec<u8> = Vec::new();
    let mut i: usize = 0;
    while i < l.len()
        invariant
            i <= l.len(),
            out@ == l@.take(i as int),
        decreases l.len() - i,
    {
        out.push(l[i]);
        i += 1;
    }
    out
}

fn same_bytes(a: &Vec<u8>, b: &Vec<u8>) -> (r: bool)
    ensures
        r == (a@ == b@),
{
    if a.len() != b.len() {
        return false;
    }
    let mut i: usize = 0;
    while i < a.len()
        invariant
            i <= a.len(),
            a.len() == b.len(),
            forall|j: int| 0 <= j < i ==> a@[j] == b@[j],
        decreases a.len() - i,
    {
        if a[i] != b[i] {
            return false;
        }
        i += 1;
    }
    assert(a@ =~= b@);
    true
}

impl DnsName {
    /// The name that a text spells.
    pub fn parse(text: &str) -> (r: Option<DnsName>)
        ensures
            match r {
                Some(n) => name_in_text(text@) == Some(n@),
                None => name_in_text(text@) is None,
            },
            r matches Some(n) ==> fits(n@),
    {
        read_name(text)
    }

    /// The name that an ASCII text spells.
    pub fn from_ascii(text: &str) -> (r: Option<DnsName>)
        ensures
            match r {
                Some(n) => name_in_ascii(text@) == Some(n@),
                None => name_in_ascii(text@) is None,
            },
            r matches Some(n) ==> fits(n@),
    {
        read_ascii_name(text)
    }

    /// The name as a text.
    pub fn text(&self) -> (r: String)
        requires
            fits(self@),
        ensures
            r@ == name_text(self@),
    {
        display_name(self)
    }

    /// The name as an ASCII text.
    pub fn ascii(&self) -> (r: String)
        requires
            fits(self@),
        ensures
            r@ == name_ascii(self@),
    {
        display_ascii(self)
    }

    /// A copy of the name.
    pub fn copy(&self) -> (r: DnsName)
        ensures
            r@ == self@,
    {
        let mut labels: Vec<Vec<u8>> = Vec::new();
        let mut i: usize = 0;
        while i < self.labels.len()
            invariant
                i <= self.labels.len(),
                labels.len() == i,
                forall|j: int| 0 <= j < i ==> (#[trigger] labels@[j])@ == self.labels@[j]@,
            decreases self.labels.len() - i,
        {
            labels.push(copy_bytes(&self.labels[i]));
            i += 1;
        }
        let r = DnsName { labels, absolute: self.absolute };
        assert(r@.labels =~= self@.labels) by {
            assert forall|j: int| 0 <= j < r@.labels.len() implies r@.labels[j]
                == self@.labels[j] by {
                assert(labels@[j]@ == self.labels@[j]@);
                assert(labels@[j].deep_view() =~= labels@[j]@);
                assert(self.labels@[j].deep_view() =~= self.labels@[j]@);
            }
        }
        r
    }

    /// The name in lower case.
    pub fn to_lowercase(&self) -> (r: DnsName)
        ensures
            r@ == lower_name(self@),
            fits(self@) ==> fits(r@),
    {
        let mut labels: Vec<Vec<u8>> = Vec::new();
        let mut i: usize = 0;
        while i < self.labels.len()
            invariant
                i <= self.labels.len(),
                labels.len() == i,
                forall|j: int|
                    0 <= j < i ==> (#[trigger] labels@[j])@ == lower_label(self.labels@[j]@),
            decreases self.labels.len() - i,
        {
            labels.push(lower_bytes(&self.labels[i]));
            i += 1;
        }
        let r = DnsName { labels, absolute: self.absolute };
        proof {
            assert(r@.labels =~= lower_name(self@).labels) by {
                assert forall|j: int| 0 <= j < r@.labels.len() implies r@.labels[j]
                    == lower_name(self@).labels[j] by {
                    assert(labels@[j]@ == lower_label(self.labels@[j]@));
                    assert(labels@[j].deep_view() =~= labels@[j]@);
                    assert(self.labels@[j].deep_view() =~= self.labels@[j]@);
                }
            }
            lemma_lower_fits(self@.labels);
            if fits(self@) {
                assert forall|j: int| 0 <= j < r@.labels.len() implies 1 <= (
                #[trigger] r@.labels[j]).len() <= 63 by {
                    assert(r@.labels[j].len() == self@.labels[j].len());
                }
            }
        }
        r
    }

    /// Whether this name's labels are the last labels of `name`, letter case aside.
    pub fn zone_of(&self, name: &DnsName) -> (r: bool)
        ensures
            r == within(self@, name@),
    {
        let z = self.to_lowercase();
        let n = name.to_lowercase();
        if z.labels.len() > n.labels.len() {
            return false;
        }
        let d: usize = n.labels.len() - z.labels.len();
        let ghost zs = lower_name(self@).labels;
        let ghost ns = lower_name(name@).labels;
        let mut i: usize = 0;
        while i < z.labels.len()
            invariant
                i <= z.labels.len(),
                d + z.labels.len() == n.labels.len(),
                z@.labels == zs,
                n@.labels == ns,
                zs == lower_name(self@).labels,
                ns == lower_name(name@).labels,
                forall|j: int| 0 <= j < i ==> zs[j] == #[trigger] ns[d + j],
            decreases z.labels.len() - i,
        {
            assert(z.labels@[i as int].deep_view() =~= z.labels@[i as int]@);
            assert(n.labels@[d + i].deep_view() =~= n.labels@[d + i]@);
            if !same_bytes(&z.labels[i], &n.labels[d + i]) {
                assert(ns.skip(d as int)[i as int] != zs[i as int]);
                return false;
            }
            i += 1;
        }
        assert(ns.skip(d as int) =~= zs) by {
            assert forall|j: int| 0 <= j < zs.len() implies ns.skip(d as int)[j] == zs[j] by {
                assert(zs[j] == ns[d + j]);
            }
        }
        true
    }

    /// Whether two names are the same, letter case aside.
    pub fn same(&self, other: &DnsName) -> (r: bool)
        ensures
            r == same_name(self@, other@),
    {
        let r = self.absolute == other.absolute && self.labels.len() == other.labels.len()
            && self.zone_of(other);
        proof {
            let a = lower_name(self@);
            let b = lower_name(other@);
            if a.labels.len() == b.labels.len() {
                assert(b.labels.skip(0) =~= b.labels);
            }
            if r {
                assert(a =~= b);
            }
        }
        r
    }
}

impl Question {
    /// A copy of the question.
    pub fn copy(&self) -> (r: Question)
        ensures
            r@ == self@,
    {
        Question { name: self.name.copy(), qtype: self.qtype, qclass: self.qclass }
    }
}

/// The names of DNS are the same whatever the case of their ASCII letters, and only then.
pub proof fn law_names_apart_from_case(a: NameView, b: NameView, i: int, k: int)
    requires
        same_name(a, b),
    ensures
        a.absolute == b.absolute,
        a.labels.len() == b.labels.len(),
        0 <= i < a.labels.len() ==> a.labels[i].len() == b.labels[i].len(),
        0 <= i < a.labels.len() && 0 <= k < a.labels[i].len() ==> {
            let x = a.labels[i][k];
            let y = b.labels[i][k];
            x == y || (65 <= x <= 90 && y == x + 32) || (65 <= y <= 90 && x == y + 32)
        },
{
    let la = lower_name(a).labels;
    let lb = lower_name(b).labels;
    assert(la.len() == lb.len());
    if 0 <= i < a.labels.len() {
        assert(la[i] == lb[i]);
        assert(la[i] == lower_label(a.labels[i]));
        assert(lb[i] == lower_label(b.labels[i]));
        assert(lower_label(a.labels[i]).len() == lower_label(b.labels[i]).len());
        if 0 <= k < a.labels[i].len() {
            assert(la[i][k] == lower_octet(a.labels[i][k]));
            assert(lb[i][k] == lower_octet(b.labels[i][k]));
        }
    }
}

/// A name is within a zone if and only if it ends in the zone's labels, letter case aside; so is the zone
/// itself, and whatever stands below it.
pub proof fn law_what_is_within_a_zone(zone: NameView, name: NameView, below: Seq<Seq<u8>>)
    ensures
        within(zone, zone),
        within(zone, NameView { labels: below + zone.labels, absolute: name.absolute }),
        name.labels.len() < zone.labels.len() ==> !within(zone, name),
        zone.labels.len() > 0 && name.labels.len() > 0 && name.labels.last().len()
            != zone.labels.last().len() ==> !within(zone, name),
{
    let z = lower_name(zone).labels;
    assert(z.skip(0) =~= z);
    let n = NameView { labels: below + zone.labels, absolute: name.absolute };
    let l = lower_name(n).labels;
    assert(l.skip(l.len() - z.len()) =~= z);
    let m = lower_name(name).labels;
    if zone.labels.len() > 0 && within(zone, name) {
        assert(m.skip(m.len() - z.len()).last() == m.last());
        assert(m.last() == lower_label(name.labels.last()));
        assert(z.last() == lower_label(zone.labels.last()));
        assert(lower_label(name.labels.last()).len() == name.labels.last().len());
        assert(lower_label(zone.labels.last()).len() == zone.labels.last().len());
    }
}

/// On the wire a name takes an octet for each label's length, the label, and one for the root.
pub proof fn law_length_on_the_wire(a: Seq<Seq<u8>>, b: Seq<Seq<u8>>, l: Seq<u8>)
    ensures
        wire_len(seq![]) == 1,
        wire_len(seq![l]) == l.len() + 2,
        wire_len(a + b) + 1 == wire_len(a) + wire_len(b),
    decreases b.len(),
{
    assert(seq![l].drop_last() =~= seq![]);
    assert(wire_len(seq![l].drop_last()) == 1);
    if b.len() == 0 {
        assert(a + b =~= a);
    } else {
        law_length_on_the_wire(a, b.drop_last(), l);
        assert((a + b).drop_last() =~= a + b.drop_last());
    }
}

/// The numbers of the codes.
pub proof fn law_numbers_of_the_codes()
    ensures
        Rcode::NoError.number() == 0,
        Rcode::FormErr.number() == 1,
        Rcode::NXDomain.number() == 3,
        Rcode::NotImp.number() == 4,
        Rcode::Refused.number() == 5,
{
}

} // verus!
