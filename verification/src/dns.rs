//! DNS messages as bytes: what a query asks, and the answers that the fake
//! resolver gives without asking anyone.

use vstd::prelude::*;
use crate::net::{ipv4, ipv4_from_octets};
use crate::text::{chars_of, split, split_fields};

verus! {

/// The length of the header of a message.
pub const HEADER_LEN: usize = 12;

/// The longest name, in bytes as the message holds it.
pub const MAX_NAME_LEN: usize = 255;

/// The longest message that is sent over UDP as it is.
pub const UDP_LIMIT: usize = 512;

/// The type of a query for an IPv4 address.
pub const TYPE_A: u16 = 1;

/// The class of the Internet.
pub const CLASS_IN: u16 = 1;

/// The response code for a query that cannot be read.
pub const RCODE_FORMERR: u8 = 1;

/// The response code for a query that the server failed to answer.
pub const RCODE_SERVFAIL: u8 = 2;

/// The one question of a query.
pub struct Question {
    /// The name asked for, its labels in lower case with a dot between each
    /// two; `None` for the root, and for a name that holds a byte other than
    /// a letter, a digit, `-` or `_`.
    pub name: Option<String>,
    pub qtype: u16,
    pub qclass: u16,
    /// Where the question ends in the message.
    pub end: usize,
}

/// A question, with the name as a sequence of characters.
pub struct QuestionView {
    pub name: Option<Seq<char>>,
    pub qtype: u16,
    pub qclass: u16,
    pub end: usize,
}

impl View for Question {
    type V = QuestionView;

    open spec fn view(&self) -> QuestionView {
        QuestionView {
            name: match self.name {
                Some(n) => Some(n@),
                None => None,
            },
            qtype: self.qtype,
            qclass: self.qclass,
            end: self.end,
        }
    }
}

/// Why a message is no query that can be read.
#[derive(Clone, Copy, Debug, PartialEq, Eq, Structural)]
pub enum QueryError {
    /// The message is shorter than a header.
    NoHeader,
    /// The message is a response.
    NotAQuery,
    /// The message does not hold exactly one well formed question.
    Malformed,
}

/// The 16-bit number at `at`, high byte first.
pub open spec fn word(m: Seq<u8>, at: int) -> int {
    m[at] * 256 + m[at + 1]
}

/// The labels of the name that starts at `at`, and where the name ends; or
/// nothing, if a label runs past the end of the message or is longer than
/// 63 bytes, which a pointer to another name counts as too.
pub open spec fn labels_at(m: Seq<u8>, at: int) -> Option<(Seq<Seq<u8>>, int)>
    decreases m.len() - at,
{
    if at < 0 || at >= m.len() {
        None
    } else if m[at] == 0 {
        Some((Seq::empty(), at + 1))
    } else if m[at] > 63 || at + 1 + m[at] > m.len() {
        None
    } else {
        match labels_at(m, at + 1 + m[at]) {
            Some((rest, end)) => Some((seq![m.subrange(at + 1, at + 1 + m[at])] + rest, end)),
            None => None,
        }
    }
}

/// Whether a byte of a label is a letter, a digit, `-` or `_`.
pub open spec fn is_plain_byte(b: u8) -> bool {
    (0x61 <= b <= 0x7a) || (0x41 <= b <= 0x5a) || (0x30 <= b <= 0x39) || b == 0x2d || b == 0x5f
}

/// The character that a byte of a label stands for: itself, a capital
/// letter as the small one.
pub open spec fn char_of_byte(b: u8) -> char {
    if 0x41 <= b <= 0x5a {
        (b + 32) as char
    } else {
        b as char
    }
}

/// The text of a label.
pub open spec fn label_text(label: Seq<u8>) -> Seq<char> {
    Seq::new(label.len(), |i: int| char_of_byte(label[i]))
}

/// The text of a name: the texts of its labels with a dot between each two.
pub open spec fn name_text(labels: Seq<Seq<u8>>) -> Seq<char>
    decreases labels.len(),
{
    if labels.len() == 0 {
        Seq::empty()
    } else if labels.len() == 1 {
        label_text(labels[0])
    } else {
        name_text(labels.drop_last()) + seq!['.'] + label_text(labels.last())
    }
}

/// Whether every byte of every label is a letter, a digit, `-` or `_`.
pub open spec fn is_plain(labels: Seq<Seq<u8>>) -> bool {
    forall|i: int, j: int|
        0 <= i < labels.len() && 0 <= j < labels[i].len() ==> is_plain_byte(
            #[trigger] labels[i][j],
        )
}

/// The name that the labels write, if they write one in plain characters.
pub open spec fn plain_name(labels: Seq<Seq<u8>>) -> Option<Seq<char>> {
    if labels.len() > 0 && is_plain(labels) {
        Some(name_text(labels))
    } else {
        None
    }
}

/// What a message asks, or why it is no query that can be read.
pub open spec fn question_of(m: Seq<u8>) -> Result<QuestionView, QueryError> {
    if m.len() < HEADER_LEN {
        Err(QueryError::NoHeader)
    } else if m[2] >= 128 {
        Err(QueryError::NotAQuery)
    } else if word(m, 4) != 1 {
        Err(QueryError::Malformed)
    } else {
        match labels_at(m, HEADER_LEN as int) {
            None => Err(QueryError::Malformed),
            Some((labels, end)) => if end - HEADER_LEN > MAX_NAME_LEN || end + 4 > m.len() {
                Err(QueryError::Malformed)
            } else {
                Ok(
                    QuestionView {
                        name: plain_name(labels),
                        qtype: word(m, end) as u16,
                        qclass: word(m, end + 2) as u16,
                        end: (end + 4) as usize,
                    },
                )
            },
        }
    }
}

/// The header of the reply to the query `q`: the query's identifier,
/// operation and wish for recursion, marked as a response from a server that
/// recurses, with the given response code and numbers of questions and
/// answers.
pub open spec fn reply_header(q: Seq<u8>, rcode: u8, questions: u8, answers: u8) -> Seq<u8> {
    seq![
        q[0],
        q[1],
        (128 + (q[2] / 8 % 16) * 8 + q[2] % 2) as u8,
        (128 + rcode) as u8,
        0,
        questions,
        0,
        answers,
        0,
        0,
        0,
        0,
    ]
}

/// The reply that tells that the query could not be read: a header alone.
pub open spec fn format_error(q: Seq<u8>) -> Seq<u8> {
    reply_header(q, RCODE_FORMERR, 0, 0)
}

/// The reply that tells that the server failed: the header and the question.
pub open spec fn server_failure(q: Seq<u8>, end: int) -> Seq<u8> {
    reply_header(q, RCODE_SERVFAIL, 1, 0) + q.subrange(HEADER_LEN as int, end)
}

/// The four bytes of a number, highest first.
pub open spec fn be_bytes(v: u32) -> Seq<u8> {
    seq![
        (v / 0x100_0000) as u8,
        (v / 0x1_0000 % 0x100) as u8,
        (v / 0x100 % 0x100) as u8,
        (v % 0x100) as u8,
    ]
}

/// The one answer of a reply: an address record for the name of the
/// question, which it points to, with a time to live in seconds.
pub open spec fn address_record(ip: u32, ttl: u32) -> Seq<u8> {
    seq![0xc0u8, 0x0c, 0, 1, 0, 1] + be_bytes(ttl) + seq![0u8, 4] + be_bytes(ip)
}

/// The reply that answers the question of `q`, which ends at `end`, with
/// the address `ip`.
pub open spec fn address_reply(q: Seq<u8>, end: int, ip: u32, ttl: u32) -> Seq<u8> {
    reply_header(q, 0, 1, 1) + q.subrange(HEADER_LEN as int, end) + address_record(ip, ttl)
}

/// A response cut down for UDP: the header, marked as truncated and with
/// no records, and the one question if the response has one that can be
/// read and fits.
pub open spec fn cut_down(r: Seq<u8>) -> Seq<u8> {
    let flags = if r[2] / 2 % 2 == 1 {
        r[2]
    } else {
        (r[2] + 2) as u8
    };
    let end = question_end(r);
    if end >= HEADER_LEN && end <= UDP_LIMIT {
        seq![r[0], r[1], flags, r[3], 0, 1, 0, 0, 0, 0, 0, 0] + r.subrange(HEADER_LEN as int, end)
    } else {
        seq![r[0], r[1], flags, r[3], 0, 0, 0, 0, 0, 0, 0, 0]
    }
}

/// Where the one question of a message ends, or 0 if the message does not
/// hold exactly one question that can be read.
pub open spec fn question_end(m: Seq<u8>) -> int {
    if m.len() < HEADER_LEN || word(m, 4) != 1 {
        0
    } else {
        match labels_at(m, HEADER_LEN as int) {
            Some((_, end)) => if end + 4 <= m.len() {
                end + 4
            } else {
                0
            },
            None => 0,
        }
    }
}

/// A response as it is sent over UDP: as it is if it fits, cut down if not.
pub open spec fn fitted(r: Seq<u8>) -> Seq<u8> {
    if r.len() <= UDP_LIMIT {
        r
    } else {
        cut_down(r)
    }
}

fn read_word(m: &Vec<u8>, at: usize) -> (v: u16)
    requires
        at + 2 <= m.len(),
    ensures
        v == word(m@, at as int),
{
    m[at] as u16 * 256 + m[at + 1] as u16
}

/// Adding a label behind the labels adds its text behind a dot.
proof fn lemma_name_push(labels: Seq<Seq<u8>>, label: Seq<u8>)
    ensures
        name_text(labels.push(label)) == if labels.len() == 0 {
            label_text(label)
        } else {
            name_text(labels) + seq!['.'] + label_text(label)
        },
        is_plain(labels.push(label)) <==> is_plain(labels) && forall|j: int|
            0 <= j < label.len() ==> is_plain_byte(#[trigger] label[j]),
{
    let more = labels.push(label);
    assert(more.drop_last() =~= labels);
    assert(more.last() == label);
    if is_plain(more) {
        assert forall|i: int, j: int|
            0 <= i < labels.len() && 0 <= j < labels[i].len() implies is_plain_byte(
            #[trigger] labels[i][j],
        ) by {
            assert(more[i] == labels[i]);
        }
        assert forall|j: int| 0 <= j < label.len() implies is_plain_byte(#[trigger] label[j]) by {
            assert(more[labels.len() as int] == label);
        }
    }
    if is_plain(labels) && forall|j: int|
        0 <= j < label.len() ==> is_plain_byte(#[trigger] label[j]) {
        assert forall|i: int, j: int|
            0 <= i < more.len() && 0 <= j < more[i].len() implies is_plain_byte(
            #[trigger] more[i][j],
        ) by {
            if i < labels.len() {
                assert(more[i] == labels[i]);
            }
        }
    }
}

/// What the walk over the labels has read, and where it goes on, stand for
/// the whole name.
spec fn walk_agrees(m: Seq<u8>, done: Seq<Seq<u8>>, at: int) -> bool {
    labels_at(m, HEADER_LEN as int) == match labels_at(m, at) {
        Some((rest, end)) => Some((done + rest, end)),
        None => None,
    }
}

/// Reads the labels of the name that starts behind the header: the name as
/// text if it is written in plain characters, and where it ends.
fn read_name(m: &Vec<u8>) -> (r: Option<(Option<String>, usize)>)
    requires
        m.len() >= HEADER_LEN,
    ensures
        match r {
            Some((name, end)) => labels_at(m@, HEADER_LEN as int) matches Some((labels, e))
                && e == end && HEADER_LEN < end <= m.len() && match name {
                Some(n) => plain_name(labels) == Some(n@),
                None => plain_name(labels) is None,
            },
            None => labels_at(m@, HEADER_LEN as int) is None,
        },
{
    let mut name = String::new();
    let mut plain = true;
    let mut at: usize = HEADER_LEN;
    let ghost mut done: Seq<Seq<u8>> = Seq::empty();
    proof {
        match labels_at(m@, at as int) {
            Some((rest, end)) => {
                assert(done + rest =~= rest);
            },
            None => {},
        }
    }
    loop
        invariant
            HEADER_LEN <= at <= m.len(),
            walk_agrees(m@, done, at as int),
            (done.len() == 0) == (at == HEADER_LEN),
            plain == is_plain(done),
            plain ==> name@ == name_text(done),
        decreases m.len() - at,
    {
        if at >= m.len() {
            return None;
        }
        let n = m[at] as usize;
        if n == 0 {
            proof {
                assert(done + Seq::<Seq<u8>>::empty() =~= done);
            }
            if plain && at > HEADER_LEN {
                return Some((Some(name), at + 1));
            }
            return Some((None, at + 1));
        }
        if n > 63 || n > m.len() - at - 1 {
            return None;
        }
        let ghost label = m@.subrange(at + 1, at + 1 + n);
        if plain && at > HEADER_LEN {
            name.push('.');
        }
        let ghost dotted = name@;
        let mut j: usize = 0;
        while j < n
            invariant
                j <= n,
                at + 1 + n <= m.len(),
                label == m@.subrange(at + 1, at + 1 + n),
                plain ==> dotted == if at > HEADER_LEN {
                    name_text(done) + seq!['.']
                } else {
                    name_text(done)
                },
                plain ==> is_plain(done),
                plain ==> forall|k: int| 0 <= k < j ==> is_plain_byte(#[trigger] label[k]),
                plain ==> name@ == dotted + label_text(label).take(j as int),
                !plain ==> !is_plain(done) || exists|k: int|
                    0 <= k < j && !is_plain_byte(#[trigger] label[k]),
            decreases n - j,
        {
            let b = m[at + 1 + j];
            assert(b == label[j as int]);
            if plain {
                let small = (0x61 <= b && b <= 0x7a) || (0x30 <= b && b <= 0x39) || b == 0x2d || b
                    == 0x5f;
                if small {
                    name.push(b as char);
                } else if 0x41 <= b && b <= 0x5a {
                    name.push((b + 32) as char);
                } else {
                    plain = false;
                }
                proof {
                    if plain {
                        assert(label_text(label).take(j + 1) =~= label_text(label).take(
                            j as int,
                        ).push(char_of_byte(b)));
                    }
                }
            }
            j += 1;
        }
        proof {
            lemma_name_push(done, label);
            assert(label_text(label).take(n as int) =~= label_text(label));
            match labels_at(m@, at + 1 + n) {
                Some((rest, end)) => {
                    assert(done + (seq![label] + rest) =~= done.push(label) + rest);
                },
                None => {},
            }
            if plain && at == HEADER_LEN {
                assert(dotted + label_text(label) =~= label_text(label));
            }
            done = done.push(label);
        }
        at = at + 1 + n;
    }
}

/// Reads what a message asks.
pub fn parse_query(m: &Vec<u8>) -> (r: Result<Question, QueryError>)
    ensures
        match r {
            Ok(q) => question_of(m@) == Ok::<QuestionView, QueryError>(q@) && HEADER_LEN < q.end
                <= m.len(),
            Err(e) => question_of(m@) == Err::<QuestionView, QueryError>(e),
        },
{
    if m.len() < HEADER_LEN {
        return Err(QueryError::NoHeader);
    }
    if m[2] >= 128 {
        return Err(QueryError::NotAQuery);
    }
    if read_word(m, 4) != 1 {
        return Err(QueryError::Malformed);
    }
    match read_name(m) {
        None => Err(QueryError::Malformed),
        Some((name, end)) => {
            if end - HEADER_LEN > MAX_NAME_LEN || m.len() - end < 4 {
                return Err(QueryError::Malformed);
            }
            Ok(
                Question {
                    name,
                    qtype: read_word(m, end),
                    qclass: read_word(m, end + 2),
                    end: end + 4,
                },
            )
        },
    }
}

/// Writes the header of a reply into an empty buffer.
pub(crate) fn push_reply_header(
    out: &mut Vec<u8>,
    q: &Vec<u8>,
    rcode: u8,
    questions: u8,
    answers: u8,
)
    requires
        q.len() >= HEADER_LEN,
        rcode < 16,
        old(out)@.len() == 0,
    ensures
        final(out)@ == reply_header(q@, rcode, questions, answers),
{
    out.push(q[0]);
    out.push(q[1]);
    out.push(128 + (q[2] / 8 % 16) * 8 + q[2] % 2);
    out.push(128 + rcode);
    out.push(0);
    out.push(questions);
    out.push(0);
    out.push(answers);
    out.push(0);
    out.push(0);
    out.push(0);
    out.push(0);
    assert(out@ =~= reply_header(q@, rcode, questions, answers));
}

fn push_range(out: &mut Vec<u8>, from: &Vec<u8>, start: usize, end: usize)
    requires
        start <= end <= from.len(),
    ensures
        final(out)@ == old(out)@ + from@.subrange(start as int, end as int),
{
    let mut i: usize = start;
    assert(out@ =~= old(out)@ + from@.subrange(start as int, start as int));
    while i < end
        invariant
            start <= i <= end <= from.len(),
            out@ == old(out)@ + from@.subrange(start as int, i as int),
        decreases end - i,
    {
        out.push(from[i]);
        assert(from@.subrange(start as int, i + 1) =~= from@.subrange(start as int, i as int).push(
            from@[i as int],
        ));
        i += 1;
    }
}

fn push_be_bytes(out: &mut Vec<u8>, v: u32)
    ensures
        final(out)@ == old(out)@ + be_bytes(v),
{
    out.push((v / 0x100_0000) as u8);
    out.push((v / 0x1_0000 % 0x100) as u8);
    out.push((v / 0x100 % 0x100) as u8);
    out.push((v % 0x100) as u8);
    assert(out@ =~= old(out)@ + be_bytes(v));
}

/// The reply that tells that the query could not be read.
pub fn build_format_error(q: &Vec<u8>) -> (out: Vec<u8>)
    requires
        q.len() >= HEADER_LEN,
    ensures
        out@ == format_error(q@),
{
    let mut out: Vec<u8> = Vec::new();
    push_reply_header(&mut out, q, RCODE_FORMERR, 0, 0);
    out
}

/// The reply that tells that the server failed to answer the question of
/// `q`, which ends at `end`.
pub fn build_server_failure(q: &Vec<u8>, end: usize) -> (out: Vec<u8>)
    requires
        HEADER_LEN <= end <= q.len(),
    ensures
        out@ == server_failure(q@, end as int),
{
    let mut out: Vec<u8> = Vec::new();
    push_reply_header(&mut out, q, RCODE_SERVFAIL, 1, 0);
    push_range(&mut out, q, HEADER_LEN, end);
    out
}

/// The reply that answers the question of `q`, which ends at `end`, with
/// the address `ip` and a time to live of `ttl` seconds.
pub fn build_address_reply(q: &Vec<u8>, end: usize, ip: u32, ttl: u32) -> (out: Vec<u8>)
    requires
        HEADER_LEN <= end <= q.len(),
    ensures
        out@ == address_reply(q@, end as int, ip, ttl),
{
    let mut out: Vec<u8> = Vec::new();
    push_reply_header(&mut out, q, 0, 1, 1);
    push_range(&mut out, q, HEADER_LEN, end);
    let ghost front = out@;
    out.push(0xc0);
    out.push(0x0c);
    out.push(0);
    out.push(1);
    out.push(0);
    out.push(1);
    push_be_bytes(&mut out, ttl);
    out.push(0);
    out.push(4);
    push_be_bytes(&mut out, ip);
    assert(out@ =~= front + address_record(ip, ttl));
    out
}

/// Where the one question of a message ends, or 0 if the message does not
/// hold exactly one question that can be read.
pub fn find_question_end(m: &Vec<u8>) -> (end: usize)
    ensures
        end == question_end(m@),
        end <= m.len(),
{
    if m.len() < HEADER_LEN || read_word(m, 4) != 1 {
        return 0;
    }
    match read_name(m) {
        Some((_, end)) => {
            if m.len() - end >= 4 {
                end + 4
            } else {
                0
            }
        },
        None => 0,
    }
}

/// Makes a response fit for UDP: one of at most 512 bytes is sent as it is,
/// a longer one is cut down to its header, marked as truncated, and its
/// question.
pub fn fit_for_udp(r: Vec<u8>) -> (out: Vec<u8>)
    ensures
        out@ == fitted(r@),
        out.len() <= UDP_LIMIT,
{
    if r.len() <= UDP_LIMIT {
        return r;
    }
    let flags: u8 = if r[2] / 2 % 2 == 1 {
        r[2]
    } else {
        r[2] + 2
    };
    let end = find_question_end(&r);
    let keep = end >= HEADER_LEN && end <= UDP_LIMIT;
    let mut out: Vec<u8> = Vec::new();
    out.push(r[0]);
    out.push(r[1]);
    out.push(flags);
    out.push(r[3]);
    out.push(0);
    out.push(if keep {
        1
    } else {
        0
    });
    out.push(0);
    out.push(0);
    out.push(0);
    out.push(0);
    out.push(0);
    out.push(0);
    if keep {
        push_range(&mut out, &r, HEADER_LEN, end);
    }
    assert(out@ =~= cut_down(r@));
    out
}

/// Whether a character of a name is a letter, a digit, `-` or `_`.
pub open spec fn is_plain_char(c: char) -> bool {
    ('a' <= c && c <= 'z') || ('A' <= c && c <= 'Z') || ('0' <= c && c <= '9') || c == '-' || c
        == '_'
}

/// Whether a piece of a name can stand as a label: it has from 1 to 63
/// characters, each a letter, a digit, `-` or `_`.
pub open spec fn is_label(l: Seq<char>) -> bool {
    1 <= l.len() <= 63 && forall|i: int| 0 <= i < l.len() ==> is_plain_char(#[trigger] l[i])
}

/// A label as a message holds it: its length, then its characters as bytes.
pub open spec fn label_bytes(l: Seq<char>) -> Seq<u8> {
    seq![l.len() as u8] + Seq::new(l.len(), |i: int| l[i] as u8)
}

/// The labels of a name as a message holds them, one behind the other.
pub open spec fn labels_bytes(labels: Seq<Seq<char>>) -> Seq<u8>
    decreases labels.len(),
{
    if labels.len() == 0 {
        Seq::empty()
    } else {
        labels_bytes(labels.drop_last()) + label_bytes(labels.last())
    }
}

/// The query that asks a name server, under the identifier `id` and with
/// the wish for recursion, for the IPv4 address of `name`; or nothing, if a
/// piece of the name between two dots cannot stand as a label or the name
/// is longer than 255 bytes.
pub open spec fn address_query(id: u16, name: Seq<char>) -> Option<Seq<u8>> {
    let labels = split_fields(name, '.');
    if (forall|i: int| 0 <= i < labels.len() ==> is_label(#[trigger] labels[i])) && labels_bytes(
        labels,
    ).len() + 1 <= MAX_NAME_LEN {
        Some(
            seq![(id / 256) as u8, (id % 256) as u8, 1, 0, 0, 1, 0, 0, 0, 0, 0, 0] + labels_bytes(
                labels,
            ) + seq![0u8, 0, 1, 0, 1],
        )
    } else {
        None
    }
}

/// Where the name that starts at `at` ends: behind its last label, or
/// behind the pointer that it ends with.
pub open spec fn name_end(m: Seq<u8>, at: int) -> Option<int>
    decreases m.len() - at,
{
    if at < 0 || at >= m.len() {
        None
    } else if m[at] == 0 {
        Some(at + 1)
    } else if m[at] >= 192 {
        if at + 2 <= m.len() {
            Some(at + 2)
        } else {
            None
        }
    } else if m[at] > 63 || at + 1 + m[at] > m.len() {
        None
    } else {
        name_end(m, at + 1 + m[at])
    }
}

/// Where the records begin behind `n` questions that start at `at`.
pub open spec fn questions_end(m: Seq<u8>, at: int, n: nat) -> Option<int>
    decreases n,
{
    if n == 0 {
        Some(at)
    } else {
        match name_end(m, at) {
            Some(e) => if e + 4 <= m.len() {
                questions_end(m, e + 4, (n - 1) as nat)
            } else {
                None
            },
            None => None,
        }
    }
}

/// The address of the first of `n` records from `at` on that is an IPv4
/// address of the Internet class, if every record up to it can be read.
pub open spec fn first_address_record(m: Seq<u8>, at: int, n: nat) -> Option<u32>
    decreases n,
{
    if n == 0 {
        None
    } else {
        match name_end(m, at) {
            None => None,
            Some(e) => if e + 10 > m.len() || e + 10 + word(m, e + 8) > m.len() {
                None
            } else if word(m, e) == TYPE_A && word(m, e + 2) == CLASS_IN && word(m, e + 8) == 4 {
                Some(ipv4_from_octets(m[e + 10], m[e + 11], m[e + 12], m[e + 13]) as u32)
            } else {
                first_address_record(m, e + 10 + word(m, e + 8), (n - 1) as nat)
            },
        }
    }
}

/// The address that a response to the query with the identifier `id`
/// gives: that of its first address record, if it is a response under that
/// identifier that reports no error.
pub open spec fn answered_address(m: Seq<u8>, id: u16) -> Option<u32> {
    if m.len() < HEADER_LEN || word(m, 0) != id || m[2] < 128 || m[3] % 16 != 0 {
        None
    } else {
        match questions_end(m, HEADER_LEN as int, word(m, 4) as nat) {
            Some(at) => first_address_record(m, at, word(m, 6) as nat),
            None => None,
        }
    }
}

/// Adding a label behind the labels adds its bytes behind theirs.
proof fn lemma_labels_push(labels: Seq<Seq<char>>, l: Seq<char>)
    ensures
        labels_bytes(labels.push(l)) == labels_bytes(labels) + label_bytes(l),
{
    assert(labels.push(l).drop_last() =~= labels);
}

/// The bytes of the labels grow with every label.
proof fn lemma_labels_grow(labels: Seq<Seq<char>>, k: int)
    requires
        0 <= k <= labels.len(),
    ensures
        labels_bytes(labels.take(k)).len() <= labels_bytes(labels).len(),
    decreases labels.len() - k,
{
    if k < labels.len() {
        assert(labels.take(k + 1).drop_last() =~= labels.take(k));
        lemma_labels_grow(labels, k + 1);
    } else {
        assert(labels.take(k) =~= labels);
    }
}

/// The query that asks a name server for the IPv4 address of `name`.
pub fn build_query(id: u16, name: &str) -> (r: Option<Vec<u8>>)
    ensures
        match r {
            Some(bytes) => address_query(id, name@) == Some(bytes@),
            None => address_query(id, name@) is None,
        },
{
    let fields = split(name, '.');
    let ghost labels = split_fields(name@, '.');
    let mut out: Vec<u8> = Vec::new();
    out.push((id / 256) as u8);
    out.push((id % 256) as u8);
    out.push(1);
    out.push(0);
    out.push(0);
    out.push(1);
    out.push(0);
    out.push(0);
    out.push(0);
    out.push(0);
    out.push(0);
    out.push(0);
    let ghost head = out@;
    assert(head =~= seq![(id / 256) as u8, (id % 256) as u8, 1, 0, 0, 1, 0, 0, 0, 0, 0, 0]);
    let mut i: usize = 0;
    assert(labels.take(0) =~= Seq::<Seq<char>>::empty());
    assert(out@ =~= head + labels_bytes(labels.take(0)));
    while i < fields.len()
        invariant
            i <= fields.len(),
            fields.deep_view() == labels,
            labels == split_fields(name@, '.'),
            head == seq![(id / 256) as u8, (id % 256) as u8, 1, 0, 0, 1, 0, 0, 0, 0, 0, 0],
            forall|j: int| 0 <= j < i ==> is_label(#[trigger] labels[j]),
            out@ == head + labels_bytes(labels.take(i as int)),
            labels_bytes(labels.take(i as int)).len() + 1 <= MAX_NAME_LEN,
        decreases fields.len() - i,
    {
        assert(fields.deep_view()[i as int] == fields@[i as int]@);
        let chars = chars_of(fields[i].as_str());
        let ghost l = labels[i as int];
        let n = chars.len();
        if n == 0 || n > 63 {
            assert(!is_label(l));
            return None;
        }
        proof {
            assert(labels.take(i + 1) =~= labels.take(i as int).push(l));
            lemma_labels_push(labels.take(i as int), l);
            lemma_labels_grow(labels, i + 1);
        }
        if out.len() - HEADER_LEN + n + 2 > MAX_NAME_LEN {
            return None;
        }
        let ghost front = out@;
        out.push(n as u8);
        let mut j: usize = 0;
        while j < n
            invariant
                j <= n,
                n == chars.len(),
                chars@ == l,
                1 <= n <= 63,
                labels == split_fields(name@, '.'),
                0 <= i < labels.len(),
                l == labels[i as int],
                forall|k: int| 0 <= k < j ==> is_plain_char(#[trigger] l[k]),
                out@ == front + label_bytes(l).take(j + 1),
            decreases n - j,
        {
            let c = chars[j];
            let plain = ('a' <= c && c <= 'z') || ('A' <= c && c <= 'Z') || ('0' <= c && c <= '9')
                || c == '-' || c == '_';
            if !plain {
                assert(!is_label(l));
                return None;
            }
            out.push(c as u8);
            assert(label_bytes(l).take(j + 2) =~= label_bytes(l).take(j + 1).push(
                l[j as int] as u8,
            ));
            j += 1;
        }
        assert(label_bytes(l).take(n + 1) =~= label_bytes(l));
        i += 1;
    }
    assert(labels.take(i as int) =~= labels);
    let ghost body = out@;
    out.push(0);
    out.push(0);
    out.push(1);
    out.push(0);
    out.push(1);
    assert(out@ =~= body + seq![0u8, 0, 1, 0, 1]);
    Some(out)
}

/// Where the name that starts at `at` ends.
fn skip_name(m: &Vec<u8>, at: usize) -> (r: Option<usize>)
    requires
        at <= m.len(),
    ensures
        match r {
            Some(e) => name_end(m@, at as int) == Some(e as int) && at < e <= m.len(),
            None => name_end(m@, at as int) is None,
        },
{
    let mut pos: usize = at;
    loop
        invariant
            at <= pos <= m.len(),
            name_end(m@, at as int) == name_end(m@, pos as int),
        decreases m.len() - pos,
    {
        if pos >= m.len() {
            return None;
        }
        let n = m[pos] as usize;
        if n == 0 {
            return Some(pos + 1);
        }
        if n >= 192 {
            if m.len() - pos >= 2 {
                return Some(pos + 2);
            }
            return None;
        }
        if n > 63 || n > m.len() - pos - 1 {
            return None;
        }
        pos = pos + 1 + n;
    }
}

/// The address that a response to the query with the identifier `id` gives.
pub fn first_address(m: &Vec<u8>, id: u16) -> (r: Option<u32>)
    ensures
        r == answered_address(m@, id),
{
    if m.len() < HEADER_LEN || read_word(m, 0) != id || m[2] < 128 || m[3] % 16 != 0 {
        return None;
    }
    let mut questions = read_word(m, 4);
    let mut at: usize = HEADER_LEN;
    while questions > 0
        invariant
            HEADER_LEN <= at <= m.len(),
            questions_end(m@, HEADER_LEN as int, word(m@, 4) as nat) == questions_end(
                m@,
                at as int,
                questions as nat,
            ),
        decreases questions,
    {
        match skip_name(m, at) {
            Some(e) => {
                if m.len() - e < 4 {
                    return None;
                }
                at = e + 4;
            },
            None => {
                return None;
            },
        }
        questions -= 1;
    }
    let mut records = read_word(m, 6);
    while records > 0
        invariant
            HEADER_LEN <= at <= m.len(),
            answered_address(m@, id) == first_address_record(m@, at as int, records as nat),
        decreases records,
    {
        let e = match skip_name(m, at) {
            Some(e) => e,
            None => {
                return None;
            },
        };
        if m.len() - e < 10 {
            return None;
        }
        let len = read_word(m, e + 8) as usize;
        if m.len() - e - 10 < len {
            return None;
        }
        if read_word(m, e) == TYPE_A && read_word(m, e + 2) == CLASS_IN && len == 4 {
            return Some(ipv4(m[e + 10], m[e + 11], m[e + 12], m[e + 13]));
        }
        at = e + 10 + len;
        records -= 1;
    }
    None
}

/// A name that can be walked label by label ends where the walk ends, in
/// every message that holds the same bytes up to there.
proof fn lemma_same_name_end(q: Seq<u8>, m: Seq<u8>, at: int)
    requires
        labels_at(q, at) is Some,
        labels_at(q, at)->Some_0.1 <= m.len(),
        forall|i: int| at <= i < labels_at(q, at)->Some_0.1 ==> m[i] == q[i],
    ensures
        name_end(m, at) == Some(labels_at(q, at)->Some_0.1),
    decreases q.len() - at,
{
    if q[at] != 0 {
        let next = at + 1 + q[at];
        lemma_walk_ends_behind(q, next);
        lemma_same_name_end(q, m, next);
    }
}

/// The walk over the labels of a name ends behind where it starts.
proof fn lemma_walk_ends_behind(q: Seq<u8>, at: int)
    requires
        labels_at(q, at) is Some,
    ensures
        at < labels_at(q, at)->Some_0.1 <= q.len(),
    decreases q.len() - at,
{
    if q[at] != 0 {
        lemma_walk_ends_behind(q, at + 1 + q[at]);
    }
}

/// A message that echoes the header and the question of a query and
/// goes on with one address record is read as the address of that record.
proof fn lemma_reads_address(q: Seq<u8>, m: Seq<u8>, end: int, ip: u32)
    requires
        question_of(q) is Ok,
        end == question_of(q)->Ok_0.end,
        m.len() == end + 16,
        m[0] == q[0] && m[1] == q[1] && m[2] >= 128 && m[3] % 16 == 0,
        m[4] == 0 && m[5] == 1 && m[6] == 0 && m[7] == 1,
        forall|i: int| 12 <= i < end ==> m[i] == q[i],
        m[end] == 0xc0,
        m[end + 2] == 0 && m[end + 3] == 1 && m[end + 4] == 0 && m[end + 5] == 1,
        m[end + 10] == 0 && m[end + 11] == 4,
        ipv4_from_octets(m[end + 12], m[end + 13], m[end + 14], m[end + 15]) == ip,
    ensures
        answered_address(m, word(q, 0) as u16) == Some(ip),
{
    let name = HEADER_LEN as int;
    lemma_walk_ends_behind(q, name);
    assert(labels_at(q, name)->Some_0.1 == end - 4);
    lemma_same_name_end(q, m, name);
    assert(questions_end(m, name, 1) == Some(end)) by {
        reveal_with_fuel(questions_end, 2);
    }
    assert(name_end(m, end) == Some(end + 2));
    assert(word(m, end + 2) == 1 && word(m, end + 4) == 1 && word(m, end + 10) == 4);
    assert(first_address_record(m, end, 1) == Some(ip)) by {
        reveal_with_fuel(first_address_record, 2);
    }
    assert(word(m, 4) == 1 && word(m, 6) == 1);
    assert(word(m, 0) == word(q, 0));
}

/// The four bytes of a number write the number.
proof fn lemma_be_bytes(v: u32)
    ensures
        ipv4_from_octets(be_bytes(v)[0], be_bytes(v)[1], be_bytes(v)[2], be_bytes(v)[3]) == v,
{
}

/// The reply that answers a query with an address is read as that address:
/// whoever asked, and reads the reply under the identifier of the query,
/// finds the address that the reply was built with.
pub proof fn law_address_reply_is_read(q: Seq<u8>, ip: u32, ttl: u32)
    requires
        question_of(q) is Ok,
    ensures
        answered_address(
            address_reply(q, question_of(q)->Ok_0.end as int, ip, ttl),
            word(q, 0) as u16,
        ) == Some(ip),
{
    let end = question_of(q)->Ok_0.end as int;
    let m = address_reply(q, end, ip, ttl);
    let head = reply_header(q, 0, 1, 1);
    let asked = q.subrange(HEADER_LEN as int, end);
    let record = address_record(ip, ttl);
    lemma_walk_ends_behind(q, HEADER_LEN as int);
    assert(head.len() == 12 && asked.len() == end - 12 && record.len() == 16);
    assert(m == (head + asked) + record);
    assert forall|i: int| 0 <= i < 12 implies m[i] == head[i] by {}
    assert forall|i: int| 12 <= i < end implies m[i] == q[i] by {
        assert(m[i] == asked[i - 12]);
    }
    assert forall|i: int| 0 <= i < 16 implies m[end + i] == record[i] by {}
    assert(m[end] == record[0] && m[end + 2] == record[2] && m[end + 3] == record[3] && m[end
        + 4] == record[4] && m[end + 5] == record[5]);
    assert(m[end + 10] == record[10] && m[end + 11] == record[11]);
    assert(m[end + 12] == record[12] && m[end + 13] == record[13] && m[end + 14] == record[14]
        && m[end + 15] == record[15]);
    assert(record[12] == be_bytes(ip)[0] && record[13] == be_bytes(ip)[1] && record[14]
        == be_bytes(ip)[2] && record[15] == be_bytes(ip)[3]);
    lemma_be_bytes(ip);
    lemma_reads_address(q, m, end, ip);
}

} // verus!
