//! The fake resolver: which queries are answered with a virtual address,
//! which are handed on to a real name server, and what the answers are.

use vstd::prelude::*;
use crate::dns::{
    address_reply, build_address_reply, build_format_error, build_server_failure,
    find_question_end, format_error, parse_query, question_end, question_of, reply_header,
    server_failure, QueryError, QuestionView, CLASS_IN, HEADER_LEN, RCODE_SERVFAIL, TYPE_A,
};
use crate::storage::DomainIPAssociation;
use crate::text::{chars_of, ends_with, text_ends_with};

verus! {

/// What is done with a message that came in.
#[derive(Debug, PartialEq, Eq)]
pub enum DnsAction {
    /// These bytes are sent back.
    Respond(Vec<u8>),
    /// The message is handed on to a real name server, whose response is
    /// sent back as it is.
    Forward,
    /// Nothing is sent.
    Ignore,
}

/// An action, with the bytes as a sequence.
pub enum DnsActionView {
    Respond(Seq<u8>),
    Forward,
    Ignore,
}

impl View for DnsAction {
    type V = DnsActionView;

    open spec fn view(&self) -> DnsActionView {
        match self {
            DnsAction::Respond(bytes) => DnsActionView::Respond(bytes@),
            DnsAction::Forward => DnsActionView::Forward,
            DnsAction::Ignore => DnsActionView::Ignore,
        }
    }
}

/// Whether `name` ends with one of the texts that are passed through.
pub open spec fn passes_through(passthrough: Seq<Seq<char>>, name: Seq<char>) -> bool {
    exists|i: int| 0 <= i < passthrough.len() && ends_with(name, #[trigger] passthrough[i])
}

/// The name that a virtual address is handed out for: that of a standard
/// query for an IPv4 address in the Internet class, if it is written in
/// plain characters and is not passed through.
pub open spec fn faked_name(m: Seq<u8>, q: QuestionView, passthrough: Seq<Seq<char>>) -> Option<
    Seq<char>,
> {
    if m[2] / 8 % 16 == 0 && q.qtype == TYPE_A && q.qclass == CLASS_IN {
        match q.name {
            Some(name) => if passes_through(passthrough, name) {
                None
            } else {
                Some(name)
            },
            None => None,
        }
    } else {
        None
    }
}

/// The reply that tells that no name server answered the query `m`: the
/// header with the question, if the query has one that can be read.
pub open spec fn failure_reply(m: Seq<u8>) -> Seq<u8> {
    if question_end(m) >= HEADER_LEN {
        server_failure(m, question_end(m))
    } else {
        reply_header(m, RCODE_SERVFAIL, 0, 0)
    }
}

/// The fake resolver.
#[derive(Debug)]
pub struct FakeDNS {
    ttl: u32,
    passthrough: Vec<String>,
}

impl FakeDNS {
    /// The time to live of the answers, in seconds.
    pub closed spec fn spec_ttl(self) -> u32 {
        self.ttl
    }

    /// The ends of the names that are handed on to a real name server.
    pub closed spec fn passthrough(self) -> Seq<Seq<char>> {
        self.passthrough.deep_view()
    }

    /// A resolver whose answers live for `ttl` seconds, and which hands on
    /// every name that ends with one of `passthrough`.
    pub fn new(ttl: u32, passthrough: Vec<String>) -> (f: FakeDNS)
        ensures
            f.spec_ttl() == ttl,
            f.passthrough() == passthrough.deep_view(),
    {
        FakeDNS { ttl, passthrough }
    }

    /// The time to live of the answers, in seconds.
    pub fn ttl(&self) -> (t: u32)
        ensures
            t == self.spec_ttl(),
    {
        self.ttl
    }

    /// Whether `name` is handed on to a real name server.
    pub fn is_passed_through(&self, name: &str) -> (b: bool)
        ensures
            b == passes_through(self.passthrough(), name@),
    {
        let chars = chars_of(name);
        let mut i: usize = 0;
        while i < self.passthrough.len()
            invariant
                i <= self.passthrough.len(),
                chars@ == name@,
                forall|j: int|
                    0 <= j < i ==> !ends_with(name@, #[trigger] self.passthrough.deep_view()[j]),
            decreases self.passthrough.len() - i,
        {
            assert(self.passthrough.deep_view()[i as int] == self.passthrough@[i as int]@);
            if text_ends_with(&chars, &chars_of(self.passthrough[i].as_str())) {
                return true;
            }
            i += 1;
        }
        false
    }

    /// Takes a message that came in at `now`, in milliseconds. A message
    /// shorter than a header, or a response, is ignored. A query that cannot
    /// be read is answered with a format error. A standard query for the
    /// IPv4 address of a plain name that is not passed through is answered
    /// with the virtual address that the store ties the name to, until the
    /// time to live after `now`, or with a server failure if the pool is
    /// exhausted. Every other query is handed on.
    pub fn handle_query(&self, query: &Vec<u8>, store: &mut DomainIPAssociation, now: u64) -> (r:
        DnsAction)
        requires
            old(store).wf(),
        ensures
            final(store).wf(),
            match question_of(query@) {
                Err(QueryError::Malformed) => r@ == DnsActionView::Respond(format_error(query@))
                    && final(store)@ == old(store)@,
                Err(_) => r@ == DnsActionView::Ignore && final(store)@ == old(store)@,
                Ok(q) => match faked_name(query@, q, self.passthrough()) {
                    None => r@ == DnsActionView::Forward && final(store)@ == old(store)@,
                    Some(name) => {
                        &&& final(store)@ == old(store)@.insert_or_refresh(
                            name,
                            (self.spec_ttl() * 1000) as u64,
                            now,
                        )
                        &&& r@ == DnsActionView::Respond(
                            match old(store)@.insert_result(name, now) {
                                Ok(ip) => address_reply(query@, q.end as int, ip, self.spec_ttl()),
                                Err(_) => server_failure(query@, q.end as int),
                            },
                        )
                    },
                },
            },
    {
        let q = match parse_query(query) {
            Ok(q) => q,
            Err(QueryError::Malformed) => {
                return DnsAction::Respond(build_format_error(query));
            },
            Err(_) => {
                return DnsAction::Ignore;
            },
        };
        if query[2] / 8 % 16 != 0 || q.qtype != TYPE_A || q.qclass != CLASS_IN {
            return DnsAction::Forward;
        }
        let name = match &q.name {
            Some(name) => name,
            None => {
                return DnsAction::Forward;
            },
        };
        if self.is_passed_through(name.as_str()) {
            return DnsAction::Forward;
        }
        match store.insert_or_refresh(name.as_str(), self.ttl as u64 * 1000, now) {
            Ok(ip) => DnsAction::Respond(build_address_reply(query, q.end, ip, self.ttl)),
            Err(_) => DnsAction::Respond(build_server_failure(query, q.end)),
        }
    }

    /// The reply to a query that was handed on and that no name server
    /// answered: a server failure. A message shorter than a header gets
    /// none.
    pub fn upstream_failed(query: &Vec<u8>) -> (r: Option<Vec<u8>>)
        ensures
            match r {
                Some(bytes) => query.len() >= HEADER_LEN && bytes@ == failure_reply(query@),
                None => query.len() < HEADER_LEN,
            },
    {
        if query.len() < HEADER_LEN {
            return None;
        }
        let end = find_question_end(query);
        if end >= HEADER_LEN {
            Some(build_server_failure(query, end))
        } else {
            let mut out: Vec<u8> = Vec::new();
            crate::dns::push_reply_header(&mut out, query, RCODE_SERVFAIL, 0, 0);
            Some(out)
        }
    }
}

} // verus!
