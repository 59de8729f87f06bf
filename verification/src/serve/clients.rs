//! Who is reading: the callers a server has seen, each given a number.
//!
//! A caller is the triple of login, address and browser. Two tabs in one
//! browser are one caller; the same person on a phone and on a laptop are two,
//! since nothing in what they send ties them together.

use vstd::prelude::*;
use vstd::string::*;

use crate::serve::http::{client_address, origin_address};
use crate::serve::store::{author_or_local, resolved_author};
use crate::text::{opt_str, same};

verus! {

/// What is known about a caller, and the number standing for it.
#[derive(Debug, PartialEq, Eq)]
pub struct Client {
    /// The number every other line refers to it by.
    pub id: usize,
    /// The login, or the local user when there is no proxy in front.
    pub name: String,
    /// The address the request came from.
    pub ip: String,
    /// The browser it was made with, verbatim.
    pub useragent: String,
}

/// What tells one caller from another.
pub struct Caller {
    pub name: Seq<char>,
    pub ip: Seq<char>,
    pub useragent: Seq<char>,
}

impl Client {
    /// What tells it from another.
    pub open spec fn caller(&self) -> Caller {
        Caller { name: self.name@, ip: self.ip@, useragent: self.useragent@ }
    }
}

/// The callers seen so far, in the order they were first seen.
#[derive(Debug)]
pub struct Clients {
    seen: Vec<Client>,
}

impl View for Clients {
    type V = Seq<Caller>;

    closed spec fn view(&self) -> Seq<Caller> {
        self.seen@.map_values(|c: Client| c.caller())
    }
}

/// The callers after one is seen: one that was seen before is not added again.
pub open spec fn with_caller(seen: Seq<Caller>, caller: Caller) -> Seq<Caller> {
    if seen.contains(caller) {
        seen
    } else {
        seen.push(caller)
    }
}

impl Clients {
    /// Whether each caller has the number it was first seen under, and none has
    /// two.
    pub closed spec fn well_formed(&self) -> bool {
        &&& forall|i: int| 0 <= i < self.seen@.len() ==> (#[trigger] self.seen@[i]).id == i
        &&& self@.no_duplicates()
    }

    /// Nobody yet.
    pub fn new() -> (r: Self)
        ensures
            r.well_formed(),
            r@ == Seq::<Caller>::empty(),
    {
        let r: Clients = Clients { seen: Vec::new() };
        assert(r@ =~= Seq::empty());
        r
    }

    /// The caller a request comes from, and whether this is its first sight.
    ///
    /// A caller that has not been seen before is given the next number. One that
    /// has is given back as it was, so that the number stays with it.
    pub fn meet(&mut self, name: &str, ip: &str, useragent: &str) -> (r: (Client, bool))
        requires
            old(self).well_formed(),
        ensures
            final(self).well_formed(),
            ({
                let caller = Caller { name: name@, ip: ip@, useragent: useragent@ };
                &&& r.0.caller() == caller
                &&& r.1 == !old(self)@.contains(caller)
                &&& final(self)@ == with_caller(old(self)@, caller)
                &&& r.0.id < final(self)@.len() && final(self)@[r.0.id as int] == caller
            }),
    {
        let ghost caller = Caller { name: name@, ip: ip@, useragent: useragent@ };
        let ghost all = self@;
        let n: usize = self.seen.len();
        let mut i: usize = 0;
        while i < n
            invariant
                i <= n,
                n == self.seen@.len(),
                *self == *old(self),
                self.well_formed(),
                all == self@,
                caller == (Caller { name: name@, ip: ip@, useragent: useragent@ }),
                forall|k: int| 0 <= k < i ==> all[k] != caller,
            decreases n - i,
        {
            assert(all[i as int] == self.seen@[i as int].caller());
            if same(self.seen[i].name.as_str(), name) && same(self.seen[i].ip.as_str(), ip) && same(
                self.seen[i].useragent.as_str(),
                useragent,
            ) {
                assert(all[i as int] == caller);
                return (
                    Client {
                        id: self.seen[i].id,
                        name: name.to_string(),
                        ip: ip.to_string(),
                        useragent: useragent.to_string(),
                    },
                    false,
                );
            }
            i = i + 1;
        }
        let held: Client = Client {
            id: n,
            name: name.to_string(),
            ip: ip.to_string(),
            useragent: useragent.to_string(),
        };
        let client: Client = Client {
            id: n,
            name: name.to_string(),
            ip: ip.to_string(),
            useragent: useragent.to_string(),
        };
        assert(!all.contains(caller));
        self.seen.push(held);
        assert(self@ =~= all.push(caller));
        (client, true)
    }

    /// The caller a request comes from: by the author it names, or else who is
    /// at this machine; by the address it was forwarded for, or else the
    /// connection's far end; and by its browser.
    pub fn identify(
        &mut self,
        author: Option<&str>,
        forwarded_for: Option<&str>,
        agent: Option<&str>,
        peer: &str,
        local: &str,
    ) -> (r: (Client, bool))
        requires
            old(self).well_formed(),
        ensures
            final(self).well_formed(),
            ({
                let caller = Caller {
                    name: resolved_author(opt_str(author), local@),
                    ip: origin_address(opt_str(forwarded_for), peer@),
                    useragent: match agent {
                        Some(agent) => agent@,
                        None => ""@,
                    },
                };
                &&& r.0.caller() == caller
                &&& r.1 == !old(self)@.contains(caller)
                &&& final(self)@ == with_caller(old(self)@, caller)
                &&& r.0.id < final(self)@.len() && final(self)@[r.0.id as int] == caller
            }),
    {
        let name: String = author_or_local(author, local);
        let ip: String = client_address(forwarded_for, peer);
        let useragent: &str = match agent {
            Some(agent) => agent,
            None => "",
        };
        self.meet(name.as_str(), ip.as_str(), useragent)
    }
}

impl Default for Clients {
    fn default() -> (r: Self)
        ensures
            r.well_formed(),
            r@ == Seq::<Caller>::empty(),
    {
        Clients::new()
    }
}

/// No two callers share a number, and no caller has two.
pub proof fn a_number_is_one_callers(clients: Clients)
    requires
        clients.well_formed(),
    ensures
        clients@.no_duplicates(),
        forall|i: int, j: int| 0 <= i < j < clients@.len() ==> clients@[i] != clients@[j],
{
}

/// A caller keeps its number, whoever else is seen.
pub proof fn a_caller_keeps_its_number(seen: Seq<Caller>, caller: Caller, i: int)
    requires
        0 <= i < seen.len(),
    ensures
        with_caller(seen, caller)[i] == seen[i],
{
}

/// No caller has two numbers.
pub proof fn no_caller_is_counted_twice(seen: Seq<Caller>, caller: Caller)
    requires
        seen.no_duplicates(),
    ensures
        with_caller(seen, caller).no_duplicates(),
        with_caller(seen, caller).contains(caller),
{
    let all = seen.push(caller);
    assert(all[all.len() - 1] == caller);
}

} // verus!
