//! The `Exchange` value entity: an immutable record identifying one
//! token-trading venue by the traded token, the venue label of the
//! registry that created it, and the backing ledger server.

use vstd::prelude::*;
use vstd::string::StringExecFns;

verus! {

/// Mathematical view of an [`Exchange`]: its three identifying strings
/// as character sequences. Two exchanges are the same venue exactly
/// when all three components agree.
pub ghost struct ExchangeView {
    pub token: Seq<char>,
    pub factory: Seq<char>,
    pub server: Seq<char>,
}

/// An immutable value identifying one token-trading venue. Equality
/// and hashing are structural over all three fields, which makes the
/// value usable as a reverse-index key.
#[derive(Hash)]
pub struct Exchange {
    token: String,
    factory: String,
    server: String,
}

impl View for Exchange {
    type V = ExchangeView;

    closed spec fn view(&self) -> ExchangeView {
        ExchangeView { token: self.token@, factory: self.factory@, server: self.server@ }
    }
}

/// The character sequence of the textual rendering of an exchange.
pub open spec fn rendered(e: ExchangeView) -> Seq<char> {
    "Exchange { token: "@ + e.token + ", factory: "@ + e.factory + ", server: "@ + e.server
        + " }"@
}

impl Exchange {
    /// Pure constructor: the three fields are accepted as given;
    /// validation is the registry's responsibility, not the entity's.
    pub fn new(token: String, factory: String, server: String) -> (r: Self)
        ensures
            r@ == (ExchangeView { token: token@, factory: factory@, server: server@ }),
    {
        Exchange { token, factory, server }
    }

    /// The identifier of the traded token.
    pub fn token(&self) -> (r: &String)
        ensures
            r@ == self@.token,
    {
        &self.token
    }

    /// The label of the venue that created this exchange.
    pub fn factory(&self) -> (r: &String)
        ensures
            r@ == self@.factory,
    {
        &self.factory
    }

    /// The identity of the backing ledger server.
    pub fn server(&self) -> (r: &String)
        ensures
            r@ == self@.server,
    {
        &self.server
    }

    /// Human-readable rendering of the exchange for display.
    pub fn describe(&self) -> (r: String)
        ensures
            r@ == rendered(self@),
    {
        let mut s = "Exchange { token: ".to_owned();
        s.append(self.token.as_str());
        s.append(", factory: ");
        s.append(self.factory.as_str());
        s.append(", server: ");
        s.append(self.server.as_str());
        s.append(" }");
        s
    }
}

impl Clone for Exchange {
    fn clone(&self) -> (r: Self)
        ensures
            r == *self,
    {
        Exchange {
            token: self.token.clone(),
            factory: self.factory.clone(),
            server: self.server.clone(),
        }
    }
}

impl PartialEq for Exchange {
    fn eq(&self, other: &Self) -> (r: bool) {
        self.token == other.token && self.factory == other.factory && self.server == other.server
    }
}

impl Eq for Exchange {

}

impl vstd::std_specs::cmp::PartialEqSpecImpl for Exchange {
    open spec fn obeys_eq_spec() -> bool {
        true
    }

    open spec fn eq_spec(&self, other: &Self) -> bool {
        self@ == other@
    }
}

} // verus!
