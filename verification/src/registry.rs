//! The bidirectional token-to-exchange registry. A registry owns a
//! forward index from token identifiers to exchanges and a reverse
//! index from exchanges back to token identifiers; every operation
//! keeps the two in exact mutual agreement.

use vstd::prelude::*;
use crate::exchange::Exchange;
use crate::exchange::ExchangeView;

verus! {

/// Errors reported by registry operations. Absence of a lookup result
/// is not an error; these cover only rejected creations.
#[derive(Debug, PartialEq, Eq, Structural)]
pub enum DerivexError {
    /// A create was attempted for a token identifier already registered.
    DuplicateToken,
    /// The supplied token identifier is malformed (empty).
    InvalidToken,
}

/// The venue label stamped into the `factory` field of every exchange
/// created by a registry.
pub open spec fn factory_label() -> Seq<char> {
    "Factory"@
}

/// Mathematical view of a registry: its configured server identity,
/// the two mutually inverse maps, and the auxiliary numeric-id index.
#[verifier::ext_equal]
pub ghost struct RegistryView {
    pub server: Seq<char>,
    pub token_map: Map<Seq<char>, ExchangeView>,
    pub exchange_map: Map<ExchangeView, Seq<char>>,
    pub id_map: Map<u64, Seq<char>>,
}

/// The exchange that a successful create on registry state `r` for
/// token `t` yields: the token, the fixed venue label, and the
/// registry's own server identity stamped in.
pub open spec fn created_exchange(r: RegistryView, t: Seq<char>) -> ExchangeView {
    ExchangeView { token: t, factory: factory_label(), server: r.server }
}

/// Whether a create for token `t` is accepted on registry state `r`:
/// the identifier is non-empty and not yet registered.
pub open spec fn create_accepts(r: RegistryView, t: Seq<char>) -> bool {
    t.len() != 0 && !r.token_map.contains_key(t)
}

/// The value a create for token `t` on registry state `r` returns: the
/// new exchange on acceptance, or the exact error otherwise.
pub open spec fn create_outcome(r: RegistryView, t: Seq<char>) -> Result<
    ExchangeView,
    DerivexError,
> {
    if t.len() == 0 {
        Err(DerivexError::InvalidToken)
    } else if r.token_map.contains_key(t) {
        Err(DerivexError::DuplicateToken)
    } else {
        Ok(created_exchange(r, t))
    }
}

/// The registry state after a create for token `t`: both maps gain the
/// new entry in one step on acceptance, and nothing changes on a
/// rejected create.
pub open spec fn create_step(r: RegistryView, t: Seq<char>) -> RegistryView {
    if create_accepts(r, t) {
        RegistryView {
            token_map: r.token_map.insert(t, created_exchange(r, t)),
            exchange_map: r.exchange_map.insert(created_exchange(r, t), t),
            ..r
        }
    } else {
        r
    }
}

/// The registry state after a remove for token `t`: both maps lose the
/// entry in one step if it is present, and nothing changes otherwise.
pub open spec fn remove_step(r: RegistryView, t: Seq<char>) -> RegistryView {
    if r.token_map.contains_key(t) {
        RegistryView {
            token_map: r.token_map.remove(t),
            exchange_map: r.exchange_map.remove(r.token_map[t]),
            ..r
        }
    } else {
        r
    }
}

/// Whether the forward entries of `s` carry pairwise distinct token
/// identifiers.
pub open spec fn tokens_unique(s: Seq<(String, Exchange)>) -> bool {
    forall|i: int, j: int|
        0 <= i < j < s.len() ==> (#[trigger] s[i]).0@ != (#[trigger] s[j]).0@
}

/// Whether the reverse entries of `s` carry pairwise distinct exchanges.
pub open spec fn exchanges_unique(s: Seq<(Exchange, String)>) -> bool {
    forall|i: int, j: int|
        0 <= i < j < s.len() ==> (#[trigger] s[i]).0@ != (#[trigger] s[j]).0@
}

/// Whether the entries of `s` carry pairwise distinct numeric ids.
pub open spec fn ids_unique(s: Seq<(u64, String)>) -> bool {
    forall|i: int, j: int| 0 <= i < j < s.len() ==> (#[trigger] s[i]).0 != (#[trigger] s[j]).0
}

/// Whether some forward entry of `s` carries the token `t`.
pub open spec fn has_token(s: Seq<(String, Exchange)>, t: Seq<char>) -> bool {
    exists|i: int| 0 <= i < s.len() && (#[trigger] s[i]).0@ == t
}

/// The index of the forward entry of `s` carrying the token `t`.
pub open spec fn token_index_of(s: Seq<(String, Exchange)>, t: Seq<char>) -> int {
    choose|i: int| 0 <= i < s.len() && (#[trigger] s[i]).0@ == t
}

/// Whether some reverse entry of `s` carries the exchange `e`.
pub open spec fn has_exchange(s: Seq<(Exchange, String)>, e: ExchangeView) -> bool {
    exists|i: int| 0 <= i < s.len() && (#[trigger] s[i]).0@ == e
}

/// The index of the reverse entry of `s` carrying the exchange `e`.
pub open spec fn exchange_index_of(s: Seq<(Exchange, String)>, e: ExchangeView) -> int {
    choose|i: int| 0 <= i < s.len() && (#[trigger] s[i]).0@ == e
}

/// Whether some entry of `s` carries the numeric id `id`.
pub open spec fn has_id(s: Seq<(u64, String)>, id: u64) -> bool {
    exists|i: int| 0 <= i < s.len() && (#[trigger] s[i]).0 == id
}

/// The index of the entry of `s` carrying the numeric id `id`.
pub open spec fn id_index_of(s: Seq<(u64, String)>, id: u64) -> int {
    choose|i: int| 0 <= i < s.len() && (#[trigger] s[i]).0 == id
}

/// The map each forward entry sequence denotes: each token identifier
/// to its stored exchange.
pub open spec fn token_map_of(s: Seq<(String, Exchange)>) -> Map<Seq<char>, ExchangeView> {
    Map::new(|t: Seq<char>| has_token(s, t), |t: Seq<char>| s[token_index_of(s, t)].1@)
}

/// The map each reverse entry sequence denotes: each exchange to its
/// token identifier.
pub open spec fn exchange_map_of(s: Seq<(Exchange, String)>) -> Map<ExchangeView, Seq<char>> {
    Map::new(|e: ExchangeView| has_exchange(s, e), |e: ExchangeView| s[exchange_index_of(s, e)].1@)
}

/// The map the auxiliary id entry sequence denotes: each numeric id to
/// its token identifier.
pub open spec fn id_map_of(s: Seq<(u64, String)>) -> Map<u64, Seq<char>> {
    Map::new(|id: u64| has_id(s, id), |id: u64| s[id_index_of(s, id)].1@)
}

proof fn lemma_token_map_entry(s: Seq<(String, Exchange)>, i: int)
    requires
        tokens_unique(s),
        0 <= i < s.len(),
    ensures
        token_map_of(s).contains_key(s[i].0@),
        token_map_of(s)[s[i].0@] == s[i].1@,
{
    let t = s[i].0@;
    assert(has_token(s, t));
    let j = token_index_of(s, t);
    assert(0 <= j < s.len() && s[j].0@ == t);
    assert(i == j) by {
        if i < j {
            assert(s[i].0@ != s[j].0@);
        } else if j < i {
            assert(s[j].0@ != s[i].0@);
        }
    }
}

proof fn lemma_token_map_push(s: Seq<(String, Exchange)>, p: (String, Exchange))
    requires
        tokens_unique(s),
        !has_token(s, p.0@),
    ensures
        tokens_unique(s.push(p)),
        token_map_of(s.push(p)) == token_map_of(s).insert(p.0@, p.1@),
{
    let s2 = s.push(p);
    let n = s.len() as int;
    assert forall|i: int, j: int| 0 <= i < j < s2.len() implies (#[trigger] s2[i]).0@
        != (#[trigger] s2[j]).0@ by {
        if j == n {
            assert(s2[i] == s[i]);
            if s[i].0@ == p.0@ {
                assert(has_token(s, p.0@));
            }
        } else {
            assert(s2[i] == s[i] && s2[j] == s[j]);
        }
    }
    let m1 = token_map_of(s2);
    let m2 = token_map_of(s).insert(p.0@, p.1@);
    assert forall|t: Seq<char>| #[trigger] m2.contains_key(t) implies m1.contains_key(t) && m1[t]
        == m2[t] by {
        if t == p.0@ {
            assert(s2[n] == p);
            assert(has_token(s2, t));
            let j = token_index_of(s2, t);
            assert(0 <= j < s2.len() && s2[j].0@ == t);
            if j < n {
                assert(s2[j] == s[j]);
                assert(has_token(s, p.0@));
            }
            assert(m1[t] == p.1@);
        } else {
            assert(token_map_of(s).contains_key(t));
            let i = token_index_of(s, t);
            assert(0 <= i < s.len() && s[i].0@ == t);
            assert(s2[i] == s[i]);
            assert(has_token(s2, t));
            let j = token_index_of(s2, t);
            assert(0 <= j < s2.len() && s2[j].0@ == t);
            assert(j != n) by {
                assert(s2[n] == p);
            }
            assert(s2[j] == s[j]);
            assert(i == j) by {
                if i < j {
                    assert(s[i].0@ != s[j].0@);
                } else if j < i {
                    assert(s[j].0@ != s[i].0@);
                }
            }
            assert(m1[t] == s[i].1@);
            assert(m2[t] == token_map_of(s)[t]);
            lemma_token_map_entry(s, i);
        }
    }
    assert forall|t: Seq<char>| #[trigger] m1.contains_key(t) implies m2.contains_key(t) by {
        let j = token_index_of(s2, t);
        assert(0 <= j < s2.len() && s2[j].0@ == t);
        if j == n {
            assert(s2[n] == p);
            assert(t == p.0@);
        } else {
            assert(s2[j] == s[j]);
            assert(has_token(s, t));
        }
    }
    assert(m1 =~= m2);
}

proof fn lemma_token_map_remove(s: Seq<(String, Exchange)>, k: int)
    requires
        tokens_unique(s),
        0 <= k < s.len(),
    ensures
        tokens_unique(s.remove(k)),
        token_map_of(s.remove(k)) == token_map_of(s).remove(s[k].0@),
{
    let s3 = s.remove(k);
    let n = s.len() as int;
    assert(s3.len() == n - 1);
    assert forall|i: int| 0 <= i < n - 1 implies #[trigger] s3[i] == (if i < k {
        s[i]
    } else {
        s[i + 1]
    }) by {}
    assert forall|i: int, j: int| 0 <= i < j < s3.len() implies (#[trigger] s3[i]).0@
        != (#[trigger] s3[j]).0@ by {
        let i2 = if i < k { i } else { i + 1 };
        let j2 = if j < k { j } else { j + 1 };
        assert(s3[i] == s[i2] && s3[j] == s[j2]);
        assert(0 <= i2 < j2 < n);
    }
    let m1 = token_map_of(s3);
    let m2 = token_map_of(s).remove(s[k].0@);
    assert forall|t: Seq<char>| #[trigger] m1.contains_key(t) implies m2.contains_key(t) && m1[t]
        == m2[t] by {
        let i = token_index_of(s3, t);
        assert(0 <= i < s3.len() && s3[i].0@ == t);
        let i2 = if i < k { i } else { i + 1 };
        assert(s3[i] == s[i2]);
        assert(s[i2].0@ == t);
        assert(has_token(s, t));
        assert(i2 != k);
        assert(t != s[k].0@) by {
            if i2 < k {
                assert(s[i2].0@ != s[k].0@);
            } else {
                assert(s[k].0@ != s[i2].0@);
            }
        }
        lemma_token_map_entry(s, i2);
        assert(m2[t] == token_map_of(s)[t]);
        assert(m1[t] == s3[token_index_of(s3, t)].1@);
        let j = token_index_of(s3, t);
        assert(i == j) by {
            if i < j {
                assert(s3[i].0@ != s3[j].0@);
            } else if j < i {
                assert(s3[j].0@ != s3[i].0@);
            }
        }
        assert(m1[t] == s[i2].1@);
    }
    assert forall|t: Seq<char>| #[trigger] m2.contains_key(t) implies m1.contains_key(t) by {
        assert(token_map_of(s).contains_key(t) && t != s[k].0@);
        let i = token_index_of(s, t);
        assert(0 <= i < n && s[i].0@ == t);
        assert(i != k);
        let i3 = if i < k { i } else { i - 1 };
        assert(s3[i3] == s[i]);
        assert(has_token(s3, t));
    }
    assert(m1 =~= m2);
}

proof fn lemma_exchange_map_entry(s: Seq<(Exchange, String)>, i: int)
    requires
        exchanges_unique(s),
        0 <= i < s.len(),
    ensures
        exchange_map_of(s).contains_key(s[i].0@),
        exchange_map_of(s)[s[i].0@] == s[i].1@,
{
    let e = s[i].0@;
    assert(has_exchange(s, e));
    let j = exchange_index_of(s, e);
    assert(0 <= j < s.len() && s[j].0@ == e);
    assert(i == j) by {
        if i < j {
            assert(s[i].0@ != s[j].0@);
        } else if j < i {
            assert(s[j].0@ != s[i].0@);
        }
    }
}

proof fn lemma_exchange_map_push(s: Seq<(Exchange, String)>, p: (Exchange, String))
    requires
        exchanges_unique(s),
        !has_exchange(s, p.0@),
    ensures
        exchanges_unique(s.push(p)),
        exchange_map_of(s.push(p)) == exchange_map_of(s).insert(p.0@, p.1@),
{
    let s2 = s.push(p);
    let n = s.len() as int;
    assert forall|i: int, j: int| 0 <= i < j < s2.len() implies (#[trigger] s2[i]).0@
        != (#[trigger] s2[j]).0@ by {
        if j == n {
            assert(s2[i] == s[i]);
            if s[i].0@ == p.0@ {
                assert(has_exchange(s, p.0@));
            }
        } else {
            assert(s2[i] == s[i] && s2[j] == s[j]);
        }
    }
    let m1 = exchange_map_of(s2);
    let m2 = exchange_map_of(s).insert(p.0@, p.1@);
    assert forall|e: ExchangeView| #[trigger] m2.contains_key(e) implies m1.contains_key(e) && m1[e]
        == m2[e] by {
        if e == p.0@ {
            assert(s2[n] == p);
            assert(has_exchange(s2, e));
            let j = exchange_index_of(s2, e);
            assert(0 <= j < s2.len() && s2[j].0@ == e);
            if j < n {
                assert(s2[j] == s[j]);
                assert(has_exchange(s, p.0@));
            }
            assert(m1[e] == p.1@);
        } else {
            assert(exchange_map_of(s).contains_key(e));
            let i = exchange_index_of(s, e);
            assert(0 <= i < s.len() && s[i].0@ == e);
            assert(s2[i] == s[i]);
            assert(has_exchange(s2, e));
            let j = exchange_index_of(s2, e);
            assert(0 <= j < s2.len() && s2[j].0@ == e);
            assert(j != n) by {
                assert(s2[n] == p);
            }
            assert(s2[j] == s[j]);
            assert(i == j) by {
                if i < j {
                    assert(s[i].0@ != s[j].0@);
                } else if j < i {
                    assert(s[j].0@ != s[i].0@);
                }
            }
            assert(m1[e] == s[i].1@);
            assert(m2[e] == exchange_map_of(s)[e]);
            lemma_exchange_map_entry(s, i);
        }
    }
    assert forall|e: ExchangeView| #[trigger] m1.contains_key(e) implies m2.contains_key(e) by {
        let j = exchange_index_of(s2, e);
        assert(0 <= j < s2.len() && s2[j].0@ == e);
        if j == n {
            assert(s2[n] == p);
            assert(e == p.0@);
        } else {
            assert(s2[j] == s[j]);
            assert(has_exchange(s, e));
        }
    }
    assert(m1 =~= m2);
}

proof fn lemma_exchange_map_remove(s: Seq<(Exchange, String)>, k: int)
    requires
        exchanges_unique(s),
        0 <= k < s.len(),
    ensures
        exchanges_unique(s.remove(k)),
        exchange_map_of(s.remove(k)) == exchange_map_of(s).remove(s[k].0@),
{
    let s3 = s.remove(k);
    let n = s.len() as int;
    assert(s3.len() == n - 1);
    assert forall|i: int| 0 <= i < n - 1 implies #[trigger] s3[i] == (if i < k {
        s[i]
    } else {
        s[i + 1]
    }) by {}
    assert forall|i: int, j: int| 0 <= i < j < s3.len() implies (#[trigger] s3[i]).0@
        != (#[trigger] s3[j]).0@ by {
        let i2 = if i < k { i } else { i + 1 };
        let j2 = if j < k { j } else { j + 1 };
        assert(s3[i] == s[i2] && s3[j] == s[j2]);
        assert(0 <= i2 < j2 < n);
    }
    let m1 = exchange_map_of(s3);
    let m2 = exchange_map_of(s).remove(s[k].0@);
    assert forall|e: ExchangeView| #[trigger] m1.contains_key(e) implies m2.contains_key(e) && m1[e]
        == m2[e] by {
        let i = exchange_index_of(s3, e);
        assert(0 <= i < s3.len() && s3[i].0@ == e);
        let i2 = if i < k { i } else { i + 1 };
        assert(s3[i] == s[i2]);
        assert(s[i2].0@ == e);
        assert(has_exchange(s, e));
        assert(i2 != k);
        assert(e != s[k].0@) by {
            if i2 < k {
                assert(s[i2].0@ != s[k].0@);
            } else {
                assert(s[k].0@ != s[i2].0@);
            }
        }
        lemma_exchange_map_entry(s, i2);
        assert(m2[e] == exchange_map_of(s)[e]);
        assert(m1[e] == s3[exchange_index_of(s3, e)].1@);
        let j = exchange_index_of(s3, e);
        assert(i == j) by {
            if i < j {
                assert(s3[i].0@ != s3[j].0@);
            } else if j < i {
                assert(s3[j].0@ != s3[i].0@);
            }
        }
        assert(m1[e] == s[i2].1@);
    }
    assert forall|e: ExchangeView| #[trigger] m2.contains_key(e) implies m1.contains_key(e) by {
        assert(exchange_map_of(s).contains_key(e) && e != s[k].0@);
        let i = exchange_index_of(s, e);
        assert(0 <= i < n && s[i].0@ == e);
        assert(i != k);
        let i3 = if i < k { i } else { i - 1 };
        assert(s3[i3] == s[i]);
        assert(has_exchange(s3, e));
    }
    assert(m1 =~= m2);
}

proof fn lemma_id_map_entry(s: Seq<(u64, String)>, i: int)
    requires
        ids_unique(s),
        0 <= i < s.len(),
    ensures
        id_map_of(s).contains_key(s[i].0),
        id_map_of(s)[s[i].0] == s[i].1@,
{
    let id = s[i].0;
    assert(has_id(s, id));
    let j = id_index_of(s, id);
    assert(0 <= j < s.len() && s[j].0 == id);
    assert(i == j) by {
        if i < j {
            assert(s[i].0 != s[j].0);
        } else if j < i {
            assert(s[j].0 != s[i].0);
        }
    }
}

proof fn lemma_id_map_push(s: Seq<(u64, String)>, p: (u64, String))
    requires
        ids_unique(s),
        !has_id(s, p.0),
    ensures
        ids_unique(s.push(p)),
        id_map_of(s.push(p)) == id_map_of(s).insert(p.0, p.1@),
{
    let s2 = s.push(p);
    let n = s.len() as int;
    assert forall|i: int, j: int| 0 <= i < j < s2.len() implies (#[trigger] s2[i]).0
        != (#[trigger] s2[j]).0 by {
        if j == n {
            assert(s2[i] == s[i]);
            if s[i].0 == p.0 {
                assert(has_id(s, p.0));
            }
        } else {
            assert(s2[i] == s[i] && s2[j] == s[j]);
        }
    }
    let m1 = id_map_of(s2);
    let m2 = id_map_of(s).insert(p.0, p.1@);
    assert forall|id: u64| #[trigger] m2.contains_key(id) implies m1.contains_key(id) && m1[id]
        == m2[id] by {
        if id == p.0 {
            assert(s2[n] == p);
            assert(has_id(s2, id));
            let j = id_index_of(s2, id);
            assert(0 <= j < s2.len() && s2[j].0 == id);
            if j < n {
                assert(s2[j] == s[j]);
                assert(has_id(s, p.0));
            }
            assert(m1[id] == p.1@);
        } else {
            assert(id_map_of(s).contains_key(id));
            let i = id_index_of(s, id);
            assert(0 <= i < s.len() && s[i].0 == id);
            assert(s2[i] == s[i]);
            assert(has_id(s2, id));
            let j = id_index_of(s2, id);
            assert(0 <= j < s2.len() && s2[j].0 == id);
            assert(j != n) by {
                assert(s2[n] == p);
            }
            assert(s2[j] == s[j]);
            assert(i == j) by {
                if i < j {
                    assert(s[i].0 != s[j].0);
                } else if j < i {
                    assert(s[j].0 != s[i].0);
                }
            }
            assert(m1[id] == s[i].1@);
            assert(m2[id] == id_map_of(s)[id]);
            lemma_id_map_entry(s, i);
        }
    }
    assert forall|id: u64| #[trigger] m1.contains_key(id) implies m2.contains_key(id) by {
        let j = id_index_of(s2, id);
        assert(0 <= j < s2.len() && s2[j].0 == id);
        if j == n {
            assert(s2[n] == p);
            assert(id == p.0);
        } else {
            assert(s2[j] == s[j]);
            assert(has_id(s, id));
        }
    }
    assert(m1 =~= m2);
}

proof fn lemma_id_map_remove(s: Seq<(u64, String)>, k: int)
    requires
        ids_unique(s),
        0 <= k < s.len(),
    ensures
        ids_unique(s.remove(k)),
        id_map_of(s.remove(k)) == id_map_of(s).remove(s[k].0),
{
    let s3 = s.remove(k);
    let n = s.len() as int;
    assert(s3.len() == n - 1);
    assert forall|i: int| 0 <= i < n - 1 implies #[trigger] s3[i] == (if i < k {
        s[i]
    } else {
        s[i + 1]
    }) by {}
    assert forall|i: int, j: int| 0 <= i < j < s3.len() implies (#[trigger] s3[i]).0
        != (#[trigger] s3[j]).0 by {
        let i2 = if i < k { i } else { i + 1 };
        let j2 = if j < k { j } else { j + 1 };
        assert(s3[i] == s[i2] && s3[j] == s[j2]);
        assert(0 <= i2 < j2 < n);
    }
    let m1 = id_map_of(s3);
    let m2 = id_map_of(s).remove(s[k].0);
    assert forall|id: u64| #[trigger] m1.contains_key(id) implies m2.contains_key(id) && m1[id]
        == m2[id] by {
        let i = id_index_of(s3, id);
        assert(0 <= i < s3.len() && s3[i].0 == id);
        let i2 = if i < k { i } else { i + 1 };
        assert(s3[i] == s[i2]);
        assert(s[i2].0 == id);
        assert(has_id(s, id));
        assert(i2 != k);
        assert(id != s[k].0) by {
            if i2 < k {
                assert(s[i2].0 != s[k].0);
            } else {
                assert(s[k].0 != s[i2].0);
            }
        }
        lemma_id_map_entry(s, i2);
        assert(m2[id] == id_map_of(s)[id]);
        assert(m1[id] == s3[id_index_of(s3, id)].1@);
        let j = id_index_of(s3, id);
        assert(i == j) by {
            if i < j {
                assert(s3[i].0 != s3[j].0);
            } else if j < i {
                assert(s3[j].0 != s3[i].0);
            }
        }
        assert(m1[id] == s[i2].1@);
    }
    assert forall|id: u64| #[trigger] m2.contains_key(id) implies m1.contains_key(id) by {
        assert(id_map_of(s).contains_key(id) && id != s[k].0);
        let i = id_index_of(s, id);
        assert(0 <= i < n && s[i].0 == id);
        assert(i != k);
        let i3 = if i < k { i } else { i - 1 };
        assert(s3[i3] == s[i]);
        assert(has_id(s3, id));
    }
    assert(m1 =~= m2);
}

proof fn lemma_token_map_len(s: Seq<(String, Exchange)>)
    requires
        tokens_unique(s),
    ensures
        token_map_of(s).dom().finite(),
        token_map_of(s).dom().len() == s.len(),
    decreases s.len(),
{
    if s.len() == 0 {
        assert(token_map_of(s) =~= Map::<Seq<char>, ExchangeView>::empty());
    } else {
        let s0 = s.drop_last();
        let p = s.last();
        assert(s == s0.push(p));
        assert(forall|i: int| 0 <= i < s0.len() ==> #[trigger] s0[i] == s[i]);
        assert(!has_token(s0, p.0@)) by {
            if has_token(s0, p.0@) {
                let i = token_index_of(s0, p.0@);
                assert(0 <= i < s0.len() && s0[i].0@ == p.0@);
                assert(s[i].0@ != s[s.len() - 1].0@);
            }
        }
        lemma_token_map_len(s0);
        lemma_token_map_push(s0, p);
    }
}

proof fn lemma_exchange_map_len(s: Seq<(Exchange, String)>)
    requires
        exchanges_unique(s),
    ensures
        exchange_map_of(s).dom().finite(),
        exchange_map_of(s).dom().len() == s.len(),
    decreases s.len(),
{
    if s.len() == 0 {
        assert(exchange_map_of(s) =~= Map::<ExchangeView, Seq<char>>::empty());
    } else {
        let s0 = s.drop_last();
        let p = s.last();
        assert(s == s0.push(p));
        assert(forall|i: int| 0 <= i < s0.len() ==> #[trigger] s0[i] == s[i]);
        assert(!has_exchange(s0, p.0@)) by {
            if has_exchange(s0, p.0@) {
                let i = exchange_index_of(s0, p.0@);
                assert(0 <= i < s0.len() && s0[i].0@ == p.0@);
                assert(s[i].0@ != s[s.len() - 1].0@);
            }
        }
        lemma_exchange_map_len(s0);
        lemma_exchange_map_push(s0, p);
    }
}

/// The registry: a forward index from token identifiers to exchanges,
/// its exact reverse, the server identity stamped into every created
/// exchange, and a best-effort numeric-id index populated out-of-band
/// (the id index has no consistency tie to the other two and can go
/// stale relative to them).
pub struct DerivexFactory {
    server: String,
    token_to_exchange: Vec<(String, Exchange)>,
    exchange_to_token: Vec<(Exchange, String)>,
    id_to_token: Vec<(u64, String)>,
}

impl View for DerivexFactory {
    type V = RegistryView;

    closed spec fn view(&self) -> RegistryView {
        RegistryView {
            server: self.server@,
            token_map: token_map_of(self.token_to_exchange@),
            exchange_map: exchange_map_of(self.exchange_to_token@),
            id_map: id_map_of(self.id_to_token@),
        }
    }
}

impl DerivexFactory {
    /// Well-formedness: token keys and exchange keys are unique, the
    /// reverse index is the pointwise flip of the forward index, every
    /// stored exchange is stamped with its own token, the fixed venue
    /// label, and this registry's server, and id keys are unique.
    pub closed spec fn wf(&self) -> bool {
        let fwd = self.token_to_exchange@;
        let rev = self.exchange_to_token@;
        &&& tokens_unique(fwd)
        &&& exchanges_unique(rev)
        &&& rev.len() == fwd.len()
        &&& forall|i: int|
            0 <= i < fwd.len() ==> (#[trigger] rev[i]).0@ == fwd[i].1@ && rev[i].1@ == fwd[i].0@
        &&& forall|i: int|
            0 <= i < fwd.len() ==> (#[trigger] fwd[i]).1@ == (ExchangeView {
                token: fwd[i].0@,
                factory: factory_label(),
                server: self.server@,
            })
        &&& ids_unique(self.id_to_token@)
    }

    fn find_token(&self, token: &String) -> (r: Option<usize>)
        ensures
            match r {
                Some(i) => i < self.token_to_exchange@.len() && self.token_to_exchange@[
                    i as int
                ].0@ == token@,
                None => !has_token(self.token_to_exchange@, token@),
            },
    {
        let n = self.token_to_exchange.len();
        let mut i: usize = 0;
        while i < n
            invariant
                n == self.token_to_exchange@.len(),
                i <= n,
                forall|j: int|
                    0 <= j < i ==> (#[trigger] self.token_to_exchange@[j]).0@ != token@,
            decreases n - i,
        {
            if self.token_to_exchange[i].0 == *token {
                return Some(i);
            }
            i += 1;
        }
        None
    }

    fn find_exchange(&self, exchange: &Exchange) -> (r: Option<usize>)
        ensures
            match r {
                Some(i) => i < self.exchange_to_token@.len() && self.exchange_to_token@[
                    i as int
                ].0@ == exchange@,
                None => !has_exchange(self.exchange_to_token@, exchange@),
            },
    {
        let n = self.exchange_to_token.len();
        let mut i: usize = 0;
        while i < n
            invariant
                n == self.exchange_to_token@.len(),
                i <= n,
                forall|j: int|
                    0 <= j < i ==> (#[trigger] self.exchange_to_token@[j]).0@ != exchange@,
            decreases n - i,
        {
            if self.exchange_to_token[i].0 == *exchange {
                return Some(i);
            }
            i += 1;
        }
        None
    }

    fn find_id(&self, token_id: u64) -> (r: Option<usize>)
        ensures
            match r {
                Some(i) => i < self.id_to_token@.len() && self.id_to_token@[i as int].0
                    == token_id,
                None => !has_id(self.id_to_token@, token_id),
            },
    {
        let n = self.id_to_token.len();
        let mut i: usize = 0;
        while i < n
            invariant
                n == self.id_to_token@.len(),
                i <= n,
                forall|j: int| 0 <= j < i ==> (#[trigger] self.id_to_token@[j]).0 != token_id,
            decreases n - i,
        {
            if self.id_to_token[i].0 == token_id {
                return Some(i);
            }
            i += 1;
        }
        None
    }

    /// Constructs an empty registry bound to the given server identity.
    pub fn new(server: String) -> (r: Self)
        ensures
            r.wf(),
            r@.server == server@,
            r@.token_map == Map::<Seq<char>, ExchangeView>::empty(),
            r@.exchange_map == Map::<ExchangeView, Seq<char>>::empty(),
            r@.id_map == Map::<u64, Seq<char>>::empty(),
    {
        let r = DerivexFactory {
            server,
            token_to_exchange: Vec::new(),
            exchange_to_token: Vec::new(),
            id_to_token: Vec::new(),
        };
        proof {
            assert(r@.token_map =~= Map::<Seq<char>, ExchangeView>::empty());
            assert(r@.exchange_map =~= Map::<ExchangeView, Seq<char>>::empty());
            assert(r@.id_map =~= Map::<u64, Seq<char>>::empty());
        }
        r
    }
}

impl DerivexFactory {
    /// Registers a new exchange for `token_address`: rejects an empty
    /// identifier with `InvalidToken` and an already-registered one
    /// with `DuplicateToken`, leaving the registry untouched in either
    /// case; otherwise stamps a new exchange with the token, the venue
    /// label, and this registry's server, enters it into both maps in
    /// one step, and returns it.
    pub fn create_new_exchange(&mut self, token_address: &str) -> (result: Result<
        Exchange,
        DerivexError,
    >)
        requires
            old(self).wf(),
        ensures
            final(self).wf(),
            final(self)@ == create_step(old(self)@, token_address@),
            match result {
                Ok(e) => create_outcome(old(self)@, token_address@) == Ok::<
                    ExchangeView,
                    DerivexError,
                >(e@),
                Err(err) => create_outcome(old(self)@, token_address@) == Err::<
                    ExchangeView,
                    DerivexError,
                >(err),
            },
    {
        if token_address.is_empty() {
            return Err(DerivexError::InvalidToken);
        }
        let token_string = token_address.to_owned();
        match self.find_token(&token_string) {
            Some(i) => {
                proof {
                    assert(self.token_to_exchange@[i as int].0@ == token_address@);
                    assert(has_token(self.token_to_exchange@, token_address@));
                }
                Err(DerivexError::DuplicateToken)
            },
            None => {
                let exchange = Exchange::new(
                    token_string.clone(),
                    "Factory".to_owned(),
                    self.server.clone(),
                );
                let ghost old_fwd = self.token_to_exchange@;
                let ghost old_rev = self.exchange_to_token@;
                let fwd_pair = (token_string.clone(), exchange.clone());
                let rev_pair = (exchange.clone(), token_string);
                let ghost g_fwd_pair = fwd_pair;
                let ghost g_rev_pair = rev_pair;
                self.token_to_exchange.push(fwd_pair);
                self.exchange_to_token.push(rev_pair);
                proof {
                    let t = token_address@;
                    let n = old_fwd.len() as int;
                    assert(g_fwd_pair.0@ == t && g_fwd_pair.1@ == exchange@);
                    assert(g_rev_pair.0@ == exchange@ && g_rev_pair.1@ == t);
                    assert(exchange@ == created_exchange(old(self)@, t));
                    assert forall|j: int| 0 <= j < old_rev.len() implies (#[trigger] old_rev[j]).0@
                        != exchange@ by {
                        assert(old_rev[j].0@ == old_fwd[j].1@);
                        assert(old_fwd[j].1@.token == old_fwd[j].0@);
                        if old_rev[j].0@ == exchange@ {
                            assert(old_fwd[j].0@ == t);
                            assert(has_token(old_fwd, t));
                        }
                    }
                    lemma_token_map_push(old_fwd, g_fwd_pair);
                    lemma_exchange_map_push(old_rev, g_rev_pair);
                    let new_fwd = self.token_to_exchange@;
                    let new_rev = self.exchange_to_token@;
                    assert(new_fwd == old_fwd.push(g_fwd_pair));
                    assert(new_rev == old_rev.push(g_rev_pair));
                    assert forall|j: int| 0 <= j < new_fwd.len() implies (#[trigger] new_rev[j]).0@
                        == new_fwd[j].1@ && new_rev[j].1@ == new_fwd[j].0@ by {
                        if j < n {
                            assert(new_fwd[j] == old_fwd[j] && new_rev[j] == old_rev[j]);
                        } else {
                            assert(new_fwd[j] == g_fwd_pair && new_rev[j] == g_rev_pair);
                        }
                    }
                    assert forall|j: int| 0 <= j < new_fwd.len() implies (#[trigger] new_fwd[j]).1@
                        == (ExchangeView {
                        token: new_fwd[j].0@,
                        factory: factory_label(),
                        server: self.server@,
                    }) by {
                        if j < n {
                            assert(new_fwd[j] == old_fwd[j]);
                        } else {
                            assert(new_fwd[j] == g_fwd_pair);
                        }
                    }
                    assert(self@ =~= create_step(old(self)@, t));
                }
                Ok(exchange)
            },
        }
    }

    /// Pure lookup of the exchange registered for `token_address`;
    /// absence is a normal result, not an error.
    pub fn get_exchange(&self, token_address: &str) -> (r: Option<Exchange>)
        requires
            self.wf(),
        ensures
            match r {
                Some(e) => self@.token_map.contains_key(token_address@) && e@
                    == self@.token_map[token_address@],
                None => !self@.token_map.contains_key(token_address@),
            },
    {
        let token_string = token_address.to_owned();
        match self.find_token(&token_string) {
            Some(i) => {
                proof {
                    lemma_token_map_entry(self.token_to_exchange@, i as int);
                }
                Some(self.token_to_exchange[i].1.clone())
            },
            None => None,
        }
    }

    /// Pure reverse lookup, by structural equality on the exchange, of
    /// the token identifier it was registered under.
    pub fn get_token(&self, exchange: &Exchange) -> (r: Option<String>)
        requires
            self.wf(),
        ensures
            match r {
                Some(t) => self@.exchange_map.contains_key(exchange@) && t@
                    == self@.exchange_map[exchange@],
                None => !self@.exchange_map.contains_key(exchange@),
            },
    {
        match self.find_exchange(exchange) {
            Some(i) => {
                proof {
                    lemma_exchange_map_entry(self.exchange_to_token@, i as int);
                }
                Some(self.exchange_to_token[i].1.clone())
            },
            None => None,
        }
    }

    /// Lookup in the auxiliary numeric-id index, which is populated
    /// out-of-band through [`DerivexFactory::set_token_id`] and has no
    /// consistency tie to the two primary maps.
    pub fn get_token_with_id(&self, token_id: u64) -> (r: Option<String>)
        requires
            self.wf(),
        ensures
            match r {
                Some(t) => self@.id_map.contains_key(token_id) && t@
                    == self@.id_map[token_id],
                None => !self@.id_map.contains_key(token_id),
            },
    {
        match self.find_id(token_id) {
            Some(i) => {
                proof {
                    lemma_id_map_entry(self.id_to_token@, i as int);
                }
                Some(self.id_to_token[i].1.clone())
            },
            None => None,
        }
    }

    /// Binds `token_id` to `token` in the auxiliary numeric-id index,
    /// replacing any earlier binding of the same id. The primary maps
    /// are untouched, so this index can go stale relative to them.
    pub fn set_token_id(&mut self, token_id: u64, token: String)
        requires
            old(self).wf(),
        ensures
            final(self).wf(),
            final(self)@ == (RegistryView {
                id_map: old(self)@.id_map.insert(token_id, token@),
                ..old(self)@
            }),
    {
        let ghost old_ids = self.id_to_token@;
        match self.find_id(token_id) {
            Some(i) => {
                let _ = self.id_to_token.remove(i);
                proof {
                    lemma_id_map_remove(old_ids, i as int);
                }
            },
            None => {},
        }
        let ghost mid_ids = self.id_to_token@;
        let ghost pair = (token_id, token);
        self.id_to_token.push((token_id, token));
        proof {
            assert(!has_id(mid_ids, token_id)) by {
                if has_id(mid_ids, token_id) {
                    assert(id_map_of(mid_ids).contains_key(token_id));
                }
            }
            lemma_id_map_push(mid_ids, pair);
            assert(self@.id_map =~= old(self)@.id_map.insert(token_id, token@));
            assert(self@ =~= (RegistryView {
                id_map: old(self)@.id_map.insert(token_id, token@),
                ..old(self)@
            }));
        }
    }

    /// Removes the entry for `token_address` from both maps in one
    /// step; a no-op (not an error) if the token is not registered.
    pub fn remove_exchange(&mut self, token_address: &str)
        requires
            old(self).wf(),
        ensures
            final(self).wf(),
            final(self)@ == remove_step(old(self)@, token_address@),
    {
        let token_string = token_address.to_owned();
        match self.find_token(&token_string) {
            None => {
                proof {
                    assert(!has_token(self.token_to_exchange@, token_address@));
                }
            },
            Some(i) => {
                let ghost old_fwd = self.token_to_exchange@;
                let ghost old_rev = self.exchange_to_token@;
                let ghost n = old_fwd.len() as int;
                let _ = self.token_to_exchange.remove(i);
                let _ = self.exchange_to_token.remove(i);
                proof {
                    let t = token_address@;
                    let k = i as int;
                    assert(old_fwd[k].0@ == t);
                    assert(has_token(old_fwd, t));
                    lemma_token_map_entry(old_fwd, k);
                    assert(old(self)@.token_map[t] == old_fwd[k].1@);
                    assert(old_rev[k].0@ == old_fwd[k].1@);
                    lemma_token_map_remove(old_fwd, k);
                    lemma_exchange_map_remove(old_rev, k);
                    let new_fwd = self.token_to_exchange@;
                    let new_rev = self.exchange_to_token@;
                    assert(new_fwd == old_fwd.remove(k));
                    assert(new_rev == old_rev.remove(k));
                    assert forall|j: int| 0 <= j < new_fwd.len() implies (#[trigger] new_rev[j]).0@
                        == new_fwd[j].1@ && new_rev[j].1@ == new_fwd[j].0@ by {
                        if j < k {
                            assert(new_fwd[j] == old_fwd[j] && new_rev[j] == old_rev[j]);
                        } else {
                            assert(new_fwd[j] == old_fwd[j + 1] && new_rev[j] == old_rev[j + 1]);
                        }
                    }
                    assert forall|j: int| 0 <= j < new_fwd.len() implies (#[trigger] new_fwd[j]).1@
                        == (ExchangeView {
                        token: new_fwd[j].0@,
                        factory: factory_label(),
                        server: self.server@,
                    }) by {
                        if j < k {
                            assert(new_fwd[j] == old_fwd[j]);
                        } else {
                            assert(new_fwd[j] == old_fwd[j + 1]);
                        }
                    }
                    assert(self@ =~= remove_step(old(self)@, t));
                }
            },
        }
    }
}

/// Whether `tm` and `em` are exact inverses of each other: every pair
/// present in one is present, flipped, in the other, with no orphans.
pub open spec fn maps_inverse(
    tm: Map<Seq<char>, ExchangeView>,
    em: Map<ExchangeView, Seq<char>>,
) -> bool {
    &&& forall|t: Seq<char>| #[trigger]
        tm.contains_key(t) ==> em.contains_key(tm[t]) && em[tm[t]] == t
    &&& forall|e: ExchangeView| #[trigger]
        em.contains_key(e) ==> tm.contains_key(em[e]) && tm[em[e]] == e
}

/// Inverse-map law: in every well-formed registry, and so after every
/// sequence of registry operations, the forward and reverse maps are
/// exact inverses of each other.
pub proof fn lemma_registry_maps_inverse(f: &DerivexFactory)
    requires
        f.wf(),
    ensures
        maps_inverse(f@.token_map, f@.exchange_map),
{
    let fwd = f.token_to_exchange@;
    let rev = f.exchange_to_token@;
    assert forall|t: Seq<char>| #[trigger] f@.token_map.contains_key(t) implies f@
        .exchange_map.contains_key(f@.token_map[t]) && f@.exchange_map[f@.token_map[t]] == t by {
        let i = token_index_of(fwd, t);
        assert(0 <= i < fwd.len() && fwd[i].0@ == t);
        lemma_token_map_entry(fwd, i);
        assert(f@.token_map[t] == fwd[i].1@);
        assert(rev[i].0@ == fwd[i].1@ && rev[i].1@ == fwd[i].0@);
        lemma_exchange_map_entry(rev, i);
    }
    assert forall|e: ExchangeView| #[trigger] f@.exchange_map.contains_key(e) implies f@
        .token_map.contains_key(f@.exchange_map[e]) && f@.token_map[f@.exchange_map[e]] == e by {
        let i = exchange_index_of(rev, e);
        assert(0 <= i < rev.len() && rev[i].0@ == e);
        lemma_exchange_map_entry(rev, i);
        assert(f@.exchange_map[e] == rev[i].1@);
        assert(fwd[i].0@ == rev[i].1@ && fwd[i].1@ == rev[i].0@);
        lemma_token_map_entry(fwd, i);
    }
}

/// Cardinality law: in every well-formed registry the forward and
/// reverse maps are finite and hold exactly the same number of entries.
pub proof fn lemma_registry_maps_same_cardinality(f: &DerivexFactory)
    requires
        f.wf(),
    ensures
        f@.token_map.dom().finite(),
        f@.exchange_map.dom().finite(),
        f@.token_map.dom().len() == f@.exchange_map.dom().len(),
{
    lemma_token_map_len(f.token_to_exchange@);
    lemma_exchange_map_len(f.exchange_to_token@);
}

/// Stamping law: every registered exchange is exactly the value that
/// was stamped for its token at creation time, carrying the owning
/// registry's server identity; entries are never re-stamped.
pub proof fn lemma_registry_entries_stamped(f: &DerivexFactory)
    requires
        f.wf(),
    ensures
        forall|t: Seq<char>| #[trigger]
            f@.token_map.contains_key(t) ==> f@.token_map[t] == created_exchange(f@, t),
{
    let fwd = f.token_to_exchange@;
    assert forall|t: Seq<char>| #[trigger] f@.token_map.contains_key(t) implies f@.token_map[t]
        == created_exchange(f@, t) by {
        let i = token_index_of(fwd, t);
        assert(0 <= i < fwd.len() && fwd[i].0@ == t);
        lemma_token_map_entry(fwd, i);
    }
}

/// Uniqueness law: a create for `t` that succeeded makes an immediate
/// second create for `t` fail with `DuplicateToken` and leave the
/// registry state exactly as it was after the first call.
pub proof fn lemma_create_twice(r: RegistryView, t: Seq<char>)
    requires
        create_outcome(r, t) is Ok,
    ensures
        create_outcome(create_step(r, t), t) == Err::<ExchangeView, DerivexError>(
            DerivexError::DuplicateToken,
        ),
        create_step(create_step(r, t), t) == create_step(r, t),
{
    assert(create_step(r, t).token_map.contains_key(t));
}

/// Idempotent-removal law: removing `t` twice in a row yields the same
/// registry state as removing it once.
pub proof fn lemma_remove_idempotent(r: RegistryView, t: Seq<char>)
    ensures
        remove_step(remove_step(r, t), t) == remove_step(r, t),
{
    let r1 = remove_step(r, t);
    assert(!r1.token_map.contains_key(t));
}

/// Round-trip law: after a successful create for `t` yielding the
/// exchange `e`, the forward map returns `e` for `t` and the reverse
/// map returns `t` for `e`; once `t` is removed, both lookups come
/// back empty.
pub proof fn lemma_round_trip(r: RegistryView, t: Seq<char>)
    requires
        create_outcome(r, t) is Ok,
    ensures
        create_step(r, t).token_map.contains_key(t),
        create_step(r, t).token_map[t] == created_exchange(r, t),
        create_step(r, t).exchange_map.contains_key(created_exchange(r, t)),
        create_step(r, t).exchange_map[created_exchange(r, t)] == t,
        !remove_step(create_step(r, t), t).token_map.contains_key(t),
        !remove_step(create_step(r, t), t).exchange_map.contains_key(created_exchange(r, t)),
{
    let r1 = create_step(r, t);
    assert(r1.token_map[t] == created_exchange(r, t));
    assert(remove_step(r1, t).exchange_map == r1.exchange_map.remove(created_exchange(r, t)));
}

/// Empty-input law: a create for the empty token identifier always
/// fails with `InvalidToken` and changes nothing, on every registry
/// state.
pub proof fn lemma_empty_token_rejected(r: RegistryView)
    ensures
        create_outcome(r, Seq::<char>::empty()) == Err::<ExchangeView, DerivexError>(
            DerivexError::InvalidToken,
        ),
        create_step(r, Seq::<char>::empty()) == r,
{
}

impl Default for DerivexFactory {
    /// An empty registry with an empty server identity.
    fn default() -> (r: Self)
        ensures
            r.wf(),
            r@.server == Seq::<char>::empty(),
            r@.token_map == Map::<Seq<char>, ExchangeView>::empty(),
            r@.exchange_map == Map::<ExchangeView, Seq<char>>::empty(),
            r@.id_map == Map::<u64, Seq<char>>::empty(),
    {
        DerivexFactory::new(String::new())
    }
}

} // verus!
