use derivex::DerivexError;
use derivex::DerivexFactory;
use derivex::Exchange;

#[test]
fn test_create_new_exchange() {
    let mut factory = DerivexFactory::new("horizon.stellar.org".to_string());
    assert!(factory.create_new_exchange("TokenAddress").is_ok());
}

#[test]
fn test_get_exchange() {
    let mut factory = DerivexFactory::new("horizon.stellar.org".to_string());
    let _exchange = factory.create_new_exchange("TokenAddress").unwrap();
    assert!(factory.get_exchange("TokenAddress").is_some());
}

#[test]
fn test_get_token() {
    let mut factory = DerivexFactory::new("horizon.stellar.org".to_string());
    let exchange = factory.create_new_exchange("TokenAddress").unwrap();
    assert!(factory.get_token(&exchange).is_some());
}

#[test]
fn test_get_token_with_id() {
    let mut factory = DerivexFactory::new("horizon.stellar.org".to_string());
    let _exchange = factory.create_new_exchange("TokenAddress").unwrap();
    factory.set_token_id(1, "TokenAddress".to_string());

    assert_eq!(factory.get_token_with_id(1).unwrap(), "TokenAddress");
}

#[test]
fn test_create_new_exchange_error() {
    let mut factory = DerivexFactory::new("horizon.stellar.org".to_string());

    assert!(factory.create_new_exchange("").is_err());
}

#[test]
fn test_get_exchange_error() {
    let factory = DerivexFactory::new("horizon.stellar.org".to_string());

    assert!(factory.get_exchange("TokenAddress").is_none());
}

#[test]
fn test_get_token_error() {
    let factory = DerivexFactory::new("horizon.stellar.org".to_string());
    let exchange = Exchange::new(
        "TokenAddress".to_string(),
        "Factory".to_string(),
        "horizon.stellar.org".to_string(),
    );

    assert!(factory.get_token(&exchange).is_none());
}

#[test]
fn test_get_token_with_id_error() {
    let factory = DerivexFactory::new("horizon.stellar.org".to_string());

    assert!(factory.get_token_with_id(1).is_none());
}

#[test]
fn scenario_token_lifecycle() {
    let mut factory = DerivexFactory::new("horizon.stellar.org".to_string());

    let exchange = factory.create_new_exchange("TOKEN_A").unwrap();
    assert_eq!(exchange.token(), "TOKEN_A");
    assert_eq!(exchange.factory(), "Factory");
    assert_eq!(exchange.server(), "horizon.stellar.org");

    let second = factory.create_new_exchange("TOKEN_A");
    assert!(matches!(second, Err(DerivexError::DuplicateToken)));

    factory.remove_exchange("TOKEN_A");
    assert!(factory.get_exchange("TOKEN_A").is_none());

    assert!(factory.create_new_exchange("TOKEN_A").is_ok());
}

#[test]
fn create_twice_keeps_state() {
    let mut factory = DerivexFactory::new("horizon.stellar.org".to_string());
    let first = factory.create_new_exchange("TOKEN_A").unwrap();

    let second = factory.create_new_exchange("TOKEN_A");
    assert!(matches!(second, Err(DerivexError::DuplicateToken)));

    let stored = factory.get_exchange("TOKEN_A").unwrap();
    assert!(stored == first);
    assert_eq!(factory.get_token(&first).unwrap(), "TOKEN_A");
}

#[test]
fn remove_is_idempotent() {
    let mut factory = DerivexFactory::new("horizon.stellar.org".to_string());
    let exchange = factory.create_new_exchange("TOKEN_A").unwrap();
    let _other = factory.create_new_exchange("TOKEN_B").unwrap();

    factory.remove_exchange("TOKEN_A");
    factory.remove_exchange("TOKEN_A");

    assert!(factory.get_exchange("TOKEN_A").is_none());
    assert!(factory.get_token(&exchange).is_none());
    assert!(factory.get_exchange("TOKEN_B").is_some());

    assert!(factory.create_new_exchange("TOKEN_A").is_ok());
}

#[test]
fn round_trip_lookup() {
    let mut factory = DerivexFactory::new("horizon.stellar.org".to_string());
    let exchange = factory.create_new_exchange("TOKEN_A").unwrap();

    let forward = factory.get_exchange("TOKEN_A").unwrap();
    assert!(forward == exchange);
    assert_eq!(factory.get_token(&exchange).unwrap(), "TOKEN_A");

    factory.remove_exchange("TOKEN_A");
    assert!(factory.get_exchange("TOKEN_A").is_none());
    assert!(factory.get_token(&exchange).is_none());
}

#[test]
fn empty_token_rejected() {
    let mut factory = DerivexFactory::new("horizon.stellar.org".to_string());
    let _exchange = factory.create_new_exchange("TOKEN_A").unwrap();

    let rejected = factory.create_new_exchange("");
    assert!(matches!(rejected, Err(DerivexError::InvalidToken)));

    assert!(factory.get_exchange("").is_none());
    assert!(factory.get_exchange("TOKEN_A").is_some());
}

#[test]
fn describe_renders_all_fields() {
    let exchange = Exchange::new(
        "TOKEN_A".to_string(),
        "Factory".to_string(),
        "horizon.stellar.org".to_string(),
    );
    assert_eq!(
        exchange.describe(),
        "Exchange { token: TOKEN_A, factory: Factory, server: horizon.stellar.org }"
    );
}

#[test]
fn exchange_equality_is_structural() {
    let a = Exchange::new("T".to_string(), "Factory".to_string(), "S".to_string());
    let b = Exchange::new("T".to_string(), "Factory".to_string(), "S".to_string());
    let c = Exchange::new("T".to_string(), "Factory".to_string(), "other".to_string());
    assert!(a == b);
    assert!(!(a == c));
}

#[test]
fn inverse_indexes_agree_over_mixed_operations() {
    let mut factory = DerivexFactory::new("horizon.stellar.org".to_string());
    let tokens = ["ALPHA", "BETA", "GAMMA", "DELTA"];
    let mut created = Vec::new();
    for token in tokens.iter() {
        created.push(factory.create_new_exchange(token).unwrap());
    }
    factory.remove_exchange("BETA");
    factory.remove_exchange("DELTA");
    let delta_again = factory.create_new_exchange("DELTA").unwrap();

    for (token, exchange) in tokens.iter().zip(created.iter()) {
        let forward = factory.get_exchange(token);
        let backward = factory.get_token(exchange);
        match forward {
            Some(found) => {
                assert_eq!(backward.unwrap(), *token);
                assert_eq!(factory.get_token(&found).unwrap(), *token);
            }
            None => assert!(backward.is_none() || *token == "DELTA"),
        }
    }
    assert!(factory.get_exchange("BETA").is_none());
    assert_eq!(factory.get_token(&delta_again).unwrap(), "DELTA");
}

#[test]
fn id_index_is_separate_and_overwritable() {
    let mut factory = DerivexFactory::new("horizon.stellar.org".to_string());
    factory.set_token_id(1, "TOKEN_A".to_string());
    factory.set_token_id(2, "TOKEN_B".to_string());
    factory.set_token_id(1, "TOKEN_C".to_string());

    assert_eq!(factory.get_token_with_id(1).unwrap(), "TOKEN_C");
    assert_eq!(factory.get_token_with_id(2).unwrap(), "TOKEN_B");
    assert!(factory.get_token_with_id(3).is_none());

    // The id index has no tie to the primary maps: it keeps its entry
    // even though no such token was ever registered.
    assert!(factory.get_exchange("TOKEN_C").is_none());
}

#[test]
fn default_registry_is_empty() {
    let mut factory = DerivexFactory::default();
    assert!(factory.get_exchange("TOKEN_A").is_none());

    let exchange = factory.create_new_exchange("TOKEN_A").unwrap();
    assert_eq!(exchange.server(), "");
}
