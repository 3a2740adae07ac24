//! In-memory registry that binds token identifiers to the exchanges
//! trading them, keeping a forward index (token to exchange) and a
//! reverse index (exchange to token) in exact mutual agreement across
//! create, lookup, and remove operations.

pub mod account;
pub mod exchange;
pub mod registry;

pub use account::CreateAccountError;
pub use account::CreateAccountOptions;
pub use exchange::Exchange;
pub use exchange::ExchangeView;
pub use registry::DerivexError;
pub use registry::DerivexFactory;
pub use registry::RegistryView;
