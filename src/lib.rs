//! Request routing and dispatch: path templates with literal, variable and
//! wildcard segments are bound to handlers per HTTP method, and a request path
//! is resolved to exactly one handler invocation.

pub mod text;
pub mod response;
pub mod pattern;
pub mod method;
pub mod params;
pub mod producer;
pub mod dispatcher;

pub use dispatcher::{Descriptor, Dispatcher, RouteDatas};
pub use method::{is_method_attribute_valid, Method};
pub use params::Params;
pub use pattern::{Matcher, Segment};
pub use producer::{Dummy, DummyProducer, Producer};
pub use response::{ConfigError, Resp};
pub use text::{remove_trailling_slash, split_route};
