//! A subscription registry and event-dispatch core for a chat bot that relays
//! build, review-request and test events from a message broker to chat rooms.
pub mod text;
pub mod key;
pub mod build_res;
pub mod submitrequests;
pub mod openqa;
pub mod registry;
pub mod common;
pub mod events;
pub mod leave;
pub mod help;
