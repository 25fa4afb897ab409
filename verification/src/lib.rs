//! Timekeeper: noting down and booking the time that a TimeFlip2 has logged.
//!
//! The crate holds the rules of the program: which log entries are listed, how
//! they turn into bookings, which requests go to JIRA and what each key does.
//! Its contracts are proved, but for those of a few private functions that call
//! other crates or the standard library: what these say of the calls is believed.
//! Talking to the device, to JIRA and to the terminal is left to the program
//! around it.

pub mod app;
pub mod booker;
pub mod booking;
pub mod booking_view;
pub mod calendar;
pub mod config;
pub mod duration;
pub mod entries;
pub mod layout;
pub mod patterns;
pub mod progress;
pub mod session;
pub mod shares;
pub mod stateful_list;
pub mod suggestions;
pub mod text;
pub mod views;
pub mod xdo;
