//! A small single-threaded executor for asynchronous tasks.
//!
//! [`runtime`] holds the executor: the queue of tasks, the rules by which they are polled, and
//! the interface through which users hand it futures and wait for them. [`futures`] holds a
//! future for users of the runtime.
#![allow(unused_imports)]

pub mod futures;
pub mod runtime;
