//! The core of a contract-testing DSL. A reel is a sequence of frames, each
//! one scripted exchange: a request template and the response expected for
//! it. Values seen in one response are written to a register of named
//! variables and put into later requests through `${NAME}` placeholders.
//!
//! - [`cut`]: the register, its merge and its sorted serialization.
//! - [`placeholder`], [`resolve`]: placeholders and their substitution in
//!   texts and in whole documents.
//! - [`matching`]: checking an observed document against a template in
//!   which a placeholder stands for anything.
//! - [`frame`]: frames, their instructions, and their documents.
//! - [`exchange`]: one exchange of a frame, from the request to the writes.
//! - [`vreel`]: virtual reels and the plan that is put together from one.
//! - [`run`]: running a plan frame by frame.
//! - [`json`]: JSON text and queries, through `serde_json` and `jql`.
//! - [`document`], [`error`], [`number`], [`ordered`], [`text`]: what the
//!   others build on.
//!
//! The library sends nothing and reads no file: whoever drives a run hands
//! it the texts of files and of responses.

pub mod cut;
pub mod document;
pub mod error;
pub mod exchange;
pub mod frame;
pub mod json;
pub mod matching;
pub mod number;
pub mod ordered;
pub mod placeholder;
pub mod resolve;
pub mod run;
pub mod text;
pub mod vreel;
