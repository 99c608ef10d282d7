//! Interactive front end of a command shell: line editing, history, completion,
//! background job bookkeeping, builtin commands and prompts.
use vstd::prelude::*;

pub mod builtin;
pub mod completion;
pub mod editor;
pub mod history;
pub mod jobs;
pub mod prompt;
pub mod session;
pub mod sorted;
pub mod text;

verus! {

} // verus!
