//! A bounded concurrent task admission pool, modelled as an explicit state
//! machine.
//!
//! A [`gate::Gate`] is a counting admission control with a fixed number of
//! permits; a [`pool::TaskPool`] owns a completion collector for tasks of one
//! result type. Several pools (siblings) may admit work through one gate, so
//! that shared gate is the sole point of cross-pool capacity sharing. The pool's
//! operations are decision functions: an executor drives them, performs the
//! actual waiting and running, and reports each task's fate back as an event.

pub mod gate;
pub mod laws;
pub mod pool;
