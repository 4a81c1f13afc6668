//! A floating pane dock: a row of panes anchored to one edge of a window
//! that can be reordered by dragging, closed with a click on their header,
//! and that ease towards their slots whenever the row changes.
//!
//! The crate holds the logic of the dock and leaves drawing, windows and
//! the widget tree to a host. The host hands over plain values (the
//! identities of the live panes, pointer positions, the time since the last
//! frame, measured sizes) and carries out what the dock asks for in turn.
//!
//! Every length is a whole number of layout units; `config::DockConfig`
//! says how many units make one pixel. An offset is the distance of a pane
//! from the anchored edge. The contracts speak of the entries over
//! unbounded integers (`entry::Slot`); an operation whose results might not
//! fit the stored integers says so in its `requires`, and `limits` offers a
//! check at run time for each such condition.
//!
//! - `solver`: where a pane goes, given the other panes; the repair pass.
//! - `settled`, `fixed`: a dock that the repair pass leaves alone has no
//!   overlapping panes.
//! - `reconcile`, `reconcile_laws`, `plan`: creating and destroying panes
//!   as identities come and go.
//! - `animation`: the step that eases displayed offsets towards targets.
//! - `events`, `drag`, `hit`: the state machine of pointer gestures.
//! - `layout`, `widgets`, `geometry`: rectangles for the host to draw.
//! - `state`: the identities that the application keeps.

pub mod animation;
pub mod config;
pub mod dock;
pub mod drag;
pub mod entry;
pub mod events;
pub mod fixed;
pub mod geometry;
pub mod hit;
pub mod layout;
pub mod limits;
pub mod plan;
pub mod reconcile;
pub mod reconcile_laws;
pub mod settled;
pub mod solver;
pub mod state;
pub mod widgets;
