//! Triage of the commits between an earlier revision and the branch tip:
//! path filtering, grouping by pull request, the navigable entry list and
//! the changelog draft.

pub mod entries;
pub mod filter;
pub mod git;
pub mod github;
pub mod laws;
pub mod render;
pub mod text;
pub mod tui;
