//! shotsort: the verified core of an in-card photo and video organizer.

pub mod cli;
pub mod clock;
pub mod clock_laws;
pub mod config;
pub mod config_laws;
pub mod date_laws;
pub mod datesrc;
pub mod dating_laws;
pub mod engine;
pub mod engine_laws;
pub mod filetype;
pub mod guard;
pub mod journal;
pub mod journal_laws;
pub mod match_laws;
pub mod matchcmd;
pub mod order;
pub mod path_laws;
pub mod paths;
pub mod pixcake;
pub mod pixcake_laws;
pub mod plan;
pub mod plan_laws;
pub mod report;
pub mod report_laws;
pub mod run;
pub mod run_laws;
pub mod scan;
pub mod series;
pub mod series_laws;
pub mod shot_laws;
pub mod target;
pub mod target_laws;
pub mod template;
pub mod template_laws;
pub mod text;
pub mod text_laws;
pub mod types;
pub mod undo;
pub mod undo_laws;
pub mod util;
pub mod util_laws;
