//! Procedural music from git repositories.
//!
//! A repository is read ([`extract`]), measured ([`analyze`], [`history`]), composed
//! ([`compose`]) and written down ([`render`]). Every stage is a function of its input, so
//! the same repository always makes the same piece, with one exception: the functions of a
//! Rust or JavaScript file with characters outside ASCII are those of its syntax tree, in
//! which the C library and its locale have a say ([`syntax::steady`]). What holds of every
//! piece is stated in [`harmony`] and [`foundation`], and what the stages make of their input
//! in [`laws`].

pub mod analyze;
pub mod binary;
pub mod compose;
pub mod compose_history;
pub mod config;
pub mod drone;
pub mod encoding;
pub mod extract;
pub mod fits;
pub mod foundation;
pub mod harmony;
pub mod history;
pub mod laws;
pub mod midi;
pub mod model;
pub mod motif;
pub mod paths;
pub mod phrases;
pub mod playing;
pub mod render;
pub mod rng;
pub mod sections;
pub mod settings;
pub mod sorting;
pub mod syntax;
pub mod text;
pub mod theme;
pub mod theory;
pub mod voices;
pub mod wav;

pub use analyze::{analyze_file, analyze_text, build_units};
pub use binary::{divide, Real};
pub use compose::{compose, compose_static, ComposeParams, BAR, SLOT, TPQ};
pub use compose_history::compose_history;
pub use config::{choose_config, load, ConfigError, Entry, RepoConfig};
pub use extract::{
    log_args, parse_log, read_batch, read_count, read_listing, read_log, read_root, read_text,
    BlobEntry, ExtractError, RawCommit, RawFile,
};
pub use fits::composable;
pub use history::{build_history_model, is_bot};
pub use midi::{encode_tracks, finish_write, ChannelMessage, Message, Meta, MidiEvent};
pub use model::{
    Author, CodeUnit, CommitNode, FnUnit, Key, Lang, NoteEvent, RepoModel, Scale, Score, Tick,
    Voice,
};
pub use render::{can_render, midi_tracks, render_midi, ENGINE_VERSION};
pub use rng::{fnv1a, Rng};
pub use settings::{
    bar_count, choose_compression, choose_params, choose_seed, commit_limit, output_kind,
    output_path, scale_flag, static_model, summary, OutputKind,
};
pub use syntax::{parse_nodes, Grammar, SyntaxNode};
pub use theme::{ops_for_diff, slot_weight, Theme, ThemeNote};
pub use theory::{midi_to_steps, pick_positions, steps_to_midi, Contour, MelodyWalk};
pub use wav::{can_write_wav, sample, write_wav, SAMPLE_RATE};
