use vstd::prelude::*;

mod cache;
mod cli;
mod clock;
mod codec;
mod errors;
mod ledger;
mod metadata;
mod paths;
mod respond;
mod rng;
mod session;
mod scan;
mod selector;
mod slot;
mod text;
mod weight;

pub use cache::ScanCache;
pub use cache::ScanCacheRecord;
pub use cache::get_or_scan;
pub use cache::two_rounds_on_same_root;
pub use cli::Cli;
pub use cli::choose_root;
pub use codec::encode_history;
pub use codec::lemma_codec_round_trip;
pub use codec::lemma_history_round_trip;
pub use codec::load_history;
pub use codec::models;
pub use codec::parse_history;
pub use codec::spec_encode_ledger;
pub use codec::spec_parse_ledger;
pub use codec::wf_model;
pub use errors::AppError;
pub use selector::VideoEntry;
pub use selector::build_entries;
pub use selector::is_valid_selection;
pub use selector::lemma_single_candidate_selected;
pub use selector::pick_index;
pub use selector::scaled_weight;
pub use selector::select;
pub use selector::spec_scaled_weight;
pub use selector::spec_sum;
pub use slot::SharedSelectionSlot;

pub use clock::now_timestamp_micros;
pub use ledger::HistoryEntry;
pub use metadata::FfprobeError;
pub use metadata::ProbeStream;
pub use metadata::VideoMetadata;
pub use metadata::format_duration_string;
pub use metadata::parse_ffprobe_output;
pub use metadata::spec_duration_secs;
pub use metadata::spec_format_duration;
pub use session::Session;
pub use session::SessionAction;
pub use session::SessionEvent;
pub use session::SessionState;
pub use ledger::add_to_history;
pub use ledger::count_picks;
pub use ledger::record;
pub use ledger::sorted_desc;
pub use ledger::spec_count;
pub use paths::file_name_of;
pub use paths::get_history_path;
pub use paths::recent_picks;
pub use paths::spec_file_name;
pub use respond::StreamResponse;
pub use respond::decide_stream_response;
pub use respond::stream_url;
pub use respond::stream_url_base;
pub use scan::after_last;
pub use scan::chars_le;
pub use scan::find_video_files;
pub use scan::is_video_file;
pub use scan::is_video_path;
pub use scan::paths_sorted;
pub use scan::sort_paths;
pub use scan::str_le;
pub use scan::video_views;
pub use text::chars_to_string;
pub use text::str_eq;
pub use text::string_to_chars;
pub use weight::Weight;
pub use weight::is_weight_of;
pub use weight::lemma_weight_positive_and_decreasing;
