//! A multi-modal trip planner over a compact timetable.

pub mod answer_laws;
pub mod archive;
pub mod calendar;
pub mod columns;
pub mod data;
pub mod feed;
pub mod feed_laws;
pub mod file;
pub mod grid;
pub mod gtfs;
pub mod heap;
pub mod lists;
pub mod loader;
pub mod map_laws;
pub mod message;
pub mod osm;
pub mod osm_xml;
pub mod output;
pub mod path_laws;
pub mod pattern;
pub mod pattern_laws;
pub mod plan_laws;
pub mod planner;
pub mod raptor;
pub mod raptor_complete;
pub mod raptor_laws;
pub mod raptor_model;
pub mod raptor_sound;
pub mod records;
pub mod request;
pub mod request_laws;
pub mod ride_laws;
pub mod router;
pub mod service_laws;
pub mod storage;
pub mod storage_laws;
pub mod streets;
pub mod table;
pub mod table_laws;
pub mod text;
pub mod text_laws;
pub mod transfer_laws;
pub mod transfers;
pub mod types;
pub mod viz;
pub mod viz_laws;
pub mod walk;
pub mod walk_laws;
pub mod walker;
