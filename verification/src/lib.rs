//! The decision core of a network drive client: what to upload, move, remove,
//! keep or fetch, decided on plain values.
pub mod agenda;
pub mod app_config;
pub mod args;
pub mod cache;
pub mod client;
pub mod compact;
pub mod config;
pub mod conflict;
pub mod delta;
pub mod durability;
pub mod edge_laws;
pub mod fetch;
pub mod fold_laws;
pub mod gui;
pub mod ico;
pub mod inodes;
pub mod journal;
pub mod journal_laws;
pub mod ledger;
pub mod ledger_laws;
pub mod listing;
pub mod login;
pub mod model;
pub mod path;
pub mod pipe;
pub mod placeholder;
pub mod placeholder_laws;
pub mod platform;
pub mod play;
pub mod replay;
pub mod replay_ends;
pub mod replay_laws;
pub mod rows;
pub mod scheduler;
pub mod sdk;
pub mod sdk_laws;
pub mod settle;
pub mod settle_laws;
pub mod state;
pub mod state_laws;
pub mod table;
pub mod text;
pub mod upkeep_laws;
pub mod upload;
pub mod view;
pub mod view_laws;
pub mod volume;
