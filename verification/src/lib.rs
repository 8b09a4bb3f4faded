//! Verified logic of a home lighting automation service.

pub mod actor;
pub mod amount;
pub mod bounds;
pub mod calendar;
pub mod clicks;
pub mod color;
pub mod command;
pub mod config;
pub mod course;
pub mod cubic;
pub mod curve;
pub mod daylight;
pub mod deadlines;
pub mod decimal;
pub mod delivery;
pub mod dispatch;
pub mod double;
pub mod effects;
pub mod evenness;
pub mod health;
pub mod input;
pub mod json;
pub mod lifetime;
pub mod message;
pub mod light;
pub mod mqtt;
pub mod natural;
pub mod ordered;
pub mod overlay;
pub mod pause;
pub mod persistence;
pub mod pulses;
pub mod rates;
pub mod reach;
pub mod reconcile;
pub mod reconciler;
pub mod redaction;
pub mod runtime;
pub mod scheduler;
pub mod season;
pub mod sending;
pub mod service;
pub mod setup;
pub mod sharing;
pub mod sky;
pub mod slopes;
pub mod smooth;
pub mod solar;
pub mod startup;
pub mod state;
pub mod text;
pub mod tints;
pub mod topology;
pub mod turns;
pub mod value;
pub mod wire;
pub mod zigbee2mqtt;
