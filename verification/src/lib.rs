//! Decision logic of the COSMIC bootc installer.
//!
//! The engine side: [`install`] (requests, events, errors and the static
//! checks), [`probe`] (what a disk holds), [`partition`] (realizing a
//! partition plan), [`mount`], [`luks`], [`steps`], [`bootc`] and [`bls`]
//! (the work of the single steps) and [`pipeline`] (their order). Work on
//! the outside is described by [`command`] and carried out elsewhere.
//!
//! The daemon side: [`service`] (one install at a time), [`osprobe`] (what
//! runs from a partition) and [`wifi`].
//!
//! The wizard: [`app`] (its state machine) with [`pages`], [`layout`],
//! [`disk_bar`], [`wifi_page`], [`choices`], [`images_json`], [`branding`]
//! and [`logbuf`]. [`cli`] is the driver for the command line.
//!
//! [`text`], [`path`] and [`measure`] hold what the rest is written in.
pub mod app;
pub mod bls;
pub mod bootc;
pub mod branding;
pub mod choices;
pub mod cli;
pub mod command;
pub mod disk_bar;
pub mod images_json;
pub mod install;
pub mod layout;
pub mod logbuf;
pub mod luks;
pub mod measure;
pub mod mount;
pub mod osprobe;
pub mod pages;
pub mod partition;
pub mod path;
pub mod pipeline;
pub mod probe;
pub mod service;
pub mod steps;
pub mod text;
pub mod wifi;
pub mod wifi_page;
