//! Verified logic of the Graphify plugins.
pub mod argus;
pub mod blocks;
pub mod cli;
pub mod clock;
pub mod crg;
pub mod decimal;
pub mod doctor;
pub mod gitignore;
pub mod graph;
pub mod guard;
pub mod handoff;
pub mod impact;
pub mod json;
pub mod names;
pub mod opendoc;
pub mod order;
pub mod packet;
pub mod paths;
pub mod plugin;
pub mod radius;
pub mod relay;
pub mod render;
pub mod resolver;
pub mod retest;
pub mod review;
pub mod root;
pub mod seeds;
pub mod skeleton;
pub mod skill_install;
pub mod state;
pub mod template;
pub mod text;
