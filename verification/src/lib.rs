//! Rule-based NPC town simulation: the integer core of towns, NPCs, their
//! relationships, beliefs and goals, the town economy, and world events.

pub mod id;
pub mod arith;
pub mod belief;
pub mod relationship;
pub mod economy;
pub mod event;
pub mod goal;
pub mod town;
pub mod sorted_ids;
pub mod disaster;
pub mod disease;
pub mod war;
pub mod statistics;
pub mod relationship_map;
pub mod npc;
pub mod text;
pub mod random;
pub mod world;
pub mod migration;
pub mod population;
pub mod utility;
pub mod config;
pub mod trade_game;
pub mod extensions;
pub mod ledger;
pub mod economy_cycle;
pub mod society;
pub mod yearly;
pub mod crisis;
pub mod family;
pub mod health;
pub mod history;
pub mod timeline;
