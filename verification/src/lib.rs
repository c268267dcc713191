//! The rules of a small turn-based dungeon crawler: combat statistics, dungeon
//! floor layout, pathfinding, monster behaviour and the turn loop, each stated
//! and proved with Verus.

pub mod ai;
pub mod attack;
pub mod board;
pub mod class1;
pub mod combat;
pub mod components;
pub mod data;
pub mod drain_crystals;
pub mod end_of_turn;
pub mod enemy_controller;
pub mod rng;
pub mod spawn;
pub mod stages;
pub mod systems;
pub mod tiles;
pub mod turns;
pub mod view;
pub mod generate_dungeon;
pub mod movement;
pub mod player_controller;
pub mod world;
pub mod entities;
pub mod game;
pub mod items;
pub mod level;
pub mod weapons;
