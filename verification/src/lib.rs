//! The verified core of a bridge between Matrix rooms and Discord channels.

pub mod admin_commands;
pub mod appservice;
pub mod avatar;
pub mod cache;
pub mod config;
pub mod crypto;
pub mod db;
pub mod discord_api;
pub mod discord_client;
pub mod error;
pub mod http;
pub mod json;
pub mod markdown;
pub mod matrix_client;
pub mod message;
pub mod number;
pub mod pattern;
pub mod shell;
pub mod table;
pub mod text;
pub mod user_commands;
pub mod utils;
pub mod web;
