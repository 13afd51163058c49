//! Resolving, searching and showing time zones for a menu bar clock.
pub mod resolver;
pub mod search;
pub mod sorting;
pub mod text;
pub mod timezone;
pub mod zones;
pub mod settings;
pub mod preferences;
pub mod menu;
