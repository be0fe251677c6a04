[package]
name = "advent_calendar"
version = "0.1.0"
edition = "2021"
publish = false

[dependencies]
pathfinding = "4"
regex = "1"
