[package]
name = "neo4j-csv"
version = "0.1.0"
edition = "2021"
publish = false

[dependencies]
property-graph-model = "*"
thiserror = "*"
