[package]
name = "ch"
version = "0.1.0"
edition = "2021"
publish = false

[dependencies]
anyhow = "1"
clap = "4"
csv = "1"
failure = "0.1"
fnv = "1"
geojson = "*"
memmap = "0.7"
ordslice = "*"
osmpbf = "*"
rayon = "1"
s2 = "*"
serde = { version = "1", features = ["derive"] }
serde_derive = "1"
shapefile = "*"
stopwatch = "*"
took = "*"
