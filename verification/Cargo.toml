[package]
name = "ncd_predict"
version = "0.1.0"
edition = "2021"
publish = false

[dependencies]
miniz_oxide = "=0.9.1"
rand = "=0.8.8"
rayon = "=1.12.0"
once_cell = "=1.21.4"
indicatif = "=0.17.11"
knn = "=0.1.3"
