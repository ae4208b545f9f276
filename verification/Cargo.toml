[package]
name = "xml_oxydizer"
version = "0.2.0"
edition = "2021"
publish = false

[dependencies]
quick-xml = "=0.38.4"
smallvec = "=1.16.4"
crossbeam-channel = "=0.5.17"
rayon = "=1.12.0"
thiserror = "=2.0.21"
