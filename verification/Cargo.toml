[package]
name = "turbopack_ecmascript"
version = "0.1.0"
edition = "2021"
publish = false

[dependencies]
anyhow = "=1.0.104"
indoc = "=2.0.8"
serde_json = "1"
swc_core = { version = "=82.2.0", features = ["common", "ecma_ast", "ecma_visit", "ecma_transforms", "ecma_utils", "ecma_parser", "ecma_codegen"] }
