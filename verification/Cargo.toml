[package]
name = "dynamodb_crud"
version = "0.1.0"
edition = "2021"
publish = false

[dependencies]
aws-sdk-dynamodb = { version = "=1.134.0", default-features = false }
indexmap = "=2.14.2"
serde = "=1.0.229"
serde_dynamo = { version = "=4.3.0", features = ["aws-sdk-dynamodb+1"] }
