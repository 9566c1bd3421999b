[package]
name = "message_log"
version = "0.1.0"
edition = "2021"
publish = false

[dependencies]
serde_json = { version = "=1.0.154", features = ["raw_value"] }
serde = { version = "=1.0.229", features = ["derive"] }
lambda_http = "=1.3.2"
aws-config = "=1.12.0"
aws-types = "=1.6.0"
aws-sdk-s3 = "=1.152.0"
aws-sdk-dynamodb = "=1.131.0"
tokio = { version = "=1.54.1", features = ["macros", "rt-multi-thread"] }
futures = "=0.3.34"
tracing = "=0.1.44"
tracing-subscriber = { version = "=0.3.23", features = ["json", "env-filter"] }
anyhow = "=1.0.104"
