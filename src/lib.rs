//! Broker engine of an edge pub/sub gateway: the MQTT v5 codec, the
//! websocket-over-HTTP event codec, retained-message versioning, the MQTT
//! session handler, the SSE subscribe handler and the publish fan-out.

pub mod admin;
pub mod auth;
pub mod config;
pub mod events;
pub mod grip;
pub mod mqtthandler;
pub mod mqttpacket;
pub mod mqtttransport;
pub mod publish;
pub mod storage;
pub mod text;
pub mod version;
pub mod websocket;
