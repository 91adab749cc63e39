pub mod agent;
pub mod collaboration;
pub mod configuration;
pub mod digest;
pub mod memory;
pub mod orchestration;
pub mod order;
pub mod ranking;
pub mod request;
pub mod retrieval;
pub mod session;
pub mod supervision;
pub mod text;
pub mod tool_exchange;
pub mod turn;
