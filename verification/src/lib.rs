//! The host-side logic of the DeepSeek-V4.1 Flash layers, with proofs.

pub mod attn;
pub mod attn_cfg;
pub mod attn_flow;
pub mod attn_laws;
pub mod attn_memory;
pub mod attn_order;
pub mod attn_steps;
pub mod bytes;
pub mod compress;
pub mod dataflow;
pub mod device;
pub mod device_memory;
pub mod float_bits;
pub mod index_select;
pub mod loader;
pub mod loader_laws;
pub mod moe;
pub mod moe_flow;
pub mod moe_laws;
pub mod moe_plan;
pub mod moe_route;
pub mod names;
pub mod quant;
pub mod rows;
pub mod select;
pub mod store;
pub mod topk;
pub mod topk_laws;
pub mod window;
