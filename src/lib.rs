pub mod dce;
pub mod ir;
pub mod laws;
pub mod link;
pub mod loops;
pub mod machine;
pub mod pipeline;
