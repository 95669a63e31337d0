pub mod heap_buffer;
pub mod non_zero;
pub mod ordered_result;
pub mod result_buffer;
