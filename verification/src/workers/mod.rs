pub mod basic_worker;
pub mod cancelable_worker;
pub mod channel;
pub mod methods;
pub mod ordered_worker;
pub mod thread;
pub mod ordered_cancelable_worker;
