pub mod fixed_queue;

pub use self::fixed_queue::FixedQueue;
