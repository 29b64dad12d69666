pub mod lcis;
