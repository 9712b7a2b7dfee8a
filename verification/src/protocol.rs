pub mod resp2;
