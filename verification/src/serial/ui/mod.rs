pub mod collection;
