pub mod loader_item;
