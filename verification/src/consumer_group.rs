//! Consumer groups: named readers and writers of topics.

pub mod consumer_group;
