pub mod trv;
