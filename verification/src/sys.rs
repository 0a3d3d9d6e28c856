pub mod byte_repr;
