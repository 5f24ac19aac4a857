pub mod insecure;
