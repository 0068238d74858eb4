pub mod gost_28147_89;
