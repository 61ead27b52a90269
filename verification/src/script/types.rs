pub mod bash;
