pub mod balances;
