pub mod add;
pub mod commit;
