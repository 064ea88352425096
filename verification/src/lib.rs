pub mod addr;
pub mod address_laws;
pub mod arp;
pub mod auth;
pub mod backup;
pub mod config;
pub mod conflict_laws;
pub mod domain;
pub mod error;
pub mod file;
pub mod form;
pub mod guard_laws;
pub mod html;
pub mod json;
pub mod lease_laws;
pub mod lease_page;
pub mod lease_page_laws;
pub mod leases;
pub mod list;
pub mod list_laws;
pub mod mac;
pub mod markup_laws;
pub mod number;
pub mod operation;
pub mod order;
pub mod page_laws;
pub mod paste;
pub mod paste_laws;
pub mod query;
pub mod reading_laws;
pub mod reload;
pub mod reply_laws;
pub mod row_laws;
pub mod save;
pub mod state;
pub mod text;
pub mod text_laws;
pub mod web;
pub mod writing_laws;
