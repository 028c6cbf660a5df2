pub mod dns_serde;
pub mod dns_type;
pub mod label_seq;
pub mod dns_header;
pub mod dns_question;
pub mod dns_answer;
pub mod dns_packet;
pub mod query_handler;
pub mod create_response;
