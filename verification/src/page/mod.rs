pub mod opcode;
pub mod operator;
pub mod content_syntax;
pub mod content_parser;
pub mod content_builder;
pub mod graph_state;
pub mod graphic_state;
pub mod general_state;
pub mod text_state;
pub mod clip_path;
pub mod text_object;
pub mod content_round_trip;
pub mod operator_table;
