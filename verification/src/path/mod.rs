pub mod pdf_path;
