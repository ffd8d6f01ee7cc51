pub mod ansi;
pub mod app;
pub mod complete;
pub mod completion_laws;
pub mod drawing_laws;
pub mod edit;
pub mod engine;
pub mod event;
pub mod history;
pub mod json;
pub mod laws;
pub mod lines;
pub mod load;
pub mod model_laws;
pub mod path;
pub mod result_laws;
pub mod screen;
pub mod session_laws;
pub mod sort;
pub mod text;
