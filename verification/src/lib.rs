pub mod model;
pub mod generator;
pub mod laws;
pub mod next;
pub mod recover;
pub mod schema;
pub mod validate;
pub mod node;
pub mod text;

pub use generator::BacklogGenerator;
pub use model::{Backlog, BacklogError, DeliverableSpec, Epic, Task, TaskState};
pub use next::get_ready_tasks;
pub use recover::{backlog_from_yaml, backlog_to_yaml, extract_yaml_content, parse_and_validate_yaml, try_fix_json_errors};
pub use node::Node;
