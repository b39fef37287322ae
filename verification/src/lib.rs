pub mod index;
pub mod order;
pub mod pages;
pub mod tags;
pub mod template;
pub mod text;

pub use index::{filter_entries_by_tag, Entry, TagIndex};
pub use pages::{generate_entry_pages, generate_site, generate_tag_pages, Page, Site, SiteSource};
pub use tags::get_tags;
pub use template::{replace_placeholders, txt_to_html, Placeholder};
