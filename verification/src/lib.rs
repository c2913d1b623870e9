//! Content handling for a small site generator: dates, front matter, tags,
//! slugs, sitemaps and the text transformations behind the rendered pages.

pub mod assets;
pub mod cache;
pub mod date;
pub mod err;
pub mod fossil;
pub mod index;
pub mod markdown;
pub mod paths;
pub mod refresh;
pub mod search;
pub mod site;
pub mod sitemap;
pub mod tags;
pub mod templates;
pub mod text;
