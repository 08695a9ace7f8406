pub mod bundle;
pub mod languages;
pub mod locales;
pub mod manager;

pub use bundle::{parse_bundle, BundleMap};
pub use languages::load_bundles;
pub use manager::LocalizationManager;
